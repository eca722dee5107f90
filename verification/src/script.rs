//! The rules' script hooks are run around this library; this is why
//! they could not be used.
use vstd::prelude::*;

verus! {

/// Why the scripts could not be used.
#[derive(Debug, PartialEq, Eq)]
pub enum ScriptError {
    Io(String),
    Compile(String),
    /// A hook failed or returned something unexpected.
    Call { hook: &'static str, message: String },
}

} // verus!
