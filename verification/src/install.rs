//! Why loading a game installation failed.
use vstd::prelude::*;
use crate::col::ColError;
use crate::shapes::ShapeIndexError;
use crate::shp::ShpError;
use crate::tarc::TarcError;
use crate::typefile::ParseError;

verus! {

#[derive(Debug)]
pub enum InstallError {
    Shp(ShpError),
    Tarc(TarcError),
    Col { file: String, error: ColError },
    Type { file: String, error: ParseError },
    Index(ShapeIndexError),
}

} // verus!
