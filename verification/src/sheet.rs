//! A sprite sheet a mod brings for a type: one picture plus an index of
//! its frames in the type's animation order. The index is TOML; reading
//! and writing it is done around this library, which holds the values.
use vstd::prelude::*;

verus! {

#[derive(Clone, Debug, PartialEq, Eq)]
pub struct Sheet {
    /// Picture file next to the index, GIF or PNG.
    pub image: String,
    pub frames: Vec<SheetFrame>,
}

#[derive(Clone, Debug, PartialEq, Eq)]
pub struct SheetFrame {
    /// Animation letter as in the type file: `A` to `H` are the eight
    /// facings clockwise from north, `P` poses, others as the type names them.
    pub animation: String,
    /// x, y, width, height in the picture; an empty frame has zero size.
    pub rect: [u32; 4],
    /// The hotspot measured from the rect's top-left corner.
    pub hotspot: [i32; 2],
    /// The frame's flags as in the type file (`default`, `unlit`, ...).
    pub flags: Vec<String>,
    /// The shadow's rect and hotspot in the same picture, if the frame has one.
    pub shadow: Option<[u32; 4]>,
    pub shadow_hotspot: Option<[i32; 2]>,
}

#[derive(Debug, PartialEq, Eq)]
pub enum SheetError {
    Io(String),
    Parse(String),
}

impl Sheet {
    /// Animation label of every frame, in order.
    pub fn labels(&self) -> (l: Vec<String>)
        ensures
            l@.len() == self.frames@.len(),
            forall|i: int| 0 <= i < l@.len() ==> #[trigger] l@[i]@ == self.frames@[i].animation@,
    {
        let mut l: Vec<String> = Vec::new();
        let mut k: usize = 0;
        while k < self.frames.len()
            invariant
                k <= self.frames@.len(),
                l@.len() == k,
                forall|i: int| 0 <= i < k ==> #[trigger] l@[i]@ == self.frames@[i].animation@,
            decreases self.frames@.len() - k,
        {
            let a = self.frames[k].animation.clone();
            l.push(a);
            k = k + 1;
        }
        l
    }
}

} // verus!
