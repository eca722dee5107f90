//! `*.COL` palette files: an 8-byte header followed by 256 RGB triplets.
use vstd::prelude::*;

verus! {

pub const HEADER_LEN: usize = 8;
pub const ENTRIES: usize = 256;
pub const FILE_LEN: usize = 776;

/// A 256-entry RGB palette.
#[derive(Clone, Debug, PartialEq, Eq)]
pub struct Palette {
    pub colors: [[u8; 3]; 256],
}

#[derive(Debug, PartialEq, Eq)]
pub enum ColError {
    /// The file is not exactly [`FILE_LEN`] bytes long.
    BadLength(usize),
}

impl Palette {
    /// The palette of a palette file: entry `i` is the three bytes at
    /// `8 + 3 * i`.
    pub fn parse(data: &[u8]) -> (r: Result<Palette, ColError>)
        ensures
            data@.len() != FILE_LEN ==> r == Err::<Palette, ColError>(ColError::BadLength(data@.len() as usize)),
            data@.len() == FILE_LEN ==> (r matches Ok(p) && forall|i: int| 0 <= i < 256 ==>
                #[trigger] p.colors@[i]@ == data@.subrange(8 + 3 * i, 11 + 3 * i)),
    {
        if data.len() != FILE_LEN {
            return Err(ColError::BadLength(data.len()));
        }
        let mut colors = [[0u8; 3]; 256];
        let mut i: usize = 0;
        while i < ENTRIES
            invariant
                i <= 256,
                data@.len() == FILE_LEN,
                forall|j: int| 0 <= j < i ==> #[trigger] colors@[j]@ == data@.subrange(8 + 3 * j, 11 + 3 * j),
            decreases 256 - i,
        {
            let o = HEADER_LEN + 3 * i;
            let c: [u8; 3] = [data[o], data[o + 1], data[o + 2]];
            colors.set(i, c);
            proof {
                assert(c@ =~= data@.subrange(8 + 3 * i, 11 + 3 * i));
            }
            i = i + 1;
        }
        Ok(Palette { colors })
    }

    /// A grey ramp, useful when the real palette for a shape is unknown.
    pub fn grey() -> (p: Palette)
        ensures
            forall|i: int| 0 <= i < 256 ==> #[trigger] p.colors@[i]@ == seq![i as u8, i as u8, i as u8],
    {
        let mut colors = [[0u8; 3]; 256];
        let mut i: usize = 0;
        while i < ENTRIES
            invariant
                i <= 256,
                forall|j: int| 0 <= j < i ==> #[trigger] colors@[j]@ == seq![j as u8, j as u8, j as u8],
            decreases 256 - i,
        {
            let v = i as u8;
            let c: [u8; 3] = [v, v, v];
            colors.set(i, c);
            proof {
                assert(c@ =~= seq![i as u8, i as u8, i as u8]);
            }
            i = i + 1;
        }
        Palette { colors }
    }

    /// The colour at `index`.
    pub fn rgb(&self, index: u8) -> (c: [u8; 3])
        ensures
            c == self.colors@[index as int],
    {
        self.colors[index as usize]
    }
}

} // verus!
