//! Pictures outside the sprite cache: palette-indexed images (the cloud
//! textures the sky is made of) and RGBA pictures ready for drawing.
use vstd::prelude::*;

verus! {

/// An 8-bit image with its own palette.
#[derive(Clone, Debug, PartialEq, Eq)]
pub struct IndexedImage {
    pub width: u32,
    pub height: u32,
    /// One palette index per pixel, row-major.
    pub indices: Vec<u8>,
    /// The file's palette, RGB triples.
    pub palette: Vec<[u8; 3]>,
    /// Index drawn as transparent, if the file names one.
    pub transparent: Option<u8>,
}

#[derive(Debug, PartialEq, Eq)]
pub enum GifError {
    Decode(String),
    Empty,
}

/// The RGBA bytes of one pixel: its palette colour (black past the end of
/// the palette) and alpha 0 for the transparent index, else 255.
pub open spec fn rgba_of(palette: Seq<[u8; 3]>, transparent: Option<u8>, i: u8) -> Seq<u8> {
    let c: Seq<u8> = if (i as int) < palette.len() { palette[i as int]@ } else { seq![0u8, 0u8, 0u8] };
    c + seq![if transparent == Some(i) { 0u8 } else { 255u8 }]
}

/// RGBA bytes of the pixels `idx`, in order.
pub open spec fn spec_rgba(palette: Seq<[u8; 3]>, transparent: Option<u8>, idx: Seq<u8>) -> Seq<u8>
    decreases idx.len(),
{
    if idx.len() == 0 {
        Seq::empty()
    } else {
        spec_rgba(palette, transparent, idx.drop_last()) + rgba_of(palette, transparent, idx.last())
    }
}

/// A GIF file's first frame as the `gif` crate decodes it with indexed
/// colour output: width, height, palette indices, the frame's own palette
/// and the file's global palette (RGB bytes), and the transparent index;
/// `None` for a file without frames, the decoder's message for a file it
/// refuses.
pub uninterp spec fn gif_first_frame(data: Seq<u8>) -> Result<Option<(u16, u16, Seq<u8>, Option<Seq<u8>>, Option<Seq<u8>>, Option<u8>)>, Seq<char>>;

pub open spec fn opt_bytes(o: Option<Vec<u8>>) -> Option<Seq<u8>> {
    match o {
        Some(v) => Some(v@),
        None => None,
    }
}

pub open spec fn frame_view(r: Result<Option<(u16, u16, Vec<u8>, Option<Vec<u8>>, Option<Vec<u8>>, Option<u8>)>, String>)
    -> Result<Option<(u16, u16, Seq<u8>, Option<Seq<u8>>, Option<Seq<u8>>, Option<u8>)>, Seq<char>> {
    match r {
        Ok(Some(f)) => Ok(Some((f.0, f.1, f.2@, opt_bytes(f.3), opt_bytes(f.4), f.5))),
        Ok(None) => Ok(None),
        Err(m) => Err(m@),
    }
}

/// `gif::DecodeOptions::read_info` with indexed colour output, then
/// `Decoder::global_palette` and `Decoder::read_next_frame`: the first
/// frame of the file, named by `gif_first_frame`. Nothing is claimed of
/// what the decoder makes of the bytes beyond its being a function of them.
#[verifier::external_body]
fn first_frame(data: &[u8]) -> (r: Result<Option<(u16, u16, Vec<u8>, Option<Vec<u8>>, Option<Vec<u8>>, Option<u8>)>, String>)
    ensures
        frame_view(r) == gif_first_frame(data@),
{
    let mut options = gif::DecodeOptions::new();
    options.set_color_output(gif::ColorOutput::Indexed);
    let mut decoder = match options.read_info(data) {
        Ok(d) => d,
        Err(e) => return Err(e.to_string()),
    };
    let global = decoder.global_palette().map(<[u8]>::to_vec);
    match decoder.read_next_frame() {
        Ok(Some(f)) => Ok(Some((f.width, f.height, f.buffer.to_vec(), f.palette.clone(), global, f.transparent))),
        Ok(None) => Ok(None),
        Err(e) => Err(e.to_string()),
    }
}

/// RGB bytes read three at a time; a short tail is dropped.
pub open spec fn triples(b: Seq<u8>) -> Seq<[u8; 3]> {
    Seq::new(b.len() / 3, |i: int| [b[3 * i], b[3 * i + 1], b[3 * i + 2]])
}

/// The palette an image uses: the frame's own, else the file's global one,
/// else none.
pub open spec fn chosen_palette(own: Option<Seq<u8>>, global: Option<Seq<u8>>) -> Seq<u8> {
    match own {
        Some(p) => p,
        None => match global {
            Some(g) => g,
            None => Seq::empty(),
        },
    }
}

fn to_triples(b: &Vec<u8>) -> (v: Vec<[u8; 3]>)
    ensures
        v@ == triples(b@),
{
    let bl = b.len();
    let n = bl / 3;
    let mut v: Vec<[u8; 3]> = Vec::new();
    let mut k: usize = 0;
    while k < n
        invariant
            n == b@.len() / 3,
            bl == b@.len(),
            k <= n,
            v@.len() == k,
            forall|i: int| 0 <= i < k ==> #[trigger] v@[i] == [b@[3 * i], b@[3 * i + 1], b@[3 * i + 2]],
        decreases n - k,
    {
        assert(3 * k + 2 < bl) by (nonlinear_arith)
            requires k < n, n == bl / 3;
        v.push([b[3 * k], b[3 * k + 1], b[3 * k + 2]]);
        k = k + 1;
    }
    assert(v@ =~= triples(b@));
    v
}

impl IndexedImage {
    /// The first frame of a GIF file's bytes, through its own palette or
    /// else the file's.
    pub fn decode(data: &[u8]) -> (r: Result<IndexedImage, GifError>)
        ensures
            match gif_first_frame(data@) {
                Err(m) => r matches Err(GifError::Decode(s)) && s@ == m,
                Ok(None) => r == Err::<IndexedImage, GifError>(GifError::Empty),
                Ok(Some(f)) => r matches Ok(img) && img.width == f.0 && img.height == f.1 && img.indices@ == f.2
                    && img.palette@ == triples(chosen_palette(f.3, f.4)) && img.transparent == f.5,
            },
            // The frame's own palette first, the file's global one only
            // for a frame without its own; three bytes to a colour.
            gif_first_frame(data@) matches Ok(Some(f)) ==> r matches Ok(img) && ({
                let p = match f.3 { Some(own) => own, None => match f.4 { Some(g) => g, None => Seq::<u8>::empty() } };
                &&& img.palette@.len() == p.len() / 3
                &&& forall|i: int| 0 <= i < p.len() / 3 ==> #[trigger] img.palette@[i] == [p[3 * i], p[3 * i + 1], p[3 * i + 2]]
            }),
    {
        match first_frame(data) {
            Err(m) => Err(GifError::Decode(m)),
            Ok(None) => Err(GifError::Empty),
            Ok(Some((w, h, buffer, own, global, transparent))) => {
                let bytes: Vec<u8> = match own {
                    Some(p) => p,
                    None => match global {
                        Some(g) => g,
                        None => Vec::new(),
                    },
                };
                let palette = to_triples(&bytes);
                Ok(IndexedImage { width: w as u32, height: h as u32, indices: buffer, palette, transparent })
            },
        }
    }

    /// RGBA pixels, row-major, through the file's own palette.
    pub fn to_rgba(&self) -> (out: Vec<u8>)
        ensures
            out@ == spec_rgba(self.palette@, self.transparent, self.indices@),
    {
        let mut out: Vec<u8> = Vec::new();
        let mut k: usize = 0;
        while k < self.indices.len()
            invariant
                k <= self.indices@.len(),
                out@ == spec_rgba(self.palette@, self.transparent, self.indices@.subrange(0, k as int)),
            decreases self.indices@.len() - k,
        {
            let i = self.indices[k];
            let c: [u8; 3] = if (i as usize) < self.palette.len() { self.palette[i as usize] } else { [0u8, 0u8, 0u8] };
            let a: u8 = if self.transparent == Some(i) { 0 } else { 255 };
            out.push(c[0]);
            out.push(c[1]);
            out.push(c[2]);
            out.push(a);
            proof {
                assert(self.indices@.subrange(0, k + 1).drop_last() =~= self.indices@.subrange(0, k as int));
                let want = rgba_of(self.palette@, self.transparent, i);
                assert(c@.len() == 3);
                assert(want =~= seq![c[0], c[1], c[2], a]);
            }
            k = k + 1;
        }
        assert(self.indices@.subrange(0, k as int) =~= self.indices@);
        out
    }
}

/// A decoded picture ready for the GPU: RGBA, row-major.
#[derive(Clone, Debug, PartialEq, Eq)]
pub struct Picture {
    pub width: u32,
    pub height: u32,
    pub rgba: Vec<u8>,
}

impl Picture {
    /// The picture of an indexed image, through its own palette.
    pub fn from_indexed(img: &IndexedImage) -> (p: Picture)
        ensures
            p.width == img.width,
            p.height == img.height,
            p.rgba@ == spec_rgba(img.palette@, img.transparent, img.indices@),
    {
        Picture { width: img.width, height: img.height, rgba: img.to_rgba() }
    }
}

/// An image's palette is the frame's own palette when the frame has one,
/// read three bytes to a colour; the file's global palette serves only a
/// frame without its own, and a file with neither gives no colours.
pub proof fn frame_palette_comes_first(own: Option<Seq<u8>>, global: Option<Seq<u8>>)
    ensures
        own matches Some(p) ==> chosen_palette(own, global) == p,
        own is None ==> (global matches Some(g) ==> chosen_palette(own, global) == g),
        own is None && global is None ==> chosen_palette(own, global).len() == 0,
        forall|b: Seq<u8>| #![trigger triples(b)] triples(b).len() == b.len() / 3
            && forall|i: int| 0 <= i < b.len() / 3 ==> #[trigger] triples(b)[i] == [b[3 * i], b[3 * i + 1], b[3 * i + 2]],
{
}

/// Each pixel becomes four bytes, in pixel order: its palette colour
/// (black for an index past the palette's end), then alpha 0 for the
/// transparent index and 255 otherwise.
pub proof fn rgba_is_four_bytes_a_pixel(palette: Seq<[u8; 3]>, transparent: Option<u8>, idx: Seq<u8>)
    ensures
        spec_rgba(palette, transparent, idx).len() == 4 * idx.len(),
        forall|k: int| 0 <= k < idx.len() ==> {
            let out = spec_rgba(palette, transparent, idx);
            let i = #[trigger] idx[k];
            &&& (i as int) < palette.len() ==> out[4 * k] == palette[i as int][0] && out[4 * k + 1] == palette[i as int][1]
                && out[4 * k + 2] == palette[i as int][2]
            &&& (i as int) >= palette.len() ==> out[4 * k] == 0 && out[4 * k + 1] == 0 && out[4 * k + 2] == 0
            &&& out[4 * k + 3] == (if transparent == Some(i) { 0u8 } else { 255u8 })
        },
    decreases idx.len(),
{
    if idx.len() > 0 {
        let pre = idx.drop_last();
        rgba_is_four_bytes_a_pixel(palette, transparent, pre);
        let out = spec_rgba(palette, transparent, idx);
        let po = spec_rgba(palette, transparent, pre);
        let last = rgba_of(palette, transparent, idx.last());
        assert(out == po + last);
        let i = idx.last();
        if (i as int) < palette.len() {
            assert(palette[i as int]@.len() == 3);
        }
        assert(last.len() == 4);
        assert forall|k: int| 0 <= k < idx.len() implies {
            let out = spec_rgba(palette, transparent, idx);
            let i = #[trigger] idx[k];
            &&& (i as int) < palette.len() ==> out[4 * k] == palette[i as int][0] && out[4 * k + 1] == palette[i as int][1]
                && out[4 * k + 2] == palette[i as int][2]
            &&& (i as int) >= palette.len() ==> out[4 * k] == 0 && out[4 * k + 1] == 0 && out[4 * k + 2] == 0
            &&& out[4 * k + 3] == (if transparent == Some(i) { 0u8 } else { 255u8 })
        } by {
            if k < pre.len() {
                assert(idx[k] == pre[k]);
                assert(out[4 * k] == po[4 * k] && out[4 * k + 1] == po[4 * k + 1] && out[4 * k + 2] == po[4 * k + 2] && out[4 * k + 3] == po[4 * k + 3]);
            } else {
                assert(k == pre.len());
                assert(out[4 * k] == last[0] && out[4 * k + 1] == last[1] && out[4 * k + 2] == last[2] && out[4 * k + 3] == last[3]);
            }
        }
    }
}

} // verus!
