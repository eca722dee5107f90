//! Generated art: pictures as buffers of RGBA bytes, and the parameters
//! of the burning effects. The pixels of flames, smoke and explosions are
//! drawn from noise and floating-point shading around this library.
use vstd::prelude::*;
use crate::bytes::{append, push_zeros};
use crate::text::slice_subrange;

verus! {

/// A picture: `width * height` RGBA pixels, row by row from the top.
#[derive(Clone, Debug, PartialEq, Eq)]
pub struct Picture {
    pub width: u32,
    pub height: u32,
    pub rgba: Vec<u8>,
}

/// A picture whose buffer holds exactly its pixels.
pub open spec fn pic_wf(p: Picture) -> bool {
    p.width * p.height * 4 <= u32::MAX && p.rgba@.len() == p.width * p.height * 4
}

/// Index of channel `c` of pixel `(x, y)` in a picture `w` wide.
pub open spec fn at(w: int, x: int, y: int, c: int) -> int {
    (y * w + x) * 4 + c
}

impl Picture {
    /// A clear picture: every byte zero.
    pub fn new(width: u32, height: u32) -> (p: Picture)
        requires
            width * height * 4 <= u32::MAX,
        ensures
            p.width == width && p.height == height,
            pic_wf(p),
            forall|i: int| 0 <= i < p.rgba@.len() ==> #[trigger] p.rgba@[i] == 0,
    {
        assert(width * height * 4 <= u32::MAX);
        let n = (width * height * 4) as usize;
        let rgba: Vec<u8> = vec![0u8; n];
        Picture { width, height, rgba }
    }

    /// Set pixel `(x, y)` to `rgb`, opaque; nothing happens off the picture.
    pub fn put(&mut self, x: u32, y: u32, rgb: [u8; 3])
        requires
            pic_wf(*old(self)),
        ensures
            final(self).width == old(self).width && final(self).height == old(self).height,
            pic_wf(*final(self)),
            !(x < old(self).width && y < old(self).height) ==> final(self).rgba@ == old(self).rgba@,
            x < old(self).width && y < old(self).height ==> final(self).rgba@ == old(self).rgba@
                .update(at(old(self).width as int, x as int, y as int, 0), rgb@[0])
                .update(at(old(self).width as int, x as int, y as int, 1), rgb@[1])
                .update(at(old(self).width as int, x as int, y as int, 2), rgb@[2])
                .update(at(old(self).width as int, x as int, y as int, 3), 255u8),
    {
        if x < self.width && y < self.height {
            proof {
                let (w, h) = (self.width as int, self.height as int);
                assert((y * w + x) * 4 + 3 < w * h * 4) by (nonlinear_arith)
                    requires 0 <= x < w, 0 <= y < h;
            }
            let i = ((y * self.width + x) * 4) as usize;
            self.rgba.set(i, rgb[0]);
            self.rgba.set(i + 1, rgb[1]);
            self.rgba.set(i + 2, rgb[2]);
            self.rgba.set(i + 3, 255);
        }
    }

    /// The alpha of pixel `(x, y)`, 0 off the picture.
    pub fn alpha(&self, x: u32, y: u32) -> (a: u8)
        requires
            pic_wf(*self),
        ensures
            a == (if x < self.width && y < self.height { self.rgba@[at(self.width as int, x as int, y as int, 3)] } else { 0 }),
    {
        if x < self.width && y < self.height {
            proof {
                let (w, h) = (self.width as int, self.height as int);
                assert((y * w + x) * 4 + 3 < w * h * 4) by (nonlinear_arith)
                    requires 0 <= x < w, 0 <= y < h;
            }
            self.rgba[((y * self.width + x) * 4 + 3) as usize]
        } else {
            0
        }
    }
}

/// Row `y` of a picture `w` pixels wide.
pub open spec fn frame_row(f: Picture, w: int, y: int) -> Seq<u8> {
    f.rgba@.subrange(y * (w * 4), y * (w * 4) + w * 4)
}

/// `n` clear bytes.
pub open spec fn clear(n: int) -> Seq<u8> {
    Seq::new(n as nat, |i: int| 0u8)
}

/// Row `y` of the first `k` frames side by side, with `gap` clear pixels
/// between each two.
pub open spec fn strip_row(frames: Seq<Picture>, w: int, gap: int, y: int, k: int) -> Seq<u8>
    decreases k,
{
    if k <= 0 {
        Seq::empty()
    } else if k == 1 {
        frame_row(frames[0], w, y)
    } else {
        strip_row(frames, w, gap, y, k - 1) + clear(gap * 4) + frame_row(frames[k - 1], w, y)
    }
}

/// The first `h` rows of a strip of all the frames.
pub open spec fn strip_rows(frames: Seq<Picture>, w: int, gap: int, h: int) -> Seq<u8>
    decreases h,
{
    if h <= 0 {
        Seq::empty()
    } else {
        strip_rows(frames, w, gap, h - 1) + strip_row(frames, w, gap, h - 1, frames.len() as int)
    }
}

/// Width of a strip of `n` frames `w` wide with `gap` between each two.
pub open spec fn strip_width(n: int, w: int, gap: int) -> int {
    w * n + gap * (n - 1)
}

/// What `strip` needs: a strip that fits the picture arithmetic, and
/// frames that each hold at least as many pixels as the first.
pub open spec fn strip_fits(frames: Seq<Picture>, gap: int) -> bool {
    let w = frames[0].width as int;
    let h = frames[0].height as int;
    let n = frames.len() as int;
    &&& n <= u32::MAX
    &&& strip_width(n, w, gap) <= u32::MAX
    &&& strip_width(n, w, gap) * h * 4 <= u32::MAX
    &&& forall|k: int| 0 <= k < n ==> w * h * 4 <= #[trigger] frames[k].rgba@.len()
}

proof fn lemma_row_fits(w: int, h: int, y: int)
    requires
        0 <= y < h,
        0 <= w,
    ensures
        y * (w * 4) + w * 4 <= w * h * 4,
        0 <= y * (w * 4),
{
    assert(y * (w * 4) + w * 4 == (y + 1) * (w * 4)) by (nonlinear_arith);
    assert((y + 1) * (w * 4) <= h * (w * 4)) by (nonlinear_arith)
        requires y + 1 <= h, 0 <= w;
    assert(h * (w * 4) == w * h * 4) by (nonlinear_arith);
    assert(0 <= y * (w * 4)) by (nonlinear_arith)
        requires 0 <= y, 0 <= w;
}

/// The pictures of a run side by side, each row of the strip made of the
/// frames' rows in turn with `gap` clear pixels between them, the way an
/// atlas wants them. The first frame gives the size; no frames make one
/// clear pixel.
pub fn strip(frames: &[Picture], gap: u32) -> (p: Picture)
    requires
        frames@.len() > 0 ==> strip_fits(frames@, gap as int),
    ensures
        pic_wf(p),
        frames@.len() == 0 ==> p.width == 1 && p.height == 1 && p.rgba@ == clear(4),
        frames@.len() > 0 ==> p.width == strip_width(frames@.len() as int, frames@[0].width as int, gap as int)
            && p.height == frames@[0].height
            && p.rgba@ == strip_rows(frames@, frames@[0].width as int, gap as int, frames@[0].height as int),
{
    if frames.len() == 0 {
        let p = Picture::new(1, 1);
        assert(p.rgba@ =~= clear(4));
        return p;
    }
    let w = frames[0].width;
    let h = frames[0].height;
    let nf = frames.len();
    let n = nf as u32;
    let ghost (wi, hi, ni, gi) = (w as int, h as int, n as int, gap as int);
    proof {
        assert(0 <= wi * ni) by (nonlinear_arith) requires 0 <= wi, 0 <= ni;
        assert(0 <= gi * (ni - 1)) by (nonlinear_arith) requires 0 <= gi, 1 <= ni;
    }
    let width = w * n + gap * (n - 1);
    let ghost ww = width as int;
    let mut out: Vec<u8> = Vec::new();
    if h > 0 {
        proof {
            assert(ww * 4 <= ww * hi * 4) by (nonlinear_arith) requires 1 <= hi, 0 <= ww;
            assert(wi <= wi * ni) by (nonlinear_arith) requires 1 <= ni, 0 <= wi;
            assert(ni >= 2 ==> gi <= gi * (ni - 1)) by (nonlinear_arith) requires 0 <= gi;
            assert(wi * hi * 4 <= ww * hi * 4) by (nonlinear_arith) requires wi <= ww, 0 <= hi;
        }
        let w4: usize = (w * 4) as usize;
        let g4: usize = if n >= 2 { (gap * 4) as usize } else { 0 };
        let mut y: u32 = 0;
        assert(out@ =~= strip_rows(frames@, wi, gi, 0));
        while y < h
            invariant
                nf == frames@.len() == n,
                1 <= n,
                w == frames@[0].width && h == frames@[0].height,
                width == w * n + gap * (n - 1),
                w4 == w * 4,
                n >= 2 ==> g4 == gap * 4,
                ww == width,
                strip_fits(frames@, gap as int),
                w * h * 4 <= u32::MAX,
                y <= h,
                out@ == strip_rows(frames@, w as int, gap as int, y as int),
                out@.len() == y * (ww * 4),
            decreases h - y,
        {
            proof { lemma_row_fits(w as int, h as int, y as int); }
            let base: usize = (y as usize) * w4;
            let ghost before = out@;
            let mut k: usize = 0;
            while k < nf
                invariant
                    nf == frames@.len() == n,
                    1 <= n,
                    w == frames@[0].width && h == frames@[0].height,
                    w4 == w * 4,
                    n >= 2 ==> g4 == gap * 4,
                    strip_fits(frames@, gap as int),
                    w * h * 4 <= u32::MAX,
                    y < h,
                    base == y * (w * 4),
                    base + w4 <= w * h * 4,
                    k <= nf,
                    out@ == before + strip_row(frames@, w as int, gap as int, y as int, k as int),
                    k >= 1 ==> out@.len() == before.len() + (w * k + gap * (k - 1)) * 4,
                    k == 0 ==> out@ == before,
                decreases nf - k,
            {
                let ghost mid = out@;
                if k > 0 {
                    push_zeros(&mut out, g4);
                }
                let f = &frames[k];
                assert(w * h * 4 <= f.rgba@.len());
                append(&mut out, slice_subrange(f.rgba.as_slice(), base, base + w4));
                proof {
                    let row = frame_row(frames@[k as int], w as int, y as int);
                    assert(row.len() == w * 4);
                    if k == 0 {
                        assert((w * 1 + gap * (1 - 1)) * 4 == w * 4) by (nonlinear_arith);
                        assert(out@ =~= before + strip_row(frames@, w as int, gap as int, y as int, 1));
                    } else {
                        assert(out@ =~= mid + clear(gap * 4) + row);
                        assert(out@ =~= before + strip_row(frames@, w as int, gap as int, y as int, k + 1));
                        let kk = k as int;
                        assert((w * kk + gap * (kk - 1)) * 4 + gap * 4 + w * 4 == (w * (kk + 1) + gap * kk) * 4)
                            by (nonlinear_arith);
                    }
                }
                k = k + 1;
            }
            proof {
                assert(out@ =~= strip_rows(frames@, w as int, gap as int, y + 1));
                assert(y * (ww * 4) + ww * 4 == (y + 1) * (ww * 4)) by (nonlinear_arith);
            }
            y = y + 1;
        }
        proof {
            assert(hi * (ww * 4) == ww * hi * 4) by (nonlinear_arith);
        }
    } else {
        assert(out@ =~= strip_rows(frames@, wi, gi, 0));
        assert(ww * hi * 4 == 0) by (nonlinear_arith) requires hi == 0;
    }
    Picture { width, height: h, rgba: out }
}

pub const FIRE_RAMP: [[u8; 3]; 6] = [[92, 20, 12], [168, 40, 12], [228, 92, 16], [248, 156, 28], [252, 208, 60], [255, 240, 150]];
pub const SMOKE_RAMP: [[u8; 3]; 4] = [[44, 42, 44], [76, 74, 76], [112, 110, 112], [152, 150, 152]];

fn ramp_of(r: &[[u8; 3]]) -> (v: Vec<[u8; 3]>)
    ensures
        v@ == r@,
{
    let mut v: Vec<[u8; 3]> = Vec::new();
    let mut k: usize = 0;
    while k < r.len()
        invariant
            k <= r@.len(),
            v@ == r@.subrange(0, k as int),
        decreases r@.len() - k,
    {
        v.push(r[k]);
        k = k + 1;
    }
    assert(v@ =~= r@);
    v
}

/// A puff of smoke: it swells, drifts apart and thins to nothing over its
/// frames, which play once.
#[derive(Clone, Debug, PartialEq)]
pub struct Smoke {
    /// Darkest first.
    pub ramp: Vec<[u8; 3]>,
    pub size: u32,
    pub frames: u32,
}

impl Default for Smoke {
    fn default() -> (s: Smoke)
        ensures
            s.ramp@ == SMOKE_RAMP@,
            s.size == 16 && s.frames == 10,
    {
        Smoke { ramp: ramp_of(SMOKE_RAMP.as_slice()), size: 16, frames: 10 }
    }
}

/// An explosion: a fireball bursts out from the middle of the frame,
/// breaks up into smoke and throws sparks; its frames play once.
#[derive(Clone, Debug, PartialEq)]
pub struct Blast {
    pub fire: Vec<[u8; 3]>,
    pub smoke: Vec<[u8; 3]>,
    pub size: u32,
    pub frames: u32,
    pub sparks: u32,
}

impl Default for Blast {
    fn default() -> (b: Blast)
        ensures
            b.fire@ == FIRE_RAMP@ && b.smoke@ == SMOKE_RAMP@,
            b.size == 64 && b.frames == 16 && b.sparks == 14,
    {
        Blast { fire: ramp_of(FIRE_RAMP.as_slice()), smoke: ramp_of(SMOKE_RAMP.as_slice()), size: 64, frames: 16, sparks: 14 }
    }
}

/// A well-mixed 32-bit hash of two numbers, for placing sparks.
pub open spec fn spec_mix(a: u32, b: u32) -> u32 {
    let h0 = ((a as int * 0x9E37_79B1) % 0x1_0000_0000) as u32 ^ ((b as int * 0x85EB_CA6B) % 0x1_0000_0000) as u32;
    let h1 = h0 ^ (h0 >> 15u32);
    let h2 = ((h1 as int * 0x2C1B_3C6D) % 0x1_0000_0000) as u32;
    h2 ^ (h2 >> 13u32)
}

pub fn mix(a: u32, b: u32) -> (h: u32)
    ensures
        h == spec_mix(a, b),
{
    let mut h = a.wrapping_mul(0x9E37_79B1) ^ b.wrapping_mul(0x85EB_CA6B);
    h = h ^ (h >> 15u32);
    h = h.wrapping_mul(0x2C1B_3C6D);
    h ^ (h >> 13u32)
}

} // verus!
