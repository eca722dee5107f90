//! Decoder for NetStorm's `_shapes.shp` sprite cache.
//!
//! The file starts with containers packed back to back: magic `1.10`,
//! `u32 count`, then `count` entries of `(u32 offset, u32 zero)`, offsets
//! relative to the container's own start. Each frame record is a 24-byte
//! header, run-length rows, 0..3 zero pad bytes to a 4-byte boundary, and a
//! 36-byte trailer, recognised by its content (see [`crate::trailer`]).
//! Rows store only the frame's bounding box, placed on the shape's canvas
//! via the hotspot and the `dx`/`dy` header fields.
//!
//! The block size comes from the decoded rows, never from the header;
//! rasters are capped by [`MAX_DIM`] and [`MAX_PIXELS`]; every offset is
//! validated before use.
use vstd::prelude::*;
use crate::bytes::{le16, le32, read_le16, read_le32};
use crate::trailer::{sext16, spec_is_trailer, is_trailer};

verus! {

/// Largest width or height accepted for any raster.
pub const MAX_DIM: usize = 2048;
/// Largest pixel count accepted for any raster.
pub const MAX_PIXELS: usize = 4000000;

pub const MAGIC: [u8; 4] = [0x31, 0x2e, 0x31, 0x30];
pub const HEADER_LEN: usize = 24;
pub const TRAILER_LEN: usize = 36;
pub const MAX_ENTRIES: u32 = 100000;

#[derive(Debug, PartialEq, Eq)]
pub enum ShpError {
    /// No container magic at offset 0.
    NoContainers,
    ImplausibleCount { container: usize, count: u32 },
    /// A container entry points outside the file.
    EntryOutOfFile { container: usize, entry: usize, offset: u64 },
    /// The offset is not one referenced by any container table.
    UnknownRecord { offset: usize },
    /// The record cannot hold a header and a trailer before the next one.
    RecordTooSmall { offset: usize },
    /// Rows continued to the end of the record without a trailer.
    NoTrailer { offset: usize },
    /// A row's opcodes ran past the record's data.
    RowOverrun { offset: usize, row: usize },
    /// Decoded block exceeds [`MAX_DIM`] or [`MAX_PIXELS`].
    TooLarge { offset: usize, width: usize, height: usize },
}

/// The 24-byte frame header.
#[derive(Clone, Copy, Debug, PartialEq, Eq, Structural)]
pub struct FrameHeader {
    /// Height of the shape's full box, shared by all frames of the shape.
    pub box_h: u16,
    /// Width of the full box minus one.
    pub box_w1: u16,
    /// Hotspot row inside the box.
    pub hot_y: i16,
    /// Hotspot column inside the box.
    pub hot_x: i16,
    /// X of the stored block's left edge relative to the hotspot.
    pub dx: i32,
    /// Y of the stored block's top edge relative to the hotspot.
    pub dy: i32,
    /// Unknown small integer.
    pub n: u32,
    /// Unknown small integer.
    pub flag: u32,
}

/// The two's-complement reading of a `u32`.
pub open spec fn sext32(u: int) -> int {
    if u >= 2147483648 { u - 4294967296 } else { u }
}

/// The header the 24 bytes at `o` spell.
pub open spec fn spec_header(b: Seq<u8>, o: int) -> FrameHeader {
    FrameHeader {
        box_h: le16(b, o) as u16,
        box_w1: le16(b, o + 2) as u16,
        hot_y: sext16(le16(b, o + 4)) as i16,
        hot_x: sext16(le16(b, o + 6)) as i16,
        dx: sext32(le32(b, o + 8)) as i32,
        dy: sext32(le32(b, o + 12)) as i32,
        n: le32(b, o + 16) as u32,
        flag: le32(b, o + 20) as u32,
    }
}

fn read_i16(b: &[u8], o: usize) -> (v: i16)
    requires
        o + 2 <= b@.len(),
    ensures
        v == sext16(le16(b@, o as int)),
{
    let u = read_le16(b, o);
    if u >= 32768 { (u as i32 - 65536) as i16 } else { u as i16 }
}

fn read_i32(b: &[u8], o: usize) -> (v: i32)
    requires
        o + 4 <= b@.len(),
    ensures
        v == sext32(le32(b@, o as int)),
{
    let u = read_le32(b, o);
    if u >= 2147483648 { (u as i64 - 4294967296) as i32 } else { u as i32 }
}

pub open spec fn unsigned_abs(v: i32) -> int {
    if v < 0 { -(v as int) } else { v as int }
}

impl FrameHeader {
    /// The header at `b[o..o + 24]`.
    pub fn parse(b: &[u8], o: usize) -> (h: FrameHeader)
        requires
            o + 24 <= b@.len(),
        ensures
            h == spec_header(b@, o as int),
    {
        let _n = b.len();
        FrameHeader {
            box_h: read_le16(b, o),
            box_w1: read_le16(b, o + 2),
            hot_y: read_i16(b, o + 4),
            hot_x: read_i16(b, o + 6),
            dx: read_i32(b, o + 8),
            dy: read_i32(b, o + 12),
            n: read_le32(b, o + 16),
            flag: read_le32(b, o + 20),
        }
    }

    /// Size of the shape's canvas, `(width, height)`.
    pub fn canvas_size(&self) -> (s: (usize, usize))
        ensures
            s.0 == self.box_w1 + 1,
            s.1 == self.box_h + 1,
    {
        (self.box_w1 as usize + 1, self.box_h as usize + 1)
    }

    pub open spec fn spec_is_placeholder(&self) -> bool {
        self.box_h == 0 || self.box_w1 == 0 || unsigned_abs(self.dx) >= 1073741824
            || unsigned_abs(self.dy) >= 1073741824
    }

    /// Placeholder records mark empty frames with a zero box or sentinel offsets.
    pub fn is_placeholder(&self) -> (r: bool)
        ensures
            r == self.spec_is_placeholder(),
    {
        self.box_h == 0 || self.box_w1 == 0 || self.dx >= 1073741824 || self.dx <= -1073741824
            || self.dy >= 1073741824 || self.dy <= -1073741824
    }
}

/// One decoded frame: the stored block plus where it sits on the shape canvas.
#[derive(Clone, Debug)]
pub struct Frame {
    pub header: FrameHeader,
    /// Width of the stored block (0 for an empty frame).
    pub width: usize,
    /// Height of the stored block (0 for an empty frame).
    pub height: usize,
    /// Column of the block's left edge on the canvas. May be negative.
    pub block_x: i32,
    /// Row of the block's top edge on the canvas. May be negative.
    pub block_y: i32,
    /// Palette indices, row-major, `width * height` entries.
    pub indices: Vec<u8>,
    /// `true` where a pixel was stored, `false` where transparent.
    pub opaque: Vec<bool>,
}

impl Frame {
    /// The rasters hold `width * height` entries.
    pub open spec fn wf(&self) -> bool {
        self.indices@.len() == self.width * self.height && self.opaque@.len() == self.width * self.height
    }

    pub fn empty(header: FrameHeader) -> (f: Frame)
        ensures
            f.header == header,
            f.width == 0 && f.height == 0 && f.block_x == 0 && f.block_y == 0,
            f.indices@.len() == 0 && f.opaque@.len() == 0,
    {
        Frame { header, width: 0, height: 0, block_x: 0, block_y: 0, indices: Vec::new(), opaque: Vec::new() }
    }

    pub fn is_empty(&self) -> (r: bool)
        ensures
            r == (self.width == 0 || self.height == 0),
    {
        self.width == 0 || self.height == 0
    }

    /// Whether the block lies entirely inside the shape canvas.
    pub fn fits_canvas(&self) -> (r: bool)
        ensures
            r == (self.block_x >= 0 && self.block_y >= 0 && self.block_x + self.width <= self.header.box_w1 + 1
                && self.block_y + self.height <= self.header.box_h + 1),
    {
        let (cw, ch) = self.header.canvas_size();
        self.block_x >= 0 && self.block_y >= 0 && self.width <= cw && (self.block_x as usize) <= cw - self.width
            && self.height <= ch && (self.block_y as usize) <= ch - self.height
    }

    /// Palette index at block coordinates, `None` if transparent or outside.
    pub fn pixel(&self, x: usize, y: usize) -> (p: Option<u8>)
        requires
            self.wf(),
        ensures
            p == (if x < self.width && y < self.height && self.opaque@[y * self.width + x] {
                Some(self.indices@[y * self.width + x])
            } else {
                None
            }),
    {
        if x >= self.width || y >= self.height {
            return None;
        }
        let n = self.indices.len();
        proof {
            assert(y * self.width + x < self.width * self.height) by (nonlinear_arith)
                requires x < self.width, y < self.height;
        }
        let i = y * self.width + x;
        if self.opaque[i] { Some(self.indices[i]) } else { None }
    }
}

} // verus!

verus! {

/// Whether a container table starts at `o`.
pub open spec fn magic_at(d: Seq<u8>, o: int) -> bool {
    0 <= o && o + 8 <= d.len() && d.subrange(o, o + 4) == MAGIC@
}

/// The absolute record offset of entry `i` of the container at `o`.
pub open spec fn entry_target(d: Seq<u8>, o: int, i: int) -> int {
    o + le32(d, o + 8 + 8 * i)
}

/// The first entry of the container at `o`, from `i` on, that points
/// outside the file.
pub open spec fn first_outside(d: Seq<u8>, o: int, count: int, i: int) -> Option<int>
    decreases count - i,
{
    if i >= count {
        None
    } else if entry_target(d, o, i) >= d.len() {
        Some(i)
    } else {
        first_outside(d, o, count, i + 1)
    }
}

/// The container tables from `o` on (container number `ci`), and where they end.
pub open spec fn spec_tables(d: Seq<u8>, o: int, ci: int) -> Result<(Seq<Seq<usize>>, int), ShpError>
    decreases d.len() - o,
{
    if !magic_at(d, o) {
        Ok((Seq::empty(), o))
    } else {
        let count = le32(d, o + 4);
        if count > MAX_ENTRIES || o + 8 + 8 * count > d.len() {
            Err(ShpError::ImplausibleCount { container: ci as usize, count: count as u32 })
        } else {
            match first_outside(d, o, count, 0) {
                Some(i) => Err(ShpError::EntryOutOfFile { container: ci as usize, entry: i as usize, offset: entry_target(d, o, i) as u64 }),
                None => match spec_tables(d, o + 8 + 8 * count, ci + 1) {
                    Ok((cs, end)) => Ok((seq![Seq::new(count as nat, |i: int| entry_target(d, o, i) as usize)] + cs, end)),
                    Err(e) => Err(e),
                },
            }
        }
    }
}

/// Strictly increasing.
pub open spec fn sorted_unique(s: Seq<usize>) -> bool {
    forall|i: int, j: int| 0 <= i < j < s.len() ==> s[i] < s[j]
}

/// Whether `v` occurs in some container.
pub open spec fn in_tables(cs: Seq<Seq<usize>>, v: usize) -> bool {
    exists|c: int, i: int| 0 <= c < cs.len() && 0 <= i < cs[c].len() && #[trigger] cs[c][i] == v
}

/// A parsed `_shapes.shp`: container tables plus the raw bytes.
pub struct ShapeFile {
    data: Vec<u8>,
    containers: Vec<Vec<usize>>,
    /// Sorted, deduplicated record offsets from all tables.
    records: Vec<usize>,
    table_end: usize,
}

impl ShapeFile {
    pub closed spec fn data_view(&self) -> Seq<u8> {
        self.data@
    }

    pub closed spec fn tables(&self) -> Seq<Seq<usize>> {
        self.containers@.map_values(|c: Vec<usize>| c@)
    }

    pub closed spec fn record_view(&self) -> Seq<usize> {
        self.records@
    }

    pub closed spec fn table_end_view(&self) -> int {
        self.table_end as int
    }

    /// The records are the sorted, deduplicated table entries, all inside the file.
    pub closed spec fn wf(&self) -> bool {
        &&& sorted_unique(self.records@)
        &&& forall|v: usize| self.records@.contains(v) <==> in_tables(self.tables(), v)
        &&& forall|i: int| 0 <= i < self.records@.len() ==> #[trigger] self.records@[i] < self.data@.len()
        &&& self.table_end <= self.data@.len()
    }

    /// Parse the container tables. Frames are decoded lazily by [`ShapeFile::decode`].
    pub fn parse(data: Vec<u8>) -> (res: Result<ShapeFile, ShpError>)
        ensures
            match spec_tables(data@, 0, 0) {
                Ok((cs, end)) => if cs.len() == 0 {
                    res == Err::<ShapeFile, ShpError>(ShpError::NoContainers)
                } else {
                    res matches Ok(f) && f.wf() && f.data_view() == data@ && f.tables() == cs
                        && f.table_end_view() == end
                },
                Err(e) => res == Err::<ShapeFile, ShpError>(e),
            },
    {
        let len = data.len();
        let ghost d = data@;
        let mut containers: Vec<Vec<usize>> = Vec::new();
        let mut o: usize = 0;
        let ghost mut done: Seq<Seq<usize>> = Seq::empty();
        loop
            invariant
                d == data@,
                len == d.len(),
                o <= len,
                containers@.map_values(|c: Vec<usize>| c@) == done,
                forall|c: int, i: int| 0 <= c < done.len() && 0 <= i < done[c].len() ==> #[trigger] done[c][i] < len,
                spec_tables(d, 0, 0) == (match spec_tables(d, o as int, done.len() as int) {
                    Ok((cs, end)) => Ok((done + cs, end)),
                    Err(e) => Err(e),
                }),
            ensures
                !magic_at(d, o as int),
                len == d.len(),
                d == data@,
                containers@.map_values(|c: Vec<usize>| c@) == done,
                forall|c: int, i: int| 0 <= c < done.len() && 0 <= i < done[c].len() ==> #[trigger] done[c][i] < len,
                spec_tables(d, 0, 0) == (match spec_tables(d, o as int, done.len() as int) {
                    Ok((cs, end)) => Ok((done + cs, end)),
                    Err(e) => Err(e),
                }),
                o <= len,
            decreases len - o,
        {
            let magic = o <= len && 8 <= len - o && data[o] == MAGIC[0] && data[o + 1] == MAGIC[1]
                && data[o + 2] == MAGIC[2] && data[o + 3] == MAGIC[3];
            proof {
                if o + 8 <= len {
                    assert(magic == (d.subrange(o as int, o + 4) =~= MAGIC@));
                }
            }
            if !magic {
                break;
            }
            let ci = containers.len();
            assert(magic_at(d, o as int));
            let count = read_le32(data.as_slice(), o + 4);
            if count > MAX_ENTRIES || 8 * (count as usize) > len - o - 8 {
                return Err(ShpError::ImplausibleCount { container: ci, count });
            }
            let table_len = 8 + 8 * count as usize;
            let mut entries: Vec<usize> = Vec::new();
            let mut i: usize = 0;
            while i < count as usize
                invariant
                    d == data@,
                    len == d.len(),
                    o + table_len <= len,
                    table_len == 8 + 8 * count,
                    i <= count,
                    entries@ == Seq::new(i as nat, |j: int| entry_target(d, o as int, j) as usize),
                    forall|j: int| 0 <= j < i ==> entry_target(d, o as int, j) < len,
                    first_outside(d, o as int, count as int, 0) == first_outside(d, o as int, count as int, i as int),
                    magic_at(d, o as int),
                    count as int == le32(d, o + 4),
                    ci == done.len(),
                    count <= MAX_ENTRIES,
                    spec_tables(d, 0, 0) == (match spec_tables(d, o as int, done.len() as int) {
                        Ok((cs, end)) => Ok((done + cs, end)),
                        Err(e) => Err(e),
                    }),
                decreases count - i,
            {
                let e = o + 8 + 8 * i;
                let rel = read_le32(data.as_slice(), e) as usize;
                if rel >= len - o {
                    let abs = (o as u128 + rel as u128) as u64;
                    proof {
                        assert(first_outside(d, o as int, count as int, i as int) == Some(i as int));
                        assert(magic_at(d, o as int));
                    }
                    return Err(ShpError::EntryOutOfFile { container: ci, entry: i, offset: abs });
                }
                entries.push(o + rel);
                assert(entries@ =~= Seq::new((i + 1) as nat, |j: int| entry_target(d, o as int, j) as usize));
                i = i + 1;
            }
            proof {
                let row = Seq::new(count as nat, |j: int| entry_target(d, o as int, j) as usize);
                assert(entries@ == row);
                match spec_tables(d, o + table_len, done.len() + 1int) {
                    Ok((cs, end)) => { assert(done + (seq![row] + cs) =~= done.push(row) + cs); }
                    Err(_) => {}
                }
                done = done.push(row);
            }
            containers.push(entries);
            assert(containers@.map_values(|c: Vec<usize>| c@) =~= done);
            o = o + table_len;
        }
        proof {
            assert(done + Seq::<Seq<usize>>::empty() =~= done);
        }
        if containers.len() == 0 {
            return Err(ShpError::NoContainers);
        }
        assert forall|c: int, i: int| 0 <= c < containers@.len() && 0 <= i < containers@[c]@.len() implies #[trigger] containers@[c]@[i] < len by {
            assert(done[c] == containers@[c]@);
        }
        let records = sorted_records(&containers, len);
        let f = ShapeFile { data, containers, records, table_end: o };
        assert(f.tables() == done);
        Ok(f)
    }
}

/// Insert `v` into the sorted, duplicate-free `s` unless it is there.
fn insert_sorted(s: &mut Vec<usize>, v: usize)
    requires
        sorted_unique(old(s)@),
    ensures
        sorted_unique(final(s)@),
        final(s)@.to_set() == old(s)@.to_set().insert(v),
{
    let mut lo: usize = 0;
    let mut hi: usize = s.len();
    while lo < hi
        invariant
            lo <= hi <= s@.len(),
            s@ == old(s)@,
            sorted_unique(s@),
            forall|i: int| 0 <= i < lo ==> s@[i] < v,
            forall|i: int| hi <= i < s@.len() ==> s@[i] >= v,
        decreases hi - lo,
    {
        let mid = lo + (hi - lo) / 2;
        if s[mid] < v {
            lo = mid + 1;
        } else {
            hi = mid;
        }
    }
    if lo < s.len() && s[lo] == v {
        assert(s@[lo as int] == v);
        assert(s@.to_set() =~= old(s)@.to_set().insert(v));
        return;
    }
    let ghost before = s@;
    s.insert(lo, v);
    assert(before == old(s)@);
    assert(s@ == before.insert(lo as int, v));
    assert forall|x: usize| #[trigger] s@.to_set().contains(x) == before.to_set().insert(v).contains(x) by {
        if s@.contains(x) {
            let k = choose|k: int| 0 <= k < s@.len() && s@[k] == x;
            if k < lo { assert(before[k] == x); } else if k > lo { assert(before[k - 1] == x); }
        }
        if before.contains(x) {
            let k = choose|k: int| 0 <= k < before.len() && before[k] == x;
            if k < lo { assert(s@[k] == x); } else { assert(s@[k + 1] == x); }
        }
        if x == v { assert(s@[lo as int] == v); }
        assert(s@.contains(x) <==> (before.contains(x) || x == v));
    }
    assert(s@.to_set() =~= before.to_set().insert(v));
}

/// The sorted, deduplicated entries of all containers.
fn sorted_records(containers: &Vec<Vec<usize>>, len: usize) -> (r: Vec<usize>)
    requires
        forall|c: int, i: int| 0 <= c < containers@.len() && 0 <= i < containers@[c]@.len() ==> #[trigger] containers@[c]@[i] < len,
    ensures
        sorted_unique(r@),
        forall|v: usize| r@.contains(v) <==> in_tables(containers@.map_values(|c: Vec<usize>| c@), v),
        forall|i: int| 0 <= i < r@.len() ==> #[trigger] r@[i] < len,
{
    let ghost cs = containers@.map_values(|c: Vec<usize>| c@);
    let mut r: Vec<usize> = Vec::new();
    let mut c: usize = 0;
    while c < containers.len()
        invariant
            c <= containers@.len(),
            cs == containers@.map_values(|c: Vec<usize>| c@),
            forall|c: int, i: int| 0 <= c < containers@.len() && 0 <= i < containers@[c]@.len() ==> #[trigger] containers@[c]@[i] < len,
            sorted_unique(r@),
            forall|v: usize| r@.contains(v) <==> in_tables(cs.subrange(0, c as int), v),
            forall|v: usize| r@.contains(v) ==> v < len,
        decreases containers@.len() - c,
    {
        let mut i: usize = 0;
        let ghost row = containers@[c as int]@;
        while i < containers[c].len()
            invariant
                c < containers@.len(),
                row == containers@[c as int]@,
                i <= row.len(),
                cs == containers@.map_values(|c: Vec<usize>| c@),
                forall|c: int, i: int| 0 <= c < containers@.len() && 0 <= i < containers@[c]@.len() ==> #[trigger] containers@[c]@[i] < len,
                sorted_unique(r@),
                forall|v: usize| r@.contains(v) <==> (in_tables(cs.subrange(0, c as int), v) || row.subrange(0, i as int).contains(v)),
                forall|v: usize| r@.contains(v) ==> v < len,
            decreases row.len() - i,
        {
            let v = containers[c][i];
            let ghost rb = r@;
            insert_sorted(&mut r, v);
            proof {
                let pre = row.subrange(0, i as int);
                let post = row.subrange(0, i + 1);
                assert(post =~= pre.push(v));
                assert forall|w: usize| r@.contains(w) <==> (in_tables(cs.subrange(0, c as int), w) || row.subrange(0, i + 1).contains(w)) by {
                    assert(r@.to_set().contains(w) == r@.contains(w));
                    assert(rb.to_set().contains(w) == rb.contains(w));
                    assert(r@.to_set().contains(w) == rb.to_set().insert(v).contains(w));
                    if post.contains(w) {
                        let k = choose|k: int| 0 <= k < post.len() && post[k] == w;
                        if k < i { assert(pre[k] == w); }
                    }
                    if pre.contains(w) {
                        let k = choose|k: int| 0 <= k < pre.len() && pre[k] == w;
                        assert(post[k] == w);
                    }
                    if w == v { assert(post[i as int] == w); }
                }
                assert(containers@[c as int]@[i as int] < len);
                assert forall|w: usize| r@.contains(w) implies w < len by {
                    assert(r@.to_set().contains(w) == rb.to_set().insert(v).contains(w));
                    assert(rb.to_set().contains(w) == rb.contains(w));
                }
            }
            let ghost ip = i + 1;
            proof {
                assert(row.subrange(0, i + 1) == row.subrange(0, ip));
                assert forall|w: usize| r@.contains(w) <==> (in_tables(cs.subrange(0, c as int), w) || row.subrange(0, ip).contains(w)) by {
                    assert(r@.contains(w) <==> (in_tables(cs.subrange(0, c as int), w) || row.subrange(0, i + 1).contains(w)));
                }
            }
            i = i + 1;
        }
        proof {
            assert(row.subrange(0, i as int) =~= row);
            assert forall|v: usize| r@.contains(v) <==> in_tables(cs.subrange(0, c + 1), v) by {
                let sub = cs.subrange(0, c + 1);
                assert(sub[c as int] == row);
                if in_tables(sub, v) {
                    let (cc, ii) = choose|cc: int, ii: int| 0 <= cc < sub.len() && 0 <= ii < sub[cc].len() && #[trigger] sub[cc][ii] == v;
                    if cc < c {
                        assert(cs.subrange(0, c as int)[cc][ii] == v);
                    } else {
                        assert(row[ii] == v);
                    }
                }
                if row.contains(v) {
                    let k = choose|k: int| 0 <= k < row.len() && row[k] == v;
                    assert(sub[c as int][k] == v);
                }
                if in_tables(cs.subrange(0, c as int), v) {
                    let (cc, ii) = choose|cc: int, ii: int| 0 <= cc < c && 0 <= ii < cs.subrange(0, c as int)[cc].len() && #[trigger] cs.subrange(0, c as int)[cc][ii] == v;
                    assert(sub[cc][ii] == v);
                }
            }
        }
        c = c + 1;
    }
    assert(cs.subrange(0, c as int) =~= cs);
    assert forall|i: int| 0 <= i < r@.len() implies #[trigger] r@[i] < len by {
        assert(r@.contains(r@[i]));
    }
    r
}

} // verus!

verus! {

/// Index of `v` in the strictly increasing `s`.
pub open spec fn index_in(s: Seq<usize>, v: usize) -> int {
    choose|i: int| 0 <= i < s.len() && s[i] == v
}

/// Upper bound of the record at `offset`: the next referenced record or
/// the end of the file.
pub open spec fn spec_record_bound(records: Seq<usize>, len: int, offset: usize) -> Result<int, ShpError> {
    if records.contains(offset) {
        let i = index_in(records, offset);
        Ok(if i + 1 < records.len() { records[i + 1] as int } else { len })
    } else {
        Err(ShpError::UnknownRecord { offset })
    }
}

impl ShapeFile {
    pub fn container_count(&self) -> (n: usize)
        ensures
            n == self.tables().len(),
    {
        self.containers.len()
    }

    /// Record offsets of one container, in animation order. Offsets may repeat.
    pub fn container(&self, index: usize) -> (c: &[usize])
        requires
            index < self.tables().len(),
        ensures
            c@ == self.tables()[index as int],
    {
        self.containers[index].as_slice()
    }

    pub fn containers(&self) -> (cs: &[Vec<usize>])
        ensures
            cs@.map_values(|c: Vec<usize>| c@) == self.tables(),
    {
        self.containers.as_slice()
    }

    /// Sorted unique record offsets referenced by any table.
    pub fn records(&self) -> (r: &[usize])
        ensures
            r@ == self.record_view(),
            self.wf() ==> sorted_unique(r@),
            self.wf() ==> forall|v: usize| r@.contains(v) <==> in_tables(self.tables(), v),
    {
        self.records.as_slice()
    }

    /// Upper bound of the record at `offset`: the next referenced record or EOF.
    pub fn record_bound(&self, offset: usize) -> (r: Result<usize, ShpError>)
        requires
            self.wf(),
        ensures
            match spec_record_bound(self.record_view(), self.data_view().len() as int, offset) {
                Ok(b) => r == Ok::<usize, ShpError>(b as usize) && 0 <= b <= self.data_view().len() && b <= usize::MAX,
                Err(e) => r == Err::<usize, ShpError>(e),
            },
    {
        let mut lo: usize = 0;
        let mut hi: usize = self.records.len();
        while lo < hi
            invariant
                lo <= hi <= self.records@.len(),
                sorted_unique(self.records@),
                forall|i: int| 0 <= i < lo ==> self.records@[i] < offset,
                forall|i: int| hi <= i < self.records@.len() ==> self.records@[i] >= offset,
            decreases hi - lo,
        {
            let mid = lo + (hi - lo) / 2;
            if self.records[mid] < offset {
                lo = mid + 1;
            } else {
                hi = mid;
            }
        }
        let _dl = self.data.len();
        if lo < self.records.len() && self.records[lo] == offset {
            proof {
                assert(self.records@.contains(offset));
                let j = index_in(self.records@, offset);
                assert(j == lo) by {
                    if j < lo { assert(self.records@[j] < offset); }
                    if j > lo { assert(self.records@[lo as int] < self.records@[j]); }
                }
            }
            if lo + 1 < self.records.len() {
                assert(self.records@[lo + 1] < self.data@.len());
                Ok(self.records[lo + 1])
            } else {
                Ok(self.data.len())
            }
        } else {
            proof {
                if self.records@.contains(offset) {
                    let j = choose|j: int| 0 <= j < self.records@.len() && self.records@[j] == offset;
                    if j < lo { assert(self.records@[j] < offset); }
                    if j > lo { assert(self.records@[lo as int] < self.records@[j]); }
                }
            }
            Err(ShpError::UnknownRecord { offset })
        }
    }
}

} // verus!

verus! {

/// Why one row could not be read.
pub enum RowFault {
    /// The opcodes ran past the record's data.
    Overrun,
    /// The row grew to this width, beyond [`MAX_DIM`].
    Wide(int),
}

/// A run of stored pixels in a row: its column and its palette indices.
pub type SpanView = (int, Seq<u8>);

/// One run-length row from `p` with the cursor at column `x`: where the
/// row ends, its width, and its spans.
pub open spec fn spec_row(d: Seq<u8>, p: int, limit: int, x: int) -> Result<(int, int, Seq<SpanView>), RowFault>
    decreases limit - p,
{
    if p >= limit {
        Err(RowFault::Overrun)
    } else {
        let op = d[p];
        let p1 = p + 1;
        if op == 0 {
            Ok((p1, x, Seq::empty()))
        } else if op == 1 {
            if p1 >= limit {
                Err(RowFault::Overrun)
            } else if x + d[p1] > MAX_DIM {
                Err(RowFault::Wide(x + d[p1]))
            } else {
                spec_row(d, p1 + 1, limit, x + d[p1])
            }
        } else if op % 2 == 1 {
            let k = (op / 2) as int;
            if p1 + k > limit {
                Err(RowFault::Overrun)
            } else if x + k > MAX_DIM {
                Err(RowFault::Wide(x + k))
            } else {
                match spec_row(d, p1 + k, limit, x + k) {
                    Ok((pe, xe, sp)) => Ok((pe, xe, seq![(x, d.subrange(p1, p1 + k))] + sp)),
                    Err(e) => Err(e),
                }
            }
        } else {
            let k = (op / 2) as int;
            if p1 >= limit {
                Err(RowFault::Overrun)
            } else if x + k > MAX_DIM {
                Err(RowFault::Wide(x + k))
            } else {
                match spec_row(d, p1 + 1, limit, x + k) {
                    Ok((pe, xe, sp)) => Ok((pe, xe, seq![(x, Seq::new(k as nat, |i: int| d[p1]))] + sp)),
                    Err(e) => Err(e),
                }
            }
        }
    }
}

/// A row always consumes input and never leaves its bounds.
pub proof fn lemma_row_advances(d: Seq<u8>, p: int, limit: int, x: int)
    requires
        0 <= x <= MAX_DIM,
        0 <= p,
        limit <= d.len(),
    ensures
        spec_row(d, p, limit, x) matches Ok((pe, xe, sp)) ==> p < pe <= limit && x <= xe <= MAX_DIM
            && forall|j: int| 0 <= j < sp.len() ==> x <= #[trigger] sp[j].0 && sp[j].0 + sp[j].1.len() <= xe,
    decreases limit - p,
{
    if p < limit {
        let op = d[p];
        let p1 = p + 1;
        if op == 0 {
        } else if op == 1 {
            if p1 < limit && x + d[p1] <= MAX_DIM {
                lemma_row_advances(d, p1 + 1, limit, x + d[p1]);
            }
        } else {
            let k = (op / 2) as int;
            let next = if op % 2 == 1 { p1 + k } else { p1 + 1 };
            if (op % 2 == 1 ==> p1 + k <= limit) && (op % 2 == 0 ==> p1 < limit) && x + k <= MAX_DIM {
                lemma_row_advances(d, next, limit, x + k);
                match spec_row(d, next, limit, x + k) {
                    Ok((pe, xe, sp)) => {
                        let first: SpanView = if op % 2 == 1 { (x, d.subrange(p1, p1 + k)) } else { (x, Seq::new(k as nat, |i: int| d[p1])) };
                        let all = seq![first] + sp;
                        assert(spec_row(d, p, limit, x) == Ok::<(int, int, Seq<SpanView>), RowFault>((pe, xe, all)));
                        assert forall|j: int| 0 <= j < all.len() implies x <= #[trigger] all[j].0 && all[j].0 + all[j].1.len() <= xe by {
                            if j > 0 { assert(all[j] == sp[j - 1]); } else { assert(all[0] == first); assert(first.1.len() == k); }
                        }
                    }
                    Err(_) => {}
                }
            }
        }
    }
}

} // verus!

verus! {

/// `d[from..to)` is all zero.
pub open spec fn all_zero(d: Seq<u8>, from: int, to: int) -> bool {
    forall|i: int| from <= i < to ==> d[i] == 0
}

/// The first multiple of four at or after `p`.
pub open spec fn align4(p: int) -> int {
    ((p + 3) / 4) * 4
}

/// Whether a record ends at `p`: zero padding to a 4-byte boundary, then
/// a trailer that fits before `bound`.
pub open spec fn ends_at(d: Seq<u8>, p: int, bound: int) -> bool {
    let t = align4(p);
    t + 36 <= bound && all_zero(d, p, t) && spec_is_trailer(d.subrange(t, t + 36))
}

/// The rows of the record at `offset` from `p` on, `nrows` rows read so far
/// and `width` the widest of them: the rows and the final width.
pub open spec fn spec_rows(d: Seq<u8>, offset: int, bound: int, p: int, nrows: int, width: int) -> Result<(Seq<Seq<SpanView>>, int), ShpError>
    decreases bound - p,
{
    if ends_at(d, p, bound) {
        Ok((Seq::empty(), width))
    } else if p >= bound - 36 || p < 0 || bound > d.len() {
        Err(ShpError::NoTrailer { offset: offset as usize })
    } else {
        match spec_row(d, p, bound - 36, 0) {
            Err(RowFault::Overrun) => Err(ShpError::RowOverrun { offset: offset as usize, row: nrows as usize }),
            Err(RowFault::Wide(w)) => Err(ShpError::TooLarge { offset: offset as usize, width: w as usize, height: (nrows + 1) as usize }),
            Ok((p2, x, spans)) => {
                let w2 = if width >= x { width } else { x };
                if nrows + 1 > MAX_DIM {
                    Err(ShpError::TooLarge { offset: offset as usize, width: w2 as usize, height: (nrows + 1) as usize })
                } else {
                    proof { lemma_row_advances(d, p, bound - 36, 0); }
                    match spec_rows(d, offset, bound, p2, nrows + 1, w2) {
                        Ok((rs, w)) => Ok((seq![spans] + rs, w)),
                        Err(e) => Err(e),
                    }
                }
            }
        }
    }
}

/// What a record decodes to.
pub enum Decoded {
    /// A placeholder, or a record without stored pixels.
    Empty(FrameHeader),
    /// A block of `rows.len()` rows, `width` wide.
    Raster { header: FrameHeader, width: int, rows: Seq<Seq<SpanView>> },
}

/// The frame record at `offset` of a file with these bytes, record offsets
/// and table end.
pub open spec fn spec_decode(d: Seq<u8>, records: Seq<usize>, table_end: int, offset: usize) -> Result<Decoded, ShpError> {
    match spec_record_bound(records, d.len() as int, offset) {
        Err(e) => Err(e),
        Ok(bound) => if offset < table_end || offset + 60 > bound {
            Err(ShpError::RecordTooSmall { offset })
        } else {
            let header = spec_header(d, offset as int);
            if header.spec_is_placeholder() {
                Ok(Decoded::Empty(header))
            } else {
                match spec_rows(d, offset as int, bound, offset + 24, 0, 0) {
                    Err(e) => Err(e),
                    Ok((rows, width)) => if width == 0 || rows.len() == 0 {
                        Ok(Decoded::Empty(header))
                    } else if width * rows.len() > MAX_PIXELS {
                        Err(ShpError::TooLarge { offset, width: width as usize, height: rows.len() as usize })
                    } else {
                        Ok(Decoded::Raster { header, width, rows })
                    },
                }
            }
        },
    }
}

/// The pixel a row's spans leave at column `x`: the last span over it wins.
pub open spec fn paint(spans: Seq<SpanView>, x: int) -> Option<u8>
    decreases spans.len(),
{
    if spans.len() == 0 {
        None
    } else {
        let s = spans.last();
        if s.0 <= x < s.0 + s.1.len() { Some(s.1[x - s.0]) } else { paint(spans.drop_last(), x) }
    }
}

/// `f` is the frame `dec` describes.
pub open spec fn frame_is(f: Frame, dec: Decoded) -> bool {
    match dec {
        Decoded::Empty(h) => f.header == h && f.width == 0 && f.height == 0 && f.block_x == 0 && f.block_y == 0
            && f.indices@.len() == 0 && f.opaque@.len() == 0,
        Decoded::Raster { header, width, rows } => {
            &&& f.header == header
            &&& f.width == width && f.height == rows.len()
            &&& f.block_x == header.hot_x + header.dx && f.block_y == header.hot_y + header.dy
            &&& f.wf()
            &&& forall|y: int, x: int| 0 <= y < rows.len() && 0 <= x < width ==> {
                &&& #[trigger] f.opaque@[y * width + x] == paint(rows[y], x) is Some
                &&& f.indices@[y * width + x] == (match paint(rows[y], x) { Some(v) => v, None => 0u8 })
            }
        },
    }
}

} // verus!

verus! {

pub open spec fn spans_view(v: Seq<(usize, Vec<u8>)>) -> Seq<SpanView> {
    v.map_values(|s: (usize, Vec<u8>)| (s.0 as int, s.1@))
}

pub open spec fn rows_view(v: Seq<Vec<(usize, Vec<u8>)>>) -> Seq<Seq<SpanView>> {
    v.map_values(|r: Vec<(usize, Vec<u8>)>| spans_view(r@))
}

/// Every span ends by column `w`.
pub open spec fn spans_within(sp: Seq<SpanView>, w: int) -> bool {
    forall|j: int| 0 <= j < sp.len() ==> 0 <= #[trigger] sp[j].0 && sp[j].0 + sp[j].1.len() <= w
}

/// One row from `p`, its faults reported as the record's errors.
fn decode_row(d: &[u8], p: usize, limit: usize, offset: usize, row: usize) -> (r: Result<(usize, usize, Vec<(usize, Vec<u8>)>), ShpError>)
    requires
        p < limit <= d@.len(),
        row <= MAX_DIM,
    ensures
        match spec_row(d@, p as int, limit as int, 0) {
            Ok((pe, xe, sp)) => r matches Ok((pe2, xe2, spv)) && pe2 == pe && xe2 == xe && spans_view(spv@) == sp,
            Err(RowFault::Overrun) => r == Err::<(usize, usize, Vec<(usize, Vec<u8>)>), ShpError>(ShpError::RowOverrun { offset, row }),
            Err(RowFault::Wide(w)) => r == Err::<(usize, usize, Vec<(usize, Vec<u8>)>), ShpError>(ShpError::TooLarge { offset, width: w as usize, height: (row + 1) as usize }),
        },
{
    let _n = d.len();
    let ghost dd = d@;
    let mut q = p;
    let mut x: usize = 0;
    let mut spans: Vec<(usize, Vec<u8>)> = Vec::new();
    loop
        invariant
            dd == d@,
            p <= q <= limit <= dd.len(),
            x <= MAX_DIM,
            row <= MAX_DIM,
            spec_row(dd, p as int, limit as int, 0) == (match spec_row(dd, q as int, limit as int, x as int) {
                Ok((pe, xe, sp)) => Ok((pe, xe, spans_view(spans@) + sp)),
                Err(e) => Err(e),
            }),
        decreases limit - q,
    {
        if q >= limit {
            return Err(ShpError::RowOverrun { offset, row });
        }
        let op = d[q];
        let q1 = q + 1;
        if op == 0 {
            proof {
                assert(spans_view(spans@) + Seq::<SpanView>::empty() =~= spans_view(spans@));
            }
            return Ok((q1, x, spans));
        } else if op == 1 {
            if q1 >= limit {
                return Err(ShpError::RowOverrun { offset, row });
            }
            let x2 = x + d[q1] as usize;
            if x2 > MAX_DIM {
                return Err(ShpError::TooLarge { offset, width: x2, height: row + 1 });
            }
            x = x2;
            q = q1 + 1;
        } else if op % 2 == 1 {
            let k = (op / 2) as usize;
            if k > limit - q1 {
                return Err(ShpError::RowOverrun { offset, row });
            }
            let x2 = x + k;
            if x2 > MAX_DIM {
                return Err(ShpError::TooLarge { offset, width: x2, height: row + 1 });
            }
            let mut px: Vec<u8> = Vec::new();
            let mut t: usize = 0;
            while t < k
                invariant
                    t <= k,
                    q1 + k <= limit <= dd.len(),
                    dd == d@,
                    px@ == dd.subrange(q1 as int, q1 + t),
                decreases k - t,
            {
                px.push(d[q1 + t]);
                assert(dd.subrange(q1 as int, q1 + t + 1) =~= dd.subrange(q1 as int, q1 + t).push(dd[q1 + t]));
                t = t + 1;
            }
            let ghost before = spans_view(spans@);
            spans.push((x, px));
            proof {
                assert(spans_view(spans@) =~= before.push((x as int, dd.subrange(q1 as int, q1 + k))));
                match spec_row(dd, q1 + k, limit as int, x2 as int) {
                    Ok((pe, xe, sp)) => {
                        assert(before + (seq![(x as int, dd.subrange(q1 as int, q1 + k))] + sp)
                            =~= before.push((x as int, dd.subrange(q1 as int, q1 + k))) + sp);
                    }
                    Err(_) => {}
                }
            }
            x = x2;
            q = q1 + k;
        } else {
            let k = (op / 2) as usize;
            if q1 >= limit {
                return Err(ShpError::RowOverrun { offset, row });
            }
            let x2 = x + k;
            if x2 > MAX_DIM {
                return Err(ShpError::TooLarge { offset, width: x2, height: row + 1 });
            }
            let b = d[q1];
            let mut px: Vec<u8> = Vec::new();
            let mut t: usize = 0;
            while t < k
                invariant
                    t <= k,
                    px@ == Seq::new(t as nat, |i: int| b),
                decreases k - t,
            {
                px.push(b);
                assert(px@ =~= Seq::new((t + 1) as nat, |i: int| b));
                t = t + 1;
            }
            let ghost before = spans_view(spans@);
            let ghost fill = Seq::new(k as nat, |i: int| dd[q1 as int]);
            assert(px@ =~= fill);
            spans.push((x, px));
            proof {
                assert(spans_view(spans@) =~= before.push((x as int, fill)));
                match spec_row(dd, q1 + 1, limit as int, x2 as int) {
                    Ok((pe, xe, sp)) => {
                        assert(before + (seq![(x as int, fill)] + sp) =~= before.push((x as int, fill)) + sp);
                    }
                    Err(_) => {}
                }
            }
            x = x2;
            q = q1 + 1;
        }
    }
}

} // verus!

verus! {

fn zeros(d: &[u8], from: usize, to: usize) -> (r: bool)
    requires
        from <= to <= d@.len(),
    ensures
        r == all_zero(d@, from as int, to as int),
{
    let mut i = from;
    while i < to
        invariant
            from <= i <= to <= d@.len(),
            all_zero(d@, from as int, i as int),
        decreases to - i,
    {
        if d[i] != 0 {
            return false;
        }
        i = i + 1;
    }
    true
}

/// All rows of the record at `offset`, and the widest row's width.
fn decode_rows(d: &[u8], offset: usize, bound: usize) -> (r: Result<(Vec<Vec<(usize, Vec<u8>)>>, usize), ShpError>)
    requires
        offset + 60 <= bound <= d@.len(),
    ensures
        match spec_rows(d@, offset as int, bound as int, offset + 24, 0, 0) {
            Ok((rows, w)) => r matches Ok((rv, wv)) && rows_view(rv@) == rows && wv == w && w <= MAX_DIM
                && rows.len() <= MAX_DIM && forall|y: int| 0 <= y < rows.len() ==> spans_within(#[trigger] rows[y], w),
            Err(e) => r == Err::<(Vec<Vec<(usize, Vec<u8>)>>, usize), ShpError>(e),
        },
{
    let _n = d.len();
    let ghost dd = d@;
    let limit = bound - 36;
    let mut p = offset + 24;
    let mut rows: Vec<Vec<(usize, Vec<u8>)>> = Vec::new();
    let mut width: usize = 0;
    proof {
        assert(rows_view(rows@) + Seq::<Seq<SpanView>>::empty() =~= rows_view(rows@));
        match spec_rows(dd, offset as int, bound as int, offset + 24, 0, 0) {
            Ok((rs, w)) => { assert(rows_view(rows@) + rs =~= rs); }
            Err(_) => {}
        }
    }
    loop
        invariant
            dd == d@,
            _n == dd.len(),
            offset + 24 <= p <= limit + 36,
            limit + 36 == bound <= dd.len(),
            width <= MAX_DIM,
            rows@.len() <= MAX_DIM,
            forall|y: int| 0 <= y < rows@.len() ==> spans_within(#[trigger] rows_view(rows@)[y], width as int),
            spec_rows(dd, offset as int, bound as int, offset + 24, 0, 0) == (match spec_rows(dd, offset as int, bound as int, p as int, rows@.len() as int, width as int) {
                Ok((rs, w)) => Ok((rows_view(rows@) + rs, w)),
                Err(e) => Err(e),
            }),
        ensures
            dd == d@,
            width <= MAX_DIM,
            rows@.len() <= MAX_DIM,
            forall|y: int| 0 <= y < rows@.len() ==> spans_within(#[trigger] rows_view(rows@)[y], width as int),
            spec_rows(dd, offset as int, bound as int, offset + 24, 0, 0) == (match spec_rows(dd, offset as int, bound as int, p as int, rows@.len() as int, width as int) {
                Ok((rs, w)) => Ok((rows_view(rows@) + rs, w)),
                Err(e) => Err(e),
            }),
            ends_at(dd, p as int, bound as int),
        decreases bound - p,
    {
        if p <= limit {
            let t = (p + 3) / 4 * 4;
            assert(t == align4(p as int));
            if t <= bound && 36 <= bound - t && zeros(d, p, t) && is_trailer(slice_sub(d, t, t + 36)) {
                break;
            }
        } else {
            assert(align4(p as int) >= p) by (nonlinear_arith) requires p >= 0;
        }
        if p >= limit {
            return Err(ShpError::NoTrailer { offset });
        }
        let res = decode_row(d, p, limit, offset, rows.len());
        let (p2, x, spans) = match res {
            Ok(v) => v,
            Err(e) => { return Err(e); }
        };
        proof { lemma_row_advances(dd, p as int, limit as int, 0); }
        let w2 = if width >= x { width } else { x };
        let ghost before = rows_view(rows@);
        rows.push(spans);
        proof {
            assert(rows_view(rows@) =~= before.push(spans_view(spans@)));
        }
        if rows.len() > MAX_DIM {
            return Err(ShpError::TooLarge { offset, width: w2, height: rows.len() });
        }
        proof {
            match spec_rows(dd, offset as int, bound as int, p2 as int, rows@.len() as int, w2 as int) {
                Ok((rs, w)) => {
                    assert(before + (seq![spans_view(spans@)] + rs) =~= before.push(spans_view(spans@)) + rs);
                }
                Err(_) => {}
            }
            assert forall|y: int| 0 <= y < rows@.len() implies spans_within(#[trigger] rows_view(rows@)[y], w2 as int) by {
                if y < rows@.len() - 1 {
                    assert(rows_view(rows@)[y] == before[y]);
                    assert(spans_within(before[y], width as int));
                } else {
                    assert(rows_view(rows@)[y] == spans_view(spans@));
                }
            }
        }
        width = w2;
        p = p2;
    }
    proof {
        assert(rows_view(rows@) + Seq::<Seq<SpanView>>::empty() =~= rows_view(rows@));
    }
    Ok((rows, width))
}

fn slice_sub(d: &[u8], from: usize, to: usize) -> (r: &[u8])
    requires
        from <= to <= d@.len(),
    ensures
        r@ == d@.subrange(from as int, to as int),
{
    vstd::slice::slice_subrange(d, from, to)
}

} // verus!

verus! {

/// The opacity and index a painted pixel should hold.
pub open spec fn expected(o: Option<u8>) -> (bool, u8) {
    match o {
        Some(v) => (true, v),
        None => (false, 0u8),
    }
}

pub open spec fn pixel_state(ind: Seq<u8>, op: Seq<bool>, w: int, y: int, x: int) -> (bool, u8) {
    (op[y * w + x], ind[y * w + x])
}

proof fn lemma_cell_index(w: int, y: int, x: int, y2: int, x2: int)
    requires
        0 <= x < w,
        0 <= x2 < w,
        0 <= y,
        0 <= y2,
        y * w + x == y2 * w + x2,
    ensures
        y == y2 && x == x2,
{
    if y < y2 {
        assert(y * w + x < y2 * w + x2) by (nonlinear_arith) requires y < y2, x < w, 0 <= x2, w > 0;
    } else if y > y2 {
        assert(y * w + x > y2 * w + x2) by (nonlinear_arith) requires y > y2, x2 < w, 0 <= x, w > 0;
    }
}

proof fn lemma_cell_in_range(w: int, h: int, y: int, x: int)
    requires
        0 <= x < w,
        0 <= y < h,
    ensures
        0 <= y * w + x < w * h,
{
    assert(0 <= y * w + x < w * h) by (nonlinear_arith) requires 0 <= x < w, 0 <= y < h;
}

/// The raster the rows paint: indices and opacity, row-major.
fn fill(rows: &Vec<Vec<(usize, Vec<u8>)>>, width: usize) -> (r: (Vec<u8>, Vec<bool>))
    requires
        width * rows@.len() <= MAX_PIXELS,
        width > 0,
        forall|y: int| 0 <= y < rows@.len() ==> spans_within(#[trigger] rows_view(rows@)[y], width as int),
    ensures
        r.0@.len() == width * rows@.len(),
        r.1@.len() == width * rows@.len(),
        forall|y: int, x: int| 0 <= y < rows@.len() && 0 <= x < width ==>
            #[trigger] pixel_state(r.0@, r.1@, width as int, y, x) == expected(paint(rows_view(rows@)[y], x)),
{
    let h = rows.len();
    let ghost rv = rows_view(rows@);
    let w = width;
    let total = w * h;
    let mut ind: Vec<u8> = Vec::new();
    let mut op: Vec<bool> = Vec::new();
    let mut k: usize = 0;
    while k < total
        invariant
            k <= total,
            ind@ == Seq::new(k as nat, |i: int| 0u8),
            op@ == Seq::new(k as nat, |i: int| false),
        decreases total - k,
    {
        ind.push(0);
        op.push(false);
        assert(ind@ =~= Seq::new((k + 1) as nat, |i: int| 0u8));
        assert(op@ =~= Seq::new((k + 1) as nat, |i: int| false));
        k = k + 1;
    }
    assert forall|yy: int, x: int| 0 <= yy < h && 0 <= x < w implies
        #[trigger] pixel_state(ind@, op@, w as int, yy, x) == expected(None) by {
        lemma_cell_in_range(w as int, h as int, yy, x);
    }
    let mut y: usize = 0;
    while y < h
        invariant
            h == rows@.len(),
            rv == rows_view(rows@),
            total == w * h,
            w > 0,
            y <= h,
            ind@.len() == total,
            op@.len() == total,
            forall|y: int| 0 <= y < rows@.len() ==> spans_within(#[trigger] rows_view(rows@)[y], w as int),
            forall|yy: int, x: int| 0 <= yy < h && 0 <= x < w ==>
                #[trigger] pixel_state(ind@, op@, w as int, yy, x) == expected(if yy < y { paint(rv[yy], x) } else { None }),
        decreases h - y,
    {
        let spans = &rows[y];
        let ghost row = rv[y as int];
        assert(row == spans_view(spans@));
        assert(spans_within(row, w as int));
        assert(row.subrange(0, 0) =~= Seq::<SpanView>::empty());
        let mut j: usize = 0;
        while j < spans.len()
            invariant
                h == rows@.len(),
                rv == rows_view(rows@),
                rv.len() == h,
                total == w * h,
                w > 0,
                y < h,
                row == rv[y as int],
                row == spans_view(spans@),
                spans_within(row, w as int),
                j <= spans@.len(),
                ind@.len() == total,
                op@.len() == total,
                forall|yy: int, x: int| 0 <= yy < h && 0 <= x < w ==>
                    #[trigger] pixel_state(ind@, op@, w as int, yy, x) == expected(
                        if yy < y { paint(rv[yy], x) } else if yy == y { paint(row.subrange(0, j as int), x) } else { None }),
            decreases spans@.len() - j,
        {
            let s = spans[j].0;
            let px = &spans[j].1;
            assert(row[j as int] == (s as int, px@));
            assert(row[j as int].0 == s);
            assert(0 <= s && s + px@.len() <= w);
            let mut t: usize = 0;
            while t < px.len()
                invariant
                    h == rows@.len(),
                    rv.len() == h,
                    total == w * h,
                    w > 0,
                    y < h,
                    j < row.len(),
                    row[j as int] == (s as int, px@),
                    s + px@.len() <= w,
                    t <= px@.len(),
                    ind@.len() == total,
                    op@.len() == total,
                    forall|yy: int, x: int| 0 <= yy < h && 0 <= x < w ==>
                        #[trigger] pixel_state(ind@, op@, w as int, yy, x) == expected(
                            if yy < y { paint(rv[yy], x) } else if yy == y {
                                if s <= x < s + t { Some(px@[x - s]) } else { paint(row.subrange(0, j as int), x) }
                            } else { None }),
                decreases px@.len() - t,
            {
                proof { lemma_cell_in_range(w as int, h as int, y as int, (s + t) as int); }
                let i = y * w + s + t;
                let ghost oi = ind@;
                let ghost oo = op@;
                ind.set(i, px[t]);
                op.set(i, true);
                proof {
                    assert forall|yy: int, x: int| 0 <= yy < h && 0 <= x < w implies
                        #[trigger] pixel_state(ind@, op@, w as int, yy, x) == expected(
                            if yy < y { paint(rv[yy], x) } else if yy == y {
                                if s <= x < s + t + 1 { Some(px@[x - s]) } else { paint(row.subrange(0, j as int), x) }
                            } else { None }) by {
                        lemma_cell_in_range(w as int, h as int, yy, x);
                        if yy * w + x == i {
                            lemma_cell_index(w as int, yy, x, y as int, (s + t) as int);
                        } else {
                            assert(pixel_state(ind@, op@, w as int, yy, x) == pixel_state(oi, oo, w as int, yy, x));
                            if yy == y && x == s + t {
                                assert(yy * w + x == i);
                            }
                        }
                    }
                }
                t = t + 1;
            }
            proof {
                let pre = row.subrange(0, j as int);
                let post = row.subrange(0, j + 1);
                assert(post.drop_last() =~= pre);
                assert(post.last() == (s as int, px@));
                assert forall|yy: int, x: int| 0 <= yy < h && 0 <= x < w implies
                    #[trigger] pixel_state(ind@, op@, w as int, yy, x) == expected(
                        if yy < y { paint(rv[yy], x) } else if yy == y { paint(row.subrange(0, j + 1), x) } else { None }) by {
                    if yy == y {
                        assert(paint(post, x) == (if s <= x < s + px@.len() { Some(px@[x - s]) } else { paint(pre, x) }));
                    }
                }
            }
            j = j + 1;
        }
        proof {
            assert(row.subrange(0, j as int) =~= row);
        }
        y = y + 1;
    }
    (ind, op)
}

} // verus!

verus! {

impl ShapeFile {
    /// Decode the frame record at `offset` (a value from a container table).
    pub fn decode(&self, offset: usize) -> (res: Result<Frame, ShpError>)
        requires
            self.wf(),
        ensures
            match spec_decode(self.data_view(), self.record_view(), self.table_end_view(), offset) {
                Ok(dec) => res matches Ok(f) && frame_is(f, dec),
                Err(e) => res == Err::<Frame, ShpError>(e),
            },
            res matches Ok(f) ==> f.width <= MAX_DIM && f.height <= MAX_DIM && f.width * f.height <= MAX_PIXELS,
    {
        let bound = match self.record_bound(offset) {
            Ok(b) => b,
            Err(e) => { return Err(e); }
        };
        proof {
            match spec_record_bound(self.record_view(), self.data_view().len() as int, offset) {
                Ok(b) => { assert(bound as int == b); }
                Err(e) => { assert(false); }
            }
        }
        if offset < self.table_end || offset > bound || 60 > bound - offset {
            return Err(ShpError::RecordTooSmall { offset });
        }
        let data = self.data.as_slice();
        let header = FrameHeader::parse(data, offset);
        if header.is_placeholder() {
            return Ok(Frame::empty(header));
        }
        let (rows, width) = match decode_rows(data, offset, bound) {
            Ok(v) => v,
            Err(e) => { return Err(e); }
        };
        let height = rows.len();
        if width == 0 || height == 0 {
            return Ok(Frame::empty(header));
        }
        proof {
            assert(width * height <= MAX_DIM * MAX_DIM) by (nonlinear_arith)
                requires width <= MAX_DIM, height <= MAX_DIM;
        }
        if width * height > MAX_PIXELS {
            return Err(ShpError::TooLarge { offset, width, height });
        }
        let (indices, opaque) = fill(&rows, width);
        let f = Frame {
            header,
            width,
            height,
            block_x: header.hot_x as i32 + header.dx,
            block_y: header.hot_y as i32 + header.dy,
            indices,
            opaque,
        };
        proof {
            let rv = rows_view(rows@);
            assert forall|y: int, x: int| 0 <= y < rv.len() && 0 <= x < width implies {
                &&& #[trigger] f.opaque@[y * width + x] == paint(rv[y], x) is Some
                &&& f.indices@[y * width + x] == (match paint(rv[y], x) { Some(v) => v, None => 0u8 })
            } by {
                assert(pixel_state(f.indices@, f.opaque@, width as int, y, x) == expected(paint(rv[y], x)));
            }
        }
        Ok(f)
    }

    /// Decode every entry of a container, in animation order.
    pub fn decode_container(&self, index: usize) -> (out: Vec<Result<Frame, ShpError>>)
        requires
            self.wf(),
            index < self.tables().len(),
        ensures
            out@.len() == self.tables()[index as int].len(),
            forall|i: int| 0 <= i < out@.len() ==> match spec_decode(self.data_view(), self.record_view(), self.table_end_view(), self.tables()[index as int][i]) {
                Ok(dec) => #[trigger] out@[i] matches Ok(f) && frame_is(f, dec),
                Err(e) => out@[i] == Err::<Frame, ShpError>(e),
            },
    {
        let c = self.containers[index].as_slice();
        let mut out: Vec<Result<Frame, ShpError>> = Vec::new();
        let mut i: usize = 0;
        while i < c.len()
            invariant
                self.wf(),
                c@ == self.tables()[index as int],
                i <= c@.len(),
                out@.len() == i,
                forall|k: int| 0 <= k < i ==> match spec_decode(self.data_view(), self.record_view(), self.table_end_view(), c@[k]) {
                    Ok(dec) => #[trigger] out@[k] matches Ok(f) && frame_is(f, dec),
                    Err(e) => out@[k] == Err::<Frame, ShpError>(e),
                },
            decreases c@.len() - i,
        {
            let r = self.decode(c[i]);
            out.push(r);
            i = i + 1;
        }
        out
    }
}

/// A shape file has no containers, and is refused for it, exactly when it
/// does not begin with an eight-byte container header carrying the magic;
/// otherwise the first container lists, in order, the record offsets its
/// table gives (each relative to the file's start).
pub proof fn first_container_of(d: Seq<u8>)
    ensures
        (spec_tables(d, 0, 0) matches Ok((cs, _)) && cs.len() == 0) <==> !magic_at(d, 0),
        magic_at(d, 0) ==> (spec_tables(d, 0, 0) matches Ok((cs, _)) ==> cs.len() >= 1
            && cs[0] == Seq::new(le32(d, 4) as nat, |i: int| entry_target(d, 0, i) as usize)),
{
}

} // verus!
