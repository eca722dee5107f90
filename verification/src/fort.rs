//! Campaign scenarios: the `*.fort` files in `netstorm.tarc`, a saved
//! starting position for each mission.
//!
//! A file is `F`, a byte, the format version, four bytes, a `u16` name
//! length and the name, then a stream of chunks, each a little-endian
//! `u16` length (counting itself) and the payload.
//!
//! The first chunk whose payload is a kind byte and then `c` (0x63)
//! records, 256 of them, is the world table: one record per 16 x 16-cell
//! block of a 256 x 256-cell world in row-major order. A record is `c`, a
//! `u16` item count and the items: a cell byte (`column << 4 | row` within
//! the block), a type code and a payload whose length depends on the code
//! (see [`payload_len`]). Later record chunks are the players' fortresses,
//! their structures as records over a canvas two blocks wide, top-left
//! block first.
use vstd::prelude::*;
use crate::bytes::{append, le16, le16_bytes, push_le16, push_zeros, read_le16};
use crate::tarc::utf8_lossy;
use vstd::string::StringSliceAdditionalSpecFns;

verus! {

/// Cells per block side; the world is `BLOCKS` blocks square.
pub const BLOCK: i32 = 16;
pub const BLOCKS: i32 = 16;
/// A fortress canvas is this many blocks wide.
pub const CANVAS_BLOCKS_W: i32 = 2;
/// And at most this many tall in the files seen.
pub const CANVAS_BLOCKS_H: i32 = 3;

/// Codes with a fixed meaning the parser relies on.
pub const CODE_GROUND: u8 = 0x9d;
pub const CODE_GEYSER: u8 = 0x7a;
pub const CODE_TEMPLE: u8 = 0x9e;
pub const CODE_PRIEST: u8 = 0x59;
/// Altars are the codes `CODE_ALTAR_FIRST..=CODE_ALTAR_LAST`.
pub const CODE_ALTAR_FIRST: u8 = 0x7b;
pub const CODE_ALTAR_LAST: u8 = 0x7d;
/// Bridge cells are the codes `CODE_BRIDGE_FIRST..=CODE_BRIDGE_LAST`.
pub const CODE_BRIDGE_FIRST: u8 = 0xfb;
pub const CODE_BRIDGE_LAST: u8 = 0xfe;

pub open spec fn spec_payload_len(code: u8) -> int {
    if code == 0x9e {
        3
    } else if 0x7b <= code <= 0x7d {
        4
    } else if 0x55 <= code <= 0x58 {
        3
    } else if code == 0x6e {
        3
    } else if code == 0x4f || code == 0x5c || code == 0x6f || code == 0x81 || code == 0x83 || code == 0x85
        || code == 0x87 || code == 0x89 || code == 0x8c || code == 0x8d || code == 0x8e || code == 0x92 || code == 0x9c {
        2
    } else {
        1
    }
}

/// Bytes of payload after an item's cell and code.
pub fn payload_len(code: u8) -> (n: usize)
    ensures
        n == spec_payload_len(code),
{
    match code {
        0x9e => 3,
        0x7b..=0x7d => 4,
        0x55..=0x58 => 3,
        0x6e => 3,
        0x4f | 0x5c | 0x6f | 0x81 | 0x83 | 0x85 | 0x87 | 0x89 | 0x8c | 0x8d | 0x8e | 0x92 | 0x9c => 2,
        _ => 1,
    }
}

/// One thing at a cell: ground, a geyser, a bridge cell, a structure or a
/// unit, by its type code.
#[derive(Clone, Debug, PartialEq, Eq)]
pub struct Item {
    pub x: i32,
    pub y: i32,
    pub code: u8,
    pub payload: Vec<u8>,
}

/// A player number: 1 to 8.
pub open spec fn small(b: Option<u8>) -> Option<u8> {
    match b {
        Some(v) => if 1 <= v <= 8 { Some(v) } else { None },
        None => None,
    }
}

pub open spec fn byte_at(p: Seq<u8>, i: int) -> Option<u8> {
    if 0 <= i < p.len() { Some(p[i]) } else { None }
}

/// The owner an item with this code and payload names.
pub open spec fn spec_owner(code: u8, p: Seq<u8>) -> Option<u8> {
    if code == CODE_GROUND || code == CODE_GEYSER {
        None
    } else if CODE_BRIDGE_FIRST <= code <= CODE_BRIDGE_LAST {
        None
    } else if code == CODE_TEMPLE {
        small(byte_at(p, 1))
    } else if CODE_ALTAR_FIRST <= code <= CODE_ALTAR_LAST {
        small(byte_at(p, 0))
    } else if 0x55 <= code <= 0x58 {
        small(byte_at(p, 1))
    } else if p.len() == 2 {
        if small(byte_at(p, 1)) is Some { small(byte_at(p, 1)) } else { small(byte_at(p, 0)) }
    } else {
        small(byte_at(p, 0))
    }
}

fn small_at(p: &Vec<u8>, i: usize) -> (r: Option<u8>)
    ensures
        r == small(byte_at(p@, i as int)),
{
    if i < p.len() && p[i] >= 1 && p[i] <= 8 { Some(p[i]) } else { None }
}

impl Item {
    /// The player number the payload names (1 = the first player), if it
    /// carries one: a Temple's second byte, an altar's first, a Workshop's
    /// second, otherwise a small byte.
    pub fn owner(&self) -> (o: Option<u8>)
        ensures
            o == spec_owner(self.code, self.payload@),
    {
        let c = self.code;
        if c == CODE_GROUND || c == CODE_GEYSER {
            None
        } else if CODE_BRIDGE_FIRST <= c && c <= CODE_BRIDGE_LAST {
            None
        } else if c == CODE_TEMPLE {
            small_at(&self.payload, 1)
        } else if CODE_ALTAR_FIRST <= c && c <= CODE_ALTAR_LAST {
            small_at(&self.payload, 0)
        } else if 0x55 <= c && c <= 0x58 {
            small_at(&self.payload, 1)
        } else if self.payload.len() == 2 {
            match small_at(&self.payload, 1) {
                Some(v) => Some(v),
                None => small_at(&self.payload, 0),
            }
        } else {
            small_at(&self.payload, 0)
        }
    }

    /// A Temple written for the seat the file was made from has its top
    /// bit set on the first payload byte.
    pub fn is_local_temple(&self) -> (r: bool)
        ensures
            r == (self.code == CODE_TEMPLE && self.payload@.len() > 0 && self.payload@[0] >= 0x80),
    {
        self.code == CODE_TEMPLE && self.payload.len() > 0 && self.payload[0] >= 0x80
    }
}

/// A player's fortress: its structures on a canvas of blocks, coordinates
/// relative to the canvas's top-left cell.
#[derive(Clone, Debug, PartialEq, Eq)]
pub struct Fortress {
    pub items: Vec<Item>,
    /// Blocks the file listed (two per row).
    pub blocks: usize,
}

impl Fortress {
    /// Canvas width and height in cells: two blocks wide, as many rows of
    /// blocks as the blocks fill (at least one).
    pub fn canvas_size(&self) -> (s: (i32, i32))
        requires
            self.blocks < 268435455,
        ensures
            s.0 == CANVAS_BLOCKS_W * BLOCK,
            s.1 == (if (self.blocks + 1) / 2 >= 1 { (self.blocks + 1) / 2 } else { 1 }) * BLOCK,
    {
        let r = (self.blocks as i32 + CANVAS_BLOCKS_W - 1) / CANVAS_BLOCKS_W;
        let rows = if r >= 1 { r } else { 1 };
        (CANVAS_BLOCKS_W * BLOCK, rows * BLOCK)
    }
}

#[derive(Debug, PartialEq, Eq)]
pub enum FortError {
    Short,
    /// Not a fort file (no F magic).
    Magic,
    /// No world table of 256 blocks.
    NoTable,
}

} // verus!

verus! {

/// An item as a record stores it: cell byte, code, payload.
pub type RawItem = (u8, u8, Seq<u8>);

pub open spec fn raw_items_view(v: Seq<(u8, u8, Vec<u8>)>) -> Seq<RawItem> {
    v.map_values(|t: (u8, u8, Vec<u8>)| (t.0, t.1, t.2@))
}

pub open spec fn raw_records_view(v: Seq<Vec<(u8, u8, Vec<u8>)>>) -> Seq<Seq<RawItem>> {
    v.map_values(|r: Vec<(u8, u8, Vec<u8>)>| raw_items_view(r@))
}

/// `count` items from `p` on, and where they end.
pub open spec fn spec_items(d: Seq<u8>, p: int, count: int) -> Option<(Seq<RawItem>, int)>
    decreases count,
{
    if count <= 0 {
        Some((Seq::empty(), p))
    } else if p < 0 || p + 2 > d.len() || p + 2 + spec_payload_len(d[p + 1]) > d.len() {
        None
    } else {
        let n = spec_payload_len(d[p + 1]);
        match spec_items(d, p + 2 + n, count - 1) {
            Some((rest, q)) => Some((seq![(d[p], d[p + 1], d.subrange(p + 2, p + 2 + n))] + rest, q)),
            None => None,
        }
    }
}

/// The `c` records in `d[p..end]`; `None` unless they fill the range exactly.
pub open spec fn spec_records(d: Seq<u8>, p: int, end: int) -> Option<Seq<Seq<RawItem>>>
    decreases d.len() - p,
{
    if 0 <= p < end && p < d.len() && d[p] == 0x63 {
        if p + 3 > d.len() {
            None
        } else {
            match spec_items(d, p + 3, le16(d, p + 1)) {
                None => None,
                Some((items, q)) => {
                    proof { lemma_items_advance(d, p + 3, le16(d, p + 1)); }
                    match spec_records(d, q, end) {
                        Some(rest) => Some(seq![items] + rest),
                        None => None,
                    }
                }
            }
        }
    } else if p == end {
        Some(Seq::empty())
    } else {
        None
    }
}

pub proof fn lemma_items_advance(d: Seq<u8>, p: int, count: int)
    requires
        p <= d.len(),
    ensures
        spec_items(d, p, count) matches Some((items, q)) ==> q >= p && q <= d.len(),
    decreases count,
{
    if count > 0 && p >= 0 && p + 2 <= d.len() && p + 2 + spec_payload_len(d[p + 1]) <= d.len() {
        lemma_items_advance(d, p + 2 + spec_payload_len(d[p + 1]), count - 1);
    }
}

/// The `u16` at `p`, if the file holds it.
fn u16_at(d: &[u8], p: usize) -> (r: Option<usize>)
    ensures
        r == (if p + 2 <= d@.len() { Some(le16(d@, p as int) as usize) } else { None::<usize> }),
{
    if p < d.len() && 2 <= d.len() - p { Some(read_le16(d, p) as usize) } else { None }
}

/// Parse the `c` records in `d[start..end]`; `None` unless they fill the
/// range exactly.
fn records(d: &[u8], start: usize, end: usize) -> (r: Option<Vec<Vec<(u8, u8, Vec<u8>)>>>)
    requires
        start <= end <= d@.len(),
    ensures
        match spec_records(d@, start as int, end as int) {
            Some(rs) => r matches Some(v) && raw_records_view(v@) == rs,
            None => r is None,
        },
{
    let ghost dd = d@;
    let len = d.len();
    let mut p = start;
    let mut out: Vec<Vec<(u8, u8, Vec<u8>)>> = Vec::new();
    while p < end && d[p] == 0x63
        invariant
            dd == d@,
            len == dd.len(),
            end <= len,
            spec_records(dd, start as int, end as int) == (match spec_records(dd, p as int, end as int) {
                Some(rest) => Some(raw_records_view(out@) + rest),
                None => None::<Seq<Seq<RawItem>>>,
            }),
        decreases len - p,
    {
        let count = match u16_at(d, p + 1) {
            Some(c) => c,
            None => { return None; }
        };
        let mut q = p + 3;
        let mut items: Vec<(u8, u8, Vec<u8>)> = Vec::new();
        let mut k: usize = 0;
        proof {
            assert(raw_items_view(items@) + Seq::<RawItem>::empty() =~= raw_items_view(items@));
            match spec_items(dd, q as int, count as int) {
                Some((its, e)) => { assert(raw_items_view(items@) + its =~= its); }
                None => {}
            }
        }
        while k < count
            invariant
                dd == d@,
                len == dd.len(),
                k <= count,
                p + 3 <= q,
                spec_items(dd, p + 3, count as int) == (match spec_items(dd, q as int, (count - k) as int) {
                    Some((its, e)) => Some((raw_items_view(items@) + its, e)),
                    None => None::<(Seq<RawItem>, int)>,
                }),
                q <= len,
                p < end <= len,
                p + 3 <= len,
                count == le16(dd, p + 1),
                spec_records(dd, start as int, end as int) == (match spec_records(dd, p as int, end as int) {
                    Some(rest) => Some(raw_records_view(out@) + rest),
                    None => None::<Seq<Seq<RawItem>>>,
                }),
                dd[p as int] == 0x63,
            decreases count - k,
        {
            if q >= len || 2 > len - q {
                return None;
            }
            let cell = d[q];
            let code = d[q + 1];
            let n = payload_len(code);
            if n > len - q - 2 {
                return None;
            }
            let mut payload: Vec<u8> = Vec::new();
            let mut t: usize = 0;
            while t < n
                invariant
                    dd == d@,
                    len == dd.len(),
                    t <= n,
                    q + 2 + n <= dd.len(),
                    payload@ == dd.subrange(q + 2, q + 2 + t),
                decreases n - t,
            {
                payload.push(d[q + 2 + t]);
                assert(dd.subrange(q + 2, q + 2 + t + 1) =~= dd.subrange(q + 2, q + 2 + t).push(dd[q + 2 + t]));
                t = t + 1;
            }
            let ghost before = raw_items_view(items@);
            let ghost it: RawItem = (cell, code, dd.subrange(q + 2, q + 2 + n));
            items.push((cell, code, payload));
            proof {
                assert(raw_items_view(items@) =~= before.push(it));
                match spec_items(dd, q + 2 + n, (count - k - 1) as int) {
                    Some((its, e)) => { assert(before + (seq![it] + its) =~= before.push(it) + its); }
                    None => {}
                }
            }
            q = q + 2 + n;
            k = k + 1;
        }
        proof {
            assert(raw_items_view(items@) + Seq::<RawItem>::empty() =~= raw_items_view(items@));
            lemma_items_advance(dd, p + 3, count as int);
        }
        let ghost before = raw_records_view(out@);
        out.push(items);
        proof {
            assert(raw_records_view(out@) =~= before.push(raw_items_view(items@)));
            match spec_records(dd, q as int, end as int) {
                Some(rest) => { assert(before + (seq![raw_items_view(items@)] + rest) =~= before.push(raw_items_view(items@)) + rest); }
                None => {}
            }
        }
        p = q;
    }
    if p == end {
        proof { assert(raw_records_view(out@) + Seq::<Seq<RawItem>>::empty() =~= raw_records_view(out@)); }
        Some(out)
    } else {
        None
    }
}

} // verus!

verus! {

/// An item as coordinates, code and payload.
pub type ItemView = (int, int, u8, Seq<u8>);

pub open spec fn item_view(i: Item) -> ItemView {
    (i.x as int, i.y as int, i.code, i.payload@)
}

pub open spec fn items_view(v: Seq<Item>) -> Seq<ItemView> {
    v.map_values(|i: Item| item_view(i))
}

/// The items of records laid out `cols` blocks wide, block by block.
pub open spec fn placed(recs: Seq<Seq<RawItem>>, cols: int) -> Seq<ItemView>
    decreases recs.len(),
{
    if recs.len() == 0 {
        Seq::empty()
    } else {
        let k = recs.len() - 1;
        placed(recs.drop_last(), cols) + recs.last().map_values(|it: RawItem|
            ((k % cols) * 16 + it.0 / 16, (k / cols) * 16 + it.0 % 16, it.1, it.2))
    }
}

/// What the chunks read so far have given.
pub struct ChunkState {
    pub table_seen: bool,
    pub items: Seq<ItemView>,
    pub fortresses: Seq<(Seq<ItemView>, int)>,
    pub skipped: int,
}

/// The chunks from `p` on, read into `st`.
pub open spec fn spec_chunks(d: Seq<u8>, p: int, st: ChunkState) -> ChunkState
    decreases d.len() - p,
{
    if p < 0 || p + 2 > d.len() {
        st
    } else {
        let len = le16(d, p);
        if len < 2 || p + len > d.len() {
            st
        } else {
            let start = p + 2;
            let end = p + len;
            if end - start < 4 || d[start + 1] != 0x63 {
                spec_chunks(d, end, st)
            } else {
                match spec_records(d, start + 1, end) {
                    None => spec_chunks(d, end, ChunkState { skipped: st.skipped + 1, ..st }),
                    Some(recs) => if !st.table_seen && recs.len() == 256 {
                        spec_chunks(d, end, ChunkState { table_seen: true, items: st.items + placed(recs, 16), ..st })
                    } else if st.table_seen {
                        spec_chunks(d, end, ChunkState { fortresses: st.fortresses.push((placed(recs, 2), recs.len() as int)), ..st })
                    } else {
                        spec_chunks(d, end, st)
                    },
                }
            }
        }
    }
}

/// A fort file: its version, name bytes and what its chunks hold, or why it is none.
pub open spec fn spec_fort(d: Seq<u8>) -> Result<(u8, Seq<u8>, ChunkState), FortError> {
    if d.len() < 12 {
        Err(FortError::Short)
    } else if d[0] != 0x46 {
        Err(FortError::Magic)
    } else if 10 + le16(d, 8) > d.len() {
        Err(FortError::Short)
    } else {
        let st = spec_chunks(d, 10 + le16(d, 8), ChunkState { table_seen: false, items: Seq::empty(), fortresses: Seq::empty(), skipped: 0 });
        if !st.table_seen {
            Err(FortError::NoTable)
        } else {
            Ok((d[2], d.subrange(10, 10 + le16(d, 8)), st))
        }
    }
}

#[derive(Clone, Debug, PartialEq, Eq)]
pub struct Fort {
    pub version: u8,
    pub name: String,
    /// Everything in the world table, in world cells.
    pub items: Vec<Item>,
    pub fortresses: Vec<Fortress>,
    /// Record chunks that did not parse to their own length and were skipped.
    pub skipped_chunks: usize,
}

pub open spec fn fortresses_view(v: Seq<Fortress>) -> Seq<(Seq<ItemView>, int)> {
    v.map_values(|f: Fortress| (items_view(f.items@), f.blocks as int))
}

/// Lay records out `cols` blocks wide, appending to `out`.
fn place(recs: &Vec<Vec<(u8, u8, Vec<u8>)>>, cols: i32, out: &mut Vec<Item>)
    requires
        cols == 2 || cols == 16,
        recs@.len() < 65536,
    ensures
        items_view(final(out)@) == items_view(old(out)@) + placed(raw_records_view(recs@), cols as int),
{
    let ghost rv = raw_records_view(recs@);
    let mut k: usize = 0;
    while k < recs.len()
        invariant
            cols == 2 || cols == 16,
            recs@.len() < 65536,
            rv == raw_records_view(recs@),
            k <= recs@.len(),
            items_view(out@) == items_view(old(out)@) + placed(rv.subrange(0, k as int), cols as int),
        decreases recs@.len() - k,
    {
        let bx = (k as i32) % cols;
        let by = (k as i32) / cols;
        let r = &recs[k];
        let ghost base = items_view(out@);
        let mut j: usize = 0;
        while j < r.len()
            invariant
                k < recs@.len() < 65536,
                cols == 2 || cols == 16,
                bx == (k as int) % (cols as int),
                by == (k as int) / (cols as int),
                r@ == recs@[k as int]@,
                j <= r@.len(),
                items_view(out@) == base + raw_items_view(r@).subrange(0, j as int).map_values(|it: RawItem|
                    ((k as int % cols as int) * 16 + it.0 / 16, (k as int / cols as int) * 16 + it.0 % 16, it.1, it.2)),
            decreases r@.len() - j,
        {
            let (cell, code, payload) = (r[j].0, r[j].1, r[j].2.clone());
            let ghost before = items_view(out@);
            out.push(Item { x: bx * BLOCK + (cell / 16) as i32, y: by * BLOCK + (cell % 16) as i32, code, payload });
            proof {
                assert(payload@ == r@[j as int].2@);
                assert(items_view(out@) =~= before.push(item_view(out@.last())));
                assert(raw_items_view(r@).subrange(0, j + 1) =~= raw_items_view(r@).subrange(0, j as int).push(raw_items_view(r@)[j as int]));
                assert(items_view(out@) =~= base + raw_items_view(r@).subrange(0, j + 1).map_values(|it: RawItem|
                    ((k as int % cols as int) * 16 + it.0 / 16, (k as int / cols as int) * 16 + it.0 % 16, it.1, it.2)));
            }
            j = j + 1;
        }
        proof {
            let sub = rv.subrange(0, k + 1);
            assert(sub.drop_last() =~= rv.subrange(0, k as int));
            assert(raw_items_view(r@).subrange(0, j as int) =~= raw_items_view(r@));
            assert(sub.last() == raw_items_view(r@));
            assert(items_view(out@) =~= items_view(old(out)@) + placed(sub, cols as int));
        }
        k = k + 1;
    }
    assert(rv.subrange(0, k as int) =~= rv);
}

} // verus!

verus! {

impl Fort {
    pub fn parse(d: &[u8]) -> (res: Result<Fort, FortError>)
        ensures
            match spec_fort(d@) {
                Ok((version, name, st)) => res matches Ok(f) && f.version == version && f.name@ == utf8_lossy(name)
                    && items_view(f.items@) == st.items && fortresses_view(f.fortresses@) == st.fortresses
                    && f.skipped_chunks == st.skipped,
                Err(e) => res == Err::<Fort, FortError>(e),
            },
    {
        let ghost dd = d@;
        let len = d.len();
        if len < 12 {
            return Err(FortError::Short);
        }
        if d[0] != 0x46 {
            return Err(FortError::Magic);
        }
        let version = d[2];
        let name_len = read_le16(d, 8) as usize;
        if name_len > len - 10 {
            return Err(FortError::Short);
        }
        let name = crate::tarc::lossy_string(vstd::slice::slice_subrange(d, 10, 10 + name_len));
        let mut p = 10 + name_len;
        let mut items: Vec<Item> = Vec::new();
        let mut fortresses: Vec<Fortress> = Vec::new();
        let mut skipped: usize = 0;
        let mut table_seen = false;
        let ghost init = ChunkState { table_seen: false, items: Seq::empty(), fortresses: Seq::empty(), skipped: 0 };
        proof {
            assert(items_view(items@) =~= Seq::<ItemView>::empty());
            assert(fortresses_view(fortresses@) =~= Seq::<(Seq<ItemView>, int)>::empty());
            assert(p == 10 + le16(dd, 8));
        }
        loop
            invariant
                dd == d@,
                len == dd.len(),
                p <= len,
                skipped <= p,
                spec_chunks(dd, 10 + le16(dd, 8), init) == spec_chunks(dd, p as int, ChunkState {
                    table_seen, items: items_view(items@), fortresses: fortresses_view(fortresses@), skipped: skipped as int }),
            ensures
                spec_chunks(dd, 10 + le16(dd, 8), init) == (ChunkState {
                    table_seen, items: items_view(items@), fortresses: fortresses_view(fortresses@), skipped: skipped as int }),
            decreases len - p,
        {
            let ghost st = ChunkState { table_seen, items: items_view(items@), fortresses: fortresses_view(fortresses@), skipped: skipped as int };
            let clen = match u16_at(d, p) {
                Some(c) => c,
                None => { break; }
            };
            if clen < 2 || clen > len - p {
                break;
            }
            let start = p + 2;
            let end = p + clen;
            p = end;
            if end - start < 4 || d[start + 1] != 0x63 {
                continue;
            }
            let recs = match records(d, start + 1, end) {
                Some(r) => r,
                None => {
                    skipped = skipped + 1;
                    continue;
                }
            };
            proof {
                assert(recs@.len() < 65536) by {
                    lemma_records_len(dd, start + 1, end as int);
                }
            }
            if !table_seen && recs.len() == 256 {
                table_seen = true;
                place(&recs, BLOCKS, &mut items);
            } else if table_seen {
                let mut fi: Vec<Item> = Vec::new();
                place(&recs, CANVAS_BLOCKS_W, &mut fi);
                let ghost before = fortresses_view(fortresses@);
                fortresses.push(Fortress { items: fi, blocks: recs.len() });
                proof {
                    assert(items_view(Seq::<Item>::empty()) + placed(raw_records_view(recs@), 2) =~= placed(raw_records_view(recs@), 2));
                    assert(fortresses_view(fortresses@) =~= before.push((placed(raw_records_view(recs@), 2), recs@.len() as int)));
                }
            }
        }
        if !table_seen {
            return Err(FortError::NoTable);
        }
        Ok(Fort { version, name, items, fortresses, skipped_chunks: skipped })
    }
}

/// A record takes at least three bytes.
proof fn lemma_records_len(d: Seq<u8>, p: int, end: int)
    requires
        0 <= p <= end,
        end - p < 65536,
    ensures
        spec_records(d, p, end) matches Some(rs) ==> rs.len() <= end - p,
    decreases d.len() - p,
{
    if 0 <= p < end && p < d.len() && d[p] == 0x63 && p + 3 <= d.len() {
        match spec_items(d, p + 3, le16(d, p + 1)) {
            None => {}
            Some((items, q)) => {
                lemma_items_advance(d, p + 3, le16(d, p + 1));
                if q <= end {
                    lemma_records_len(d, q, end);
                } else {
                    assert(!(0 <= q < end));
                }
            }
        }
    }
}

} // verus!

verus! {

/// The ground cells among `items`, with the first payload byte (0 if none).
pub open spec fn spec_ground(items: Seq<Item>) -> Seq<(i32, i32, u8)>
    decreases items.len(),
{
    if items.len() == 0 {
        Seq::empty()
    } else {
        let i = items.last();
        let rest = spec_ground(items.drop_last());
        if i.code == CODE_GROUND {
            rest.push((i.x, i.y, if i.payload@.len() > 0 { i.payload@[0] } else { 0u8 }))
        } else {
            rest
        }
    }
}

pub open spec fn min_i32(a: i32, b: i32) -> i32 {
    if a <= b { a } else { b }
}

pub open spec fn max_i32(a: i32, b: i32) -> i32 {
    if a >= b { a } else { b }
}

/// The bounding box of `items`: (min x, min y, max x, max y).
pub open spec fn spec_bounds(items: Seq<Item>) -> Option<(i32, i32, i32, i32)>
    decreases items.len(),
{
    if items.len() == 0 {
        None
    } else {
        let i = items.last();
        match spec_bounds(items.drop_last()) {
            None => Some((i.x, i.y, i.x, i.y)),
            Some((x0, y0, x1, y1)) => Some((min_i32(x0, i.x), min_i32(y0, i.y), max_i32(x1, i.x), max_i32(y1, i.y))),
        }
    }
}

impl Fort {
    /// Ground cells of the world table with their theme byte, in item order.
    pub fn ground(&self) -> (g: Vec<(i32, i32, u8)>)
        ensures
            g@ == spec_ground(self.items@),
    {
        let mut g: Vec<(i32, i32, u8)> = Vec::new();
        let mut k: usize = 0;
        while k < self.items.len()
            invariant
                k <= self.items@.len(),
                g@ == spec_ground(self.items@.subrange(0, k as int)),
            decreases self.items@.len() - k,
        {
            let i = &self.items[k];
            proof {
                assert(self.items@.subrange(0, k + 1).drop_last() =~= self.items@.subrange(0, k as int));
            }
            if i.code == CODE_GROUND {
                let t: u8 = if i.payload.len() > 0 { i.payload[0] } else { 0 };
                g.push((i.x, i.y, t));
            }
            k = k + 1;
        }
        assert(self.items@.subrange(0, k as int) =~= self.items@);
        g
    }

    /// Bounds of everything in the world table: (min x, min y, max x, max y).
    pub fn bounds(&self) -> (b: Option<(i32, i32, i32, i32)>)
        ensures
            b == spec_bounds(self.items@),
    {
        let mut b: Option<(i32, i32, i32, i32)> = None;
        let mut k: usize = 0;
        while k < self.items.len()
            invariant
                k <= self.items@.len(),
                b == spec_bounds(self.items@.subrange(0, k as int)),
            decreases self.items@.len() - k,
        {
            let i = &self.items[k];
            proof {
                assert(self.items@.subrange(0, k + 1).drop_last() =~= self.items@.subrange(0, k as int));
            }
            b = match b {
                None => Some((i.x, i.y, i.x, i.y)),
                Some((x0, y0, x1, y1)) => Some((
                    if x0 <= i.x { x0 } else { i.x },
                    if y0 <= i.y { y0 } else { i.y },
                    if x1 >= i.x { x1 } else { i.x },
                    if y1 >= i.y { y1 } else { i.y },
                )),
            };
            k = k + 1;
        }
        assert(self.items@.subrange(0, k as int) =~= self.items@);
        b
    }
}

} // verus!

verus! {

/// A chunk: its length (counting the two length bytes, kept to 16 bits)
/// and the payload.
pub open spec fn spec_chunk(payload: Seq<u8>) -> Seq<u8> {
    le16_bytes(((payload.len() + 2) % 65536) as u16) + payload
}

/// The items of a record, one after another: cell, code, payload.
pub open spec fn spec_item_bytes(r: Seq<RawItem>) -> Seq<u8>
    decreases r.len(),
{
    if r.len() == 0 {
        Seq::empty()
    } else {
        spec_item_bytes(r.drop_last()) + seq![r.last().0, r.last().1] + r.last().2
    }
}

/// One `c` record: the marker, the item count (kept to 16 bits) and the items.
pub open spec fn spec_record(r: Seq<RawItem>) -> Seq<u8> {
    seq![0x63u8] + le16_bytes((r.len() % 65536) as u16) + spec_item_bytes(r)
}

/// Records one after another.
pub open spec fn spec_record_list(recs: Seq<Seq<RawItem>>) -> Seq<u8>
    decreases recs.len(),
{
    if recs.len() == 0 { Seq::empty() } else { spec_record_list(recs.drop_last()) + spec_record(recs.last()) }
}

/// A record chunk's payload: kind byte 2, then the records.
pub open spec fn spec_record_payload(recs: Seq<Seq<RawItem>>) -> Seq<u8> {
    seq![2u8] + spec_record_list(recs)
}

/// `recs` cut or padded with empty records to `n`.
pub open spec fn resized(recs: Seq<Seq<RawItem>>, n: int) -> Seq<Seq<RawItem>> {
    Seq::new(n as nat, |k: int| if k < recs.len() { recs[k] } else { Seq::empty() })
}

/// The chunks of the fortresses, one after another.
pub open spec fn spec_fortress_chunks(fs: Seq<Seq<Seq<RawItem>>>) -> Seq<u8>
    decreases fs.len(),
{
    if fs.len() == 0 {
        Seq::empty()
    } else {
        spec_fortress_chunks(fs.drop_last()) + spec_chunk(spec_record_payload(fs.last()))
    }
}

/// The file `encode` writes.
pub open spec fn spec_fort_file(version: u8, name: Seq<u8>, table: Seq<Seq<RawItem>>, fs: Seq<Seq<Seq<RawItem>>>) -> Seq<u8> {
    seq![0x46u8, 0, version, 0, 0, 0, 0, 0] + le16_bytes((name.len() % 65536) as u16) + name
        + spec_chunk(Seq::new(20, |i: int| 0u8)) + spec_chunk(Seq::empty()) + spec_chunk(Seq::empty())
        + spec_chunk(spec_record_payload(resized(table, 256)))
        + spec_chunk(Seq::new(122, |i: int| 0u8)) + spec_chunk(Seq::empty())
        + spec_fortress_chunks(fs)
}

fn push_chunk(out: &mut Vec<u8>, payload: &[u8])
    ensures
        final(out)@ == old(out)@ + spec_chunk(payload@),
{
    let n = payload.len();
    let len: u16 = if n <= 65533 { (n + 2) as u16 } else { ((n - 65534) % 65536) as u16 };
    assert(len == (n + 2) % 65536);
    push_le16(out, len);
    append(out, payload);
}

fn push_record(out: &mut Vec<u8>, r: &Vec<(u8, u8, Vec<u8>)>)
    ensures
        final(out)@ == old(out)@ + spec_record(raw_items_view(r@)),
{
    let ghost rv = raw_items_view(r@);
    out.push(0x63);
    push_le16(out, (r.len() % 65536) as u16);
    let ghost base = out@;
    let mut k: usize = 0;
    while k < r.len()
        invariant
            k <= r@.len(),
            rv == raw_items_view(r@),
            out@ == base + spec_item_bytes(rv.subrange(0, k as int)),
        decreases r@.len() - k,
    {
        out.push(r[k].0);
        out.push(r[k].1);
        append(out, r[k].2.as_slice());
        proof {
            assert(rv.subrange(0, k + 1).drop_last() =~= rv.subrange(0, k as int));
        }
        k = k + 1;
    }
    assert(rv.subrange(0, k as int) =~= rv);
}

/// The payload of a record chunk for the first `n` records of `recs`,
/// padded with empty records.
fn record_payload(recs: &[Vec<(u8, u8, Vec<u8>)>], n: usize) -> (p: Vec<u8>)
    ensures
        p@ == spec_record_payload(resized(raw_records_view(recs@), n as int)),
{
    let ghost rv = raw_records_view(recs@);
    let ghost target = resized(rv, n as int);
    let mut p: Vec<u8> = Vec::new();
    p.push(2);
    let empty: Vec<(u8, u8, Vec<u8>)> = Vec::new();
    let mut k: usize = 0;
    while k < n
        invariant
            k <= n,
            rv == raw_records_view(recs@),
            target == resized(rv, n as int),
            empty@.len() == 0,
            p@ == seq![2u8] + spec_record_list(target.subrange(0, k as int)),
        decreases n - k,
    {
        if k < recs.len() {
            push_record(&mut p, &recs[k]);
        } else {
            push_record(&mut p, &empty);
            assert(raw_items_view(empty@) =~= Seq::<RawItem>::empty());
        }
        proof {
            assert(target.subrange(0, k + 1).drop_last() =~= target.subrange(0, k as int));
        }
        k = k + 1;
    }
    assert(target.subrange(0, k as int) =~= target);
    p
}

/// Build a fort file from parts: a name, the world table (cut or padded
/// to 256 blocks) and the fortresses' records.
pub fn encode(
    version: u8,
    name: &str,
    table: &[Vec<(u8, u8, Vec<u8>)>],
    fortresses: &[Vec<Vec<(u8, u8, Vec<u8>)>>],
) -> (out: Vec<u8>)
    ensures
        out@ == spec_fort_file(version, name.spec_bytes(), raw_records_view(table@),
            fortresses@.map_values(|f: Vec<Vec<(u8, u8, Vec<u8>)>>| raw_records_view(f@))),
{
    let ghost fv = fortresses@.map_values(|f: Vec<Vec<(u8, u8, Vec<u8>)>>| raw_records_view(f@));
    let mut out: Vec<u8> = Vec::new();
    out.push(0x46);
    out.push(0);
    out.push(version);
    push_zeros(&mut out, 5);
    let nb = name.as_bytes();
    push_le16(&mut out, (nb.len() % 65536) as u16);
    append(&mut out, nb);
    let z20: Vec<u8> = vec![0u8; 20];
    let none: Vec<u8> = Vec::new();
    push_chunk(&mut out, z20.as_slice());
    push_chunk(&mut out, none.as_slice());
    push_chunk(&mut out, none.as_slice());
    let tp = record_payload(table, 256);
    push_chunk(&mut out, tp.as_slice());
    let z122: Vec<u8> = vec![0u8; 122];
    push_chunk(&mut out, z122.as_slice());
    push_chunk(&mut out, none.as_slice());
    proof {
        assert(z20@ =~= Seq::new(20, |i: int| 0u8));
        assert(z122@ =~= Seq::new(122, |i: int| 0u8));
        assert(none@ =~= Seq::<u8>::empty());
    }
    let ghost head = out@;
    let mut k: usize = 0;
    while k < fortresses.len()
        invariant
            k <= fortresses@.len(),
            fv == fortresses@.map_values(|f: Vec<Vec<(u8, u8, Vec<u8>)>>| raw_records_view(f@)),
            out@ == head + spec_fortress_chunks(fv.subrange(0, k as int)),
        decreases fortresses@.len() - k,
    {
        let f = &fortresses[k];
        let fp = record_payload(f.as_slice(), f.len());
        proof {
            assert(resized(raw_records_view(f@), f@.len() as int) =~= raw_records_view(f@));
        }
        push_chunk(&mut out, fp.as_slice());
        proof {
            assert(fv.subrange(0, k + 1).drop_last() =~= fv.subrange(0, k as int));
        }
        k = k + 1;
    }
    proof {
        assert(fv.subrange(0, k as int) =~= fv);
        let pre = seq![0x46u8, 0, version] + Seq::new(5, |i: int| 0u8);
        assert(pre =~= seq![0x46u8, 0, version, 0, 0, 0, 0, 0]);
    }
    assert(out@ =~= spec_fort_file(version, name.spec_bytes(), raw_records_view(table@), fv));
    out
}

} // verus!
