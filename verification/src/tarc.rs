//! `netstorm.tarc`: a flat archive of text resources, each file
//! XOR-obfuscated with a repeating 13-byte key.
//!
//! Header (little-endian): the magic `TAFF v0.2\x1a` at 0, the number of
//! files at 0x14, the offset of the name table at 0x20, its length at 0x24
//! and the offset of the data area at 0x28. The name table holds, per
//! file, `u32 offset` (relative to the data area), `u32 size`, then a
//! NUL-terminated path such as `\d\bird.type`.
use vstd::prelude::*;
use crate::bytes::{le32, read_le32};
use vstd::string::StringSliceAdditionalSpecFns;
use crate::text::{chars_of, eq_ignore_ascii_case, eq_ignore_case, lower, slice_subrange, string_of, to_lower};

verus! {

pub const MAGIC: [u8; 10] = [0x54, 0x41, 0x46, 0x46, 0x20, 0x76, 0x30, 0x2e, 0x32, 0x1a];
pub const KEY: [u8; 13] = [0x6d, 0x79, 0x64, 0x6f, 0x67, 0x68, 0x61, 0x73, 0x66, 0x6c, 0x65, 0x61, 0x73];
pub const MAX_FILES: u32 = 100000;
pub const MAX_NAME: usize = 260;

#[derive(Debug, PartialEq, Eq)]
pub enum TarcError {
    /// Not a TAFF v0.2 archive.
    BadMagic,
    /// A header field points outside the file.
    Truncated { what: &'static str },
    ImplausibleCount(u32),
    /// The name table ended before all entries were read.
    BadNameTable { entry: usize },
    /// An entry's data lies outside the data area.
    EntryOutOfFile { entry: usize },
}

/// One file inside the archive.
#[derive(Clone, Debug, PartialEq, Eq)]
pub struct Entry {
    /// Path as stored, e.g. `\d\bird.type`.
    pub name: String,
    /// Offset relative to the data area.
    pub offset: usize,
    pub size: usize,
}

/// What lossy UTF-8 decoding (`String::from_utf8_lossy`) makes of `bytes`.
pub uninterp spec fn utf8_lossy(bytes: Seq<u8>) -> Seq<char>;

/// `String::from_utf8_lossy`: valid UTF-8 decodes as such; other input
/// gets replacement characters, which is left unstated here.
#[verifier::external_body]
pub(crate) fn lossy_string(bytes: &[u8]) -> (s: String)
    ensures
        s@ == utf8_lossy(bytes@),
        vstd::utf8::valid_utf8(bytes@) ==> s@ == vstd::utf8::decode_utf8(bytes@),
{
    String::from_utf8_lossy(bytes).into_owned()
}

/// The last path segment: what follows the last `\` or `/`.
pub open spec fn spec_basename(name: Seq<char>) -> Seq<char>
    decreases name.len(),
{
    if name.len() == 0 {
        name
    } else if name.last() == '\\' || name.last() == '/' {
        Seq::empty()
    } else {
        spec_basename(name.drop_last()).push(name.last())
    }
}

/// Lower-cased text after the last `.`, empty without one.
pub open spec fn spec_extension(base: Seq<char>) -> Seq<char>
    decreases base.len(),
{
    if base.len() == 0 {
        Seq::empty()
    } else if base.last() == '.' {
        Seq::empty()
    } else if !base.drop_last().contains('.') {
        Seq::empty()
    } else {
        spec_extension(base.drop_last()).push(lower(base.last()))
    }
}

/// Index just past the last `\` or `/`, 0 without one.
fn basename_start(name: &Vec<char>) -> (k: usize)
    ensures
        k <= name@.len(),
        spec_basename(name@) == name@.subrange(k as int, name@.len() as int),
{
    let mut k = name.len();
    assert(name@.subrange(0, k as int) =~= name@);
    assert(name@.subrange(k as int, k as int) =~= Seq::<char>::empty());
    while k > 0 && name[k - 1] != '\\' && name[k - 1] != '/'
        invariant
            k <= name@.len(),
            spec_basename(name@) == spec_basename(name@.subrange(0, k as int))
                + name@.subrange(k as int, name@.len() as int),
        decreases k,
    {
        let ghost pre = name@.subrange(0, k as int);
        assert(pre.drop_last() == name@.subrange(0, k - 1));
        assert(name@.subrange(k - 1, name@.len() as int) == seq![name@[k - 1]] + name@.subrange(k as int, name@.len() as int));
        k = k - 1;
    }
    proof {
        if k > 0 {
            let pre = name@.subrange(0, k as int);
            assert(pre.last() == name@[k - 1]);
        } else {
            assert(name@.subrange(0, 0) =~= Seq::<char>::empty());
        }
    }
    k
}

impl Entry {
    /// File name without directories, e.g. `bird.type`.
    pub fn basename(&self) -> (b: String)
        ensures
            b@ == spec_basename(self.name@),
    {
        let chars = chars_of(self.name.as_str());
        let k = basename_start(&chars);
        string_of(slice_subrange(chars.as_slice(), k, chars.len()))
    }

    /// Lowercase extension without the dot, e.g. `type`.
    pub fn extension(&self) -> (e: String)
        ensures
            e@ == spec_extension(spec_basename(self.name@)),
    {
        let chars = chars_of(self.name.as_str());
        let k = basename_start(&chars);
        let base = slice_subrange(chars.as_slice(), k, chars.len());
        string_of(extension_of(base).as_slice())
    }
}

/// `spec_extension` on a char slice.
fn extension_of(base: &[char]) -> (e: Vec<char>)
    ensures
        e@ == spec_extension(base@),
{
    let mut dot = base.len();
    let mut j = base.len();
    while j > 0
        invariant
            j <= base@.len(),
            dot <= base@.len(),
            dot == base@.len() ==> forall|i: int| j <= i < base@.len() ==> base@[i] != '.',
            dot < base@.len() ==> j <= dot && base@[dot as int] == '.'
                && forall|i: int| dot < i < base@.len() ==> base@[i] != '.',
        decreases j,
    {
        if dot == base.len() && base[j - 1] == '.' {
            dot = j - 1;
        }
        j = j - 1;
    }
    let mut out: Vec<char> = Vec::new();
    if dot < base.len() {
        let mut i = dot + 1;
        while i < base.len()
            invariant
                dot < i <= base@.len(),
                out@ == base@.subrange(dot + 1, i as int).map_values(|c: char| lower(c)),
            decreases base@.len() - i,
        {
            out.push(to_lower(base[i]));
            assert(base@.subrange(dot + 1, i + 1) == base@.subrange(dot + 1, i as int).push(base@[i as int]));
            i = i + 1;
        }
    }
    proof { lemma_extension(base@, dot as int); }
    assert(out@ =~= (if dot < base@.len() { base@.subrange(dot + 1, base@.len() as int).map_values(|c: char| lower(c)) } else { Seq::empty() }));
    out
}

proof fn lemma_extension(base: Seq<char>, dot: int)
    requires
        0 <= dot <= base.len(),
        dot == base.len() ==> forall|i: int| 0 <= i < base.len() ==> base[i] != '.',
        dot < base.len() ==> base[dot] == '.' && forall|i: int| dot < i < base.len() ==> base[i] != '.',
    ensures
        spec_extension(base) == if dot < base.len() {
            base.subrange(dot + 1, base.len() as int).map_values(|c: char| lower(c))
        } else {
            Seq::empty()
        },
    decreases base.len(),
{
    if base.len() == 0 {
    } else if dot == base.len() - 1 {
        assert(base.subrange(dot + 1, base.len() as int) =~= Seq::<char>::empty());
    } else if dot == base.len() {
        assert(!base.drop_last().contains('.'));
    } else {
        let b = base.drop_last();
        assert(b.contains('.')) by { assert(b[dot] == '.'); }
        lemma_extension(b, dot);
        assert(base.subrange(dot + 1, base.len() as int).map_values(|c: char| lower(c))
            =~= b.subrange(dot + 1, b.len() as int).map_values(|c: char| lower(c)).push(lower(base.last())));
    }
}

} // verus!

verus! {

/// An entry as the name table spells it: raw name bytes, offset, size.
pub struct RawEntry {
    pub name: Seq<u8>,
    pub offset: int,
    pub size: int,
}

/// Index of the first NUL in `d[from..to)`.
pub open spec fn first_nul(d: Seq<u8>, from: int, to: int) -> Option<int>
    decreases to - from,
{
    if from >= to {
        None
    } else if d[from] == 0 {
        Some(from)
    } else {
        first_nul(d, from + 1, to)
    }
}

pub open spec fn min(a: int, b: int) -> int {
    if a <= b { a } else { b }
}

/// The name table from entry `i` on, the entry's record starting at `p`.
pub open spec fn spec_entries(d: Seq<u8>, names_end: int, data_off: int, count: int, i: int, p: int) -> Result<Seq<RawEntry>, TarcError>
    decreases count - i,
{
    if i >= count {
        Ok(Seq::empty())
    } else if p + 8 > names_end {
        Err(TarcError::BadNameTable { entry: i as usize })
    } else {
        match first_nul(d, p + 8, min(p + 8 + MAX_NAME, names_end)) {
            None => Err(TarcError::BadNameTable { entry: i as usize }),
            Some(ne) => {
                let offset = le32(d, p);
                let size = le32(d, p + 4);
                if data_off + offset + size > d.len() {
                    Err(TarcError::EntryOutOfFile { entry: i as usize })
                } else {
                    match spec_entries(d, names_end, data_off, count, i + 1, ne + 1) {
                        Ok(rest) => Ok(seq![RawEntry { name: d.subrange(p + 8, ne), offset, size }] + rest),
                        Err(e) => Err(e),
                    }
                }
            }
        }
    }
}

/// What an archive file holds: the data area's offset and the entries,
/// or why it is not an archive.
pub open spec fn spec_parse(d: Seq<u8>) -> Result<(int, Seq<RawEntry>), TarcError> {
    if d.len() < 10 || d.subrange(0, 10) != MAGIC@ {
        Err(TarcError::BadMagic)
    } else if d.len() < 0x18 {
        Err(TarcError::Truncated { what: "file count" })
    } else if le32(d, 0x14) > MAX_FILES {
        Err(TarcError::ImplausibleCount(le32(d, 0x14) as u32))
    } else if d.len() < 0x24 {
        Err(TarcError::Truncated { what: "name table offset" })
    } else if d.len() < 0x28 {
        Err(TarcError::Truncated { what: "name table length" })
    } else if d.len() < 0x2c {
        Err(TarcError::Truncated { what: "data offset" })
    } else if le32(d, 0x20) + le32(d, 0x24) > d.len() {
        Err(TarcError::Truncated { what: "name table" })
    } else if le32(d, 0x28) > d.len() {
        Err(TarcError::Truncated { what: "data area" })
    } else {
        match spec_entries(d, le32(d, 0x20) + le32(d, 0x24), le32(d, 0x28), le32(d, 0x14), 0, le32(d, 0x20)) {
            Ok(es) => Ok((le32(d, 0x28), es)),
            Err(e) => Err(e),
        }
    }
}

/// `bytes` with the repeating key undone (or applied: it is its own inverse).
pub open spec fn spec_xor(bytes: Seq<u8>) -> Seq<u8> {
    Seq::new(bytes.len(), |i: int| bytes[i] ^ KEY@[i % 13])
}

pub struct Archive {
    data: Vec<u8>,
    data_off: usize,
    entries: Vec<Entry>,
}

impl Archive {
    /// Every entry's bytes lie inside the file.
    pub closed spec fn wf(&self) -> bool {
        &&& self.data_off <= self.data@.len()
        &&& forall|i: int| 0 <= i < self.entries@.len() ==>
            self.data_off + #[trigger] self.entries@[i].offset + self.entries@[i].size <= self.data@.len()
    }

    pub closed spec fn entry_count(&self) -> nat {
        self.entries@.len()
    }

    pub closed spec fn entry_name(&self, i: int) -> Seq<char> {
        self.entries@[i].name@
    }

    /// The stored (still obfuscated) bytes of entry `i`.
    pub closed spec fn stored(&self, i: int) -> Seq<u8> {
        let e = self.entries@[i];
        self.data@.subrange(self.data_off + e.offset, self.data_off + e.offset + e.size)
    }

    /// The archive is `d` as `spec_parse` reads it.
    pub open spec fn reads(&self, d: Seq<u8>, data_off: int, raw: Seq<RawEntry>) -> bool {
        &&& self.wf()
        &&& self.entry_count() == raw.len()
        &&& forall|i: int| 0 <= i < raw.len() ==> {
            &&& #[trigger] self.entry_name(i) == utf8_lossy(raw[i].name)
            &&& self.stored(i) == d.subrange(data_off + raw[i].offset, data_off + raw[i].offset + raw[i].size)
            &&& self.entries_view()[i].offset == raw[i].offset
            &&& self.entries_view()[i].size == raw[i].size
        }
    }

    pub closed spec fn entries_view(&self) -> Seq<Entry> {
        self.entries@
    }

    pub fn parse(data: Vec<u8>) -> (res: Result<Archive, TarcError>)
        ensures
            match spec_parse(data@) {
                Ok((data_off, raw)) => res matches Ok(a) && a.reads(data@, data_off, raw),
                Err(e) => res == Err::<Archive, TarcError>(e),
            },
    {
        let len = data.len();
        if len < 10 {
            return Err(TarcError::BadMagic);
        }
        let mut m: usize = 0;
        while m < 10
            invariant
                10 <= len == data@.len(),
                m <= 10,
                data@.subrange(0, m as int) == MAGIC@.subrange(0, m as int),
            decreases 10 - m,
        {
            if data[m] != MAGIC[m] {
                assert(data@.subrange(0, 10)[m as int] != MAGIC@[m as int]);
                return Err(TarcError::BadMagic);
            }
            assert(data@.subrange(0, m + 1) =~= data@.subrange(0, m as int).push(data@[m as int]));
            assert(MAGIC@.subrange(0, m + 1) =~= MAGIC@.subrange(0, m as int).push(MAGIC@[m as int]));
            m = m + 1;
        }
        assert(MAGIC@.subrange(0, 10) =~= MAGIC@);
        let count = u32_at(data.as_slice(), 0x14, "file count")?;
        if count > MAX_FILES {
            return Err(TarcError::ImplausibleCount(count));
        }
        let names_off = u32_at(data.as_slice(), 0x20, "name table offset")? as usize;
        let names_len = u32_at(data.as_slice(), 0x24, "name table length")? as usize;
        let data_off = u32_at(data.as_slice(), 0x28, "data offset")? as usize;
        if names_off > len || names_len > len - names_off {
            return Err(TarcError::Truncated { what: "name table" });
        }
        let names_end = names_off + names_len;
        if data_off > len {
            return Err(TarcError::Truncated { what: "data area" });
        }
        let mut entries: Vec<Entry> = Vec::new();
        let mut p = names_off;
        let mut i: usize = 0;
        let ghost d = data@;
        let ghost mut done: Seq<RawEntry> = Seq::empty();
        proof {
            match spec_entries(d, names_end as int, data_off as int, count as int, 0, names_off as int) {
                Ok(rest) => { assert(done + rest =~= rest); }
                Err(_) => {}
            }
        }
        while i < count as usize
            invariant
                d == data@,
                len == d.len(),
                names_end <= len,
                data_off <= len,
                i <= count,
                p <= names_end,
                done.len() == i,
                entries@.len() == i,
                spec_parse(d) == (match spec_entries(d, names_end as int, data_off as int, count as int, i as int, p as int) {
                    Ok(rest) => Ok((data_off as int, done + rest)),
                    Err(e) => Err(e),
                }),
                forall|k: int| #![trigger entries@[k]] 0 <= k < i ==> {
                    &&& entries@[k].name@ == utf8_lossy(done[k].name)
                    &&& entries@[k].offset == done[k].offset
                    &&& entries@[k].size == done[k].size
                    &&& data_off + done[k].offset + done[k].size <= len
                },
            decreases count - i,
        {
            if p > names_end || 8 > names_end - p {
                assert(spec_entries(d, names_end as int, data_off as int, count as int, i as int, p as int) == Err::<Seq<RawEntry>, TarcError>(TarcError::BadNameTable { entry: i }));
                return Err(TarcError::BadNameTable { entry: i });
            }
            let ghost rec_start = p;
            let offset = read_le32(data.as_slice(), p) as usize;
            let size = read_le32(data.as_slice(), p + 4) as usize;
            p = p + 8;
            assert(min(rec_start + 8 + MAX_NAME, names_end as int) == (if names_end - p > MAX_NAME { p + MAX_NAME } else { names_end as int }));
            let window_end = if names_end - p > MAX_NAME { p + MAX_NAME } else { names_end };
            let mut ne = p;
            while ne < window_end && data[ne] != 0
                invariant
                    p <= ne <= window_end <= names_end <= len == d.len(),
                    d == data@,
                    first_nul(d, p as int, window_end as int) == first_nul(d, ne as int, window_end as int),
                decreases window_end - ne,
            {
                ne = ne + 1;
            }
            if ne == window_end {
                assert(first_nul(d, p as int, window_end as int) is None);
                assert(spec_entries(d, names_end as int, data_off as int, count as int, i as int, rec_start as int) == Err::<Seq<RawEntry>, TarcError>(TarcError::BadNameTable { entry: i }));
                return Err(TarcError::BadNameTable { entry: i });
            }
            let name = lossy_string(slice_subrange(data.as_slice(), p, ne));
            if offset > len - data_off || size > len - data_off - offset {
                assert(spec_entries(d, names_end as int, data_off as int, count as int, i as int, rec_start as int) == Err::<Seq<RawEntry>, TarcError>(TarcError::EntryOutOfFile { entry: i }));
                return Err(TarcError::EntryOutOfFile { entry: i });
            }
            let ghost raw = RawEntry { name: d.subrange(p as int, ne as int), offset: offset as int, size: size as int };
            proof {
                let rest = spec_entries(d, names_end as int, data_off as int, count as int, i + 1, ne + 1);
                match rest {
                    Ok(r) => { assert(done + (seq![raw] + r) =~= done.push(raw) + r); }
                    Err(_) => {}
                }
                done = done.push(raw);
            }
            entries.push(Entry { name, offset, size });
            p = ne + 1;
            i = i + 1;
        }
        proof {
            assert(done + Seq::<RawEntry>::empty() =~= done);
        }
        let a = Archive { data, data_off, entries };
        assert forall|k: int| 0 <= k < a.entries@.len() implies
            a.data_off + #[trigger] a.entries@[k].offset + a.entries@[k].size <= a.data@.len() by {
            assert(a.entries@[k].offset == done[k].offset);
        }
        Ok(a)
    }

    pub fn entries(&self) -> (es: &[Entry])
        ensures
            es@ == self.entries_view(),
            es@.len() == self.entry_count(),
            forall|i: int| 0 <= i < es@.len() ==> #[trigger] es@[i].name@ == self.entry_name(i),
    {
        self.entries.as_slice()
    }

    /// Find an entry by base name, case-insensitively.
    pub fn find(&self, basename: &str) -> (r: Option<usize>)
        ensures
            match r {
                Some(i) => i < self.entry_count() && eq_ignore_case(spec_basename(self.entry_name(i as int)), basename@)
                    && forall|j: int| 0 <= j < i ==> !eq_ignore_case(spec_basename(self.entry_name(j)), basename@),
                None => forall|j: int| 0 <= j < self.entry_count() ==> !eq_ignore_case(spec_basename(self.entry_name(j)), basename@),
            },
    {
        let want = chars_of(basename);
        let mut i: usize = 0;
        while i < self.entries.len()
            invariant
                i <= self.entries@.len(),
                want@ == basename@,
                forall|j: int| 0 <= j < i ==> !eq_ignore_case(spec_basename(self.entries@[j].name@), basename@),
            decreases self.entries@.len() - i,
        {
            let b = self.entries[i].basename();
            let bc = chars_of(b.as_str());
            if eq_ignore_ascii_case(&bc, &want) {
                return Some(i);
            }
            i = i + 1;
        }
        None
    }

    /// Decoded contents of entry `index`.
    pub fn read(&self, index: usize) -> (out: Vec<u8>)
        requires
            self.wf(),
            index < self.entry_count(),
        ensures
            out@ == spec_xor(self.stored(index as int)),
            // Byte `j` is undone with byte `j % 13` of "mydoghasfleas".
            out@.len() == self.stored(index as int).len(),
            forall|j: int| 0 <= j < out@.len() ==> #[trigger] out@[j]
                == self.stored(index as int)[j] ^ seq![109u8, 121, 100, 111, 103, 104, 97, 115, 102, 108, 101, 97, 115][j % 13],
    {
        proof {
            xor_uses_the_key_cycle(self.stored(index as int));
        }
        let dl = self.data.len();
        let e = &self.entries[index];
        assert(e.offset == self.entries@[index as int].offset);
        assert(self.wf());
        assert(self.data_off + self.entries@[index as int].offset + self.entries@[index as int].size <= self.data@.len());
        let start = self.data_off + e.offset;
        let mut out: Vec<u8> = Vec::new();
        let mut i: usize = 0;
        while i < e.size
            invariant
                i <= e.size,
                start + e.size <= self.data@.len(),
                dl == self.data@.len(),
                start == self.data_off + e.offset,
                index < self.entries@.len(),
                e == self.entries@[index as int],
                out@ == spec_xor(self.stored(index as int)).subrange(0, i as int),
            decreases e.size - i,
        {
            out.push(self.data[start + i] ^ KEY[i % 13]);
            assert(spec_xor(self.stored(index as int)).subrange(0, i + 1) =~= spec_xor(self.stored(index as int)).subrange(0, i as int).push(self.data@[start + i] ^ KEY@[(i % 13) as int]));
            i = i + 1;
        }
        assert(spec_xor(self.stored(index as int)).subrange(0, i as int) =~= spec_xor(self.stored(index as int)));
        out
    }

    /// Decoded contents of entry `index` as text (the archive holds Latin-1 text).
    pub fn read_text(&self, index: usize) -> (s: String)
        requires
            self.wf(),
            index < self.entry_count(),
        ensures
            s@ == latin1(spec_xor(self.stored(index as int))),
    {
        let bytes = self.read(index);
        let mut chars: Vec<char> = Vec::new();
        let mut i: usize = 0;
        while i < bytes.len()
            invariant
                i <= bytes@.len(),
                chars@ == latin1(bytes@.subrange(0, i as int)),
            decreases bytes@.len() - i,
        {
            chars.push(bytes[i] as char);
            assert(latin1(bytes@.subrange(0, i + 1)) =~= latin1(bytes@.subrange(0, i as int)).push(bytes@[i as int] as char));
            i = i + 1;
        }
        assert(bytes@.subrange(0, i as int) =~= bytes@);
        string_of(chars.as_slice())
    }
}

/// Bytes read as Latin-1 characters.
pub open spec fn latin1(b: Seq<u8>) -> Seq<char> {
    Seq::new(b.len(), |i: int| b[i] as char)
}

fn u32_at(data: &[u8], o: usize, what: &'static str) -> (r: Result<u32, TarcError>)
    ensures
        o + 4 <= data@.len() ==> r == Ok::<u32, TarcError>(le32(data@, o as int) as u32),
        o + 4 > data@.len() ==> r == Err::<u32, TarcError>(TarcError::Truncated { what }),
{
    if o <= data.len() && 4 <= data.len() - o {
        Ok(read_le32(data, o))
    } else {
        Err(TarcError::Truncated { what })
    }
}

} // verus!

verus! {

/// The (name bytes, contents) pairs `encode` is given.
pub open spec fn file_parts(files: Seq<(&str, &[u8])>) -> Seq<(Seq<u8>, Seq<u8>)> {
    files.map_values(|f: (&str, &[u8])| (f.0.spec_bytes(), f.1@))
}

/// Total length of the contents.
pub open spec fn contents_len(fs: Seq<(Seq<u8>, Seq<u8>)>) -> int
    decreases fs.len(),
{
    if fs.len() == 0 { 0 } else { contents_len(fs.drop_last()) + fs.last().1.len() }
}

/// The name table `encode` writes.
pub open spec fn spec_name_table(fs: Seq<(Seq<u8>, Seq<u8>)>) -> Seq<u8>
    decreases fs.len(),
{
    if fs.len() == 0 {
        Seq::empty()
    } else {
        spec_name_table(fs.drop_last()) + crate::bytes::le32_bytes(contents_len(fs.drop_last()) as u32)
            + crate::bytes::le32_bytes(fs.last().1.len() as u32) + fs.last().0 + seq![0u8]
    }
}

/// The data area `encode` writes.
pub open spec fn spec_data_area(fs: Seq<(Seq<u8>, Seq<u8>)>) -> Seq<u8>
    decreases fs.len(),
{
    if fs.len() == 0 { Seq::empty() } else { spec_data_area(fs.drop_last()) + spec_xor(fs.last().1) }
}

/// The header `encode` writes: 0x2c bytes.
pub open spec fn spec_header(count: int, names_len: int) -> Seq<u8> {
    MAGIC@ + Seq::new(10, |i: int| 0u8) + crate::bytes::le32_bytes(count as u32) + Seq::new(8, |i: int| 0u8)
        + crate::bytes::le32_bytes(0x2c) + crate::bytes::le32_bytes(names_len as u32)
        + crate::bytes::le32_bytes((0x2c + names_len) as u32)
}

#[verifier::opaque]
pub open spec fn spec_encode(fs: Seq<(Seq<u8>, Seq<u8>)>) -> Seq<u8> {
    spec_header(fs.len() as int, spec_name_table(fs).len() as int) + spec_name_table(fs) + spec_data_area(fs)
}

/// Build an archive in memory.
pub fn encode(files: &[(&str, &[u8])]) -> (out: Vec<u8>)
    requires
        spec_name_table(file_parts(files@)).len() + 0x2c <= u32::MAX,
    ensures
        out@ == spec_encode(file_parts(files@)),
{
    let ghost fs = file_parts(files@);
    let mut names: Vec<u8> = Vec::new();
    let mut data: Vec<u8> = Vec::new();
    let mut i: usize = 0;
    while i < files.len()
        invariant
            i <= files@.len(),
            fs == file_parts(files@),
            names@ == spec_name_table(fs.subrange(0, i as int)),
            data@ == spec_data_area(fs.subrange(0, i as int)),
            data@.len() == contents_len(fs.subrange(0, i as int)),
        decreases files@.len() - i,
    {
        let (name, content) = files[i];
        let ghost pre = fs.subrange(0, i as int);
        let ghost cur = fs.subrange(0, i + 1);
        assert(cur.drop_last() =~= pre);
        assert(cur.last() == fs[i as int]);
        crate::bytes::push_le32(&mut names, data.len() as u32);
        crate::bytes::push_le32(&mut names, content.len() as u32);
        let nb = name.as_bytes();
        let mut k: usize = 0;
        let ghost before = names@;
        while k < nb.len()
            invariant
                k <= nb@.len(),
                names@ == before + nb@.subrange(0, k as int),
            decreases nb@.len() - k,
        {
            names.push(nb[k]);
            assert(nb@.subrange(0, k + 1) =~= nb@.subrange(0, k as int).push(nb@[k as int]));
            k = k + 1;
        }
        assert(nb@.subrange(0, k as int) =~= nb@);
        names.push(0);
        let mut j: usize = 0;
        let ghost dbefore = data@;
        while j < content.len()
            invariant
                j <= content@.len(),
                data@ == dbefore + spec_xor(content@).subrange(0, j as int),
            decreases content@.len() - j,
        {
            data.push(content[j] ^ KEY[j % 13]);
            assert(spec_xor(content@).subrange(0, j + 1) =~= spec_xor(content@).subrange(0, j as int).push(content@[j as int] ^ KEY@[(j % 13) as int]));
            j = j + 1;
        }
        assert(spec_xor(content@).subrange(0, j as int) =~= spec_xor(content@));
        assert(names@ =~= spec_name_table(cur));
        assert(data@ =~= spec_data_area(cur));
        i = i + 1;
    }
    assert(fs.subrange(0, i as int) =~= fs);
    let names_len = names.len() as u32;
    let mut out: Vec<u8> = Vec::new();
    let mut m: usize = 0;
    while m < 10
        invariant
            m <= 10,
            out@ == MAGIC@.subrange(0, m as int),
        decreases 10 - m,
    {
        out.push(MAGIC[m]);
        assert(MAGIC@.subrange(0, m + 1) =~= MAGIC@.subrange(0, m as int).push(MAGIC@[m as int]));
        m = m + 1;
    }
    assert(MAGIC@.subrange(0, 10) =~= MAGIC@);
    let ghost h1 = out@;
    crate::bytes::push_zeros(&mut out, 10);
    crate::bytes::push_le32(&mut out, files.len() as u32);
    crate::bytes::push_zeros(&mut out, 8);
    crate::bytes::push_le32(&mut out, 0x2c);
    crate::bytes::push_le32(&mut out, names_len);
    crate::bytes::push_le32(&mut out, 0x2c + names_len);
    crate::bytes::append(&mut out, names.as_slice());
    crate::bytes::append(&mut out, data.as_slice());
    proof { reveal(spec_encode); }
    assert(out@ =~= spec_encode(fs));
    out
}


/// One name table record as `encode` writes it for file `f` whose data
/// starts `off` bytes into the data area.
pub open spec fn spec_record(f: (Seq<u8>, Seq<u8>), off: int) -> Seq<u8> {
    crate::bytes::le32_bytes(off as u32) + crate::bytes::le32_bytes(f.1.len() as u32) + f.0 + seq![0u8]
}

/// The entry `encode` writes for file `i` of `fs`.
pub open spec fn encoded_entry(fs: Seq<(Seq<u8>, Seq<u8>)>, i: int) -> RawEntry {
    RawEntry { name: fs[i].0, offset: contents_len(fs.subrange(0, i)), size: fs[i].1.len() as int }
}

/// Files `encode` can write so that they read back: no NUL in a name, a
/// name short enough for the reader's window, not too many files, and
/// every offset within 32 bits.
pub open spec fn encodable(fs: Seq<(Seq<u8>, Seq<u8>)>) -> bool {
    &&& fs.len() <= MAX_FILES
    &&& forall|i: int| 0 <= i < fs.len() ==> (#[trigger] fs[i]).0.len() + 1 < MAX_NAME
    &&& forall|i: int, j: int| 0 <= i < fs.len() && 0 <= j < fs[i].0.len() ==> #[trigger] fs[i].0[j] != 0
    &&& 0x2c + spec_name_table(fs).len() + contents_len(fs) <= u32::MAX
}

proof fn lemma_prefixes(fs: Seq<(Seq<u8>, Seq<u8>)>, j: int)
    requires
        0 <= j <= fs.len(),
    ensures
        spec_name_table(fs.subrange(0, j)).len() <= spec_name_table(fs).len(),
        spec_name_table(fs).subrange(0, spec_name_table(fs.subrange(0, j)).len() as int) == spec_name_table(fs.subrange(0, j)),
        spec_data_area(fs.subrange(0, j)).len() <= spec_data_area(fs).len(),
        spec_data_area(fs).subrange(0, spec_data_area(fs.subrange(0, j)).len() as int) == spec_data_area(fs.subrange(0, j)),
        contents_len(fs.subrange(0, j)) <= contents_len(fs),
        spec_data_area(fs).len() == contents_len(fs),
    decreases fs.len(),
{
    if j == fs.len() {
        assert(fs.subrange(0, j) =~= fs);
        lemma_data_len(fs);
    } else {
        let pre = fs.drop_last();
        lemma_prefixes(pre, j);
        assert(pre.subrange(0, j) =~= fs.subrange(0, j));
        lemma_data_len(fs);
        let a = spec_name_table(pre);
        let b = spec_name_table(fs);
        assert(b.subrange(0, a.len() as int) =~= a);
        let l = spec_name_table(fs.subrange(0, j)).len() as int;
        assert(b.subrange(0, l) =~= a.subrange(0, l));
        let da = spec_data_area(pre);
        let db = spec_data_area(fs);
        assert(db.subrange(0, da.len() as int) =~= da);
        let m = spec_data_area(fs.subrange(0, j)).len() as int;
        assert(db.subrange(0, m) =~= da.subrange(0, m));
    }
}

proof fn lemma_data_len(fs: Seq<(Seq<u8>, Seq<u8>)>)
    ensures
        spec_data_area(fs).len() == contents_len(fs),
        contents_len(fs) >= 0,
    decreases fs.len(),
{
    if fs.len() > 0 {
        lemma_data_len(fs.drop_last());
    }
}

/// Reading a `u32` back where its four bytes were written.
proof fn lemma_read_back(d: Seq<u8>, p: int, v: u32)
    requires
        0 <= p,
        p + 4 <= d.len(),
        d.subrange(p, p + 4) == crate::bytes::le32_bytes(v),
    ensures
        le32(d, p) == v,
{
    crate::bytes::lemma_le32_round_trip(v);
    let b = crate::bytes::le32_bytes(v);
    assert(d[p] == b[0] && d[p + 1] == b[1] && d[p + 2] == b[2] && d[p + 3] == b[3]) by {
        assert(d.subrange(p, p + 4)[0] == d[p]);
        assert(d.subrange(p, p + 4)[1] == d[p + 1]);
        assert(d.subrange(p, p + 4)[2] == d[p + 2]);
        assert(d.subrange(p, p + 4)[3] == d[p + 3]);
    }
}

proof fn lemma_first_nul_at(d: Seq<u8>, from: int, to: int, k: int)
    requires
        from <= k < to,
        0 <= from,
        k < d.len(),
        d[k] == 0,
        forall|j: int| from <= j < k ==> d[j] != 0,
    ensures
        first_nul(d, from, to) == Some(k),
    decreases k - from,
{
    if from < k {
        lemma_first_nul_at(d, from + 1, to, k);
    }
}

/// Where record `i` of the name table lies in the encoded file, and what
/// it holds there.
#[verifier::rlimit(100)]
proof fn lemma_record_bytes(fs: Seq<(Seq<u8>, Seq<u8>)>, i: int)
    requires
        encodable(fs),
        0 <= i < fs.len(),
    ensures
        ({
            let d = spec_encode(fs);
            let nt = spec_name_table(fs).len() as int;
            let p = 0x2c + spec_name_table(fs.subrange(0, i)).len() as int;
            let nl = fs[i].0.len() as int;
            &&& d.subrange(p, p + 4) == crate::bytes::le32_bytes(contents_len(fs.subrange(0, i)) as u32)
            &&& d.subrange(p + 4, p + 8) == crate::bytes::le32_bytes(fs[i].1.len() as u32)
            &&& d.subrange(p + 8, p + 8 + nl) == fs[i].0
            &&& d[p + 8 + nl] == 0
            &&& p + 8 + nl + 1 == 0x2c + spec_name_table(fs.subrange(0, i + 1)).len()
            &&& p + 8 + nl < 0x2c + nt
            &&& 0 <= p
            &&& p + 8 + nl < d.len()
            &&& contents_len(fs.subrange(0, i)) + fs[i].1.len() == contents_len(fs.subrange(0, i + 1))
            &&& contents_len(fs.subrange(0, i + 1)) <= contents_len(fs)
            &&& d.len() == 0x2c + nt + contents_len(fs)
        }),
{
    reveal(spec_encode);
    let d = spec_encode(fs);
    let nt = spec_name_table(fs).len() as int;
    let count = fs.len() as int;
    let header = spec_header(count, nt);
    assert(header.len() == 0x2c);
    lemma_data_len(fs);
    let pre = fs.subrange(0, i);
    let pre1 = fs.subrange(0, i + 1);
    assert(pre1.drop_last() =~= pre);
    assert(pre1.last() == fs[i]);
    lemma_prefixes(fs, i + 1);
    let p: int = 0x2c + spec_name_table(pre).len() as int;
    let rec = spec_record(fs[i], contents_len(pre));
    assert(spec_name_table(pre1) == spec_name_table(pre) + rec);
    let t = spec_name_table(fs);
    let l0 = spec_name_table(pre).len() as int;
    let l1 = spec_name_table(pre1).len() as int;
    assert(t.subrange(0, l1) == spec_name_table(pre) + rec);
    let name = fs[i].0;
    let nl = name.len() as int;
    assert forall|q: int| 0 <= q < rec.len() implies d[p + q] == #[trigger] rec[q] by {
        assert(d[p + q] == t[l0 + q]);
        assert(t.subrange(0, l1)[l0 + q] == t[l0 + q]);
    }
    assert(d.subrange(p, p + 4) =~= crate::bytes::le32_bytes(contents_len(pre) as u32)) by {
        assert forall|q: int| 0 <= q < 4 implies #[trigger] d.subrange(p, p + 4)[q] == crate::bytes::le32_bytes(contents_len(pre) as u32)[q] by {
            assert(rec[q] == crate::bytes::le32_bytes(contents_len(pre) as u32)[q]);
        }
    }
    assert(d.subrange(p + 4, p + 8) =~= crate::bytes::le32_bytes(fs[i].1.len() as u32)) by {
        assert forall|q: int| 0 <= q < 4 implies #[trigger] d.subrange(p + 4, p + 8)[q] == crate::bytes::le32_bytes(fs[i].1.len() as u32)[q] by {
            assert(rec[4 + q] == crate::bytes::le32_bytes(fs[i].1.len() as u32)[q]);
        }
    }
    assert(d[p + 8 + nl] == 0) by { assert(rec[8 + nl] == 0); }
    assert(d.subrange(p + 8, p + 8 + nl) =~= name) by {
        assert forall|q: int| 0 <= q < nl implies #[trigger] d.subrange(p + 8, p + 8 + nl)[q] == name[q] by {
            assert(rec[8 + q] == name[q]);
        }
    }
}

/// The name table from record `i` on reads back as the files from `i` on.
#[verifier::rlimit(100)]
proof fn lemma_entries_read_back(fs: Seq<(Seq<u8>, Seq<u8>)>, i: int)
    requires
        encodable(fs),
        0 <= i <= fs.len(),
    ensures
        spec_entries(spec_encode(fs), 0x2c + spec_name_table(fs).len() as int, 0x2c + spec_name_table(fs).len() as int, fs.len() as int, i,
            0x2c + spec_name_table(fs.subrange(0, i)).len() as int)
            == Ok::<Seq<RawEntry>, TarcError>(Seq::new((fs.len() - i) as nat, |k: int| encoded_entry(fs, i + k))),
    decreases fs.len() - i,
{
    let d = spec_encode(fs);
    let nt = spec_name_table(fs).len() as int;
    if i < fs.len() {
        lemma_record_bytes(fs, i);
        let pre = fs.subrange(0, i);
        let p: int = 0x2c + spec_name_table(pre).len() as int;
        let name = fs[i].0;
        let nl = name.len() as int;
        lemma_read_back(d, p, contents_len(pre) as u32);
        lemma_read_back(d, p + 4, fs[i].1.len() as u32);
        lemma_data_len(pre);
        lemma_data_len(fs);
        assert(0 <= contents_len(pre) <= u32::MAX);
        assert(fs[i].1.len() <= u32::MAX);
        assert(le32(d, p) == contents_len(pre));
        assert(le32(d, p + 4) == fs[i].1.len());
        assert(0x2c + nt + contents_len(pre) + fs[i].1.len() <= d.len());
        assert forall|j: int| p + 8 <= j < p + 8 + nl implies d[j] != 0 by {
            assert(d.subrange(p + 8, p + 8 + nl)[j - p - 8] == name[j - p - 8]);
            assert(fs[i].0[j - p - 8] != 0);
        }
        assert(fs[i].0.len() + 1 < MAX_NAME);
        lemma_first_nul_at(d, p + 8, min(p + 8 + MAX_NAME, 0x2c + nt), p + 8 + nl);
        lemma_entries_read_back(fs, i + 1);
        let rest = Seq::new((fs.len() - i - 1) as nat, |k: int| encoded_entry(fs, i + 1 + k));
        assert(seq![RawEntry { name, offset: contents_len(pre), size: fs[i].1.len() as int }] + rest
            =~= Seq::new((fs.len() - i) as nat, |k: int| encoded_entry(fs, i + k)));
    } else {
        assert(Seq::new((fs.len() - i) as nat, |k: int| encoded_entry(fs, i + k)) =~= Seq::<RawEntry>::empty());
    }
}

/// Reading back what `encode` wrote: the archive parses, with one entry
/// per file in order, each holding the file's name bytes and, once the
/// key is undone, its contents.
#[verifier::rlimit(100)]
pub proof fn encode_then_parse(fs: Seq<(Seq<u8>, Seq<u8>)>)
    requires
        encodable(fs),
    ensures
        ({
            let d = spec_encode(fs);
            &&& spec_parse(d) matches Ok((off, raw))
            &&& raw.len() == fs.len()
            &&& forall|i: int| 0 <= i < fs.len() ==> {
                &&& (#[trigger] raw[i]).name == fs[i].0
                &&& spec_xor(d.subrange(off + raw[i].offset, off + raw[i].offset + raw[i].size)) == fs[i].1
            }
        }),
{
    reveal(spec_encode);
    let d = spec_encode(fs);
    let nt = spec_name_table(fs).len() as int;
    let count = fs.len() as int;
    let header = spec_header(count, nt);
    lemma_data_len(fs);
    assert(d == header + spec_name_table(fs) + spec_data_area(fs));
    assert(d.subrange(0, 10) =~= MAGIC@);
    assert(d.subrange(0x14, 0x18) =~= crate::bytes::le32_bytes(count as u32));
    assert(d.subrange(0x20, 0x24) =~= crate::bytes::le32_bytes(0x2c));
    assert(d.subrange(0x24, 0x28) =~= crate::bytes::le32_bytes(nt as u32));
    assert(d.subrange(0x28, 0x2c) =~= crate::bytes::le32_bytes((0x2c + nt) as u32));
    lemma_read_back(d, 0x14, count as u32);
    lemma_read_back(d, 0x20, 0x2c);
    lemma_read_back(d, 0x24, nt as u32);
    lemma_read_back(d, 0x28, (0x2c + nt) as u32);
    assert(fs.subrange(0, 0) =~= Seq::<(Seq<u8>, Seq<u8>)>::empty());
    lemma_entries_read_back(fs, 0);
    let raw = Seq::new(fs.len(), |k: int| encoded_entry(fs, k));
    assert(Seq::new((fs.len() - 0) as nat, |k: int| encoded_entry(fs, 0 + k)) =~= raw);
    let off = 0x2c + nt;
    assert forall|i: int| 0 <= i < fs.len() implies {
        &&& (#[trigger] raw[i]).name == fs[i].0
        &&& spec_xor(d.subrange(off + raw[i].offset, off + raw[i].offset + raw[i].size)) == fs[i].1
    } by {
        let pre = fs.subrange(0, i);
        let pre1 = fs.subrange(0, i + 1);
        assert(pre1.drop_last() =~= pre);
        lemma_prefixes(fs, i + 1);
        lemma_data_len(pre);
        lemma_data_len(pre1);
        let da = spec_data_area(fs);
        let a0 = contents_len(pre);
        let a1 = contents_len(pre1);
        assert(spec_data_area(pre1) == spec_data_area(pre) + spec_xor(fs[i].1));
        assert(da.subrange(0, a1) == spec_data_area(pre1));
        let piece = d.subrange(off + a0, off + a1);
        assert(piece =~= spec_xor(fs[i].1)) by {
            assert forall|q: int| 0 <= q < a1 - a0 implies #[trigger] piece[q] == spec_xor(fs[i].1)[q] by {
                assert(d[off + a0 + q] == da[a0 + q]);
                assert(da.subrange(0, a1)[a0 + q] == da[a0 + q]);
                assert(spec_data_area(pre1)[a0 + q] == spec_xor(fs[i].1)[q]);
            }
        }
        assert(spec_xor(spec_xor(fs[i].1)) =~= fs[i].1) by {
            assert forall|q: int| 0 <= q < fs[i].1.len() implies #[trigger] spec_xor(spec_xor(fs[i].1))[q] == fs[i].1[q] by {
                let b = fs[i].1[q];
                let k = KEY@[q % 13];
                assert((b ^ k) ^ k == b) by (bit_vector);
            }
        }
    }
}
/// The base name is the part of the name after its last `\\` or `/`:
/// the name ends with it, it holds no separator, and it is the whole name
/// or follows a separator.
pub proof fn basename_is_last_part(name: Seq<char>)
    ensures
        ({
            let b = spec_basename(name);
            &&& b.len() <= name.len()
            &&& name.subrange(name.len() - b.len(), name.len() as int) == b
            &&& !b.contains('\\') && !b.contains('/')
            &&& b.len() == name.len() || name[name.len() - b.len() - 1] == '\\' || name[name.len() - b.len() - 1] == '/'
        }),
    decreases name.len(),
{
    if name.len() > 0 {
        let b = spec_basename(name);
        if name.last() == '\\' || name.last() == '/' {
            assert(name.subrange(name.len() as int, name.len() as int) =~= b);
        } else {
            let p = name.drop_last();
            basename_is_last_part(p);
            let pb = spec_basename(p);
            assert(b == pb.push(name.last()));
            assert(name.subrange(name.len() - b.len(), name.len() as int) =~= p.subrange(p.len() - pb.len(), p.len() as int).push(name.last()));
            assert forall|k: int| 0 <= k < b.len() implies b[k] != '\\' && b[k] != '/' by {
                if k < pb.len() {
                    assert(b[k] == pb[k]);
                    assert(pb.contains(pb[k]));
                }
            }
            if pb.len() < p.len() {
                assert(name[name.len() - b.len() - 1] == p[p.len() - pb.len() - 1]);
            }
        }
    }
}

/// The extension is empty for a base name without a `.`; otherwise the
/// lower-cased base name ends with a `.` and the extension, which holds no
/// `.` and no ASCII capital.
pub proof fn extension_follows_the_last_dot(base: Seq<char>)
    ensures
        ({
            let x = spec_extension(base);
            &&& !base.contains('.') ==> x.len() == 0
            &&& base.contains('.') ==> x.len() < base.len() && {
                let lb = base.map_values(|c: char| lower(c));
                &&& lb.subrange(base.len() - x.len(), base.len() as int) == x
                &&& base[base.len() - x.len() - 1] == '.'
            }
            &&& !x.contains('.')
            &&& forall|k: int| 0 <= k < x.len() ==> !('A' <= #[trigger] x[k] <= 'Z')
        }),
    decreases base.len(),
{
    let x = spec_extension(base);
    if base.len() == 0 {
    } else if base.last() == '.' {
        assert(base.contains('.')) by { assert(base[base.len() - 1] == '.'); }
    } else if !base.drop_last().contains('.') {
        if base.contains('.') {
            let k = choose|k: int| 0 <= k < base.len() && base[k] == '.';
            assert(base.drop_last()[k] == '.');
        }
    } else {
        let p = base.drop_last();
        extension_follows_the_last_dot(p);
        let px = spec_extension(p);
        assert(x == px.push(lower(base.last())));
        let k0 = choose|k: int| 0 <= k < p.len() && p[k] == '.';
        assert(base[k0] == '.');
        let lb = base.map_values(|c: char| lower(c));
        let lp = p.map_values(|c: char| lower(c));
        assert(lb.subrange(base.len() - x.len(), base.len() as int) =~= lp.subrange(p.len() - px.len(), p.len() as int).push(lower(base.last())));
        assert(base[base.len() - x.len() - 1] == p[p.len() - px.len() - 1]);
        assert(lower(base.last()) != '.');
        assert forall|k: int| 0 <= k < x.len() implies x[k] != '.' && !('A' <= #[trigger] x[k] <= 'Z') by {
            if k < px.len() {
                assert(x[k] == px[k]);
                assert(px.contains(px[k]));
            }
        }
        assert(!x.contains('.'));
    }
}

proof fn lemma_entries_not_magic(d: Seq<u8>, names_end: int, data_off: int, count: int, i: int, p: int)
    ensures
        !(spec_entries(d, names_end, data_off, count, i, p) matches Err(TarcError::BadMagic)),
    decreases count - i,
{
    if i < count && p + 8 <= names_end {
        if let Some(ne) = first_nul(d, p + 8, min(p + 8 + MAX_NAME, names_end)) {
            lemma_entries_not_magic(d, names_end, data_off, count, i + 1, ne + 1);
        }
    }
}

/// An archive is refused as not a TAFF v0.2 one exactly when it is under
/// ten bytes long or does not begin with the magic.
pub proof fn bad_magic_exactly(d: Seq<u8>)
    ensures
        (spec_parse(d) matches Err(TarcError::BadMagic)) <==> (d.len() < 10 || d.subrange(0, 10) != MAGIC@),
{
    if d.len() >= 0x2c && d.subrange(0, 10) == MAGIC@ {
        lemma_entries_not_magic(d, le32(d, 0x20) + le32(d, 0x24), le32(d, 0x28), le32(d, 0x14), 0, le32(d, 0x20));
    }
}

proof fn lemma_le32_at(b: Seq<u8>, o: int, v: u32)
    requires
        0 <= o && o + 4 <= b.len(),
        b.subrange(o, o + 4) == crate::bytes::le32_bytes(v),
    ensures
        le32(b, o) == v,
{
    crate::bytes::lemma_le32_round_trip(v);
    let w = crate::bytes::le32_bytes(v);
    assert(b[o] == w[0] && b[o + 1] == w[1] && b[o + 2] == w[2] && b[o + 3] == w[3]) by {
        assert(b.subrange(o, o + 4)[0] == b[o]);
        assert(b.subrange(o, o + 4)[1] == b[o + 1]);
        assert(b.subrange(o, o + 4)[2] == b[o + 2]);
        assert(b.subrange(o, o + 4)[3] == b[o + 3]);
    }
}

/// What `encode` writes begins with the magic and a header that counts the
/// files, puts the name table at 0x2c and the data right after it; the
/// archive is the header, the name table and the data, nothing more.
pub proof fn encoded_header(fs: Seq<(Seq<u8>, Seq<u8>)>)
    requires
        fs.len() <= u32::MAX,
        spec_name_table(fs).len() + 0x2c <= u32::MAX,
    ensures
        ({
            let b = spec_encode(fs);
            &&& b.len() == 0x2c + spec_name_table(fs).len() + spec_data_area(fs).len()
            &&& b.subrange(0, 10) == MAGIC@
            &&& le32(b, 0x14) == fs.len()
            &&& le32(b, 0x20) == 0x2c
            &&& le32(b, 0x24) == spec_name_table(fs).len()
            &&& le32(b, 0x28) == 0x2c + le32(b, 0x24)
        }),
{
    reveal(spec_encode);
    let n = spec_name_table(fs).len() as int;
    let b = spec_encode(fs);
    let h = spec_header(fs.len() as int, n);
    assert(h.len() == 0x2c);
    assert(b.subrange(0, 0x2c) =~= h);
    assert(b.subrange(0, 10) =~= MAGIC@);
    assert(b.subrange(0x14, 0x18) =~= crate::bytes::le32_bytes(fs.len() as u32));
    assert(b.subrange(0x20, 0x24) =~= crate::bytes::le32_bytes(0x2c));
    assert(b.subrange(0x24, 0x28) =~= crate::bytes::le32_bytes(n as u32));
    assert(b.subrange(0x28, 0x2c) =~= crate::bytes::le32_bytes((0x2c + n) as u32));
    lemma_le32_at(b, 0x14, fs.len() as u32);
    lemma_le32_at(b, 0x20, 0x2c);
    lemma_le32_at(b, 0x24, n as u32);
    lemma_le32_at(b, 0x28, (0x2c + n) as u32);
}

/// The key undoes (or applies) byte `j` of an entry with byte `j % 13`
/// of "mydoghasfleas", starting again every thirteen bytes; the length is
/// kept.
pub proof fn xor_uses_the_key_cycle(bytes: Seq<u8>)
    ensures
        spec_xor(bytes).len() == bytes.len(),
        forall|j: int| 0 <= j < bytes.len() ==> #[trigger] spec_xor(bytes)[j]
            == bytes[j] ^ seq![109u8, 121, 100, 111, 103, 104, 97, 115, 102, 108, 101, 97, 115][j % 13],
{
    let text = seq![109u8, 121, 100, 111, 103, 104, 97, 115, 102, 108, 101, 97, 115];
    assert(KEY@ =~= text);
}

} // verus!
