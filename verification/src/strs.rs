//! Text as sequences of characters: whitespace, trimming, case, prefixes,
//! searching, splitting and joining, as `str`'s methods do them.
use vstd::prelude::*;
use crate::text::{lower, to_lower};

verus! {

/// Unicode `White_Space`, what `char::is_whitespace` tests.
pub open spec fn is_ws(c: char) -> bool {
    c == '\t' || c == '\n' || c == '\u{0B}' || c == '\u{0C}' || c == '\r' || c == ' ' || c == '\u{85}'
        || c == '\u{A0}' || c == '\u{1680}' || ('\u{2000}' <= c && c <= '\u{200A}') || c == '\u{2028}'
        || c == '\u{2029}' || c == '\u{202F}' || c == '\u{205F}' || c == '\u{3000}'
}

pub fn whitespace(c: char) -> (r: bool)
    ensures
        r == is_ws(c),
{
    c == '\t' || c == '\n' || c == '\u{0B}' || c == '\u{0C}' || c == '\r' || c == ' ' || c == '\u{85}'
        || c == '\u{A0}' || c == '\u{1680}' || ('\u{2000}' <= c && c <= '\u{200A}') || c == '\u{2028}'
        || c == '\u{2029}' || c == '\u{202F}' || c == '\u{205F}' || c == '\u{3000}'
}

/// What a trim takes off the ends.
#[derive(Clone, Copy)]
pub enum Trim {
    /// Whitespace.
    Ws,
    /// One given character.
    Char(char),
    /// `[` and `]`.
    Brackets,
}

pub open spec fn trims(k: Trim, c: char) -> bool {
    match k {
        Trim::Ws => is_ws(c),
        Trim::Char(x) => c == x,
        Trim::Brackets => c == '[' || c == ']',
    }
}

fn trims_exec(k: Trim, c: char) -> (r: bool)
    ensures
        r == trims(k, c),
{
    match k {
        Trim::Ws => whitespace(c),
        Trim::Char(x) => c == x,
        Trim::Brackets => c == '[' || c == ']',
    }
}

/// `s` without the characters `k` takes at its start.
pub open spec fn trim_start(s: Seq<char>, k: Trim) -> Seq<char>
    decreases s.len(),
{
    if s.len() > 0 && trims(k, s[0]) { trim_start(s.drop_first(), k) } else { s }
}

/// `s` without the characters `k` takes at its end.
pub open spec fn trim_end(s: Seq<char>, k: Trim) -> Seq<char>
    decreases s.len(),
{
    if s.len() > 0 && trims(k, s.last()) { trim_end(s.drop_last(), k) } else { s }
}

/// `s` without the characters `k` takes at either end.
pub open spec fn trim(s: Seq<char>, k: Trim) -> Seq<char> {
    trim_end(trim_start(s, k), k)
}

proof fn lemma_trim_start_at(s: Seq<char>, k: Trim, i: int)
    requires
        0 <= i <= s.len(),
        forall|j: int| 0 <= j < i ==> trims(k, #[trigger] s[j]),
        i == s.len() || !trims(k, s[i]),
    ensures
        trim_start(s, k) == s.subrange(i, s.len() as int),
    decreases i,
{
    if i > 0 {
        lemma_trim_start_at(s.drop_first(), k, i - 1);
        assert(s.drop_first().subrange(i - 1, s.len() - 1) =~= s.subrange(i, s.len() as int));
    } else {
        assert(s.subrange(0, s.len() as int) =~= s);
    }
}

proof fn lemma_trim_end_at(s: Seq<char>, k: Trim, e: int)
    requires
        0 <= e <= s.len(),
        forall|j: int| e <= j < s.len() ==> trims(k, #[trigger] s[j]),
        e == 0 || !trims(k, s[e - 1]),
    ensures
        trim_end(s, k) == s.subrange(0, e),
    decreases s.len() - e,
{
    if e < s.len() {
        lemma_trim_end_at(s.drop_last(), k, e);
        assert(s.drop_last().subrange(0, e) =~= s.subrange(0, e));
    } else {
        assert(s.subrange(0, s.len() as int) =~= s);
    }
}

/// `s[from..to]` as a new vector.
pub fn slice_of(s: &[char], from: usize, to: usize) -> (v: Vec<char>)
    requires
        from <= to <= s@.len(),
    ensures
        v@ == s@.subrange(from as int, to as int),
{
    let mut v: Vec<char> = Vec::new();
    let mut i: usize = from;
    while i < to
        invariant
            from <= i <= to <= s@.len(),
            v@ == s@.subrange(from as int, i as int),
        decreases to - i,
    {
        v.push(s[i]);
        i = i + 1;
    }
    v
}

/// Trim the start, the end or both.
pub fn trimmed(s: &[char], k: Trim, start: bool, end: bool) -> (v: Vec<char>)
    ensures
        v@ == (if start && end { trim(s@, k) } else if start { trim_start(s@, k) } else if end { trim_end(s@, k) } else { s@ }),
{
    let mut lo: usize = 0;
    if start {
        while lo < s.len() && trims_exec(k, s[lo])
            invariant
                lo <= s@.len(),
                forall|j: int| 0 <= j < lo ==> trims(k, #[trigger] s@[j]),
            decreases s@.len() - lo,
        {
            lo = lo + 1;
        }
        proof { lemma_trim_start_at(s@, k, lo as int); }
    }
    let mut hi: usize = s.len();
    if end {
        while hi > lo && trims_exec(k, s[hi - 1])
            invariant
                lo <= hi <= s@.len(),
                forall|j: int| hi <= j < s@.len() ==> trims(k, #[trigger] s@[j]),
            decreases hi,
        {
            hi = hi - 1;
        }
        proof {
            let t = s@.subrange(lo as int, s@.len() as int);
            lemma_trim_end_at(t, k, hi - lo);
            assert(t.subrange(0, hi - lo) =~= s@.subrange(lo as int, hi as int));
            if !start {
                assert(s@.subrange(0, s@.len() as int) =~= s@);
            }
        }
    }
    proof {
        if !end {
            assert(s@.subrange(0, s@.len() as int) =~= s@);
        }
    }
    slice_of(s, lo, hi)
}

/// ASCII lower case, what `to_ascii_lowercase` makes.
pub open spec fn lower_all(s: Seq<char>) -> Seq<char> {
    s.map_values(|c: char| lower(c))
}

pub fn lowercase(s: &[char]) -> (v: Vec<char>)
    ensures
        v@ == lower_all(s@),
{
    let mut v: Vec<char> = Vec::new();
    let mut i: usize = 0;
    while i < s.len()
        invariant
            i <= s@.len(),
            v@ == lower_all(s@.subrange(0, i as int)),
        decreases s@.len() - i,
    {
        v.push(to_lower(s[i]));
        proof {
            assert(lower_all(s@.subrange(0, i + 1)) =~= lower_all(s@.subrange(0, i as int)).push(lower(s@[i as int])));
        }
        i = i + 1;
    }
    assert(s@.subrange(0, i as int) =~= s@);
    v
}

pub open spec fn starts_with(s: Seq<char>, p: Seq<char>) -> bool {
    p.len() <= s.len() && s.subrange(0, p.len() as int) == p
}

pub open spec fn ends_with(s: Seq<char>, p: Seq<char>) -> bool {
    p.len() <= s.len() && s.subrange(s.len() - p.len(), s.len() as int) == p
}

pub fn has_prefix(s: &[char], p: &[char]) -> (r: bool)
    ensures
        r == starts_with(s@, p@),
{
    if p.len() > s.len() {
        return false;
    }
    let mut i: usize = 0;
    while i < p.len()
        invariant
            p@.len() <= s@.len(),
            i <= p@.len(),
            forall|j: int| 0 <= j < i ==> s@[j] == p@[j],
        decreases p@.len() - i,
    {
        if s[i] != p[i] {
            assert(s@.subrange(0, p@.len() as int)[i as int] != p@[i as int]);
            return false;
        }
        i = i + 1;
    }
    assert(s@.subrange(0, p@.len() as int) =~= p@);
    true
}

pub fn has_suffix(s: &[char], p: &[char]) -> (r: bool)
    ensures
        r == ends_with(s@, p@),
{
    if p.len() > s.len() {
        return false;
    }
    let sl = s.len();
    let o = sl - p.len();
    let mut i: usize = 0;
    while i < p.len()
        invariant
            sl == s@.len(),
            p@.len() <= s@.len(),
            o == s@.len() - p@.len(),
            o + p@.len() == s@.len(),
            i <= p@.len(),
            forall|j: int| 0 <= j < i ==> s@[o + j] == p@[j],
        decreases p@.len() - i,
    {
        if s[o + i] != p[i] {
            assert(s@.subrange(o as int, s@.len() as int)[i as int] != p@[i as int]);
            return false;
        }
        i = i + 1;
    }
    assert(s@.subrange(o as int, s@.len() as int) =~= p@);
    true
}

/// The first index at or after `i` holding `c`.
pub open spec fn find_from(s: Seq<char>, c: char, i: int) -> Option<int>
    decreases s.len() - i,
{
    if i < 0 || i >= s.len() {
        None
    } else if s[i] == c {
        Some(i)
    } else {
        find_from(s, c, i + 1)
    }
}

pub fn find_char(s: &[char], c: char, from: usize) -> (r: Option<usize>)
    ensures
        r == (match find_from(s@, c, from as int) { Some(i) => Some(i as usize), None => None::<usize> }),
        r matches Some(i) ==> from <= i < s@.len() && s@[i as int] == c && find_from(s@, c, from as int) == Some(i as int),
        r is None ==> find_from(s@, c, from as int) is None,
{
    let mut i: usize = from;
    while i < s.len()
        invariant
            from <= i,
            find_from(s@, c, from as int) == find_from(s@, c, i as int),
        decreases s@.len() - i,
    {
        if s[i] == c {
            return Some(i);
        }
        i = i + 1;
    }
    None
}

/// Whether `t` occurs in `s`.
pub open spec fn contains_seq(s: Seq<char>, t: Seq<char>) -> bool {
    exists|i: int| 0 <= i && i + t.len() <= s.len() && #[trigger] s.subrange(i, i + t.len()) == t
}

pub fn contains_chars(s: &[char], t: &[char]) -> (r: bool)
    ensures
        r == contains_seq(s@, t@),
{
    if t.len() > s.len() {
        return false;
    }
    let sl = s.len();
    let last = sl - t.len();
    let mut i: usize = 0;
    while i <= last
        invariant
            sl == s@.len(),
            t@.len() <= s@.len(),
            last == s@.len() - t@.len(),
            i <= last + 1,
            forall|j: int| 0 <= j < i ==> #[trigger] s@.subrange(j, j + t@.len()) != t@,
        decreases last + 1 - i,
    {
        let mut k: usize = 0;
        let mut same = true;
        while k < t.len()
            invariant
                sl == s@.len(),
                i + t@.len() <= s@.len(),
                k <= t@.len(),
                same == forall|j: int| 0 <= j < k ==> s@[i + j] == t@[j],
            decreases t@.len() - k,
        {
            if s[i + k] != t[k] {
                same = false;
            }
            k = k + 1;
        }
        if same {
            assert(s@.subrange(i as int, i + t@.len()) =~= t@);
            return true;
        }
        proof {
            assert(!(forall|j: int| 0 <= j < t@.len() ==> s@[i + j] == t@[j]));
            let j = choose|j: int| !(0 <= j < t@.len() ==> s@[i + j] == t@[j]);
            assert(s@.subrange(i as int, i + t@.len())[j] != t@[j]);
        }
        i = i + 1;
    }
    false
}

/// Pieces of `s` between the occurrences of `sep`, as `str::split` gives
/// them: one more piece than separators.
pub open spec fn split_on(s: Seq<char>, sep: char) -> Seq<Seq<char>>
    decreases s.len(),
{
    if s.len() == 0 {
        seq![Seq::empty()]
    } else {
        let prev = split_on(s.drop_last(), sep);
        if s.last() == sep {
            prev.push(Seq::empty())
        } else {
            prev.update(prev.len() - 1, prev.last().push(s.last()))
        }
    }
}

proof fn lemma_split_nonempty(s: Seq<char>, sep: char)
    ensures
        split_on(s, sep).len() >= 1,
    decreases s.len(),
{
    if s.len() > 0 {
        lemma_split_nonempty(s.drop_last(), sep);
    }
}

pub open spec fn views(v: Seq<Vec<char>>) -> Seq<Seq<char>> {
    v.map_values(|x: Vec<char>| x@)
}

pub fn split_chars(s: &[char], sep: char) -> (v: Vec<Vec<char>>)
    ensures
        views(v@) == split_on(s@, sep),
{
    let mut cur: Vec<char> = Vec::new();
    let mut done: Vec<Vec<char>> = Vec::new();
    let mut i: usize = 0;
    assert(views(done@).push(cur@) =~= split_on(s@.subrange(0, 0), sep));
    while i < s.len()
        invariant
            i <= s@.len(),
            views(done@).push(cur@) == split_on(s@.subrange(0, i as int), sep),
        decreases s@.len() - i,
    {
        proof {
            assert(s@.subrange(0, i + 1).drop_last() =~= s@.subrange(0, i as int));
        }
        if s[i] == sep {
            let ghost before = views(done@);
            let mut full: Vec<char> = Vec::new();
            std::mem::swap(&mut full, &mut cur);
            done.push(full);
            proof {
                assert(views(done@) =~= before.push(full@));
            }
        } else {
            let ghost old_cur = cur@;
            cur.push(s[i]);
            proof {
                let prev = views(done@).push(old_cur);
                assert(views(done@).push(cur@) =~= prev.update(prev.len() - 1, prev.last().push(s@[i as int])));
            }
        }
        i = i + 1;
    }
    let ghost before = views(done@);
    done.push(cur);
    assert(views(done@) =~= before.push(views(done@).last()));
    assert(s@.subrange(0, i as int) =~= s@);
    done
}

/// Lines as `str::lines` gives them: split at `\n`, a `\r` before the
/// `\n` dropped, and no final empty line after a last `\n`.
pub open spec fn lines_of(s: Seq<char>) -> Seq<Seq<char>> {
    let parts = split_on(s, '\n');
    let body = parts.drop_last().map_values(|l: Seq<char>| if l.len() > 0 && l.last() == '\r' { l.drop_last() } else { l });
    if parts.last().len() > 0 { body.push(parts.last()) } else { body }
}

pub fn lines(s: &[char]) -> (v: Vec<Vec<char>>)
    ensures
        views(v@) == lines_of(s@),
{
    let parts = split_chars(s, '\n');
    proof { lemma_split_nonempty(s@, '\n'); }
    let n = parts.len();
    let mut v: Vec<Vec<char>> = Vec::new();
    let mut i: usize = 0;
    let ghost pv = views(parts@);
    while i + 1 < n
        invariant
            n == parts@.len() >= 1,
            pv == views(parts@),
            i + 1 <= n,
            views(v@) == pv.drop_last().subrange(0, i as int).map_values(|l: Seq<char>| if l.len() > 0 && l.last() == '\r' { l.drop_last() } else { l }),
        decreases n - i,
    {
        let l = &parts[i];
        let ghost before = views(v@);
        if l.len() > 0 && l[l.len() - 1] == '\r' {
            v.push(slice_of(l.as_slice(), 0, l.len() - 1));
            proof { assert(l@.subrange(0, l@.len() - 1) =~= l@.drop_last()); }
        } else {
            v.push(slice_of(l.as_slice(), 0, l.len()));
            proof { assert(l@.subrange(0, l@.len() as int) =~= l@); }
        }
        proof {
            assert(l@ == pv[i as int]);
            assert(views(v@) =~= before.push(views(v@).last()));
            assert(views(v@) =~= pv.drop_last().subrange(0, i + 1).map_values(|l: Seq<char>| if l.len() > 0 && l.last() == '\r' { l.drop_last() } else { l }));
        }
        i = i + 1;
    }
    assert(pv.drop_last().subrange(0, i as int) =~= pv.drop_last());
    let last = &parts[n - 1];
    if last.len() > 0 {
        let ghost before = views(v@);
        v.push(slice_of(last.as_slice(), 0, last.len()));
        proof {
            assert(last@.subrange(0, last@.len() as int) =~= last@);
            assert(views(v@) =~= before.push(last@));
        }
    }
    v
}


/// Words of `s` as `split_whitespace` gives them, and whether the last
/// one is still open.
pub open spec fn words_state(s: Seq<char>) -> (Seq<Seq<char>>, bool)
    decreases s.len(),
{
    if s.len() == 0 {
        (Seq::empty(), false)
    } else {
        let (ws, open) = words_state(s.drop_last());
        let c = s.last();
        if is_ws(c) {
            (ws, false)
        } else if open && ws.len() > 0 {
            (ws.update(ws.len() - 1, ws.last().push(c)), true)
        } else {
            (ws.push(seq![c]), true)
        }
    }
}

pub open spec fn words(s: Seq<char>) -> Seq<Seq<char>> {
    words_state(s).0
}

pub fn split_words(s: &[char]) -> (v: Vec<Vec<char>>)
    ensures
        views(v@) == words(s@),
{
    let mut v: Vec<Vec<char>> = Vec::new();
    let mut cur: Vec<char> = Vec::new();
    let mut open = false;
    let mut i: usize = 0;
    while i < s.len()
        invariant
            i <= s@.len(),
            (if open { views(v@).push(cur@) } else { views(v@) }) == words_state(s@.subrange(0, i as int)).0,
            open == words_state(s@.subrange(0, i as int)).1,
            !open ==> cur@.len() == 0,
        decreases s@.len() - i,
    {
        proof {
            assert(s@.subrange(0, i + 1).drop_last() =~= s@.subrange(0, i as int));
        }
        let c = s[i];
        if whitespace(c) {
            if open {
                let mut w: Vec<char> = Vec::new();
                std::mem::swap(&mut w, &mut cur);
                let ghost before = views(v@);
                v.push(w);
                proof { assert(views(v@) =~= before.push(w@)); }
            }
            open = false;
        } else {
            let ghost old_cur = cur@;
            let ghost before = views(v@);
            cur.push(c);
            proof {
                if open {
                    let ws = before.push(old_cur);
                    assert(ws.len() > 0);
                    assert(before.push(cur@) =~= ws.update(ws.len() - 1, ws.last().push(c)));
                } else {
                    assert(cur@ =~= seq![c]);
                }
            }
            open = true;
        }
        i = i + 1;
    }
    assert(s@.subrange(0, i as int) =~= s@);
    if open {
        let ghost before = views(v@);
        v.push(cur);
        proof { assert(views(v@) =~= before.push(views(v@).last())); }
    }
    v
}

/// `parts` with `sep` between each two, as `join` gives them.
pub open spec fn joined(parts: Seq<Seq<char>>, sep: Seq<char>) -> Seq<char>
    decreases parts.len(),
{
    if parts.len() == 0 {
        Seq::empty()
    } else if parts.len() == 1 {
        parts[0]
    } else {
        joined(parts.drop_last(), sep) + sep + parts.last()
    }
}

pub fn join(parts: &Vec<Vec<char>>, sep: &[char]) -> (v: Vec<char>)
    ensures
        v@ == joined(views(parts@), sep@),
{
    let mut v: Vec<char> = Vec::new();
    let mut i: usize = 0;
    while i < parts.len()
        invariant
            i <= parts@.len(),
            v@ == joined(views(parts@).subrange(0, i as int), sep@),
        decreases parts@.len() - i,
    {
        let ghost before = v@;
        if i > 0 {
            let mut k: usize = 0;
            while k < sep.len()
                invariant
                    k <= sep@.len(),
                    v@ == before + sep@.subrange(0, k as int),
                decreases sep@.len() - k,
            {
                v.push(sep[k]);
                proof { assert(sep@.subrange(0, k + 1) =~= sep@.subrange(0, k as int).push(sep@[k as int])); }
                k = k + 1;
            }
            assert(sep@.subrange(0, k as int) =~= sep@);
        }
        let ghost mid = v@;
        let p = &parts[i];
        let mut k: usize = 0;
        while k < p.len()
            invariant
                k <= p@.len(),
                v@ == mid + p@.subrange(0, k as int),
            decreases p@.len() - k,
        {
            v.push(p[k]);
            proof { assert(p@.subrange(0, k + 1) =~= p@.subrange(0, k as int).push(p@[k as int])); }
            k = k + 1;
        }
        proof {
            assert(p@.subrange(0, k as int) =~= p@);
            let sub = views(parts@).subrange(0, i + 1);
            assert(sub.drop_last() =~= views(parts@).subrange(0, i as int));
            if i == 0 {
                assert(v@ =~= p@);
            } else {
                assert(v@ =~= joined(sub.drop_last(), sep@) + sep@ + sub.last());
            }
        }
        i = i + 1;
    }
    assert(views(parts@).subrange(0, i as int) =~= views(parts@));
    v
}

pub open spec fn is_digit(c: char) -> bool {
    '0' <= c && c <= '9'
}

/// The number the decimal digits `d` write.
pub open spec fn digits_value(d: Seq<char>) -> int
    decreases d.len(),
{
    if d.len() == 0 { 0 } else { digits_value(d.drop_last()) * 10 + (d.last() as int - '0' as int) }
}

pub open spec fn all_digits(d: Seq<char>) -> bool {
    forall|i: int| 0 <= i < d.len() ==> is_digit(#[trigger] d[i])
}

/// What `str::parse::<i64>` gives: an optional sign, then one or more
/// decimal digits, in range.
pub open spec fn parse_int(s: Seq<char>) -> Option<i64> {
    let neg = s.len() > 0 && s[0] == '-';
    let d = if s.len() > 0 && (s[0] == '-' || s[0] == '+') { s.drop_first() } else { s };
    let v = if neg { -digits_value(d) } else { digits_value(d) };
    if d.len() == 0 || !all_digits(d) || v < i64::MIN || v > i64::MAX { None } else { Some(v as i64) }
}

proof fn lemma_digits_grow(d: Seq<char>, k: int)
    requires
        all_digits(d),
        0 <= k <= d.len(),
    ensures
        0 <= digits_value(d.subrange(0, k)) <= digits_value(d),
    decreases d.len() - k,
{
    if k < d.len() {
        lemma_digits_grow(d, k + 1);
        let s1 = d.subrange(0, k + 1);
        assert(s1.drop_last() =~= d.subrange(0, k));
        assert(is_digit(d[k]));
    } else {
        assert(d.subrange(0, k) =~= d);
        lemma_digits_nonneg(d);
    }
}

proof fn lemma_digits_nonneg(d: Seq<char>)
    requires
        all_digits(d),
    ensures
        digits_value(d) >= 0,
    decreases d.len(),
{
    if d.len() > 0 {
        assert(all_digits(d.drop_last()));
        lemma_digits_nonneg(d.drop_last());
        assert(is_digit(d.last()));
    }
}

pub fn parse_i64(s: &[char]) -> (r: Option<i64>)
    ensures
        r == parse_int(s@),
{
    let n = s.len();
    let neg = n > 0 && s[0] == '-';
    let start: usize = if n > 0 && (s[0] == '-' || s[0] == '+') { 1 } else { 0 };
    let ghost d = if s@.len() > 0 && (s@[0] == '-' || s@[0] == '+') { s@.drop_first() } else { s@ };
    assert(d =~= s@.subrange(start as int, n as int));
    if start == n {
        return None;
    }
    // The magnitude so far, kept at most 2^63 (the largest a negative
    // number may have).
    let mut acc: u64 = 0;
    let mut i: usize = start;
    while i < n
        invariant
            n == s@.len(),
            start <= i <= n,
            d == s@.subrange(start as int, n as int),
            d == (if s@.len() > 0 && (s@[0] == '-' || s@[0] == '+') { s@.drop_first() } else { s@ }),
            neg == (s@.len() > 0 && s@[0] == '-'),
            all_digits(s@.subrange(start as int, i as int)),
            acc == digits_value(s@.subrange(start as int, i as int)),
            acc <= 0x8000_0000_0000_0000u64,
        decreases n - i,
    {
        let c = s[i];
        proof {
            assert(s@.subrange(start as int, i + 1).drop_last() =~= s@.subrange(start as int, i as int));
        }
        if c < '0' || c > '9' {
            proof {
                assert(d[i - start] == c);
                assert(!all_digits(d));
            }
            return None;
        }
        let dv = (c as u64) - ('0' as u64);
        if acc > (0x8000_0000_0000_0000u64 - dv) / 10 {
            proof {
                assert(all_digits(s@.subrange(start as int, i + 1)));
                assert(digits_value(s@.subrange(start as int, i + 1)) > 0x8000_0000_0000_0000);
                if all_digits(d) {
                    assert(s@.subrange(start as int, i + 1) =~= d.subrange(0, i + 1 - start));
                    lemma_digits_grow(d, i + 1 - start);
                }
            }
            return None;
        }
        acc = acc * 10 + dv;
        i = i + 1;
    }
    assert(s@.subrange(start as int, i as int) =~= d);
    if neg {
        if acc == 0x8000_0000_0000_0000u64 {
            Some(i64::MIN)
        } else {
            Some(-(acc as i64))
        }
    } else {
        if acc > 0x7fff_ffff_ffff_ffffu64 {
            None
        } else {
            Some(acc as i64)
        }
    }
}

/// The decimal digits of `n`.
pub open spec fn decimal(n: nat) -> Seq<char>
    decreases n,
{
    if n < 10 {
        seq![('0' as u32 + n) as char]
    } else {
        decimal(n / 10).push(('0' as u32 + n % 10) as char)
    }
}

pub fn push_decimal(out: &mut Vec<char>, n: usize)
    ensures
        final(out)@ == old(out)@ + decimal(n as nat),
    decreases n,
{
    if n >= 10 {
        push_decimal(out, n / 10);
    }
    let d = (n % 10) as u8;
    out.push((48u8 + d) as char);
    proof {
        assert(('0' as u32 + (n % 10)) as char == ((48u8 + d) as char));
    }
}

/// What `str::parse::<u32>` gives: an optional `+`, then one or more
/// decimal digits, in range.
pub open spec fn parse_u32(s: Seq<char>) -> Option<u32> {
    let d = if s.len() > 0 && s[0] == '+' { s.drop_first() } else { s };
    if d.len() == 0 || !all_digits(d) || digits_value(d) > u32::MAX { None } else { Some(digits_value(d) as u32) }
}

pub fn parse_unsigned(s: &[char]) -> (r: Option<u32>)
    ensures
        r == parse_u32(s@),
{
    let n = s.len();
    let start: usize = if n > 0 && s[0] == '+' { 1 } else { 0 };
    let ghost d = if s@.len() > 0 && s@[0] == '+' { s@.drop_first() } else { s@ };
    assert(d =~= s@.subrange(start as int, n as int));
    if start == n {
        return None;
    }
    let mut acc: u64 = 0;
    let mut i: usize = start;
    while i < n
        invariant
            n == s@.len(),
            start <= i <= n,
            d == s@.subrange(start as int, n as int),
            d == (if s@.len() > 0 && s@[0] == '+' { s@.drop_first() } else { s@ }),
            all_digits(s@.subrange(start as int, i as int)),
            acc == digits_value(s@.subrange(start as int, i as int)),
            acc <= 0xffff_ffffu64,
        decreases n - i,
    {
        let c = s[i];
        proof {
            assert(s@.subrange(start as int, i + 1).drop_last() =~= s@.subrange(start as int, i as int));
        }
        if c < '0' || c > '9' {
            proof {
                assert(d[i - start] == c);
            }
            return None;
        }
        let dv = (c as u64) - ('0' as u64);
        let next = acc * 10 + dv;
        if next > 0xffff_ffffu64 {
            proof {
                assert(all_digits(s@.subrange(start as int, i + 1)));
                if all_digits(d) {
                    assert(s@.subrange(start as int, i + 1) =~= d.subrange(0, i + 1 - start));
                    lemma_digits_grow(d, i + 1 - start);
                }
            }
            return None;
        }
        acc = next;
        i = i + 1;
    }
    assert(s@.subrange(start as int, i as int) =~= d);
    Some(acc as u32)
}

/// The last index before `end` holding `c`.
pub open spec fn find_last(s: Seq<char>, c: char, end: int) -> Option<int>
    decreases end,
{
    if end <= 0 || end > s.len() {
        None
    } else if s[end - 1] == c {
        Some(end - 1)
    } else {
        find_last(s, c, end - 1)
    }
}

pub fn find_char_last(s: &[char], c: char) -> (r: Option<usize>)
    ensures
        match r {
            Some(i) => find_last(s@, c, s@.len() as int) == Some(i as int) && i < s@.len() && s@[i as int] == c,
            None => find_last(s@, c, s@.len() as int) is None,
        },
{
    let mut e: usize = s.len();
    while e > 0
        invariant
            e <= s@.len(),
            find_last(s@, c, s@.len() as int) == find_last(s@, c, e as int),
        decreases e,
    {
        if s[e - 1] == c {
            return Some(e - 1);
        }
        e = e - 1;
    }
    None
}
} // verus!
