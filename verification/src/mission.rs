//! Mission texts: the `*.english` files in `netstorm.tarc`. Each starts
//! with a `[Header]` of `key = value` lines (start money, the players'
//! technologies, which `.fort` to load) before the briefing pages:
//! sections named `[A.]`, `[A1.]`, `[B.]` and so on in a small markup
//! (`<h2>`, `<p>`, `<br>`, `<i>`, `<c>`) with `$Button=label,action,arg`
//! lines, and result sections such as `[Succeeded][BadTeamDead]` and
//! `[Failed]`.
use vstd::prelude::*;
use crate::strs::{
    all_digits, contains_chars, contains_seq, decimal, ends_with, find_char, has_suffix, find_from, has_prefix, join, joined, lines, lines_of, lower_all,
    lowercase, parse_i64, parse_int, push_decimal, slice_of, split_chars, split_on, split_words, starts_with, trim, trim_end,
    trimmed, views, words, Trim,
};
use crate::tarc::{latin1, spec_basename, spec_extension, spec_xor, Archive};
use crate::text::{chars_equal, chars_of, eq_ignore_ascii_case, eq_ignore_case, string_of, strings_view};

verus! {

/// What a tag stands for in plain text: a paragraph break after a
/// paragraph mark or a heading's end, a line break for `<br>`.
pub open spec fn tag_text(tag: Seq<char>) -> Seq<char> {
    if tag == seq!['p'] || tag == seq!['/', 'h', '2'] || tag == seq!['/', 'h', '1'] || tag == seq!['/', 'h', '3'] {
        seq!['\n', '\n']
    } else if tag == seq!['b', 'r'] {
        seq!['\n']
    } else {
        Seq::empty()
    }
}

/// `s` with each complete `<tag>` replaced by what it stands for; from an
/// unclosed `<` on, the text is kept as it is.
pub open spec fn untagged(s: Seq<char>) -> Seq<char>
    decreases s.len(),
{
    match find_from(s, '<', 0) {
        None => s,
        Some(open) => match find_from(s, '>', open) {
            None => s,
            Some(close) => {
                proof { lemma_find_from_bounds(s, '>', open); }
                s.subrange(0, open) + tag_text(lower_all(trim(s.subrange(open + 1, close), Trim::Ws)))
                    + untagged(s.subrange(close + 1, s.len() as int))
            },
        },
    }
}

pub proof fn lemma_find_from_bounds(s: Seq<char>, c: char, i: int)
    ensures
        find_from(s, c, i) matches Some(k) ==> i <= k < s.len() && s[k] == c,
    decreases s.len() - i,
{
    if 0 <= i < s.len() && s[i] != c {
        lemma_find_from_bounds(s, c, i + 1);
    }
}

/// Pieces of `s` between the occurrences of a blank line (`\n\n`), taken
/// from the left without overlap, as `str::split("\n\n")` gives them.
pub open spec fn blocks(s: Seq<char>) -> Seq<Seq<char>>
    decreases s.len(),
{
    match find_pair(s, 0) {
        None => seq![s],
        Some(i) => {
            proof { lemma_find_pair_bounds(s, 0); }
            seq![s.subrange(0, i)] + blocks(s.subrange(i + 2, s.len() as int))
        },
    }
}

/// The first index at or after `i` where `\n\n` starts.
pub open spec fn find_pair(s: Seq<char>, i: int) -> Option<int>
    decreases s.len() - i,
{
    if i < 0 || i + 1 >= s.len() {
        None
    } else if s[i] == '\n' && s[i + 1] == '\n' {
        Some(i)
    } else {
        find_pair(s, i + 1)
    }
}

pub proof fn lemma_find_pair_bounds(s: Seq<char>, i: int)
    requires
        0 <= i,
    ensures
        find_pair(s, i) matches Some(k) ==> i <= k && k + 1 < s.len(),
    decreases s.len() - i,
{
    if i + 1 < s.len() && !(s[i] == '\n' && s[i + 1] == '\n') {
        lemma_find_pair_bounds(s, i + 1);
    }
}

/// The non-empty members of `v`, in order.
pub open spec fn non_empty(v: Seq<Seq<char>>) -> Seq<Seq<char>>
    decreases v.len(),
{
    if v.len() == 0 {
        Seq::empty()
    } else if v.last().len() > 0 {
        non_empty(v.drop_last()).push(v.last())
    } else {
        non_empty(v.drop_last())
    }
}

/// A line with its words single-spaced.
pub open spec fn tidy(line: Seq<char>) -> Seq<char> {
    joined(words(line), seq![' '])
}

/// A block's lines run together: its non-blank lines, tidied, joined by
/// spaces.
pub open spec fn paragraph(block: Seq<char>) -> Seq<char> {
    joined(non_empty(split_on(block, '\n').map_values(|l: Seq<char>| tidy(l))), seq![' '])
}

/// The markup as plain text: tags replaced, each block between blank
/// lines made one paragraph, the non-empty paragraphs parted by a blank
/// line.
pub open spec fn spec_plain_text(markup: Seq<char>) -> Seq<char> {
    joined(non_empty(blocks(untagged(markup)).map_values(|b: Seq<char>| paragraph(b))), seq!['\n', '\n'])
}

proof fn lemma_untagged_step(r: Seq<char>, open: int, close: int)
    requires
        find_from(r, '<', 0) == Some(open),
        find_from(r, '>', open) == Some(close),
    ensures
        untagged(r) == r.subrange(0, open) + tag_text(lower_all(trim(r.subrange(open + 1, close), Trim::Ws)))
            + untagged(r.subrange(close + 1, r.len() as int)),
{
}

proof fn lemma_untagged_done(r: Seq<char>)
    requires
        find_from(r, '<', 0) matches Some(open) ==> find_from(r, '>', open) is None,
    ensures
        untagged(r) == r,
{
}

fn tag_text_of(tag: &Vec<char>) -> (v: Vec<char>)
    ensures
        v@ == tag_text(tag@),
{
    let t = tag.as_slice();
    let is_p = t.len() == 1 && t[0] == 'p';
    let is_end = t.len() == 3 && t[0] == '/' && t[1] == 'h' && (t[2] == '2' || t[2] == '1' || t[2] == '3');
    let is_br = t.len() == 2 && t[0] == 'b' && t[1] == 'r';
    proof {
        assert(is_p <==> tag@ == seq!['p']) by {
            if tag@ == seq!['p'] { assert(tag@[0] == 'p'); }
            if is_p { assert(tag@ =~= seq!['p']); }
        }
        assert(is_end <==> (tag@ == seq!['/', 'h', '2'] || tag@ == seq!['/', 'h', '1'] || tag@ == seq!['/', 'h', '3'])) by {
            if is_end {
                if t[2] == '2' { assert(tag@ =~= seq!['/', 'h', '2']); }
                if t[2] == '1' { assert(tag@ =~= seq!['/', 'h', '1']); }
                if t[2] == '3' { assert(tag@ =~= seq!['/', 'h', '3']); }
            }
            if tag@ == seq!['/', 'h', '2'] { assert(tag@[2] == '2'); }
            if tag@ == seq!['/', 'h', '1'] { assert(tag@[2] == '1'); }
            if tag@ == seq!['/', 'h', '3'] { assert(tag@[2] == '3'); }
        }
        assert(is_br <==> tag@ == seq!['b', 'r']) by {
            if is_br { assert(tag@ =~= seq!['b', 'r']); }
            if tag@ == seq!['b', 'r'] { assert(tag@[0] == 'b' && tag@[1] == 'r'); }
        }
    }
    let mut v: Vec<char> = Vec::new();
    if is_p || is_end {
        v.push('\n');
        v.push('\n');
    } else if is_br {
        v.push('\n');
    }
    proof {
        if is_p || is_end { assert(v@ =~= seq!['\n', '\n']); } else if is_br { assert(v@ =~= seq!['\n']); } else { assert(v@ =~= Seq::<char>::empty()); }
    }
    v
}

fn append_chars(out: &mut Vec<char>, s: &[char])
    ensures
        final(out)@ == old(out)@ + s@,
{
    let mut i: usize = 0;
    while i < s.len()
        invariant
            i <= s@.len(),
            out@ == old(out)@ + s@.subrange(0, i as int),
        decreases s@.len() - i,
    {
        out.push(s[i]);
        proof { assert(s@.subrange(0, i + 1) =~= s@.subrange(0, i as int).push(s@[i as int])); }
        i = i + 1;
    }
    assert(s@.subrange(0, i as int) =~= s@);
}

/// One step of untagging `rest`: the text up to and including the first
/// complete tag, and where the rest starts; or all of it when no tag is
/// complete.
fn untag_step(rest: &[char]) -> (r: (Vec<char>, Option<usize>))
    ensures
        match r.1 {
            None => r.0@ == untagged(rest@),
            Some(k) => 0 < k <= rest@.len() && r.0@ + untagged(rest@.subrange(k as int, rest@.len() as int)) == untagged(rest@),
        },
{
    let n = rest.len();
    match find_char(rest, '<', 0) {
        None => {
            proof { lemma_untagged_done(rest@); }
            (slice_of(rest, 0, n), None)
        }
        Some(open) => {
            match find_char(rest, '>', open) {
                None => {
                    proof { lemma_untagged_done(rest@); }
                    (slice_of(rest, 0, n), None)
                }
                Some(close) => {
                    let mut out = slice_of(rest, 0, open);
                    let inner = slice_of(rest, open + 1, close);
                    let tag = lowercase(trimmed(inner.as_slice(), Trim::Ws, true, true).as_slice());
                    let tt = tag_text_of(&tag);
                    append_chars(&mut out, tt.as_slice());
                    proof {
                        lemma_find_from_bounds(rest@, '>', open as int);
                        lemma_untagged_step(rest@, open as int, close as int);
                    }
                    (out, Some(close + 1))
                }
            }
        }
    }
}

fn untag(s: &[char]) -> (v: Vec<char>)
    ensures
        v@ == untagged(s@),
{
    let mut out: Vec<char> = Vec::new();
    let mut p: usize = 0;
    let n = s.len();
    assert(s@.subrange(0, n as int) =~= s@);
    loop
        invariant_except_break
            out@ + untagged(s@.subrange(p as int, n as int)) == untagged(s@),
        invariant
            n == s@.len(),
            p <= n,
        ensures
            out@ == untagged(s@),
        decreases n - p,
    {
        let rest = slice_of(s, p, n);
        let (piece, next) = untag_step(rest.as_slice());
        append_chars(&mut out, piece.as_slice());
        match next {
            None => {
                break;
            }
            Some(k) => {
                proof {
                    assert(rest@.subrange(k as int, rest@.len() as int) =~= s@.subrange(p + k, n as int));
                }
                p = p + k;
            }
        }
    }
    out
}

/// The first `\n\n` at or after `i`.
fn find_blank(s: &[char], from: usize) -> (r: Option<usize>)
    ensures
        r == (match find_pair(s@, from as int) { Some(i) => Some(i as usize), None => None::<usize> }),
        r matches Some(i) ==> find_pair(s@, from as int) == Some(i as int),
        r is None ==> find_pair(s@, from as int) is None,
{
    let mut i: usize = from;
    while i < s.len() && 1 < s.len() - i
        invariant
            from <= i,
            find_pair(s@, from as int) == find_pair(s@, i as int),
        decreases s@.len() - i,
    {
        if s[i] == '\n' && s[i + 1] == '\n' {
            return Some(i);
        }
        i = i + 1;
    }
    None
}

#[verifier::rlimit(40)]
fn split_blocks(s: &[char]) -> (v: Vec<Vec<char>>)
    ensures
        views(v@) == blocks(s@),
{
    let mut v: Vec<Vec<char>> = Vec::new();
    let n = s.len();
    let mut p: usize = 0;
    assert(s@.subrange(0, n as int) =~= s@);
    assert(views(v@) + blocks(s@) =~= blocks(s@));
    loop
        invariant_except_break
            views(v@) + blocks(s@.subrange(p as int, n as int)) == blocks(s@),
        invariant
            n == s@.len(),
            p <= n,
        ensures
            views(v@) == blocks(s@),
        decreases n - p,
    {
        let rest = slice_of(s, p, n);
        match find_blank(rest.as_slice(), 0) {
            None => {
                let ghost before = views(v@);
                proof { assert(blocks(rest@) == seq![rest@]); }
                v.push(rest);
                proof { assert(views(v@) =~= before + seq![rest@]); }
                break;
            }
            Some(i) => {
                proof { lemma_find_pair_bounds(rest@, 0); }
                let piece = slice_of(rest.as_slice(), 0, i);
                let ghost before = views(v@);
                v.push(piece);
                proof {
                    assert(views(v@) =~= before + seq![piece@]);
                    assert(rest@.subrange(i + 2, rest@.len() as int) =~= s@.subrange(p + i + 2, n as int));
                    assert(before + blocks(rest@) =~= views(v@) + blocks(s@.subrange(p + i + 2, n as int)));
                }
                p = p + i + 2;
            }
        }
    }
    v
}

fn keep_non_empty(v: &Vec<Vec<char>>) -> (out: Vec<Vec<char>>)
    ensures
        views(out@) == non_empty(views(v@)),
{
    let mut out: Vec<Vec<char>> = Vec::new();
    let mut i: usize = 0;
    while i < v.len()
        invariant
            i <= v@.len(),
            views(out@) == non_empty(views(v@).subrange(0, i as int)),
        decreases v@.len() - i,
    {
        proof {
            assert(views(v@).subrange(0, i + 1).drop_last() =~= views(v@).subrange(0, i as int));
        }
        if v[i].len() > 0 {
            let ghost before = views(out@);
            out.push(slice_of(v[i].as_slice(), 0, v[i].len()));
            proof {
                assert(v@[i as int]@.subrange(0, v@[i as int]@.len() as int) =~= v@[i as int]@);
                assert(views(out@) =~= before.push(v@[i as int]@));
            }
        }
        i = i + 1;
    }
    assert(views(v@).subrange(0, i as int) =~= views(v@));
    out
}

fn one_char(c: char) -> (v: Vec<char>)
    ensures
        v@ == seq![c],
{
    let mut v: Vec<char> = Vec::new();
    v.push(c);
    assert(v@ =~= seq![c]);
    v
}

fn tidy_line(l: &[char]) -> (v: Vec<char>)
    ensures
        v@ == tidy(l@),
{
    let w = split_words(l);
    let sp = one_char(' ');
    join(&w, sp.as_slice())
}

fn paragraph_of(b: &[char]) -> (v: Vec<char>)
    ensures
        v@ == paragraph(b@),
{
    let ls = split_chars(b, '\n');
    let mut t: Vec<Vec<char>> = Vec::new();
    let mut i: usize = 0;
    while i < ls.len()
        invariant
            i <= ls@.len(),
            views(t@) == views(ls@).subrange(0, i as int).map_values(|l: Seq<char>| tidy(l)),
        decreases ls@.len() - i,
    {
        let ghost before = views(t@);
        t.push(tidy_line(ls[i].as_slice()));
        proof {
            assert(views(t@) =~= before.push(tidy(views(ls@)[i as int])));
            assert(views(t@) =~= views(ls@).subrange(0, i + 1).map_values(|l: Seq<char>| tidy(l)));
        }
        i = i + 1;
    }
    assert(views(ls@).subrange(0, i as int) =~= views(ls@));
    let kept = keep_non_empty(&t);
    let sp = one_char(' ');
    join(&kept, sp.as_slice())
}

/// The markup as plain text: headings and paragraphs on their own lines.
pub fn plain_text(markup: &str) -> (s: String)
    ensures
        s@ == spec_plain_text(markup@),
{
    let m = chars_of(markup);
    let u = untag(m.as_slice());
    let bs = split_blocks(u.as_slice());
    let mut ps: Vec<Vec<char>> = Vec::new();
    let mut i: usize = 0;
    while i < bs.len()
        invariant
            i <= bs@.len(),
            views(ps@) == views(bs@).subrange(0, i as int).map_values(|b: Seq<char>| paragraph(b)),
        decreases bs@.len() - i,
    {
        let ghost before = views(ps@);
        ps.push(paragraph_of(bs[i].as_slice()));
        proof {
            assert(views(ps@) =~= before.push(paragraph(views(bs@)[i as int])));
            assert(views(ps@) =~= views(bs@).subrange(0, i + 1).map_values(|b: Seq<char>| paragraph(b)));
        }
        i = i + 1;
    }
    assert(views(bs@).subrange(0, i as int) =~= views(bs@));
    let kept = keep_non_empty(&ps);
    let mut nn = one_char('\n');
    nn.push('\n');
    assert(nn@ =~= seq!['\n', '\n']);
    let out = join(&kept, nn.as_slice());
    string_of(out.as_slice())
}


/// A page of a mission's text, ready to show.
#[derive(Clone, Debug, PartialEq, Eq)]
pub struct Page {
    /// The markup as plain text: headings and paragraphs on their own lines.
    pub text: String,
    pub buttons: Vec<Button>,
}

/// `$Button=label,action,arg`: `Tell` opens the page `arg`, `DoNothing`
/// closes the text, `MissionBegin` starts the mission `arg`, `LeaveBattle`
/// leaves.
#[derive(Clone, Debug, PartialEq, Eq)]
pub struct Button {
    pub label: String,
    pub action: String,
    pub arg: String,
}

pub type Text = Seq<char>;

/// A page as its plain text and its buttons' label, action and argument.
pub open spec fn page_view(p: Page) -> (Text, Seq<(Text, Text, Text)>) {
    (p.text@, p.buttons@.map_values(|b: Button| (b.label@, b.action@, b.arg@)))
}

/// Up to three comma-separated parts, the last taking the rest, as
/// `splitn(3, ',')` gives them; missing parts are empty.
pub open spec fn three_parts(rest: Text) -> (Text, Text, Text) {
    match find_from(rest, ',', 0) {
        None => (rest, Seq::empty(), Seq::empty()),
        Some(i) => match find_from(rest, ',', i + 1) {
            None => (rest.subrange(0, i), rest.subrange(i + 1, rest.len() as int), Seq::empty()),
            Some(j) => (rest.subrange(0, i), rest.subrange(i + 1, j), rest.subrange(j + 1, rest.len() as int)),
        },
    }
}

pub open spec fn button_prefix(upper: bool) -> Text {
    if upper { "$Button="@ } else { "$button="@ }
}

/// What a page's lines give so far: the markup and the buttons.
pub open spec fn page_lines(ls: Seq<Text>) -> (Text, Seq<(Text, Text, Text)>)
    decreases ls.len(),
{
    if ls.len() == 0 {
        (Seq::empty(), Seq::empty())
    } else {
        let (markup, buttons) = page_lines(ls.drop_last());
        let line = ls.last();
        let t = trim(line, Trim::Ws);
        if starts_with(t, button_prefix(true)) || starts_with(t, button_prefix(false)) {
            let (a, b, c) = three_parts(t.subrange(8, t.len() as int));
            (markup, buttons.push((trim(a, Trim::Ws), trim(b, Trim::Ws), trim(c, Trim::Ws))))
        } else if starts_with(t, seq!['$']) || starts_with(t, seq!['<', '$']) {
            (markup, buttons)
        } else {
            (markup + line + seq!['\n'], buttons)
        }
    }
}

/// The page a section body makes.
pub open spec fn spec_page(body: Text) -> (Text, Seq<(Text, Text, Text)>) {
    let (markup, buttons) = page_lines(lines_of(body));
    (spec_plain_text(markup), buttons)
}

fn text_of(s: &str) -> (v: Vec<char>)
    ensures
        v@ == s@,
{
    chars_of(s)
}

fn parts3(rest: &[char]) -> (r: (Vec<char>, Vec<char>, Vec<char>))
    ensures
        (r.0@, r.1@, r.2@) == three_parts(rest@),
{
    let n = rest.len();
    match find_char(rest, ',', 0) {
        None => (slice_of(rest, 0, n), Vec::new(), Vec::new()),
        Some(i) => match find_char(rest, ',', i + 1) {
            None => (slice_of(rest, 0, i), slice_of(rest, i + 1, n), Vec::new()),
            Some(j) => (slice_of(rest, 0, i), slice_of(rest, i + 1, j), slice_of(rest, j + 1, n)),
        },
    }
}

fn page_of(body: &[char]) -> (p: Page)
    ensures
        page_view(p) == spec_page(body@),
{
    let ls = lines(body);
    let up = text_of("$Button=");
    let low = text_of("$button=");
    let dollar = one_char('$');
    let mut lt = one_char('<');
    lt.push('$');
    proof {
        assert(lt@ =~= seq!['<', '$']);
        reveal_strlit("$Button=");
        reveal_strlit("$button=");
    }
    let mut markup: Vec<char> = Vec::new();
    let mut buttons: Vec<Button> = Vec::new();
    let mut i: usize = 0;
    while i < ls.len()
        invariant
            i <= ls@.len(),
            up@ == button_prefix(true),
            low@ == button_prefix(false),
            up@.len() == 8 && low@.len() == 8,
            dollar@ == seq!['$'],
            lt@ == seq!['<', '$'],
            (markup@, buttons@.map_values(|b: Button| (b.label@, b.action@, b.arg@))) == page_lines(views(ls@).subrange(0, i as int)),
        decreases ls@.len() - i,
    {
        let line = &ls[i];
        proof {
            assert(views(ls@).subrange(0, i + 1).drop_last() =~= views(ls@).subrange(0, i as int));
            assert(views(ls@)[i as int] == line@);
        }
        let t = trimmed(line.as_slice(), Trim::Ws, true, true);
        if has_prefix(t.as_slice(), up.as_slice()) || has_prefix(t.as_slice(), low.as_slice()) {
            let rest = slice_of(t.as_slice(), 8, t.len());
            let (a, b, c) = parts3(rest.as_slice());
            let label = string_of(trimmed(a.as_slice(), Trim::Ws, true, true).as_slice());
            let action = string_of(trimmed(b.as_slice(), Trim::Ws, true, true).as_slice());
            let arg = string_of(trimmed(c.as_slice(), Trim::Ws, true, true).as_slice());
            let ghost before = buttons@.map_values(|b: Button| (b.label@, b.action@, b.arg@));
            buttons.push(Button { label, action, arg });
            proof {
                assert(buttons@.map_values(|b: Button| (b.label@, b.action@, b.arg@)) =~= before.push((label@, action@, arg@)));
            }
        } else if has_prefix(t.as_slice(), dollar.as_slice()) || has_prefix(t.as_slice(), lt.as_slice()) {
        } else {
            append_chars(&mut markup, line.as_slice());
            markup.push('\n');
            proof {
                assert(markup@ =~= page_lines(views(ls@).subrange(0, i as int)).0 + line@ + seq!['\n']);
            }
        }
        i = i + 1;
    }
    assert(views(ls@).subrange(0, i as int) =~= lines_of(body@));
    let ms = string_of(markup.as_slice());
    Page { text: plain_text(ms.as_str()), buttons }
}

#[derive(Clone, Debug, PartialEq, Eq)]
pub struct Mission {
    /// Header keys lower-cased, values with quotes stripped; each key once.
    pub header: Vec<(String, String)>,
    /// Every section after the header: its name line lower-cased, as
    /// written (`[a.]`, `[succeeded][badteamdead]`), and its body.
    pub sections: Vec<(String, String)>,
}

pub type Pairs = Seq<(Text, Text)>;

pub open spec fn pairs_view(v: Seq<(String, String)>) -> Pairs {
    v.map_values(|p: (String, String)| (p.0@, p.1@))
}

/// The first entry at or after `i` whose key is `k`.
pub open spec fn find_key(h: Pairs, k: Text, i: int) -> Option<int>
    decreases h.len() - i,
{
    if i < 0 || i >= h.len() {
        None
    } else if h[i].0 == k {
        Some(i)
    } else {
        find_key(h, k, i + 1)
    }
}

/// `h` with `k` set to `v`: in place where the key is, else added at the end.
pub open spec fn put(h: Pairs, k: Text, v: Text) -> Pairs {
    match find_key(h, k, 0) {
        Some(i) => h.update(i, (k, v)),
        None => h.push((k, v)),
    }
}

/// What the mission parser has read so far.
pub struct MissionState {
    pub header: Pairs,
    pub sections: Pairs,
    pub in_header: bool,
    pub seen_header: bool,
}

/// A header value as written after `=`: trimmed, a trailing `;` and then
/// quotes taken off.
pub open spec fn header_value(v: Text) -> Text {
    trim(trim(trim_end(trim(v, Trim::Ws), Trim::Char(';')), Trim::Ws), Trim::Char('"'))
}

/// One line of a mission text read into the state.
pub open spec fn mission_step(st: MissionState, raw: Text) -> MissionState {
    let line = trim(raw, Trim::Ws);
    if starts_with(line, seq!['[']) && ends_with(line, seq![']']) {
        let in_header = !st.seen_header && eq_ignore_case(line, "[header]"@);
        if in_header {
            MissionState { in_header: true, seen_header: true, ..st }
        } else {
            MissionState { in_header: false, sections: st.sections.push((lower_all(line), Seq::empty())), ..st }
        }
    } else if st.in_header {
        if line.len() == 0 || starts_with(line, seq!['/', '/']) {
            st
        } else {
            match find_from(line, '=', 0) {
                Some(i) => MissionState {
                    header: put(st.header, lower_all(trim(line.subrange(0, i), Trim::Ws)),
                        header_value(line.subrange(i + 1, line.len() as int))),
                    ..st
                },
                None => st,
            }
        }
    } else if st.sections.len() > 0 {
        let last = st.sections.last();
        MissionState {
            sections: st.sections.update(st.sections.len() - 1, (last.0, last.1 + trim_end(raw, Trim::Char('\r')) + seq!['\n'])),
            ..st
        }
    } else {
        st
    }
}

pub open spec fn mission_lines(ls: Seq<Text>) -> MissionState
    decreases ls.len(),
{
    if ls.len() == 0 {
        MissionState { header: Seq::empty(), sections: Seq::empty(), in_header: false, seen_header: false }
    } else {
        mission_step(mission_lines(ls.drop_last()), ls.last())
    }
}

/// The header and sections of a mission text.
pub open spec fn spec_mission(text: Text) -> (Pairs, Pairs) {
    let st = mission_lines(lines_of(text));
    (st.header, st.sections)
}

pub open spec fn cview(v: Seq<(Vec<char>, Vec<char>)>) -> Pairs {
    v.map_values(|p: (Vec<char>, Vec<char>)| (p.0@, p.1@))
}

fn find_key_in(h: &Vec<(Vec<char>, Vec<char>)>, k: &Vec<char>) -> (r: Option<usize>)
    ensures
        r == (match find_key(cview(h@), k@, 0) { Some(i) => Some(i as usize), None => None::<usize> }),
        r matches Some(i) ==> find_key(cview(h@), k@, 0) == Some(i as int) && i < h@.len(),
{
    let mut i: usize = 0;
    while i < h.len()
        invariant
            i <= h@.len(),
            find_key(cview(h@), k@, 0) == find_key(cview(h@), k@, i as int),
        decreases h@.len() - i,
    {
        if chars_equal(&h[i].0, k) {
            return Some(i);
        }
        i = i + 1;
    }
    None
}

fn copy_chars(a: &Vec<char>) -> (v: Vec<char>)
    ensures
        v@ == a@,
{
    slice_of(a.as_slice(), 0, a.len())
}

fn to_strings(v: &Vec<(Vec<char>, Vec<char>)>) -> (out: Vec<(String, String)>)
    ensures
        pairs_view(out@) == cview(v@),
{
    let mut out: Vec<(String, String)> = Vec::new();
    let mut i: usize = 0;
    while i < v.len()
        invariant
            i <= v@.len(),
            pairs_view(out@) == cview(v@).subrange(0, i as int),
        decreases v@.len() - i,
    {
        let ghost before = pairs_view(out@);
        out.push((string_of(v[i].0.as_slice()), string_of(v[i].1.as_slice())));
        proof {
            assert(pairs_view(out@) =~= before.push(cview(v@)[i as int]));
        }
        i = i + 1;
    }
    assert(cview(v@).subrange(0, i as int) =~= cview(v@));
    out
}

/// The value of `key`, looked up lower-cased.
pub open spec fn spec_get(h: Pairs, key: Text) -> Option<Text> {
    match find_key(h, lower_all(key), 0) {
        Some(i) => Some(h[i].1),
        None => None,
    }
}

/// The non-empty members of a `;`-separated list, trimmed and lower-cased.
pub open spec fn tech_list(v: Text) -> Seq<Text> {
    non_empty(split_on(v, ';').map_values(|p: Text| lower_all(trim(p, Trim::Ws))))
}

pub open spec fn spec_techs(h: Pairs, key: Text) -> Seq<Text> {
    match spec_get(h, key) {
        Some(v) => tech_list(v),
        None => Seq::empty(),
    }
}

/// The key of computer player `n`'s tech list.
pub open spec fn ai_key(n: nat) -> Text {
    seq!['a', 'i'] + decimal(n) + seq!['t', 'e', 'c', 'h']
}

/// A section name that is a lesson or briefing page: a letter, digits, a
/// full stop.
pub open spec fn is_page_name(n: Text) -> bool {
    &&& n.len() >= 2
    &&& (('a' <= n[0] && n[0] <= 'z') || ('A' <= n[0] && n[0] <= 'Z'))
    &&& n.last() == '.'
    &&& all_digits(n.subrange(1, n.len() - 1))
}

/// The page names among `sections`, brackets trimmed, in order.
pub open spec fn page_names(sections: Pairs) -> Seq<Text>
    decreases sections.len(),
{
    if sections.len() == 0 {
        Seq::empty()
    } else {
        let n = trim(sections.last().0, Trim::Brackets);
        if is_page_name(n) { page_names(sections.drop_last()).push(n) } else { page_names(sections.drop_last()) }
    }
}

/// The first section at or after `i` named `want`.
pub open spec fn find_section(s: Pairs, want: Text, i: int) -> Option<int>
    decreases s.len() - i,
{
    if i < 0 || i >= s.len() {
        None
    } else if s[i].0 == want {
        Some(i)
    } else {
        find_section(s, want, i + 1)
    }
}

/// The first section at or after `i` whose name holds `tag`.
pub open spec fn find_tagged(s: Pairs, tag: Text, i: int) -> Option<int>
    decreases s.len() - i,
{
    if i < 0 || i >= s.len() {
        None
    } else if contains_seq(s[i].0, tag) {
        Some(i)
    } else {
        find_tagged(s, tag, i + 1)
    }
}

/// The section name a page name asks for: trimmed, brackets off,
/// lower-cased and bracketed again.
pub open spec fn wanted_section(name: Text) -> Text {
    seq!['['] + lower_all(trim(trim(name, Trim::Ws), Trim::Brackets)) + seq![']']
}

pub open spec fn result_tag(succeeded: bool) -> Text {
    if succeeded { "[succeeded]"@ } else { "[failed]"@ }
}

impl Mission {
    /// Read a mission text line by line.
    pub fn parse(text: &str) -> (m: Mission)
        ensures
            (pairs_view(m.header@), pairs_view(m.sections@)) == spec_mission(text@),
    {
        let t = chars_of(text);
        let ls = lines(t.as_slice());
        let hdr = text_of("[header]");
        let mut header: Vec<(Vec<char>, Vec<char>)> = Vec::new();
        let mut sections: Vec<(Vec<char>, Vec<char>)> = Vec::new();
        let mut in_header = false;
        let mut seen_header = false;
        let mut i: usize = 0;
        proof {
            assert(cview(header@) =~= Seq::<(Text, Text)>::empty());
            assert(cview(sections@) =~= Seq::<(Text, Text)>::empty());
            assert(views(ls@).subrange(0, 0) =~= Seq::<Text>::empty());
        }
        while i < ls.len()
            invariant
                i <= ls@.len(),
                views(ls@) == lines_of(text@),
                hdr@ == "[header]"@,
                mission_lines(views(ls@).subrange(0, i as int)) == (MissionState {
                    header: cview(header@), sections: cview(sections@), in_header, seen_header }),
            decreases ls@.len() - i,
        {
            let raw = &ls[i];
            proof {
                assert(views(ls@).subrange(0, i + 1).drop_last() =~= views(ls@).subrange(0, i as int));
                assert(views(ls@)[i as int] == raw@);
            }
            let line = trimmed(raw.as_slice(), Trim::Ws, true, true);
            let n = line.len();
            let bracketed = n > 0 && line[0] == '[' && line[n - 1] == ']';
            proof {
                if n > 0 {
                    assert(starts_with(line@, seq!['[']) <==> line@[0] == '[') by {
                        if line@[0] == '[' { assert(line@.subrange(0, 1) =~= seq!['[']); }
                        if starts_with(line@, seq!['[']) { assert(line@.subrange(0, 1)[0] == '['); }
                    }
                    assert(ends_with(line@, seq![']']) <==> line@[n - 1] == ']') by {
                        if line@[n - 1] == ']' { assert(line@.subrange(n - 1, n as int) =~= seq![']']); }
                        if ends_with(line@, seq![']']) { assert(line@.subrange(n - 1, n as int)[0] == ']'); }
                    }
                }
            }
            if bracketed {
                let is_header = !seen_header && eq_ignore_ascii_case(&line, &hdr);
                if is_header {
                    in_header = true;
                    seen_header = true;
                } else {
                    in_header = false;
                    let ghost before = cview(sections@);
                    sections.push((lowercase(line.as_slice()), Vec::new()));
                    proof { assert(cview(sections@) =~= before.push((lower_all(line@), Seq::empty()))); }
                }
            } else if in_header {
                let comment = n >= 2 && line[0] == '/' && line[1] == '/';
                proof {
                    assert(comment <==> starts_with(line@, seq!['/', '/'])) by {
                        if comment { assert(line@.subrange(0, 2) =~= seq!['/', '/']); }
                        if starts_with(line@, seq!['/', '/']) {
                            assert(line@.subrange(0, 2)[0] == '/' && line@.subrange(0, 2)[1] == '/');
                        }
                    }
                }
                if n == 0 || comment {
                } else {
                    match find_char(line.as_slice(), '=', 0) {
                        Some(e) => {
                            let k0 = slice_of(line.as_slice(), 0, e);
                            let key = lowercase(trimmed(k0.as_slice(), Trim::Ws, true, true).as_slice());
                            let v0 = slice_of(line.as_slice(), e + 1, n);
                            let v1 = trimmed(v0.as_slice(), Trim::Ws, true, true);
                            let v2 = trimmed(v1.as_slice(), Trim::Char(';'), false, true);
                            let v3 = trimmed(v2.as_slice(), Trim::Ws, true, true);
                            let val = trimmed(v3.as_slice(), Trim::Char('"'), true, true);
                            let ghost before = cview(header@);
                            match find_key_in(&header, &key) {
                                Some(j) => {
                                    header.set(j, (key, val));
                                    proof { assert(cview(header@) =~= before.update(j as int, (key@, val@))); }
                                }
                                None => {
                                    header.push((key, val));
                                    proof { assert(cview(header@) =~= before.push((key@, val@))); }
                                }
                            }
                        }
                        None => {}
                    }
                }
            } else if sections.len() > 0 {
                let last = sections.len() - 1;
                let ghost before = cview(sections@);
                let name = copy_chars(&sections[last].0);
                let mut body = copy_chars(&sections[last].1);
                let piece = trimmed(raw.as_slice(), Trim::Char('\r'), false, true);
                append_chars(&mut body, piece.as_slice());
                body.push('\n');
                let ghost b = body@;
                sections.set(last, (name, body));
                proof {
                    assert(b =~= before.last().1 + trim_end(raw@, Trim::Char('\r')) + seq!['\n']);
                    assert(cview(sections@) =~= before.update(last as int, (before.last().0, b)));
                }
            }
            i = i + 1;
        }
        assert(views(ls@).subrange(0, i as int) =~= views(ls@));
        Mission { header: to_strings(&header), sections: to_strings(&sections) }
    }

    /// The value of `key` in the header, looked up lower-cased.
    pub fn get(&self, key: &str) -> (r: Option<&str>)
        ensures
            match r {
                Some(v) => spec_get(pairs_view(self.header@), key@) == Some(v@),
                None => spec_get(pairs_view(self.header@), key@) is None,
            },
    {
        let k = lowercase(chars_of(key).as_slice());
        let mut i: usize = 0;
        while i < self.header.len()
            invariant
                i <= self.header@.len(),
                k@ == lower_all(key@),
                find_key(pairs_view(self.header@), k@, 0) == find_key(pairs_view(self.header@), k@, i as int),
            decreases self.header@.len() - i,
        {
            let hk = chars_of(self.header[i].0.as_str());
            if chars_equal(&hk, &k) {
                proof { assert(pairs_view(self.header@)[i as int].0 == k@); }
                return Some(self.header[i].1.as_str());
            }
            proof { assert(pairs_view(self.header@)[i as int].0 != k@); }
            i = i + 1;
        }
        None
    }

    /// The header value of `key` as a number.
    pub fn integer(&self, key: &str) -> (r: Option<i64>)
        ensures
            r == (match spec_get(pairs_view(self.header@), key@) { Some(v) => parse_int(trim(v, Trim::Ws)), None => None::<i64> }),
    {
        match self.get(key) {
            None => None,
            Some(v) => {
                let t = trimmed(chars_of(v).as_slice(), Trim::Ws, true, true);
                parse_i64(t.as_slice())
            }
        }
    }

    /// Type stems (lower-cased) of a `;`-separated tech list such as `myTech`.
    pub fn techs(&self, key: &str) -> (v: Vec<String>)
        ensures
            strings_view(v@) == spec_techs(pairs_view(self.header@), key@),
    {
        match self.get(key) {
            None => {
                let v: Vec<String> = Vec::new();
                assert(strings_view(v@) =~= Seq::<Text>::empty());
                v
            }
            Some(val) => {
                let parts = split_chars(chars_of(val).as_slice(), ';');
                let mut tl: Vec<Vec<char>> = Vec::new();
                let mut i: usize = 0;
                while i < parts.len()
                    invariant
                        i <= parts@.len(),
                        views(tl@) == views(parts@).subrange(0, i as int).map_values(|p: Text| lower_all(trim(p, Trim::Ws))),
                    decreases parts@.len() - i,
                {
                    let ghost before = views(tl@);
                    tl.push(lowercase(trimmed(parts[i].as_slice(), Trim::Ws, true, true).as_slice()));
                    proof {
                        assert(views(tl@) =~= before.push(lower_all(trim(views(parts@)[i as int], Trim::Ws))));
                        assert(views(tl@) =~= views(parts@).subrange(0, i + 1).map_values(|p: Text| lower_all(trim(p, Trim::Ws))));
                    }
                    i = i + 1;
                }
                assert(views(parts@).subrange(0, i as int) =~= views(parts@));
                let kept = keep_non_empty(&tl);
                let mut out: Vec<String> = Vec::new();
                let mut j: usize = 0;
                while j < kept.len()
                    invariant
                        j <= kept@.len(),
                        strings_view(out@) == views(kept@).subrange(0, j as int),
                    decreases kept@.len() - j,
                {
                    let ghost before = strings_view(out@);
                    out.push(string_of(kept[j].as_slice()));
                    proof { assert(strings_view(out@) =~= before.push(views(kept@)[j as int])); }
                    j = j + 1;
                }
                assert(views(kept@).subrange(0, j as int) =~= views(kept@));
                out
            }
        }
    }

    /// The tech list of computer player `n` (1-based): `ai<n>Tech`, or the
    /// plain `aiTech` when that is empty.
    pub fn ai_techs(&self, n: usize) -> (v: Vec<String>)
        ensures
            strings_view(v@) == (if spec_techs(pairs_view(self.header@), ai_key(n as nat)).len() > 0 {
                spec_techs(pairs_view(self.header@), ai_key(n as nat))
            } else {
                spec_techs(pairs_view(self.header@), "aitech"@)
            }),
    {
        let mut k: Vec<char> = Vec::new();
        k.push('a');
        k.push('i');
        push_decimal(&mut k, n);
        k.push('t');
        k.push('e');
        k.push('c');
        k.push('h');
        assert(k@ =~= ai_key(n as nat));
        let ks = string_of(k.as_slice());
        let numbered = self.techs(ks.as_str());
        if numbered.len() > 0 {
            return numbered;
        }
        self.techs("aitech")
    }

    /// The lesson and briefing pages in file order: sections named by a
    /// letter, an optional number and a full stop.
    pub fn pages(&self) -> (v: Vec<String>)
        ensures
            strings_view(v@) == page_names(pairs_view(self.sections@)),
    {
        let mut v: Vec<String> = Vec::new();
        let mut i: usize = 0;
        while i < self.sections.len()
            invariant
                i <= self.sections@.len(),
                strings_view(v@) == page_names(pairs_view(self.sections@).subrange(0, i as int)),
            decreases self.sections@.len() - i,
        {
            proof {
                assert(pairs_view(self.sections@).subrange(0, i + 1).drop_last() =~= pairs_view(self.sections@).subrange(0, i as int));
            }
            let n = trimmed(chars_of(self.sections[i].0.as_str()).as_slice(), Trim::Brackets, true, true);
            let len = n.len();
            let mut ok = len >= 2 && ((n[0] >= 'a' && n[0] <= 'z') || (n[0] >= 'A' && n[0] <= 'Z')) && n[len - 1] == '.';
            if ok {
                let mut j: usize = 1;
                while j + 1 < len
                    invariant
                        len == n@.len() >= 2,
                        1 <= j <= len - 1,
                        ok == all_digits(n@.subrange(1, j as int)),
                    decreases len - j,
                {
                    let ghost was = ok;
                    proof { assert(n@.subrange(1, j + 1) =~= n@.subrange(1, j as int).push(n@[j as int])); }
                    if n[j] < '0' || n[j] > '9' {
                        ok = false;
                    }
                    proof {
                        let a = n@.subrange(1, j as int);
                        let b = n@.subrange(1, j + 1);
                        if ok {
                            assert forall|q: int| 0 <= q < b.len() implies crate::strs::is_digit(#[trigger] b[q]) by {
                                if q < a.len() { assert(b[q] == a[q]); }
                            }
                        } else if was {
                            assert(!crate::strs::is_digit(b[b.len() - 1]));
                        } else {
                            let q = choose|q: int| 0 <= q < a.len() && !crate::strs::is_digit(#[trigger] a[q]);
                            assert(b[q] == a[q]);
                        }
                    }
                    j = j + 1;
                }
            }
            proof {
                assert(pairs_view(self.sections@).subrange(0, i + 1).last() == pairs_view(self.sections@)[i as int]);
            }
            if ok {
                let ghost before = strings_view(v@);
                let s = string_of(n.as_slice());
                v.push(s);
                proof { assert(strings_view(v@) =~= before.push(n@)); }
            }
            i = i + 1;
        }
        assert(pairs_view(self.sections@).subrange(0, i as int) =~= pairs_view(self.sections@));
        v
    }
}

/// The text of archive entry `i`.
pub open spec fn entry_text(a: Archive, i: int) -> Text {
    latin1(spec_xor(a.stored(i)))
}

/// The archive holds an entry whose base name is `name`, ignoring case.
pub open spec fn has_entry(a: Archive, name: Text) -> bool {
    exists|j: int| 0 <= j < a.entry_count() && eq_ignore_case(#[trigger] spec_basename(a.entry_name(j)), name)
}

/// `i` is the first entry whose base name is `name`.
pub open spec fn first_entry(a: Archive, name: Text, i: int) -> bool {
    &&& 0 <= i < a.entry_count()
    &&& eq_ignore_case(spec_basename(a.entry_name(i)), name)
    &&& forall|j: int| 0 <= j < i ==> !eq_ignore_case(#[trigger] spec_basename(a.entry_name(j)), name)
}

/// `s` without `suffix` at its end, if it ends so.
pub open spec fn strip_suffix(s: Text, suffix: Text) -> Option<Text> {
    if ends_with(s, suffix) { Some(s.subrange(0, s.len() - suffix.len())) } else { None }
}

/// The names a mission's scenario may go by, in the order they are tried:
/// the header's `loadFort`, the mission's own name, that name without
/// `easy` and without `hard`; all lower-cased.
pub open spec fn fort_candidates(h: Pairs, stem: Text) -> Seq<Text> {
    let s = lower_all(stem);
    let a: Seq<Text> = match spec_get(h, "loadfort"@) { Some(f) => seq![lower_all(f)], None => Seq::empty() };
    let b = a.push(s);
    let c = match strip_suffix(s, "easy"@) { Some(x) => b.push(x), None => b };
    match strip_suffix(s, "hard"@) { Some(x) => c.push(x), None => c }
}

/// The first of `cands` the archive has a `.fort` for.
pub open spec fn first_fort(a: Archive, cands: Seq<Text>) -> Option<Text>
    decreases cands.len(),
{
    if cands.len() == 0 {
        None
    } else if has_entry(a, cands[0] + ".fort"@) {
        Some(cands[0])
    } else {
        first_fort(a, cands.drop_first())
    }
}

fn concat(a: &[char], b: &[char]) -> (v: Vec<char>)
    ensures
        v@ == a@ + b@,
{
    let mut v = slice_of(a, 0, a.len());
    assert(a@.subrange(0, a@.len() as int) =~= a@);
    append_chars(&mut v, b);
    v
}

fn ends_with_chars(s: &[char], suffix: &str) -> (r: Option<Vec<char>>)
    ensures
        match r {
            Some(v) => strip_suffix(s@, suffix@) == Some(v@),
            None => strip_suffix(s@, suffix@) is None,
        },
{
    let t = chars_of(suffix);
    if has_suffix(s, t.as_slice()) {
        Some(slice_of(s, 0, s.len() - t.len()))
    } else {
        None
    }
}

fn has_fort(archive: &Archive, c: &Vec<char>) -> (r: bool)
    ensures
        r == has_entry(*archive, c@ + ".fort"@),
{
    let name = concat(c.as_slice(), chars_of(".fort").as_slice());
    let ns = string_of(name.as_slice());
    match archive.find(ns.as_str()) {
        Some(i) => true,
        None => {
            assert forall|j: int| 0 <= j < archive.entry_count() implies !eq_ignore_case(#[trigger] spec_basename(archive.entry_name(j)), c@ + ".fort"@) by {
                assert(name@ == c@ + ".fort"@);
            }
            false
        }
    }
}

impl Mission {
    /// The page named `name` (`A.`, `a1.`, with or without brackets): the
    /// first section of that name.
    pub fn page(&self, name: &str) -> (r: Option<Page>)
        ensures
            match find_section(pairs_view(self.sections@), wanted_section(name@), 0) {
                Some(i) => r matches Some(p) && page_view(p) == spec_page(pairs_view(self.sections@)[i].1),
                None => r is None,
            },
    {
        let t = trimmed(chars_of(name).as_slice(), Trim::Ws, true, true);
        let inner = lowercase(trimmed(t.as_slice(), Trim::Brackets, true, true).as_slice());
        let mut want = one_char('[');
        append_chars(&mut want, inner.as_slice());
        want.push(']');
        assert(want@ =~= wanted_section(name@));
        let mut i: usize = 0;
        while i < self.sections.len()
            invariant
                i <= self.sections@.len(),
                want@ == wanted_section(name@),
                find_section(pairs_view(self.sections@), want@, 0) == find_section(pairs_view(self.sections@), want@, i as int),
            decreases self.sections@.len() - i,
        {
            let n = chars_of(self.sections[i].0.as_str());
            if chars_equal(&n, &want) {
                let body = chars_of(self.sections[i].1.as_str());
                return Some(page_of(body.as_slice()));
            }
            i = i + 1;
        }
        None
    }

    /// What the mission says when it is won or lost: the first section
    /// tagged `[Succeeded]` or `[Failed]`.
    pub fn result(&self, succeeded: bool) -> (r: Option<Page>)
        ensures
            match find_tagged(pairs_view(self.sections@), result_tag(succeeded), 0) {
                Some(i) => r matches Some(p) && page_view(p) == spec_page(pairs_view(self.sections@)[i].1),
                None => r is None,
            },
    {
        let tag = if succeeded { chars_of("[succeeded]") } else { chars_of("[failed]") };
        let mut i: usize = 0;
        while i < self.sections.len()
            invariant
                i <= self.sections@.len(),
                tag@ == result_tag(succeeded),
                find_tagged(pairs_view(self.sections@), tag@, 0) == find_tagged(pairs_view(self.sections@), tag@, i as int),
            decreases self.sections@.len() - i,
        {
            let n = chars_of(self.sections[i].0.as_str());
            if contains_chars(n.as_slice(), tag.as_slice()) {
                let body = chars_of(self.sections[i].1.as_str());
                return Some(page_of(body.as_slice()));
            }
            i = i + 1;
        }
        None
    }

    /// The mission text of that name (`tutorial1`, `thewarbegins`): the
    /// first entry called `<stem>.english`.
    pub fn load(archive: &Archive, stem: &str) -> (r: Option<Mission>)
        requires
            archive.wf(),
        ensures
            match r {
                Some(m) => exists|i: int| first_entry(*archive, stem@ + ".english"@, i)
                    && (pairs_view(m.header@), pairs_view(m.sections@)) == spec_mission(entry_text(*archive, i)),
                None => !has_entry(*archive, stem@ + ".english"@),
            },
    {
        let name = concat(chars_of(stem).as_slice(), chars_of(".english").as_slice());
        let ns = string_of(name.as_slice());
        match archive.find(ns.as_str()) {
            Some(i) => {
                let text = archive.read_text(i);
                let m = Mission::parse(text.as_str());
                assert(first_entry(*archive, stem@ + ".english"@, i as int));
                Some(m)
            }
            None => {
                assert forall|j: int| 0 <= j < archive.entry_count() implies !eq_ignore_case(#[trigger] spec_basename(archive.entry_name(j)), stem@ + ".english"@) by {
                    assert(name@ == stem@ + ".english"@);
                }
                None
            }
        }
    }

    /// The scenario this mission plays on: the header's `loadFort`, else
    /// the mission's own name, else that name without its difficulty; the
    /// first the archive has a `.fort` for.
    pub fn fort_name(&self, stem: &str, archive: &Archive) -> (r: Option<String>)
        ensures
            match r {
                Some(s) => first_fort(*archive, fort_candidates(pairs_view(self.header@), stem@)) == Some(s@),
                None => first_fort(*archive, fort_candidates(pairs_view(self.header@), stem@)) is None,
            },
    {
        let s = lowercase(chars_of(stem).as_slice());
        let mut cands: Vec<Vec<char>> = Vec::new();
        match self.get("loadfort") {
            Some(f) => { cands.push(lowercase(chars_of(f).as_slice())); }
            None => {}
        }
        cands.push(copy_chars(&s));
        match ends_with_chars(s.as_slice(), "easy") {
            Some(x) => { cands.push(x); }
            None => {}
        }
        match ends_with_chars(s.as_slice(), "hard") {
            Some(x) => { cands.push(x); }
            None => {}
        }
        let ghost all = fort_candidates(pairs_view(self.header@), stem@);
        assert(views(cands@) =~= all);
        assert(all.subrange(0, all.len() as int) =~= all);
        let mut i: usize = 0;
        while i < cands.len()
            invariant
                i <= cands@.len(),
                views(cands@) == all,
                all == fort_candidates(pairs_view(self.header@), stem@),
                first_fort(*archive, all) == first_fort(*archive, all.subrange(i as int, all.len() as int)),
            decreases cands@.len() - i,
        {
            proof {
                let rest = all.subrange(i as int, all.len() as int);
                assert(rest[0] == cands@[i as int]@);
                assert(rest.drop_first() =~= all.subrange(i + 1, all.len() as int));
            }
            if has_fort(archive, &cands[i]) {
                proof {
                    let rest = all.subrange(i as int, all.len() as int);
                    assert(has_entry(*archive, rest[0] + ".fort"@));
                    assert(first_fort(*archive, rest) == Some(rest[0]));
                }
                let out = string_of(cands[i].as_slice());
                assert(out@ == all[i as int]);
                return Some(out);
            }
            i = i + 1;
        }
        None
    }
}

pub open spec fn mission_view(m: Mission) -> (Pairs, Pairs) {
    (pairs_view(m.header@), pairs_view(m.sections@))
}

/// The mission texts from entry `i` on, looking for the scenario `want`:
/// the first whose header loads it, else the last named after it (or
/// `by_name` if none from here is).
pub open spec fn for_fort_from(a: Archive, want: Text, i: int, by_name: Option<(Pairs, Pairs)>) -> Option<(Pairs, Pairs)>
    decreases a.entry_count() - i,
{
    if i < 0 || i >= a.entry_count() {
        by_name
    } else if !eq_ignore_case(spec_extension(spec_basename(a.entry_name(i))), "english"@) {
        for_fort_from(a, want, i + 1, by_name)
    } else {
        let m = spec_mission(entry_text(a, i));
        if spec_get(m.0, "loadfort"@) matches Some(f) && eq_ignore_case(f, want) {
            Some(m)
        } else {
            let base = lower_all(spec_basename(a.entry_name(i)));
            let b = match strip_suffix(base, ".english"@) { Some(x) => x, None => base };
            for_fort_from(a, want, i + 1, if b == want { Some(m) } else { by_name })
        }
    }
}

impl Mission {
    /// Find the mission text for a scenario: the `.english` whose header
    /// loads that fort, else the last one sharing its name.
    pub fn for_fort(archive: &Archive, fort: &str) -> (r: Option<Mission>)
        requires
            archive.wf(),
        ensures
            match r {
                Some(m) => for_fort_from(*archive, lower_all(fort@), 0, None) == Some(mission_view(m)),
                None => for_fort_from(*archive, lower_all(fort@), 0, None) is None,
            },
    {
        let want = lowercase(chars_of(fort).as_slice());
        let english = chars_of("english");
        let mut by_name: Option<Mission> = None;
        let es = archive.entries();
        let mut i: usize = 0;
        while i < es.len()
            invariant
                archive.wf(),
                es@.len() == archive.entry_count(),
                forall|j: int| 0 <= j < es@.len() ==> #[trigger] es@[j].name@ == archive.entry_name(j),
                i <= es@.len(),
                want@ == lower_all(fort@),
                english@ == "english"@,
                for_fort_from(*archive, want@, 0, None) == for_fort_from(*archive, want@, i as int,
                    match by_name { Some(m) => Some(mission_view(m)), None => None }),
            decreases es@.len() - i,
        {
            let ext = chars_of(es[i].extension().as_str());
            if !eq_ignore_ascii_case(&ext, &english) {
                i = i + 1;
                continue;
            }
            let text = archive.read_text(i);
            let m = Mission::parse(text.as_str());
            let loads = match m.get("loadfort") {
                Some(f) => {
                    let fc = chars_of(f);
                    eq_ignore_ascii_case(&fc, &want)
                }
                None => false,
            };
            if loads {
                return Some(m);
            }
            let base = lowercase(chars_of(es[i].basename().as_str()).as_slice());
            let b = match ends_with_chars(base.as_slice(), ".english") {
                Some(x) => x,
                None => base,
            };
            if chars_equal(&b, &want) {
                by_name = Some(m);
            }
            i = i + 1;
        }
        by_name
    }
}
} // verus!
