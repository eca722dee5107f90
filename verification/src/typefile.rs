//! `*.type` files: NetStorm's unit and object definitions.
//!
//! ```text
//! typename sunwalker [client] [constructor]
//! typeflags walker shadow;
//! {
//!     description = "Golem";
//!     maxHitPoints = 50;
//! }
//! // NORTH
//! A00 : : "golem.gif" #64 : "s_golem.gif" #64;
//! ```
//!
//! Comments start with `//`. Statements end with `;` except the
//! `typename` line and the braces. A frame label is a run of letters (the
//! animation) followed by digits (the frame number). Each frame lists one
//! or more image references, `"file.gif" #index`; the second one, when
//! present, is the shadow. Property values are kept as written; reading
//! them as numbers is left to the caller.
use vstd::prelude::*;
use crate::strs::{
    all_digits, is_digit, lower_all, lowercase, find_char, find_char_last, find_from, find_last, has_prefix, is_ws, lines, lines_of, parse_i64, parse_int, parse_u32, parse_unsigned,
    slice_of, split_words, starts_with, trim, trim_start, trimmed, views, whitespace, words, Trim,
};
use crate::text::{chars_equal, chars_of, eq_ignore_case, push_all, str_eq, str_eq_ignore_case, string_of, strings_of, strings_view};

verus! {

#[derive(Debug, Clone, PartialEq, Eq)]
pub struct ImageRef {
    /// Image file name as written, e.g. `golem.gif`.
    pub file: String,
    /// Frame index inside that image.
    pub index: u32,
}

#[derive(Debug, Clone, PartialEq)]
pub struct FrameDef {
    /// Full label as written, e.g. `A05`.
    pub label: String,
    /// Letter part of the label: the animation name.
    pub animation: String,
    /// Digit part of the label.
    pub number: u32,
    /// Flags between the first two colons, e.g. `default`, `solid`, `dirt`.
    pub flags: Vec<String>,
    /// Image references in order; the second is the shadow when present.
    pub images: Vec<ImageRef>,
}

impl FrameDef {
    /// Whether the frame carries `flag`, ignoring ASCII case.
    pub fn has_flag(&self, flag: &str) -> (r: bool)
        ensures
            r == exists|i: int| 0 <= i < self.flags@.len() && eq_ignore_case(#[trigger] self.flags@[i]@, flag@),
    {
        let mut i: usize = 0;
        while i < self.flags.len()
            invariant
                i <= self.flags@.len(),
                forall|j: int| 0 <= j < i ==> !eq_ignore_case(#[trigger] self.flags@[j]@, flag@),
            decreases self.flags@.len() - i,
        {
            if str_eq_ignore_case(self.flags[i].as_str(), flag) {
                return true;
            }
            i = i + 1;
        }
        false
    }

    /// The frame's image.
    pub fn image(&self) -> (r: Option<&ImageRef>)
        ensures
            r == (if self.images@.len() > 0 { Some(&self.images@[0]) } else { None }),
    {
        if self.images.len() > 0 { Some(&self.images[0]) } else { None }
    }

    /// The frame's shadow.
    pub fn shadow(&self) -> (r: Option<&ImageRef>)
        ensures
            r == (if self.images@.len() > 1 { Some(&self.images@[1]) } else { None }),
    {
        if self.images.len() > 1 { Some(&self.images[1]) } else { None }
    }
}

#[derive(Debug, Clone, PartialEq, Eq)]
pub struct ParseError {
    pub line: usize,
    pub message: String,
}


/// The first `c` at or after `i` outside double quotes, `quoted` telling
/// whether `i` is inside them.
pub open spec fn find_unquoted(s: Seq<char>, c: char, i: int, quoted: bool) -> Option<int>
    decreases s.len() - i,
{
    if i < 0 || i >= s.len() {
        None
    } else if s[i] == '"' {
        find_unquoted(s, c, i + 1, !quoted)
    } else if s[i] == c && !quoted {
        Some(i)
    } else {
        find_unquoted(s, c, i + 1, quoted)
    }
}

pub proof fn lemma_unquoted_bounds(s: Seq<char>, c: char, i: int, quoted: bool)
    requires
        0 <= i,
    ensures
        find_unquoted(s, c, i, quoted) matches Some(k) ==> i <= k < s.len() && s[k] == c,
    decreases s.len() - i,
{
    if i < s.len() {
        if s[i] == '"' {
            lemma_unquoted_bounds(s, c, i + 1, !quoted);
        } else if !(s[i] == c && !quoted) {
            lemma_unquoted_bounds(s, c, i + 1, quoted);
        }
    }
}

fn unquoted(s: &[char], c: char) -> (r: Option<usize>)
    ensures
        match r {
            Some(k) => find_unquoted(s@, c, 0, false) == Some(k as int) && k < s@.len(),
            None => find_unquoted(s@, c, 0, false) is None,
        },
{
    let mut quoted = false;
    let mut i: usize = 0;
    while i < s.len()
        invariant
            i <= s@.len(),
            find_unquoted(s@, c, 0, false) == find_unquoted(s@, c, i as int, quoted),
        decreases s@.len() - i,
    {
        if s[i] == '"' {
            quoted = !quoted;
        } else if s[i] == c && !quoted {
            return Some(i);
        }
        i = i + 1;
    }
    None
}

/// `line` without a `//` comment outside quotes.
pub open spec fn strip_comment(line: Seq<char>) -> Seq<char> {
    match find_unquoted(line, '/', 0, false) {
        Some(i) => if starts_with(line.subrange(i, line.len() as int), seq!['/', '/']) { line.subrange(0, i) } else { line },
        None => line,
    }
}

fn without_comment(line: &[char]) -> (v: Vec<char>)
    ensures
        v@ == strip_comment(line@),
{
    let n = line.len();
    proof { lemma_unquoted_bounds(line@, '/', 0, false); }
    match unquoted(line, '/') {
        Some(i) => {
            if i + 1 < n && line[i + 1] == '/' {
                proof {
                    assert(line@.subrange(i as int, n as int).subrange(0, 2) =~= seq!['/', '/']);
                }
                slice_of(line, 0, i)
            } else {
                proof {
                    lemma_unquoted_bounds(line@, '/', 0, false);
                    if starts_with(line@.subrange(i as int, n as int), seq!['/', '/']) {
                        assert(line@.subrange(i as int, n as int).subrange(0, 2)[1] == line@[i + 1]);
                    }
                }
                slice_of(line, 0, n)
            }
        }
        None => slice_of(line, 0, n),
    }
}

/// Pieces of `s` between the occurrences of `c` outside quotes; each
/// search starts afresh after the last cut.
pub open spec fn split_unquoted(s: Seq<char>, c: char) -> Seq<Seq<char>>
    decreases s.len(),
{
    match find_unquoted(s, c, 0, false) {
        Some(i) => {
            proof { lemma_unquoted_bounds(s, c, 0, false); }
            seq![s.subrange(0, i)] + split_unquoted(s.subrange(i + 1, s.len() as int), c)
        },
        None => seq![s],
    }
}

fn split_outside_quotes(s: &[char], c: char) -> (v: Vec<Vec<char>>)
    ensures
        views(v@) == split_unquoted(s@, c),
{
    let mut v: Vec<Vec<char>> = Vec::new();
    let n = s.len();
    let mut p: usize = 0;
    assert(s@.subrange(0, n as int) =~= s@);
    loop
        invariant_except_break
            views(v@) + split_unquoted(s@.subrange(p as int, n as int), c) == split_unquoted(s@, c),
        invariant
            n == s@.len(),
            p <= n,
        ensures
            views(v@) == split_unquoted(s@, c),
        decreases n - p,
    {
        let rest = slice_of(s, p, n);
        let ghost before = views(v@);
        match unquoted(rest.as_slice(), c) {
            None => {
                v.push(rest);
                proof { assert(views(v@) =~= before + seq![rest@]); }
                break;
            }
            Some(i) => {
                proof { lemma_unquoted_bounds(rest@, c, 0, false); }
                let piece = slice_of(rest.as_slice(), 0, i);
                v.push(piece);
                proof {
                    assert(views(v@) =~= before + seq![piece@]);
                    assert(rest@.subrange(i + 1, rest@.len() as int) =~= s@.subrange(p + i + 1, n as int));
                    assert(before + split_unquoted(rest@, c) =~= views(v@) + split_unquoted(s@.subrange(p + i + 1, n as int), c));
                }
                p = p + i + 1;
            }
        }
    }
    v
}

pub open spec fn is_alpha(c: char) -> bool {
    ('a' <= c && c <= 'z') || ('A' <= c && c <= 'Z')
}

/// How many ASCII letters `s` starts with, counting from `i`.
pub open spec fn letters_from(s: Seq<char>, i: int) -> int
    decreases s.len() - i,
{
    if 0 <= i < s.len() && is_alpha(s[i]) { letters_from(s, i + 1) } else { i }
}

pub proof fn lemma_letters_bounds(s: Seq<char>, i: int)
    requires
        0 <= i <= s.len(),
    ensures
        i <= letters_from(s, i) <= s.len(),
    decreases s.len() - i,
{
    if i < s.len() && is_alpha(s[i]) {
        lemma_letters_bounds(s, i + 1);
    }
}

/// An image reference as its file name and index.
pub type ImageView = (Seq<char>, u32);

/// A frame as label, animation, number, flags and images.
pub type FrameView = (Seq<char>, Seq<char>, u32, Seq<Seq<char>>, Seq<ImageView>);

/// A parse error as its line and message.
pub type ErrView = (int, Seq<char>);

pub open spec fn quoted_in(pre: Seq<char>, x: Seq<char>) -> Seq<char> {
    pre + x + seq!['\'']
}

/// One image reference, `"file" #n`.
pub open spec fn spec_image(part: Seq<char>, line: int) -> Result<ImageView, ErrView> {
    let p = trim(part, Trim::Ws);
    match find_last(p, '#', p.len() as int) {
        None => Err((line, quoted_in("expected '\"file\" #n', got '"@, p))),
        Some(j) => match parse_u32(trim(p.subrange(j + 1, p.len() as int), Trim::Ws)) {
            None => Err((line, quoted_in("bad frame index in '"@, p))),
            Some(ix) => Ok((trim(trim(p.subrange(0, j), Trim::Ws), Trim::Char('"')), ix)),
        },
    }
}

/// The image references of a frame, or the first one that is wrong.
pub open spec fn spec_images(parts: Seq<Seq<char>>, line: int) -> Result<Seq<ImageView>, ErrView>
    decreases parts.len(),
{
    if parts.len() == 0 {
        Ok(Seq::empty())
    } else {
        match spec_images(parts.drop_last(), line) {
            Err(e) => Err(e),
            Ok(v) => match spec_image(parts.last(), line) {
                Err(e) => Err(e),
                Ok(im) => Ok(v.push(im)),
            },
        }
    }
}

/// What the parser holds between lines.
pub struct TState {
    pub name: Seq<char>,
    pub modifiers: Seq<Seq<char>>,
    pub flags: Seq<Seq<char>>,
    pub props: Seq<(Seq<char>, Seq<char>)>,
    pub frames: Seq<FrameView>,
    pub in_block: bool,
    pub seen: bool,
    pub pending: Seq<char>,
    pub pending_line: int,
}

pub open spec fn start_state() -> TState {
    TState {
        name: Seq::empty(),
        modifiers: Seq::empty(),
        flags: Seq::empty(),
        props: Seq::empty(),
        frames: Seq::empty(),
        in_block: false,
        seen: false,
        pending: Seq::empty(),
        pending_line: 0,
    }
}

/// One statement: type flags, a property inside the braces, or a frame.
pub open spec fn spec_statement(st: TState, stmt: Seq<char>, line: int) -> Result<TState, ErrView> {
    if starts_with(stmt, "typeflags"@) {
        Ok(TState { flags: words(stmt.subrange(9, stmt.len() as int)), ..st })
    } else if st.in_block {
        match find_from(stmt, '=', 0) {
            None => Err((line, quoted_in("expected 'key = value', got '"@, stmt))),
            Some(i) => Ok(TState {
                props: st.props.push((trim(stmt.subrange(0, i), Trim::Ws), trim(stmt.subrange(i + 1, stmt.len() as int), Trim::Ws))),
                ..st
            }),
        }
    } else {
        let parts = split_unquoted(stmt, ':');
        if parts.len() < 3 {
            Err((line, quoted_in("expected a frame definition, got '"@, stmt)))
        } else {
            let label = trim(parts[0], Trim::Ws);
            let letters = letters_from(label, 0);
            let number = parse_u32(label.subrange(letters, label.len() as int));
            if letters == 0 || number is None {
                Err((line, quoted_in("bad frame label '"@, label)))
            } else {
                match spec_images(parts.subrange(2, parts.len() as int), line) {
                    Err(e) => Err(e),
                    Ok(imgs) => Ok(TState {
                        frames: st.frames.push((label, label.subrange(0, letters), number->0, words(parts[1]), imgs)),
                        ..st
                    }),
                }
            }
        }
    }
}

/// Every complete statement in the pending text, in turn.
pub open spec fn spec_drain(st: TState) -> Result<TState, ErrView>
    decreases st.pending.len(),
{
    match find_unquoted(st.pending, ';', 0, false) {
        None => Ok(st),
        Some(end) => {
            proof { lemma_unquoted_bounds(st.pending, ';', 0, false); }
            let stmt = trim(st.pending.subrange(0, end), Trim::Ws);
            let rest = trim_start(st.pending.subrange(end + 1, st.pending.len() as int), Trim::Ws);
            proof { lemma_trim_start_len(st.pending.subrange(end + 1, st.pending.len() as int), Trim::Ws); }
            match spec_statement(TState { pending: rest, ..st }, stmt, st.pending_line) {
                Err(e) => Err(e),
                Ok(st2) => if st2.pending.len() < st.pending.len() { spec_drain(st2) } else { Ok(st2) },
            }
        },
    }
}

pub proof fn lemma_trim_start_len(s: Seq<char>, k: Trim)
    ensures
        trim_start(s, k).len() <= s.len(),
    decreases s.len(),
{
    if s.len() > 0 && crate::strs::trims(k, s[0]) {
        lemma_trim_start_len(s.drop_first(), k);
    }
}

/// One line of a type file, numbered `lineno`.
pub open spec fn spec_line(st: TState, raw: Seq<char>, lineno: int) -> Result<TState, ErrView> {
    let line = trim(strip_comment(raw), Trim::Ws);
    if line.len() == 0 {
        Ok(st)
    } else if st.pending.len() == 0 && starts_with(line, "typename"@) {
        let rest = line.subrange(8, line.len() as int);
        if rest.len() == 0 || !is_ws(rest[0]) {
            Err((lineno, "expected whitespace after typename"@))
        } else if words(rest).len() == 0 {
            Err((lineno, "typename without a name"@))
        } else {
            Ok(TState { name: words(rest)[0], modifiers: words(rest).drop_first(), seen: true, ..st })
        }
    } else if st.pending.len() == 0 && line == seq!['{'] {
        if st.in_block { Err((lineno, "nested '{'"@)) } else { Ok(TState { in_block: true, ..st }) }
    } else if st.pending.len() == 0 && line == seq!['}'] {
        if !st.in_block { Err((lineno, "'}' without '{'"@)) } else { Ok(TState { in_block: false, ..st }) }
    } else {
        let pl = if st.pending.len() == 0 { lineno } else { st.pending_line };
        spec_drain(TState { pending: st.pending + line + seq![' '], pending_line: pl, ..st })
    }
}

pub open spec fn spec_lines(ls: Seq<Seq<char>>) -> Result<TState, ErrView>
    decreases ls.len(),
{
    if ls.len() == 0 {
        Ok(start_state())
    } else {
        match spec_lines(ls.drop_last()) {
            Err(e) => Err(e),
            Ok(st) => spec_line(st, ls.last(), ls.len() as int),
        }
    }
}

/// A type definition as name, modifiers, flags, properties (each value as
/// written) and frames.
pub type TypeView = (Seq<char>, Seq<Seq<char>>, Seq<Seq<char>>, Seq<(Seq<char>, Seq<char>)>, Seq<FrameView>);

/// What a type file holds, or the first line that is wrong and why.
pub open spec fn spec_typefile(text: Seq<char>) -> Result<TypeView, ErrView> {
    match spec_lines(lines_of(text)) {
        Err(e) => Err(e),
        Ok(st) => if trim(st.pending, Trim::Ws).len() > 0 {
            Err((st.pending_line, "statement without ';'"@))
        } else if st.in_block {
            Err((lines_of(text).len() as int, "missing '}'"@))
        } else if !st.seen {
            Err((1, "no typename"@))
        } else {
            Ok((st.name, st.modifiers, st.flags, st.props, st.frames))
        },
    }
}

pub open spec fn image_view(r: ImageRef) -> ImageView {
    (r.file@, r.index)
}

pub open spec fn images_view(v: Seq<ImageRef>) -> Seq<ImageView> {
    v.map_values(|r: ImageRef| image_view(r))
}

pub open spec fn frame_view(f: FrameDef) -> FrameView {
    (f.label@, f.animation@, f.number, strings_view(f.flags@), images_view(f.images@))
}

pub open spec fn frames_view(v: Seq<FrameDef>) -> Seq<FrameView> {
    v.map_values(|f: FrameDef| frame_view(f))
}

pub open spec fn props_view(v: Seq<(String, String)>) -> Seq<(Seq<char>, Seq<char>)> {
    v.map_values(|p: (String, String)| (p.0@, p.1@))
}

pub open spec fn err_view(e: ParseError) -> ErrView {
    (e.line as int, e.message@)
}

/// A parsed type file.
#[derive(Debug, Clone, PartialEq)]
pub struct TypeDef {
    pub name: String,
    /// Words after the name on the `typename` line, e.g. `constructor`.
    pub modifiers: Vec<String>,
    pub flags: Vec<String>,
    /// Properties in file order, each value as written (quotes kept).
    pub properties: Vec<(String, String)>,
    /// Frames in file order.
    pub frames: Vec<FrameDef>,
}

impl View for TypeDef {
    type V = TypeView;

    open spec fn view(&self) -> TypeView {
        (self.name@, strings_view(self.modifiers@), strings_view(self.flags@), props_view(self.properties@), frames_view(self.frames@))
    }
}

/// The parser between lines: what has been read, and what is still open.
struct Parser {
    def: TypeDef,
    in_block: bool,
    seen: bool,
    pending: Vec<char>,
    pending_line: usize,
}

impl Parser {
    spec fn state(&self) -> TState {
        TState {
            name: self.def.name@,
            modifiers: strings_view(self.def.modifiers@),
            flags: strings_view(self.def.flags@),
            props: props_view(self.def.properties@),
            frames: frames_view(self.def.frames@),
            in_block: self.in_block,
            seen: self.seen,
            pending: self.pending@,
            pending_line: self.pending_line as int,
        }
    }
}

fn text_of(s: &str) -> (m: String)
    ensures
        m@ == s@,
{
    string_of(chars_of(s).as_slice())
}

fn quoted_msg(pre: &str, x: &[char]) -> (m: String)
    ensures
        m@ == quoted_in(pre@, x@),
{
    let mut v = chars_of(pre);
    push_all(&mut v, x);
    v.push('\'');
    string_of(v.as_slice())
}

fn image_ref(part: &[char], line: usize) -> (r: Result<ImageRef, ParseError>)
    ensures
        match r {
            Ok(im) => spec_image(part@, line as int) == Ok::<ImageView, ErrView>(image_view(im)),
            Err(e) => spec_image(part@, line as int) == Err::<ImageView, ErrView>(err_view(e)),
        },
{
    let p = trimmed(part, Trim::Ws, true, true);
    let n = p.len();
    match find_char_last(p.as_slice(), '#') {
        None => Err(ParseError { line, message: quoted_msg("expected '\"file\" #n', got '", p.as_slice()) }),
        Some(j) => {
            let idx = trimmed(slice_of(p.as_slice(), j + 1, n).as_slice(), Trim::Ws, true, true);
            match parse_unsigned(idx.as_slice()) {
                None => Err(ParseError { line, message: quoted_msg("bad frame index in '", p.as_slice()) }),
                Some(ix) => {
                    let f0 = trimmed(slice_of(p.as_slice(), 0, j).as_slice(), Trim::Ws, true, true);
                    let f = trimmed(f0.as_slice(), Trim::Char('"'), true, true);
                    Ok(ImageRef { file: string_of(f.as_slice()), index: ix })
                },
            }
        },
    }
}

proof fn lemma_images_err(parts: Seq<Seq<char>>, k: int, line: int)
    requires
        0 <= k <= parts.len(),
        spec_images(parts.subrange(0, k), line) is Err,
    ensures
        spec_images(parts, line) == spec_images(parts.subrange(0, k), line),
    decreases parts.len() - k,
{
    if k < parts.len() {
        assert(parts.subrange(0, k + 1).drop_last() =~= parts.subrange(0, k));
        lemma_images_err(parts, k + 1, line);
    } else {
        assert(parts.subrange(0, k) =~= parts);
    }
}

fn frame_images(parts: &Vec<Vec<char>>, line: usize) -> (r: Result<Vec<ImageRef>, ParseError>)
    requires
        parts@.len() >= 2,
    ensures
        match r {
            Ok(v) => spec_images(views(parts@).subrange(2, parts@.len() as int), line as int)
                == Ok::<Seq<ImageView>, ErrView>(images_view(v@)),
            Err(e) => spec_images(views(parts@).subrange(2, parts@.len() as int), line as int)
                == Err::<Seq<ImageView>, ErrView>(err_view(e)),
        },
{
    let n = parts.len();
    let ghost all = views(parts@).subrange(2, n as int);
    let mut v: Vec<ImageRef> = Vec::new();
    let mut i: usize = 2;
    assert(all.subrange(0, 0) =~= Seq::<Seq<char>>::empty());
    assert(images_view(v@) =~= Seq::<ImageView>::empty());
    while i < n
        invariant
            n == parts@.len(),
            2 <= i <= n,
            all == views(parts@).subrange(2, n as int),
            spec_images(all.subrange(0, i - 2), line as int) == Ok::<Seq<ImageView>, ErrView>(images_view(v@)),
        decreases n - i,
    {
        let ghost sub = all.subrange(0, i + 1 - 2);
        proof {
            assert(sub.drop_last() =~= all.subrange(0, i - 2));
            assert(sub.last() == parts@[i as int]@);
        }
        match image_ref(parts[i].as_slice(), line) {
            Err(e) => {
                proof { lemma_images_err(all, i + 1 - 2, line as int); }
                return Err(e);
            },
            Ok(im) => {
                let ghost before = images_view(v@);
                v.push(im);
                proof { assert(images_view(v@) =~= before.push(image_view(im))); }
            },
        }
        i = i + 1;
    }
    assert(all.subrange(0, n - 2) =~= all);
    Ok(v)
}

fn letter(c: char) -> (r: bool)
    ensures
        r == is_alpha(c),
{
    ('a' <= c && c <= 'z') || ('A' <= c && c <= 'Z')
}

fn statement(p: &mut Parser, stmt: &[char], line: usize) -> (r: Result<(), ParseError>)
    ensures
        match r {
            Ok(_) => spec_statement(old(p).state(), stmt@, line as int) == Ok::<TState, ErrView>(final(p).state()),
            Err(e) => spec_statement(old(p).state(), stmt@, line as int) == Err::<TState, ErrView>(err_view(e)),
        },
{
    let ghost st = p.state();
    let kw = chars_of("typeflags");
    proof { reveal_strlit("typeflags"); }
    if has_prefix(stmt, kw.as_slice()) {
        let ws = split_words(slice_of(stmt, 9, stmt.len()).as_slice());
        p.def.flags = strings_of(&ws);
        proof { assert(p.state() == TState { flags: words(stmt@.subrange(9, stmt@.len() as int)), ..st }); }
        return Ok(());
    }
    if p.in_block {
        match find_char(stmt, '=', 0) {
            None => {
                return Err(ParseError { line, message: quoted_msg("expected 'key = value', got '", stmt) });
            },
            Some(i) => {
                let sl = stmt.len();
                let key = trimmed(slice_of(stmt, 0, i).as_slice(), Trim::Ws, true, true);
                let val = trimmed(slice_of(stmt, i + 1, sl).as_slice(), Trim::Ws, true, true);
                let ghost before = props_view(p.def.properties@);
                p.def.properties.push((string_of(key.as_slice()), string_of(val.as_slice())));
                proof {
                    assert(props_view(p.def.properties@) =~= before.push((key@, val@)));
                }
                return Ok(());
            },
        }
    }
    let parts = split_outside_quotes(stmt, ':');
    if parts.len() < 3 {
        return Err(ParseError { line, message: quoted_msg("expected a frame definition, got '", stmt) });
    }
    let label = trimmed(parts[0].as_slice(), Trim::Ws, true, true);
    let mut letters: usize = 0;
    while letters < label.len() && letter(label[letters])
        invariant
            letters <= label@.len(),
            letters_from(label@, 0) == letters_from(label@, letters as int),
        decreases label@.len() - letters,
    {
        letters = letters + 1;
    }
    let number = parse_unsigned(slice_of(label.as_slice(), letters, label.len()).as_slice());
    if letters == 0 || number.is_none() {
        return Err(ParseError { line, message: quoted_msg("bad frame label '", label.as_slice()) });
    }
    let images = match frame_images(&parts, line) {
        Err(e) => { return Err(e); },
        Ok(v) => v,
    };
    let fl = strings_of(&split_words(parts[1].as_slice()));
    let frame = FrameDef {
        label: string_of(label.as_slice()),
        animation: string_of(slice_of(label.as_slice(), 0, letters).as_slice()),
        number: number.unwrap(),
        flags: fl,
        images,
    };
    let ghost fv = frame_view(frame);
    let ghost before = frames_view(p.def.frames@);
    p.def.frames.push(frame);
    proof {
        assert(frames_view(p.def.frames@) =~= before.push(fv));
    }
    Ok(())
}

/// Every complete statement in the pending text, in turn.
fn drain(p: &mut Parser) -> (r: Result<(), ParseError>)
    ensures
        match r {
            Ok(_) => spec_drain(old(p).state()) == Ok::<TState, ErrView>(final(p).state()),
            Err(e) => spec_drain(old(p).state()) == Err::<TState, ErrView>(err_view(e)),
        },
{
    loop
        invariant
            spec_drain(old(p).state()) == spec_drain(p.state()),
        decreases p.pending@.len(),
    {
        let n = p.pending.len();
        match unquoted(p.pending.as_slice(), ';') {
            None => {
                return Ok(());
            },
            Some(end) => {
                let ghost st = p.state();
                proof { lemma_unquoted_bounds(p.pending@, ';', 0, false); }
                let stmt = trimmed(slice_of(p.pending.as_slice(), 0, end).as_slice(), Trim::Ws, true, true);
                let rest = trimmed(slice_of(p.pending.as_slice(), end + 1, n).as_slice(), Trim::Ws, true, false);
                proof { lemma_trim_start_len(st.pending.subrange(end + 1, n as int), Trim::Ws); }
                p.pending = rest;
                assert(p.state() == TState { pending: rest@, ..st });
                let line = p.pending_line;
                match statement(p, stmt.as_slice(), line) {
                    Err(e) => {
                        return Err(e);
                    },
                    Ok(_) => {},
                }
            },
        }
    }
}

/// One line: the `typename` line, a brace, or more statement text.
fn line_step(p: &mut Parser, raw: &[char], lineno: usize) -> (r: Result<(), ParseError>)
    ensures
        match r {
            Ok(_) => spec_line(old(p).state(), raw@, lineno as int) == Ok::<TState, ErrView>(final(p).state()),
            Err(e) => spec_line(old(p).state(), raw@, lineno as int) == Err::<TState, ErrView>(err_view(e)),
        },
{
    let ghost st = p.state();
    let nc = without_comment(raw);
    let line = trimmed(nc.as_slice(), Trim::Ws, true, true);
    if line.len() == 0 {
        return Ok(());
    }
    let tn = chars_of("typename");
    proof { reveal_strlit("typename"); }
    if p.pending.len() == 0 && has_prefix(line.as_slice(), tn.as_slice()) {
        let rest = slice_of(line.as_slice(), 8, line.len());
        if rest.len() == 0 || !whitespace(rest[0]) {
            return Err(ParseError { line: lineno, message: text_of("expected whitespace after typename") });
        }
        let ws = split_words(rest.as_slice());
        if ws.len() == 0 {
            return Err(ParseError { line: lineno, message: text_of("typename without a name") });
        }
        let mut mods: Vec<String> = Vec::new();
        let mut k: usize = 1;
        while k < ws.len()
            invariant
                1 <= k <= ws@.len(),
                strings_view(mods@) == views(ws@).subrange(1, k as int),
            decreases ws@.len() - k,
        {
            let ghost before = strings_view(mods@);
            mods.push(string_of(ws[k].as_slice()));
            proof {
                assert(strings_view(mods@) =~= before.push(ws@[k as int]@));
                assert(strings_view(mods@) =~= views(ws@).subrange(1, k + 1));
            }
            k = k + 1;
        }
        proof { assert(views(ws@).subrange(1, k as int) =~= views(ws@).drop_first()); }
        p.def.name = string_of(ws[0].as_slice());
        p.def.modifiers = mods;
        p.seen = true;
        return Ok(());
    }
    let brace_open = line.len() == 1 && line[0] == '{';
    let brace_close = line.len() == 1 && line[0] == '}';
    proof {
        if line.len() == 1 {
            if line@[0] == '{' { assert(line@ =~= seq!['{']); }
            if line@[0] == '}' { assert(line@ =~= seq!['}']); }
        }
        if line@ == seq!['{'] { assert(brace_open); }
        if line@ == seq!['}'] { assert(brace_close); }
    }
    if p.pending.len() == 0 && brace_open {
        if p.in_block {
            return Err(ParseError { line: lineno, message: text_of("nested '{'") });
        }
        p.in_block = true;
        return Ok(());
    }
    if p.pending.len() == 0 && brace_close {
        if !p.in_block {
            return Err(ParseError { line: lineno, message: text_of("'}' without '{'") });
        }
        p.in_block = false;
        return Ok(());
    }
    let ghost pl = if st.pending.len() == 0 { lineno as int } else { st.pending_line };
    if p.pending.len() == 0 {
        p.pending_line = lineno;
    }
    push_all(&mut p.pending, line.as_slice());
    p.pending.push(' ');
    proof {
        assert(p.pending@ =~= st.pending + line@ + seq![' ']);
        assert(p.state() == TState { pending: st.pending + line@ + seq![' '], pending_line: pl, ..st });
    }
    drain(p)
}

proof fn lemma_lines_err(ls: Seq<Seq<char>>, k: int)
    requires
        0 <= k <= ls.len(),
        spec_lines(ls.subrange(0, k)) is Err,
    ensures
        spec_lines(ls) == spec_lines(ls.subrange(0, k)),
    decreases ls.len() - k,
{
    if k < ls.len() {
        assert(ls.subrange(0, k + 1).drop_last() =~= ls.subrange(0, k));
        lemma_lines_err(ls, k + 1);
    } else {
        assert(ls.subrange(0, k) =~= ls);
    }
}

/// Parse one `.type` file: the definition, or the first line that is
/// wrong and why.
pub fn parse(text: &str) -> (r: Result<TypeDef, ParseError>)
    ensures
        match r {
            Ok(d) => spec_typefile(text@) == Ok::<TypeView, ErrView>(d@),
            Err(e) => spec_typefile(text@) == Err::<TypeView, ErrView>(err_view(e)),
        },
{
    let chars = chars_of(text);
    let ls = lines(chars.as_slice());
    let n = ls.len();
    let mut p = Parser {
        def: TypeDef {
            name: String::new(),
            modifiers: Vec::new(),
            flags: Vec::new(),
            properties: Vec::new(),
            frames: Vec::new(),
        },
        in_block: false,
        seen: false,
        pending: Vec::new(),
        pending_line: 0,
    };
    let ghost all = views(ls@);
    proof {
        assert(all.subrange(0, 0) =~= Seq::<Seq<char>>::empty());
        assert(strings_view(p.def.modifiers@) =~= Seq::<Seq<char>>::empty());
        assert(strings_view(p.def.flags@) =~= Seq::<Seq<char>>::empty());
        assert(props_view(p.def.properties@) =~= Seq::<(Seq<char>, Seq<char>)>::empty());
        assert(frames_view(p.def.frames@) =~= Seq::<FrameView>::empty());
        assert(p.pending@ =~= Seq::<char>::empty());
        assert(p.state() == start_state());
    }
    let mut i: usize = 0;
    while i < n
        invariant
            n == ls@.len(),
            i <= n,
            all == views(ls@),
            all == lines_of(text@),
            spec_lines(all.subrange(0, i as int)) == Ok::<TState, ErrView>(p.state()),
        decreases n - i,
    {
        proof {
            assert(all.subrange(0, i + 1).drop_last() =~= all.subrange(0, i as int));
        }
        match line_step(&mut p, ls[i].as_slice(), i + 1) {
            Err(e) => {
                proof { lemma_lines_err(all, i + 1); }
                return Err(e);
            },
            Ok(_) => {},
        }
        i = i + 1;
    }
    assert(all.subrange(0, n as int) =~= all);
    let tail = trimmed(p.pending.as_slice(), Trim::Ws, true, true);
    if tail.len() > 0 {
        return Err(ParseError { line: p.pending_line, message: text_of("statement without ';'") });
    }
    if p.in_block {
        return Err(ParseError { line: n, message: text_of("missing '}'") });
    }
    if !p.seen {
        return Err(ParseError { line: 1, message: text_of("no typename") });
    }
    Ok(p.def)
}

/// The first property at or after `i` whose key is `key`, ignoring ASCII
/// case.
pub open spec fn prop_index(ps: Seq<(Seq<char>, Seq<char>)>, key: Seq<char>, i: int) -> Option<int>
    decreases ps.len() - i,
{
    if i < 0 || i >= ps.len() {
        None
    } else if eq_ignore_case(ps[i].0, key) {
        Some(i)
    } else {
        prop_index(ps, key, i + 1)
    }
}

/// The value of the first property named `key`, as written.
pub open spec fn spec_get(t: TypeView, key: Seq<char>) -> Option<Seq<char>> {
    match prop_index(t.3, key, 0) {
        Some(i) => Some(t.3[i].1),
        None => None,
    }
}

/// The items of `s` in order of first appearance.
pub open spec fn distinct(s: Seq<Seq<char>>) -> Seq<Seq<char>>
    decreases s.len(),
{
    if s.len() == 0 {
        Seq::empty()
    } else {
        let d = distinct(s.drop_last());
        if d.contains(s.last()) { d } else { d.push(s.last()) }
    }
}

/// The items of `s` in order of first appearance, two that differ only in
/// ASCII case counting as one (the first spelling kept).
pub open spec fn distinct_ci(s: Seq<Seq<char>>) -> Seq<Seq<char>>
    decreases s.len(),
{
    if s.len() == 0 {
        Seq::empty()
    } else {
        let d = distinct_ci(s.drop_last());
        if exists|j: int| 0 <= j < d.len() && eq_ignore_case(#[trigger] d[j], s.last()) { d } else { d.push(s.last()) }
    }
}

/// The image files that the frames name, in order, with repeats.
pub open spec fn image_file_list(fs: Seq<FrameView>) -> Seq<Seq<char>>
    decreases fs.len(),
{
    if fs.len() == 0 {
        Seq::empty()
    } else {
        image_file_list(fs.drop_last()) + fs.last().4.map_values(|im: ImageView| im.0)
    }
}

pub open spec fn texts(v: Seq<&str>) -> Seq<Seq<char>> {
    v.map_values(|s: &str| s@)
}

impl TypeDef {
    /// Whether the type carries `flag`, ignoring ASCII case.
    pub fn has_flag(&self, flag: &str) -> (r: bool)
        ensures
            r == exists|i: int| 0 <= i < self.flags@.len() && eq_ignore_case(#[trigger] self.flags@[i]@, flag@),
    {
        let mut i: usize = 0;
        while i < self.flags.len()
            invariant
                i <= self.flags@.len(),
                forall|j: int| 0 <= j < i ==> !eq_ignore_case(#[trigger] self.flags@[j]@, flag@),
            decreases self.flags@.len() - i,
        {
            if str_eq_ignore_case(self.flags[i].as_str(), flag) {
                return true;
            }
            i = i + 1;
        }
        false
    }

    /// The value of the first property whose key matches, ignoring ASCII
    /// case, as written.
    pub fn get(&self, key: &str) -> (r: Option<&str>)
        ensures
            match spec_get(self@, key@) {
                Some(v) => r is Some && r->0@ == v,
                None => r is None,
            },
    {
        let mut i: usize = 0;
        while i < self.properties.len()
            invariant
                i <= self.properties@.len(),
                prop_index(self@.3, key@, 0) == prop_index(self@.3, key@, i as int),
            decreases self.properties@.len() - i,
        {
            if str_eq_ignore_case(self.properties[i].0.as_str(), key) {
                return Some(self.properties[i].1.as_str());
            }
            i = i + 1;
        }
        None
    }

    /// The first property whose key matches, read as a whole number.
    pub fn get_i64(&self, key: &str) -> (r: Option<i64>)
        ensures
            r == (match spec_get(self@, key@) {
                Some(v) => parse_int(v),
                None => None,
            }),
    {
        match self.get(key) {
            None => None,
            Some(v) => parse_i64(chars_of(v).as_slice()),
        }
    }

    /// The first property whose key matches, read as a string: the text
    /// inside its quotes, or a bare word; `None` for a number or a missing key.
    pub fn get_str(&self, key: &str) -> (r: Option<String>)
        ensures
            r matches Some(s) ==> spec_get(self@, key@) is Some && value_str(spec_get(self@, key@)->0) == Some(s@),
            r is None ==> (match spec_get(self@, key@) { Some(v) => value_str(v) is None, None => true }),
    {
        match self.get(key) {
            None => None,
            Some(v) => {
                let c = chars_of(v);
                let n = c.len();
                if n >= 2 && c[0] == '"' && c[n - 1] == '"' {
                    return Some(string_of(slice_of(c.as_slice(), 1, n - 1).as_slice()));
                }
                if parse_i64(c.as_slice()).is_some() || is_float_text(c.as_slice()) {
                    return None;
                }
                Some(string_of(c.as_slice()))
            },
        }
    }

    /// Distinct animation names in file order.
    pub fn animations(&self) -> (r: Vec<&str>)
        ensures
            texts(r@) == distinct(self@.4.map_values(|f: FrameView| f.1)),
    {
        let ghost names = self@.4.map_values(|f: FrameView| f.1);
        let mut out: Vec<&str> = Vec::new();
        let mut i: usize = 0;
        assert(names.subrange(0, 0) =~= Seq::<Seq<char>>::empty());
        assert(texts(out@) =~= Seq::<Seq<char>>::empty());
        while i < self.frames.len()
            invariant
                i <= self.frames@.len(),
                names == self@.4.map_values(|f: FrameView| f.1),
                texts(out@) == distinct(names.subrange(0, i as int)),
            decreases self.frames@.len() - i,
        {
            let a = self.frames[i].animation.as_str();
            let ghost d = texts(out@);
            proof {
                assert(names.subrange(0, i + 1).drop_last() =~= names.subrange(0, i as int));
                assert(names.subrange(0, i + 1).last() == a@);
            }
            let mut found = false;
            let mut k: usize = 0;
            while k < out.len()
                invariant
                    k <= out@.len(),
                    d == texts(out@),
                    found == exists|j: int| 0 <= j < k && d[j] == a@,
                decreases out@.len() - k,
            {
                proof { assert(d[k as int] == out@[k as int]@); }
                if str_eq(out[k], a) {
                    found = true;
                }
                k = k + 1;
            }
            proof {
                if d.contains(a@) {
                    let j = choose|j: int| 0 <= j < d.len() && d[j] == a@;
                    assert(0 <= j < k && d[j] == a@);
                }
            }
            if !found {
                out.push(a);
                proof { assert(texts(out@) =~= d.push(a@)); }
            }
            i = i + 1;
        }
        assert(names.subrange(0, i as int) =~= names);
        out
    }

    /// Frames of one animation, named ignoring ASCII case, in file order.
    pub fn animation(&self, name: &str) -> (r: Vec<&FrameDef>)
        ensures
            r@.map_values(|f: &FrameDef| *f) == self.frames@.filter(|f: FrameDef| eq_ignore_case(f.animation@, name@)),
    {
        let mut r: Vec<&FrameDef> = Vec::new();
        let mut k: usize = 0;
        while k < self.frames.len()
            invariant
                k <= self.frames@.len(),
                r@.map_values(|f: &FrameDef| *f)
                    == self.frames@.subrange(0, k as int).filter(|f: FrameDef| eq_ignore_case(f.animation@, name@)),
            decreases self.frames@.len() - k,
        {
            let f = &self.frames[k];
            proof {
                assert(self.frames@.subrange(0, k + 1).drop_last() =~= self.frames@.subrange(0, k as int));
                reveal_with_fuel(Seq::filter, 1);
            }
            if str_eq_ignore_case(f.animation.as_str(), name) {
                r.push(f);
            }
            proof {
                assert(r@.map_values(|f: &FrameDef| *f)
                    =~= self.frames@.subrange(0, k + 1).filter(|f: FrameDef| eq_ignore_case(f.animation@, name@)));
            }
            k = k + 1;
        }
        assert(self.frames@.subrange(0, k as int) =~= self.frames@);
        r
    }

    /// Image files referenced, in first-use order, spelled as first used;
    /// two names that differ only in ASCII case are one file.
    pub fn image_files(&self) -> (r: Vec<&str>)
        ensures
            texts(r@) == distinct_ci(image_file_list(self@.4)),
    {
        let ghost fs = self@.4;
        let mut out: Vec<&str> = Vec::new();
        let mut i: usize = 0;
        assert(fs.subrange(0, 0) =~= Seq::<FrameView>::empty());
        assert(texts(out@) =~= Seq::<Seq<char>>::empty());
        while i < self.frames.len()
            invariant
                i <= self.frames@.len(),
                fs == self@.4,
                texts(out@) == distinct_ci(image_file_list(fs.subrange(0, i as int))),
            decreases self.frames@.len() - i,
        {
            let f = &self.frames[i];
            let ghost base = image_file_list(fs.subrange(0, i as int));
            let ghost files = fs[i as int].4.map_values(|im: ImageView| im.0);
            proof {
                assert(fs.subrange(0, i + 1).drop_last() =~= fs.subrange(0, i as int));
                assert(base + files.subrange(0, 0) =~= base);
            }
            let mut j: usize = 0;
            while j < f.images.len()
                invariant
                    j <= f.images@.len(),
                    f == self.frames@[i as int],
                    files == frame_view(*f).4.map_values(|im: ImageView| im.0),
                    files.len() == f.images@.len(),
                    texts(out@) == distinct_ci(base + files.subrange(0, j as int)),
                decreases f.images@.len() - j,
            {
                let file = f.images[j].file.as_str();
                let ghost d = texts(out@);
                let ghost s = base + files.subrange(0, j + 1);
                proof {
                    assert(s.drop_last() =~= base + files.subrange(0, j as int));
                    assert(s.last() == file@);
                }
                let mut found = false;
                let mut k: usize = 0;
                while k < out.len()
                    invariant
                        k <= out@.len(),
                        d == texts(out@),
                        found == exists|m: int| 0 <= m < k && eq_ignore_case(#[trigger] d[m], file@),
                    decreases out@.len() - k,
                {
                    proof { assert(d[k as int] == out@[k as int]@); }
                    if str_eq_ignore_case(out[k], file) {
                        found = true;
                    }
                    k = k + 1;
                }
                if !found {
                    out.push(file);
                    proof { assert(texts(out@) =~= d.push(file@)); }
                }
                j = j + 1;
            }
            proof {
                assert(files.subrange(0, j as int) =~= files);
                assert(image_file_list(fs.subrange(0, i + 1)) == base + files);
            }
            i = i + 1;
        }
        assert(fs.subrange(0, i as int) =~= fs);
        out
    }
}
/// A mantissa as the float grammar of Rust's `str::parse` takes it:
/// digits with at most one point among them, and at least one digit.
pub open spec fn mantissa_ok(m: Seq<char>) -> bool {
    &&& forall|i: int| 0 <= i < m.len() ==> is_digit(#[trigger] m[i]) || m[i] == '.'
    &&& forall|i: int, j: int| 0 <= i < m.len() && 0 <= j < m.len() && #[trigger] m[i] == '.' && #[trigger] m[j] == '.' ==> i == j
    &&& exists|i: int| 0 <= i < m.len() && is_digit(#[trigger] m[i])
}

/// An exponent after the `e`: an optional sign and one or more digits.
pub open spec fn exponent_ok(x: Seq<char>) -> bool {
    let d = if x.len() > 0 && (x[0] == '+' || x[0] == '-') { x.drop_first() } else { x };
    d.len() > 0 && all_digits(d)
}

/// The first `e` or `E` of `s` at or after `i`.
pub open spec fn first_e(s: Seq<char>, i: int) -> Option<int>
    decreases s.len() - i,
{
    if i < 0 || i >= s.len() {
        None
    } else if s[i] == 'e' || s[i] == 'E' {
        Some(i)
    } else {
        first_e(s, i + 1)
    }
}

/// Text the float grammar of Rust's `str::parse` accepts: an optional
/// sign, then `inf`, `infinity` or `nan` in any case, or a mantissa with
/// an optional exponent.
pub open spec fn float_text(s: Seq<char>) -> bool {
    let b = if s.len() > 0 && (s[0] == '+' || s[0] == '-') { s.drop_first() } else { s };
    let l = lower_all(b);
    if l == "inf"@ || l == "infinity"@ || l == "nan"@ {
        true
    } else {
        match first_e(b, 0) {
            None => mantissa_ok(b),
            Some(k) => mantissa_ok(b.subrange(0, k)) && exponent_ok(b.subrange(k + 1, b.len() as int)),
        }
    }
}

fn mantissa_check(m: &[char]) -> (r: bool)
    ensures
        r == mantissa_ok(m@),
{
    let mut dots: usize = 0;
    let mut dot_at: usize = 0;
    let mut digit = false;
    let mut digit_at: usize = 0;
    let mut i: usize = 0;
    while i < m.len()
        invariant
            i <= m@.len(),
            dots <= 1,
            forall|j: int| 0 <= j < i ==> is_digit(#[trigger] m@[j]) || m@[j] == '.',
            dots == 0 ==> forall|j: int| 0 <= j < i ==> #[trigger] m@[j] != '.',
            dots == 1 ==> dot_at < i && m@[dot_at as int] == '.' && forall|j: int| 0 <= j < i && #[trigger] m@[j] == '.' ==> j == dot_at,
            digit ==> digit_at < i && is_digit(m@[digit_at as int]),
            !digit ==> forall|j: int| 0 <= j < i ==> !is_digit(#[trigger] m@[j]),
        decreases m@.len() - i,
    {
        let c = m[i];
        if c == '.' {
            if dots == 1 {
                proof {
                    assert(m@[dot_at as int] == '.' && m@[i as int] == '.');
                }
                return false;
            }
            dots = 1;
            dot_at = i;
        } else if '0' <= c && c <= '9' {
            digit = true;
            digit_at = i;
        } else {
            return false;
        }
        i = i + 1;
    }
    if !digit {
        return false;
    }
    proof {
        assert(is_digit(m@[digit_at as int]));
    }
    true
}

fn exponent_check(x: &[char]) -> (r: bool)
    ensures
        r == exponent_ok(x@),
{
    let n = x.len();
    let start: usize = if n > 0 && (x[0] == '+' || x[0] == '-') { 1 } else { 0 };
    let d = slice_of(x, start, n);
    proof {
        if n > 0 && (x@[0] == '+' || x@[0] == '-') {
            assert(d@ =~= x@.drop_first());
        } else {
            assert(d@ =~= x@);
        }
    }
    if d.len() == 0 {
        return false;
    }
    let mut i: usize = 0;
    while i < d.len()
        invariant
            i <= d@.len(),
            forall|j: int| 0 <= j < i ==> is_digit(#[trigger] d@[j]),
            d@ == (if x@.len() > 0 && (x@[0] == '+' || x@[0] == '-') { x@.drop_first() } else { x@ }),
        decreases d@.len() - i,
    {
        if !('0' <= d[i] && d[i] <= '9') {
            proof {
                assert(!is_digit(d@[i as int]));
                assert(!all_digits(d@));
            }
            return false;
        }
        i = i + 1;
    }
    true
}

/// Whether `s` is text the float grammar of Rust's `str::parse` accepts.
pub fn is_float_text(s: &[char]) -> (r: bool)
    ensures
        r == float_text(s@),
{
    let n = s.len();
    let start: usize = if n > 0 && (s[0] == '+' || s[0] == '-') { 1 } else { 0 };
    let b = slice_of(s, start, n);
    proof {
        if n > 0 && (s@[0] == '+' || s@[0] == '-') {
            assert(b@ =~= s@.drop_first());
        } else {
            assert(b@ =~= s@);
        }
    }
    let l = lowercase(b.as_slice());
    if chars_equal(&l, &chars_of("inf")) || chars_equal(&l, &chars_of("infinity")) || chars_equal(&l, &chars_of("nan")) {
        return true;
    }
    let mut k: usize = 0;
    while k < b.len() && b[k] != 'e' && b[k] != 'E'
        invariant
            k <= b@.len(),
            first_e(b@, 0) == first_e(b@, k as int),
        decreases b@.len() - k,
    {
        k = k + 1;
    }
    if k == b.len() {
        mantissa_check(b.as_slice())
    } else {
        let m = slice_of(b.as_slice(), 0, k);
        let x = slice_of(b.as_slice(), k + 1, b.len());
        mantissa_check(m.as_slice()) && exponent_check(x.as_slice())
    }
}

/// A property value read as a string: inside quotes, the text between
/// them; a whole number or a float is no string; any other word is one.
pub open spec fn value_str(v: Seq<char>) -> Option<Seq<char>> {
    if v.len() >= 2 && v[0] == '"' && v[v.len() - 1] == '"' {
        Some(v.subrange(1, v.len() - 1))
    } else if parse_int(v) is Some || float_text(v) {
        None
    } else {
        Some(v)
    }
}

} // verus!
