//! The campaign's chapters: the `offical<N>.english` menus in
//! `netstorm.tarc`, each a title and a list of
//! `$Checked=<label>,MissionBegin,<mission>,...` lines in play order.
//! Two-digit files are the same chapters at other difficulties.
use vstd::prelude::*;
use crate::mission::{entry_text, strip_suffix, Text};
use crate::strs::{
    find_char, find_from, has_prefix, lines, lines_of, lower_all, lowercase, slice_of, split_chars, split_on,
    starts_with, trim, trimmed, views, Trim,
};
use crate::tarc::{spec_basename, spec_extension, Archive};
use crate::text::{chars_equal, chars_of, eq_ignore_ascii_case, eq_ignore_case, str_eq_ignore_case, string_of};

verus! {

#[derive(Clone, Debug, PartialEq, Eq)]
pub struct Chapter {
    /// The menu file's name, lower-cased, without its extension.
    pub file: String,
    pub title: String,
    pub missions: Vec<Entry>,
}

#[derive(Clone, Debug, PartialEq, Eq)]
pub struct Entry {
    pub label: String,
    /// The mission text's name, lower-cased (`tutorial1`).
    pub mission: String,
}

pub type ChapterView = (Text, Text, Seq<(Text, Text)>);

pub open spec fn chapter_view(c: Chapter) -> ChapterView {
    (c.file@, c.title@, c.missions@.map_values(|e: Entry| (e.label@, e.mission@)))
}

pub open spec fn checked_prefix(upper: bool) -> Text {
    if upper { "$Checked="@ } else { "$checked="@ }
}

/// A menu's title and missions from its lines so far.
pub open spec fn menu_lines(ls: Seq<Text>) -> (Text, Seq<(Text, Text)>)
    decreases ls.len(),
{
    if ls.len() == 0 {
        (Seq::empty(), Seq::empty())
    } else {
        let (title, missions) = menu_lines(ls.drop_last());
        let t = trim(ls.last(), Trim::Ws);
        if starts_with(t, checked_prefix(true)) || starts_with(t, checked_prefix(false)) {
            let parts = split_on(t.subrange(9, t.len() as int), ',');
            if parts.len() >= 3 && eq_ignore_case(trim(parts[1], Trim::Ws), "MissionBegin"@) {
                (title, missions.push((trim(parts[0], Trim::Ws), lower_all(trim(parts[2], Trim::Ws)))))
            } else {
                (title, missions)
            }
        } else if title.len() == 0 {
            match find_from(t, '=', 0) {
                Some(i) => if eq_ignore_case(trim(t.subrange(0, i), Trim::Ws), "title"@) {
                    (trim(trim(t.subrange(i + 1, t.len() as int), Trim::Ws), Trim::Char('"')), missions)
                } else {
                    (title, missions)
                },
                None => (title, missions),
            }
        } else {
            (title, missions)
        }
    }
}

/// A chapter menu, or none when it lists no missions.
pub open spec fn spec_chapter(file: Text, text: Text) -> Option<ChapterView> {
    let (title, missions) = menu_lines(lines_of(text));
    if missions.len() == 0 { None } else { Some((lower_all(file), title, missions)) }
}

/// Read one chapter menu; `None` when it lists no missions.
pub fn parse_chapter(file: &str, text: &str) -> (r: Option<Chapter>)
    ensures
        match r {
            Some(c) => spec_chapter(file@, text@) == Some(chapter_view(c)),
            None => spec_chapter(file@, text@) is None,
        },
{
    let ls = lines(chars_of(text).as_slice());
    let up = chars_of("$Checked=");
    let low = chars_of("$checked=");
    let mb = chars_of("MissionBegin");
    let tt = chars_of("title");
    proof {
        reveal_strlit("$Checked=");
        reveal_strlit("$checked=");
    }
    let mut title: Vec<char> = Vec::new();
    let mut missions: Vec<Entry> = Vec::new();
    let mut i: usize = 0;
    while i < ls.len()
        invariant
            i <= ls@.len(),
            views(ls@) == lines_of(text@),
            up@ == checked_prefix(true) && low@ == checked_prefix(false),
            up@.len() == 9 && low@.len() == 9,
            mb@ == "MissionBegin"@ && tt@ == "title"@,
            menu_lines(views(ls@).subrange(0, i as int)) == (title@, missions@.map_values(|e: Entry| (e.label@, e.mission@))),
        decreases ls@.len() - i,
    {
        proof {
            assert(views(ls@).subrange(0, i + 1).drop_last() =~= views(ls@).subrange(0, i as int));
            assert(views(ls@)[i as int] == ls@[i as int]@);
        }
        let t = trimmed(ls[i].as_slice(), Trim::Ws, true, true);
        if has_prefix(t.as_slice(), up.as_slice()) || has_prefix(t.as_slice(), low.as_slice()) {
            let rest = slice_of(t.as_slice(), 9, t.len());
            let parts = split_chars(rest.as_slice(), ',');
            if parts.len() >= 3 {
                let p1 = trimmed(parts[1].as_slice(), Trim::Ws, true, true);
                proof { assert(views(parts@)[1] == parts@[1]@); }
                if eq_ignore_ascii_case(&p1, &mb) {
                    proof { assert(views(parts@)[0] == parts@[0]@ && views(parts@)[2] == parts@[2]@); }
                    let label = string_of(trimmed(parts[0].as_slice(), Trim::Ws, true, true).as_slice());
                    let mission = string_of(lowercase(trimmed(parts[2].as_slice(), Trim::Ws, true, true).as_slice()).as_slice());
                    let ghost before = missions@.map_values(|e: Entry| (e.label@, e.mission@));
                    missions.push(Entry { label, mission });
                    proof {
                        assert(missions@.map_values(|e: Entry| (e.label@, e.mission@)) =~= before.push((label@, mission@)));
                    }
                }
            }
        } else if title.len() == 0 {
            let tl = t.len();
            match find_char(t.as_slice(), '=', 0) {
                Some(e) => {
                    let k = trimmed(slice_of(t.as_slice(), 0, e).as_slice(), Trim::Ws, true, true);
                    if eq_ignore_ascii_case(&k, &tt) {
                        let v = trimmed(slice_of(t.as_slice(), e + 1, tl).as_slice(), Trim::Ws, true, true);
                        title = trimmed(v.as_slice(), Trim::Char('"'), true, true);
                    }
                }
                None => {}
            }
        }
        i = i + 1;
    }
    assert(views(ls@).subrange(0, i as int) =~= views(ls@));
    if missions.len() == 0 {
        None
    } else {
        let f = lowercase(chars_of(file).as_slice());
        Some(Chapter { file: string_of(f.as_slice()), title: string_of(title.as_slice()), missions })
    }
}

/// How hard the campaign's later chapters are: the menu files come in
/// three sets, `offical3` (easy), `offical31` (normal) and `offical32` (hard).
#[derive(Clone, Copy, Debug, PartialEq, Eq, Structural)]
pub enum Difficulty {
    Easy,
    Normal,
    Hard,
}

impl Default for Difficulty {
    fn default() -> (d: Self)
        ensures
            d == Difficulty::Normal,
    {
        Difficulty::Normal
    }
}

/// The digits a menu file of that difficulty adds after the chapter number.
pub open spec fn spec_suffix(d: Difficulty) -> Text {
    match d {
        Difficulty::Easy => Seq::empty(),
        Difficulty::Normal => seq!['1'],
        Difficulty::Hard => seq!['2'],
    }
}

impl Difficulty {
    /// Parse a difficulty's name, ignoring case and surrounding space.
    pub fn parse(s: &str) -> (d: Option<Difficulty>)
        ensures
            d == (if lower_all(trim(s@, Trim::Ws)) == "easy"@ {
                Some(Difficulty::Easy)
            } else if lower_all(trim(s@, Trim::Ws)) == "normal"@ {
                Some(Difficulty::Normal)
            } else if lower_all(trim(s@, Trim::Ws)) == "hard"@ {
                Some(Difficulty::Hard)
            } else {
                None::<Difficulty>
            }),
    {
        let t = lowercase(trimmed(chars_of(s).as_slice(), Trim::Ws, true, true).as_slice());
        let e = chars_of("easy");
        let n = chars_of("normal");
        let h = chars_of("hard");
        if chars_equal(&t, &e) {
            Some(Difficulty::Easy)
        } else if chars_equal(&t, &n) {
            Some(Difficulty::Normal)
        } else if chars_equal(&t, &h) {
            Some(Difficulty::Hard)
        } else {
            None
        }
    }

    fn suffix(self) -> (s: Vec<char>)
        ensures
            s@ == spec_suffix(self),
    {
        let mut s: Vec<char> = Vec::new();
        match self {
            Difficulty::Easy => {}
            Difficulty::Normal => { s.push('1'); }
            Difficulty::Hard => { s.push('2'); }
        }
        assert(s@ =~= spec_suffix(self));
        s
    }
}

pub type Slots = Seq<Option<(bool, ChapterView)>>;

/// The chapter menus from entry `i` on, each filed under its chapter
/// number: one of the difficulty asked for wins over a plain one, and a
/// later one of the same standing over an earlier.
pub open spec fn chapters_from(a: Archive, d: Difficulty, i: int, slots: Slots) -> Slots
    decreases a.entry_count() - i,
{
    if i < 0 || i >= a.entry_count() {
        slots
    } else {
        let next = chapters_from(a, d, i + 1, slots);
        let base = lower_all(spec_basename(a.entry_name(i)));
        let stem = match strip_suffix(base, ".english"@) { Some(x) => x, None => base };
        if !eq_ignore_case(spec_extension(spec_basename(a.entry_name(i))), "english"@) || !starts_with(stem, "offical"@) {
            chapters_from(a, d, i + 1, slots)
        } else {
            let digits = stem.subrange(7, stem.len() as int);
            if digits.len() == 0 || digits.len() > 2 || !crate::strs::all_digits(digits) {
                chapters_from(a, d, i + 1, slots)
            } else {
                let n = digits[0] as int - '0' as int;
                let exact = digits.subrange(1, digits.len() as int) == spec_suffix(d);
                if (!exact && digits.len() != 1) || (slots[n] matches Some((true, _))) {
                    chapters_from(a, d, i + 1, slots)
                } else {
                    match spec_chapter(stem, entry_text(a, i)) {
                        Some(c) => chapters_from(a, d, i + 1, slots.update(n, Some((exact, c)))),
                        None => chapters_from(a, d, i + 1, slots),
                    }
                }
            }
        }
    }
}

/// The filed chapters in chapter order.
pub open spec fn filed(slots: Slots) -> Seq<ChapterView>
    decreases slots.len(),
{
    if slots.len() == 0 {
        Seq::empty()
    } else {
        match slots.last() {
            Some((_, c)) => filed(slots.drop_last()).push(c),
            None => filed(slots.drop_last()),
        }
    }
}

pub open spec fn no_slots() -> Slots {
    Seq::new(10, |i: int| None)
}

pub open spec fn slots_view(v: Seq<Option<(bool, Chapter)>>) -> Slots {
    v.map_values(|o: Option<(bool, Chapter)>| match o { Some((e, c)) => Some((e, chapter_view(c))), None => None })
}

/// The chapters in order, `offical1`, `offical2` and so on, each from its
/// menu at that difficulty where there is one, else from the plain one.
pub fn chapters(archive: &Archive, difficulty: Difficulty) -> (v: Vec<Chapter>)
    requires
        archive.wf(),
    ensures
        v@.map_values(|c: Chapter| chapter_view(c)) == filed(chapters_from(*archive, difficulty, 0, no_slots())),
{
    let mut slots: Vec<Option<(bool, Chapter)>> = Vec::new();
    let mut z: usize = 0;
    while z < 10
        invariant
            z <= 10,
            slots@.len() == z,
            forall|j: int| 0 <= j < z ==> slots@[j] is None,
        decreases 10 - z,
    {
        slots.push(None);
        z = z + 1;
    }
    assert(slots_view(slots@) =~= no_slots());
    let english = chars_of("english");
    let off = chars_of("offical");
    let suffix = difficulty.suffix();
    proof { reveal_strlit("offical"); }
    let es = archive.entries();
    let mut i: usize = 0;
    while i < es.len()
        invariant
            archive.wf(),
            es@.len() == archive.entry_count(),
            forall|j: int| 0 <= j < es@.len() ==> #[trigger] es@[j].name@ == archive.entry_name(j),
            i <= es@.len(),
            english@ == "english"@,
            off@ == "offical"@,
            off@.len() == 7,
            suffix@ == spec_suffix(difficulty),
            slots@.len() == 10,
            chapters_from(*archive, difficulty, 0, no_slots()) == chapters_from(*archive, difficulty, i as int, slots_view(slots@)),
        decreases es@.len() - i,
    {
        let ext = chars_of(es[i].extension().as_str());
        let base = lowercase(chars_of(es[i].basename().as_str()).as_slice());
        let stem = match ends_with_english(base.as_slice()) {
            Some(x) => x,
            None => base,
        };
        if !eq_ignore_ascii_case(&ext, &english) || !has_prefix(stem.as_slice(), off.as_slice()) {
            i = i + 1;
            continue;
        }
        let digits = slice_of(stem.as_slice(), 7, stem.len());
        let dl = digits.len();
        let mut ok = dl > 0 && dl <= 2 && digits[0] >= '0' && digits[0] <= '9';
        if dl == 2 && (digits[1] < '0' || digits[1] > '9') {
            ok = false;
        }
        proof {
            if dl > 0 && dl <= 2 {
                if ok {
                    assert forall|q: int| 0 <= q < digits@.len() implies crate::strs::is_digit(#[trigger] digits@[q]) by {}
                } else if !(digits@[0] >= '0' && digits@[0] <= '9') {
                    assert(!crate::strs::is_digit(digits@[0]));
                } else {
                    assert(!crate::strs::is_digit(digits@[1]));
                }
            }
        }
        if !ok {
            i = i + 1;
            continue;
        }
        let n = ((digits[0] as u32) - ('0' as u32)) as usize;
        let rest = slice_of(digits.as_slice(), 1, dl);
        let exact = chars_equal(&rest, &suffix);
        let taken = match &slots[n] {
            Some((was_exact, _)) => *was_exact,
            None => false,
        };
        proof {
            assert(slots_view(slots@)[n as int] == match slots@[n as int] { Some((e, c)) => Some((e, chapter_view(c))), None => None::<(bool, ChapterView)> });
        }
        if (!exact && dl != 1) || taken {
            i = i + 1;
            continue;
        }
        let stem_s = string_of(stem.as_slice());
        let text = archive.read_text(i);
        match parse_chapter(stem_s.as_str(), text.as_str()) {
            Some(c) => {
                let ghost before = slots_view(slots@);
                let ghost cv = chapter_view(c);
                slots.set(n, Some((exact, c)));
                proof {
                    assert(slots_view(slots@) =~= before.update(n as int, Some((exact, cv))));
                }
            }
            None => {}
        }
        i = i + 1;
    }
    let mut out: Vec<Chapter> = Vec::new();
    let mut j: usize = 0;
    let ghost sv = slots_view(slots@);
    while j < 10
        invariant
            j <= 10,
            slots@.len() == 10,
            sv == slots_view(slots@),
            out@.map_values(|c: Chapter| chapter_view(c)) == filed(sv.subrange(0, j as int)),
        decreases 10 - j,
    {
        proof {
            assert(sv.subrange(0, j + 1).drop_last() =~= sv.subrange(0, j as int));
        }
        match &slots[j] {
            Some((_, c)) => {
                let ghost before = out@.map_values(|c: Chapter| chapter_view(c));
                let copy = copy_chapter(c);
                out.push(copy);
                proof {
                    assert(out@.map_values(|c: Chapter| chapter_view(c)) =~= before.push(chapter_view(*c)));
                }
            }
            None => {}
        }
        j = j + 1;
    }
    assert(sv.subrange(0, 10) =~= sv);
    out
}

fn ends_with_english(s: &[char]) -> (r: Option<Vec<char>>)
    ensures
        match r {
            Some(v) => strip_suffix(s@, ".english"@) == Some(v@),
            None => strip_suffix(s@, ".english"@) is None,
        },
{
    let t = chars_of(".english");
    if crate::strs::has_suffix(s, t.as_slice()) {
        Some(slice_of(s, 0, s.len() - t.len()))
    } else {
        None
    }
}

fn copy_chapter(c: &Chapter) -> (d: Chapter)
    ensures
        chapter_view(d) == chapter_view(*c),
{
    let mut ms: Vec<Entry> = Vec::new();
    let mut i: usize = 0;
    while i < c.missions.len()
        invariant
            i <= c.missions@.len(),
            ms@.map_values(|e: Entry| (e.label@, e.mission@)) == c.missions@.subrange(0, i as int).map_values(|e: Entry| (e.label@, e.mission@)),
        decreases c.missions@.len() - i,
    {
        let e = &c.missions[i];
        let ghost before = ms@.map_values(|e: Entry| (e.label@, e.mission@));
        ms.push(Entry { label: e.label.clone(), mission: e.mission.clone() });
        proof {
            assert(ms@.map_values(|e: Entry| (e.label@, e.mission@)) =~= before.push((e.label@, e.mission@)));
            assert(ms@.map_values(|e: Entry| (e.label@, e.mission@)) =~= c.missions@.subrange(0, i + 1).map_values(|e: Entry| (e.label@, e.mission@)));
        }
        i = i + 1;
    }
    assert(c.missions@.subrange(0, i as int) =~= c.missions@);
    Chapter { file: c.file.clone(), title: c.title.clone(), missions: ms }
}
} // verus!
