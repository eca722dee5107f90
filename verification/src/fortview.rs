//! What the scenario dumper shows of a world table: a character picture
//! of its cells and a count of the codes that are not plain ground.
use vstd::prelude::*;
use crate::fort::{Item, CODE_BRIDGE_FIRST, CODE_BRIDGE_LAST, CODE_GEYSER, CODE_GROUND};
use crate::scenario::{count_code, tally, tally_wf};
use crate::text::string_of;

verus! {

/// The character an item draws: `#` ground, `G` a geyser, `=` a bridge,
/// `?` anything else.
pub open spec fn item_char(code: u8) -> char {
    if code == CODE_GROUND {
        '#'
    } else if code == CODE_GEYSER {
        'G'
    } else if CODE_BRIDGE_FIRST <= code <= CODE_BRIDGE_LAST {
        '='
    } else {
        '?'
    }
}

/// The character of cell (`x`, `y`) after the items in order: `.` where
/// none stands; else the first item's, replaced by a later one where the
/// cell shows ground or the later one is a geyser.
pub open spec fn picture_char(items: Seq<Item>, x: i32, y: i32) -> char
    decreases items.len(),
{
    if items.len() == 0 {
        '.'
    } else {
        let prev = picture_char(items.drop_last(), x, y);
        let it = items.last();
        if it.x == x && it.y == y {
            let ch = item_char(it.code);
            if prev == '.' || prev == '#' || ch == 'G' { ch } else { prev }
        } else {
            prev
        }
    }
}

/// How many items carry `code`, ground not counted.
pub open spec fn code_count(items: Seq<Item>, code: u8) -> nat
    decreases items.len(),
{
    if items.len() == 0 {
        0
    } else {
        code_count(items.drop_last(), code) + if items.last().code == code && code != CODE_GROUND { 1nat } else { 0nat }
    }
}

fn char_of(code: u8) -> (c: char)
    ensures
        c == item_char(code),
{
    if code == CODE_GROUND {
        '#'
    } else if code == CODE_GEYSER {
        'G'
    } else if CODE_BRIDGE_FIRST <= code && code <= CODE_BRIDGE_LAST {
        '='
    } else {
        '?'
    }
}

/// The character cell (`x`, `y`) shows.
pub fn cell_char(items: &[Item], x: i32, y: i32) -> (c: char)
    ensures
        c == picture_char(items@, x, y),
{
    let mut c = '.';
    let mut i: usize = 0;
    while i < items.len()
        invariant
            i <= items@.len(),
            c == picture_char(items@.subrange(0, i as int), x, y),
        decreases items@.len() - i,
    {
        proof {
            assert(items@.subrange(0, i + 1).drop_last() =~= items@.subrange(0, i as int));
        }
        if items[i].x == x && items[i].y == y {
            let ch = char_of(items[i].code);
            if c == '.' || c == '#' || ch == 'G' {
                c = ch;
            }
        }
        i = i + 1;
    }
    proof {
        assert(items@.subrange(0, items@.len() as int) =~= items@);
    }
    c
}

/// The picture of the world table within `x0..=x1` by `y0..=y1`: one row
/// of characters per `y`, top row first.
pub fn world_picture(items: &[Item], x0: i32, y0: i32, x1: i32, y1: i32) -> (rows: Vec<String>)
    requires
        x0 <= x1,
        y0 <= y1,
    ensures
        rows@.len() == y1 - y0 + 1,
        forall|j: int| 0 <= j < rows@.len() ==> (#[trigger] rows@[j])@
            == Seq::new((x1 - x0 + 1) as nat, |i: int| picture_char(items@, (x0 + i) as i32, (y0 + j) as i32)),
{
    let mut rows: Vec<String> = Vec::new();
    let mut y: i32 = y0;
    loop
        invariant_except_break
            rows@.len() == y - y0,
        invariant
            y0 <= y <= y1,
            x0 <= x1,
            forall|j: int| 0 <= j < rows@.len() ==> (#[trigger] rows@[j])@
                == Seq::new((x1 - x0 + 1) as nat, |i: int| picture_char(items@, (x0 + i) as i32, (y0 + j) as i32)),
        ensures
            rows@.len() == y1 - y0 + 1,
            forall|j: int| 0 <= j < rows@.len() ==> (#[trigger] rows@[j])@
                == Seq::new((x1 - x0 + 1) as nat, |i: int| picture_char(items@, (x0 + i) as i32, (y0 + j) as i32)),
        decreases y1 - y,
    {
        let mut row: Vec<char> = Vec::new();
        let mut x: i32 = x0;
        loop
            invariant_except_break
                row@.len() == x - x0,
            invariant
                x0 <= x <= x1,
                y0 <= y <= y1,
                forall|i: int| 0 <= i < row@.len() ==> row@[i] == picture_char(items@, (x0 + i) as i32, y),
            ensures
                row@.len() == x1 - x0 + 1,
                forall|i: int| 0 <= i < row@.len() ==> row@[i] == picture_char(items@, (x0 + i) as i32, y),
            decreases x1 - x,
        {
            row.push(cell_char(items, x, y));
            if x == x1 {
                break;
            }
            x = x + 1;
        }
        let s = string_of(&row);
        proof {
            assert(s@ =~= Seq::new((x1 - x0 + 1) as nat, |i: int| picture_char(items@, (x0 + i) as i32, (y0 + rows@.len()) as i32)));
        }
        rows.push(s);
        if y == y1 {
            break;
        }
        y = y + 1;
    }
    rows
}

/// How many items carry each code other than ground, by ascending code.
pub fn code_counts(items: &[Item]) -> (v: Vec<(u8, usize)>)
    requires
        items@.len() < usize::MAX,
    ensures
        tally_wf(v@),
        forall|c: u8| #[trigger] tally(v@, c) == code_count(items@, c),
{
    let mut v: Vec<(u8, usize)> = Vec::new();
    let mut i: usize = 0;
    while i < items.len()
        invariant
            i <= items@.len() < usize::MAX,
            tally_wf(v@),
            forall|c: u8| #[trigger] tally(v@, c) == code_count(items@.subrange(0, i as int), c),
            forall|c: u8| #[trigger] code_count(items@.subrange(0, i as int), c) <= i,
        decreases items@.len() - i,
    {
        proof {
            assert(items@.subrange(0, i + 1).drop_last() =~= items@.subrange(0, i as int));
        }
        proof {
            assert forall|c: u8| #[trigger] code_count(items@.subrange(0, i + 1), c)
                == code_count(items@.subrange(0, i as int), c) + if items@[i as int].code == c && c != CODE_GROUND { 1nat } else { 0nat } by {
                assert(items@.subrange(0, i + 1).last() == items@[i as int]);
            }
        }
        if items[i].code != CODE_GROUND {
            count_code(&mut v, items[i].code);
        }
        i = i + 1;
    }
    proof {
        assert(items@.subrange(0, items@.len() as int) =~= items@);
    }
    v
}

} // verus!
