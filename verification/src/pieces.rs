//! Bridge pieces: the multi-cell shapes a player drops as one unit, and
//! the Production window that offers them.
use vstd::prelude::*;
use vstd::relations::{sorted_by, total_ordering};
use crate::config::PieceDef;
use crate::grid::{Cell, offset_fits};

verus! {

/// The order of cell offsets: by x, then by y.
pub open spec fn pair_le(a: (i32, i32), b: (i32, i32)) -> bool {
    a.0 < b.0 || (a.0 == b.0 && a.1 <= b.1)
}

pub open spec fn le_fn() -> spec_fn((i32, i32), (i32, i32)) -> bool {
    |a: (i32, i32), b: (i32, i32)| pair_le(a, b)
}

pub proof fn lemma_pair_le_total()
    ensures
        total_ordering(le_fn()),
{
}

/// The smallest first (`fst`) or second coordinate of `s`, 0 for none.
pub open spec fn min_coord(s: Seq<(i32, i32)>, fst: bool) -> int
    decreases s.len(),
{
    if s.len() == 0 {
        0
    } else {
        let v = if fst { s.last().0 as int } else { s.last().1 as int };
        if s.len() == 1 {
            v
        } else {
            let m = min_coord(s.drop_last(), fst);
            if v < m { v } else { m }
        }
    }
}

/// The largest first or second coordinate of `s`, 0 for none.
pub open spec fn max_coord(s: Seq<(i32, i32)>, fst: bool) -> int
    decreases s.len(),
{
    if s.len() == 0 {
        0
    } else {
        let v = if fst { s.last().0 as int } else { s.last().1 as int };
        if s.len() == 1 {
            v
        } else {
            let m = max_coord(s.drop_last(), fst);
            if v > m { v } else { m }
        }
    }
}

/// `s` shifted so that its smallest coordinates are zero.
pub open spec fn shifted(s: Seq<(i32, i32)>) -> Seq<(i32, i32)> {
    s.map_values(|p: (i32, i32)| ((p.0 - min_coord(s, true)) as i32, (p.1 - min_coord(s, false)) as i32))
}

/// The normal form of a shape: shifted to the origin and sorted.
pub open spec fn normal_form(s: Seq<(i32, i32)>) -> Seq<(i32, i32)> {
    shifted(s).sort_by(le_fn())
}

/// The shifts stay in range.
pub open spec fn shift_fits(s: Seq<(i32, i32)>) -> bool {
    forall|i: int| 0 <= i < s.len() ==> #[trigger] s[i].0 - min_coord(s, true) <= i32::MAX
        && s[i].1 - min_coord(s, false) <= i32::MAX
}

/// A quarter turn clockwise on screen: `(x, y)` to `(-y, x)`.
pub open spec fn turned(s: Seq<(i32, i32)>) -> Seq<(i32, i32)> {
    s.map_values(|p: (i32, i32)| ((-p.1) as i32, p.0))
}

/// A piece shape as offsets from its origin cell, normalised so that the
/// smallest x and y offsets are zero.
#[derive(Clone, Debug, PartialEq, Eq)]
pub struct Piece {
    pub name: String,
    pub cells: Vec<(i32, i32)>,
}

proof fn lemma_min_bound(s: Seq<(i32, i32)>, fst: bool, i: int)
    requires
        0 <= i < s.len(),
    ensures
        min_coord(s, fst) <= (if fst { s[i].0 as int } else { s[i].1 as int }),
        max_coord(s, fst) >= (if fst { s[i].0 as int } else { s[i].1 as int }),
        i32::MIN <= min_coord(s, fst) <= i32::MAX,
        i32::MIN <= max_coord(s, fst) <= i32::MAX,
    decreases s.len(),
{
    if i < s.len() - 1 {
        lemma_min_bound(s.drop_last(), fst, i);
    } else if s.len() > 1 {
        lemma_min_bound(s.drop_last(), fst, 0);
    }
}

/// The smallest or largest coordinate of `v`.
fn extreme(v: &Vec<(i32, i32)>, fst: bool, max: bool) -> (m: i32)
    ensures
        m == (if max { max_coord(v@, fst) } else { min_coord(v@, fst) }),
{
    let mut m: i32 = 0;
    let mut k: usize = 0;
    while k < v.len()
        invariant
            k <= v@.len(),
            m == (if max { max_coord(v@.subrange(0, k as int), fst) } else { min_coord(v@.subrange(0, k as int), fst) }),
        decreases v@.len() - k,
    {
        let c: i32 = if fst { v[k].0 } else { v[k].1 };
        proof {
            assert(v@.subrange(0, k + 1).drop_last() =~= v@.subrange(0, k as int));
        }
        if k == 0 || (max && c > m) || (!max && c < m) {
            m = c;
        }
        k = k + 1;
    }
    assert(v@.subrange(0, k as int) =~= v@);
    m
}

fn le(a: (i32, i32), b: (i32, i32)) -> (r: bool)
    ensures
        r == pair_le(a, b),
{
    a.0 < b.0 || (a.0 == b.0 && a.1 <= b.1)
}

/// Sort in place by [`pair_le`].
fn sort_cells(v: &mut Vec<(i32, i32)>)
    ensures
        sorted_by(final(v)@, le_fn()),
        final(v)@.to_multiset() == old(v)@.to_multiset(),
{
    broadcast use vstd::seq_lib::group_to_multiset_ensures;
    let n = v.len();
    let mut i: usize = 1;
    if n == 0 {
        assert(sorted_by(v@, le_fn()));
        return;
    }
    while i < n
        invariant
            1 <= i <= n,
            n == v@.len(),
            sorted_by(v@.subrange(0, i as int), le_fn()),
            v@.to_multiset() == old(v)@.to_multiset(),
        decreases n - i,
    {
        proof {
            assert forall|a: int, b: int| 0 <= a < b < i implies #[trigger] pair_le(v@[a], v@[b]) by {
                assert(le_fn()(v@.subrange(0, i as int)[a], v@.subrange(0, i as int)[b]));
            }
        }
        let mut j: usize = i;
        while j > 0 && !le(v[j - 1], v[j])
            invariant
                0 <= j <= i < n,
                n == v@.len(),
                v@.to_multiset() == old(v)@.to_multiset(),
                forall|a: int, b: int| 0 <= a < b <= i && b != j && a != j ==> #[trigger] pair_le(v@[a], v@[b]),
                forall|a: int, b: int| 0 <= a < j && j < b <= i ==> #[trigger] pair_le(v@[a], v@[b]),
                forall|b: int| j < b <= i ==> #[trigger] pair_le(v@[j as int], v@[b]),
            decreases j,
        {
            let ghost before = v@;
            let a = v[j - 1];
            let b = v[j];
            v.set(j - 1, b);
            v.set(j, a);
            proof {
                assert(v@ =~= before.update(j - 1, b).update(j as int, a));
                lemma_swap_multiset(before, j - 1, j as int);
            }
            j = j - 1;
        }
        proof {
            assert forall|a: int, b: int| 0 <= a < b < i + 1 implies #[trigger] le_fn()(v@.subrange(0, i + 1)[a], v@.subrange(0, i + 1)[b]) by {
                if a == j {
                } else if b == j {
                    if a < j - 1 {
                        assert(pair_le(v@[a], v@[j - 1]));
                    }
                    assert(pair_le(v@[j - 1], v@[j as int]));
                } else {
                    assert(pair_le(v@[a], v@[b]));
                }
            }
        }
        i = i + 1;
    }
    assert(v@.subrange(0, n as int) =~= v@);
}

proof fn lemma_swap_multiset(s: Seq<(i32, i32)>, i: int, j: int)
    requires
        0 <= i < j < s.len(),
    ensures
        s.update(i, s[j]).update(j, s[i]).to_multiset() == s.to_multiset(),
{
    broadcast use vstd::seq_lib::group_to_multiset_ensures;
    let t = s.update(i, s[j]).update(j, s[i]);
    assert(t.to_multiset() =~= s.to_multiset()) by {
        assert forall|x: (i32, i32)| #[trigger] t.to_multiset().count(x) == s.to_multiset().count(x) by {
            lemma_count_swap(s, i, j, x);
        }
    }
}

proof fn lemma_count_swap(s: Seq<(i32, i32)>, i: int, j: int, x: (i32, i32))
    requires
        0 <= i < j < s.len(),
    ensures
        s.update(i, s[j]).update(j, s[i]).to_multiset().count(x) == s.to_multiset().count(x),
{
    let t = s.update(i, s[j]).update(j, s[i]);
    let a = s.subrange(0, i);
    let b = s.subrange(i + 1, j);
    let c = s.subrange(j + 1, s.len() as int);
    assert(s =~= a + seq![s[i]] + b + seq![s[j]] + c);
    assert(t =~= a + seq![s[j]] + b + seq![s[i]] + c);
    vstd::seq_lib::lemma_multiset_commutative(a + seq![s[i]] + b + seq![s[j]], c);
    vstd::seq_lib::lemma_multiset_commutative(a + seq![s[j]] + b + seq![s[i]], c);
    vstd::seq_lib::lemma_multiset_commutative(a + seq![s[i]] + b, seq![s[j]]);
    vstd::seq_lib::lemma_multiset_commutative(a + seq![s[j]] + b, seq![s[i]]);
    vstd::seq_lib::lemma_multiset_commutative(a + seq![s[i]], b);
    vstd::seq_lib::lemma_multiset_commutative(a + seq![s[j]], b);
    vstd::seq_lib::lemma_multiset_commutative(a, seq![s[i]]);
    vstd::seq_lib::lemma_multiset_commutative(a, seq![s[j]]);
}

/// Shift `v` so its smallest coordinates are zero, then sort it.
fn normalise_cells(v: &mut Vec<(i32, i32)>)
    requires
        shift_fits(old(v)@),
    ensures
        final(v)@ == normal_form(old(v)@),
{
    let ghost orig = v@;
    let mx = extreme(v, true, false);
    let my = extreme(v, false, false);
    let mut k: usize = 0;
    while k < v.len()
        invariant
            k <= v@.len() == orig.len(),
            shift_fits(orig),
            mx == min_coord(orig, true),
            my == min_coord(orig, false),
            forall|i: int| k <= i < v@.len() ==> #[trigger] v@[i] == orig[i],
            forall|i: int| 0 <= i < k ==> #[trigger] v@[i] == shifted(orig)[i],
        decreases v@.len() - k,
    {
        let (x, y) = v[k];
        proof {
            lemma_min_bound(orig, true, k as int);
            lemma_min_bound(orig, false, k as int);
        }
        v.set(k, (x - mx, y - my));
        k = k + 1;
    }
    assert(v@ =~= shifted(orig));
    let ghost sh = v@;
    sort_cells(v);
    proof {
        lemma_pair_le_total();
        sh.lemma_sort_by_ensures(le_fn());
        vstd::seq_lib::lemma_sorted_unique(v@, sh.sort_by(le_fn()), le_fn());
    }
}

fn copy_cells(v: &Vec<(i32, i32)>) -> (c: Vec<(i32, i32)>)
    ensures
        c@ == v@,
{
    let mut c: Vec<(i32, i32)> = Vec::new();
    let mut k: usize = 0;
    while k < v.len()
        invariant
            k <= v@.len(),
            c@ == v@.subrange(0, k as int),
        decreases v@.len() - k,
    {
        c.push(v[k]);
        k = k + 1;
    }
    assert(c@ =~= v@);
    c
}

impl Piece {
    /// A piece named `name` with `cells` in normal form.
    pub fn new(name: &str, cells: &[(i32, i32)]) -> (p: Piece)
        requires
            shift_fits(cells@),
        ensures
            p.name@ == name@,
            p.cells@ == normal_form(cells@),
    {
        let mut v: Vec<(i32, i32)> = Vec::new();
        let mut k: usize = 0;
        while k < cells.len()
            invariant
                k <= cells@.len(),
                v@ == cells@.subrange(0, k as int),
            decreases cells@.len() - k,
        {
            v.push(cells[k]);
            k = k + 1;
        }
        assert(v@ =~= cells@);
        normalise_cells(&mut v);
        Piece { name: String::from_str(name), cells: v }
    }

    /// The piece a rules entry describes.
    pub fn from_def(def: &PieceDef) -> (p: Piece)
        requires
            shift_fits(def.cells@.map_values(|c: [i32; 2]| (c[0], c[1]))),
        ensures
            p.name@ == def.name@,
            p.cells@ == normal_form(def.cells@.map_values(|c: [i32; 2]| (c[0], c[1]))),
    {
        let ghost want = def.cells@.map_values(|c: [i32; 2]| (c[0], c[1]));
        let mut v: Vec<(i32, i32)> = Vec::new();
        let mut k: usize = 0;
        while k < def.cells.len()
            invariant
                k <= def.cells@.len(),
                want == def.cells@.map_values(|c: [i32; 2]| (c[0], c[1])),
                v@ == want.subrange(0, k as int),
            decreases def.cells@.len() - k,
        {
            let c = def.cells[k];
            v.push((c[0], c[1]));
            k = k + 1;
        }
        assert(v@ =~= want);
        Piece::new(def.name.as_str(), v.as_slice())
    }

    /// The piece turned a quarter turn clockwise on screen, in normal form.
    pub fn rotated(&self) -> (p: Piece)
        requires
            forall|i: int| 0 <= i < self.cells@.len() ==> #[trigger] self.cells@[i].1 > i32::MIN,
            shift_fits(turned(self.cells@)),
        ensures
            p.name@ == self.name@,
            p.cells@ == normal_form(turned(self.cells@)),
    {
        let mut v: Vec<(i32, i32)> = Vec::new();
        let mut k: usize = 0;
        while k < self.cells.len()
            invariant
                k <= self.cells@.len(),
                forall|i: int| 0 <= i < self.cells@.len() ==> #[trigger] self.cells@[i].1 > i32::MIN,
                v@ == turned(self.cells@).subrange(0, k as int),
            decreases self.cells@.len() - k,
        {
            let (x, y) = self.cells[k];
            v.push((-y, x));
            k = k + 1;
        }
        assert(v@ =~= turned(self.cells@));
        normalise_cells(&mut v);
        Piece { name: self.name.clone(), cells: v }
    }

    /// Absolute cells when the origin sits at `at`.
    pub fn cells_at(&self, at: Cell) -> (v: Vec<Cell>)
        requires
            forall|i: int| 0 <= i < self.cells@.len() ==> offset_fits(at, #[trigger] self.cells@[i].0 as int, self.cells@[i].1 as int),
        ensures
            v@.len() == self.cells@.len(),
            forall|i: int| 0 <= i < v@.len() ==> #[trigger] v@[i] == (Cell { x: (at.x + self.cells@[i].0) as i32, y: (at.y + self.cells@[i].1) as i32 }),
    {
        let mut v: Vec<Cell> = Vec::new();
        let mut k: usize = 0;
        while k < self.cells.len()
            invariant
                k <= self.cells@.len(),
                forall|i: int| 0 <= i < self.cells@.len() ==> offset_fits(at, #[trigger] self.cells@[i].0 as int, self.cells@[i].1 as int),
                v@.len() == k,
                forall|i: int| 0 <= i < k ==> #[trigger] v@[i] == (Cell { x: (at.x + self.cells@[i].0) as i32, y: (at.y + self.cells@[i].1) as i32 }),
            decreases self.cells@.len() - k,
        {
            let (x, y) = self.cells[k];
            v.push(at.offset(x, y));
            k = k + 1;
        }
        v
    }

    /// Width and height of the bounding box in cells (one each way for no cells).
    pub fn size(&self) -> (s: (i32, i32))
        requires
            max_coord(self.cells@, true) < i32::MAX,
            max_coord(self.cells@, false) < i32::MAX,
        ensures
            s.0 == max_coord(self.cells@, true) + 1,
            s.1 == max_coord(self.cells@, false) + 1,
    {
        let w = extreme(&self.cells, true, true);
        let h = extreme(&self.cells, false, true);
        (w + 1, h + 1)
    }

    /// A copy with the same name and cells.
    pub fn duplicate(&self) -> (p: Piece)
        ensures
            p.name@ == self.name@,
            p.cells@ == self.cells@,
    {
        Piece { name: self.name.clone(), cells: copy_cells(&self.cells) }
    }
}


/// A quarter turn of a shape, brought back to normal form: what
/// [`Piece::rotated`] makes of a piece's cells.
pub open spec fn quarter(s: Seq<(i32, i32)>) -> Seq<(i32, i32)> {
    normal_form(turned(s))
}

/// No offset is negative, as in every normal form.
pub open spec fn in_quadrant(s: Seq<(i32, i32)>) -> bool {
    forall|i: int| 0 <= i < s.len() ==> 0 <= (#[trigger] s[i]).0 && 0 <= s[i].1
}

/// What a quarter turn and the shift after it do to one cell, the shift
/// being `(m0, m1)`.
pub open spec fn step_fn(m0: int, m1: int) -> spec_fn((i32, i32)) -> (i32, i32) {
    |p: (i32, i32)| ((((-p.1) as i32) as int - m0) as i32, (p.0 as int - m1) as i32)
}

proof fn lemma_min_attained(s: Seq<(i32, i32)>, fst: bool) -> (i: int)
    requires
        s.len() > 0,
    ensures
        0 <= i < s.len(),
        min_coord(s, fst) == (if fst { s[i].0 as int } else { s[i].1 as int }),
    decreases s.len(),
{
    let last = s.len() - 1;
    if s.len() == 1 {
        last
    } else {
        let i = lemma_min_attained(s.drop_last(), fst);
        let v = if fst { s.last().0 as int } else { s.last().1 as int };
        if v < min_coord(s.drop_last(), fst) {
            last
        } else {
            assert(s.drop_last()[i] == s[i]);
            i
        }
    }
}

/// Two orderings of the same cells have the same smallest coordinates.
proof fn lemma_min_perm(a: Seq<(i32, i32)>, b: Seq<(i32, i32)>, fst: bool)
    requires
        a.to_multiset() == b.to_multiset(),
    ensures
        min_coord(a, fst) == min_coord(b, fst),
{
    broadcast use vstd::seq_lib::group_to_multiset_ensures;
    if a.len() == 0 {
        vstd::seq_lib::to_multiset_len(a);
        vstd::seq_lib::to_multiset_len(b);
    } else {
        let i = lemma_min_attained(a, fst);
        assert(a.contains(a[i]));
        assert(b.to_multiset().count(a[i]) > 0);
        let j = choose|j: int| 0 <= j < b.len() && b[j] == a[i];
        lemma_min_bound(b, fst, j);
        let k = lemma_min_attained(b, fst);
        assert(b.contains(b[k]));
        assert(a.to_multiset().count(b[k]) > 0);
        let l = choose|l: int| 0 <= l < a.len() && a[l] == b[k];
        lemma_min_bound(a, fst, l);
    }
}

/// The smallest coordinates move with the cells.
proof fn lemma_min_shift(a: Seq<(i32, i32)>, b: Seq<(i32, i32)>, c0: int, c1: int, fst: bool)
    requires
        a.len() == b.len() > 0,
        forall|i: int| 0 <= i < a.len() ==> (#[trigger] b[i]).0 == a[i].0 + c0 && b[i].1 == a[i].1 + c1,
    ensures
        min_coord(b, fst) == min_coord(a, fst) + (if fst { c0 } else { c1 }),
    decreases a.len(),
{
    if a.len() > 1 {
        assert forall|i: int| 0 <= i < a.drop_last().len() implies (#[trigger] b.drop_last()[i]).0 == a.drop_last()[i].0 + c0
            && b.drop_last()[i].1 == a.drop_last()[i].1 + c1 by {
            assert(b.drop_last()[i] == b[i]);
        }
        lemma_min_shift(a.drop_last(), b.drop_last(), c0, c1, fst);
    }
    let last = a.len() - 1;
    assert(b[last].0 == a[last].0 + c0 && b[last].1 == a[last].1 + c1);
}

/// Mapping two orderings of the same cells gives two orderings of the
/// same cells.
proof fn lemma_map_perm(a: Seq<(i32, i32)>, b: Seq<(i32, i32)>, f: spec_fn((i32, i32)) -> (i32, i32))
    requires
        a.to_multiset() == b.to_multiset(),
    ensures
        a.map_values(f).to_multiset() == b.map_values(f).to_multiset(),
    decreases a.len(),
{
    broadcast use vstd::seq_lib::group_to_multiset_ensures;
    broadcast use vstd::multiset::group_multiset_axioms;
    if a.len() == 0 {
        vstd::seq_lib::to_multiset_len(a);
        vstd::seq_lib::to_multiset_len(b);
        assert(a.map_values(f) =~= b.map_values(f));
    } else {
        let x = a.last();
        let a1 = a.drop_last();
        assert(a =~= a1.push(x));
        assert(a.contains(x));
        assert(b.to_multiset().count(x) > 0);
        let j = choose|j: int| 0 <= j < b.len() && b[j] == x;
        let b1 = b.remove(j);
        assert(a1.to_multiset() =~= b1.to_multiset());
        lemma_map_perm(a1, b1, f);
        assert(a.map_values(f) =~= a1.map_values(f).push(f(x)));
        let bm = b.map_values(f);
        assert(bm.remove(j) =~= b1.map_values(f));
        assert(bm[j] == f(x));
        assert(bm.contains(f(x)));
        assert(bm.to_multiset() =~= b1.map_values(f).to_multiset().insert(f(x)));
    }
}

/// Cells that are a reordering of cells in the quadrant are in it too.
proof fn lemma_perm_quadrant(a: Seq<(i32, i32)>, b: Seq<(i32, i32)>)
    requires
        a.to_multiset() == b.to_multiset(),
        in_quadrant(a),
    ensures
        in_quadrant(b),
{
    broadcast use vstd::seq_lib::group_to_multiset_ensures;
    assert forall|j: int| 0 <= j < b.len() implies 0 <= (#[trigger] b[j]).0 && 0 <= b[j].1 by {
        assert(b.contains(b[j]));
        assert(a.to_multiset().count(b[j]) > 0);
        let i = choose|i: int| 0 <= i < a.len() && a[i] == b[j];
    }
}

/// Cells in the quadrant can be shifted to the origin.
proof fn lemma_quadrant_fits(s: Seq<(i32, i32)>)
    requires
        in_quadrant(s),
    ensures
        shift_fits(s),
{
    if s.len() > 0 {
        let a = lemma_min_attained(s, true);
        let b = lemma_min_attained(s, false);
    }
}

/// A normal form is sorted, is a reordering of the shifted cells, and
/// starts at the origin.
proof fn lemma_normal_form(s: Seq<(i32, i32)>)
    requires
        shift_fits(s),
    ensures
        sorted_by(normal_form(s), le_fn()),
        normal_form(s).to_multiset() == shifted(s).to_multiset(),
        s.len() > 0 ==> min_coord(normal_form(s), true) == 0 && min_coord(normal_form(s), false) == 0,
{
    lemma_pair_le_total();
    shifted(s).lemma_sort_by_ensures(le_fn());
    if s.len() > 0 {
        let (m0, m1) = (min_coord(s, true), min_coord(s, false));
        assert forall|i: int| 0 <= i < s.len() implies (#[trigger] shifted(s)[i]).0 == s[i].0 + (-m0)
            && shifted(s)[i].1 == s[i].1 + (-m1) by {
            lemma_min_bound(s, true, i);
            lemma_min_bound(s, false, i);
        }
        lemma_min_shift(s, shifted(s), -m0, -m1, true);
        lemma_min_shift(s, shifted(s), -m0, -m1, false);
        lemma_min_perm(normal_form(s), shifted(s), true);
        lemma_min_perm(normal_form(s), shifted(s), false);
    }
}

/// One quarter turn of cells in the quadrant: it can be made, stays in
/// the quadrant, and moves each cell by `step_fn` with the turned cells'
/// smallest coordinates.
proof fn lemma_quarter(s: Seq<(i32, i32)>)
    requires
        in_quadrant(s),
    ensures
        forall|i: int| 0 <= i < s.len() ==> #[trigger] s[i].1 > i32::MIN,
        shift_fits(turned(s)),
        in_quadrant(quarter(s)),
        sorted_by(quarter(s), le_fn()),
        quarter(s).to_multiset()
            == s.map_values(step_fn(min_coord(turned(s), true), min_coord(turned(s), false))).to_multiset(),
        s.len() > 0 ==> min_coord(quarter(s), true) == 0 && min_coord(quarter(s), false) == 0,
        forall|i: int| 0 <= i < s.len() ==> -s[i].1 - min_coord(turned(s), true) >= 0
            && s[i].0 - min_coord(turned(s), false) >= 0
            && -s[i].1 - min_coord(turned(s), true) <= i32::MAX
            && s[i].0 - min_coord(turned(s), false) <= i32::MAX,
{
    let t = turned(s);
    let (m0, m1) = (min_coord(t, true), min_coord(t, false));
    assert forall|i: int| 0 <= i < s.len() implies -s[i].1 - m0 >= 0 && s[i].0 - m1 >= 0
        && -s[i].1 - m0 <= i32::MAX && s[i].0 - m1 <= i32::MAX by {
        lemma_min_bound(t, true, i);
        lemma_min_bound(t, false, i);
        let a = lemma_min_attained(t, true);
        let b = lemma_min_attained(t, false);
        assert(t[a] == ((-s[a].1) as i32, s[a].0));
        assert(t[b] == ((-s[b].1) as i32, s[b].0));
    }
    assert(shifted(t) =~= s.map_values(step_fn(m0, m1)));
    lemma_normal_form(t);
    let sh = shifted(t);
    assert(in_quadrant(sh));
    lemma_perm_quadrant(sh, quarter(s));
}

/// Normalising twice is normalising once, and a normal form has no
/// negative offset: every piece `Piece::new` makes is in normal form.
pub proof fn normal_form_is_stable(t: Seq<(i32, i32)>)
    requires
        shift_fits(t),
    ensures
        in_quadrant(normal_form(t)),
        normal_form(normal_form(t)) == normal_form(t),
{
    let n = normal_form(t);
    lemma_normal_form(t);
    assert forall|i: int| 0 <= i < t.len() implies 0 <= (#[trigger] shifted(t)[i]).0 && 0 <= shifted(t)[i].1 by {
        lemma_min_bound(t, true, i);
        lemma_min_bound(t, false, i);
    }
    lemma_perm_quadrant(shifted(t), n);
    lemma_quadrant_fits(n);
    lemma_normal_form(n);
    broadcast use vstd::seq_lib::group_to_multiset_ensures;
    vstd::seq_lib::to_multiset_len(n);
    vstd::seq_lib::to_multiset_len(shifted(t));
    assert(shifted(n) =~= n);
    lemma_pair_le_total();
    vstd::seq_lib::lemma_sorted_unique(normal_form(n), n, le_fn());
}

/// A quarter turn of cells with no negative offset can be made, and
/// leaves no negative offset: a turned piece can be turned again.
pub proof fn a_turned_shape_turns_again(s: Seq<(i32, i32)>)
    requires
        in_quadrant(s),
    ensures
        forall|i: int| 0 <= i < s.len() ==> #[trigger] s[i].1 > i32::MIN,
        shift_fits(turned(s)),
        in_quadrant(quarter(s)),
{
    lemma_quarter(s);
}

/// Four quarter turns bring a shape in normal form back to itself:
/// turning a piece four times gives the piece.
pub proof fn four_quarter_turns_return_the_shape(s: Seq<(i32, i32)>)
    requires
        s == normal_form(s),
        in_quadrant(s),
    ensures
        quarter(quarter(quarter(quarter(s)))) == s,
{
    broadcast use vstd::seq_lib::group_to_multiset_ensures;
    let s1 = quarter(s);
    let s2 = quarter(s1);
    let s3 = quarter(s2);
    let s4 = quarter(s3);
    lemma_quarter(s);
    lemma_quarter(s1);
    lemma_quarter(s2);
    lemma_quarter(s3);
    let (a1, b1) = (min_coord(turned(s), true), min_coord(turned(s), false));
    let (a2, b2) = (min_coord(turned(s1), true), min_coord(turned(s1), false));
    let (a3, b3) = (min_coord(turned(s2), true), min_coord(turned(s2), false));
    let (a4, b4) = (min_coord(turned(s3), true), min_coord(turned(s3), false));
    let x1 = s.map_values(step_fn(a1, b1));
    let x2 = x1.map_values(step_fn(a2, b2));
    let x3 = x2.map_values(step_fn(a3, b3));
    let x4 = x3.map_values(step_fn(a4, b4));
    lemma_map_perm(s1, x1, step_fn(a2, b2));
    lemma_map_perm(s2, x2, step_fn(a3, b3));
    lemma_map_perm(s3, x3, step_fn(a4, b4));
    // Each cell's path through the four turns, exactly.
    assert forall|i: int| 0 <= i < s.len() implies (#[trigger] x4[i]).0 == s[i].0 - b1 + a2 + b3 - a4
        && x4[i].1 == s[i].1 + a1 + b2 - a3 - b4 by {
        assert(x1[i] == ((-s[i].1 - a1) as i32, (s[i].0 - b1) as i32));
        assert(x1.to_multiset() == s1.to_multiset());
        assert(x1.contains(x1[i]));
        assert(s1.to_multiset().count(x1[i]) > 0);
        let j1 = choose|j: int| 0 <= j < s1.len() && s1[j] == x1[i];
        assert(x2[i] == ((-x1[i].1 - a2) as i32, (x1[i].0 - b2) as i32));
        assert(x2.contains(x2[i]));
        assert(s2.to_multiset().count(x2[i]) > 0);
        let j2 = choose|j: int| 0 <= j < s2.len() && s2[j] == x2[i];
        assert(x3[i] == ((-x2[i].1 - a3) as i32, (x2[i].0 - b3) as i32));
        assert(x3.contains(x3[i]));
        assert(s3.to_multiset().count(x3[i]) > 0);
        let j3 = choose|j: int| 0 <= j < s3.len() && s3[j] == x3[i];
        assert(x4[i] == ((-x3[i].1 - a4) as i32, (x3[i].0 - b4) as i32));
    }
    assert(s3.to_multiset() == x3.to_multiset());
    assert(s4.to_multiset() == x4.to_multiset());
    vstd::seq_lib::to_multiset_len(s3);
    vstd::seq_lib::to_multiset_len(x3);
    assert(s3.len() == s.len());
    if s.len() > 0 {
        lemma_quadrant_fits(s);
        lemma_normal_form(s);
        lemma_min_shift(s, x4, -b1 + a2 + b3 - a4, a1 + b2 - a3 - b4, true);
        lemma_min_shift(s, x4, -b1 + a2 + b3 - a4, a1 + b2 - a3 - b4, false);
        lemma_min_perm(s4, x4, true);
        lemma_min_perm(s4, x4, false);
    }
    assert(x4 =~= s);
    lemma_pair_le_total();
    vstd::seq_lib::lemma_sorted_unique(s4, s, le_fn());
}

/// The cells a rules entry lists, as offsets.
pub open spec fn def_cells(d: PieceDef) -> Seq<(i32, i32)> {
    d.cells@.map_values(|c: [i32; 2]| (c[0], c[1]))
}

/// A piece as a name and its cells.
pub open spec fn piece_view(p: Piece) -> (Seq<char>, Seq<(i32, i32)>) {
    (p.name@, p.cells@)
}

pub open spec fn pieces_view(v: Seq<Piece>) -> Seq<(Seq<char>, Seq<(i32, i32)>)> {
    v.map_values(|p: Piece| piece_view(p))
}

/// One step of the queue's xorshift generator.
pub open spec fn xorshift(r: u64) -> u64 {
    let a = r ^ (r << 13u64);
    let b = a ^ (a >> 7u64);
    b ^ (b << 17u64)
}

/// The generator state after `k` steps from `r`.
pub open spec fn xorshift_n(r: u64, k: nat) -> u64
    decreases k,
{
    if k == 0 { r } else { xorshift(xorshift_n(r, (k - 1) as nat)) }
}

/// The catalogue index a generator state picks among `n` pieces.
pub open spec fn pick(r: u64, n: nat) -> int {
    ((r >> 33u64) as nat % n) as int
}

/// The Production window: a few random pieces, each replaced by another
/// random piece when used. Deterministic given the seed.
#[derive(Clone, Debug, PartialEq, Eq)]
pub struct PieceQueue {
    pub slots: Vec<Piece>,
    catalogue: Vec<Piece>,
    rng: u64,
}

impl PieceQueue {
    pub closed spec fn catalogue_view(&self) -> Seq<(Seq<char>, Seq<(i32, i32)>)> {
        pieces_view(self.catalogue@)
    }

    pub closed spec fn state(&self) -> u64 {
        self.rng
    }

    /// The pieces on offer, in slot order.
    pub closed spec fn slots_view(&self) -> Seq<(Seq<char>, Seq<(i32, i32)>)> {
        pieces_view(self.slots@)
    }

    /// Draw the next piece: step the generator and take the catalogue
    /// entry it picks.
    fn draw(&mut self) -> (p: Piece)
        requires
            old(self).catalogue@.len() > 0,
        ensures
            final(self).rng == xorshift(old(self).rng),
            final(self).catalogue == old(self).catalogue,
            final(self).slots == old(self).slots,
            piece_view(p) == pieces_view(old(self).catalogue@)[pick(final(self).rng, old(self).catalogue@.len())],
    {
        let mut r = self.rng;
        r = r ^ (r << 13u64);
        r = r ^ (r >> 7u64);
        r = r ^ (r << 17u64);
        self.rng = r;
        let i = ((r >> 33u64) as usize) % self.catalogue.len();
        proof {
            assert((r >> 33u64) <= 0x7fff_ffff) by (bit_vector);
        }
        self.catalogue[i].duplicate()
    }

    /// A queue of `slots` pieces drawn from `catalogue`, the generator
    /// seeded with `seed` (made odd); empty when the catalogue is.
    pub fn new(catalogue: Vec<Piece>, slots: usize, seed: u64) -> (q: PieceQueue)
        ensures
            q.catalogue_view() == pieces_view(catalogue@),
            catalogue@.len() == 0 ==> q.slots_view().len() == 0 && q.state() == seed | 1,
            catalogue@.len() > 0 ==> q.state() == xorshift_n(seed | 1, slots as nat)
                && q.slots_view() == Seq::new(slots as nat, |i: int|
                    pieces_view(catalogue@)[pick(xorshift_n(seed | 1, (i + 1) as nat), catalogue@.len())]),
    {
        let mut q = PieceQueue { slots: Vec::new(), catalogue, rng: seed | 1 };
        if q.catalogue.len() == 0 {
            return q;
        }
        let ghost cat = pieces_view(q.catalogue@);
        let ghost n = q.catalogue@.len();
        let mut k: usize = 0;
        while k < slots
            invariant
                k <= slots,
                n == q.catalogue@.len() > 0,
                cat == pieces_view(q.catalogue@),
                q.rng == xorshift_n(seed | 1, k as nat),
                q.slots@.len() == k,
                pieces_view(q.slots@) == Seq::new(k as nat, |i: int| cat[pick(xorshift_n(seed | 1, (i + 1) as nat), n)]),
            decreases slots - k,
        {
            let p = q.draw();
            let ghost before = pieces_view(q.slots@);
            q.slots.push(p);
            proof {
                assert(xorshift_n(seed | 1, (k + 1) as nat) == xorshift(xorshift_n(seed | 1, k as nat)));
                assert(q.rng == xorshift_n(seed | 1, (k + 1) as nat));
                assert(piece_view(p) == cat[pick(q.rng, n)]);
                assert(pieces_view(q.slots@)[k as int] == piece_view(p));
                assert(pieces_view(q.slots@).len() == k + 1);
                assert(pieces_view(q.slots@) =~= before.push(piece_view(p)));
                assert(pieces_view(q.slots@) =~= Seq::new((k + 1) as nat, |i: int| cat[pick(xorshift_n(seed | 1, (i + 1) as nat), n)]));
            }
            k = k + 1;
        }
        q
    }

    /// A queue over the pieces the rules list.
    pub fn from_defs(defs: &[PieceDef], slots: usize, seed: u64) -> (q: PieceQueue)
        requires
            forall|i: int| 0 <= i < defs@.len() ==> shift_fits(def_cells(#[trigger] defs@[i])),
        ensures
            q.catalogue_view().len() == defs@.len(),
            forall|i: int| 0 <= i < defs@.len() ==> #[trigger] q.catalogue_view()[i]
                == (defs@[i].name@, normal_form(def_cells(defs@[i]))),
            defs@.len() == 0 ==> q.slots_view().len() == 0 && q.state() == seed | 1,
            defs@.len() > 0 ==> q.state() == xorshift_n(seed | 1, slots as nat)
                && q.slots_view() == Seq::new(slots as nat, |i: int|
                    q.catalogue_view()[pick(xorshift_n(seed | 1, (i + 1) as nat), defs@.len())]),
    {
        let mut cat: Vec<Piece> = Vec::new();
        let mut k: usize = 0;
        while k < defs.len()
            invariant
                k <= defs@.len(),
                forall|i: int| 0 <= i < defs@.len() ==> shift_fits(def_cells(#[trigger] defs@[i])),
                cat@.len() == k,
                forall|i: int| 0 <= i < k ==> #[trigger] piece_view(cat@[i])
                    == (defs@[i].name@, normal_form(def_cells(defs@[i]))),
            decreases defs@.len() - k,
        {
            cat.push(Piece::from_def(&defs[k]));
            k = k + 1;
        }
        PieceQueue::new(cat, slots, seed)
    }

    /// Replace the piece in `slot` with a new random one; returns the old
    /// piece, or `None` (and changes nothing) for a slot that is not there.
    pub fn refill(&mut self, slot: usize) -> (old_piece: Option<Piece>)
        requires
            slot < old(self).slots_view().len() ==> old(self).catalogue_view().len() > 0,
        ensures
            final(self).catalogue_view() == old(self).catalogue_view(),
            slot >= old(self).slots_view().len() ==> old_piece is None && *final(self) == *old(self),
            slot < old(self).slots_view().len() ==> {
                &&& old_piece matches Some(p) && piece_view(p) == old(self).slots_view()[slot as int]
                &&& final(self).state() == xorshift(old(self).state())
                &&& final(self).slots_view() == old(self).slots_view().update(slot as int,
                    old(self).catalogue_view()[pick(final(self).state(), old(self).catalogue_view().len())])
            },
    {
        if slot >= self.slots.len() {
            return None;
        }
        let next = self.draw();
        let old_piece = self.slots[slot].duplicate();
        self.slots.set(slot, next);
        proof {
            assert(pieces_view(self.slots@) =~= pieces_view(old(self).slots@).update(slot as int, piece_view(next)));
        }
        Some(old_piece)
    }
}
} // verus!
