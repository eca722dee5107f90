//! The original's campaign scenarios as maps: the ground of a `.fort`
//! file's world table gathered into islands, the things on it placed,
//! and each player's seat and fortress plan. Where the fortresses go on
//! the ring round the world table, and the shape of their islands, is
//! drawn with floating point around this library.
use vstd::prelude::*;
use crate::grid::{cell_at, Cell};
use crate::bytes::{hex_pair, push_hex};
use crate::config::FortRules;
use crate::fort::{
    spec_ground, spec_owner, Fort, Fortress, Item, CODE_ALTAR_FIRST, CODE_ALTAR_LAST, CODE_BRIDGE_FIRST, CODE_BRIDGE_LAST,
    CODE_GEYSER, CODE_GROUND, CODE_TEMPLE,
};
use crate::generate::Report;
use crate::island::{cell_lt, sorted_cells, IslandMap};
use crate::map::{BridgeDef, IslandDef, MapDef, OpponentDef, PlacementDef, UnitDef};
use crate::mission::{ai_key, find_key, pairs_view, spec_get, spec_techs, Mission, Pairs};
use crate::strs::{decimal, ends_with, has_prefix, has_suffix, parse_int, push_decimal, starts_with, trim, Trim};
use crate::text::{chars_of, push_all, str_eq, string_of, strings_view};

verus! {

/// Two cells side by side or one above the other.
pub open spec fn adjacent(a: Cell, b: Cell) -> bool {
    (a.x == b.x && (a.y == b.y + 1 || a.y + 1 == b.y)) || (a.y == b.y && (a.x == b.x + 1 || a.x + 1 == b.x))
}

/// The cells the world table marks as ground.
pub open spec fn ground_cells(g: Seq<(i32, i32, u8)>) -> Set<Cell> {
    Set::new(|c: Cell| exists|i: int| 0 <= i < g.len() && (#[trigger] g[i]).0 == c.x && g[i].1 == c.y)
}

/// Whether `c` is in one of the lists.
pub open spec fn listed(isl: Seq<Seq<Cell>>, c: Cell) -> bool {
    exists|k: int| 0 <= k < isl.len() && (#[trigger] isl[k]).contains(c)
}

/// Every listed cell is ground.
pub open spec fn all_ground(isl: Seq<Seq<Cell>>, ground: Set<Cell>) -> bool {
    forall|k: int, i: int| 0 <= k < isl.len() && 0 <= i < isl[k].len() ==> ground.contains(#[trigger] isl[k][i])
}

/// No cell is listed twice, in one list or in two.
pub open spec fn all_distinct(isl: Seq<Seq<Cell>>) -> bool {
    &&& forall|k: int, i: int, j: int| 0 <= k < isl.len() && 0 <= i < j < isl[k].len() ==> #[trigger] isl[k][i] != #[trigger] isl[k][j]
    &&& forall|k1: int, k2: int, c: Cell| 0 <= k1 < k2 < isl.len() && #[trigger] isl[k1].contains(c) ==> !#[trigger] isl[k2].contains(c)
}

/// Each list starts at the least ground cell that no earlier list holds.
pub open spec fn ordered_by_first(isl: Seq<Seq<Cell>>, ground: Set<Cell>) -> bool {
    forall|k: int| 0 <= k < isl.len() ==> (#[trigger] isl[k]).len() > 0
        && forall|c: Cell| ground.contains(c) && cell_lt(c, isl[k][0]) ==> #[trigger] listed(isl.subrange(0, k), c)
}

/// Cell `i` of `s` touches an earlier one.
pub open spec fn touches_earlier(s: Seq<Cell>, i: int) -> bool {
    exists|j: int| 0 <= j < i && #[trigger] adjacent(s[i], s[j])
}

/// Each cell of a list after the first touches an earlier one: a list is
/// connected.
pub open spec fn connected(s: Seq<Cell>) -> bool {
    forall|i: int| 0 < i < s.len() ==> #[trigger] touches_earlier(s, i)
}

/// No ground cell outside a list touches it.
pub open spec fn closed(s: Seq<Cell>, ground: Set<Cell>) -> bool {
    forall|i: int, c: Cell| 0 <= i < s.len() && ground.contains(c) && #[trigger] adjacent(c, s[i]) ==> s.contains(c)
}

/// `isl` is `ground` split into its connected parts: every ground cell
/// once, each list connected and closed, in the order of their least
/// cells.
pub open spec fn components(isl: Seq<Seq<Cell>>, ground: Set<Cell>) -> bool {
    &&& all_ground(isl, ground)
    &&& all_distinct(isl)
    &&& forall|c: Cell| ground.contains(c) ==> #[trigger] listed(isl, c)
    &&& ordered_by_first(isl, ground)
    &&& forall|k: int| 0 <= k < isl.len() ==> connected(#[trigger] isl[k])
    &&& forall|k: int| 0 <= k < isl.len() ==> closed(#[trigger] isl[k], ground)
}

pub open spec fn cells_view(v: Seq<Vec<Cell>>) -> Seq<Seq<Cell>> {
    v.map_values(|x: Vec<Cell>| x@)
}

/// Ground away from the edges of the `i32` grid, so that every ground
/// cell has four neighbours.
pub open spec fn inside_grid(g: Seq<(i32, i32, u8)>) -> bool {
    forall|i: int| 0 <= i < g.len() ==> i32::MIN < (#[trigger] g[i]).0 < i32::MAX && i32::MIN < g[i].1 < i32::MAX
}

fn same_cell(a: Cell, b: Cell) -> (r: bool)
    ensures
        r == (a == b),
{
    a.x == b.x && a.y == b.y
}

/// Where `c` is in the sorted `g`.
fn index_in(g: &Vec<Cell>, c: Cell) -> (r: Option<usize>)
    requires
        sorted_cells(g@),
    ensures
        match r {
            Some(i) => i < g@.len() && g@[i as int] == c,
            None => !g@.contains(c),
        },
{
    let mut lo: usize = 0;
    let mut hi: usize = g.len();
    while lo < hi
        invariant
            lo <= hi <= g@.len(),
            sorted_cells(g@),
            forall|i: int| 0 <= i < lo ==> cell_lt(#[trigger] g@[i], c),
            forall|i: int| hi <= i < g@.len() ==> cell_lt(c, #[trigger] g@[i]),
        decreases hi - lo,
    {
        let mid = lo + (hi - lo) / 2;
        let m = g[mid];
        if same_cell(m, c) {
            return Some(mid);
        }
        if m.x < c.x || (m.x == c.x && m.y < c.y) {
            proof {
                assert forall|i: int| 0 <= i < mid + 1 implies cell_lt(#[trigger] g@[i], c) by {
                    if i < mid {
                        assert(cell_lt(g@[i], g@[mid as int]));
                    }
                }
            }
            lo = mid + 1;
        } else {
            proof {
                assert forall|i: int| mid <= i < g@.len() implies cell_lt(c, #[trigger] g@[i]) by {
                    if i > mid {
                        assert(cell_lt(g@[mid as int], g@[i]));
                    }
                }
            }
            hi = mid;
        }
    }
    proof {
        if g@.contains(c) {
            let i = choose|i: int| 0 <= i < g@.len() && g@[i] == c;
            assert(cell_lt(g@[i], c) || cell_lt(c, g@[i]));
        }
    }
    None
}

/// The ground cells, sorted.
fn ground_list(ground: &[(i32, i32, u8)]) -> (g: Vec<Cell>)
    ensures
        sorted_cells(g@),
        g@.to_set() == ground_cells(ground@),
{
    let mut m = IslandMap::new();
    let mut k: usize = 0;
    while k < ground.len()
        invariant
            k <= ground@.len(),
            m.wf(),
            m.view() == ground_cells(ground@.subrange(0, k as int)),
        decreases ground@.len() - k,
    {
        let (x, y, _) = ground[k];
        let ghost before = m.view();
        m.insert(Cell::new(x, y));
        proof {
            let sub = ground@.subrange(0, k + 1);
            assert forall|c: Cell| m.view().contains(c) <==> ground_cells(sub).contains(c) by {
                if ground_cells(sub).contains(c) {
                    let i = choose|i: int| 0 <= i < sub.len() && (#[trigger] sub[i]).0 == c.x && sub[i].1 == c.y;
                    if i < k {
                        assert(ground@.subrange(0, k as int)[i] == sub[i]);
                    }
                }
                if before.contains(c) {
                    let i = choose|i: int| 0 <= i < k && (#[trigger] ground@.subrange(0, k as int)[i]).0 == c.x
                        && ground@.subrange(0, k as int)[i].1 == c.y;
                    assert(sub[i] == ground@.subrange(0, k as int)[i]);
                }
                if c == (Cell { x, y }) {
                    assert(sub[k as int] == ground@[k as int]);
                }
            }
            assert(m.view() =~= ground_cells(sub));
        }
        k = k + 1;
    }
    assert(ground@.subrange(0, k as int) =~= ground@);
    m.cells()
}


/// How many entries are zero: cells not yet taken.
spec fn zeros(m: Seq<usize>) -> nat
    decreases m.len(),
{
    if m.len() == 0 {
        0
    } else {
        zeros(m.drop_last()) + if m.last() == 0 { 1nat } else { 0nat }
    }
}

proof fn lemma_zeros_set(m: Seq<usize>, i: int, v: usize)
    requires
        0 <= i < m.len(),
        m[i] == 0,
        v > 0,
    ensures
        zeros(m.update(i, v)) + 1 == zeros(m),
    decreases m.len(),
{
    if i < m.len() - 1 {
        assert(m.update(i, v).drop_last() =~= m.drop_last().update(i, v));
        lemma_zeros_set(m.drop_last(), i, v);
    } else {
        assert(m.update(i, v).drop_last() =~= m.drop_last());
    }
}

/// Marks between islands: 0 for a cell not taken yet, `k + 1` for one
/// that island `k` holds.
spec fn marks_agree(g: Seq<Cell>, mark: Seq<usize>, d: Seq<Seq<Cell>>) -> bool {
    &&& forall|i: int| 0 <= i < mark.len() ==> #[trigger] mark[i] <= d.len()
    &&& forall|i: int| 0 <= i < mark.len() && #[trigger] mark[i] > 0 ==> d[mark[i] - 1].contains(g[i])
    &&& forall|i: int| 0 <= i < mark.len() && #[trigger] mark[i] == 0 ==> !listed(d, g[i])
}

/// The islands so far are parts of the ground as `components` has them,
/// but for covering it.
spec fn parts_so_far(d: Seq<Seq<Cell>>, gset: Set<Cell>) -> bool {
    &&& all_ground(d, gset)
    &&& all_distinct(d)
    &&& ordered_by_first(d, gset)
    &&& forall|k: int| 0 <= k < d.len() ==> connected(#[trigger] d[k])
    &&& forall|k: int| 0 <= k < d.len() ==> closed(#[trigger] d[k], gset)
}

proof fn lemma_sorted_index(g: Seq<Cell>, a: int, b: int)
    requires
        sorted_cells(g),
        0 <= a < g.len(),
        0 <= b < g.len(),
    ensures
        g[a] == g[b] <==> a == b,
        cell_lt(g[a], g[b]) <==> a < b,
{
    if a < b {
        assert(cell_lt(g[a], g[b]));
    } else if b < a {
        assert(cell_lt(g[b], g[a]));
    }
}

/// Push the index of `c` if `c` is an untaken ground cell.
fn push_untaken(g: &Vec<Cell>, mark: &Vec<usize>, stack: &mut Vec<usize>, c: Cell)
    requires
        sorted_cells(g@),
        mark@.len() == g@.len(),
    ensures
        forall|x: usize| old(stack)@.contains(x) ==> #[trigger] final(stack)@.contains(x),
        forall|x: usize| #[trigger] final(stack)@.contains(x) ==> old(stack)@.contains(x) || (x < g@.len() && g@[x as int] == c),
        forall|j: int| 0 <= j < g@.len() && g@[j] == c && mark@[j] == 0 ==> final(stack)@.contains(j as usize),
        final(stack)@.len() <= old(stack)@.len() + 1,
{
    let ghost before = stack@;
    match index_in(g, c) {
        Some(j) => {
            proof {
                assert forall|i: int| 0 <= i < g@.len() && g@[i] == c implies i == j by {
                    lemma_sorted_index(g@, i, j as int);
                }
            }
            if mark[j] == 0 {
                stack.push(j);
                proof {
                    assert(stack@[stack@.len() - 1] == j);
                    assert forall|x: usize| before.contains(x) implies #[trigger] stack@.contains(x) by {
                        let s = choose|s: int| 0 <= s < before.len() && before[s] == x;
                        assert(stack@[s] == before[s]);
                    }
                    assert forall|x: usize| #[trigger] stack@.contains(x) implies before.contains(x) || (x < g@.len() && g@[x as int] == c) by {
                        let s = choose|s: int| 0 <= s < stack@.len() && stack@[s] == x;
                        if s < before.len() {
                            assert(before[s] == x);
                        }
                    }
                }
            }
        },
        None => {},
    }
}

proof fn lemma_pop_contains(st: Seq<usize>, x: usize)
    requires
        st.len() > 0,
    ensures
        st.drop_last().contains(x) ==> st.contains(x),
        st.contains(x) && x != st.last() ==> st.drop_last().contains(x),
{
    if st.drop_last().contains(x) {
        let s = choose|s: int| 0 <= s < st.drop_last().len() && st.drop_last()[s] == x;
        assert(st[s] == x);
    }
    if st.contains(x) && x != st.last() {
        let s = choose|s: int| 0 <= s < st.len() && st[s] == x;
        assert(st.drop_last()[s] == x);
    }
}

proof fn lemma_connected_push(s: Seq<Cell>, c: Cell, b: int)
    requires
        connected(s),
        0 <= b < s.len(),
        adjacent(c, s[b]),
    ensures
        connected(s.push(c)),
{
    let t = s.push(c);
    assert forall|i: int| 0 < i < t.len() implies #[trigger] touches_earlier(t, i) by {
        if i < s.len() {
            assert(t[i] == s[i]);
            assert(touches_earlier(s, i));
            let j = choose|j: int| 0 <= j < i && #[trigger] adjacent(s[i], s[j]);
            assert(t[j] == s[j]);
            assert(adjacent(t[i], t[j]));
        } else {
            assert(t[b] == s[b]);
            assert(adjacent(t[i], t[b]));
        }
    }
}

proof fn lemma_neighbour(a: Cell, c: Cell)
    requires
        adjacent(a, c),
        i32::MIN < c.x < i32::MAX,
        i32::MIN < c.y < i32::MAX,
    ensures
        a == cell_at(c.x + 1, c.y as int) || a == cell_at(c.x - 1, c.y as int) || a == cell_at(c.x as int, c.y + 1)
            || a == cell_at(c.x as int, c.y - 1),
{
}

/// Walk from the untaken ground cell `g[start]` through untaken ground,
/// marking each cell reached with `id`: the cells come back in the order
/// they were reached, and they are closed, as the earlier islands `d` are.
#[verifier::rlimit(100)]
#[verifier::spinoff_prover]
fn take_island(
    g: &Vec<Cell>,
    mark: &mut Vec<usize>,
    start: usize,
    id: usize,
    Ghost(d): Ghost<Seq<Seq<Cell>>>,
    Ghost(gset): Ghost<Set<Cell>>,
) -> (cur: Vec<Cell>)
    requires
        sorted_cells(g@),
        g@.to_set() == gset,
        forall|i: int| 0 <= i < g@.len() ==> i32::MIN < (#[trigger] g@[i]).x < i32::MAX && i32::MIN < g@[i].y < i32::MAX,
        old(mark)@.len() == g@.len(),
        start < g@.len(),
        id == d.len() + 1,
        parts_so_far(d, gset),
        marks_agree(g@, old(mark)@, d),
        old(mark)@[start as int] == 0,
        forall|i: int| 0 <= i < start ==> #[trigger] old(mark)@[i] > 0,
    ensures
        final(mark)@.len() == g@.len(),
        forall|i: int| 0 <= i < g@.len() && #[trigger] old(mark)@[i] > 0 ==> final(mark)@[i] == old(mark)@[i],
        forall|i: int| 0 <= i < g@.len() ==> #[trigger] final(mark)@[i] == old(mark)@[i] || final(mark)@[i] == id,
        forall|i: int| 0 <= i < g@.len() && #[trigger] final(mark)@[i] == id ==> cur@.contains(g@[i]),
        forall|i: int| 0 <= i < g@.len() && #[trigger] final(mark)@[i] == 0 ==> !cur@.contains(g@[i]),
        final(mark)@[start as int] == id,
        cur@.len() > 0,
        cur@[0] == g@[start as int],
        forall|j: int| 0 <= j < cur@.len() ==> gset.contains(#[trigger] cur@[j]) && !listed(d, cur@[j]),
        forall|a: int, b: int| 0 <= a < b < cur@.len() ==> #[trigger] cur@[a] != #[trigger] cur@[b],
        connected(cur@),
        closed(cur@, gset),
{
    let n = g.len();
    let ghost m_in = mark@;
    let mut cur: Vec<Cell> = Vec::new();
    let mut stack: Vec<usize> = Vec::new();
    stack.push(start);
    assert(stack@ == seq![start]);
    while stack.len() > 0
        invariant
            n == g@.len(),
            sorted_cells(g@),
            g@.to_set() == gset,
            forall|i: int| 0 <= i < n ==> i32::MIN < (#[trigger] g@[i]).x < i32::MAX && i32::MIN < g@[i].y < i32::MAX,
            mark@.len() == n,
            m_in.len() == n,
            start < n,
            id == d.len() + 1,
            parts_so_far(d, gset),
            marks_agree(g@, m_in, d),
            forall|i: int| 0 <= i < n && #[trigger] m_in[i] > 0 ==> mark@[i] == m_in[i],
            forall|i: int| 0 <= i < n ==> #[trigger] mark@[i] == m_in[i] || mark@[i] == id,
            forall|i: int| 0 <= i < n && #[trigger] mark@[i] == id ==> cur@.contains(g@[i]),
            forall|i: int| 0 <= i < n && #[trigger] mark@[i] == 0 ==> !cur@.contains(g@[i]),
            forall|j: int| 0 <= j < cur@.len() ==> gset.contains(#[trigger] cur@[j]) && !listed(d, cur@[j]),
            forall|a: int, b: int| 0 <= a < b < cur@.len() ==> #[trigger] cur@[a] != #[trigger] cur@[b],
            connected(cur@),
            cur@.len() > 0 ==> cur@[0] == g@[start as int] && mark@[start as int] == id,
            cur@.len() == 0 ==> stack@ == seq![start] && mark@[start as int] == 0,
            forall|x: usize| #[trigger] stack@.contains(x) ==> x < n
                && (cur@.len() > 0 ==> exists|j: int| 0 <= j < cur@.len() && adjacent(g@[x as int], #[trigger] cur@[j])),
            forall|j: int, i: int| 0 <= j < cur@.len() && 0 <= i < n && #[trigger] adjacent(g@[i], cur@[j])
                ==> mark@[i] > 0 || stack@.contains(i as usize),
        decreases zeros(mark@) * 5 + stack@.len(),
    {
        let ghost st = stack@;
        let i = stack.pop().unwrap();
        proof {
            assert(stack@ =~= st.drop_last());
            assert(i == st.last());
            assert(st.contains(i));
            assert forall|x: usize| #[trigger] stack@.contains(x) implies st.contains(x) by {
                lemma_pop_contains(st, x);
            }
        }
        if mark[i] > 0 {
            proof {
                assert forall|j: int, k: int| 0 <= j < cur@.len() && 0 <= k < n && #[trigger] adjacent(g@[k], cur@[j])
                    implies mark@[k] > 0 || stack@.contains(k as usize) by {
                    if mark@[k] == 0 {
                        lemma_pop_contains(st, k as usize);
                    }
                }
            }
            continue;
        }
        let c = g[i];
        let ghost m0 = mark@;
        let ghost cur0 = cur@;
        proof {
            lemma_zeros_set(mark@, i as int, id);
            assert(g@.to_set().contains(c));
            assert(m_in[i as int] == 0);
            assert(!listed(d, c));
        }
        mark.set(i, id);
        cur.push(c);
        proof {
            let last = cur@.len() - 1;
            assert(cur@[last] == c);
            assert forall|a: int, b: int| 0 <= a < b < cur@.len() implies #[trigger] cur@[a] != #[trigger] cur@[b] by {
                if b == last {
                    assert(cur@[a] == cur0[a]);
                    assert(cur0.contains(cur0[a]));
                } else {
                    assert(cur@[a] == cur0[a] && cur@[b] == cur0[b]);
                }
            }
            if cur0.len() > 0 {
                let b = choose|b: int| 0 <= b < cur0.len() && adjacent(g@[i as int], #[trigger] cur0[b]);
                lemma_connected_push(cur0, c, b);
            } else {
                assert(cur@ =~= seq![c]);
            }
            assert(cur@ =~= cur0.push(c));
            assert forall|k: int| 0 <= k < n && #[trigger] mark@[k] == id implies cur@.contains(g@[k]) by {
                if k != i {
                    assert(m0[k] == id);
                    let b = choose|b: int| 0 <= b < cur0.len() && cur0[b] == g@[k];
                    assert(cur@[b] == cur0[b]);
                }
            }
            assert forall|k: int| 0 <= k < n && #[trigger] mark@[k] == 0 implies !cur@.contains(g@[k]) by {
                assert(m0[k] == 0);
                lemma_sorted_index(g@, k, i as int);
                if cur@.contains(g@[k]) {
                    let b = choose|b: int| 0 <= b < cur@.len() && cur@[b] == g@[k];
                    if b < last {
                        assert(cur0[b] == cur@[b]);
                        assert(cur0.contains(g@[k]));
                    }
                }
            }
            assert forall|j: int| 0 <= j < cur@.len() implies gset.contains(#[trigger] cur@[j]) && !listed(d, cur@[j]) by {
                if j < last {
                    assert(cur@[j] == cur0[j]);
                }
            }
            if cur0.len() > 0 {
                assert(cur@[0] == cur0[0]);
            }
        }
        let ghost s0 = stack@;
        push_untaken(g, mark, &mut stack, Cell::new(c.x + 1, c.y));
        let ghost s1 = stack@;
        push_untaken(g, mark, &mut stack, Cell::new(c.x - 1, c.y));
        let ghost s2 = stack@;
        push_untaken(g, mark, &mut stack, Cell::new(c.x, c.y + 1));
        let ghost s3 = stack@;
        push_untaken(g, mark, &mut stack, Cell::new(c.x, c.y - 1));
        proof {
            let last = cur@.len() - 1;
            assert forall|x: usize| #[trigger] stack@.contains(x) implies x < n
                && (cur@.len() > 0 ==> exists|j: int| 0 <= j < cur@.len() && adjacent(g@[x as int], #[trigger] cur@[j])) by {
                if s0.contains(x) {
                    assert(st.contains(x));
                    let j = choose|j: int| 0 <= j < cur0.len() && adjacent(g@[x as int], #[trigger] cur0[j]);
                    assert(cur@[j] == cur0[j]);
                } else {
                    assert(adjacent(g@[x as int], cur@[last]));
                }
            }
            assert forall|j: int, k: int| 0 <= j < cur@.len() && 0 <= k < n && #[trigger] adjacent(g@[k], cur@[j])
                implies mark@[k] > 0 || stack@.contains(k as usize) by {
                if mark@[k] == 0 {
                    if j == last {
                        lemma_neighbour(g@[k], c);
                    } else {
                        assert(cur@[j] == cur0[j]);
                        assert(m0[k] == 0);
                        assert(k != i);
                        lemma_pop_contains(st, k as usize);
                        assert(s0.contains(k as usize));
                    }
                }
            }
        }
    }
    proof {
        assert forall|j: int, c: Cell| 0 <= j < cur@.len() && gset.contains(c) && #[trigger] adjacent(c, cur@[j])
            implies cur@.contains(c) by {
            assert(g@.to_set().contains(c));
            let k = choose|k: int| 0 <= k < n && g@[k] == c;
            assert(adjacent(g@[k], cur@[j]));
            assert(mark@[k] > 0);
            if mark@[k] != id {
                assert(m_in[k] > 0);
                let e = m_in[k] - 1;
                assert(d[e].contains(c));
                let f = choose|f: int| 0 <= f < d[e].len() && d[e][f] == c;
                assert(adjacent(cur@[j], d[e][f]));
                assert(closed(d[e], gset));
                assert(d[e].contains(cur@[j]));
                assert(listed(d, cur@[j]));
            }
        }
    }
    cur
}

/// The ground cells of the world table as islands: each island holds the
/// cells that the least ground cell not yet taken reaches through ground,
/// stepping to a side or up or down; within an island, cells come in the
/// order a depth-first walk from that cell takes them.
pub fn islands_of(ground: &[(i32, i32, u8)]) -> (isl: Vec<Vec<Cell>>)
    requires
        inside_grid(ground@),
    ensures
        components(cells_view(isl@), ground_cells(ground@)),
{
    let g = ground_list(ground);
    let n = g.len();
    let ghost gset = ground_cells(ground@);
    proof {
        assert forall|i: int| 0 <= i < n implies i32::MIN < (#[trigger] g@[i]).x < i32::MAX && i32::MIN < g@[i].y < i32::MAX by {
            assert(g@.to_set().contains(g@[i]));
            assert(gset.contains(g@[i]));
            let j = choose|j: int| 0 <= j < ground@.len() && (#[trigger] ground@[j]).0 == g@[i].x && ground@[j].1 == g@[i].y;
        }
    }
    let mut mark: Vec<usize> = vec![0usize; n];
    let mut isl: Vec<Vec<Cell>> = Vec::new();
    let mut next: usize = 0;
    while next < n
        invariant
            n == g@.len(),
            sorted_cells(g@),
            g@.to_set() == gset,
            forall|i: int| 0 <= i < n ==> i32::MIN < (#[trigger] g@[i]).x < i32::MAX && i32::MIN < g@[i].y < i32::MAX,
            mark@.len() == n,
            next <= n,
            marks_agree(g@, mark@, cells_view(isl@)),
            forall|i: int| 0 <= i < next ==> #[trigger] mark@[i] > 0,
            parts_so_far(cells_view(isl@), gset),
            isl@.len() <= next,
        decreases n - next,
    {
        if mark[next] > 0 {
            next = next + 1;
            continue;
        }
        let ghost d = cells_view(isl@);
        let ghost m_in = mark@;
        let id: usize = isl.len() + 1;
        let cur = take_island(&g, &mut mark, next, id, Ghost(d), Ghost(gset));
        let ghost cv = cur@;
        isl.push(cur);
        proof {
            let d2 = cells_view(isl@);
            assert(d2 =~= d.push(cv));
            assert forall|c: Cell| gset.contains(c) && cell_lt(c, cv[0]) implies #[trigger] listed(d, c) by {
                assert(g@.to_set().contains(c));
                let k = choose|k: int| 0 <= k < n && g@[k] == c;
                lemma_sorted_index(g@, k, next as int);
                assert(m_in[k] > 0);
            }
            assert(d2.subrange(0, d.len() as int) =~= d);
            assert(parts_so_far(d2, gset)) by {
                assert forall|k: int| 0 <= k < d2.len() implies (#[trigger] d2[k]).len() > 0
                    && forall|c: Cell| gset.contains(c) && cell_lt(c, d2[k][0]) ==> #[trigger] listed(d2.subrange(0, k), c) by {
                    if k < d.len() {
                        assert(d2[k] == d[k]);
                        assert(d2.subrange(0, k) =~= d.subrange(0, k));
                    }
                }
                assert forall|k1: int, k2: int, c: Cell| 0 <= k1 < k2 < d2.len() && #[trigger] d2[k1].contains(c)
                    implies !#[trigger] d2[k2].contains(c) by {
                    if k2 == d.len() {
                        assert(d2[k1] == d[k1]);
                        if cv.contains(c) {
                            let j = choose|j: int| 0 <= j < cv.len() && cv[j] == c;
                            assert(!listed(d, cv[j]));
                        }
                    } else {
                        assert(d2[k1] == d[k1] && d2[k2] == d[k2]);
                    }
                }
                assert forall|k: int, a: int, b: int| 0 <= k < d2.len() && 0 <= a < b < d2[k].len()
                    implies #[trigger] d2[k][a] != #[trigger] d2[k][b] by {
                    if k < d.len() {
                        assert(d2[k] == d[k]);
                    }
                }
                assert forall|k: int, a: int| 0 <= k < d2.len() && 0 <= a < d2[k].len() implies gset.contains(#[trigger] d2[k][a]) by {
                    if k < d.len() {
                        assert(d2[k] == d[k]);
                    }
                }
                assert forall|k: int| 0 <= k < d2.len() implies connected(#[trigger] d2[k]) by {
                    if k < d.len() {
                        assert(d2[k] == d[k]);
                    }
                }
                assert forall|k: int| 0 <= k < d2.len() implies closed(#[trigger] d2[k], gset) by {
                    if k < d.len() {
                        assert(d2[k] == d[k]);
                    }
                }
            }
            assert(marks_agree(g@, mark@, d2)) by {
                assert forall|k: int| 0 <= k < mark@.len() implies #[trigger] mark@[k] <= d2.len() by {
                    if m_in[k] > 0 {
                        assert(mark@[k] == m_in[k]);
                    }
                }
                assert forall|k: int| 0 <= k < mark@.len() && #[trigger] mark@[k] > 0 implies d2[mark@[k] - 1].contains(g@[k]) by {
                    if mark@[k] != id {
                        assert(mark@[k] == m_in[k]);
                        assert(d2[mark@[k] - 1] == d[mark@[k] - 1]);
                    }
                }
                assert forall|k: int| 0 <= k < mark@.len() && #[trigger] mark@[k] == 0 implies !listed(d2, g@[k]) by {
                    assert(m_in[k] == 0);
                    if listed(d2, g@[k]) {
                        let e = choose|e: int| 0 <= e < d2.len() && (#[trigger] d2[e]).contains(g@[k]);
                        if e < d.len() {
                            assert(d2[e] == d[e]);
                        }
                    }
                }
            }
            assert forall|k: int| 0 <= k < next + 1 implies #[trigger] mark@[k] > 0 by {
                if k < next {
                    assert(m_in[k] > 0);
                }
            }
        }
        next = next + 1;
    }
    proof {
        let d = cells_view(isl@);
        assert forall|c: Cell| gset.contains(c) implies #[trigger] listed(d, c) by {
            assert(g@.to_set().contains(c));
            let k = choose|k: int| 0 <= k < n && g@[k] == c;
            assert(mark@[k] > 0);
        }
    }
    isl
}


/// A type code as the rules file keys it: two lower-case hex digits.
pub open spec fn hex_key(code: u8) -> Seq<char> {
    hex_pair(code)
}

/// The key of a type code in the rules: two lower-case hex digits.
pub fn code_key(code: u8) -> (k: String)
    ensures
        k@ == hex_key(code),
{
    let mut v: Vec<char> = Vec::new();
    push_hex(&mut v, code);
    string_of(v.as_slice())
}

/// The value of the first entry whose key is `key`.
pub open spec fn lookup(h: Pairs, key: Seq<char>) -> Option<Seq<char>> {
    match find_key(h, key, 0) {
        Some(i) => Some(h[i].1),
        None => None,
    }
}

fn lookup_in<'a>(h: &'a Vec<(String, String)>, key: &str) -> (r: Option<&'a String>)
    ensures
        match lookup(pairs_view(h@), key@) {
            Some(v) => r is Some && r->0@ == v,
            None => r is None,
        },
{
    let mut i: usize = 0;
    while i < h.len()
        invariant
            i <= h@.len(),
            find_key(pairs_view(h@), key@, 0) == find_key(pairs_view(h@), key@, i as int),
        decreases h@.len() - i,
    {
        if str_eq(h[i].0.as_str(), key) {
            return Some(&h[i].1);
        }
        i = i + 1;
    }
    None
}

/// How often `code` came up, from a tally kept by code.
pub open spec fn tally(v: Seq<(u8, usize)>, code: u8) -> nat
    decreases v.len(),
{
    if v.len() == 0 {
        0
    } else if v.last().0 == code {
        v.last().1 as nat
    } else {
        tally(v.drop_last(), code)
    }
}

/// A tally kept in order of code, each code once.
pub open spec fn tally_wf(v: Seq<(u8, usize)>) -> bool {
    &&& forall|i: int, j: int| 0 <= i < j < v.len() ==> (#[trigger] v[i]).0 < (#[trigger] v[j]).0
    &&& forall|i: int| 0 <= i < v.len() ==> (#[trigger] v[i]).1 > 0
}

proof fn lemma_tally_at(v: Seq<(u8, usize)>, i: int)
    requires
        tally_wf(v),
        0 <= i < v.len(),
    ensures
        tally(v, v[i].0) == v[i].1,
    decreases v.len(),
{
    if i < v.len() - 1 {
        assert(v.last().0 != v[i].0) by {
            assert(v[i].0 < v[v.len() - 1].0);
        }
        assert(v.drop_last()[i] == v[i]);
        lemma_tally_at(v.drop_last(), i);
    }
}

proof fn lemma_tally_absent(v: Seq<(u8, usize)>, code: u8)
    requires
        forall|i: int| 0 <= i < v.len() ==> (#[trigger] v[i]).0 != code,
    ensures
        tally(v, code) == 0,
    decreases v.len(),
{
    if v.len() > 0 {
        assert(v.last().0 != code);
        assert forall|i: int| 0 <= i < v.drop_last().len() implies (#[trigger] v.drop_last()[i]).0 != code by {
            assert(v.drop_last()[i] == v[i]);
        }
        lemma_tally_absent(v.drop_last(), code);
    }
}

proof fn lemma_tally_split(v: Seq<(u8, usize)>, c: u8)
    requires
        tally_wf(v),
    ensures
        (exists|i: int| 0 <= i < v.len() && (#[trigger] v[i]).0 == c) || tally(v, c) == 0,
{
    if !(exists|i: int| 0 <= i < v.len() && (#[trigger] v[i]).0 == c) {
        lemma_tally_absent(v, c);
    }
}

/// Count one more of `code`.
pub(crate) fn count_code(v: &mut Vec<(u8, usize)>, code: u8)
    requires
        tally_wf(old(v)@),
        tally(old(v)@, code) < usize::MAX,
    ensures
        tally_wf(final(v)@),
        forall|c: u8| #[trigger] tally(final(v)@, c) == tally(old(v)@, c) + (if c == code { 1nat } else { 0nat }),
{
    let ghost old_v = v@;
    let mut k: usize = 0;
    while k < v.len() && v[k].0 < code
        invariant
            k <= v@.len(),
            v@ == old_v,
            tally_wf(v@),
            forall|i: int| 0 <= i < k ==> (#[trigger] v@[i]).0 < code,
        decreases v@.len() - k,
    {
        k = k + 1;
    }
    if k < v.len() && v[k].0 == code {
        let (c, n) = v[k];
        proof { lemma_tally_at(old_v, k as int); }
        v.set(k, (c, n + 1));
        proof {
            assert(tally_wf(v@)) by {
                assert forall|i: int, j: int| 0 <= i < j < v@.len() implies (#[trigger] v@[i]).0 < (#[trigger] v@[j]).0 by {
                    assert(old_v[i].0 < old_v[j].0);
                }
            }
            assert forall|x: u8| #[trigger] tally(v@, x) == tally(old_v, x) + (if x == code { 1nat } else { 0nat }) by {
                lemma_tally_split(old_v, x);
                lemma_tally_split(v@, x);
                if exists|i: int| 0 <= i < old_v.len() && (#[trigger] old_v[i]).0 == x {
                    let i = choose|i: int| 0 <= i < old_v.len() && (#[trigger] old_v[i]).0 == x;
                    lemma_tally_at(old_v, i);
                    lemma_tally_at(v@, i);
                } else {
                    assert forall|i: int| 0 <= i < v@.len() implies (#[trigger] v@[i]).0 != x by {
                        assert(v@[i].0 == old_v[i].0);
                    }
                    lemma_tally_absent(v@, x);
                }
            }
        }
    } else {
        v.insert(k, (code, 1));
        proof {
            assert forall|i: int| k <= i < old_v.len() implies code < (#[trigger] old_v[i]).0 by {
                if i > k {
                    assert(old_v[k as int].0 < old_v[i].0);
                }
            }
            assert(tally_wf(v@)) by {
                assert forall|i: int, j: int| 0 <= i < j < v@.len() implies (#[trigger] v@[i]).0 < (#[trigger] v@[j]).0 by {
                    if j < k {
                        assert(old_v[i].0 < old_v[j].0);
                    } else if i > k {
                        assert(old_v[i - 1].0 < old_v[j - 1].0);
                    } else if i < k && j > k {
                        assert(old_v[i].0 < code);
                    }
                }
            }
            assert forall|x: u8| #[trigger] tally(v@, x) == tally(old_v, x) + (if x == code { 1nat } else { 0nat }) by {
                lemma_tally_split(old_v, x);
                if x == code {
                    assert forall|i: int| 0 <= i < old_v.len() implies (#[trigger] old_v[i]).0 != x by {
                        if i >= k {
                            assert(code < old_v[i].0);
                        }
                    }
                    lemma_tally_absent(old_v, x);
                    assert(v@[k as int] == (code, 1usize));
                    lemma_tally_at(v@, k as int);
                } else if exists|i: int| 0 <= i < old_v.len() && (#[trigger] old_v[i]).0 == x {
                    let i = choose|i: int| 0 <= i < old_v.len() && (#[trigger] old_v[i]).0 == x;
                    lemma_tally_at(old_v, i);
                    if i < k {
                        assert(v@[i] == old_v[i]);
                        lemma_tally_at(v@, i);
                    } else {
                        assert(v@[i + 1] == old_v[i]);
                        lemma_tally_at(v@, i + 1);
                    }
                } else {
                    assert forall|i: int| 0 <= i < v@.len() implies (#[trigger] v@[i]).0 != x by {
                        if i < k {
                            assert(v@[i] == old_v[i]);
                        } else if i > k {
                            assert(v@[i] == old_v[i - 1]);
                        }
                    }
                    lemma_tally_absent(v@, x);
                }
            }
        }
    }
}

pub open spec fn is_altar_code(code: u8) -> bool {
    CODE_ALTAR_FIRST <= code <= CODE_ALTAR_LAST
}

/// The structure type a world-table item becomes, `None` for one that is
/// skipped or unknown.
pub open spec fn item_kind(code: u8, fc: FortRules) -> Option<Seq<char>> {
    if code == CODE_TEMPLE {
        Some(if fc.temples@.len() > 0 { fc.temples@[0].1@ } else { Seq::empty() })
    } else if is_altar_code(code) {
        Some(fc.altar@)
    } else {
        match lookup(pairs_view(fc.codes@), hex_key(code)) {
            Some(k) => if k.len() == 0 { None } else { Some(k) },
            None => None,
        }
    }
}

/// Whether a world-table item's code is one the rules do not know.
pub open spec fn unknown_code(code: u8, fc: FortRules) -> bool {
    lookup(pairs_view(fc.units@), hex_key(code)) is None && code != CODE_TEMPLE && !is_altar_code(code)
        && lookup(pairs_view(fc.codes@), hex_key(code)) is None
}

/// A world-table structure or unit at `at` for `owner`: a unit when the
/// rules list the code as one, else a structure of the type the code
/// names (the first Temple type for a Temple); an island it stands on
/// becomes its owner's when the item names one. A code the rules do not
/// know is counted in the report.
pub fn place_item(item: &Item, at: Cell, owner: u8, fc: &FortRules, map: &mut MapDef, report: &mut Report, island: Option<usize>)
    requires
        island matches Some(i) ==> i < old(map).islands@.len(),
        tally_wf(old(report).unknown_codes@),
        tally(old(report).unknown_codes@, item.code) < usize::MAX,
    ensures
        final(map).name == old(map).name && final(map).start_power == old(map).start_power,
        final(map).camera == old(map).camera && final(map).player_tech == old(map).player_tech,
        final(map).bridges == old(map).bridges && final(map).opponents == old(map).opponents,
        final(report).notes == old(report).notes,
        tally_wf(final(report).unknown_codes@),
        forall|c: u8| #[trigger] tally(final(report).unknown_codes@, c) == tally(old(report).unknown_codes@, c)
            + (if c == item.code && unknown_code(item.code, *fc) { 1nat } else { 0nat }),
        match lookup(pairs_view(fc.units@), hex_key(item.code)) {
            Some(u) => final(map).units@.len() == old(map).units@.len() + 1
                && final(map).units@.drop_last() == old(map).units@
                && final(map).units@.last().owner == owner && final(map).units@.last().kind@ == u
                && final(map).units@.last().at == [at.x, at.y] && final(map).units@.last().move_to is None
                && final(map).structures == old(map).structures && final(map).islands == old(map).islands,
            None => final(map).units == old(map).units && match item_kind(item.code, *fc) {
                None => final(map).structures == old(map).structures && final(map).islands == old(map).islands,
                Some(k) => final(map).structures@.len() == old(map).structures@.len() + 1
                    && final(map).structures@.drop_last() == old(map).structures@
                    && final(map).structures@.last().owner == owner && final(map).structures@.last().kind@ == k
                    && final(map).structures@.last().at == [at.x, at.y]
                    && final(map).structures@.last().spell is None && final(map).structures@.last().frame is None
                    && (match island {
                        Some(i) => if spec_owner(item.code, item.payload@) is Some {
                            final(map).islands@ == old(map).islands@.update(i as int, IslandDef { owner: Some(owner), ..old(map).islands@[i as int] })
                        } else {
                            final(map).islands == old(map).islands
                        },
                        None => final(map).islands == old(map).islands,
                    }),
            },
        },
{
    let key = code_key(item.code);
    match lookup_in(&fc.units, key.as_str()) {
        Some(u) => {
            map.units.push(UnitDef { owner, kind: u.clone(), at: [at.x, at.y], move_to: None });
            proof {
                assert(tally_wf(report.unknown_codes@));
            }
            return;
        },
        None => {},
    }
    let kind: String = if item.code == CODE_TEMPLE {
        if fc.temples.len() > 0 { fc.temples[0].1.clone() } else { String::new() }
    } else if CODE_ALTAR_FIRST <= item.code && item.code <= CODE_ALTAR_LAST {
        fc.altar.clone()
    } else {
        match lookup_in(&fc.codes, key.as_str()) {
            Some(k) => {
                if chars_of(k.as_str()).len() == 0 {
                    return;
                }
                k.clone()
            },
            None => {
                count_code(&mut report.unknown_codes, item.code);
                return;
            },
        }
    };
    match island {
        Some(i) => {
            if item.owner().is_some() {
                let ghost before = map.islands@;
                let mut def = map.islands.remove(i);
                def.owner = Some(owner);
                map.islands.insert(i, def);
                assert(map.islands@ =~= before.update(i as int, IslandDef { owner: Some(owner), ..before[i as int] }));
            }
        },
        None => {},
    }
    map.structures.push(PlacementDef { owner, kind, at: [at.x, at.y], spell: None, frame: None });
}

/// The theme byte the last ground entry at `c` gives.
pub open spec fn last_theme(g: Seq<(i32, i32, u8)>, c: Cell) -> Option<u8>
    decreases g.len(),
{
    if g.len() == 0 {
        None
    } else if g.last().0 == c.x && g.last().1 == c.y {
        Some(g.last().2)
    } else {
        last_theme(g.drop_last(), c)
    }
}

/// An island's theme: the rules' name for its first cell's theme byte,
/// `sun` where they have none.
pub open spec fn theme_name(fc: FortRules, b: Option<u8>) -> Seq<char> {
    match b {
        Some(v) => if (v as int) < fc.ground_themes@.len() { fc.ground_themes@[v as int]@ } else { "sun"@ },
        None => "sun"@,
    }
}

/// The least or greatest `x` (`fst`) or `y` of the cells.
pub open spec fn span(s: Seq<Cell>, fst: bool, max: bool) -> int
    decreases s.len(),
{
    if s.len() == 0 {
        0
    } else {
        let v = if fst { s.last().x as int } else { s.last().y as int };
        if s.len() == 1 {
            v
        } else {
            let m = span(s.drop_last(), fst, max);
            if (max && v > m) || (!max && v < m) { v } else { m }
        }
    }
}

proof fn lemma_span_bound(s: Seq<Cell>, fst: bool, max: bool, lo: int, hi: int)
    requires
        forall|i: int| 0 <= i < s.len() ==> lo <= (if fst { (#[trigger] s[i]).x as int } else { s[i].y as int }) <= hi,
        s.len() > 0,
    ensures
        lo <= span(s, fst, max) <= hi,
    decreases s.len(),
{
    if s.len() > 1 {
        assert forall|i: int| 0 <= i < s.drop_last().len() implies lo <= (if fst { (#[trigger] s.drop_last()[i]).x as int } else { s.drop_last()[i].y as int }) <= hi by {
            assert(s.drop_last()[i] == s[i]);
        }
        lemma_span_bound(s.drop_last(), fst, max, lo, hi);
    }
    assert(s[s.len() - 1] == s.last());
}

fn span_of(s: &Vec<Cell>, fst: bool, max: bool) -> (m: i32)
    requires
        s@.len() > 0,
    ensures
        m == span(s@, fst, max),
{
    let mut m: i32 = 0;
    let mut k: usize = 0;
    while k < s.len()
        invariant
            k <= s@.len(),
            k > 0 ==> m == span(s@.subrange(0, k as int), fst, max),
        decreases s@.len() - k,
    {
        let v: i32 = if fst { s[k].x } else { s[k].y };
        proof {
            assert(s@.subrange(0, k + 1).drop_last() =~= s@.subrange(0, k as int));
        }
        if k == 0 || (max && v > m) || (!max && v < m) {
            m = v;
        }
        k = k + 1;
    }
    assert(s@.subrange(0, k as int) =~= s@);
    m
}

/// Cells as the map file writes them.
pub open spec fn cell_pairs(s: Seq<Cell>) -> Seq<[i32; 2]> {
    s.map_values(|c: Cell| [c.x, c.y])
}

/// An island as its owner, theme, origin, size, removed cells and cells.
pub open spec fn def_view(d: IslandDef) -> (Option<u8>, Seq<char>, [i32; 2], [i32; 2], Seq<[i32; 2]>, Seq<[i32; 2]>) {
    (d.owner, d.theme@, d.origin, d.size, d.remove@, d.cells@)
}

/// The map island a world-table island becomes: neutral, themed by its
/// first cell, placed by its bounding box, listing its cells.
pub open spec fn world_island(cells: Seq<Cell>, fc: FortRules, g: Seq<(i32, i32, u8)>) -> (Option<u8>, Seq<char>, [i32; 2], [i32; 2], Seq<[i32; 2]>, Seq<[i32; 2]>) {
    let (x0, y0) = (span(cells, true, false), span(cells, false, false));
    let (x1, y1) = (span(cells, true, true), span(cells, false, true));
    (None, theme_name(fc, last_theme(g, cells[0])), [x0 as i32, y0 as i32], [(x1 - x0 + 1) as i32, (y1 - y0 + 1) as i32], Seq::empty(), cell_pairs(cells))
}

/// World-table coordinates well inside `i32`, so that island sizes fit.
pub open spec fn modest(g: Seq<(i32, i32, u8)>) -> bool {
    forall|i: int| 0 <= i < g.len() ==> -0x4000_0000 < (#[trigger] g[i]).0 < 0x4000_0000 && -0x4000_0000 < g[i].1 < 0x4000_0000
}

fn theme_byte(g: &Vec<(i32, i32, u8)>, c: Cell) -> (b: Option<u8>)
    ensures
        b == last_theme(g@, c),
{
    let mut k: usize = g.len();
    assert(g@.subrange(0, k as int) =~= g@);
    while k > 0
        invariant
            k <= g@.len(),
            last_theme(g@, c) == last_theme(g@.subrange(0, k as int), c),
        decreases k,
    {
        proof {
            assert(g@.subrange(0, k as int).drop_last() =~= g@.subrange(0, k - 1));
        }
        if g[k - 1].0 == c.x && g[k - 1].1 == c.y {
            return Some(g[k - 1].2);
        }
        k = k - 1;
    }
    proof {
        assert(g@.subrange(0, 0) =~= Seq::<(i32, i32, u8)>::empty());
    }
    None
}

fn theme_of(fc: &FortRules, b: Option<u8>) -> (s: String)
    ensures
        s@ == theme_name(*fc, b),
{
    match b {
        Some(v) => {
            if (v as usize) < fc.ground_themes.len() {
                fc.ground_themes[v as usize].clone()
            } else {
                String::from_str("sun")
            }
        },
        None => String::from_str("sun"),
    }
}

/// The world table's ground as neutral islands at the end of the map's
/// list, each with its cells, bounding box and the theme of its first
/// cell; the cells of each island come back too, in the same order.
pub fn world_islands(fort: &Fort, fc: &FortRules, map: &mut MapDef) -> (isl: Vec<Vec<Cell>>)
    requires
        inside_grid(spec_ground(fort.items@)),
        modest(spec_ground(fort.items@)),
    ensures
        components(cells_view(isl@), ground_cells(spec_ground(fort.items@))),
        final(map).islands@.len() == old(map).islands@.len() + isl@.len(),
        final(map).islands@.subrange(0, old(map).islands@.len() as int) == old(map).islands@,
        forall|k: int| 0 <= k < isl@.len() ==> def_view(#[trigger] final(map).islands@[old(map).islands@.len() + k])
            == world_island(isl@[k]@, *fc, spec_ground(fort.items@)),
        final(map).name == old(map).name && final(map).start_power == old(map).start_power,
        final(map).camera == old(map).camera && final(map).player_tech == old(map).player_tech,
        final(map).bridges == old(map).bridges && final(map).opponents == old(map).opponents,
        final(map).structures == old(map).structures && final(map).units == old(map).units,
{
    let ground = fort.ground();
    let isl = islands_of(ground.as_slice());
    let ghost g = ground@;
    let ghost start_len = map.islands@.len();
    let mut k: usize = 0;
    while k < isl.len()
        invariant
            g == spec_ground(fort.items@),
            ground@ == g,
            modest(g),
            components(cells_view(isl@), ground_cells(g)),
            k <= isl@.len(),
            map.islands@.len() == start_len + k,
            map.islands@.subrange(0, start_len as int) == old(map).islands@,
            forall|j: int| 0 <= j < k ==> def_view(#[trigger] map.islands@[start_len + j]) == world_island(isl@[j]@, *fc, g),
            map.name == old(map).name && map.start_power == old(map).start_power,
            map.camera == old(map).camera && map.player_tech == old(map).player_tech,
            map.bridges == old(map).bridges && map.opponents == old(map).opponents,
            map.structures == old(map).structures && map.units == old(map).units,
        decreases isl@.len() - k,
    {
        let cells = &isl[k];
        let ghost cv = cells@;
        proof {
            assert(cells_view(isl@)[k as int] == cv);
            assert(cv.len() > 0);
            assert forall|i: int| 0 <= i < cv.len() implies -0x4000_0000 < (#[trigger] cv[i]).x < 0x4000_0000
                && -0x4000_0000 < cv[i].y < 0x4000_0000 by {
                assert(cells_view(isl@)[k as int][i] == cv[i]);
                assert(ground_cells(g).contains(cv[i]));
                let j = choose|j: int| 0 <= j < g.len() && (#[trigger] g[j]).0 == cv[i].x && g[j].1 == cv[i].y;
            }
            lemma_span_bound(cv, true, false, -0x3fff_ffff, 0x3fff_ffff);
            lemma_span_bound(cv, false, false, -0x3fff_ffff, 0x3fff_ffff);
            lemma_span_bound(cv, true, true, -0x3fff_ffff, 0x3fff_ffff);
            lemma_span_bound(cv, false, true, -0x3fff_ffff, 0x3fff_ffff);
        }
        let theme = theme_of(fc, theme_byte(&ground, cells[0]));
        let x0 = span_of(cells, true, false);
        let y0 = span_of(cells, false, false);
        let x1 = span_of(cells, true, true);
        let y1 = span_of(cells, false, true);
        let mut pairs: Vec<[i32; 2]> = Vec::new();
        let mut j: usize = 0;
        while j < cells.len()
            invariant
                j <= cv.len(),
                cells@ == cv,
                pairs@ == cell_pairs(cv).subrange(0, j as int),
            decreases cv.len() - j,
        {
            pairs.push([cells[j].x, cells[j].y]);
            proof {
                assert(pairs@ =~= cell_pairs(cv).subrange(0, j + 1));
            }
            j = j + 1;
        }
        assert(cell_pairs(cv).subrange(0, j as int) =~= cell_pairs(cv));
        let def = IslandDef { owner: None, theme, origin: [x0, y0], size: [x1 - x0 + 1, y1 - y0 + 1], remove: Vec::new(), cells: pairs };
        proof {
            assert(def.remove@ =~= Seq::<[i32; 2]>::empty());
            assert(def_view(def) == world_island(cv, *fc, g));
        }
        let ghost before = map.islands@;
        map.islands.push(def);
        proof {
            assert(map.islands@.subrange(0, start_len as int) =~= before.subrange(0, start_len as int));
            assert forall|i: int| 0 <= i < k + 1 implies def_view(#[trigger] map.islands@[start_len + i]) == world_island(isl@[i]@, *fc, g) by {
                if i < k {
                    assert(map.islands@[start_len + i] == before[start_len + i]);
                }
            }
        }
        k = k + 1;
    }
    isl
}

/// The player number the first Temple or altar from `i` on names.
pub open spec fn first_seat(items: Seq<Item>, i: int) -> Option<u8>
    decreases items.len() - i,
{
    if i < 0 || i >= items.len() {
        None
    } else if (items[i].code == CODE_TEMPLE || is_altar_code(items[i].code)) && spec_owner(items[i].code, items[i].payload@) is Some {
        spec_owner(items[i].code, items[i].payload@)
    } else {
        first_seat(items, i + 1)
    }
}

/// The player number fortress `k` stands for: the one its first Temple or
/// altar names, else its place in the file counted from 1.
pub open spec fn seat_number(f: Fortress, k: int) -> u8 {
    match first_seat(f.items@, 0) {
        Some(p) => p,
        None => (k + 1) as u8,
    }
}

/// A Temple written for the seat the file was made from.
pub open spec fn has_local_temple(f: Fortress) -> bool {
    exists|i: int| 0 <= i < f.items@.len() && (#[trigger] f.items@[i]).code == CODE_TEMPLE
        && f.items@[i].payload@.len() > 0 && f.items@[i].payload@[0] >= 0x80
}

/// The first fortress from `k` on with such a Temple, else the first one.
pub open spec fn local_seat(fs: Seq<Fortress>, k: int) -> int
    decreases fs.len() - k,
{
    if k < 0 || k >= fs.len() {
        0
    } else if has_local_temple(fs[k]) {
        k
    } else {
        local_seat(fs, k + 1)
    }
}

/// Who sits where: the local seat first, then the others in file order.
pub open spec fn seat_order(n: int, local: int) -> Seq<int> {
    seq![local] + Seq::new((n - 1) as nat, |i: int| if i < local { i } else { i + 1 })
}

/// The last seat holding player number `p`.
pub open spec fn last_seat_of(seated: Seq<u8>, p: u8) -> Option<int>
    decreases seated.len(),
{
    if seated.len() == 0 {
        None
    } else if seated.last() == p {
        Some(seated.len() - 1)
    } else {
        last_seat_of(seated.drop_last(), p)
    }
}

/// The seat an item's player number maps to, the first seat for none.
pub open spec fn spec_owner_of(seated: Seq<u8>, item: Item) -> u8 {
    match spec_owner(item.code, item.payload@) {
        Some(p) => match last_seat_of(seated, p) {
            Some(our) => our as u8,
            None => 0,
        },
        None => 0,
    }
}

fn first_seat_of(items: &Vec<Item>) -> (r: Option<u8>)
    ensures
        r == first_seat(items@, 0),
{
    let mut i: usize = 0;
    while i < items.len()
        invariant
            i <= items@.len(),
            first_seat(items@, 0) == first_seat(items@, i as int),
        decreases items@.len() - i,
    {
        let it = &items[i];
        if it.code == CODE_TEMPLE || (CODE_ALTAR_FIRST <= it.code && it.code <= CODE_ALTAR_LAST) {
            match it.owner() {
                Some(p) => { return Some(p); },
                None => {},
            }
        }
        i = i + 1;
    }
    None
}

fn local_temple(f: &Fortress) -> (r: bool)
    ensures
        r == has_local_temple(*f),
{
    let mut i: usize = 0;
    while i < f.items.len()
        invariant
            i <= f.items@.len(),
            forall|j: int| 0 <= j < i ==> !((#[trigger] f.items@[j]).code == CODE_TEMPLE
                && f.items@[j].payload@.len() > 0 && f.items@[j].payload@[0] >= 0x80),
        decreases f.items@.len() - i,
    {
        if f.items[i].is_local_temple() {
            return true;
        }
        i = i + 1;
    }
    false
}

/// The seating of a scenario's players: the fortresses in seat order (the
/// seat the file was saved from first, the others in file order) and the
/// player number of each seat.
pub fn seating(fort: &Fort) -> (r: (Vec<usize>, Vec<u8>))
    requires
        fort.fortresses@.len() <= 255,
    ensures
        fort.fortresses@.len() == 0 ==> r.0@.len() == 1 && r.0@[0] == 0 && r.1@.len() == 0,
        fort.fortresses@.len() > 0 ==> r.0@.map_values(|k: usize| k as int) == seat_order(fort.fortresses@.len() as int, local_seat(fort.fortresses@, 0))
            && r.1@.len() == r.0@.len()
            && forall|our: int| 0 <= our < r.1@.len() ==> #[trigger] r.1@[our] == seat_number(fort.fortresses@[r.0@[our] as int], r.0@[our] as int),
{
    let n = fort.fortresses.len();
    let mut local: usize = 0;
    let mut k: usize = 0;
    let mut found = false;
    while k < n && !found
        invariant
            n == fort.fortresses@.len(),
            k <= n,
            !found ==> local_seat(fort.fortresses@, 0) == local_seat(fort.fortresses@, k as int) && local == 0,
            found ==> local_seat(fort.fortresses@, 0) == local as int && local < n,
        decreases n - k + (if found { 0int } else { 1int }),
    {
        if local_temple(&fort.fortresses[k]) {
            local = k;
            found = true;
        } else {
            k = k + 1;
        }
    }
    let mut order: Vec<usize> = Vec::new();
    order.push(local);
    if n == 0 {
        return (order, Vec::new());
    }
    let ghost want = seat_order(n as int, local as int);
    let mut j: usize = 0;
    while j < n
        invariant
            n == fort.fortresses@.len() > 0,
            local < n,
            j <= n,
            want == seat_order(n as int, local as int),
            order@.len() == 1 + (if j <= local { j as int } else { j - 1 }),
            order@.map_values(|k: usize| k as int) == want.subrange(0, order@.len() as int),
        decreases n - j,
    {
        if j != local {
            let ghost before = order@;
            order.push(j);
            proof {
                assert(order@.map_values(|k: usize| k as int) =~= want.subrange(0, order@.len() as int));
            }
        }
        j = j + 1;
    }
    assert(want.subrange(0, order@.len() as int) =~= want);
    assert forall|i: int| 0 <= i < n implies #[trigger] order@[i] < n by {
        assert(order@.map_values(|k: usize| k as int)[i] == want[i]);
    }
    let mut seated: Vec<u8> = Vec::new();
    let mut s: usize = 0;
    while s < order.len()
        invariant
            n == fort.fortresses@.len() <= 255,
            order@.len() == n,
            forall|i: int| 0 <= i < n ==> #[trigger] order@[i] < n,
            s <= n,
            seated@.len() == s,
            forall|our: int| 0 <= our < s ==> #[trigger] seated@[our] == seat_number(fort.fortresses@[order@[our] as int], order@[our] as int),
        decreases n - s,
    {
        let f = order[s];
        let number = match first_seat_of(&fort.fortresses[f].items) {
            Some(p) => p,
            None => (f + 1) as u8,
        };
        seated.push(number);
        s = s + 1;
    }
    (order, seated)
}

/// The seat an item's player number maps to: the last seat holding that
/// number, the first seat for none.
pub fn owner_of(seated: &[u8], item: &Item) -> (o: u8)
    requires
        seated@.len() <= 256,
    ensures
        o == spec_owner_of(seated@, *item),
{
    match item.owner() {
        Some(p) => {
            let mut k: usize = seated.len();
            assert(seated@.subrange(0, k as int) =~= seated@);
            while k > 0
                invariant
                    k <= seated@.len() <= 256,
                    spec_owner(item.code, item.payload@) == Some(p),
                    last_seat_of(seated@, p) == last_seat_of(seated@.subrange(0, k as int), p),
                decreases k,
            {
                proof {
                    assert(seated@.subrange(0, k as int).drop_last() =~= seated@.subrange(0, k - 1));
                }
                if seated[k - 1] == p {
                    proof {
                        assert(seated@.subrange(0, k as int).last() == seated@[k - 1]);
                        assert(last_seat_of(seated@, p) == Some(k - 1));
                        assert(spec_owner(item.code, item.payload@) == Some(p));
                        assert(k - 1 < 256);
                        assert(spec_owner_of(seated@, *item) == ((k - 1) as int) as u8);
                    }
                    return (k - 1) as u8;
                }
                k = k - 1;
            }
            0
        },
        None => 0,
    }
}

/// A placed structure or unit as its owner, type and cell.
pub type Placed = (u8, Seq<char>, [i32; 2]);

/// What the world table's items have put on a map: structures, units,
/// the owners of its islands and the bridge cells.
pub struct WorldView {
    pub structures: Seq<Placed>,
    pub units: Seq<Placed>,
    pub owners: Seq<Option<u8>>,
    pub bridges: Seq<[i32; 2]>,
}

pub open spec fn is_bridge_code(code: u8) -> bool {
    CODE_BRIDGE_FIRST <= code <= CODE_BRIDGE_LAST
}

/// The first island from `k` on holding `c`.
pub open spec fn island_index(isl: Seq<Seq<Cell>>, c: Cell, k: int) -> Option<int>
    decreases isl.len() - k,
{
    if k < 0 || k >= isl.len() {
        None
    } else if isl[k].contains(c) {
        Some(k)
    } else {
        island_index(isl, c, k + 1)
    }
}

/// What one world-table item adds: nothing for ground, a bridge cell, a
/// geyser for the first seat, else what `place_item` makes of it for its
/// seat, the world islands standing at `first` on in the map's list.
pub open spec fn world_step(w: WorldView, item: Item, fc: FortRules, seated: Seq<u8>, isl: Seq<Seq<Cell>>, first: int) -> WorldView {
    let at = [item.x, item.y];
    if item.code == CODE_GROUND {
        w
    } else if is_bridge_code(item.code) {
        WorldView { bridges: w.bridges.push(at), ..w }
    } else if item.code == CODE_GEYSER {
        WorldView { structures: w.structures.push((0u8, fc.geyser@, at)), ..w }
    } else {
        let owner = spec_owner_of(seated, item);
        match lookup(pairs_view(fc.units@), hex_key(item.code)) {
            Some(u) => WorldView { units: w.units.push((owner, u, at)), ..w },
            None => match item_kind(item.code, fc) {
                None => w,
                Some(k) => WorldView {
                    structures: w.structures.push((owner, k, at)),
                    owners: match island_index(isl, Cell { x: item.x, y: item.y }, 0) {
                        Some(i) => if spec_owner(item.code, item.payload@) is Some {
                            w.owners.update(first + i, Some(owner))
                        } else {
                            w.owners
                        },
                        None => w.owners,
                    },
                    ..w
                },
            },
        }
    }
}

pub open spec fn world_fold(w: WorldView, items: Seq<Item>, fc: FortRules, seated: Seq<u8>, isl: Seq<Seq<Cell>>, first: int) -> WorldView
    decreases items.len(),
{
    if items.len() == 0 {
        w
    } else {
        world_step(world_fold(w, items.drop_last(), fc, seated, isl, first), items.last(), fc, seated, isl, first)
    }
}

/// How many items carry the code `c` that the rules do not know.
pub open spec fn unknown_items(items: Seq<Item>, c: u8, fc: FortRules) -> nat
    decreases items.len(),
{
    if items.len() == 0 {
        0
    } else {
        unknown_items(items.drop_last(), c, fc) + if items.last().code == c && c != CODE_GROUND && !is_bridge_code(c)
            && c != CODE_GEYSER && unknown_code(c, fc) { 1nat } else { 0nat }
    }
}

proof fn lemma_unknown_bound(items: Seq<Item>, c: u8, fc: FortRules)
    ensures
        unknown_items(items, c, fc) <= items.len(),
    decreases items.len(),
{
    if items.len() > 0 {
        lemma_unknown_bound(items.drop_last(), c, fc);
    }
}

pub open spec fn placed_view(v: Seq<PlacementDef>) -> Seq<Placed> {
    v.map_values(|p: PlacementDef| (p.owner, p.kind@, p.at))
}

pub open spec fn units_view(v: Seq<UnitDef>) -> Seq<Placed> {
    v.map_values(|u: UnitDef| (u.owner, u.kind@, u.at))
}

pub open spec fn owners_view(v: Seq<IslandDef>) -> Seq<Option<u8>> {
    v.map_values(|d: IslandDef| d.owner)
}

/// The islands but for their owners.
pub open spec fn shapes_view(v: Seq<IslandDef>) -> Seq<(Seq<char>, [i32; 2], [i32; 2], Seq<[i32; 2]>, Seq<[i32; 2]>)> {
    v.map_values(|d: IslandDef| (d.theme@, d.origin, d.size, d.remove@, d.cells@))
}

proof fn lemma_island_index_range(isl: Seq<Seq<Cell>>, c: Cell, k: int)
    requires
        0 <= k,
    ensures
        island_index(isl, c, k) matches Some(i) ==> k <= i < isl.len(),
    decreases isl.len() - k,
{
    if k < isl.len() && !isl[k].contains(c) {
        lemma_island_index_range(isl, c, k + 1);
    }
}

fn island_index_of(isl: &Vec<Vec<Cell>>, c: Cell) -> (r: Option<usize>)
    ensures
        match island_index(cells_view(isl@), c, 0) {
            Some(i) => r == Some(i as usize),
            None => r is None,
        },
        r matches Some(i) ==> i < isl@.len(),
{
    let ghost iv = cells_view(isl@);
    let mut k: usize = 0;
    while k < isl.len()
        invariant
            k <= isl@.len(),
            iv == cells_view(isl@),
            island_index(iv, c, 0) == island_index(iv, c, k as int),
        decreases isl@.len() - k,
    {
        let cells = &isl[k];
        assert(iv[k as int] == cells@);
        let mut j: usize = 0;
        let mut found = false;
        while j < cells.len()
            invariant
                j <= cells@.len(),
                found == exists|m: int| 0 <= m < j && cells@[m] == c,
            decreases cells@.len() - j,
        {
            if same_cell(cells[j], c) {
                found = true;
            }
            j = j + 1;
        }
        if found {
            return Some(k);
        }
        k = k + 1;
    }
    None
}

/// Everything in the world table but its ground: bridge cells (all the
/// rules' bridge owner's, as one bridge), geysers for the first seat, and
/// the structures and units of the seats; the world islands stand at
/// `first` on in the map's list, as `isl` lists their cells.
pub fn world_items(fort: &Fort, fc: &FortRules, seated: &[u8], isl: &Vec<Vec<Cell>>, first: usize, map: &mut MapDef, report: &mut Report)
    requires
        first + isl@.len() <= old(map).islands@.len(),
        seated@.len() <= 256,
        tally_wf(old(report).unknown_codes@),
        forall|c: u8| #[trigger] tally(old(report).unknown_codes@, c) + fort.items@.len() < usize::MAX,
    ensures
        ({
            let w0 = WorldView {
                structures: placed_view(old(map).structures@),
                units: units_view(old(map).units@),
                owners: owners_view(old(map).islands@),
                bridges: Seq::empty(),
            };
            let w = world_fold(w0, fort.items@, *fc, seated@, cells_view(isl@), first as int);
            &&& placed_view(final(map).structures@) == w.structures
            &&& units_view(final(map).units@) == w.units
            &&& owners_view(final(map).islands@) == w.owners
            &&& final(map).bridges@.len() == old(map).bridges@.len() + (if w.bridges.len() > 0 { 1int } else { 0int })
            &&& final(map).bridges@.subrange(0, old(map).bridges@.len() as int) == old(map).bridges@
            &&& w.bridges.len() > 0 ==> final(map).bridges@.last().owner == fc.bridge_owner
                && final(map).bridges@.last().cells@ == w.bridges
        }),
        forall|i: int| old(map).structures@.len() <= i < final(map).structures@.len()
            ==> (#[trigger] final(map).structures@[i]).spell is None && final(map).structures@[i].frame is None,
        forall|i: int| old(map).units@.len() <= i < final(map).units@.len() ==> (#[trigger] final(map).units@[i]).move_to is None,
        shapes_view(final(map).islands@) == shapes_view(old(map).islands@),
        final(map).name == old(map).name && final(map).start_power == old(map).start_power,
        final(map).camera == old(map).camera && final(map).player_tech == old(map).player_tech,
        final(map).opponents == old(map).opponents,
        final(report).notes == old(report).notes,
        tally_wf(final(report).unknown_codes@),
        forall|c: u8| #[trigger] tally(final(report).unknown_codes@, c) == tally(old(report).unknown_codes@, c) + unknown_items(fort.items@, c, *fc),
{
    let ghost w0 = WorldView {
        structures: placed_view(map.structures@),
        units: units_view(map.units@),
        owners: owners_view(map.islands@),
        bridges: Seq::empty(),
    };
    let ghost iv = cells_view(isl@);
    let ghost m0 = *map;
    let ghost r0 = report.unknown_codes@;
    let mut bridges: Vec<[i32; 2]> = Vec::new();
    let mut k: usize = 0;
    while k < fort.items.len()
        invariant
            k <= fort.items@.len(),
            iv == cells_view(isl@),
            first + isl@.len() <= map.islands@.len(),
            seated@.len() <= 256,
            m0 == *old(map),
            r0 == old(report).unknown_codes@,
            forall|c: u8| #[trigger] tally(r0, c) + fort.items@.len() < usize::MAX,
            ({
                let w = world_fold(w0, fort.items@.subrange(0, k as int), *fc, seated@, iv, first as int);
                &&& placed_view(map.structures@) == w.structures
                &&& units_view(map.units@) == w.units
                &&& owners_view(map.islands@) == w.owners
                &&& bridges@ == w.bridges
            }),
            forall|i: int| m0.structures@.len() <= i < map.structures@.len()
                ==> (#[trigger] map.structures@[i]).spell is None && map.structures@[i].frame is None,
            forall|i: int| m0.units@.len() <= i < map.units@.len() ==> (#[trigger] map.units@[i]).move_to is None,
            shapes_view(map.islands@) == shapes_view(m0.islands@),
            map.name == m0.name && map.start_power == m0.start_power,
            map.camera == m0.camera && map.player_tech == m0.player_tech,
            map.opponents == m0.opponents && map.bridges == m0.bridges,
            report.notes == old(report).notes,
            tally_wf(report.unknown_codes@),
            forall|c: u8| #[trigger] tally(report.unknown_codes@, c) == tally(r0, c) + unknown_items(fort.items@.subrange(0, k as int), c, *fc),
        decreases fort.items@.len() - k,
    {
        let item = &fort.items[k];
        let ghost sub = fort.items@.subrange(0, k + 1);
        let ghost wb = world_fold(w0, fort.items@.subrange(0, k as int), *fc, seated@, iv, first as int);
        let ghost ms = map.structures@;
        let ghost mu = map.units@;
        let ghost mi = map.islands@;
        let ghost rb = report.unknown_codes@;
        proof {
            assert(sub.drop_last() =~= fort.items@.subrange(0, k as int));
            assert(sub.last() == *item);
        }
        let code = item.code;
        if code == CODE_GROUND {
        } else if CODE_BRIDGE_FIRST <= code && code <= CODE_BRIDGE_LAST {
            bridges.push([item.x, item.y]);
        } else if code == CODE_GEYSER {
            map.structures.push(PlacementDef { owner: 0, kind: fc.geyser.clone(), at: [item.x, item.y], spell: None, frame: None });
            proof {
                assert(placed_view(map.structures@) =~= placed_view(ms).push((0u8, fc.geyser@, [item.x, item.y])));
                assert forall|j: int| m0.structures@.len() <= j < map.structures@.len()
                    implies (#[trigger] map.structures@[j]).spell is None && map.structures@[j].frame is None by {
                    if j < ms.len() {
                        assert(map.structures@[j] == ms[j]);
                    }
                }
            }
        } else {
            let at = Cell::new(item.x, item.y);
            let nis = map.islands.len();
            let island = match island_index_of(isl, at) {
                Some(i) => Some(first + i),
                None => None,
            };
            let owner = owner_of(seated, item);
            proof {
                lemma_unknown_bound(fort.items@.subrange(0, k as int), code, *fc);
            }
            place_item(item, at, owner, fc, map, report, island);
            proof {
                match lookup(pairs_view(fc.units@), hex_key(code)) {
                    Some(u) => {
                        assert(units_view(map.units@) =~= units_view(mu).push((owner, u, [item.x, item.y])));
                        assert forall|j: int| m0.units@.len() <= j < map.units@.len() implies (#[trigger] map.units@[j]).move_to is None by {
                            if j < mu.len() {
                                assert(map.units@.drop_last()[j] == mu[j]);
                            }
                        }
                    },
                    None => {
                        match item_kind(code, *fc) {
                            None => {},
                            Some(kd) => {
                                assert(placed_view(map.structures@) =~= placed_view(ms).push((owner, kd, [item.x, item.y])));
                                assert forall|j: int| m0.structures@.len() <= j < map.structures@.len()
                                    implies (#[trigger] map.structures@[j]).spell is None && map.structures@[j].frame is None by {
                                    if j < ms.len() {
                                        assert(map.structures@.drop_last()[j] == ms[j]);
                                    }
                                }
                                lemma_island_index_range(iv, at, 0);
                                match island_index(iv, at, 0) {
                                    Some(i) => {
                                        if spec_owner(item.code, item.payload@) is Some {
                                            let p = first + i;
                                            assert(island == Some(p as usize));
                                            assert(map.islands@ == mi.update(p, IslandDef { owner: Some(owner), ..mi[p] }));
                                            assert(owners_view(map.islands@) =~= owners_view(mi).update(p, Some(owner)));
                                            assert(shapes_view(map.islands@) =~= shapes_view(mi));
                                        }
                                    },
                                    None => {},
                                }
                            },
                        }
                    },
                }
            }
        }
        proof {
            assert forall|c: u8| #[trigger] tally(report.unknown_codes@, c) == tally(r0, c) + unknown_items(sub, c, *fc) by {
                assert(tally(rb, c) == tally(r0, c) + unknown_items(fort.items@.subrange(0, k as int), c, *fc));
            }
        }
        k = k + 1;
    }
    assert(fort.items@.subrange(0, k as int) =~= fort.items@);
    if bridges.len() > 0 {
        map.bridges.push(BridgeDef { owner: fc.bridge_owner, cells: bridges });
    }
}

/// The map's title: the mission's, else `name`.
pub open spec fn spec_title(m: Option<&Mission>, name: Seq<char>) -> Seq<char> {
    match m {
        Some(m) => match spec_get(pairs_view(m.header@), "title"@) {
            Some(v) => v,
            None => name,
        },
        None => name,
    }
}

/// A header value as a number.
pub open spec fn header_int(m: &Mission, key: Seq<char>) -> Option<i64> {
    match spec_get(pairs_view(m.header@), key) {
        Some(v) => parse_int(trim(v, Trim::Ws)),
        None => None,
    }
}

/// The Storm Power the player starts with: the mission's `myStartMoney`,
/// else the rules'.
pub open spec fn spec_start_power(m: Option<&Mission>, fc: FortRules) -> i32 {
    match m {
        Some(m) => match header_int(m, "mystartmoney"@) {
            Some(p) => p as i32,
            None => fc.start_power,
        },
        None => fc.start_power,
    }
}

/// The map's title and the player's start power.
pub fn scenario_header(mission: Option<&Mission>, fc: &FortRules, name: &str) -> (r: (String, i32))
    ensures
        r.0@ == spec_title(mission, name@),
        r.1 == spec_start_power(mission, *fc),
{
    match mission {
        Some(m) => {
            let title = match m.get("title") {
                Some(t) => text_of(t),
                None => text_of(name),
            };
            let power = match m.integer("mystartmoney") {
                Some(p) => p as i32,
                None => fc.start_power,
            };
            (title, power)
        },
        None => (text_of(name), fc.start_power),
    }
}

fn text_of(s: &str) -> (r: String)
    ensures
        r@ == s@,
{
    string_of(chars_of(s).as_slice())
}

/// The technologies of seat `our`, player number `number`: the mission's
/// `myTech` for the first seat, a computer player's list for the others.
pub open spec fn spec_seat_techs(m: Option<&Mission>, our: int, number: u8) -> Seq<Seq<char>> {
    match m {
        None => Seq::empty(),
        Some(m) => {
            let h = pairs_view(m.header@);
            if our == 0 {
                spec_techs(h, "mytech"@)
            } else if spec_techs(h, ai_key(number as nat)).len() > 0 {
                spec_techs(h, ai_key(number as nat))
            } else {
                spec_techs(h, "aitech"@)
            }
        },
    }
}

pub fn seat_techs(mission: Option<&Mission>, our: usize, number: u8) -> (v: Vec<String>)
    ensures
        strings_view(v@) == spec_seat_techs(mission, our as int, number),
{
    match mission {
        None => {
            let v: Vec<String> = Vec::new();
            assert(strings_view(v@) =~= Seq::<Seq<char>>::empty());
            v
        },
        Some(m) => if our == 0 { m.techs("mytech") } else { m.ai_techs(number as usize) },
    }
}

/// The code of the first altar among the items from `i` on.
pub open spec fn first_altar(items: Seq<Item>, i: int) -> Option<u8>
    decreases items.len() - i,
{
    if i < 0 || i >= items.len() {
        None
    } else if is_altar_code(items[i].code) {
        Some(items[i].code)
    } else {
        first_altar(items, i + 1)
    }
}

/// A seat's theme: the one its first altar's code gives, where the rules
/// give one; else Wind for a Wind player who has no Sun weapon, the
/// rules' human theme for the first seat, Sun for the others.
pub open spec fn spec_theme(f: Fortress, fc: FortRules, techs: Seq<Seq<char>>, our: int) -> Seq<char> {
    let from_altar = match first_altar(f.items@, 0) {
        Some(code) => match lookup(pairs_view(fc.altar_themes@), hex_key(code)) {
            Some(t) => if t.len() > 0 { Some(t) } else { None },
            None => None,
        },
        None => None,
    };
    match from_altar {
        Some(t) => t,
        None => if (exists|i: int| 0 <= i < techs.len() && starts_with(#[trigger] techs[i], "wind"@))
            && !(exists|i: int| 0 <= i < techs.len() && starts_with(#[trigger] techs[i], "sun"@) && !ends_with(techs[i], "walker"@)) {
            "wind"@
        } else if our == 0 {
            fc.human_theme@
        } else {
            "sun"@
        },
    }
}

fn first_altar_of(items: &Vec<Item>) -> (r: Option<u8>)
    ensures
        r == first_altar(items@, 0),
{
    let mut i: usize = 0;
    while i < items.len()
        invariant
            i <= items@.len(),
            first_altar(items@, 0) == first_altar(items@, i as int),
        decreases items@.len() - i,
    {
        let code = items[i].code;
        if CODE_ALTAR_FIRST <= code && code <= CODE_ALTAR_LAST {
            return Some(code);
        }
        i = i + 1;
    }
    None
}

fn has_prefix_str(s: &String, p: &str) -> (r: bool)
    ensures
        r == starts_with(s@, p@),
{
    has_prefix(chars_of(s.as_str()).as_slice(), chars_of(p).as_slice())
}

fn has_suffix_str(s: &String, p: &str) -> (r: bool)
    ensures
        r == ends_with(s@, p@),
{
    has_suffix(chars_of(s.as_str()).as_slice(), chars_of(p).as_slice())
}

pub fn fortress_theme(f: &Fortress, fc: &FortRules, techs: &Vec<String>, our: usize) -> (t: String)
    ensures
        t@ == spec_theme(*f, *fc, strings_view(techs@), our as int),
{
    let ghost tv = strings_view(techs@);
    let altar = first_altar_of(&f.items);
    match altar {
        Some(code) => {
            let key = code_key(code);
            match lookup_in(&fc.altar_themes, key.as_str()) {
                Some(t) => {
                    if chars_of(t.as_str()).len() > 0 {
                        return t.clone();
                    }
                },
                None => {},
            }
        },
        None => {},
    }
    let mut wind = false;
    let mut sun = false;
    let mut k: usize = 0;
    while k < techs.len()
        invariant
            k <= techs@.len(),
            tv == strings_view(techs@),
            wind == exists|i: int| 0 <= i < k && starts_with(#[trigger] tv[i], "wind"@),
            sun == exists|i: int| 0 <= i < k && starts_with(#[trigger] tv[i], "sun"@) && !ends_with(tv[i], "walker"@),
        decreases techs@.len() - k,
    {
        assert(tv[k as int] == techs@[k as int]@);
        if has_prefix_str(&techs[k], "wind") {
            wind = true;
        }
        if has_prefix_str(&techs[k], "sun") && !has_suffix_str(&techs[k], "walker") {
            sun = true;
        }
        k = k + 1;
    }
    if wind && !sun {
        text_of("wind")
    } else if our == 0 {
        fc.human_theme.clone()
    } else {
        text_of("sun")
    }
}

/// A seat's Temple type: the rules' Temple for its theme, else their first.
pub open spec fn spec_temple(fc: FortRules, theme: Seq<char>) -> Seq<char> {
    match lookup(pairs_view(fc.temples@), theme) {
        Some(t) => t,
        None => if fc.temples@.len() > 0 { fc.temples@[0].1@ } else { Seq::empty() },
    }
}

pub fn temple_for(fc: &FortRules, theme: &str) -> (t: String)
    ensures
        t@ == spec_temple(*fc, theme@),
{
    match lookup_in(&fc.temples, theme) {
        Some(t) => t.clone(),
        None => if fc.temples.len() > 0 { fc.temples[0].1.clone() } else { String::new() },
    }
}

/// A structure or unit of a fortress as its type and cell.
pub type Planned = (Seq<char>, Cell);

/// What a fortress's items become: structures (the seat's Temple, the
/// altar, the types the codes name) and units, in item order.
pub open spec fn plan_fold(items: Seq<Item>, fc: FortRules, temple: Seq<char>) -> (Seq<Planned>, Seq<Planned>)
    decreases items.len(),
{
    if items.len() == 0 {
        (Seq::empty(), Seq::empty())
    } else {
        let (s, u) = plan_fold(items.drop_last(), fc, temple);
        let it = items.last();
        let at = Cell { x: it.x, y: it.y };
        if it.code == CODE_TEMPLE {
            (s.push((temple, at)), u)
        } else if is_altar_code(it.code) {
            (s.push((fc.altar@, at)), u)
        } else {
            match lookup(pairs_view(fc.units@), hex_key(it.code)) {
                Some(k) => (s, u.push((k, at))),
                None => match lookup(pairs_view(fc.codes@), hex_key(it.code)) {
                    Some(k) => if k.len() == 0 { (s, u) } else { (s.push((k, at)), u) },
                    None => (s, u),
                },
            }
        }
    }
}

/// How many of a fortress's items carry the code `c` that the rules do
/// not know.
pub open spec fn fortress_unknowns(items: Seq<Item>, c: u8, fc: FortRules) -> nat
    decreases items.len(),
{
    if items.len() == 0 {
        0
    } else {
        fortress_unknowns(items.drop_last(), c, fc) + if items.last().code == c && unknown_code(c, fc) { 1nat } else { 0nat }
    }
}

proof fn lemma_fortress_unknowns_bound(items: Seq<Item>, c: u8, fc: FortRules)
    ensures
        fortress_unknowns(items, c, fc) <= items.len(),
    decreases items.len(),
{
    if items.len() > 0 {
        lemma_fortress_unknowns_bound(items.drop_last(), c, fc);
    }
}

pub open spec fn planned_view(v: Seq<(String, Cell)>) -> Seq<Planned> {
    v.map_values(|p: (String, Cell)| (p.0@, p.1))
}

/// A fortress's structures and units, each with its type and cell on the
/// fortress canvas; codes the rules do not know are counted in the report.
pub fn fortress_plan(f: &Fortress, fc: &FortRules, temple: &String, report: &mut Report) -> (r: (Vec<(String, Cell)>, Vec<(String, Cell)>))
    requires
        tally_wf(old(report).unknown_codes@),
        forall|c: u8| #[trigger] tally(old(report).unknown_codes@, c) + f.items@.len() < usize::MAX,
    ensures
        (planned_view(r.0@), planned_view(r.1@)) == plan_fold(f.items@, *fc, temple@),
        final(report).notes == old(report).notes,
        tally_wf(final(report).unknown_codes@),
        forall|c: u8| #[trigger] tally(final(report).unknown_codes@, c) == tally(old(report).unknown_codes@, c) + fortress_unknowns(f.items@, c, *fc),
{
    let ghost r0 = report.unknown_codes@;
    let mut s: Vec<(String, Cell)> = Vec::new();
    let mut u: Vec<(String, Cell)> = Vec::new();
    let mut k: usize = 0;
    while k < f.items.len()
        invariant
            k <= f.items@.len(),
            r0 == old(report).unknown_codes@,
            forall|c: u8| #[trigger] tally(r0, c) + f.items@.len() < usize::MAX,
            (planned_view(s@), planned_view(u@)) == plan_fold(f.items@.subrange(0, k as int), *fc, temple@),
            report.notes == old(report).notes,
            tally_wf(report.unknown_codes@),
            forall|c: u8| #[trigger] tally(report.unknown_codes@, c) == tally(r0, c) + fortress_unknowns(f.items@.subrange(0, k as int), c, *fc),
        decreases f.items@.len() - k,
    {
        let it = &f.items[k];
        let ghost sub = f.items@.subrange(0, k + 1);
        let ghost sb = planned_view(s@);
        let ghost ub = planned_view(u@);
        let ghost rb = report.unknown_codes@;
        proof {
            assert(sub.drop_last() =~= f.items@.subrange(0, k as int));
            assert(sub.last() == *it);
        }
        let at = Cell::new(it.x, it.y);
        let key = code_key(it.code);
        if it.code == CODE_TEMPLE {
            s.push((temple.clone(), at));
            proof { assert(planned_view(s@) =~= sb.push((temple@, at))); }
        } else if CODE_ALTAR_FIRST <= it.code && it.code <= CODE_ALTAR_LAST {
            s.push((fc.altar.clone(), at));
            proof { assert(planned_view(s@) =~= sb.push((fc.altar@, at))); }
        } else {
            match lookup_in(&fc.units, key.as_str()) {
                Some(kind) => {
                    u.push((kind.clone(), at));
                    proof { assert(planned_view(u@) =~= ub.push((kind@, at))); }
                },
                None => match lookup_in(&fc.codes, key.as_str()) {
                    Some(kind) => {
                        if chars_of(kind.as_str()).len() > 0 {
                            s.push((kind.clone(), at));
                            proof { assert(planned_view(s@) =~= sb.push((kind@, at))); }
                        }
                    },
                    None => {
                        proof { lemma_fortress_unknowns_bound(f.items@.subrange(0, k as int), it.code, *fc); }
                        count_code(&mut report.unknown_codes, it.code);
                    },
                },
            }
        }
        proof {
            assert forall|c: u8| #[trigger] tally(report.unknown_codes@, c) == tally(r0, c) + fortress_unknowns(sub, c, *fc) by {
                assert(tally(rb, c) == tally(r0, c) + fortress_unknowns(f.items@.subrange(0, k as int), c, *fc));
            }
        }
        k = k + 1;
    }
    assert(f.items@.subrange(0, k as int) =~= f.items@);
    (s, u)
}

/// The first technology ending in one of the two words.
pub open spec fn first_ending(techs: Seq<Seq<char>>, a: Seq<char>, b: Seq<char>, i: int) -> Option<Seq<char>>
    decreases techs.len() - i,
{
    if i < 0 || i >= techs.len() {
        None
    } else if ends_with(techs[i], a) || ends_with(techs[i], b) {
        Some(techs[i])
    } else {
        first_ending(techs, a, b, i + 1)
    }
}

/// A computer player's Storm Power: its mission's `ai<n>StartMoney`, else
/// `aiStartMoney`, else the rules'.
pub open spec fn spec_ai_power(m: Option<&Mission>, fc: FortRules, number: u8) -> i32 {
    match m {
        Some(m) => match header_int(m, seq!['a', 'i'] + decimal(number as nat) + "startmoney"@) {
            Some(p) => p as i32,
            None => match header_int(m, "aistartmoney"@) {
                Some(p) => p as i32,
                None => fc.ai_power,
            },
        },
        None => fc.ai_power,
    }
}

fn first_ending_in(techs: &Vec<String>, a: &str, b: &str) -> (r: Option<String>)
    ensures
        match first_ending(strings_view(techs@), a@, b@, 0) {
            Some(t) => r is Some && r->0@ == t,
            None => r is None,
        },
{
    let ghost tv = strings_view(techs@);
    let mut i: usize = 0;
    while i < techs.len()
        invariant
            i <= techs@.len(),
            tv == strings_view(techs@),
            first_ending(tv, a@, b@, 0) == first_ending(tv, a@, b@, i as int),
        decreases techs@.len() - i,
    {
        assert(tv[i as int] == techs@[i as int]@);
        if has_suffix_str(&techs[i], a) || has_suffix_str(&techs[i], b) {
            return Some(techs[i].clone());
        }
        i = i + 1;
    }
    None
}

/// A computer player's entry: its shooter (its first Cannon or Archer
/// technology), generator (its first Battery), technologies and Storm Power.
pub fn opponent_for(mission: Option<&Mission>, fc: &FortRules, techs: Vec<String>, our: u8, number: u8) -> (o: OpponentDef)
    ensures
        o.owner == our,
        o.target is None,
        match first_ending(strings_view(techs@), "cannon"@, "archer"@, 0) {
            Some(t) => o.shooter is Some && o.shooter->0@ == t,
            None => o.shooter is None,
        },
        match first_ending(strings_view(techs@), "battery"@, "battery"@, 0) {
            Some(t) => o.generator is Some && o.generator->0@ == t,
            None => o.generator is None,
        },
        o.knowledge@.len() == 0,
        o.tech@ == techs@,
        o.power == Some(spec_ai_power(mission, *fc, number)),
{
    let shooter = first_ending_in(&techs, "cannon", "archer");
    let generator = first_ending_in(&techs, "battery", "battery");
    let power = match mission {
        Some(m) => {
            let mut key: Vec<char> = Vec::new();
            key.push('a');
            key.push('i');
            push_decimal(&mut key, number as usize);
            let rest = chars_of("startmoney");
            push_all(&mut key, rest.as_slice());
            assert(key@ =~= seq!['a', 'i'] + decimal(number as nat) + "startmoney"@);
            let ks = string_of(key.as_slice());
            match m.integer(ks.as_str()) {
                Some(p) => p as i32,
                None => match m.integer("aistartmoney") {
                    Some(p) => p as i32,
                    None => fc.ai_power,
                },
            }
        },
        None => fc.ai_power,
    };
    OpponentDef { owner: our, target: None, shooter, generator, knowledge: Vec::new(), tech: techs, power: Some(power) }
}
} // verus!
