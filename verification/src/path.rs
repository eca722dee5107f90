//! Grid path search: A* over eight neighbours with integer costs, on top
//! of the `pathfinding` crate.
use vstd::prelude::*;
use crate::grid::{Cell, cell_at};

verus! {

/// Cost of a straight step; diagonals cost [`DIAGONAL`].
pub const STRAIGHT: u32 = 10;
pub const DIAGONAL: u32 = 14;

/// The eight neighbour offsets in the order the search tries them.
pub open spec fn neighbour(d: int) -> (int, int) {
    if d == 0 { (0, -1) }
    else if d == 1 { (1, -1) }
    else if d == 2 { (1, 0) }
    else if d == 3 { (1, 1) }
    else if d == 4 { (0, 1) }
    else if d == 5 { (-1, 1) }
    else if d == 6 { (-1, 0) }
    else { (-1, -1) }
}

fn neighbour_of(d: usize) -> (o: (i32, i32))
    requires
        d < 8,
    ensures
        o.0 == neighbour(d as int).0 && o.1 == neighbour(d as int).1,
{
    if d == 0 { (0, -1) }
    else if d == 1 { (1, -1) }
    else if d == 2 { (1, 0) }
    else if d == 3 { (1, 1) }
    else if d == 4 { (0, 1) }
    else if d == 5 { (-1, 1) }
    else if d == 6 { (-1, 0) }
    else { (-1, -1) }
}

/// `c` lies on the `i32` grid.
pub open spec fn on_grid(x: int, y: int) -> bool {
    i32::MIN <= x <= i32::MAX && i32::MIN <= y <= i32::MAX
}

/// `cost` can give a multiplier for `c`: the cell may be entered.
pub open spec fn open_cell<F: Fn(Cell) -> Option<u32>>(cost: F, c: Cell) -> bool {
    exists|m: u32| cost.ensures((c,), Some(m))
}

/// One move of the search from `a` to `b`: to one of the eight
/// neighbours, onto a cell that may be entered, and on a diagonal only
/// when both cells it passes between may be entered too.
pub open spec fn step_ok<F: Fn(Cell) -> Option<u32>>(cost: F, a: Cell, b: Cell) -> bool {
    exists|d: int| 0 <= d < 8 && #[trigger] neighbour(d) == (b.x - a.x, b.y - a.y) && {
        let (dx, dy) = neighbour(d);
        &&& open_cell(cost, b)
        &&& (dx != 0 && dy != 0) ==> open_cell(cost, cell_at(a.x + dx, a.y as int)) && open_cell(cost, cell_at(a.x as int, a.y + dy))
    }
}

/// The cell before `p[i]` on a route from `from`.
pub open spec fn before(from: Cell, p: Seq<Cell>, i: int) -> Cell {
    if i == 0 { from } else { p[i - 1] }
}

/// A route from `from`: each cell one move on from the one before.
pub open spec fn is_route<F: Fn(Cell) -> Option<u32>>(cost: F, from: Cell, p: Seq<Cell>) -> bool {
    forall|i: int| 0 <= i < p.len() ==> #[trigger] step_ok(cost, before(from, p, i), p[i])
}

/// The octile distance in search costs, kept to 32 bits as the search's
/// arithmetic is.
pub open spec fn spec_heuristic(a: Cell, b: Cell) -> int {
    let dx = if a.x >= b.x { a.x - b.x } else { b.x - a.x };
    let dy = if a.y >= b.y { a.y - b.y } else { b.y - a.y };
    let (lo, hi) = if dx <= dy { (dx, dy) } else { (dy, dx) };
    (14 * lo + 10 * (hi - lo)) % 0x1_0000_0000
}

fn heuristic(a: Cell, b: Cell) -> (h: u32)
    ensures
        h == spec_heuristic(a, b),
{
    let dx: u32 = if a.x >= b.x { ((a.x as i64) - (b.x as i64)) as u32 } else { ((b.x as i64) - (a.x as i64)) as u32 };
    let dy: u32 = if a.y >= b.y { ((a.y as i64) - (b.y as i64)) as u32 } else { ((b.y as i64) - (a.y as i64)) as u32 };
    let (lo, hi) = if dx <= dy { (dx, dy) } else { (dy, dx) };
    let h = DIAGONAL.wrapping_mul(lo).wrapping_add(STRAIGHT.wrapping_mul(hi - lo));
    proof {
        assert((14 * lo % 0x1_0000_0000 + 10 * (hi - lo) % 0x1_0000_0000) % 0x1_0000_0000
            == (14 * lo + 10 * (hi - lo)) % 0x1_0000_0000) by (nonlinear_arith);
    }
    h
}

/// Which of the eight neighbour offsets (`dx`, `dy`) is; 8 if none.
pub open spec fn offset_dir(dx: int, dy: int) -> int {
    if (dx, dy) == neighbour(0) { 0 }
    else if (dx, dy) == neighbour(1) { 1 }
    else if (dx, dy) == neighbour(2) { 2 }
    else if (dx, dy) == neighbour(3) { 3 }
    else if (dx, dy) == neighbour(4) { 4 }
    else if (dx, dy) == neighbour(5) { 5 }
    else if (dx, dy) == neighbour(6) { 6 }
    else if (dx, dy) == neighbour(7) { 7 }
    else { 8 }
}

/// The direction from `cur` to the neighbouring cell `c`.
pub open spec fn dir_of(cur: Cell, c: Cell) -> int {
    offset_dir(c.x - cur.x, c.y - cur.y)
}

/// Whether direction `d` is a diagonal.
pub open spec fn is_diagonal(d: int) -> bool {
    neighbour(d).0 != 0 && neighbour(d).1 != 0
}

/// The cost of a move in direction `d` onto a cell of multiplier `m`:
/// 10 straight or 14 diagonal, times the multiplier (at least one), in
/// 32-bit wrapping arithmetic.
pub open spec fn move_cost(d: int, m: u32) -> int {
    ((if is_diagonal(d) { 14int } else { 10int }) * (if m >= 1 { m as int } else { 1int })) % 0x1_0000_0000
}

/// The move from `cur` in direction `d` can be refused: the neighbour
/// lies off the `i32` grid, or `cost` may give `None` for it or, on a
/// diagonal, for either cell the move passes between.
pub open spec fn refusable<F: Fn(Cell) -> Option<u32>>(cost: F, cur: Cell, d: int) -> bool {
    let (dx, dy) = neighbour(d);
    ||| !on_grid(cur.x + dx, cur.y + dy)
    ||| cost.ensures((cell_at(cur.x + dx, cur.y + dy),), None)
    ||| is_diagonal(d) && (cost.ensures((cell_at(cur.x + dx, cur.y as int),), None)
        || cost.ensures((cell_at(cur.x as int, cur.y + dy),), None))
}

/// The moves the search may make from `cur`, with their costs: each
/// neighbour on the grid that may be entered (no corner cutting), at 10
/// straight or 14 diagonal times its multiplier (at least one), in the
/// order of [`neighbour`]. A direction is left out only where the move
/// can be refused.
#[verifier::spinoff_prover]
fn successors<F: Fn(Cell) -> Option<u32>>(cur: Cell, cost: &F) -> (next: Vec<(Cell, u32)>)
    requires
        forall|c: Cell| cost.requires((c,)),
    ensures
        forall|i: int| 0 <= i < next@.len() ==> {
            &&& 0 <= dir_of(cur, #[trigger] next@[i].0) < 8
            &&& step_ok(*cost, cur, next@[i].0)
            &&& exists|m: u32| cost.ensures((next@[i].0,), Some(m)) && next@[i].1 == move_cost(dir_of(cur, next@[i].0), m)
        },
        forall|i: int, j: int| 0 <= i < j < next@.len() ==> dir_of(cur, #[trigger] next@[i].0) < dir_of(cur, #[trigger] next@[j].0),
        forall|d: int| 0 <= d < 8 ==> (exists|i: int| 0 <= i < next@.len() && dir_of(cur, #[trigger] next@[i].0) == d)
            || #[trigger] refusable(*cost, cur, d),
{
    let mut next: Vec<(Cell, u32)> = Vec::new();
    let mut d: usize = 0;
    while d < 8
        invariant
            d <= 8,
            forall|c: Cell| cost.requires((c,)),
            forall|i: int| 0 <= i < next@.len() ==> {
                &&& 0 <= dir_of(cur, #[trigger] next@[i].0) < d
                &&& step_ok(*cost, cur, next@[i].0)
                &&& exists|m: u32| cost.ensures((next@[i].0,), Some(m)) && next@[i].1 == move_cost(dir_of(cur, next@[i].0), m)
            },
            forall|i: int, j: int| 0 <= i < j < next@.len() ==> dir_of(cur, #[trigger] next@[i].0) < dir_of(cur, #[trigger] next@[j].0),
            forall|e: int| 0 <= e < d ==> (exists|i: int| 0 <= i < next@.len() && dir_of(cur, #[trigger] next@[i].0) == e)
                || #[trigger] refusable(*cost, cur, e),
        decreases 8 - d,
    {
        let ghost before = next@;
        let (dx, dy) = neighbour_of(d);
        let nx = (cur.x as i64) + (dx as i64);
        let ny = (cur.y as i64) + (dy as i64);
        let sx = (cur.x as i64) + (dx as i64);
        let sy = (cur.y as i64) + (dy as i64);
        let mut pushed = false;
        if nx >= i32::MIN as i64 && nx <= i32::MAX as i64 && ny >= i32::MIN as i64 && ny <= i32::MAX as i64 {
            let n = Cell::new(nx as i32, ny as i32);
            let cn = cost(n);
            proof {
                assert(n == cell_at(cur.x + dx, cur.y + dy));
            }
            if let Some(m) = cn {
                let diagonal = dx != 0 && dy != 0;
                let ok = if diagonal {
                    let a = Cell::new(sx as i32, cur.y);
                    let b = Cell::new(cur.x, sy as i32);
                    let ra = cost(a);
                    let rb = cost(b);
                    proof {
                        assert(a == cell_at(cur.x + dx, cur.y as int));
                        assert(b == cell_at(cur.x as int, cur.y + dy));
                        if let Some(m1) = ra {
                            assert(cost.ensures((a,), Some(m1)));
                        }
                        if let Some(m2) = rb {
                            assert(cost.ensures((b,), Some(m2)));
                        }
                    }
                    ra.is_some() && rb.is_some()
                } else {
                    true
                };
                if ok {
                    let step: u32 = if diagonal { DIAGONAL } else { STRAIGHT };
                    let mult: u32 = if m >= 1 { m } else { 1 };
                    let c = step.wrapping_mul(mult);
                    proof {
                        assert(open_cell(*cost, n));
                        assert(neighbour(d as int) == (n.x - cur.x, n.y - cur.y));
                        assert(step_ok(*cost, cur, n));
                        assert(dir_of(cur, n) == d);
                        assert(c == move_cost(d as int, m));
                    }
                    next.push((n, c));
                    pushed = true;
                    proof {
                        assert(next@[next@.len() - 1].0 == n);
                        assert forall|i: int| 0 <= i < before.len() implies next@[i] == before[i] by {}
                        assert forall|i: int| 0 <= i < next@.len() implies {
                            &&& 0 <= dir_of(cur, #[trigger] next@[i].0) < d + 1
                            &&& step_ok(*cost, cur, next@[i].0)
                            &&& exists|m: u32| cost.ensures((next@[i].0,), Some(m)) && next@[i].1 == move_cost(dir_of(cur, next@[i].0), m)
                        } by {
                            if i < before.len() {
                                assert(next@[i] == before[i]);
                            } else {
                                assert(cost.ensures((n,), Some(m)));
                            }
                        }
                        assert(exists|i: int| 0 <= i < next@.len() && dir_of(cur, #[trigger] next@[i].0) == d as int);
                    }
                }
            }
        }
        proof {
            if !pushed {
                assert(next@ == before);
                assert(refusable(*cost, cur, d as int));
            }
            assert forall|e: int| 0 <= e < d + 1 implies (exists|i: int| 0 <= i < next@.len() && dir_of(cur, #[trigger] next@[i].0) == e)
                || #[trigger] refusable(*cost, cur, e) by {
                if e < d && !refusable(*cost, cur, e) {
                    let i = choose|i: int| 0 <= i < before.len() && dir_of(cur, #[trigger] before[i].0) == e;
                    assert(next@[i] == before[i]);
                }
            }
        }
        d = d + 1;
    }
    next
}

fn is_goal(c: &Cell, to: Cell) -> (r: bool)
    ensures
        r == (*c == to),
{
    c.x == to.x && c.y == to.y
}

/// The search's reach: cells with both coordinates within 1024 of the
/// origin. Kept to it, no sum of move costs and heuristic the search
/// forms leaves 32 bits.
pub open spec fn within(c: Cell) -> bool {
    -1024 <= c.x <= 1024 && -1024 <= c.y <= 1024
}

/// `cost` gives one answer per cell, every cell it lets in lies within
/// [`within`], and no multiplier is over 64.
pub open spec fn modest_costs<F: Fn(Cell) -> Option<u32>>(cost: F) -> bool {
    &&& forall|c: Cell, r1: Option<u32>, r2: Option<u32>| cost.ensures((c,), r1) && cost.ensures((c,), r2) ==> r1 == r2
    &&& forall|c: Cell, m: u32| #[trigger] cost.ensures((c,), Some(m)) ==> within(c) && m <= 64
}

/// `g` is what `cost` answers, for every cell where it answers.
pub open spec fn answers<F: Fn(Cell) -> Option<u32>>(cost: F, g: spec_fn(Cell) -> Option<u32>) -> bool {
    forall|c: Cell, r: Option<u32>| #[trigger] cost.ensures((c,), r) ==> r == g(c)
}

/// Whether cell `c` may be entered under the cost map `g`.
pub open spec fn enters(g: spec_fn(Cell) -> Option<u32>, c: Cell) -> bool {
    g(c) is Some
}

/// One move from `a` to `b` under the cost map `g`: to one of the eight
/// neighbours, onto a cell that may be entered, and on a diagonal only
/// when both cells it passes between may be entered too.
pub open spec fn move_ok(g: spec_fn(Cell) -> Option<u32>, a: Cell, b: Cell) -> bool {
    let d = dir_of(a, b);
    &&& 0 <= d < 8
    &&& enters(g, b)
    &&& is_diagonal(d) ==> enters(g, cell_at(a.x + neighbour(d).0, a.y as int)) && enters(g, cell_at(a.x as int, a.y + neighbour(d).1))
}

/// `p` is a route from `from` to `to` under `g`: at least one move, each
/// cell one move on from the one before, the last cell `to`.
pub open spec fn leads_to(g: spec_fn(Cell) -> Option<u32>, from: Cell, to: Cell, p: Seq<Cell>) -> bool {
    &&& p.len() >= 1
    &&& p.last() == to
    &&& forall|i: int| 0 <= i < p.len() ==> #[trigger] move_ok(g, before(from, p, i), p[i])
}

/// What route `p` from `from` costs under `g`: 10 per straight move and 14
/// per diagonal one, times the multiplier of the cell entered.
pub open spec fn route_price(g: spec_fn(Cell) -> Option<u32>, from: Cell, p: Seq<Cell>) -> int
    decreases p.len(),
{
    if p.len() == 0 {
        0
    } else {
        route_price(g, from, p.drop_last()) + move_cost(dir_of(before(from, p, p.len() - 1), p.last()), g(p.last())->0)
    }
}

/// The cost map of a pure `cost`: its answer for each cell.
pub open spec fn cost_map<F: Fn(Cell) -> Option<u32>>(cost: F) -> spec_fn(Cell) -> Option<u32> {
    |c: Cell| choose|r: Option<u32>| cost.ensures((c,), r)
}

/// The cost map of a pure `walkable`: multiplier 1 where it holds.
pub open spec fn walk_map<W: Fn(Cell) -> bool>(walkable: W) -> spec_fn(Cell) -> Option<u32> {
    |c: Cell| if choose|b: bool| walkable.ensures((c,), b) { Some(1u32) } else { None }
}

proof fn lemma_step_moves<F: Fn(Cell) -> Option<u32>>(cost: F, g: spec_fn(Cell) -> Option<u32>, a: Cell, b: Cell)
    requires
        answers(cost, g),
        step_ok(cost, a, b),
    ensures
        move_ok(g, a, b),
{
    let d = choose|d: int| 0 <= d < 8 && #[trigger] neighbour(d) == (b.x - a.x, b.y - a.y) && {
        let (dx, dy) = neighbour(d);
        &&& open_cell(cost, b)
        &&& (dx != 0 && dy != 0) ==> open_cell(cost, cell_at(a.x + dx, a.y as int)) && open_cell(cost, cell_at(a.x as int, a.y + dy))
    };
    assert(dir_of(a, b) == d);
    let m = choose|m: u32| cost.ensures((b,), Some(m));
    assert(g(b) == Some(m));
    if is_diagonal(d) {
        let sa = cell_at(a.x + neighbour(d).0, a.y as int);
        let sb = cell_at(a.x as int, a.y + neighbour(d).1);
        let ma = choose|m: u32| cost.ensures((sa,), Some(m));
        let mb = choose|m: u32| cost.ensures((sb,), Some(m));
        assert(g(sa) == Some(ma));
        assert(g(sb) == Some(mb));
    }
}

/// `pathfinding::directed::astar::astar` from `from` to `to` over the
/// moves [`successors`] offers, guided by [`heuristic`]. Its documentation
/// and source give: the path starts at `from`, ends at a node the goal
/// test accepts (`to`), holds no node twice, and each node is one of the
/// successors of the node before it; it is a shortest one when the
/// heuristic never overestimates (the octile distance does not, every
/// move costing at least 10 or 14), so no route under any map that agrees
/// with `cost`'s answers costs less; and `None` comes only when no node
/// the goal test accepts can be reached, so there is no route at all.
/// A node is only looked at once the search reaches a neighbour of it, so
/// a map agreeing with `cost` where `cost` was asked is all the claim
/// needs. The search adds costs and the heuristic in `u32`: the
/// `requires` keeps every cell it may enter, and `to`, within 1024 of the
/// origin and every multiplier at most 64, so that a path of all the
/// cells in that square at the dearest move, plus one move and the
/// heuristic, stays under 2^32 and no sum overflows; in that finite square
/// the search also always ends.
#[verifier::external_body]
fn astar_route<F: Fn(Cell) -> Option<u32>>(from: Cell, to: Cell, cost: &F) -> (r: Option<Vec<Cell>>)
    requires
        forall|c: Cell| cost.requires((c,)),
        modest_costs(*cost),
        within(to),
        from != to,
    ensures
        r matches Some(p) ==> {
            &&& p@.len() >= 2
            &&& p@[0] == from
            &&& p@.last() == to
            &&& p@.no_duplicates()
            &&& forall|i: int| 0 <= i < p@.len() - 1 ==> step_ok(*cost, p@[i], #[trigger] p@[i + 1])
            &&& forall|g: spec_fn(Cell) -> Option<u32>, q: Seq<Cell>| answers(*cost, g) && #[trigger] leads_to(g, from, to, q)
                ==> route_price(g, from, p@.subrange(1, p@.len() as int)) <= route_price(g, from, q)
        },
        r is None ==> forall|g: spec_fn(Cell) -> Option<u32>, q: Seq<Cell>| answers(*cost, g) ==> !#[trigger] leads_to(g, from, to, q),
{
    pathfinding::prelude::astar(&from, |c: &Cell| successors(*c, cost), |c: &Cell| heuristic(*c, to), |c: &Cell| is_goal(c, to))
        .map(|found: (Vec<Cell>, u32)| found.0)
}

/// The search behind both public ones, over a cost closure whose answers
/// are the map `g`.
fn search<F: Fn(Cell) -> Option<u32>>(from: Cell, to: Cell, cost: &F, Ghost(g): Ghost<spec_fn(Cell) -> Option<u32>>) -> (r: Option<Vec<Cell>>)
    requires
        forall|c: Cell| cost.requires((c,)),
        modest_costs(*cost),
        answers(*cost, g),
    ensures
        from == to ==> (r matches Some(p) && p@.len() == 0),
        from != to ==> (r is Some <==> exists|q: Seq<Cell>| #[trigger] leads_to(g, from, to, q)),
        from != to ==> (r matches Some(p) ==> {
            &&& leads_to(g, from, to, p@)
            &&& !p@.contains(from)
            &&& p@.no_duplicates()
            &&& forall|i: int| 0 <= i < p@.len() ==> step_ok(*cost, before(from, p@, i), #[trigger] p@[i])
            &&& forall|q: Seq<Cell>| #[trigger] leads_to(g, from, to, q) ==> route_price(g, from, p@) <= route_price(g, from, q)
        }),
{
    if from.x == to.x && from.y == to.y {
        return Some(Vec::new());
    }
    let r = cost(to);
    if r.is_none() {
        proof {
            assert(g(to) is None);
            assert forall|q: Seq<Cell>| !#[trigger] leads_to(g, from, to, q) by {
                if leads_to(g, from, to, q) {
                    assert(move_ok(g, before(from, q, q.len() - 1), q[q.len() - 1]));
                }
            }
        }
        return None;
    }
    assert(cost.ensures((to,), Some(r->0)));
    match astar_route(from, to, cost) {
        None => None,
        Some(mut path) => {
            let ghost full = path@;
            path.remove(0);
            proof {
                assert(path@ =~= full.subrange(1, full.len() as int));
                assert forall|i: int| 0 <= i < path@.len() implies #[trigger] step_ok(*cost, before(from, path@, i), path@[i]) by {
                    assert(step_ok(*cost, full[i], full[i + 1]));
                }
                assert forall|i: int| 0 <= i < path@.len() implies #[trigger] move_ok(g, before(from, path@, i), path@[i]) by {
                    assert(step_ok(*cost, before(from, path@, i), path@[i]));
                    lemma_step_moves(*cost, g, before(from, path@, i), path@[i]);
                }
                if path@.contains(from) {
                    let k = choose|k: int| 0 <= k < path@.len() && path@[k] == from;
                    assert(full[k + 1] == full[0]);
                }
                assert(leads_to(g, from, to, path@));
            }
            Some(path)
        }
    }
}

/// Like [`find_path`], but `cost` returns `None` for blocked cells and a
/// multiplier (1 for plain ground) for the cost of entering a cell. The
/// path leaves out `from` and ends at `to`; it is empty when `from` is
/// `to`. Otherwise there is one exactly when some route leads there, and
/// it is a cheapest route. `cost` must answer each cell the same way every
/// time, let in only cells within 1024 of the origin, and give no
/// multiplier over 64.
pub fn find_path_costed<F: Fn(Cell) -> Option<u32>>(from: Cell, to: Cell, cost: F) -> (r: Option<Vec<Cell>>)
    requires
        forall|c: Cell| cost.requires((c,)),
        modest_costs(cost),
    ensures
        from == to ==> (r matches Some(p) && p@.len() == 0),
        from != to ==> (r is Some <==> exists|q: Seq<Cell>| #[trigger] leads_to(cost_map(cost), from, to, q)),
        from != to ==> (r matches Some(p) ==> {
            &&& leads_to(cost_map(cost), from, to, p@)
            &&& !p@.contains(from)
            &&& p@.no_duplicates()
            &&& forall|q: Seq<Cell>| #[trigger] leads_to(cost_map(cost), from, to, q)
                ==> route_price(cost_map(cost), from, p@) <= route_price(cost_map(cost), from, q)
        }),
{
    proof {
        assert forall|c: Cell, r: Option<u32>| #[trigger] cost.ensures((c,), r) implies r == cost_map(cost)(c) by {
            let r2 = choose|r2: Option<u32>| cost.ensures((c,), r2);
            assert(cost.ensures((c,), r2));
        }
    }
    search(from, to, &cost, Ghost(cost_map(cost)))
}

/// Shortest path from `from` to `to` over cells where `walkable` holds,
/// excluding `from` and including `to`. Diagonal moves may not cut the
/// corner of a blocked cell; a straight move costs 10 and a diagonal 14.
/// `None` if unreachable. `walkable` must answer each cell the same way
/// every time and hold only within 1024 of the origin.
pub fn find_path<W: Fn(Cell) -> bool>(from: Cell, to: Cell, walkable: W) -> (r: Option<Vec<Cell>>)
    requires
        forall|c: Cell| walkable.requires((c,)),
        forall|c: Cell, b1: bool, b2: bool| walkable.ensures((c,), b1) && walkable.ensures((c,), b2) ==> b1 == b2,
        forall|c: Cell| #[trigger] walkable.ensures((c,), true) ==> within(c),
    ensures
        from == to ==> (r matches Some(p) && p@.len() == 0),
        from != to ==> (r is Some <==> exists|q: Seq<Cell>| #[trigger] leads_to(walk_map(walkable), from, to, q)),
        from != to ==> (r matches Some(p) ==> {
            &&& leads_to(walk_map(walkable), from, to, p@)
            &&& !p@.contains(from)
            &&& p@.no_duplicates()
            &&& forall|i: int| 0 <= i < p@.len() ==> walkable.ensures((#[trigger] p@[i],), true)
            &&& forall|q: Seq<Cell>| #[trigger] leads_to(walk_map(walkable), from, to, q)
                ==> route_price(walk_map(walkable), from, p@) <= route_price(walk_map(walkable), from, q)
        }),
{
    let w = &walkable;
    let cost = move |c: Cell| -> (m: Option<u32>)
        requires
            w.requires((c,)),
            forall|c2: Cell, b1: bool, b2: bool| w.ensures((c2,), b1) && w.ensures((c2,), b2) ==> b1 == b2,
        ensures
            m is Some ==> w.ensures((c,), true) && m == Some(1u32),
            m is None ==> w.ensures((c,), false),
            m == walk_map(*w)(c),
    {
        let b = w(c);
        proof {
            let b2 = choose|b2: bool| w.ensures((c,), b2);
            assert(w.ensures((c,), b2));
        }
        if b { Some(1u32) } else { None }
    };
    let ghost g = walk_map(walkable);
    proof {
        assert forall|c: Cell, m: u32| #[trigger] cost.ensures((c,), Some(m)) implies within(c) && m <= 64 by {
            assert(w.ensures((c,), true));
        }
    }
    let r = search(from, to, &cost, Ghost(g));
    proof {
        if let Some(p) = &r {
            if from != to {
                assert forall|i: int| 0 <= i < p@.len() implies walkable.ensures((#[trigger] p@[i],), true) by {
                    assert(step_ok(cost, before(from, p@, i), p@[i]));
                    let m = choose|m: u32| cost.ensures((p@[i],), Some(m));
                }
            }
        }
    }
    r
}

} // verus!
