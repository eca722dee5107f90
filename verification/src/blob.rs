//! Shaping a made-up island. The island is a grid of 3 x 3-cell pieces,
//! `pw` pieces wide and `ph` tall; a rough first draft of which pieces are
//! land comes from outside (an ellipse with a noisy edge). Here the draft
//! is smoothed twice (lonely pieces sink, holes fill), the pieces round the
//! cells that must stay land are made land, and whatever the middle piece
//! does not reach is dropped, after joining each cut-off kept piece to
//! the middle by a straight strip.
use vstd::prelude::*;
use crate::grid::Cell;
use crate::island::IslandMap;

verus! {

/// Land pieces as rows: `l[j][i]` is piece column `i`, row `j`.
pub type Pieces = Seq<Seq<bool>>;

pub open spec fn grid_view(v: Seq<Vec<bool>>) -> Pieces {
    v.map_values(|r: Vec<bool>| r@)
}

/// A `pw` x `ph` grid.
pub open spec fn sized(l: Pieces, pw: int, ph: int) -> bool {
    l.len() == ph && forall|j: int| 0 <= j < ph ==> (#[trigger] l[j]).len() == pw
}

/// Whether piece (`i`, `j`) lies on the grid and is land.
pub open spec fn on_land(l: Pieces, pw: int, ph: int, i: int, j: int) -> bool {
    0 <= i < pw && 0 <= j < ph && l[j][i]
}

pub open spec fn one(b: bool) -> int {
    if b { 1 } else { 0 }
}

/// Land pieces among the eight round (`i`, `j`).
pub open spec fn land_round(l: Pieces, pw: int, ph: int, i: int, j: int) -> int {
    one(on_land(l, pw, ph, i - 1, j - 1)) + one(on_land(l, pw, ph, i, j - 1)) + one(on_land(l, pw, ph, i + 1, j - 1))
        + one(on_land(l, pw, ph, i - 1, j)) + one(on_land(l, pw, ph, i + 1, j))
        + one(on_land(l, pw, ph, i - 1, j + 1)) + one(on_land(l, pw, ph, i, j + 1)) + one(on_land(l, pw, ph, i + 1, j + 1))
}

/// One smoothing pass: a land piece with two land neighbours or fewer
/// sinks, a sky piece with six or more becomes land.
pub open spec fn smoothed(l: Pieces, pw: int, ph: int) -> Pieces {
    Seq::new(ph as nat, |j: int| Seq::new(pw as nat, |i: int|
        if l[j][i] && land_round(l, pw, ph, i, j) <= 2 {
            false
        } else if !l[j][i] && land_round(l, pw, ph, i, j) >= 6 {
            true
        } else {
            l[j][i]
        }))
}

/// Whether piece (`i`, `j`) is one of the nine round kept cell `c`:
/// the piece holding a cell within one step of `c`, either way.
pub open spec fn near(c: Cell, i: int, j: int) -> bool {
    3 * i - 1 <= c.x <= 3 * i + 3 && 3 * j - 1 <= c.y <= 3 * j + 3
}

/// A piece that must be land: on the grid and round some kept cell.
pub open spec fn must(keep: Seq<Cell>, pw: int, ph: int, i: int, j: int) -> bool {
    0 <= i < pw && 0 <= j < ph && exists|k: int| 0 <= k < keep.len() && near(#[trigger] keep[k], i, j)
}

/// The middle piece.
pub open spec fn centre(pw: int, ph: int) -> (int, int) {
    (pw / 2, ph / 2)
}

/// The smoothed draft with the kept pieces and the middle made land.
pub open spec fn anchored(l: Pieces, keep: Seq<Cell>, pw: int, ph: int) -> Pieces {
    let s = smoothed(smoothed(l, pw, ph), pw, ph);
    Seq::new(ph as nat, |j: int| Seq::new(pw as nat, |i: int|
        s[j][i] || must(keep, pw, ph, i, j) || (i, j) == centre(pw, ph)))
}

/// Grid sizes the shaping takes.
pub open spec fn dims_ok(pw: int, ph: int) -> bool {
    1 <= pw <= 0x10000 && 1 <= ph <= 0x10000
}

fn land_at(l: &Vec<Vec<bool>>, pw: i32, ph: i32, i: i32, j: i32) -> (r: bool)
    requires
        sized(grid_view(l@), pw as int, ph as int),
        dims_ok(pw as int, ph as int),
    ensures
        r == on_land(grid_view(l@), pw as int, ph as int, i as int, j as int),
{
    if i < 0 || j < 0 || i >= pw || j >= ph {
        return false;
    }
    proof {
        assert(grid_view(l@)[j as int] == l@[j as int]@);
    }
    l[j as usize][i as usize]
}

fn count_round(l: &Vec<Vec<bool>>, pw: i32, ph: i32, i: i32, j: i32) -> (n: u8)
    requires
        sized(grid_view(l@), pw as int, ph as int),
        dims_ok(pw as int, ph as int),
        0 <= i < pw && 0 <= j < ph,
    ensures
        n == land_round(grid_view(l@), pw as int, ph as int, i as int, j as int),
{
    let mut n: u8 = 0;
    if land_at(l, pw, ph, i - 1, j - 1) { n = n + 1; }
    if land_at(l, pw, ph, i, j - 1) { n = n + 1; }
    if land_at(l, pw, ph, i + 1, j - 1) { n = n + 1; }
    if land_at(l, pw, ph, i - 1, j) { n = n + 1; }
    if land_at(l, pw, ph, i + 1, j) { n = n + 1; }
    if land_at(l, pw, ph, i - 1, j + 1) { n = n + 1; }
    if land_at(l, pw, ph, i, j + 1) { n = n + 1; }
    if land_at(l, pw, ph, i + 1, j + 1) { n = n + 1; }
    n
}

fn smooth(l: &Vec<Vec<bool>>, pw: i32, ph: i32) -> (r: Vec<Vec<bool>>)
    requires
        sized(grid_view(l@), pw as int, ph as int),
        dims_ok(pw as int, ph as int),
    ensures
        grid_view(r@) == smoothed(grid_view(l@), pw as int, ph as int),
{
    let ghost want = smoothed(grid_view(l@), pw as int, ph as int);
    let mut r: Vec<Vec<bool>> = Vec::new();
    let mut j: i32 = 0;
    while j < ph
        invariant
            sized(grid_view(l@), pw as int, ph as int),
            dims_ok(pw as int, ph as int),
            want == smoothed(grid_view(l@), pw as int, ph as int),
            0 <= j <= ph,
            grid_view(r@) == want.subrange(0, j as int),
        decreases ph - j,
    {
        let mut row: Vec<bool> = Vec::new();
        let mut i: i32 = 0;
        while i < pw
            invariant
                sized(grid_view(l@), pw as int, ph as int),
                dims_ok(pw as int, ph as int),
                want == smoothed(grid_view(l@), pw as int, ph as int),
                0 <= j < ph,
                0 <= i <= pw,
                row@ == want[j as int].subrange(0, i as int),
            decreases pw - i,
        {
            let here = land_at(l, pw, ph, i, j);
            let n = count_round(l, pw, ph, i, j);
            let v = if here && n <= 2 { false } else if !here && n >= 6 { true } else { here };
            let ghost before = row@;
            row.push(v);
            proof {
                let g = grid_view(l@);
                assert(here == g[j as int][i as int]);
                assert(want[j as int] == Seq::new(pw as nat, |x: int|
                    if g[j as int][x] && land_round(g, pw as int, ph as int, x, j as int) <= 2 {
                        false
                    } else if !g[j as int][x] && land_round(g, pw as int, ph as int, x, j as int) >= 6 {
                        true
                    } else {
                        g[j as int][x]
                    }));
                assert(want[j as int][i as int] == v);
                assert(row@ =~= want[j as int].subrange(0, i + 1));
            }
            i = i + 1;
        }
        let ghost r0 = r@;
        r.push(row);
        proof {
            assert(want[j as int].len() == pw);
            assert(row@ =~= want[j as int]);
            assert(grid_view(r@) =~= grid_view(r0).push(row@));
            assert(grid_view(r@) =~= want.subrange(0, j + 1));
        }
        j = j + 1;
    }
    proof {
        assert(grid_view(r@) =~= want);
    }
    r
}

fn is_must(keep: &[Cell], pw: i32, ph: i32, i: i32, j: i32) -> (r: bool)
    requires
        dims_ok(pw as int, ph as int),
        0 <= i < pw && 0 <= j < ph,
    ensures
        r == must(keep@, pw as int, ph as int, i as int, j as int),
{
    let mut k: usize = 0;
    while k < keep.len()
        invariant
            dims_ok(pw as int, ph as int),
            0 <= i < pw && 0 <= j < ph,
            k <= keep@.len(),
            forall|m: int| 0 <= m < k ==> !near(#[trigger] keep@[m], i as int, j as int),
        decreases keep@.len() - k,
    {
        let c = keep[k];
        let x = c.x as i64;
        let y = c.y as i64;
        let bi = 3 * (i as i64);
        let bj = 3 * (j as i64);
        if bi - 1 <= x && x <= bi + 3 && bj - 1 <= y && y <= bj + 3 {
            return true;
        }
        k = k + 1;
    }
    false
}

fn anchor(l: &Vec<Vec<bool>>, keep: &[Cell], pw: i32, ph: i32) -> (r: Vec<Vec<bool>>)
    requires
        sized(grid_view(l@), pw as int, ph as int),
        dims_ok(pw as int, ph as int),
    ensures
        grid_view(r@) == anchored(grid_view(l@), keep@, pw as int, ph as int),
        sized(grid_view(r@), pw as int, ph as int),
{
    let s1 = smooth(l, pw, ph);
    let s = smooth(&s1, pw, ph);
    let ghost want = anchored(grid_view(l@), keep@, pw as int, ph as int);
    let ghost sv = smoothed(smoothed(grid_view(l@), pw as int, ph as int), pw as int, ph as int);
    let mut r: Vec<Vec<bool>> = Vec::new();
    let mut j: i32 = 0;
    while j < ph
        invariant
            dims_ok(pw as int, ph as int),
            want == anchored(grid_view(l@), keep@, pw as int, ph as int),
            grid_view(s@) == sv,
            sv == smoothed(smoothed(grid_view(l@), pw as int, ph as int), pw as int, ph as int),
            0 <= j <= ph,
            grid_view(r@) == want.subrange(0, j as int),
        decreases ph - j,
    {
        let mut row: Vec<bool> = Vec::new();
        let mut i: i32 = 0;
        while i < pw
            invariant
                dims_ok(pw as int, ph as int),
                want == anchored(grid_view(l@), keep@, pw as int, ph as int),
                grid_view(s@) == sv,
                sv == smoothed(smoothed(grid_view(l@), pw as int, ph as int), pw as int, ph as int),
                0 <= j < ph,
                0 <= i <= pw,
                row@ == want[j as int].subrange(0, i as int),
            decreases pw - i,
        {
            proof {
                assert(s@.len() == grid_view(s@).len());
                assert(grid_view(s@)[j as int] == s@[j as int]@);
                assert(sv[j as int].len() == pw);
            }
            let v = s[j as usize][i as usize] || is_must(keep, pw, ph, i, j) || (i == pw / 2 && j == ph / 2);
            row.push(v);
            proof {
                assert(want[j as int] == Seq::new(pw as nat, |x: int|
                    sv[j as int][x] || must(keep@, pw as int, ph as int, x, j as int) || (x, j as int) == centre(pw as int, ph as int)));
                assert(want[j as int][i as int] == v);
                assert(row@ =~= want[j as int].subrange(0, i + 1));
            }
            i = i + 1;
        }
        let ghost r0 = r@;
        r.push(row);
        proof {
            assert(want[j as int].len() == pw);
            assert(row@ =~= want[j as int]);
            assert(grid_view(r@) =~= grid_view(r0).push(row@));
            assert(grid_view(r@) =~= want.subrange(0, j + 1));
        }
        j = j + 1;
    }
    proof {
        assert(grid_view(r@) =~= want);
    }
    r
}

/// The piece beside `p` to the north (0), east (1), south (2) or west (3).
pub open spec fn pnb(p: (int, int), d: int) -> (int, int) {
    if d == 0 { (p.0, p.1 - 1) } else if d == 1 { (p.0 + 1, p.1) } else if d == 2 { (p.0, p.1 + 1) } else { (p.0 - 1, p.1) }
}

/// Whether land piece `p` is joined to the middle piece in at most `k`
/// steps from land piece to neighbouring land piece.
pub open spec fn preach(l: Pieces, pw: int, ph: int, p: (int, int), k: nat) -> bool
    decreases k,
{
    if k == 0 {
        p == centre(pw, ph) && on_land(l, pw, ph, p.0, p.1)
    } else {
        preach(l, pw, ph, p, (k - 1) as nat) || (on_land(l, pw, ph, p.0, p.1) && (
            preach(l, pw, ph, pnb(p, 0), (k - 1) as nat) || preach(l, pw, ph, pnb(p, 1), (k - 1) as nat)
            || preach(l, pw, ph, pnb(p, 2), (k - 1) as nat) || preach(l, pw, ph, pnb(p, 3), (k - 1) as nat)))
    }
}

/// Land pieces the middle piece reaches.
pub open spec fn reached(l: Pieces, pw: int, ph: int, p: (int, int)) -> bool {
    exists|k: nat| preach(l, pw, ph, p, k)
}

/// The false entries of a row.
pub open spec fn falses(r: Seq<bool>) -> nat
    decreases r.len(),
{
    if r.len() == 0 { 0 } else { falses(r.drop_last()) + if r.last() { 0nat } else { 1nat } }
}

/// The false entries of a grid.
pub open spec fn grid_falses(g: Pieces) -> nat
    decreases g.len(),
{
    if g.len() == 0 { 0 } else { grid_falses(g.drop_last()) + falses(g.last()) }
}

proof fn lemma_falses_set(r: Seq<bool>, i: int)
    requires
        0 <= i < r.len(),
        !r[i],
    ensures
        falses(r.update(i, true)) + 1 == falses(r),
    decreases r.len(),
{
    let u = r.update(i, true);
    if i < r.len() - 1 {
        assert(u.drop_last() =~= r.drop_last().update(i, true));
        lemma_falses_set(r.drop_last(), i);
    } else {
        assert(u.drop_last() =~= r.drop_last());
    }
}

proof fn lemma_grid_falses_set(g: Pieces, j: int, r: Seq<bool>)
    requires
        0 <= j < g.len(),
    ensures
        grid_falses(g.update(j, r)) + falses(g[j]) == grid_falses(g) + falses(r),
    decreases g.len(),
{
    let u = g.update(j, r);
    if j < g.len() - 1 {
        assert(u.drop_last() =~= g.drop_last().update(j, r));
        lemma_grid_falses_set(g.drop_last(), j, r);
    } else {
        assert(u.drop_last() =~= g.drop_last());
    }
}

proof fn lemma_preach_land(l: Pieces, pw: int, ph: int, p: (int, int), k: nat)
    requires
        preach(l, pw, ph, p, k),
    ensures
        on_land(l, pw, ph, p.0, p.1),
    decreases k,
{
    if k > 0 && preach(l, pw, ph, p, (k - 1) as nat) {
        lemma_preach_land(l, pw, ph, p, (k - 1) as nat);
    }
}

proof fn lemma_preach_step(l: Pieces, pw: int, ph: int, p: (int, int), k: nat, d: int)
    requires
        preach(l, pw, ph, p, k),
        0 <= d < 4,
        on_land(l, pw, ph, pnb(p, d).0, pnb(p, d).1),
    ensures
        preach(l, pw, ph, pnb(p, d), k + 1),
{
    let n = pnb(p, d);
    let e = (d + 2) % 4;
    assert(pnb(n, e) == p);
    if e == 0 {
        assert(preach(l, pw, ph, pnb(n, 0), k));
    } else if e == 1 {
        assert(preach(l, pw, ph, pnb(n, 1), k));
    } else if e == 2 {
        assert(preach(l, pw, ph, pnb(n, 2), k));
    } else {
        assert(preach(l, pw, ph, pnb(n, 3), k));
    }
}

proof fn lemma_reach_complete(l: Pieces, pw: int, ph: int, seen: Pieces, p: (int, int), k: nat)
    requires
        sized(seen, pw, ph),
        on_land(l, pw, ph, centre(pw, ph).0, centre(pw, ph).1) ==> seen[centre(pw, ph).1][centre(pw, ph).0],
        forall|q: (int, int), d: int| 0 <= q.0 < pw && 0 <= q.1 < ph && #[trigger] seen[q.1][q.0] && 0 <= d < 4
            && on_land(l, pw, ph, #[trigger] pnb(q, d).0, pnb(q, d).1) ==> seen[pnb(q, d).1][pnb(q, d).0],
        preach(l, pw, ph, p, k),
    ensures
        seen[p.1][p.0],
    decreases k,
{
    lemma_preach_land(l, pw, ph, p, k);
    if k > 0 {
        let j = (k - 1) as nat;
        if preach(l, pw, ph, p, j) {
            lemma_reach_complete(l, pw, ph, seen, p, j);
        } else {
            let d: int = if preach(l, pw, ph, pnb(p, 0), j) { 0 } else if preach(l, pw, ph, pnb(p, 1), j) { 1 }
                else if preach(l, pw, ph, pnb(p, 2), j) { 2 } else { 3 };
            let q = pnb(p, d);
            lemma_reach_complete(l, pw, ph, seen, q, j);
            lemma_preach_land(l, pw, ph, q, j);
            let e = (d + 2) % 4;
            assert(pnb(q, e) == p);
            assert(seen[q.1][q.0]);
            assert(on_land(l, pw, ph, pnb(q, e).0, pnb(q, e).1));
        }
    }
}

fn step_piece(p: (i32, i32), d: usize) -> (n: (i32, i32))
    requires
        -1 <= p.0 <= 0x10000 && -1 <= p.1 <= 0x10000,
        d < 4,
    ensures
        n.0 == pnb((p.0 as int, p.1 as int), d as int).0,
        n.1 == pnb((p.0 as int, p.1 as int), d as int).1,
{
    if d == 0 { (p.0, p.1 - 1) } else if d == 1 { (p.0 + 1, p.1) } else if d == 2 { (p.0, p.1 + 1) } else { (p.0 - 1, p.1) }
}

fn false_grid(pw: i32, ph: i32) -> (g: Vec<Vec<bool>>)
    requires
        dims_ok(pw as int, ph as int),
    ensures
        sized(grid_view(g@), pw as int, ph as int),
        forall|i: int, j: int| 0 <= i < pw && 0 <= j < ph ==> !grid_view(g@)[j][i],
{
    let mut g: Vec<Vec<bool>> = Vec::new();
    let mut j: i32 = 0;
    while j < ph
        invariant
            dims_ok(pw as int, ph as int),
            0 <= j <= ph,
            g@.len() == j,
            forall|y: int| 0 <= y < j ==> (#[trigger] g@[y])@.len() == pw && forall|x: int| 0 <= x < pw ==> !g@[y]@[x],
        decreases ph - j,
    {
        let mut row: Vec<bool> = Vec::new();
        let mut i: i32 = 0;
        while i < pw
            invariant
                dims_ok(pw as int, ph as int),
                0 <= i <= pw,
                row@.len() == i,
                forall|x: int| 0 <= x < i ==> !row@[x],
            decreases pw - i,
        {
            row.push(false);
            i = i + 1;
        }
        g.push(row);
        j = j + 1;
    }
    g
}

/// `g` with piece (`i`, `j`) set.
fn set_piece(g: &mut Vec<Vec<bool>>, pw: i32, ph: i32, i: i32, j: i32)
    requires
        sized(grid_view(old(g)@), pw as int, ph as int),
        dims_ok(pw as int, ph as int),
        0 <= i < pw && 0 <= j < ph,
    ensures
        grid_view(final(g)@) == grid_view(old(g)@).update(j as int, grid_view(old(g)@)[j as int].update(i as int, true)),
        sized(grid_view(final(g)@), pw as int, ph as int),
{
    let ghost g0 = grid_view(g@);
    let mut row = g.remove(j as usize);
    proof {
        assert(row@ == g0[j as int]);
    }
    row.set(i as usize, true);
    g.insert(j as usize, row);
    proof {
        assert(grid_view(g@) =~= g0.update(j as int, g0[j as int].update(i as int, true)));
    }
}

fn piece(g: &Vec<Vec<bool>>, pw: i32, ph: i32, i: i32, j: i32) -> (r: bool)
    requires
        sized(grid_view(g@), pw as int, ph as int),
        0 <= i < pw && 0 <= j < ph,
    ensures
        r == grid_view(g@)[j as int][i as int],
{
    proof {
        assert(grid_view(g@)[j as int] == g@[j as int]@);
    }
    g[j as usize][i as usize]
}

/// Which land pieces the middle piece reaches.
fn reach(l: &Vec<Vec<bool>>, pw: i32, ph: i32) -> (seen: Vec<Vec<bool>>)
    requires
        sized(grid_view(l@), pw as int, ph as int),
        dims_ok(pw as int, ph as int),
    ensures
        sized(grid_view(seen@), pw as int, ph as int),
        forall|i: int, j: int| 0 <= i < pw && 0 <= j < ph ==> (grid_view(seen@)[j][i] <==> reached(grid_view(l@), pw as int, ph as int, (i, j))),
{
    let ghost lv = grid_view(l@);
    let ghost pwi = pw as int;
    let ghost phi = ph as int;
    let mut seen = false_grid(pw, ph);
    let mut frontier: Vec<(i32, i32)> = Vec::new();
    let ci = pw / 2;
    let cj = ph / 2;
    if land_at(l, pw, ph, ci, cj) {
        set_piece(&mut seen, pw, ph, ci, cj);
        frontier.push((ci, cj));
        proof {
            assert(preach(lv, pwi, phi, (ci as int, cj as int), 0));
        }
    }
    proof {
        assert forall|i: int, j: int| 0 <= i < pw && 0 <= j < ph && #[trigger] grid_view(seen@)[j][i]
            implies reached(lv, pwi, phi, (i, j)) by {
            assert(i == ci && j == cj);
            assert(preach(lv, pwi, phi, (i, j), 0));
        }
        assert forall|q: (int, int), d: int| 0 <= q.0 < pw && 0 <= q.1 < ph && #[trigger] grid_view(seen@)[q.1][q.0]
            && !frontier@.contains((q.0 as i32, q.1 as i32)) && 0 <= d < 4
            && on_land(lv, pwi, phi, #[trigger] pnb(q, d).0, pnb(q, d).1) implies grid_view(seen@)[pnb(q, d).1][pnb(q, d).0] by {
            assert(q.0 == ci && q.1 == cj);
            assert(frontier@[0] == (q.0 as i32, q.1 as i32));
        }
    }
    while frontier.len() > 0
        invariant
            lv == grid_view(l@),
            pwi == pw && phi == ph,
            sized(lv, pwi, phi),
            dims_ok(pwi, phi),
            ci == pw / 2 && cj == ph / 2,
            sized(grid_view(seen@), pwi, phi),
            forall|i: int, j: int| 0 <= i < pw && 0 <= j < ph && #[trigger] grid_view(seen@)[j][i] ==> reached(lv, pwi, phi, (i, j)),
            on_land(lv, pwi, phi, ci as int, cj as int) ==> grid_view(seen@)[cj as int][ci as int],
            forall|m: int| 0 <= m < frontier@.len() ==> 0 <= (#[trigger] frontier@[m]).0 < pw && 0 <= frontier@[m].1 < ph
                && grid_view(seen@)[frontier@[m].1 as int][frontier@[m].0 as int],
            forall|q: (int, int), d: int| 0 <= q.0 < pw && 0 <= q.1 < ph && #[trigger] grid_view(seen@)[q.1][q.0]
                && !frontier@.contains((q.0 as i32, q.1 as i32)) && 0 <= d < 4
                && on_land(lv, pwi, phi, #[trigger] pnb(q, d).0, pnb(q, d).1) ==> grid_view(seen@)[pnb(q, d).1][pnb(q, d).0],
        decreases grid_falses(grid_view(seen@)), frontier@.len(),
    {
        let ghost f0 = frontier@;
        let ghost s0 = grid_view(seen@);
        let p = frontier.pop().unwrap();
        proof {
            assert(frontier@ =~= f0.drop_last());
            assert(p == f0[f0.len() - 1]);
        }
        let mut d: usize = 0;
        while d < 4
            invariant
                lv == grid_view(l@),
                pwi == pw && phi == ph,
                sized(lv, pwi, phi),
                dims_ok(pwi, phi),
                ci == pw / 2 && cj == ph / 2,
                0 <= p.0 < pw && 0 <= p.1 < ph,
                reached(lv, pwi, phi, (p.0 as int, p.1 as int)),
                d <= 4,
                f0.len() > 0 && p == f0[f0.len() - 1],
                sized(grid_view(seen@), pwi, phi),
                sized(s0, pwi, phi),
                grid_falses(grid_view(seen@)) <= grid_falses(s0),
                grid_falses(grid_view(seen@)) == grid_falses(s0) ==> frontier@ == f0.drop_last(),
                forall|i: int, j: int| 0 <= i < pw && 0 <= j < ph && #[trigger] s0[j][i] ==> grid_view(seen@)[j][i],
                forall|i: int, j: int| 0 <= i < pw && 0 <= j < ph && #[trigger] grid_view(seen@)[j][i] ==> reached(lv, pwi, phi, (i, j)),
                on_land(lv, pwi, phi, ci as int, cj as int) ==> grid_view(seen@)[cj as int][ci as int],
                forall|m: int| 0 <= m < frontier@.len() ==> 0 <= (#[trigger] frontier@[m]).0 < pw && 0 <= frontier@[m].1 < ph
                    && grid_view(seen@)[frontier@[m].1 as int][frontier@[m].0 as int],
                forall|m: int| 0 <= m < f0.len() - 1 ==> frontier@[m] == #[trigger] f0[m],
                frontier@.len() >= f0.len() - 1,
                forall|m: int| f0.len() - 1 <= m < frontier@.len() ==> !s0[(#[trigger] frontier@[m]).1 as int][frontier@[m].0 as int],
                forall|i: int, j: int| 0 <= i < pw && 0 <= j < ph && #[trigger] grid_view(seen@)[j][i] && !s0[j][i]
                    ==> frontier@.contains((i as i32, j as i32)),
                forall|q: (int, int), e: int| 0 <= q.0 < pw && 0 <= q.1 < ph && #[trigger] s0[q.1][q.0]
                    && !f0.contains((q.0 as i32, q.1 as i32)) && 0 <= e < 4
                    && on_land(lv, pwi, phi, #[trigger] pnb(q, e).0, pnb(q, e).1) ==> grid_view(seen@)[pnb(q, e).1][pnb(q, e).0],
                forall|e: int| 0 <= e < d && on_land(lv, pwi, phi, #[trigger] pnb((p.0 as int, p.1 as int), e).0, pnb((p.0 as int, p.1 as int), e).1)
                    ==> grid_view(seen@)[pnb((p.0 as int, p.1 as int), e).1][pnb((p.0 as int, p.1 as int), e).0],
            decreases 4 - d,
        {
            let n = step_piece(p, d);
            if land_at(l, pw, ph, n.0, n.1) && !piece(&seen, pw, ph, n.0, n.1) {
                let ghost sb = grid_view(seen@);
                let ghost fb = frontier@;
                set_piece(&mut seen, pw, ph, n.0, n.1);
                frontier.push(n);
                proof {
                    let k = choose|k: nat| preach(lv, pwi, phi, (p.0 as int, p.1 as int), k);
                    lemma_preach_step(lv, pwi, phi, (p.0 as int, p.1 as int), k, d as int);
                    assert(reached(lv, pwi, phi, (n.0 as int, n.1 as int)));
                    lemma_falses_set(sb[n.1 as int], n.0 as int);
                    lemma_grid_falses_set(sb, n.1 as int, sb[n.1 as int].update(n.0 as int, true));
                    assert(frontier@[frontier@.len() - 1] == n);
                    assert forall|m: int| 0 <= m < fb.len() implies frontier@[m] == fb[m] by {}
                    assert forall|i: int, j: int| 0 <= i < pw && 0 <= j < ph && #[trigger] grid_view(seen@)[j][i] && !s0[j][i]
                        implies frontier@.contains((i as i32, j as i32)) by {
                        if i == n.0 && j == n.1 {
                            assert(frontier@[frontier@.len() - 1] == (i as i32, j as i32));
                        } else {
                            assert(sb[j][i]);
                            let m = choose|m: int| 0 <= m < fb.len() && fb[m] == (i as i32, j as i32);
                            assert(frontier@[m] == (i as i32, j as i32));
                        }
                    }
                    assert forall|m: int| f0.len() - 1 <= m < frontier@.len() implies !s0[(#[trigger] frontier@[m]).1 as int][frontier@[m].0 as int] by {
                        if m < fb.len() {
                            assert(frontier@[m] == fb[m]);
                        }
                    }
                    assert forall|m: int| 0 <= m < frontier@.len() implies 0 <= (#[trigger] frontier@[m]).0 < pw && 0 <= frontier@[m].1 < ph
                        && grid_view(seen@)[frontier@[m].1 as int][frontier@[m].0 as int] by {
                        if m < fb.len() {
                            assert(frontier@[m] == fb[m]);
                        }
                    }
                }
            }
            d = d + 1;
        }
        proof {
            assert forall|q: (int, int), e: int| 0 <= q.0 < pw && 0 <= q.1 < ph && #[trigger] grid_view(seen@)[q.1][q.0]
                && !frontier@.contains((q.0 as i32, q.1 as i32)) && 0 <= e < 4
                && on_land(lv, pwi, phi, #[trigger] pnb(q, e).0, pnb(q, e).1) implies grid_view(seen@)[pnb(q, e).1][pnb(q, e).0] by {
                if q.0 == p.0 && q.1 == p.1 {
                    assert(q == (p.0 as int, p.1 as int));
                } else if s0[q.1][q.0] {
                    if f0.contains((q.0 as i32, q.1 as i32)) {
                        let m = choose|m: int| 0 <= m < f0.len() && f0[m] == (q.0 as i32, q.1 as i32);
                        assert(m != f0.len() - 1);
                        assert(frontier@[m] == (q.0 as i32, q.1 as i32));
                    }
                } else {
                    assert(frontier@.contains((q.0 as i32, q.1 as i32)));
                }
            }
        }
    }
    proof {
        assert forall|i: int, j: int| 0 <= i < pw && 0 <= j < ph implies (grid_view(seen@)[j][i] <==> reached(lv, pwi, phi, (i, j))) by {
            if reached(lv, pwi, phi, (i, j)) {
                let k = choose|k: nat| preach(lv, pwi, phi, (i, j), k);
                lemma_reach_complete(lv, pwi, phi, grid_view(seen@), (i, j), k);
            }
        }
    }
    seen
}

/// Whether piece (`x`, `y`) lies on the strip from piece (`i`, `j`) to the
/// middle piece `c`: along row `j` to column `c.0`, then along that column
/// to row `c.1`, the middle piece itself left out.
pub open spec fn on_strip(i: int, j: int, c: (int, int), x: int, y: int) -> bool {
    (y == j && ((i <= x < c.0) || (c.0 < x <= i))) || (x == c.0 && ((j <= y < c.1) || (c.1 < y <= j)))
}

/// `l` with the strip from piece (`i`, `j`) to the middle made land.
pub open spec fn with_strip(l: Pieces, pw: int, ph: int, i: int, j: int) -> Pieces {
    Seq::new(ph as nat, |y: int| Seq::new(pw as nat, |x: int| l[y][x] || on_strip(i, j, centre(pw, ph), x, y)))
}

/// Piece (`i`, `j`) joined to the middle if it must be land and the middle
/// does not reach it.
pub open spec fn join_step(l: Pieces, keep: Seq<Cell>, pw: int, ph: int, i: int, j: int) -> Pieces {
    if must(keep, pw, ph, i, j) && !reached(l, pw, ph, (i, j)) { with_strip(l, pw, ph, i, j) } else { l }
}

/// The first `j` pieces of column `i` joined in turn.
pub open spec fn join_col(l: Pieces, keep: Seq<Cell>, pw: int, ph: int, i: int, j: nat) -> Pieces
    decreases j,
{
    if j == 0 { l } else { join_step(join_col(l, keep, pw, ph, i, (j - 1) as nat), keep, pw, ph, i, j - 1) }
}

/// The first `i` columns joined in turn, each from the top.
pub open spec fn join_all(l: Pieces, keep: Seq<Cell>, pw: int, ph: int, i: nat) -> Pieces
    decreases i,
{
    if i == 0 { l } else { join_col(join_all(l, keep, pw, ph, (i - 1) as nat), keep, pw, ph, i - 1, ph as nat) }
}

/// The final pieces: the anchored draft with every cut-off kept piece joined.
pub open spec fn shaped(l: Pieces, keep: Seq<Cell>, pw: int, ph: int) -> Pieces {
    join_all(anchored(l, keep, pw, ph), keep, pw, ph, pw as nat)
}

/// The island: the 3 x 3 cells of every piece the middle reaches at the end.
pub open spec fn blob_cells(l: Pieces, keep: Seq<Cell>, pw: int, ph: int) -> Set<Cell> {
    Set::new(|c: Cell| 0 <= c.x < 3 * pw && 0 <= c.y < 3 * ph && reached(shaped(l, keep, pw, ph), pw, ph, (c.x / 3, c.y / 3)))
}

/// The strip from piece (`i`, `j`) to the middle made land.
fn lay_strip(g: &mut Vec<Vec<bool>>, pw: i32, ph: i32, i: i32, j: i32)
    requires
        sized(grid_view(old(g)@), pw as int, ph as int),
        dims_ok(pw as int, ph as int),
        0 <= i < pw && 0 <= j < ph,
    ensures
        sized(grid_view(final(g)@), pw as int, ph as int),
        grid_view(final(g)@) == with_strip(grid_view(old(g)@), pw as int, ph as int, i as int, j as int),
{
    let ghost base = grid_view(g@);
    let cx = pw / 2;
    let cy = ph / 2;
    let mut x = i;
    while x != cx
        invariant
            sized(grid_view(g@), pw as int, ph as int),
            sized(base, pw as int, ph as int),
            dims_ok(pw as int, ph as int),
            0 <= i < pw && 0 <= j < ph,
            cx == pw / 2 && cy == ph / 2,
            (i <= x <= cx) || (cx <= x <= i),
            forall|a: int, b: int| 0 <= a < pw && 0 <= b < ph ==> #[trigger] grid_view(g@)[b][a]
                == (base[b][a] || (b == j && ((i <= a < x) || (x < a <= i)))),
        decreases if cx > x { cx - x } else { x - cx },
    {
        let ghost g0 = grid_view(g@);
        set_piece(g, pw, ph, x, j);
        proof {
            assert forall|a: int, b: int| 0 <= a < pw && 0 <= b < ph implies #[trigger] grid_view(g@)[b][a]
                == (g0[b][a] || (b == j && a == x)) by {
                if b == j {
                    assert(grid_view(g@)[b] == g0[b].update(x as int, true));
                }
            }
        }
        if x < cx {
            x = x + 1;
        } else {
            x = x - 1;
        }
    }
    let mut y = j;
    while y != cy
        invariant
            sized(grid_view(g@), pw as int, ph as int),
            sized(base, pw as int, ph as int),
            dims_ok(pw as int, ph as int),
            0 <= i < pw && 0 <= j < ph,
            cx == pw / 2 && cy == ph / 2,
            (j <= y <= cy) || (cy <= y <= j),
            forall|a: int, b: int| 0 <= a < pw && 0 <= b < ph ==> #[trigger] grid_view(g@)[b][a]
                == (base[b][a] || (b == j && ((i <= a < cx) || (cx < a <= i))) || (a == cx && ((j <= b < y) || (y < b <= j)))),
        decreases if cy > y { cy - y } else { y - cy },
    {
        let ghost g0 = grid_view(g@);
        set_piece(g, pw, ph, cx, y);
        proof {
            assert forall|a: int, b: int| 0 <= a < pw && 0 <= b < ph implies #[trigger] grid_view(g@)[b][a]
                == (g0[b][a] || (b == y && a == cx)) by {
                if b == y {
                    assert(grid_view(g@)[b] == g0[b].update(cx as int, true));
                }
            }
        }
        if y < cy {
            y = y + 1;
        } else {
            y = y - 1;
        }
    }
    proof {
        let want = with_strip(base, pw as int, ph as int, i as int, j as int);
        assert forall|b: int| 0 <= b < ph implies #[trigger] grid_view(g@)[b] =~= want[b] by {
            assert forall|a: int| 0 <= a < pw implies grid_view(g@)[b][a] == want[b][a] by {
                assert(grid_view(g@)[b][a] == (base[b][a] || (b == j && ((i <= a < cx) || (cx < a <= i)))
                    || (a == cx && ((j <= b < cy) || (cy < b <= j)))));
            }
        }
        assert(grid_view(g@) =~= want);
    }
}

/// Shape a draft of `pw` x `ph` pieces into an island: smooth it twice,
/// make the pieces round every `keep` cell and the middle piece land, join
/// each kept piece the middle does not reach to it by a straight strip
/// (columns left to right, each from the top), and keep the 3 x 3 cells of
/// every piece the middle then reaches.
pub fn shape(draft: &Vec<Vec<bool>>, keep: &[Cell], pw: i32, ph: i32) -> (m: IslandMap)
    requires
        sized(grid_view(draft@), pw as int, ph as int),
        dims_ok(pw as int, ph as int),
    ensures
        m.wf(),
        m@ == blob_cells(grid_view(draft@), keep@, pw as int, ph as int),
{
    let ghost a = anchored(grid_view(draft@), keep@, pw as int, ph as int);
    let mut land = anchor(draft, keep, pw, ph);
    let mut seen = reach(&land, pw, ph);
    let mut i: i32 = 0;
    while i < pw
        invariant
            dims_ok(pw as int, ph as int),
            0 <= i <= pw,
            a == anchored(grid_view(draft@), keep@, pw as int, ph as int),
            sized(grid_view(land@), pw as int, ph as int),
            sized(grid_view(seen@), pw as int, ph as int),
            grid_view(land@) == join_all(a, keep@, pw as int, ph as int, i as nat),
            forall|x: int, y: int| 0 <= x < pw && 0 <= y < ph ==> (#[trigger] grid_view(seen@)[y][x]
                <==> reached(grid_view(land@), pw as int, ph as int, (x, y))),
        decreases pw - i,
    {
        let ghost col = join_all(a, keep@, pw as int, ph as int, i as nat);
        let mut j: i32 = 0;
        while j < ph
            invariant
                dims_ok(pw as int, ph as int),
                0 <= i < pw,
                0 <= j <= ph,
                sized(grid_view(land@), pw as int, ph as int),
                sized(grid_view(seen@), pw as int, ph as int),
                grid_view(land@) == join_col(col, keep@, pw as int, ph as int, i as int, j as nat),
                forall|x: int, y: int| 0 <= x < pw && 0 <= y < ph ==> (#[trigger] grid_view(seen@)[y][x]
                    <==> reached(grid_view(land@), pw as int, ph as int, (x, y))),
            decreases ph - j,
        {
            let ghost before = grid_view(land@);
            if is_must(keep, pw, ph, i, j) && !piece(&seen, pw, ph, i, j) {
                lay_strip(&mut land, pw, ph, i, j);
                seen = reach(&land, pw, ph);
            }
            proof {
                assert(join_col(col, keep@, pw as int, ph as int, i as int, (j + 1) as nat)
                    == join_step(before, keep@, pw as int, ph as int, i as int, j as int));
            }
            j = j + 1;
        }
        proof {
            assert(join_all(a, keep@, pw as int, ph as int, (i + 1) as nat)
                == join_col(col, keep@, pw as int, ph as int, i as int, ph as nat));
        }
        i = i + 1;
    }
    let ghost sv = grid_view(seen@);
    let ghost want = blob_cells(grid_view(draft@), keep@, pw as int, ph as int);
    let mut m = IslandMap::new();
    let w = 3 * pw;
    let h = 3 * ph;
    let mut y: i32 = 0;
    while y < h
        invariant
            dims_ok(pw as int, ph as int),
            w == 3 * pw && h == 3 * ph,
            0 <= y <= h,
            sv == grid_view(seen@),
            sized(sv, pw as int, ph as int),
            want == blob_cells(grid_view(draft@), keep@, pw as int, ph as int),
            forall|x: int, z: int| 0 <= x < pw && 0 <= z < ph ==> (#[trigger] sv[z][x]
                <==> reached(shaped(grid_view(draft@), keep@, pw as int, ph as int), pw as int, ph as int, (x, z))),
            m.wf(),
            m@ == want.filter(|c: Cell| c.y < y),
        decreases h - y,
    {
        let mut x: i32 = 0;
        while x < w
            invariant
                dims_ok(pw as int, ph as int),
                w == 3 * pw && h == 3 * ph,
                0 <= y < h,
                0 <= x <= w,
                sv == grid_view(seen@),
                sized(sv, pw as int, ph as int),
                want == blob_cells(grid_view(draft@), keep@, pw as int, ph as int),
                forall|x: int, z: int| 0 <= x < pw && 0 <= z < ph ==> (#[trigger] sv[z][x]
                    <==> reached(shaped(grid_view(draft@), keep@, pw as int, ph as int), pw as int, ph as int, (x, z))),
                m.wf(),
                m@ == want.filter(|c: Cell| c.y < y || (c.y == y && c.x < x)),
            decreases w - x,
        {
            let ghost m0 = m@;
            let c = Cell { x: x, y: y };
            if piece(&seen, pw, ph, x / 3, y / 3) {
                m.insert(c);
            }
            proof {
                assert(m@ =~= want.filter(|c: Cell| c.y < y || (c.y == y && c.x < x + 1)));
            }
            x = x + 1;
        }
        proof {
            assert(m@ =~= want.filter(|c: Cell| c.y < y + 1));
        }
        y = y + 1;
    }
    proof {
        assert(m@ =~= want);
    }
    m
}

/// Every land piece of `l` is land in `l2`.
pub open spec fn grid_le(l: Pieces, l2: Pieces, pw: int, ph: int) -> bool {
    forall|x: int, y: int| 0 <= x < pw && 0 <= y < ph && #[trigger] l[y][x] ==> l2[y][x]
}

proof fn lemma_preach_mono(l: Pieces, l2: Pieces, pw: int, ph: int, p: (int, int), k: nat)
    requires
        grid_le(l, l2, pw, ph),
        preach(l, pw, ph, p, k),
    ensures
        preach(l2, pw, ph, p, k),
    decreases k,
{
    if k > 0 {
        let j = (k - 1) as nat;
        if preach(l, pw, ph, p, j) {
            lemma_preach_mono(l, l2, pw, ph, p, j);
        } else {
            if preach(l, pw, ph, pnb(p, 0), j) {
                lemma_preach_mono(l, l2, pw, ph, pnb(p, 0), j);
            } else if preach(l, pw, ph, pnb(p, 1), j) {
                lemma_preach_mono(l, l2, pw, ph, pnb(p, 1), j);
            } else if preach(l, pw, ph, pnb(p, 2), j) {
                lemma_preach_mono(l, l2, pw, ph, pnb(p, 2), j);
            } else {
                lemma_preach_mono(l, l2, pw, ph, pnb(p, 3), j);
            }
        }
    }
}

proof fn lemma_reached_mono(l: Pieces, l2: Pieces, pw: int, ph: int, p: (int, int))
    requires
        grid_le(l, l2, pw, ph),
        reached(l, pw, ph, p),
    ensures
        reached(l2, pw, ph, p),
{
    let k = choose|k: nat| preach(l, pw, ph, p, k);
    lemma_preach_mono(l, l2, pw, ph, p, k);
}

proof fn lemma_join_col_grows(b: Pieces, keep: Seq<Cell>, pw: int, ph: int, i: int, j0: nat, j: nat)
    requires
        j0 <= j,
    ensures
        grid_le(join_col(b, keep, pw, ph, i, j0), join_col(b, keep, pw, ph, i, j), pw, ph),
    decreases j,
{
    if j > j0 {
        lemma_join_col_grows(b, keep, pw, ph, i, j0, (j - 1) as nat);
    }
}

proof fn lemma_join_all_grows(a: Pieces, keep: Seq<Cell>, pw: int, ph: int, i0: nat, i: nat)
    requires
        i0 <= i,
        ph >= 0,
    ensures
        grid_le(join_all(a, keep, pw, ph, i0), join_all(a, keep, pw, ph, i), pw, ph),
    decreases i,
{
    if i > i0 {
        let b = join_all(a, keep, pw, ph, (i - 1) as nat);
        lemma_join_all_grows(a, keep, pw, ph, i0, (i - 1) as nat);
        lemma_join_col_grows(b, keep, pw, ph, i - 1, 0, ph as nat);
    }
}

/// Along the strip, from the middle outwards, every piece is reached.
proof fn lemma_strip_column(l: Pieces, pw: int, ph: int, i: int, j: int, y: int)
    requires
        dims_ok(pw, ph),
        0 <= i < pw && 0 <= j < ph,
        on_land(l, pw, ph, centre(pw, ph).0, centre(pw, ph).1),
        (j <= y <= ph / 2) || (ph / 2 <= y <= j),
    ensures
        reached(with_strip(l, pw, ph, i, j), pw, ph, (pw / 2, y)),
    decreases if y < ph / 2 { ph / 2 - y } else { y - ph / 2 },
{
    let s = with_strip(l, pw, ph, i, j);
    let cx = pw / 2;
    if y == ph / 2 {
        assert(preach(s, pw, ph, (cx, y), 0));
    } else {
        let (q, d) = if y < ph / 2 { ((cx, y + 1), 0int) } else { ((cx, y - 1), 2int) };
        lemma_strip_column(l, pw, ph, i, j, q.1);
        let k = choose|k: nat| preach(s, pw, ph, q, k);
        assert(on_strip(i, j, centre(pw, ph), cx, y));
        assert(pnb(q, d) == (cx, y));
        lemma_preach_step(s, pw, ph, q, k, d);
    }
}

proof fn lemma_strip_row(l: Pieces, pw: int, ph: int, i: int, j: int, x: int)
    requires
        dims_ok(pw, ph),
        0 <= i < pw && 0 <= j < ph,
        on_land(l, pw, ph, centre(pw, ph).0, centre(pw, ph).1),
        (i <= x <= pw / 2) || (pw / 2 <= x <= i),
    ensures
        reached(with_strip(l, pw, ph, i, j), pw, ph, (x, j)),
    decreases if x < pw / 2 { pw / 2 - x } else { x - pw / 2 },
{
    let s = with_strip(l, pw, ph, i, j);
    if x == pw / 2 {
        lemma_strip_column(l, pw, ph, i, j, j);
    } else {
        let (q, d) = if x < pw / 2 { ((x + 1, j), 3int) } else { ((x - 1, j), 1int) };
        lemma_strip_row(l, pw, ph, i, j, q.0);
        let k = choose|k: nat| preach(s, pw, ph, q, k);
        assert(on_strip(i, j, centre(pw, ph), x, j));
        assert(pnb(q, d) == (x, j));
        lemma_preach_step(s, pw, ph, q, k, d);
    }
}

/// Every kept cell that lies on the canvas is a cell of the island.
pub proof fn kept_cells_are_land(draft: Pieces, keep: Seq<Cell>, pw: int, ph: int, k: int)
    requires
        dims_ok(pw, ph),
        0 <= k < keep.len(),
        0 <= keep[k].x < 3 * pw,
        0 <= keep[k].y < 3 * ph,
    ensures
        blob_cells(draft, keep, pw, ph).contains(keep[k]),
{
    let c = keep[k];
    let (i, j) = (c.x / 3, c.y / 3);
    let a = anchored(draft, keep, pw, ph);
    assert(near(keep[k], i, j));
    assert(must(keep, pw, ph, i, j));
    let b = join_all(a, keep, pw, ph, i as nat);
    let before = join_col(b, keep, pw, ph, i, j as nat);
    let after = join_col(b, keep, pw, ph, i, (j + 1) as nat);
    lemma_join_all_grows(a, keep, pw, ph, 0, i as nat);
    lemma_join_col_grows(b, keep, pw, ph, i, 0, j as nat);
    let cc = centre(pw, ph);
    assert(a[cc.1][cc.0]);
    assert(b[cc.1][cc.0]);
    assert(before[cc.1][cc.0]);
    assert(after == join_step(before, keep, pw, ph, i, j));
    if reached(before, pw, ph, (i, j)) {
        assert(after == before);
    } else {
        lemma_strip_row(before, pw, ph, i, j, i);
    }
    assert(reached(after, pw, ph, (i, j)));
    lemma_join_col_grows(b, keep, pw, ph, i, (j + 1) as nat, ph as nat);
    lemma_reached_mono(after, join_col(b, keep, pw, ph, i, ph as nat), pw, ph, (i, j));
    assert(join_all(a, keep, pw, ph, (i + 1) as nat) == join_col(b, keep, pw, ph, i, ph as nat));
    lemma_join_all_grows(a, keep, pw, ph, (i + 1) as nat, pw as nat);
    lemma_reached_mono(join_all(a, keep, pw, ph, (i + 1) as nat), shaped(draft, keep, pw, ph), pw, ph, (i, j));
}

} // verus!
