//! Things placed on the map that occupy a footprint of cells.
use vstd::prelude::*;
use crate::grid::{Cell, cell_at, trunc_half};
use crate::isle::Theme;
use crate::rules::Walk;

verus! {

#[derive(Clone, Debug, PartialEq, Eq)]
pub struct Structure {
    /// Type file stem, e.g. `dais` or `treetwo`.
    pub kind: String,
    /// The cell holding the hotspot: the bottom-right cell of the footprint.
    pub cell: Cell,
    /// Footprint size in cells.
    pub foot_x: i32,
    pub foot_y: i32,
    /// How the footprint affects walking.
    pub walk: Walk,
    /// Whether nothing may be dropped onto the footprint.
    pub drop_blocking: bool,
    /// Storm crystals left, for geysers.
    pub stock: i32,
    /// Whether units deliver crystals here.
    pub is_temple: bool,
    /// An Outpost: takes in crystals and holds its island.
    pub is_outpost: bool,
    pub owner: u8,
    /// Hit points left; `max_hp` 0 means it cannot be damaged.
    pub hp: i32,
    pub max_hp: i32,
    /// Storm Power it was bought for, refunded in part when salvaged.
    pub cost: i32,
    /// Weapon, if the type shoots.
    pub weapon: Option<Weapon>,
    /// Ticks until the weapon may fire again.
    pub cooldown: u32,
    pub threat: i32,
    pub is_altar: bool,
    /// Energy this structure radiates, for Generators and Temples.
    pub produces: Option<Theme>,
    /// Workshop production slots: type stems in production, at most `slots`.
    pub production: Vec<String>,
    pub slots: usize,
    pub theme: Theme,
    /// The aerial attacker type this base launches, if it is one.
    pub launches: Option<String>,
    /// Index of the attacker in the air, if alive.
    pub flyer: Option<usize>,
    /// Ticks until the base launches again.
    pub respawn: u32,
    /// Ticks of stream still needed before the structure stands; 0 when built.
    pub building: u32,
    /// Ticks the whole build takes, for progress.
    pub build_ticks: u32,
    /// Workshop level, from one.
    pub level: u8,
    /// An Obelisk and the Spell it holds.
    pub is_obelisk: bool,
    pub spell: Option<String>,
    /// Ticks of paralysis left: no shooting.
    pub paralysed: u32,
    /// Where the last shot went, for turning the turret.
    pub aim: Option<Cell>,
    /// The variant frame the map pinned.
    pub variant: Option<u32>,
    /// A number that stays with the structure while it stands; 0 until the
    /// world takes it in.
    pub id: u32,
    /// What it shot at last, kept while that stays a valid target.
    pub target: Option<Aim>,
}

/// What a shooter is trained on, by identities that survive removals.
#[derive(Clone, Copy, Debug, PartialEq, Eq, Structural)]
pub enum Aim {
    Structure(u32),
    Unit(usize),
    Bridge(Cell),
}

#[derive(Clone, Copy, Debug, PartialEq, Eq, Structural)]
pub struct Weapon {
    pub range: i32,
    pub damage: i32,
    /// Ticks between shots.
    pub delay: u32,
    pub cardinal_only: bool,
    /// Whether ground targets can be hit at all.
    pub ground: bool,
    /// Reach and damage per shot against flyers; 0 when they cannot be hit.
    pub air_range: i32,
    pub air_damage: i32,
}

/// Whether `c` lies in the footprint whose bottom-right cell is `at`.
pub open spec fn in_footprint(at: Cell, fx: int, fy: int, c: Cell) -> bool {
    0 <= at.x - c.x < fx && 0 <= at.y - c.y < fy
}

/// The four orthogonal steps, in the order north, east, south, west.
pub open spec fn step(d: int) -> (int, int) {
    if d == 0 { (0, -1) } else if d == 1 { (1, 0) } else if d == 2 { (0, 1) } else { (-1, 0) }
}

/// Whether a cell next to `c` in one of the four directions is in the footprint.
pub open spec fn touches(at: Cell, fx: int, fy: int, c: Cell) -> bool {
    exists|d: int| 0 <= d < 4 && #[trigger] in_footprint(at, fx, fy, cell_at(c.x + step(d).0, c.y + step(d).1))
}

/// The footprint's cells row by row from the hotspot: index `dy * fx + dx`
/// holds the cell `dx` left and `dy` up of it.
pub open spec fn footprint_seq(at: Cell, fx: int, fy: int) -> Seq<Cell> {
    Seq::new((fx * fy) as nat, |i: int| cell_at(at.x - i % fx, at.y - i / fx))
}

/// The candidates `adjacent_cells` looks at: for each footprint cell, its
/// four neighbours in step order.
pub open spec fn neighbour_seq(cells: Seq<Cell>) -> Seq<Cell> {
    Seq::new(cells.len() * 4, |i: int| cell_at(cells[i / 4].x + step(i % 4).0, cells[i / 4].y + step(i % 4).1))
}

/// The candidates outside the footprint, each kept at its first appearance.
pub open spec fn first_outside(at: Cell, fx: int, fy: int, cands: Seq<Cell>) -> Seq<Cell>
    decreases cands.len(),
{
    if cands.len() == 0 {
        Seq::empty()
    } else {
        let prev = first_outside(at, fx, fy, cands.drop_last());
        let n = cands.last();
        if !in_footprint(at, fx, fy, n) && !prev.contains(n) { prev.push(n) } else { prev }
    }
}

/// The coordinates of a structure's footprint and the cells round it stay
/// on the `i32` grid.
pub open spec fn footprint_fits(s: Structure) -> bool {
    &&& 1 <= s.foot_x && 1 <= s.foot_y
    &&& s.foot_x * s.foot_y <= usize::MAX
    &&& i32::MIN <= s.cell.x - s.foot_x && s.cell.x < i32::MAX
    &&& i32::MIN <= s.cell.y - s.foot_y && s.cell.y < i32::MAX
}

/// The footprint's own cells stay on the `i32` grid: the leftmost column
/// and top row, `foot - 1` from the hotspot, are in range.
pub open spec fn cells_fit(s: Structure) -> bool {
    &&& 1 <= s.foot_x && 1 <= s.foot_y
    &&& s.foot_x * s.foot_y <= usize::MAX
    &&& i32::MIN <= s.cell.x - (s.foot_x - 1)
    &&& i32::MIN <= s.cell.y - (s.foot_y - 1)
}

fn in_range(v: i32, n: i32) -> (r: bool)
    ensures
        r == (0 <= v < n),
{
    0 <= v && v < n
}

impl Structure {
    /// Whether the stream has finished building the structure.
    pub fn complete(&self) -> (r: bool)
        ensures
            r == (self.building == 0),
    {
        self.building == 0
    }

    /// A structure of `kind` with its hotspot at `cell` and a footprint of
    /// at least one cell each way; everything else at rest.
    pub fn new(kind: &str, cell: Cell, foot_x: i32, foot_y: i32, walk: Walk) -> (s: Structure)
        ensures
            s.kind@ == kind@,
            s.cell == cell,
            s.foot_x == (if foot_x >= 1 { foot_x } else { 1 }),
            s.foot_y == (if foot_y >= 1 { foot_y } else { 1 }),
            s.walk == walk,
            !s.drop_blocking && s.stock == 0 && !s.is_temple && !s.is_outpost,
            s.owner == 0 && s.hp == 0 && s.max_hp == 0 && s.cost == 0,
            s.weapon is None && s.cooldown == 0 && s.threat == 0 && !s.is_altar,
            s.produces is None && s.production@.len() == 0 && s.slots == 0 && s.theme == Theme::Sun,
            s.launches is None && s.flyer is None && s.respawn == 0,
            s.building == 0 && s.build_ticks == 0 && s.level == 1,
            !s.is_obelisk && s.spell is None && s.paralysed == 0,
            s.aim is None && s.variant is None && s.id == 0 && s.target is None,
    {
        Structure {
            kind: String::from_str(kind),
            cell,
            foot_x: if foot_x >= 1 { foot_x } else { 1 },
            foot_y: if foot_y >= 1 { foot_y } else { 1 },
            walk,
            drop_blocking: false,
            stock: 0,
            is_temple: false,
            is_outpost: false,
            owner: 0,
            hp: 0,
            max_hp: 0,
            cost: 0,
            weapon: None,
            cooldown: 0,
            threat: 0,
            is_altar: false,
            produces: None,
            production: Vec::new(),
            slots: 0,
            theme: Theme::Sun,
            launches: None,
            flyer: None,
            respawn: 0,
            building: 0,
            build_ticks: 0,
            level: 1,
            is_obelisk: false,
            spell: None,
            paralysed: 0,
            aim: None,
            variant: None,
            id: 0,
            target: None,
        }
    }

    /// Centre of the footprint, in cells (rounded towards the hotspot).
    pub fn centre(&self) -> (c: Cell)
        requires
            i32::MIN + 1 < self.foot_x && i32::MIN + 1 < self.foot_y,
            i32::MIN <= self.cell.x + trunc_half(1 - self.foot_x) <= i32::MAX,
            i32::MIN <= self.cell.y + trunc_half(1 - self.foot_y) <= i32::MAX,
        ensures
            c.x == self.cell.x + trunc_half(1 - self.foot_x),
            c.y == self.cell.y + trunc_half(1 - self.foot_y),
    {
        self.cell.offset(-(self.foot_x - 1) / 2, -(self.foot_y - 1) / 2)
    }

    /// Whether `cell` shares a row or column with the footprint: a straight line of fire.
    pub fn in_line(&self, cell: Cell) -> (r: bool)
        requires
            i32::MIN <= self.cell.x - cell.x <= i32::MAX,
            i32::MIN <= self.cell.y - cell.y <= i32::MAX,
        ensures
            r == (0 <= self.cell.x - cell.x < self.foot_x || 0 <= self.cell.y - cell.y < self.foot_y),
    {
        let dx = self.cell.x - cell.x;
        let dy = self.cell.y - cell.y;
        in_range(dx, self.foot_x) || in_range(dy, self.foot_y)
    }

    /// Chebyshev distance from the footprint to `cell`, 0 when covered.
    pub fn distance_to(&self, cell: Cell) -> (d: i32)
        requires
            i32::MIN <= cell.x - self.cell.x <= i32::MAX,
            i32::MIN <= cell.y - self.cell.y <= i32::MAX,
            i32::MIN <= self.cell.x - self.foot_x + 1 - cell.x <= i32::MAX,
            i32::MIN <= self.cell.y - self.foot_y + 1 - cell.y <= i32::MAX,
            i32::MIN <= self.cell.x - self.foot_x,
            i32::MIN <= self.cell.y - self.foot_y,
            self.cell.x - self.foot_x + 1 <= i32::MAX,
            self.cell.y - self.foot_y + 1 <= i32::MAX,
        ensures
            d == spec_distance(self.cell, self.foot_x as int, self.foot_y as int, cell),
    {
        let dx = if cell.x > self.cell.x {
            cell.x - self.cell.x
        } else {
            let v = self.cell.x - self.foot_x + 1 - cell.x;
            if v >= 0 { v } else { 0 }
        };
        let dy = if cell.y > self.cell.y {
            cell.y - self.cell.y
        } else {
            let v = self.cell.y - self.foot_y + 1 - cell.y;
            if v >= 0 { v } else { 0 }
        };
        if dx >= dy { dx } else { dy }
    }

    pub fn covers(&self, cell: Cell) -> (r: bool)
        requires
            i32::MIN <= self.cell.x - cell.x <= i32::MAX,
            i32::MIN <= self.cell.y - cell.y <= i32::MAX,
        ensures
            r == in_footprint(self.cell, self.foot_x as int, self.foot_y as int, cell),
    {
        let dx = self.cell.x - cell.x;
        let dy = self.cell.y - cell.y;
        in_range(dx, self.foot_x) && in_range(dy, self.foot_y)
    }

    pub fn blocks_walking(&self) -> (r: bool)
        ensures
            r == (self.walk == Walk::Blocked),
    {
        self.walk == Walk::Blocked
    }

    /// Every cell of the footprint, row by row from the hotspot (the
    /// bottom-right cell) leftwards and upwards.
    pub fn cells(&self) -> (v: Vec<Cell>)
        requires
            cells_fit(*self),
        ensures
            v@ == footprint_seq(self.cell, self.foot_x as int, self.foot_y as int),
    {
        let fx = self.foot_x;
        let fy = self.foot_y;
        let ghost want = footprint_seq(self.cell, fx as int, fy as int);
        let mut v: Vec<Cell> = Vec::new();
        let mut dy: i32 = 0;
        while dy < fy
            invariant
                cells_fit(*self),
                fx == self.foot_x && fy == self.foot_y,
                want == footprint_seq(self.cell, fx as int, fy as int),
                0 <= dy <= fy,
                v@ == want.subrange(0, dy * fx),
            decreases fy - dy,
        {
            let mut dx: i32 = 0;
            while dx < fx
                invariant
                    cells_fit(*self),
                    fx == self.foot_x && fy == self.foot_y,
                    want == footprint_seq(self.cell, fx as int, fy as int),
                    0 <= dy < fy,
                    0 <= dx <= fx,
                    v@ == want.subrange(0, dy * fx + dx),
                decreases fx - dx,
            {
                proof {
                    assert(dy * fx + dx < fx * fy) by (nonlinear_arith)
                        requires 0 <= dy < fy, 0 <= dx < fx;
                    assert((dy * fx + dx) % (fx as int) == dx as int && (dy * fx + dx) / (fx as int) == dy as int)
                        by (nonlinear_arith) requires 0 <= dx < fx, 0 <= dy;
                }
                v.push(Cell { x: self.cell.x - dx, y: self.cell.y - dy });
                proof {
                    assert(want.subrange(0, dy * fx + dx + 1) =~= want.subrange(0, dy * fx + dx).push(want[dy * fx + dx]));
                }
                dx = dx + 1;
            }
            proof {
                assert(dy * fx + fx == (dy + 1) * fx) by (nonlinear_arith);
            }
            dy = dy + 1;
        }
        proof {
            assert(dy * fx == fx * fy) by (nonlinear_arith) requires dy == fy;
            assert(v@ =~= want);
        }
        v
    }
}

/// Chebyshev distance from the footprint with bottom-right cell `at` to `c`.
pub open spec fn spec_distance(at: Cell, fx: int, fy: int, c: Cell) -> int {
    let dx = if c.x > at.x { c.x - at.x } else if at.x - fx + 1 - c.x >= 0 { at.x - fx + 1 - c.x } else { 0 };
    let dy = if c.y > at.y { c.y - at.y } else if at.y - fy + 1 - c.y >= 0 { at.y - fy + 1 - c.y } else { 0 };
    if dx >= dy { dx } else { dy }
}


fn has_cell(v: &Vec<Cell>, c: Cell) -> (r: bool)
    ensures
        r == v@.contains(c),
{
    let mut i: usize = 0;
    while i < v.len()
        invariant
            i <= v@.len(),
            forall|j: int| 0 <= j < i ==> v@[j] != c,
        decreases v@.len() - i,
    {
        if v[i] == c {
            return true;
        }
        i = i + 1;
    }
    false
}

fn step_of(d: usize) -> (s: (i32, i32))
    requires
        d < 4,
    ensures
        s.0 == step(d as int).0 && s.1 == step(d as int).1,
{
    if d == 0 { (0, -1) } else if d == 1 { (1, 0) } else if d == 2 { (0, 1) } else { (-1, 0) }
}

impl Structure {
    /// Cells orthogonally adjacent to the footprint, where a unit can stand
    /// to work on it: each footprint cell's neighbours north, east, south
    /// and west in turn, kept at their first appearance.
    pub fn adjacent_cells(&self) -> (v: Vec<Cell>)
        requires
            footprint_fits(*self),
        ensures
            v@ == first_outside(self.cell, self.foot_x as int, self.foot_y as int,
                neighbour_seq(footprint_seq(self.cell, self.foot_x as int, self.foot_y as int))),
    {
        let cells = self.cells();
        let ghost fs = cells@;
        let ghost cands = neighbour_seq(fs);
        let ghost (at, fx, fy) = (self.cell, self.foot_x as int, self.foot_y as int);
        let mut out: Vec<Cell> = Vec::new();
        let mut i: usize = 0;
        while i < cells.len()
            invariant
                footprint_fits(*self),
                at == self.cell && fx == self.foot_x && fy == self.foot_y,
                fs == cells@,
                fs == footprint_seq(at, fx, fy),
                cands == neighbour_seq(fs),
                i <= fs.len(),
                out@ == first_outside(at, fx, fy, cands.subrange(0, 4 * i)),
            decreases fs.len() - i,
        {
            let c = cells[i];
            proof {
                assert(0 <= (i as int) % fx < fx && 0 <= (i as int) / fx < fy) by (nonlinear_arith)
                    requires 0 <= i < fx * fy, fx >= 1;
                assert(c.x <= at.x && c.x >= at.x - fx + 1);
                assert(c.y <= at.y && c.y >= at.y - fy + 1);
            }
            let mut d: usize = 0;
            while d < 4
                invariant
                    footprint_fits(*self),
                    at == self.cell && fx == self.foot_x && fy == self.foot_y,
                    fs == footprint_seq(at, fx, fy),
                    cands == neighbour_seq(fs),
                    i < fs.len(),
                    c == fs[i as int],
                    c.x <= at.x && c.x >= at.x - fx + 1,
                    c.y <= at.y && c.y >= at.y - fy + 1,
                    d <= 4,
                    out@ == first_outside(at, fx, fy, cands.subrange(0, 4 * i + d)),
                decreases 4 - d,
            {
                let (dx, dy) = step_of(d);
                let n = c.offset(dx, dy);
                proof {
                    assert(cands[4 * i + d] == n) by {
                        assert((4 * i + d) / 4 == i as int && (4 * i + d) % 4 == d as int) by (nonlinear_arith)
                            requires d < 4, i >= 0;
                    }
                    assert(cands.subrange(0, 4 * i + d + 1).drop_last() =~= cands.subrange(0, 4 * i + d));
                }
                if !self.covers(n) && !has_cell(&out, n) {
                    out.push(n);
                }
                d = d + 1;
            }
            i = i + 1;
        }
        assert(cands.subrange(0, 4 * i as int) =~= cands);
        out
    }

    /// Whether `cell` is outside the footprint and next to it north, east,
    /// south or west.
    pub fn is_adjacent(&self, cell: Cell) -> (r: bool)
        requires
            i32::MIN < cell.x < i32::MAX,
            i32::MIN < cell.y < i32::MAX,
            i32::MIN <= self.cell.x - cell.x - 1,
            self.cell.x - cell.x + 1 <= i32::MAX,
            i32::MIN <= self.cell.y - cell.y - 1,
            self.cell.y - cell.y + 1 <= i32::MAX,
        ensures
            r == (!in_footprint(self.cell, self.foot_x as int, self.foot_y as int, cell)
                && touches(self.cell, self.foot_x as int, self.foot_y as int, cell)),
    {
        if self.covers(cell) {
            return false;
        }
        let mut d: usize = 0;
        while d < 4
            invariant
                d <= 4,
                !in_footprint(self.cell, self.foot_x as int, self.foot_y as int, cell),
                i32::MIN < cell.x < i32::MAX,
                i32::MIN < cell.y < i32::MAX,
                i32::MIN <= self.cell.x - cell.x - 1,
                self.cell.x - cell.x + 1 <= i32::MAX,
                i32::MIN <= self.cell.y - cell.y - 1,
                self.cell.y - cell.y + 1 <= i32::MAX,
                forall|e: int| 0 <= e < d ==> !#[trigger] in_footprint(self.cell, self.foot_x as int, self.foot_y as int,
                    cell_at(cell.x + step(e).0, cell.y + step(e).1)),
            decreases 4 - d,
        {
            let (dx, dy) = step_of(d);
            let n = cell.offset(dx, dy);
            assert(n == cell_at(cell.x + step(d as int).0, cell.y + step(d as int).1));
            if self.covers(n) {
                assert(touches(self.cell, self.foot_x as int, self.foot_y as int, cell)) by {
                    assert(in_footprint(self.cell, self.foot_x as int, self.foot_y as int,
                        cell_at(cell.x + step(d as int).0, cell.y + step(d as int).1)));
                }
                return true;
            }
            d = d + 1;
        }
        false
    }
}

/// The footprint's cells are the cells it covers.
pub proof fn cells_are_covered(s: Structure, c: Cell)
    requires
        footprint_fits(s),
    ensures
        footprint_seq(s.cell, s.foot_x as int, s.foot_y as int).contains(c)
            <==> in_footprint(s.cell, s.foot_x as int, s.foot_y as int, c),
{
    let (at, fx, fy) = (s.cell, s.foot_x as int, s.foot_y as int);
    let fs = footprint_seq(at, fx, fy);
    if in_footprint(at, fx, fy, c) {
        let dx = at.x - c.x;
        let dy = at.y - c.y;
        let i = dy * fx + dx;
        assert(0 <= i < fx * fy && i % fx == dx && i / fx == dy) by (nonlinear_arith)
            requires 0 <= dx < fx, 0 <= dy < fy, i == dy * fx + dx;
        assert(fs[i] == c);
    }
    if fs.contains(c) {
        let i = choose|i: int| 0 <= i < fs.len() && fs[i] == c;
        assert(0 <= i % fx < fx && 0 <= i / fx < fy) by (nonlinear_arith)
            requires 0 <= i < fx * fy, fx >= 1;
    }
}

/// The cells `adjacent_cells` lists are exactly those `is_adjacent` accepts.
pub proof fn adjacent_cells_agree(s: Structure, c: Cell)
    requires
        footprint_fits(s),
        i32::MIN < c.x < i32::MAX,
        i32::MIN < c.y < i32::MAX,
    ensures
        first_outside(s.cell, s.foot_x as int, s.foot_y as int,
            neighbour_seq(footprint_seq(s.cell, s.foot_x as int, s.foot_y as int))).contains(c)
            <==> (!in_footprint(s.cell, s.foot_x as int, s.foot_y as int, c)
                && touches(s.cell, s.foot_x as int, s.foot_y as int, c)),
{
    let (at, fx, fy) = (s.cell, s.foot_x as int, s.foot_y as int);
    let fs = footprint_seq(at, fx, fy);
    let cands = neighbour_seq(fs);
    lemma_first_outside(at, fx, fy, cands, c);
    if cands.contains(c) {
        let k = choose|k: int| 0 <= k < cands.len() && cands[k] == c;
        let f = fs[k / 4];
        let d = k % 4;
        assert(0 <= k / 4 < fs.len() && 0 <= d < 4);
        cells_are_covered(s, f);
        let e = (d + 2) % 4;
        assert(cell_at(c.x + step(e).0, c.y + step(e).1) == f);
        assert(in_footprint(at, fx, fy, cell_at(c.x + step(e).0, c.y + step(e).1)));
    }
    if touches(at, fx, fy, c) {
        let d = choose|d: int| 0 <= d < 4 && #[trigger] in_footprint(at, fx, fy, cell_at(c.x + step(d).0, c.y + step(d).1));
        let f = cell_at(c.x + step(d).0, c.y + step(d).1);
        cells_are_covered(s, f);
        let i = choose|i: int| 0 <= i < fs.len() && fs[i] == f;
        let e = (d + 2) % 4;
        let k = 4 * i + e;
        assert(k / 4 == i && k % 4 == e && 0 <= k < cands.len());
        assert(cands[k] == c);
    }
}

/// A cell is among the candidates' first outside appearances exactly when
/// it is a candidate outside the footprint.
proof fn lemma_first_outside(at: Cell, fx: int, fy: int, cands: Seq<Cell>, c: Cell)
    ensures
        first_outside(at, fx, fy, cands).contains(c) <==> (cands.contains(c) && !in_footprint(at, fx, fy, c)),
    decreases cands.len(),
{
    if cands.len() > 0 {
        let pre = cands.drop_last();
        let n = cands.last();
        lemma_first_outside(at, fx, fy, pre, c);
        let prev = first_outside(at, fx, fy, pre);
        assert(cands =~= pre.push(n));
        assert(cands.contains(c) <==> (pre.contains(c) || c == n)) by {
            if cands.contains(c) && c != n {
                let k = choose|k: int| 0 <= k < cands.len() && cands[k] == c;
                assert(pre[k] == c);
            }
            if pre.contains(c) {
                let k = choose|k: int| 0 <= k < pre.len() && pre[k] == c;
                assert(cands[k] == c);
            }
            if c == n {
                assert(cands[cands.len() - 1] == c);
            }
        }
        if !in_footprint(at, fx, fy, n) && !prev.contains(n) {
            let r = prev.push(n);
            assert(r.contains(c) <==> (prev.contains(c) || c == n)) by {
                if r.contains(c) && c != n {
                    let k = choose|k: int| 0 <= k < r.len() && r[k] == c;
                    assert(prev[k] == c);
                }
                if prev.contains(c) {
                    let k = choose|k: int| 0 <= k < prev.len() && prev[k] == c;
                    assert(r[k] == c);
                }
                if c == n {
                    assert(r[r.len() - 1] == c);
                }
            }
        } else {
            if c == n && !in_footprint(at, fx, fy, n) {
                assert(prev.contains(n));
            }
        }
    }
}

/// The distance is zero exactly on the footprint.
pub proof fn distance_zero_on_footprint(s: Structure, c: Cell)
    requires
        s.foot_x >= 1,
        s.foot_y >= 1,
    ensures
        (spec_distance(s.cell, s.foot_x as int, s.foot_y as int, c) == 0)
            <==> in_footprint(s.cell, s.foot_x as int, s.foot_y as int, c),
{
}
} // verus!
