//! Units: things that stand on cells and move between them.
//!
//! Positions are fixed point with a number of steps per cell so that the
//! simulation stays integer-only and deterministic across machines.
use vstd::prelude::*;
use std::collections::VecDeque;
use crate::grid::Cell;

verus! {

/// The eight facing directions, in the order the walker animations are
/// listed in the type files (`A` = north, clockwise to `H` = north-west).
#[derive(Clone, Copy, Debug, PartialEq, Eq, Hash, Structural)]
pub enum Dir8 {
    N,
    NE,
    E,
    SE,
    S,
    SW,
    W,
    NW,
}

pub open spec fn dir_letter(d: Dir8) -> char {
    match d {
        Dir8::N => 'A',
        Dir8::NE => 'B',
        Dir8::E => 'C',
        Dir8::SE => 'D',
        Dir8::S => 'E',
        Dir8::SW => 'F',
        Dir8::W => 'G',
        Dir8::NW => 'H',
    }
}

pub open spec fn signum(v: int) -> int {
    if v > 0 { 1 } else if v < 0 { -1 } else { 0 }
}

pub open spec fn abs(v: int) -> int {
    if v < 0 { -v } else { v }
}

/// The facing closest to the vector `(dx, dy)` (y grows downwards): a
/// diagonal when neither component is under 5/12 of the other.
pub open spec fn spec_facing(dx: int, dy: int) -> Option<Dir8> {
    if dx == 0 && dy == 0 {
        None
    } else {
        let (ax, ay) = (abs(dx), abs(dy));
        let diagonal = ax * 12 > ay * 5 && ay * 12 > ax * 5;
        let (sx, sy) = (signum(dx), signum(dy));
        Some(
            if sy == -1 && !diagonal && ay >= ax {
                Dir8::N
            } else if sy == 1 && !diagonal && ay >= ax {
                Dir8::S
            } else if sx == 1 && !diagonal {
                Dir8::E
            } else if sx == -1 && !diagonal {
                Dir8::W
            } else if sx == 1 && sy == -1 && diagonal {
                Dir8::NE
            } else if sx == 1 && sy == 1 && diagonal {
                Dir8::SE
            } else if sx == -1 && sy == 1 && diagonal {
                Dir8::SW
            } else if sx == -1 && sy == -1 && diagonal {
                Dir8::NW
            } else {
                Dir8::N
            },
        )
    }
}

/// Vectors small enough for the facing test's arithmetic.
pub open spec fn vector_fits(dx: int, dy: int) -> bool {
    abs(dx) * 12 <= i64::MAX && abs(dy) * 12 <= i64::MAX
}

impl Dir8 {
    pub const ALL: [Dir8; 8] = [Dir8::N, Dir8::NE, Dir8::E, Dir8::SE, Dir8::S, Dir8::SW, Dir8::W, Dir8::NW];

    /// Animation label of this facing in a walker type (`A`..`H`).
    pub fn animation(self) -> (l: &'static str)
        ensures
            l@ == seq![dir_letter(self)],
    {
        match self {
            Dir8::N => { proof { reveal_strlit("A"); } "A" },
            Dir8::NE => { proof { reveal_strlit("B"); } "B" },
            Dir8::E => { proof { reveal_strlit("C"); } "C" },
            Dir8::SE => { proof { reveal_strlit("D"); } "D" },
            Dir8::S => { proof { reveal_strlit("E"); } "E" },
            Dir8::SW => { proof { reveal_strlit("F"); } "F" },
            Dir8::W => { proof { reveal_strlit("G"); } "G" },
            Dir8::NW => { proof { reveal_strlit("H"); } "H" },
        }
    }

    /// Facing closest to a movement vector (y grows downwards, as on screen).
    pub fn from_vector(dx: i64, dy: i64) -> (d: Option<Dir8>)
        requires
            vector_fits(dx as int, dy as int),
        ensures
            d == spec_facing(dx as int, dy as int),
    {
        if dx == 0 && dy == 0 {
            return None;
        }
        let ax: i64 = if dx < 0 { -dx } else { dx };
        let ay: i64 = if dy < 0 { -dy } else { dy };
        let diagonal = ax * 12 > ay * 5 && ay * 12 > ax * 5;
        let sx: i64 = if dx > 0 { 1 } else if dx < 0 { -1 } else { 0 };
        let sy: i64 = if dy > 0 { 1 } else if dy < 0 { -1 } else { 0 };
        Some(
            if sy == -1 && !diagonal && ay >= ax {
                Dir8::N
            } else if sy == 1 && !diagonal && ay >= ax {
                Dir8::S
            } else if sx == 1 && !diagonal {
                Dir8::E
            } else if sx == -1 && !diagonal {
                Dir8::W
            } else if sx == 1 && sy == -1 && diagonal {
                Dir8::NE
            } else if sx == 1 && sy == 1 && diagonal {
                Dir8::SE
            } else if sx == -1 && sy == 1 && diagonal {
                Dir8::SW
            } else if sx == -1 && sy == -1 && diagonal {
                Dir8::NW
            } else {
                Dir8::N
            },
        )
    }
}

/// A fixed-point map position.
#[derive(Clone, Copy, Debug, PartialEq, Eq, Hash, Structural)]
pub struct Pos {
    pub x: i32,
    pub y: i32,
}

/// `i32::div_euclid`: the quotient of Euclidean division, which is what
/// `/` means on integers in specifications.
#[verifier::external_body]
fn div_euclid(a: i32, b: i32) -> (q: i32)
    requires
        b != 0,
        !(a == i32::MIN && b == -1),
    ensures
        q == a as int / b as int,
{
    a.div_euclid(b)
}

/// `u64::isqrt`: the square root rounded down.
#[verifier::external_body]
fn isqrt(n: u64) -> (r: u64)
    ensures
        r * r <= n < (r + 1) * (r + 1),
{
    n.isqrt()
}

impl Pos {
    /// Centre of a cell, with `sub` fixed-point steps per cell.
    pub fn cell_centre(cell: Cell, sub: i32) -> (p: Pos)
        requires
            sub > 0,
            i32::MIN <= cell.x * sub + sub / 2 <= i32::MAX,
            i32::MIN <= cell.y * sub + sub / 2 <= i32::MAX,
            i32::MIN <= cell.x * sub <= i32::MAX,
            i32::MIN <= cell.y * sub <= i32::MAX,
        ensures
            p.x == cell.x * sub + sub / 2,
            p.y == cell.y * sub + sub / 2,
    {
        Pos { x: cell.x * sub + sub / 2, y: cell.y * sub + sub / 2 }
    }

    /// The cell holding this position: Euclidean division by `sub`, so
    /// that negative positions fall in negative cells.
    pub fn cell(self, sub: i32) -> (c: Cell)
        requires
            sub != 0,
            !(sub == -1 && (self.x == i32::MIN || self.y == i32::MIN)),
        ensures
            c.x == self.x as int / sub as int,
            c.y == self.y as int / sub as int,
    {
        Cell::new(div_euclid(self.x, sub), div_euclid(self.y, sub))
    }
}

/// A cell's centre lies in that cell.
pub proof fn centre_lies_in_its_cell(cell: Cell, sub: int)
    requires
        sub > 0,
    ensures
        (cell.x * sub + sub / 2) / sub == cell.x,
        (cell.y * sub + sub / 2) / sub == cell.y,
{
    assert((cell.x * sub + sub / 2) / sub == cell.x) by (nonlinear_arith)
        requires sub > 0, 0 <= sub / 2 < sub;
    assert((cell.y * sub + sub / 2) / sub == cell.y) by (nonlinear_arith)
        requires sub > 0, 0 <= sub / 2 < sub;
}

/// A standing order that outlives a single move.
#[derive(Clone, Copy, Debug, PartialEq, Eq, Structural)]
pub enum Task {
    Idle,
    /// Carry crystals from `geyser` to `temple` until the geyser is empty.
    Harvest { geyser: usize, temple: usize, carrying: i32, work: u32 },
    /// Walk to a stunned enemy priest and pick him up.
    Capture { priest: usize },
    /// Carry the held priest to the centre of `altar` and sacrifice him.
    Sacrifice { altar: usize },
    /// Walk to an Obelisk and learn its Spell.
    Read { obelisk: usize },
}

#[derive(Clone, Debug, PartialEq, Eq)]
pub struct Unit {
    /// Type file stem, e.g. `priest`.
    pub kind: String,
    pub pos: Pos,
    pub facing: Dir8,
    /// Waypoints still to visit, front first.
    pub path: VecDeque<Pos>,
    /// Movement per tick in fixed-point steps.
    pub speed: i32,
    /// Fixed-point steps per cell.
    pub subcell: i32,
    /// Dead units stay in the list so indices remain stable.
    pub alive: bool,
    pub task: Task,
    pub owner: u8,
    pub hp: i32,
    pub max_hp: i32,
    pub threat: i32,
    pub is_priest: bool,
    pub is_transport: bool,
    /// A priest at or below half health cannot act.
    pub stunned: bool,
    /// A priest whose ground fell away hangs in the clouds.
    pub floating: bool,
    /// Index of the unit this one is carrying (a captured priest).
    pub carrying: Option<usize>,
    /// Index of the unit carrying this one.
    pub carried_by: Option<usize>,
    /// Flies: needs no ground, never falls, is hit only by air weapons.
    pub is_air: bool,
    /// An aerial attacker launched by `base`.
    pub is_flyer: bool,
    pub base: Option<usize>,
    /// Ticks of flight left before the attacker must refuel or fall.
    pub life: u32,
    /// Flying home to refuel.
    pub returning: bool,
    /// Damage per strike and detection range of an attacker.
    pub strike: i32,
    pub range: i32,
    /// Ticks between strikes, and ticks until the next one.
    pub delay: u32,
    pub cooldown: u32,
    /// The Spell this Transport (or praying priest) knows.
    pub spell: Option<String>,
    /// Ticks until a cast in progress lands.
    pub casting: u32,
    /// Ticks of prayer left before the priest's Spell comes.
    pub praying: u32,
    /// Ticks of paralysis left: no moving, shooting or casting.
    pub paralysed: u32,
    /// Ticks of invisibility left: cannot be targeted or picked up.
    pub invisible: u32,
}

/// `r` is the square root of `n` rounded down.
pub open spec fn is_isqrt(r: int, n: int) -> bool {
    0 <= r && r * r <= n < (r + 1) * (r + 1)
}

/// Rust's `/` on integers: the quotient rounded towards zero.
pub open spec fn trunc_div(a: int, b: int) -> int {
    if (a >= 0) == (b >= 0) { abs(a) / abs(b) } else { -(abs(a) / abs(b)) }
}

/// `a / b` as Rust computes it, for a positive `b`.
fn div_toward_zero(a: i64, b: i64) -> (q: i64)
    requires
        b > 0,
        a > i64::MIN,
    ensures
        q == trunc_div(a as int, b as int),
{
    if a >= 0 {
        a / b
    } else {
        -((-a) / b)
    }
}

/// Whether a unit does not move this tick.
pub open spec fn stays(u: Unit) -> bool {
    !u.alive || u.stunned || u.carried_by is Some || u.casting > 0 || u.praying > 0 || u.paralysed > 0
        || u.path@.len() == 0
}

/// The arithmetic of a step stays in range.
pub open spec fn step_fits(u: Unit) -> bool {
    let t = u.path@[0];
    let (dx, dy) = (t.x - u.pos.x, t.y - u.pos.y);
    &&& dx * dx + dy * dy <= i64::MAX
    &&& vector_fits(dx, dy)
    &&& abs(dx) * abs(u.speed as int) <= i64::MAX
    &&& abs(dy) * abs(u.speed as int) <= i64::MAX
    &&& u.speed > i32::MIN
    &&& (dx != 0 || dy != 0 || u.speed >= 0)
    &&& forall|r: int| #[trigger] is_isqrt(r, dx * dx + dy * dy) && r > u.speed && r > 0 ==>
        i32::MIN <= u.pos.x + trunc_div(dx * u.speed, r) <= i32::MAX
        && i32::MIN <= u.pos.y + trunc_div(dy * u.speed, r) <= i32::MAX
}

impl Unit {
    /// A unit of `kind` standing at the centre of `cell`, facing south,
    /// alive, idle and unhurt.
    pub fn new(kind: &str, cell: Cell, speed: i32, subcell: i32) -> (u: Unit)
        requires
            subcell > 0,
            i32::MIN <= cell.x * subcell + subcell / 2 <= i32::MAX,
            i32::MIN <= cell.y * subcell + subcell / 2 <= i32::MAX,
            i32::MIN <= cell.x * subcell <= i32::MAX,
            i32::MIN <= cell.y * subcell <= i32::MAX,
        ensures
            u.kind@ == kind@,
            u.pos.x == cell.x * subcell + subcell / 2,
            u.pos.y == cell.y * subcell + subcell / 2,
            u.facing == Dir8::S,
            u.path@.len() == 0,
            u.speed == speed && u.subcell == subcell,
            u.alive && u.task == Task::Idle && u.owner == 0 && u.hp == 1 && u.max_hp == 1 && u.threat == 0,
            !u.is_priest && !u.is_transport && !u.stunned && !u.floating,
            u.carrying is None && u.carried_by is None && !u.is_air && !u.is_flyer && u.base is None,
            u.life == 0 && !u.returning && u.strike == 0 && u.range == 0 && u.delay == 1 && u.cooldown == 0,
            u.spell is None && u.casting == 0 && u.praying == 0 && u.paralysed == 0 && u.invisible == 0,
    {
        Unit {
            kind: String::from_str(kind),
            pos: Pos::cell_centre(cell, subcell),
            facing: Dir8::S,
            path: VecDeque::new(),
            speed,
            subcell,
            alive: true,
            task: Task::Idle,
            owner: 0,
            hp: 1,
            max_hp: 1,
            threat: 0,
            is_priest: false,
            is_transport: false,
            stunned: false,
            floating: false,
            carrying: None,
            carried_by: None,
            is_air: false,
            is_flyer: false,
            base: None,
            life: 0,
            returning: false,
            strike: 0,
            range: 0,
            delay: 1,
            cooldown: 0,
            spell: None,
            casting: 0,
            praying: 0,
            paralysed: 0,
            invisible: 0,
        }
    }

    /// The cell the unit stands in.
    pub fn cell(&self) -> (c: Cell)
        requires
            self.subcell != 0,
            !(self.subcell == -1 && (self.pos.x == i32::MIN || self.pos.y == i32::MIN)),
        ensures
            c.x == self.pos.x as int / self.subcell as int,
            c.y == self.pos.y as int / self.subcell as int,
    {
        self.pos.cell(self.subcell)
    }

    pub fn is_moving(&self) -> (r: bool)
        ensures
            r == (self.path@.len() > 0),
    {
        self.path.len() != 0
    }

    /// Held still by a cast, prayer or paralysis.
    pub fn held(&self) -> (r: bool)
        ensures
            r == (self.casting > 0 || self.praying > 0 || self.paralysed > 0),
    {
        self.casting > 0 || self.praying > 0 || self.paralysed > 0
    }

    /// Advance one tick along the path, straight towards the next
    /// waypoint: face it, and reach it (dropping it from the path) when it
    /// is within `speed`, else move `speed` towards it, each component
    /// rounded towards zero. Leftover movement is not carried over.
    pub fn step(&mut self)
        requires
            !stays(*old(self)) ==> step_fits(*old(self)),
        ensures
            stays(*old(self)) ==> *final(self) == *old(self),
            !stays(*old(self)) ==> ({
                let u = *old(self);
                let t = u.path@[0];
                let (dx, dy) = (t.x - u.pos.x, t.y - u.pos.y);
                let facing = match spec_facing(dx, dy) { Some(f) => f, None => u.facing };
                forall|r: int| #[trigger] is_isqrt(r, dx * dx + dy * dy) ==> if r <= u.speed {
                    &&& *final(self) == (Unit { pos: t, facing, path: final(self).path, ..u })
                    &&& final(self).path@ == u.path@.subrange(1, u.path@.len() as int)
                } else {
                    &&& *final(self) == (Unit {
                        pos: Pos { x: (u.pos.x + trunc_div(dx * u.speed, r)) as i32, y: (u.pos.y + trunc_div(dy * u.speed, r)) as i32 },
                        facing, ..u })
                }
            }),
    {
        if !self.alive || self.stunned || self.carried_by.is_some() || self.held() {
            return;
        }
        if self.path.len() == 0 {
            return;
        }
        let t = self.path[0];
        assert(!stays(*old(self)));
        let dx: i64 = (t.x as i64) - (self.pos.x as i64);
        let dy: i64 = (t.y as i64) - (self.pos.y as i64);
        assert(dx * dx >= 0 && dy * dy >= 0) by (nonlinear_arith);
        let d2: i64 = dx * dx + dy * dy;
        let r = isqrt(d2 as u64);
        assert(r <= r * r || r == 0) by (nonlinear_arith);
        let dist: i64 = r as i64;
        proof {
            lemma_isqrt_unique_all(dist as int, d2 as int);
            if dist == 0 {
                assert(r == 0);
                assert((r + 1) * (r + 1) == 1) by (nonlinear_arith) requires r == 0;
                assert(d2 < 1);
                assert(dx == 0 && dy == 0) by (nonlinear_arith)
                    requires d2 == dx * dx + dy * dy, d2 < 1;
            }
        }
        if let Some(f) = Dir8::from_vector(dx, dy) {
            self.facing = f;
        }
        if dist <= self.speed as i64 {
            self.pos = t;
            let _ = self.path.pop_front();
            return;
        }
        proof {
            assert(dist > 0);
            assert(abs(dx as int) <= dist) by (nonlinear_arith)
                requires dist * dist <= d2 < (dist + 1) * (dist + 1), d2 == dx * dx + dy * dy, dist >= 0;
            assert(abs(dy as int) <= dist) by (nonlinear_arith)
                requires dist * dist <= d2 < (dist + 1) * (dist + 1), d2 == dx * dx + dy * dy, dist >= 0;
        }
        proof {
            let sp = self.speed as int;
            assert(abs(dx as int) * abs(sp) <= i64::MAX && abs(dy as int) * abs(sp) <= i64::MAX);
            assert(-(i64::MAX as int) <= dx * sp <= i64::MAX) by (nonlinear_arith)
                requires abs(dx as int) * abs(sp) <= i64::MAX;
            assert(-(i64::MAX as int) <= dy * sp <= i64::MAX) by (nonlinear_arith)
                requires abs(dy as int) * abs(sp) <= i64::MAX;
            assert(is_isqrt(dist as int, dx * dx + dy * dy));
        }
        let qx: i64 = div_toward_zero(dx * (self.speed as i64), dist);
        let qy: i64 = div_toward_zero(dy * (self.speed as i64), dist);
        proof {
            let sp = self.speed as int;
            let d = dist as int;
            assert(abs(dx * sp) == abs(dx as int) * abs(sp)) by (nonlinear_arith);
            assert(abs(dy * sp) == abs(dy as int) * abs(sp)) by (nonlinear_arith);
            assert(abs(dx * sp) / d <= abs(sp)) by (nonlinear_arith)
                requires abs(dx as int) <= d, d > 0, abs(dx * sp) == abs(dx as int) * abs(sp), abs(sp) >= 0;
            assert(abs(dy * sp) / d <= abs(sp)) by (nonlinear_arith)
                requires abs(dy as int) <= d, d > 0, abs(dy * sp) == abs(dy as int) * abs(sp), abs(sp) >= 0;
            assert(i32::MIN <= old(self).pos.x + trunc_div(dx * sp, d) <= i32::MAX);
            assert(i32::MIN <= old(self).pos.y + trunc_div(dy * sp, d) <= i32::MAX);
        }
        self.pos.x = self.pos.x + qx as i32;
        self.pos.y = self.pos.y + qy as i32;
    }
}

/// Every rounded-down square root of `n` is `r`.
proof fn lemma_isqrt_unique_all(r: int, n: int)
    requires
        is_isqrt(r, n),
    ensures
        forall|s: int| #[trigger] is_isqrt(s, n) ==> s == r,
{
    assert forall|s: int| #[trigger] is_isqrt(s, n) implies s == r by {
        if s < r {
            assert((s + 1) * (s + 1) <= r * r) by (nonlinear_arith) requires 0 <= s < r;
        } else if s > r {
            assert((r + 1) * (r + 1) <= s * s) by (nonlinear_arith) requires 0 <= r < s;
        }
    }
}

/// A movement that is not diagonal (its smaller component at most 5/12
/// of its larger) faces straight along its larger component: east or west
/// when it goes further sideways than up or down, whatever its vertical
/// sign; north or south otherwise. A diagonal movement faces the diagonal
/// its two signs name.
pub proof fn facing_follows_the_movement(dx: int, dy: int)
    requires
        dx != 0 || dy != 0,
    ensures
        (abs(dx) * 12 <= abs(dy) * 5 || abs(dy) * 12 <= abs(dx) * 5) ==> {
            &&& abs(dx) > abs(dy) && dx > 0 ==> spec_facing(dx, dy) == Some(Dir8::E)
            &&& abs(dx) > abs(dy) && dx < 0 ==> spec_facing(dx, dy) == Some(Dir8::W)
            &&& abs(dy) >= abs(dx) && dy < 0 ==> spec_facing(dx, dy) == Some(Dir8::N)
            &&& abs(dy) >= abs(dx) && dy > 0 ==> spec_facing(dx, dy) == Some(Dir8::S)
        },
        (abs(dx) * 12 > abs(dy) * 5 && abs(dy) * 12 > abs(dx) * 5) ==> {
            &&& dx > 0 && dy < 0 ==> spec_facing(dx, dy) == Some(Dir8::NE)
            &&& dx > 0 && dy > 0 ==> spec_facing(dx, dy) == Some(Dir8::SE)
            &&& dx < 0 && dy > 0 ==> spec_facing(dx, dy) == Some(Dir8::SW)
            &&& dx < 0 && dy < 0 ==> spec_facing(dx, dy) == Some(Dir8::NW)
        },
{
}

} // verus!
