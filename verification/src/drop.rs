//! Dropping structures: where a type may be dropped, who may drop it, and
//! what the drop costs and leaves behind.
use vstd::prelude::*;
use crate::grid::{cell_at, trunc_half, Cell};
use crate::generate::footprint;
use crate::island::IslandMap;
use crate::rules::TypeRules;
use crate::structure::{footprint_seq, in_footprint, Structure};
use crate::unit::Unit;
use crate::world::{bumped, first_island, lemma_first_island, nb, on_grid, DropError, Event, EventKind, World};
use crate::strs::{lower_all, lowercase};
use crate::text::chars_of;

verus! {

/// The footprint width a type's rules give: at least one cell.
pub open spec fn fx_of(r: TypeRules) -> int {
    if r.foot_x >= 1 { r.foot_x as int } else { 1 }
}

pub open spec fn fy_of(r: TypeRules) -> int {
    if r.foot_y >= 1 { r.foot_y as int } else { 1 }
}

/// The cells a drop of `r` with its hotspot at `cell` covers, row by row
/// from the hotspot.
pub open spec fn site(r: TypeRules, cell: Cell) -> Seq<Cell> {
    footprint_seq(cell, fx_of(r), fy_of(r))
}

/// The site and the cells round it lie where ground can be, and the
/// footprint is at most 65536 cells each way.
pub open spec fn site_fits(r: TypeRules, cell: Cell) -> bool {
    &&& fx_of(r) <= 0x10000 && fy_of(r) <= 0x10000
    &&& fx_of(r) * fy_of(r) <= usize::MAX
    &&& -0x4000_0000 < cell.x - fx_of(r) && cell.x + 1 < 0x4000_0000
    &&& -0x4000_0000 < cell.y - fy_of(r) && cell.y + 1 < 0x4000_0000
}

/// The cell a unit stands on.
pub open spec fn unit_cell(u: Unit) -> Cell {
    cell_at(u.pos.x as int / u.subcell as int, u.pos.y as int / u.subcell as int)
}

/// The first cell of `cells` that `p` holds of.
pub open spec fn first_where(cells: Seq<Cell>, p: spec_fn(Cell) -> bool) -> Option<Cell>
    decreases cells.len(),
{
    if cells.len() == 0 {
        None
    } else {
        match first_where(cells.drop_last(), p) {
            Some(c) => Some(c),
            None => if p(cells.last()) { Some(cells.last()) } else { None },
        }
    }
}

proof fn lemma_first_where(cells: Seq<Cell>, p: spec_fn(Cell) -> bool)
    ensures
        first_where(cells, p) is None <==> forall|k: int| 0 <= k < cells.len() ==> !p(#[trigger] cells[k]),
        first_where(cells, p) matches Some(c) ==> p(c),
    decreases cells.len(),
{
    if cells.len() > 0 {
        lemma_first_where(cells.drop_last(), p);
        if first_where(cells.drop_last(), p) is None && !p(cells.last()) {
            assert forall|k: int| 0 <= k < cells.len() implies !p(#[trigger] cells[k]) by {
                if k < cells.len() - 1 {
                    assert(cells[k] == cells.drop_last()[k]);
                }
            }
        }
        if first_where(cells.drop_last(), p) is Some {
            let k = choose|k: int| 0 <= k < cells.len() - 1 && p(#[trigger] cells.drop_last()[k]);
            assert(cells[k] == cells.drop_last()[k]);
        }
    }
}

/// The drop refusals of the footprint, each cell in turn.
pub open spec fn first_error(w: World, r: TypeRules, cells: Seq<Cell>) -> Option<DropError>
    decreases cells.len(),
{
    if cells.len() == 0 {
        None
    } else {
        match first_error(w, r, cells.drop_last()) {
            Some(e) => Some(e),
            None => w.cell_error(r, cells.last()),
        }
    }
}

impl World {
    /// Whether a structure covers `c`.
    pub open spec fn spec_occupied(&self, c: Cell) -> bool {
        exists|i: int| 0 <= i < self.structures@.len()
            && in_footprint((#[trigger] self.structures@[i]).cell, self.structures@[i].foot_x as int, self.structures@[i].foot_y as int, c)
    }

    /// Whether a living unit stands on `c`.
    pub open spec fn spec_unit_at(&self, c: Cell) -> bool {
        exists|i: int| 0 <= i < self.units@.len() && (#[trigger] self.units@[i]).alive && unit_cell(self.units@[i]) == c
    }

    /// Why one footprint cell refuses a drop of `r`, if it does.
    pub open spec fn cell_error(&self, r: TypeRules, c: Cell) -> Option<DropError> {
        if !r.creates_island && !self.spec_is_land(c) {
            Some(DropError::NotGround(c))
        } else if self.spec_occupied(c) {
            Some(DropError::Occupied(c))
        } else if !r.may_drop_on_rim && self.spec_is_rim(c) {
            Some(DropError::OnRim(c))
        } else if self.spec_unit_at(c) {
            Some(DropError::UnitInTheWay(c))
        } else {
            None
        }
    }

    /// Whether `c` has an open bridge end beside it.
    pub open spec fn touches_end(&self, c: Cell) -> bool {
        exists|d: int| 0 <= d < 4 && self.spec_is_open_end(#[trigger] nb(c, d))
    }

    pub open spec fn land_pred(&self) -> spec_fn(Cell) -> bool {
        |c: Cell| self.spec_is_land(c)
    }

    pub open spec fn sky_pred(&self) -> spec_fn(Cell) -> bool {
        |c: Cell| !self.spec_is_land(c)
    }

    pub open spec fn bridge_pred(&self) -> spec_fn(Cell) -> bool {
        |c: Cell| self.spec_is_bridge(c)
    }

    pub open spec fn end_pred(&self) -> spec_fn(Cell) -> bool {
        |c: Cell| self.touches_end(c)
    }

    /// Why the site refuses a drop of `r` with its hotspot at `cell`: a
    /// type that makes its own island sits wholly in the sky (against an
    /// open bridge end, on no bridge) or wholly on land; any other type
    /// wholly on land; no cell under a structure or a living unit, and no
    /// cell on a rim unless the type may sit there.
    pub open spec fn spec_site_error(&self, r: TypeRules, cell: Cell) -> Option<DropError> {
        let cells = site(r, cell);
        let land = self.land_pred();
        let sky = self.sky_pred();
        let bridge = self.bridge_pred();
        let end = self.end_pred();
        if r.creates_island && first_where(cells, land) is None {
            match first_where(cells, bridge) {
                Some(c) => Some(DropError::NotGround(c)),
                None => if first_where(cells, end) is None { Some(DropError::NotAtBridgeEnd) } else { first_error(*self, r, cells) },
            }
        } else if r.creates_island && first_where(cells, sky) is Some {
            Some(DropError::Straddling(first_where(cells, sky)->0))
        } else {
            first_error(*self, r, cells)
        }
    }

    /// Units stand on cells the grid can name, and structures keep their
    /// footprints of at most 65536 cells each way on it.
    pub open spec fn drop_wf(&self) -> bool {
        &&& self.wf()
        &&& forall|i: int| 0 <= i < self.units@.len() ==> (#[trigger] self.units@[i]).subcell >= 1
        &&& forall|i: int| 0 <= i < self.structures@.len() ==> {
            let s = #[trigger] self.structures@[i];
            &&& 1 <= s.foot_x <= 0x10000 && 1 <= s.foot_y <= 0x10000
            &&& on_grid(s.cell)
        }
        &&& forall|c: Cell| #[trigger] self.doomed@.dom().contains(c) ==> crate::world::inside(c)
        &&& self.drops.max_players >= 1
        &&& self.powers@.len() == self.drops.max_players
        &&& self.known_tech@.len() == self.drops.max_players
        &&& 1 <= self.drops.cell_w <= 4096 && 1 <= self.drops.cell_h <= 4096
        &&& 0 <= self.drops.energy_range_px <= 0x10_0000
    }

    /// Whether a structure covers `cell`.
    pub fn occupied(&self, cell: Cell) -> (r: bool)
        requires
            self.drop_wf(),
        ensures
            r == self.spec_occupied(cell),
    {
        let mut i: usize = 0;
        while i < self.structures.len()
            invariant
                self.drop_wf(),
                i <= self.structures@.len(),
                forall|k: int| 0 <= k < i ==> !in_footprint((#[trigger] self.structures@[k]).cell,
                    self.structures@[k].foot_x as int, self.structures@[k].foot_y as int, cell),
            decreases self.structures@.len() - i,
        {
            let s = &self.structures[i];
            let dx = s.cell.x as i64 - cell.x as i64;
            let dy = s.cell.y as i64 - cell.y as i64;
            if 0 <= dx && dx < s.foot_x as i64 && 0 <= dy && dy < s.foot_y as i64 {
                return true;
            }
            i = i + 1;
        }
        false
    }

    /// Whether a living unit stands on `cell`.
    pub fn unit_at(&self, cell: Cell) -> (r: bool)
        requires
            self.drop_wf(),
        ensures
            r == self.spec_unit_at(cell),
    {
        let mut i: usize = 0;
        while i < self.units.len()
            invariant
                self.drop_wf(),
                i <= self.units@.len(),
                forall|k: int| 0 <= k < i ==> !((#[trigger] self.units@[k]).alive && unit_cell(self.units@[k]) == cell),
            decreases self.units@.len() - i,
        {
            let u = &self.units[i];
            if u.alive {
                let c = u.cell();
                if c.x == cell.x && c.y == cell.y {
                    return true;
                }
            }
            i = i + 1;
        }
        false
    }

    fn cell_refusal(&self, r: &TypeRules, c: Cell) -> (e: Option<DropError>)
        requires
            self.drop_wf(),
            on_grid(c),
        ensures
            e == self.cell_error(*r, c),
    {
        if !r.creates_island && !self.is_land(c) {
            Some(DropError::NotGround(c))
        } else if self.occupied(c) {
            Some(DropError::Occupied(c))
        } else if !r.may_drop_on_rim && self.is_rim(c) {
            Some(DropError::OnRim(c))
        } else if self.unit_at(c) {
            Some(DropError::UnitInTheWay(c))
        } else {
            None
        }
    }

    fn touches_open_end(&self, c: Cell) -> (t: bool)
        requires
            self.wf(),
            -0x7000_0000 < c.x - 1 && c.x + 1 < 0x7000_0000,
            -0x7000_0000 < c.y - 1 && c.y + 1 < 0x7000_0000,
        ensures
            t == self.touches_end(c),
    {
        let n0 = Cell::new(c.x, c.y - 1);
        let n1 = Cell::new(c.x + 1, c.y);
        let n2 = Cell::new(c.x, c.y + 1);
        let n3 = Cell::new(c.x - 1, c.y);
        proof {
            assert(n0 == nb(c, 0) && n1 == nb(c, 1) && n2 == nb(c, 2) && n3 == nb(c, 3));
        }
        let t = self.is_open_end(n0) || self.is_open_end(n1) || self.is_open_end(n2) || self.is_open_end(n3);
        proof {
            if !t {
                assert forall|d: int| 0 <= d < 4 implies !self.spec_is_open_end(#[trigger] nb(c, d)) by {}
            }
        }
        t
    }
}

impl World {
    /// Whether a drop of `rules` with its hotspot at `cell` fits the site;
    /// the reason when not (see [`World::spec_site_error`]).
    pub fn can_drop(&self, rules: &TypeRules, cell: Cell) -> (r: Result<(), DropError>)
        requires
            self.drop_wf(),
            site_fits(*rules, cell),
        ensures
            match self.spec_site_error(*rules, cell) {
                Some(e) => r == Err::<(), DropError>(e),
                None => r is Ok,
            },
    {
        let cells = footprint(cell, (rules.foot_x, rules.foot_y));
        let ghost cs = cells@;
        let ghost land = self.land_pred();
        let ghost sky = self.sky_pred();
        let ghost bridge = self.bridge_pred();
        let ghost end = self.end_pred();
        proof {
            assert(cs == site(*rules, cell));
            assert forall|k: int| 0 <= k < cs.len() implies {
                &&& cell.x - fx_of(*rules) < (#[trigger] cs[k]).x <= cell.x
                &&& cell.y - fy_of(*rules) < cs[k].y <= cell.y
            } by {
                let fx = fx_of(*rules);
                assert(0 <= k % fx < fx && 0 <= k / fx) by (nonlinear_arith) requires fx >= 1, k >= 0;
                assert(k / fx < fy_of(*rules)) by (nonlinear_arith) requires fx >= 1, 0 <= k < fx * fy_of(*rules);
            }
        }
        // Find the first land, sky, bridge and open-end-touching cells.
        let mut first_land: Option<Cell> = None;
        let mut first_sky: Option<Cell> = None;
        let mut first_bridge: Option<Cell> = None;
        let mut any_end = false;
        let mut i: usize = 0;
        while i < cells.len()
            invariant
                self.drop_wf(),
                site_fits(*rules, cell),
                cells@ == cs,
                i <= cs.len(),
                forall|k: int| 0 <= k < cs.len() ==> cell.x - fx_of(*rules) < (#[trigger] cs[k]).x <= cell.x
                    && cell.y - fy_of(*rules) < cs[k].y <= cell.y,
                first_land == first_where(cs.subrange(0, i as int), land),
                first_sky == first_where(cs.subrange(0, i as int), sky),
                first_bridge == first_where(cs.subrange(0, i as int), bridge),
                any_end == (first_where(cs.subrange(0, i as int), end) is Some),
                land == self.land_pred(),
                sky == self.sky_pred(),
                bridge == self.bridge_pred(),
                end == self.end_pred(),
            decreases cs.len() - i,
        {
            let c = cells[i];
            let l = self.is_land(c);
            let b = self.is_bridge(c);
            let e = self.touches_open_end(c);
            proof {
                let t = cs.subrange(0, i + 1);
                assert(t.drop_last() =~= cs.subrange(0, i as int));
                assert(t.last() == c);
            }
            if first_land.is_none() && l { first_land = Some(c); }
            if first_sky.is_none() && !l { first_sky = Some(c); }
            if first_bridge.is_none() && b { first_bridge = Some(c); }
            if e { any_end = true; }
            proof {
                let t = cs.subrange(0, i + 1);
                if first_where(cs.subrange(0, i as int), end) is Some {
                    assert(first_where(t, end) is Some);
                }
            }
            i = i + 1;
        }
        proof {
            assert(cs.subrange(0, cs.len() as int) =~= cs);
        }
        if rules.creates_island && first_land.is_none() {
            if let Some(c) = first_bridge {
                return Err(DropError::NotGround(c));
            }
            if !any_end {
                return Err(DropError::NotAtBridgeEnd);
            }
        } else if rules.creates_island && first_sky.is_some() {
            let c = first_sky.unwrap();
            return Err(DropError::Straddling(c));
        }
        // Each cell in turn.
        proof {
            assert(self.spec_site_error(*rules, cell) == first_error(*self, *rules, cs));
        }
        let mut j: usize = 0;
        while j < cells.len()
            invariant
                self.drop_wf(),
                cells@ == cs,
                j <= cs.len(),
                forall|k: int| 0 <= k < cs.len() ==> cell.x - fx_of(*rules) < (#[trigger] cs[k]).x <= cell.x
                    && cell.y - fy_of(*rules) < cs[k].y <= cell.y,
                site_fits(*rules, cell),
                self.spec_site_error(*rules, cell) == first_error(*self, *rules, cs),
                first_error(*self, *rules, cs.subrange(0, j as int)) is None,
            decreases cs.len() - j,
        {
            let c = cells[j];
            let e = self.cell_refusal(rules, c);
            proof {
                let t = cs.subrange(0, j + 1);
                assert(t.drop_last() =~= cs.subrange(0, j as int));
            }
            if let Some(err) = e {
                proof {
                    assert(first_error(*self, *rules, cs.subrange(0, j + 1)) == Some(err));
                    lemma_first_error_prefix(*self, *rules, cs, j + 1);
                }
                return Err(err);
            }
            j = j + 1;
        }
        Ok(())
    }
}

/// Once a prefix of the cells refuses, the whole list refuses the same way.
proof fn lemma_first_error_prefix(w: World, r: TypeRules, cs: Seq<Cell>, n: int)
    requires
        0 <= n <= cs.len(),
        first_error(w, r, cs.subrange(0, n)) is Some,
    ensures
        first_error(w, r, cs) == first_error(w, r, cs.subrange(0, n)),
    decreases cs.len() - n,
{
    if n < cs.len() {
        let t = cs.subrange(0, n + 1);
        assert(t.drop_last() =~= cs.subrange(0, n));
        lemma_first_error_prefix(w, r, cs, n + 1);
    } else {
        assert(cs.subrange(0, n) =~= cs);
    }
}

/// The centre of a footprint, rounded towards the hotspot.
pub open spec fn centre_of(at: Cell, fx: int, fy: int) -> Cell {
    cell_at(at.x + trunc_half(1 - fx), at.y + trunc_half(1 - fy))
}

/// A cell's centre in pixels, on cells `w` x `h` pixels.
pub open spec fn centre_px(c: Cell, w: int, h: int) -> (int, int) {
    (c.x * w + w / 2, c.y * h + h / 2)
}

/// Energy sources among `ss` that belong to `owner`, are built, and reach
/// the pixel `at` (within `r`): those of `theme`, and all of them.
pub open spec fn sources(ss: Seq<Structure>, owner: u8, at: (int, int), theme: crate::isle::Theme, w: int, h: int, r: int) -> (nat, nat)
    decreases ss.len(),
{
    if ss.len() == 0 {
        (0, 0)
    } else {
        let (t, a) = sources(ss.drop_last(), owner, at, theme, w, h, r);
        let s = ss.last();
        let p = centre_px(centre_of(s.cell, s.foot_x as int, s.foot_y as int), w, h);
        match s.produces {
            Some(th) => if s.owner == owner && s.building == 0
                && (p.0 - at.0) * (p.0 - at.0) + (p.1 - at.1) * (p.1 - at.1) <= r * r {
                (t + if th == theme { 1nat } else { 0nat }, a + 1)
            } else {
                (t, a)
            },
            None => (t, a),
        }
    }
}

pub open spec fn sat8(n: nat) -> int {
    if n > 255 { 255 } else { n as int }
}

impl World {
    /// Whether an enemy of `owner` has a Temple or Outpost on island `i`.
    pub open spec fn warded_against(&self, owner: u8, i: int) -> bool {
        exists|k: int| 0 <= k < self.structures@.len() && {
            let s = #[trigger] self.structures@[k];
            &&& s.is_temple || s.is_outpost
            &&& first_island(self.islands@, centre_of(s.cell, s.foot_x as int, s.foot_y as int)) == Some(i)
            &&& s.owner != owner
        }
    }

    /// Whether `owner` may build on island `i`: their own, or a neutral one
    /// no enemy Temple or Outpost wards.
    pub open spec fn spec_may_build(&self, owner: u8, i: int) -> bool {
        match self.island_owners@[i] {
            Some(o) => o == owner,
            None => !self.warded_against(owner, i),
        }
    }

    /// Whether `owner` may build on the cell.
    pub open spec fn allowed(&self, owner: u8, c: Cell) -> bool {
        match first_island(self.islands@, c) {
            Some(i) => self.spec_may_build(owner, i),
            None => self.spec_ground_owner(c) == Some(owner),
        }
    }

    /// Whether `owner`'s own bridge end touches `c`.
    pub open spec fn own_end_by(&self, owner: u8, c: Cell) -> bool {
        exists|d: int| 0 <= d < 4 && self.spec_is_open_end(#[trigger] nb(c, d))
            && self.bridge_owners@.dom().contains(nb(c, d)) && self.bridge_owners@[nb(c, d)] == owner
    }

    /// On land every footprint cell must be the owner's to build on; in
    /// the sky an open end of the owner's must touch the footprint.
    pub open spec fn spec_owns_site(&self, owner: u8, r: TypeRules, cell: Cell) -> bool {
        let cells = site(r, cell);
        if first_where(cells, self.land_pred()) is Some {
            forall|k: int| 0 <= k < cells.len() ==> self.allowed(owner, #[trigger] cells[k])
        } else {
            exists|k: int| 0 <= k < cells.len() && self.own_end_by(owner, #[trigger] cells[k])
        }
    }

    /// The Energy sources reaching the site's centre: (of the need's theme, all).
    pub open spec fn site_energy(&self, owner: u8, r: TypeRules, cell: Cell, theme: crate::isle::Theme) -> (nat, nat) {
        sources(self.structures@, owner,
            centre_px(centre_of(cell, fx_of(r), fy_of(r)), self.drops.cell_w as int, self.drops.cell_h as int),
            theme, self.drops.cell_w as int, self.drops.cell_h as int, self.drops.energy_range_px as int)
    }

    /// Why the site lacks the Energy `r` needs, if it does.
    pub open spec fn spec_energy_error(&self, owner: u8, r: TypeRules, cell: Cell) -> Option<DropError> {
        match r.energy {
            None => None,
            Some(need) => {
                let (t, a) = self.site_energy(owner, r, cell, need.theme);
                let themed = sat8(t);
                let all = sat8(a);
                if (need.theme == crate::isle::Theme::Sun || themed >= need.themed) && all >= need.themed + need.any {
                    None
                } else {
                    let used = if themed <= need.themed { themed } else { need.themed as int };
                    Some(DropError::NotEnoughEnergy { need, themed: themed as u8, any: (if all >= used { all - used } else { 0 }) as u8 })
                }
            },
        }
    }

    /// Whether `kind` is one a Temple provides.
    pub open spec fn spec_temple_type(&self, kind: Seq<char>) -> bool {
        exists|k: int| 0 <= k < self.drops.temple_types@.len()
            && lower_all((#[trigger] self.drops.temple_types@[k])@) == lower_all(kind)
    }

    /// Whether `owner` has a finished Temple.
    pub open spec fn has_temple(&self, owner: u8) -> bool {
        exists|i: int| 0 <= i < self.structures@.len() && (#[trigger] self.structures@[i]).is_temple
            && self.structures@[i].building == 0 && self.structures@[i].owner == owner
    }

    /// Whether one of `owner`'s structures has `kind` in production.
    pub open spec fn spec_in_production(&self, owner: u8, kind: Seq<char>) -> bool {
        exists|i: int, k: int| 0 <= i < self.structures@.len() && (#[trigger] self.structures@[i]).owner == owner
            && 0 <= k < self.structures@[i].production@.len()
            && lower_all((#[trigger] self.structures@[i].production@[k])@) == lower_all(kind)
    }

    /// Temple-provided types need a finished Temple; other types that need
    /// Energy must be in production at one of the owner's Workshops.
    pub open spec fn spec_production_error(&self, owner: u8, kind: Seq<char>, r: TypeRules) -> Option<DropError> {
        if self.spec_temple_type(kind) {
            if self.has_temple(owner) { None } else { Some(DropError::NoTemple) }
        } else if r.energy is None {
            None
        } else if self.spec_in_production(owner, kind) {
            None
        } else {
            Some(DropError::NotInProduction)
        }
    }
}

impl World {
    /// Whether `owner` may build on island `i`: their own, or a neutral one
    /// no enemy Temple or Outpost wards.
    pub fn may_build_on_island(&self, owner: u8, i: usize) -> (r: bool)
        requires
            self.drop_wf(),
            i < self.islands@.len(),
        ensures
            r == self.spec_may_build(owner, i as int),
    {
        match self.island_owners[i] {
            Some(o) => o == owner,
            None => {
                let mut k: usize = 0;
                while k < self.structures.len()
                    invariant
                        self.drop_wf(),
                        i < self.islands@.len(),
                        self.island_owners@[i as int] is None,
                        k <= self.structures@.len(),
                        forall|m: int| 0 <= m < k ==> {
                            let s = #[trigger] self.structures@[m];
                            !((s.is_temple || s.is_outpost)
                                && first_island(self.islands@, centre_of(s.cell, s.foot_x as int, s.foot_y as int)) == Some(i as int)
                                && s.owner != owner)
                        },
                    decreases self.structures@.len() - k,
                {
                    let s = &self.structures[k];
                    if (s.is_temple || s.is_outpost) && s.owner != owner {
                        let c = s.centre();
                        proof {
                            assert(c == centre_of(s.cell, s.foot_x as int, s.foot_y as int));
                        }
                        if self.island_at(c) == Some(i) {
                            proof {
                                assert(self.structures@[k as int] == *s);
                                assert(self.warded_against(owner, i as int));
                            }
                            return false;
                        }
                    }
                    k = k + 1;
                }
                true
            },
        }
    }

    fn allowed_cell(&self, owner: u8, c: Cell) -> (r: bool)
        requires
            self.drop_wf(),
        ensures
            r == self.allowed(owner, c),
    {
        proof {
            lemma_first_island(self.islands@, c);
        }
        match self.island_at(c) {
            Some(i) => self.may_build_on_island(owner, i),
            None => self.ground_owner(c) == Some(owner),
        }
    }

    fn own_end_near(&self, owner: u8, c: Cell) -> (r: bool)
        requires
            self.wf(),
            -0x7000_0000 < c.x - 1 && c.x + 1 < 0x7000_0000,
            -0x7000_0000 < c.y - 1 && c.y + 1 < 0x7000_0000,
        ensures
            r == self.own_end_by(owner, c),
    {
        let n0 = Cell::new(c.x, c.y - 1);
        let n1 = Cell::new(c.x + 1, c.y);
        let n2 = Cell::new(c.x, c.y + 1);
        let n3 = Cell::new(c.x - 1, c.y);
        proof {
            assert(n0 == nb(c, 0) && n1 == nb(c, 1) && n2 == nb(c, 2) && n3 == nb(c, 3));
        }
        let r = (self.is_open_end(n0) && self.bridge_owners.get(n0) == Some(owner))
            || (self.is_open_end(n1) && self.bridge_owners.get(n1) == Some(owner))
            || (self.is_open_end(n2) && self.bridge_owners.get(n2) == Some(owner))
            || (self.is_open_end(n3) && self.bridge_owners.get(n3) == Some(owner));
        proof {
            if !r {
                assert forall|d: int| 0 <= d < 4 implies !(self.spec_is_open_end(#[trigger] nb(c, d))
                    && self.bridge_owners@.dom().contains(nb(c, d)) && self.bridge_owners@[nb(c, d)] == owner) by {}
            }
        }
        r
    }

    /// Ownership for drops: on land, every footprint cell must be the
    /// owner's to build on; in the sky, an open end of the owner's must
    /// touch the footprint.
    pub fn check_ownership(&self, owner: u8, rules: &TypeRules, cell: Cell) -> (r: Result<(), DropError>)
        requires
            self.drop_wf(),
            site_fits(*rules, cell),
        ensures
            r == (if self.spec_owns_site(owner, *rules, cell) { Ok::<(), DropError>(()) } else { Err(DropError::NotOwnGround) }),
    {
        let cells = footprint(cell, (rules.foot_x, rules.foot_y));
        let ghost cs = cells@;
        let ghost land = self.land_pred();
        proof {
            assert(cs == site(*rules, cell));
            assert forall|k: int| 0 <= k < cs.len() implies {
                &&& cell.x - fx_of(*rules) < (#[trigger] cs[k]).x <= cell.x
                &&& cell.y - fy_of(*rules) < cs[k].y <= cell.y
            } by {
                let fx = fx_of(*rules);
                assert(0 <= k % fx < fx && 0 <= k / fx) by (nonlinear_arith) requires fx >= 1, k >= 0;
                assert(k / fx < fy_of(*rules)) by (nonlinear_arith) requires fx >= 1, 0 <= k < fx * fy_of(*rules);
            }
        }
        let mut any_land = false;
        let mut all_allowed = true;
        let mut any_end = false;
        let mut i: usize = 0;
        while i < cells.len()
            invariant
                self.drop_wf(),
                site_fits(*rules, cell),
                cells@ == cs,
                land == self.land_pred(),
                i <= cs.len(),
                forall|k: int| 0 <= k < cs.len() ==> cell.x - fx_of(*rules) < (#[trigger] cs[k]).x <= cell.x
                    && cell.y - fy_of(*rules) < cs[k].y <= cell.y,
                any_land == (first_where(cs.subrange(0, i as int), land) is Some),
                all_allowed == (forall|k: int| 0 <= k < i ==> self.allowed(owner, #[trigger] cs[k])),
                any_end == (exists|k: int| 0 <= k < i && self.own_end_by(owner, #[trigger] cs[k])),
            decreases cs.len() - i,
        {
            let c = cells[i];
            let l = self.is_land(c);
            let a = self.allowed_cell(owner, c);
            let e = self.own_end_near(owner, c);
            proof {
                let t = cs.subrange(0, i + 1);
                assert(t.drop_last() =~= cs.subrange(0, i as int));
                assert(t.last() == c);
                lemma_first_where(t, land);
                lemma_first_where(cs.subrange(0, i as int), land);
                if any_land {
                    assert(first_where(t, land) is Some);
                }
            }
            if l { any_land = true; }
            if !a { all_allowed = false; }
            if e { any_end = true; }
            proof {
                if !a {
                    assert(!self.allowed(owner, cs[i as int]));
                }
                if e {
                    assert(self.own_end_by(owner, cs[i as int]));
                }
            }
            i = i + 1;
        }
        proof {
            assert(cs.subrange(0, cs.len() as int) =~= cs);
        }
        let ok = if any_land { all_allowed } else { any_end };
        if ok { Ok(()) } else { Err(DropError::NotOwnGround) }
    }

    /// Whether `owner` holds Knowledge bit `bit`.
    pub fn knows_tech(&self, owner: u8, bit: u8) -> (r: bool)
        requires
            self.drop_wf(),
        ensures
            r == self.known_tech@[(owner as int) % (self.drops.max_players as int)]@.contains(bit),
    {
        let slot = (owner as usize) % self.drops.max_players;
        let known = &self.known_tech[slot];
        proof {
            assert(slot as int == (owner as int) % (self.drops.max_players as int));
            assert(known@ == self.known_tech@[slot as int]@);
        }
        let mut k: usize = 0;
        while k < known.len()
            invariant
                self.drop_wf(),
                slot as int == (owner as int) % (self.drops.max_players as int),
                known@ == self.known_tech@[slot as int]@,
                k <= known@.len(),
                forall|m: int| 0 <= m < k ==> known@[m] != bit,
            decreases known@.len() - k,
        {
            if known[k] == bit {
                proof {
                    assert(known@[k as int] == bit);
                }
                return true;
            }
            k = k + 1;
        }
        false
    }
}

fn same_chars(a: &[char], b: &[char]) -> (r: bool)
    ensures
        r == (a@ == b@),
{
    if a.len() != b.len() {
        return false;
    }
    let mut i: usize = 0;
    while i < a.len()
        invariant
            a@.len() == b@.len(),
            i <= a@.len(),
            forall|k: int| 0 <= k < i ==> a@[k] == b@[k],
        decreases a@.len() - i,
    {
        if a[i] != b[i] {
            return false;
        }
        i = i + 1;
    }
    assert(a@ =~= b@);
    true
}

/// `a` and `b` are equal but for ASCII case.
fn same_ignoring_case(a: &str, b: &str) -> (r: bool)
    ensures
        r == (lower_all(a@) == lower_all(b@)),
{
    let la = lowercase(chars_of(a).as_slice());
    let lb = lowercase(chars_of(b).as_slice());
    same_chars(la.as_slice(), lb.as_slice())
}

/// Pixel `v * size + size / 2`: the centre of cell coordinate `v`.
fn pixel(v: i64, size: i128) -> (r: i128)
    requires
        -0x1_0000_0000 < v < 0x1_0000_0000,
        1 <= size <= 4096,
    ensures
        r == v * size + size / 2,
        -0x8000_0000_0000 < r < 0x8000_0000_0000,
{
    assert(-0x1000_0000_0000 < v * size < 0x1000_0000_0000) by (nonlinear_arith)
        requires -0x1_0000_0000 < v < 0x1_0000_0000, 1 <= size <= 4096;
    (v as i128) * size + size / 2
}

impl World {
    /// Energy sources of `owner` whose reach covers `cell`'s centre,
    /// counted by theme: (those of `theme`, all), each at most 255.
    pub fn energy_at(&self, owner: u8, cell: Cell, theme: crate::isle::Theme) -> (r: (u8, u8))
        requires
            self.drop_wf(),
        ensures
            ({
                let (t, a) = sources(self.structures@, owner,
                    centre_px(cell, self.drops.cell_w as int, self.drops.cell_h as int),
                    theme, self.drops.cell_w as int, self.drops.cell_h as int, self.drops.energy_range_px as int);
                r.0 == sat8(t) && r.1 == sat8(a)
            }),
    {
        let w = self.drops.cell_w as i128;
        let h = self.drops.cell_h as i128;
        let range = self.drops.energy_range_px as i128;
        let px = pixel(cell.x as i64, w);
        let py = pixel(cell.y as i64, h);
        let ghost at = centre_px(cell, w as int, h as int);
        let mut t: u64 = 0;
        let mut a: u64 = 0;
        let mut k: usize = 0;
        while k < self.structures.len()
            invariant
                self.drop_wf(),
                w == self.drops.cell_w && h == self.drops.cell_h && range == self.drops.energy_range_px,
                at == (px as int, py as int),
                -0x8000_0000_0000 < px < 0x8000_0000_0000 && -0x8000_0000_0000 < py < 0x8000_0000_0000,
                k <= self.structures@.len(),
                t <= k && a <= k,
                (t as nat, a as nat) == sources(self.structures@.subrange(0, k as int), owner, at, theme, w as int, h as int, range as int),
            decreases self.structures@.len() - k,
        {
            let s = &self.structures[k];
            let c = s.centre();
            let spx = pixel(c.x as i64, w);
            let spy = pixel(c.y as i64, h);
            let dx = spx - px;
            let dy = spy - py;
            proof {
                assert(c == centre_of(s.cell, s.foot_x as int, s.foot_y as int));
                let sub = self.structures@.subrange(0, k + 1);
                assert(sub.drop_last() =~= self.structures@.subrange(0, k as int));
                assert(sub.last() == *s);
                assert(0 <= dx * dx <= 0x4_0000_0000_0000_0000_0000_0000) by (nonlinear_arith)
                    requires -0x1_0000_0000_0000 < dx < 0x1_0000_0000_0000;
                assert(0 <= dy * dy <= 0x4_0000_0000_0000_0000_0000_0000) by (nonlinear_arith)
                    requires -0x1_0000_0000_0000 < dy < 0x1_0000_0000_0000;
                assert(0 <= range * range <= 0x100_0000_0000) by (nonlinear_arith)
                    requires 0 <= range <= 0x10_0000;
            }
            match s.produces {
                Some(th) => {
                    if s.owner == owner && s.building == 0 && dx * dx + dy * dy <= range * range {
                        a = a + 1;
                        if th == theme {
                            t = t + 1;
                        }
                    }
                },
                None => {},
            }
            k = k + 1;
        }
        proof {
            assert(self.structures@.subrange(0, self.structures@.len() as int) =~= self.structures@);
        }
        let t8: u8 = if t > 255 { 255 } else { t as u8 };
        let a8: u8 = if a > 255 { 255 } else { a as u8 };
        (t8, a8)
    }

    fn count_energy(&self, owner: u8, rules: &TypeRules, cell: Cell, theme: crate::isle::Theme) -> (r: (u8, u8))
        requires
            self.drop_wf(),
            site_fits(*rules, cell),
        ensures
            r.0 == sat8(self.site_energy(owner, *rules, cell, theme).0),
            r.1 == sat8(self.site_energy(owner, *rules, cell, theme).1),
    {
        let fx: i32 = if rules.foot_x >= 1 { rules.foot_x } else { 1 };
        let fy: i32 = if rules.foot_y >= 1 { rules.foot_y } else { 1 };
        let centre = Cell::new(cell.x - (fx - 1) / 2, cell.y - (fy - 1) / 2);
        proof {
            assert(centre == centre_of(cell, fx_of(*rules), fy_of(*rules)));
        }
        self.energy_at(owner, centre, theme)
    }

    /// Whether `owner` has the Energy to place `rules` with its hotspot at
    /// `cell`: enough sources of the need's theme (any theme for Sun types)
    /// and enough in all reach the site's centre.
    pub fn check_energy(&self, owner: u8, rules: &TypeRules, cell: Cell) -> (r: Result<(), DropError>)
        requires
            self.drop_wf(),
            site_fits(*rules, cell),
        ensures
            match self.spec_energy_error(owner, *rules, cell) {
                Some(e) => r == Err::<(), DropError>(e),
                None => r is Ok,
            },
    {
        match rules.energy {
            None => Ok(()),
            Some(need) => {
                let (themed, all) = self.count_energy(owner, rules, cell, need.theme);
                let total: u16 = need.themed as u16 + need.any as u16;
                let sun = match need.theme { crate::isle::Theme::Sun => true, _ => false };
                if (sun || themed >= need.themed) && all as u16 >= total {
                    Ok(())
                } else {
                    let used = if themed <= need.themed { themed } else { need.themed };
                    let any = if all >= used { all - used } else { 0 };
                    Err(DropError::NotEnoughEnergy { need, themed, any })
                }
            },
        }
    }

    fn temple_type(&self, kind: &str) -> (r: bool)
        requires
            self.drop_wf(),
        ensures
            r == self.spec_temple_type(kind@),
    {
        let mut k: usize = 0;
        while k < self.drops.temple_types.len()
            invariant
                k <= self.drops.temple_types@.len(),
                forall|m: int| 0 <= m < k ==> lower_all((#[trigger] self.drops.temple_types@[m])@) != lower_all(kind@),
            decreases self.drops.temple_types@.len() - k,
        {
            if same_ignoring_case(self.drops.temple_types[k].as_str(), kind) {
                return true;
            }
            k = k + 1;
        }
        false
    }

    fn owns_temple(&self, owner: u8) -> (r: bool)
        requires
            self.drop_wf(),
        ensures
            r == self.has_temple(owner),
    {
        let mut k: usize = 0;
        while k < self.structures.len()
            invariant
                k <= self.structures@.len(),
                forall|m: int| 0 <= m < k ==> !((#[trigger] self.structures@[m]).is_temple
                    && self.structures@[m].building == 0 && self.structures@[m].owner == owner),
            decreases self.structures@.len() - k,
        {
            let s = &self.structures[k];
            if s.is_temple && s.building == 0 && s.owner == owner {
                return true;
            }
            k = k + 1;
        }
        false
    }

    /// Whether one of `owner`'s structures has `kind` in production.
    pub fn in_production(&self, owner: u8, kind: &str) -> (r: bool)
        requires
            self.drop_wf(),
        ensures
            r == self.spec_in_production(owner, kind@),
    {
        let mut i: usize = 0;
        while i < self.structures.len()
            invariant
                i <= self.structures@.len(),
                forall|m: int, k: int| 0 <= m < i && (#[trigger] self.structures@[m]).owner == owner
                    && 0 <= k < self.structures@[m].production@.len()
                    ==> lower_all((#[trigger] self.structures@[m].production@[k])@) != lower_all(kind@),
            decreases self.structures@.len() - i,
        {
            let s = &self.structures[i];
            if s.owner == owner {
                let mut k: usize = 0;
                while k < s.production.len()
                    invariant
                        i < self.structures@.len(),
                        *s == self.structures@[i as int],
                        s.owner == owner,
                        k <= s.production@.len(),
                        forall|m: int| 0 <= m < k ==> lower_all((#[trigger] s.production@[m])@) != lower_all(kind@),
                    decreases s.production@.len() - k,
                {
                    if same_ignoring_case(s.production[k].as_str(), kind) {
                        proof {
                            assert(lower_all(self.structures@[i as int].production@[k as int]@) == lower_all(kind@));
                        }
                        return true;
                    }
                    k = k + 1;
                }
            }
            i = i + 1;
        }
        false
    }

    /// Temple-provided types need a finished Temple of the owner's; other
    /// types that need Energy must be in production at one of the owner's
    /// Workshops.
    pub fn check_production(&self, owner: u8, kind: &str, rules: &TypeRules) -> (r: Result<(), DropError>)
        requires
            self.drop_wf(),
        ensures
            match self.spec_production_error(owner, kind@, *rules) {
                Some(e) => r == Err::<(), DropError>(e),
                None => r is Ok,
            },
    {
        if self.temple_type(kind) {
            return if self.owns_temple(owner) { Ok(()) } else { Err(DropError::NoTemple) };
        }
        if rules.energy.is_none() {
            return Ok(());
        }
        if self.in_production(owner, kind) { Ok(()) } else { Err(DropError::NotInProduction) }
    }
}

/// What a drop of `r` costs: nothing for a geyser, else its price.
pub open spec fn price(r: TypeRules) -> int {
    if r.is_geyser { 0 } else { r.cost as int }
}

/// The cells of `cells` that are sky in `w`.
pub open spec fn sky_cells(w: World, cells: Seq<Cell>) -> Set<Cell> {
    Set::new(|c: Cell| cells.contains(c) && !w.spec_is_land(c))
}

/// `s` is the structure a drop of `kind` by `owner` under `r` with its
/// hotspot at `cell` makes: the type's footprint, walking, hit points,
/// price, threat, role and Energy; a geyser's stock of crystals when the
/// rules say so; everything else at rest.
pub open spec fn made(s: Structure, kind: Seq<char>, r: TypeRules, cell: Cell, owner: u8, stock_from_cost: bool) -> bool {
    &&& s.kind@ == kind && s.cell == cell
    &&& s.foot_x == fx_of(r) && s.foot_y == fy_of(r) && s.walk == r.walk
    &&& s.drop_blocking == r.drop_blocking
    &&& s.stock == (if r.is_geyser && stock_from_cost { r.cost } else { 0 })
    &&& s.is_temple == r.is_temple && !s.is_outpost && s.is_altar == r.is_altar
    &&& s.owner == owner && s.hp == r.max_hit_points && s.max_hp == r.max_hit_points
    &&& s.cost == r.cost && s.threat == r.threat && s.produces == r.produces
    &&& s.weapon is None && s.cooldown == 0 && s.production@.len() == 0 && s.slots == 0
    &&& s.theme == crate::isle::Theme::Sun && s.launches is None && s.flyer is None && s.respawn == 0
    &&& s.building == 0 && s.build_ticks == 0 && s.level == 1
    &&& !s.is_obelisk && s.spell is None && s.paralysed == 0
    &&& s.aim is None && s.variant is None && s.id == 0 && s.target is None
}

impl World {
    /// Whether land lies beside `c`.
    pub open spec fn touches_land(&self, c: Cell) -> bool {
        exists|d: int| 0 <= d < 4 && self.spec_is_land(#[trigger] nb(c, d))
    }

    /// An owner's player slot.
    pub open spec fn slot_of(&self, owner: u8) -> int {
        (owner as int) % (self.drops.max_players as int)
    }

    /// Why a drop of `kind` by `owner` is refused, if it is: the site
    /// first; then, while drops are enforced, ownership, Knowledge, Energy
    /// and production; then the price against the owner's Storm Power.
    pub open spec fn spec_drop_error(&self, owner: u8, kind: Seq<char>, r: TypeRules, cell: Cell) -> Option<DropError> {
        match self.spec_site_error(r, cell) {
            Some(e) => Some(e),
            None => {
                let enforced = if !self.energy_enforced {
                    None
                } else if !self.spec_owns_site(owner, r, cell) {
                    Some(DropError::NotOwnGround)
                } else if r.tech_bit is Some && !self.known_tech@[self.slot_of(owner)]@.contains(r.tech_bit->0) {
                    Some(DropError::UnknownTech(r.tech_bit->0))
                } else {
                    match self.spec_energy_error(owner, r, cell) {
                        Some(e) => Some(e),
                        None => self.spec_production_error(owner, kind, r),
                    }
                };
                match enforced {
                    Some(e) => Some(e),
                    None => {
                        let have = self.powers@[self.slot_of(owner)];
                        if price(r) > have {
                            Some(DropError::NotEnoughPower { cost: price(r) as i32, have })
                        } else {
                            None
                        }
                    },
                }
            },
        }
    }

    /// Make platform ground, owned by `owner`, under the cells of `cells`
    /// that are sky. Whether any was.
    fn lay_platforms(&mut self, owner: u8, cells: &Vec<Cell>) -> (changed: bool)
        requires
            old(self).drop_wf(),
            forall|k: int| 0 <= k < cells@.len() ==> crate::world::inside(#[trigger] cells@[k]),
        ensures
            final(self).drop_wf(),
            final(self).platforms.view() == old(self).platforms.view().union(sky_cells(*old(self), cells@)),
            final(self).platform_owners@ == old(self).platform_owners@.union_prefer_right(
                Map::new(|c: Cell| sky_cells(*old(self), cells@).contains(c), |c: Cell| owner)),
            changed == !sky_cells(*old(self), cells@).is_empty(),
            final(self).islands == old(self).islands && final(self).island_owners == old(self).island_owners,
            final(self).island_neutral == old(self).island_neutral,
            final(self).bridges == old(self).bridges && final(self).bridge_owners == old(self).bridge_owners,
            final(self).doomed == old(self).doomed && final(self).events == old(self).events,
            final(self).structures == old(self).structures && final(self).units == old(self).units,
            final(self).powers == old(self).powers && final(self).known_tech == old(self).known_tech,
            final(self).drops == old(self).drops && final(self).energy_enforced == old(self).energy_enforced,
            final(self).terrain_version == old(self).terrain_version && final(self).bridge_version == old(self).bridge_version,
            final(self).structure_version == old(self).structure_version && final(self).crumble_ticks == old(self).crumble_ticks,
    {
        let ghost w0 = *self;
        let ghost sky = sky_cells(w0, cells@);
        let mut changed = false;
        let mut i: usize = 0;
        while i < cells.len()
            invariant
                self.drop_wf(),
                i <= cells@.len(),
                forall|k: int| 0 <= k < cells@.len() ==> crate::world::inside(#[trigger] cells@[k]),
                sky == sky_cells(w0, cells@),
                self.platforms.view() == w0.platforms.view().union(Set::new(|c: Cell| sky.contains(c) && cells@.subrange(0, i as int).contains(c))),
                self.platform_owners@ == w0.platform_owners@.union_prefer_right(
                    Map::new(|c: Cell| sky.contains(c) && cells@.subrange(0, i as int).contains(c), |c: Cell| owner)),
                changed == exists|k: int| 0 <= k < i && sky.contains(#[trigger] cells@[k]),
                self.islands == w0.islands && self.island_owners == w0.island_owners,
                self.island_neutral == w0.island_neutral,
                self.bridges == w0.bridges && self.bridge_owners == w0.bridge_owners,
                self.doomed == w0.doomed && self.events == w0.events,
                self.structures == w0.structures && self.units == w0.units,
                self.powers == w0.powers && self.known_tech == w0.known_tech,
                self.drops == w0.drops && self.energy_enforced == w0.energy_enforced,
                self.terrain_version == w0.terrain_version && self.bridge_version == w0.bridge_version,
                self.structure_version == w0.structure_version && self.crumble_ticks == w0.crumble_ticks,
            decreases cells@.len() - i,
        {
            let c = cells[i];
            let ghost before = *self;
            let is_sky = !self.is_land(c);
            proof {
                assert(self.spec_is_land(c) == (w0.spec_is_land(c) || (sky.contains(c)
                    && cells@.subrange(0, i as int).contains(c))));
                assert(cells@.contains(c));
            }
            if is_sky {
                self.platforms.insert(c);
                self.platform_owners.insert(c, owner);
                changed = true;
            }
            proof {
                let t = cells@.subrange(0, i + 1);
                let pre = cells@.subrange(0, i as int);
                assert(t =~= pre.push(c));
                assert forall|x: Cell| t.contains(x) <==> (pre.contains(x) || x == c) by {
                    if t.contains(x) {
                        let k = choose|k: int| 0 <= k < t.len() && t[k] == x;
                        if k < pre.len() {
                            assert(pre[k] == x);
                        }
                    }
                    if pre.contains(x) {
                        let k = choose|k: int| 0 <= k < pre.len() && pre[k] == x;
                        assert(t[k] == x);
                    }
                    if x == c {
                        assert(t[i as int] == x);
                    }
                }
                if is_sky {
                    assert(sky.contains(c));
                } else {
                    assert(!sky.contains(c) || pre.contains(c));
                }
                assert(self.platforms.view() =~= w0.platforms.view().union(Set::new(|x: Cell| sky.contains(x) && t.contains(x))));
                assert(self.platform_owners@ =~= w0.platform_owners@.union_prefer_right(
                    Map::new(|x: Cell| sky.contains(x) && t.contains(x), |x: Cell| owner)));
                assert forall|x: Cell| #[trigger] self.spec_is_ground(x) implies crate::world::inside(x) by {
                    if !before.spec_is_ground(x) {
                        assert(x == c);
                    }
                }
            }
            i = i + 1;
        }
        proof {
            assert(cells@.subrange(0, cells@.len() as int) =~= cells@);
            assert(Set::new(|c: Cell| sky.contains(c) && cells@.contains(c)) =~= sky);
        }
        changed
    }
}

impl World {
    fn beside_land(&self, c: Cell) -> (r: bool)
        requires
            self.wf(),
            crate::world::inside(c),
        ensures
            r == self.touches_land(c),
    {
        let n0 = Cell::new(c.x, c.y - 1);
        let n1 = Cell::new(c.x + 1, c.y);
        let n2 = Cell::new(c.x, c.y + 1);
        let n3 = Cell::new(c.x - 1, c.y);
        proof {
            assert(n0 == nb(c, 0) && n1 == nb(c, 1) && n2 == nb(c, 2) && n3 == nb(c, 3));
        }
        let r = self.is_land(n0) || self.is_land(n1) || self.is_land(n2) || self.is_land(n3);
        proof {
            if !r {
                assert forall|d: int| 0 <= d < 4 implies !self.spec_is_land(#[trigger] nb(c, d)) by {}
            }
        }
        r
    }

    /// Unsupported bridge cells that now have land beside them are
    /// supported again: their countdowns end.
    fn spare_doomed(&mut self)
        requires
            old(self).drop_wf(),
        ensures
            final(self).drop_wf(),
            final(self).doomed@ == old(self).doomed@.restrict(Set::new(|c: Cell| !old(self).touches_land(c))),
            final(self).islands == old(self).islands && final(self).island_owners == old(self).island_owners,
            final(self).island_neutral == old(self).island_neutral,
            final(self).platforms == old(self).platforms && final(self).platform_owners == old(self).platform_owners,
            final(self).bridges == old(self).bridges && final(self).bridge_owners == old(self).bridge_owners,
            final(self).events == old(self).events,
            final(self).structures == old(self).structures && final(self).units == old(self).units,
            final(self).powers == old(self).powers && final(self).known_tech == old(self).known_tech,
            final(self).drops == old(self).drops && final(self).energy_enforced == old(self).energy_enforced,
            final(self).terrain_version == old(self).terrain_version && final(self).bridge_version == old(self).bridge_version,
            final(self).structure_version == old(self).structure_version && final(self).crumble_ticks == old(self).crumble_ticks,
    {
        let ghost w0 = *self;
        let keys = self.doomed.keys();
        let mut i: usize = 0;
        while i < keys.len()
            invariant
                self.drop_wf(),
                w0.drop_wf(),
                i <= keys@.len(),
                forall|c: Cell| keys@.contains(c) <==> w0.doomed@.dom().contains(c),
                self.doomed@ == w0.doomed@.restrict(Set::new(|c: Cell| !keys@.subrange(0, i as int).contains(c) || !w0.touches_land(c))),
                self.islands == w0.islands && self.island_owners == w0.island_owners,
                self.island_neutral == w0.island_neutral,
                self.platforms == w0.platforms && self.platform_owners == w0.platform_owners,
                self.bridges == w0.bridges && self.bridge_owners == w0.bridge_owners,
                self.events == w0.events,
                self.structures == w0.structures && self.units == w0.units,
                self.powers == w0.powers && self.known_tech == w0.known_tech,
                self.drops == w0.drops && self.energy_enforced == w0.energy_enforced,
                self.terrain_version == w0.terrain_version && self.bridge_version == w0.bridge_version,
                self.structure_version == w0.structure_version && self.crumble_ticks == w0.crumble_ticks,
            decreases keys@.len() - i,
        {
            let c = keys[i];
            proof {
                assert(keys@.contains(c));
                assert(self.spec_is_land(c) == w0.spec_is_land(c));
            }
            let t = self.beside_land(c);
            proof {
                assert(self.touches_land(c) == w0.touches_land(c)) by {
                    assert forall|d: int| 0 <= d < 4 implies self.spec_is_land(#[trigger] nb(c, d)) == w0.spec_is_land(nb(c, d)) by {}
                }
            }
            if t {
                self.doomed.remove(c);
                proof {
                    assert forall|x: Cell| #[trigger] self.doomed@.dom().contains(x) implies crate::world::inside(x) by {
                        assert(w0.doomed@.dom().contains(x));
                    }
                    assert forall|x: Cell| #[trigger] self.spec_is_ground(x) implies crate::world::inside(x) by {
                        assert(w0.spec_is_ground(x));
                    }
                }
            }
            proof {
                let pre = keys@.subrange(0, i as int);
                let post = keys@.subrange(0, i + 1);
                assert forall|x: Cell| post.contains(x) <==> (pre.contains(x) || x == c) by {
                    if post.contains(x) {
                        let k = choose|k: int| 0 <= k < post.len() && post[k] == x;
                        if k < pre.len() {
                            assert(pre[k] == x);
                        }
                    }
                    if pre.contains(x) {
                        let k = choose|k: int| 0 <= k < pre.len() && pre[k] == x;
                        assert(post[k] == x);
                    }
                    if x == c {
                        assert(post[i as int] == x);
                    }
                }
                assert(self.doomed@ =~= w0.doomed@.restrict(Set::new(|x: Cell| !post.contains(x) || !w0.touches_land(x))));
            }
            i = i + 1;
        }
        proof {
            assert(keys@.subrange(0, keys@.len() as int) =~= keys@);
            assert(self.doomed@ =~= w0.doomed@.restrict(Set::new(|c: Cell| !w0.touches_land(c))));
        }
    }
}

impl World {
    /// Sky under a type that makes its own island becomes the owner's
    /// platform; the unsupported bridge cells that then touch land are
    /// spared.
    fn ground_under(&mut self, owner: u8, rules: &TypeRules, cell: Cell)
        requires
            old(self).drop_wf(),
            site_fits(*rules, cell),
        ensures
            final(self).drop_wf(),
            ({
                let sky = sky_cells(*old(self), site(*rules, cell));
                &&& final(self).platforms.view() == old(self).platforms.view().union(sky)
                &&& final(self).platform_owners@ == old(self).platform_owners@.union_prefer_right(Map::new(|c: Cell| sky.contains(c), |c: Cell| owner))
                &&& final(self).terrain_version == (if !sky.is_empty() { bumped(old(self).terrain_version) } else { old(self).terrain_version })
                &&& final(self).doomed@ == (if !sky.is_empty() {
                        old(self).doomed@.restrict(Set::new(|c: Cell| !final(self).touches_land(c)))
                    } else {
                        old(self).doomed@
                    })
            }),
            final(self).islands == old(self).islands && final(self).island_owners == old(self).island_owners,
            final(self).island_neutral == old(self).island_neutral,
            final(self).bridges == old(self).bridges && final(self).bridge_owners == old(self).bridge_owners,
            final(self).events == old(self).events,
            final(self).structures == old(self).structures && final(self).units == old(self).units,
            final(self).powers == old(self).powers && final(self).known_tech == old(self).known_tech,
            final(self).drops == old(self).drops && final(self).energy_enforced == old(self).energy_enforced,
            final(self).bridge_version == old(self).bridge_version,
            final(self).structure_version == old(self).structure_version && final(self).crumble_ticks == old(self).crumble_ticks,
    {
        let ghost w0 = *self;
        let cells = footprint(cell, (rules.foot_x, rules.foot_y));
        proof {
            assert(cells@ == site(*rules, cell));
            assert forall|k: int| 0 <= k < cells@.len() implies crate::world::inside(#[trigger] cells@[k]) by {
                let fx = fx_of(*rules);
                assert(0 <= k % fx < fx && 0 <= k / fx) by (nonlinear_arith) requires fx >= 1, k >= 0;
                assert(k / fx < fy_of(*rules)) by (nonlinear_arith) requires fx >= 1, 0 <= k < fx * fy_of(*rules);
            }
        }
        let changed = self.lay_platforms(owner, &cells);
        if changed {
            let ghost w1 = *self;
            self.terrain_version = if self.terrain_version == u64::MAX { 0 } else { self.terrain_version + 1 };
            proof {
                assert forall|c: Cell| #[trigger] self.spec_is_ground(c) implies crate::world::inside(c) by {
                    assert(w1.spec_is_ground(c));
                }
            }
            let ghost w2 = *self;
            self.spare_doomed();
            proof {
                assert forall|c: Cell| self.touches_land(c) == w2.touches_land(c) by {
                    assert forall|d: int| 0 <= d < 4 implies self.spec_is_land(#[trigger] nb(c, d)) == w2.spec_is_land(nb(c, d)) by {}
                }
                assert(self.doomed@ =~= w0.doomed@.restrict(Set::new(|c: Cell| !self.touches_land(c))));
            }
        }
    }

    /// Drop a structure of `kind` for `owner` with its hotspot at `cell`.
    /// A refused drop leaves the world as it was and says why (see
    /// [`World::spec_drop_error`]). Otherwise the owner pays the price
    /// (nothing for a geyser), the structure joins the list at its end,
    /// sky under a type that makes its own island becomes the owner's
    /// platform (sparing the unsupported bridge cells that then touch
    /// land), and a `Built` event is sent from the structure's centre.
    #[verifier::spinoff_prover]
    #[verifier::rlimit(40)]
    pub fn drop_structure_for(&mut self, owner: u8, kind: &str, rules: &TypeRules, cell: Cell) -> (r: Result<usize, DropError>)
        requires
            old(self).drop_wf(),
            site_fits(*rules, cell),
            rules.cost >= 0,
        ensures
            final(self).drop_wf(),
            match old(self).spec_drop_error(owner, kind@, *rules, cell) {
                Some(e) => r == Err::<usize, DropError>(e),
                None => r == Ok::<usize, DropError>(old(self).structures@.len() as usize),
            },
            r is Err ==> *final(self) == *old(self),
            r is Ok ==> {
                let slot = old(self).slot_of(owner);
                let sky = sky_cells(*old(self), site(*rules, cell));
                let grows = rules.creates_island && !sky.is_empty();
                &&& final(self).structures@.len() == old(self).structures@.len() + 1
                &&& final(self).structures@.subrange(0, old(self).structures@.len() as int) == old(self).structures@
                &&& made(final(self).structures@.last(), kind@, *rules, cell, owner, old(self).drops.geyser_stock_from_cost)
                &&& final(self).powers@ == old(self).powers@.update(slot, (old(self).powers@[slot] - price(*rules)) as i32)
                &&& final(self).platforms.view() == (if rules.creates_island { old(self).platforms.view().union(sky) } else { old(self).platforms.view() })
                &&& final(self).platform_owners@ == (if rules.creates_island {
                        old(self).platform_owners@.union_prefer_right(Map::new(|c: Cell| sky.contains(c), |c: Cell| owner))
                    } else {
                        old(self).platform_owners@
                    })
                &&& final(self).terrain_version == (if grows { bumped(old(self).terrain_version) } else { old(self).terrain_version })
                &&& final(self).doomed@ == (if grows {
                        old(self).doomed@.restrict(Set::new(|c: Cell| !final(self).touches_land(c)))
                    } else {
                        old(self).doomed@
                    })
                &&& final(self).structure_version == bumped(old(self).structure_version)
                &&& final(self).events@.len() == old(self).events@.len() + 1
                &&& final(self).events@.subrange(0, old(self).events@.len() as int) == old(self).events@
                &&& final(self).events@.last().what == EventKind::Built
                &&& final(self).events@.last().kind@ == kind@
                &&& final(self).events@.last().at == centre_of(cell, fx_of(*rules), fy_of(*rules))
                &&& final(self).events@.last().owner == owner
                &&& final(self).islands == old(self).islands && final(self).island_owners == old(self).island_owners
                &&& final(self).island_neutral == old(self).island_neutral
                &&& final(self).bridges == old(self).bridges && final(self).bridge_owners == old(self).bridge_owners
                &&& final(self).units == old(self).units && final(self).known_tech == old(self).known_tech
                &&& final(self).drops == old(self).drops && final(self).energy_enforced == old(self).energy_enforced
                &&& final(self).bridge_version == old(self).bridge_version && final(self).crumble_ticks == old(self).crumble_ticks
            },
    {
        let ghost w0 = *self;
        match self.can_drop(rules, cell) {
            Err(e) => return Err(e),
            Ok(()) => {},
        }
        let slot = (owner as usize) % self.drops.max_players;
        if self.energy_enforced {
            match self.check_ownership(owner, rules, cell) {
                Err(e) => return Err(e),
                Ok(()) => {},
            }
            match rules.tech_bit {
                Some(bit) => {
                    if !self.knows_tech(owner, bit) {
                        return Err(DropError::UnknownTech(bit));
                    }
                },
                None => {},
            }
            match self.check_energy(owner, rules, cell) {
                Err(e) => return Err(e),
                Ok(()) => {},
            }
            match self.check_production(owner, kind, rules) {
                Err(e) => return Err(e),
                Ok(()) => {},
            }
        }
        let price: i32 = if rules.is_geyser { 0 } else { rules.cost };
        let have = self.powers[slot];
        if price > have {
            return Err(DropError::NotEnoughPower { cost: price, have });
        }
        self.powers.set(slot, have - price);
        let mut s = Structure::new(kind, cell, rules.foot_x, rules.foot_y, rules.walk);
        s.drop_blocking = rules.drop_blocking;
        s.stock = if rules.is_geyser && self.drops.geyser_stock_from_cost { rules.cost } else { 0 };
        s.is_temple = rules.is_temple;
        s.owner = owner;
        s.hp = rules.max_hit_points;
        s.max_hp = rules.max_hit_points;
        s.cost = rules.cost;
        s.threat = rules.threat;
        s.is_altar = rules.is_altar;
        s.produces = rules.produces;
        let ghost after_pay = *self;
        proof {
            assert(self.islands == w0.islands && self.platforms == w0.platforms);
            assert(self.powers@.len() == w0.powers@.len());
            assert forall|c: Cell| #[trigger] self.spec_is_ground(c) implies crate::world::inside(c) by {
                assert(w0.spec_is_ground(c));
            }
            assert(self.drop_wf());
        }
        if rules.creates_island {
            self.ground_under(owner, rules, cell);
        }
        let fx = s.foot_x;
        let fy = s.foot_y;
        let centre = Cell::new(cell.x - (fx - 1) / 2, cell.y - (fy - 1) / 2);
        proof {
            assert(centre == centre_of(cell, fx_of(*rules), fy_of(*rules)));
        }
        let ghost sv = s;
        let ghost w3 = *self;
        proof {
            assert(w3.drop_wf());
        }
        self.structures.push(s);
        self.structure_version = if self.structure_version == u64::MAX { 0 } else { self.structure_version + 1 };
        let ev = Event { what: EventKind::Built, kind: String::from_str(kind), at: centre, owner };
        self.events.push(ev);
        proof {
            assert(self.structures@.subrange(0, w0.structures@.len() as int) =~= w0.structures@);
            assert(self.events@.subrange(0, w0.events@.len() as int) =~= w0.events@);
            assert(self.structures@.last() == sv);
            assert(self.islands == w3.islands && self.platforms == w3.platforms && self.bridges == w3.bridges);
            assert forall|c: Cell| #[trigger] self.spec_is_ground(c) implies crate::world::inside(c) by {
                assert(w3.spec_is_ground(c));
            }
            assert forall|c: Cell| #[trigger] self.doomed@.dom().contains(c) implies crate::world::inside(c) by {
                assert(w3.doomed@.dom().contains(c));
            }
            assert forall|i: int| 0 <= i < self.units@.len() implies (#[trigger] self.units@[i]).subcell >= 1 by {
                assert(self.units@[i] == w3.units@[i]);
            }
            assert(self.wf());
            assert forall|i: int| 0 <= i < self.structures@.len() implies {
                let t = #[trigger] self.structures@[i];
                &&& 1 <= t.foot_x <= 0x10000 && 1 <= t.foot_y <= 0x10000
                &&& on_grid(t.cell)
            } by {
                if i < w0.structures@.len() {
                    assert(self.structures@[i] == w0.structures@[i]);
                }
            }
        }
        Ok(self.structures.len() - 1)
    }
}

impl World {
    /// Drop a structure of `kind` for the local player (owner 0).
    pub fn drop_structure(&mut self, kind: &str, rules: &TypeRules, cell: Cell) -> (r: Result<usize, DropError>)
        requires
            old(self).drop_wf(),
            site_fits(*rules, cell),
            rules.cost >= 0,
        ensures
            final(self).drop_wf(),
            match old(self).spec_drop_error(0, kind@, *rules, cell) {
                Some(e) => r == Err::<usize, DropError>(e),
                None => r == Ok::<usize, DropError>(old(self).structures@.len() as usize),
            },
            r is Err ==> *final(self) == *old(self),
            r is Ok ==> final(self).structures@.len() == old(self).structures@.len() + 1
                && made(final(self).structures@.last(), kind@, *rules, cell, 0, old(self).drops.geyser_stock_from_cost),
    {
        self.drop_structure_for(0, kind, rules, cell)
    }
}

impl World {
    /// Grant `owner` Knowledge bit `bit`; `true` if it was new.
    pub fn grant_tech(&mut self, owner: u8, bit: u8) -> (added: bool)
        requires
            old(self).drop_wf(),
        ensures
            final(self).drop_wf(),
            added == !old(self).known_tech@[old(self).slot_of(owner)]@.contains(bit),
            final(self).known_tech@.len() == old(self).known_tech@.len(),
            final(self).known_tech@[old(self).slot_of(owner)]@.to_set() == old(self).known_tech@[old(self).slot_of(owner)]@.to_set().insert(bit),
            forall|k: int| 0 <= k < old(self).known_tech@.len() && k != old(self).slot_of(owner)
                ==> #[trigger] final(self).known_tech@[k] == old(self).known_tech@[k],
            final(self).islands == old(self).islands && final(self).platforms == old(self).platforms,
            final(self).bridges == old(self).bridges && final(self).structures == old(self).structures,
            final(self).units == old(self).units && final(self).powers == old(self).powers,
            final(self).drops == old(self).drops && final(self).energy_enforced == old(self).energy_enforced,
            final(self).island_owners == old(self).island_owners && final(self).island_neutral == old(self).island_neutral,
            final(self).platform_owners == old(self).platform_owners && final(self).bridge_owners == old(self).bridge_owners,
            final(self).doomed == old(self).doomed && final(self).events == old(self).events,
    {
        if self.knows_tech(owner, bit) {
            proof {
                let s = self.known_tech@[self.slot_of(owner)]@;
                assert(s.to_set().insert(bit) =~= s.to_set());
            }
            return false;
        }
        let slot = (owner as usize) % self.drops.max_players;
        let ghost w0 = *self;
        let mut known = self.known_tech.remove(slot);
        proof {
            assert(known@ == w0.known_tech@[slot as int]@);
        }
        known.push(bit);
        self.known_tech.insert(slot, known);
        proof {
            let s0 = w0.known_tech@[slot as int]@;
            assert(self.known_tech@[slot as int]@ == s0.push(bit));
            assert(s0.push(bit).to_set() =~= s0.to_set().insert(bit)) by {
                assert forall|x: u8| s0.push(bit).contains(x) <==> (s0.contains(x) || x == bit) by {
                    if s0.push(bit).contains(x) {
                        let k = choose|k: int| 0 <= k < s0.len() + 1 && s0.push(bit)[k] == x;
                        if k < s0.len() { assert(s0[k] == x); }
                    }
                    if s0.contains(x) {
                        let k = choose|k: int| 0 <= k < s0.len() && s0[k] == x;
                        assert(s0.push(bit)[k] == x);
                    }
                    if x == bit { assert(s0.push(bit)[s0.len() as int] == x); }
                }
            }
            assert forall|k: int| 0 <= k < w0.known_tech@.len() && k != slot as int
                implies #[trigger] self.known_tech@[k] == w0.known_tech@[k] by {}
            assert forall|c: Cell| #[trigger] self.spec_is_ground(c) implies crate::world::inside(c) by {
                assert(w0.spec_is_ground(c));
            }
            assert forall|c: Cell| #[trigger] self.doomed@.dom().contains(c) implies crate::world::inside(c) by {
                assert(w0.doomed@.dom().contains(c));
            }
            assert forall|i: int| 0 <= i < self.units@.len() implies (#[trigger] self.units@[i]).subcell >= 1 by {
                assert(self.units@[i] == w0.units@[i]);
            }
            assert forall|i: int| 0 <= i < self.structures@.len() implies {
                let t = #[trigger] self.structures@[i];
                &&& 1 <= t.foot_x <= 0x10000 && 1 <= t.foot_y <= 0x10000
                &&& on_grid(t.cell)
            } by {
                assert(self.structures@[i] == w0.structures@[i]);
            }
        }
        true
    }
}

/// Only the owner's finished Energy sources count: a structure still
/// waiting for its stream, one of another owner, or one that makes no
/// Energy leaves the counts as they are without it.
pub proof fn only_finished_own_sources_count(ss: Seq<Structure>, k: int, owner: u8, at: (int, int),
    theme: crate::isle::Theme, w: int, h: int, r: int)
    requires
        0 <= k < ss.len(),
        ss[k].building != 0 || ss[k].owner != owner || ss[k].produces is None,
    ensures
        sources(ss, owner, at, theme, w, h, r) == sources(ss.remove(k), owner, at, theme, w, h, r),
    decreases ss.len(),
{
    if k == ss.len() - 1 {
        assert(ss.remove(k) =~= ss.drop_last());
    } else {
        only_finished_own_sources_count(ss.drop_last(), k, owner, at, theme, w, h, r);
        assert(ss.remove(k).drop_last() =~= ss.drop_last().remove(k));
        assert(ss.remove(k).last() == ss.last());
    }
}

/// A finished source of the owner's within reach counts once among all
/// sources, and once among the themed ones exactly when it makes Energy of
/// that theme.
pub proof fn a_reaching_source_counts_once(ss: Seq<Structure>, owner: u8, at: (int, int),
    theme: crate::isle::Theme, w: int, h: int, r: int)
    requires
        ss.len() > 0,
        ss.last().building == 0,
        ss.last().owner == owner,
        ss.last().produces is Some,
        ({
            let s = ss.last();
            let p = centre_px(centre_of(s.cell, s.foot_x as int, s.foot_y as int), w, h);
            (p.0 - at.0) * (p.0 - at.0) + (p.1 - at.1) * (p.1 - at.1) <= r * r
        }),
    ensures
        sources(ss, owner, at, theme, w, h, r).1 == sources(ss.drop_last(), owner, at, theme, w, h, r).1 + 1,
        sources(ss, owner, at, theme, w, h, r).0 == sources(ss.drop_last(), owner, at, theme, w, h, r).0
            + if ss.last().produces == Some(theme) { 1nat } else { 0nat },
{
}

} // verus!
