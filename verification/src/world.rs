//! The ground of a running world (its natural islands, the platforms
//! structures made, and the one-cell-wide bridges players lay) with the
//! rules for laying bridge pieces and for what falls once its support is
//! gone; and what the world reports and refuses: bridge states, targets,
//! events and the reasons a placement, a drop or a production order fails.
use vstd::prelude::*;
use crate::cellmap::CellMap;
use crate::grid::{cell_at, Cell};
use crate::island::{cell_lt, sorted_cells, spec_piece, IslandMap};
use crate::isle::Piece;
use crate::rules::EnergyNeed;
use crate::structure::Structure;
use crate::unit::Unit;

verus! {

#[derive(Clone, Copy, Debug, PartialEq, Eq, Structural)]
pub enum BridgeState {
    Normal,
    /// Damaged; collapses when a neighbouring bridge is destroyed.
    Cracked,
    /// Hardened by the Bridge Harden spell; cannot crack.
    Hard,
}

impl Default for BridgeState {
    fn default() -> (s: Self)
        ensures
            s == BridgeState::Normal,
    {
        BridgeState::Normal
    }
}

/// What a shot was aimed at.
#[derive(Clone, Copy, Debug, PartialEq, Eq, Structural)]
pub enum Target {
    Structure(usize),
    Unit(usize),
    /// An enemy bridge cell.
    Bridge(Cell),
}

/// Why a piece could not be placed.
#[derive(Clone, Copy, Debug, PartialEq, Eq, Structural)]
pub enum PieceError {
    /// A piece cell is not sky.
    NotSky(Cell),
    /// No piece cell touches an island edge or an open bridge end.
    NoAttachment,
    /// The piece touches only ground belonging to someone else.
    NotOwnGround,
}

/// Why a drop was refused.
#[derive(Clone, Copy, Debug, PartialEq, Eq, Structural)]
pub enum DropError {
    /// A footprint cell is sky and the type cannot make its own island.
    NotGround(Cell),
    /// A `createsisland` type in the sky must sit against an open bridge end.
    NotAtBridgeEnd,
    /// A `createsisland` type is either wholly on land or wholly in the sky.
    Straddling(Cell),
    /// A footprint cell is covered by a structure.
    Occupied(Cell),
    /// A footprint cell is an island rim and the type may not sit on rims.
    OnRim(Cell),
    /// A unit stands on a footprint cell.
    UnitInTheWay(Cell),
    /// The player cannot afford the type.
    NotEnoughPower { cost: i32, have: i32 },
    /// The owner lacks the Knowledge for the type.
    UnknownTech(u8),
    /// A drop must touch the dropper's own ground or open bridge end.
    NotOwnGround,
    /// Not enough Energy of the right kind reaches the site.
    NotEnoughEnergy { need: EnergyNeed, themed: u8, any: u8 },
    /// The type is not in production at any of the owner's Workshops.
    NotInProduction,
    /// The owner has no Temple, needed for Temple-provided types.
    NoTemple,
}

/// Something that happened, for sounds and effects.
#[derive(Clone, Debug, PartialEq, Eq)]
pub struct Event {
    pub what: EventKind,
    /// Type stem of the thing involved: the shooter, the building, the unit.
    pub kind: String,
    pub at: Cell,
    pub owner: u8,
}

#[derive(Clone, Copy, Debug, PartialEq, Eq, Hash, Structural)]
pub enum EventKind {
    /// A structure fired; `kind` is the shooter.
    Fired,
    /// A shot landed; `kind` is the shooter, `at` the target's cell.
    Hit,
    Built,
    Destroyed,
    Salvaged,
    /// A player ordered a unit to move.
    Moved,
    /// A stunned priest was picked up; `kind` is the priest.
    Pickup,
    /// A priest was sacrificed at an altar.
    Sacrificed,
    /// A unit took a crystal from a geyser.
    Harvested,
    PiecePlaced,
    BridgeCracked,
    BridgeFell,
    IslandFell,
    UnitLost,
    /// A base sent an aerial attacker up; `kind` is the attacker.
    Launched,
    /// A structure was placed and waits for its stream; `Built` follows.
    Placed,
    /// A player's last High Priest was sacrificed; `owner` is that player.
    Eliminated,
    /// Only one player with a High Priest remains; `owner` is the winner.
    Victory,
    /// A Transport read an Obelisk; `kind` is the Spell.
    Learned,
    /// A cast began; `kind` is the Spell, `at` the caster.
    Casting,
    /// A cast landed.
    Cast,
    /// A priest's ground fell away and he floats.
    Floating,
}

/// Why a type could not be put into production.
#[derive(Clone, Copy, Debug, PartialEq, Eq, Structural)]
pub enum ProductionError {
    /// The owner has no Workshop able to produce the type.
    NoWorkshop,
    /// Every able Workshop's slots are full.
    NoFreeSlot,
    /// The type is not built at a Workshop.
    NotProducible,
}

/// Cells the ground may take: far enough inside the grid that a cell's
/// neighbours, and theirs, are cells too.
pub open spec fn inside(c: Cell) -> bool {
    -0x4000_0000 < c.x < 0x4000_0000 && -0x4000_0000 < c.y < 0x4000_0000
}

/// Cells a question about the ground may name.
pub open spec fn on_grid(c: Cell) -> bool {
    -0x7000_0000 < c.x < 0x7000_0000 && -0x7000_0000 < c.y < 0x7000_0000
}

/// The neighbour of `c` to the north (0), east (1), south (2) or west (3).
pub open spec fn nb(c: Cell, d: int) -> Cell {
    if d == 0 {
        cell_at(c.x as int, c.y - 1)
    } else if d == 1 {
        cell_at(c.x + 1, c.y as int)
    } else if d == 2 {
        cell_at(c.x as int, c.y + 1)
    } else {
        cell_at(c.x - 1, c.y as int)
    }
}

fn step(c: Cell, d: usize) -> (n: Cell)
    requires
        on_grid(c),
        d < 4,
    ensures
        n == nb(c, d as int),
        on_grid(c) && inside(c) ==> on_grid(n),
{
    if d == 0 {
        Cell { x: c.x, y: c.y - 1 }
    } else if d == 1 {
        Cell { x: c.x + 1, y: c.y }
    } else if d == 2 {
        Cell { x: c.x, y: c.y + 1 }
    } else {
        Cell { x: c.x - 1, y: c.y }
    }
}

/// The first island of `isl` holding `c`.
pub open spec fn first_island(isl: Seq<IslandMap>, c: Cell) -> Option<int>
    decreases isl.len(),
{
    if isl.len() == 0 {
        None
    } else {
        match first_island(isl.drop_last(), c) {
            Some(i) => Some(i),
            None => if isl.last().view().contains(c) { Some(isl.len() - 1) } else { None },
        }
    }
}

pub(crate) proof fn lemma_first_island(isl: Seq<IslandMap>, c: Cell)
    ensures
        match first_island(isl, c) {
            Some(i) => 0 <= i < isl.len() && isl[i].view().contains(c)
                && forall|j: int| 0 <= j < i ==> !(#[trigger] isl[j]).view().contains(c),
            None => forall|j: int| 0 <= j < isl.len() ==> !(#[trigger] isl[j]).view().contains(c),
        },
    decreases isl.len(),
{
    if isl.len() > 0 {
        lemma_first_island(isl.drop_last(), c);
        assert forall|j: int| 0 <= j < isl.len() - 1 implies #[trigger] isl[j] == isl.drop_last()[j] by {}
    }
}

/// The ground a world stands on and the reports it keeps.
pub struct World {
    /// Natural islands.
    pub islands: Vec<IslandMap>,
    /// Owner of each natural island; `None` for a neutral one.
    pub island_owners: Vec<Option<u8>>,
    /// Which islands were neutral to begin with.
    pub island_neutral: Vec<bool>,
    /// Platforms created under `createsisland` structures dropped on bridges.
    pub platforms: IslandMap,
    /// Owner of each platform cell.
    pub platform_owners: CellMap<u8>,
    /// Incremented whenever islands or platforms change.
    pub terrain_version: u64,
    /// Cells carrying a bridge tile and their condition.
    pub bridges: CellMap<BridgeState>,
    /// Who built each bridge cell.
    pub bridge_owners: CellMap<u8>,
    /// Incremented whenever `bridges` changes.
    pub bridge_version: u64,
    /// Bridge cells that lost their support, with ticks left before they crumble.
    pub doomed: CellMap<u32>,
    /// Happenings since they were last taken.
    pub events: Vec<Event>,
    /// Ticks a bridge cell without support takes to fall.
    pub crumble_ticks: u32,
    /// Structures in drop order; indices stay stable.
    pub structures: Vec<Structure>,
    /// Incremented whenever `structures` changes.
    pub structure_version: u64,
    /// Units; dead ones stay in the list.
    pub units: Vec<Unit>,
    /// Storm Power reserve per player slot.
    pub powers: Vec<i32>,
    /// Knowledge bits (`techBit`) each player slot holds.
    pub known_tech: Vec<Vec<u8>>,
    /// Whether drops need ownership, Knowledge, Energy and production;
    /// off while a map is laid out.
    pub energy_enforced: bool,
    /// The rules drops follow.
    pub drops: DropRules,
}

/// The parts of the game's rules that drops read.
pub struct DropRules {
    /// Player slots; an owner's slot is its number modulo this.
    pub max_players: usize,
    /// Cell size in pixels, for Energy reach.
    pub cell_w: i32,
    pub cell_h: i32,
    /// Reach of an Energy source, in pixels from centre to centre.
    pub energy_range_px: i32,
    /// A geyser holds its type's cost in crystals.
    pub geyser_stock_from_cost: bool,
    /// Types a Temple provides, matched without regard to ASCII case.
    pub temple_types: Vec<String>,
}

impl World {
    /// Whether natural island `c` holds the cell.
    pub open spec fn spec_on_island(&self, c: Cell) -> bool {
        exists|i: int| 0 <= i < self.islands@.len() && (#[trigger] self.islands@[i]).view().contains(c)
    }

    pub open spec fn spec_is_land(&self, c: Cell) -> bool {
        self.platforms.view().contains(c) || self.spec_on_island(c)
    }

    pub open spec fn spec_is_bridge(&self, c: Cell) -> bool {
        self.bridges@.dom().contains(c)
    }

    pub open spec fn spec_is_ground(&self, c: Cell) -> bool {
        self.spec_is_land(c) || self.spec_is_bridge(c)
    }

    /// The cell's ground neighbours as a mask: north 1, east 2, south 4, west 8.
    pub open spec fn spec_connections(&self, c: Cell) -> int {
        (if self.spec_is_ground(nb(c, 0)) { 1int } else { 0 }) + (if self.spec_is_ground(nb(c, 1)) { 2int } else { 0 })
            + (if self.spec_is_ground(nb(c, 2)) { 4int } else { 0 }) + (if self.spec_is_ground(nb(c, 3)) { 8int } else { 0 })
    }

    /// How many of the cell's four neighbours are ground.
    pub open spec fn ground_count(&self, c: Cell) -> int {
        (if self.spec_is_ground(nb(c, 0)) { 1int } else { 0 }) + (if self.spec_is_ground(nb(c, 1)) { 1int } else { 0 })
            + (if self.spec_is_ground(nb(c, 2)) { 1int } else { 0 }) + (if self.spec_is_ground(nb(c, 3)) { 1int } else { 0 })
    }

    /// A bridge cell with exactly one connection: a torn end.
    pub open spec fn spec_is_open_end(&self, c: Cell) -> bool {
        self.spec_is_bridge(c) && self.ground_count(c) == 1
    }

    /// Whether some natural island holds `c` as an edge cell.
    pub open spec fn spec_is_rim(&self, c: Cell) -> bool {
        exists|i: int| 0 <= i < self.islands@.len() && (#[trigger] self.islands@[i]).view().contains(c)
            && spec_piece(self.islands@[i].view(), c) != Some(Piece::Filled)
    }

    /// Owner of the ground at `c`: its natural island's, else its platform's, else its bridge's.
    pub open spec fn spec_ground_owner(&self, c: Cell) -> Option<u8> {
        match first_island(self.islands@, c) {
            Some(i) => self.island_owners@[i],
            None => if self.platform_owners@.dom().contains(c) {
                Some(self.platform_owners@[c])
            } else if self.bridge_owners@.dom().contains(c) {
                Some(self.bridge_owners@[c])
            } else {
                None
            },
        }
    }

    /// Sky with ground on at least one side.
    pub open spec fn spec_can_place_bridge(&self, c: Cell) -> bool {
        !self.spec_is_ground(c) && exists|d: int| 0 <= d < 4 && self.spec_is_ground(#[trigger] nb(c, d))
    }

    /// A cell a piece may hang from: island or platform land, or a torn bridge end.
    pub open spec fn anchor(&self, c: Cell) -> bool {
        self.spec_is_land(c) || self.spec_is_open_end(c)
    }

    /// A piece cell touching an anchor.
    pub open spec fn attaches(&self, c: Cell) -> bool {
        exists|d: int| 0 <= d < 4 && self.anchor(#[trigger] nb(c, d))
    }

    /// A piece cell touching an anchor of `owner`'s.
    pub open spec fn attaches_own(&self, c: Cell, owner: u8) -> bool {
        exists|d: int| 0 <= d < 4 && self.anchor(#[trigger] nb(c, d)) && self.spec_ground_owner(nb(c, d)) == Some(owner)
    }

    /// The first of `cells` that is already ground.
    pub open spec fn first_ground(&self, cells: Seq<Cell>) -> Option<Cell>
        decreases cells.len(),
    {
        if cells.len() == 0 {
            None
        } else {
            match self.first_ground(cells.drop_last()) {
                Some(c) => Some(c),
                None => if self.spec_is_ground(cells.last()) { Some(cells.last()) } else { None },
            }
        }
    }

    /// What the tutorial's rule says of a piece: every cell sky, one of them attached.
    pub open spec fn spec_can_place_piece(&self, cells: Seq<Cell>) -> Result<(), PieceError> {
        match self.first_ground(cells) {
            Some(c) => Err(PieceError::NotSky(c)),
            None => if exists|i: int| 0 <= i < cells.len() && self.attaches(#[trigger] cells[i]) {
                Ok(())
            } else {
                Err(PieceError::NoAttachment)
            },
        }
    }

    /// The rule plus ownership: one cell must touch the owner's own anchor.
    pub open spec fn spec_can_place_piece_for(&self, owner: u8, cells: Seq<Cell>) -> Result<(), PieceError> {
        match self.spec_can_place_piece(cells) {
            Err(e) => Err(e),
            Ok(()) => if exists|i: int| 0 <= i < cells.len() && self.attaches_own(#[trigger] cells[i], owner) {
                Ok(())
            } else {
                Err(PieceError::NotOwnGround)
            },
        }
    }

    pub open spec fn wf(&self) -> bool {
        &&& forall|i: int| 0 <= i < self.islands@.len() ==> (#[trigger] self.islands@[i]).wf()
        &&& self.island_owners@.len() == self.islands@.len()
        &&& self.island_neutral@.len() == self.islands@.len()
        &&& self.platforms.wf()
        &&& self.platform_owners.wf()
        &&& self.bridges.wf()
        &&& self.bridge_owners.wf()
        &&& self.doomed.wf()
        &&& forall|c: Cell| #[trigger] self.spec_is_ground(c) ==> inside(c)
    }

    /// A world with no ground yet, whose unsupported bridges take
    /// `crumble_ticks` ticks to fall.
    pub fn new(crumble_ticks: u32) -> (w: World)
        ensures
            w.wf(),
            w.islands@.len() == 0 && w.platforms.view().is_empty(),
            w.bridges@ == Map::<Cell, BridgeState>::empty(),
            w.bridge_owners@ == Map::<Cell, u8>::empty(),
            w.platform_owners@ == Map::<Cell, u8>::empty(),
            w.doomed@ == Map::<Cell, u32>::empty(),
            w.events@.len() == 0,
            w.terrain_version == 0 && w.bridge_version == 0,
            w.crumble_ticks == crumble_ticks,
            w.drop_wf(),
            w.structures@.len() == 0 && w.units@.len() == 0 && w.structure_version == 0,
            w.powers@ == seq![0i32] && w.known_tech@.len() == 1 && w.known_tech@[0]@.len() == 0,
            w.energy_enforced && w.drops.max_players == 1 && w.drops.temple_types@.len() == 0,
            w.drops.cell_w == 16 && w.drops.cell_h == 11 && w.drops.energy_range_px == 160,
            !w.drops.geyser_stock_from_cost,
    {
        World {
            islands: Vec::new(),
            island_owners: Vec::new(),
            island_neutral: Vec::new(),
            platforms: IslandMap::new(),
            platform_owners: CellMap::new(),
            terrain_version: 0,
            bridges: CellMap::new(),
            bridge_owners: CellMap::new(),
            bridge_version: 0,
            doomed: CellMap::new(),
            events: Vec::new(),
            crumble_ticks,
            structures: Vec::new(),
            structure_version: 0,
            units: Vec::new(),
            powers: vec![0i32],
            known_tech: vec![Vec::new()],
            energy_enforced: true,
            drops: DropRules {
                max_players: 1,
                cell_w: 16,
                cell_h: 11,
                energy_range_px: 160,
                geyser_stock_from_cost: false,
                temple_types: Vec::new(),
            },
        }
    }
}

impl World {
    /// Index of the natural island holding `cell`.
    pub fn island_at(&self, cell: Cell) -> (r: Option<usize>)
        requires
            self.wf(),
        ensures
            match r {
                Some(i) => first_island(self.islands@, cell) == Some(i as int),
                None => first_island(self.islands@, cell) is None,
            },
    {
        let mut i: usize = 0;
        while i < self.islands.len()
            invariant
                self.wf(),
                i <= self.islands@.len(),
                forall|j: int| 0 <= j < i ==> !(#[trigger] self.islands@[j]).view().contains(cell),
            decreases self.islands@.len() - i,
        {
            if self.islands[i].contains(cell) {
                proof { lemma_first_island(self.islands@, cell); }
                return Some(i);
            }
            i = i + 1;
        }
        proof { lemma_first_island(self.islands@, cell); }
        None
    }

    fn on_island(&self, cell: Cell) -> (r: bool)
        requires
            self.wf(),
        ensures
            r == self.spec_on_island(cell),
    {
        let r = self.island_at(cell);
        proof { lemma_first_island(self.islands@, cell); }
        r.is_some()
    }

    /// Whether an island or a platform covers `cell`.
    pub fn is_land(&self, cell: Cell) -> (r: bool)
        requires
            self.wf(),
        ensures
            r == self.spec_is_land(cell),
    {
        self.platforms.contains(cell) || self.on_island(cell)
    }

    pub fn is_bridge(&self, cell: Cell) -> (r: bool)
        requires
            self.wf(),
        ensures
            r == self.spec_is_bridge(cell),
    {
        self.bridges.contains_key(cell)
    }

    pub fn bridge_state(&self, cell: Cell) -> (r: Option<BridgeState>)
        requires
            self.wf(),
        ensures
            r == (if self.bridges@.dom().contains(cell) { Some(self.bridges@[cell]) } else { None::<BridgeState> }),
    {
        self.bridges.get(cell)
    }

    /// Ground of any kind: island, platform or bridge.
    pub fn is_ground(&self, cell: Cell) -> (r: bool)
        requires
            self.wf(),
        ensures
            r == self.spec_is_ground(cell),
    {
        self.is_land(cell) || self.is_bridge(cell)
    }

    /// Whether `cell` is a natural island's edge cell (not a platform).
    pub fn is_rim(&self, cell: Cell) -> (r: bool)
        requires
            self.wf(),
            on_grid(cell),
        ensures
            r == self.spec_is_rim(cell),
    {
        let mut i: usize = 0;
        while i < self.islands.len()
            invariant
                self.wf(),
                on_grid(cell),
                i <= self.islands@.len(),
                forall|j: int| 0 <= j < i ==> !((#[trigger] self.islands@[j]).view().contains(cell)
                    && spec_piece(self.islands@[j].view(), cell) != Some(Piece::Filled)),
            decreases self.islands@.len() - i,
        {
            if self.islands[i].contains(cell) {
                let p = self.islands[i].piece_at(cell);
                match p {
                    Some(Piece::Filled) => {},
                    _ => {
                        return true;
                    },
                }
            }
            i = i + 1;
        }
        false
    }

    /// Owner of the ground at `cell`: a natural island, a platform or a bridge.
    pub fn ground_owner(&self, cell: Cell) -> (r: Option<u8>)
        requires
            self.wf(),
        ensures
            r == self.spec_ground_owner(cell),
    {
        let at = self.island_at(cell);
        proof { lemma_first_island(self.islands@, cell); }
        match at {
            Some(i) => self.island_owners[i],
            None => match self.platform_owners.get(cell) {
                Some(o) => Some(o),
                None => self.bridge_owners.get(cell),
            },
        }
    }

    /// Connection mask of a cell (north 1, east 2, south 4, west 8): a side
    /// connects when the neighbour is ground.
    pub fn bridge_connections(&self, cell: Cell) -> (m: u8)
        requires
            self.wf(),
            on_grid(cell),
        ensures
            m == self.spec_connections(cell),
    {
        let mut m: u8 = 0;
        if self.is_ground(step(cell, 0)) {
            m = m + 1;
        }
        if self.is_ground(step(cell, 1)) {
            m = m + 2;
        }
        if self.is_ground(step(cell, 2)) {
            m = m + 4;
        }
        if self.is_ground(step(cell, 3)) {
            m = m + 8;
        }
        m
    }

    /// A bridge cell with exactly one connection: a torn end that pieces may attach to.
    pub fn is_open_end(&self, cell: Cell) -> (r: bool)
        requires
            self.wf(),
            on_grid(cell),
        ensures
            r == self.spec_is_open_end(cell),
    {
        if !self.is_bridge(cell) {
            return false;
        }
        let m = self.bridge_connections(cell);
        m == 1 || m == 2 || m == 4 || m == 8
    }

    /// A bridge cell may be placed on empty sky next to existing ground.
    /// Diagonal neighbours do not count: bridges connect orthogonally.
    pub fn can_place_bridge(&self, cell: Cell) -> (r: bool)
        requires
            self.wf(),
            on_grid(cell),
        ensures
            r == self.spec_can_place_bridge(cell),
    {
        if self.is_ground(cell) {
            return false;
        }
        let m = self.bridge_connections(cell);
        proof {
            if m == 0 {
                assert forall|d: int| 0 <= d < 4 implies !self.spec_is_ground(#[trigger] nb(cell, d)) by {}
            } else {
                if self.spec_is_ground(nb(cell, 0)) {
                } else if self.spec_is_ground(nb(cell, 1)) {
                } else if self.spec_is_ground(nb(cell, 2)) {
                } else {
                    assert(self.spec_is_ground(nb(cell, 3)));
                }
            }
        }
        m != 0
    }
}

/// A version counter one step on, wrapping round at the top.
pub open spec fn bumped(v: u64) -> u64 {
    if v == u64::MAX { 0 } else { (v + 1) as u64 }
}

fn bump(v: u64) -> (r: u64)
    ensures
        r == bumped(v),
{
    if v == u64::MAX { 0 } else { v + 1 }
}

/// `m` with every cell of `cells` mapped to `v`.
pub open spec fn with_cells<V>(m: Map<Cell, V>, cells: Seq<Cell>, v: V) -> Map<Cell, V> {
    Map::new(|c: Cell| m.dom().contains(c) || cells.contains(c), |c: Cell| if cells.contains(c) { v } else { m[c] })
}

/// An event as the world records it, with no type stem.
pub open spec fn is_event(e: Event, what: EventKind, at: Cell, owner: u8) -> bool {
    e.what == what && e.kind@.len() == 0 && e.at == at && e.owner == owner
}

fn event(what: EventKind, at: Cell, owner: u8) -> (e: Event)
    ensures
        is_event(e, what, at, owner),
{
    Event { what, kind: String::new(), at, owner }
}

impl World {
    /// Everything but the bridges, their owners and their version is as in `old`.
    pub open spec fn same_but_bridges(&self, old: World) -> bool {
        &&& self.islands == old.islands
        &&& self.island_owners == old.island_owners
        &&& self.island_neutral == old.island_neutral
        &&& self.platforms == old.platforms
        &&& self.platform_owners == old.platform_owners
        &&& self.terrain_version == old.terrain_version
        &&& self.doomed == old.doomed
        &&& self.crumble_ticks == old.crumble_ticks
    }

    proof fn lemma_first_ground_at(&self, cells: Seq<Cell>, i: int)
        requires
            0 <= i < cells.len(),
            self.spec_is_ground(cells[i]),
            forall|j: int| 0 <= j < i ==> !self.spec_is_ground(#[trigger] cells[j]),
        ensures
            self.first_ground(cells) == Some(cells[i]),
        decreases cells.len(),
    {
        if i < cells.len() - 1 {
            let d = cells.drop_last();
            assert forall|j: int| 0 <= j < i implies !self.spec_is_ground(#[trigger] d[j]) by {
                assert(d[j] == cells[j]);
            }
            assert(d[i] == cells[i]);
            self.lemma_first_ground_at(d, i);
        } else {
            self.lemma_no_ground(cells.drop_last());
        }
    }

    proof fn lemma_no_ground(&self, cells: Seq<Cell>)
        requires
            forall|j: int| 0 <= j < cells.len() ==> !self.spec_is_ground(#[trigger] cells[j]),
        ensures
            self.first_ground(cells) is None,
        decreases cells.len(),
    {
        if cells.len() > 0 {
            let d = cells.drop_last();
            assert forall|j: int| 0 <= j < d.len() implies !self.spec_is_ground(#[trigger] d[j]) by {
                assert(d[j] == cells[j]);
            }
            self.lemma_no_ground(d);
            assert(!self.spec_is_ground(cells[cells.len() - 1]));
        }
    }

    /// Add a neutral island: anyone may build on it, nobody off it, until
    /// an Outpost claims it.
    pub fn push_neutral_island(&mut self, island: IslandMap)
        requires
            old(self).wf(),
            island.wf(),
            forall|c: Cell| #[trigger] island.view().contains(c) ==> inside(c),
        ensures
            final(self).wf(),
            final(self).islands@ == old(self).islands@.push(island),
            final(self).island_owners@ == old(self).island_owners@.push(None),
            final(self).island_neutral@ == old(self).island_neutral@.push(true),
            final(self).platforms == old(self).platforms && final(self).platform_owners == old(self).platform_owners,
            final(self).bridges == old(self).bridges && final(self).bridge_owners == old(self).bridge_owners,
            final(self).doomed == old(self).doomed && final(self).events == old(self).events,
            final(self).terrain_version == old(self).terrain_version,
            final(self).bridge_version == old(self).bridge_version,
            final(self).crumble_ticks == old(self).crumble_ticks,
    {
        let ghost before = *self;
        self.islands.push(island);
        self.island_owners.push(None);
        self.island_neutral.push(true);
        proof {
            assert(self.islands@.drop_last() =~= before.islands@);
            self.lemma_grown_islands(before);
        }
    }

    /// Add a natural island with its owner.
    pub fn push_island(&mut self, island: IslandMap, owner: u8)
        requires
            old(self).wf(),
            island.wf(),
            forall|c: Cell| #[trigger] island.view().contains(c) ==> inside(c),
        ensures
            final(self).wf(),
            final(self).islands@ == old(self).islands@.push(island),
            final(self).island_owners@ == old(self).island_owners@.push(Some(owner)),
            final(self).island_neutral@ == old(self).island_neutral@.push(false),
            final(self).platforms == old(self).platforms && final(self).platform_owners == old(self).platform_owners,
            final(self).bridges == old(self).bridges && final(self).bridge_owners == old(self).bridge_owners,
            final(self).doomed == old(self).doomed && final(self).events == old(self).events,
            final(self).terrain_version == bumped(old(self).terrain_version),
            final(self).bridge_version == old(self).bridge_version,
            final(self).crumble_ticks == old(self).crumble_ticks,
    {
        let ghost before = *self;
        self.islands.push(island);
        self.island_owners.push(Some(owner));
        self.island_neutral.push(false);
        self.terrain_version = bump(self.terrain_version);
        proof {
            assert(self.islands@.drop_last() =~= before.islands@);
            self.lemma_grown_islands(before);
        }
    }

    proof fn lemma_grown_islands(&self, before: World)
        requires
            before.wf(),
            self.islands@.len() == before.islands@.len() + 1,
            self.islands@.drop_last() == before.islands@,
            self.islands@.last().wf(),
            forall|c: Cell| #[trigger] self.islands@.last().view().contains(c) ==> inside(c),
            self.island_owners@.len() == self.islands@.len(),
            self.island_neutral@.len() == self.islands@.len(),
            self.platforms == before.platforms && self.platform_owners == before.platform_owners,
            self.bridges == before.bridges && self.bridge_owners == before.bridge_owners,
            self.doomed == before.doomed,
        ensures
            self.wf(),
    {
        let n = before.islands@.len();
        assert forall|i: int| 0 <= i < self.islands@.len() implies (#[trigger] self.islands@[i]).wf() by {
            if i < n {
                assert(self.islands@[i] == self.islands@.drop_last()[i]);
            }
        }
        assert forall|c: Cell| #[trigger] self.spec_is_ground(c) implies inside(c) by {
            if self.spec_on_island(c) {
                let i = choose|i: int| 0 <= i < self.islands@.len() && (#[trigger] self.islands@[i]).view().contains(c);
                if i < n {
                    assert(self.islands@[i] == before.islands@[i]);
                    assert(before.spec_is_ground(c));
                }
            } else {
                assert(before.spec_is_ground(c));
            }
        }
    }

    /// Lay a bridge cell owned by nobody in particular (owner 0) on sky
    /// next to ground; `false`, and nothing changes, where that is not allowed.
    pub fn place_bridge(&mut self, cell: Cell) -> (r: bool)
        requires
            old(self).wf(),
            inside(cell),
        ensures
            final(self).wf(),
            r == old(self).spec_can_place_bridge(cell),
            !r ==> *final(self) == *old(self),
            r ==> final(self).same_but_bridges(*old(self)) && final(self).events == old(self).events
                && final(self).bridges@ == old(self).bridges@.insert(cell, BridgeState::Normal)
                && final(self).bridge_owners@ == old(self).bridge_owners@.insert(cell, 0)
                && final(self).bridge_version == bumped(old(self).bridge_version),
    {
        if !self.can_place_bridge(cell) {
            return false;
        }
        let ghost before = *self;
        self.bridges.insert(cell, BridgeState::Normal);
        self.bridge_owners.insert(cell, 0);
        self.bridge_version = bump(self.bridge_version);
        proof {
            assert forall|c: Cell| #[trigger] self.spec_is_ground(c) implies inside(c) by {
                if c != cell {
                    assert(before.spec_is_ground(c));
                }
            }
        }
        true
    }

    /// Bridge cells placed by the map, owned by `owner`.
    pub fn place_map_bridge(&mut self, owner: u8, cell: Cell) -> (r: bool)
        requires
            old(self).wf(),
            inside(cell),
        ensures
            final(self).wf(),
            r == old(self).spec_can_place_bridge(cell),
            !r ==> *final(self) == *old(self),
            r ==> final(self).same_but_bridges(*old(self)) && final(self).events == old(self).events
                && final(self).bridges@ == old(self).bridges@.insert(cell, BridgeState::Normal)
                && final(self).bridge_owners@ == old(self).bridge_owners@.insert(cell, owner)
                && final(self).bridge_version == bumped(old(self).bridge_version),
    {
        if !self.place_bridge(cell) {
            return false;
        }
        let ghost before = *self;
        self.bridge_owners.insert(cell, owner);
        proof {
            assert forall|c: Cell| #[trigger] self.spec_is_ground(c) implies inside(c) by {
                assert(before.spec_is_ground(c));
            }
            assert(self.bridge_owners@ =~= old(self).bridge_owners@.insert(cell, owner));
        }
        true
    }

    fn anchor_at(&self, c: Cell) -> (r: bool)
        requires
            self.wf(),
            on_grid(c),
        ensures
            r == self.anchor(c),
    {
        self.is_land(c) || self.is_open_end(c)
    }

    fn attaches_at(&self, c: Cell) -> (r: bool)
        requires
            self.wf(),
            inside(c),
        ensures
            r == self.attaches(c),
    {
        let mut d: usize = 0;
        while d < 4
            invariant
                self.wf(),
                inside(c),
                d <= 4,
                forall|e: int| 0 <= e < d ==> !self.anchor(#[trigger] nb(c, e)),
            decreases 4 - d,
        {
            if self.anchor_at(step(c, d)) {
                return true;
            }
            d = d + 1;
        }
        false
    }

    fn attaches_own_at(&self, c: Cell, owner: u8) -> (r: bool)
        requires
            self.wf(),
            inside(c),
        ensures
            r == self.attaches_own(c, owner),
    {
        let mut d: usize = 0;
        while d < 4
            invariant
                self.wf(),
                inside(c),
                d <= 4,
                forall|e: int| 0 <= e < d ==> !(self.anchor(#[trigger] nb(c, e)) && self.spec_ground_owner(nb(c, e)) == Some(owner)),
            decreases 4 - d,
        {
            let n = step(c, d);
            if self.anchor_at(n) {
                match self.ground_owner(n) {
                    Some(o) => {
                        if o == owner {
                            return true;
                        }
                    },
                    None => {},
                }
            }
            d = d + 1;
        }
        false
    }

    /// Check a whole piece: every cell must be sky, and at least one cell must
    /// touch island land or an open bridge end (the tutorial's rule).
    pub fn can_place_piece(&self, cells: &[Cell]) -> (r: Result<(), PieceError>)
        requires
            self.wf(),
            forall|i: int| 0 <= i < cells@.len() ==> inside(#[trigger] cells@[i]),
        ensures
            r == self.spec_can_place_piece(cells@),
    {
        let mut i: usize = 0;
        while i < cells.len()
            invariant
                self.wf(),
                i <= cells@.len(),
                forall|i: int| 0 <= i < cells@.len() ==> inside(#[trigger] cells@[i]),
                forall|j: int| 0 <= j < i ==> !self.spec_is_ground(#[trigger] cells@[j]),
            decreases cells@.len() - i,
        {
            if self.is_ground(cells[i]) {
                proof { self.lemma_first_ground_at(cells@, i as int); }
                return Err(PieceError::NotSky(cells[i]));
            }
            i = i + 1;
        }
        proof { self.lemma_no_ground(cells@); }
        let mut i: usize = 0;
        while i < cells.len()
            invariant
                self.wf(),
                i <= cells@.len(),
                forall|i: int| 0 <= i < cells@.len() ==> inside(#[trigger] cells@[i]),
                forall|j: int| 0 <= j < i ==> !self.attaches(#[trigger] cells@[j]),
                self.first_ground(cells@) is None,
            decreases cells@.len() - i,
        {
            if self.attaches_at(cells[i]) {
                return Ok(());
            }
            i = i + 1;
        }
        assert(!(exists|i: int| 0 <= i < cells@.len() && self.attaches(#[trigger] cells@[i])));
        Err(PieceError::NoAttachment)
    }

    /// The tutorial's rule plus ownership: a piece must touch the owner's own
    /// island edge or open bridge end; it may also touch other players' ground.
    pub fn can_place_piece_for(&self, owner: u8, cells: &[Cell]) -> (r: Result<(), PieceError>)
        requires
            self.wf(),
            forall|i: int| 0 <= i < cells@.len() ==> inside(#[trigger] cells@[i]),
        ensures
            r == self.spec_can_place_piece_for(owner, cells@),
    {
        match self.can_place_piece(cells) {
            Err(e) => {
                return Err(e);
            },
            Ok(()) => {},
        }
        let mut i: usize = 0;
        while i < cells.len()
            invariant
                self.wf(),
                i <= cells@.len(),
                forall|i: int| 0 <= i < cells@.len() ==> inside(#[trigger] cells@[i]),
                forall|j: int| 0 <= j < i ==> !self.attaches_own(#[trigger] cells@[j], owner),
                self.spec_can_place_piece(cells@) == Ok::<(), PieceError>(()),
            decreases cells@.len() - i,
        {
            if self.attaches_own_at(cells[i], owner) {
                return Ok(());
            }
            i = i + 1;
        }
        Err(PieceError::NotOwnGround)
    }

    /// Lay a piece for `owner` where the rules allow it: its cells become
    /// that owner's bridge cells and a `PiecePlaced` event is recorded at
    /// the first cell. Where they do not, nothing changes.
    pub fn place_piece_for(&mut self, owner: u8, cells: &[Cell]) -> (r: Result<(), PieceError>)
        requires
            old(self).wf(),
            forall|i: int| 0 <= i < cells@.len() ==> inside(#[trigger] cells@[i]),
        ensures
            final(self).wf(),
            r == old(self).spec_can_place_piece_for(owner, cells@),
            r is Err ==> *final(self) == *old(self),
            r is Ok ==> final(self).same_but_bridges(*old(self))
                && final(self).bridges@ == with_cells(old(self).bridges@, cells@, BridgeState::Normal)
                && final(self).bridge_owners@ == with_cells(old(self).bridge_owners@, cells@, owner)
                && final(self).bridge_version == bumped(old(self).bridge_version)
                && final(self).events@.len() == old(self).events@.len() + 1
                && final(self).events@.drop_last() == old(self).events@
                && cells@.len() > 0
                && is_event(final(self).events@.last(), EventKind::PiecePlaced, cells@[0], owner),
    {
        match self.can_place_piece_for(owner, cells) {
            Err(e) => {
                return Err(e);
            },
            Ok(()) => {},
        }
        let ghost before = *self;
        let mut i: usize = 0;
        proof {
            assert(self.bridges@ =~= with_cells(before.bridges@, cells@.subrange(0, 0), BridgeState::Normal));
            assert(self.bridge_owners@ =~= with_cells(before.bridge_owners@, cells@.subrange(0, 0), owner));
        }
        while i < cells.len()
            invariant
                before.wf(),
                i <= cells@.len(),
                forall|i: int| 0 <= i < cells@.len() ==> inside(#[trigger] cells@[i]),
                self.same_but_bridges(before),
                self.events == before.events,
                self.bridge_version == before.bridge_version,
                self.bridges.wf() && self.bridge_owners.wf(),
                self.bridges@ == with_cells(before.bridges@, cells@.subrange(0, i as int), BridgeState::Normal),
                self.bridge_owners@ == with_cells(before.bridge_owners@, cells@.subrange(0, i as int), owner),
            decreases cells@.len() - i,
        {
            let c = cells[i];
            self.bridges.insert(c, BridgeState::Normal);
            self.bridge_owners.insert(c, owner);
            proof {
                let s = cells@.subrange(0, i as int);
                let s1 = cells@.subrange(0, i + 1);
                assert(s1 =~= s.push(c));
                assert forall|x: Cell| s1.contains(x) <==> s.contains(x) || x == c by {
                    if s1.contains(x) {
                        let k = choose|k: int| 0 <= k < s1.len() && s1[k] == x;
                        if k < i {
                            assert(s[k] == x);
                        }
                    }
                    if s.contains(x) {
                        let k = choose|k: int| 0 <= k < s.len() && s[k] == x;
                        assert(s1[k] == x);
                    }
                    if x == c {
                        assert(s1[i as int] == x);
                    }
                }
                assert(self.bridges@ =~= with_cells(before.bridges@, s1, BridgeState::Normal));
                assert(self.bridge_owners@ =~= with_cells(before.bridge_owners@, s1, owner));
            }
            i = i + 1;
        }
        self.bridge_version = bump(self.bridge_version);
        self.events.push(event(EventKind::PiecePlaced, cells[0], owner));
        proof {
            assert(cells@.subrange(0, cells@.len() as int) =~= cells@);
            assert forall|c: Cell| #[trigger] self.spec_is_ground(c) implies inside(c) by {
                if !before.spec_is_ground(c) {
                    assert(cells@.contains(c));
                    let k = choose|k: int| 0 <= k < cells@.len() && cells@[k] == c;
                    assert(inside(cells@[k]));
                }
            }
            assert(self.events@.drop_last() =~= before.events@);
        }
        Ok(())
    }

    /// A piece laid for the local player (owner 0).
    pub fn place_piece(&mut self, cells: &[Cell]) -> (r: Result<(), PieceError>)
        requires
            old(self).wf(),
            forall|i: int| 0 <= i < cells@.len() ==> inside(#[trigger] cells@[i]),
        ensures
            final(self).wf(),
            r == old(self).spec_can_place_piece_for(0, cells@),
            r is Err ==> *final(self) == *old(self),
            r is Ok ==> final(self).same_but_bridges(*old(self))
                && final(self).bridges@ == with_cells(old(self).bridges@, cells@, BridgeState::Normal)
                && final(self).bridge_owners@ == with_cells(old(self).bridge_owners@, cells@, 0)
                && final(self).bridge_version == bumped(old(self).bridge_version)
                && final(self).events@.len() == old(self).events@.len() + 1
                && final(self).events@.drop_last() == old(self).events@
                && cells@.len() > 0
                && is_event(final(self).events@.last(), EventKind::PiecePlaced, cells@[0], 0),
    {
        self.place_piece_for(0, cells)
    }

    /// Crack a bridge cell; hardened and already cracked cells stay as they are.
    pub fn crack_bridge(&mut self, cell: Cell) -> (r: bool)
        requires
            old(self).wf(),
        ensures
            final(self).wf(),
            r == (old(self).bridges@.dom().contains(cell) && old(self).bridges@[cell] == BridgeState::Normal),
            !r ==> *final(self) == *old(self),
            r ==> final(self).same_but_bridges(*old(self)) && final(self).events == old(self).events
                && final(self).bridge_owners == old(self).bridge_owners
                && final(self).bridges@ == old(self).bridges@.insert(cell, BridgeState::Cracked)
                && final(self).bridge_version == bumped(old(self).bridge_version),
    {
        match self.bridges.get(cell) {
            Some(BridgeState::Normal) => {
                let ghost before = *self;
                self.bridges.insert(cell, BridgeState::Cracked);
                self.bridge_version = bump(self.bridge_version);
                proof {
                    assert forall|c: Cell| #[trigger] self.spec_is_ground(c) implies inside(c) by {
                        assert(before.spec_is_ground(c));
                    }
                }
                true
            },
            _ => false,
        }
    }

    /// Harden a bridge cell so it cannot crack.
    pub fn harden_bridge(&mut self, cell: Cell) -> (r: bool)
        requires
            old(self).wf(),
        ensures
            final(self).wf(),
            r == (old(self).bridges@.dom().contains(cell) && old(self).bridges@[cell] != BridgeState::Hard),
            !r ==> *final(self) == *old(self),
            r ==> final(self).same_but_bridges(*old(self)) && final(self).events == old(self).events
                && final(self).bridge_owners == old(self).bridge_owners
                && final(self).bridges@ == old(self).bridges@.insert(cell, BridgeState::Hard)
                && final(self).bridge_version == bumped(old(self).bridge_version),
    {
        match self.bridges.get(cell) {
            Some(s) => {
                if s != BridgeState::Hard {
                    let ghost before = *self;
                    self.bridges.insert(cell, BridgeState::Hard);
                    self.bridge_version = bump(self.bridge_version);
                    proof {
                        assert forall|c: Cell| #[trigger] self.spec_is_ground(c) implies inside(c) by {
                            assert(before.spec_is_ground(c));
                        }
                    }
                    true
                } else {
                    false
                }
            },
            None => false,
        }
    }
}

/// The cells of all the islands.
pub open spec fn island_union(isl: Seq<IslandMap>) -> Set<Cell>
    decreases isl.len(),
{
    if isl.len() == 0 { Set::empty() } else { island_union(isl.drop_last()).union(isl.last().view()) }
}

proof fn lemma_island_union(isl: Seq<IslandMap>)
    ensures
        island_union(isl).finite(),
        forall|c: Cell| island_union(isl).contains(c) <==> exists|i: int| 0 <= i < isl.len() && (#[trigger] isl[i]).view().contains(c),
    decreases isl.len(),
{
    if isl.len() > 0 {
        lemma_island_union(isl.drop_last());
        isl.last().lemma_finite();
        assert forall|c: Cell| island_union(isl).contains(c) <==> exists|i: int| 0 <= i < isl.len() && (#[trigger] isl[i]).view().contains(c) by {
            if island_union(isl).contains(c) {
                if island_union(isl.drop_last()).contains(c) {
                    let i = choose|i: int| 0 <= i < isl.drop_last().len() && (#[trigger] isl.drop_last()[i]).view().contains(c);
                    assert(isl[i] == isl.drop_last()[i]);
                } else {
                    assert(isl[isl.len() - 1] == isl.last());
                }
            }
            if exists|i: int| 0 <= i < isl.len() && (#[trigger] isl[i]).view().contains(c) {
                let i = choose|i: int| 0 <= i < isl.len() && (#[trigger] isl[i]).view().contains(c);
                if i < isl.len() - 1 {
                    assert(isl[i] == isl.drop_last()[i]);
                }
            }
        }
    }
}

/// The neighbour back the way one came.
proof fn lemma_nb_back(c: Cell, d: int)
    requires
        inside(c),
        0 <= d < 4,
    ensures
        inside(nb(c, d)) || on_grid(nb(c, d)),
        on_grid(nb(c, d)),
        nb(nb(c, d), (d + 2) % 4) == c,
{
}

impl World {
    /// Whether `c` is ground joined to a natural island in at most `k`
    /// steps from ground cell to neighbouring ground cell.
    pub open spec fn reach(&self, c: Cell, k: nat) -> bool
        decreases k,
    {
        if k == 0 {
            self.spec_on_island(c)
        } else {
            self.reach(c, (k - 1) as nat) || (self.spec_is_ground(c) && (self.reach(nb(c, 0), (k - 1) as nat)
                || self.reach(nb(c, 1), (k - 1) as nat) || self.reach(nb(c, 2), (k - 1) as nat)
                || self.reach(nb(c, 3), (k - 1) as nat)))
        }
    }

    /// Ground joined, through ground, to a natural island.
    pub open spec fn spec_supported(&self, c: Cell) -> bool {
        exists|k: nat| self.reach(c, k)
    }

    /// All ground cells.
    pub open spec fn ground_set(&self) -> Set<Cell> {
        Set::new(|c: Cell| self.spec_is_ground(c))
    }

    proof fn lemma_ground_finite(&self)
        requires
            self.wf(),
        ensures
            self.ground_set().finite(),
    {
        lemma_island_union(self.islands@);
        self.platforms.lemma_finite();
        self.bridges.lemma_dom_finite();
        assert(self.ground_set() =~= self.platforms.view().union(island_union(self.islands@)).union(self.bridges@.dom()));
    }

    proof fn lemma_reach_ground(&self, c: Cell, k: nat)
        requires
            self.reach(c, k),
        ensures
            self.spec_is_ground(c),
        decreases k,
    {
        if k > 0 && self.reach(c, (k - 1) as nat) {
            self.lemma_reach_ground(c, (k - 1) as nat);
        }
    }

    proof fn lemma_reach_step(&self, c: Cell, k: nat, d: int)
        requires
            self.wf(),
            self.reach(c, k),
            0 <= d < 4,
            self.spec_is_ground(nb(c, d)),
        ensures
            self.reach(nb(c, d), k + 1),
    {
        self.lemma_reach_ground(c, k);
        lemma_nb_back(c, d);
        let n = nb(c, d);
        let e = (d + 2) % 4;
        assert(nb(n, e) == c);
        if e == 0 {
            assert(self.reach(nb(n, 0), k));
        } else if e == 1 {
            assert(self.reach(nb(n, 1), k));
        } else if e == 2 {
            assert(self.reach(nb(n, 2), k));
        } else {
            assert(self.reach(nb(n, 3), k));
        }
    }

    proof fn lemma_closed_complete(&self, r: Set<Cell>, c: Cell, k: nat)
        requires
            self.wf(),
            forall|x: Cell| #[trigger] self.spec_on_island(x) ==> r.contains(x),
            forall|x: Cell, d: int| r.contains(x) && 0 <= d < 4 && #[trigger] self.spec_is_ground(nb(x, d)) ==> r.contains(nb(x, d)),
            self.reach(c, k),
        ensures
            r.contains(c),
        decreases k,
    {
        if k > 0 {
            let j = (k - 1) as nat;
            if self.reach(c, j) {
                self.lemma_closed_complete(r, c, j);
            } else {
                assert(self.spec_is_ground(c));
                let d: int = if self.reach(nb(c, 0), j) { 0 } else if self.reach(nb(c, 1), j) { 1 } else if self.reach(nb(c, 2), j) { 2 } else { 3 };
                let x = nb(c, d);
                self.lemma_closed_complete(r, x, j);
                lemma_nb_back(c, d);
                assert(nb(x, (d + 2) % 4) == c);
                assert(self.spec_is_ground(nb(x, (d + 2) % 4)));
            }
        }
    }

    /// Cells of ground connected, through ground, to a natural island.
    pub fn supported(&self) -> (r: IslandMap)
        requires
            self.wf(),
        ensures
            r.wf(),
            forall|c: Cell| #[trigger] r.view().contains(c) <==> self.spec_supported(c),
    {
        let mut reached = IslandMap::new();
        let mut frontier: Vec<Cell> = Vec::new();
        let mut i: usize = 0;
        while i < self.islands.len()
            invariant
                self.wf(),
                reached.wf(),
                i <= self.islands@.len(),
                forall|c: Cell| #[trigger] reached.view().contains(c) ==> self.spec_on_island(c),
                forall|j: int, c: Cell| #![trigger self.islands@[j].view().contains(c)] 0 <= j < i && self.islands@[j].view().contains(c) ==> reached.view().contains(c),
                forall|c: Cell| #[trigger] reached.view().contains(c) ==> frontier@.contains(c),
                forall|k: int| 0 <= k < frontier@.len() ==> reached.view().contains(#[trigger] frontier@[k]),
            decreases self.islands@.len() - i,
        {
            let cs = self.islands[i].cells();
            let mut k: usize = 0;
            while k < cs.len()
                invariant
                    self.wf(),
                    reached.wf(),
                    i < self.islands@.len(),
                    k <= cs@.len(),
                    cs@.to_set() == self.islands@[i as int].view(),
                    forall|c: Cell| #[trigger] reached.view().contains(c) ==> self.spec_on_island(c),
                    forall|j: int, c: Cell| #![trigger self.islands@[j].view().contains(c)] 0 <= j < i && self.islands@[j].view().contains(c) ==> reached.view().contains(c),
                    forall|m: int| 0 <= m < k ==> reached.view().contains(#[trigger] cs@[m]),
                    forall|c: Cell| #[trigger] reached.view().contains(c) ==> frontier@.contains(c),
                    forall|m: int| 0 <= m < frontier@.len() ==> reached.view().contains(#[trigger] frontier@[m]),
                decreases cs@.len() - k,
            {
                let c = cs[k];
                proof {
                    assert(cs@.to_set().contains(c));
                    assert(self.islands@[i as int].view().contains(c));
                }
                let ghost fb = frontier@;
                let ghost rb = reached.view();
                if reached.insert(c) {
                    frontier.push(c);
                    proof {
                        assert forall|x: Cell| #[trigger] reached.view().contains(x) implies frontier@.contains(x) by {
                            if x == c {
                                assert(frontier@[frontier@.len() - 1] == c);
                            } else {
                                assert(rb.contains(x));
                                assert(fb.contains(x));
                                let m = choose|m: int| 0 <= m < fb.len() && fb[m] == x;
                                assert(frontier@[m] == x);
                            }
                        }
                        assert forall|m: int| 0 <= m < frontier@.len() implies reached.view().contains(#[trigger] frontier@[m]) by {
                            if m < fb.len() {
                                assert(frontier@[m] == fb[m]);
                            }
                        }
                    }
                }
                k = k + 1;
            }
            proof {
                assert forall|j: int, c: Cell| #![trigger self.islands@[j].view().contains(c)] 0 <= j < i + 1 && self.islands@[j].view().contains(c) implies reached.view().contains(c) by {
                    if j == i {
                        assert(cs@.to_set().contains(c));
                        let m = choose|m: int| 0 <= m < cs@.len() && cs@[m] == c;
                        assert(reached.view().contains(cs@[m]));
                    }
                }
            }
            i = i + 1;
        }
        proof {
            assert forall|c: Cell| #[trigger] reached.view().contains(c) implies self.spec_supported(c) by {
                assert(self.reach(c, 0));
            }
            assert forall|c: Cell| #[trigger] self.spec_on_island(c) implies reached.view().contains(c) by {
                let j = choose|j: int| 0 <= j < self.islands@.len() && (#[trigger] self.islands@[j]).view().contains(c);
            }
            self.lemma_ground_finite();
            assert forall|c: Cell| #[trigger] reached.view().contains(c) implies self.ground_set().contains(c) by {}
            vstd::set_lib::lemma_len_subset(reached.view(), self.ground_set());
        }
        while frontier.len() > 0
            invariant
                self.wf(),
                reached.wf(),
                self.ground_set().finite(),
                reached.view().subset_of(self.ground_set()),
                forall|c: Cell| #[trigger] reached.view().contains(c) ==> self.spec_supported(c),
                forall|c: Cell| #[trigger] self.spec_on_island(c) ==> reached.view().contains(c),
                forall|m: int| 0 <= m < frontier@.len() ==> reached.view().contains(#[trigger] frontier@[m]),
                forall|x: Cell, d: int| reached.view().contains(x) && !frontier@.contains(x) && 0 <= d < 4
                    && #[trigger] self.spec_is_ground(nb(x, d)) ==> reached.view().contains(nb(x, d)),
            decreases self.ground_set().len() - reached.view().len(), frontier@.len(),
        {
            let ghost f0 = frontier@;
            let ghost r0 = reached.view();
            let c = frontier.pop().unwrap();
            proof {
                assert(frontier@ =~= f0.drop_last());
                assert(c == f0[f0.len() - 1]);
                vstd::set_lib::lemma_len_subset(reached.view(), self.ground_set());
                reached.lemma_finite();
            }
            let mut d: usize = 0;
            while d < 4
                invariant
                    self.wf(),
                    reached.wf(),
                    self.ground_set().finite(),
                    reached.view().subset_of(self.ground_set()),
                    r0.finite(),
                    r0.subset_of(reached.view()),
                    r0.contains(c),
                    d <= 4,
                    f0.len() > 0 && c == f0[f0.len() - 1],
                    reached.view().len() >= r0.len(),
                    reached.view() == r0 ==> frontier@ == f0.drop_last(),
                    reached.view() != r0 ==> reached.view().len() > r0.len(),
                    frontier@.len() >= f0.len() - 1,
                    forall|m: int| 0 <= m < f0.len() - 1 ==> frontier@[m] == #[trigger] f0[m],
                    forall|m: int| f0.len() - 1 <= m < frontier@.len() ==> !r0.contains(#[trigger] frontier@[m]),
                    forall|c: Cell| #[trigger] reached.view().contains(c) ==> self.spec_supported(c),
                    forall|c: Cell| #[trigger] self.spec_on_island(c) ==> reached.view().contains(c),
                    forall|m: int| 0 <= m < frontier@.len() ==> reached.view().contains(#[trigger] frontier@[m]),
                    forall|x: Cell, d: int| r0.contains(x) && !f0.contains(x) && 0 <= d < 4
                        && #[trigger] self.spec_is_ground(nb(x, d)) ==> reached.view().contains(nb(x, d)),
                    forall|x: Cell| reached.view().contains(x) && !r0.contains(x) ==> frontier@.contains(x),
                    forall|e: int| 0 <= e < d && #[trigger] self.spec_is_ground(nb(c, e)) ==> reached.view().contains(nb(c, e)),
                decreases 4 - d,
            {
                proof {
                    self.lemma_reach_ground(c, choose|k: nat| self.reach(c, k));
                }
                let n = step(c, d);
                if self.is_ground(n) {
                    let ghost before = reached.view();
                    let ghost fb = frontier@;
                    if reached.insert(n) {
                        frontier.push(n);
                        proof {
                            let k = choose|k: nat| self.reach(c, k);
                            self.lemma_reach_step(c, k, d as int);
                            reached.lemma_finite();
                            assert(reached.view().len() == before.len() + 1);
                            assert(frontier@[frontier@.len() - 1] == n);
                            assert forall|x: Cell| reached.view().contains(x) && !r0.contains(x) implies frontier@.contains(x) by {
                                if x == n {
                                    assert(frontier@[frontier@.len() - 1] == x);
                                } else {
                                    let m = choose|m: int| 0 <= m < fb.len() && fb[m] == x;
                                    assert(frontier@[m] == x);
                                }
                            }
                            assert(reached.view() != r0) by {
                                assert(!r0.contains(n));
                            }
                            assert forall|m: int| 0 <= m < fb.len() implies frontier@[m] == fb[m] by {}
                            assert forall|m: int| f0.len() - 1 <= m < frontier@.len() implies !r0.contains(#[trigger] frontier@[m]) by {
                                if m < fb.len() {
                                    assert(frontier@[m] == fb[m]);
                                } else {
                                    assert(frontier@[m] == n);
                                }
                            }
                            assert forall|m: int| 0 <= m < frontier@.len() implies reached.view().contains(#[trigger] frontier@[m]) by {
                                if m < fb.len() {
                                    assert(frontier@[m] == fb[m]);
                                }
                            }
                        }
                    } else {
                        assert(reached.view() =~= before);
                    }
                }
                d = d + 1;
            }
            proof {
                vstd::set_lib::lemma_len_subset(reached.view(), self.ground_set());
                assert forall|x: Cell, e: int| reached.view().contains(x) && !frontier@.contains(x) && 0 <= e < 4
                    && #[trigger] self.spec_is_ground(nb(x, e)) implies reached.view().contains(nb(x, e)) by {
                    if x == c {
                    } else if r0.contains(x) {
                        if f0.contains(x) {
                            let m = choose|m: int| 0 <= m < f0.len() && f0[m] == x;
                            assert(m != f0.len() - 1);
                            assert(frontier@[m] == x);
                        }
                    }
                }
            }
        }
        proof {
            assert forall|c: Cell| #[trigger] reached.view().contains(c) <==> self.spec_supported(c) by {
                if self.spec_supported(c) {
                    let k = choose|k: nat| self.reach(c, k);
                    self.lemma_closed_complete(reached.view(), c, k);
                }
            }
        }
        reached
    }
}

/// `c` is the first cell of `s` in the order cells are listed.
pub open spec fn least_of(s: Set<Cell>, c: Cell) -> bool {
    s.contains(c) && forall|g: Cell| #[trigger] s.contains(g) && g != c ==> cell_lt(c, g)
}

/// The value `m` holds for `c`, zero where it holds none.
pub open spec fn owner_or_zero(m: Map<Cell, u8>, c: Cell) -> u8 {
    if m.dom().contains(c) { m[c] } else { 0 }
}

proof fn lemma_sorted_least(s: Seq<Cell>, i: int, set: Set<Cell>)
    requires
        sorted_cells(s),
        0 <= i < s.len(),
        set.contains(s[i]),
        forall|j: int| 0 <= j < i ==> !set.contains(#[trigger] s[j]),
        forall|g: Cell| #[trigger] set.contains(g) ==> s.contains(g),
    ensures
        least_of(set, s[i]),
{
    assert forall|g: Cell| #[trigger] set.contains(g) && g != s[i] implies cell_lt(s[i], g) by {
        let j = choose|j: int| 0 <= j < s.len() && s[j] == g;
        if j < i {
            assert(!set.contains(s[j]));
        }
        assert(j != i);
    }
}

impl World {
    /// A bridge cell that loses its footing now: unsupported and not yet doomed.
    pub open spec fn newly_doomed(&self, c: Cell) -> bool {
        self.spec_is_bridge(c) && !self.spec_supported(c) && !self.doomed@.dom().contains(c)
    }

    /// A platform cell without support.
    pub open spec fn falls(&self, c: Cell) -> bool {
        self.platforms.view().contains(c) && !self.spec_supported(c)
    }

    pub open spec fn newly_set(&self) -> Set<Cell> {
        Set::new(|c: Cell| self.newly_doomed(c))
    }

    pub open spec fn fall_set(&self) -> Set<Cell> {
        Set::new(|c: Cell| self.falls(c))
    }

    /// The bridges after settling: the newly doomed crack unless hardened.
    pub open spec fn settled_bridges(&self) -> Map<Cell, BridgeState> {
        Map::new(
            |c: Cell| self.bridges@.dom().contains(c),
            |c: Cell| if self.newly_doomed(c) && self.bridges@[c] != BridgeState::Hard { BridgeState::Cracked } else { self.bridges@[c] },
        )
    }

    /// The doomed cells after settling: the newly doomed start their count.
    pub open spec fn settled_doomed(&self) -> Map<Cell, u32> {
        Map::new(
            |c: Cell| self.doomed@.dom().contains(c) || self.newly_doomed(c),
            |c: Cell| if self.doomed@.dom().contains(c) { self.doomed@[c] } else { self.crumble_ticks },
        )
    }

    /// What settling makes of this world: `after` is this world once the
    /// unsupported bridges are doomed and the unsupported platforms have
    /// fallen, `fell` platform cells falling.
    pub open spec fn settled(&self, after: World, fell: nat) -> bool {
        &&& after.islands == self.islands
        &&& after.island_owners == self.island_owners
        &&& after.island_neutral == self.island_neutral
        &&& after.bridge_owners == self.bridge_owners
        &&& after.crumble_ticks == self.crumble_ticks
        &&& after.bridges@ == self.settled_bridges()
        &&& after.doomed@ == self.settled_doomed()
        &&& after.bridge_version == (if self.newly_set().is_empty() { self.bridge_version } else { bumped(self.bridge_version) })
        &&& after.platforms.view() == Set::new(|c: Cell| self.platforms.view().contains(c) && self.spec_supported(c))
        &&& after.platform_owners@ == Map::new(|c: Cell| self.platform_owners@.dom().contains(c) && !self.falls(c), |c: Cell| self.platform_owners@[c])
        &&& after.terrain_version == (if self.fall_set().is_empty() { self.terrain_version } else { bumped(self.terrain_version) })
        &&& fell == self.fall_set().len()
        &&& ({
            let k0 = self.events@.len();
            let k1 = k0 + if self.newly_set().is_empty() { 0int } else { 1int };
            &&& after.events@.len() == k1 + if self.fall_set().is_empty() { 0int } else { 1int }
            &&& after.events@.subrange(0, k0 as int) == self.events@
            &&& !self.newly_set().is_empty() ==> exists|c: Cell| least_of(self.newly_set(), c)
                && is_event(#[trigger] after.events@[k0 as int], EventKind::BridgeCracked, c, owner_or_zero(self.bridge_owners@, c))
            &&& !self.fall_set().is_empty() ==> exists|c: Cell| least_of(self.fall_set(), c)
                && is_event(#[trigger] after.events@[k1], EventKind::IslandFell, c, owner_or_zero(self.platform_owners@, c))
        })
    }

    /// Find bridge cells with no connection to a natural island: they crack
    /// (hardened ones stay hard) and start crumbling, and a `BridgeCracked`
    /// event names the first of them. Platforms with no support fall at
    /// once, with an `IslandFell` event at the first of their cells.
    /// Returns how many platform cells fell.
    #[verifier::rlimit(40)]
    pub fn settle(&mut self) -> (fell: usize)
        requires
            old(self).wf(),
        ensures
            final(self).wf(),
            old(self).settled(*final(self), fell as nat),
    {
        let ghost w0 = *self;
        let reached = self.supported();
        let crumble = self.crumble_ticks;
        let keys = self.bridges.keys();
        proof {
            self.bridges.lemma_sorted();
            let el = self.bridges.entry_list();
            assert forall|a: int, b: int| 0 <= a < b < keys@.len() implies cell_lt(#[trigger] keys@[a], #[trigger] keys@[b]) by {
                assert(keys@[a] == el[a].0 && keys@[b] == el[b].0);
                assert(cell_lt(el[a].0, el[b].0));
            }
        }
        let mut changed: Option<Cell> = None;
        let mut i: usize = 0;
        while i < keys.len()
            invariant
                w0.wf(),
                reached.wf(),
                forall|c: Cell| #[trigger] reached.view().contains(c) <==> w0.spec_supported(c),
                crumble == w0.crumble_ticks,
                i <= keys@.len(),
                keys@.len() == w0.bridges.entry_list().len(),
                forall|j: int| 0 <= j < keys@.len() ==> keys@[j] == (#[trigger] w0.bridges.entry_list()[j]).0,
                forall|c: Cell| keys@.contains(c) <==> w0.bridges@.dom().contains(c),
                sorted_cells(keys@),
                self.islands == w0.islands && self.island_owners == w0.island_owners && self.island_neutral == w0.island_neutral,
                self.platforms == w0.platforms && self.platform_owners == w0.platform_owners,
                self.bridge_owners == w0.bridge_owners && self.crumble_ticks == w0.crumble_ticks,
                self.terrain_version == w0.terrain_version && self.bridge_version == w0.bridge_version && self.events == w0.events,
                self.bridges.wf() && self.doomed.wf(),
                self.bridges@ == Map::new(
                    |c: Cell| w0.bridges@.dom().contains(c),
                    |c: Cell| if w0.newly_doomed(c) && keys@.subrange(0, i as int).contains(c) && w0.bridges@[c] != BridgeState::Hard { BridgeState::Cracked } else { w0.bridges@[c] },
                ),
                self.doomed@ == Map::new(
                    |c: Cell| w0.doomed@.dom().contains(c) || (w0.newly_doomed(c) && keys@.subrange(0, i as int).contains(c)),
                    |c: Cell| if w0.doomed@.dom().contains(c) { w0.doomed@[c] } else { w0.crumble_ticks },
                ),
                changed is None ==> forall|j: int| 0 <= j < i ==> !w0.newly_doomed(#[trigger] keys@[j]),
                changed matches Some(c) ==> exists|j: int| 0 <= j < i && keys@[j] == c && w0.newly_doomed(c)
                    && forall|m: int| 0 <= m < j ==> !w0.newly_doomed(#[trigger] keys@[m]),
            decreases keys@.len() - i,
        {
            let c = keys[i];
            proof {
                assert(keys@.contains(c));
                let s0 = keys@.subrange(0, i as int);
                let s1 = keys@.subrange(0, i + 1);
                assert forall|x: Cell| s1.contains(x) <==> s0.contains(x) || x == c by {
                    if s1.contains(x) {
                        let m = choose|m: int| 0 <= m < s1.len() && s1[m] == x;
                        if m < i {
                            assert(s0[m] == x);
                        }
                    }
                    if s0.contains(x) {
                        let m = choose|m: int| 0 <= m < s0.len() && s0[m] == x;
                        assert(s1[m] == x);
                    }
                    if x == c {
                        assert(s1[i as int] == x);
                    }
                }
                assert(!s0.contains(c)) by {
                    if s0.contains(c) {
                        let m = choose|m: int| 0 <= m < s0.len() && s0[m] == c;
                        assert(keys@[m] == c);
                        assert(cell_lt(keys@[m], keys@[i as int]));
                    }
                }
            }
            if !reached.contains(c) && !self.doomed.contains_key(c) {
                let ghost b1 = self.bridges@;
                let ghost d1 = self.doomed@;
                self.doomed.insert(c, crumble);
                let st = self.bridges.get(c);
                match st {
                    Some(BridgeState::Hard) => {},
                    _ => {
                        self.bridges.insert(c, BridgeState::Cracked);
                    },
                }
                if changed.is_none() {
                    changed = Some(c);
                }
                proof {
                    assert(w0.newly_doomed(c));
                    assert(self.bridges@ =~= Map::new(
                        |x: Cell| w0.bridges@.dom().contains(x),
                        |x: Cell| if w0.newly_doomed(x) && keys@.subrange(0, i + 1).contains(x) && w0.bridges@[x] != BridgeState::Hard { BridgeState::Cracked } else { w0.bridges@[x] },
                    ));
                    assert(self.doomed@ =~= Map::new(
                        |x: Cell| w0.doomed@.dom().contains(x) || (w0.newly_doomed(x) && keys@.subrange(0, i + 1).contains(x)),
                        |x: Cell| if w0.doomed@.dom().contains(x) { w0.doomed@[x] } else { w0.crumble_ticks },
                    ));
                }
            } else {
                proof {
                    assert(!w0.newly_doomed(c));
                    assert(self.bridges@ =~= Map::new(
                        |x: Cell| w0.bridges@.dom().contains(x),
                        |x: Cell| if w0.newly_doomed(x) && keys@.subrange(0, i + 1).contains(x) && w0.bridges@[x] != BridgeState::Hard { BridgeState::Cracked } else { w0.bridges@[x] },
                    ));
                    assert(self.doomed@ =~= Map::new(
                        |x: Cell| w0.doomed@.dom().contains(x) || (w0.newly_doomed(x) && keys@.subrange(0, i + 1).contains(x)),
                        |x: Cell| if w0.doomed@.dom().contains(x) { w0.doomed@[x] } else { w0.crumble_ticks },
                    ));
                }
            }
            i = i + 1;
        }
        proof {
            assert(keys@.subrange(0, keys@.len() as int) =~= keys@);
            assert(self.bridges@ =~= w0.settled_bridges());
            assert(self.doomed@ =~= w0.settled_doomed());
        }
        match changed {
            Some(c) => {
                self.bridge_version = bump(self.bridge_version);
                let owner = match self.bridge_owners.get(c) {
                    Some(o) => o,
                    None => 0,
                };
                self.events.push(event(EventKind::BridgeCracked, c, owner));
                proof {
                    let j = choose|j: int| 0 <= j < keys@.len() && keys@[j] == c && w0.newly_doomed(c)
                        && forall|m: int| 0 <= m < j ==> !w0.newly_doomed(#[trigger] keys@[m]);
                    assert forall|g: Cell| #[trigger] w0.newly_set().contains(g) implies keys@.contains(g) by {}
                    lemma_sorted_least(keys@, j, w0.newly_set());
                    assert(w0.newly_set().contains(c));
                    assert(!w0.newly_set().is_empty());
                    assert(is_event(self.events@[w0.events@.len() as int], EventKind::BridgeCracked, c, owner_or_zero(w0.bridge_owners@, c)));
                }
            },
            None => {
                proof {
                    assert(w0.newly_set() =~= Set::<Cell>::empty()) by {
                        assert forall|g: Cell| !w0.newly_set().contains(g) by {
                            if w0.newly_set().contains(g) {
                                assert(keys@.contains(g));
                                let j = choose|j: int| 0 <= j < keys@.len() && keys@[j] == g;
                                assert(!w0.newly_doomed(keys@[j]));
                            }
                        }
                    }
                }
            },
        }
        let ghost w1 = *self;
        let cells = self.platforms.cells();
        let mut falling: Vec<Cell> = Vec::new();
        let mut k: usize = 0;
        while k < cells.len()
            invariant
                reached.wf(),
                forall|c: Cell| #[trigger] reached.view().contains(c) <==> w0.spec_supported(c),
                k <= cells@.len(),
                cells@.to_set() == w0.platforms.view(),
                sorted_cells(cells@),
                sorted_cells(falling@),
                forall|x: Cell| falling@.contains(x) <==> exists|m: int| 0 <= m < k && cells@[m] == x && !w0.spec_supported(x),
                forall|m: int| 0 <= m < falling@.len() ==> exists|j: int| 0 <= j < k && cells@[j] == #[trigger] falling@[m],
                falling@.len() > 0 ==> exists|j: int| 0 <= j < k && cells@[j] == falling@[0]
                    && forall|m: int| 0 <= m < j ==> w0.spec_supported(#[trigger] cells@[m]),
                falling@.len() == 0 ==> forall|m: int| 0 <= m < k ==> w0.spec_supported(#[trigger] cells@[m]),
                w1.platforms == w0.platforms,
            decreases cells@.len() - k,
        {
            let c = cells[k];
            if !reached.contains(c) {
                let ghost fb = falling@;
                falling.push(c);
                proof {
                    assert forall|a: int, b: int| 0 <= a < b < falling@.len() implies cell_lt(#[trigger] falling@[a], #[trigger] falling@[b]) by {
                        if b == falling@.len() - 1 {
                            let j = choose|j: int| 0 <= j < k && cells@[j] == #[trigger] fb[a];
                            assert(cell_lt(cells@[j], cells@[k as int]));
                        } else {
                            assert(falling@[a] == fb[a] && falling@[b] == fb[b]);
                        }
                    }
                    assert forall|x: Cell| falling@.contains(x) <==> exists|m: int| 0 <= m < k + 1 && cells@[m] == x && !w0.spec_supported(x) by {
                        if falling@.contains(x) {
                            let m = choose|m: int| 0 <= m < falling@.len() && falling@[m] == x;
                            if m < fb.len() {
                                assert(fb[m] == x);
                                assert(fb.contains(x));
                            } else {
                                assert(cells@[k as int] == x);
                            }
                        }
                        if exists|m: int| 0 <= m < k + 1 && cells@[m] == x && !w0.spec_supported(x) {
                            let m = choose|m: int| 0 <= m < k + 1 && cells@[m] == x && !w0.spec_supported(x);
                            if m < k {
                                assert(fb.contains(x));
                                let q = choose|q: int| 0 <= q < fb.len() && fb[q] == x;
                                assert(falling@[q] == x);
                            } else {
                                assert(falling@[falling@.len() - 1] == x);
                            }
                        }
                    }
                    assert forall|m: int| 0 <= m < falling@.len() implies exists|j: int| 0 <= j < k + 1 && cells@[j] == #[trigger] falling@[m] by {
                        if m < fb.len() {
                            assert(falling@[m] == fb[m]);
                            let j = choose|j: int| 0 <= j < k && cells@[j] == #[trigger] fb[m];
                        } else {
                            assert(cells@[k as int] == falling@[m]);
                        }
                    }
                    if fb.len() > 0 {
                        assert(falling@[0] == fb[0]);
                    }
                }
            }
            k = k + 1;
        }
        proof {
            assert(w0.fall_set() =~= falling@.to_set()) by {
                assert forall|x: Cell| w0.fall_set().contains(x) <==> falling@.to_set().contains(x) by {
                    if w0.fall_set().contains(x) {
                        assert(cells@.to_set().contains(x));
                        let m = choose|m: int| 0 <= m < cells@.len() && cells@[m] == x;
                    }
                    if falling@.contains(x) {
                        let m = choose|m: int| 0 <= m < cells@.len() && cells@[m] == x && !w0.spec_supported(x);
                        assert(cells@.to_set().contains(x));
                    }
                }
            }
            assert(falling@.no_duplicates()) by {
                assert forall|a: int, b: int| 0 <= a < falling@.len() && 0 <= b < falling@.len() && a != b implies falling@[a] != falling@[b] by {
                    if a < b {
                        assert(cell_lt(falling@[a], falling@[b]));
                    } else {
                        assert(cell_lt(falling@[b], falling@[a]));
                    }
                }
            }
            falling@.unique_seq_to_set();
        }
        if falling.len() == 0 {
            proof {
                assert(w0.fall_set() =~= Set::<Cell>::empty());
                assert(self.platforms.view() =~= Set::new(|c: Cell| w0.platforms.view().contains(c) && w0.spec_supported(c)));
                assert(self.platform_owners@ =~= Map::new(|c: Cell| w0.platform_owners@.dom().contains(c) && !w0.falls(c), |c: Cell| w0.platform_owners@[c]));
                assert forall|c: Cell| #[trigger] self.spec_is_ground(c) implies inside(c) by {
                    assert(w0.spec_is_ground(c));
                }
                assert(self.events@.subrange(0, w0.events@.len() as int) =~= w0.events@);
            }
            return 0;
        }
        let first = falling[0];
        let owner = match self.platform_owners.get(first) {
            Some(o) => o,
            None => 0,
        };
        let ghost e1 = self.events@;
        self.events.push(event(EventKind::IslandFell, first, owner));
        let ghost e2 = self.events;
        proof {
            let j = choose|j: int| 0 <= j < cells@.len() && cells@[j] == falling@[0]
                && forall|m: int| 0 <= m < j ==> w0.spec_supported(#[trigger] cells@[m]);
            assert(w0.fall_set().contains(first)) by {
                assert(falling@.contains(first));
            }
            assert forall|m: int| 0 <= m < j implies !w0.fall_set().contains(#[trigger] cells@[m]) by {}
            assert forall|g: Cell| #[trigger] w0.fall_set().contains(g) implies cells@.contains(g) by {
                assert(cells@.to_set().contains(g));
            }
            lemma_sorted_least(cells@, j, w0.fall_set());
        }
        let mut k: usize = 0;
        while k < falling.len()
            invariant
                k <= falling@.len(),
                self.platforms.wf() && self.platform_owners.wf(),
                self.platforms.view() == w0.platforms.view().difference(falling@.subrange(0, k as int).to_set()),
                self.platform_owners@ == w0.platform_owners@.remove_keys(falling@.subrange(0, k as int).to_set()),
                self.islands == w0.islands && self.island_owners == w0.island_owners && self.island_neutral == w0.island_neutral,
                self.bridges == w1.bridges && self.doomed == w1.doomed && self.bridge_owners == w0.bridge_owners,
                self.crumble_ticks == w0.crumble_ticks && self.bridge_version == w1.bridge_version,
                self.terrain_version == w0.terrain_version,
                self.events == e2,
            decreases falling@.len() - k,
        {
            let c = falling[k];
            self.platforms.remove(c);
            self.platform_owners.remove(c);
            proof {
                let q0 = falling@.subrange(0, k as int);
                let q1 = falling@.subrange(0, k + 1);
                let s0 = q0.to_set();
                let s1 = q1.to_set();
                assert(s1 =~= s0.insert(c)) by {
                    assert forall|x: Cell| s1.contains(x) <==> s0.contains(x) || x == c by {
                        if s1.contains(x) {
                            let m = choose|m: int| 0 <= m < q1.len() && q1[m] == x;
                            if m < k {
                                assert(q0[m] == x);
                            }
                        }
                        if s0.contains(x) {
                            let m = choose|m: int| 0 <= m < q0.len() && q0[m] == x;
                            assert(q1[m] == x);
                        }
                        if x == c {
                            assert(q1[k as int] == x);
                        }
                    }
                }
                assert(self.platforms.view() =~= w0.platforms.view().difference(s1));
                assert(self.platform_owners@ =~= w0.platform_owners@.remove_keys(s1));
            }
            k = k + 1;
        }
        self.terrain_version = bump(self.terrain_version);
        proof {
            assert(falling@.subrange(0, falling@.len() as int) =~= falling@);
            assert(self.platforms.view() =~= Set::new(|c: Cell| w0.platforms.view().contains(c) && w0.spec_supported(c)));
            assert(self.platform_owners@ =~= Map::new(|c: Cell| w0.platform_owners@.dom().contains(c) && !w0.falls(c), |c: Cell| w0.platform_owners@[c]));
            assert forall|c: Cell| #[trigger] self.spec_is_ground(c) implies inside(c) by {
                assert(w0.spec_is_ground(c));
            }
            assert(!w0.fall_set().is_empty()) by {
                assert(w0.fall_set().contains(first));
            }
            assert(self.events@.subrange(0, w0.events@.len() as int) =~= w0.events@);
        }
        falling.len()
    }
}

/// Whether the blast of destroying `start` reaches `c` within `k` steps:
/// it runs on from a reached cell into neighbouring cracked bridge cells.
pub open spec fn shock_reach(b: Map<Cell, BridgeState>, start: Cell, c: Cell, k: nat) -> bool
    decreases k,
{
    if k == 0 {
        c == start
    } else {
        shock_reach(b, start, c, (k - 1) as nat) || (b.dom().contains(c) && b[c] == BridgeState::Cracked
            && (shock_reach(b, start, nb(c, 0), (k - 1) as nat) || shock_reach(b, start, nb(c, 1), (k - 1) as nat)
            || shock_reach(b, start, nb(c, 2), (k - 1) as nat) || shock_reach(b, start, nb(c, 3), (k - 1) as nat)))
    }
}

/// Cells destroying `start` takes down: `start` and the cracked cells joined to it through cracked cells.
pub open spec fn shaken(b: Map<Cell, BridgeState>, start: Cell, c: Cell) -> bool {
    exists|k: nat| shock_reach(b, start, c, k)
}

proof fn lemma_shock_in(b: Map<Cell, BridgeState>, start: Cell, c: Cell, k: nat)
    requires
        shock_reach(b, start, c, k),
    ensures
        c == start || (b.dom().contains(c) && b[c] == BridgeState::Cracked),
    decreases k,
{
    if k > 0 && shock_reach(b, start, c, (k - 1) as nat) {
        lemma_shock_in(b, start, c, (k - 1) as nat);
    }
}

proof fn lemma_shock_step(b: Map<Cell, BridgeState>, start: Cell, c: Cell, k: nat, d: int)
    requires
        inside(c),
        shock_reach(b, start, c, k),
        0 <= d < 4,
        b.dom().contains(nb(c, d)),
        b[nb(c, d)] == BridgeState::Cracked,
    ensures
        shock_reach(b, start, nb(c, d), k + 1),
{
    lemma_nb_back(c, d);
    let n = nb(c, d);
    let e = (d + 2) % 4;
    assert(nb(n, e) == c);
    if e == 0 {
        assert(shock_reach(b, start, nb(n, 0), k));
    } else if e == 1 {
        assert(shock_reach(b, start, nb(n, 1), k));
    } else if e == 2 {
        assert(shock_reach(b, start, nb(n, 2), k));
    } else {
        assert(shock_reach(b, start, nb(n, 3), k));
    }
}

proof fn lemma_shock_complete(b: Map<Cell, BridgeState>, start: Cell, r: Set<Cell>, c: Cell, k: nat)
    requires
        r.contains(start),
        forall|x: Cell| #[trigger] b.dom().contains(x) ==> inside(x),
        inside(start),
        forall|x: Cell, d: int| r.contains(x) && 0 <= d < 4 && #[trigger] b.dom().contains(nb(x, d))
            && b[nb(x, d)] == BridgeState::Cracked ==> r.contains(nb(x, d)),
        shock_reach(b, start, c, k),
    ensures
        r.contains(c),
    decreases k,
{
    if k > 0 {
        let j = (k - 1) as nat;
        if shock_reach(b, start, c, j) {
            lemma_shock_complete(b, start, r, c, j);
        } else {
            let d: int = if shock_reach(b, start, nb(c, 0), j) { 0 } else if shock_reach(b, start, nb(c, 1), j) { 1 }
                else if shock_reach(b, start, nb(c, 2), j) { 2 } else { 3 };
            let x = nb(c, d);
            lemma_shock_complete(b, start, r, x, j);
            lemma_nb_back(c, d);
            assert(nb(x, (d + 2) % 4) == c);
            assert(b.dom().contains(nb(x, (d + 2) % 4)));
        }
    }
}

impl World {
    /// This world's ground as it is after destroying bridge cell `start`
    /// took down `start` and its cracked neighbours, before settling.
    pub open spec fn shaken_from(&self, old: World, start: Cell) -> bool {
        &&& self.wf()
        &&& self.islands == old.islands
        &&& self.island_owners == old.island_owners
        &&& self.island_neutral == old.island_neutral
        &&& self.platforms == old.platforms
        &&& self.platform_owners == old.platform_owners
        &&& self.terrain_version == old.terrain_version
        &&& self.doomed == old.doomed
        &&& self.events == old.events
        &&& self.crumble_ticks == old.crumble_ticks
        &&& self.bridges@ == Map::new(|c: Cell| old.bridges@.dom().contains(c) && !shaken(old.bridges@, start, c), |c: Cell| old.bridges@[c])
        &&& self.bridge_owners@ == Map::new(|c: Cell| old.bridge_owners@.dom().contains(c) && self.bridges@.dom().contains(c), |c: Cell| old.bridge_owners@[c])
        &&& self.bridge_version == bumped(old.bridge_version)
    }

    /// Forget owners of cells that no longer carry a bridge.
    fn prune_bridge_owners(&mut self)
        requires
            old(self).bridge_owners.wf(),
            old(self).bridges.wf(),
        ensures
            final(self).bridge_owners.wf(),
            final(self).bridge_owners@ == Map::new(|c: Cell| old(self).bridge_owners@.dom().contains(c) && old(self).bridges@.dom().contains(c), |c: Cell| old(self).bridge_owners@[c]),
            final(self).islands == old(self).islands && final(self).island_owners == old(self).island_owners,
            final(self).island_neutral == old(self).island_neutral && final(self).platforms == old(self).platforms,
            final(self).platform_owners == old(self).platform_owners && final(self).terrain_version == old(self).terrain_version,
            final(self).bridges == old(self).bridges && final(self).bridge_version == old(self).bridge_version,
            final(self).doomed == old(self).doomed && final(self).events == old(self).events,
            final(self).crumble_ticks == old(self).crumble_ticks,
    {
        let keys = self.bridge_owners.keys();
        let ghost o0 = self.bridge_owners@;
        let mut i: usize = 0;
        while i < keys.len()
            invariant
                self.bridge_owners.wf(),
                self.bridges.wf(),
                self.bridges == old(self).bridges,
                o0 == old(self).bridge_owners@,
                i <= keys@.len(),
                forall|c: Cell| keys@.contains(c) <==> o0.dom().contains(c),
                self.islands == old(self).islands && self.island_owners == old(self).island_owners,
                self.island_neutral == old(self).island_neutral && self.platforms == old(self).platforms,
                self.platform_owners == old(self).platform_owners && self.terrain_version == old(self).terrain_version,
                self.bridge_version == old(self).bridge_version,
                self.doomed == old(self).doomed && self.events == old(self).events,
                self.crumble_ticks == old(self).crumble_ticks,
                self.bridge_owners@ == Map::new(|c: Cell| o0.dom().contains(c) && !(keys@.subrange(0, i as int).contains(c) && !self.bridges@.dom().contains(c)), |c: Cell| o0[c]),
            decreases keys@.len() - i,
        {
            let c = keys[i];
            let ghost s0 = keys@.subrange(0, i as int);
            let ghost s1 = keys@.subrange(0, i + 1);
            proof {
                assert forall|x: Cell| s1.contains(x) <==> s0.contains(x) || x == c by {
                    if s1.contains(x) {
                        let m = choose|m: int| 0 <= m < s1.len() && s1[m] == x;
                        if m < i {
                            assert(s0[m] == x);
                        }
                    }
                    if s0.contains(x) {
                        let m = choose|m: int| 0 <= m < s0.len() && s0[m] == x;
                        assert(s1[m] == x);
                    }
                    if x == c {
                        assert(s1[i as int] == x);
                    }
                }
            }
            if !self.bridges.contains_key(c) {
                self.bridge_owners.remove(c);
            }
            proof {
                assert(self.bridge_owners@ =~= Map::new(|x: Cell| o0.dom().contains(x) && !(s1.contains(x) && !self.bridges@.dom().contains(x)), |x: Cell| o0[x]));
            }
            i = i + 1;
        }
        proof {
            assert(keys@.subrange(0, keys@.len() as int) =~= keys@);
            assert(self.bridge_owners@ =~= Map::new(|c: Cell| old(self).bridge_owners@.dom().contains(c) && old(self).bridges@.dom().contains(c), |c: Cell| old(self).bridge_owners@[c]));
        }
    }

    /// Destroy a bridge cell. The shock collapses adjacent cracked cells,
    /// recursively, and then everything left without a connection to a
    /// natural island settles. `false`, and nothing changes, where `cell`
    /// carries no bridge.
    #[verifier::rlimit(60)]
    pub fn destroy_bridge(&mut self, cell: Cell) -> (r: bool)
        requires
            old(self).wf(),
        ensures
            final(self).wf(),
            r == old(self).bridges@.dom().contains(cell),
            !r ==> *final(self) == *old(self),
            r ==> exists|mid: World, fell: nat| mid.shaken_from(*old(self), cell) && #[trigger] mid.settled(*final(self), fell),
    {
        let ghost w0 = *self;
        let ghost b0 = self.bridges@;
        if !self.bridges.contains_key(cell) {
            return false;
        }
        self.bridges.remove(cell);
        proof {
            assert(self.bridges@ == b0.remove(cell));
            assert(w0.spec_is_ground(cell));
            assert(inside(cell));
            assert(shock_reach(b0, cell, cell, 0));
        }
        let mut shock: Vec<Cell> = Vec::new();
        shock.push(cell);
        assert(shock@[0] == cell);
        while shock.len() > 0
            invariant
                w0.wf(),
                inside(cell),
                b0 == w0.bridges@,
                self.bridges.wf(),
                self.islands == w0.islands && self.island_owners == w0.island_owners && self.island_neutral == w0.island_neutral,
                self.platforms == w0.platforms && self.platform_owners == w0.platform_owners,
                self.terrain_version == w0.terrain_version && self.doomed == w0.doomed && self.events == w0.events,
                self.crumble_ticks == w0.crumble_ticks && self.bridge_owners == w0.bridge_owners,
                self.bridge_version == w0.bridge_version,
                forall|c: Cell| #[trigger] self.bridges@.dom().contains(c) ==> b0.dom().contains(c) && self.bridges@[c] == b0[c],
                !self.bridges@.dom().contains(cell),
                forall|c: Cell| b0.dom().contains(c) && !(#[trigger] self.bridges@.dom().contains(c)) ==> shaken(b0, cell, c),
                forall|m: int| 0 <= m < shock@.len() ==> shaken(b0, cell, #[trigger] shock@[m])
                    && !self.bridges@.dom().contains(shock@[m]) && inside(shock@[m])
                    && (shock@[m] == cell || b0.dom().contains(shock@[m])),
                forall|x: Cell, d: int| (x == cell || (b0.dom().contains(x) && !self.bridges@.dom().contains(x))) && !shock@.contains(x)
                    && 0 <= d < 4 && #[trigger] b0.dom().contains(nb(x, d)) && b0[nb(x, d)] == BridgeState::Cracked
                    ==> !self.bridges@.dom().contains(nb(x, d)),
            decreases self.bridges.entry_list().len(), shock@.len(),
        {
            let ghost s0 = shock@;
            let ghost n0 = self.bridges.entry_list().len();
            let c = shock.pop().unwrap();
            proof {
                assert(shock@ =~= s0.drop_last());
                assert(c == s0[s0.len() - 1]);
                assert forall|x: Cell, e: int| (x == cell || (b0.dom().contains(x) && !self.bridges@.dom().contains(x))) && !shock@.contains(x) && x != c
                    && 0 <= e < 4 && #[trigger] b0.dom().contains(nb(x, e)) && b0[nb(x, e)] == BridgeState::Cracked
                    implies !self.bridges@.dom().contains(nb(x, e)) by {
                    if s0.contains(x) {
                        let m = choose|m: int| 0 <= m < s0.len() && s0[m] == x;
                        if m < s0.len() - 1 {
                            assert(shock@[m] == x);
                        }
                    }
                }
            }
            let mut d: usize = 0;
            while d < 4
                invariant
                    w0.wf(),
                    inside(cell),
                    inside(c),
                    b0 == w0.bridges@,
                    self.bridges.wf(),
                    shaken(b0, cell, c),
                    c == cell || (b0.dom().contains(c) && !self.bridges@.dom().contains(c)),
                    d <= 4,
                    s0.len() > 0 && c == s0[s0.len() - 1],
                    self.islands == w0.islands && self.island_owners == w0.island_owners && self.island_neutral == w0.island_neutral,
                    self.platforms == w0.platforms && self.platform_owners == w0.platform_owners,
                    self.terrain_version == w0.terrain_version && self.doomed == w0.doomed && self.events == w0.events,
                    self.crumble_ticks == w0.crumble_ticks && self.bridge_owners == w0.bridge_owners,
                    self.bridge_version == w0.bridge_version,
                    self.bridges.entry_list().len() <= n0,
                    self.bridges.entry_list().len() == n0 ==> shock@ == s0.drop_last(),
                    shock@.len() >= s0.len() - 1,
                    forall|m: int| 0 <= m < s0.len() - 1 ==> shock@[m] == #[trigger] s0[m],
                    forall|c: Cell| #[trigger] self.bridges@.dom().contains(c) ==> b0.dom().contains(c) && self.bridges@[c] == b0[c],
                    !self.bridges@.dom().contains(cell),
                    forall|c: Cell| b0.dom().contains(c) && !(#[trigger] self.bridges@.dom().contains(c)) ==> shaken(b0, cell, c),
                    forall|m: int| 0 <= m < shock@.len() ==> shaken(b0, cell, #[trigger] shock@[m])
                        && !self.bridges@.dom().contains(shock@[m]) && inside(shock@[m])
                        && (shock@[m] == cell || b0.dom().contains(shock@[m])),
                    forall|x: Cell, e: int| (x == cell || (b0.dom().contains(x) && !self.bridges@.dom().contains(x))) && !shock@.contains(x) && x != c
                        && 0 <= e < 4 && #[trigger] b0.dom().contains(nb(x, e)) && b0[nb(x, e)] == BridgeState::Cracked
                        ==> !self.bridges@.dom().contains(nb(x, e)),
                    forall|x: Cell| b0.dom().contains(x) && !self.bridges@.dom().contains(x) && !(x == cell || (b0.dom().contains(x) && !(#[trigger] self.bridges@.dom().contains(x))))
                        ==> false,
                    forall|e: int| 0 <= e < d && #[trigger] b0.dom().contains(nb(c, e)) && b0[nb(c, e)] == BridgeState::Cracked
                        ==> !self.bridges@.dom().contains(nb(c, e)),
                decreases 4 - d,
            {
                let n = step(c, d);
                let ghost before = self.bridges@;
                let ghost sb = shock@;
                match self.bridges.get(n) {
                    Some(BridgeState::Cracked) => {
                        self.bridges.remove(n);
                        shock.push(n);
                        proof {
                            let k = choose|k: nat| shock_reach(b0, cell, c, k);
                            lemma_shock_step(b0, cell, c, k, d as int);
                            assert(shaken(b0, cell, n));
                            assert(w0.spec_is_ground(n));
                            self.bridges.lemma_dom_finite();
                            assert forall|m: int| 0 <= m < sb.len() implies shock@[m] == sb[m] by {}
                            assert forall|x: Cell| sb.contains(x) implies shock@.contains(x) by {
                                let m = choose|m: int| 0 <= m < sb.len() && sb[m] == x;
                                assert(shock@[m] == x);
                            }
                            assert(shock@[shock@.len() - 1] == n);
                            assert forall|x: Cell, e: int| (x == cell || (b0.dom().contains(x) && !self.bridges@.dom().contains(x))) && !shock@.contains(x) && x != c
                                && 0 <= e < 4 && #[trigger] b0.dom().contains(nb(x, e)) && b0[nb(x, e)] == BridgeState::Cracked
                                implies !self.bridges@.dom().contains(nb(x, e)) by {
                                assert(x != n);
                                assert(!sb.contains(x));
                                assert(x == cell || (b0.dom().contains(x) && !before.dom().contains(x)));
                            }
                            assert forall|m: int| 0 <= m < shock@.len() implies shaken(b0, cell, #[trigger] shock@[m])
                                && !self.bridges@.dom().contains(shock@[m]) && inside(shock@[m])
                                && (shock@[m] == cell || b0.dom().contains(shock@[m])) by {
                                if m < sb.len() {
                                    assert(shock@[m] == sb[m]);
                                }
                            }
                        }
                    },
                    _ => {},
                }
                d = d + 1;
            }
            proof {
                assert forall|x: Cell, e: int| (x == cell || (b0.dom().contains(x) && !self.bridges@.dom().contains(x))) && !shock@.contains(x)
                    && 0 <= e < 4 && #[trigger] b0.dom().contains(nb(x, e)) && b0[nb(x, e)] == BridgeState::Cracked
                    implies !self.bridges@.dom().contains(nb(x, e)) by {
                }
            }
        }
        proof {
            assert forall|c: Cell| #[trigger] self.bridges@.dom().contains(c) <==> b0.dom().contains(c) && !shaken(b0, cell, c) by {
                if b0.dom().contains(c) && shaken(b0, cell, c) && self.bridges@.dom().contains(c) {
                    let k = choose|k: nat| shock_reach(b0, cell, c, k);
                    let r = Set::new(|x: Cell| x == cell || (b0.dom().contains(x) && !self.bridges@.dom().contains(x)));
                    assert forall|x: Cell| #[trigger] b0.dom().contains(x) implies inside(x) by {
                        assert(w0.spec_is_ground(x));
                    }
                    lemma_shock_complete(b0, cell, r, c, k);
                }
            }
            assert(self.bridges@ =~= Map::new(|c: Cell| b0.dom().contains(c) && !shaken(b0, cell, c), |c: Cell| b0[c]));
        }
        self.prune_bridge_owners();
        self.bridge_version = bump(self.bridge_version);
        let ghost mid = *self;
        proof {
            assert forall|c: Cell| #[trigger] self.spec_is_ground(c) implies inside(c) by {
                assert(w0.spec_is_ground(c));
            }
            assert(mid.shaken_from(w0, cell));
        }
        let fell = self.settle();
        proof {
            assert(mid.settled(*self, fell as nat));
        }
        true
    }
}

impl World {
    /// The doomed cells after one tick of crumbling: every count one down, stopping at zero.
    pub open spec fn counted_down(&self) -> Map<Cell, u32> {
        Map::new(|c: Cell| self.doomed@.dom().contains(c), |c: Cell| if self.doomed@[c] == 0 { 0u32 } else { (self.doomed@[c] - 1) as u32 })
    }

    /// Doomed cells whose count runs out this tick.
    pub open spec fn run_out(&self) -> Set<Cell> {
        Set::new(|c: Cell| self.doomed@.dom().contains(c) && self.doomed@[c] <= 1)
    }

    /// This world's ground after the cells that ran out fell, before settling.
    pub open spec fn crumbled_from(&self, old: World) -> bool {
        &&& self.wf()
        &&& self.islands == old.islands
        &&& self.island_owners == old.island_owners
        &&& self.island_neutral == old.island_neutral
        &&& self.platforms == old.platforms
        &&& self.platform_owners == old.platform_owners
        &&& self.terrain_version == old.terrain_version
        &&& self.crumble_ticks == old.crumble_ticks
        &&& self.doomed@ == old.counted_down().remove_keys(old.run_out())
        &&& self.bridges@ == old.bridges@.remove_keys(old.run_out())
        &&& self.bridge_owners@ == Map::new(|c: Cell| old.bridge_owners@.dom().contains(c) && self.bridges@.dom().contains(c), |c: Cell| old.bridge_owners@[c])
        &&& self.bridge_version == bumped(old.bridge_version)
        &&& self.events@.len() == old.events@.len() + 1
        &&& self.events@.drop_last() == old.events@
        &&& exists|c: Cell| least_of(old.run_out(), c)
            && is_event(self.events@.last(), EventKind::BridgeFell, c, owner_or_zero(old.bridge_owners@, c))
    }

    /// One tick of crumbling: doomed cells count down; those whose count
    /// runs out fall (a `BridgeFell` event names the first), and what they
    /// held up settles.
    #[verifier::rlimit(60)]
    pub fn crumble(&mut self)
        requires
            old(self).wf(),
        ensures
            final(self).wf(),
            old(self).run_out().is_empty() ==> final(self).doomed@ == old(self).counted_down()
                && final(self).bridges == old(self).bridges && final(self).bridge_owners == old(self).bridge_owners
                && final(self).islands == old(self).islands && final(self).island_owners == old(self).island_owners
                && final(self).island_neutral == old(self).island_neutral && final(self).platforms == old(self).platforms
                && final(self).platform_owners == old(self).platform_owners && final(self).events == old(self).events
                && final(self).terrain_version == old(self).terrain_version && final(self).bridge_version == old(self).bridge_version
                && final(self).crumble_ticks == old(self).crumble_ticks,
            !old(self).run_out().is_empty() ==> exists|mid: World, fell: nat| mid.crumbled_from(*old(self)) && #[trigger] mid.settled(*final(self), fell),
    {
        let ghost w0 = *self;
        let keys = self.doomed.keys();
        proof {
            self.doomed.lemma_sorted();
            let el = self.doomed.entry_list();
            assert forall|a: int, b: int| 0 <= a < b < keys@.len() implies cell_lt(#[trigger] keys@[a], #[trigger] keys@[b]) by {
                assert(keys@[a] == el[a].0 && keys@[b] == el[b].0);
                assert(cell_lt(el[a].0, el[b].0));
            }
        }
        let mut fell: Vec<Cell> = Vec::new();
        let mut i: usize = 0;
        while i < keys.len()
            invariant
                w0.wf(),
                i <= keys@.len(),
                keys@.len() == w0.doomed.entry_list().len(),
                forall|j: int| 0 <= j < keys@.len() ==> keys@[j] == (#[trigger] w0.doomed.entry_list()[j]).0,
                forall|c: Cell| keys@.contains(c) <==> w0.doomed@.dom().contains(c),
                sorted_cells(keys@),
                self.islands == w0.islands && self.island_owners == w0.island_owners && self.island_neutral == w0.island_neutral,
                self.platforms == w0.platforms && self.platform_owners == w0.platform_owners,
                self.bridges == w0.bridges && self.bridge_owners == w0.bridge_owners && self.crumble_ticks == w0.crumble_ticks,
                self.terrain_version == w0.terrain_version && self.bridge_version == w0.bridge_version && self.events == w0.events,
                self.doomed.wf(),
                self.doomed@ == Map::new(|c: Cell| w0.doomed@.dom().contains(c),
                    |c: Cell| if keys@.subrange(0, i as int).contains(c) { w0.counted_down()[c] } else { w0.doomed@[c] }),
                sorted_cells(fell@),
                forall|c: Cell| fell@.contains(c) <==> keys@.subrange(0, i as int).contains(c) && w0.run_out().contains(c),
                forall|m: int| 0 <= m < fell@.len() ==> exists|j: int| 0 <= j < i && keys@[j] == #[trigger] fell@[m],
                fell@.len() > 0 ==> exists|j: int| 0 <= j < i && keys@[j] == fell@[0]
                    && forall|m: int| 0 <= m < j ==> !w0.run_out().contains(#[trigger] keys@[m]),
                fell@.len() == 0 ==> forall|m: int| 0 <= m < i ==> !w0.run_out().contains(#[trigger] keys@[m]),
            decreases keys@.len() - i,
        {
            let c = keys[i];
            let ghost s0 = keys@.subrange(0, i as int);
            let ghost s1 = keys@.subrange(0, i + 1);
            proof {
                assert(keys@.contains(c));
                assert forall|x: Cell| s1.contains(x) <==> s0.contains(x) || x == c by {
                    if s1.contains(x) {
                        let m = choose|m: int| 0 <= m < s1.len() && s1[m] == x;
                        if m < i {
                            assert(s0[m] == x);
                        }
                    }
                    if s0.contains(x) {
                        let m = choose|m: int| 0 <= m < s0.len() && s0[m] == x;
                        assert(s1[m] == x);
                    }
                    if x == c {
                        assert(s1[i as int] == x);
                    }
                }
                assert(!s0.contains(c)) by {
                    if s0.contains(c) {
                        let m = choose|m: int| 0 <= m < s0.len() && s0[m] == c;
                        assert(keys@[m] == c);
                        assert(cell_lt(keys@[m], keys@[i as int]));
                    }
                }
            }
            let t = match self.doomed.get(c) {
                Some(t) => t,
                None => 0,
            };
            let t1: u32 = if t == 0 { 0 } else { t - 1 };
            self.doomed.insert(c, t1);
            let ghost fb = fell@;
            if t1 == 0 {
                fell.push(c);
                proof {
                    assert forall|a: int, b: int| 0 <= a < b < fell@.len() implies cell_lt(#[trigger] fell@[a], #[trigger] fell@[b]) by {
                        if b == fell@.len() - 1 {
                            let j = choose|j: int| 0 <= j < i && keys@[j] == #[trigger] fb[a];
                            assert(cell_lt(keys@[j], keys@[i as int]));
                        } else {
                            assert(fell@[a] == fb[a] && fell@[b] == fb[b]);
                        }
                    }
                    assert forall|m: int| 0 <= m < fell@.len() implies exists|j: int| 0 <= j < i + 1 && keys@[j] == #[trigger] fell@[m] by {
                        if m < fb.len() {
                            assert(fell@[m] == fb[m]);
                            let j = choose|j: int| 0 <= j < i && keys@[j] == #[trigger] fb[m];
                        } else {
                            assert(keys@[i as int] == fell@[m]);
                        }
                    }
                    assert forall|x: Cell| fell@.contains(x) <==> s1.contains(x) && w0.run_out().contains(x) by {
                        if fell@.contains(x) {
                            let m = choose|m: int| 0 <= m < fell@.len() && fell@[m] == x;
                            if m < fb.len() {
                                assert(fb[m] == x);
                                assert(fb.contains(x));
                            }
                        }
                        if s1.contains(x) && w0.run_out().contains(x) {
                            if x == c {
                                assert(fell@[fell@.len() - 1] == x);
                            } else {
                                assert(fb.contains(x));
                                let m = choose|m: int| 0 <= m < fb.len() && fb[m] == x;
                                assert(fell@[m] == x);
                            }
                        }
                    }
                    if fb.len() > 0 {
                        assert(fell@[0] == fb[0]);
                    }
                }
            }
            proof {
                assert(self.doomed@ =~= Map::new(|x: Cell| w0.doomed@.dom().contains(x),
                    |x: Cell| if s1.contains(x) { w0.counted_down()[x] } else { w0.doomed@[x] }));
            }
            i = i + 1;
        }
        proof {
            assert(keys@.subrange(0, keys@.len() as int) =~= keys@);
            assert(self.doomed@ =~= w0.counted_down());
            assert forall|x: Cell| fell@.contains(x) <==> w0.run_out().contains(x) by {}
            assert forall|x: Cell| #[trigger] self.spec_is_ground(x) implies inside(x) by {
                assert(w0.spec_is_ground(x));
            }
        }
        if fell.len() == 0 {
            proof {
                assert(w0.run_out() =~= Set::<Cell>::empty()) by {
                    assert forall|x: Cell| !w0.run_out().contains(x) by {
                        if w0.run_out().contains(x) {
                            assert(fell@.contains(x));
                        }
                    }
                }
            }
            return;
        }
        let first = fell[0];
        let owner = match self.bridge_owners.get(first) {
            Some(o) => o,
            None => 0,
        };
        self.events.push(event(EventKind::BridgeFell, first, owner));
        proof {
            let j = choose|j: int| 0 <= j < keys@.len() && keys@[j] == fell@[0]
                && forall|m: int| 0 <= m < j ==> !w0.run_out().contains(#[trigger] keys@[m]);
            assert(fell@.contains(first));
            assert forall|g: Cell| #[trigger] w0.run_out().contains(g) implies keys@.contains(g) by {}
            lemma_sorted_least(keys@, j, w0.run_out());
            assert(!w0.run_out().is_empty()) by {
                assert(w0.run_out().contains(first));
            }
        }
        let ghost d1 = self.doomed@;
        let ghost ev = self.events;
        let mut k: usize = 0;
        while k < fell.len()
            invariant
                w0.wf(),
                k <= fell@.len(),
                self.doomed.wf() && self.bridges.wf(),
                d1 == w0.counted_down(),
                self.doomed@ == d1.remove_keys(fell@.subrange(0, k as int).to_set()),
                self.bridges@ == w0.bridges@.remove_keys(fell@.subrange(0, k as int).to_set()),
                self.islands == w0.islands && self.island_owners == w0.island_owners && self.island_neutral == w0.island_neutral,
                self.platforms == w0.platforms && self.platform_owners == w0.platform_owners,
                self.bridge_owners == w0.bridge_owners && self.crumble_ticks == w0.crumble_ticks,
                self.terrain_version == w0.terrain_version && self.bridge_version == w0.bridge_version && self.events == ev,
            decreases fell@.len() - k,
        {
            let c = fell[k];
            self.doomed.remove(c);
            self.bridges.remove(c);
            proof {
                let q0 = fell@.subrange(0, k as int);
                let q1 = fell@.subrange(0, k + 1);
                let s0 = q0.to_set();
                let s1 = q1.to_set();
                assert(s1 =~= s0.insert(c)) by {
                    assert forall|x: Cell| s1.contains(x) <==> s0.contains(x) || x == c by {
                        if s1.contains(x) {
                            let m = choose|m: int| 0 <= m < q1.len() && q1[m] == x;
                            if m < k {
                                assert(q0[m] == x);
                            }
                        }
                        if s0.contains(x) {
                            let m = choose|m: int| 0 <= m < q0.len() && q0[m] == x;
                            assert(q1[m] == x);
                        }
                        if x == c {
                            assert(q1[k as int] == x);
                        }
                    }
                }
                assert(self.doomed@ =~= d1.remove_keys(s1));
                assert(self.bridges@ =~= w0.bridges@.remove_keys(s1));
            }
            k = k + 1;
        }
        proof {
            assert(fell@.subrange(0, fell@.len() as int) =~= fell@);
            assert(fell@.to_set() =~= w0.run_out()) by {
                assert forall|x: Cell| fell@.to_set().contains(x) <==> w0.run_out().contains(x) by {}
            }
        }
        self.prune_bridge_owners();
        self.bridge_version = bump(self.bridge_version);
        let ghost mid = *self;
        proof {
            assert forall|x: Cell| #[trigger] self.spec_is_ground(x) implies inside(x) by {
                assert(w0.spec_is_ground(x));
            }
            assert(self.events@.drop_last() =~= w0.events@);
            assert(mid.crumbled_from(w0));
        }
        let n = self.settle();
        proof {
            assert(mid.settled(*self, n as nat));
        }
    }
}

/// Settling leaves no unsupported ground standing unmarked: every platform
/// cell left is joined to a natural island, every bridge cell that is not
/// is doomed, and no bridge cell falls at once.
pub proof fn settling_leaves_only_supported_ground(w: World, after: World, fell: nat)
    requires
        w.settled(after, fell),
    ensures
        forall|c: Cell| #[trigger] after.platforms.view().contains(c) ==> w.spec_supported(c),
        forall|c: Cell| #[trigger] after.bridges@.dom().contains(c) && !w.spec_supported(c) ==> after.doomed@.dom().contains(c),
        forall|c: Cell| #[trigger] after.bridges@.dom().contains(c) <==> w.bridges@.dom().contains(c),
{
    assert forall|c: Cell| #[trigger] after.platforms.view().contains(c) implies w.spec_supported(c) by {
        assert(Set::new(|x: Cell| w.platforms.view().contains(x) && w.spec_supported(x)).contains(c));
    }
    assert forall|c: Cell| #[trigger] after.bridges@.dom().contains(c) && !w.spec_supported(c) implies after.doomed@.dom().contains(c) by {
        assert(w.settled_bridges().dom().contains(c));
        if !w.doomed@.dom().contains(c) {
            assert(w.newly_doomed(c));
        }
    }
}

/// A destroyed bridge cell is gone once the world has settled, and no cell
/// became a bridge on the way.
pub proof fn destroyed_bridge_is_gone(w: World, mid: World, after: World, cell: Cell, fell: nat)
    requires
        mid.shaken_from(w, cell),
        mid.settled(after, fell),
    ensures
        !after.bridges@.dom().contains(cell),
        forall|c: Cell| #[trigger] after.bridges@.dom().contains(c) ==> w.bridges@.dom().contains(c),
{
    assert(shock_reach(w.bridges@, cell, cell, 0));
    assert(shaken(w.bridges@, cell, cell));
    assert forall|c: Cell| #[trigger] after.bridges@.dom().contains(c) implies w.bridges@.dom().contains(c) by {
        assert(mid.settled_bridges().dom().contains(c));
    }
}

/// Bridge cells whose crumbling count runs out are gone after the tick.
pub proof fn run_out_bridges_fall(w: World, mid: World, after: World, fell: nat)
    requires
        mid.crumbled_from(w),
        mid.settled(after, fell),
    ensures
        forall|c: Cell| #[trigger] w.run_out().contains(c) ==> !after.bridges@.dom().contains(c),
{
    assert forall|c: Cell| #[trigger] w.run_out().contains(c) implies !after.bridges@.dom().contains(c) by {
        assert(!mid.bridges@.dom().contains(c));
        assert(!mid.settled_bridges().dom().contains(c));
    }
}

} // verus!
