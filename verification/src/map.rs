//! Map files: the islands, bridges, structures, units and opponents a
//! scene starts with. The files are TOML, read and written around this
//! library; these are the values they hold.
use vstd::prelude::*;
use crate::grid::Cell;

verus! {

#[derive(Clone, Debug, PartialEq)]
pub struct MapDef {
    pub name: String,
    pub start_power: i32,
    pub camera: [i32; 2],
    /// Type stems whose Knowledge the player starts with.
    pub player_tech: Vec<String>,
    pub islands: Vec<IslandDef>,
    pub bridges: Vec<BridgeDef>,
    pub structures: Vec<PlacementDef>,
    pub units: Vec<UnitDef>,
    pub opponents: Vec<OpponentDef>,
}

#[derive(Clone, Debug, PartialEq)]
pub struct IslandDef {
    /// `None` for a neutral island.
    pub owner: Option<u8>,
    pub theme: String,
    pub origin: [i32; 2],
    pub size: [i32; 2],
    pub remove: Vec<[i32; 2]>,
    /// The island's cells outright, when it is no rectangle; `origin`,
    /// `size` and `remove` are ignored then.
    pub cells: Vec<[i32; 2]>,
}

#[derive(Clone, Debug, PartialEq)]
pub struct BridgeDef {
    pub owner: u8,
    pub cells: Vec<[i32; 2]>,
}

#[derive(Clone, Debug, PartialEq)]
pub struct PlacementDef {
    pub owner: u8,
    pub kind: String,
    pub at: [i32; 2],
    /// The Spell an Obelisk holds; drawn from the rules' pool when omitted.
    pub spell: Option<String>,
    /// Which of a type's variant frames to show, else one is chosen per cell.
    pub frame: Option<u32>,
}

#[derive(Clone, Debug, PartialEq)]
pub struct UnitDef {
    pub owner: u8,
    pub kind: String,
    pub at: [i32; 2],
    pub move_to: Option<[i32; 2]>,
}

#[derive(Clone, Debug, PartialEq)]
pub struct OpponentDef {
    pub owner: u8,
    pub target: Option<[i32; 2]>,
    /// What this opponent drops, when not the rules' shooter and generator.
    pub shooter: Option<String>,
    pub generator: Option<String>,
    /// Knowledge bits this opponent starts with.
    pub knowledge: Vec<u8>,
    /// Type stems whose Knowledge it starts with, by name.
    pub tech: Vec<String>,
    /// Storm Power it starts with instead of the map's.
    pub power: Option<i32>,
}

impl MapDef {
    /// The cell the camera starts on.
    pub fn camera_cell(&self) -> (c: Cell)
        ensures
            c.x == self.camera@[0],
            c.y == self.camera@[1],
    {
        Cell::new(self.camera[0], self.camera[1])
    }
}

/// The cell a map file writes as `[x, y]`.
pub fn cell(xy: [i32; 2]) -> (c: Cell)
    ensures
        c.x == xy@[0],
        c.y == xy@[1],
{
    Cell::new(xy[0], xy[1])
}

} // verus!
