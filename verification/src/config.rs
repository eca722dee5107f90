//! Rule values the simulation reads: the parts of the rules file that hold
//! plain integers, flags and names. The file itself is TOML, read around
//! this library.
use vstd::prelude::*;

verus! {

/// How a `.fort` scenario's type codes and seats are read.
#[derive(Clone, Debug, PartialEq)]
pub struct FortRules {
    /// Structure type by two-digit hex code; an empty name skips the code.
    pub codes: Vec<(String, String)>,
    /// Unit type by code.
    pub units: Vec<(String, String)>,
    /// Island theme by a ground cell's byte.
    pub ground_themes: Vec<String>,
    /// A player's theme by the code of its altar, where the code tells.
    pub altar_themes: Vec<(String, String)>,
    /// Temple type by theme.
    pub temples: Vec<(String, String)>,
    pub altar: String,
    pub priest: String,
    pub geyser: String,
    /// The player's theme when nothing in the file says.
    pub human_theme: String,
    /// Cells between the scenario's islands and the fortress ring.
    pub ring_margin: i32,
    pub start_power: i32,
    pub ai_power: i32,
    /// Who owns the bridges the file lays.
    pub bridge_owner: u8,
}

impl Default for FortRules {
    /// The rules a file that names none of the fields gets.
    fn default() -> (r: Self)
        ensures
            r.codes@.len() == 0 && r.units@.len() == 0 && r.ground_themes@.len() == 0,
            r.altar_themes@.len() == 0 && r.temples@.len() == 0,
            r.altar@ == "dais"@ && r.priest@ == "priest"@ && r.geyser@ == "geyser"@,
            r.human_theme@ == "wind"@,
            r.ring_margin == 28 && r.start_power == 2000 && r.ai_power == 2000 && r.bridge_owner == 0,
    {
        FortRules {
            codes: Vec::new(),
            units: Vec::new(),
            ground_themes: Vec::new(),
            altar_themes: Vec::new(),
            temples: Vec::new(),
            altar: String::from_str("dais"),
            priest: String::from_str("priest"),
            geyser: String::from_str("geyser"),
            human_theme: String::from_str("wind"),
            ring_margin: 28,
            start_power: 2000,
            ai_power: 2000,
            bridge_owner: 0,
        }
    }
}

/// An animation from the sprite cache: a type and the label of its frames.
#[derive(Clone, Debug, PartialEq)]
pub struct EffectSprite {
    pub kind: String,
    pub label: String,
}

#[derive(Clone, Debug, PartialEq)]
pub struct Sprites {
    /// Directory under the data directory holding a mod's sprite sheets.
    pub dir: String,
}

/// Step sounds of walkers, tied to their walk animation.
#[derive(Clone, Debug, PartialEq)]
pub struct Footsteps {
    /// Steps heard per walk cycle.
    pub per_cycle: u32,
    /// The step sound of each type that has one, by type stem.
    pub steps: Vec<(String, String)>,
}

/// What sacrifices at an Altar teach.
#[derive(Clone, Debug, PartialEq)]
pub struct Knowledge {
    /// How far an Altar can be raised.
    pub altar_levels: u8,
    /// Let the choice be made for the player too, instead of asking.
    pub auto_choose: bool,
    /// Each Rank adds this much to the hits and damage of Battle units.
    pub rank_bonus_percent: i32,
}

impl Default for Knowledge {
    fn default() -> (k: Self)
        ensures
            k.altar_levels == 3 && !k.auto_choose && k.rank_bonus_percent == 25,
    {
        Knowledge { altar_levels: 3, auto_choose: false, rank_bonus_percent: 25 }
    }
}

#[derive(Clone, Debug, PartialEq)]
pub struct SpellEffect {
    pub kind: EffectKind,
    pub amount: i32,
    /// Damage only what flies (Graviton).
    pub air_only: bool,
    /// A Summons: the unit type conjured, this many of them.
    pub unit: Option<String>,
    pub count: u32,
    /// What the game draws where the Spell lands.
    pub effect: Option<EffectSprite>,
}

#[derive(Clone, Copy, Debug, PartialEq, Eq, Structural)]
pub enum EffectKind {
    Damage,
    /// Conjure units beside the caster.
    Summon,
    Heal,
    Harden,
    Paralyse,
    Invisible,
    Treason,
}

#[derive(Clone, Debug, PartialEq)]
pub struct Sim {
    pub tick_hz: u32,
    pub max_players: usize,
}

#[derive(Clone, Debug, PartialEq)]
pub struct Grid {
    pub cell_w: i32,
    pub cell_h: i32,
}

/// Type flags by what the simulation makes of them.
#[derive(Clone, Debug, PartialEq)]
pub struct Flags {
    pub walk_blocked: Vec<String>,
    pub walk_avoid: Vec<String>,
    pub walk_free: Vec<String>,
    pub drop_blocking: Vec<String>,
    pub creates_island: Vec<String>,
    pub may_drop_on_rim: Vec<String>,
    pub unit: Vec<String>,
    pub flyer: Vec<String>,
    pub balloon: Vec<String>,
    pub priest: Vec<String>,
    pub geyser: Vec<String>,
    pub temple: Vec<String>,
    pub altar: Vec<String>,
    pub workshop: Vec<String>,
    pub obelisk: Vec<String>,
    pub spell: Vec<String>,
    pub energy_source_classes: Vec<String>,
    /// Edge Farms: no bridge may attach to the island edge they grow on.
    pub edge_farm: Vec<String>,
    /// Barricade posts: two of a kind in line raise a barrier between them.
    pub fence: Vec<String>,
}

/// What a barricade does between its posts, by type.
#[derive(Clone, Copy, Debug, PartialEq, Eq, Structural)]
pub enum FenceEffect {
    /// Enemy shots do not cross it.
    Shield,
    /// Enemy ground units between the posts die.
    Dissolve,
    /// Enemy units between the posts take the type's damage.
    Arc,
}

/// A bridge piece as the rules list it: a name and its cells.
#[derive(Clone, Debug, PartialEq)]
pub struct PieceDef {
    pub name: String,
    pub cells: Vec<[i32; 2]>,
}

#[derive(Clone, Debug, PartialEq)]
pub struct Shrapnel {
    pub range: i32,
    pub percent: i32,
}

#[derive(Clone, Debug, PartialEq)]
pub struct Priest {
    pub temple_heal_range: i32,
    pub heal_per_second: u32,
    /// A stunned priest throws a shield round himself that keeps him from
    /// being destroyed; `false` lets fire finish him.
    pub stun_shield: bool,
}

} // verus!
