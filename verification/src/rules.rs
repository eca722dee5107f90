//! Per-type rules the simulation reads from a type's flags and properties.
use vstd::prelude::*;
use crate::isle::Theme;
use crate::strs::{contains_chars, contains_seq, lower_all, lowercase, parse_int};
use crate::text::{chars_of, eq_ignore_case, lower, str_eq_ignore_case, to_lower};
use crate::typefile::{spec_get, value_str, TypeDef};

verus! {

/// Energy a type needs at its placement site. Sun means any kind.
#[derive(Clone, Copy, Debug, PartialEq, Eq, Structural)]
pub struct EnergyNeed {
    pub theme: Theme,
    /// Units that must be of `theme` (0 for Sun types).
    pub themed: u8,
    /// Units of any kind on top of the themed ones.
    pub any: u8,
}

impl EnergyNeed {
    /// All the units needed.
    pub fn total(&self) -> (t: u8)
        requires
            self.themed + self.any <= u8::MAX,
        ensures
            t == self.themed + self.any,
    {
        self.themed + self.any
    }
}

/// How a footprint affects walking.
#[derive(Clone, Copy, Debug, PartialEq, Eq, Structural)]
pub enum Walk {
    Free,
    /// Passable but expensive: `yuckWalk`.
    Avoid,
    Blocked,
}

/// Path cost multiplier for [`Walk::Avoid`] cells.
pub const AVOID_COST: u32 = 5;


/// The theme a type's `theme` property names, Sun where it names none.
pub open spec fn theme_or_sun(theme: Option<Seq<char>>) -> Theme {
    match theme {
        Some(s) => if eq_ignore_case(s, "sun"@) {
            Theme::Sun
        } else if eq_ignore_case(s, "thunder"@) {
            Theme::Thunder
        } else if eq_ignore_case(s, "wind"@) {
            Theme::Wind
        } else if eq_ignore_case(s, "rain"@) {
            Theme::Rain
        } else {
            Theme::Sun
        },
        None => Theme::Sun,
    }
}

/// What the letters of a `mana` string ask for: `s` one unit of any kind,
/// `w`, `r` and `t` one unit of Wind, Rain or Thunder (the last such
/// letter naming the theme), any case; other letters nothing.
pub open spec fn mana_need(m: Seq<char>) -> EnergyNeed
    decreases m.len(),
{
    if m.len() == 0 {
        EnergyNeed { theme: Theme::Sun, themed: 0, any: 0 }
    } else {
        let n = mana_need(m.drop_last());
        let c = lower(m.last());
        if c == 's' {
            EnergyNeed { any: (n.any + 1) as u8, ..n }
        } else if c == 'w' {
            EnergyNeed { theme: Theme::Wind, themed: (n.themed + 1) as u8, ..n }
        } else if c == 'r' {
            EnergyNeed { theme: Theme::Rain, themed: (n.themed + 1) as u8, ..n }
        } else if c == 't' {
            EnergyNeed { theme: Theme::Thunder, themed: (n.themed + 1) as u8, ..n }
        } else {
            n
        }
    }
}

proof fn lemma_mana_bound(m: Seq<char>)
    ensures
        mana_need(m).themed + mana_need(m).any <= m.len(),
    decreases m.len(),
{
    if m.len() > 0 {
        lemma_mana_bound(m.drop_last());
    }
}

/// A type's Energy requirement, from its `mana`, `level`, `class` and
/// `theme` properties as text (a number for the level). A `mana` string
/// lists the units by letter; otherwise a Battle unit (one with a class)
/// of level `n` needs `n` units of any kind when it is a Sun type, one of
/// its theme at level one, and `n - 1` of its theme and one of any kind
/// above (the manual's Bulf, Whirlibase and Air Ship).
pub open spec fn spec_energy_need(mana: Option<Seq<char>>, level: Option<i64>, class: Option<Seq<char>>, theme: Option<Seq<char>>) -> Option<EnergyNeed> {
    match mana {
        Some(m) => {
            let n = mana_need(m);
            if n.themed + n.any > 0 { Some(n) } else { None }
        },
        None => match level {
            None => None,
            Some(l) => {
                let lv: u8 = if l < 0 { 0 } else if l > 9 { 9 } else { l as u8 };
                if lv == 0 || class is None {
                    None
                } else {
                    let th = theme_or_sun(theme);
                    Some(if th == Theme::Sun {
                        EnergyNeed { theme: th, themed: 0, any: lv }
                    } else if lv == 1 {
                        EnergyNeed { theme: th, themed: 1, any: 0 }
                    } else {
                        EnergyNeed { theme: th, themed: (lv - 1) as u8, any: 1 }
                    })
                }
            },
        },
    }
}

fn theme_of(theme: Option<&str>) -> (t: Theme)
    ensures
        t == theme_or_sun(match theme { Some(s) => Some(s@), None => None }),
{
    match theme {
        Some(s) => match Theme::parse(s) {
            Some(t) => t,
            None => Theme::Sun,
        },
        None => Theme::Sun,
    }
}

pub open spec fn text_opt(s: Option<&str>) -> Option<Seq<char>> {
    match s {
        Some(v) => Some(v@),
        None => None,
    }
}

/// A type's Energy requirement: see [`spec_energy_need`].
pub fn energy_need(mana: Option<&str>, level: Option<i64>, class: Option<&str>, theme: Option<&str>) -> (e: Option<EnergyNeed>)
    requires
        mana matches Some(m) ==> m@.len() < 256,
    ensures
        e == spec_energy_need(text_opt(mana), level, text_opt(class), text_opt(theme)),
{
    match mana {
        Some(m) => {
            let cs = chars_of(m);
            let mut need = EnergyNeed { theme: Theme::Sun, themed: 0, any: 0 };
            let mut k: usize = 0;
            while k < cs.len()
                invariant
                    k <= cs@.len(),
                    cs@ == m@,
                    m@.len() < 256,
                    need == mana_need(cs@.subrange(0, k as int)),
                decreases cs@.len() - k,
            {
                proof {
                    assert(cs@.subrange(0, k + 1).drop_last() =~= cs@.subrange(0, k as int));
                    lemma_mana_bound(cs@.subrange(0, k as int));
                }
                let c = to_lower(cs[k]);
                if c == 's' {
                    need.any = need.any + 1;
                } else if c == 'w' {
                    need.theme = Theme::Wind;
                    need.themed = need.themed + 1;
                } else if c == 'r' {
                    need.theme = Theme::Rain;
                    need.themed = need.themed + 1;
                } else if c == 't' {
                    need.theme = Theme::Thunder;
                    need.themed = need.themed + 1;
                }
                k = k + 1;
            }
            proof {
                assert(cs@.subrange(0, k as int) =~= cs@);
                lemma_mana_bound(cs@);
            }
            if need.total() > 0 { Some(need) } else { None }
        },
        None => match level {
            None => None,
            Some(l) => {
                let lv: u8 = if l < 0 { 0 } else if l > 9 { 9 } else { l as u8 };
                if lv == 0 || class.is_none() {
                    return None;
                }
                let th = theme_of(theme);
                Some(match th {
                    Theme::Sun => EnergyNeed { theme: th, themed: 0, any: lv },
                    _ => if lv == 1 {
                        EnergyNeed { theme: th, themed: 1, any: 0 }
                    } else {
                        EnergyNeed { theme: th, themed: lv - 1, any: 1 }
                    },
                })
            },
        },
    }
}

/// The Energy a type produces: a Temple (`residence`) and a Generator (a
/// `class` of "Source of Energy", any case) produce their theme, Sun
/// where they name none.
pub open spec fn spec_energy_produced(residence: bool, class: Option<Seq<char>>, theme: Option<Seq<char>>) -> Option<Theme> {
    if residence {
        Some(theme_or_sun(theme))
    } else if class matches Some(c) && eq_ignore_case(c, "Source of Energy"@) {
        Some(theme_or_sun(theme))
    } else {
        None
    }
}

pub fn energy_produced(residence: bool, class: Option<&str>, theme: Option<&str>) -> (p: Option<Theme>)
    ensures
        p == spec_energy_produced(residence, text_opt(class), text_opt(theme)),
{
    if residence {
        return Some(theme_of(theme));
    }
    match class {
        Some(c) => if str_eq_ignore_case(c, "Source of Energy") { Some(theme_of(theme)) } else { None },
        None => None,
    }
}
/// A property of `def` read as a whole number.
pub open spec fn int_prop(def: TypeDef, key: Seq<char>) -> Option<i64> {
    match spec_get(def@, key) {
        Some(v) => parse_int(v),
        None => None,
    }
}

/// A property of `def` read as a string.
pub open spec fn str_prop(def: TypeDef, key: Seq<char>) -> Option<Seq<char>> {
    match spec_get(def@, key) {
        Some(v) => value_str(v),
        None => None,
    }
}

/// Whether `def` carries the flag, ignoring ASCII case.
pub open spec fn flagged(def: TypeDef, flag: Seq<char>) -> bool {
    exists|i: int| 0 <= i < def.flags@.len() && eq_ignore_case(#[trigger] def.flags@[i]@, flag)
}

/// `v` kept to `lo..=hi`.
pub open spec fn clamped(v: i64, lo: i64, hi: i64) -> i64 {
    if v < lo { lo } else if v > hi { hi } else { v }
}

/// The whole-number and flag rules of a type; its speed and the delay
/// between its shots, which the files give as decimals, are read beside
/// these.
#[derive(Clone, Debug, PartialEq)]
pub struct TypeRules {
    pub foot_x: i32,
    pub foot_y: i32,
    pub walk: Walk,
    pub drop_blocking: bool,
    pub creates_island: bool,
    pub may_drop_on_rim: bool,
    /// Whether the type is a mobile unit rather than something dropped in place.
    pub is_unit: bool,
    /// Storm Power to build, from the `cost` property (0 when absent).
    pub cost: i32,
    /// A Storm Geyser: holds `cost` worth of crystals to harvest.
    pub is_geyser: bool,
    /// A Temple (`residence`): where crystals become Storm Power.
    pub is_temple: bool,
    /// `maxHitPoints`; 0 means indestructible (terrain-like types).
    pub max_hit_points: i32,
    /// Firing range in cells; 0 for things that do not shoot.
    pub range: i32,
    /// `hpPerSec`: damage dealt per second while firing.
    pub hp_per_sec: i32,
    /// Cannons fire only straight north, south, east or west (the manual).
    pub cardinal_only: bool,
    /// `threat`: targeting priority, higher first.
    pub threat: i32,
    /// A High Priest (`priest` flag): can be stunned, captured and sacrificed.
    pub is_priest: bool,
    /// A Transport (`walker`, `flyer`, `balloon` without `priest`): can carry a captured priest.
    pub is_transport: bool,
    /// An Altar (`dais` flag): where captured priests are sacrificed.
    pub is_altar: bool,
    /// Energy required to place the type, if any.
    pub energy: Option<EnergyNeed>,
    /// Energy produced (Generators and Temples).
    pub produces: Option<Theme>,
    /// `techBit`: Knowledge needed before the type can be built, if any.
    pub tech_bit: Option<u8>,
}

fn str_arg(v: &Option<String>) -> (r: Option<&str>)
    ensures
        text_opt(r) == (match v { Some(s) => Some(s@), None => None::<Seq<char>> }),
{
    match v {
        Some(s) => Some(s.as_str()),
        None => None,
    }
}

fn int_or(v: Option<i64>, d: i64) -> (r: i64)
    ensures
        r == (match v { Some(x) => x, None => d }),
{
    match v {
        Some(x) => x,
        None => d,
    }
}

impl TypeRules {
    /// The rules `def`'s flags and whole-number and string properties give.
    #[verifier::rlimit(80)]
    #[verifier::spinoff_prover]
    pub fn from_type(def: &TypeDef) -> (r: TypeRules)
        requires
            str_prop(*def, "mana"@) matches Some(m) ==> m.len() < 256,
        ensures
            r.foot_x == (if int_prop(*def, "foot_x"@).unwrap_or(1) < 1 { 1 } else { int_prop(*def, "foot_x"@).unwrap_or(1) }) as i32,
            r.foot_y == (if int_prop(*def, "foot_y"@).unwrap_or(1) < 1 { 1 } else { int_prop(*def, "foot_y"@).unwrap_or(1) }) as i32,
            r.walk == (if flagged(*def, "walkBlocking"@) { Walk::Blocked } else if flagged(*def, "yuckWalk"@) { Walk::Avoid } else { Walk::Free }),
            r.drop_blocking == flagged(*def, "dropBlocking"@),
            r.creates_island == flagged(*def, "createsisland"@),
            r.may_drop_on_rim == flagged(*def, "mayDropOnRim"@),
            r.is_unit == (flagged(*def, "walker"@) || flagged(*def, "flyer"@) || flagged(*def, "balloon"@)),
            r.cost == clamped(int_prop(*def, "cost"@).unwrap_or(0), 0, i32::MAX as i64) as i32,
            r.is_geyser == flagged(*def, "geyser"@),
            r.is_temple == flagged(*def, "residence"@),
            r.max_hit_points == clamped(int_prop(*def, "maxHitPoints"@).unwrap_or(0), 0, i32::MAX as i64) as i32,
            r.range == (if int_prop(*def, "hpPerSec"@).unwrap_or(0) > 0 { int_prop(*def, "range"@).unwrap_or(0) as i32 } else { 0 }),
            r.hp_per_sec == int_prop(*def, "hpPerSec"@).unwrap_or(0) as i32,
            r.cardinal_only == contains_seq(lower_all(def.name@), "cannon"@),
            r.threat == int_prop(*def, "threat"@).unwrap_or(0) as i32,
            r.is_priest == flagged(*def, "priest"@),
            r.is_transport == (!flagged(*def, "priest"@) && (flagged(*def, "walker"@) || flagged(*def, "flyer"@) || flagged(*def, "balloon"@))),
            r.is_altar == flagged(*def, "dais"@),
            r.energy == spec_energy_need(str_prop(*def, "mana"@), int_prop(*def, "level"@), str_prop(*def, "class"@), str_prop(*def, "theme"@)),
            r.produces == spec_energy_produced(flagged(*def, "residence"@), str_prop(*def, "class"@), str_prop(*def, "theme"@)),
            r.tech_bit == (match int_prop(*def, "techBit"@) { Some(b) => if 0 <= b <= 255 { Some(b as u8) } else { None }, None => None }),
    {
        let walk = if def.has_flag("walkBlocking") {
            Walk::Blocked
        } else if def.has_flag("yuckWalk") {
            Walk::Avoid
        } else {
            Walk::Free
        };
        let fx = int_or(def.get_i64("foot_x"), 1);
        let fy = int_or(def.get_i64("foot_y"), 1);
        let cost = int_or(def.get_i64("cost"), 0);
        let hp = int_or(def.get_i64("maxHitPoints"), 0);
        let hps = int_or(def.get_i64("hpPerSec"), 0);
        let walker = def.has_flag("walker");
        let flyer = def.has_flag("flyer");
        let balloon = def.has_flag("balloon");
        let priest = def.has_flag("priest");
        let mana = def.get_str("mana");
        let class = def.get_str("class");
        let theme = def.get_str("theme");
        let name = lowercase(chars_of(def.name.as_str()).as_slice());
        let cannon = contains_chars(name.as_slice(), chars_of("cannon").as_slice());
        let tech_bit = match def.get_i64("techBit") {
            Some(b) => if 0 <= b && b <= 255 { Some(b as u8) } else { None },
            None => None,
        };
        TypeRules {
            foot_x: (if fx < 1 { 1 } else { fx }) as i32,
            foot_y: (if fy < 1 { 1 } else { fy }) as i32,
            walk,
            drop_blocking: def.has_flag("dropBlocking"),
            creates_island: def.has_flag("createsisland"),
            may_drop_on_rim: def.has_flag("mayDropOnRim"),
            is_unit: walker || flyer || balloon,
            cost: (if cost < 0 { 0 } else if cost > i32::MAX as i64 { i32::MAX as i64 } else { cost }) as i32,
            is_geyser: def.has_flag("geyser"),
            is_temple: def.has_flag("residence"),
            max_hit_points: (if hp < 0 { 0 } else if hp > i32::MAX as i64 { i32::MAX as i64 } else { hp }) as i32,
            range: if hps > 0 { int_or(def.get_i64("range"), 0) as i32 } else { 0 },
            hp_per_sec: hps as i32,
            cardinal_only: cannon,
            threat: int_or(def.get_i64("threat"), 0) as i32,
            is_priest: priest,
            is_transport: !priest && (walker || flyer || balloon),
            is_altar: def.has_flag("dais"),
            energy: energy_need(str_arg(&mana), def.get_i64("level"), str_arg(&class), str_arg(&theme)),
            produces: energy_produced(def.has_flag("residence"), str_arg(&class), str_arg(&theme)),
            tech_bit,
        }
    }

    /// Rules for a plain, unknown type: one cell, walkable, droppable.
    pub fn plain() -> (r: TypeRules)
        ensures
            r.foot_x == 1 && r.foot_y == 1 && r.walk == Walk::Free,
            !r.drop_blocking && !r.creates_island && !r.may_drop_on_rim && !r.is_unit,
            r.cost == 0 && !r.is_geyser && !r.is_temple && r.max_hit_points == 0 && r.range == 0 && r.hp_per_sec == 0,
            !r.cardinal_only && r.threat == 0 && !r.is_priest && !r.is_transport && !r.is_altar,
            r.energy is None && r.produces is None && r.tech_bit is None,
    {
        TypeRules {
            foot_x: 1,
            foot_y: 1,
            walk: Walk::Free,
            drop_blocking: false,
            creates_island: false,
            may_drop_on_rim: false,
            is_unit: false,
            cost: 0,
            is_geyser: false,
            is_temple: false,
            max_hit_points: 0,
            range: 0,
            hp_per_sec: 0,
            cardinal_only: false,
            threat: 0,
            is_priest: false,
            is_transport: false,
            is_altar: false,
            energy: None,
            produces: None,
            tech_bit: None,
        }
    }
}

} // verus!
