//! Which `_shapes.shp` container belongs to which type.
//!
//! The sprite cache has one container per object type, in the order the
//! game registers its types. That order is not stored in the data files,
//! so it is kept here as a constant.
//!
//! Inside a container the entries are the type's frames in file order. If
//! the type carries the `shadow` or `flyershadow` flag, the container holds
//! twice as many entries: first every frame's image, then every frame's
//! shadow.
use vstd::prelude::*;
use crate::shp::ShapeFile;
use crate::text::{chars_of, eq_ignore_case, str_eq, str_eq_ignore_case, string_of};
use crate::typefile::TypeDef;

verus! {

/// Type file stems in container order, for the 8.2 data (119 containers).
pub const SHAPE_ORDER: [&'static str; 119] = [
    "dude", "sunarcher", "sunaviary", "sunflyer", "banner", "windbattery", "rainbattery",
    "thunderbattery", "sunblocker", "thunderblocker", "blankmissile", "bolt", "bridge", "sundisc",
    "emptygeyser", "sunfactory", "windfactory", "rainfactory", "thunderfactory", "residence",
    "fencemark", "flag", "fortgump", "icon", "island", "islandstalag", "playerbanner", "isle",
    "islebig", "geyserbrightener", "treetwo", "treethree", "fringe", "mana", "range", "manabolt",
    "flare", "puzzlepiece", "playerisland", "battleisland", "particleplaceholder", "sunballoon",
    "buried", "bombexplodesmall", "bombexplodemedium", "bombexplodelarge", "bombheal",
    "bombinvisible", "bombparalyze", "bombhardener", "bombtreason", "edgefarm", "geyser",
    "windvortex", "rainvortex", "thundervortex", "outpost", "mcloud", "suncannon", "raincannon",
    "raincannonmissile", "thundercannon", "thundercannonmissile", "sunwalker", "teleporteffect",
    "bulf", "sunfence", "windwalker", "windflyer", "windaviary", "windarcher", "windballoon",
    "windblocker", "rainaviary", "rainflyer", "rainfence", "rainballoon", "rainblocker",
    "thunderarcher", "thunderfence", "growingrainblocker", "platform", "player", "mog", "nugget",
    "bridgeconnector", "rainwalker", "noisland", "priest", "windwhirl", "thunderaviary", "ruin",
    "monument", "sunbattery", "lightning", "anim", "challengeisland", "fakethreebythreesurface",
    "sunflyerbomb", "altar", "dais", "rune", "forcefield", "bombspecialone", "daisextraframes",
    "fenceshield", "bombtwister", "bombiitwister", "bombiiitwister", "gravitationeffect",
    "bombgraviton", "healeffect", "meteoreffect", "bombmeteor", "bombimano", "bombiimano",
    "bombiiimano", "bomblightingzap", "bomblightingwave",
];

/// Container index for a type, by file stem (case-insensitive): the first
/// container whose stem matches.
pub fn container_of(stem: &str) -> (r: Option<usize>)
    ensures
        match r {
            Some(i) => i < 119 && eq_ignore_case(SHAPE_ORDER@[i as int]@, stem@)
                && forall|j: int| 0 <= j < i ==> !eq_ignore_case(#[trigger] SHAPE_ORDER@[j]@, stem@),
            None => forall|j: int| 0 <= j < 119 ==> !eq_ignore_case(#[trigger] SHAPE_ORDER@[j]@, stem@),
        },
{
    let mut i: usize = 0;
    while i < 119
        invariant
            i <= 119,
            forall|j: int| 0 <= j < i ==> !eq_ignore_case(#[trigger] SHAPE_ORDER@[j]@, stem@),
        decreases 119 - i,
    {
        if str_eq_ignore_case(SHAPE_ORDER[i], stem) {
            return Some(i);
        }
        i = i + 1;
    }
    None
}

/// A type's frames resolved to sprite cache records.
#[derive(Clone, Debug)]
pub struct ShapeRecords {
    pub container: usize,
    /// Record offset of each frame's image, in frame order.
    pub images: Vec<usize>,
    /// Record offset of each frame's shadow, empty if the type has none.
    pub shadows: Vec<usize>,
}

#[derive(Debug, PartialEq, Eq)]
pub enum ShapeIndexError {
    /// The cache does not have the expected number of containers.
    ContainerCount { expected: usize, found: usize },
    /// A container's entry count does not match its type's frames.
    EntryCount { stem: &'static str, container: usize, expected: usize, found: usize },
    /// A type from [`SHAPE_ORDER`] was not provided.
    MissingType(&'static str),
}


/// Whether a type's container carries a shadow block.
pub open spec fn spec_has_shadow_block(flags: Seq<String>) -> bool {
    exists|i: int| 0 <= i < flags.len() && (eq_ignore_case(#[trigger] flags[i]@, "shadow"@) || eq_ignore_case(flags[i]@, "flyershadow"@))
}

/// Whether a type's container carries a shadow block: a `shadow` or
/// `flyershadow` flag.
pub fn has_shadow_block(def: &TypeDef) -> (r: bool)
    ensures
        r == spec_has_shadow_block(def.flags@),
{
    def.has_flag("shadow") || def.has_flag("flyershadow")
}

/// Expected number of container entries for a type: its frames, twice
/// over with a shadow block.
pub fn expected_entries(def: &TypeDef) -> (n: usize)
    requires
        def.frames@.len() * 2 <= usize::MAX,
    ensures
        n == def.frames@.len() * (if spec_has_shadow_block(def.flags@) { 2int } else { 1int }),
{
    def.frames.len() * if has_shadow_block(def) { 2 } else { 1 }
}

/// The definition listed under exactly `key`.
pub open spec fn def_for(types: Seq<(String, TypeDef)>, key: Seq<char>) -> Option<TypeDef>
    decreases types.len(),
{
    if types.len() == 0 {
        None
    } else if types[0].0@ == key {
        Some(types[0].1)
    } else {
        def_for(types.drop_first(), key)
    }
}

/// Records of one container for a type: its images, then its shadows.
pub open spec fn records_for(c: int, entries: Seq<usize>, def: TypeDef) -> (int, Seq<usize>, Seq<usize>) {
    let n = def.frames@.len() as int;
    (c, entries.subrange(0, n), if spec_has_shadow_block(def.flags@) { entries.subrange(n, entries.len() as int) } else { Seq::empty() })
}

/// Containers `k` on resolved, or the first that fails.
pub open spec fn spec_index_from(tables: Seq<Seq<usize>>, types: Seq<(String, TypeDef)>, k: int) -> Result<Seq<(Seq<char>, (int, Seq<usize>, Seq<usize>))>, ShapeIndexError>
    decreases 119 - k,
{
    if k < 0 || k >= 119 {
        Ok(Seq::empty())
    } else {
        let stem = SHAPE_ORDER@[k]@;
        match def_for(types, stem) {
            None => Err(ShapeIndexError::MissingType(SHAPE_ORDER@[k])),
            Some(def) => {
                let expected = def.frames@.len() * (if spec_has_shadow_block(def.flags@) { 2int } else { 1int });
                if tables[k].len() != expected {
                    Err(ShapeIndexError::EntryCount { stem: SHAPE_ORDER@[k], container: k as usize, expected: expected as usize, found: tables[k].len() as usize })
                } else {
                    match spec_index_from(tables, types, k + 1) {
                        Err(e) => Err(e),
                        Ok(rest) => Ok(seq![(stem, records_for(k, tables[k], def))] + rest),
                    }
                }
            },
        }
    }
}

/// Every type of [`SHAPE_ORDER`] resolved against the sprite cache.
pub open spec fn spec_index(tables: Seq<Seq<usize>>, types: Seq<(String, TypeDef)>) -> Result<Seq<(Seq<char>, (int, Seq<usize>, Seq<usize>))>, ShapeIndexError> {
    if tables.len() != 119 {
        Err(ShapeIndexError::ContainerCount { expected: 119, found: tables.len() as usize })
    } else {
        spec_index_from(tables, types, 0)
    }
}

pub open spec fn records_view(v: Seq<(String, ShapeRecords)>) -> Seq<(Seq<char>, (int, Seq<usize>, Seq<usize>))> {
    v.map_values(|p: (String, ShapeRecords)| (p.0@, (p.1.container as int, p.1.images@, p.1.shadows@)))
}

fn find_def<'a>(types: &'a Vec<(String, TypeDef)>, key: &str) -> (r: Option<&'a TypeDef>)
    ensures
        match def_for(types@, key@) {
            Some(d) => r == Some(&d),
            None => r is None,
        },
{
    let mut i: usize = 0;
    assert(types@.subrange(0, types@.len() as int) =~= types@);
    while i < types.len()
        invariant
            i <= types@.len(),
            def_for(types@, key@) == def_for(types@.subrange(i as int, types@.len() as int), key@),
        decreases types@.len() - i,
    {
        proof {
            let rest = types@.subrange(i as int, types@.len() as int);
            assert(rest.drop_first() =~= types@.subrange(i + 1, types@.len() as int));
            assert(rest[0] == types@[i as int]);
        }
        if str_eq(types[i].0.as_str(), key) {
            return Some(&types[i].1);
        }
        i = i + 1;
    }
    proof {
        assert(types@.subrange(i as int, types@.len() as int) =~= Seq::<(String, TypeDef)>::empty());
    }
    None
}

proof fn lemma_def_for_member(types: Seq<(String, TypeDef)>, key: Seq<char>)
    ensures
        def_for(types, key) matches Some(d) ==> exists|i: int| 0 <= i < types.len() && (#[trigger] types[i]).1 == d,
    decreases types.len(),
{
    if types.len() > 0 && types[0].0@ != key {
        lemma_def_for_member(types.drop_first(), key);
        if def_for(types, key) is Some {
            let i = choose|i: int| 0 <= i < types.drop_first().len() && (#[trigger] types.drop_first()[i]).1 == def_for(types, key)->0;
            assert(types[i + 1] == types.drop_first()[i]);
        }
    }
}

/// Resolve every type in [`SHAPE_ORDER`] against the sprite cache.
///
/// `types` pairs lowercase file stems with parsed definitions. Every
/// container is checked against its type's frame count, so a mismatched
/// data set fails loudly instead of showing the wrong sprites. The result
/// lists the types in container order.
pub fn index(shp: &ShapeFile, types: &Vec<(String, TypeDef)>) -> (r: Result<Vec<(String, ShapeRecords)>, ShapeIndexError>)
    requires
        forall|i: int| 0 <= i < types@.len() ==> (#[trigger] types@[i]).1.frames@.len() * 2 <= usize::MAX,
    ensures
        match spec_index(shp.tables(), types@) {
            Ok(v) => r is Ok && records_view(r->Ok_0@) == v,
            Err(e) => r == Err::<Vec<(String, ShapeRecords)>, ShapeIndexError>(e),
        },
{
    let count = shp.container_count();
    if count != 119 {
        return Err(ShapeIndexError::ContainerCount { expected: 119, found: count });
    }
    let ghost tables = shp.tables();
    let mut out: Vec<(String, ShapeRecords)> = Vec::new();
    let mut c: usize = 0;
    while c < 119
        invariant
            tables == shp.tables(),
            tables.len() == 119,
            forall|i: int| 0 <= i < types@.len() ==> (#[trigger] types@[i]).1.frames@.len() * 2 <= usize::MAX,
            c <= 119,
            spec_index(tables, types@) == (match spec_index_from(tables, types@, c as int) {
                Err(e) => Err(e),
                Ok(rest) => Ok(records_view(out@) + rest),
            }),
        decreases 119 - c,
    {
        let stem = SHAPE_ORDER[c];
        let def = match find_def(types, stem) {
            Some(d) => d,
            None => { return Err(ShapeIndexError::MissingType(stem)); },
        };
        let entries = shp.container(c);
        proof { lemma_def_for_member(types@, stem@); }
        let expected = expected_entries(def);
        if entries.len() != expected {
            return Err(ShapeIndexError::EntryCount { stem, container: c, expected, found: entries.len() });
        }
        let n = def.frames.len();
        let images = entries_copy(entries, 0, n);
        let shadows = if has_shadow_block(def) { entries_copy(entries, n, entries.len()) } else { Vec::new() };
        let ghost before = records_view(out@);
        out.push((string_of(chars_of(stem).as_slice()), ShapeRecords { container: c, images, shadows }));
        proof {
            assert(records_view(out@) =~= before.push((stem@, records_for(c as int, tables[c as int], *def))));
            assert(records_view(out@) + spec_index_from(tables, types@, c + 1)->Ok_0 =~= before + (seq![(stem@, records_for(c as int, tables[c as int], *def))] + spec_index_from(tables, types@, c + 1)->Ok_0));
        }
        c = c + 1;
    }
    proof {
        assert(records_view(out@) + Seq::empty() =~= records_view(out@));
    }
    Ok(out)
}

fn entries_copy(e: &[usize], from: usize, to: usize) -> (v: Vec<usize>)
    requires
        from <= to <= e@.len(),
    ensures
        v@ == e@.subrange(from as int, to as int),
{
    let mut v: Vec<usize> = Vec::new();
    let mut i: usize = from;
    while i < to
        invariant
            from <= i <= to <= e@.len(),
            v@ == e@.subrange(from as int, i as int),
        decreases to - i,
    {
        v.push(e[i]);
        i = i + 1;
    }
    v
}
} // verus!
