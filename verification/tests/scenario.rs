use islefall::config::FortRules;
use islefall::fort::{encode as fort_encode, Fort, CODE_GEYSER, CODE_GROUND, CODE_PRIEST, CODE_TEMPLE};
use islefall::generate::Report;
use islefall::grid::Cell;
use islefall::map::MapDef;
use islefall::mission::Mission;
use islefall::scenario::{
    code_key, fortress_plan, fortress_theme, islands_of, opponent_for, owner_of, scenario_header, seat_techs, seating,
    temple_for, world_islands, world_items,
};

fn pairs(v: &[(&str, &str)]) -> Vec<(String, String)> {
    v.iter().map(|(k, x)| (k.to_string(), x.to_string())).collect()
}

fn rules() -> FortRules {
    FortRules {
        codes: pairs(&[("47", "sunarcher"), ("48", "")]),
        units: pairs(&[("59", "priest")]),
        ground_themes: vec!["sun".into(), "rain".into()],
        altar_themes: pairs(&[("7c", "rain")]),
        temples: pairs(&[("rain", "raintemple"), ("sun", "suntemple"), ("wind", "windtemple")]),
        ..FortRules::default()
    }
}

fn empty_map() -> MapDef {
    MapDef {
        name: String::new(),
        start_power: 0,
        camera: [0, 0],
        player_tech: vec![],
        islands: vec![],
        bridges: vec![],
        structures: vec![],
        units: vec![],
        opponents: vec![],
    }
}

/// The world table and seats of the original's scenario test: a 3 x 3
/// island with a geyser, a bridge cell, and two seats, the second of
/// which is the file's own.
fn scenario() -> Fort {
    let mut table = vec![Vec::new(); 256];
    for c in 0..3u8 {
        for r in 0..3u8 {
            table[100].push((c << 4 | r, CODE_GROUND, vec![0]));
        }
    }
    table[100].push((0x22, CODE_GEYSER, vec![0]));
    table[100].push((0x55, 0xfd, vec![0x29]));
    let mine = vec![vec![(0x7d, 0x7b, vec![2, 1, 0x85, 0])], vec![(0x41, CODE_TEMPLE, vec![0x81, 2, 0]), (0x40, CODE_PRIEST, vec![2])]];
    let theirs = vec![vec![(0x7d, 0x7c, vec![1, 1, 0x85, 0]), (0x33, 0x47, vec![1])], vec![(0x41, CODE_TEMPLE, vec![1, 1, 0]), (0x40, CODE_PRIEST, vec![1])]];
    Fort::parse(&fort_encode(14, "Player", &table, &[theirs, mine])).unwrap()
}

#[test]
fn ground_splits_into_islands_by_their_least_cell() {
    let ground = vec![(5, 5, 0), (0, 0, 0), (1, 0, 0), (5, 6, 0), (1, 1, 0), (9, 9, 1)];
    let isl = islands_of(&ground);
    assert_eq!(isl.len(), 3);
    let mut first: Vec<Cell> = isl[0].clone();
    first.sort();
    assert_eq!(first, vec![Cell::new(0, 0), Cell::new(1, 0), Cell::new(1, 1)]);
    assert_eq!(isl[0][0], Cell::new(0, 0), "each island starts at its least cell");
    assert_eq!(isl[1].len(), 2);
    assert_eq!(isl[1][0], Cell::new(5, 5));
    assert_eq!(isl[2], vec![Cell::new(9, 9)]);
}

#[test]
fn diagonal_cells_are_separate_islands() {
    let isl = islands_of(&[(0, 0, 0), (1, 1, 0), (2, 2, 0)]);
    assert_eq!(isl.len(), 3);
    assert!(islands_of(&[]).is_empty());
}

#[test]
fn the_world_table_becomes_islands_structures_and_a_bridge() {
    let f = scenario();
    let fc = rules();
    let mut map = empty_map();
    let mut report = Report { unknown_codes: vec![], notes: vec![] };
    let (_, seated) = seating(&f);
    let isl = world_islands(&f, &fc, &mut map);
    world_items(&f, &fc, &seated, &isl, 0, &mut map, &mut report);
    assert_eq!(map.islands.len(), 1);
    assert_eq!(map.islands[0].cells.len(), 9);
    assert_eq!((map.islands[0].origin, map.islands[0].size), ([64, 96], [3, 3]));
    assert_eq!(map.islands[0].theme, "sun");
    assert_eq!(map.islands[0].owner, None);
    assert_eq!(map.structures.len(), 1);
    assert_eq!((map.structures[0].kind.as_str(), map.structures[0].at, map.structures[0].owner), ("geyser", [66, 98], 0));
    assert_eq!(map.bridges.len(), 1);
    assert_eq!(map.bridges[0].cells, vec![[69, 101]]);
    assert!(report.unknown_codes.is_empty());
}

#[test]
fn the_file_own_seat_sits_first() {
    let f = scenario();
    let (order, seated) = seating(&f);
    assert_eq!(order, vec![1, 0], "the second fortress has the local Temple");
    assert_eq!(seated, vec![2, 1], "Temple 2 and altar 1 name the players");
    let temple = &f.fortresses[1].items.iter().find(|i| i.code == CODE_TEMPLE).unwrap();
    assert_eq!(owner_of(&seated, temple), 0);
    let altar = &f.fortresses[0].items.iter().find(|i| i.code == 0x7c).unwrap();
    assert_eq!(owner_of(&seated, altar), 1);
}

#[test]
fn seats_get_their_themes_techs_and_opponents() {
    let f = scenario();
    let fc = rules();
    let mission = Mission::parse("[Header]\nmyStartMoney = 2000\nmyTech = \"sunArcher\"\nai1Tech = \"rainCannon;rainBattery\"\nai1StartMoney = 500\ntitle = \"Test\"\n");
    let (title, power) = scenario_header(Some(&mission), &fc, "test");
    assert_eq!((title.as_str(), power), ("Test", 2000));
    assert_eq!(scenario_header(None, &fc, "test"), ("test".to_string(), fc.start_power));
    let mine = seat_techs(Some(&mission), 0, 2);
    assert_eq!(mine, vec!["sunarcher"]);
    assert_eq!(fortress_theme(&f.fortresses[1], &fc, &mine, 0), "wind", "the player's theme when the altar tells nothing");
    let theirs = seat_techs(Some(&mission), 1, 1);
    assert_eq!(theirs, vec!["raincannon", "rainbattery"]);
    assert_eq!(fortress_theme(&f.fortresses[0], &fc, &theirs, 1), "rain", "altar code 7c marks the Rain faction");
    assert_eq!(temple_for(&fc, "rain"), "raintemple");
    assert_eq!(temple_for(&fc, "thunder"), "raintemple", "the first Temple where the theme has none");
    let op = opponent_for(Some(&mission), &fc, theirs, 1, 1);
    assert_eq!((op.owner, op.shooter.as_deref(), op.generator.as_deref(), op.power), (1, Some("raincannon"), Some("rainbattery"), Some(500)));
    let none = opponent_for(None, &fc, vec![], 2, 3);
    assert_eq!((none.shooter, none.generator, none.power), (None, None, Some(fc.ai_power)));
}

#[test]
fn a_fortress_plans_its_structures_and_units() {
    let f = scenario();
    let fc = rules();
    let mut report = Report { unknown_codes: vec![], notes: vec![] };
    let (structures, units) = fortress_plan(&f.fortresses[0], &fc, &"raintemple".to_string(), &mut report);
    let kinds: Vec<&str> = structures.iter().map(|(k, _)| k.as_str()).collect();
    assert_eq!(kinds, vec!["dais", "sunarcher", "raintemple"]);
    assert_eq!(units.len(), 1);
    assert_eq!(units[0].0, "priest");
    assert!(report.unknown_codes.is_empty());
}

#[test]
fn unknown_codes_are_counted() {
    let mut table = vec![Vec::new(); 256];
    table[0].push((0x00, 0x99, vec![0]));
    table[0].push((0x01, 0x99, vec![0]));
    table[0].push((0x02, 0x48, vec![0]));
    let f = Fort::parse(&fort_encode(14, "", &table, &[])).unwrap();
    let fc = rules();
    let mut map = empty_map();
    let mut report = Report { unknown_codes: vec![], notes: vec![] };
    world_items(&f, &fc, &[], &vec![], 0, &mut map, &mut report);
    assert_eq!(report.unknown_codes, vec![(0x99, 2)]);
    assert!(map.structures.is_empty(), "an empty type name skips the code");
    assert_eq!(code_key(0x7c), "7c");
    assert_eq!(code_key(0x05), "05");
}
