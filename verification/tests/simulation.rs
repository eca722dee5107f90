use islefall::command::{Command, Replay};
use islefall::config::{Grid, PieceDef};
use islefall::generate::footprint;
use islefall::grid::Cell;
use islefall::island::IslandMap;
use islefall::isle::Piece as IslePiece;
use islefall::map::{cell, MapDef};
use islefall::path::{find_path, find_path_costed};
use islefall::pieces::{Piece, PieceQueue};
use islefall::rules::{energy_need, energy_produced, EnergyNeed, TypeRules, Walk};
use islefall::isle::Theme;
use islefall::structure::Structure;
use islefall::unit::{Dir8, Pos, Unit};

#[test]
fn pixel_positions() {
    let g = Grid { cell_w: 16, cell_h: 11 };
    assert_eq!(Cell::new(0, 0).top_left_px(&g), (0, 0));
    assert_eq!(Cell::new(0, 0).hotspot_px(&g), (15, 10));
    assert_eq!(Cell::new(2, 3).hotspot_px(&g), (47, 43));
    assert_eq!(Cell::new(1, 1).offset(-1, 2), Cell::new(0, 3));
}

#[test]
fn centre_pixels_round_towards_zero() {
    let g = Grid { cell_w: 16, cell_h: 11 };
    assert_eq!(Cell::new(1, 1).centre_px(&g), (24, 16));
    let odd = Grid { cell_w: -3, cell_h: 5 };
    assert_eq!(Cell::new(1, 0).centre_px(&odd), (-4, 2));
}

#[test]
fn rectangle_pieces() {
    let m = IslandMap::rect(Cell::new(0, 0), 4, 3);
    assert_eq!(m.len(), 12);
    assert_eq!(m.piece_at(Cell::new(0, 0)), Some(IslePiece::CornerTopLeft));
    assert_eq!(m.piece_at(Cell::new(3, 0)), Some(IslePiece::CornerTopRight));
    assert_eq!(m.piece_at(Cell::new(3, 2)), Some(IslePiece::CornerBottomRight));
    assert_eq!(m.piece_at(Cell::new(0, 2)), Some(IslePiece::CornerBottomLeft));
    assert_eq!(m.piece_at(Cell::new(1, 0)), Some(IslePiece::EdgeTop));
    assert_eq!(m.piece_at(Cell::new(0, 1)), Some(IslePiece::EdgeLeft));
    assert_eq!(m.piece_at(Cell::new(3, 1)), Some(IslePiece::EdgeRight));
    assert_eq!(m.piece_at(Cell::new(2, 2)), Some(IslePiece::EdgeBottom));
    assert_eq!(m.piece_at(Cell::new(1, 1)), Some(IslePiece::Filled));
    assert_eq!(m.piece_at(Cell::new(9, 9)), None);
}

#[test]
fn inside_corner() {
    let mut m = IslandMap::rect(Cell::new(0, 0), 3, 3);
    m.remove(Cell::new(2, 0));
    assert_eq!(m.piece_at(Cell::new(1, 1)), Some(IslePiece::InsideTopRight));
    assert_eq!(m.piece_at(Cell::new(1, 0)), Some(IslePiece::CornerTopRight));
}

#[test]
fn island_cells_are_a_set() {
    let mut m = IslandMap::new();
    assert!(m.is_empty());
    assert!(m.insert(Cell::new(2, 1)));
    assert!(!m.insert(Cell::new(2, 1)), "a second insert adds nothing");
    assert!(m.insert(Cell::new(-1, 5)));
    assert!(m.contains(Cell::new(2, 1)));
    assert_eq!(m.cells(), vec![Cell::new(-1, 5), Cell::new(2, 1)]);
    assert!(m.remove(Cell::new(2, 1)));
    assert!(!m.remove(Cell::new(2, 1)));
    assert!(!m.contains(Cell::new(2, 1)));
    assert_eq!(m.len(), 1);
    assert!(IslandMap::rect(Cell::new(0, 0), 0, 5).is_empty());
}

fn open_field(c: Cell) -> bool {
    (0..10).contains(&c.x) && (0..10).contains(&c.y)
}

#[test]
fn straight_and_diagonal() {
    let p = find_path(Cell::new(0, 0), Cell::new(3, 0), open_field).unwrap();
    assert_eq!(p, vec![Cell::new(1, 0), Cell::new(2, 0), Cell::new(3, 0)]);
    let p = find_path(Cell::new(0, 0), Cell::new(3, 3), open_field).unwrap();
    assert_eq!(p.len(), 3);
    assert_eq!(p.last(), Some(&Cell::new(3, 3)));
    assert_eq!(find_path(Cell::new(2, 2), Cell::new(2, 2), open_field), Some(Vec::new()));
}

#[test]
fn routes_around_a_wall_without_cutting_corners() {
    let walkable = |c: Cell| open_field(c) && !(c.x == 5 && c.y < 9);
    let p = find_path(Cell::new(2, 2), Cell::new(8, 2), walkable).unwrap();
    assert!(p.iter().all(|&c| walkable(c)));
    assert!(p.iter().any(|&c| c.y == 9), "must use the gap");
    let mut prev = Cell::new(2, 2);
    for &c in &p {
        let (dx, dy) = (c.x - prev.x, c.y - prev.y);
        assert!(dx.abs() <= 1 && dy.abs() <= 1);
        if dx != 0 && dy != 0 {
            assert!(walkable(prev.offset(dx, 0)) && walkable(prev.offset(0, dy)));
        }
        prev = c;
    }
}

#[test]
fn avoids_expensive_cells_when_a_detour_is_cheap() {
    let cost = |c: Cell| if open_field(c) { Some(if c.x == 2 && c.y < 4 { 5 } else { 1 }) } else { None };
    let p = find_path_costed(Cell::new(0, 1), Cell::new(4, 1), cost).unwrap();
    assert!(p.iter().all(|c| !(c.x == 2 && c.y < 4)), "went through the expensive column: {p:?}");
    assert!(p.last() == Some(&Cell::new(4, 1)));
}

#[test]
fn unreachable() {
    let walkable = |c: Cell| open_field(c) && c.x != 5;
    assert_eq!(find_path(Cell::new(1, 1), Cell::new(8, 8), walkable), None);
    assert_eq!(find_path(Cell::new(1, 1), Cell::new(50, 50), walkable), None);
}

#[test]
fn rotation_cycles_and_normalises() {
    let corner = Piece::new("corner", &[(0, 0), (1, 0), (1, 1)]);
    let r1 = corner.rotated();
    assert_eq!(r1.cells, vec![(0, 1), (1, 0), (1, 1)]);
    let r4 = r1.rotated().rotated().rotated();
    assert_eq!(r4, corner, "four quarter turns return the shape");
    assert_eq!(corner.size(), (2, 2));
    let three = Piece::new("three", &[(0, 0), (1, 0), (2, 0)]);
    assert_eq!(three.rotated().size(), (1, 3));
}

#[test]
fn new_pieces_are_shifted_and_sorted() {
    let p = Piece::new("odd", &[(5, -2), (3, 0), (3, -2), (5, -2)]);
    assert_eq!(p.cells, vec![(0, 0), (0, 2), (2, 0), (2, 0)]);
    let d = PieceDef { name: "bar".into(), cells: vec![[1, 1], [1, 2]] };
    assert_eq!(Piece::from_def(&d).cells, vec![(0, 0), (0, 1)]);
}

#[test]
fn cells_at_offsets_origin() {
    let two = Piece::new("two", &[(0, 0), (1, 0)]);
    assert_eq!(two.cells_at(Cell::new(5, 7)), vec![Cell::new(5, 7), Cell::new(6, 7)]);
}

fn catalogue() -> Vec<Piece> {
    vec![
        Piece::new("one", &[(0, 0)]),
        Piece::new("two", &[(0, 0), (1, 0)]),
        Piece::new("corner", &[(0, 0), (1, 0), (1, 1)]),
        Piece::new("three", &[(0, 0), (1, 0), (2, 0)]),
    ]
}

#[test]
fn queue_draws_the_same_for_the_same_seed() {
    let mut a = PieceQueue::new(catalogue(), 4, 42);
    let mut b = PieceQueue::new(catalogue(), 4, 42);
    assert_eq!(a.slots, b.slots);
    assert_eq!(a.slots.len(), 4);
    let used = a.refill(2).unwrap();
    assert_eq!(used, b.slots[2]);
    b.refill(2);
    assert_eq!(a.slots, b.slots, "same draws in the same order");
    assert_eq!(a.refill(9), None);
    assert!(PieceQueue::new(Vec::new(), 4, 1).slots.is_empty());
    let defs = vec![PieceDef { name: "bar".into(), cells: vec![[0, 0], [0, 1]] }];
    let q = PieceQueue::from_defs(&defs, 2, 7);
    assert_eq!(q.slots.len(), 2);
    assert_eq!(q.slots[0].name, "bar");
}

#[test]
fn footprint_cells() {
    let s = Structure::new("dais", Cell::new(9, 7), 3, 2, Walk::Free);
    assert_eq!(s.owner, 0);
    let cells: Vec<Cell> = s.cells();
    assert_eq!(cells.len(), 6);
    assert!(cells.contains(&Cell::new(9, 7)));
    assert!(cells.contains(&Cell::new(7, 6)));
    assert!(!cells.contains(&Cell::new(6, 6)));
    assert!(s.covers(Cell::new(8, 7)));
    assert!(!s.covers(Cell::new(10, 7)));
    assert!(!s.covers(Cell::new(9, 5)));
    assert_eq!(s.adjacent_cells().len(), 10);
    assert!(s.is_adjacent(Cell::new(10, 7)));
    assert!(!s.is_adjacent(Cell::new(10, 8)), "diagonal does not count");
    assert_eq!(s.distance_to(Cell::new(9, 7)), 0);
    assert_eq!(s.distance_to(Cell::new(12, 7)), 3);
    assert_eq!(s.distance_to(Cell::new(5, 3)), 3);
    assert!(s.in_line(Cell::new(20, 6)) && s.in_line(Cell::new(8, 0)) && !s.in_line(Cell::new(20, 0)));
    assert_eq!(s.centre(), Cell::new(8, 7));
}

#[test]
fn structures_start_complete_and_at_rest() {
    let s = Structure::new("wall", Cell::new(0, 0), 0, -4, Walk::Blocked);
    assert_eq!((s.foot_x, s.foot_y), (1, 1));
    assert!(s.complete());
    assert!(s.blocks_walking());
    assert_eq!(s.level, 1);
    assert_eq!(footprint(Cell::new(3, 3), (2, 0)), vec![Cell::new(3, 3), Cell::new(2, 3)]);
}

#[test]
fn facing_from_vectors() {
    assert_eq!(Dir8::from_vector(0, -10), Some(Dir8::N));
    assert_eq!(Dir8::from_vector(10, -10), Some(Dir8::NE));
    assert_eq!(Dir8::from_vector(10, 0), Some(Dir8::E));
    assert_eq!(Dir8::from_vector(10, 10), Some(Dir8::SE));
    assert_eq!(Dir8::from_vector(0, 10), Some(Dir8::S));
    assert_eq!(Dir8::from_vector(-10, 10), Some(Dir8::SW));
    assert_eq!(Dir8::from_vector(-10, 0), Some(Dir8::W));
    assert_eq!(Dir8::from_vector(-10, -10), Some(Dir8::NW));
    assert_eq!(Dir8::from_vector(10, -2), Some(Dir8::E));
    assert_eq!(Dir8::from_vector(2, -10), Some(Dir8::N));
    assert_eq!(Dir8::from_vector(0, 0), None);
    assert_eq!(Dir8::E.animation(), "C");
}

#[test]
fn walks_to_target_and_stops() {
    let mut u = Unit::new("priest", Cell::new(0, 0), 64, 256);
    u.path.push_back(Pos::cell_centre(Cell::new(3, 0), 256));
    let mut ticks = 0;
    while u.is_moving() {
        u.step();
        ticks += 1;
        assert!(ticks < 100, "did not arrive");
    }
    assert_eq!(u.pos, Pos::cell_centre(Cell::new(3, 0), 256));
    assert_eq!(u.facing, Dir8::E);
    assert_eq!(ticks, 12, "3 cells at a quarter cell per tick");
    assert_eq!(u.cell(), Cell::new(3, 0));
}

#[test]
fn a_held_unit_does_not_move() {
    let mut u = Unit::new("priest", Cell::new(0, 0), 64, 256);
    u.path.push_back(Pos::cell_centre(Cell::new(1, 0), 256));
    u.paralysed = 3;
    assert!(u.held());
    u.step();
    assert_eq!(u.pos, Pos::cell_centre(Cell::new(0, 0), 256));
}

#[test]
fn negative_positions_map_to_cells() {
    assert_eq!(Pos { x: -1, y: -1 }.cell(256), Cell::new(-1, -1));
    assert_eq!(Pos { x: 255, y: 256 }.cell(256), Cell::new(0, 1));
}

#[test]
fn energy_need_totals() {
    let n = EnergyNeed { theme: islefall::isle::Theme::Rain, themed: 2, any: 3 };
    assert_eq!(n.total(), 5);
}

#[test]
fn replay_lists_what_is_due() {
    let mut r = Replay { map: "demo".into(), commands: Vec::new() };
    r.record(3, 1, Command::Pray { unit: 0 }, true);
    r.record(4, 1, Command::Cast { unit: 0 }, false);
    r.record(3, 2, Command::Salvage { structure: 5 }, true);
    let due = r.due(3);
    assert_eq!(due.len(), 2);
    assert_eq!(due[0].command, Command::Pray { unit: 0 });
    assert_eq!(due[1].owner, 2);
    assert!(r.due(9).is_empty());
}

#[test]
fn map_cells() {
    assert_eq!(cell([4, -2]), Cell::new(4, -2));
    let m = MapDef { name: "x".into(), start_power: 0, camera: [11, 5], player_tech: vec![], islands: vec![], bridges: vec![], structures: vec![], units: vec![], opponents: vec![] };
    assert_eq!(m.camera_cell(), Cell::new(11, 5));
}

/// The manual's examples, with each type's `mana`, `level`, `class` and
/// `theme` as its file gives them.
#[test]
fn energy_needs_follow_level_theme_and_mana() {
    let cannon = energy_need(None, Some(3), Some("Shooter"), Some("thunder"));
    assert_eq!(cannon, Some(EnergyNeed { theme: Theme::Thunder, themed: 2, any: 1 }));
    let bulf = energy_need(None, Some(1), Some("Ground Transport"), Some("thunder"));
    assert_eq!(bulf, Some(EnergyNeed { theme: Theme::Thunder, themed: 1, any: 0 }));
    let aviary = energy_need(None, Some(2), Some("Air Attack Base"), Some("sun"));
    assert_eq!(aviary, Some(EnergyNeed { theme: Theme::Sun, themed: 0, any: 2 }));
    let battery = energy_need(Some("s"), Some(1), Some("Source of Energy"), Some("wind"));
    assert_eq!(battery, Some(EnergyNeed { theme: Theme::Sun, themed: 0, any: 1 }));
    assert_eq!(energy_produced(false, Some("Source of Energy"), Some("wind")), Some(Theme::Wind));
    let tree = energy_need(None, Some(2), None, Some("sun"));
    assert_eq!(tree, None, "terrain has no class and needs no energy");
    assert_eq!(energy_produced(true, None, None), Some(Theme::Sun));
}

#[test]
fn mana_letters_count_and_name_the_theme() {
    assert_eq!(energy_need(Some("WsR"), None, None, None), Some(EnergyNeed { theme: Theme::Rain, themed: 2, any: 1 }));
    assert_eq!(energy_need(Some("xyz"), Some(5), Some("Shooter"), None), None, "a mana string without units needs nothing");
    assert_eq!(energy_need(None, Some(12), Some("Shooter"), Some("rain")), Some(EnergyNeed { theme: Theme::Rain, themed: 8, any: 1 }), "levels stop at nine");
    assert_eq!(energy_need(None, Some(-1), Some("Shooter"), None), None);
    assert_eq!(energy_need(None, Some(2), Some("Shooter"), Some("fog")), Some(EnergyNeed { theme: Theme::Sun, themed: 0, any: 2 }));
    assert_eq!(energy_produced(false, Some("source of energy"), Some("RAIN")), Some(Theme::Rain));
    assert_eq!(energy_produced(false, Some("Shooter"), Some("rain")), None);
}

#[test]
fn type_rules_read_flags_footprint_and_knowledge() {
    let t = islefall::typefile::parse("typename x\ntypeflags yuckWalk dropBlocking factory;\n{\n foot_x = 8;\n foot_y = 6;\n}\nA00 : : \"a.gif\" #0;\n").unwrap();
    let r = TypeRules::from_type(&t);
    assert_eq!((r.foot_x, r.foot_y), (8, 6));
    assert_eq!(r.walk, Walk::Avoid);
    assert!(r.drop_blocking && !r.creates_island && !r.is_unit);
    let t = islefall::typefile::parse("typename y\ntypeflags walker shadow;\n{\n speed = 1.8;\n}\nA00 : : \"a.gif\" #0;\n").unwrap();
    let r = TypeRules::from_type(&t);
    assert!(r.is_unit && r.is_transport);
    assert_eq!(r.walk, Walk::Free);
    assert_eq!((r.foot_x, r.foot_y), (1, 1), "one cell where the file names none");
    let t = islefall::typefile::parse("typename g\ntypeflags geyser dropBlocking;\n{\n cost = 2000;\n}\nA00 : : \"a.gif\" #0;\n").unwrap();
    let r = TypeRules::from_type(&t);
    assert!(r.is_geyser && r.cost == 2000);
    let t = islefall::typefile::parse("typename sunCannon\ntypeflags emplacement;\n{\n maxHitPoints = 600;\n range = 22;\n hpPerSec = 16;\n delayBetweenShots = 5.0;\n threat = 5;\n techBit = 300;\n}\nA00 : : \"a.gif\" #0;\n").unwrap();
    let r = TypeRules::from_type(&t);
    assert_eq!((r.max_hit_points, r.range, r.hp_per_sec, r.threat), (600, 22, 16, 5));
    assert!(r.cardinal_only);
    assert_eq!(r.tech_bit, None, "a knowledge bit past 255 is none");
    let t = islefall::typefile::parse("typename tower\ntypeflags emplacement;\n{\n range = 9;\n cost = -5;\n techBit = 12;\n}\nA00 : : \"a.gif\" #0;\n").unwrap();
    let r = TypeRules::from_type(&t);
    assert_eq!((r.range, r.cost, r.tech_bit), (0, 0, Some(12)), "no range without damage, no negative cost");
    assert_eq!(TypeRules::plain().foot_x, 1);
}
