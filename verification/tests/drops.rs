use islefall::grid::Cell;
use islefall::isle::Theme;
use islefall::island::IslandMap;
use islefall::rules::{EnergyNeed, TypeRules, Walk};
use islefall::unit::Unit;
use islefall::world::{DropError, EventKind, PieceError, World};

const CRUMBLE_TICKS: u32 = 120;

fn world() -> World {
    let mut w = World::new(CRUMBLE_TICKS);
    w.push_island(IslandMap::rect(Cell::new(0, 0), 8, 4), 0);
    w
}

fn four_players(w: &mut World, powers: Vec<i32>) {
    w.drops.max_players = 4;
    w.powers = powers;
    w.known_tech = vec![Vec::new(); 4];
}

fn plain(foot: i32) -> TypeRules {
    TypeRules { foot_x: foot, foot_y: foot, ..TypeRules::plain() }
}

#[test]
fn buildings_need_island_ground() {
    let mut w = world();
    let tree = TypeRules { foot_x: 2, foot_y: 2, ..TypeRules::plain() };
    for x in 8..10 {
        w.place_bridge(Cell::new(x, 1));
    }
    assert_eq!(w.can_drop(&tree, Cell::new(9, 2)), Err(DropError::NotGround(Cell::new(9, 2))));
    assert_eq!(w.can_drop(&tree, Cell::new(3, 2)), Ok(()));
}

#[test]
fn ownership_and_knowledge_gate_building() {
    let mut w = World::new(CRUMBLE_TICKS);
    w.push_island(IslandMap::rect(Cell::new(0, 0), 8, 6), 0);
    w.push_island(IslandMap::rect(Cell::new(20, 0), 8, 6), 1);
    four_players(&mut w, vec![1000, 1000, 0, 0]);
    let piece = [Cell::new(8, 2), Cell::new(9, 2)];
    assert_eq!(w.can_place_piece_for(1, &piece), Err(PieceError::NotOwnGround), "off our island, not theirs");
    assert!(w.place_piece_for(0, &piece).is_ok());
    assert_eq!(w.place_piece_for(1, &[Cell::new(10, 2)]), Err(PieceError::NotOwnGround), "off our open end");
    for x in (10..20).rev() {
        assert!(w.place_piece_for(1, &[Cell::new(x, 2)]).is_ok(), "{x}");
    }
    assert_eq!(w.ground_owner(Cell::new(10, 2)), Some(1));
    let thrower = TypeRules { foot_x: 1, foot_y: 1, cost: 250, ..TypeRules::plain() };
    assert_eq!(w.drop_structure_for(1, "sunarcher", &thrower, Cell::new(2, 2)), Err(DropError::NotOwnGround));
    assert!(w.drop_structure_for(1, "sunarcher", &thrower, Cell::new(22, 2)).is_ok());
    assert_eq!(w.powers[1], 750, "the opponent pays too");
    let gated = TypeRules { foot_x: 1, foot_y: 1, tech_bit: Some(4), ..TypeRules::plain() };
    assert_eq!(w.drop_structure("windbattery", &gated, Cell::new(3, 3)), Err(DropError::UnknownTech(4)));
    assert!(w.grant_tech(0, 4));
    assert!(w.drop_structure("windbattery", &gated, Cell::new(3, 3)).is_ok());
}

#[test]
fn a_drop_costs_its_price_and_a_refused_one_nothing() {
    let mut w = world();
    w.powers = vec![300];
    let hut = TypeRules { cost: 200, max_hit_points: 50, threat: 3, walk: Walk::Blocked, ..plain(2) };
    assert_eq!(w.drop_structure("hut", &hut, Cell::new(3, 2)), Ok(0));
    assert_eq!(w.powers[0], 100);
    let s = &w.structures[0];
    assert_eq!((s.kind.as_str(), s.cell, s.foot_x, s.foot_y, s.hp, s.max_hp, s.cost, s.threat, s.owner), ("hut", Cell::new(3, 2), 2, 2, 50, 50, 200, 3, 0));
    assert_eq!(w.structure_version, 1);
    let e = w.events.last().unwrap();
    assert_eq!((e.what, e.kind.as_str(), e.at, e.owner), (EventKind::Built, "hut", Cell::new(3, 2), 0));
    assert_eq!(w.drop_structure("hut", &hut, Cell::new(6, 2)), Err(DropError::NotEnoughPower { cost: 200, have: 100 }));
    assert_eq!(w.powers[0], 100);
    assert_eq!(w.structures.len(), 1);
    assert_eq!(w.drop_structure("hut", &plain(1), Cell::new(2, 1)), Err(DropError::Occupied(Cell::new(2, 1))));
    // A geyser costs nothing.
    let geyser = TypeRules { is_geyser: true, cost: 5000, ..plain(1) };
    assert_eq!(w.drop_structure("geyser", &geyser, Cell::new(5, 1)), Ok(1));
    assert_eq!(w.powers[0], 100);
}

#[test]
fn rims_and_units_refuse_drops() {
    let mut w = world();
    assert_eq!(w.can_drop(&plain(1), Cell::new(0, 0)), Err(DropError::OnRim(Cell::new(0, 0))));
    let rimmed = TypeRules { may_drop_on_rim: true, ..plain(1) };
    assert_eq!(w.can_drop(&rimmed, Cell::new(0, 0)), Ok(()));
    w.units.push(Unit::new("priest", Cell::new(2, 1), 1, 16));
    assert_eq!(w.can_drop(&plain(1), Cell::new(2, 1)), Err(DropError::UnitInTheWay(Cell::new(2, 1))));
}

#[test]
fn an_island_maker_in_the_sky_becomes_platform_ground() {
    let mut w = world();
    w.place_bridge(Cell::new(8, 1));
    let maker = TypeRules { creates_island: true, ..plain(1) };
    assert_eq!(w.can_drop(&maker, Cell::new(12, 1)), Err(DropError::NotAtBridgeEnd));
    assert_eq!(w.can_drop(&maker, Cell::new(8, 1)), Err(DropError::NotGround(Cell::new(8, 1))));
    assert_eq!(w.can_drop(&TypeRules { creates_island: true, ..plain(2) }, Cell::new(8, 2)), Err(DropError::Straddling(Cell::new(8, 2))));
    let v = w.terrain_version;
    assert!(w.drop_structure("maker", &maker, Cell::new(9, 1)).is_ok());
    assert!(w.is_land(Cell::new(9, 1)));
    assert_eq!(w.ground_owner(Cell::new(9, 1)), Some(0));
    assert_eq!(w.terrain_version, v + 1);
}

#[test]
fn energy_must_reach_the_site() {
    let mut w = World::new(CRUMBLE_TICKS);
    w.push_island(IslandMap::rect(Cell::new(0, 0), 40, 12), 0);
    w.powers = vec![5000];
    let temple = TypeRules { foot_x: 2, foot_y: 2, is_temple: true, produces: Some(Theme::Sun), ..TypeRules::plain() };
    let t = w.drop_structure("residence", &temple, Cell::new(3, 3)).unwrap();
    let thrower = TypeRules { energy: Some(EnergyNeed { theme: Theme::Sun, themed: 0, any: 1 }), ..plain(1) };
    assert_eq!(w.check_production(0, "sunarcher", &thrower), Err(DropError::NotInProduction));
    w.structures[t].production.push("SunArcher".to_string());
    assert!(w.in_production(0, "sunarcher"));
    assert_eq!(w.check_energy(0, &thrower, Cell::new(5, 5)), Ok(()));
    assert!(w.drop_structure("sunarcher", &thrower, Cell::new(5, 5)).is_ok());
    assert_eq!(
        w.drop_structure("sunarcher", &thrower, Cell::new(30, 6)),
        Err(DropError::NotEnoughEnergy { need: EnergyNeed { theme: Theme::Sun, themed: 0, any: 1 }, themed: 0, any: 0 })
    );
    assert_eq!(w.energy_at(0, Cell::new(3, 3), Theme::Sun), (1, 1));
    assert_eq!(w.energy_at(1, Cell::new(3, 3), Theme::Sun), (0, 0), "other owners' sources do not count");
    assert_eq!(w.energy_at(0, Cell::new(3, 3), Theme::Wind), (0, 1));
    let golem = TypeRules { is_unit: true, ..plain(1) };
    w.drops.temple_types = vec!["SunWalker".to_string()];
    assert_eq!(w.check_production(0, "sunwalker", &golem), Ok(()));
    assert_eq!(w.check_production(1, "sunwalker", &golem), Err(DropError::NoTemple));
}
