use islefall::grid::Cell;
use islefall::island::IslandMap;
use islefall::world::{BridgeState, EventKind, PieceError, World};

const CRUMBLE_TICKS: u32 = 120;

fn world() -> World {
    let mut w = World::new(CRUMBLE_TICKS);
    w.push_island(IslandMap::rect(Cell::new(0, 0), 8, 4), 0);
    w
}

#[test]
fn bridges_attach_to_ground_and_connect() {
    let mut w = world();
    assert!(!w.place_bridge(Cell::new(3, 1)), "already land");
    assert!(!w.place_bridge(Cell::new(9, 1)), "not adjacent to ground");
    assert!(w.place_bridge(Cell::new(8, 1)), "east of the island edge");
    assert!(w.place_bridge(Cell::new(9, 1)));
    assert!(w.place_bridge(Cell::new(9, 0)));
    assert_eq!(w.bridge_version, 3);
    assert_eq!(w.bridge_connections(Cell::new(8, 1)), 2 | 8, "east to bridge, west to island");
    assert_eq!(w.bridge_connections(Cell::new(9, 1)), 1 | 8);
    assert_eq!(w.bridge_connections(Cell::new(9, 0)), 4);
}

#[test]
fn pieces_attach_to_island_edges_and_open_ends_only() {
    let mut w = world();
    let three_east = [Cell::new(8, 1), Cell::new(9, 1), Cell::new(10, 1)];
    assert_eq!(w.can_place_piece(&[Cell::new(7, 1), Cell::new(8, 1)]), Err(PieceError::NotSky(Cell::new(7, 1))));
    assert_eq!(w.can_place_piece(&[Cell::new(10, 1), Cell::new(11, 1)]), Err(PieceError::NoAttachment));
    w.place_piece(&three_east).unwrap();
    assert!(w.is_open_end(Cell::new(10, 1)));
    assert!(!w.is_open_end(Cell::new(9, 1)), "connected on both sides");
    // Attaching to the side of a bridge cell is not allowed, only to an open end or island edge.
    assert_eq!(w.can_place_piece(&[Cell::new(9, 0)]), Err(PieceError::NoAttachment));
    assert!(w.place_piece(&[Cell::new(11, 1), Cell::new(11, 0)]).is_ok());
    assert_eq!(w.bridges.len(), 5);
}

#[test]
fn destruction_cascades_through_cracked_cells_and_drops_the_rest() {
    let mut w = world();
    for x in 8..14 {
        assert!(w.place_bridge(Cell::new(x, 1)));
    }
    assert!(w.crack_bridge(Cell::new(10, 1)));
    assert!(w.harden_bridge(Cell::new(11, 1)));
    assert!(!w.crack_bridge(Cell::new(11, 1)), "hard cells do not crack");
    assert!(w.destroy_bridge(Cell::new(9, 1)));
    assert!(!w.is_bridge(Cell::new(10, 1)), "cracked neighbour collapsed with the shock");
    assert_eq!(w.bridge_state(Cell::new(11, 1)), Some(BridgeState::Hard), "hard cells do not crack");
    assert_eq!(w.bridge_state(Cell::new(12, 1)), Some(BridgeState::Cracked), "unsupported cells crack first");
    assert!(w.is_bridge(Cell::new(8, 1)), "still attached to the island");
    for _ in 0..CRUMBLE_TICKS + 1 {
        w.crumble();
    }
    assert!(!w.is_bridge(Cell::new(11, 1)), "hard but unsupported: it crumbled");
    assert!(!w.is_bridge(Cell::new(13, 1)));
    assert_eq!(w.doomed.len(), 0);
}

#[test]
fn ground_owners_come_from_island_platform_or_bridge() {
    let mut w = world();
    w.push_neutral_island(IslandMap::rect(Cell::new(20, 0), 4, 4));
    assert!(w.place_map_bridge(3, Cell::new(8, 2)));
    assert_eq!(w.ground_owner(Cell::new(1, 1)), Some(0));
    assert_eq!(w.ground_owner(Cell::new(21, 1)), None, "neutral island");
    assert_eq!(w.ground_owner(Cell::new(8, 2)), Some(3));
    assert_eq!(w.ground_owner(Cell::new(50, 50)), None);
    assert_eq!(w.island_at(Cell::new(21, 1)), Some(1));
    assert_eq!(w.island_at(Cell::new(8, 2)), None);
    assert_eq!(w.island_neutral, vec![false, true]);
    assert_eq!(w.terrain_version, 1, "only an owned island counts as a terrain change");
}

#[test]
fn rims_are_the_edge_cells_of_natural_islands() {
    let w = world();
    assert!(w.is_rim(Cell::new(0, 0)));
    assert!(w.is_rim(Cell::new(7, 3)));
    assert!(!w.is_rim(Cell::new(3, 1)), "inside the island");
    assert!(!w.is_rim(Cell::new(30, 30)), "sky");
}

#[test]
fn a_piece_must_touch_its_owners_ground() {
    let mut w = world();
    w.push_island(IslandMap::rect(Cell::new(20, 0), 4, 4), 1);
    assert_eq!(w.can_place_piece_for(1, &[Cell::new(8, 1)]), Err(PieceError::NotOwnGround));
    assert_eq!(w.place_piece_for(1, &[Cell::new(8, 1)]), Err(PieceError::NotOwnGround));
    assert_eq!(w.bridges.len(), 0, "a refused piece changes nothing");
    assert_eq!(w.place_piece_for(1, &[Cell::new(19, 1), Cell::new(18, 1)]), Ok(()));
    assert_eq!(w.ground_owner(Cell::new(18, 1)), Some(1));
    let e = w.events.last().unwrap();
    assert_eq!((e.what, e.at, e.owner), (EventKind::PiecePlaced, Cell::new(19, 1), 1));
}

#[test]
fn settling_dooms_only_what_lost_its_support() {
    let mut w = world();
    for x in 8..11 {
        assert!(w.place_bridge(Cell::new(x, 1)));
    }
    assert_eq!(w.settle(), 0);
    assert_eq!(w.doomed.len(), 0, "every cell is joined to the island");
    assert!(w.destroy_bridge(Cell::new(8, 1)));
    assert_eq!(w.doomed.get(Cell::new(9, 1)), Some(CRUMBLE_TICKS));
    assert_eq!(w.doomed.get(Cell::new(10, 1)), Some(CRUMBLE_TICKS));
    let e = w.events.last().unwrap();
    assert_eq!((e.what, e.at), (EventKind::BridgeCracked, Cell::new(9, 1)), "the first cell in order is named");
    assert!(!w.destroy_bridge(Cell::new(8, 1)), "nothing left to destroy");
    for _ in 0..CRUMBLE_TICKS - 1 {
        w.crumble();
    }
    assert!(w.is_bridge(Cell::new(9, 1)), "one tick left");
    w.crumble();
    assert!(!w.is_bridge(Cell::new(9, 1)) && !w.is_bridge(Cell::new(10, 1)));
    assert_eq!(w.events.last().unwrap().what, EventKind::BridgeFell);
}

#[test]
fn supported_ground_is_what_reaches_an_island() {
    let mut w = world();
    assert!(w.place_bridge(Cell::new(8, 1)));
    assert!(w.place_bridge(Cell::new(9, 1)));
    let s = w.supported();
    assert!(s.contains(Cell::new(0, 0)) && s.contains(Cell::new(9, 1)));
    assert_eq!(s.len(), 34);
    assert!(!s.contains(Cell::new(10, 1)));
}
