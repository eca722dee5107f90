use islefall::command::Command;
use islefall::grid::Cell;
use islefall::net::{PlayerInfo, ServerMsg};
use islefall::relay::{Game, Outgoing, RelayConfig};

fn join(g: &mut Game, cfg: &RelayConfig, name: &str, map: &str, hash: u64) -> (Option<u8>, Vec<Outgoing>) {
    g.join(cfg, 1, name.to_string(), map.to_string(), hash)
}

fn reject_text(out: &[Outgoing]) -> String {
    match &out[0] {
        Outgoing::Back(ServerMsg::Reject(why)) => why.clone(),
        other => panic!("expected a refusal, got {other:?}"),
    }
}

#[test]
fn players_join_with_fresh_numbers_and_see_the_lobby() {
    let cfg = RelayConfig::default();
    let mut g = Game::new();
    let (id, out) = join(&mut g, &cfg, "ann", "demo", 7);
    assert_eq!(id, Some(0));
    assert_eq!(out.len(), 2);
    assert!(matches!(&out[0], Outgoing::Back(ServerMsg::Welcome { player: 0, turn_ticks: 3, hash_every_turns: 100 })));
    let (id, out) = join(&mut g, &cfg, "bob", "demo", 7);
    assert_eq!(id, Some(1));
    match &out[1] {
        Outgoing::ToAll(ServerMsg::Lobby { players }) => {
            assert_eq!(players, &vec![PlayerInfo { id: 0, name: "ann".into(), ready: false }, PlayerInfo { id: 1, name: "bob".into(), ready: false }]);
        },
        other => panic!("expected the lobby, got {other:?}"),
    }
}

#[test]
fn hellos_are_refused_for_protocol_rules_a_full_table_or_a_started_game() {
    let cfg = RelayConfig { min_players: 1, max_players: 2, ..RelayConfig::default() };
    let mut g = Game::new();
    let (id, out) = g.join(&cfg, 2, "old".into(), "demo".into(), 7);
    assert_eq!(id, None);
    assert_eq!(reject_text(&out), "protocol 2, this server speaks 1");
    assert_eq!(g.players.len(), 0, "a refused hello changes nothing");
    join(&mut g, &cfg, "ann", "demo", 7);
    assert_eq!(reject_text(&join(&mut g, &cfg, "eve", "other", 7).1), "your rules or map differ from ann's");
    assert_eq!(reject_text(&join(&mut g, &cfg, "eve", "demo", 8).1), "your rules or map differ from ann's");
    join(&mut g, &cfg, "bob", "demo", 7);
    assert_eq!(reject_text(&join(&mut g, &cfg, "cat", "demo", 7).1), "the game is full");
    g.ready(&cfg, 0, true);
    let out = g.ready(&cfg, 1, true);
    assert!(g.started);
    assert!(matches!(&out[1], Outgoing::ToAll(ServerMsg::Start { map }) if map == "demo"));
    g.leave(1);
    assert_eq!(reject_text(&join(&mut g, &cfg, "dan", "demo", 7).1), "the game has started");
}

#[test]
fn the_game_starts_when_enough_players_are_all_ready() {
    let cfg = RelayConfig::default();
    let mut g = Game::new();
    join(&mut g, &cfg, "ann", "demo", 7);
    assert_eq!(g.ready(&cfg, 0, true).len(), 1, "one player is not enough");
    join(&mut g, &cfg, "bob", "demo", 7);
    assert_eq!(g.ready(&cfg, 1, false).len(), 1);
    assert!(!g.started);
    assert_eq!(g.ready(&cfg, 1, true).len(), 2);
    assert!(g.started);
}

#[test]
fn commands_go_out_in_the_next_turn() {
    let cfg = RelayConfig { min_players: 1, ..RelayConfig::default() };
    let mut g = Game::new();
    join(&mut g, &cfg, "ann", "demo", 7);
    g.command(0, Command::Cast { unit: 1 });
    assert!(g.tick().is_empty(), "no turns before the start");
    assert!(g.pending.is_empty(), "commands before the start are dropped");
    g.ready(&cfg, 0, true);
    g.command(0, Command::CrackBridge { at: Cell::new(3, 4) });
    g.command(0, Command::Pray { unit: 2 });
    let out = g.tick();
    match &out[0] {
        Outgoing::ToAll(ServerMsg::Turn { turn, commands }) => {
            assert_eq!(*turn, 0);
            assert_eq!(commands, &vec![(0, Command::CrackBridge { at: Cell::new(3, 4) }), (0, Command::Pray { unit: 2 })]);
        },
        other => panic!("expected a turn, got {other:?}"),
    }
    assert_eq!(g.turn, 1);
    assert!(g.pending.is_empty());
    match &g.tick()[0] {
        Outgoing::ToAll(ServerMsg::Turn { turn: 1, commands }) => assert!(commands.is_empty()),
        other => panic!("expected an empty turn, got {other:?}"),
    }
}

#[test]
fn differing_hashes_are_reported_once_all_are_in() {
    let cfg = RelayConfig::default();
    let mut g = Game::new();
    join(&mut g, &cfg, "ann", "demo", 7);
    join(&mut g, &cfg, "bob", "demo", 7);
    assert!(g.report_hash(1, 100, 55).is_empty());
    assert_eq!(g.hashes.len(), 1);
    assert!(g.report_hash(0, 100, 55).is_empty(), "they agree");
    assert!(g.hashes.is_empty(), "the turn is forgotten");
    assert!(g.report_hash(1, 200, 9).is_empty());
    assert!(g.report_hash(1, 300, 9).is_empty());
    let out = g.report_hash(0, 200, 8);
    match &out[0] {
        Outgoing::ToAll(ServerMsg::Desync { turn, hashes }) => {
            assert_eq!(*turn, 200);
            assert_eq!(hashes, &vec![(0, 8), (1, 9)], "in player order");
        },
        other => panic!("expected a desync, got {other:?}"),
    }
    assert_eq!(g.hashes.len(), 1, "later turns are kept");
    assert_eq!(g.hashes[0].0, 300);
}

#[test]
fn a_player_who_leaves_is_announced() {
    let cfg = RelayConfig::default();
    let mut g = Game::new();
    join(&mut g, &cfg, "ann", "demo", 7);
    join(&mut g, &cfg, "bob", "demo", 7);
    let out = g.leave(0);
    assert!(matches!(&out[0], Outgoing::ToAll(ServerMsg::Left(0))));
    match &out[1] {
        Outgoing::ToAll(ServerMsg::Lobby { players }) => assert_eq!(players.len(), 1),
        other => panic!("expected the lobby, got {other:?}"),
    }
    assert!(matches!(g.ping(1, 5).as_slice(), [Outgoing::ToPlayer(1, ServerMsg::Pong(5))]));
    assert!(g.ping(0, 5).is_empty(), "gone players get no answer");
}
