//! What clients and the server say to each other. Islefall plays in
//! lockstep: clients send commands, the server stamps them into numbered
//! turns and sends every turn's list to everyone.
use vstd::prelude::*;
use crate::command::Command;

verus! {

/// Bumped whenever a message changes shape.
pub const PROTOCOL: u32 = 1;
/// No frame may be longer than this.
pub const MAX_FRAME: usize = 16777216;

#[derive(Clone, Debug, PartialEq, Eq)]
pub struct PlayerInfo {
    pub id: u8,
    pub name: String,
    pub ready: bool,
}

#[derive(Clone, Debug, PartialEq)]
pub enum ClientMsg {
    /// First message: who this is and what data it runs.
    Hello { protocol: u32, name: String, map: String, data_hash: u64 },
    Ready(bool),
    /// A command for the next turn.
    Command(Command),
    /// The client's world hash after applying `turn`, for desync checks.
    Hash { turn: u64, hash: u64 },
    Ping(u64),
}

#[derive(Clone, Debug, PartialEq)]
pub enum ServerMsg {
    Welcome { player: u8, turn_ticks: u32, hash_every_turns: u32 },
    Reject(String),
    Lobby { players: Vec<PlayerInfo> },
    Start { map: String },
    /// Every command given for this turn, in the server's order.
    Turn { turn: u64, commands: Vec<(u8, Command)> },
    /// Clients disagreed about `turn`: each player's hash.
    Desync { turn: u64, hashes: Vec<(u8, u64)> },
    Left(u8),
    Pong(u64),
}

} // verus!
