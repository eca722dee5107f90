//! A computer opponent's state and what it did in a move.
use vstd::prelude::*;
use crate::grid::Cell;
use crate::pieces::PieceQueue;

verus! {

pub struct Ai {
    pub owner: u8,
    /// Where the bridges are heading, usually the enemy altar.
    pub target: Cell,
    /// Ticks between moves.
    pub every: u32,
    /// Every this many moves, a shooter is dropped instead of a piece.
    pub shooter_every: u32,
    pub shooter_reach: i32,
    pub queue: PieceQueue,
    ticks: u32,
    moves: u32,
}

/// What the opponent did in one move, for logging.
#[derive(Clone, Debug, PartialEq, Eq)]
pub enum AiMove {
    Piece { name: String, at: Cell },
    Shooter { kind: String, at: Cell },
    Nothing,
}

} // verus!
