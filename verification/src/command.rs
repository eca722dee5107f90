//! Everything a player can do, as data, and a game recorded as the
//! commands that made it: the same commands in the same order give the
//! same game everywhere.
use vstd::prelude::*;
use crate::grid::Cell;

verus! {

#[derive(Clone, Debug, PartialEq, Eq)]
pub enum Command {
    /// Walk or fly a unit to a cell, dropping any task.
    Move { unit: usize, to: Cell },
    /// Lay the piece in queue slot `slot`, turned `rotations` quarter turns, with its origin at `at`.
    PlacePiece { slot: usize, rotations: u8, at: Cell },
    /// Drop a structure of type `kind` with its hotspot at `at`.
    Drop { kind: String, at: Cell },
    /// Place a unit of type `kind` at `at`.
    PlaceUnit { kind: String, at: Cell },
    /// Put a type into production at a Workshop.
    Produce { kind: String },
    Harvest { unit: usize, geyser: usize },
    Capture { unit: usize, priest: usize },
    Sacrifice { unit: usize, altar: usize },
    Read { unit: usize, obelisk: usize },
    Cast { unit: usize },
    Pray { unit: usize },
    Salvage { structure: usize },
    Upgrade { structure: usize },
    /// Battlemaster tools: crack, harden or destroy a bridge cell outright.
    CrackBridge { at: Cell },
    HardenBridge { at: Cell },
    DestroyBridge { at: Cell },
}

/// What a command did, for the status line.
#[derive(Clone, Debug, PartialEq, Eq)]
pub struct Applied {
    pub message: String,
    /// The unit a `PlaceUnit` created.
    pub unit: Option<usize>,
}

/// A game as the commands that made it: the map and, per tick, who did what.
#[derive(Clone, Debug, PartialEq, Eq)]
pub struct Replay {
    pub map: String,
    pub commands: Vec<Entry>,
}

#[derive(Clone, Debug, PartialEq, Eq)]
pub struct Entry {
    pub tick: u64,
    pub owner: u8,
    pub command: Command,
    /// Whether the world took the command when it was given; a replay
    /// that decides otherwise has drifted.
    pub accepted: bool,
}

#[derive(Debug, PartialEq, Eq)]
pub enum ReplayError {
    Io(String),
    Parse(String),
}

/// The entries of `es` given at `tick`, in order.
pub open spec fn due_at(es: Seq<Entry>, tick: u64) -> Seq<Entry> {
    es.filter(|e: Entry| e.tick == tick)
}

impl Replay {
    /// Add a command at the end of the record.
    pub fn record(&mut self, tick: u64, owner: u8, command: Command, accepted: bool)
        ensures
            final(self).map == old(self).map,
            final(self).commands@ == old(self).commands@.push(Entry { tick, owner, command, accepted }),
    {
        self.commands.push(Entry { tick, owner, command, accepted });
    }

    /// The commands due at `tick`, in the order they were given.
    pub fn due(&self, tick: u64) -> (d: Vec<&Entry>)
        ensures
            d@.map_values(|e: &Entry| *e) == due_at(self.commands@, tick),
    {
        let mut d: Vec<&Entry> = Vec::new();
        let mut k: usize = 0;
        while k < self.commands.len()
            invariant
                k <= self.commands@.len(),
                d@.map_values(|e: &Entry| *e) == due_at(self.commands@.subrange(0, k as int), tick),
            decreases self.commands@.len() - k,
        {
            let e = &self.commands[k];
            proof {
                let sub = self.commands@.subrange(0, k + 1);
                assert(sub.drop_last() =~= self.commands@.subrange(0, k as int));
                reveal_with_fuel(Seq::filter, 1);
            }
            if e.tick == tick {
                d.push(e);
            }
            proof {
                assert(d@.map_values(|e: &Entry| *e) =~= due_at(self.commands@.subrange(0, k + 1), tick));
            }
            k = k + 1;
        }
        assert(self.commands@.subrange(0, k as int) =~= self.commands@);
        d
    }
}

/// A replay's entries at a tick come from the record, at that tick.
pub proof fn due_entries_belong(es: Seq<Entry>, tick: u64, e: Entry)
    ensures
        due_at(es, tick).contains(e) <==> (es.contains(e) && e.tick == tick),
{
    if due_at(es, tick).contains(e) {
        es.lemma_filter_contains_rev(|e: Entry| e.tick == tick, e);
        es.filter_lemma(|e: Entry| e.tick == tick);
        let i = choose|i: int| 0 <= i < due_at(es, tick).len() && due_at(es, tick)[i] == e;
        assert((|e: Entry| e.tick == tick)(due_at(es, tick)[i]));
    }
    if es.contains(e) && e.tick == tick {
        let i = choose|i: int| 0 <= i < es.len() && es[i] == e;
        es.lemma_filter_contains(|e: Entry| e.tick == tick, i);
    }
}

} // verus!
