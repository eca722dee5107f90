//! The relay's decisions. The relay runs no simulation: it admits players
//! to a game, starts it once enough of them are ready, stamps the commands
//! they send into numbered turns on a fixed clock, and compares the world
//! hashes they report. Each decision takes the game and what happened,
//! changes the game, and says which messages go to whom; the network
//! plumbing around it sends them.
use vstd::prelude::*;
use crate::command::Command;
use crate::net::{PlayerInfo, ServerMsg, PROTOCOL};
use crate::strs::{decimal, push_decimal};
use crate::text::{chars_of, push_all, string_of};

verus! {

/// How the relay runs.
#[derive(Clone, Debug, PartialEq, Eq)]
pub struct RelayConfig {
    pub tick_hz: u32,
    /// Ticks in a turn.
    pub turn_ticks: u32,
    /// The game starts once this many players are ready.
    pub min_players: usize,
    pub max_players: usize,
    /// How often clients report their world hash, in turns.
    pub hash_every_turns: u32,
}

impl Default for RelayConfig {
    fn default() -> (r: Self)
        ensures
            r.tick_hz == 30 && r.turn_ticks == 3 && r.min_players == 2 && r.max_players == 4 && r.hash_every_turns == 100,
    {
        RelayConfig { tick_hz: 30, turn_ticks: 3, min_players: 2, max_players: 4, hash_every_turns: 100 }
    }
}

/// A player at the table.
#[derive(Debug)]
pub struct Seat {
    pub info: PlayerInfo,
    /// Hash of the rules and scripts the player runs.
    pub data_hash: u64,
    pub map: String,
}

/// Where a message goes.
#[derive(Debug)]
pub enum Outgoing {
    /// To every player at the table.
    ToAll(ServerMsg),
    /// To one player.
    ToPlayer(u8, ServerMsg),
    /// Back to the connection the event came from.
    Back(ServerMsg),
}

/// The game the relay keeps.
#[derive(Debug)]
pub struct Game {
    pub players: Vec<Seat>,
    pub started: bool,
    pub turn: u64,
    /// Commands given since the last turn went out, in arrival order.
    pub pending: Vec<(u8, Command)>,
    /// Hashes reported per turn, by player, each list in player order.
    pub hashes: Vec<(u64, Vec<(u8, u64)>)>,
    pub next_id: u8,
}

/// The player records of `ps`.
pub open spec fn infos(ps: Seq<Seat>) -> Seq<PlayerInfo> {
    ps.map_values(|s: Seat| s.info)
}

/// `m` is the lobby as `ps` stands: every player's record, in order.
pub open spec fn is_lobby(m: ServerMsg, ps: Seq<Seat>) -> bool {
    m matches ServerMsg::Lobby { players } && players@ == infos(ps)
}

/// The first seat of player `id`.
pub open spec fn seat_of(ps: Seq<Seat>, id: u8) -> Option<int>
    decreases ps.len(),
{
    if ps.len() == 0 {
        None
    } else {
        match seat_of(ps.drop_last(), id) {
            Some(i) => Some(i),
            None => if ps.last().info.id == id { Some(ps.len() - 1) } else { None },
        }
    }
}

proof fn lemma_seat_of(ps: Seq<Seat>, id: u8)
    ensures
        match seat_of(ps, id) {
            Some(i) => 0 <= i < ps.len() && ps[i].info.id == id && forall|j: int| 0 <= j < i ==> (#[trigger] ps[j]).info.id != id,
            None => forall|j: int| 0 <= j < ps.len() ==> (#[trigger] ps[j]).info.id != id,
        },
    decreases ps.len(),
{
    if ps.len() > 0 {
        lemma_seat_of(ps.drop_last(), id);
        assert forall|j: int| 0 <= j < ps.len() - 1 implies #[trigger] ps[j] == ps.drop_last()[j] by {}
    }
}

/// Why a hello is refused, in the order the relay checks: another
/// protocol, a game under way, a full table, or rules or a map other
/// than the first player's.
pub open spec fn refusal(g: Game, cfg: RelayConfig, protocol: u32, map: Seq<char>, data_hash: u64) -> Option<Seq<char>> {
    if protocol != PROTOCOL {
        Some("protocol "@ + decimal(protocol as nat) + ", this server speaks "@ + decimal(PROTOCOL as nat))
    } else if g.started {
        Some("the game has started"@)
    } else if g.players@.len() >= cfg.max_players {
        Some("the game is full"@)
    } else if g.players@.len() > 0 && (g.players@[0].data_hash != data_hash || g.players@[0].map@ != map) {
        Some("your rules or map differ from "@ + g.players@[0].info.name@ + "'s"@)
    } else {
        None
    }
}

/// Seats of players other than `id`.
pub open spec fn other_than(id: u8) -> spec_fn(Seat) -> bool {
    |s: Seat| s.info.id != id
}

/// Every hash of the list is the same.
pub open spec fn all_agree(hs: Seq<(u8, u64)>) -> bool {
    forall|i: int, j: int| 0 <= i < hs.len() && 0 <= j < hs.len() ==> (#[trigger] hs[i]).1 == (#[trigger] hs[j]).1
}

fn text(s: &str) -> (v: Vec<char>)
    ensures
        v@ == s@,
{
    chars_of(s)
}

fn copy_info(p: &PlayerInfo) -> (q: PlayerInfo)
    ensures
        q == *p,
{
    PlayerInfo { id: p.id, name: p.name.clone(), ready: p.ready }
}

impl Game {
    pub fn new() -> (g: Game)
        ensures
            g.players@.len() == 0 && !g.started && g.turn == 0 && g.pending@.len() == 0,
            g.hashes@.len() == 0 && g.next_id == 0,
    {
        Game { players: Vec::new(), started: false, turn: 0, pending: Vec::new(), hashes: Vec::new(), next_id: 0 }
    }

    /// The lobby message: every player's record.
    pub fn lobby(&self) -> (m: ServerMsg)
        ensures
            is_lobby(m, self.players@),
    {
        let mut v: Vec<PlayerInfo> = Vec::new();
        let mut i: usize = 0;
        while i < self.players.len()
            invariant
                i <= self.players@.len(),
                v@ == infos(self.players@.subrange(0, i as int)),
            decreases self.players@.len() - i,
        {
            v.push(copy_info(&self.players[i].info));
            proof {
                assert(infos(self.players@.subrange(0, i + 1)) =~= infos(self.players@.subrange(0, i as int)).push(self.players@[i as int].info));
            }
            i = i + 1;
        }
        proof {
            assert(self.players@.subrange(0, self.players@.len() as int) =~= self.players@);
        }
        ServerMsg::Lobby { players: v }
    }

    fn seat(&self, id: u8) -> (r: Option<usize>)
        ensures
            match r {
                Some(i) => seat_of(self.players@, id) == Some(i as int),
                None => seat_of(self.players@, id) is None,
            },
    {
        proof { lemma_seat_of(self.players@, id); }
        let mut i: usize = 0;
        while i < self.players.len()
            invariant
                i <= self.players@.len(),
                forall|j: int| 0 <= j < i ==> (#[trigger] self.players@[j]).info.id != id,
                match seat_of(self.players@, id) {
                    Some(k) => 0 <= k < self.players@.len() && self.players@[k].info.id == id
                        && forall|j: int| 0 <= j < k ==> (#[trigger] self.players@[j]).info.id != id,
                    None => forall|j: int| 0 <= j < self.players@.len() ==> (#[trigger] self.players@[j]).info.id != id,
                },
            decreases self.players@.len() - i,
        {
            if self.players[i].info.id == id {
                return Some(i);
            }
            i = i + 1;
        }
        None
    }

    /// The reason a hello is refused, if it is.
    fn refuse(&self, cfg: &RelayConfig, protocol: u32, map: &String, data_hash: u64) -> (r: Option<String>)
        ensures
            match refusal(*self, *cfg, protocol, map@, data_hash) {
                Some(t) => r is Some && r->0@ == t,
                None => r is None,
            },
    {
        if protocol != PROTOCOL {
            let mut v = text("protocol ");
            push_decimal(&mut v, protocol as usize);
            push_all(&mut v, &text(", this server speaks "));
            push_decimal(&mut v, PROTOCOL as usize);
            return Some(string_of(&v));
        }
        if self.started {
            return Some(string_of(&text("the game has started")));
        }
        if self.players.len() >= cfg.max_players {
            return Some(string_of(&text("the game is full")));
        }
        if self.players.len() > 0 {
            let first = &self.players[0];
            if first.data_hash != data_hash || !crate::text::str_eq(first.map.as_str(), map.as_str()) {
                let mut v = text("your rules or map differ from ");
                push_all(&mut v, &chars_of(first.info.name.as_str()));
                push_all(&mut v, &text("'s"));
                return Some(string_of(&v));
            }
        }
        None
    }

    /// A client said hello. Refused: a `Reject` goes back and nothing
    /// changes. Admitted: it takes the next player number, a `Welcome`
    /// goes back and everyone gets the new lobby.
    pub fn join(&mut self, cfg: &RelayConfig, protocol: u32, name: String, map: String, data_hash: u64) -> (r: (Option<u8>, Vec<Outgoing>))
        ensures
            match refusal(*old(self), *cfg, protocol, map@, data_hash) {
                Some(t) => r.0 is None && *final(self) == *old(self) && r.1@.len() == 1
                    && (r.1@[0] matches Outgoing::Back(ServerMsg::Reject(why)) && why@ == t),
                None => r.0 == Some(old(self).next_id)
                    && final(self).players@ == old(self).players@.push(Seat {
                        info: PlayerInfo { id: old(self).next_id, name, ready: false },
                        data_hash,
                        map,
                    })
                    && final(self).next_id == (if old(self).next_id == 255 { 0u8 } else { (old(self).next_id + 1) as u8 })
                    && final(self).started == old(self).started && final(self).turn == old(self).turn
                    && final(self).pending == old(self).pending && final(self).hashes == old(self).hashes
                    && r.1@.len() == 2
                    && r.1@[0] == Outgoing::Back(ServerMsg::Welcome {
                        player: old(self).next_id,
                        turn_ticks: cfg.turn_ticks,
                        hash_every_turns: cfg.hash_every_turns,
                    })
                    && (r.1@[1] matches Outgoing::ToAll(m) && is_lobby(m, final(self).players@)),
            },
    {
        match self.refuse(cfg, protocol, &map, data_hash) {
            Some(why) => {
                let mut out: Vec<Outgoing> = Vec::new();
                out.push(Outgoing::Back(ServerMsg::Reject(why)));
                return (None, out);
            },
            None => {},
        }
        let id = self.next_id;
        self.next_id = if id == 255 { 0 } else { id + 1 };
        self.players.push(Seat { info: PlayerInfo { id, name, ready: false }, data_hash, map });
        let mut out: Vec<Outgoing> = Vec::new();
        out.push(Outgoing::Back(ServerMsg::Welcome { player: id, turn_ticks: cfg.turn_ticks, hash_every_turns: cfg.hash_every_turns }));
        let lobby = self.lobby();
        out.push(Outgoing::ToAll(lobby));
        (Some(id), out)
    }

    /// Player `id` says whether it is ready. Everyone gets the new lobby;
    /// once enough players are there and all are ready, the game starts on
    /// the first player's map.
    pub fn ready(&mut self, cfg: &RelayConfig, id: u8, ready: bool) -> (out: Vec<Outgoing>)
        requires
            seat_of(old(self).players@, id) is Some,
        ensures
            ({
                let i = seat_of(old(self).players@, id)->0;
                let seat = old(self).players@[i];
                let ps = old(self).players@.update(i, Seat { info: PlayerInfo { id: seat.info.id, name: seat.info.name, ready }, data_hash: seat.data_hash, map: seat.map });
                let starts = !old(self).started && ps.len() >= cfg.min_players && forall|j: int| 0 <= j < ps.len() ==> (#[trigger] ps[j]).info.ready;
                &&& final(self).players@ == ps
                &&& final(self).started == (old(self).started || starts)
                &&& final(self).turn == old(self).turn && final(self).pending == old(self).pending
                &&& final(self).hashes == old(self).hashes && final(self).next_id == old(self).next_id
                &&& out@.len() == if starts { 2int } else { 1int }
                &&& out@[0] matches Outgoing::ToAll(m) && is_lobby(m, ps)
                &&& starts ==> (out@[1] matches Outgoing::ToAll(ServerMsg::Start { map }) && map == ps[0].map)
            }),
    {
        proof { lemma_seat_of(self.players@, id); }
        let i = self.seat(id).unwrap();
        let ghost ps0 = self.players@;
        let seat = self.players.remove(i);
        let Seat { info, data_hash, map } = seat;
        let PlayerInfo { id: pid, name, ready: _ } = info;
        self.players.insert(i, Seat { info: PlayerInfo { id: pid, name, ready }, data_hash, map });
        proof {
            assert(self.players@ =~= ps0.update(i as int, self.players@[i as int]));
        }
        let mut out: Vec<Outgoing> = Vec::new();
        let lobby = self.lobby();
        out.push(Outgoing::ToAll(lobby));
        if !self.started && self.players.len() >= cfg.min_players {
            let mut all = true;
            let mut j: usize = 0;
            while j < self.players.len()
                invariant
                    j <= self.players@.len(),
                    all == forall|k: int| 0 <= k < j ==> (#[trigger] self.players@[k]).info.ready,
                decreases self.players@.len() - j,
            {
                if !self.players[j].info.ready {
                    all = false;
                }
                j = j + 1;
            }
            if all {
                self.started = true;
                let map = self.players[0].map.clone();
                out.push(Outgoing::ToAll(ServerMsg::Start { map }));
            }
        }
        out
    }

    /// A command for the next turn; taken only once the game is under way.
    pub fn command(&mut self, id: u8, cmd: Command)
        ensures
            final(self).pending@ == (if old(self).started { old(self).pending@.push((id, cmd)) } else { old(self).pending@ }),
            final(self).players == old(self).players && final(self).started == old(self).started,
            final(self).turn == old(self).turn && final(self).hashes == old(self).hashes,
            final(self).next_id == old(self).next_id,
    {
        if self.started {
            self.pending.push((id, cmd));
        }
    }

    /// A ping from player `id` is answered to that player alone.
    pub fn ping(&self, id: u8, n: u64) -> (out: Vec<Outgoing>)
        ensures
            match seat_of(self.players@, id) {
                Some(_) => out@ == seq![Outgoing::ToPlayer(id, ServerMsg::Pong(n))],
                None => out@.len() == 0,
            },
    {
        let mut out: Vec<Outgoing> = Vec::new();
        if self.seat(id).is_some() {
            out.push(Outgoing::ToPlayer(id, ServerMsg::Pong(n)));
        }
        out
    }

    /// Player `id` left: its seats go, and everyone hears it and gets the new lobby.
    pub fn leave(&mut self, id: u8) -> (out: Vec<Outgoing>)
        ensures
            final(self).players@ == old(self).players@.filter(other_than(id)),
            final(self).started == old(self).started && final(self).turn == old(self).turn,
            final(self).pending == old(self).pending && final(self).hashes == old(self).hashes,
            final(self).next_id == old(self).next_id,
            out@.len() == 2,
            out@[0] == Outgoing::ToAll(ServerMsg::Left(id)),
            out@[1] matches Outgoing::ToAll(m) && is_lobby(m, final(self).players@),
    {
        let ghost ps0 = self.players@;
        let mut kept: Vec<Seat> = Vec::new();
        let mut all: Vec<Seat> = Vec::new();
        std::mem::swap(&mut all, &mut self.players);
        let mut i: usize = 0;
        let n = all.len();
        let mut rest = all;
        proof {
            assert(rest@ =~= ps0.subrange(0, ps0.len() as int));
            reveal(Seq::filter);
            assert(ps0.subrange(0, 0).filter(other_than(id)) =~= Seq::<Seat>::empty());
        }
        while rest.len() > 0
            invariant
                n == ps0.len(),
                rest@ == ps0.subrange(i as int, n as int),
                i + rest@.len() == n,
                kept@ == ps0.subrange(0, i as int).filter(other_than(id)),
            decreases rest@.len(),
        {
            let s = rest.remove(0);
            proof {
                let t = ps0.subrange(0, i + 1);
                assert(t.drop_last() =~= ps0.subrange(0, i as int));
                assert(t.last() == s);
                assert(rest@ =~= ps0.subrange(i + 1, n as int));
                reveal(Seq::filter);
                assert(t.filter(other_than(id)) == if other_than(id)(t.last()) {
                    t.drop_last().filter(other_than(id)).push(t.last())
                } else {
                    t.drop_last().filter(other_than(id))
                });
            }
            if s.info.id != id {
                kept.push(s);
            }
            i = i + 1;
        }
        proof {
            assert(ps0.subrange(0, n as int) =~= ps0);
        }
        self.players = kept;
        let mut out: Vec<Outgoing> = Vec::new();
        out.push(Outgoing::ToAll(ServerMsg::Left(id)));
        let lobby = self.lobby();
        out.push(Outgoing::ToAll(lobby));
        out
    }

    /// A turn's clock tick: once the game is under way, everyone gets the
    /// commands given since the last turn, and the turn count moves on.
    pub fn tick(&mut self) -> (out: Vec<Outgoing>)
        ensures
            !old(self).started ==> out@.len() == 0 && final(self).pending == old(self).pending && final(self).turn == old(self).turn,
            old(self).started ==> out@.len() == 1
                && (out@[0] matches Outgoing::ToAll(ServerMsg::Turn { turn, commands })
                    && turn == old(self).turn && commands@ == old(self).pending@)
                && final(self).pending@.len() == 0
                && final(self).turn == (if old(self).turn == u64::MAX { 0u64 } else { (old(self).turn + 1) as u64 }),
            final(self).players == old(self).players && final(self).started == old(self).started,
            final(self).hashes == old(self).hashes && final(self).next_id == old(self).next_id,
    {
        let mut out: Vec<Outgoing> = Vec::new();
        if !self.started {
            return out;
        }
        let turn = self.turn;
        let mut commands: Vec<(u8, Command)> = Vec::new();
        std::mem::swap(&mut commands, &mut self.pending);
        out.push(Outgoing::ToAll(ServerMsg::Turn { turn, commands }));
        self.turn = if turn == u64::MAX { 0 } else { turn + 1 };
        out
    }
}

/// Reports from players numbered below `id`.
pub open spec fn below(id: u8) -> spec_fn((u8, u64)) -> bool {
    |e: (u8, u64)| e.0 < id
}

/// Reports from players numbered above `id`.
pub open spec fn above(id: u8) -> spec_fn((u8, u64)) -> bool {
    |e: (u8, u64)| e.0 > id
}

/// The reports of `list` with player `id`'s put in: in player order,
/// replacing an earlier report of `id`.
pub open spec fn put_hash(list: Seq<(u8, u64)>, id: u8, hash: u64) -> Seq<(u8, u64)> {
    list.filter(below(id)) + seq![(id, hash)] + list.filter(above(id))
}

/// Turns after `turn`.
pub open spec fn later_than(turn: u64) -> spec_fn((u64, Vec<(u8, u64)>)) -> bool {
    |e: (u64, Vec<(u8, u64)>)| e.0 > turn
}

/// The first entry of `h` for `turn`.
pub open spec fn find_turn(h: Seq<(u64, Vec<(u8, u64)>)>, turn: u64) -> Option<int>
    decreases h.len(),
{
    if h.len() == 0 {
        None
    } else {
        match find_turn(h.drop_last(), turn) {
            Some(i) => Some(i),
            None => if h.last().0 == turn { Some(h.len() - 1) } else { None },
        }
    }
}

proof fn lemma_find_turn(h: Seq<(u64, Vec<(u8, u64)>)>, turn: u64)
    ensures
        match find_turn(h, turn) {
            Some(i) => 0 <= i < h.len() && h[i].0 == turn && forall|j: int| 0 <= j < i ==> (#[trigger] h[j]).0 != turn,
            None => forall|j: int| 0 <= j < h.len() ==> (#[trigger] h[j]).0 != turn,
        },
    decreases h.len(),
{
    if h.len() > 0 {
        lemma_find_turn(h.drop_last(), turn);
        assert forall|j: int| 0 <= j < h.len() - 1 implies #[trigger] h[j] == h.drop_last()[j] by {}
    }
}

fn find_turn_at(h: &Vec<(u64, Vec<(u8, u64)>)>, turn: u64) -> (r: Option<usize>)
    ensures
        match r {
            Some(i) => find_turn(h@, turn) == Some(i as int),
            None => find_turn(h@, turn) is None,
        },
{
    proof { lemma_find_turn(h@, turn); }
    let mut i: usize = 0;
    while i < h.len()
        invariant
            i <= h@.len(),
            forall|j: int| 0 <= j < i ==> (#[trigger] h@[j]).0 != turn,
            match find_turn(h@, turn) {
                Some(k) => 0 <= k < h@.len() && h@[k].0 == turn && forall|j: int| 0 <= j < k ==> (#[trigger] h@[j]).0 != turn,
                None => forall|j: int| 0 <= j < h@.len() ==> (#[trigger] h@[j]).0 != turn,
            },
        decreases h@.len() - i,
    {
        if h[i].0 == turn {
            return Some(i);
        }
        i = i + 1;
    }
    None
}

/// The reports of `list` from players below (or above) `id`, in order.
fn reports_beside(list: &Vec<(u8, u64)>, id: u8, lower: bool) -> (r: Vec<(u8, u64)>)
    ensures
        r@ == list@.filter(if lower { below(id) } else { above(id) }),
{
    let ghost p = if lower { below(id) } else { above(id) };
    let mut r: Vec<(u8, u64)> = Vec::new();
    let mut i: usize = 0;
    proof {
        reveal(Seq::filter);
        assert(list@.subrange(0, 0).filter(p) =~= Seq::<(u8, u64)>::empty());
    }
    while i < list.len()
        invariant
            i <= list@.len(),
            p == (if lower { below(id) } else { above(id) }),
            r@ == list@.subrange(0, i as int).filter(p),
        decreases list@.len() - i,
    {
        let e = list[i];
        proof {
            let t = list@.subrange(0, i + 1);
            assert(t.drop_last() =~= list@.subrange(0, i as int));
            assert(t.last() == e);
            reveal(Seq::filter);
            assert(t.filter(p) == if p(t.last()) { t.drop_last().filter(p).push(t.last()) } else { t.drop_last().filter(p) });
        }
        if (lower && e.0 < id) || (!lower && e.0 > id) {
            r.push(e);
        }
        i = i + 1;
    }
    proof {
        assert(list@.subrange(0, list@.len() as int) =~= list@);
    }
    r
}

fn put_hash_into(list: &Vec<(u8, u64)>, id: u8, hash: u64) -> (r: Vec<(u8, u64)>)
    ensures
        r@ == put_hash(list@, id, hash),
{
    let mut r = reports_beside(list, id, true);
    r.push((id, hash));
    let more = reports_beside(list, id, false);
    let mut i: usize = 0;
    let ghost r0 = r@;
    while i < more.len()
        invariant
            i <= more@.len(),
            r@ == r0 + more@.subrange(0, i as int),
        decreases more@.len() - i,
    {
        r.push(more[i]);
        proof {
            assert(more@.subrange(0, i + 1) =~= more@.subrange(0, i as int).push(more@[i as int]));
        }
        i = i + 1;
    }
    proof {
        assert(more@.subrange(0, more@.len() as int) =~= more@);
    }
    r
}

fn agree(list: &Vec<(u8, u64)>) -> (r: bool)
    ensures
        r == all_agree(list@),
{
    if list.len() == 0 {
        return true;
    }
    let h = list[0].1;
    let mut i: usize = 1;
    while i < list.len()
        invariant
            1 <= i <= list@.len(),
            h == list@[0].1,
            forall|j: int| 0 <= j < i ==> (#[trigger] list@[j]).1 == h,
        decreases list@.len() - i,
    {
        if list[i].1 != h {
            proof {
                assert(!(list@[i as int].1 == list@[0].1));
            }
            return false;
        }
        i = i + 1;
    }
    true
}

/// The entries of `h` for turns after `turn`, in order.
fn keep_later(h: Vec<(u64, Vec<(u8, u64)>)>, turn: u64) -> (r: Vec<(u64, Vec<(u8, u64)>)>)
    ensures
        r@ == h@.filter(later_than(turn)),
{
    let ghost h0 = h@;
    let n = h.len();
    let mut rest = h;
    let mut kept: Vec<(u64, Vec<(u8, u64)>)> = Vec::new();
    let mut i: usize = 0;
    proof {
        assert(rest@ =~= h0.subrange(0, n as int));
        reveal(Seq::filter);
        assert(h0.subrange(0, 0).filter(later_than(turn)) =~= Seq::<(u64, Vec<(u8, u64)>)>::empty());
    }
    while rest.len() > 0
        invariant
            n == h0.len(),
            rest@ == h0.subrange(i as int, n as int),
            i + rest@.len() == n,
            kept@ == h0.subrange(0, i as int).filter(later_than(turn)),
        decreases rest@.len(),
    {
        let e = rest.remove(0);
        proof {
            let t = h0.subrange(0, i + 1);
            assert(t.drop_last() =~= h0.subrange(0, i as int));
            assert(t.last() == e);
            assert(rest@ =~= h0.subrange(i + 1, n as int));
            reveal(Seq::filter);
            assert(t.filter(later_than(turn)) == if later_than(turn)(t.last()) {
                t.drop_last().filter(later_than(turn)).push(t.last())
            } else {
                t.drop_last().filter(later_than(turn))
            });
        }
        if e.0 > turn {
            kept.push(e);
        }
        i = i + 1;
    }
    proof {
        assert(h0.subrange(0, n as int) =~= h0);
    }
    kept
}

impl Game {
    /// Player `id` reports its world hash after `turn`. Once every player
    /// has reported for the turn, the reports are compared: if they differ,
    /// everyone gets them all; either way that turn and every earlier one
    /// are forgotten.
    pub fn report_hash(&mut self, id: u8, turn: u64, hash: u64) -> (out: Vec<Outgoing>)
        ensures
            ({
                let h0 = old(self).hashes@;
                let idx = find_turn(h0, turn);
                let list0 = match idx { Some(i) => h0[i].1@, None => Seq::<(u8, u64)>::empty() };
                let list1 = put_hash(list0, id, hash);
                let complete = list1.len() >= old(self).players@.len();
                &&& complete ==> final(self).hashes@ == h0.filter(later_than(turn))
                &&& !complete && idx is Some ==> final(self).hashes@.len() == h0.len()
                    && (forall|j: int| 0 <= j < h0.len() && j != idx->0 ==> #[trigger] final(self).hashes@[j] == h0[j])
                    && final(self).hashes@[idx->0].0 == turn && final(self).hashes@[idx->0].1@ == list1
                &&& !complete && idx is None ==> final(self).hashes@.len() == h0.len() + 1
                    && final(self).hashes@.drop_last() == h0
                    && final(self).hashes@.last().0 == turn && final(self).hashes@.last().1@ == list1
                &&& complete && !all_agree(list1) ==> out@.len() == 1
                    && (out@[0] matches Outgoing::ToAll(ServerMsg::Desync { turn: t, hashes }) && t == turn && hashes@ == list1)
                &&& !(complete && !all_agree(list1)) ==> out@.len() == 0
            }),
            final(self).players == old(self).players && final(self).started == old(self).started,
            final(self).turn == old(self).turn && final(self).pending == old(self).pending,
            final(self).next_id == old(self).next_id,
    {
        let ghost h0 = self.hashes@;
        let idx = find_turn_at(&self.hashes, turn);
        proof { lemma_find_turn(h0, turn); }
        let list1 = match idx {
            Some(i) => put_hash_into(&self.hashes[i].1, id, hash),
            None => put_hash_into(&Vec::new(), id, hash),
        };
        let mut out: Vec<Outgoing> = Vec::new();
        if list1.len() >= self.players.len() {
            let ok = agree(&list1);
            if !ok {
                out.push(Outgoing::ToAll(ServerMsg::Desync { turn, hashes: list1 }));
            }
            let mut all: Vec<(u64, Vec<(u8, u64)>)> = Vec::new();
            std::mem::swap(&mut all, &mut self.hashes);
            self.hashes = keep_later(all, turn);
        } else {
            match idx {
                Some(i) => {
                    self.hashes.set(i, (turn, list1));
                },
                None => {
                    self.hashes.push((turn, list1));
                },
            }
        }
        out
    }
}

} // verus!
