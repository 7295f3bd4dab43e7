//! The per-connection side of the game server: what each decoded command
//! does to the registry, and which frames go out in reply.
use vstd::prelude::*;
use crate::command::Command;
use crate::registry::{
    completed_view, holds_key, key_index, key_of, lemma_completed_view_push, lemma_registry_step,
    lemma_run_push, lemma_settles_at_most_once, registry_apply, registry_run, registry_well_formed,
    settlements, SessionRegistry,
};
use crate::session::{
    has_player, new_game_id, shows, started_game, total, valid_roster, Event, GameError, GameView,
    LiveGame, PlayerState, Progress, MAX_ROUND_LIMIT,
};
use crate::settlement::{settles, Settlement};
use crate::table::{has_table, seated_ids, start_bot_game, Salon};

verus! {

/// The session a connection is tied to: its table and its game id.
#[derive(Debug)]
pub struct Seat {
    pub salon_id: String,
    pub table_id: String,
    pub game_id: String,
}

/// What the server knows of one connection: the session it is tied to, and
/// the participants it has spoken for.
#[derive(Debug)]
pub struct Connection {
    pub seat: Option<Seat>,
    pub players: Vec<i64>,
}

impl Connection {
    pub fn new() -> (r: Connection)
        ensures
            r.seat is None,
            r.players@.len() == 0,
    {
        Connection { seat: None, players: Vec::new() }
    }
}

/// An outbound frame, or what the outside stores must carry out: a
/// settlement, or the clearing of a table whose game was abandoned.
#[derive(Debug)]
pub enum Outbound {
    GameStarted { game_id: String },
    RollAcknowledged { player_id: i64, roll: i32 },
    RollUpdate { game_id: String, players: Vec<PlayerState> },
    WinnerAnnounced { winner_id: i64 },
    Settle(Settlement),
    Abandoned { salon_id: String, table_id: String },
}

/// The events a roll command stands for: the participant's own roll, then
/// the rolls made for bots, all at time `now`.
pub open spec fn roll_events(player_id: i64, roll: i32, bot_rolls: Seq<(i64, i32)>, now: u64) -> Seq<
    Event,
> {
    seq![Event::Roll { player_id, value: roll, now }] + bot_events(bot_rolls, now)
}

/// The events for rolls made on behalf of bots, all at time `now`.
pub open spec fn bot_events(bot_rolls: Seq<(i64, i32)>, now: u64) -> Seq<Event> {
    bot_rolls.map_values(|b: (i64, i32)| Event::Roll { player_id: b.0, value: b.1, now })
}

/// The events a connection's departure stands for: every participant it
/// spoke for leaves, then the connection lets go of the session.
pub open spec fn leave_events(players: Seq<i64>) -> Seq<Event> {
    players.map_values(|id: i64| Event::Leave { player_id: id }) + seq![Event::Detach]
}

/// The key of the session a connection is tied to.
pub open spec fn seat_key(c: Connection) -> (Seq<char>, Seq<char>) {
    ((c.seat->0).salon_id@, (c.seat->0).table_id@)
}

/// The connection is tied to a session that still runs.
pub open spec fn seated(gs: Seq<GameView>, c: Connection) -> bool {
    &&& c.seat is Some
    &&& holds_key(gs, seat_key(c))
    &&& gs[key_index(gs, seat_key(c))].game_id == (c.seat->0).game_id@
}

/// The participants a connection has spoken for, with `id` added.
pub open spec fn with_player(players: Seq<i64>, id: i64) -> Seq<i64> {
    if players.contains(id) {
        players
    } else {
        players.push(id)
    }
}

/// `frames` report the outcome of commands sent to the session under `key`,
/// with `after` the sessions that remain. When the commands completed the
/// session, as `done`, they are its final standings, the announcement of its
/// winner and its settlement; while it runs, its standings; when it was
/// abandoned, the notice that its table is free.
pub open spec fn reports(
    frames: Seq<Outbound>,
    after: Seq<GameView>,
    key: (Seq<char>, Seq<char>),
    settled: bool,
    done: GameView,
) -> bool {
    if settled {
        &&& frames.len() == 3
        &&& frames[0] is RollUpdate
        &&& (frames[0]->RollUpdate_game_id)@ == done.game_id
        &&& shows((frames[0]->RollUpdate_players)@, done.players)
        &&& frames[2] is Settle
        &&& settles(frames[2]->Settle_0, done)
        &&& frames[1] == (Outbound::WinnerAnnounced { winner_id: (frames[2]->Settle_0).result.winner_id })
    } else if holds_key(after, key) {
        &&& frames.len() == 1
        &&& frames[0] is RollUpdate
        &&& (frames[0]->RollUpdate_game_id)@ == after[key_index(after, key)].game_id
        &&& shows((frames[0]->RollUpdate_players)@, after[key_index(after, key)].players)
    } else {
        &&& frames.len() == 1
        &&& frames[0] is Abandoned
        &&& (frames[0]->Abandoned_salon_id)@ == key.0
        &&& (frames[0]->Abandoned_table_id)@ == key.1
    }
}

/// A game server: its running sessions and the round limit of the games it
/// starts (five rolls between people, ten with bots).
#[derive(Debug)]
pub struct GameServer {
    pub registry: SessionRegistry,
    pub round_limit: usize,
}

impl GameServer {
    pub open spec fn well_formed(&self) -> bool {
        self.registry.well_formed() && 0 < self.round_limit <= MAX_ROUND_LIMIT
    }

    /// A server with no running session whose games ask `round_limit` rolls
    /// of each participant.
    pub fn new(round_limit: usize) -> (r: GameServer)
        requires
            0 < round_limit <= MAX_ROUND_LIMIT,
        ensures
            r.well_formed(),
            r.registry@.len() == 0,
            r.round_limit == round_limit,
    {
        GameServer { registry: SessionRegistry::new(), round_limit }
    }

    /// The state broadcast for every running session, for the periodic
    /// re-send.
    pub fn heartbeat(&self) -> (r: Vec<Outbound>)
        requires
            self.well_formed(),
        ensures
            r@.len() == self.registry@.len(),
            forall|k: int|
                0 <= k < r@.len() ==> (#[trigger] r@[k]) is RollUpdate && (r@[k]->RollUpdate_game_id)@
                    == self.registry@[k].game_id && shows(
                    (r@[k]->RollUpdate_players)@,
                    self.registry@[k].players,
                ),
    {
        let mut r: Vec<Outbound> = Vec::new();
        let mut i: usize = 0;
        while i < self.registry.len()
            invariant
                self.well_formed(),
                i <= self.registry@.len(),
                r@.len() == i,
                forall|k: int|
                    0 <= k < i ==> (#[trigger] r@[k]) is RollUpdate && (r@[k]->RollUpdate_game_id)@
                        == self.registry@[k].game_id && shows(
                        (r@[k]->RollUpdate_players)@,
                        self.registry@[k].players,
                    ),
            decreases self.registry@.len() - i,
        {
            let g = self.registry.get(i);
            r.push(Outbound::RollUpdate { game_id: g.game_id.clone(), players: g.snapshot() });
            i = i + 1;
        }
        r
    }

    /// Sends events to the session under `key` in order and gathers the
    /// settlement, if one of them completes the session.
    fn send_all(&mut self, salon_id: &str, table_id: &str, es: &Vec<Event>) -> (r: Option<
        Settlement,
    >)
        requires
            old(self).well_formed(),
        ensures
            final(self).well_formed(),
            final(self).round_limit == old(self).round_limit,
            final(self).registry@ == registry_run(old(self).registry@, (salon_id@, table_id@), es@),
            r is Some <==> settlements(old(self).registry@, (salon_id@, table_id@), es@) == 1,
            r is Some ==> settles(r->0, completed_view(old(self).registry@, (salon_id@, table_id@), es@)),
    {
        let ghost key = (salon_id@, table_id@);
        let ghost g0 = self.registry@;
        let mut settled: Option<Settlement> = None;
        let mut k: usize = 0;
        while k < es.len()
            invariant
                self.well_formed(),
                self.round_limit == old(self).round_limit,
                g0 == old(self).registry@,
                key == (salon_id@, table_id@),
                registry_well_formed(g0),
                k <= es@.len(),
                self.registry@ == registry_run(g0, key, es@.take(k as int)),
                settlements(g0, key, es@.take(k as int)) <= 1,
                settled is Some <==> settlements(g0, key, es@.take(k as int)) == 1,
                settled is Some ==> settles(settled->0, completed_view(g0, key, es@.take(k as int))),
            decreases es@.len() - k,
        {
            let e = es[k];
            let r = self.registry.apply(salon_id, table_id, e);
            proof {
                lemma_run_push(g0, key, es@.take(k as int), es@[k as int]);
                lemma_completed_view_push(g0, key, es@.take(k as int), es@[k as int]);
                assert(es@.take(k as int).push(es@[k as int]) =~= es@.take(k + 1));
                lemma_settles_at_most_once(g0, key, es@.take(k + 1));
            }
            if let Ok((_, Some(s))) = r {
                settled = Some(s);
            }
            k = k + 1;
        }
        proof {
            assert(es@.take(k as int) =~= es@);
        }
        settled
    }

    /// Frames that report the outcome of commands that may have settled the
    /// session under the key; `done` is the session as it completed.
    fn report(
        &self,
        salon_id: &str,
        table_id: &str,
        frames: &mut Vec<Outbound>,
        settled: Option<Settlement>,
        Ghost(done): Ghost<GameView>,
    )
        requires
            self.well_formed(),
            settled is Some ==> settles(settled->0, done),
        ensures
            final(frames)@.take(old(frames)@.len() as int) == old(frames)@,
            final(frames)@.len() >= old(frames)@.len(),
            reports(
                final(frames)@.skip(old(frames)@.len() as int),
                self.registry@,
                (salon_id@, table_id@),
                settled is Some,
                done,
            ),
    {
        let ghost before = frames@;
        match settled {
            Some(s) => {
                let players = copy_states(&s.standings);
                proof {
                    assert forall|k: int| 0 <= k < done.players.len() implies (#[trigger] players@[k]).player_id
                        == done.players[k].player_id && players@[k].rolls@ == done.players[k].rolls
                        && players@[k].total_roll == total(done.players[k]) by {
                        assert(s.standings@[k].player_id == done.players[k].player_id);
                    }
                }
                frames.push(Outbound::RollUpdate { game_id: s.result.game_id.clone(), players });
                frames.push(Outbound::WinnerAnnounced { winner_id: s.result.winner_id });
                frames.push(Outbound::Settle(s));
                proof {
                    let x = frames@.skip(before.len() as int);
                    assert(x.len() == 3);
                    assert(x[0] == frames@[before.len() as int]);
                    assert(x[1] == frames@[before.len() as int + 1]);
                    assert(x[2] == frames@[before.len() as int + 2]);
                    assert(frames@.take(before.len() as int) =~= before);
                }
            },
            None => {
                if let Some(g) = self.registry.lookup(salon_id, table_id) {
                    frames.push(Outbound::RollUpdate { game_id: g.game_id.clone(), players: g.snapshot() });
                    proof {
                        let x = frames@.skip(before.len() as int);
                        assert(x.len() == 1);
                        assert(x[0] == frames@[before.len() as int]);
                        assert(frames@.take(before.len() as int) =~= before);
                    }
                } else {
                    frames.push(Outbound::Abandoned { salon_id: salon_id.to_owned(), table_id: table_id.to_owned() });
                    proof {
                        let x = frames@.skip(before.len() as int);
                        assert(x.len() == 1);
                        assert(x[0] == frames@[before.len() as int]);
                        assert(frames@.take(before.len() as int) =~= before);
                    }
                }
            },
        }
    }

    /// Starts a game with bots between the participants seated at table
    /// `table_id` of `salon`, registers it under (`salon_key`, `table_key`)
    /// and ties the connection to it. Fails, changing nothing, with
    /// `InvalidCommand` when the connection is already tied to a running
    /// session, `NotFound` when the room has no such table, `InvalidCommand`
    /// when its seats hold nobody or somebody twice, and `AlreadyExists`
    /// when a session runs under the key.
    pub fn start_seated(
        &mut self,
        conn: &mut Connection,
        salon: &Salon,
        table_id: i32,
        salon_key: String,
        table_key: String,
    ) -> (r: Result<Vec<Outbound>, GameError>)
        requires
            old(self).well_formed(),
        ensures
            final(self).well_formed(),
            final(self).round_limit == old(self).round_limit,
            match r {
                Ok(frames) => {
                    &&& !holds_key(old(self).registry@, (salon_key@, table_key@))
                    &&& final(self).registry@.len() == old(self).registry@.len() + 1
                    &&& final(self).registry@.drop_last() == old(self).registry@
                    &&& exists|k: int|
                        0 <= k < salon.tables@.len() && #[trigger] salon.tables@[k].table_id == table_id
                            && final(self).registry@.last() == started_game(
                            final(self).registry@.last().game_id,
                            seated_ids(salon.tables@[k]),
                            salon_key@,
                            table_key@,
                            crate::session::BOT_MAX_ROLLS as nat,
                        )
                    &&& !seated(old(self).registry@, *old(conn))
                    &&& seated(final(self).registry@, *final(conn))
                    &&& seat_key(*final(conn)) == (salon_key@, table_key@)
                    &&& final(conn).players@ == old(conn).players@
                    &&& frames@.len() == 1 && frames@[0] is GameStarted
                    &&& (frames@[0]->GameStarted_game_id)@ == final(self).registry@.last().game_id
                },
                Err(e) => {
                    &&& final(self).registry@ == old(self).registry@
                    &&& *final(conn) == *old(conn)
                    &&& (e == GameError::NotFound || e == GameError::InvalidCommand || e
                        == GameError::AlreadyExists)
                    &&& (e == GameError::NotFound ==> !has_table(*salon, table_id))
                    &&& (e == GameError::InvalidCommand ==> seated(old(self).registry@, *old(conn))
                        || exists|k: int|
                        0 <= k < salon.tables@.len() && #[trigger] salon.tables@[k].table_id == table_id
                            && !valid_roster(seated_ids(salon.tables@[k])))
                    &&& (e == GameError::AlreadyExists ==> holds_key(
                        old(self).registry@,
                        (salon_key@, table_key@),
                    ))
                },
            },
    {
        if self.is_seated(conn) {
            return Err(GameError::InvalidCommand);
        }
        let key_salon = salon_key.clone();
        let key_table = table_key.clone();
        let game = match start_bot_game(salon, table_id, salon_key, table_key) {
            Ok(g) => g,
            Err(e) => return Err(e),
        };
        let reply_id = game.game_id.clone();
        let seat_id = game.game_id.clone();
        let ghost gv = game@;
        let ghost before = self.registry@;
        match self.registry.create(game) {
            Ok(()) => {
                conn.seat = Some(Seat { salon_id: key_salon, table_id: key_table, game_id: seat_id });
                proof {
                    let k = key_index(self.registry@, seat_key(*conn));
                    assert(key_of(self.registry@[before.len() as int]) == seat_key(*conn));
                    assert(0 <= k < self.registry@.len() && key_of(self.registry@[k]) == seat_key(*conn));
                }
                let mut frames: Vec<Outbound> = Vec::new();
                frames.push(Outbound::GameStarted { game_id: reply_id });
                proof {
                    assert(self.registry@.last() == gv);
                    assert(self.registry@.drop_last() =~= before);
                }
                Ok(frames)
            },
            Err(e) => Err(e),
        }
    }

    /// Whether the connection is tied to a session that still runs.
    pub fn is_seated(&self, conn: &Connection) -> (r: bool)
        requires
            self.well_formed(),
        ensures
            r == seated(self.registry@, *conn),
    {
        match &conn.seat {
            None => false,
            Some(seat) => match self.registry.lookup(seat.salon_id.as_str(), seat.table_id.as_str()) {
                None => false,
                Some(g) => g.game_id == seat.game_id,
            },
        }
    }

    /// The standings of the session the connection is tied to, for the
    /// periodic re-send to its participants.
    pub fn standings(&self, conn: &Connection) -> (r: Vec<Outbound>)
        requires
            self.well_formed(),
        ensures
            seated(self.registry@, *conn) ==> reports(r@, self.registry@, seat_key(*conn), false, arbitrary()),
            !seated(self.registry@, *conn) ==> r@.len() == 0,
    {
        let mut r: Vec<Outbound> = Vec::new();
        if self.is_seated(conn) {
            let seat = conn.seat.as_ref().unwrap();
            if let Some(g) = self.registry.lookup(seat.salon_id.as_str(), seat.table_id.as_str()) {
                r.push(Outbound::RollUpdate { game_id: g.game_id.clone(), players: g.snapshot() });
            }
        }
        r
    }

    /// Starts a game between `players` at (`salon_id`, `table_id`) and ties
    /// the connection to it.
    fn start_command(&mut self, conn: &mut Connection, players: Vec<i64>, salon_id: String, table_id: String) -> (r: Result<
        Vec<Outbound>,
        GameError,
    >)
        requires
            old(self).well_formed(),
        ensures
            final(self).well_formed(),
            final(self).round_limit == old(self).round_limit,
            start_post(old(self).registry@, final(self).registry@, *old(conn), *final(conn), players@, salon_id@, table_id@, old(self).round_limit as nat, r),
    {
        if self.is_seated(conn) {
            return Err(GameError::InvalidCommand);
        }
        let game_id = new_game_id();
        let reply_id = game_id.clone();
        let seat_id = game_id.clone();
        let key_salon = salon_id.clone();
        let key_table = table_id.clone();
        let game = match LiveGame::start(game_id, players, salon_id, table_id, self.round_limit) {
            Ok(g) => g,
            Err(e) => return Err(e),
        };
        let ghost gv = game@;
        let ghost before = self.registry@;
        match self.registry.create(game) {
            Ok(()) => {
                conn.seat = Some(Seat { salon_id: key_salon, table_id: key_table, game_id: seat_id });
                let mut frames: Vec<Outbound> = Vec::new();
                frames.push(Outbound::GameStarted { game_id: reply_id });
                proof {
                    assert(self.registry@.last() == gv);
                    let k = key_index(self.registry@, seat_key(*conn));
                    assert(key_of(self.registry@[before.len() as int]) == seat_key(*conn));
                    assert(0 <= k < self.registry@.len() && key_of(self.registry@[k]) == seat_key(*conn));
                    assert(self.registry@ == before.push(gv));
                    if k != before.len() {
                        assert(key_of(before[k]) == key_of(gv));
                    }
                }
                Ok(frames)
            },
            Err(e) => Err(e),
        }
    }

    /// Ties the connection to the session under (`salon_id`, `table_id`),
    /// speaking for the participant `player_id`, and returns its standings.
    fn join_command(&mut self, conn: &mut Connection, player_id: i64, salon_id: String, table_id: String) -> (r: Result<
        Vec<Outbound>,
        GameError,
    >)
        requires
            old(self).well_formed(),
        ensures
            final(self).well_formed(),
            final(self).round_limit == old(self).round_limit,
            join_post(old(self).registry@, final(self).registry@, *old(conn), *final(conn), player_id, (salon_id@, table_id@), r),
    {
        let ghost key = (salon_id@, table_id@);
        let ghost gs = self.registry@;
        let already = self.is_seated(conn);
        if already {
            let seat = conn.seat.as_ref().unwrap();
            if !(seat.salon_id == salon_id && seat.table_id == table_id) {
                return Err(GameError::InvalidCommand);
            }
        }
        let known = match self.registry.lookup(salon_id.as_str(), table_id.as_str()) {
            None => false,
            Some(g) => match g.find_player(player_id) {
                None => false,
                Some(i) => {
                    proof {
                        assert(g@.players[i as int] == g.players@[i as int]@);
                        assert(g@.players[i as int].player_id == player_id);
                    }
                    true
                },
            },
        };
        if !known {
            return Err(GameError::NotFound);
        }
        let game_id = self.registry.lookup(salon_id.as_str(), table_id.as_str()).unwrap().game_id.clone();
        proof {
            let i = key_index(gs, key);
            assert(0 <= i < gs.len() && key_of(gs[i]) == key);
        }
        if !already {
            let _ = self.registry.apply(salon_id.as_str(), table_id.as_str(), Event::Attach);
            proof {
                lemma_registry_step(gs, key, Event::Attach);
            }
            conn.seat = Some(Seat { salon_id, table_id, game_id });
        }
        if !mentions(&conn.players, player_id) {
            conn.players.push(player_id);
        }
        let seat = conn.seat.as_ref().unwrap();
        let mut frames: Vec<Outbound> = Vec::new();
        if let Some(g) = self.registry.lookup(seat.salon_id.as_str(), seat.table_id.as_str()) {
            frames.push(Outbound::RollUpdate { game_id: g.game_id.clone(), players: g.snapshot() });
        }
        Ok(frames)
    }

    /// Applies a roll, and the bots' rolls, from the connection's session.
    fn roll_command(
        &mut self,
        conn: &mut Connection,
        player_id: i64,
        roll: i32,
        bot_rolls: Vec<(i64, i32)>,
        now: u64,
    ) -> (r: Result<Vec<Outbound>, GameError>)
        requires
            old(self).well_formed(),
        ensures
            final(self).well_formed(),
            final(self).round_limit == old(self).round_limit,
            roll_post(old(self).registry@, final(self).registry@, *old(conn), *final(conn), player_id, roll, bot_rolls@, now, r),
    {
        if !self.is_seated(conn) {
            return Err(GameError::NotFound);
        }
        let ghost key = seat_key(*conn);
        let ghost g0 = self.registry@;
        let first = Event::Roll { player_id, value: roll, now };
        let mut bots: Vec<Event> = Vec::new();
        let mut k: usize = 0;
        while k < bot_rolls.len()
            invariant
                k <= bot_rolls@.len(),
                bots@ == bot_events(bot_rolls@.take(k as int), now),
            decreases bot_rolls@.len() - k,
        {
            let (b, v) = bot_rolls[k];
            bots.push(Event::Roll { player_id: b, value: v, now });
            proof {
                assert(bot_rolls@.take(k + 1) =~= bot_rolls@.take(k as int).push(bot_rolls@[k as int]));
                assert(bots@ =~= bot_events(bot_rolls@.take(k + 1), now));
            }
            k = k + 1;
        }
        proof {
            assert(bot_rolls@.take(k as int) =~= bot_rolls@);
        }
        let seat = conn.seat.as_ref().unwrap();
        let salon_id = seat.salon_id.as_str();
        let table_id = seat.table_id.as_str();
        let (progress, first_settled) = match self.registry.apply(salon_id, table_id, first) {
            Err(e) => {
                proof {
                    lemma_registry_step(g0, key, first);
                }
                return Err(e);
            },
            Ok(x) => x,
        };
        let ghost g1 = self.registry@;
        let rest_settled = self.send_all(salon_id, table_id, &bots);
        let ghost es = roll_events(player_id, roll, bot_rolls@, now);
        proof {
            assert(es[0] == first);
            assert(es.drop_first() =~= bots@);
            lemma_registry_step(g0, key, first);
            lemma_settles_at_most_once(g0, key, es);
        }
        let settled = if first_settled.is_some() {
            first_settled
        } else {
            rest_settled
        };
        let mut frames: Vec<Outbound> = Vec::new();
        let accepted = progress != Progress::Unchanged;
        if accepted {
            frames.push(Outbound::RollAcknowledged { player_id, roll });
        }
        let ghost n = frames@.len();
        self.report(salon_id, table_id, &mut frames, settled, Ghost(completed_view(g0, key, es)));
        proof {
            if accepted {
                assert(frames@.take(1)[0] == frames@[0]);
            }
        }
        if !mentions(&conn.players, player_id) {
            conn.players.push(player_id);
        }
        Ok(frames)
    }

    /// The connection went away: every participant it spoke for leaves, and
    /// it lets go of its session, which is abandoned if no other connection
    /// speaks for it.
    fn leave_command(&mut self, conn: &mut Connection) -> (r: Result<Vec<Outbound>, GameError>)
        requires
            old(self).well_formed(),
        ensures
            final(self).well_formed(),
            final(self).round_limit == old(self).round_limit,
            leave_post(old(self).registry@, final(self).registry@, *old(conn), *final(conn), r),
    {
        let mut frames: Vec<Outbound> = Vec::new();
        if self.is_seated(conn) {
            let ghost key = seat_key(*conn);
            let ghost g0 = self.registry@;
            let mut es: Vec<Event> = Vec::new();
            let mut k: usize = 0;
            while k < conn.players.len()
                invariant
                    k <= conn.players@.len(),
                    es@ == conn.players@.take(k as int).map_values(|id: i64| Event::Leave { player_id: id }),
                decreases conn.players@.len() - k,
            {
                es.push(Event::Leave { player_id: conn.players[k] });
                proof {
                    assert(conn.players@.take(k + 1) =~= conn.players@.take(k as int).push(conn.players@[k as int]));
                    assert(es@ =~= conn.players@.take(k + 1).map_values(|id: i64| Event::Leave { player_id: id }));
                }
                k = k + 1;
            }
            es.push(Event::Detach);
            proof {
                assert(conn.players@.take(k as int) =~= conn.players@);
                assert(es@ =~= leave_events(conn.players@));
            }
            let seat = conn.seat.as_ref().unwrap();
            let settled = self.send_all(seat.salon_id.as_str(), seat.table_id.as_str(), &es);
            self.report(
                seat.salon_id.as_str(),
                seat.table_id.as_str(),
                &mut frames,
                settled,
                Ghost(completed_view(g0, key, es@)),
            );
            proof {
                assert(frames@.skip(0) =~= frames@);
            }
        }
        conn.seat = None;
        Ok(frames)
    }

    /// Carries out one decoded command received on `conn`, at Unix time
    /// `now`, and returns the frames to send back.
    ///
    /// Starting a game registers a new session under a fresh random id and
    /// ties the connection to it. Joining ties the connection to a running
    /// session, speaking for one of its participants. A roll is taken from a
    /// connection tied to a running session; the participant's roll and then
    /// the bots' rolls are applied in order. A disconnect makes every
    /// participant the connection spoke for leave, then lets go of the
    /// session, which is abandoned and taken out once no connection speaks
    /// for it.
    pub fn handle_command(&mut self, conn: &mut Connection, cmd: Command, now: u64) -> (r: Result<
        Vec<Outbound>,
        GameError,
    >)
        requires
            old(self).well_formed(),
        ensures
            final(self).well_formed(),
            final(self).round_limit == old(self).round_limit,
            match cmd {
                Command::StartGame { players, salon_id, table_id } => start_post(
                    old(self).registry@,
                    final(self).registry@,
                    *old(conn),
                    *final(conn),
                    players@,
                    salon_id@,
                    table_id@,
                    old(self).round_limit as nat,
                    r,
                ),
                Command::Join { player_id, salon_id, table_id } => join_post(
                    old(self).registry@,
                    final(self).registry@,
                    *old(conn),
                    *final(conn),
                    player_id,
                    (salon_id@, table_id@),
                    r,
                ),
                Command::RollDice { player_id, roll, bot_rolls } => roll_post(
                    old(self).registry@,
                    final(self).registry@,
                    *old(conn),
                    *final(conn),
                    player_id,
                    roll,
                    bot_rolls@,
                    now,
                    r,
                ),
                Command::Disconnect => leave_post(
                    old(self).registry@,
                    final(self).registry@,
                    *old(conn),
                    *final(conn),
                    r,
                ),
            },
    {
        match cmd {
            Command::StartGame { players, salon_id, table_id } => self.start_command(conn, players, salon_id, table_id),
            Command::Join { player_id, salon_id, table_id } => self.join_command(conn, player_id, salon_id, table_id),
            Command::RollDice { player_id, roll, bot_rolls } => self.roll_command(conn, player_id, roll, bot_rolls, now),
            Command::Disconnect => self.leave_command(conn),
        }
    }
}

/// Whether `id` is among `players`.
fn mentions(players: &Vec<i64>, id: i64) -> (r: bool)
    ensures
        r == players@.contains(id),
{
    let mut i: usize = 0;
    while i < players.len()
        invariant
            i <= players@.len(),
            forall|k: int| 0 <= k < i ==> players@[k] != id,
        decreases players@.len() - i,
    {
        if players[i] == id {
            return true;
        }
        i = i + 1;
    }
    false
}

/// What starting a game does: it fails with `InvalidCommand` when the
/// connection is tied to a running session or the roster is empty or
/// repeats an id, and with `AlreadyExists` when a session runs at the table;
/// otherwise one new session joins the registry and the connection is tied
/// to it.
pub open spec fn start_post(
    old_reg: Seq<GameView>,
    new_reg: Seq<GameView>,
    old_conn: Connection,
    new_conn: Connection,
    players: Seq<i64>,
    salon_id: Seq<char>,
    table_id: Seq<char>,
    round_limit: nat,
    r: Result<Vec<Outbound>, GameError>,
) -> bool {
    match r {
        Ok(frames) => {
            &&& !seated(old_reg, old_conn)
            &&& valid_roster(players)
            &&& !holds_key(old_reg, (salon_id, table_id))
            &&& new_reg.len() == old_reg.len() + 1
            &&& new_reg == old_reg.push(
                started_game(new_reg.last().game_id, players, salon_id, table_id, round_limit),
            )
            &&& new_reg.last().game_id.len() == 36
            &&& seated(new_reg, new_conn)
            &&& seat_key(new_conn) == (salon_id, table_id)
            &&& new_conn.players@ == old_conn.players@
            &&& frames@.len() == 1 && frames@[0] is GameStarted
            &&& (frames@[0]->GameStarted_game_id)@ == new_reg.last().game_id
        },
        Err(e) => {
            &&& new_reg == old_reg
            &&& new_conn == old_conn
            &&& e == (if seated(old_reg, old_conn) || !valid_roster(players) {
                GameError::InvalidCommand
            } else {
                GameError::AlreadyExists
            })
            &&& e == GameError::AlreadyExists ==> holds_key(old_reg, (salon_id, table_id))
        },
    }
}

/// What joining does: a connection tied to another running session is
/// refused with `InvalidCommand`; a table with no session, or a session
/// without the participant, gives `NotFound`. Otherwise the connection is
/// tied to the session (which counts one more connection, unless it was
/// already tied to it), speaks for the participant, and gets the standings.
pub open spec fn join_post(
    old_reg: Seq<GameView>,
    new_reg: Seq<GameView>,
    old_conn: Connection,
    new_conn: Connection,
    player_id: i64,
    key: (Seq<char>, Seq<char>),
    r: Result<Vec<Outbound>, GameError>,
) -> bool {
    match r {
        Ok(frames) => {
            &&& !(seated(old_reg, old_conn) && seat_key(old_conn) != key)
            &&& holds_key(old_reg, key)
            &&& has_player(old_reg[key_index(old_reg, key)].players, player_id)
            &&& new_reg == (if seated(old_reg, old_conn) {
                old_reg
            } else {
                registry_apply(old_reg, key, Event::Attach).0
            })
            &&& seated(new_reg, new_conn)
            &&& seat_key(new_conn) == key
            &&& new_conn.players@ == with_player(old_conn.players@, player_id)
            &&& reports(frames@, new_reg, key, false, arbitrary())
        },
        Err(e) => {
            &&& new_reg == old_reg
            &&& new_conn == old_conn
            &&& e == (if seated(old_reg, old_conn) && seat_key(old_conn) != key {
                GameError::InvalidCommand
            } else {
                GameError::NotFound
            })
            &&& e == GameError::NotFound ==> !holds_key(old_reg, key) || !has_player(
                old_reg[key_index(old_reg, key)].players,
                player_id,
            )
        },
    }
}

/// What a roll does: from a connection not tied to a running session, or
/// by someone who is not a participant, it fails with `NotFound` and changes
/// nothing. Otherwise the participant's roll and then the bots' are sent to
/// the session; an accepted roll is acknowledged; the outcome is reported;
/// and the connection speaks for the participant.
pub open spec fn roll_post(
    old_reg: Seq<GameView>,
    new_reg: Seq<GameView>,
    old_conn: Connection,
    new_conn: Connection,
    player_id: i64,
    roll: i32,
    bot_rolls: Seq<(i64, i32)>,
    now: u64,
    r: Result<Vec<Outbound>, GameError>,
) -> bool {
    let key = seat_key(old_conn);
    let es = roll_events(player_id, roll, bot_rolls, now);
    match r {
        Ok(frames) => {
            let accepted = registry_apply(old_reg, key, es[0]).1 != Ok::<Progress, GameError>(
                Progress::Unchanged,
            );
            let rest = if accepted {
                frames@.skip(1)
            } else {
                frames@
            };
            &&& seated(old_reg, old_conn)
            &&& registry_apply(old_reg, key, es[0]).1 is Ok
            &&& new_reg == registry_run(old_reg, key, es)
            &&& accepted ==> frames@.len() > 0 && frames@[0] == (Outbound::RollAcknowledged {
                player_id,
                roll,
            })
            &&& reports(
                rest,
                new_reg,
                key,
                settlements(old_reg, key, es) == 1,
                completed_view(old_reg, key, es),
            )
            &&& new_conn.seat == old_conn.seat
            &&& new_conn.players@ == with_player(old_conn.players@, player_id)
        },
        Err(e) => {
            &&& e == GameError::NotFound
            &&& new_reg == old_reg
            &&& new_conn == old_conn
            &&& (!seated(old_reg, old_conn) || registry_apply(
                old_reg,
                key,
                Event::Roll { player_id, value: roll, now },
            ).1 == Err::<Progress, GameError>(GameError::NotFound))
        },
    }
}

/// What a disconnect does: when the connection is tied to a running
/// session, every participant it spoke for leaves, then it lets go of the
/// session, and the outcome is reported (a completion, the standings, or
/// the abandonment of a session no connection speaks for any more).
/// Otherwise nothing changes. The connection is no longer tied to a session.
pub open spec fn leave_post(
    old_reg: Seq<GameView>,
    new_reg: Seq<GameView>,
    old_conn: Connection,
    new_conn: Connection,
    r: Result<Vec<Outbound>, GameError>,
) -> bool {
    let key = seat_key(old_conn);
    let es = leave_events(old_conn.players@);
    &&& r is Ok
    &&& new_conn.seat is None
    &&& new_conn.players@ == old_conn.players@
    &&& if seated(old_reg, old_conn) {
        &&& new_reg == registry_run(old_reg, key, es)
        &&& reports(
            r->Ok_0@,
            new_reg,
            key,
            settlements(old_reg, key, es) == 1,
            completed_view(old_reg, key, es),
        )
    } else {
        new_reg == old_reg && r->Ok_0@.len() == 0
    }
}

/// Copies of broadcast lines.
fn copy_states(states: &Vec<PlayerState>) -> (r: Vec<PlayerState>)
    ensures
        r@.len() == states@.len(),
        forall|k: int|
            0 <= k < r@.len() ==> (#[trigger] r@[k]).player_id == states@[k].player_id
                && r@[k].rolls@ == states@[k].rolls@ && r@[k].total_roll == states@[k].total_roll,
{
    let mut r: Vec<PlayerState> = Vec::new();
    let mut i: usize = 0;
    while i < states.len()
        invariant
            i <= states@.len(),
            r@.len() == i,
            forall|k: int|
                0 <= k < i ==> (#[trigger] r@[k]).player_id == states@[k].player_id
                    && r@[k].rolls@ == states@[k].rolls@ && r@[k].total_roll == states@[k].total_roll,
        decreases states@.len() - i,
    {
        let s = &states[i];
        let rolls = s.rolls.clone();
        proof {
            assert(rolls@ =~= s.rolls@);
        }
        r.push(PlayerState { player_id: s.player_id, rolls, total_roll: s.total_roll });
        i = i + 1;
    }
    r
}

} // verus!
