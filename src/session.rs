//! One table's game session: its participants, their rolls, and the
//! transitions driven by rolls and disconnects.
use vstd::prelude::*;

verus! {

/// The number of rolls each participant owes in a game between people.
pub const MAX_ROLLS: usize = 5;

/// The number of rolls each participant owes in a game seated with bots.
pub const BOT_MAX_ROLLS: usize = 10;

/// The largest round limit a session accepts: with at most this many rolls
/// of `i32`, every roll total fits in `i64`.
pub const MAX_ROUND_LIMIT: usize = 0xffff_ffff;

/// Lifecycle phase of a session or of a table.
#[derive(Clone, Copy, Debug, PartialEq, Eq, Structural)]
pub enum GameState {
    Waiting,
    Ready,
    Started,
    Completed,
}

impl GameState {
    /// The phase's name as shown to clients and stored with tables.
    pub fn as_str(&self) -> (r: &'static str)
        ensures
            r@ == state_name(*self),
    {
        match self {
            GameState::Waiting => "Waiting",
            GameState::Ready => "Ready",
            GameState::Started => "Started",
            GameState::Completed => "Completed",
        }
    }
}

pub open spec fn state_name(s: GameState) -> Seq<char> {
    match s {
        GameState::Waiting => "Waiting"@,
        GameState::Ready => "Ready"@,
        GameState::Started => "Started"@,
        GameState::Completed => "Completed"@,
    }
}

/// A command addressed to a running session.
#[derive(Clone, Copy, Debug, PartialEq, Eq, Structural)]
pub enum Event {
    /// The participant rolled `value` at Unix time `now`.
    Roll { player_id: i64, value: i32, now: u64 },
    /// The participant's connection went away.
    Leave { player_id: i64 },
    /// One more connection speaks for the session.
    Attach,
    /// A connection that spoke for the session went away.
    Detach,
}

/// Errors reported to the sender of a command.
#[derive(Clone, Copy, Debug, PartialEq, Eq, Structural)]
pub enum GameError {
    /// The session, the key or the participant does not exist.
    NotFound,
    /// The frame could not be turned into a command, or the command does not
    /// fit the session's phase.
    InvalidCommand,
    /// A session already runs under the key.
    AlreadyExists,
}

/// What a roll or a disconnect did to a session.
#[derive(Clone, Copy, Debug, PartialEq, Eq, Structural)]
pub enum Progress {
    /// The session changed and still waits for rolls.
    Updated,
    /// The session changed and has just reached its terminal phase.
    Completed,
    /// The command was accepted and ignored (limit reached, or finished).
    Unchanged,
    /// The last connection tied to the running session went away: the
    /// session is abandoned.
    Abandoned,
}

/// A participant of a running session.
#[derive(Debug)]
pub struct Player {
    pub player_id: i64,
    pub rolls: Vec<i32>,
    pub is_active: bool,
    /// Unix time, in seconds, of the participant's last accepted roll.
    pub last_roll_time: Option<u64>,
}

/// A participant's line in a state broadcast.
#[derive(Debug)]
pub struct PlayerState {
    pub player_id: i64,
    pub rolls: Vec<i32>,
    pub total_roll: i64,
}

/// Mathematical model of a [`Player`].
pub ghost struct PlayerView {
    pub player_id: i64,
    pub rolls: Seq<i32>,
    pub is_active: bool,
    pub last_roll_time: Option<u64>,
}

impl View for Player {
    type V = PlayerView;

    open spec fn view(&self) -> PlayerView {
        PlayerView {
            player_id: self.player_id,
            rolls: self.rolls@,
            is_active: self.is_active,
            last_roll_time: self.last_roll_time,
        }
    }
}

/// The authoritative state of one table's game.
#[derive(Debug)]
pub struct LiveGame {
    pub game_id: String,
    pub players: Vec<Player>,
    pub state: GameState,
    pub salon_id: String,
    pub table_id: String,
    /// The number of rolls each participant owes.
    pub round_limit: usize,
    /// How many connections speak for the session.
    pub connections: usize,
}

/// Mathematical model of a [`LiveGame`].
pub ghost struct GameView {
    pub game_id: Seq<char>,
    pub players: Seq<PlayerView>,
    pub state: GameState,
    pub salon_id: Seq<char>,
    pub table_id: Seq<char>,
    pub round_limit: nat,
    pub links: nat,
}

impl View for LiveGame {
    type V = GameView;

    open spec fn view(&self) -> GameView {
        GameView {
            game_id: self.game_id@,
            players: self.players@.map_values(|p: Player| p@),
            state: self.state,
            salon_id: self.salon_id@,
            table_id: self.table_id@,
            round_limit: self.round_limit as nat,
            links: self.connections as nat,
        }
    }
}

/// Sum of a roll sequence.
pub open spec fn sum_rolls(s: Seq<i32>) -> int
    decreases s.len(),
{
    if s.len() == 0 {
        0
    } else {
        sum_rolls(s.drop_last()) + s.last() as int
    }
}

pub open spec fn total(p: PlayerView) -> int {
    sum_rolls(p.rolls)
}

/// `a` places ahead of `b`: a larger total, or the same total and a lower id.
pub open spec fn ranks_before(a: PlayerView, b: PlayerView) -> bool {
    total(a) > total(b) || (total(a) == total(b) && a.player_id < b.player_id)
}

pub open spec fn has_player(ps: Seq<PlayerView>, id: i64) -> bool {
    exists|i: int| 0 <= i < ps.len() && #[trigger] ps[i].player_id == id
}

pub open spec fn player_index(ps: Seq<PlayerView>, id: i64) -> int {
    choose|i: int| 0 <= i < ps.len() && #[trigger] ps[i].player_id == id
}

pub open spec fn unique_ids(ps: Seq<PlayerView>) -> bool {
    forall|i: int, j: int|
        0 <= i < ps.len() && 0 <= j < ps.len() && i != j ==> #[trigger] ps[i].player_id
            != #[trigger] ps[j].player_id
}

/// Every participant has made all the rolls the session asks for.
pub open spec fn all_rolled(ps: Seq<PlayerView>, limit: nat) -> bool {
    forall|i: int| 0 <= i < ps.len() ==> #[trigger] ps[i].rolls.len() == limit
}

/// `states` shows each participant of `ps` in order, with its total.
pub open spec fn shows(states: Seq<PlayerState>, ps: Seq<PlayerView>) -> bool {
    &&& states.len() == ps.len()
    &&& forall|k: int|
        0 <= k < ps.len() ==> (#[trigger] states[k]).player_id == ps[k].player_id
            && states[k].rolls@ == ps[k].rolls && states[k].total_roll == total(ps[k])
}

/// `id` belongs to the participant with the strictly best placing.
pub open spec fn is_winner(ps: Seq<PlayerView>, id: i64) -> bool {
    exists|w: int|
        0 <= w < ps.len() && ps[w].player_id == id && forall|m: int|
            0 <= m < ps.len() && m != w ==> ranks_before(ps[w], #[trigger] ps[m])
}

/// `order` lists every participant's position once, best placing first.
pub open spec fn is_ranking(ps: Seq<PlayerView>, order: Seq<usize>) -> bool {
    &&& order.len() == ps.len()
    &&& forall|k: int| 0 <= k < order.len() ==> #[trigger] order[k] < ps.len()
    &&& forall|k: int, l: int|
        0 <= k < l < order.len() ==> ranks_before(ps[#[trigger] order[k] as int], ps[#[trigger] order[l] as int])
}

/// The ids are pairwise distinct.
pub open spec fn distinct_ids(ids: Seq<i64>) -> bool {
    forall|a: int, b: int| 0 <= a < ids.len() && 0 <= b < ids.len() && a != b ==> #[trigger] ids[a] != #[trigger] ids[b]
}

/// A participant who has not rolled yet.
pub open spec fn fresh_player(id: i64) -> PlayerView {
    PlayerView { player_id: id, rolls: Seq::empty(), is_active: true, last_roll_time: None }
}

/// A command to start a game may go ahead: it names at least one
/// participant and no participant twice.
pub open spec fn valid_roster(ids: Seq<i64>) -> bool {
    ids.len() > 0 && distinct_ids(ids)
}

/// The session that a start command creates.
pub open spec fn started_game(
    game_id: Seq<char>,
    ids: Seq<i64>,
    salon_id: Seq<char>,
    table_id: Seq<char>,
    round_limit: nat,
) -> GameView {
    GameView {
        game_id,
        players: ids.map_values(|id: i64| fresh_player(id)),
        state: GameState::Started,
        salon_id,
        table_id,
        round_limit,
        links: 1,
    }
}

/// `rolls` padded with zero rolls up to `limit`.
pub open spec fn zero_fill(rolls: Seq<i32>, limit: nat) -> Seq<i32> {
    rolls + Seq::new((limit - rolls.len()) as nat, |k: int| 0i32)
}

impl GameView {
    /// The invariant every session keeps from its start to its end: a fixed,
    /// non-empty set of distinct participants, no roll sequence over the
    /// limit, and the terminal phase reached exactly when all rolls are in.
    pub open spec fn well_formed(self) -> bool {
        &&& 0 < self.round_limit <= MAX_ROUND_LIMIT
        &&& self.players.len() > 0
        &&& unique_ids(self.players)
        &&& forall|i: int|
            0 <= i < self.players.len() ==> #[trigger] self.players[i].rolls.len()
                <= self.round_limit
        &&& (self.state == GameState::Started || self.state == GameState::Completed)
        &&& (self.state == GameState::Completed <==> all_rolled(self.players, self.round_limit))
    }

    /// The effect of the participant `id` leaving: it is marked inactive and
    /// its missing rolls are filled with zeros, so that the others can still
    /// finish the game.
    pub open spec fn disconnect(self, id: i64) -> (GameView, Result<Progress, GameError>) {
        if !has_player(self.players, id) {
            (self, Err(GameError::NotFound))
        } else if self.state != GameState::Started {
            (self, Ok(Progress::Unchanged))
        } else {
            let i = player_index(self.players, id);
            let p = self.players[i];
            let q = PlayerView { rolls: zero_fill(p.rolls, self.round_limit), is_active: false, ..p };
            GameView { players: self.players.update(i, q), ..self }.completion_check()
        }
    }

    /// The effect of an event.
    pub open spec fn apply(self, e: Event) -> (GameView, Result<Progress, GameError>) {
        match e {
            Event::Roll { player_id, value, now } => self.roll(player_id, value, now),
            Event::Leave { player_id } => self.disconnect(player_id),
            Event::Attach => self.attach(),
            Event::Detach => self.detach(),
        }
    }

    /// One more connection speaks for a running session.
    pub open spec fn attach(self) -> (GameView, Result<Progress, GameError>) {
        if self.state == GameState::Started && self.links < usize::MAX {
            (GameView { links: self.links + 1, ..self }, Ok(Progress::Unchanged))
        } else {
            (self, Ok(Progress::Unchanged))
        }
    }

    /// A connection that spoke for a running session went away; when it was
    /// the last one, the session is abandoned.
    pub open spec fn detach(self) -> (GameView, Result<Progress, GameError>) {
        if self.state != GameState::Started || self.links == 0 {
            (self, Ok(Progress::Unchanged))
        } else if self.links == 1 {
            (GameView { links: 0, ..self }, Ok(Progress::Abandoned))
        } else {
            (GameView { links: (self.links - 1) as nat, ..self }, Ok(Progress::Unchanged))
        }
    }

    /// Enter the terminal phase if every participant has rolled out.
    pub open spec fn completion_check(self) -> (GameView, Result<Progress, GameError>) {
        if all_rolled(self.players, self.round_limit) {
            (GameView { state: GameState::Completed, ..self }, Ok(Progress::Completed))
        } else {
            (self, Ok(Progress::Updated))
        }
    }

    /// The effect of a roll of `value` by `id` at time `now`.
    pub open spec fn roll(self, id: i64, value: i32, now: u64) -> (
        GameView,
        Result<Progress, GameError>,
    ) {
        if !has_player(self.players, id) {
            (self, Err(GameError::NotFound))
        } else if self.state != GameState::Started {
            (self, Ok(Progress::Unchanged))
        } else {
            let i = player_index(self.players, id);
            let p = self.players[i];
            if p.rolls.len() >= self.round_limit {
                (self, Ok(Progress::Unchanged))
            } else {
                let q = PlayerView { rolls: p.rolls.push(value), last_roll_time: Some(now), ..p };
                GameView { players: self.players.update(i, q), ..self }.completion_check()
            }
        }
    }
}

/// A roll keeps a session well formed: in particular no roll sequence grows
/// past the round limit.
pub proof fn lemma_roll_keeps_well_formed(g: GameView, id: i64, value: i32, now: u64)
    requires
        g.well_formed(),
    ensures
        g.roll(id, value, now).0.well_formed(),
{
    if has_player(g.players, id) && g.state == GameState::Started {
        let i = player_index(g.players, id);
        let p = g.players[i];
        if p.rolls.len() < g.round_limit {
            let q = PlayerView { rolls: p.rolls.push(value), last_roll_time: Some(now), ..p };
            let h = GameView { players: g.players.update(i, q), ..g };
            assert(unique_ids(h.players)) by {
                assert forall|a: int, b: int|
                    0 <= a < h.players.len() && 0 <= b < h.players.len() && a != b implies #[trigger] h.players[a].player_id
                        != #[trigger] h.players[b].player_id by {
                    assert(h.players[a].player_id == g.players[a].player_id);
                    assert(h.players[b].player_id == g.players[b].player_id);
                }
            }
            assert forall|k: int| 0 <= k < h.players.len() implies #[trigger] h.players[k].rolls.len()
                <= h.round_limit by {
                if k != i {
                    assert(h.players[k] == g.players[k]);
                }
            }
        }
    }
}

/// A disconnect keeps a session well formed.
pub proof fn lemma_disconnect_keeps_well_formed(g: GameView, id: i64)
    requires
        g.well_formed(),
    ensures
        g.disconnect(id).0.well_formed(),
{
    if has_player(g.players, id) && g.state == GameState::Started {
        let i = player_index(g.players, id);
        let p = g.players[i];
        let q = PlayerView { rolls: zero_fill(p.rolls, g.round_limit), is_active: false, ..p };
        let h = GameView { players: g.players.update(i, q), ..g };
        assert(unique_ids(h.players)) by {
            assert forall|a: int, b: int|
                0 <= a < h.players.len() && 0 <= b < h.players.len() && a != b implies #[trigger] h.players[a].player_id
                    != #[trigger] h.players[b].player_id by {
                assert(h.players[a].player_id == g.players[a].player_id);
                assert(h.players[b].player_id == g.players[b].player_id);
            }
        }
        assert forall|k: int| 0 <= k < h.players.len() implies #[trigger] h.players[k].rolls.len()
            <= h.round_limit by {
            if k != i {
                assert(h.players[k] == g.players[k]);
            }
        }
    }
}

/// The session after the events `es`, in order.
pub open spec fn run(g: GameView, es: Seq<Event>) -> GameView
    decreases es.len(),
{
    if es.len() == 0 {
        g
    } else {
        run(g.apply(es[0]).0, es.drop_first())
    }
}

/// How many of the events `es` report that they completed the session.
pub open spec fn completions(g: GameView, es: Seq<Event>) -> nat
    decreases es.len(),
{
    if es.len() == 0 {
        0
    } else {
        let (h, r) = g.apply(es[0]);
        (if r == Ok::<Progress, GameError>(Progress::Completed) {
            1nat
        } else {
            0nat
        }) + completions(h, es.drop_first())
    }
}

/// Every event keeps a session well formed, and reports completion exactly
/// when it moves the session from `Started` to `Completed`.
pub proof fn lemma_event_step(g: GameView, e: Event)
    requires
        g.well_formed(),
    ensures
        g.apply(e).0.well_formed(),
        g.apply(e).0.round_limit == g.round_limit,
        g.apply(e).0.game_id == g.game_id,
        g.apply(e).0.players.len() == g.players.len(),
        forall|j: int|
            0 <= j < g.players.len() ==> #[trigger] g.apply(e).0.players[j].player_id
                == g.players[j].player_id,
        g.apply(e).0.salon_id == g.salon_id,
        g.apply(e).0.table_id == g.table_id,
        g.apply(e).1 == Ok::<Progress, GameError>(Progress::Completed) <==> (g.state
            == GameState::Started && g.apply(e).0.state == GameState::Completed),
        g.state == GameState::Completed ==> g.apply(e).0 == g,
{
    match e {
        Event::Roll { player_id, value, now } => lemma_roll_keeps_well_formed(g, player_id, value, now),
        Event::Leave { player_id } => lemma_disconnect_keeps_well_formed(g, player_id),
        Event::Attach => {},
        Event::Detach => {},
    }
}

/// The events of rolls of the values `vs`, in order, by `id`.
pub open spec fn rolls_by(id: i64, vs: Seq<i32>, now: u64) -> Seq<Event> {
    vs.map_values(|v: i32| Event::Roll { player_id: id, value: v, now })
}

/// Rolls that a participant sends one after another are kept in order up to
/// the round limit, and those beyond it are dropped.
pub proof fn lemma_rolls_kept_in_order(g: GameView, id: i64, vs: Seq<i32>, now: u64)
    requires
        g.well_formed(),
        has_player(g.players, id),
    ensures
        ({
            let i = player_index(g.players, id);
            let kept = if vs.len() <= g.round_limit - g.players[i].rolls.len() {
                vs.len() as int
            } else {
                g.round_limit - g.players[i].rolls.len()
            };
            &&& run(g, rolls_by(id, vs, now)).players.len() == g.players.len()
            &&& run(g, rolls_by(id, vs, now)).players[i].rolls == g.players[i].rolls + vs.take(kept)
        }),
    decreases vs.len(),
{
    let i = player_index(g.players, id);
    let es = rolls_by(id, vs, now);
    assert(0 <= i < g.players.len() && g.players[i].player_id == id);
    if vs.len() == 0 {
        assert(vs.take(0) =~= Seq::<i32>::empty());
        assert(g.players[i].rolls + vs.take(0) =~= g.players[i].rolls);
    } else {
        let e = es[0];
        assert(e == Event::Roll { player_id: id, value: vs[0], now });
        let h = g.apply(e).0;
        lemma_event_step(g, e);
        assert(h.players[i].player_id == id);
        assert(has_player(h.players, id));
        let j = player_index(h.players, id);
        assert(0 <= j < h.players.len() && h.players[j].player_id == id);
        assert(h.players[j].player_id == g.players[j].player_id);
        assert(j == i);
        assert(es.drop_first() =~= rolls_by(id, vs.drop_first(), now));
        lemma_rolls_kept_in_order(h, id, vs.drop_first(), now);
        let r = g.players[i].rolls;
        if r.len() < g.round_limit {
            assert(g.state == GameState::Started);
            assert(h.players[i].rolls == r.push(vs[0]));
            let kept = if vs.len() <= g.round_limit - r.len() {
                vs.len() as int
            } else {
                g.round_limit - r.len()
            };
            assert(r.push(vs[0]) + vs.drop_first().take(kept - 1) =~= r + vs.take(kept));
        } else {
            assert(h == g);
            assert(vs.drop_first().take(0) =~= vs.take(0));
        }
    }
}

/// Whatever rolls and disconnects arrive, in whatever order, the session
/// stays well formed, so no roll sequence ever outgrows the round limit.
pub proof fn lemma_rolls_stay_within_limit(g: GameView, es: Seq<Event>)
    requires
        g.well_formed(),
    ensures
        run(g, es).well_formed(),
        run(g, es).round_limit == g.round_limit,
        forall|i: int|
            0 <= i < run(g, es).players.len() ==> #[trigger] run(g, es).players[i].rolls.len()
                <= g.round_limit,
    decreases es.len(),
{
    if es.len() > 0 {
        lemma_event_step(g, es[0]);
        lemma_rolls_stay_within_limit(g.apply(es[0]).0, es.drop_first());
    }
}

/// A roll by a participant who has already made all its rolls is ignored
/// and changes nothing.
pub proof fn lemma_excess_roll_ignored(g: GameView, id: i64, value: i32, now: u64)
    requires
        g.well_formed(),
        has_player(g.players, id),
        g.players[player_index(g.players, id)].rolls.len() == g.round_limit,
    ensures
        g.roll(id, value, now) == (g, Ok::<Progress, GameError>(Progress::Unchanged)),
{
}

/// Whatever the events and their order, a session reports completion at
/// most once: exactly once if it ends `Completed` having started out
/// running, and never otherwise.
pub proof fn lemma_completes_exactly_once(g: GameView, es: Seq<Event>)
    requires
        g.well_formed(),
    ensures
        completions(g, es) == (if g.state == GameState::Started && run(g, es).state
            == GameState::Completed {
            1nat
        } else {
            0nat
        }),
    decreases es.len(),
{
    if es.len() > 0 {
        let h = g.apply(es[0]).0;
        lemma_event_step(g, es[0]);
        lemma_completes_exactly_once(h, es.drop_first());
        if h.state == GameState::Completed {
            lemma_completed_is_final(h, es.drop_first());
        }
    }
}

/// Once `Completed`, a session never changes again.
pub proof fn lemma_completed_is_final(g: GameView, es: Seq<Event>)
    requires
        g.well_formed(),
        g.state == GameState::Completed,
    ensures
        run(g, es) == g,
    decreases es.len(),
{
    if es.len() > 0 {
        lemma_event_step(g, es[0]);
        lemma_completed_is_final(g, es.drop_first());
    }
}

/// A participant who leaves a running session has its sequence filled with
/// zeros up to the limit and is marked inactive; the others are untouched,
/// so the session completes as soon as all of them have rolled out.
pub proof fn lemma_disconnect_forfeits(g: GameView, id: i64)
    requires
        g.well_formed(),
        g.state == GameState::Started,
        has_player(g.players, id),
    ensures
        ({
            let i = player_index(g.players, id);
            let h = g.disconnect(id).0;
            &&& h.players.len() == g.players.len()
            &&& h.players[i].rolls == zero_fill(g.players[i].rolls, g.round_limit)
            &&& h.players[i].rolls.len() == g.round_limit
            &&& !h.players[i].is_active
            &&& forall|j: int| 0 <= j < g.players.len() && j != i ==> h.players[j] == g.players[j]
            &&& (h.state == GameState::Completed <==> forall|j: int|
                0 <= j < g.players.len() && j != i ==> #[trigger] g.players[j].rolls.len()
                    == g.round_limit)
        }),
{
    let i = player_index(g.players, id);
    let h = g.disconnect(id).0;
    lemma_disconnect_keeps_well_formed(g, id);
    if forall|j: int|
        0 <= j < g.players.len() && j != i ==> #[trigger] g.players[j].rolls.len() == g.round_limit {
        assert(all_rolled(h.players, h.round_limit)) by {
            assert forall|j: int| 0 <= j < h.players.len() implies #[trigger] h.players[j].rolls.len()
                == h.round_limit by {
                if j != i {
                    assert(h.players[j] == g.players[j]);
                }
            }
        }
    } else {
        let j = choose|j: int|
            0 <= j < g.players.len() && j != i && #[trigger] g.players[j].rolls.len() != g.round_limit;
        assert(h.players[j] == g.players[j]);
    }
}

/// The winner is unique: two runs of the ranking on the same participants
/// name the same winner, ties included.
pub proof fn lemma_winner_unique(ps: Seq<PlayerView>, a: i64, b: i64)
    requires
        is_winner(ps, a),
        is_winner(ps, b),
    ensures
        a == b,
{
    let wa = choose|w: int|
        0 <= w < ps.len() && ps[w].player_id == a && forall|m: int|
            0 <= m < ps.len() && m != w ==> ranks_before(ps[w], #[trigger] ps[m]);
    let wb = choose|w: int|
        0 <= w < ps.len() && ps[w].player_id == b && forall|m: int|
            0 <= m < ps.len() && m != w ==> ranks_before(ps[w], #[trigger] ps[m]);
    if wa != wb {
        assert(ranks_before(ps[wa], ps[wb]));
        assert(ranks_before(ps[wb], ps[wa]));
    }
}

/// The hyphenated form of a UUID: lowercase hexadecimal digits, with
/// hyphens at positions 8, 13, 18 and 23.
pub open spec fn is_hyphenated_uuid(s: Seq<char>) -> bool {
    &&& s.len() == 36
    &&& forall|i: int|
        0 <= i < 36 ==> if i == 8 || i == 13 || i == 18 || i == 23 {
            #[trigger] s[i] == '-'
        } else {
            ('0' <= s[i] <= '9') || ('a' <= s[i] <= 'f')
        }
}

/// Relies on `uuid::Uuid::new_v4` and its `Display`, which writes the
/// lowercase hyphenated form: 32 hexadecimal digits and 4 hyphens.
#[verifier::external_body]
pub(crate) fn new_game_id() -> (r: String)
    ensures
        r@.len() == 36,
        is_hyphenated_uuid(r@),
{
    uuid::Uuid::new_v4().to_string()
}

/// Whether the ids are pairwise distinct.
pub fn ids_distinct(ids: &Vec<i64>) -> (r: bool)
    ensures
        r == distinct_ids(ids@),
{
    let mut i: usize = 0;
    while i < ids.len()
        invariant
            i <= ids@.len(),
            forall|a: int, b: int| 0 <= a < i && 0 <= b < ids@.len() && a != b ==> #[trigger] ids@[a] != #[trigger] ids@[b],
        decreases ids@.len() - i,
    {
        let mut j: usize = 0;
        while j < ids.len()
            invariant
                i < ids@.len(),
                j <= ids@.len(),
                forall|a: int, b: int| 0 <= a < i && 0 <= b < ids@.len() && a != b ==> #[trigger] ids@[a] != #[trigger] ids@[b],
                forall|b: int| 0 <= b < j && b != i ==> ids@[i as int] != #[trigger] ids@[b],
            decreases ids@.len() - j,
        {
            if j != i && ids[i] == ids[j] {
                return false;
            }
            j = j + 1;
        }
        i = i + 1;
    }
    true
}

/// The ids of `players`, in order.
pub fn player_ids(players: &Vec<Player>) -> (r: Vec<i64>)
    ensures
        r@.len() == players@.len(),
        forall|k: int| 0 <= k < r@.len() ==> #[trigger] r@[k] == players@[k].player_id,
{
    let mut r: Vec<i64> = Vec::new();
    let mut i: usize = 0;
    while i < players.len()
        invariant
            i <= players@.len(),
            r@.len() == i,
            forall|k: int| 0 <= k < i ==> #[trigger] r@[k] == players@[k].player_id,
        decreases players@.len() - i,
    {
        r.push(players[i].player_id);
        i = i + 1;
    }
    r
}

/// Starts a session between the participants `players` at the given room and
/// table, under a fresh random id and with the round limit of a game between
/// people. Only the participants' ids are taken: everyone starts with no
/// rolls and connected.
pub fn start_game(players: Vec<Player>, salon_id: String, table_id: String) -> (r: Result<
    LiveGame,
    GameError,
>)
    ensures
        match r {
            Ok(g) => {
                &&& valid_roster(players@.map_values(|p: Player| p.player_id))
                &&& g@ == started_game(
                    g@.game_id,
                    players@.map_values(|p: Player| p.player_id),
                    salon_id@,
                    table_id@,
                    MAX_ROLLS as nat,
                )
                &&& g@.game_id.len() == 36
                &&& g.well_formed()
            },
            Err(e) => e == GameError::InvalidCommand && !valid_roster(
                players@.map_values(|p: Player| p.player_id),
            ),
        },
{
    let ids = player_ids(&players);
    proof {
        assert(ids@ =~= players@.map_values(|p: Player| p.player_id));
    }
    let game_id = new_game_id();
    LiveGame::start(game_id, ids, salon_id, table_id, MAX_ROLLS)
}

impl LiveGame {
    pub open spec fn well_formed(&self) -> bool {
        self@.well_formed()
    }

    /// Starts a session with the id `game_id` between the participants
    /// `ids`, each owing `round_limit` rolls. Fails with `InvalidCommand`
    /// when no participant is named, one is named twice, or the limit is 0
    /// or above [`MAX_ROUND_LIMIT`].
    pub fn start(
        game_id: String,
        ids: Vec<i64>,
        salon_id: String,
        table_id: String,
        round_limit: usize,
    ) -> (r: Result<LiveGame, GameError>)
        ensures
            match r {
                Ok(g) => valid_roster(ids@) && 0 < round_limit <= MAX_ROUND_LIMIT && g@
                    == started_game(game_id@, ids@, salon_id@, table_id@, round_limit as nat)
                    && g.well_formed(),
                Err(e) => e == GameError::InvalidCommand && !(valid_roster(ids@) && 0
                    < round_limit <= MAX_ROUND_LIMIT),
            },
    {
        if ids.len() == 0 || round_limit == 0 || round_limit > MAX_ROUND_LIMIT {
            return Err(GameError::InvalidCommand);
        }
        if !ids_distinct(&ids) {
            return Err(GameError::InvalidCommand);
        }
        let mut players: Vec<Player> = Vec::new();
        let mut i: usize = 0;
        while i < ids.len()
            invariant
                i <= ids@.len(),
                players@.len() == i,
                forall|k: int| 0 <= k < i ==> #[trigger] players@[k]@ == fresh_player(ids@[k]),
            decreases ids@.len() - i,
        {
            players.push(Player { player_id: ids[i], rolls: Vec::new(), is_active: true, last_roll_time: None });
            proof {
                assert(players@[i as int]@.rolls =~= Seq::<i32>::empty());
            }
            i = i + 1;
        }
        let g = LiveGame { game_id, players, state: GameState::Started, salon_id, table_id, round_limit, connections: 1 };
        proof {
            let v = started_game(game_id@, ids@, salon_id@, table_id@, round_limit as nat);
            assert(g@.players =~= v.players);
            assert(!all_rolled(g@.players, g@.round_limit)) by {
                assert(g@.players[0].rolls.len() == 0);
            }
            assert(unique_ids(g@.players)) by {
                assert forall|a: int, b: int|
                    0 <= a < g@.players.len() && 0 <= b < g@.players.len() && a != b implies #[trigger] g@.players[a].player_id
                        != #[trigger] g@.players[b].player_id by {
                    assert(g@.players[a].player_id == ids@[a]);
                    assert(g@.players[b].player_id == ids@[b]);
                }
            }
        }
        Ok(g)
    }

    /// Position of the participant `id`, if it takes part.
    pub fn find_player(&self, id: i64) -> (r: Option<usize>)
        ensures
            match r {
                Some(i) => i < self.players@.len() && self.players@[i as int].player_id == id,
                None => !has_player(self@.players, id),
            },
    {
        let mut i: usize = 0;
        while i < self.players.len()
            invariant
                i <= self.players@.len(),
                forall|k: int| 0 <= k < i ==> self.players@[k].player_id != id,
            decreases self.players@.len() - i,
        {
            if self.players[i].player_id == id {
                return Some(i);
            }
            i = i + 1;
        }
        assert(!has_player(self@.players, id)) by {
            assert forall|k: int| 0 <= k < self@.players.len() implies #[trigger] self@.players[k].player_id != id by {
                assert(self@.players[k] == self.players@[k]@);
            }
        }
        None
    }

    /// Whether every participant has made all the rolls the session asks for.
    pub fn all_rolled(&self) -> (r: bool)
        ensures
            r == all_rolled(self@.players, self@.round_limit),
    {
        let mut i: usize = 0;
        while i < self.players.len()
            invariant
                i <= self.players@.len(),
                forall|k: int| 0 <= k < i ==> #[trigger] self@.players[k].rolls.len() == self.round_limit,
            decreases self.players@.len() - i,
        {
            if self.players[i].rolls.len() != self.round_limit {
                let ghost ps = self@.players;
                assert(ps[i as int] == self.players@[i as int]@);
                assert(ps[i as int].rolls.len() != self@.round_limit);
                assert(0 <= i < ps.len());
                assert(!all_rolled(ps, self@.round_limit));
                return false;
            }
            i = i + 1;
        }
        true
    }

    /// Moves the session to `Completed` when every roll is in.
    fn complete_if_done(&mut self) -> (r: Result<Progress, GameError>)
        ensures
            (final(self)@, r) == old(self)@.completion_check(),
    {
        if self.all_rolled() {
            self.state = GameState::Completed;
            Ok(Progress::Completed)
        } else {
            Ok(Progress::Updated)
        }
    }

    /// The roll totals of the participants, in order.
    pub fn totals(&self) -> (r: Vec<i64>)
        requires
            self.well_formed(),
        ensures
            r@.len() == self@.players.len(),
            forall|k: int| 0 <= k < r@.len() ==> #[trigger] r@[k] == total(self@.players[k]),
    {
        let mut r: Vec<i64> = Vec::new();
        let mut i: usize = 0;
        while i < self.players.len()
            invariant
                self.well_formed(),
                i <= self.players@.len(),
                r@.len() == i,
                forall|k: int| 0 <= k < i ==> #[trigger] r@[k] == total(self@.players[k]),
            decreases self.players@.len() - i,
        {
            assert(self@.players[i as int] == self.players@[i as int]@);
            assert(self@.players[i as int].rolls.len() <= MAX_ROUND_LIMIT);
            r.push(total_roll(&self.players[i].rolls));
            i = i + 1;
        }
        r
    }

    /// Every participant's id, rolls and total, for broadcasting.
    pub fn snapshot(&self) -> (r: Vec<PlayerState>)
        requires
            self.well_formed(),
        ensures
            shows(r@, self@.players),
    {
        let mut r: Vec<PlayerState> = Vec::new();
        let mut i: usize = 0;
        while i < self.players.len()
            invariant
                self.well_formed(),
                i <= self.players@.len(),
                r@.len() == i,
                forall|k: int|
                    0 <= k < i ==> (#[trigger] r@[k]).player_id == self@.players[k].player_id
                        && r@[k].rolls@ == self@.players[k].rolls && r@[k].total_roll == total(
                        self@.players[k],
                    ),
            decreases self.players@.len() - i,
        {
            assert(self@.players[i as int] == self.players@[i as int]@);
            assert(self@.players[i as int].rolls.len() <= MAX_ROUND_LIMIT);
            let rolls = self.players[i].rolls.clone();
            proof {
                assert(rolls@ =~= self.players@[i as int].rolls@);
            }
            let total_roll = total_roll(&self.players[i].rolls);
            r.push(PlayerState { player_id: self.players[i].player_id, rolls, total_roll });
            i = i + 1;
        }
        r
    }

    /// Whether participant `a` places ahead of participant `b`, given the
    /// totals `t`.
    fn places_before(&self, t: &Vec<i64>, a: usize, b: usize) -> (r: bool)
        requires
            t@.len() == self@.players.len(),
            forall|k: int| 0 <= k < t@.len() ==> #[trigger] t@[k] == total(self@.players[k]),
            a < t@.len(),
            b < t@.len(),
        ensures
            r == ranks_before(self@.players[a as int], self@.players[b as int]),
    {
        assert(self@.players[a as int] == self.players@[a as int]@);
        assert(self@.players[b as int] == self.players@[b as int]@);
        t[a] > t[b] || (t[a] == t[b] && self.players[a].player_id < self.players[b].player_id)
    }

    /// The participant with the strictly highest total; among equal totals
    /// the lowest id wins.
    pub fn winner_id(&self) -> (r: i64)
        requires
            self.well_formed(),
        ensures
            is_winner(self@.players, r),
    {
        let t = self.totals();
        let mut best: usize = 0;
        let mut k: usize = 1;
        while k < self.players.len()
            invariant
                t@.len() == self@.players.len(),
                forall|m: int| 0 <= m < t@.len() ==> #[trigger] t@[m] == total(self@.players[m]),
                self.well_formed(),
                1 <= k <= self@.players.len(),
                best < k,
                forall|m: int| 0 <= m < k && m != best ==> ranks_before(self@.players[best as int], #[trigger] self@.players[m]),
            decreases self@.players.len() - k,
        {
            if self.places_before(&t, k, best) {
                best = k;
            }
            k = k + 1;
        }
        assert(self@.players[best as int] == self.players@[best as int]@);
        self.players[best].player_id
    }

    /// The participants' positions ordered by final placing: descending
    /// total, ties broken by ascending id.
    pub fn rank_players(&self) -> (r: Vec<usize>)
        requires
            self.well_formed(),
        ensures
            is_ranking(self@.players, r@),
    {
        let t = self.totals();
        let mut order: Vec<usize> = Vec::new();
        let mut i: usize = 0;
        while i < self.players.len()
            invariant
                t@.len() == self@.players.len(),
                forall|m: int| 0 <= m < t@.len() ==> #[trigger] t@[m] == total(self@.players[m]),
                self.well_formed(),
                i <= self@.players.len(),
                order@.len() == i,
                forall|k: int| 0 <= k < i ==> #[trigger] order@[k] < i,
                forall|k: int, l: int| 0 <= k < l < i ==> ranks_before(
                    self@.players[#[trigger] order@[k] as int],
                    self@.players[#[trigger] order@[l] as int],
                ),
            decreases self@.players.len() - i,
        {
            let mut j: usize = 0;
            while j < order.len() && self.places_before(&t, order[j], i)
                invariant
                    t@.len() == self@.players.len(),
                    forall|m: int| 0 <= m < t@.len() ==> #[trigger] t@[m] == total(self@.players[m]),
                    i < self@.players.len(),
                    order@.len() == i,
                    forall|k: int| 0 <= k < i ==> #[trigger] order@[k] < i,
                    j <= i,
                    forall|k: int| 0 <= k < j ==> ranks_before(
                        self@.players[#[trigger] order@[k] as int],
                        self@.players[i as int],
                    ),
                decreases i - j,
            {
                j = j + 1;
            }
            let ghost old_order = order@;
            proof {
                if j < i {
                    let a = self@.players[old_order[j as int] as int];
                    let b = self@.players[i as int];
                    assert(a.player_id != b.player_id);
                    assert(ranks_before(b, a));
                }
            }
            order.insert(j, i);
            proof {
                assert(order@ == old_order.insert(j as int, i));
                assert forall|k: int, l: int| 0 <= k < l < i + 1 implies ranks_before(
                    self@.players[#[trigger] order@[k] as int],
                    self@.players[#[trigger] order@[l] as int],
                ) by {
                    if l < j {
                    } else if l == j {
                    } else if k < j {
                        assert(order@[l] == old_order[l - 1]);
                        if j < i {
                            assert(ranks_before(self@.players[i as int], self@.players[old_order[j as int] as int]));
                            if l - 1 > j {
                                assert(ranks_before(self@.players[old_order[j as int] as int], self@.players[old_order[l - 1] as int]));
                            }
                        }
                    } else if k == j {
                        assert(order@[l] == old_order[l - 1]);
                        if l - 1 > j {
                            assert(ranks_before(self@.players[old_order[j as int] as int], self@.players[old_order[l - 1] as int]));
                        }
                    } else {
                        assert(order@[l] == old_order[l - 1]);
                        assert(order@[k] == old_order[k - 1]);
                    }
                }
            }
            i = i + 1;
        }
        order
    }

    /// Applies an event to the session.
    pub fn apply(&mut self, e: Event) -> (r: Result<Progress, GameError>)
        requires
            old(self).well_formed(),
        ensures
            (final(self)@, r) == old(self)@.apply(e),
            final(self).well_formed(),
    {
        match e {
            Event::Roll { player_id, value, now } => self.handle_dice_roll(player_id, value, now),
            Event::Leave { player_id } => self.handle_player_disconnect(player_id),
            Event::Attach => {
                if self.state == GameState::Started && self.connections < usize::MAX {
                    self.connections = self.connections + 1;
                }
                Ok(Progress::Unchanged)
            },
            Event::Detach => {
                if self.state != GameState::Started || self.connections == 0 {
                    Ok(Progress::Unchanged)
                } else {
                    self.connections = self.connections - 1;
                    if self.connections == 0 {
                        Ok(Progress::Abandoned)
                    } else {
                        Ok(Progress::Unchanged)
                    }
                }
            },
        }
    }

    /// Applies the departure of `player_id`: it is marked inactive and its
    /// missing rolls become zeros; this may complete the session.
    pub fn handle_player_disconnect(&mut self, player_id: i64) -> (r: Result<Progress, GameError>)
        requires
            old(self).well_formed(),
        ensures
            (final(self)@, r) == old(self)@.disconnect(player_id),
            final(self).well_formed(),
    {
        let ghost g0 = self@;
        let found = self.find_player(player_id);
        let i = match found {
            None => return Err(GameError::NotFound),
            Some(i) => i,
        };
        proof {
            assert(g0.players[i as int] == self.players@[i as int]@);
            assert(g0.players[i as int].player_id == player_id);
            let j = player_index(g0.players, player_id);
            assert(0 <= j < g0.players.len() && g0.players[j].player_id == player_id);
        }
        if self.state != GameState::Started {
            return Ok(Progress::Unchanged);
        }
        let ghost r0 = g0.players[i as int].rolls;
        self.players[i].is_active = false;
        while self.players[i].rolls.len() < self.round_limit
            invariant
                self.players@.len() == g0.players.len(),
                i < self.players@.len(),
                self.round_limit == g0.round_limit,
                r0.len() <= self.players@[i as int].rolls@.len() <= self.round_limit,
                self.players@[i as int].rolls@ == r0 + Seq::new(
                    (self.players@[i as int].rolls@.len() - r0.len()) as nat,
                    |k: int| 0i32,
                ),
                self.players@[i as int].player_id == player_id,
                !self.players@[i as int].is_active,
                self.players@[i as int].last_roll_time == g0.players[i as int].last_roll_time,
                forall|k: int| 0 <= k < self.players@.len() && k != i ==> self.players@[k]@ == g0.players[k],
                self.game_id@ == g0.game_id,
                self.salon_id@ == g0.salon_id,
                self.table_id@ == g0.table_id,
                self.state == g0.state,
                self.connections as nat == g0.links,
            decreases self.round_limit - self.players@[i as int].rolls@.len(),
        {
            self.players[i].rolls.push(0);
            proof {
                let n = self.players@[i as int].rolls@.len();
                assert(self.players@[i as int].rolls@ =~= r0 + Seq::new((n - r0.len()) as nat, |k: int| 0i32));
            }
        }
        proof {
            let p = g0.players[i as int];
            let q = PlayerView { rolls: zero_fill(p.rolls, g0.round_limit), is_active: false, ..p };
            assert(self@.players =~= g0.players.update(i as int, q));
            lemma_disconnect_keeps_well_formed(g0, player_id);
        }
        self.complete_if_done()
    }

    /// Applies a roll of `value` by `player_id`, made at Unix time `now`.
    /// The roll is appended while the participant is under the round limit
    /// and the session runs; otherwise it is ignored. The roll that brings
    /// in the last owed roll moves the session to `Completed`.
    pub fn handle_dice_roll(&mut self, player_id: i64, value: i32, now: u64) -> (r: Result<
        Progress,
        GameError,
    >)
        requires
            old(self).well_formed(),
        ensures
            (final(self)@, r) == old(self)@.roll(player_id, value, now),
            final(self).well_formed(),
    {
        let ghost g0 = self@;
        let found = self.find_player(player_id);
        let i = match found {
            None => return Err(GameError::NotFound),
            Some(i) => i,
        };
        proof {
            assert(g0.players[i as int] == self.players@[i as int]@);
            assert(g0.players[i as int].player_id == player_id);
            let j = player_index(g0.players, player_id);
            assert(0 <= j < g0.players.len() && g0.players[j].player_id == player_id);
        }
        if self.state != GameState::Started {
            return Ok(Progress::Unchanged);
        }
        if self.players[i].rolls.len() >= self.round_limit {
            return Ok(Progress::Unchanged);
        }
        self.players[i].rolls.push(value);
        self.players[i].last_roll_time = Some(now);
        proof {
            let p = g0.players[i as int];
            let q = PlayerView { rolls: p.rolls.push(value), last_roll_time: Some(now), ..p };
            assert(self@.players =~= g0.players.update(i as int, q));
            lemma_roll_keeps_well_formed(g0, player_id, value, now);
        }
        self.complete_if_done()
    }
}

/// Sum of a roll sequence, exact in `i64`.
pub fn total_roll(rolls: &Vec<i32>) -> (r: i64)
    requires
        rolls@.len() <= u32::MAX,
    ensures
        r == sum_rolls(rolls@),
{
    let mut acc: i64 = 0;
    let mut i: usize = 0;
    while i < rolls.len()
        invariant
            i <= rolls@.len() <= u32::MAX,
            acc == sum_rolls(rolls@.subrange(0, i as int)),
            -(i as int) * 0x8000_0000 <= acc <= (i as int) * 0x8000_0000,
        decreases rolls@.len() - i,
    {
        assert(rolls@.subrange(0, i + 1).drop_last() == rolls@.subrange(0, i as int));
        acc = acc + rolls[i] as i64;
        i = i + 1;
    }
    assert(rolls@.subrange(0, i as int) == rolls@);
    acc
}

} // verus!
