//! The registry of running sessions, at most one per (room, table) key.
use vstd::prelude::*;
use crate::session::{
    has_player, lemma_event_step, Event, GameError, GameState, GameView, LiveGame, Progress,
};
use crate::settlement::{settles, Settlement};
use crate::text::same_text;

verus! {

/// The (room, table) key of a session.
pub open spec fn key_of(g: GameView) -> (Seq<char>, Seq<char>) {
    (g.salon_id, g.table_id)
}

pub open spec fn holds_key(gs: Seq<GameView>, key: (Seq<char>, Seq<char>)) -> bool {
    exists|i: int| 0 <= i < gs.len() && #[trigger] key_of(gs[i]) == key
}

pub open spec fn key_index(gs: Seq<GameView>, key: (Seq<char>, Seq<char>)) -> int {
    choose|i: int| 0 <= i < gs.len() && #[trigger] key_of(gs[i]) == key
}

pub open spec fn unique_keys(gs: Seq<GameView>) -> bool {
    forall|i: int, j: int|
        0 <= i < gs.len() && 0 <= j < gs.len() && i != j ==> #[trigger] key_of(gs[i]) != #[trigger] key_of(
            gs[j],
        )
}

/// The outcome takes the session out of the registry: it completed, or its
/// last connection went away.
pub open spec fn retires(r: Result<Progress, GameError>) -> bool {
    r == Ok::<Progress, GameError>(Progress::Completed) || r == Ok::<Progress, GameError>(
        Progress::Abandoned,
    )
}

/// The sessions after `e` is sent to the session under `key`, and what it
/// did. A session that completes is taken out: it is settled once and then
/// gone. A session whose last connection goes away is taken out as
/// abandoned.
pub open spec fn registry_apply(gs: Seq<GameView>, key: (Seq<char>, Seq<char>), e: Event) -> (
    Seq<GameView>,
    Result<Progress, GameError>,
) {
    if !holds_key(gs, key) {
        (gs, Err(GameError::NotFound))
    } else {
        let i = key_index(gs, key);
        let (g, r) = gs[i].apply(e);
        if retires(r) {
            (gs.remove(i), r)
        } else {
            (gs.update(i, g), r)
        }
    }
}

/// The sessions after the events `es` are sent, in order, to the session
/// under `key`.
pub open spec fn registry_run(gs: Seq<GameView>, key: (Seq<char>, Seq<char>), es: Seq<Event>) -> Seq<
    GameView,
>
    decreases es.len(),
{
    if es.len() == 0 {
        gs
    } else {
        registry_run(registry_apply(gs, key, es[0]).0, key, es.drop_first())
    }
}

/// Sending one more event extends a run by one step.
pub proof fn lemma_run_push(
    gs: Seq<GameView>,
    key: (Seq<char>, Seq<char>),
    es: Seq<Event>,
    e: Event,
)
    ensures
        registry_run(gs, key, es.push(e)) == registry_apply(registry_run(gs, key, es), key, e).0,
        settlements(gs, key, es.push(e)) == settlements(gs, key, es) + (if registry_apply(
            registry_run(gs, key, es),
            key,
            e,
        ).1 == Ok::<Progress, GameError>(Progress::Completed) {
            1nat
        } else {
            0nat
        }),
    decreases es.len(),
{
    if es.len() == 0 {
        let hs = registry_apply(gs, key, e).0;
        assert(es.push(e).drop_first() =~= Seq::<Event>::empty());
        assert(es.push(e)[0] == e);
        assert(registry_run(hs, key, Seq::<Event>::empty()) == hs);
        assert(settlements(hs, key, Seq::<Event>::empty()) == 0);
        assert(registry_run(gs, key, es) == gs);
        assert(settlements(gs, key, es) == 0);
    } else {
        let hs = registry_apply(gs, key, es[0]).0;
        lemma_run_push(hs, key, es.drop_first(), e);
        assert(es.push(e).drop_first() =~= es.drop_first().push(e));
        assert(es.push(e)[0] == es[0]);
    }
}

/// The session as it stood right after the first of the events `es` that
/// completed it.
pub open spec fn completed_view(gs: Seq<GameView>, key: (Seq<char>, Seq<char>), es: Seq<Event>) -> GameView
    decreases es.len(),
{
    if es.len() == 0 {
        arbitrary()
    } else {
        let (hs, r) = registry_apply(gs, key, es[0]);
        if r == Ok::<Progress, GameError>(Progress::Completed) {
            gs[key_index(gs, key)].apply(es[0]).0
        } else {
            completed_view(hs, key, es.drop_first())
        }
    }
}

/// One more event leaves the completed session as it was once one event
/// has completed it, and otherwise names the session this event completes.
pub proof fn lemma_completed_view_push(
    gs: Seq<GameView>,
    key: (Seq<char>, Seq<char>),
    es: Seq<Event>,
    e: Event,
)
    ensures
        settlements(gs, key, es) >= 1 ==> completed_view(gs, key, es.push(e)) == completed_view(
            gs,
            key,
            es,
        ),
        settlements(gs, key, es) == 0 && registry_apply(registry_run(gs, key, es), key, e).1 == Ok::<
            Progress,
            GameError,
        >(Progress::Completed) ==> completed_view(gs, key, es.push(e)) == registry_run(
            gs,
            key,
            es,
        )[key_index(registry_run(gs, key, es), key)].apply(e).0,
    decreases es.len(),
{
    if es.len() == 0 {
        assert(es.push(e).drop_first() =~= Seq::<Event>::empty());
        assert(es.push(e)[0] == e);
        assert(registry_run(gs, key, es) == gs);
        assert(settlements(gs, key, es) == 0);
    } else {
        let hs = registry_apply(gs, key, es[0]).0;
        lemma_completed_view_push(hs, key, es.drop_first(), e);
        assert(es.push(e).drop_first() =~= es.drop_first().push(e));
        assert(es.push(e)[0] == es[0]);
    }
}

/// How many of the events `es` sent to the session under `key` complete it,
/// and so hand back a settlement.
pub open spec fn settlements(gs: Seq<GameView>, key: (Seq<char>, Seq<char>), es: Seq<Event>) -> nat
    decreases es.len(),
{
    if es.len() == 0 {
        0
    } else {
        let (hs, r) = registry_apply(gs, key, es[0]);
        (if r == Ok::<Progress, GameError>(Progress::Completed) {
            1nat
        } else {
            0nat
        }) + settlements(hs, key, es.drop_first())
    }
}

/// How many of the events `es` sent to the session under `key` take it out
/// of the registry.
pub open spec fn retirements(gs: Seq<GameView>, key: (Seq<char>, Seq<char>), es: Seq<Event>) -> nat
    decreases es.len(),
{
    if es.len() == 0 {
        0
    } else {
        let (hs, r) = registry_apply(gs, key, es[0]);
        (if retires(r) {
            1nat
        } else {
            0nat
        }) + retirements(hs, key, es.drop_first())
    }
}

pub open spec fn registry_well_formed(gs: Seq<GameView>) -> bool {
    &&& unique_keys(gs)
    &&& forall|i: int| 0 <= i < gs.len() ==> (#[trigger] gs[i]).well_formed()
}

/// The participant an event comes from, if it comes from one.
pub open spec fn sender(e: Event) -> Option<i64> {
    match e {
        Event::Roll { player_id, .. } => Some(player_id),
        Event::Leave { player_id } => Some(player_id),
        Event::Attach => None,
        Event::Detach => None,
    }
}

/// One event keeps the registry well formed; the session under `key` stays
/// registered unless the event completed or abandoned it, and then it is
/// gone.
pub proof fn lemma_registry_step(gs: Seq<GameView>, key: (Seq<char>, Seq<char>), e: Event)
    requires
        registry_well_formed(gs),
    ensures
        registry_well_formed(registry_apply(gs, key, e).0),
        retires(registry_apply(gs, key, e).1) ==> !holds_key(registry_apply(gs, key, e).0, key),
        !retires(registry_apply(gs, key, e).1) ==> (holds_key(
            registry_apply(gs, key, e).0,
            key,
        ) <==> holds_key(gs, key)),
        !holds_key(gs, key) ==> registry_apply(gs, key, e) == (gs, Err::<Progress, GameError>(
            GameError::NotFound,
        )),
        !retires(registry_apply(gs, key, e).1) && holds_key(gs, key) ==> ({
            let hs = registry_apply(gs, key, e).0;
            hs[key_index(hs, key)].game_id == gs[key_index(gs, key)].game_id
        }),
        registry_apply(gs, key, e).1 is Err ==> registry_apply(gs, key, e) == (
            gs,
            Err::<Progress, GameError>(GameError::NotFound),
        ),
{
    if holds_key(gs, key) {
        let i = key_index(gs, key);
        let (g, r) = gs[i].apply(e);
        lemma_event_step(gs[i], e);
        if retires(r) {
            let hs = gs.remove(i);
            assert forall|a: int, b: int|
                0 <= a < hs.len() && 0 <= b < hs.len() && a != b implies #[trigger] key_of(hs[a])
                    != #[trigger] key_of(hs[b]) by {
                let a0 = if a < i { a } else { a + 1 };
                let b0 = if b < i { b } else { b + 1 };
                assert(hs[a] == gs[a0]);
                assert(hs[b] == gs[b0]);
            }
            assert forall|a: int| 0 <= a < hs.len() implies (#[trigger] hs[a]).well_formed() by {
                let a0 = if a < i { a } else { a + 1 };
                assert(hs[a] == gs[a0]);
            }
            if holds_key(hs, key) {
                let a = choose|a: int| 0 <= a < hs.len() && #[trigger] key_of(hs[a]) == key;
                let a0 = if a < i { a } else { a + 1 };
                assert(hs[a] == gs[a0]);
            }
        } else {
            let hs = gs.update(i, g);
            if r is Err {
                assert(hs =~= gs);
            }
            assert forall|a: int, b: int|
                0 <= a < hs.len() && 0 <= b < hs.len() && a != b implies #[trigger] key_of(hs[a])
                    != #[trigger] key_of(hs[b]) by {
                assert(key_of(hs[a]) == key_of(gs[a]));
                assert(key_of(hs[b]) == key_of(gs[b]));
            }
            assert(key_of(hs[i]) == key);
            let j = key_index(hs, key);
            assert(0 <= j < hs.len() && key_of(hs[j]) == key);
        }
    }
}

/// A roll or a disconnect for a room and table where no session runs, or
/// from someone who is not a participant there, is answered `NotFound` and
/// leaves every session as it was.
pub proof fn lemma_unknown_target_changes_nothing(
    gs: Seq<GameView>,
    key: (Seq<char>, Seq<char>),
    e: Event,
)
    requires
        registry_well_formed(gs),
        sender(e) is Some,
        !holds_key(gs, key) || !has_player(gs[key_index(gs, key)].players, sender(e)->0),
    ensures
        registry_apply(gs, key, e) == (gs, Err::<Progress, GameError>(GameError::NotFound)),
{
    if holds_key(gs, key) {
        let i = key_index(gs, key);
        assert(gs.update(i, gs[i]) =~= gs);
    }
}

/// When the last connection tied to a running session goes away, the
/// session is abandoned and no longer blocks its table.
pub proof fn lemma_last_detach_abandons(gs: Seq<GameView>, key: (Seq<char>, Seq<char>))
    requires
        registry_well_formed(gs),
        holds_key(gs, key),
        gs[key_index(gs, key)].state == GameState::Started,
        gs[key_index(gs, key)].links == 1,
    ensures
        registry_apply(gs, key, Event::Detach).1 == Ok::<Progress, GameError>(Progress::Abandoned),
        !holds_key(registry_apply(gs, key, Event::Detach).0, key),
        registry_well_formed(registry_apply(gs, key, Event::Detach).0),
{
    lemma_registry_step(gs, key, Event::Detach);
}

/// With no session under `key`, nothing sent there is ever settled.
pub proof fn lemma_absent_never_settles(gs: Seq<GameView>, key: (Seq<char>, Seq<char>), es: Seq<Event>)
    requires
        registry_well_formed(gs),
        !holds_key(gs, key),
    ensures
        settlements(gs, key, es) == 0,
    decreases es.len(),
{
    if es.len() > 0 {
        lemma_registry_step(gs, key, es[0]);
        lemma_absent_never_settles(gs, key, es.drop_first());
    }
}

/// However many completing commands reach a session, also ones that race
/// each other, at most one of them hands back a settlement.
pub proof fn lemma_settles_at_most_once(gs: Seq<GameView>, key: (Seq<char>, Seq<char>), es: Seq<Event>)
    requires
        registry_well_formed(gs),
    ensures
        settlements(gs, key, es) <= 1,
    decreases es.len(),
{
    if es.len() > 0 {
        let (hs, r) = registry_apply(gs, key, es[0]);
        lemma_registry_step(gs, key, es[0]);
        if retires(r) {
            lemma_absent_never_settles(hs, key, es.drop_first());
        } else {
            lemma_settles_at_most_once(hs, key, es.drop_first());
        }
    }
}

/// A session started on a free key is the only one under that key, and
/// stays retrievable by it, under the same game id, for as long as none of
/// the events sent to it has settled or abandoned it.
pub proof fn lemma_started_session_retrievable(
    gs: Seq<GameView>,
    g: GameView,
    es: Seq<Event>,
)
    requires
        registry_well_formed(gs),
        g.well_formed(),
        !holds_key(gs, key_of(g)),
    ensures
        registry_well_formed(gs.push(g)),
        key_index(gs.push(g), key_of(g)) == gs.len(),
        retirements(gs.push(g), key_of(g), es) == 0 ==> holds_key(
            registry_run(gs.push(g), key_of(g), es),
            key_of(g),
        ) && ({
            let hs = registry_run(gs.push(g), key_of(g), es);
            hs[key_index(hs, key_of(g))].game_id == g.game_id
        }),
{
    let hs = gs.push(g);
    assert forall|a: int, b: int|
        0 <= a < hs.len() && 0 <= b < hs.len() && a != b implies #[trigger] key_of(hs[a])
            != #[trigger] key_of(hs[b]) by {
        if a == gs.len() as int {
            assert(key_of(gs[b]) != key_of(g));
        } else if b == gs.len() as int {
            assert(key_of(gs[a]) != key_of(g));
        }
    }
    assert forall|a: int| 0 <= a < hs.len() implies (#[trigger] hs[a]).well_formed() by {
        if a < gs.len() {
            assert(hs[a] == gs[a]);
        }
    }
    assert(key_of(hs[gs.len() as int]) == key_of(g));
    lemma_registered_until_settled(hs, key_of(g), es);
}

/// A registered session stays registered, under the same game id, while no
/// event settles or abandons it.
pub proof fn lemma_registered_until_settled(
    gs: Seq<GameView>,
    key: (Seq<char>, Seq<char>),
    es: Seq<Event>,
)
    requires
        registry_well_formed(gs),
        holds_key(gs, key),
    ensures
        retirements(gs, key, es) == 0 ==> holds_key(registry_run(gs, key, es), key) && registry_run(
            gs,
            key,
            es,
        )[key_index(registry_run(gs, key, es), key)].game_id == gs[key_index(gs, key)].game_id,
    decreases es.len(),
{
    if es.len() > 0 {
        let (hs, r) = registry_apply(gs, key, es[0]);
        lemma_registry_step(gs, key, es[0]);
        if !retires(r) {
            lemma_registered_until_settled(hs, key, es.drop_first());
        }
    }
}

/// The running sessions of one process.
#[derive(Debug)]
pub struct SessionRegistry {
    games: Vec<LiveGame>,
}

impl View for SessionRegistry {
    type V = Seq<GameView>;

    closed spec fn view(&self) -> Seq<GameView> {
        self.games@.map_values(|g: LiveGame| g@)
    }
}

impl SessionRegistry {
    /// Every session is well formed and no two share a key.
    pub open spec fn well_formed(&self) -> bool {
        registry_well_formed(self@)
    }

    pub fn new() -> (r: SessionRegistry)
        ensures
            r@ == Seq::<GameView>::empty(),
            r.well_formed(),
    {
        let r = SessionRegistry { games: Vec::new() };
        assert(r@ =~= Seq::<GameView>::empty());
        r
    }

    /// The number of running sessions.
    pub fn len(&self) -> (r: usize)
        ensures
            r == self@.len(),
    {
        self.games.len()
    }

    /// The session at position `i`.
    pub fn get(&self, i: usize) -> (r: &LiveGame)
        requires
            i < self@.len(),
        ensures
            r@ == self@[i as int],
    {
        &self.games[i]
    }

    /// Position of the session under (`salon_id`, `table_id`), if any.
    fn position(&self, salon_id: &str, table_id: &str) -> (r: Option<usize>)
        ensures
            match r {
                Some(i) => i < self@.len() && key_of(self@[i as int]) == (salon_id@, table_id@),
                None => !holds_key(self@, (salon_id@, table_id@)),
            },
    {
        let mut i: usize = 0;
        while i < self.games.len()
            invariant
                i <= self@.len(),
                self@.len() == self.games@.len(),
                forall|k: int| 0 <= k < i ==> #[trigger] key_of(self@[k]) != (salon_id@, table_id@),
            decreases self@.len() - i,
        {
            assert(self@[i as int] == self.games@[i as int]@);
            if same_text(self.games[i].salon_id.as_str(), salon_id) && same_text(
                self.games[i].table_id.as_str(),
                table_id,
            ) {
                return Some(i);
            }
            i = i + 1;
        }
        None
    }

    /// The session under (`salon_id`, `table_id`), if one runs there.
    pub fn lookup(&self, salon_id: &str, table_id: &str) -> (r: Option<&LiveGame>)
        requires
            self.well_formed(),
        ensures
            match r {
                Some(g) => holds_key(self@, (salon_id@, table_id@)) && g@ == self@[key_index(
                    self@,
                    (salon_id@, table_id@),
                )],
                None => !holds_key(self@, (salon_id@, table_id@)),
            },
    {
        match self.position(salon_id, table_id) {
            None => None,
            Some(i) => {
                proof {
                    let key = (salon_id@, table_id@);
                    let j = key_index(self@, key);
                    assert(0 <= j < self@.len() && key_of(self@[j]) == key);
                }
                Some(&self.games[i])
            },
        }
    }

    /// Registers a new session under its key. Fails with `AlreadyExists`,
    /// changing nothing, when a session already runs under that key.
    pub fn create(&mut self, game: LiveGame) -> (r: Result<(), GameError>)
        requires
            old(self).well_formed(),
            game.well_formed(),
        ensures
            final(self).well_formed(),
            match r {
                Ok(()) => !holds_key(old(self)@, key_of(game@)) && final(self)@ == old(self)@.push(game@),
                Err(e) => e == GameError::AlreadyExists && holds_key(old(self)@, key_of(game@))
                    && final(self)@ == old(self)@,
            },
    {
        if self.position(game.salon_id.as_str(), game.table_id.as_str()).is_some() {
            return Err(GameError::AlreadyExists);
        }
        let ghost g = game@;
        let ghost before = self@;
        self.games.push(game);
        proof {
            assert(self@ =~= before.push(g));
            assert forall|i: int, j: int|
                0 <= i < self@.len() && 0 <= j < self@.len() && i != j implies #[trigger] key_of(self@[i])
                    != #[trigger] key_of(self@[j]) by {
                if i == before.len() as int {
                    assert(key_of(before[j]) != key_of(g));
                } else if j == before.len() as int {
                    assert(key_of(before[i]) != key_of(g));
                }
            }
        }
        Ok(())
    }

    /// Sends `e` to the session under (`salon_id`, `table_id`). When the
    /// event completes the session, the session leaves the registry and its
    /// settlement is handed back, so a game is settled once; when it
    /// abandons the session, the session leaves the registry unsettled. Fails with
    /// `NotFound`, changing nothing, when no session runs under the key or
    /// the participant is not in it.
    pub fn apply(&mut self, salon_id: &str, table_id: &str, e: Event) -> (r: Result<
        (Progress, Option<Settlement>),
        GameError,
    >)
        requires
            old(self).well_formed(),
        ensures
            final(self).well_formed(),
            final(self)@ == registry_apply(old(self)@, (salon_id@, table_id@), e).0,
            match r {
                Ok((p, s)) => {
                    &&& registry_apply(old(self)@, (salon_id@, table_id@), e).1 == Ok::<
                        Progress,
                        GameError,
                    >(p)
                    &&& (s is Some <==> p == Progress::Completed)
                    &&& s is Some ==> settles(
                        s->0,
                        old(self)@[key_index(old(self)@, (salon_id@, table_id@))].apply(e).0,
                    )
                },
                Err(x) => registry_apply(old(self)@, (salon_id@, table_id@), e).1 == Err::<
                    Progress,
                    GameError,
                >(x),
            },
    {
        let ghost before = self@;
        let ghost key = (salon_id@, table_id@);
        let i = match self.position(salon_id, table_id) {
            None => return Err(GameError::NotFound),
            Some(i) => i,
        };
        proof {
            let j = key_index(before, key);
            assert(0 <= j < before.len() && key_of(before[j]) == key);
            assert(before[i as int] == self.games@[i as int]@);
        }
        let r = self.games[i].apply(e);
        proof {
            assert forall|a: int| 0 <= a < self@.len() && a != i implies self@[a] == before[a] by {
                assert(self@[a] == self.games@[a]@);
            }
            assert(self@ =~= before.update(i as int, before[i as int].apply(e).0));
            assert forall|a: int, b: int|
                0 <= a < self@.len() && 0 <= b < self@.len() && a != b implies #[trigger] key_of(self@[a])
                    != #[trigger] key_of(self@[b]) by {
                assert(key_of(self@[a]) == key_of(before[a]));
                assert(key_of(self@[b]) == key_of(before[b]));
            }
            assert forall|a: int| 0 <= a < self@.len() implies (#[trigger] self@[a]).well_formed() by {
                if a != i {
                    assert(self@[a] == before[a]);
                }
            }
        }
        match r {
            Err(x) => Err(x),
            Ok(p) if p == Progress::Completed || p == Progress::Abandoned => {
                let ghost mid = self@;
                let g = self.games.remove(i);
                proof {
                    assert(self@ =~= mid.remove(i as int));
                    assert(before.update(i as int, g@).remove(i as int) =~= before.remove(i as int));
                    assert forall|a: int, b: int|
                        0 <= a < self@.len() && 0 <= b < self@.len() && a != b implies #[trigger] key_of(self@[a])
                            != #[trigger] key_of(self@[b]) by {
                        let a0 = if a < i { a } else { a + 1 };
                        let b0 = if b < i { b } else { b + 1 };
                        assert(self@[a] == mid[a0]);
                        assert(self@[b] == mid[b0]);
                    }
                    assert forall|a: int| 0 <= a < self@.len() implies (#[trigger] self@[a]).well_formed() by {
                        let a0 = if a < i { a } else { a + 1 };
                        assert(self@[a] == mid[a0]);
                    }
                }
                if p == Progress::Completed {
                    let s = g.settlement();
                    Ok((p, Some(s)))
                } else {
                    Ok((p, None))
                }
            },
            Ok(p) => Ok((p, None)),
        }
    }

    /// Takes the session under (`salon_id`, `table_id`) out of the registry.
    pub fn remove(&mut self, salon_id: &str, table_id: &str) -> (r: Option<LiveGame>)
        requires
            old(self).well_formed(),
        ensures
            final(self).well_formed(),
            match r {
                Some(g) => holds_key(old(self)@, (salon_id@, table_id@)) && g@ == old(self)@[key_index(
                    old(self)@,
                    (salon_id@, table_id@),
                )] && final(self)@ == old(self)@.remove(
                    key_index(old(self)@, (salon_id@, table_id@)),
                ),
                None => !holds_key(old(self)@, (salon_id@, table_id@)) && final(self)@ == old(self)@,
            },
    {
        match self.position(salon_id, table_id) {
            None => None,
            Some(i) => {
                let ghost before = self@;
                proof {
                    let key = (salon_id@, table_id@);
                    let j = key_index(before, key);
                    assert(0 <= j < before.len() && key_of(before[j]) == key);
                }
                let g = self.games.remove(i);
                proof {
                    assert(self@ =~= before.remove(i as int));
                    assert forall|a: int, b: int|
                        0 <= a < self@.len() && 0 <= b < self@.len() && a != b implies #[trigger] key_of(self@[a])
                            != #[trigger] key_of(self@[b]) by {
                        let a0 = if a < i { a } else { a + 1 };
                        let b0 = if b < i { b } else { b + 1 };
                        assert(self@[a] == before[a0]);
                        assert(self@[b] == before[b0]);
                    }
                    assert forall|a: int| 0 <= a < self@.len() implies (#[trigger] self@[a]).well_formed() by {
                        let a0 = if a < i { a } else { a + 1 };
                        assert(self@[a] == before[a0]);
                    }
                }
                Some(g)
            },
        }
    }
}

} // verus!
