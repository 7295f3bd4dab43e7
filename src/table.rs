//! Rooms and tables as the directory holds them: who is seated where.
use vstd::prelude::*;
use crate::session::{new_game_id, started_game, valid_roster, GameError, GameState, LiveGame, BOT_MAX_ROLLS};

verus! {

/// A participant seated at a table.
#[derive(Debug)]
pub struct Player {
    pub player_id: i64,
    pub is_active: bool,
    pub has_paid: bool,
    pub dice_rolls: Vec<i32>,
}

/// A table of a room and the participants seated at it.
#[derive(Debug)]
pub struct Table {
    pub table_id: i32,
    pub players: Vec<Player>,
    pub bet_amount: i32,
    pub game_state: GameState,
}

/// A room: a tier of stakes and its tables.
#[derive(Debug)]
pub struct Salon {
    pub salon_id: i32,
    pub name: String,
    pub entry_fee: i32,
    pub tables: Vec<Table>,
    pub created_at: i64,
}

/// The ids of seated participants, in order.
pub open spec fn ids_of(ps: Seq<Player>) -> Seq<i64> {
    ps.map_values(|p: Player| p.player_id)
}

/// The ids of the participants seated at `t`, in order.
pub open spec fn seated_ids(t: Table) -> Seq<i64> {
    ids_of(t.players@)
}

pub open spec fn has_table(s: Salon, table_id: i32) -> bool {
    exists|i: int| 0 <= i < s.tables@.len() && #[trigger] s.tables@[i].table_id == table_id
}

/// A table is left as it was in everything but its seated participants.
pub open spec fn same_table_but_seats(a: Table, b: Table) -> bool {
    a.table_id == b.table_id && a.bet_amount == b.bet_amount && a.game_state == b.game_state
}

/// A room is left as it was in everything but its tables.
pub open spec fn same_salon_but_tables(a: Salon, b: Salon) -> bool {
    &&& a.salon_id == b.salon_id
    &&& a.name == b.name
    &&& a.entry_fee == b.entry_fee
    &&& a.created_at == b.created_at
    &&& a.tables@.len() == b.tables@.len()
}

impl Table {
    /// The ids of the seated participants, in order.
    pub fn seated_ids(&self) -> (r: Vec<i64>)
        ensures
            r@ == seated_ids(*self),
    {
        let mut r: Vec<i64> = Vec::new();
        let mut i: usize = 0;
        while i < self.players.len()
            invariant
                i <= self.players@.len(),
                r@.len() == i,
                forall|k: int| 0 <= k < i ==> #[trigger] r@[k] == self.players@[k].player_id,
            decreases self.players@.len() - i,
        {
            r.push(self.players[i].player_id);
            i = i + 1;
        }
        assert(r@ =~= seated_ids(*self));
        r
    }

    /// Unseats everybody, so that a new game can start at the table.
    pub fn clear_players(&mut self)
        ensures
            final(self).players@.len() == 0,
            same_table_but_seats(*final(self), *old(self)),
    {
        self.players = Vec::new();
    }

    /// Unseats the participant `player_id`, wherever it sits.
    pub fn remove_player(&mut self, player_id: i64)
        ensures
            same_table_but_seats(*final(self), *old(self)),
            seated_ids(*final(self)) == seated_ids(*old(self)).filter(|id: i64| id != player_id),
    {
        let ghost all = self.players@;
        let mut i: usize = 0;
        let ghost mut j: int = 0;
        while i < self.players.len()
            invariant
                self.table_id == old(self).table_id,
                self.bet_amount == old(self).bet_amount,
                self.game_state == old(self).game_state,
                all == old(self).players@,
                0 <= i <= self.players@.len(),
                0 <= j <= all.len(),
                self.players@.len() - i == all.len() - j,
                self.players@.subrange(i as int, self.players@.len() as int) == all.subrange(j, all.len() as int),
                ids_of(self.players@.subrange(0, i as int)) == ids_of(all.subrange(0, j)).filter(
                    |id: i64| id != player_id,
                ),
            decreases self.players@.len() - i,
        {
            let ghost ps = self.players@;
            let ghost p = ps[i as int];
            proof {
                assert(ps.subrange(i as int, ps.len() as int)[0] == p);
                assert(all.subrange(j, all.len() as int)[0] == all[j]);
                assert(p == all[j]);
                assert(ids_of(all.subrange(0, j + 1)) =~= ids_of(all.subrange(0, j)).push(p.player_id));
                ids_of(all.subrange(0, j)).lemma_filter_push(p.player_id, |id: i64| id != player_id);
            }
            if self.players[i].player_id == player_id {
                self.players.remove(i);
                proof {
                    assert(self.players@.subrange(0, i as int) =~= ps.subrange(0, i as int));
                    assert forall|k: int| 0 <= k < self.players@.len() - i implies #[trigger] self.players@.subrange(
                        i as int,
                        self.players@.len() as int,
                    )[k] == all.subrange(j + 1, all.len() as int)[k] by {
                        assert(ps.subrange(i as int, ps.len() as int)[k + 1] == all.subrange(j, all.len() as int)[k + 1]);
                    }
                    assert(self.players@.subrange(i as int, self.players@.len() as int) =~= all.subrange(
                        j + 1,
                        all.len() as int,
                    ));
                }
            } else {
                proof {
                    assert(ids_of(ps.subrange(0, i + 1)) =~= ids_of(ps.subrange(0, i as int)).push(p.player_id));
                    assert forall|k: int| 0 <= k < ps.len() - i - 1 implies #[trigger] ps.subrange(i + 1, ps.len() as int)[k]
                        == all.subrange(j + 1, all.len() as int)[k] by {
                        assert(ps.subrange(i as int, ps.len() as int)[k + 1] == all.subrange(j, all.len() as int)[k + 1]);
                    }
                    assert(ps.subrange(i + 1, ps.len() as int) =~= all.subrange(j + 1, all.len() as int));
                }
                i = i + 1;
            }
            proof {
                j = j + 1;
            }
        }
        proof {
            assert(self.players@.subrange(0, i as int) =~= self.players@);
            assert(all.subrange(0, j) =~= all);
            assert(seated_ids(*self) =~= ids_of(self.players@));
            assert(seated_ids(*old(self)) =~= ids_of(all));
        }
    }
}

/// The smallest number of seated participants a listed table keeps.
pub const MIN_LISTED_PLAYERS: usize = 4;

impl Salon {
    /// Position of the table `table_id`, if the room has one.
    pub fn find_table(&self, table_id: i32) -> (r: Option<usize>)
        ensures
            match r {
                Some(i) => i < self.tables@.len() && self.tables@[i as int].table_id == table_id,
                None => !has_table(*self, table_id),
            },
    {
        let mut i: usize = 0;
        while i < self.tables.len()
            invariant
                i <= self.tables@.len(),
                forall|k: int| 0 <= k < i ==> #[trigger] self.tables@[k].table_id != table_id,
            decreases self.tables@.len() - i,
        {
            if self.tables[i].table_id == table_id {
                return Some(i);
            }
            i = i + 1;
        }
        None
    }

    /// Unseats everybody at the table `table_id`, once its game is over.
    /// Fails with `NotFound`, changing nothing, when the room has no such
    /// table.
    pub fn clear_seated_players(&mut self, table_id: i32) -> (r: Result<(), GameError>)
        ensures
            same_salon_but_tables(*final(self), *old(self)),
            match r {
                Ok(()) => has_table(*old(self), table_id) && forall|k: int|
                    0 <= k < old(self).tables@.len() ==> same_table_but_seats(
                        #[trigger] final(self).tables@[k],
                        old(self).tables@[k],
                    ) && (if old(self).tables@[k].table_id == table_id {
                        final(self).tables@[k].players@.len() == 0
                    } else {
                        final(self).tables@[k] == old(self).tables@[k]
                    }),
                Err(e) => e == GameError::NotFound && !has_table(*old(self), table_id) 
                    && final(self).tables@ == old(self).tables@,
            },
    {
        let ghost before = self.tables@;
        let mut i: usize = 0;
        let mut found = false;
        while i < self.tables.len()
            invariant
                self.salon_id == old(self).salon_id,
                self.name == old(self).name,
                self.entry_fee == old(self).entry_fee,
                self.created_at == old(self).created_at,
                before == old(self).tables@,
                self.tables@.len() == before.len(),
                i <= before.len(),
                found <==> exists|k: int| 0 <= k < i && #[trigger] before[k].table_id == table_id,
                forall|k: int|
                    0 <= k < before.len() ==> same_table_but_seats(#[trigger] self.tables@[k], before[k]),
                forall|k: int|
                    0 <= k < before.len() ==> (if k < i && before[k].table_id == table_id {
                        (#[trigger] self.tables@[k]).players@.len() == 0
                    } else {
                        self.tables@[k] == before[k]
                    }),
            decreases before.len() - i,
        {
            if self.tables[i].table_id == table_id {
                self.tables[i].clear_players();
                found = true;
            }
            i = i + 1;
        }
        if !found {
            proof {
                assert(self.tables@ =~= before);
            }
            return Err(GameError::NotFound);
        }
        Ok(())
    }

    /// Unseats the participant `player_id` from every table of the room.
    pub fn remove_player(&mut self, player_id: i64)
        ensures
            same_salon_but_tables(*final(self), *old(self)),
            forall|k: int|
                0 <= k < old(self).tables@.len() ==> same_table_but_seats(
                    #[trigger] final(self).tables@[k],
                    old(self).tables@[k],
                ) && seated_ids(final(self).tables@[k]) == seated_ids(old(self).tables@[k]).filter(
                    |id: i64| id != player_id,
                ),
    {
        let ghost before = self.tables@;
        let mut i: usize = 0;
        while i < self.tables.len()
            invariant
                self.salon_id == old(self).salon_id,
                self.name == old(self).name,
                self.entry_fee == old(self).entry_fee,
                self.created_at == old(self).created_at,
                before == old(self).tables@,
                self.tables@.len() == before.len(),
                i <= before.len(),
                forall|k: int|
                    0 <= k < before.len() ==> same_table_but_seats(#[trigger] self.tables@[k], before[k]),
                forall|k: int|
                    0 <= k < before.len() ==> (if k < i {
                        seated_ids(#[trigger] self.tables@[k]) == seated_ids(before[k]).filter(
                            |id: i64| id != player_id,
                        )
                    } else {
                        self.tables@[k] == before[k]
                    }),
            decreases before.len() - i,
        {
            self.tables[i].remove_player(player_id);
            i = i + 1;
        }
    }

    /// Unseats everybody at tables where fewer than [`MIN_LISTED_PLAYERS`]
    /// participants sit, before the room is listed.
    pub fn clear_underfilled_tables(&mut self)
        ensures
            same_salon_but_tables(*final(self), *old(self)),
            forall|k: int|
                0 <= k < old(self).tables@.len() ==> same_table_but_seats(
                    #[trigger] final(self).tables@[k],
                    old(self).tables@[k],
                ) && (if old(self).tables@[k].players@.len() < MIN_LISTED_PLAYERS {
                    final(self).tables@[k].players@.len() == 0
                } else {
                    final(self).tables@[k] == old(self).tables@[k]
                }),
    {
        let ghost before = self.tables@;
        let mut i: usize = 0;
        while i < self.tables.len()
            invariant
                self.salon_id == old(self).salon_id,
                self.name == old(self).name,
                self.entry_fee == old(self).entry_fee,
                self.created_at == old(self).created_at,
                before == old(self).tables@,
                self.tables@.len() == before.len(),
                i <= before.len(),
                forall|k: int|
                    0 <= k < before.len() ==> same_table_but_seats(#[trigger] self.tables@[k], before[k]),
                forall|k: int|
                    0 <= k < before.len() ==> (if k < i && before[k].players@.len() < MIN_LISTED_PLAYERS {
                        (#[trigger] self.tables@[k]).players@.len() == 0
                    } else {
                        self.tables@[k] == before[k]
                    }),
            decreases before.len() - i,
        {
            if self.tables[i].players.len() < MIN_LISTED_PLAYERS {
                self.tables[i].clear_players();
            }
            i = i + 1;
        }
    }
}

/// Starts a game with bots at the table `table_id` of `salon`, between the
/// participants seated there, under a fresh random id and with the round
/// limit of games with bots. The session is keyed by `salon_key` and
/// `table_key`. Fails with `NotFound` when the room has no such table and
/// with `InvalidCommand` when nobody, or somebody twice, is seated there.
pub fn start_bot_game(salon: &Salon, table_id: i32, salon_key: String, table_key: String) -> (r: Result<
    LiveGame,
    GameError,
>)
    ensures
        match r {
            Ok(g) => exists|k: int|
                0 <= k < salon.tables@.len() && #[trigger] salon.tables@[k].table_id == table_id
                    && valid_roster(seated_ids(salon.tables@[k])) && g@ == started_game(
                    g@.game_id,
                    seated_ids(salon.tables@[k]),
                    salon_key@,
                    table_key@,
                    BOT_MAX_ROLLS as nat,
                ) && g@.game_id.len() == 36 && g.well_formed(),
            Err(e) => (e == GameError::NotFound && !has_table(*salon, table_id)) || (e
                == GameError::InvalidCommand && exists|k: int|
                0 <= k < salon.tables@.len() && #[trigger] salon.tables@[k].table_id == table_id
                    && !valid_roster(seated_ids(salon.tables@[k]))),
        },
{
    let i = match salon.find_table(table_id) {
        None => return Err(GameError::NotFound),
        Some(i) => i,
    };
    let ids = salon.tables[i].seated_ids();
    let game_id = new_game_id();
    LiveGame::start(game_id, ids, salon_key, table_key, BOT_MAX_ROLLS)
}

} // verus!
