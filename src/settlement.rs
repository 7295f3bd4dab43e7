//! The one-time settlement of a finished game: placings, reputation
//! bonuses, the winner's payout and the result record.
use vstd::prelude::*;
use crate::text::same_text;
use crate::session::{
    has_player, is_winner, player_index, ranks_before, shows, GameState, GameView, LiveGame,
    PlayerState, PlayerView,
};

verus! {

/// One participant's line in a result record.
#[derive(Debug)]
pub struct PlayerResult {
    pub player_id: i64,
    pub rolls: Vec<i32>,
}

/// The record kept of a finished game.
#[derive(Debug)]
pub struct GameResult {
    pub game_id: String,
    pub winner_id: i64,
    pub players: Vec<PlayerResult>,
}

/// A reputation bonus owed to a participant, in percent of the reputation
/// points of each of its items.
#[derive(Clone, Copy, Debug, PartialEq, Eq, Structural)]
pub struct RewardGrant {
    pub player_id: i64,
    pub percent: i32,
}

/// Everything that settling a finished game asks of the outside stores:
/// the bonuses in placing order, the winner's payout, the record to keep,
/// and the table to clear.
#[derive(Debug)]
pub struct Settlement {
    pub result: GameResult,
    /// The final state of the table, for the last broadcast.
    pub standings: Vec<PlayerState>,
    pub rewards: Vec<RewardGrant>,
    pub payout: i32,
    pub salon_id: String,
    pub table_id: String,
}

/// Reputation bonus, in percent, for the participant placed at `rank`
/// (0 is the winner).
pub open spec fn reputation_percent(rank: int) -> int {
    if rank == 0 {
        20
    } else if rank == 1 {
        10
    } else if rank == 2 {
        5
    } else {
        1
    }
}

/// Reputation bonus, in percent, for the participant placed at `rank`.
pub fn reputation_bonus(rank: usize) -> (r: i32)
    ensures
        r == reputation_percent(rank as int),
{
    match rank {
        0 => 20,
        1 => 10,
        2 => 5,
        _ => 1,
    }
}

/// Entry stake of a room and the share of it, in percent, paid to the
/// winner. Unknown rooms are treated as room "1".
pub open spec fn stakes_of(salon_id: Seq<char>) -> (int, int) {
    if salon_id == "2"@ {
        (60, 85)
    } else if salon_id == "3"@ {
        (100, 90)
    } else if salon_id == "4"@ {
        (200, 95)
    } else if salon_id == "5"@ {
        (600, 98)
    } else {
        (20, 80)
    }
}

/// The amount credited to the winner of a game in room `salon_id`.
pub open spec fn payout_for(salon_id: Seq<char>) -> int {
    stakes_of(salon_id).0 * stakes_of(salon_id).1 / 100
}

/// Entry stake and winner's share, in percent, of the room `salon_id`.
pub fn room_stakes(salon_id: &str) -> (r: (i32, i32))
    ensures
        r.0 == stakes_of(salon_id@).0,
        r.1 == stakes_of(salon_id@).1,
{
    if same_text(salon_id, "2") {
        (60, 85)
    } else if same_text(salon_id, "3") {
        (100, 90)
    } else if same_text(salon_id, "4") {
        (200, 95)
    } else if same_text(salon_id, "5") {
        (600, 98)
    } else {
        (20, 80)
    }
}

/// The amount credited to the winner of a game in room `salon_id`.
pub fn winner_payout(salon_id: &str) -> (r: i32)
    ensures
        r == payout_for(salon_id@),
{
    let (bet, percent) = room_stakes(salon_id);
    bet * percent / 100
}

/// `a / b` rounded toward zero, for `b > 0`.
pub open spec fn div_toward_zero(a: int, b: int) -> int {
    if a >= 0 {
        a / b
    } else {
        -((-a) / b)
    }
}

/// Reputation points raised by `percent` percent, the increase rounded
/// toward zero.
pub open spec fn boosted(points: int, percent: int) -> int {
    points + div_toward_zero(points * percent, 100)
}

/// Reputation points raised by `percent` percent, the increase rounded
/// toward zero; `None` when the result does not fit in `i32`.
pub fn boost_points(points: i32, percent: i32) -> (r: Option<i32>)
    ensures
        match r {
            Some(v) => v == boosted(points as int, percent as int),
            None => !(i32::MIN <= boosted(points as int, percent as int) <= i32::MAX),
        },
{
    assert(-0x4000_0000_0000_0000 <= points as int * percent as int <= 0x4000_0000_0000_0000)
        by (nonlinear_arith)
        requires
            -0x8000_0000 <= points <= 0x7fff_ffff,
            -0x8000_0000 <= percent <= 0x7fff_ffff,
    ;
    let product: i64 = points as i64 * percent as i64;
    let increase: i64 = if product >= 0 {
        product / 100
    } else {
        -((-product) / 100)
    };
    let v: i64 = points as i64 + increase;
    if v < i32::MIN as i64 || v > i32::MAX as i64 {
        None
    } else {
        Some(v as i32)
    }
}

/// The participant with id `id`.
pub open spec fn player_of(ps: Seq<PlayerView>, id: i64) -> PlayerView {
    ps[player_index(ps, id)]
}

/// `rewards` grants each participant, best placing first, the bonus of its
/// placing.
pub open spec fn rewards_by_placing(ps: Seq<PlayerView>, rewards: Seq<RewardGrant>) -> bool {
    &&& rewards.len() == ps.len()
    &&& forall|k: int|
        0 <= k < rewards.len() ==> has_player(ps, #[trigger] rewards[k].player_id)
            && rewards[k].percent == reputation_percent(k)
    &&& forall|k: int, l: int|
        0 <= k < l < rewards.len() ==> ranks_before(
            player_of(ps, #[trigger] rewards[k].player_id),
            player_of(ps, #[trigger] rewards[l].player_id),
        )
}

/// `result` records game `g` won by `winner`, with every participant's rolls.
pub open spec fn records(result: GameResult, g: GameView, winner: i64) -> bool {
    &&& result.game_id@ == g.game_id
    &&& result.winner_id == winner
    &&& result.players@.len() == g.players.len()
    &&& forall|k: int|
        0 <= k < g.players.len() ==> (#[trigger] result.players@[k]).player_id
            == g.players[k].player_id && result.players@[k].rolls@ == g.players[k].rolls
}

/// `s` is what settling the finished game `g` asks for.
pub open spec fn settles(s: Settlement, g: GameView) -> bool {
    &&& is_winner(g.players, s.result.winner_id)
    &&& records(s.result, g, s.result.winner_id)
    &&& shows(s.standings@, g.players)
    &&& rewards_by_placing(g.players, s.rewards@)
    &&& s.payout == payout_for(g.salon_id)
    &&& s.salon_id@ == g.salon_id
    &&& s.table_id@ == g.table_id
}

impl LiveGame {
    /// The record of this game, won by `winner_id`.
    pub fn result_record(&self, winner_id: i64) -> (r: GameResult)
        ensures
            records(r, self@, winner_id),
    {
        let mut players: Vec<PlayerResult> = Vec::new();
        let mut i: usize = 0;
        while i < self.players.len()
            invariant
                i <= self.players@.len(),
                players@.len() == i,
                forall|k: int|
                    0 <= k < i ==> (#[trigger] players@[k]).player_id == self@.players[k].player_id
                        && players@[k].rolls@ == self@.players[k].rolls,
            decreases self.players@.len() - i,
        {
            let rolls = self.players[i].rolls.clone();
            proof {
                assert(rolls@ =~= self.players@[i as int].rolls@);
            }
            players.push(PlayerResult { player_id: self.players[i].player_id, rolls });
            i = i + 1;
        }
        GameResult { game_id: self.game_id.clone(), winner_id, players }
    }

    /// What settling this finished game asks for: every participant's bonus
    /// by placing, the winner's payout for the room, and the result record.
    pub fn settlement(&self) -> (r: Settlement)
        requires
            self.well_formed(),
            self.state == GameState::Completed,
        ensures
            settles(r, self@),
    {
        let order = self.rank_players();
        let ghost ps = self@.players;
        let mut rewards: Vec<RewardGrant> = Vec::new();
        let mut k: usize = 0;
        while k < order.len()
            invariant
                self.well_formed(),
                ps == self@.players,
                order@.len() == ps.len(),
                forall|m: int| 0 <= m < order@.len() ==> #[trigger] order@[m] < ps.len(),
                k <= order@.len(),
                rewards@.len() == k,
                forall|m: int|
                    0 <= m < k ==> (#[trigger] rewards@[m]).player_id == ps[order@[m] as int].player_id
                        && rewards@[m].percent == reputation_percent(m),
            decreases order@.len() - k,
        {
            let p = order[k];
            assert(ps[p as int] == self.players@[p as int]@);
            rewards.push(RewardGrant { player_id: self.players[p].player_id, percent: reputation_bonus(k) });
            k = k + 1;
        }
        proof {
            assert forall|m: int| 0 <= m < rewards@.len() implies player_of(ps, #[trigger] rewards@[m].player_id)
                == ps[order@[m] as int] && has_player(ps, rewards@[m].player_id) by {
                let o = order@[m] as int;
                assert(ps[o].player_id == rewards@[m].player_id);
                let j = player_index(ps, rewards@[m].player_id);
                assert(0 <= j < ps.len() && ps[j].player_id == rewards@[m].player_id);
            }
            assert forall|a: int, b: int| 0 <= a < b < rewards@.len() implies ranks_before(
                player_of(ps, #[trigger] rewards@[a].player_id),
                player_of(ps, #[trigger] rewards@[b].player_id),
            ) by {
                assert(player_of(ps, rewards@[a].player_id) == ps[order@[a] as int]);
                assert(player_of(ps, rewards@[b].player_id) == ps[order@[b] as int]);
            }
        }
        let winner = self.winner_id();
        let result = self.result_record(winner);
        let payout = winner_payout(self.salon_id.as_str());
        let standings = self.snapshot();
        Settlement {
            result,
            standings,
            rewards,
            payout,
            salon_id: self.salon_id.clone(),
            table_id: self.table_id.clone(),
        }
    }
}

} // verus!
