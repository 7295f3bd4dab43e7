//! Inbound frames and the commands they stand for.
use vstd::prelude::*;
use crate::session::{GameError, Player};
use crate::text::same_text;

verus! {

/// An inbound frame as sent by a client; the fields that an action does not
/// use may be absent.
#[derive(Debug)]
pub struct CommandMessage {
    pub action: String,
    pub player_id: Option<i64>,
    pub roll: Option<i32>,
    pub players: Option<Vec<Player>>,
    pub salon_id: Option<String>,
    pub table_id: Option<String>,
    /// Rolls made on behalf of bots seated at the table, as (id, value).
    pub bot_rolls: Option<Vec<(i64, i32)>>,
}

/// A decoded command.
#[derive(Debug)]
pub enum Command {
    StartGame { players: Vec<i64>, salon_id: String, table_id: String },
    /// Ties the connection to a running session, speaking for a participant.
    Join { player_id: i64, salon_id: String, table_id: String },
    RollDice { player_id: i64, roll: i32, bot_rolls: Vec<(i64, i32)> },
    Disconnect,
}

pub open spec fn is_start(m: CommandMessage) -> bool {
    m.action@ == "start_game"@ && m.players is Some && m.salon_id is Some && m.table_id is Some
}

pub open spec fn is_roll(m: CommandMessage) -> bool {
    m.action@ == "roll_dice"@ && m.player_id is Some && m.roll is Some
}

pub open spec fn is_join(m: CommandMessage) -> bool {
    m.action@ == "join_game"@ && m.player_id is Some && m.salon_id is Some && m.table_id is Some
}

pub open spec fn is_disconnect(m: CommandMessage) -> bool {
    m.action@ == "disconnect"@
}

impl Command {
    /// Turns a frame into a command. Fails with `InvalidCommand` on an
    /// unknown action or when a field the action needs is absent.
    pub fn decode(m: CommandMessage) -> (r: Result<Command, GameError>)
        ensures
            match r {
                Ok(Command::StartGame { players, salon_id, table_id }) => {
                    &&& is_start(m)
                    &&& players@ == m.players->0@.map_values(|p: Player| p.player_id)
                    &&& salon_id@ == m.salon_id->0@
                    &&& table_id@ == m.table_id->0@
                },
                Ok(Command::Join { player_id, salon_id, table_id }) => {
                    &&& !is_start(m) && is_join(m)
                    &&& player_id == m.player_id->0
                    &&& salon_id@ == m.salon_id->0@
                    &&& table_id@ == m.table_id->0@
                },
                Ok(Command::RollDice { player_id, roll, bot_rolls }) => {
                    &&& !is_start(m) && !is_join(m) && is_roll(m)
                    &&& player_id == m.player_id->0
                    &&& roll == m.roll->0
                    &&& bot_rolls@ == match m.bot_rolls {
                        Some(b) => b@,
                        None => Seq::empty(),
                    }
                },
                Ok(Command::Disconnect) => !is_start(m) && !is_join(m) && !is_roll(m) && is_disconnect(m),
                Err(e) => e == GameError::InvalidCommand && !is_start(m) && !is_join(m) && !is_roll(
                    m,
                ) && !is_disconnect(m),
            },
    {
        let ghost m0 = m;
        let CommandMessage { action, player_id, roll, players, salon_id, table_id, bot_rolls } = m;
        if same_text(action.as_str(), "start_game") && players.is_some() && salon_id.is_some()
            && table_id.is_some() {
            {
                let players = players.unwrap();
                let salon_id = salon_id.unwrap();
                let table_id = table_id.unwrap();
                let mut ids: Vec<i64> = Vec::new();
                let mut i: usize = 0;
                while i < players.len()
                    invariant
                        i <= players@.len(),
                        ids@.len() == i,
                        forall|k: int| 0 <= k < i ==> #[trigger] ids@[k] == players@[k].player_id,
                    decreases players@.len() - i,
                {
                    ids.push(players[i].player_id);
                    i = i + 1;
                }
                proof {
                    assert(ids@ =~= players@.map_values(|p: Player| p.player_id));
                }
                return Ok(Command::StartGame { players: ids, salon_id, table_id });
            }
        }
        if same_text(action.as_str(), "join_game") && player_id.is_some() && salon_id.is_some()
            && table_id.is_some() {
            return Ok(
                Command::Join {
                    player_id: player_id.unwrap(),
                    salon_id: salon_id.unwrap(),
                    table_id: table_id.unwrap(),
                },
            );
        }
        if same_text(action.as_str(), "roll_dice") {
            if let (Some(player_id), Some(roll)) = (player_id, roll) {
                let bot_rolls = match bot_rolls {
                    Some(b) => b,
                    None => Vec::new(),
                };
                return Ok(Command::RollDice { player_id, roll, bot_rolls });
            }
        }
        if same_text(action.as_str(), "disconnect") {
            return Ok(Command::Disconnect);
        }
        Err(GameError::InvalidCommand)
    }
}

} // verus!
