use dice_arena::command::{Command, CommandMessage};
use dice_arena::gateway::{Connection, GameServer, Outbound};
use dice_arena::session::{GameError, GameState, Player, BOT_MAX_ROLLS, MAX_ROLLS};
use dice_arena::table::{Player as SeatedPlayer, Salon, Table};

fn start(players: Vec<i64>, salon: &str, table: &str) -> Command {
    Command::StartGame { players, salon_id: salon.to_string(), table_id: table.to_string() }
}

fn roll(player_id: i64, roll: i32) -> Command {
    Command::RollDice { player_id, roll, bot_rolls: vec![] }
}

fn join(server: &mut GameServer, player_id: i64, salon: &str, table: &str) -> Connection {
    let mut c = Connection::new();
    let cmd = Command::Join { player_id, salon_id: salon.to_string(), table_id: table.to_string() };
    server.handle_command(&mut c, cmd, 0).unwrap();
    c
}

fn seat_of(c: &Connection) -> Option<(String, String)> {
    c.seat.as_ref().map(|s| (s.salon_id.clone(), s.table_id.clone()))
}

fn message(action: &str) -> CommandMessage {
    CommandMessage {
        action: action.to_string(),
        player_id: None,
        roll: None,
        players: None,
        salon_id: None,
        table_id: None,
        bot_rolls: None,
    }
}

#[test]
fn start_registers_and_announces() {
    let mut server = GameServer::new(MAX_ROLLS);
    let mut conn = Connection::new();
    let frames = server.handle_command(&mut conn, start(vec![1, 2], "1", "2"), 0).unwrap();
    assert_eq!(frames.len(), 1);
    let id = match &frames[0] {
        Outbound::GameStarted { game_id } => game_id.clone(),
        other => panic!("unexpected frame {:?}", other),
    };
    assert_eq!(id.len(), 36);
    assert_eq!(server.registry.lookup("1", "2").unwrap().game_id, id);
    assert_eq!(seat_of(&conn), Some(("1".to_string(), "2".to_string())));
    assert_eq!(conn.seat.as_ref().unwrap().game_id, id);
}

#[test]
fn second_start_on_same_table_is_rejected() {
    let mut server = GameServer::new(MAX_ROLLS);
    let mut a = Connection::new();
    let mut b = Connection::new();
    server.handle_command(&mut a, start(vec![1, 2], "1", "2"), 0).unwrap();
    let err = server.handle_command(&mut b, start(vec![3, 4], "1", "2"), 0).unwrap_err();
    assert_eq!(err, GameError::AlreadyExists);
    assert_eq!(server.registry.len(), 1);
    assert!(b.seat.is_none());
}

#[test]
fn start_with_empty_roster_is_invalid() {
    let mut server = GameServer::new(MAX_ROLLS);
    let mut a = Connection::new();
    assert_eq!(server.handle_command(&mut a, start(vec![], "1", "2"), 0).unwrap_err(), GameError::InvalidCommand);
    assert_eq!(server.registry.len(), 0);
}

#[test]
fn roll_without_table_is_not_found() {
    let mut server = GameServer::new(MAX_ROLLS);
    let mut a = Connection::new();
    assert_eq!(server.handle_command(&mut a, roll(1, 3), 0).unwrap_err(), GameError::NotFound);
    assert!(a.players.is_empty());
}

#[test]
fn roll_for_unknown_session_or_participant_is_not_found() {
    let mut server = GameServer::new(MAX_ROLLS);
    let mut a = Connection::new();
    server.handle_command(&mut a, start(vec![1, 2], "1", "2"), 0).unwrap();
    server.handle_command(&mut a, roll(1, 4), 0).unwrap();
    let mut stray = Connection::new();
    assert_eq!(server.handle_command(&mut stray, roll(1, 3), 0).unwrap_err(), GameError::NotFound);
    assert_eq!(server.handle_command(&mut a, roll(77, 3), 0).unwrap_err(), GameError::NotFound);
    let g = server.registry.lookup("1", "2").unwrap();
    assert_eq!(g.players[0].rolls, vec![4]);
    assert!(g.players[1].rolls.is_empty());
}

#[test]
fn roll_is_acknowledged_and_broadcast() {
    let mut server = GameServer::new(MAX_ROLLS);
    let mut a = Connection::new();
    server.handle_command(&mut a, start(vec![1, 2], "1", "2"), 0).unwrap();
    let frames = server.handle_command(&mut a, roll(1, 4), 10).unwrap();
    assert_eq!(frames.len(), 2);
    assert!(matches!(frames[0], Outbound::RollAcknowledged { player_id: 1, roll: 4 }));
    match &frames[1] {
        Outbound::RollUpdate { players, .. } => {
            assert_eq!(players[0].rolls, vec![4]);
            assert_eq!(players[0].total_roll, 4);
        }
        other => panic!("unexpected frame {:?}", other),
    }
    assert_eq!(server.registry.lookup("1", "2").unwrap().players[0].last_roll_time, Some(10));
}

#[test]
fn disconnect_forfeit_scenario_settles_with_full_records() {
    let mut server = GameServer::new(5);
    let mut c1 = Connection::new();
    server.handle_command(&mut c1, start(vec![1, 2], "1", "2"), 0).unwrap();
    let mut c2 = join(&mut server, 2, "1", "2");
    for v in [6, 5, 4, 3, 2] {
        let frames = server.handle_command(&mut c1, roll(1, v), 0).unwrap();
        assert!(!matches!(frames.last(), Some(Outbound::Settle(_))));
    }
    for v in [1, 2] {
        server.handle_command(&mut c2, roll(2, v), 0).unwrap();
    }
    let frames = server.handle_command(&mut c2, Command::Disconnect, 0).unwrap();
    let settlement = match frames.last() {
        Some(Outbound::Settle(s)) => s,
        other => panic!("expected a settlement, got {:?}", other),
    };
    assert_eq!(settlement.result.players.len(), 2);
    assert_eq!(settlement.result.players[0].rolls, vec![6, 5, 4, 3, 2]);
    assert_eq!(settlement.result.players[1].rolls, vec![1, 2, 0, 0, 0]);
    assert_eq!(settlement.result.winner_id, 1);
    assert!(frames.iter().any(|f| matches!(f, Outbound::WinnerAnnounced { winner_id: 1 })));
    assert!(server.registry.lookup("1", "2").is_none());
}

#[test]
fn racing_completions_settle_once() {
    let mut server = GameServer::new(1);
    let mut a = Connection::new();
    server.handle_command(&mut a, start(vec![1, 2], "1", "2"), 0).unwrap();
    let mut b = join(&mut server, 2, "1", "2");
    server.handle_command(&mut a, roll(1, 3), 0).unwrap();
    let first = server.handle_command(&mut b, roll(2, 5), 0).unwrap();
    let second = server.handle_command(&mut a, Command::Disconnect, 0).unwrap();
    let third = server.handle_command(&mut b, roll(2, 5), 0);
    let settles = first.iter().chain(second.iter()).filter(|f| matches!(f, Outbound::Settle(_))).count();
    assert_eq!(settles, 1);
    assert_eq!(third.unwrap_err(), GameError::NotFound);
}

#[test]
fn bot_rolls_follow_the_player_roll() {
    let mut server = GameServer::new(2);
    let mut a = Connection::new();
    server.handle_command(&mut a, start(vec![1, 100, 101], "1", "2"), 0).unwrap();
    let cmd = Command::RollDice { player_id: 1, roll: 3, bot_rolls: vec![(100, 4), (101, 6), (555, 1)] };
    server.handle_command(&mut a, cmd, 0).unwrap();
    let g = server.registry.lookup("1", "2").unwrap();
    assert_eq!(g.players[1].rolls, vec![4]);
    assert_eq!(g.players[2].rolls, vec![6]);
    let cmd = Command::RollDice { player_id: 1, roll: 3, bot_rolls: vec![(100, 4), (101, 6)] };
    let frames = server.handle_command(&mut a, cmd, 0).unwrap();
    match frames.last() {
        Some(Outbound::Settle(s)) => assert_eq!(s.result.winner_id, 101),
        other => panic!("expected a settlement, got {:?}", other),
    }
}

#[test]
fn starter_leaving_before_anyone_rolls_abandons_the_table() {
    let mut server = GameServer::new(MAX_ROLLS);
    let mut a = Connection::new();
    server.handle_command(&mut a, start(vec![1, 2], "1", "2"), 0).unwrap();
    let frames = server.handle_command(&mut a, Command::Disconnect, 0).unwrap();
    assert_eq!(frames.len(), 1);
    match &frames[0] {
        Outbound::Abandoned { salon_id, table_id } => assert_eq!((salon_id.as_str(), table_id.as_str()), ("1", "2")),
        other => panic!("unexpected frame {:?}", other),
    }
    assert!(server.registry.lookup("1", "2").is_none());
    let mut b = Connection::new();
    assert!(server.handle_command(&mut b, start(vec![3, 4], "1", "2"), 0).is_ok());
}

#[test]
fn session_survives_while_a_joined_connection_remains() {
    let mut server = GameServer::new(MAX_ROLLS);
    let mut a = Connection::new();
    server.handle_command(&mut a, start(vec![1, 2], "1", "2"), 0).unwrap();
    let mut p1 = join(&mut server, 1, "1", "2");
    server.handle_command(&mut a, Command::Disconnect, 0).unwrap();
    let g = server.registry.lookup("1", "2").unwrap();
    assert_eq!(g.connections, 1);
    assert!(g.players.iter().all(|p| p.is_active));
    server.handle_command(&mut p1, roll(1, 4), 0).unwrap();
    let frames = server.handle_command(&mut p1, Command::Disconnect, 0).unwrap();
    assert!(matches!(frames.last(), Some(Outbound::Abandoned { .. })));
    assert!(server.registry.lookup("1", "2").is_none());
}

#[test]
fn leaving_forfeits_everyone_the_connection_spoke_for() {
    let mut server = GameServer::new(3);
    let mut a = Connection::new();
    server.handle_command(&mut a, start(vec![1, 2, 3], "1", "2"), 0).unwrap();
    let mut other = join(&mut server, 3, "1", "2");
    server.handle_command(&mut a, roll(1, 6), 0).unwrap();
    server.handle_command(&mut a, roll(2, 5), 0).unwrap();
    assert_eq!(a.players, vec![1, 2]);
    server.handle_command(&mut a, Command::Disconnect, 0).unwrap();
    let g = server.registry.lookup("1", "2").unwrap();
    assert_eq!(g.players[0].rolls, vec![6, 0, 0]);
    assert_eq!(g.players[1].rolls, vec![5, 0, 0]);
    assert!(!g.players[0].is_active && !g.players[1].is_active);
    assert!(g.players[2].is_active);
    server.handle_command(&mut other, roll(3, 1), 0).unwrap();
    server.handle_command(&mut other, roll(3, 1), 0).unwrap();
    let frames = server.handle_command(&mut other, roll(3, 1), 0).unwrap();
    match frames.last() {
        Some(Outbound::Settle(s)) => assert_eq!(s.result.winner_id, 1),
        other => panic!("expected a settlement, got {:?}", other),
    }
}

#[test]
fn join_errors() {
    let mut server = GameServer::new(MAX_ROLLS);
    let mut a = Connection::new();
    server.handle_command(&mut a, start(vec![1, 2], "1", "2"), 0).unwrap();
    let mut c = Connection::new();
    server.handle_command(&mut c, start(vec![5], "1", "3"), 0).unwrap();
    let mut b = Connection::new();
    let nobody = Command::Join { player_id: 9, salon_id: "1".to_string(), table_id: "2".to_string() };
    assert_eq!(server.handle_command(&mut b, nobody, 0).unwrap_err(), GameError::NotFound);
    let nowhere = Command::Join { player_id: 1, salon_id: "7".to_string(), table_id: "7".to_string() };
    assert_eq!(server.handle_command(&mut b, nowhere, 0).unwrap_err(), GameError::NotFound);
    assert!(b.seat.is_none());
    let elsewhere = Command::Join { player_id: 1, salon_id: "1".to_string(), table_id: "2".to_string() };
    assert_eq!(server.handle_command(&mut c, elsewhere, 0).unwrap_err(), GameError::InvalidCommand);
    let frames = server.handle_command(&mut b, Command::Join { player_id: 1, salon_id: "1".to_string(), table_id: "2".to_string() }, 0).unwrap();
    assert!(matches!(frames[0], Outbound::RollUpdate { .. }));
    assert_eq!(server.registry.lookup("1", "2").unwrap().connections, 2);
    assert_eq!(b.players, vec![1]);
}

#[test]
fn ignored_roll_is_not_acknowledged() {
    let mut server = GameServer::new(1);
    let mut a = Connection::new();
    server.handle_command(&mut a, start(vec![1, 2], "1", "2"), 0).unwrap();
    server.handle_command(&mut a, roll(1, 4), 0).unwrap();
    let frames = server.handle_command(&mut a, roll(1, 6), 0).unwrap();
    assert!(!frames.iter().any(|f| matches!(f, Outbound::RollAcknowledged { .. })));
    assert_eq!(server.registry.lookup("1", "2").unwrap().players[0].rolls, vec![4]);
}

#[test]
fn standings_cover_only_the_connections_session() {
    let mut server = GameServer::new(MAX_ROLLS);
    let mut a = Connection::new();
    let mut b = Connection::new();
    server.handle_command(&mut a, start(vec![1], "1", "2"), 0).unwrap();
    server.handle_command(&mut b, start(vec![2], "1", "3"), 0).unwrap();
    let frames = server.standings(&a);
    assert_eq!(frames.len(), 1);
    match &frames[0] {
        Outbound::RollUpdate { players, .. } => assert_eq!(players[0].player_id, 1),
        other => panic!("unexpected frame {:?}", other),
    }
    assert!(server.standings(&Connection::new()).is_empty());
}

#[test]
fn heartbeat_covers_every_session() {
    let mut server = GameServer::new(MAX_ROLLS);
    let mut a = Connection::new();
    let mut b = Connection::new();
    server.handle_command(&mut a, start(vec![1], "1", "2"), 0).unwrap();
    server.handle_command(&mut b, start(vec![2], "1", "3"), 0).unwrap();
    let frames = server.heartbeat();
    assert_eq!(frames.len(), 2);
    assert!(frames.iter().all(|f| matches!(f, Outbound::RollUpdate { .. })));
}

#[test]
fn decode_start_game() {
    let mut m = message("start_game");
    m.players = Some(vec![
        Player { player_id: 4, rolls: vec![], is_active: true, last_roll_time: None },
        Player { player_id: 5, rolls: vec![1], is_active: true, last_roll_time: None },
    ]);
    m.salon_id = Some("1".to_string());
    m.table_id = Some("2".to_string());
    match Command::decode(m).unwrap() {
        Command::StartGame { players, salon_id, table_id } => {
            assert_eq!(players, vec![4, 5]);
            assert_eq!(salon_id, "1");
            assert_eq!(table_id, "2");
        }
        other => panic!("unexpected command {:?}", other),
    }
}

#[test]
fn decode_start_game_missing_table_is_invalid() {
    let mut m = message("start_game");
    m.players = Some(vec![]);
    m.salon_id = Some("1".to_string());
    assert_eq!(Command::decode(m).unwrap_err(), GameError::InvalidCommand);
}

#[test]
fn decode_roll_dice() {
    let mut m = message("roll_dice");
    m.player_id = Some(3);
    m.roll = Some(6);
    match Command::decode(m).unwrap() {
        Command::RollDice { player_id, roll, bot_rolls } => {
            assert_eq!((player_id, roll), (3, 6));
            assert!(bot_rolls.is_empty());
        }
        other => panic!("unexpected command {:?}", other),
    }
    let mut m = message("roll_dice");
    m.player_id = Some(3);
    m.roll = Some(2);
    m.bot_rolls = Some(vec![(9, 1)]);
    match Command::decode(m).unwrap() {
        Command::RollDice { bot_rolls, .. } => assert_eq!(bot_rolls, vec![(9, 1)]),
        other => panic!("unexpected command {:?}", other),
    }
}

#[test]
fn decode_roll_without_value_is_invalid() {
    let mut m = message("roll_dice");
    m.player_id = Some(3);
    assert_eq!(Command::decode(m).unwrap_err(), GameError::InvalidCommand);
}

#[test]
fn decode_disconnect_and_unknown_actions() {
    assert!(matches!(Command::decode(message("disconnect")), Ok(Command::Disconnect)));
    let mut m = message("join_game");
    m.player_id = Some(4);
    m.salon_id = Some("1".to_string());
    m.table_id = Some("2".to_string());
    assert!(matches!(Command::decode(m), Ok(Command::Join { player_id: 4, .. })));
    let mut m = message("join_game");
    m.player_id = Some(4);
    assert_eq!(Command::decode(m).unwrap_err(), GameError::InvalidCommand);
    assert_eq!(Command::decode(message("dance")).unwrap_err(), GameError::InvalidCommand);
    assert_eq!(Command::decode(message("")).unwrap_err(), GameError::InvalidCommand);
}

fn play_out(ids: Vec<i64>, rolls: &[&[i32]]) -> Vec<Outbound> {
    let mut server = GameServer::new(5);
    let mut conn = Connection::new();
    server.handle_command(&mut conn, start(ids.clone(), "1", "2"), 0).unwrap();
    let mut last = vec![];
    for k in 0..5 {
        for (p, id) in ids.iter().enumerate() {
            last = server.handle_command(&mut conn, roll(*id, rolls[p][k]), 0).unwrap();
        }
    }
    last
}

#[test]
fn settling_frames_are_standings_winner_then_settlement() {
    let frames = play_out(vec![1, 2], &[&[5, 5, 5, 5, 5], &[1, 1, 1, 1, 1]]);
    assert_eq!(frames.len(), 4);
    assert!(matches!(frames[0], Outbound::RollAcknowledged { player_id: 2, roll: 1 }));
    let settlement = match &frames[3] {
        Outbound::Settle(s) => s,
        other => panic!("expected a settlement, got {:?}", other),
    };
    match &frames[1] {
        Outbound::RollUpdate { game_id, players } => {
            assert_eq!(game_id, &settlement.result.game_id);
            assert_eq!(players[0].total_roll, 25);
            assert_eq!(players[1].total_roll, 5);
            assert_eq!(players[1].rolls, vec![1, 1, 1, 1, 1]);
        }
        other => panic!("unexpected frame {:?}", other),
    }
    assert!(matches!(frames[2], Outbound::WinnerAnnounced { winner_id: 1 }));
    assert_eq!(settlement.result.winner_id, 1);
}

#[test]
fn announced_tie_winner_is_lowest_id_in_any_order() {
    let frames = play_out(vec![1, 2], &[&[3, 3, 3, 3, 3], &[5, 5, 5, 0, 0]]);
    assert!(matches!(frames[2], Outbound::WinnerAnnounced { winner_id: 1 }));
    let frames = play_out(vec![2, 1], &[&[5, 5, 5, 0, 0], &[3, 3, 3, 3, 3]]);
    assert!(matches!(frames[2], Outbound::WinnerAnnounced { winner_id: 1 }));
}

fn seated(id: i64) -> SeatedPlayer {
    SeatedPlayer { player_id: id, is_active: true, has_paid: true, dice_rolls: vec![] }
}

fn bot_salon() -> Salon {
    Salon {
        salon_id: 1,
        name: "Bronze".to_string(),
        entry_fee: 20,
        tables: vec![
            Table { table_id: 2, players: vec![seated(7), seated(100)], bet_amount: 20, game_state: GameState::Waiting },
            Table { table_id: 3, players: vec![], bet_amount: 20, game_state: GameState::Waiting },
        ],
        created_at: 0,
    }
}

#[test]
fn start_seated_registers_the_seated_players() {
    let mut server = GameServer::new(BOT_MAX_ROLLS);
    let mut conn = Connection::new();
    let frames = server.start_seated(&mut conn, &bot_salon(), 2, "1".to_string(), "2".to_string()).unwrap();
    assert!(matches!(frames[0], Outbound::GameStarted { .. }));
    let g = server.registry.lookup("1", "2").unwrap();
    assert_eq!(g.players.iter().map(|p| p.player_id).collect::<Vec<_>>(), vec![7, 100]);
    assert_eq!(g.round_limit, BOT_MAX_ROLLS);
    assert_eq!(seat_of(&conn), Some(("1".to_string(), "2".to_string())));
}

#[test]
fn start_seated_errors() {
    let mut server = GameServer::new(BOT_MAX_ROLLS);
    let mut conn = Connection::new();
    let s = bot_salon();
    assert_eq!(server.start_seated(&mut conn, &s, 9, "1".to_string(), "9".to_string()).unwrap_err(), GameError::NotFound);
    assert_eq!(server.start_seated(&mut conn, &s, 3, "1".to_string(), "3".to_string()).unwrap_err(), GameError::InvalidCommand);
    server.start_seated(&mut conn, &s, 2, "1".to_string(), "2".to_string()).unwrap();
    let mut other = Connection::new();
    assert_eq!(server.start_seated(&mut other, &s, 2, "1".to_string(), "2".to_string()).unwrap_err(), GameError::AlreadyExists);
    assert!(other.seat.is_none());
    assert_eq!(server.registry.len(), 1);
}
