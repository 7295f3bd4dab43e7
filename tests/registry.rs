use dice_arena::registry::SessionRegistry;
use dice_arena::session::{Event, GameError, GameState, LiveGame, Progress};

fn game(id: &str, salon: &str, table: &str, ids: Vec<i64>, limit: usize) -> LiveGame {
    LiveGame::start(id.to_string(), ids, salon.to_string(), table.to_string(), limit).unwrap()
}

fn roll(p: i64, v: i32) -> Event {
    Event::Roll { player_id: p, value: v, now: 0 }
}

#[test]
fn create_then_lookup() {
    let mut r = SessionRegistry::new();
    assert_eq!(r.len(), 0);
    assert_eq!(r.create(game("a", "1", "2", vec![1, 2], 5)), Ok(()));
    assert_eq!(r.len(), 1);
    let g = r.lookup("1", "2").unwrap();
    assert_eq!(g.game_id, "a");
    assert!(r.lookup("1", "3").is_none());
    assert!(r.lookup("2", "2").is_none());
}

#[test]
fn create_on_occupied_key_is_rejected() {
    let mut r = SessionRegistry::new();
    r.create(game("a", "1", "2", vec![1, 2], 5)).unwrap();
    assert_eq!(r.create(game("b", "1", "2", vec![3], 5)), Err(GameError::AlreadyExists));
    assert_eq!(r.len(), 1);
    assert_eq!(r.lookup("1", "2").unwrap().game_id, "a");
    assert_eq!(r.create(game("c", "1", "3", vec![3], 5)), Ok(()));
    assert_eq!(r.len(), 2);
}

#[test]
fn apply_to_unknown_key_is_not_found() {
    let mut r = SessionRegistry::new();
    r.create(game("a", "1", "2", vec![1, 2], 5)).unwrap();
    assert!(matches!(r.apply("9", "9", roll(1, 3)), Err(GameError::NotFound)));
    assert!(r.lookup("1", "2").unwrap().players[0].rolls.is_empty());
}

#[test]
fn apply_from_unknown_participant_is_not_found() {
    let mut r = SessionRegistry::new();
    r.create(game("a", "1", "2", vec![1, 2], 5)).unwrap();
    r.apply("1", "2", roll(1, 4)).unwrap();
    assert!(matches!(r.apply("1", "2", roll(7, 3)), Err(GameError::NotFound)));
    let g = r.lookup("1", "2").unwrap();
    assert_eq!(g.players[0].rolls, vec![4]);
    assert!(g.players[1].rolls.is_empty());
}

#[test]
fn completion_settles_once_and_retires_the_session() {
    let mut r = SessionRegistry::new();
    r.create(game("a", "1", "2", vec![1, 2], 1)).unwrap();
    r.create(game("b", "1", "3", vec![1], 1)).unwrap();
    let (p, s) = r.apply("1", "2", roll(1, 6)).unwrap();
    assert_eq!(p, Progress::Updated);
    assert!(s.is_none());
    let (p, s) = r.apply("1", "2", roll(2, 2)).unwrap();
    assert_eq!(p, Progress::Completed);
    let s = s.unwrap();
    assert_eq!(s.result.game_id, "a");
    assert_eq!(s.result.winner_id, 1);
    assert!(r.lookup("1", "2").is_none());
    assert!(matches!(r.apply("1", "2", roll(2, 2)), Err(GameError::NotFound)));
    assert!(matches!(r.apply("1", "2", Event::Leave { player_id: 1 }), Err(GameError::NotFound)));
    assert_eq!(r.lookup("1", "3").unwrap().state, GameState::Started);
    assert_eq!(r.len(), 1);
}

#[test]
fn key_is_free_again_after_settlement() {
    let mut r = SessionRegistry::new();
    r.create(game("a", "1", "2", vec![1], 1)).unwrap();
    r.apply("1", "2", roll(1, 6)).unwrap();
    assert_eq!(r.create(game("b", "1", "2", vec![1], 1)), Ok(()));
    assert_eq!(r.lookup("1", "2").unwrap().game_id, "b");
}

#[test]
fn remove_detaches_session() {
    let mut r = SessionRegistry::new();
    r.create(game("a", "1", "2", vec![1], 1)).unwrap();
    assert!(r.remove("1", "3").is_none());
    let g = r.remove("1", "2").unwrap();
    assert_eq!(g.game_id, "a");
    assert_eq!(r.len(), 0);
    assert!(r.remove("1", "2").is_none());
}

#[test]
fn get_reads_by_position() {
    let mut r = SessionRegistry::new();
    r.create(game("a", "1", "2", vec![1], 1)).unwrap();
    r.create(game("b", "1", "3", vec![1], 1)).unwrap();
    assert_eq!(r.get(1).game_id, "b");
}

#[test]
fn last_detach_abandons_the_session() {
    let mut r = SessionRegistry::new();
    r.create(game("a", "1", "2", vec![1, 2], 5)).unwrap();
    assert_eq!(r.apply("1", "2", Event::Attach).unwrap().0, Progress::Unchanged);
    assert_eq!(r.lookup("1", "2").unwrap().connections, 2);
    assert_eq!(r.apply("1", "2", Event::Detach).unwrap().0, Progress::Unchanged);
    let (p, s) = r.apply("1", "2", Event::Detach).unwrap();
    assert_eq!(p, Progress::Abandoned);
    assert!(s.is_none());
    assert!(r.lookup("1", "2").is_none());
    assert!(matches!(r.apply("1", "2", Event::Detach), Err(GameError::NotFound)));
}
