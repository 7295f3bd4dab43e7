use dice_arena::session::{GameError, GameState, BOT_MAX_ROLLS};
use dice_arena::table::{start_bot_game, Player, Salon, Table};

fn seated(id: i64) -> Player {
    Player { player_id: id, is_active: true, has_paid: true, dice_rolls: vec![] }
}

fn table(id: i32, ids: &[i64]) -> Table {
    Table { table_id: id, players: ids.iter().map(|&i| seated(i)).collect(), bet_amount: 20, game_state: GameState::Waiting }
}

fn salon() -> Salon {
    Salon {
        salon_id: 1,
        name: "Bronze".to_string(),
        entry_fee: 20,
        tables: vec![table(1, &[1, 2, 3, 4]), table(2, &[5, 6]), table(3, &[])],
        created_at: 0,
    }
}

fn ids(t: &Table) -> Vec<i64> {
    t.players.iter().map(|p| p.player_id).collect()
}

#[test]
fn seated_ids_in_order() {
    assert_eq!(table(1, &[3, 1, 2]).seated_ids(), vec![3, 1, 2]);
}

#[test]
fn find_table_by_id() {
    let s = salon();
    assert_eq!(s.find_table(2), Some(1));
    assert_eq!(s.find_table(9), None);
}

#[test]
fn clear_seated_players_of_one_table() {
    let mut s = salon();
    assert_eq!(s.clear_seated_players(2), Ok(()));
    assert!(s.tables[1].players.is_empty());
    assert_eq!(ids(&s.tables[0]), vec![1, 2, 3, 4]);
    assert_eq!(s.tables[1].bet_amount, 20);
}

#[test]
fn clear_seated_players_of_missing_table() {
    let mut s = salon();
    assert_eq!(s.clear_seated_players(9), Err(GameError::NotFound));
    assert_eq!(ids(&s.tables[1]), vec![5, 6]);
}

#[test]
fn remove_player_from_every_table() {
    let mut s = salon();
    s.tables[1].players.push(seated(2));
    s.remove_player(2);
    assert_eq!(ids(&s.tables[0]), vec![1, 3, 4]);
    assert_eq!(ids(&s.tables[1]), vec![5, 6]);
    s.remove_player(42);
    assert_eq!(ids(&s.tables[0]), vec![1, 3, 4]);
}

#[test]
fn underfilled_tables_are_cleared() {
    let mut s = salon();
    s.clear_underfilled_tables();
    assert_eq!(ids(&s.tables[0]), vec![1, 2, 3, 4]);
    assert!(s.tables[1].players.is_empty());
    assert!(s.tables[2].players.is_empty());
}

#[test]
fn bot_game_seats_the_table() {
    let s = salon();
    let g = start_bot_game(&s, 2, "1".to_string(), "2".to_string()).unwrap();
    assert_eq!(g.round_limit, BOT_MAX_ROLLS);
    assert_eq!(g.players.iter().map(|p| p.player_id).collect::<Vec<_>>(), vec![5, 6]);
    assert_eq!(g.game_id.len(), 36);
}

#[test]
fn bot_game_needs_the_table_and_someone_seated() {
    let s = salon();
    assert_eq!(start_bot_game(&s, 9, "1".to_string(), "9".to_string()).unwrap_err(), GameError::NotFound);
    assert_eq!(start_bot_game(&s, 3, "1".to_string(), "3".to_string()).unwrap_err(), GameError::InvalidCommand);
}
