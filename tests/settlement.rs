use dice_arena::session::LiveGame;
use dice_arena::settlement::{boost_points, reputation_bonus, room_stakes, winner_payout};
use dice_arena::text::same_text;

fn finished(ids: Vec<i64>, rolls: &[&[i32]], salon: &str) -> LiveGame {
    let limit = rolls[0].len();
    let mut g = LiveGame::start("done".to_string(), ids.clone(), salon.to_string(), "7".to_string(), limit).unwrap();
    for (k, id) in ids.iter().enumerate() {
        for v in rolls[k] {
            g.handle_dice_roll(*id, *v, 0).unwrap();
        }
    }
    g
}

#[test]
fn reputation_bonus_by_rank() {
    assert_eq!(reputation_bonus(0), 20);
    assert_eq!(reputation_bonus(1), 10);
    assert_eq!(reputation_bonus(2), 5);
    assert_eq!(reputation_bonus(3), 1);
    assert_eq!(reputation_bonus(40), 1);
}

#[test]
fn room_stakes_per_tier() {
    assert_eq!(room_stakes("1"), (20, 80));
    assert_eq!(room_stakes("2"), (60, 85));
    assert_eq!(room_stakes("3"), (100, 90));
    assert_eq!(room_stakes("4"), (200, 95));
    assert_eq!(room_stakes("5"), (600, 98));
    assert_eq!(room_stakes("9"), (20, 80));
    assert_eq!(room_stakes(""), (20, 80));
}

#[test]
fn winner_payout_per_tier() {
    assert_eq!(winner_payout("1"), 16);
    assert_eq!(winner_payout("2"), 51);
    assert_eq!(winner_payout("3"), 90);
    assert_eq!(winner_payout("4"), 190);
    assert_eq!(winner_payout("5"), 588);
    assert_eq!(winner_payout("12"), 16);
}

#[test]
fn same_text_compares_characters() {
    assert!(same_text("abc", "abc"));
    assert!(!same_text("abc", "abd"));
    assert!(!same_text("1", "10"));
}

#[test]
fn boost_points_rounds_toward_zero() {
    assert_eq!(boost_points(100, 20), Some(120));
    assert_eq!(boost_points(7, 10), Some(7));
    assert_eq!(boost_points(15, 10), Some(16));
    assert_eq!(boost_points(-15, 10), Some(-16));
    assert_eq!(boost_points(0, 20), Some(0));
}

#[test]
fn boost_points_reports_overflow() {
    assert_eq!(boost_points(i32::MAX, 20), None);
    assert_eq!(boost_points(i32::MIN, 1), None);
    assert_eq!(boost_points(i32::MAX, 0), Some(i32::MAX));
}

#[test]
fn settlement_of_clear_win() {
    let g = finished(vec![1, 2], &[&[5, 5, 5, 5, 5], &[1, 1, 1, 1, 1]], "3");
    let s = g.settlement();
    assert_eq!(s.result.winner_id, 1);
    assert_eq!(s.result.game_id, "done");
    assert_eq!(s.result.players.len(), 2);
    assert_eq!(s.result.players[0].rolls, vec![5, 5, 5, 5, 5]);
    assert_eq!(s.result.players[1].rolls, vec![1, 1, 1, 1, 1]);
    assert_eq!(s.rewards.len(), 2);
    assert_eq!((s.rewards[0].player_id, s.rewards[0].percent), (1, 20));
    assert_eq!((s.rewards[1].player_id, s.rewards[1].percent), (2, 10));
    assert_eq!(s.payout, 90);
    assert_eq!(s.salon_id, "3");
    assert_eq!(s.table_id, "7");
    assert_eq!(s.standings[0].total_roll, 25);
    assert_eq!(s.standings[1].total_roll, 5);
}

#[test]
fn settlement_ranks_four_and_more() {
    let g = finished(vec![10, 20, 30, 40, 50], &[&[1], &[5], &[3], &[5], &[2]], "5");
    let s = g.settlement();
    let order: Vec<(i64, i32)> = s.rewards.iter().map(|r| (r.player_id, r.percent)).collect();
    assert_eq!(order, vec![(20, 20), (40, 10), (30, 5), (50, 1), (10, 1)]);
    assert_eq!(s.result.winner_id, 20);
    assert_eq!(s.payout, 588);
}

#[test]
fn settlement_tie_break_is_lowest_id() {
    let g = finished(vec![8, 3], &[&[5, 5, 5], &[5, 5, 5]], "1");
    for _ in 0..3 {
        assert_eq!(g.settlement().result.winner_id, 3);
    }
}
