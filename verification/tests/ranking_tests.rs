use std::cmp::Ordering;
use standings::player::Player;
use standings::ranking::rank_players;
use standings::strip_prefix;

fn player(name: &str, wins: u64, ow: u64, ol: u64) -> Player {
    Player::new(
        String::from(name),
        wins,
        0,
        vec![String::from("w"), String::from("x"), String::from("y"), String::from("z")],
        ow,
        ol,
    )
}

#[test]
fn more_wins_ranks_higher() {
    let a = player("A", 3, 0, 0);
    let b = player("B", 1, 9, 1);
    assert_eq!(rank_players(&a, &b), Ordering::Greater);
    assert_eq!(rank_players(&b, &a), Ordering::Less);
}

#[test]
fn equal_wins_compare_opponent_winrate() {
    // 3/4 beats 1/2: 3 * (1 + 1) > 1 * (3 + 1).
    let a = player("A", 2, 3, 1);
    let b = player("B", 2, 1, 1);
    assert_eq!(rank_players(&a, &b), Ordering::Greater);
    assert_eq!(rank_players(&b, &a), Ordering::Less);
}

#[test]
fn equal_winrates_fall_back_to_name() {
    // 1/2 and 2/4 are the same rate; the smaller name ranks higher.
    let a = player("A", 2, 1, 1);
    let b = player("B", 2, 2, 2);
    assert_eq!(rank_players(&a, &b), Ordering::Greater);
    assert_eq!(rank_players(&b, &a), Ordering::Less);
}

#[test]
fn undefined_winrate_ranks_below_every_defined_rate() {
    // Opponents with no recorded games give the 0/0 sentinel, which lies
    // strictly below any defined rate, even a zero one.
    let none = player("A", 2, 0, 0);
    let zero = player("B", 2, 0, 3);
    assert_eq!(rank_players(&none, &zero), Ordering::Less);
    assert_eq!(rank_players(&zero, &none), Ordering::Greater);
}

#[test]
fn both_undefined_rates_are_tied_then_name_decides() {
    let a = player("A", 1, 0, 0);
    let b = player("B", 1, 0, 0);
    assert_eq!(rank_players(&a, &b), Ordering::Greater);
    assert_eq!(rank_players(&b, &a), Ordering::Less);
}

#[test]
fn identical_records_and_names_are_equal() {
    let a = player("A", 1, 2, 3);
    let b = player("A", 1, 2, 3);
    assert_eq!(rank_players(&a, &b), Ordering::Equal);
}

#[test]
fn strip_prefix_drops_leading_characters() {
    assert_eq!(strip_prefix(String::from("01-Alice"), 3), "Alice");
    assert_eq!(strip_prefix(String::from("ab"), 3), "ab");
    assert_eq!(strip_prefix(String::from("abc"), 3), "");
    assert_eq!(strip_prefix(String::from("abc"), 0), "abc");
}

#[test]
fn new_player_has_empty_placements() {
    let p = player("A", 1, 2, 3);
    assert!(p.placements.is_empty());
    assert_eq!(p.name, "A");
    assert_eq!(p.wins, 1);
    assert_eq!(p.opp_wins, 2);
    assert_eq!(p.opp_losses, 3);
    assert_eq!(p.opponents.len(), 4);
}

#[test]
fn placement_counts_accumulate() {
    let mut p = player("A", 0, 0, 0);
    p.add_placement(1);
    p.add_placement(2);
    p.add_placement(1);
    assert_eq!(p.placements, vec![(1, 2), (2, 1)]);
}

#[test]
fn stat_increments() {
    let mut p = player("A", 0, 0, 0);
    p.add_win();
    p.add_win();
    p.add_loss();
    p.add_opponent_win();
    p.add_opponent_loss();
    assert_eq!(p.wins, 2);
    assert_eq!(p.losses, 1);
    assert_eq!(p.opp_wins, 1);
    assert_eq!(p.opp_losses, 1);
}
