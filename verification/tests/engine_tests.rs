use standings::engine::{apply_match, insert_player, run_simulations, simulate};
use standings::matches::{canonicalize_matches, Match};
use standings::player::Player;
use standings::report::write_results;

fn player(name: &str, wins: u64, losses: u64, opps: [&str; 4], ow: u64, ol: u64) -> Player {
    Player::new(
        String::from(name),
        wins,
        losses,
        opps.iter().map(|s| String::from(*s)).collect(),
        ow,
        ol,
    )
}

fn unknown_opps() -> [&'static str; 4] {
    ["w", "x", "y", "z"]
}

fn get_count(p: &Player, rank: usize) -> u64 {
    for (r, c) in &p.placements {
        if *r == rank {
            return *c;
        }
    }
    0
}

#[test]
fn three_player_single_match_scenario() {
    // Three players, baseline records all zero, one unplayed match A vs B,
    // two top ranks: exactly two outcomes.
    let mut players = Vec::new();
    insert_player(&mut players, player("A", 0, 0, unknown_opps(), 0, 0));
    insert_player(&mut players, player("B", 0, 0, unknown_opps(), 0, 0));
    insert_player(&mut players, player("C", 0, 0, unknown_opps(), 0, 0));
    let raw = vec![Match { player1: String::from("A"), player2: String::from("B") }];
    let matches = canonicalize_matches(&raw);
    assert_eq!(matches.len(), 1);
    // Canonical order lists the greater name first.
    assert_eq!(matches[0].player1, "B");
    assert_eq!(matches[0].player2, "A");

    let n = run_simulations(&mut players, &matches, 2, None);
    assert_eq!(n, 2);

    // Outcome 0: B (first-listed) wins, standings B, A, C; outcome 1: A
    // wins, standings A, B, C. All ties resolve by name.
    let a = &players[0];
    let b = &players[1];
    let c = &players[2];
    assert_eq!(a.name, "A");
    assert_eq!(get_count(a, 1), 1);
    assert_eq!(get_count(a, 2), 1);
    assert_eq!(get_count(b, 1), 1);
    assert_eq!(get_count(b, 2), 1);
    assert!(c.placements.is_empty());

    // Only players that placed appear in the report.
    let report = write_results(&players);
    assert_eq!(report.len(), 2);
    assert_eq!(report[0].name, "A");
    assert_eq!(report[1].name, "B");
}

#[test]
fn no_matches_single_outcome() {
    // With no unplayed matches exactly one outcome is evaluated, ranked by
    // the pre-existing records alone.
    let mut players = Vec::new();
    insert_player(&mut players, player("X", 3, 1, unknown_opps(), 0, 0));
    insert_player(&mut players, player("Y", 1, 3, unknown_opps(), 0, 0));
    insert_player(&mut players, player("Z", 2, 2, unknown_opps(), 0, 0));
    let matches: Vec<Match> = Vec::new();
    let n = run_simulations(&mut players, &matches, 2, None);
    assert_eq!(n, 1);
    assert_eq!(players[0].placements, vec![(1, 1)]); // X: most wins
    assert_eq!(players[2].placements, vec![(2, 1)]); // Z: second
    assert!(players[1].placements.is_empty()); // Y: third, out of top 2
}

#[test]
fn outcome_count_is_min_of_cap_and_space() {
    // Two matches: the space holds four outcomes; a cap below that wins.
    let raw = vec![
        Match { player1: String::from("B"), player2: String::from("A") },
        Match { player1: String::from("D"), player2: String::from("C") },
    ];
    let matches = canonicalize_matches(&raw);
    assert_eq!(matches.len(), 2);

    let mut p1 = Vec::new();
    insert_player(&mut p1, player("A", 0, 0, unknown_opps(), 0, 0));
    insert_player(&mut p1, player("B", 0, 0, unknown_opps(), 0, 0));
    assert_eq!(run_simulations(&mut p1, &matches, 1, Some(3)), 3);

    let mut p2 = Vec::new();
    insert_player(&mut p2, player("A", 0, 0, unknown_opps(), 0, 0));
    insert_player(&mut p2, player("B", 0, 0, unknown_opps(), 0, 0));
    assert_eq!(run_simulations(&mut p2, &matches, 1, None), 4);

    let mut p3 = Vec::new();
    insert_player(&mut p3, player("A", 0, 0, unknown_opps(), 0, 0));
    insert_player(&mut p3, player("B", 0, 0, unknown_opps(), 0, 0));
    assert_eq!(run_simulations(&mut p3, &matches, 1, Some(100)), 4);
}

#[test]
fn enumeration_is_deterministic() {
    // Two runs on identical inputs give identical histograms.
    let raw = vec![
        Match { player1: String::from("B"), player2: String::from("A") },
        Match { player1: String::from("C"), player2: String::from("A") },
    ];
    let matches = canonicalize_matches(&raw);
    let build = || {
        let mut v = Vec::new();
        insert_player(&mut v, player("A", 1, 0, ["B", "C", "x", "y"], 1, 2));
        insert_player(&mut v, player("B", 0, 1, ["A", "C", "x", "y"], 2, 1));
        insert_player(&mut v, player("C", 2, 2, ["A", "B", "x", "y"], 3, 3));
        v
    };
    let mut first = build();
    let mut second = build();
    run_simulations(&mut first, &matches, 2, None);
    run_simulations(&mut second, &matches, 2, None);
    for (p, q) in first.iter().zip(second.iter()) {
        assert_eq!(p.name, q.name);
        assert_eq!(p.placements, q.placements);
    }
}

#[test]
fn aggregation_total_equals_top_ranks() {
    // One outcome records exactly min(K, player count) placements in all.
    let mut players = Vec::new();
    insert_player(&mut players, player("A", 0, 0, unknown_opps(), 0, 0));
    insert_player(&mut players, player("B", 1, 0, unknown_opps(), 0, 0));
    insert_player(&mut players, player("C", 2, 0, unknown_opps(), 0, 0));
    let matches: Vec<Match> = Vec::new();
    simulate(0, 2, &matches, &mut players);
    let total: u64 = players.iter().flat_map(|p| p.placements.iter()).map(|e| e.1).sum();
    assert_eq!(total, 2);

    // A top-ranks count beyond the player count is clamped to it.
    let mut all = Vec::new();
    insert_player(&mut all, player("A", 0, 0, unknown_opps(), 0, 0));
    insert_player(&mut all, player("B", 1, 0, unknown_opps(), 0, 0));
    simulate(0, 2, &matches, &mut all);
    let total: u64 = all.iter().flat_map(|p| p.placements.iter()).map(|e| e.1).sum();
    assert_eq!(total, 2);
}

#[test]
fn standings_list_every_player_once() {
    // With the top-ranks count covering the whole field, one outcome hands
    // every player exactly one placement, at distinct ranks 1..=3.
    let mut players = Vec::new();
    insert_player(&mut players, player("A", 0, 0, unknown_opps(), 0, 0));
    insert_player(&mut players, player("B", 1, 0, unknown_opps(), 0, 0));
    insert_player(&mut players, player("C", 2, 0, unknown_opps(), 0, 0));
    let matches: Vec<Match> = Vec::new();
    simulate(0, 3, &matches, &mut players);
    let mut ranks: Vec<usize> = Vec::new();
    for p in &players {
        assert_eq!(p.placements.len(), 1);
        assert_eq!(p.placements[0].1, 1);
        ranks.push(p.placements[0].0);
    }
    ranks.sort();
    assert_eq!(ranks, vec![1, 2, 3]);
}

#[test]
fn propagation_order_does_not_matter() {
    // Applying the matches of one outcome in either order yields the same
    // snapshot, including two-hop opponent stats.
    let build = || {
        let mut v = Vec::new();
        insert_player(&mut v, player("A", 0, 0, ["B", "C", "D", "x"], 0, 0));
        insert_player(&mut v, player("B", 0, 0, ["A", "C", "D", "x"], 0, 0));
        insert_player(&mut v, player("C", 0, 0, ["A", "B", "D", "x"], 0, 0));
        insert_player(&mut v, player("D", 0, 0, ["A", "B", "C", "x"], 0, 0));
        v
    };
    let mut one = build();
    apply_match(&mut one, &String::from("A"), &String::from("B"));
    apply_match(&mut one, &String::from("C"), &String::from("D"));
    let mut two = build();
    apply_match(&mut two, &String::from("C"), &String::from("D"));
    apply_match(&mut two, &String::from("A"), &String::from("B"));
    for (p, q) in one.iter().zip(two.iter()) {
        assert_eq!(p.name, q.name);
        assert_eq!(p.wins, q.wins);
        assert_eq!(p.losses, q.losses);
        assert_eq!(p.opp_wins, q.opp_wins);
        assert_eq!(p.opp_losses, q.opp_losses);
    }
}

#[test]
fn propagation_reaches_winner_loser_and_opponents() {
    // One match touches the winner, the loser, and both opponent lists;
    // names absent from the registry are silently skipped.
    let mut v = Vec::new();
    insert_player(&mut v, player("A", 0, 0, ["B", "C", "g", "h"], 0, 0));
    insert_player(&mut v, player("B", 0, 0, ["A", "C", "g", "h"], 0, 0));
    insert_player(&mut v, player("C", 0, 0, ["A", "B", "g", "h"], 0, 0));
    apply_match(&mut v, &String::from("A"), &String::from("B"));
    assert_eq!((v[0].wins, v[0].losses), (1, 0));
    assert_eq!((v[1].wins, v[1].losses), (0, 1));
    assert_eq!((v[2].wins, v[2].losses), (0, 0));
    // A won: A's opponents B and C gain an opponent win. B lost: B's
    // opponents A and C gain an opponent loss.
    assert_eq!((v[0].opp_wins, v[0].opp_losses), (0, 1));
    assert_eq!((v[1].opp_wins, v[1].opp_losses), (1, 0));
    assert_eq!((v[2].opp_wins, v[2].opp_losses), (1, 1));
}

#[test]
fn unknown_winner_is_skipped() {
    let mut v = Vec::new();
    insert_player(&mut v, player("A", 0, 0, unknown_opps(), 0, 0));
    apply_match(&mut v, &String::from("nobody"), &String::from("A"));
    assert_eq!((v[0].wins, v[0].losses), (0, 1));
    assert_eq!((v[0].opp_wins, v[0].opp_losses), (0, 0));
}

#[test]
fn matches_deduplicate_and_sort() {
    let m = |a: &str, b: &str| Match { player1: String::from(a), player2: String::from(b) };
    let raw = vec![m("A", "B"), m("B", "A"), m("C", "A"), m("B", "A"), m("B", "C")];
    let out = canonicalize_matches(&raw);
    let pairs: Vec<(String, String)> = out
        .iter()
        .map(|x| (x.player1.clone(), x.player2.clone()))
        .collect();
    assert_eq!(
        pairs,
        vec![
            (String::from("B"), String::from("A")),
            (String::from("C"), String::from("A")),
            (String::from("C"), String::from("B")),
        ]
    );
}

#[test]
fn insert_player_replaces_same_name() {
    let mut v = Vec::new();
    insert_player(&mut v, player("A", 0, 0, unknown_opps(), 0, 0));
    insert_player(&mut v, player("B", 1, 1, unknown_opps(), 0, 0));
    insert_player(&mut v, player("A", 5, 2, unknown_opps(), 0, 0));
    assert_eq!(v.len(), 2);
    assert_eq!(v[0].name, "A");
    assert_eq!(v[0].wins, 5);
    assert_eq!(v[1].name, "B");
}
