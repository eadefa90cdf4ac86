use hangman::scoreboard::Scoreboard;

fn cv(s: &str) -> Vec<char> {
    s.chars().collect()
}

#[test]
fn update_new_name_gives_one_win() {
    let mut sb = Scoreboard::new();
    sb.update(&cv("alice"));
    assert_eq!(sb.players.len(), 1);
    assert_eq!(sb.players[0].name, cv("alice"));
    assert_eq!(sb.players[0].wins, 1);
}

#[test]
fn update_twice_gives_two_wins_sorted_first() {
    let mut sb = Scoreboard::new();
    sb.update(&cv("bob"));
    sb.update(&cv("alice"));
    sb.update(&cv("alice"));
    assert_eq!(sb.players.len(), 2);
    // alice (2 wins) stands at or before bob (1 win)
    assert_eq!(sb.players[0].name, cv("alice"));
    assert_eq!(sb.players[0].wins, 2);
    assert_eq!(sb.players[1].name, cv("bob"));
    assert_eq!(sb.players[1].wins, 1);
}

#[test]
fn board_stays_sorted_descending() {
    let mut sb = Scoreboard::new();
    for _ in 0..3 {
        sb.update(&cv("carol"));
    }
    sb.update(&cv("dave"));
    sb.update(&cv("erin"));
    sb.update(&cv("erin"));
    let wins: Vec<usize> = sb.players.iter().map(|p| p.wins).collect();
    assert_eq!(wins, vec![3, 2, 1]);
    assert_eq!(sb.players[0].name, cv("carol"));
    assert_eq!(sb.players[1].name, cv("erin"));
    assert_eq!(sb.players[2].name, cv("dave"));
}

#[test]
fn update_lost_new_name_gives_zero_wins() {
    let mut sb = Scoreboard::new();
    sb.update_lost(&cv("bob"));
    assert_eq!(sb.players.len(), 1);
    assert_eq!(sb.players[0].name, cv("bob"));
    assert_eq!(sb.players[0].wins, 0);
}

#[test]
fn update_lost_again_changes_nothing() {
    let mut sb = Scoreboard::new();
    sb.update_lost(&cv("bob"));
    sb.update_lost(&cv("bob"));
    assert_eq!(sb.players.len(), 1);
    assert_eq!(sb.players[0].name, cv("bob"));
    assert_eq!(sb.players[0].wins, 0);
}

#[test]
fn update_lost_keeps_existing_entry() {
    let mut sb = Scoreboard::new();
    sb.update(&cv("alice"));
    sb.update_lost(&cv("alice"));
    assert_eq!(sb.players.len(), 1);
    assert_eq!(sb.players[0].wins, 1);
}

#[test]
fn losers_sort_after_winners() {
    let mut sb = Scoreboard::new();
    sb.update(&cv("alice"));
    sb.update_lost(&cv("bob"));
    assert_eq!(sb.players[0].name, cv("alice"));
    assert_eq!(sb.players[1].name, cv("bob"));
    assert_eq!(sb.players[1].wins, 0);
}

#[test]
fn contains_name_reports_membership() {
    let mut sb = Scoreboard::new();
    assert!(!sb.contains_name(&cv("alice")));
    sb.update(&cv("alice"));
    assert!(sb.contains_name(&cv("alice")));
    assert!(!sb.contains_name(&cv("bob")));
}
