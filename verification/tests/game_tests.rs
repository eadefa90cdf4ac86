use hangman::game::{GameState, GuessOutcome, STARTING_LIVES};

fn cv(s: &str) -> Vec<char> {
    s.chars().collect()
}

#[test]
fn new_game_starts_blank() {
    let g = GameState::new(cv("alice"), None, cv("hangman"), false);
    assert_eq!(g.placeholder, cv("_______"));
    assert_eq!(g.lives, STARTING_LIVES);
    assert_eq!(g.turn, 1);
    assert!(g.correct_letters.is_empty());
    assert!(g.guessed_letters.is_empty());
    assert!(!g.is_won());
}

#[test]
fn hangman_scenario_wins() {
    // word = "hangman", guesses h, a, x, n, g, m: one wrong guess costs one
    // life, the rest reveal the word exactly.
    let mut g = GameState::new(cv("alice"), Some(cv("bob")), cv("hangman"), false);
    assert_eq!(g.apply_guess('h'), GuessOutcome::Correct);
    assert_eq!(g.placeholder, cv("h______"));
    assert_eq!(g.apply_guess('a'), GuessOutcome::Correct);
    assert_eq!(g.placeholder, cv("ha___a_"));
    assert_eq!(g.apply_guess('x'), GuessOutcome::Incorrect);
    assert_eq!(g.lives, 5);
    assert_eq!(g.placeholder, cv("ha___a_"));
    assert_eq!(g.apply_guess('n'), GuessOutcome::Correct);
    assert_eq!(g.placeholder, cv("han__an"));
    assert_eq!(g.apply_guess('g'), GuessOutcome::Correct);
    assert_eq!(g.placeholder, cv("hang_an"));
    assert_eq!(g.apply_guess('m'), GuessOutcome::Won);
    assert_eq!(g.placeholder, cv("hangman"));
    assert!(g.is_won());
    assert_eq!(g.lives, 5);
}

#[test]
fn repeat_guess_changes_nothing() {
    let mut g = GameState::new(cv("alice"), Some(cv("bob")), cv("hangman"), false);
    assert_eq!(g.apply_guess('a'), GuessOutcome::Correct);
    let placeholder = g.placeholder.clone();
    let lives = g.lives;
    let turn = g.turn;
    let correct = g.correct_letters.clone();
    let guessed = g.guessed_letters.clone();
    assert_eq!(g.apply_guess('a'), GuessOutcome::Repeat);
    assert_eq!(g.placeholder, placeholder);
    assert_eq!(g.lives, lives);
    assert_eq!(g.turn, turn);
    assert_eq!(g.correct_letters, correct);
    assert_eq!(g.guessed_letters, guessed);
}

#[test]
fn repeat_wrong_guess_costs_no_life() {
    let mut g = GameState::new(cv("alice"), None, cv("laptop"), false);
    assert_eq!(g.apply_guess('z'), GuessOutcome::Incorrect);
    assert_eq!(g.lives, 5);
    assert_eq!(g.apply_guess('z'), GuessOutcome::Repeat);
    assert_eq!(g.lives, 5);
}

#[test]
fn six_wrong_guesses_lose() {
    let mut g = GameState::new(cv("alice"), None, cv("ab"), false);
    for (i, c) in ['q', 'w', 'e', 'r', 't'].iter().enumerate() {
        assert_eq!(g.apply_guess(*c), GuessOutcome::Incorrect);
        assert_eq!(g.lives, 5 - i);
    }
    assert_eq!(g.apply_guess('y'), GuessOutcome::Lost);
    assert_eq!(g.lives, 0);
    // exactly six distinct wrong letters were guessed
    assert_eq!(g.guessed_letters.len(), 6);
    let mut wrong = 0;
    for c in &g.guessed_letters {
        if *c != 'a' && *c != 'b' {
            wrong += 1;
        }
    }
    assert_eq!(wrong, 6);
}

#[test]
fn turns_alternate_between_players() {
    let mut g = GameState::new(cv("alice"), Some(cv("bob")), cv("hangman"), false);
    assert_eq!(g.current_player(), &cv("alice"));
    g.apply_guess('h');
    assert_eq!(g.turn, 2);
    assert_eq!(g.current_player(), &cv("bob"));
    g.apply_guess('z');
    assert_eq!(g.turn, 1);
    assert_eq!(g.current_player(), &cv("alice"));
    // a repeated letter does not consume the turn
    g.apply_guess('h');
    assert_eq!(g.turn, 1);
}

#[test]
fn chooser_mode_keeps_the_guesser() {
    let mut g = GameState::new(cv("alice"), Some(cv("bob")), cv("laptop"), true);
    assert_eq!(g.current_player(), &cv("bob"));
    g.apply_guess('l');
    assert_eq!(g.turn, 1);
    assert_eq!(g.current_player(), &cv("bob"));
    g.apply_guess('z');
    assert_eq!(g.turn, 1);
    assert_eq!(g.current_player(), &cv("bob"));
}

#[test]
fn single_player_fallback_name() {
    let g = GameState::new(cv("alice"), None, cv("laptop"), false);
    assert_eq!(g.current_player(), &cv("alice"));
    let mut g2 = GameState::new(cv("alice"), None, cv("laptop"), false);
    g2.apply_guess('l');
    assert_eq!(g2.turn, 2);
    // no second player: turn 2 falls back to player 1
    assert_eq!(g2.current_player(), &cv("alice"));
}

#[test]
fn well_formed_checks_hold_and_fail() {
    let mut g = GameState::new(cv("alice"), None, cv("laptop"), false);
    assert!(g.check_well_formed());
    g.apply_guess('l');
    g.apply_guess('z');
    assert!(g.check_well_formed());
    // tampering breaks the invariant
    g.lives = 6;
    assert!(!g.check_well_formed());
}
