use hangman::codec::{decode_board, decode_game, encode_board, encode_game, load_board};
use hangman::game::GameState;
use hangman::scoreboard::Scoreboard;

fn cv(s: &str) -> Vec<char> {
    s.chars().collect()
}

#[test]
fn game_round_trip_mid_game() {
    // serialize a mid-game state and read it back: every field survives
    let mut g = GameState::new(cv("alice"), Some(cv("bob")), cv("hangman"), false);
    g.apply_guess('h');
    g.apply_guess('x');
    g.apply_guess('a');
    let text = encode_game(&g);
    let back = decode_game(&text).expect("round trip must succeed");
    assert_eq!(back.player1, g.player1);
    assert_eq!(back.player2, g.player2);
    assert_eq!(back.turn, g.turn);
    assert_eq!(back.chosen_word, g.chosen_word);
    assert_eq!(back.placeholder, g.placeholder);
    assert_eq!(back.correct_letters, g.correct_letters);
    assert_eq!(back.guessed_letters, g.guessed_letters);
    assert_eq!(back.lives, g.lives);
    assert_eq!(back.is_player1_choosing, g.is_player1_choosing);
}

#[test]
fn game_round_trip_chooser_mode() {
    let mut g = GameState::new(cv("alice"), Some(cv("bob")), cv("laptop"), true);
    g.apply_guess('l');
    let text = encode_game(&g);
    let back = decode_game(&text).expect("round trip must succeed");
    assert_eq!(back.player2, Some(cv("bob")));
    assert!(back.is_player1_choosing);
    assert_eq!(back.placeholder, cv("l_____"));
}

#[test]
fn game_round_trip_single_player() {
    let g = GameState::new(cv("alice"), None, cv("elephant"), false);
    let text = encode_game(&g);
    let back = decode_game(&text).expect("round trip must succeed");
    assert_eq!(back.player2, None);
    assert_eq!(back.placeholder, cv("________"));
}

#[test]
fn decode_rejects_garbage() {
    assert!(decode_game(&cv("")).is_none());
    assert!(decode_game(&cv("not a save file")).is_none());
    assert!(decode_game(&cv("5;alice0")).is_none());
}

#[test]
fn decode_rejects_truncated_record() {
    let g = GameState::new(cv("alice"), None, cv("laptop"), false);
    let mut text = encode_game(&g);
    text.pop();
    assert!(decode_game(&text).is_none());
}

#[test]
fn decode_rejects_trailing_noise() {
    let g = GameState::new(cv("alice"), None, cv("laptop"), false);
    let mut text = encode_game(&g);
    text.push('x');
    assert!(decode_game(&text).is_none());
}

#[test]
fn decode_rejects_tampered_lives() {
    // a record whose fields no longer satisfy the game invariant is malformed
    let mut g = GameState::new(cv("alice"), None, cv("laptop"), false);
    g.apply_guess('z');
    assert_eq!(g.lives, 5);
    g.lives = 6;
    let text = encode_game(&g);
    assert!(decode_game(&text).is_none());
}

#[test]
fn board_round_trip() {
    let mut sb = Scoreboard::new();
    sb.update(&cv("alice"));
    sb.update(&cv("alice"));
    sb.update(&cv("bob"));
    sb.update_lost(&cv("carol"));
    let text = encode_board(&sb);
    let back = decode_board(&text).expect("round trip must succeed");
    assert_eq!(back.players.len(), 3);
    for (a, b) in back.players.iter().zip(sb.players.iter()) {
        assert_eq!(a.name, b.name);
        assert_eq!(a.wins, b.wins);
    }
}

#[test]
fn board_round_trip_empty() {
    let sb = Scoreboard::new();
    let text = encode_board(&sb);
    let back = decode_board(&text).expect("round trip must succeed");
    assert!(back.players.is_empty());
}

#[test]
fn decode_board_rejects_unsorted_record() {
    // rows out of descending order do not satisfy the board invariant
    let sb = Scoreboard {
        players: vec![
            hangman::scoreboard::PlayerScore { name: cv("alice"), wins: 0 },
            hangman::scoreboard::PlayerScore { name: cv("bob"), wins: 2 },
        ],
    };
    let text = encode_board(&sb);
    assert!(decode_board(&text).is_none());
}

#[test]
fn load_board_tolerates_missing_and_corrupt() {
    let empty = load_board(None);
    assert!(empty.players.is_empty());
    let garbage = cv("###");
    let fallback = load_board(Some(&garbage));
    assert!(fallback.players.is_empty());
    let mut sb = Scoreboard::new();
    sb.update(&cv("alice"));
    let text = encode_board(&sb);
    let loaded = load_board(Some(&text));
    assert_eq!(loaded.players.len(), 1);
    assert_eq!(loaded.players[0].wins, 1);
}
