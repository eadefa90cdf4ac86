use hangman::words::{choose_random_word, word_list};

fn cv(s: &str) -> Vec<char> {
    s.chars().collect()
}

#[test]
fn word_list_holds_the_five_words() {
    let words = word_list();
    assert_eq!(words.len(), 5);
    assert_eq!(words[0], cv("bicycle"));
    assert_eq!(words[1], cv("hangman"));
    assert_eq!(words[2], cv("elephant"));
    assert_eq!(words[3], cv("laptop"));
    assert_eq!(words[4], cv("programming"));
}

#[test]
fn random_word_comes_from_the_list() {
    let words = word_list();
    for _ in 0..32 {
        let w = choose_random_word();
        assert!(words.contains(&w));
    }
}
