//! The hangman state machine: one `GameState` per session, one `apply_guess`
//! per turn. Words, names and letter sets are plain character vectors; the
//! ghost `GameView` is the mathematical model every contract speaks of.

use vstd::prelude::*;

verus! {

/// Number of lives a fresh game starts with.
pub const STARTING_LIVES: usize = 6;

/// The character shown in the placeholder for a not-yet-revealed position.
pub const BLANK: char = '_';

/// The mathematical model of a game session: every field as a plain
/// sequence, number or flag.
#[verifier::ext_equal]
pub struct GameView {
    pub player1: Seq<char>,
    pub player2: Option<Seq<char>>,
    pub turn: nat,
    pub word: Seq<char>,
    pub placeholder: Seq<char>,
    pub correct: Seq<char>,
    pub guessed: Seq<char>,
    pub lives: nat,
    pub chooser: bool,
}

/// What one guess did to the game.
#[derive(PartialEq, Eq, Structural, Clone, Copy, Debug)]
pub enum GuessOutcome {
    /// The letter had been guessed before; nothing changed.
    Repeat,
    /// The letter is in the word and revealed part of the placeholder.
    Correct,
    /// The letter completed the placeholder: the guesser won.
    Won,
    /// The letter is not in the word; a life was lost.
    Incorrect,
    /// The letter is not in the word and it was the last life: game over.
    Lost,
}

/// The placeholder determined by a word and the correctly guessed letters:
/// each position shows its letter when guessed, a blank otherwise.
pub open spec fn revealed_word(word: Seq<char>, correct: Seq<char>) -> Seq<char> {
    Seq::new(word.len(), |i: int| if correct.contains(word[i]) { word[i] } else { BLANK })
}

/// No character occurs twice.
pub open spec fn no_dups(s: Seq<char>) -> bool {
    forall|i: int, j: int| 0 <= i < j < s.len() ==> s[i] != s[j]
}

/// How many guessed letters are not in the word.
pub open spec fn count_wrong(guessed: Seq<char>, word: Seq<char>) -> nat
    decreases guessed.len(),
{
    if guessed.len() == 0 {
        0
    } else {
        count_wrong(guessed.drop_last(), word) + (if word.contains(guessed.last()) {
            0nat
        } else {
            1nat
        })
    }
}

/// The game invariant: the placeholder reflects the correct letters, the
/// correct letters sit inside both the word and the guessed letters, every
/// guessed letter of the word was recorded as correct, letter sets hold no
/// duplicates, the turn is 1 or 2, and lives plus distinct wrong guesses
/// add up to the starting budget.
pub open spec fn wf(v: GameView) -> bool {
    &&& v.placeholder == revealed_word(v.word, v.correct)
    &&& (forall|i: int| 0 <= i < v.correct.len() ==> v.word.contains(#[trigger] v.correct[i]))
    &&& (forall|i: int| 0 <= i < v.correct.len() ==> v.guessed.contains(#[trigger] v.correct[i]))
    &&& (forall|i: int|
        0 <= i < v.guessed.len() && v.word.contains(#[trigger] v.guessed[i])
            ==> v.correct.contains(v.guessed[i]))
    &&& no_dups(v.guessed)
    &&& no_dups(v.correct)
    &&& (v.turn == 1 || v.turn == 2)
    &&& v.lives + count_wrong(v.guessed, v.word) == STARTING_LIVES
}

/// The game is won once the placeholder equals the word.
pub open spec fn spec_won(v: GameView) -> bool {
    v.placeholder == v.word
}

/// The turn indicator after a turn passes: 1 becomes 2 and 2 becomes 1.
pub open spec fn next_turn(turn: nat) -> nat {
    if turn == 1 {
        2nat
    } else {
        1nat
    }
}

/// What a guess of `c` reports in state `v`.
pub open spec fn spec_outcome(v: GameView, c: char) -> GuessOutcome {
    if v.guessed.contains(c) {
        GuessOutcome::Repeat
    } else if v.word.contains(c) {
        if revealed_word(v.word, v.correct.push(c)) == v.word {
            GuessOutcome::Won
        } else {
            GuessOutcome::Correct
        }
    } else {
        if v.lives <= 1 {
            GuessOutcome::Lost
        } else {
            GuessOutcome::Incorrect
        }
    }
}

/// The state after a guess of `c` in state `v`: a repeated letter changes
/// nothing; a fresh letter is recorded, reveals the placeholder or costs a
/// life, and the turn advances unless the game ended or a chooser set the
/// word (then the same guesser continues).
pub open spec fn spec_step(v: GameView, c: char) -> GameView {
    if v.guessed.contains(c) {
        v
    } else {
        let out = spec_outcome(v, c);
        let guessed = v.guessed.push(c);
        let correct = if v.word.contains(c) {
            v.correct.push(c)
        } else {
            v.correct
        };
        let placeholder = if v.word.contains(c) {
            revealed_word(v.word, v.correct.push(c))
        } else {
            v.placeholder
        };
        let lives = if v.word.contains(c) {
            v.lives
        } else {
            (v.lives - 1) as nat
        };
        let turn = if out == GuessOutcome::Won || out == GuessOutcome::Lost || v.chooser {
            v.turn
        } else {
            next_turn(v.turn)
        };
        GameView { guessed, correct, placeholder, lives, turn, ..v }
    }
}

/// All mutable data of one game session.
pub struct GameState {
    pub player1: Vec<char>,
    pub player2: Option<Vec<char>>,
    pub turn: usize,
    pub chosen_word: Vec<char>,
    pub placeholder: Vec<char>,
    pub correct_letters: Vec<char>,
    pub guessed_letters: Vec<char>,
    pub lives: usize,
    pub is_player1_choosing: bool,
}

/// The view of an optional player name.
pub open spec fn opt_name_view(p: &Option<Vec<char>>) -> Option<Seq<char>> {
    match p {
        Some(q) => Some(q@),
        None => None,
    }
}

impl View for GameState {
    type V = GameView;

    open spec fn view(&self) -> GameView {
        GameView {
            player1: self.player1@,
            player2: opt_name_view(&self.player2),
            turn: self.turn as nat,
            word: self.chosen_word@,
            placeholder: self.placeholder@,
            correct: self.correct_letters@,
            guessed: self.guessed_letters@,
            lives: self.lives as nat,
            chooser: self.is_player1_choosing,
        }
    }
}

/// Does `v` contain the character `c`?
pub fn contains_char(v: &Vec<char>, c: char) -> (r: bool)
    ensures
        r == v@.contains(c),
{
    let mut i: usize = 0;
    while i < v.len()
        invariant
            i <= v.len(),
            forall|k: int| 0 <= k < i ==> v@[k] != c,
        decreases v.len() - i,
    {
        if v[i] == c {
            proof {
                assert(v@[i as int] == c);
            }
            return true;
        }
        i += 1;
    }
    false
}

/// Copy a character vector.
pub fn clone_chars(v: &Vec<char>) -> (r: Vec<char>)
    ensures
        r@ == v@,
{
    let mut out: Vec<char> = Vec::new();
    let mut i: usize = 0;
    while i < v.len()
        invariant
            i <= v.len(),
            out@ == v@.take(i as int),
        decreases v.len() - i,
    {
        out.push(v[i]);
        proof {
            assert(v@.take(i as int).push(v@[i as int]) =~= v@.take(i + 1));
        }
        i += 1;
    }
    proof {
        assert(v@.take(v@.len() as int) =~= v@);
    }
    out
}

/// Are two character vectors equal, position by position?
pub fn eq_chars(a: &Vec<char>, b: &Vec<char>) -> (r: bool)
    ensures
        r == (a@ == b@),
{
    if a.len() != b.len() {
        return false;
    }
    let mut i: usize = 0;
    while i < a.len()
        invariant
            i <= a.len(),
            a.len() == b.len(),
            forall|k: int| 0 <= k < i ==> a@[k] == b@[k],
        decreases a.len() - i,
    {
        if a[i] != b[i] {
            return false;
        }
        i += 1;
    }
    proof {
        assert(a@ =~= b@);
    }
    true
}

/// Recompute the placeholder for a word from the correctly guessed letters.
pub fn compute_placeholder(word: &Vec<char>, correct: &Vec<char>) -> (r: Vec<char>)
    ensures
        r@ == revealed_word(word@, correct@),
{
    let mut out: Vec<char> = Vec::new();
    let mut i: usize = 0;
    while i < word.len()
        invariant
            i <= word.len(),
            out@.len() == i as nat,
            forall|k: int|
                0 <= k < i ==> out@[k] == (if correct@.contains(word@[k]) {
                    word@[k]
                } else {
                    BLANK
                }),
        decreases word.len() - i,
    {
        if contains_char(correct, word[i]) {
            out.push(word[i]);
        } else {
            out.push(BLANK);
        }
        i += 1;
    }
    proof {
        assert(out@ =~= revealed_word(word@, correct@));
    }
    out
}

/// Is every character of `xs` contained in `ys`?
pub fn all_contained(xs: &Vec<char>, ys: &Vec<char>) -> (r: bool)
    ensures
        r == (forall|i: int| 0 <= i < xs@.len() ==> ys@.contains(#[trigger] xs@[i])),
{
    let mut i: usize = 0;
    while i < xs.len()
        invariant
            i <= xs.len(),
            forall|k: int| 0 <= k < i ==> ys@.contains(#[trigger] xs@[k]),
        decreases xs.len() - i,
    {
        if !contains_char(ys, xs[i]) {
            proof {
                assert(!ys@.contains(xs@[i as int]));
            }
            return false;
        }
        i += 1;
    }
    true
}

/// Is every guessed character that occurs in the word also recorded as
/// correct?
pub fn word_guesses_recorded(guessed: &Vec<char>, word: &Vec<char>, correct: &Vec<char>) -> (r:
    bool)
    ensures
        r == (forall|i: int|
            0 <= i < guessed@.len() && word@.contains(#[trigger] guessed@[i])
                ==> correct@.contains(guessed@[i])),
{
    let mut i: usize = 0;
    while i < guessed.len()
        invariant
            i <= guessed.len(),
            forall|k: int|
                0 <= k < i && word@.contains(#[trigger] guessed@[k]) ==> correct@.contains(
                    guessed@[k],
                ),
        decreases guessed.len() - i,
    {
        if contains_char(word, guessed[i]) && !contains_char(correct, guessed[i]) {
            proof {
                assert(word@.contains(guessed@[i as int]) && !correct@.contains(
                    guessed@[i as int],
                ));
            }
            return false;
        }
        i += 1;
    }
    true
}

/// Does the vector hold no character twice?
pub fn has_no_dups(xs: &Vec<char>) -> (r: bool)
    ensures
        r == no_dups(xs@),
{
    let mut i: usize = 0;
    while i < xs.len()
        invariant
            i <= xs.len(),
            forall|a: int, b: int| 0 <= a < b < i ==> xs@[a] != xs@[b],
        decreases xs.len() - i,
    {
        let mut j: usize = 0;
        while j < i
            invariant
                j <= i < xs.len(),
                forall|a: int, b: int| 0 <= a < b < i ==> xs@[a] != xs@[b],
                forall|k: int| 0 <= k < j ==> xs@[k] != xs@[i as int],
            decreases i - j,
        {
            if xs[j] == xs[i] {
                proof {
                    assert(xs@[j as int] == xs@[i as int]);
                }
                return false;
            }
            j += 1;
        }
        i += 1;
    }
    true
}

/// Count the guessed characters that are not in the word.
pub fn count_wrong_exec(guessed: &Vec<char>, word: &Vec<char>) -> (n: usize)
    ensures
        n as nat == count_wrong(guessed@, word@),
{
    let mut n: usize = 0;
    let mut i: usize = 0;
    while i < guessed.len()
        invariant
            i <= guessed.len(),
            n as nat == count_wrong(guessed@.take(i as int), word@),
            n <= i,
        decreases guessed.len() - i,
    {
        proof {
            assert(guessed@.take(i + 1).drop_last() =~= guessed@.take(i as int));
            assert(guessed@.take(i + 1).last() == guessed@[i as int]);
        }
        if !contains_char(word, guessed[i]) {
            n += 1;
        }
        i += 1;
    }
    proof {
        assert(guessed@.take(guessed@.len() as int) =~= guessed@);
    }
    n
}

/// Appending one character adds one wrong guess when the character is not in
/// the word, none when it is.
pub proof fn lemma_count_wrong_push(guessed: Seq<char>, word: Seq<char>, c: char)
    ensures
        count_wrong(guessed.push(c), word) == count_wrong(guessed, word) + (if word.contains(c) {
            0nat
        } else {
            1nat
        }),
{
    assert(guessed.push(c).drop_last() =~= guessed);
    assert(guessed.push(c).last() == c);
}

/// Every guess keeps the game well-formed: in particular, remaining lives
/// plus the number of distinct wrong guesses always equal the starting
/// budget.
pub proof fn lemma_step_preserves_wf(v: GameView, c: char)
    requires
        wf(v),
        v.lives > 0,
    ensures
        wf(spec_step(v, c)),
{
    if !v.guessed.contains(c) {
        let v1 = spec_step(v, c);
        lemma_count_wrong_push(v.guessed, v.word, c);
        assert forall|i: int| 0 <= i < v1.correct.len() implies v.word.contains(
            #[trigger] v1.correct[i],
        ) by {
            if i < v.correct.len() {
                assert(v.word.contains(v.correct[i]));
            }
        };
        assert forall|i: int| 0 <= i < v1.correct.len() implies v1.guessed.contains(
            #[trigger] v1.correct[i],
        ) by {
            if i < v.correct.len() {
                assert(v.guessed.contains(v.correct[i]));
                let k = choose|k: int| 0 <= k < v.guessed.len() && v.guessed[k] == v.correct[i];
                assert(v1.guessed[k] == v.correct[i]);
            } else {
                assert(v1.correct[i] == c);
                assert(v1.guessed[v.guessed.len() as int] == c);
            }
        };
        assert forall|i: int|
            0 <= i < v1.guessed.len() && v.word.contains(
                #[trigger] v1.guessed[i],
            ) implies v1.correct.contains(v1.guessed[i]) by {
            if i < v.guessed.len() {
                assert(v.correct.contains(v.guessed[i]));
                let k = choose|k: int| 0 <= k < v.correct.len() && v.correct[k] == v.guessed[i];
                assert(v1.correct[k] == v.guessed[i]);
            } else {
                assert(v1.guessed[i] == c);
                assert(v1.correct[v.correct.len() as int] == c);
            }
        };
        assert(no_dups(v1.guessed)) by {
            assert forall|i: int, j: int| 0 <= i < j < v1.guessed.len() implies v1.guessed[i]
                != v1.guessed[j] by {
                if j == v.guessed.len() {
                    assert(v1.guessed[i] == v.guessed[i]);
                    assert(!v.guessed.contains(c));
                    assert(v.guessed[i] != c);
                }
            };
        };
        if v.word.contains(c) {
            assert(no_dups(v1.correct)) by {
                assert forall|i: int, j: int| 0 <= i < j < v1.correct.len() implies v1.correct[i]
                    != v1.correct[j] by {
                    if j == v.correct.len() {
                        assert(v1.correct[i] == v.correct[i]);
                        assert(v.guessed.contains(v.correct[i]));
                        if v.correct[i] == c {
                            assert(v.guessed.contains(c));
                        }
                    }
                };
            };
        }
    }
}

/// Re-guessing an already-guessed letter changes nothing: not the lives,
/// not the correct letters, not the placeholder, not the turn.
pub proof fn lemma_repeat_guess_changes_nothing(v: GameView, c: char)
    requires
        v.guessed.contains(c),
    ensures
        spec_step(v, c) == v,
        spec_outcome(v, c) == GuessOutcome::Repeat,
{
}

/// A lost game (no lives left) has consumed exactly six distinct incorrect
/// letters: the wrong guesses number `STARTING_LIVES` and hold no repeats.
pub proof fn lemma_lost_game_has_six_wrong_guesses(v: GameView)
    requires
        wf(v),
        v.lives == 0,
    ensures
        no_dups(v.guessed),
        count_wrong(v.guessed, v.word) == STARTING_LIVES,
{
}

/// A wrong guess on the last life ends the game as a loss, with the wrong
/// guesses then totalling the starting budget.
pub proof fn lemma_sixth_wrong_guess_loses(v: GameView, c: char)
    requires
        wf(v),
        v.lives == 1,
        !v.guessed.contains(c),
        !v.word.contains(c),
    ensures
        spec_outcome(v, c) == GuessOutcome::Lost,
        spec_step(v, c).lives == 0,
        count_wrong(spec_step(v, c).guessed, spec_step(v, c).word) == STARTING_LIVES,
{
    lemma_count_wrong_push(v.guessed, v.word, c);
}

impl GameState {
    /// Does the state satisfy the game invariant?
    pub open spec fn well_formed(&self) -> bool {
        wf(self@)
    }

    /// Start a fresh game: turn 1, full lives, nothing guessed, and a
    /// placeholder of blanks matching the word's length.
    pub fn new(
        player1: Vec<char>,
        player2: Option<Vec<char>>,
        chosen_word: Vec<char>,
        is_player1_choosing: bool,
    ) -> (s: GameState)
        ensures
            s@ == (GameView {
                player1: player1@,
                player2: opt_name_view(&player2),
                turn: 1nat,
                word: chosen_word@,
                placeholder: revealed_word(chosen_word@, Seq::<char>::empty()),
                correct: Seq::<char>::empty(),
                guessed: Seq::<char>::empty(),
                lives: STARTING_LIVES as nat,
                chooser: is_player1_choosing,
            }),
            s.well_formed(),
    {
        let no_letters: Vec<char> = Vec::new();
        let placeholder = compute_placeholder(&chosen_word, &no_letters);
        let s = GameState {
            player1,
            player2,
            turn: 1,
            chosen_word,
            placeholder,
            correct_letters: Vec::new(),
            guessed_letters: Vec::new(),
            lives: STARTING_LIVES,
            is_player1_choosing,
        };
        proof {
            assert(count_wrong(s@.guessed, s@.word) == 0);
        }
        s
    }

    /// The name of the player whose turn it is: with a chooser the second
    /// player always guesses (falling back to the first when absent);
    /// otherwise turn 1 is player 1 and turn 2 is player 2 (same fallback).
    pub fn current_player(&self) -> (name: &Vec<char>)
        ensures
            name@ == spec_current_player(self@),
    {
        if self.is_player1_choosing {
            match &self.player2 {
                Some(p) => p,
                None => &self.player1,
            }
        } else if self.turn == 1 {
            &self.player1
        } else {
            match &self.player2 {
                Some(p) => p,
                None => &self.player1,
            }
        }
    }

    /// Has the placeholder reached the word?
    pub fn is_won(&self) -> (r: bool)
        ensures
            r == spec_won(self@),
    {
        eq_chars(&self.placeholder, &self.chosen_word)
    }

    /// Decide the game invariant by computation, for states that arrive
    /// from outside (a loaded save file) rather than from `new`.
    pub fn check_well_formed(&self) -> (r: bool)
        ensures
            r == self.well_formed(),
    {
        let ph = compute_placeholder(&self.chosen_word, &self.correct_letters);
        if !eq_chars(&self.placeholder, &ph) {
            return false;
        }
        if !all_contained(&self.correct_letters, &self.chosen_word) {
            return false;
        }
        if !all_contained(&self.correct_letters, &self.guessed_letters) {
            return false;
        }
        if !word_guesses_recorded(&self.guessed_letters, &self.chosen_word, &self.correct_letters)
        {
            return false;
        }
        if !has_no_dups(&self.guessed_letters) {
            return false;
        }
        if !has_no_dups(&self.correct_letters) {
            return false;
        }
        if !(self.turn == 1 || self.turn == 2) {
            return false;
        }
        if self.lives > STARTING_LIVES {
            return false;
        }
        let wrong = count_wrong_exec(&self.guessed_letters, &self.chosen_word);
        wrong == STARTING_LIVES - self.lives
    }

    /// Resolve one guess: record the letter, reveal the placeholder or take
    /// a life, advance the turn when the game goes on, and report what
    /// happened. The state moves exactly to `spec_step` of the old state.
    pub fn apply_guess(&mut self, c: char) -> (out: GuessOutcome)
        requires
            old(self).well_formed(),
            old(self)@.lives > 0,
        ensures
            final(self)@ == spec_step(old(self)@, c),
            out == spec_outcome(old(self)@, c),
            final(self).well_formed(),
    {
        proof {
            lemma_step_preserves_wf(old(self)@, c);
        }
        if contains_char(&self.guessed_letters, c) {
            return GuessOutcome::Repeat;
        }
        self.guessed_letters.push(c);
        if contains_char(&self.chosen_word, c) {
            self.correct_letters.push(c);
            let ph = compute_placeholder(&self.chosen_word, &self.correct_letters);
            self.placeholder = ph;
            if eq_chars(&self.placeholder, &self.chosen_word) {
                proof {
                    assert(self@ =~= spec_step(old(self)@, c));
                }
                return GuessOutcome::Won;
            }
            if !self.is_player1_choosing {
                self.turn = if self.turn == 1 {
                    2
                } else {
                    1
                };
            }
            proof {
                assert(self@ =~= spec_step(old(self)@, c));
            }
            GuessOutcome::Correct
        } else {
            self.lives = self.lives - 1;
            if self.lives == 0 {
                proof {
                    assert(self@ =~= spec_step(old(self)@, c));
                }
                return GuessOutcome::Lost;
            }
            if !self.is_player1_choosing {
                self.turn = if self.turn == 1 {
                    2
                } else {
                    1
                };
            }
            proof {
                assert(self@ =~= spec_step(old(self)@, c));
            }
            GuessOutcome::Incorrect
        }
    }
}

/// The name of the player whose turn it is, as the model sees it.
pub open spec fn spec_current_player(v: GameView) -> Seq<char> {
    if v.chooser {
        match v.player2 {
            Some(p) => p,
            None => v.player1,
        }
    } else if v.turn == 1 {
        v.player1
    } else {
        match v.player2 {
            Some(p) => p,
            None => v.player1,
        }
    }
}

/// The state after a whole sequence of guesses, applied in order.
pub open spec fn spec_run(v: GameView, gs: Seq<char>) -> GameView
    decreases gs.len(),
{
    if gs.len() == 0 {
        v
    } else {
        spec_run(spec_step(v, gs[0]), gs.subrange(1, gs.len() as int))
    }
}

/// The guess that crosses a game from not-won to won reports the win.
pub proof fn lemma_win_is_reported(v: GameView, c: char)
    requires
        !spec_won(v),
        spec_won(spec_step(v, c)),
    ensures
        spec_outcome(v, c) == GuessOutcome::Won,
{
    if v.guessed.contains(c) {
        assert(spec_step(v, c) == v);
    }
}

/// Guessing every letter of the word reveals it: a guess sequence made of
/// letters of the word that covers every not-yet-revealed letter drives the
/// placeholder to the word itself — the won state — without costing a life,
/// and some guess along the way reports the win.
pub proof fn lemma_covering_guesses_win(v: GameView, gs: Seq<char>)
    requires
        wf(v),
        v.lives > 0,
        forall|k: int| 0 <= k < gs.len() ==> v.word.contains(#[trigger] gs[k]),
        forall|i: int|
            0 <= i < v.word.len() ==> gs.contains(#[trigger] v.word[i]) || v.correct.contains(
                v.word[i],
            ),
    ensures
        wf(spec_run(v, gs)),
        spec_run(v, gs).lives == v.lives,
        spec_won(spec_run(v, gs)),
        !spec_won(v) ==> exists|k: int|
            0 <= k < gs.len() && spec_outcome(spec_run(v, gs.take(k)), #[trigger] gs[k])
                == GuessOutcome::Won,
    decreases gs.len(),
{
    if gs.len() == 0 {
        assert(v.placeholder =~= v.word) by {
            assert forall|i: int| 0 <= i < v.word.len() implies revealed_word(v.word, v.correct)[i]
                == v.word[i] by {
                assert(v.correct.contains(v.word[i]));
            };
        };
    } else {
        let c = gs[0];
        let v1 = spec_step(v, c);
        let gs1 = gs.subrange(1, gs.len() as int);
        lemma_step_preserves_wf(v, c);
        assert(v.word.contains(c));
        assert(v1.word == v.word);
        assert(v1.lives == v.lives);
        assert forall|k: int| 0 <= k < gs1.len() implies v1.word.contains(#[trigger] gs1[k]) by {
            assert(gs1[k] == gs[k + 1]);
        };
        assert forall|i: int| 0 <= i < v1.word.len() implies gs1.contains(#[trigger] v1.word[i])
            || v1.correct.contains(v1.word[i]) by {
            let w = v.word[i];
            if v.correct.contains(w) {
                let k = choose|k: int| 0 <= k < v.correct.len() && v.correct[k] == w;
                assert(v1.correct[k] == w);
            } else if gs.contains(w) {
                let k = choose|k: int| 0 <= k < gs.len() && gs[k] == w;
                if gs[k] == c {
                    if v.guessed.contains(c) {
                        assert(v.correct.contains(c));
                        assert(false);
                    } else {
                        assert(v1.correct == v.correct.push(c));
                        assert(v1.correct[v.correct.len() as int] == w);
                    }
                } else {
                    assert(k != 0);
                    assert(gs1[k - 1] == w);
                }
            }
        };
        lemma_covering_guesses_win(v1, gs1);
        if !spec_won(v) {
            if spec_won(v1) {
                lemma_win_is_reported(v, c);
                assert(gs.take(0) =~= Seq::<char>::empty());
                assert(spec_run(v, gs.take(0)) == v);
                assert(spec_outcome(spec_run(v, gs.take(0)), gs[0]) == GuessOutcome::Won);
            } else {
                let k = choose|k: int|
                    0 <= k < gs1.len() && spec_outcome(spec_run(v1, gs1.take(k)), gs1[k])
                        == GuessOutcome::Won;
                let t = gs.take(k + 1);
                assert(t[0] == c);
                assert(t.subrange(1, k + 1) =~= gs1.take(k));
                assert(spec_run(v, t) == spec_run(v1, gs1.take(k)));
                assert(gs[k + 1] == gs1[k]);
                assert(spec_outcome(spec_run(v, gs.take(k + 1)), gs[k + 1])
                    == GuessOutcome::Won);
            }
        }
    }
}

} // verus!
