//! The save-file format: a game or a scoreboard written as plain text and
//! read back. Numbers appear as decimal digits closed by `;`, character
//! blocks as a length followed by the characters themselves. Decoding
//! accepts exactly what encoding produces — and proves it: decoding an
//! encoded value yields that value back.

use vstd::prelude::*;

use crate::game::{opt_name_view, wf, GameState, GameView};
use crate::scoreboard::{board_wf, views_of, PlayerScore, ScoreView, Scoreboard};

verus! {

/// The decimal digit character for `d` (meaningful for `d < 10`).
pub open spec fn digit_char(d: nat) -> char {
    if d == 0 {
        '0'
    } else if d == 1 {
        '1'
    } else if d == 2 {
        '2'
    } else if d == 3 {
        '3'
    } else if d == 4 {
        '4'
    } else if d == 5 {
        '5'
    } else if d == 6 {
        '6'
    } else if d == 7 {
        '7'
    } else if d == 8 {
        '8'
    } else {
        '9'
    }
}

/// Is `c` a decimal digit?
pub open spec fn is_digit(c: char) -> bool {
    c == '0' || c == '1' || c == '2' || c == '3' || c == '4' || c == '5' || c == '6' || c == '7'
        || c == '8' || c == '9'
}

/// The value of a digit character (meaningful when `is_digit` holds).
pub open spec fn digit_val(c: char) -> nat {
    if c == '0' {
        0
    } else if c == '1' {
        1
    } else if c == '2' {
        2
    } else if c == '3' {
        3
    } else if c == '4' {
        4
    } else if c == '5' {
        5
    } else if c == '6' {
        6
    } else if c == '7' {
        7
    } else if c == '8' {
        8
    } else {
        9
    }
}

/// The decimal digits of `n`, most significant first.
pub open spec fn dec_digits(n: nat) -> Seq<char>
    decreases n,
{
    if n < 10 {
        seq![digit_char(n)]
    } else {
        dec_digits(n / 10).push(digit_char(n % 10))
    }
}

/// A number on the wire: its digits closed by a semicolon.
pub open spec fn enc_nat(n: nat) -> Seq<char> {
    dec_digits(n) + seq![';']
}

/// Ten to the `k`.
pub open spec fn pow10(k: nat) -> nat
    decreases k,
{
    if k == 0 {
        1
    } else {
        10 * pow10((k - 1) as nat)
    }
}

/// Consume leading digits, folding them onto `acc`; return the value and
/// what follows the digits.
pub open spec fn parse_digits(s: Seq<char>, acc: nat) -> (nat, Seq<char>)
    decreases s.len(),
{
    if s.len() > 0 && is_digit(s[0]) {
        parse_digits(s.drop_first(), acc * 10 + digit_val(s[0]))
    } else {
        (acc, s)
    }
}

/// Read a number: at least one digit, then a semicolon; values beyond what
/// a machine word holds are rejected.
pub open spec fn parse_nat(s: Seq<char>) -> Option<(nat, Seq<char>)> {
    if s.len() == 0 || !is_digit(s[0]) {
        None
    } else {
        let pr = parse_digits(s, 0);
        if pr.1.len() > 0 && pr.1[0] == ';' && pr.0 <= usize::MAX {
            Some((pr.0, pr.1.drop_first()))
        } else {
            None
        }
    }
}

/// Every character of a number's digit string is a digit, and there is at
/// least one.
pub proof fn lemma_dec_digits_are_digits(n: nat)
    ensures
        dec_digits(n).len() >= 1,
        forall|i: int| 0 <= i < dec_digits(n).len() ==> is_digit(#[trigger] dec_digits(n)[i]),
    decreases n,
{
    if n >= 10 {
        lemma_dec_digits_are_digits(n / 10);
        assert forall|i: int| 0 <= i < dec_digits(n).len() implies is_digit(
            #[trigger] dec_digits(n)[i],
        ) by {
            if i < dec_digits(n / 10).len() {
                assert(dec_digits(n)[i] == dec_digits(n / 10)[i]);
            } else {
                assert(dec_digits(n)[i] == digit_char(n % 10));
            }
        };
    }
}

/// Folding a digit string onto an accumulator multiplies the accumulator by
/// the string's power of ten and adds the number.
pub proof fn lemma_parse_digits_of_enc(n: nat, rest: Seq<char>, acc: nat)
    ensures
        parse_digits(dec_digits(n) + rest, acc) == parse_digits(
            rest,
            acc * pow10(dec_digits(n).len()) + n,
        ),
    decreases n,
{
    if n < 10 {
        let s = dec_digits(n) + rest;
        assert(s[0] == digit_char(n));
        assert(digit_val(digit_char(n)) == n);
        assert(s.drop_first() =~= rest);
        assert(pow10(1) == 10 * pow10(0));
        assert(parse_digits(s, acc) == parse_digits(rest, acc * 10 + n));
    } else {
        let d = digit_char(n % 10);
        let head = dec_digits(n / 10);
        assert(dec_digits(n) + rest =~= head + (seq![d] + rest));
        lemma_parse_digits_of_enc(n / 10, seq![d] + rest, acc);
        let p = pow10(head.len());
        let mid = acc * p + n / 10;
        let s1 = seq![d] + rest;
        assert(s1[0] == d);
        assert(digit_val(d) == n % 10) by {
            assert(0 <= n % 10 < 10);
        };
        assert(s1.drop_first() =~= rest);
        assert(parse_digits(s1, mid) == parse_digits(rest, mid * 10 + n % 10));
        assert(dec_digits(n).len() == head.len() + 1);
        assert(pow10(head.len() + 1) == 10 * p);
        assert((acc * p + n / 10) * 10 + n % 10 == acc * (10 * p) + ((n / 10) * 10 + n % 10))
            by (nonlinear_arith);
        assert((n / 10) * 10 + n % 10 == n) by {
            vstd::arithmetic::div_mod::lemma_fundamental_div_mod(n as int, 10);
        };
    }
}

/// What the digit fold returns never falls below the accumulator it began
/// with.
pub proof fn lemma_parse_digits_ge_acc(s: Seq<char>, acc: nat)
    ensures
        parse_digits(s, acc).0 >= acc,
    decreases s.len(),
{
    if s.len() > 0 && is_digit(s[0]) {
        lemma_parse_digits_ge_acc(s.drop_first(), acc * 10 + digit_val(s[0]));
    }
}

/// Reading back an encoded number yields the number and what followed it.
pub proof fn lemma_parse_nat_of_enc(n: nat, rest: Seq<char>)
    requires
        n <= usize::MAX,
    ensures
        parse_nat(enc_nat(n) + rest) == Some((n, rest)),
{
    let s = enc_nat(n) + rest;
    lemma_dec_digits_are_digits(n);
    assert(s[0] == dec_digits(n)[0]);
    assert(s =~= dec_digits(n) + (seq![';'] + rest));
    lemma_parse_digits_of_enc(n, seq![';'] + rest, 0);
    let tail = seq![';'] + rest;
    assert(parse_digits(tail, n) == (n, tail));
    assert(parse_digits(s, 0) == (n, tail));
    assert(tail[0] == ';');
    assert(tail.drop_first() =~= rest);
}

/// A character block on the wire: its length, then the characters.
pub open spec fn enc_chars(w: Seq<char>) -> Seq<char> {
    enc_nat(w.len()) + w
}

/// Read a character block: a length, then that many characters.
pub open spec fn parse_chars(s: Seq<char>) -> Option<(Seq<char>, Seq<char>)> {
    match parse_nat(s) {
        Some((n, rest)) => if rest.len() >= n {
            Some((rest.take(n as int), rest.skip(n as int)))
        } else {
            None
        },
        None => None,
    }
}

/// A flag on the wire: one character.
pub open spec fn enc_bool(b: bool) -> Seq<char> {
    if b {
        seq!['1']
    } else {
        seq!['0']
    }
}

/// Read a flag.
pub open spec fn parse_bool(s: Seq<char>) -> Option<(bool, Seq<char>)> {
    if s.len() > 0 && s[0] == '1' {
        Some((true, s.drop_first()))
    } else if s.len() > 0 && s[0] == '0' {
        Some((false, s.drop_first()))
    } else {
        None
    }
}

/// An optional character block: a presence flag, then the block when present.
pub open spec fn enc_opt_chars(p: Option<Seq<char>>) -> Seq<char> {
    match p {
        Some(w) => seq!['1'] + enc_chars(w),
        None => seq!['0'],
    }
}

/// Read an optional character block.
pub open spec fn parse_opt_chars(s: Seq<char>) -> Option<(Option<Seq<char>>, Seq<char>)> {
    match parse_bool(s) {
        Some((b, rest)) => if b {
            match parse_chars(rest) {
                Some((w, rest2)) => Some((Some(w), rest2)),
                None => None,
            }
        } else {
            Some((None, rest))
        },
        None => None,
    }
}

/// Reading back an encoded character block yields the block's characters.
pub proof fn lemma_parse_chars_of_enc(w: Seq<char>, rest: Seq<char>)
    requires
        w.len() <= usize::MAX,
    ensures
        parse_chars(enc_chars(w) + rest) == Some((w, rest)),
{
    assert(enc_chars(w) + rest =~= enc_nat(w.len()) + (w + rest));
    lemma_parse_nat_of_enc(w.len(), w + rest);
    assert((w + rest).take(w.len() as int) =~= w);
    assert((w + rest).skip(w.len() as int) =~= rest);
}

/// Reading back an encoded flag yields the flag.
pub proof fn lemma_parse_bool_of_enc(b: bool, rest: Seq<char>)
    ensures
        parse_bool(enc_bool(b) + rest) == Some((b, rest)),
{
    assert((enc_bool(b) + rest)[0] == (if b {
        '1'
    } else {
        '0'
    }));
    assert((enc_bool(b) + rest).drop_first() =~= rest);
}

/// Reading back an encoded optional block yields the optional value.
pub proof fn lemma_parse_opt_chars_of_enc(p: Option<Seq<char>>, rest: Seq<char>)
    requires
        match p {
            Some(w) => w.len() <= usize::MAX,
            None => true,
        },
    ensures
        parse_opt_chars(enc_opt_chars(p) + rest) == Some((p, rest)),
{
    match p {
        Some(w) => {
            assert(enc_opt_chars(p) + rest =~= enc_bool(true) + (enc_chars(w) + rest));
            lemma_parse_bool_of_enc(true, enc_chars(w) + rest);
            lemma_parse_chars_of_enc(w, rest);
        },
        None => {
            assert(enc_opt_chars(p) + rest =~= enc_bool(false) + rest);
            lemma_parse_bool_of_enc(false, rest);
        },
    }
}

/// A whole game on the wire: both names, the turn, the word, the
/// placeholder, both letter sets, the lives and the chooser flag, in order.
pub open spec fn enc_game(v: GameView) -> Seq<char> {
    enc_chars(v.player1) + enc_opt_chars(v.player2) + enc_nat(v.turn) + enc_chars(v.word)
        + enc_chars(v.placeholder) + enc_chars(v.correct) + enc_chars(v.guessed) + enc_nat(v.lives)
        + enc_bool(v.chooser)
}

/// Read a whole game record; nothing may follow it.
pub open spec fn parse_game(s: Seq<char>) -> Option<GameView> {
    match parse_chars(s) {
        None => None,
        Some((player1, s1)) => match parse_opt_chars(s1) {
            None => None,
            Some((player2, s2)) => match parse_nat(s2) {
                None => None,
                Some((turn, s3)) => match parse_chars(s3) {
                    None => None,
                    Some((word, s4)) => match parse_chars(s4) {
                        None => None,
                        Some((placeholder, s5)) => match parse_chars(s5) {
                            None => None,
                            Some((correct, s6)) => match parse_chars(s6) {
                                None => None,
                                Some((guessed, s7)) => match parse_nat(s7) {
                                    None => None,
                                    Some((lives, s8)) => match parse_bool(s8) {
                                        None => None,
                                        Some((chooser, s9)) => if s9.len() == 0 {
                                            Some(
                                                GameView {
                                                    player1,
                                                    player2,
                                                    turn,
                                                    word,
                                                    placeholder,
                                                    correct,
                                                    guessed,
                                                    lives,
                                                    chooser,
                                                },
                                            )
                                        } else {
                                            None
                                        },
                                    },
                                },
                            },
                        },
                    },
                },
            },
        },
    }
}

/// What decoding accepts: a complete game record that satisfies the game
/// invariant; anything else is malformed.
pub open spec fn spec_decode_game(s: Seq<char>) -> Option<GameView> {
    match parse_game(s) {
        Some(v) => if wf(v) {
            Some(v)
        } else {
            None
        },
        None => None,
    }
}

/// Round trip: decoding an encoded game reproduces the identical game —
/// same names, turn, word, placeholder, letter sets, lives and chooser flag.
#[verifier::rlimit(100)]
pub proof fn lemma_game_roundtrip(v: GameView)
    requires
        wf(v),
        v.player1.len() <= usize::MAX,
        match v.player2 {
            Some(p) => p.len() <= usize::MAX,
            None => true,
        },
        v.turn <= usize::MAX,
        v.word.len() <= usize::MAX,
        v.placeholder.len() <= usize::MAX,
        v.correct.len() <= usize::MAX,
        v.guessed.len() <= usize::MAX,
        v.lives <= usize::MAX,
    ensures
        spec_decode_game(enc_game(v)) == Some(v),
{
    let e9 = enc_bool(v.chooser);
    let r8 = enc_nat(v.lives) + e9;
    let r7 = enc_chars(v.guessed) + r8;
    let r6 = enc_chars(v.correct) + r7;
    let r5 = enc_chars(v.placeholder) + r6;
    let r4 = enc_chars(v.word) + r5;
    let r3 = enc_nat(v.turn) + r4;
    let r2 = enc_opt_chars(v.player2) + r3;
    let r1 = enc_chars(v.player1) + r2;
    assert(enc_game(v) =~= r1);
    lemma_parse_chars_of_enc(v.player1, r2);
    assert(parse_chars(r1) == Some((v.player1, r2)));
    lemma_parse_opt_chars_of_enc(v.player2, r3);
    assert(parse_opt_chars(r2) == Some((v.player2, r3)));
    lemma_parse_nat_of_enc(v.turn, r4);
    assert(parse_nat(r3) == Some((v.turn, r4)));
    lemma_parse_chars_of_enc(v.word, r5);
    assert(parse_chars(r4) == Some((v.word, r5)));
    lemma_parse_chars_of_enc(v.placeholder, r6);
    assert(parse_chars(r5) == Some((v.placeholder, r6)));
    lemma_parse_chars_of_enc(v.correct, r7);
    assert(parse_chars(r6) == Some((v.correct, r7)));
    lemma_parse_chars_of_enc(v.guessed, r8);
    assert(parse_chars(r7) == Some((v.guessed, r8)));
    lemma_parse_nat_of_enc(v.lives, e9);
    assert(parse_nat(r8) == Some((v.lives, e9)));
    lemma_parse_bool_of_enc(v.chooser, Seq::<char>::empty());
    assert(enc_bool(v.chooser) + Seq::<char>::empty() =~= e9);
    assert(parse_bool(e9) == Some((v.chooser, Seq::<char>::empty())));
    assert(parse_game(enc_game(v)) == Some(v));
}

/// The character for one decimal digit.
fn digit_of(d: usize) -> (c: char)
    requires
        d < 10,
    ensures
        c == digit_char(d as nat),
{
    if d == 0 {
        '0'
    } else if d == 1 {
        '1'
    } else if d == 2 {
        '2'
    } else if d == 3 {
        '3'
    } else if d == 4 {
        '4'
    } else if d == 5 {
        '5'
    } else if d == 6 {
        '6'
    } else if d == 7 {
        '7'
    } else if d == 8 {
        '8'
    } else {
        '9'
    }
}

/// The value of one digit character, when it is one.
fn digit_value(c: char) -> (r: Option<usize>)
    ensures
        match r {
            Some(d) => is_digit(c) && d < 10 && d as nat == digit_val(c),
            None => !is_digit(c),
        },
{
    if c == '0' {
        Some(0)
    } else if c == '1' {
        Some(1)
    } else if c == '2' {
        Some(2)
    } else if c == '3' {
        Some(3)
    } else if c == '4' {
        Some(4)
    } else if c == '5' {
        Some(5)
    } else if c == '6' {
        Some(6)
    } else if c == '7' {
        Some(7)
    } else if c == '8' {
        Some(8)
    } else if c == '9' {
        Some(9)
    } else {
        None
    }
}

/// Append the decimal digits of `n`.
fn push_digits(out: &mut Vec<char>, n: usize)
    ensures
        final(out)@ == old(out)@ + dec_digits(n as nat),
    decreases n,
{
    if n < 10 {
        out.push(digit_of(n));
        proof {
            assert(out@ =~= old(out)@ + dec_digits(n as nat));
        }
    } else {
        push_digits(out, n / 10);
        out.push(digit_of(n % 10));
        proof {
            assert(out@ =~= old(out)@ + dec_digits(n as nat));
        }
    }
}

/// Append a number, closed by a semicolon.
fn push_nat(out: &mut Vec<char>, n: usize)
    ensures
        final(out)@ == old(out)@ + enc_nat(n as nat),
{
    push_digits(out, n);
    out.push(';');
    proof {
        assert(out@ =~= old(out)@ + enc_nat(n as nat));
    }
}

/// Append a character block: its length, then the characters.
fn push_chars_block(out: &mut Vec<char>, w: &Vec<char>)
    ensures
        final(out)@ == old(out)@ + enc_chars(w@),
{
    push_nat(out, w.len());
    let mut i: usize = 0;
    while i < w.len()
        invariant
            i <= w.len(),
            out@ == old(out)@ + enc_nat(w@.len()) + w@.take(i as int),
        decreases w.len() - i,
    {
        out.push(w[i]);
        proof {
            assert(w@.take(i as int).push(w@[i as int]) =~= w@.take(i + 1));
            assert(out@ =~= old(out)@ + enc_nat(w@.len()) + w@.take(i + 1));
        }
        i += 1;
    }
    proof {
        assert(w@.take(w@.len() as int) =~= w@);
        assert(out@ =~= old(out)@ + enc_chars(w@));
    }
}

/// Append an optional character block behind its presence flag.
fn push_opt_chars(out: &mut Vec<char>, p: &Option<Vec<char>>)
    ensures
        final(out)@ == old(out)@ + enc_opt_chars(opt_name_view(p)),
{
    match p {
        Some(w) => {
            out.push('1');
            push_chars_block(out, w);
            proof {
                assert(out@ =~= old(out)@ + enc_opt_chars(opt_name_view(p)));
            }
        },
        None => {
            out.push('0');
            proof {
                assert(out@ =~= old(out)@ + enc_opt_chars(opt_name_view(p)));
            }
        },
    }
}

/// Write a game as save-file text.
pub fn encode_game(g: &GameState) -> (out: Vec<char>)
    ensures
        out@ == enc_game(g@),
{
    let mut out: Vec<char> = Vec::new();
    push_chars_block(&mut out, &g.player1);
    push_opt_chars(&mut out, &g.player2);
    push_nat(&mut out, g.turn);
    push_chars_block(&mut out, &g.chosen_word);
    push_chars_block(&mut out, &g.placeholder);
    push_chars_block(&mut out, &g.correct_letters);
    push_chars_block(&mut out, &g.guessed_letters);
    push_nat(&mut out, g.lives);
    let flag = if g.is_player1_choosing {
        '1'
    } else {
        '0'
    };
    out.push(flag);
    proof {
        assert(out@ =~= enc_game(g@));
    }
    out
}

/// Read a number starting at position `i`; on success return it with the
/// position just past its closing semicolon.
fn parse_nat_at(s: &Vec<char>, i: usize) -> (r: Option<(usize, usize)>)
    requires
        i <= s.len(),
    ensures
        match r {
            Some((n, j)) => i <= j <= s@.len() && parse_nat(s@.skip(i as int)) == Some(
                ((n as nat), s@.skip(j as int)),
            ),
            None => parse_nat(s@.skip(i as int)) is None,
        },
{
    if i == s.len() {
        return None;
    }
    match digit_value(s[i]) {
        None => {
            proof {
                assert(s@.skip(i as int)[0] == s@[i as int]);
            }
            return None;
        },
        Some(_) => {
        },
    }
    let ghost whole = s@.skip(i as int);
    let mut cur = i;
    let mut acc: usize = 0;
    loop
        invariant
            i <= cur <= s.len(),
            whole == s@.skip(i as int),
            parse_digits(whole, 0) == parse_digits(s@.skip(cur as int), acc as nat),
        ensures
            i <= cur <= s.len(),
            parse_digits(whole, 0) == parse_digits(s@.skip(cur as int), acc as nat),
            cur == s.len() || !is_digit(s@[cur as int]),
        decreases s.len() - cur,
    {
        if cur == s.len() {
            break;
        }
        let d = match digit_value(s[cur]) {
            Some(d) => d,
            None => {
                proof {
                    assert(s@.skip(cur as int)[0] == s@[cur as int]);
                }
                break;
            },
        };
        proof {
            assert(s@.skip(cur as int)[0] == s@[cur as int]);
            assert(s@.skip(cur as int).drop_first() =~= s@.skip(cur + 1));
        }
        if acc > (usize::MAX - d) / 10 {
            proof {
                vstd::arithmetic::div_mod::lemma_fundamental_div_mod(
                    (usize::MAX - d) as int,
                    10,
                );
                assert(acc * 10 + d > usize::MAX);
                lemma_parse_digits_ge_acc(s@.skip(cur + 1), acc as nat * 10 + d as nat);
                assert(parse_digits(whole, 0).0 > usize::MAX);
            }
            return None;
        }
        proof {
            vstd::arithmetic::div_mod::lemma_fundamental_div_mod((usize::MAX - d) as int, 10);
            assert(acc * 10 + d <= usize::MAX);
        }
        acc = acc * 10 + d;
        cur += 1;
    }
    proof {
        if cur == s.len() {
            assert(s@.skip(cur as int).len() == 0);
        } else {
            assert(s@.skip(cur as int)[0] == s@[cur as int]);
        }
        assert(parse_digits(whole, 0) == ((acc as nat), s@.skip(cur as int)));
    }
    if cur < s.len() {
        if s[cur] == ';' {
            proof {
                assert(s@.skip(cur as int)[0] == ';');
                assert(s@.skip(cur as int).drop_first() =~= s@.skip(cur + 1));
            }
            return Some((acc, cur + 1));
        }
        proof {
            assert(s@.skip(cur as int)[0] == s@[cur as int]);
        }
        None
    } else {
        None
    }
}

/// Read a character block starting at position `i`.
fn parse_chars_at(s: &Vec<char>, i: usize) -> (r: Option<(Vec<char>, usize)>)
    requires
        i <= s.len(),
    ensures
        match r {
            Some((w, j)) => i <= j <= s@.len() && parse_chars(s@.skip(i as int)) == Some(
                (w@, s@.skip(j as int)),
            ),
            None => parse_chars(s@.skip(i as int)) is None,
        },
{
    match parse_nat_at(s, i) {
        None => None,
        Some((n, j)) => {
            if n <= s.len() - j {
                let mut w: Vec<char> = Vec::new();
                let mut k = j;
                while k < j + n
                    invariant
                        j <= k <= j + n,
                        j + n <= s.len(),
                        w@ == s@.subrange(j as int, k as int),
                    decreases j + n - k,
                {
                    w.push(s[k]);
                    proof {
                        assert(s@.subrange(j as int, k as int).push(s@[k as int]) =~= s@.subrange(
                            j as int,
                            k + 1,
                        ));
                    }
                    k += 1;
                }
                proof {
                    assert(s@.skip(j as int).take(n as int) =~= s@.subrange(j as int, (j + n) as int));
                    assert(s@.skip(j as int).skip(n as int) =~= s@.skip((j + n) as int));
                }
                Some((w, j + n))
            } else {
                proof {
                    assert(s@.skip(j as int).len() < n as nat);
                }
                None
            }
        },
    }
}

/// Read a flag starting at position `i`.
fn parse_bool_at(s: &Vec<char>, i: usize) -> (r: Option<(bool, usize)>)
    requires
        i <= s.len(),
    ensures
        match r {
            Some((b, j)) => i <= j <= s@.len() && parse_bool(s@.skip(i as int)) == Some(
                (b, s@.skip(j as int)),
            ),
            None => parse_bool(s@.skip(i as int)) is None,
        },
{
    if i == s.len() {
        return None;
    }
    proof {
        assert(s@.skip(i as int)[0] == s@[i as int]);
        assert(s@.skip(i as int).drop_first() =~= s@.skip(i + 1));
    }
    let c = s[i];
    if c == '1' {
        Some((true, i + 1))
    } else if c == '0' {
        Some((false, i + 1))
    } else {
        None
    }
}

/// Read an optional character block starting at position `i`.
fn parse_opt_chars_at(s: &Vec<char>, i: usize) -> (r: Option<(Option<Vec<char>>, usize)>)
    requires
        i <= s.len(),
    ensures
        match r {
            Some((p, j)) => i <= j <= s@.len() && parse_opt_chars(s@.skip(i as int)) == Some(
                (opt_name_view(&p), s@.skip(j as int)),
            ),
            None => parse_opt_chars(s@.skip(i as int)) is None,
        },
{
    match parse_bool_at(s, i) {
        None => None,
        Some((b, j)) => {
            if b {
                match parse_chars_at(s, j) {
                    None => None,
                    Some((w, j2)) => Some((Some(w), j2)),
                }
            } else {
                Some((None, j))
            }
        },
    }
}

/// Read a game back from save-file text. The record must parse completely
/// and satisfy the game invariant; anything else is rejected as malformed.
pub fn decode_game(s: &Vec<char>) -> (r: Option<GameState>)
    ensures
        match r {
            Some(g) => spec_decode_game(s@) == Some(g@) && g.well_formed(),
            None => spec_decode_game(s@) is None,
        },
{
    proof {
        assert(s@.skip(0) =~= s@);
    }
    let (player1, j1) = match parse_chars_at(s, 0) {
        None => {
            return None;
        },
        Some(x) => x,
    };
    let (player2, j2) = match parse_opt_chars_at(s, j1) {
        None => {
            return None;
        },
        Some(x) => x,
    };
    let (turn, j3) = match parse_nat_at(s, j2) {
        None => {
            return None;
        },
        Some(x) => x,
    };
    let (word, j4) = match parse_chars_at(s, j3) {
        None => {
            return None;
        },
        Some(x) => x,
    };
    let (placeholder, j5) = match parse_chars_at(s, j4) {
        None => {
            return None;
        },
        Some(x) => x,
    };
    let (correct, j6) = match parse_chars_at(s, j5) {
        None => {
            return None;
        },
        Some(x) => x,
    };
    let (guessed, j7) = match parse_chars_at(s, j6) {
        None => {
            return None;
        },
        Some(x) => x,
    };
    let (lives, j8) = match parse_nat_at(s, j7) {
        None => {
            return None;
        },
        Some(x) => x,
    };
    let (chooser, j9) = match parse_bool_at(s, j8) {
        None => {
            return None;
        },
        Some(x) => x,
    };
    if j9 != s.len() {
        proof {
            assert(s@.skip(j9 as int).len() > 0);
        }
        return None;
    }
    let g = GameState {
        player1,
        player2,
        turn,
        chosen_word: word,
        placeholder,
        correct_letters: correct,
        guessed_letters: guessed,
        lives,
        is_player1_choosing: chooser,
    };
    proof {
        assert(s@.skip(j9 as int).len() == 0);
        assert(parse_game(s@) == Some(g@));
    }
    if g.check_well_formed() {
        Some(g)
    } else {
        None
    }
}

/// One scoreboard row on the wire: the name block, then the win count.
pub open spec fn enc_score(e: ScoreView) -> Seq<char> {
    enc_chars(e.name) + enc_nat(e.wins)
}

/// All rows on the wire, in board order.
pub open spec fn enc_scores(s: Seq<ScoreView>) -> Seq<char>
    decreases s.len(),
{
    if s.len() == 0 {
        Seq::empty()
    } else {
        enc_score(s[0]) + enc_scores(s.drop_first())
    }
}

/// A whole scoreboard on the wire: the row count, then the rows.
pub open spec fn enc_board(s: Seq<ScoreView>) -> Seq<char> {
    enc_nat(s.len()) + enc_scores(s)
}

/// Read `n` scoreboard rows.
pub open spec fn parse_scores(s: Seq<char>, n: nat) -> Option<(Seq<ScoreView>, Seq<char>)>
    decreases n,
{
    if n == 0 {
        Some((Seq::empty(), s))
    } else {
        match parse_chars(s) {
            None => None,
            Some((name, s1)) => match parse_nat(s1) {
                None => None,
                Some((w, s2)) => match parse_scores(s2, (n - 1) as nat) {
                    None => None,
                    Some((rest, s3)) => Some((seq![ScoreView { name, wins: w }] + rest, s3)),
                },
            },
        }
    }
}

/// Read a whole scoreboard record; nothing may follow it.
pub open spec fn parse_board(s: Seq<char>) -> Option<Seq<ScoreView>> {
    match parse_nat(s) {
        None => None,
        Some((n, s1)) => match parse_scores(s1, n) {
            None => None,
            Some((entries, s2)) => if s2.len() == 0 {
                Some(entries)
            } else {
                None
            },
        },
    }
}

/// What decoding accepts: a complete scoreboard record that satisfies the
/// board invariant; anything else is malformed.
pub open spec fn spec_decode_board(s: Seq<char>) -> Option<Seq<ScoreView>> {
    match parse_board(s) {
        Some(b) => if board_wf(b) {
            Some(b)
        } else {
            None
        },
        None => None,
    }
}

/// Reading back encoded rows yields the rows and what followed them.
pub proof fn lemma_parse_scores_of_enc(s: Seq<ScoreView>, rest: Seq<char>)
    requires
        forall|i: int|
            0 <= i < s.len() ==> (#[trigger] s[i].name).len() <= usize::MAX && s[i].wins
                <= usize::MAX,
    ensures
        parse_scores(enc_scores(s) + rest, s.len()) == Some((s, rest)),
    decreases s.len(),
{
    if s.len() == 0 {
        assert(enc_scores(s) + rest =~= rest);
    } else {
        let e = s[0];
        let tail = s.drop_first();
        let after_name = enc_nat(e.wins) + (enc_scores(tail) + rest);
        assert(enc_scores(s) + rest =~= enc_chars(e.name) + after_name);
        lemma_parse_chars_of_enc(e.name, after_name);
        lemma_parse_nat_of_enc(e.wins, enc_scores(tail) + rest);
        assert forall|i: int| 0 <= i < tail.len() implies (#[trigger] tail[i].name).len()
            <= usize::MAX && tail[i].wins <= usize::MAX by {
            assert(tail[i] == s[i + 1]);
        };
        lemma_parse_scores_of_enc(tail, rest);
        assert(ScoreView { name: e.name, wins: e.wins } == e);
        assert(seq![e] + tail =~= s);
    }
}

/// Round trip for the scoreboard: decoding an encoded board reproduces the
/// identical board, entry for entry.
pub proof fn lemma_board_roundtrip(s: Seq<ScoreView>)
    requires
        board_wf(s),
        s.len() <= usize::MAX,
        forall|i: int|
            0 <= i < s.len() ==> (#[trigger] s[i].name).len() <= usize::MAX && s[i].wins
                <= usize::MAX,
    ensures
        spec_decode_board(enc_board(s)) == Some(s),
{
    assert(enc_board(s) =~= enc_nat(s.len()) + enc_scores(s));
    lemma_parse_nat_of_enc(s.len(), enc_scores(s));
    lemma_parse_scores_of_enc(s, Seq::<char>::empty());
    assert(enc_scores(s) + Seq::<char>::empty() =~= enc_scores(s));
    assert(parse_board(enc_board(s)) == Some(s));
}

/// Appending one row extends the rows' encoding at its end.
pub proof fn lemma_enc_scores_push(s: Seq<ScoreView>, e: ScoreView)
    ensures
        enc_scores(s.push(e)) == enc_scores(s) + enc_score(e),
    decreases s.len(),
{
    if s.len() == 0 {
        assert(s.push(e)[0] == e);
        assert(s.push(e).drop_first() =~= Seq::<ScoreView>::empty());
        assert(enc_scores(Seq::<ScoreView>::empty()) == Seq::<char>::empty());
        assert(enc_scores(s.push(e)) == enc_score(e) + Seq::<char>::empty());
        assert(enc_score(e) + Seq::<char>::empty() =~= Seq::<char>::empty() + enc_score(e));
    } else {
        assert(s.push(e)[0] == s[0]);
        assert(s.push(e).drop_first() =~= s.drop_first().push(e));
        lemma_enc_scores_push(s.drop_first(), e);
        assert(enc_score(s[0]) + (enc_scores(s.drop_first()) + enc_score(e)) =~= (enc_score(s[0])
            + enc_scores(s.drop_first())) + enc_score(e));
    }
}

/// Write a scoreboard as save-file text.
pub fn encode_board(b: &Scoreboard) -> (out: Vec<char>)
    ensures
        out@ == enc_board(b@),
{
    let mut out: Vec<char> = Vec::new();
    push_nat(&mut out, b.players.len());
    let mut i: usize = 0;
    while i < b.players.len()
        invariant
            i <= b.players.len(),
            out@ == enc_nat(b@.len()) + enc_scores(b@.take(i as int)),
        decreases b.players.len() - i,
    {
        push_chars_block(&mut out, &b.players[i].name);
        push_nat(&mut out, b.players[i].wins);
        proof {
            assert(b@.take(i as int).push(b@[i as int]) =~= b@.take(i + 1));
            lemma_enc_scores_push(b@.take(i as int), b@[i as int]);
            assert(out@ =~= enc_nat(b@.len()) + enc_scores(b@.take(i + 1)));
        }
        i += 1;
    }
    proof {
        assert(b@.take(b@.len() as int) =~= b@);
    }
    out
}

/// Read a scoreboard back from save-file text. The record must parse
/// completely and satisfy the board invariant; anything else is rejected.
pub fn decode_board(s: &Vec<char>) -> (r: Option<Scoreboard>)
    ensures
        match r {
            Some(b) => spec_decode_board(s@) == Some(b@) && b.well_formed(),
            None => spec_decode_board(s@) is None,
        },
{
    proof {
        assert(s@.skip(0) =~= s@);
    }
    let (n, j0) = match parse_nat_at(s, 0) {
        None => {
            return None;
        },
        Some(x) => x,
    };
    let mut players: Vec<PlayerScore> = Vec::new();
    let mut cur = j0;
    let mut k: usize = 0;
    while k < n
        invariant
            k <= n,
            cur <= s.len(),
            j0 <= s@.len(),
            parse_nat(s@) == Some(((n as nat), s@.skip(j0 as int))),
            parse_scores(s@.skip(j0 as int), n as nat) == (match parse_scores(
                s@.skip(cur as int),
                (n - k) as nat,
            ) {
                Some((es, r2)) => Some((views_of(players@) + es, r2)),
                None => None::<(Seq<ScoreView>, Seq<char>)>,
            }),
        decreases n - k,
    {
        let (name, c1) = match parse_chars_at(s, cur) {
            None => {
                proof {
                    assert(parse_scores(s@.skip(cur as int), (n - k) as nat) is None);
                    assert(parse_scores(s@.skip(j0 as int), n as nat) is None);
                }
                return None;
            },
            Some(x) => x,
        };
        let (w, c2) = match parse_nat_at(s, c1) {
            None => {
                proof {
                    assert(parse_scores(s@.skip(cur as int), (n - k) as nat) is None);
                    assert(parse_scores(s@.skip(j0 as int), n as nat) is None);
                }
                return None;
            },
            Some(x) => x,
        };
        let ghost old_players = players@;
        players.push(PlayerScore { name, wins: w });
        proof {
            let e = ScoreView { name: name@, wins: w as nat };
            assert(views_of(players@) =~= views_of(old_players).push(e));
            match parse_scores(s@.skip(c2 as int), (n - k - 1) as nat) {
                Some((rest2, r2)) => {
                    assert(views_of(old_players) + (seq![e] + rest2) =~= views_of(players@)
                        + rest2);
                },
                None => {
                },
            }
        }
        cur = c2;
        k += 1;
    }
    proof {
        assert(parse_scores(s@.skip(cur as int), (n - k) as nat) == Some(
            (Seq::<ScoreView>::empty(), s@.skip(cur as int)),
        ));
        assert(views_of(players@) + Seq::<ScoreView>::empty() =~= views_of(players@));
        assert(parse_scores(s@.skip(j0 as int), n as nat) == Some(
            (views_of(players@), s@.skip(cur as int)),
        ));
    }
    if cur != s.len() {
        proof {
            assert(s@.skip(cur as int).len() > 0);
        }
        return None;
    }
    let b = Scoreboard { players };
    proof {
        assert(s@.skip(cur as int).len() == 0);
        assert(parse_board(s@) == Some(b@));
    }
    if b.check_well_formed() {
        Some(b)
    } else {
        None
    }
}

/// Rebuild the scoreboard from an optional save text: a missing file or a
/// record that fails to decode yields the empty scoreboard, never an error.
pub fn load_board(data: Option<&Vec<char>>) -> (b: Scoreboard)
    ensures
        b.well_formed(),
        b@ == (match data {
            Some(d) => match spec_decode_board(d@) {
                Some(entries) => entries,
                None => Seq::<ScoreView>::empty(),
            },
            None => Seq::<ScoreView>::empty(),
        }),
{
    match data {
        None => Scoreboard::new(),
        Some(d) => match decode_board(d) {
            Some(b) => b,
            None => Scoreboard::new(),
        },
    }
}

} // verus!
