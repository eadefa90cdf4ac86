//! The fixed word list a single-player game draws from, and the random
//! pick itself. The draw goes through the `rand` crate; everything the rest
//! of the library needs to know — the result is one of the five words — is
//! stated and proved around it.

use vstd::prelude::*;

use rand::Rng;
use vstd::string::StrSliceExecFns;

verus! {

/// The five words a single-player game may draw.
pub open spec fn spec_word_list() -> Seq<Seq<char>> {
    seq!["bicycle"@, "hangman"@, "elephant"@, "laptop"@, "programming"@]
}

/// The characters of a string slice, one by one.
fn chars_of(s: &str) -> (v: Vec<char>)
    ensures
        v@ == s@,
{
    let n = s.unicode_len();
    let mut v: Vec<char> = Vec::new();
    let mut i: usize = 0;
    while i < n
        invariant
            i <= n,
            n == s@.len(),
            v@ == s@.take(i as int),
        decreases n - i,
    {
        let c = s.get_char(i);
        v.push(c);
        proof {
            assert(s@.take(i as int).push(s@[i as int]) =~= s@.take(i + 1));
        }
        i += 1;
    }
    proof {
        assert(s@.take(s@.len() as int) =~= s@);
    }
    v
}

/// The word list as character vectors, in its fixed order.
pub fn word_list() -> (words: Vec<Vec<char>>)
    ensures
        words@.len() == spec_word_list().len(),
        forall|i: int| 0 <= i < words@.len() ==> (#[trigger] words@[i]@) == spec_word_list()[i],
{
    let mut words: Vec<Vec<char>> = Vec::new();
    words.push(chars_of("bicycle"));
    words.push(chars_of("hangman"));
    words.push(chars_of("elephant"));
    words.push(chars_of("laptop"));
    words.push(chars_of("programming"));
    proof {
        assert(words@[0]@ == spec_word_list()[0]);
        assert(words@[1]@ == spec_word_list()[1]);
        assert(words@[2]@ == spec_word_list()[2]);
        assert(words@[3]@ == spec_word_list()[3]);
        assert(words@[4]@ == spec_word_list()[4]);
    }
    words
}

/// Relies on rand::Rng::gen_range over `0..n`: the sampled value lies in
/// the non-empty range, so below `n`.
#[verifier::external_body]
fn random_below(n: usize) -> (r: usize)
    requires
        n > 0,
    ensures
        r < n,
{
    rand::thread_rng().gen_range(0..n)
}

/// Draw the word for a single-player game: one of the fixed five, picked
/// uniformly at random.
pub fn choose_random_word() -> (w: Vec<char>)
    ensures
        spec_word_list().contains(w@),
{
    let mut words = word_list();
    let i = random_below(words.len());
    let w = words.remove(i);
    proof {
        assert(spec_word_list()[i as int] == w@);
    }
    w
}

} // verus!
