//! Permissive decoding of bytes as text, and the whitespace class of a character.
use vstd::prelude::*;

verus! {

/// The characters that `String::from_utf8_lossy` decodes `b` to.
pub uninterp spec fn lossy_of(b: Seq<u8>) -> Seq<char>;

/// Whether `char::is_whitespace` holds of `c`.
pub uninterp spec fn white_of(c: char) -> bool;

/// Relies on `String::from_utf8_lossy`: invalid sequences become U+FFFD and
/// the result depends on the bytes alone.
#[verifier::external_body]
pub(crate) fn decode_lossy(b: &[u8]) -> (r: Vec<char>)
    ensures
        r@ == lossy_of(b@),
{
    String::from_utf8_lossy(b).chars().collect()
}

/// Relies on `char::is_whitespace`: the Unicode White_Space property of `c`.
#[verifier::external_body]
pub(crate) fn is_white(c: char) -> (r: bool)
    ensures
        r == white_of(c),
{
    c.is_whitespace()
}

/// Number of words in `s`: maximal runs of characters that are not whitespace.
pub open spec fn words(s: Seq<char>) -> nat
    decreases s.len(),
{
    if s.len() == 0 {
        0
    } else {
        words(s.drop_last()) + if !white_of(s.last()) && (s.len() == 1 || white_of(
            s[s.len() - 2],
        )) {
            1nat
        } else {
            0nat
        }
    }
}

/// Counts the words of `s`.
pub fn count_words(s: &Vec<char>) -> (r: usize)
    ensures
        r == words(s@),
        r <= s@.len(),
{
    let mut n: usize = 0;
    let mut i: usize = 0;
    let mut prev_white: bool = true;
    while i < s.len()
        invariant
            i <= s@.len(),
            n <= i,
            n == words(s@.subrange(0, i as int)),
            prev_white == (i == 0 || white_of(s@[i - 1])),
        decreases s@.len() - i,
    {
        let w = is_white(s[i]);
        proof {
            let t = s@.subrange(0, i + 1);
            assert(t.drop_last() =~= s@.subrange(0, i as int));
        }
        if !w && prev_white {
            n = n + 1;
        }
        prev_white = w;
        i = i + 1;
    }
    proof {
        assert(s@.subrange(0, i as int) =~= s@);
    }
    n
}

} // verus!
