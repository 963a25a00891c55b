//! Words, letters and letter counts.
use vstd::prelude::*;

verus! {

/// A lowercase ASCII letter.
pub open spec fn is_letter(c: u8) -> bool {
    97 <= c <= 122
}

/// A word of five lowercase letters.
pub open spec fn valid_word(w: Seq<u8>) -> bool {
    &&& w.len() == 5
    &&& forall|i: int| 0 <= i < 5 ==> is_letter(#[trigger] w[i])
}

/// Number of occurrences of `c` among the first `n` letters of `w`.
pub open spec fn count_upto(w: Seq<u8>, c: u8, n: int) -> nat
    decreases n,
{
    if n <= 0 {
        0
    } else {
        count_upto(w, c, n - 1) + if w[n - 1] == c { 1nat } else { 0nat }
    }
}

/// Number of occurrences of `c` in the word `w`.
pub open spec fn count(w: Seq<u8>, c: u8) -> nat {
    count_upto(w, c, 5)
}

proof fn lemma_count_upto_bound(w: Seq<u8>, c: u8, n: int)
    requires
        0 <= n,
    ensures
        count_upto(w, c, n) <= n,
    decreases n,
{
    if n > 0 {
        lemma_count_upto_bound(w, c, n - 1);
    }
}

/// Index of a letter in the alphabet.
pub fn num(c: u8) -> (r: u8)
    requires
        is_letter(c),
    ensures
        r == c - 97,
        r < 26,
{
    c - 97
}

/// Letter counts of a word, indexed by alphabet position.
pub fn word_freqs(word: &[u8; 5]) -> (r: [u8; 26])
    requires
        valid_word(word@),
    ensures
        forall|l: int| 0 <= l < 26 ==> #[trigger] r[l] == count(word@, (l + 97) as u8),
{
    let mut in_word = [0u8; 26];
    let mut i: usize = 0;
    while i < 5
        invariant
            0 <= i <= 5,
            valid_word(word@),
            forall|l: int| 0 <= l < 26 ==> #[trigger] in_word[l] == count_upto(word@, (l + 97) as u8, i as int),
        decreases 5 - i,
    {
        let k = num(word[i]) as usize;
        proof {
            lemma_count_upto_bound(word@, word@[i as int], i as int);
        }
        in_word[k] = in_word[k] + 1;
        i = i + 1;
    }
    in_word
}

} // verus!
