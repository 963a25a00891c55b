//! Feedback typed by a player, and words read from a list.
use vstd::prelude::*;
use crate::config::{ComplexWordleConfig, WordleConfig, idx, letter, max_of};
use crate::word::{is_letter, num, valid_word};

verus! {

/// Why a piece of input was refused.
#[derive(Debug, Clone, Copy, PartialEq, Eq)]
pub enum FormatError {
    /// A word is not five lowercase letters.
    BadWord,
    /// A colour is not one of `g` (right place), `y` (elsewhere in the word) or `b` (absent).
    BadColor,
}

pub open spec fn valid_color(c: u8) -> bool {
    c == 103 || c == 121 || c == 98
}

/// Whether colour feedback leaves letter `l` possible at position `i`: a green position
/// holds the guessed letter, any other does not.
pub open spec fn color_allows(guess: Seq<u8>, colors: Seq<u8>, i: int, l: int) -> bool {
    if colors[i] == 103 {
        l == idx(guess[i])
    } else {
        l != idx(guess[i])
    }
}

/// Among the first `n` positions, how many guess letter `l` and are not marked absent.
pub open spec fn present_upto(guess: Seq<u8>, colors: Seq<u8>, l: int, n: int) -> nat
    decreases n,
{
    if n <= 0 {
        0
    } else {
        present_upto(guess, colors, l, n - 1) + if guess[n - 1] == letter(l) && colors[n - 1] != 98 {
            1nat
        } else {
            0nat
        }
    }
}

/// Some position guesses letter `l` and is marked absent: the word holds no more copies
/// than the others show.
pub open spec fn absent_at(guess: Seq<u8>, colors: Seq<u8>, l: int) -> bool {
    exists|i: int| 0 <= i < 5 && #[trigger] colors[i] == 98 && guess[i] == letter(l)
}

proof fn lemma_present_bound(guess: Seq<u8>, colors: Seq<u8>, l: int, n: int)
    requires
        0 <= n,
    ensures
        present_upto(guess, colors, l, n) <= n,
    decreases n,
{
    if n > 0 {
        lemma_present_bound(guess, colors, l, n - 1);
    }
}

/// Combines `current` with the feedback that `colors` gives on `guess`.
pub fn apply_feedback(current: ComplexWordleConfig, guess: [u8; 5], colors: [u8; 5]) -> (r: Result<ComplexWordleConfig, FormatError>)
    requires
        valid_word(guess@),
    ensures
        r is Err <==> exists|i: int| 0 <= i < 5 && !valid_color(#[trigger] colors@[i]),
        r is Err ==> r == Err::<ComplexWordleConfig, FormatError>(FormatError::BadColor),
        r matches Ok(c) ==> {
            &&& forall|i: int, l: int|
                0 <= i < 5 && 0 <= l < 26 ==> #[trigger] c.allows(i, l) == (current.allows(i, l) && color_allows(guess@, colors@, i, l))
            &&& forall|l: int|
                0 <= l < 26 ==> #[trigger] c.freqs_min[l] == max_of(current.freqs_min[l] as int, present_upto(guess@, colors@, l, 5) as int)
            &&& forall|l: int|
                0 <= l < 26 ==> #[trigger] c.freqs_exact[l] == (current.freqs_exact[l] || absent_at(guess@, colors@, l))
        },
{
    let mut i: usize = 0;
    while i < 5
        invariant
            0 <= i <= 5,
            forall|k: int| 0 <= k < i ==> valid_color(#[trigger] colors@[k]),
        decreases 5 - i,
    {
        if colors[i] != 103u8 && colors[i] != 121u8 && colors[i] != 98u8 {
            assert(!valid_color(colors@[i as int]));
            return Err(FormatError::BadColor);
        }
        i = i + 1;
    }
    let mut positions = [[true; 26]; 5];
    let mut freqs_min = [0u8; 26];
    let mut freqs_exact = [false; 26];
    let mut i: usize = 0;
    while i < 5
        invariant
            0 <= i <= 5,
            valid_word(guess@),
            forall|k: int, l: int|
                0 <= k < i && 0 <= l < 26 ==> #[trigger] positions[k][l] == color_allows(guess@, colors@, k, l),
            forall|l: int| 0 <= l < 26 ==> #[trigger] freqs_min[l] == present_upto(guess@, colors@, l, i as int),
            forall|l: int|
                0 <= l < 26 ==> #[trigger] freqs_exact[l] == exists|k: int|
                    0 <= k < i && #[trigger] colors@[k] == 98 && guess@[k] == letter(l),
        decreases 5 - i,
    {
        let g = num(guess[i]) as usize;
        assert(guess@[i as int] == letter(g as int));
        let mut row = [true; 26];
        if colors[i] == 103u8 {
            let mut j: usize = 0;
            while j < 26
                invariant
                    0 <= j <= 26,
                    forall|l: int| 0 <= l < j ==> !#[trigger] row[l],
                decreases 26 - j,
            {
                row[j] = false;
                j = j + 1;
            }
        }
        row[g] = colors[i] == 103u8;
        assert(forall|l: int| 0 <= l < 26 ==> #[trigger] row[l] == color_allows(guess@, colors@, i as int, l));
        positions[i] = row;
        if colors[i] == 98u8 {
            freqs_exact[g] = true;
        } else {
            proof {
                lemma_present_bound(guess@, colors@, g as int, i as int);
            }
            freqs_min[g] = freqs_min[g] + 1;
        }
        assert forall|l: int| 0 <= l < 26 && l != g implies guess@[i as int] != letter(l) by {}
        i = i + 1;
    }
    let fb = ComplexWordleConfig { positions, freqs_min, freqs_exact };
    Ok(current.merge(fb))
}

/// Reads a word of five lowercase letters.
pub fn parse_word(text: &[u8]) -> (r: Result<[u8; 5], FormatError>)
    ensures
        r is Ok <==> (text@.len() == 5 && forall|i: int| 0 <= i < 5 ==> is_letter(#[trigger] text@[i])),
        r matches Ok(w) ==> w@ == text@ && valid_word(w@),
        r is Err ==> r == Err::<[u8; 5], FormatError>(FormatError::BadWord),
{
    if text.len() != 5 {
        return Err(FormatError::BadWord);
    }
    let mut w = [0u8; 5];
    let mut i: usize = 0;
    while i < 5
        invariant
            0 <= i <= 5,
            text@.len() == 5,
            forall|k: int| 0 <= k < i ==> is_letter(#[trigger] text@[k]) && w@[k] == text@[k],
        decreases 5 - i,
    {
        if text[i] < 97u8 || text[i] > 122u8 {
            assert(!is_letter(text@[i as int]));
            return Err(FormatError::BadWord);
        }
        w[i] = text[i];
        i = i + 1;
    }
    assert(w@ =~= text@);
    Ok(w)
}

} // verus!
