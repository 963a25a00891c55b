//! The knowledge gathered about the hidden word, in two representations.
use vstd::prelude::*;
use crate::word::{count, is_letter, num, valid_word, word_freqs};

verus! {

/// Index in the alphabet of the letter `c`, in spec code.
pub open spec fn idx(c: u8) -> int {
    c - 97
}

/// The letter at alphabet index `l`.
pub open spec fn letter(l: int) -> u8 {
    (l + 97) as u8
}

/// Occurrences of the letter at alphabet index `l` in `w`.
pub open spec fn freq(w: Seq<u8>, l: int) -> int {
    count(w, letter(l)) as int
}

pub open spec fn max_of(a: int, b: int) -> int {
    if a >= b { a } else { b }
}

pub open spec fn min_of(a: int, b: int) -> int {
    if a <= b { a } else { b }
}

/// The frequency facts of one letter: at least `m` occurrences, and exactly `m` when `e`.
/// A flag as a key byte.
pub open spec fn flag_byte(b: bool) -> u8 {
    if b { 1 } else { 0 }
}

proof fn lemma_row_index(i: int, l: int)
    requires
        0 <= i,
        0 <= l < 26,
    ensures
        (26 * i + l) / 26 == i,
        (26 * i + l) % 26 == l,
{
    assert((26 * i + l) / 26 == i && (26 * i + l) % 26 == l) by (nonlinear_arith)
        requires
            0 <= i,
            0 <= l < 26,
    ;
}

pub open spec fn freq_ok(m: int, e: bool, f: int) -> bool {
    m <= f && (e ==> m == f)
}

/// The operations shared by every representation of what is known about the hidden word.
pub trait WordleConfig: Sized + Copy + Eq + std::hash::Hash + std::fmt::Debug + Send + Sync {
    /// `word` is consistent with everything this value records.
    spec fn spec_matches(&self, word: Seq<u8>) -> bool;

    /// This value records nothing.
    spec fn spec_is_default(&self) -> bool;

    /// This value is the combination of `a` and `b`.
    spec fn spec_is_merge(&self, a: Self, b: Self) -> bool;

    /// This value is what comparing `guess` with `correct` reveals.
    spec fn spec_is_feedback(&self, guess: Seq<u8>, correct: Seq<u8>) -> bool;

    /// Every position is pinned to one letter.
    spec fn spec_finished(&self) -> bool;

    /// `word` matches the combination of this value with the feedback of `guess` against `correct`.
    spec fn spec_probe(&self, guess: Seq<u8>, correct: Seq<u8>, word: Seq<u8>) -> bool;

    /// Matching a merged feedback value is what `spec_probe` states.
    proof fn lemma_probe(self, fb: Self, merged: Self, guess: Seq<u8>, correct: Seq<u8>, word: Seq<u8>)
        requires
            valid_word(guess),
            valid_word(correct),
            valid_word(word),
            fb.spec_is_feedback(guess, correct),
            merged.spec_is_merge(self, fb),
        ensures
            merged.spec_matches(word) == self.spec_probe(guess, correct, word),
    ;

    /// No position is fixed to one letter here and to another in `other`.
    spec fn spec_compatible(&self, other: Self) -> bool;

    /// The bytes that stand for this value in a cache: all that matching reads.
    spec fn spec_key(&self) -> Seq<u8>;

    /// Whether `word` matches the values whose key is `key`.
    spec fn key_matches(key: Seq<u8>, word: Seq<u8>) -> bool;

    /// Matching depends on the key alone.
    proof fn lemma_key(self, word: Seq<u8>)
        requires
            valid_word(word),
        ensures
            self.spec_matches(word) == Self::key_matches(self.spec_key(), word),
    ;

    /// A hidden word that this value matches stays possible after its own feedback.
    proof fn lemma_probe_sound(self, guess: Seq<u8>, correct: Seq<u8>)
        requires
            valid_word(guess),
            valid_word(correct),
            self.spec_matches(correct),
        ensures
            self.spec_probe(guess, correct, correct),
    ;

    /// Feedback against a word that this value matches never conflicts with it.
    proof fn lemma_feedback_compatible(self, fb: Self, guess: Seq<u8>, correct: Seq<u8>)
        requires
            valid_word(guess),
            valid_word(correct),
            self.spec_matches(correct),
            fb.spec_is_feedback(guess, correct),
        ensures
            self.spec_compatible(fb),
    ;

    fn default() -> (r: Self)
        ensures
            r.spec_is_default(),
    ;

    fn merge(self, other: Self) -> (r: Self)
        requires
            self.spec_compatible(other),
        ensures
            r.spec_is_merge(self, other),
            forall|w: Seq<u8>|
                valid_word(w) && self.spec_matches(w) && other.spec_matches(w) ==> #[trigger] r.spec_matches(w),
    ;

    fn cache_key(&self) -> (r: Vec<u8>)
        ensures
            r@ == self.spec_key(),
    ;

    fn from_guess_and_correct(guess: [u8; 5], correct: [u8; 5]) -> (r: Self)
        requires
            valid_word(guess@),
            valid_word(correct@),
        ensures
            r.spec_is_feedback(guess@, correct@),
            r.spec_matches(correct@),
    ;

    fn matches_word(&self, word: [u8; 5]) -> (r: bool)
        requires
            valid_word(word@),
        ensures
            r == self.spec_matches(word@),
    ;

    fn is_finished(&self) -> (r: bool)
        ensures
            r == self.spec_finished(),
    ;
}

/// Knowledge as a set of possible letters for each position, with a minimum count of each
/// letter. The exactness flags are recorded but matching reads the minimums only.
#[derive(Debug, Copy, Clone, PartialEq, Eq, Hash)]
pub struct ComplexWordleConfig {
    pub positions: [[bool; 26]; 5],
    pub freqs_min: [u8; 26],
    pub freqs_exact: [bool; 26],
}

/// Whether the feedback of `guess` against `correct` leaves letter `l` possible at position `i`.
pub open spec fn feedback_allows(guess: Seq<u8>, correct: Seq<u8>, i: int, l: int) -> bool {
    if guess[i] == correct[i] {
        l == idx(guess[i])
    } else {
        l != idx(guess[i])
    }
}

/// Number of `true` entries among the first `n` of `row`.
pub open spec fn true_count(row: Seq<bool>, n: int) -> nat
    decreases n,
{
    if n <= 0 {
        0
    } else {
        true_count(row, n - 1) + if row[n - 1] { 1nat } else { 0nat }
    }
}

impl ComplexWordleConfig {
    pub open spec fn allows(&self, i: int, l: int) -> bool {
        self.positions[i][l]
    }
}

impl WordleConfig for ComplexWordleConfig {
    open spec fn spec_compatible(&self, other: Self) -> bool {
        true
    }

    /// One byte per position and letter, then the minimum of each letter.
    open spec fn spec_key(&self) -> Seq<u8> {
        Seq::new(156, |k: int| if k < 130 { flag_byte(self.positions[k / 26][k % 26]) } else { self.freqs_min[k - 130] })
    }

    open spec fn key_matches(key: Seq<u8>, word: Seq<u8>) -> bool {
        &&& forall|i: int| 0 <= i < 5 ==> key[#[trigger] (26 * i + idx(word[i]))] != 0
        &&& forall|l: int| 0 <= l < 26 ==> key[130 + l] <= #[trigger] freq(word, l)
    }

    proof fn lemma_key(self, word: Seq<u8>) {
        let key = self.spec_key();
        assert forall|i: int| 0 <= i < 5 implies key[#[trigger] (26 * i + idx(word[i]))] == flag_byte(self.allows(i, idx(word[i]))) by {
            assert(97 <= word[i] <= 122);
            lemma_row_index(i, idx(word[i]));
        }
        assert forall|l: int| 0 <= l < 26 implies key[130 + l] == #[trigger] self.freqs_min[l] by {}
        if Self::key_matches(key, word) {
            assert forall|i: int| 0 <= i < 5 implies #[trigger] self.allows(i, idx(word[i])) by {
                assert(key[26 * i + idx(word[i])] != 0);
            }
            assert forall|l: int| 0 <= l < 26 implies self.freqs_min[l] <= #[trigger] freq(word, l) by {
                assert(key[130 + l] <= freq(word, l));
            }
        }
    }

    proof fn lemma_probe_sound(self, guess: Seq<u8>, correct: Seq<u8>) {
        assert forall|i: int| 0 <= i < 5 implies #[trigger] feedback_allows(guess, correct, i, idx(correct[i])) by {
            assert(97 <= correct[i] <= 122);
            assert(97 <= guess[i] <= 122);
        }
    }

    proof fn lemma_feedback_compatible(self, fb: Self, guess: Seq<u8>, correct: Seq<u8>) {
    }

    fn cache_key(&self) -> (r: Vec<u8>) {
        let mut key: Vec<u8> = Vec::new();
        let mut k: usize = 0;
        while k < 156
            invariant
                0 <= k <= 156,
                key@.len() == k,
                forall|m: int| 0 <= m < k ==> #[trigger] key@[m] == self.spec_key()[m],
            decreases 156 - k,
        {
            let b: u8 = if k < 130 {
                if self.positions[k / 26][k % 26] { 1 } else { 0 }
            } else {
                self.freqs_min[k - 130]
            };
            key.push(b);
            k = k + 1;
        }
        assert(key@ =~= self.spec_key());
        key
    }

    open spec fn spec_matches(&self, word: Seq<u8>) -> bool {
        &&& forall|i: int| 0 <= i < 5 ==> #[trigger] self.allows(i, idx(word[i]))
        &&& forall|l: int| 0 <= l < 26 ==> self.freqs_min[l] <= #[trigger] freq(word, l)
    }

    open spec fn spec_is_default(&self) -> bool {
        &&& forall|i: int, l: int| 0 <= i < 5 && 0 <= l < 26 ==> #[trigger] self.allows(i, l)
        &&& forall|l: int| 0 <= l < 26 ==> #[trigger] self.freqs_min[l] == 0
        &&& forall|l: int| 0 <= l < 26 ==> !#[trigger] self.freqs_exact[l]
    }

    open spec fn spec_is_merge(&self, a: Self, b: Self) -> bool {
        &&& forall|i: int, l: int|
            0 <= i < 5 && 0 <= l < 26 ==> #[trigger] self.allows(i, l) == (a.allows(i, l) && b.allows(i, l))
        &&& forall|l: int|
            0 <= l < 26 ==> #[trigger] self.freqs_min[l] == max_of(a.freqs_min[l] as int, b.freqs_min[l] as int)
        &&& forall|l: int|
            0 <= l < 26 ==> #[trigger] self.freqs_exact[l] == (a.freqs_exact[l] || b.freqs_exact[l])
    }

    open spec fn spec_is_feedback(&self, guess: Seq<u8>, correct: Seq<u8>) -> bool {
        &&& forall|i: int, l: int|
            0 <= i < 5 && 0 <= l < 26 ==> #[trigger] self.allows(i, l) == feedback_allows(guess, correct, i, l)
        &&& forall|l: int|
            0 <= l < 26 ==> #[trigger] self.freqs_min[l] == min_of(freq(guess, l), freq(correct, l))
        &&& forall|l: int|
            0 <= l < 26 ==> #[trigger] self.freqs_exact[l] == (freq(guess, l) > freq(correct, l))
    }

    open spec fn spec_finished(&self) -> bool {
        forall|i: int| 0 <= i < 5 ==> true_count(#[trigger] self.positions[i]@, 26) == 1
    }

    open spec fn spec_probe(&self, guess: Seq<u8>, correct: Seq<u8>, word: Seq<u8>) -> bool {
        &&& self.spec_matches(word)
        &&& forall|i: int| 0 <= i < 5 ==> #[trigger] feedback_allows(guess, correct, i, idx(word[i]))
        &&& forall|l: int| 0 <= l < 26 ==> min_of(freq(guess, l), freq(correct, l)) <= #[trigger] freq(word, l)
    }

    proof fn lemma_probe(self, fb: Self, merged: Self, guess: Seq<u8>, correct: Seq<u8>, word: Seq<u8>) {
        assert forall|i: int| 0 <= i < 5 implies is_letter(#[trigger] word[i]) by {}
        if merged.spec_matches(word) {
            assert forall|i: int| 0 <= i < 5 implies #[trigger] self.allows(i, idx(word[i])) by {
                assert(merged.allows(i, idx(word[i])));
            }
            assert forall|i: int| 0 <= i < 5 implies #[trigger] feedback_allows(guess, correct, i, idx(word[i])) by {
                assert(merged.allows(i, idx(word[i])));
            }
            assert forall|l: int| 0 <= l < 26 implies self.freqs_min[l] <= #[trigger] freq(word, l) by {
                assert(merged.freqs_min[l] <= freq(word, l));
            }
            assert forall|l: int| 0 <= l < 26 implies min_of(freq(guess, l), freq(correct, l)) <= #[trigger] freq(word, l) by {
                assert(merged.freqs_min[l] <= freq(word, l));
            }
        }
        if self.spec_probe(guess, correct, word) {
            assert forall|i: int| 0 <= i < 5 implies #[trigger] merged.allows(i, idx(word[i])) by {
                assert(self.allows(i, idx(word[i])));
                assert(feedback_allows(guess, correct, i, idx(word[i])));
            }
            assert forall|l: int| 0 <= l < 26 implies merged.freqs_min[l] <= #[trigger] freq(word, l) by {
                assert(self.freqs_min[l] <= freq(word, l));
                assert(min_of(freq(guess, l), freq(correct, l)) <= freq(word, l));
            }
        }
    }

    fn default() -> (r: Self) {
        let r = ComplexWordleConfig {
            positions: [[true; 26]; 5],
            freqs_min: [0; 26],
            freqs_exact: [false; 26],
        };
        assert(forall|i: int| 0 <= i < 5 ==> #[trigger] r.positions[i]@ == Seq::new(26, |l: int| true));
        r
    }

    fn merge(self, other: Self) -> (r: Self) {
        let mut positions = [[true; 26]; 5];
        let mut i: usize = 0;
        while i < 5
            invariant
                0 <= i <= 5,
                forall|k: int, l: int|
                    0 <= k < i && 0 <= l < 26 ==> #[trigger] positions[k][l] == (self.allows(k, l) && other.allows(k, l)),
            decreases 5 - i,
        {
            let mut row = [true; 26];
            let mut j: usize = 0;
            while j < 26
                invariant
                    0 <= i < 5,
                    0 <= j <= 26,
                    forall|l: int| 0 <= l < j ==> #[trigger] row[l] == (self.allows(i as int, l) && other.allows(i as int, l)),
                decreases 26 - j,
            {
                row[j] = self.positions[i][j] && other.positions[i][j];
                j = j + 1;
            }
            positions[i] = row;
            i = i + 1;
        }
        let mut freqs_min = [0u8; 26];
        let mut freqs_exact = [false; 26];
        let mut l: usize = 0;
        while l < 26
            invariant
                0 <= l <= 26,
                forall|m: int| 0 <= m < l ==> #[trigger] freqs_min[m] == max_of(self.freqs_min[m] as int, other.freqs_min[m] as int),
                forall|m: int| 0 <= m < l ==> #[trigger] freqs_exact[m] == (self.freqs_exact[m] || other.freqs_exact[m]),
            decreases 26 - l,
        {
            freqs_min[l] = if self.freqs_min[l] >= other.freqs_min[l] { self.freqs_min[l] } else { other.freqs_min[l] };
            freqs_exact[l] = self.freqs_exact[l] || other.freqs_exact[l];
            l = l + 1;
        }
        let r = ComplexWordleConfig { positions, freqs_min, freqs_exact };
        assert forall|w: Seq<u8>| valid_word(w) && self.spec_matches(w) && other.spec_matches(w) implies #[trigger] r.spec_matches(w) by {
            assert forall|i: int| 0 <= i < 5 implies #[trigger] r.allows(i, idx(w[i])) by {
                assert(97 <= w[i] <= 122);
                assert(self.allows(i, idx(w[i])) && other.allows(i, idx(w[i])));
            }
            assert forall|l: int| 0 <= l < 26 implies r.freqs_min[l] <= #[trigger] freq(w, l) by {
                assert(self.freqs_min[l] <= freq(w, l) && other.freqs_min[l] <= freq(w, l));
            }
        }
        r
    }

    fn from_guess_and_correct(guess: [u8; 5], correct: [u8; 5]) -> (r: Self) {
        let mut positions = [[true; 26]; 5];
        let freqs_guess = word_freqs(&guess);
        let freqs_correct = word_freqs(&correct);
        let mut i: usize = 0;
        while i < 5
            invariant
                0 <= i <= 5,
                valid_word(guess@),
                valid_word(correct@),
                forall|k: int, l: int|
                    0 <= k < i && 0 <= l < 26 ==> #[trigger] positions[k][l] == feedback_allows(guess@, correct@, k, l),
            decreases 5 - i,
        {
            let g = num(guess[i]) as usize;
            let mut row = [true; 26];
            if guess[i] == correct[i] {
                let mut j: usize = 0;
                while j < 26
                    invariant
                        0 <= j <= 26,
                        forall|l: int| 0 <= l < j ==> !#[trigger] row[l],
                    decreases 26 - j,
                {
                    row[j] = false;
                    j = j + 1;
                }
            }
            row[g] = guess[i] == correct[i];
            assert(forall|l: int| 0 <= l < 26 ==> #[trigger] row[l] == feedback_allows(guess@, correct@, i as int, l));
            positions[i] = row;
            i = i + 1;
        }
        let mut freqs_min = [0u8; 26];
        let mut freqs_exact = [false; 26];
        let mut l: usize = 0;
        while l < 26
            invariant
                0 <= l <= 26,
                forall|m: int| 0 <= m < 26 ==> #[trigger] freqs_guess[m] == freq(guess@, m),
                forall|m: int| 0 <= m < 26 ==> #[trigger] freqs_correct[m] == freq(correct@, m),
                forall|m: int| 0 <= m < l ==> #[trigger] freqs_min[m] == min_of(freq(guess@, m), freq(correct@, m)),
                forall|m: int| 0 <= m < l ==> #[trigger] freqs_exact[m] == (freq(guess@, m) > freq(correct@, m)),
            decreases 26 - l,
        {
            freqs_min[l] = if freqs_guess[l] <= freqs_correct[l] { freqs_guess[l] } else { freqs_correct[l] };
            freqs_exact[l] = freqs_guess[l] > freqs_correct[l];
            l = l + 1;
        }
        let r = ComplexWordleConfig { positions, freqs_min, freqs_exact };
        proof {
            crate::laws::lemma_complex_feedback_sound(r, guess@, correct@);
        }
        r
    }

    fn matches_word(&self, word: [u8; 5]) -> (r: bool) {
        let mut i: usize = 0;
        while i < 5
            invariant
                0 <= i <= 5,
                valid_word(word@),
                forall|k: int| 0 <= k < i ==> #[trigger] self.allows(k, idx(word@[k])),
            decreases 5 - i,
        {
            if !self.positions[i][num(word[i]) as usize] {
                assert(!self.allows(i as int, idx(word@[i as int])));
                return false;
            }
            i = i + 1;
        }
        let freqs = word_freqs(&word);
        let mut l: usize = 0;
        while l < 26
            invariant
                0 <= l <= 26,
                forall|m: int| 0 <= m < 26 ==> #[trigger] freqs[m] == freq(word@, m),
                forall|m: int| 0 <= m < l ==> self.freqs_min[m] <= #[trigger] freq(word@, m),
            decreases 26 - l,
        {
            if self.freqs_min[l] > freqs[l] {
                assert(self.freqs_min[l as int] > freq(word@, l as int));
                return false;
            }
            l = l + 1;
        }
        true
    }

    fn is_finished(&self) -> (r: bool) {
        let mut i: usize = 0;
        while i < 5
            invariant
                0 <= i <= 5,
                forall|k: int| 0 <= k < i ==> true_count(#[trigger] self.positions[k]@, 26) == 1,
            decreases 5 - i,
        {
            let row = self.positions[i];
            let mut n: usize = 0;
            let mut j: usize = 0;
            while j < 26
                invariant
                    0 <= j <= 26,
                    row == self.positions[i as int],
                    n == true_count(row@, j as int),
                    n <= j,
                decreases 26 - j,
            {
                if row[j] {
                    n = n + 1;
                }
                j = j + 1;
            }
            if n != 1 {
                return false;
            }
            i = i + 1;
        }
        true
    }
}

/// Knowledge as an optional fixed letter for each position, with a minimum count of each
/// letter and a flag saying the minimum is also the exact count.
#[derive(Debug, Copy, Clone, PartialEq, Eq, Hash)]
pub struct SimpleWordleConfig {
    pub positions: [Option<u8>; 5],
    pub freqs_min: [u8; 26],
    pub freqs_exact: [bool; 26],
}

/// A position that is either free or fixed to `c`.
pub open spec fn pos_ok(p: Option<u8>, c: u8) -> bool {
    p matches Some(x) ==> x == c
}

/// The first of two fixed letters that is set.
pub open spec fn or_opt(a: Option<u8>, b: Option<u8>) -> Option<u8> {
    if a is Some { a } else { b }
}

/// The fixed letter that the feedback of `guess` against `correct` gives at position `i`.
pub open spec fn feedback_fixed(guess: Seq<u8>, correct: Seq<u8>, i: int) -> Option<u8> {
    if guess[i] == correct[i] { Some(guess[i]) } else { None }
}

impl WordleConfig for SimpleWordleConfig {
    open spec fn spec_compatible(&self, other: Self) -> bool {
        forall|i: int| 0 <= i < 5 && self.positions[i] is Some && other.positions[i] is Some
            ==> #[trigger] self.positions[i] == other.positions[i]
    }

    /// Whether each position is fixed, the fixed letters, the minimums, then the flags.
    open spec fn spec_key(&self) -> Seq<u8> {
        Seq::new(62, |k: int|
            if k < 5 {
                flag_byte(self.positions[k] is Some)
            } else if k < 10 {
                match self.positions[k - 5] { Some(c) => c, None => 0u8 }
            } else if k < 36 {
                self.freqs_min[k - 10]
            } else {
                flag_byte(self.freqs_exact[k - 36])
            })
    }

    open spec fn key_matches(key: Seq<u8>, word: Seq<u8>) -> bool {
        &&& forall|i: int| 0 <= i < 5 ==> #[trigger] key[i] == 0 || key[5 + i] == word[i]
        &&& forall|l: int| 0 <= l < 26 ==> freq_ok(key[10 + l] as int, key[36 + l] != 0, #[trigger] freq(word, l))
    }

    proof fn lemma_key(self, word: Seq<u8>) {
        let key = self.spec_key();
        assert forall|i: int| 0 <= i < 5 implies (#[trigger] key[i] == 0 || key[5 + i] == word[i]) == pos_ok(self.positions[i], word[i]) by {}
        assert forall|l: int| 0 <= l < 26 implies key[10 + l] == #[trigger] self.freqs_min[l] && (key[36 + l] != 0) == self.freqs_exact[l] by {}
        if Self::key_matches(key, word) {
            assert forall|i: int| 0 <= i < 5 implies #[trigger] pos_ok(self.positions[i], word[i]) by {
                assert(key[i] == 0 || key[5 + i] == word[i]);
            }
            assert forall|l: int| 0 <= l < 26 implies freq_ok(self.freqs_min[l] as int, self.freqs_exact[l], #[trigger] freq(word, l)) by {
                assert(freq_ok(key[10 + l] as int, key[36 + l] != 0, freq(word, l)));
            }
        }
        if self.spec_matches(word) {
            assert forall|i: int| 0 <= i < 5 implies #[trigger] key[i] == 0 || key[5 + i] == word[i] by {
                assert(pos_ok(self.positions[i], word[i]));
            }
            assert forall|l: int| 0 <= l < 26 implies freq_ok(key[10 + l] as int, key[36 + l] != 0, #[trigger] freq(word, l)) by {
                assert(freq_ok(self.freqs_min[l] as int, self.freqs_exact[l], freq(word, l)));
            }
        }
    }

    proof fn lemma_probe_sound(self, guess: Seq<u8>, correct: Seq<u8>) {
        assert forall|i: int| 0 <= i < 5 implies #[trigger] pos_ok(or_opt(self.positions[i], feedback_fixed(guess, correct, i)), correct[i]) by {
            assert(pos_ok(self.positions[i], correct[i]));
        }
        assert forall|l: int| 0 <= l < 26 implies freq_ok(
            max_of(self.freqs_min[l] as int, min_of(freq(guess, l), freq(correct, l))),
            self.freqs_exact[l] || freq(guess, l) > freq(correct, l),
            #[trigger] freq(correct, l),
        ) by {
            assert(freq_ok(self.freqs_min[l] as int, self.freqs_exact[l], freq(correct, l)));
        }
    }

    proof fn lemma_feedback_compatible(self, fb: Self, guess: Seq<u8>, correct: Seq<u8>) {
        assert forall|i: int| 0 <= i < 5 && self.positions[i] is Some && fb.positions[i] is Some
            implies #[trigger] self.positions[i] == fb.positions[i] by {
            assert(pos_ok(self.positions[i], correct[i]));
            assert(fb.positions[i] == feedback_fixed(guess, correct, i));
        }
    }

    fn cache_key(&self) -> (r: Vec<u8>) {
        let mut key: Vec<u8> = Vec::new();
        let mut k: usize = 0;
        while k < 62
            invariant
                0 <= k <= 62,
                key@.len() == k,
                forall|m: int| 0 <= m < k ==> #[trigger] key@[m] == self.spec_key()[m],
            decreases 62 - k,
        {
            let b: u8 = if k < 5 {
                if self.positions[k].is_some() { 1 } else { 0 }
            } else if k < 10 {
                match self.positions[k - 5] {
                    Some(c) => c,
                    None => 0,
                }
            } else if k < 36 {
                self.freqs_min[k - 10]
            } else {
                if self.freqs_exact[k - 36] { 1 } else { 0 }
            };
            key.push(b);
            k = k + 1;
        }
        assert(key@ =~= self.spec_key());
        key
    }

    open spec fn spec_matches(&self, word: Seq<u8>) -> bool {
        &&& forall|i: int| 0 <= i < 5 ==> #[trigger] pos_ok(self.positions[i], word[i])
        &&& forall|l: int| 0 <= l < 26 ==> freq_ok(self.freqs_min[l] as int, self.freqs_exact[l], #[trigger] freq(word, l))
    }

    open spec fn spec_is_default(&self) -> bool {
        &&& forall|i: int| 0 <= i < 5 ==> #[trigger] self.positions[i] is None
        &&& forall|l: int| 0 <= l < 26 ==> #[trigger] self.freqs_min[l] == 0
        &&& forall|l: int| 0 <= l < 26 ==> !#[trigger] self.freqs_exact[l]
    }

    open spec fn spec_is_merge(&self, a: Self, b: Self) -> bool {
        &&& forall|i: int| 0 <= i < 5 ==> #[trigger] self.positions[i] == or_opt(a.positions[i], b.positions[i])
        &&& forall|l: int|
            0 <= l < 26 ==> #[trigger] self.freqs_min[l] == max_of(a.freqs_min[l] as int, b.freqs_min[l] as int)
        &&& forall|l: int|
            0 <= l < 26 ==> #[trigger] self.freqs_exact[l] == (a.freqs_exact[l] || b.freqs_exact[l])
    }

    open spec fn spec_is_feedback(&self, guess: Seq<u8>, correct: Seq<u8>) -> bool {
        &&& forall|i: int| 0 <= i < 5 ==> #[trigger] self.positions[i] == feedback_fixed(guess, correct, i)
        &&& forall|l: int|
            0 <= l < 26 ==> #[trigger] self.freqs_min[l] == min_of(freq(guess, l), freq(correct, l))
        &&& forall|l: int|
            0 <= l < 26 ==> #[trigger] self.freqs_exact[l] == (freq(guess, l) > freq(correct, l))
    }

    open spec fn spec_finished(&self) -> bool {
        forall|i: int| 0 <= i < 5 ==> #[trigger] self.positions[i] is Some
    }

    open spec fn spec_probe(&self, guess: Seq<u8>, correct: Seq<u8>, word: Seq<u8>) -> bool {
        &&& forall|i: int|
            0 <= i < 5 ==> #[trigger] pos_ok(or_opt(self.positions[i], feedback_fixed(guess, correct, i)), word[i])
        &&& forall|l: int|
            0 <= l < 26 ==> freq_ok(
                max_of(self.freqs_min[l] as int, min_of(freq(guess, l), freq(correct, l))),
                self.freqs_exact[l] || freq(guess, l) > freq(correct, l),
                #[trigger] freq(word, l),
            )
    }

    proof fn lemma_probe(self, fb: Self, merged: Self, guess: Seq<u8>, correct: Seq<u8>, word: Seq<u8>) {
        if merged.spec_matches(word) {
            assert forall|i: int| 0 <= i < 5 implies #[trigger] pos_ok(
                or_opt(self.positions[i], feedback_fixed(guess, correct, i)),
                word[i],
            ) by {
                assert(pos_ok(merged.positions[i], word[i]));
            }
        }
        if self.spec_probe(guess, correct, word) {
            assert forall|i: int| 0 <= i < 5 implies #[trigger] pos_ok(merged.positions[i], word[i]) by {
                assert(pos_ok(or_opt(self.positions[i], feedback_fixed(guess, correct, i)), word[i]));
            }
        }
    }

    fn default() -> (r: Self) {
        SimpleWordleConfig { positions: [None; 5], freqs_min: [0; 26], freqs_exact: [false; 26] }
    }

    fn merge(self, other: Self) -> (r: Self) {
        let mut positions: [Option<u8>; 5] = [None; 5];
        let mut i: usize = 0;
        while i < 5
            invariant
                0 <= i <= 5,
                forall|k: int| 0 <= k < i ==> #[trigger] positions[k] == or_opt(self.positions[k], other.positions[k]),
            decreases 5 - i,
        {
            positions[i] = if self.positions[i].is_some() { self.positions[i] } else { other.positions[i] };
            i = i + 1;
        }
        let mut freqs_min = [0u8; 26];
        let mut freqs_exact = [false; 26];
        let mut l: usize = 0;
        while l < 26
            invariant
                0 <= l <= 26,
                forall|m: int| 0 <= m < l ==> #[trigger] freqs_min[m] == max_of(self.freqs_min[m] as int, other.freqs_min[m] as int),
                forall|m: int| 0 <= m < l ==> #[trigger] freqs_exact[m] == (self.freqs_exact[m] || other.freqs_exact[m]),
            decreases 26 - l,
        {
            freqs_min[l] = if self.freqs_min[l] >= other.freqs_min[l] { self.freqs_min[l] } else { other.freqs_min[l] };
            freqs_exact[l] = self.freqs_exact[l] || other.freqs_exact[l];
            l = l + 1;
        }
        let r = SimpleWordleConfig { positions, freqs_min, freqs_exact };
        assert forall|w: Seq<u8>| valid_word(w) && self.spec_matches(w) && other.spec_matches(w) implies #[trigger] r.spec_matches(w) by {
            assert forall|i: int| 0 <= i < 5 implies #[trigger] pos_ok(r.positions[i], w[i]) by {
                assert(pos_ok(self.positions[i], w[i]) && pos_ok(other.positions[i], w[i]));
            }
            assert forall|l: int| 0 <= l < 26 implies freq_ok(r.freqs_min[l] as int, r.freqs_exact[l], #[trigger] freq(w, l)) by {
                assert(freq_ok(self.freqs_min[l] as int, self.freqs_exact[l], freq(w, l)));
                assert(freq_ok(other.freqs_min[l] as int, other.freqs_exact[l], freq(w, l)));
            }
        }
        r
    }

    fn from_guess_and_correct(guess: [u8; 5], correct: [u8; 5]) -> (r: Self) {
        let mut positions: [Option<u8>; 5] = [None; 5];
        let mut i: usize = 0;
        while i < 5
            invariant
                0 <= i <= 5,
                forall|k: int| 0 <= k < i ==> #[trigger] positions[k] == feedback_fixed(guess@, correct@, k),
            decreases 5 - i,
        {
            positions[i] = if guess[i] == correct[i] { Some(guess[i]) } else { None };
            i = i + 1;
        }
        let freqs_guess = word_freqs(&guess);
        let freqs_correct = word_freqs(&correct);
        let mut freqs_min = [0u8; 26];
        let mut freqs_exact = [false; 26];
        let mut l: usize = 0;
        while l < 26
            invariant
                0 <= l <= 26,
                forall|m: int| 0 <= m < 26 ==> #[trigger] freqs_guess[m] == freq(guess@, m),
                forall|m: int| 0 <= m < 26 ==> #[trigger] freqs_correct[m] == freq(correct@, m),
                forall|m: int| 0 <= m < l ==> #[trigger] freqs_min[m] == min_of(freq(guess@, m), freq(correct@, m)),
                forall|m: int| 0 <= m < l ==> #[trigger] freqs_exact[m] == (freq(guess@, m) > freq(correct@, m)),
            decreases 26 - l,
        {
            freqs_min[l] = if freqs_guess[l] <= freqs_correct[l] { freqs_guess[l] } else { freqs_correct[l] };
            freqs_exact[l] = freqs_guess[l] > freqs_correct[l];
            l = l + 1;
        }
        let r = SimpleWordleConfig { positions, freqs_min, freqs_exact };
        proof {
            crate::laws::lemma_simple_feedback_sound(r, guess@, correct@);
        }
        r
    }

    fn matches_word(&self, word: [u8; 5]) -> (r: bool) {
        let mut i: usize = 0;
        while i < 5
            invariant
                0 <= i <= 5,
                forall|k: int| 0 <= k < i ==> #[trigger] pos_ok(self.positions[k], word@[k]),
            decreases 5 - i,
        {
            match self.positions[i] {
                Some(c) => {
                    if c != word[i] {
                        assert(!pos_ok(self.positions[i as int], word@[i as int]));
                        return false;
                    }
                },
                None => {},
            }
            i = i + 1;
        }
        let freqs = word_freqs(&word);
        let mut l: usize = 0;
        while l < 26
            invariant
                0 <= l <= 26,
                forall|m: int| 0 <= m < 26 ==> #[trigger] freqs[m] == freq(word@, m),
                forall|m: int|
                    0 <= m < l ==> freq_ok(self.freqs_min[m] as int, self.freqs_exact[m], #[trigger] freq(word@, m)),
            decreases 26 - l,
        {
            if self.freqs_min[l] > freqs[l] || (self.freqs_exact[l] && self.freqs_min[l] != freqs[l]) {
                assert(!freq_ok(self.freqs_min[l as int] as int, self.freqs_exact[l as int], freq(word@, l as int)));
                return false;
            }
            l = l + 1;
        }
        true
    }

    fn is_finished(&self) -> (r: bool) {
        let mut i: usize = 0;
        while i < 5
            invariant
                0 <= i <= 5,
                forall|k: int| 0 <= k < i ==> #[trigger] self.positions[k] is Some,
            decreases 5 - i,
        {
            if self.positions[i].is_none() {
                return false;
            }
            i = i + 1;
        }
        true
    }
}

impl View for ComplexWordleConfig {
    type V = (Seq<Seq<bool>>, Seq<u8>, Seq<bool>);

    open spec fn view(&self) -> Self::V {
        (Seq::new(5, |i: int| self.positions[i]@), self.freqs_min@, self.freqs_exact@)
    }
}

impl View for SimpleWordleConfig {
    type V = (Seq<Option<u8>>, Seq<u8>, Seq<bool>);

    open spec fn view(&self) -> Self::V {
        (self.positions@, self.freqs_min@, self.freqs_exact@)
    }
}

} // verus!
