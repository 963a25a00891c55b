//! Scoring every legal guess by the number of candidates it would leave.
use vstd::prelude::*;
use dashmap::DashMap;
use rayon::iter::{IntoParallelRefIterator, ParallelIterator};
use crate::config::WordleConfig;
use crate::word::valid_word;

verus! {

#[verifier::external_type_specification]
#[verifier::external_body]
#[verifier::reject_recursive_types(K)]
#[verifier::reject_recursive_types(V)]
#[verifier::reject_recursive_types(S)]
pub struct ExDashMap<K, V, S>(DashMap<K, V, S>);

/// Why a search could not be made.
#[derive(Debug, Clone, Copy, PartialEq, Eq)]
pub enum SearchError {
    /// No word of the list is consistent with the feedback: it contradicts itself.
    NoCandidates,
}

/// Every entry is a word of five lowercase letters.
pub open spec fn all_valid(words: Seq<[u8; 5]>) -> bool {
    forall|i: int| 0 <= i < words.len() ==> valid_word(#[trigger] words[i]@)
}

/// The words of `words` that `config` matches, in their order.
pub open spec fn matching<C: WordleConfig>(config: C, words: Seq<[u8; 5]>) -> Seq<[u8; 5]>
    decreases words.len(),
{
    if words.len() == 0 {
        Seq::empty()
    } else {
        let rest = matching(config, words.drop_last());
        if config.spec_matches(words.last()@) {
            rest.push(words.last())
        } else {
            rest
        }
    }
}

/// How many words of `words` match `config`.
pub open spec fn match_count<C: WordleConfig>(config: C, words: Seq<[u8; 5]>) -> nat
    decreases words.len(),
{
    if words.len() == 0 {
        0
    } else {
        match_count(config, words.drop_last()) + if config.spec_matches(words.last()@) { 1nat } else { 0nat }
    }
}

/// How many words of `words` stay possible once the feedback of `guess` against `correct`
/// is combined with `config`.
pub open spec fn probe_count<C: WordleConfig>(config: C, guess: Seq<u8>, correct: Seq<u8>, words: Seq<[u8; 5]>) -> nat
    decreases words.len(),
{
    if words.len() == 0 {
        0
    } else {
        probe_count(config, guess, correct, words.drop_last())
            + if config.spec_probe(guess, correct, words.last()@) { 1nat } else { 0nat }
    }
}

/// Candidates left after guessing `guess` when the hidden word is `correct`: none when the
/// guess wins.
pub open spec fn remaining<C: WordleConfig>(config: C, guess: Seq<u8>, correct: Seq<u8>, possible: Seq<[u8; 5]>) -> nat {
    if guess == correct {
        0
    } else {
        probe_count(config, guess, correct, possible)
    }
}

/// Sum of `remaining` over the first `n` hidden words of `possible`.
pub open spec fn total_upto<C: WordleConfig>(config: C, guess: Seq<u8>, possible: Seq<[u8; 5]>, n: int) -> nat
    decreases n,
{
    if n <= 0 {
        0
    } else {
        total_upto(config, guess, possible, n - 1) + remaining(config, guess, possible[n - 1]@, possible)
    }
}

/// Sum of the candidates left by `guess` over every possible hidden word. Divided by the
/// number of possible words it is the guess's average.
pub open spec fn total_remaining<C: WordleConfig>(config: C, guess: Seq<u8>, possible: Seq<[u8; 5]>) -> nat {
    total_upto(config, guess, possible, possible.len() as int)
}

/// Each guess paired with its total.
pub open spec fn scored<C: WordleConfig>(config: C, guesses: Seq<[u8; 5]>, possible: Seq<[u8; 5]>) -> Seq<([u8; 5], u64)> {
    Seq::new(guesses.len(), |i: int| (guesses[i], total_remaining(config, guesses[i]@, possible) as u64))
}

/// Where `x` goes in `s`: after every entry from the end whose score is not above its own.
pub open spec fn insert_pos(s: Seq<([u8; 5], u64)>, x: ([u8; 5], u64)) -> int
    decreases s.len(),
{
    if s.len() == 0 {
        0
    } else if s.last().1 <= x.1 {
        s.len() as int
    } else {
        insert_pos(s.drop_last(), x)
    }
}

/// `s` ordered by ascending score by insertion, equal scores keeping their order.
pub open spec fn rank(s: Seq<([u8; 5], u64)>) -> Seq<([u8; 5], u64)>
    decreases s.len(),
{
    if s.len() == 0 {
        Seq::empty()
    } else {
        let r = rank(s.drop_last());
        r.insert(insert_pos(r, s.last()), s.last())
    }
}

/// The ranking of a search: the guesses (the possible words in hard mode, else every word)
/// with their totals, by ascending total.
pub open spec fn ranking<C: WordleConfig>(config: C, words: Seq<[u8; 5]>, hard_mode: bool) -> Seq<([u8; 5], u64)> {
    let possible = matching(config, words);
    let guesses = if hard_mode { possible } else { words };
    rank(scored(config, guesses, possible))
}

pub proof fn lemma_matching_len<C: WordleConfig>(config: C, words: Seq<[u8; 5]>)
    ensures
        matching(config, words).len() <= words.len(),
        all_valid(words) ==> all_valid(matching(config, words)),
        forall|k: int| 0 <= k < matching(config, words).len() ==> config.spec_matches(#[trigger] matching(config, words)[k]@),
    decreases words.len(),
{
    if words.len() > 0 {
        lemma_matching_len(config, words.drop_last());
        if all_valid(words) {
            assert(all_valid(words.drop_last()));
        }
    }
}

proof fn lemma_probe_count_bound<C: WordleConfig>(config: C, guess: Seq<u8>, correct: Seq<u8>, words: Seq<[u8; 5]>)
    ensures
        probe_count(config, guess, correct, words) <= words.len(),
    decreases words.len(),
{
    if words.len() > 0 {
        lemma_probe_count_bound(config, guess, correct, words.drop_last());
    }
}

/// Counting the words that a merged feedback value matches is counting by `spec_probe`.
proof fn lemma_count_probe<C: WordleConfig>(config: C, fb: C, merged: C, guess: Seq<u8>, correct: Seq<u8>, words: Seq<[u8; 5]>)
    requires
        valid_word(guess),
        valid_word(correct),
        all_valid(words),
        fb.spec_is_feedback(guess, correct),
        merged.spec_is_merge(config, fb),
    ensures
        match_count(merged, words) == probe_count(config, guess, correct, words),
    decreases words.len(),
{
    if words.len() > 0 {
        assert(all_valid(words.drop_last()));
        lemma_count_probe(config, fb, merged, guess, correct, words.drop_last());
        assert(valid_word(words[words.len() - 1]@));
        config.lemma_probe(fb, merged, guess, correct, words.last()@);
    }
}

/// How many words of `words` match the values of `C` whose key is `key`.
pub open spec fn key_count<C: WordleConfig>(key: Seq<u8>, words: Seq<[u8; 5]>) -> nat
    decreases words.len(),
{
    if words.len() == 0 {
        0
    } else {
        key_count::<C>(key, words.drop_last()) + if C::key_matches(key, words.last()@) { 1nat } else { 0nat }
    }
}

/// Counting by a value's key is counting by the value.
proof fn lemma_key_count<C: WordleConfig>(config: C, words: Seq<[u8; 5]>)
    requires
        all_valid(words),
    ensures
        key_count::<C>(config.spec_key(), words) == match_count(config, words),
    decreases words.len(),
{
    if words.len() > 0 {
        assert(all_valid(words.drop_last()));
        lemma_key_count(config, words.drop_last());
        assert(valid_word(words[words.len() - 1]@));
        config.lemma_key(words.last()@);
    }
}

/// Counts per constraint key, shared by the workers of one search over a fixed list of
/// words. Keys are byte strings, compared byte by byte.
#[verifier::reject_recursive_types(C)]
pub struct MatchCache<C> {
    map: DashMap<Vec<u8>, u64>,
    words: Vec<[u8; 5]>,
    kind: std::marker::PhantomData<C>,
}

/// Relies on dashmap::DashMap::new: a map with no entries.
#[verifier::external_body]
fn new_map() -> (r: DashMap<Vec<u8>, u64>) {
    DashMap::new()
}

impl<C: WordleConfig> MatchCache<C> {
    /// The words whose matches are counted.
    pub closed spec fn words(&self) -> Seq<[u8; 5]> {
        self.words@
    }

    /// The words whose matches are counted.
    pub fn word_list(&self) -> (r: &Vec<[u8; 5]>)
        ensures
            r@ == self.words(),
    {
        &self.words
    }

    pub fn new(words: Vec<[u8; 5]>) -> (r: Self)
        ensures
            r.words() == words@,
    {
        MatchCache { map: new_map(), words, kind: std::marker::PhantomData }
    }

    /// Relies on dashmap::DashMap::get: it returns the value last inserted under an equal
    /// key, and `Vec<u8>` keys are equal when their bytes are. A new map is empty and
    /// `store` inserts only the count that belongs to its key, so every stored value is
    /// that count.
    #[verifier::external_body]
    fn lookup(&self, key: &Vec<u8>) -> (r: Option<u64>)
        ensures
            r matches Some(v) ==> v == key_count::<C>(key@, self.words()),
    {
        self.map.get(key).map(|v| *v)
    }

    /// Relies on dashmap::DashMap::insert: the entry of `key` becomes `value`.
    #[verifier::external_body]
    fn store(&self, key: Vec<u8>, value: u64)
        requires
            value == key_count::<C>(key@, self.words()),
    {
        self.map.insert(key, value);
    }
}

/// Whether two words are the same.
fn same_word(a: &[u8; 5], b: &[u8; 5]) -> (r: bool)
    ensures
        r == (a@ == b@),
{
    let r = a[0] == b[0] && a[1] == b[1] && a[2] == b[2] && a[3] == b[3] && a[4] == b[4];
    if r {
        assert(a@ =~= b@);
    } else {
        assert(a@ != b@);
    }
    r
}

/// The words of `words` that `config` matches, in their order.
pub fn possible_words<C: WordleConfig>(config: &C, words: &Vec<[u8; 5]>) -> (r: Vec<[u8; 5]>)
    requires
        all_valid(words@),
    ensures
        r@ == matching(*config, words@),
{
    let mut out: Vec<[u8; 5]> = Vec::new();
    let mut i: usize = 0;
    while i < words.len()
        invariant
            0 <= i <= words.len(),
            all_valid(words@),
            out@ == matching(*config, words@.take(i as int)),
        decreases words.len() - i,
    {
        assert(words@.take(i + 1).drop_last() =~= words@.take(i as int));
        if config.matches_word(words[i]) {
            out.push(words[i]);
        }
        i = i + 1;
    }
    assert(words@.take(words.len() as int) =~= words@);
    out
}

/// How many words of `words` match `config`.
pub fn count_matches<C: WordleConfig>(config: &C, words: &Vec<[u8; 5]>) -> (r: u64)
    requires
        all_valid(words@),
        words@.len() <= u64::MAX,
    ensures
        r == match_count(*config, words@),
{
    let mut n: u64 = 0;
    let mut i: usize = 0;
    while i < words.len()
        invariant
            0 <= i <= words.len(),
            words@.len() <= u64::MAX,
            all_valid(words@),
            n == match_count(*config, words@.take(i as int)),
            n <= i,
        decreases words.len() - i,
    {
        assert(words@.take(i + 1).drop_last() =~= words@.take(i as int));
        if config.matches_word(words[i]) {
            n = n + 1;
        }
        i = i + 1;
    }
    assert(words@.take(words.len() as int) =~= words@);
    n
}

/// Sum, over every possible hidden word, of the candidates that `guess` would leave.
pub fn score_guess<C: WordleConfig>(config: C, guess: [u8; 5], possible: &Vec<[u8; 5]>, cache: &MatchCache<C>) -> (r: u64)
    requires
        valid_word(guess@),
        all_valid(possible@),
        possible@.len() <= u32::MAX,
        forall|k: int| 0 <= k < possible@.len() ==> config.spec_matches(#[trigger] possible@[k]@),
        cache.words() == possible@,
    ensures
        r == total_remaining(config, guess@, possible@),
{
    let n = possible.len();
    let mut sum: u64 = 0;
    let mut j: usize = 0;
    while j < n
        invariant
            0 <= j <= n,
            n == possible@.len(),
            n <= u32::MAX,
            valid_word(guess@),
            all_valid(possible@),
            forall|k: int| 0 <= k < possible@.len() ==> config.spec_matches(#[trigger] possible@[k]@),
            cache.words() == possible@,
            sum == total_upto(config, guess@, possible@, j as int),
            sum <= j * n,
        decreases n - j,
    {
        let correct = possible[j];
        assert(valid_word(possible@[j as int]@));
        let v: u64 = if same_word(&guess, &correct) {
            0
        } else {
            let fb = C::from_guess_and_correct(guess, correct);
            proof {
                config.lemma_feedback_compatible(fb, guess@, correct@);
            }
            let merged = config.merge(fb);
            let key = merged.cache_key();
            proof {
                lemma_count_probe(config, fb, merged, guess@, correct@, possible@);
                lemma_key_count(merged, possible@);
            }
            match cache.lookup(&key) {
                Some(v) => v,
                None => {
                    let v = count_matches(&merged, possible);
                    cache.store(key, v);
                    v
                },
            }
        };
        proof {
            lemma_probe_count_bound(config, guess@, correct@, possible@);
            assert(v <= n);
            assert(sum + v <= (j + 1) * n) by (nonlinear_arith)
                requires
                    sum <= j * n,
                    v <= n,
            ;
            assert((j + 1) * n <= n * n) by (nonlinear_arith)
                requires
                    j < n,
            ;
            assert(n * n <= 0xFFFF_FFFF * 0xFFFF_FFFF) by (nonlinear_arith)
                requires
                    n <= 0xFFFF_FFFF,
            ;
        }
        sum = sum + v;
        j = j + 1;
    }
    sum
}

/// Relies on rayon's `par_iter`, `map` and `collect` into a `Vec`: the results come in the
/// order of the guesses, each the value of `score_guess` on its guess.
#[verifier::external_body]
fn score_all<C: WordleConfig>(config: C, guesses: &Vec<[u8; 5]>, possible: &Vec<[u8; 5]>, cache: &MatchCache<C>) -> (r: Vec<u64>)
    requires
        all_valid(guesses@),
        all_valid(possible@),
        possible@.len() <= u32::MAX,
        forall|k: int| 0 <= k < possible@.len() ==> config.spec_matches(#[trigger] possible@[k]@),
        cache.words() == possible@,
    ensures
        r@.len() == guesses@.len(),
        forall|i: int| 0 <= i < guesses@.len() ==> #[trigger] r@[i] == total_remaining(config, guesses@[i]@, possible@),
{
    guesses.par_iter().map(|g| score_guess(config, *g, possible, cache)).collect()
}

/// Orders `items` by ascending score; equal scores keep their order.
pub fn rank_by_score(items: &Vec<([u8; 5], u64)>) -> (r: Vec<([u8; 5], u64)>)
    ensures
        r@ == rank(items@),
{
    let mut out: Vec<([u8; 5], u64)> = Vec::new();
    let mut i: usize = 0;
    while i < items.len()
        invariant
            0 <= i <= items.len(),
            out@ == rank(items@.take(i as int)),
        decreases items.len() - i,
    {
        let x = items[i];
        assert(items@.take(i + 1).drop_last() =~= items@.take(i as int));
        let mut k: usize = out.len();
        assert(out@.take(k as int) =~= out@);
        while k > 0 && out[k - 1].1 > x.1
            invariant
                0 <= k <= out@.len(),
                insert_pos(out@, x) == insert_pos(out@.take(k as int), x),
            decreases k,
        {
            assert(out@.take(k as int).drop_last() =~= out@.take(k - 1));
            k = k - 1;
        }
        proof {
            if k > 0 {
                assert(out@.take(k as int).last() == out@[k - 1]);
            }
        }
        out.insert(k, x);
        i = i + 1;
    }
    assert(items@.take(items.len() as int) =~= items@);
    out
}

/// Ranks every legal guess by the total number of candidates it would leave over all
/// possible hidden words; fails when no word matches `config`.
pub fn optimize_new<C: WordleConfig>(config: C, words: &Vec<[u8; 5]>, hard_mode: bool) -> (r: Result<Vec<([u8; 5], u64)>, SearchError>)
    requires
        all_valid(words@),
        words@.len() <= u32::MAX,
    ensures
        matching(config, words@).len() == 0 <==> r is Err,
        r matches Ok(v) ==> v@ == ranking(config, words@, hard_mode),
        r matches Ok(v) ==> v@.len() == (if hard_mode { matching(config, words@).len() } else { words@.len() }),
        r matches Ok(v) ==> forall|i: int, j: int| 0 <= i < j < v@.len() ==> v@[i].1 <= v@[j].1,
        r matches Ok(v) ==> v@.to_multiset() == scored(
            config,
            if hard_mode { matching(config, words@) } else { words@ },
            matching(config, words@),
        ).to_multiset(),
{
    let possible = possible_words(&config, words);
    proof {
        lemma_matching_len(config, words@);
    }
    if possible.len() == 0 {
        return Err(SearchError::NoCandidates);
    }
    let cache = MatchCache::new(possible);
    let possible = cache.word_list();
    let guesses: &Vec<[u8; 5]> = if hard_mode { &possible } else { words };
    let scores = score_all(config, guesses, possible, &cache);
    let mut items: Vec<([u8; 5], u64)> = Vec::new();
    let mut i: usize = 0;
    while i < guesses.len()
        invariant
            0 <= i <= guesses.len(),
            scores@.len() == guesses@.len(),
            items@ =~= scored(config, guesses@, possible@).take(i as int),
            forall|k: int| 0 <= k < guesses@.len() ==> #[trigger] scores@[k] == total_remaining(config, guesses@[k]@, possible@),
        decreases guesses.len() - i,
    {
        items.push((guesses[i], scores[i]));
        i = i + 1;
    }
    assert(items@ =~= scored(config, guesses@, possible@));
    proof {
        crate::laws::lemma_rank_sorted(items@);
    }
    Ok(rank_by_score(&items))
}

} // verus!
