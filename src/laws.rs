//! Laws that relate the operations on constraints.
use vstd::prelude::*;
use crate::config::{ComplexWordleConfig, SimpleWordleConfig, WordleConfig, idx, freq};
use crate::search::{
    all_valid, insert_pos, lemma_matching_len, match_count, matching, probe_count, rank, ranking, remaining, total_remaining,
    total_upto,
};
use crate::word::valid_word;

verus! {

/// Merging complex constraints does not depend on the order of the two.
pub proof fn lemma_complex_merge_commutative(a: ComplexWordleConfig, b: ComplexWordleConfig, ab: ComplexWordleConfig, ba: ComplexWordleConfig)
    requires
        ab.spec_is_merge(a, b),
        ba.spec_is_merge(b, a),
    ensures
        ab@ == ba@,
{
    assert forall|i: int| 0 <= i < 5 implies #[trigger] ab.positions[i]@ == ba.positions[i]@ by {
        assert forall|l: int| 0 <= l < 26 implies ab.positions[i]@[l] == ba.positions[i]@[l] by {
            assert(ab.allows(i, l) == ba.allows(i, l));
        }
        assert(ab.positions[i]@ =~= ba.positions[i]@);
    }
    assert(ab@.0 =~= ba@.0);
    assert(ab@.1 =~= ba@.1);
    assert(ab@.2 =~= ba@.2);
}

/// Merging a complex constraint with itself gives it back.
pub proof fn lemma_complex_merge_idempotent(a: ComplexWordleConfig, aa: ComplexWordleConfig)
    requires
        aa.spec_is_merge(a, a),
    ensures
        aa@ == a@,
{
    assert forall|i: int| 0 <= i < 5 implies #[trigger] aa.positions[i]@ == a.positions[i]@ by {
        assert forall|l: int| 0 <= l < 26 implies aa.positions[i]@[l] == a.positions[i]@[l] by {
            assert(aa.allows(i, l) == a.allows(i, l));
        }
        assert(aa.positions[i]@ =~= a.positions[i]@);
    }
    assert(aa@.0 =~= a@.0);
    assert(aa@.1 =~= a@.1);
    assert(aa@.2 =~= a@.2);
}

/// Merging simple constraints does not depend on the order of the two, as long as they fix
/// no position to two different letters.
pub proof fn lemma_simple_merge_commutative(a: SimpleWordleConfig, b: SimpleWordleConfig, ab: SimpleWordleConfig, ba: SimpleWordleConfig)
    requires
        a.spec_compatible(b),
        ab.spec_is_merge(a, b),
        ba.spec_is_merge(b, a),
    ensures
        ab@ == ba@,
{
    assert forall|i: int| 0 <= i < 5 implies #[trigger] ab.positions[i] == ba.positions[i] by {
        assert(a.positions[i] is Some && b.positions[i] is Some ==> a.positions[i] == b.positions[i]);
    }
    assert(ab@.0 =~= ba@.0);
    assert(ab@.1 =~= ba@.1);
    assert(ab@.2 =~= ba@.2);
}

/// Merging a simple constraint with itself gives it back.
pub proof fn lemma_simple_merge_idempotent(a: SimpleWordleConfig, aa: SimpleWordleConfig)
    requires
        aa.spec_is_merge(a, a),
    ensures
        aa@ == a@,
{
    assert(aa@.0 =~= a@.0);
    assert(aa@.1 =~= a@.1);
    assert(aa@.2 =~= a@.2);
}

/// The complex constraint that records nothing matches every word.
pub proof fn lemma_complex_default_matches(d: ComplexWordleConfig, w: Seq<u8>)
    requires
        d.spec_is_default(),
        valid_word(w),
    ensures
        d.spec_matches(w),
{
    assert forall|i: int| 0 <= i < 5 implies #[trigger] d.allows(i, idx(w[i])) by {
        assert(97 <= w[i] <= 122);
    }
}

/// The simple constraint that records nothing matches every word.
pub proof fn lemma_simple_default_matches(d: SimpleWordleConfig, w: Seq<u8>)
    requires
        d.spec_is_default(),
        valid_word(w),
    ensures
        d.spec_matches(w),
{
}

/// The hidden word matches the complex constraint that its own feedback gives.
pub proof fn lemma_complex_feedback_sound(fb: ComplexWordleConfig, guess: Seq<u8>, hidden: Seq<u8>)
    requires
        valid_word(guess),
        valid_word(hidden),
        fb.spec_is_feedback(guess, hidden),
    ensures
        fb.spec_matches(hidden),
{
    assert forall|i: int| 0 <= i < 5 implies #[trigger] fb.allows(i, idx(hidden[i])) by {
        assert(97 <= hidden[i] <= 122);
    }
}

/// The hidden word matches the simple constraint that its own feedback gives.
pub proof fn lemma_simple_feedback_sound(fb: SimpleWordleConfig, guess: Seq<u8>, hidden: Seq<u8>)
    requires
        valid_word(guess),
        valid_word(hidden),
        fb.spec_is_feedback(guess, hidden),
    ensures
        fb.spec_matches(hidden),
{
}

/// The complex feedback of a correct guess matches that word and no other.
pub proof fn lemma_complex_correct_guess(fb: ComplexWordleConfig, guess: Seq<u8>, w: Seq<u8>)
    requires
        valid_word(guess),
        valid_word(w),
        fb.spec_is_feedback(guess, guess),
    ensures
        fb.spec_matches(w) <==> w == guess,
{
    lemma_complex_feedback_sound(fb, guess, guess);
    if fb.spec_matches(w) {
        assert forall|i: int| 0 <= i < 5 implies w[i] == guess[i] by {
            assert(fb.allows(i, idx(w[i])));
        }
        assert(w =~= guess);
    }
}

/// The simple feedback of a correct guess matches that word and no other.
pub proof fn lemma_simple_correct_guess(fb: SimpleWordleConfig, guess: Seq<u8>, w: Seq<u8>)
    requires
        valid_word(guess),
        valid_word(w),
        fb.spec_is_feedback(guess, guess),
    ensures
        fb.spec_matches(w) <==> w == guess,
{
    lemma_simple_feedback_sound(fb, guess, guess);
    if fb.spec_matches(w) {
        assert forall|i: int| 0 <= i < 5 implies w[i] == guess[i] by {
            assert(crate::config::pos_ok(fb.positions[i], w[i]));
        }
        assert(w =~= guess);
    }
}

/// Merging more feedback into a complex constraint never raises the number of words of a
/// list that it matches.
pub proof fn lemma_complex_merge_monotone(c1: ComplexWordleConfig, c2: ComplexWordleConfig, merged: ComplexWordleConfig, words: Seq<[u8; 5]>)
    requires
        merged.spec_is_merge(c1, c2),
        all_valid(words),
    ensures
        match_count(merged, words) <= match_count(c1, words),
        matching(merged, words).len() <= matching(c1, words).len(),
    decreases words.len(),
{
    lemma_matching_count(merged, words);
    lemma_matching_count(c1, words);
    if words.len() > 0 {
        assert(all_valid(words.drop_last()));
        lemma_complex_merge_monotone(c1, c2, merged, words.drop_last());
        let w = words.last()@;
        if merged.spec_matches(w) {
            assert forall|i: int| 0 <= i < 5 implies #[trigger] c1.allows(i, idx(w[i])) by {
                assert(merged.allows(i, idx(w[i])));
            }
            assert forall|l: int| 0 <= l < 26 implies c1.freqs_min[l] <= #[trigger] freq(w, l) by {
                assert(merged.freqs_min[l] <= freq(w, l));
            }
        }
    }
}

/// Merging more feedback into a simple constraint never raises the number of words of a
/// list that it matches, as long as each letter whose count it pins exactly has at least
/// the other's minimum.
pub proof fn lemma_simple_merge_monotone(c1: SimpleWordleConfig, c2: SimpleWordleConfig, merged: SimpleWordleConfig, words: Seq<[u8; 5]>)
    requires
        forall|l: int| 0 <= l < 26 && #[trigger] c1.freqs_exact[l] ==> c2.freqs_min[l] <= c1.freqs_min[l],
        merged.spec_is_merge(c1, c2),
        all_valid(words),
    ensures
        match_count(merged, words) <= match_count(c1, words),
        matching(merged, words).len() <= matching(c1, words).len(),
    decreases words.len(),
{
    lemma_matching_count(merged, words);
    lemma_matching_count(c1, words);
    if words.len() > 0 {
        assert(all_valid(words.drop_last()));
        lemma_simple_merge_monotone(c1, c2, merged, words.drop_last());
        let w = words.last()@;
        if merged.spec_matches(w) {
            assert forall|i: int| 0 <= i < 5 implies #[trigger] crate::config::pos_ok(c1.positions[i], w[i]) by {
                assert(crate::config::pos_ok(merged.positions[i], w[i]));
            }
            assert forall|l: int| 0 <= l < 26 implies crate::config::freq_ok(
                c1.freqs_min[l] as int,
                c1.freqs_exact[l],
                #[trigger] freq(w, l),
            ) by {
                assert(crate::config::freq_ok(merged.freqs_min[l] as int, merged.freqs_exact[l], freq(w, l)));
            }
        }
    }
}

/// Scores ascend along `s`.
pub open spec fn sorted_by_score(s: Seq<([u8; 5], u64)>) -> bool {
    forall|i: int, j: int| 0 <= i < j < s.len() ==> s[i].1 <= s[j].1
}

proof fn lemma_insert_pos(s: Seq<([u8; 5], u64)>, x: ([u8; 5], u64))
    ensures
        0 <= insert_pos(s, x) <= s.len(),
        forall|j: int| insert_pos(s, x) <= j < s.len() ==> #[trigger] s[j].1 > x.1,
        insert_pos(s, x) > 0 ==> s[insert_pos(s, x) - 1].1 <= x.1,
    decreases s.len(),
{
    if s.len() > 0 && s.last().1 > x.1 {
        let k = insert_pos(s, x);
        lemma_insert_pos(s.drop_last(), x);
        assert forall|j: int| k <= j < s.len() implies #[trigger] s[j].1 > x.1 by {
            if j < s.len() - 1 {
                assert(s[j] == s.drop_last()[j]);
            }
        }
        if k > 0 {
            assert(s[k - 1] == s.drop_last()[k - 1]);
        }
    }
}

/// Ranking orders the entries by ascending score and keeps each of them: it is a
/// permutation of its input.
pub proof fn lemma_rank_sorted(s: Seq<([u8; 5], u64)>)
    ensures
        sorted_by_score(rank(s)),
        rank(s).to_multiset() == s.to_multiset(),
        rank(s).len() == s.len(),
    decreases s.len(),
{
    broadcast use vstd::seq_lib::to_multiset_insert, vstd::seq_lib::to_multiset_build, vstd::seq_lib::to_multiset_len;
    if s.len() > 0 {
        let r = rank(s.drop_last());
        let x = s.last();
        lemma_rank_sorted(s.drop_last());
        lemma_insert_pos(r, x);
        let k = insert_pos(r, x);
        let t = r.insert(k, x);
        assert(rank(s) == t);
        assert(s =~= s.drop_last().push(x));
        assert(s.drop_last().push(x).to_multiset() == s.drop_last().to_multiset().insert(x));
        assert(t.to_multiset() == r.to_multiset().insert(x));
        assert forall|i: int, j: int| 0 <= i < j < t.len() implies t[i].1 <= t[j].1 by {
            if j < k {
            } else if j == k {
                if i < k - 1 {
                    assert(r[i].1 <= r[k - 1].1);
                }
            } else if i < k {
                assert(r[i].1 <= r[j - 1].1);
            } else if i == k {
                assert(r[j - 1].1 > x.1);
            } else {
            }
        }
    } else {
        assert(rank(s) =~= s);
    }
}

proof fn lemma_matching_count<C: WordleConfig>(config: C, words: Seq<[u8; 5]>)
    ensures
        matching(config, words).len() == match_count(config, words),
    decreases words.len(),
{
    if words.len() > 0 {
        lemma_matching_count(config, words.drop_last());
    }
}

/// A search depends on its inputs alone: two searches on the same constraint, words and
/// mode give the same ranking, whatever order the guesses were scored in.
pub proof fn lemma_search_deterministic<C: WordleConfig>(
    config: C,
    words: Seq<[u8; 5]>,
    hard_mode: bool,
    first: Seq<([u8; 5], u64)>,
    second: Seq<([u8; 5], u64)>,
)
    requires
        first == ranking(config, words, hard_mode),
        second == ranking(config, words, hard_mode),
    ensures
        first == second,
        sorted_by_score(first),
{
    let possible = matching(config, words);
    let guesses = if hard_mode { possible } else { words };
    lemma_rank_sorted(crate::search::scored(config, guesses, possible));
}

proof fn lemma_probe_count_hit<C: WordleConfig>(config: C, guess: Seq<u8>, correct: Seq<u8>, words: Seq<[u8; 5]>, j: int)
    requires
        0 <= j < words.len(),
        words[j]@ == correct,
        config.spec_probe(guess, correct, correct),
    ensures
        probe_count(config, guess, correct, words) >= 1,
    decreases words.len(),
{
    if j < words.len() - 1 {
        lemma_probe_count_hit(config, guess, correct, words.drop_last(), j);
    }
}

/// A guess that is not itself a possible word leaves, for each possible hidden word, at
/// least that word: its total is at least the number of possible words, an average of at
/// least one.
pub proof fn lemma_outside_guess_total<C: WordleConfig>(config: C, words: Seq<[u8; 5]>, guess: Seq<u8>)
    requires
        all_valid(words),
        valid_word(guess),
        forall|k: int| 0 <= k < matching(config, words).len() ==> #[trigger] matching(config, words)[k]@ != guess,
    ensures
        total_remaining(config, guess, matching(config, words)) >= matching(config, words).len(),
{
    let possible = matching(config, words);
    lemma_matching_len(config, words);
    lemma_total_upto_lower(config, guess, possible, possible.len() as int);
}

proof fn lemma_total_upto_lower<C: WordleConfig>(config: C, guess: Seq<u8>, possible: Seq<[u8; 5]>, n: int)
    requires
        0 <= n <= possible.len(),
        valid_word(guess),
        all_valid(possible),
        forall|k: int| 0 <= k < possible.len() ==> config.spec_matches(#[trigger] possible[k]@),
        forall|k: int| 0 <= k < possible.len() ==> #[trigger] possible[k]@ != guess,
    ensures
        total_upto(config, guess, possible, n) >= n,
    decreases n,
{
    if n > 0 {
        lemma_total_upto_lower(config, guess, possible, n - 1);
        let c = possible[n - 1]@;
        assert(valid_word(possible[n - 1]@));
        assert(config.spec_matches(possible[n - 1]@));
        assert(possible[n - 1]@ != guess);
        config.lemma_probe_sound(guess, c);
        lemma_probe_count_hit(config, guess, c, possible, n - 1);
    }
}

/// With exactly one possible word, the winning guess totals zero and every other guess one.
pub proof fn lemma_single_candidate<C: WordleConfig>(config: C, words: Seq<[u8; 5]>, guess: Seq<u8>)
    requires
        all_valid(words),
        valid_word(guess),
        matching(config, words).len() == 1,
    ensures
        total_remaining(config, guess, matching(config, words)) == if guess == matching(config, words)[0]@ {
            0nat
        } else {
            1nat
        },
{
    let possible = matching(config, words);
    lemma_matching_len(config, words);
    let p = possible[0]@;
    assert(valid_word(p));
    config.lemma_probe_sound(guess, p);
    assert(possible.drop_last().len() == 0);
    assert(probe_count(config, guess, p, possible.drop_last()) == 0);
    assert(probe_count(config, guess, p, possible) == 1);
    assert(total_upto(config, guess, possible, 0) == 0);
}

} // verus!
