use wordle_solver::config::{ComplexWordleConfig, SimpleWordleConfig, WordleConfig};
use wordle_solver::feedback::parse_word;
use wordle_solver::search::{count_matches, optimize_new, possible_words, rank_by_score, score_guess, MatchCache, SearchError};

fn w(s: &str) -> [u8; 5] {
    parse_word(s.as_bytes()).unwrap()
}

fn universe() -> Vec<[u8; 5]> {
    vec![w("crane"), w("slate"), w("trace"), w("grate")]
}

#[test]
fn rank_by_score_is_stable() {
    let items = vec![(w("crane"), 3), (w("slate"), 1), (w("trace"), 3), (w("grate"), 0)];
    let r = rank_by_score(&items);
    assert_eq!(r, vec![(w("grate"), 0), (w("slate"), 1), (w("crane"), 3), (w("trace"), 3)]);
}

#[test]
fn possible_words_and_counts() {
    let c = ComplexWordleConfig::from_guess_and_correct(w("slate"), w("grate"));
    let words = universe();
    assert_eq!(possible_words(&c, &words), vec![w("grate")]);
    assert_eq!(count_matches(&c, &words), 1);
    let d = ComplexWordleConfig::from_guess_and_correct(w("crane"), w("grate"));
    assert_eq!(possible_words(&d, &words), vec![w("trace"), w("grate")]);
    assert_eq!(count_matches(&d, &words), 2);
}

#[test]
fn score_guess_sums_remaining() {
    let c = ComplexWordleConfig::default();
    let words = universe();
    let cache = MatchCache::new(words.clone());
    // crane against each hidden word: 0 for itself, and for slate, trace, grate what stays
    let total = score_guess(c, w("crane"), &words, &cache);
    let mut expected = 0u64;
    for h in &words {
        if *h != w("crane") {
            let m = c.merge(ComplexWordleConfig::from_guess_and_correct(w("crane"), *h));
            expected += count_matches(&m, &words);
        }
    }
    assert_eq!(total, expected);
    // computed a second time through the cache
    assert_eq!(score_guess(c, w("crane"), &words, &cache), expected);
}

#[test]
fn optimize_ranks_whole_universe() {
    let words = universe();
    let r = optimize_new(ComplexWordleConfig::default(), &words, false).unwrap();
    assert_eq!(r.len(), 4);
    for k in 1..r.len() {
        assert!(r[k - 1].1 <= r[k].1);
    }
    for (g, s) in &r {
        assert!(*s <= 16);
        assert!(words.contains(g));
    }
}

#[test]
fn optimize_after_feedback_single_candidate() {
    let words = universe();
    let start = ComplexWordleConfig::default();
    let c = start.merge(ComplexWordleConfig::from_guess_and_correct(w("crane"), w("trace")));
    assert!(count_matches(&c, &words) < 4);
    let r = optimize_new(c, &words, false).unwrap();
    assert_eq!(r.len(), 4);
    assert_eq!(r[0], (w("trace"), 0));
    for k in 1..4 {
        assert_eq!(r[k].1, 1);
    }
    let slate = r.iter().find(|x| x.0 == w("slate")).unwrap().1;
    let trace = r.iter().find(|x| x.0 == w("trace")).unwrap().1;
    assert_ne!(slate, trace);
}

#[test]
fn optimize_hard_mode_uses_possible_words() {
    let words = universe();
    let c = ComplexWordleConfig::from_guess_and_correct(w("crane"), w("grate"));
    let r = optimize_new(c, &words, true).unwrap();
    assert_eq!(r.len(), 2);
    assert_eq!(r[0].1, 1);
    assert_eq!(r[1].1, 1);
    assert_eq!(r[0].0, w("trace"));
}

#[test]
fn optimize_reports_contradiction() {
    let words = universe();
    let c = ComplexWordleConfig::from_guess_and_correct(w("crane"), w("trace"))
        .merge(ComplexWordleConfig::from_guess_and_correct(w("slate"), w("slate")));
    assert_eq!(optimize_new(c, &words, false), Err(SearchError::NoCandidates));
    assert_eq!(optimize_new(c, &words, true), Err(SearchError::NoCandidates));
}

#[test]
fn optimize_is_deterministic() {
    let words = universe();
    for hard in [false, true] {
        let a = optimize_new(SimpleWordleConfig::default(), &words, hard).unwrap();
        let b = optimize_new(SimpleWordleConfig::default(), &words, hard).unwrap();
        assert_eq!(a, b);
    }
}

#[test]
fn guesses_outside_possible_set_total_at_least_candidates() {
    let words = universe();
    let c = ComplexWordleConfig::from_guess_and_correct(w("crane"), w("grate"));
    let r = optimize_new(c, &words, false).unwrap();
    for (g, total) in &r {
        if *g == w("crane") || *g == w("slate") {
            assert!(*total >= 2);
        }
    }
}
