use wordle_solver::config::{ComplexWordleConfig, SimpleWordleConfig, WordleConfig};
use wordle_solver::feedback::{apply_feedback, parse_word, FormatError};
use wordle_solver::word::{num, word_freqs};

fn w(s: &str) -> [u8; 5] {
    parse_word(s.as_bytes()).unwrap()
}

const ALL: [&str; 6] = ["crane", "slate", "trace", "grate", "eerie", "apple"];

#[test]
fn num_gives_alphabet_index() {
    assert_eq!(num(b'a'), 0);
    assert_eq!(num(b'c'), 2);
    assert_eq!(num(b'z'), 25);
}

#[test]
fn word_freqs_counts_letters() {
    let f = word_freqs(&w("eerie"));
    assert_eq!(f[4], 3);
    assert_eq!(f[17], 1);
    assert_eq!(f[8], 1);
    assert_eq!(f.iter().map(|&x| x as u32).sum::<u32>(), 5);
}

#[test]
fn parse_word_rejects_bad_words() {
    assert_eq!(parse_word(b"crane"), Ok(*b"crane"));
    assert_eq!(parse_word(b"cran"), Err(FormatError::BadWord));
    assert_eq!(parse_word(b"cranes"), Err(FormatError::BadWord));
    assert_eq!(parse_word(b"Crane"), Err(FormatError::BadWord));
}

#[test]
fn complex_feedback_crane_against_trace() {
    let c = ComplexWordleConfig::from_guess_and_correct(w("crane"), w("trace"));
    // c, n are wrong at 0 and 3; r, a, e are fixed at 1, 2, 4
    assert!(!c.positions[0][2]);
    assert!(c.positions[0][19]);
    assert!(c.positions[1][17]);
    assert!(!c.positions[1][0]);
    assert!(!c.positions[3][13]);
    assert_eq!(c.freqs_min[2], 1);
    assert_eq!(c.freqs_min[13], 0);
    assert!(c.freqs_exact[13]);
    assert!(!c.freqs_exact[2]);
    assert!(c.matches_word(w("trace")));
    assert!(!c.matches_word(w("crane")));
    assert!(!c.matches_word(w("grate")));
    assert!(!c.is_finished());
}

#[test]
fn simple_feedback_crane_against_trace() {
    let c = SimpleWordleConfig::from_guess_and_correct(w("crane"), w("trace"));
    assert_eq!(c.positions, [None, Some(b'r'), Some(b'a'), None, Some(b'e')]);
    assert_eq!(c.freqs_min[2], 1);
    assert!(c.freqs_exact[13]);
    assert!(c.matches_word(w("trace")));
    assert!(!c.matches_word(w("grate")));
    assert!(!c.is_finished());
}

#[test]
fn simple_exact_count_is_enforced() {
    // two e's guessed, one in the hidden word: exactly one e
    let c = SimpleWordleConfig::from_guess_and_correct(w("eerie"), w("crane"));
    assert_eq!(c.freqs_min[4], 1);
    assert!(c.freqs_exact[4]);
    assert!(c.matches_word(w("crane")));
    assert!(!c.matches_word(w("geese")));
}

#[test]
fn default_matches_every_word() {
    let c = ComplexWordleConfig::default();
    let s = SimpleWordleConfig::default();
    for x in ALL {
        assert!(c.matches_word(w(x)));
        assert!(s.matches_word(w(x)));
    }
    assert!(!c.is_finished());
    assert!(!s.is_finished());
}

#[test]
fn hidden_word_matches_its_own_feedback() {
    for g in ALL {
        for h in ALL {
            assert!(ComplexWordleConfig::from_guess_and_correct(w(g), w(h)).matches_word(w(h)));
            assert!(SimpleWordleConfig::from_guess_and_correct(w(g), w(h)).matches_word(w(h)));
        }
    }
}

#[test]
fn correct_guess_pins_the_word() {
    for g in ALL {
        let c = ComplexWordleConfig::from_guess_and_correct(w(g), w(g));
        let s = SimpleWordleConfig::from_guess_and_correct(w(g), w(g));
        assert!(c.is_finished());
        assert!(s.is_finished());
        for x in ALL {
            assert_eq!(c.matches_word(w(x)), g == x);
            assert_eq!(s.matches_word(w(x)), g == x);
        }
    }
}

#[test]
fn merge_is_commutative_and_idempotent() {
    for g in ALL {
        for h in ALL {
            let a = ComplexWordleConfig::from_guess_and_correct(w(g), w("trace"));
            let b = ComplexWordleConfig::from_guess_and_correct(w(h), w("trace"));
            assert_eq!(a.merge(b), b.merge(a));
            assert_eq!(a.merge(a), a);
            let sa = SimpleWordleConfig::from_guess_and_correct(w(g), w("trace"));
            let sb = SimpleWordleConfig::from_guess_and_correct(w(h), w("trace"));
            assert_eq!(sa.merge(sb), sb.merge(sa));
            assert_eq!(sa.merge(sa), sa);
        }
    }
}

#[test]
fn merge_takes_max_minimum_and_any_exact() {
    let a = ComplexWordleConfig::from_guess_and_correct(w("eerie"), w("geese"));
    let b = ComplexWordleConfig::from_guess_and_correct(w("crane"), w("geese"));
    let m = a.merge(b);
    assert_eq!(a.freqs_min[4], 3);
    assert_eq!(b.freqs_min[4], 1);
    assert_eq!(m.freqs_min[4], 3);
    assert!(m.freqs_exact[2]);
    assert!(!m.positions[4][2] && !m.positions[0][2]);
}

#[test]
fn merge_never_widens_matches() {
    let a = ComplexWordleConfig::from_guess_and_correct(w("slate"), w("trace"));
    let b = ComplexWordleConfig::from_guess_and_correct(w("crane"), w("trace"));
    let m = a.merge(b);
    let n_a = ALL.iter().filter(|x| a.matches_word(w(x))).count();
    let n_m = ALL.iter().filter(|x| m.matches_word(w(x))).count();
    assert!(n_m <= n_a);
    assert_eq!(n_m, 1);
}

#[test]
fn apply_feedback_builds_constraint() {
    let c = apply_feedback(ComplexWordleConfig::default(), w("crane"), *b"yggbg").unwrap();
    let expected = ComplexWordleConfig::default().merge(ComplexWordleConfig::from_guess_and_correct(w("crane"), w("trace")));
    assert_eq!(c, expected);
    assert!(c.matches_word(w("trace")));
    assert!(!c.matches_word(w("grate")));
}

#[test]
fn apply_feedback_rejects_bad_color() {
    assert_eq!(apply_feedback(ComplexWordleConfig::default(), w("crane"), *b"yggxg"), Err(FormatError::BadColor));
}

#[test]
fn cache_keys_follow_what_matching_reads() {
    let a = ComplexWordleConfig::from_guess_and_correct(w("crane"), w("trace"));
    let b = ComplexWordleConfig::from_guess_and_correct(w("slate"), w("trace"));
    assert_eq!(a.cache_key().len(), 156);
    assert_eq!(a.cache_key(), a.cache_key());
    assert_ne!(a.cache_key(), b.cache_key());
    assert_eq!(a.cache_key()[26 + 17], 1);
    assert_eq!(a.cache_key()[130 + 2], 1);
    let s = SimpleWordleConfig::from_guess_and_correct(w("crane"), w("trace"));
    let k = s.cache_key();
    assert_eq!(k.len(), 62);
    assert_eq!(&k[0..10], &[0, 1, 1, 0, 1, 0, b'r', b'a', 0, b'e']);
    assert_eq!(k[36 + 13], 1);
    assert_ne!(k, SimpleWordleConfig::default().cache_key());
}

#[test]
fn merge_keeps_words_both_match() {
    let a = SimpleWordleConfig::from_guess_and_correct(w("slate"), w("grate"));
    let b = SimpleWordleConfig::from_guess_and_correct(w("crane"), w("grate"));
    let m = a.merge(b);
    assert!(m.matches_word(w("grate")));
    assert!(!m.matches_word(w("trace")));
}
