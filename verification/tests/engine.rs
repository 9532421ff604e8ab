use parole::constraints::{Constraint, ConstraintStore};
use parole::feedback::{pattern, FeedbackSymbol};
use parole::sim::get_colorcode;
use parole::words::WordPool;
use parole::session::Solver;

fn chars(s: &str) -> Vec<char> {
    s.chars().collect()
}

fn pool_of(words: &[&str]) -> WordPool {
    let ws: Vec<String> = words.iter().map(|w| w.to_string()).collect();
    let freqs: Vec<(char, u32)> = vec![('e', 120000), ('a', 80000), ('s', 60000)];
    WordPool::new(ws, freqs)
}

#[test]
fn self_match_is_all_correct() {
    let p = pool_of(&["tares"]);
    let s = Solver::new(&p);
    assert_eq!(s.get_feedback_pattern("tares", "tares"), "GGGGG");
    assert_eq!(s.get_feedback_pattern("aaaaa", "aaaaa"), "GGGGG");
}

#[test]
fn duplicate_letters_consume_answer_occurrences() {
    let p = pool_of(&["tares"]);
    let s = Solver::new(&p);
    // One 'e' in the answer: only the first 'e' of the guess is credited.
    assert_eq!(s.get_feedback_pattern("eexxx", "abcde"), "YRRRR");
    // Both 'a's of the answer are consumed, the third 'a' is absent.
    assert_eq!(s.get_feedback_pattern("aaaxx", "aayya"), "GGYRR");
    // A green consumes its occurrence before yellows are assigned.
    assert_eq!(s.get_feedback_pattern("xaaxx", "yaywz"), "RGRRR");
}

#[test]
fn pattern_function_matches_string_form() {
    let g = chars("eexxx");
    let a = chars("abcde");
    let marks = pattern(&g, &a);
    assert_eq!(
        marks,
        vec![
            FeedbackSymbol::Misplaced,
            FeedbackSymbol::Absent,
            FeedbackSymbol::Absent,
            FeedbackSymbol::Absent,
            FeedbackSymbol::Absent,
        ]
    );
}

#[test]
fn colorcode_oracle_positions() {
    // t absent, a misplaced, r misplaced, e misplaced, s absent.
    assert_eq!(get_colorcode("crane", "tares"), "RYYYR");
    assert_eq!(get_colorcode("crane", "crane"), "GGGGG");
    // The oracle consumes occurrences like the engine: the green at
    // position 0 uses up the only 'a', so the second 'a' reads absent.
    assert_eq!(get_colorcode("abcde", "aaxxx"), "GRRRR");
    // The green 'e' at the end consumes crane's only 'e' first.
    assert_eq!(get_colorcode("crane", "eerie"), "RRYRG");
}

#[test]
fn oracle_equals_engine_pattern() {
    let p = pool_of(&["tares"]);
    let s = Solver::new(&p);
    for (answer, guess) in [
        ("crane", "tares"),
        ("crane", "eerie"),
        ("abcde", "aaxxx"),
        ("aabbb", "ababa"),
    ] {
        assert_eq!(get_colorcode(answer, guess), s.get_feedback_pattern(guess, answer));
    }
}

#[test]
fn record_is_idempotent() {
    let mut store = ConstraintStore::new();
    let g = chars("tares");
    let marks = vec![
        FeedbackSymbol::Absent,
        FeedbackSymbol::Misplaced,
        FeedbackSymbol::Misplaced,
        FeedbackSymbol::Misplaced,
        FeedbackSymbol::Absent,
    ];
    store.record(&g, &marks);
    let first = store.constraints.clone();
    store.record(&g, &marks);
    assert_eq!(store.constraints, first);
}

#[test]
fn absent_is_suppressed_for_a_letter_known_present() {
    let mut store = ConstraintStore::new();
    // Guess with a repeated letter: one 'a' misplaced, the other gray.
    let g = chars("axaxx");
    let marks = vec![
        FeedbackSymbol::Misplaced,
        FeedbackSymbol::Absent,
        FeedbackSymbol::Absent,
        FeedbackSymbol::Absent,
        FeedbackSymbol::Absent,
    ];
    store.record(&g, &marks);
    // No AbsentLetter('a') may be recorded: 'a' is known to occur.
    assert!(!store.constraints.contains(&Constraint::AbsentLetter('a')));
    assert!(store.constraints.contains(&Constraint::MisplacedAt('a', 0)));
    assert!(store.constraints.contains(&Constraint::AbsentLetter('x')));
}

#[test]
fn is_consistent_checks_all_three_kinds() {
    let mut store = ConstraintStore::new();
    let g = chars("tares");
    let marks = vec![
        FeedbackSymbol::Absent,     // no 't'
        FeedbackSymbol::Misplaced,  // 'a' elsewhere than position 1
        FeedbackSymbol::Absent,     // no 'r'
        FeedbackSymbol::Correct,    // 'e' at position 3
        FeedbackSymbol::Absent,     // no 's'
    ];
    store.record(&g, &marks);
    assert!(store.is_consistent(&chars("album")) == false); // no 'e' at 3
    assert!(store.is_consistent(&chars("mcaeb"))); // 'a' away from 1, 'e' at 3
    assert!(store.is_consistent(&chars("scaeb")) == false); // holds 's'
    assert!(store.is_consistent(&chars("xaxex")) == false); // 'a' still at 1
}

#[test]
fn pool_frequency_lookup() {
    let p = pool_of(&["tares"]);
    assert_eq!(p.frequency_of('e'), 120000);
    assert_eq!(p.frequency_of('z'), 0);
    assert_eq!(p.len(), 1);
    assert_eq!(parole::word_length(), 5);
}

#[test]
fn expected_entropy_of_separating_and_blind_guesses() {
    let p = pool_of(&["aaaaa", "bbbbb"]);
    let s = Solver::new(&p);
    let cands: Vec<String> = vec!["aaaaa".into(), "bbbbb".into()];
    // A guess that splits the two candidates gains exactly one bit.
    assert_eq!(
        s.calculate_expected_entropy("aaaaa", &cands),
        parole::entropy::ONE_BIT
    );
    // A guess that cannot tell them apart gains nothing.
    assert_eq!(s.calculate_expected_entropy("ccccc", &cands), 0);
}

#[test]
fn filter_words_applies_explicit_lists() {
    let p = pool_of(&["tares", "crane", "plumb"]);
    let s = Solver::new(&p);
    let words: Vec<String> = vec!["tares".into(), "crane".into(), "plumb".into()];
    let absent = vec![('t', 0)];
    let present = vec![('a', 2)];
    let wrong = vec![('e', 0)];
    let out = s.filter_words(&words, &absent, &present, &wrong);
    // crane: no 't', 'a' at 2, 'e' present but not first.
    assert_eq!(out, vec!["crane".to_string()]);
}
