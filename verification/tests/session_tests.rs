use parole::feedback::FeedbackSymbol;
use parole::session::{SessionState, Solver, SolverError};
use parole::sim::get_colorcode;
use parole::words::WordPool;

fn pool_of(words: &[&str]) -> WordPool {
    let ws: Vec<String> = words.iter().map(|w| w.to_string()).collect();
    WordPool::new(ws, vec![('e', 120000), ('a', 80000)])
}

#[test]
fn fresh_session_holds_whole_pool() {
    let p = pool_of(&["tares", "crane", "slate"]);
    let s = Solver::new(&p);
    assert_eq!(s.words.len(), 3);
    assert_eq!(s.word_length, 5);
    assert_eq!(s.round, 0);
    assert_eq!(s.state, SessionState::AwaitingGuess);
    assert!(s.previous_words.is_empty());
}

#[test]
fn end_to_end_tares_against_crane() {
    let p = pool_of(&["tares", "crane", "slate", "crate", "brine"]);
    let mut s = Solver::new(&p);
    let full = s.words.len();
    let code = get_colorcode("crane", "tares");
    assert_eq!(code, "RYYYR");
    s.add_used_word("tares", &code);
    // The candidate set shrank strictly, and the guess itself is gone.
    assert!(s.words.len() < full);
    assert!(!s.words.iter().any(|w| w == "tares"));
    // It still holds the hidden answer.
    assert!(s.words.iter().any(|w| w == "crane"));
    // Later suggestions never bring the used guess back.
    let sugg = s.next_suggestions(10);
    assert!(!sugg.iter().any(|w| w == "tares"));
}

#[test]
fn candidate_sets_shrink_monotonically() {
    let p = pool_of(&["tares", "crane", "slate", "crate", "brine", "stale"]);
    let mut s = Solver::new(&p);
    let mut last = s.words.len();
    let answer = "crane";
    let mut guess = "tares".to_string();
    for _ in 0..3 {
        let code = get_colorcode(answer, &guess);
        let res = s.get_next_possible_words(&guess, &code);
        assert!(s.words.len() <= last);
        last = s.words.len();
        if res.is_empty() {
            break;
        }
        guess = res[0].clone();
        if guess == answer {
            break;
        }
    }
}

#[test]
fn apply_feedback_reports_empty_candidate_set() {
    let p = pool_of(&["tares"]);
    let mut s = Solver::new(&p);
    // All-absent feedback contradicts the only pool word.
    let marks = vec![FeedbackSymbol::Absent; 5];
    let r = s.apply_feedback("tares", &marks);
    assert_eq!(r, Err(SolverError::EmptyCandidateSet));
    assert_eq!(s.words.len(), 0);
    assert_eq!(s.round, 1);
}

#[test]
fn all_correct_feedback_solves() {
    let p = pool_of(&["tares", "crane"]);
    let mut s = Solver::new(&p);
    let marks = vec![FeedbackSymbol::Correct; 5];
    let r = s.apply_feedback("crane", &marks);
    assert_eq!(r, Ok(()));
    assert_eq!(s.state, SessionState::Solved);
}

#[test]
fn six_rounds_without_solving_exhaust() {
    let p = pool_of(&["tares", "crane", "slate", "crate", "brine", "stale", "aaaaa"]);
    let mut s = Solver::new(&p);
    let words = ["tares", "crane", "slate", "crate", "brine", "stale"];
    for (i, w) in words.iter().enumerate() {
        let code = get_colorcode("aaaaa", *w);
        s.add_used_word(*w, &code);
        assert_eq!(s.round, i + 1);
    }
    assert_eq!(s.state, SessionState::Exhausted);
}

#[test]
fn repeating_a_round_changes_no_candidates() {
    let p = pool_of(&["tares", "crane", "slate", "crate"]);
    let mut s = Solver::new(&p);
    let code = get_colorcode("crane", "tares");
    s.add_used_word("tares", &code);
    let first = s.words.clone();
    s.add_used_word("tares", &code);
    assert_eq!(s.words, first);
}

#[test]
fn begin_feedback_marks_waiting() {
    let p = pool_of(&["tares"]);
    let mut s = Solver::new(&p);
    s.begin_feedback();
    assert_eq!(s.state, SessionState::AwaitingFeedback);
}

#[test]
fn recording_same_round_twice_changes_nothing_more() {
    let p = pool_of(&["tares", "crane", "slate", "crate"]);
    let mut s = Solver::new(&p);
    let code = get_colorcode("crane", "tares");
    let first = s.get_next_possible_words("tares", &code);
    let again = s.get_next_possible_words("tares", &code);
    assert_eq!(first, again);
    assert_eq!(s.store.constraints.len(), {
        let mut t = Solver::new(&p);
        t.get_next_possible_words("tares", &code);
        t.store.constraints.len()
    });
}
