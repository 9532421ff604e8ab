use vstd::prelude::*;

use crate::constraints::{
    consistent, lemma_record_refines, spec_record, satisfies_all, Constraint, ConstraintStore,
};
use crate::entropy::{expected_entropy, rank, spec_expected_entropy, spec_rank, views_of};
use crate::feedback::{
    all_correct, is_all_correct, parse_colorcode, pattern, pattern_chars, pattern_to_string,
    spec_pattern, symbols_of_colors, valid_colorcode, FeedbackSymbol,
};
use crate::words::{all_words, chars_of, is_word, WordPool};
use crate::WORD_LENGTH;

verus! {

/// Where one game stands.
#[derive(Clone, Copy, PartialEq, Eq, Structural, Debug)]
pub enum SessionState {
    /// The next guess has not been chosen yet.
    AwaitingGuess,
    /// A guess is on the board and its feedback has not been applied.
    AwaitingFeedback,
    /// An applied pattern was all-Correct.
    Solved,
    /// Six rounds passed without solving.
    Exhausted,
}

/// The one failure a game can surface: the accumulated constraints admit
/// no word of the pool.
#[derive(Clone, Copy, PartialEq, Eq, Structural, Debug)]
pub enum SolverError {
    EmptyCandidateSet,
}

/// Is some word of the list the word `w`?
pub open spec fn word_in(ws: Seq<String>, w: Seq<char>) -> bool {
    exists|i: int| 0 <= i < ws.len() && ws[i]@ == w
}

/// The words a game has already used: the guesses of its history.
pub open spec fn used_words(prev: Seq<(String, String)>) -> Seq<String> {
    prev.map_values(|p: (String, String)| p.0)
}

/// The candidate set, always recomputed from the full pool: the pool words
/// consistent with every accumulated constraint and not yet guessed.
pub open spec fn spec_candidates(
    pool: Seq<String>,
    s: Seq<Constraint>,
    used: Seq<String>,
) -> Seq<String>
    decreases pool.len(),
{
    if pool.len() == 0 {
        Seq::empty()
    } else {
        let rest = spec_candidates(pool.drop_last(), s, used);
        if consistent(pool.last()@, s) && !word_in(used, pool.last()@) {
            rest.push(pool.last())
        } else {
            rest
        }
    }
}

/// The words of a ranking, scores dropped.
pub open spec fn ranked_words(ws: Seq<String>) -> Seq<String> {
    spec_rank(ws).map_values(|p: (String, u64)| p.0)
}

/// One game's state: the pool it draws from, the constraints and history
/// accumulated so far, and the candidate set they admit.
pub struct Solver {
    /// The current candidate set.
    pub words: Vec<String>,
    pub word_length: usize,
    /// Letter priors, in parts per million, as injected at construction.
    pub word_frequencies: Vec<(char, u32)>,
    /// The history: each guess with the color code of its feedback.
    pub previous_words: Vec<(String, String)>,
    /// The constraints derived from the history.
    pub store: ConstraintStore,
    /// The full corpus; candidates are always refiltered from it.
    pub pool_words: Vec<String>,
    /// How many rounds of feedback have been applied.
    pub round: usize,
    pub state: SessionState,
}

impl Solver {
    pub open spec fn wf(&self) -> bool {
        &&& self.word_length == WORD_LENGTH
        &&& all_words(self.pool_words@)
        &&& all_words(self.words@)
        &&& self.words@ == spec_candidates(
            self.pool_words@,
            self.store@,
            used_words(self.previous_words@),
        )
        &&& self.round <= 6
        &&& (self.state == SessionState::AwaitingGuess || self.state
            == SessionState::AwaitingFeedback) ==> self.round < 6
    }

    /// A fresh game over the given pool: no constraints, no history, every
    /// pool word a candidate.
    pub fn new(pool: &WordPool) -> (s: Solver)
        requires
            pool.wf(),
        ensures
            s.wf(),
            s.words@ == pool.words@,
            s.pool_words@ == pool.words@,
            s.store@ == Seq::<Constraint>::empty(),
            s.previous_words@ == Seq::<(String, String)>::empty(),
            s.word_frequencies@ == pool.letter_frequencies@,
            s.round == 0,
            s.state == SessionState::AwaitingGuess,
    {
        let words = clone_words(&pool.words);
        let pool_words = clone_words(&pool.words);
        let word_frequencies = copy_frequencies(&pool.letter_frequencies);
        proof {
            lemma_candidates_of_empty_store(pool.words@);
            assert(used_words(Seq::<(String, String)>::empty()) =~= Seq::<String>::empty());
        }
        Solver {
            words,
            word_length: crate::word_length(),
            word_frequencies,
            previous_words: Vec::new(),
            store: ConstraintStore::new(),
            pool_words,
            round: 0,
            state: SessionState::AwaitingGuess,
        }
    }

    /// The feedback pattern of a guess against an answer, written as a
    /// color code: G for a correct position, Y for a present letter out of
    /// place, R for an absent letter. Duplicate letters are handled by the
    /// two-pass algorithm: no answer letter is credited twice.
    pub fn get_feedback_pattern(&self, guess: &str, answer: &str) -> (r: String)
        requires
            guess@.len() == WORD_LENGTH,
            answer@.len() == WORD_LENGTH,
        ensures
            r@ == pattern_chars(spec_pattern(guess@, answer@)),
    {
        let gc = chars_of(guess);
        let ac = chars_of(answer);
        let p = pattern(&gc, &ac);
        pattern_to_string(&p)
    }

    /// The expected information gain of one guess against a candidate
    /// list, in fixed point.
    pub fn calculate_expected_entropy(&self, guess: &str, candidate_answers: &Vec<String>) -> (r:
        u64)
        requires
            guess@.len() == WORD_LENGTH,
            all_words(candidate_answers@),
        ensures
            r == spec_expected_entropy(guess@, views_of(candidate_answers@)),
    {
        let gc = chars_of(guess);
        expected_entropy(&gc, candidate_answers)
    }

    /// Filters a word list through three explicit constraint lists: absent
    /// letters, correctly placed letters, and misplaced letters.
    pub fn filter_words(
        &self,
        words: &Vec<String>,
        absent_chars: &Vec<(char, usize)>,
        present_chars: &Vec<(char, usize)>,
        wrong_placed_chars: &Vec<(char, usize)>,
    ) -> (r: Vec<String>)
        ensures
            r@ == spec_filter(
                words@,
                lists_constraints(absent_chars@, present_chars@, wrong_placed_chars@),
            ),
    {
        let ghost target = lists_constraints(absent_chars@, present_chars@, wrong_placed_chars@);
        let mut cs: Vec<Constraint> = Vec::new();
        let na = absent_chars.len();
        let mut i: usize = 0;
        while i < na
            invariant
                0 <= i <= na,
                na == absent_chars@.len(),
                cs@ == absent_constraints(absent_chars@.take(i as int)),
            decreases na - i,
        {
            let (c, _) = absent_chars[i];
            proof {
                let ext = absent_chars@.take(i as int + 1);
                assert(ext.drop_last() =~= absent_chars@.take(i as int));
                assert(ext.last() == absent_chars@[i as int]);
            }
            cs.push(Constraint::AbsentLetter(c));
            i = i + 1;
        }
        proof {
            assert(absent_chars@.take(na as int) =~= absent_chars@);
        }
        let np = present_chars.len();
        let mut cs_c: Vec<Constraint> = Vec::new();
        let mut i2: usize = 0;
        while i2 < np
            invariant
                0 <= i2 <= np,
                np == present_chars@.len(),
                cs_c@ == correct_constraints(present_chars@.take(i2 as int)),
            decreases np - i2,
        {
            let (c, p) = present_chars[i2];
            proof {
                let ext = present_chars@.take(i2 as int + 1);
                assert(ext.drop_last() =~= present_chars@.take(i2 as int));
                assert(ext.last() == present_chars@[i2 as int]);
            }
            cs_c.push(Constraint::CorrectAt(c, p));
            i2 = i2 + 1;
        }
        proof {
            assert(present_chars@.take(np as int) =~= present_chars@);
        }
        let nw = wrong_placed_chars.len();
        let mut cs_m: Vec<Constraint> = Vec::new();
        let mut i3: usize = 0;
        while i3 < nw
            invariant
                0 <= i3 <= nw,
                nw == wrong_placed_chars@.len(),
                cs_m@ == misplaced_constraints(wrong_placed_chars@.take(i3 as int)),
            decreases nw - i3,
        {
            let (c, p) = wrong_placed_chars[i3];
            proof {
                let ext = wrong_placed_chars@.take(i3 as int + 1);
                assert(ext.drop_last() =~= wrong_placed_chars@.take(i3 as int));
                assert(ext.last() == wrong_placed_chars@[i3 as int]);
            }
            cs_m.push(Constraint::MisplacedAt(c, p));
            i3 = i3 + 1;
        }
        proof {
            assert(wrong_placed_chars@.take(nw as int) =~= wrong_placed_chars@);
        }
        cs.append(&mut cs_c);
        cs.append(&mut cs_m);
        proof {
            assert(cs@ =~= target);
        }
        let n = words.len();
        let mut r: Vec<String> = Vec::new();
        let mut j: usize = 0;
        proof {
            assert(words@.take(0).len() == 0);
        }
        while j < n
            invariant
                0 <= j <= n,
                n == words@.len(),
                cs@ == target,
                r@ == spec_filter(words@.take(j as int), target),
            decreases n - j,
        {
            let wc = chars_of(words[j].as_str());
            proof {
                assert(words@.take(j as int + 1).drop_last() =~= words@.take(j as int));
                assert(words@.take(j as int + 1).last() == words@[j as int]);
            }
            if satisfies_all(&cs, &wc) {
                r.push(words[j].clone());
            }
            j = j + 1;
        }
        proof {
            assert(words@.take(n as int) =~= words@);
        }
        r
    }

    /// Records one round's feedback: derives and merges its constraints,
    /// appends the round to the history, recomputes the candidate set from
    /// the full pool (the guess itself is retired from it), advances the
    /// round counter and the session state. Err(EmptyCandidateSet) reports
    /// that the constraints admit no remaining word, which only an
    /// unsolved game surfaces.
    pub fn apply_feedback(&mut self, guess: &str, pat: &Vec<FeedbackSymbol>) -> (r: Result<
        (),
        SolverError,
    >)
        requires
            old(self).wf(),
            guess@.len() == WORD_LENGTH,
            pat@.len() == WORD_LENGTH,
            old(self).state == SessionState::AwaitingGuess || old(self).state
                == SessionState::AwaitingFeedback,
        ensures
            final(self).wf(),
            final(self).store@ == spec_record(old(self).store@, guess@, pat@),
            final(self).previous_words@.len() == old(self).previous_words@.len() + 1,
            forall|j: int|
                0 <= j < old(self).previous_words@.len() ==> final(self).previous_words@[j] == old(
                    self,
                ).previous_words@[j],
            final(self).previous_words@.last().0@ == guess@,
            final(self).previous_words@.last().1@ == pattern_chars(pat@),
            final(self).words@ == spec_candidates(
                old(self).pool_words@,
                spec_record(old(self).store@, guess@, pat@),
                used_words(final(self).previous_words@),
            ),
            forall|i: int|
                0 <= i < final(self).words@.len() ==> (#[trigger] final(self).words@[i])@
                    != guess@,
            final(self).pool_words@ == old(self).pool_words@,
            final(self).word_frequencies@ == old(self).word_frequencies@,
            final(self).word_length == old(self).word_length,
            final(self).round == old(self).round + 1,
            final(self).state == (if all_correct(pat@) {
                SessionState::Solved
            } else if old(self).round + 1 >= 6 {
                SessionState::Exhausted
            } else {
                SessionState::AwaitingGuess
            }),
            (r is Err) <==> (!all_correct(pat@) && final(self).words@.len() == 0),
    {
        let gc = chars_of(guess);
        self.store.record(&gc, pat);
        let code = pattern_to_string(pat);
        self.previous_words.push((guess.to_owned(), code));
        self.words = compute_candidates(&self.pool_words, &self.store, &self.previous_words);
        proof {
            let used = used_words(self.previous_words@);
            assert(used[used.len() - 1]@ == guess@);
            assert(word_in(used, guess@));
            lemma_candidates_exclude_used(self.pool_words@, self.store@, used, guess@);
        }
        self.round = self.round + 1;
        if is_all_correct(pat) {
            self.state = SessionState::Solved;
            Ok(())
        } else {
            if self.round >= 6 {
                self.state = SessionState::Exhausted;
            } else {
                self.state = SessionState::AwaitingGuess;
            }
            if self.words.len() == 0 {
                Err(SolverError::EmptyCandidateSet)
            } else {
                Ok(())
            }
        }
    }

    /// Marks the session as waiting for the feedback of a chosen guess.
    pub fn begin_feedback(&mut self)
        requires
            old(self).wf(),
            old(self).state == SessionState::AwaitingGuess,
        ensures
            final(self).wf(),
            final(self).state == SessionState::AwaitingFeedback,
            final(self).words@ == old(self).words@,
            final(self).store@ == old(self).store@,
            final(self).previous_words@ == old(self).previous_words@,
            final(self).pool_words@ == old(self).pool_words@,
            final(self).word_frequencies@ == old(self).word_frequencies@,
            final(self).round == old(self).round,
    {
        self.state = SessionState::AwaitingFeedback;
    }

    /// Records one used guess with its color code, as one applied round.
    pub fn add_used_word(&mut self, word: &str, color_state: &str)
        requires
            old(self).wf(),
            word@.len() == WORD_LENGTH,
            color_state@.len() == WORD_LENGTH,
            valid_colorcode(color_state@),
            old(self).state == SessionState::AwaitingGuess || old(self).state
                == SessionState::AwaitingFeedback,
        ensures
            final(self).wf(),
            final(self).store@ == spec_record(
                old(self).store@,
                word@,
                symbols_of_colors(color_state@),
            ),
            final(self).previous_words@.len() == old(self).previous_words@.len() + 1,
            forall|j: int|
                0 <= j < old(self).previous_words@.len() ==> final(self).previous_words@[j] == old(
                    self,
                ).previous_words@[j],
            final(self).previous_words@.last().0@ == word@,
            final(self).previous_words@.last().1@ == pattern_chars(symbols_of_colors(color_state@)),
            final(self).words@ == spec_candidates(
                old(self).pool_words@,
                spec_record(old(self).store@, word@, symbols_of_colors(color_state@)),
                used_words(final(self).previous_words@),
            ),
            forall|i: int|
                0 <= i < final(self).words@.len() ==> (#[trigger] final(self).words@[i])@
                    != word@,
            final(self).pool_words@ == old(self).pool_words@,
            final(self).round == old(self).round + 1,
    {
        let cc = chars_of(color_state);
        let pat = parse_colorcode(&cc);
        let _ = self.apply_feedback(word, &pat);
    }

    /// Records one round's color code and returns the remaining candidate
    /// words ranked by expected information gain, best first.
    pub fn get_next_possible_words(&mut self, word: &str, color_state: &str) -> (r: Vec<String>)
        requires
            old(self).wf(),
            word@.len() == WORD_LENGTH,
            color_state@.len() == WORD_LENGTH,
            valid_colorcode(color_state@),
            old(self).state == SessionState::AwaitingGuess || old(self).state
                == SessionState::AwaitingFeedback,
        ensures
            final(self).wf(),
            final(self).store@ == spec_record(
                old(self).store@,
                word@,
                symbols_of_colors(color_state@),
            ),
            final(self).words@ == spec_candidates(
                old(self).pool_words@,
                final(self).store@,
                used_words(old(self).previous_words@),
            ),
            final(self).previous_words@ == old(self).previous_words@,
            final(self).pool_words@ == old(self).pool_words@,
            final(self).word_frequencies@ == old(self).word_frequencies@,
            final(self).round == old(self).round,
            final(self).state == old(self).state,
            r@ == ranked_words(final(self).words@),
    {
        let wc = chars_of(word);
        let cc = chars_of(color_state);
        let pat = parse_colorcode(&cc);
        self.store.record(&wc, &pat);
        self.words = compute_candidates(&self.pool_words, &self.store, &self.previous_words);
        let ranked = rank(&self.words);
        words_of_ranking(&ranked)
    }

    /// The best `top_k` candidate guesses of the current set, ranked by
    /// expected information gain; the state is not touched.
    pub fn next_suggestions(&self, top_k: usize) -> (r: Vec<String>)
        requires
            self.wf(),
        ensures
            r@ == if top_k <= self.words@.len() {
                ranked_words(self.words@).take(top_k as int)
            } else {
                ranked_words(self.words@)
            },
    {
        let ranked = rank(&self.words);
        let all = words_of_ranking(&ranked);
        proof {
            crate::entropy::lemma_rank_sorted(self.words@);
        }
        if top_k <= all.len() {
            let mut r: Vec<String> = Vec::new();
            let mut i: usize = 0;
            while i < top_k
                invariant
                    0 <= i <= top_k,
                    top_k <= all@.len(),
                    r@ =~= all@.take(i as int),
                decreases top_k - i,
            {
                r.push(all[i].clone());
                proof {
                    assert(r@ =~= all@.take(i as int + 1));
                }
                i = i + 1;
            }
            r
        } else {
            all
        }
    }
}

/// The result of filtering a word list by a constraint list: the words
/// consistent with every constraint, in their original order.
pub open spec fn spec_filter(ws: Seq<String>, s: Seq<Constraint>) -> Seq<String>
    decreases ws.len(),
{
    if ws.len() == 0 {
        Seq::empty()
    } else {
        let rest = spec_filter(ws.drop_last(), s);
        if consistent(ws.last()@, s) {
            rest.push(ws.last())
        } else {
            rest
        }
    }
}

/// The constraints that three explicit lists stand for: absent letters,
/// correctly placed letters, and misplaced letters with their positions.
/// The AbsentLetter constraints an explicit list stands for.
pub open spec fn absent_constraints(a: Seq<(char, usize)>) -> Seq<Constraint>
    decreases a.len(),
{
    if a.len() == 0 {
        Seq::empty()
    } else {
        absent_constraints(a.drop_last()).push(Constraint::AbsentLetter(a.last().0))
    }
}

/// The CorrectAt constraints an explicit list stands for.
pub open spec fn correct_constraints(p: Seq<(char, usize)>) -> Seq<Constraint>
    decreases p.len(),
{
    if p.len() == 0 {
        Seq::empty()
    } else {
        correct_constraints(p.drop_last()).push(Constraint::CorrectAt(p.last().0, p.last().1))
    }
}

/// The MisplacedAt constraints an explicit list stands for.
pub open spec fn misplaced_constraints(w: Seq<(char, usize)>) -> Seq<Constraint>
    decreases w.len(),
{
    if w.len() == 0 {
        Seq::empty()
    } else {
        misplaced_constraints(w.drop_last()).push(
            Constraint::MisplacedAt(w.last().0, w.last().1),
        )
    }
}

pub open spec fn lists_constraints(
    absent: Seq<(char, usize)>,
    present: Seq<(char, usize)>,
    wrong: Seq<(char, usize)>,
) -> Seq<Constraint> {
    absent_constraints(absent) + correct_constraints(present) + misplaced_constraints(wrong)
}

/// Is the word among the guesses of the history?
fn in_history(prev: &Vec<(String, String)>, w: &String) -> (r: bool)
    ensures
        r == word_in(used_words(prev@), w@),
{
    let n = prev.len();
    let mut i: usize = 0;
    while i < n
        invariant
            0 <= i <= n,
            n == prev@.len(),
            forall|j: int| 0 <= j < i ==> prev@[j].0@ != w@,
        decreases n - i,
    {
        if prev[i].0 == *w {
            proof {
                assert(used_words(prev@)[i as int]@ == w@);
            }
            return true;
        }
        i = i + 1;
    }
    proof {
        if word_in(used_words(prev@), w@) {
            let j = choose|j: int|
                0 <= j < used_words(prev@).len() && used_words(prev@)[j]@ == w@;
            assert(prev@[j].0@ == w@);
        }
    }
    false
}

/// The candidate set recomputed from the full pool: every pool word that
/// satisfies the whole store and has not been guessed yet.
fn compute_candidates(
    pool: &Vec<String>,
    store: &ConstraintStore,
    prev: &Vec<(String, String)>,
) -> (r: Vec<String>)
    requires
        all_words(pool@),
    ensures
        r@ == spec_candidates(pool@, store@, used_words(prev@)),
        all_words(r@),
{
    let n = pool.len();
    let mut r: Vec<String> = Vec::new();
    let mut i: usize = 0;
    proof {
        assert(pool@.take(0).len() == 0);
    }
    while i < n
        invariant
            0 <= i <= n,
            n == pool@.len(),
            all_words(pool@),
            r@ == spec_candidates(pool@.take(i as int), store@, used_words(prev@)),
            all_words(r@),
        decreases n - i,
    {
        let wc = chars_of(pool[i].as_str());
        let keep = store.is_consistent(&wc) && !in_history(prev, &pool[i]);
        let ghost prefix = pool@.take(i as int);
        let ghost ext = pool@.take(i as int + 1);
        proof {
            assert(ext.drop_last() =~= prefix);
            assert(ext.last() == pool@[i as int]);
        }
        if keep {
            let w = pool[i].clone();
            r.push(w);
            proof {
                assert(is_word(pool@[i as int]@));
                assert(forall|j: int| 0 <= j < r@.len() ==> is_word(#[trigger] r@[j]@));
            }
        }
        i = i + 1;
    }
    proof {
        assert(pool@.take(n as int) =~= pool@);
    }
    r
}

/// The words of a ranking, in its order.
fn words_of_ranking(rk: &Vec<(String, u64)>) -> (r: Vec<String>)
    ensures
        r@ == rk@.map_values(|p: (String, u64)| p.0),
{
    let n = rk.len();
    let mut r: Vec<String> = Vec::new();
    let mut i: usize = 0;
    while i < n
        invariant
            0 <= i <= n,
            n == rk@.len(),
            r@ =~= rk@.map_values(|p: (String, u64)| p.0).take(i as int),
        decreases n - i,
    {
        r.push(rk[i].0.clone());
        proof {
            assert(r@ =~= rk@.map_values(|p: (String, u64)| p.0).take(i as int + 1));
        }
        i = i + 1;
    }
    proof {
        assert(r@ =~= rk@.map_values(|p: (String, u64)| p.0));
    }
    r
}

/// Monotonicity: recording further feedback and marking further words as
/// used never grows the candidate set.
pub proof fn lemma_candidates_monotone(
    pool: Seq<String>,
    s: Seq<Constraint>,
    g: Seq<char>,
    p: Seq<FeedbackSymbol>,
    used: Seq<String>,
    used2: Seq<String>,
)
    requires
        forall|w: Seq<char>| word_in(used, w) ==> word_in(used2, w),
    ensures
        spec_candidates(pool, spec_record(s, g, p), used2).len() <= spec_candidates(
            pool,
            s,
            used,
        ).len(),
    decreases pool.len(),
{
    if pool.len() != 0 {
        lemma_candidates_monotone(pool.drop_last(), s, g, p, used, used2);
        if consistent(pool.last()@, spec_record(s, g, p)) && !word_in(used2, pool.last()@) {
            lemma_record_refines(s, g, p, pool.last()@);
            assert(!word_in(used, pool.last()@));
        }
    }
}

/// Candidate-set monotonicity across one applied round: after recording
/// the guess's feedback and retiring the guess, the candidate set is never
/// larger than before.
pub proof fn lemma_apply_feedback_monotone(
    pool: Seq<String>,
    s: Seq<Constraint>,
    g: String,
    p: Seq<FeedbackSymbol>,
    used: Seq<String>,
)
    ensures
        spec_candidates(pool, spec_record(s, g@, p), used.push(g)).len() <= spec_candidates(
            pool,
            s,
            used,
        ).len(),
{
    assert forall|w: Seq<char>| word_in(used, w) implies word_in(used.push(g), w) by {
        let i = choose|i: int| 0 <= i < used.len() && used[i]@ == w;
        assert(used.push(g)[i]@ == w);
    }
    lemma_candidates_monotone(pool, s, g@, p, used, used.push(g));
}
/// The candidate set is always a subset of the pool: every candidate is
/// one of the pool's words.
pub proof fn lemma_candidates_subset(pool: Seq<String>, s: Seq<Constraint>, used: Seq<String>)
    ensures
        forall|i: int|
            0 <= i < spec_candidates(pool, s, used).len() ==> pool.contains(
                #[trigger] spec_candidates(pool, s, used)[i],
            ),
    decreases pool.len(),
{
    if pool.len() != 0 {
        lemma_candidates_subset(pool.drop_last(), s, used);
        let rest = spec_candidates(pool.drop_last(), s, used);
        assert forall|i: int|
            0 <= i < spec_candidates(pool, s, used).len() implies pool.contains(
            #[trigger] spec_candidates(pool, s, used)[i],
        ) by {
            let cur = spec_candidates(pool, s, used);
            if i < rest.len() {
                assert(cur[i] == rest[i]);
                assert(pool.drop_last().contains(rest[i]));
                let j = choose|j: int|
                    0 <= j < pool.drop_last().len() && pool.drop_last()[j] == rest[i];
                assert(pool[j] == rest[i]);
            } else {
                assert(cur[i] == pool.last());
                assert(pool[pool.len() - 1] == pool.last());
            }
        }
    }
}

/// A lone candidate ranks itself: the whole ranking is that one word.
pub proof fn lemma_ranked_words_singleton(ws: Seq<String>)
    requires
        ws.len() == 1,
    ensures
        ranked_words(ws) == seq![ws[0]],
{
    crate::entropy::lemma_rank_singleton(ws);
    assert(ranked_words(ws) =~= seq![ws[0]]);
}

/// Recording one more round never grows the candidate set, whatever was
/// recorded: the direct form of monotonicity for one store update.
pub proof fn lemma_record_shrinks_candidates(
    pool: Seq<String>,
    s: Seq<Constraint>,
    g: Seq<char>,
    p: Seq<FeedbackSymbol>,
    used: Seq<String>,
)
    ensures
        spec_candidates(pool, spec_record(s, g, p), used).len() <= spec_candidates(
            pool,
            s,
            used,
        ).len(),
{
    lemma_candidates_monotone(pool, s, g, p, used, used);
}

/// A used word is never a candidate.
pub proof fn lemma_candidates_exclude_used(
    pool: Seq<String>,
    s: Seq<Constraint>,
    used: Seq<String>,
    w: Seq<char>,
)
    requires
        word_in(used, w),
    ensures
        forall|i: int|
            0 <= i < spec_candidates(pool, s, used).len() ==> (#[trigger] spec_candidates(
                pool,
                s,
                used,
            )[i])@ != w,
    decreases pool.len(),
{
    if pool.len() != 0 {
        lemma_candidates_exclude_used(pool.drop_last(), s, used, w);
        let cur = spec_candidates(pool, s, used);
        let rest = spec_candidates(pool.drop_last(), s, used);
        assert forall|i: int| 0 <= i < cur.len() implies (#[trigger] cur[i])@ != w by {
            if i < rest.len() {
                assert(cur[i] == rest[i]);
            } else {
                assert(cur[i] == pool.last());
            }
        }
    }
}

/// Marking an already-used word as used once more changes nothing: the
/// candidate set filters by membership, not multiplicity.
pub proof fn lemma_candidates_used_twice(
    pool: Seq<String>,
    s: Seq<Constraint>,
    used: Seq<String>,
    g: String,
)
    requires
        word_in(used, g@),
    ensures
        spec_candidates(pool, s, used.push(g)) == spec_candidates(pool, s, used),
    decreases pool.len(),
{
    if pool.len() != 0 {
        lemma_candidates_used_twice(pool.drop_last(), s, used, g);
        let w = pool.last()@;
        assert(word_in(used.push(g), w) == word_in(used, w)) by {
            if word_in(used, w) {
                let i = choose|i: int| 0 <= i < used.len() && used[i]@ == w;
                assert(used.push(g)[i]@ == w);
            }
            if word_in(used.push(g), w) {
                let i = choose|i: int| 0 <= i < used.push(g).len() && used.push(g)[i]@ == w;
                if i < used.len() {
                    assert(used[i]@ == w);
                } else {
                    assert(used.push(g)[i] == g);
                    let k = choose|k: int| 0 <= k < used.len() && used[k]@ == g@;
                    assert(used[k]@ == w);
                }
            }
        }
    }
}

/// Idempotence at the session: recording the same guess and pattern a
/// second time, and retiring the guess a second time, leaves the
/// candidate set exactly as after the first round.
pub proof fn lemma_repeat_round_keeps_candidates(
    pool: Seq<String>,
    s: Seq<Constraint>,
    used: Seq<String>,
    g: String,
    p: Seq<FeedbackSymbol>,
)
    ensures
        spec_candidates(
            pool,
            spec_record(spec_record(s, g@, p), g@, p),
            used.push(g).push(g),
        ) == spec_candidates(pool, spec_record(s, g@, p), used.push(g)),
{
    crate::constraints::lemma_record_idempotent(s, g@, p);
    assert(word_in(used.push(g), g@)) by {
        assert(used.push(g)[used.len() as int]@ == g@);
    }
    lemma_candidates_used_twice(pool, spec_record(s, g@, p), used.push(g), g);
}

/// A pool word that satisfies the whole store and was never guessed is a
/// candidate: the candidate set cannot be empty while such a word exists.
pub proof fn lemma_consistent_word_is_candidate(
    pool: Seq<String>,
    s: Seq<Constraint>,
    used: Seq<String>,
    k: int,
)
    requires
        0 <= k < pool.len(),
        consistent(pool[k]@, s),
        !word_in(used, pool[k]@),
    ensures
        spec_candidates(pool, s, used).len() >= 1,
    decreases pool.len(),
{
    if k == pool.len() - 1 {
        assert(pool.last() == pool[k]);
    } else {
        assert(pool.drop_last()[k] == pool[k]);
        lemma_consistent_word_is_candidate(pool.drop_last(), s, used, k);
    }
}

/// Every ranked word is a word of the candidate list, so it has the
/// game's word length.
pub proof fn lemma_ranked_words_are_words(ws: Seq<String>)
    requires
        all_words(ws),
    ensures
        ranked_words(ws).len() == ws.len(),
        forall|i: int|
            0 <= i < ranked_words(ws).len() ==> is_word(#[trigger] ranked_words(ws)[i]@),
{
    crate::entropy::lemma_rank_sorted(ws);
    assert forall|i: int| 0 <= i < ranked_words(ws).len() implies is_word(
        #[trigger] ranked_words(ws)[i]@,
    ) by {
        let y = spec_rank(ws)[i];
        assert(spec_rank(ws).contains(y));
        crate::entropy::lemma_rank_contains(ws, y);
        let j = choose|j: int|
            0 <= j < crate::entropy::scored_candidates(ws).len()
                && crate::entropy::scored_candidates(ws)[j] == y;
        assert(y.0 == ws[j]);
        assert(is_word(ws[j]@));
        assert(ranked_words(ws)[i] == y.0);
    }
}

/// A copy of a word list; cloning a String keeps its characters.
fn clone_words(ws: &Vec<String>) -> (r: Vec<String>)
    ensures
        r@ == ws@,
{
    let r = ws.clone();
    proof {
        assert(r@ =~= ws@);
    }
    r
}

fn copy_frequencies(fs: &Vec<(char, u32)>) -> (r: Vec<(char, u32)>)
    ensures
        r@ == fs@,
{
    let n = fs.len();
    let mut r: Vec<(char, u32)> = Vec::new();
    let mut i: usize = 0;
    while i < n
        invariant
            0 <= i <= n,
            n == fs@.len(),
            r@ =~= fs@.take(i as int),
        decreases n - i,
    {
        let (c, f) = fs[i];
        r.push((c, f));
        proof {
            assert(r@ =~= fs@.take(i as int + 1));
        }
        i = i + 1;
    }
    proof {
        assert(r@ =~= fs@);
    }
    r
}

/// With no constraints and no history, every pool word is a candidate.
proof fn lemma_candidates_of_empty_store(pool: Seq<String>)
    ensures
        spec_candidates(pool, Seq::<Constraint>::empty(), Seq::<String>::empty()) == pool,
    decreases pool.len(),
{
    if pool.len() != 0 {
        lemma_candidates_of_empty_store(pool.drop_last());
        assert(consistent(pool.last()@, Seq::<Constraint>::empty()));
        assert(!word_in(Seq::<String>::empty(), pool.last()@));
        assert(pool.drop_last().push(pool.last()) =~= pool);
    }
}

} // verus!
