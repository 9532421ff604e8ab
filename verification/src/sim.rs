use vstd::prelude::*;
use vstd::string::StringExecFns;

use crate::constraints::{
    consistent, constraint_at, lemma_record_keeps_consistent, spec_record, Constraint,
};
use crate::feedback::{
    lemma_pattern_absent_credit, lemma_pattern_correct_iff, lemma_pattern_len,
    lemma_pattern_misplaced, pattern, pattern_chars, pattern_to_string, spec_pattern,
    symbols_of_colors, FeedbackSymbol,
};
use crate::session::{
    lemma_consistent_word_is_candidate, lemma_ranked_words_are_words, ranked_words,
    spec_candidates, used_words, word_in, SessionState, Solver,
};
use crate::words::{chars_of, is_word, WordPool};
use crate::WORD_LENGTH;

verus! {

#[verifier::external_type_specification]
#[verifier::external_body]
pub struct ExStdRng(rand::rngs::StdRng);

/// Relies on rand's SeedableRng::seed_from_u64 for StdRng: builds a
/// generator from the seed; it never fails.
#[verifier::external_body]
fn seed_rng(seed: u64) -> rand::rngs::StdRng {
    rand::SeedableRng::seed_from_u64(seed)
}

/// Relies on rand's Rng::gen_range over 0..n: returns an index below n.
/// It panics only on an empty range, which the precondition rules out.
#[verifier::external_body]
fn gen_index(rng: &mut rand::rngs::StdRng, n: usize) -> (r: usize)
    requires
        n >= 1,
    ensures
        r < n,
{
    rand::Rng::gen_range(rng, 0..n)
}

/// The simulation oracle: the color code of a guess against the chosen
/// word is the FeedbackEngine's own two-pass pattern, written as letters,
/// so simulated games see the same duplicate-letter semantics as every
/// other consumer of feedback.
pub fn get_colorcode(chosen_word: &str, guess: &str) -> (r: String)
    requires
        chosen_word@.len() == guess@.len(),
    ensures
        r@ == pattern_chars(spec_pattern(guess@, chosen_word@)),
        r@.len() == guess@.len(),
        crate::feedback::valid_colorcode(r@),
{
    let cw = chars_of(chosen_word);
    let gw = chars_of(guess);
    let p = pattern(&gw, &cw);
    proof {
        crate::feedback::lemma_pattern_chars_valid(p@);
    }
    pattern_to_string(&p)
}

/// The games of one run, bucketed by attempts to solve: entries 0 to 5
/// count the games solved in 1 to 6 attempts, entry 6 the rest.
pub struct SimulationResult {
    pub counts: Vec<u64>,
}

/// The number of attempt buckets: 1 to 6, and more than 6.
pub const BUCKET_COUNT: usize = 7;

/// The games counted so far: the sum of all buckets.
pub open spec fn sum_counts(s: Seq<u64>) -> int
    decreases s.len(),
{
    if s.len() == 0 {
        0
    } else {
        sum_counts(s.drop_last()) + s.last()
    }
}

proof fn lemma_sum_update(s: Seq<u64>, i: int, v: u64)
    requires
        0 <= i < s.len(),
    ensures
        sum_counts(s.update(i, v)) == sum_counts(s) - s[i] + v,
    decreases s.len(),
{
    let s2 = s.update(i, v);
    if i == s.len() - 1 {
        assert(s2.drop_last() =~= s.drop_last());
    } else {
        assert(s2.drop_last() =~= s.drop_last().update(i, v));
        lemma_sum_update(s.drop_last(), i, v);
    }
}

proof fn lemma_elem_le_sum(s: Seq<u64>, i: int)
    requires
        0 <= i < s.len(),
    ensures
        s[i] <= sum_counts(s),
        sum_counts(s) >= 0,
    decreases s.len(),
{
    if s.len() > 0 {
        if i == s.len() - 1 {
            lemma_sum_nonneg(s.drop_last());
        } else {
            lemma_elem_le_sum(s.drop_last(), i);
        }
    }
}

proof fn lemma_sum_nonneg(s: Seq<u64>)
    ensures
        sum_counts(s) >= 0,
    decreases s.len(),
{
    if s.len() > 0 {
        lemma_sum_nonneg(s.drop_last());
    }
}

impl SimulationResult {
    pub open spec fn wf(&self) -> bool {
        self.counts@.len() == BUCKET_COUNT
    }

    pub open spec fn total(&self) -> int {
        sum_counts(self.counts@)
    }

    /// An empty histogram: every bucket zero.
    pub fn new() -> (r: SimulationResult)
        ensures
            r.wf(),
            r.total() == 0,
            forall|i: int| 0 <= i < BUCKET_COUNT ==> r.counts@[i] == 0,
    {
        let mut counts: Vec<u64> = Vec::new();
        let mut i: usize = 0;
        while i < BUCKET_COUNT
            invariant
                0 <= i <= BUCKET_COUNT,
                counts@.len() == i,
                forall|j: int| 0 <= j < i ==> counts@[j] == 0,
                sum_counts(counts@) == 0,
            decreases BUCKET_COUNT - i,
        {
            let ghost before = counts@;
            counts.push(0);
            proof {
                assert(counts@.drop_last() =~= before);
            }
            i = i + 1;
        }
        SimulationResult { counts }
    }

    /// Counts one more game in the given bucket.
    pub fn record_game(&mut self, bucket: usize)
        requires
            old(self).wf(),
            bucket < BUCKET_COUNT,
            old(self).total() < 0xFFFF_FFFF_FFFF_FFFF,
        ensures
            final(self).wf(),
            final(self).total() == old(self).total() + 1,
            final(self).counts@ == old(self).counts@.update(
                bucket as int,
                (old(self).counts@[bucket as int] + 1) as u64,
            ),
    {
        proof {
            lemma_elem_le_sum(self.counts@, bucket as int);
        }
        let c = self.counts[bucket];
        self.counts.set(bucket, c + 1);
        proof {
            lemma_sum_update(old(self).counts@, bucket as int, (c + 1) as u64);
        }
    }
}

/// The oracle never contradicts its own hidden answer: a word consistent
/// with the store stays consistent once its own two-pass pattern against
/// any guess is recorded. An Absent mark whose letter the answer does hold
/// always stands beside a credited mark for that letter, and the recording
/// order then suppresses it.
pub proof fn lemma_oracle_keeps_answer(s: Seq<Constraint>, a: Seq<char>, g: Seq<char>)
    requires
        consistent(a, s),
        g.len() == a.len(),
        g.len() <= usize::MAX,
    ensures
        consistent(a, spec_record(s, g, spec_pattern(g, a))),
{
    let p = spec_pattern(g, a);
    lemma_pattern_len(g, a);
    assert forall|j: int|
        0 <= j < g.len() && j < p.len() && p[j] != FeedbackSymbol::Absent implies
        crate::constraints::satisfies(a, #[trigger] constraint_at(g, p, j)) by {
        if p[j] == FeedbackSymbol::Correct {
            lemma_pattern_correct_iff(g, a, j);
            assert(constraint_at(g, p, j) == Constraint::CorrectAt(g[j], j as usize));
        } else {
            assert(p[j] == FeedbackSymbol::Misplaced);
            lemma_pattern_misplaced(g, a, j);
            assert(constraint_at(g, p, j) == Constraint::MisplacedAt(g[j], j as usize));
        }
    }
    assert forall|j: int|
        0 <= j < g.len() && j < p.len() && p[j] == FeedbackSymbol::Absent implies
        (crate::constraints::satisfies(a, #[trigger] constraint_at(g, p, j)) || (exists|k: int|
            0 <= k < g.len() && k < p.len() && g[k] == g[j] && p[k]
                != FeedbackSymbol::Absent)) by {
        if a.contains(g[j]) {
            lemma_pattern_absent_credit(g, a, j);
            let k = choose|k: int|
                0 <= k < g.len() && g[k] == g[j] && spec_pattern(g, a)[k]
                    != FeedbackSymbol::Absent;
            assert(0 <= k < g.len() && k < p.len() && g[k] == g[j] && p[k]
                != FeedbackSymbol::Absent);
        } else {
            assert(constraint_at(g, p, j) == Constraint::AbsentLetter(g[j]));
        }
    }
    lemma_record_keeps_consistent(a, s, g, p);
}

/// One game unrolled in the model: from the given store and guess at the
/// given attempt, the bucket the game lands in. A guess equal to the
/// answer ends the game at attempts minus one; otherwise the round's
/// pattern is recorded and the top-ranked remaining candidate is guessed
/// next; after six misses the game falls into the last bucket.
pub open spec fn spec_play_round(
    pool: Seq<String>,
    chosen: Seq<char>,
    s: Seq<Constraint>,
    g: Seq<char>,
    attempt: int,
) -> int
    decreases 7 - attempt,
{
    if attempt > 6 {
        (BUCKET_COUNT - 1) as int
    } else if g == chosen {
        attempt - 1
    } else {
        let s2 = spec_record(s, g, spec_pattern(g, chosen));
        let next = ranked_words(spec_candidates(pool, s2, Seq::<String>::empty()))[0]@;
        spec_play_round(pool, chosen, s2, next, attempt + 1)
    }
}

/// The bucket one game lands in, as a function of the pool and the hidden
/// answer alone: opening guess "tares", then the top-ranked candidate each
/// round.
pub open spec fn spec_game_bucket(pool: Seq<String>, chosen: Seq<char>) -> int {
    spec_play_round(pool, chosen, Seq::<Constraint>::empty(), "tares"@, 1)
}

/// One simulated game, classified by attempts to solve: exactly the round
/// recursion of `spec_game_bucket`. The oracle's feedback never eliminates
/// the hidden answer, so a round always has a candidate left to suggest.
pub fn play_game(pool: &WordPool, chosen: &String) -> (bucket: usize)
    requires
        pool.wf(),
        chosen@.len() == WORD_LENGTH,
        exists|ci: int| 0 <= ci < pool.words@.len() && pool.words@[ci]@ == chosen@,
    ensures
        bucket < BUCKET_COUNT,
        bucket == spec_game_bucket(pool.words@, chosen@),
{
    let mut session = Solver::new(pool);
    let mut guess = String::from_str("tares");
    proof {
        reveal_strlit("tares");
    }
    let mut attempt: usize = 1;
    while attempt <= 6
        invariant
            1 <= attempt <= 7,
            session.wf(),
            session.state == SessionState::AwaitingGuess,
            session.pool_words@ == pool.words@,
            session.previous_words@.len() == 0,
            consistent(chosen@, session.store@),
            guess@.len() == WORD_LENGTH,
            chosen@.len() == WORD_LENGTH,
            exists|ci: int| 0 <= ci < pool.words@.len() && pool.words@[ci]@ == chosen@,
            spec_play_round(pool.words@, chosen@, session.store@, guess@, attempt as int)
                == spec_game_bucket(pool.words@, chosen@),
        decreases 7 - attempt,
    {
        if guess == *chosen {
            return attempt - 1;
        }
        let colorcode = get_colorcode(chosen.as_str(), guess.as_str());
        let ghost store_before = session.store@;
        let res = session.get_next_possible_words(guess.as_str(), colorcode.as_str());
        proof {
            crate::feedback::lemma_colorcode_roundtrip(spec_pattern(guess@, chosen@));
            assert(symbols_of_colors(colorcode@) == spec_pattern(guess@, chosen@));
            lemma_oracle_keeps_answer(store_before, chosen@, guess@);
            assert(consistent(chosen@, session.store@));
            let ci = choose|ci: int|
                0 <= ci < pool.words@.len() && pool.words@[ci]@ == chosen@;
            assert(!word_in(used_words(session.previous_words@), pool.words@[ci]@)) by {
                assert(used_words(session.previous_words@).len() == 0);
            }
            lemma_consistent_word_is_candidate(
                pool.words@,
                session.store@,
                used_words(session.previous_words@),
                ci,
            );
            lemma_ranked_words_are_words(session.words@);
            assert(res@.len() == session.words@.len() >= 1);
            assert(res@[0] == ranked_words(session.words@)[0]);
            assert(is_word(res@[0]@));
            assert(used_words(session.previous_words@) =~= Seq::<String>::empty());
            assert(session.words@ == spec_candidates(
                pool.words@,
                session.store@,
                Seq::<String>::empty(),
            ));
        }
        guess = res[0].clone();
        attempt = attempt + 1;
    }
    BUCKET_COUNT - 1
}

/// One run of the harness at a fixed budget: draws that many hidden
/// answers uniformly from the pool, plays each game, and buckets the games
/// by attempts to solve. The counts sum to exactly the budget.
pub fn simulate_game(pool: &WordPool, max_iterations: i16, seed: u64) -> (r: SimulationResult)
    requires
        pool.wf(),
        pool.words@.len() >= 1,
        max_iterations >= 0,
    ensures
        r.wf(),
        r.total() == max_iterations,
{
    let mut rng = seed_rng(seed);
    let mut hist = SimulationResult::new();
    let mut iteration: i16 = 0;
    while iteration < max_iterations
        invariant
            0 <= iteration <= max_iterations,
            pool.wf(),
            pool.words@.len() >= 1,
            hist.wf(),
            hist.total() == iteration,
        decreases max_iterations - iteration,
    {
        let k = gen_index(&mut rng, pool.words.len());
        let chosen = pool.words[k].clone();
        proof {
            assert(is_word(pool.words@[k as int]@));
            assert(pool.words@[k as int]@ == chosen@);
        }
        let bucket = play_game(pool, &chosen);
        hist.record_game(bucket);
        iteration = iteration + 1;
    }
    hist
}

/// The letter of one decimal digit.
pub open spec fn digit_char(d: int) -> char {
    if d == 0 {
        '0'
    } else if d == 1 {
        '1'
    } else if d == 2 {
        '2'
    } else if d == 3 {
        '3'
    } else if d == 4 {
        '4'
    } else if d == 5 {
        '5'
    } else if d == 6 {
        '6'
    } else if d == 7 {
        '7'
    } else if d == 8 {
        '8'
    } else {
        '9'
    }
}

/// The decimal writing of a number, most significant digit first.
pub open spec fn dec_rep(n: int) -> Seq<char>
    decreases n,
{
    if n < 10 {
        seq![digit_char(n)]
    } else {
        dec_rep(n / 10).push(digit_char(n % 10))
    }
}

fn digit_str(d: u64) -> (r: &'static str)
    requires
        d < 10,
    ensures
        r@ =~= seq![digit_char(d as int)],
{
    proof {
        reveal_strlit("0");
        reveal_strlit("1");
        reveal_strlit("2");
        reveal_strlit("3");
        reveal_strlit("4");
        reveal_strlit("5");
        reveal_strlit("6");
        reveal_strlit("7");
        reveal_strlit("8");
        reveal_strlit("9");
    }
    match d {
        0 => "0",
        1 => "1",
        2 => "2",
        3 => "3",
        4 => "4",
        5 => "5",
        6 => "6",
        7 => "7",
        8 => "8",
        _ => "9",
    }
}

/// A number written in decimal.
pub fn u64_to_string(n: u64) -> (s: String)
    ensures
        s@ == dec_rep(n as int),
    decreases n,
{
    if n < 10 {
        let s = String::from_str(digit_str(n));
        proof {
            assert(s@ =~= dec_rep(n as int));
        }
        s
    } else {
        let mut s = u64_to_string(n / 10);
        s.append(digit_str(n % 10));
        proof {
            assert(s@ =~= dec_rep(n as int));
        }
        s
    }
}

impl SimulationResult {
    /// The row the harness appends for one budget: the budget first, then
    /// the seven buckets, each written in decimal — eight fields in all.
    pub fn to_csv_row(&self, max_iterations: i16) -> (r: Vec<String>)
        requires
            self.wf(),
            max_iterations >= 0,
        ensures
            r@.len() == 8,
            r@[0]@ == dec_rep(max_iterations as int),
            forall|j: int|
                0 <= j < BUCKET_COUNT ==> r@[j + 1]@ == dec_rep(self.counts@[j] as int),
    {
        let mut r: Vec<String> = Vec::new();
        r.push(u64_to_string(max_iterations as u64));
        let mut i: usize = 0;
        while i < BUCKET_COUNT
            invariant
                0 <= i <= BUCKET_COUNT,
                self.wf(),
                r@.len() == i + 1,
                r@[0]@ == dec_rep(max_iterations as int),
                forall|j: int| 0 <= j < i ==> r@[j + 1]@ == dec_rep(self.counts@[j] as int),
            decreases BUCKET_COUNT - i,
        {
            r.push(u64_to_string(self.counts[i]));
            i = i + 1;
        }
        r
    }
}

/// The harness's command surface: the results path and up to three
/// iteration budgets.
pub struct Args {
    pub file_path: String,
    pub iterations: Vec<i16>,
}

impl Default for Args {
    /// The fixed defaults: results.csv, and budgets 50, 100 and 200.
    fn default() -> (r: Args)
        ensures
            r.file_path@ == "results.csv"@,
            r.iterations@ == seq![50i16, 100i16, 200i16],
    {
        let mut iterations: Vec<i16> = Vec::new();
        iterations.push(50);
        iterations.push(100);
        iterations.push(200);
        proof {
            assert(iterations@ =~= seq![50i16, 100i16, 200i16]);
        }
        Args { file_path: String::from_str("results.csv"), iterations }
    }
}

/// What is wrong with a command line, each fatal at startup.
#[derive(Clone, Copy, PartialEq, Eq, Structural, Debug)]
pub enum ArgsError {
    /// A file flag with no path after it.
    MissingFilePath,
    /// An iterations flag with no readable count after it.
    NoIterationCounts,
    /// An iteration count that is not a number up to 32767.
    InvalidIterationCount,
    /// A word that is no known flag.
    UnknownArgument,
}

pub open spec fn is_digit(c: char) -> bool {
    48 <= (c as u32) <= 57
}

pub open spec fn digit_val(c: char) -> int {
    (c as u32) - 48
}

pub open spec fn all_digits(s: Seq<char>) -> bool {
    forall|i: int| 0 <= i < s.len() ==> is_digit(#[trigger] s[i])
}

/// The value of a digit string, most significant digit first.
pub open spec fn dec_value(s: Seq<char>) -> int
    decreases s.len(),
{
    if s.len() == 0 {
        0
    } else {
        dec_value(s.drop_last()) * 10 + digit_val(s.last())
    }
}

/// The digits of a budget string: what stands behind an optional plus sign.
pub open spec fn spec_i16_body(s: Seq<char>) -> Seq<char> {
    if s.len() >= 1 && s[0] == '+' {
        s.drop_first()
    } else {
        s
    }
}

/// What parsing a budget returns: the value of the digits, behind an
/// optional plus sign, if it stays within i16; nothing otherwise.
pub open spec fn spec_parse_i16(s: Seq<char>) -> Option<i16> {
    let body = spec_i16_body(s);
    if body.len() >= 1 && all_digits(body) && dec_value(body) <= 32767 {
        Some(dec_value(body) as i16)
    } else {
        None
    }
}

proof fn lemma_dec_value_nonneg(s: Seq<char>)
    requires
        all_digits(s),
    ensures
        dec_value(s) >= 0,
    decreases s.len(),
{
    if s.len() > 0 {
        assert(all_digits(s.drop_last())) by {
            assert(forall|i: int|
                0 <= i < s.drop_last().len() ==> #[trigger] s.drop_last()[i] == s[i]);
        }
        lemma_dec_value_nonneg(s.drop_last());
    }
}

proof fn lemma_dec_value_prefix(s: Seq<char>, k: int)
    requires
        all_digits(s),
        0 <= k <= s.len(),
    ensures
        dec_value(s) >= dec_value(s.take(k)),
    decreases s.len() - k,
{
    if k < s.len() {
        lemma_dec_value_prefix(s, k + 1);
        assert(s.take(k + 1).drop_last() =~= s.take(k));
        assert(s.take(k + 1).last() == s[k]);
        assert(all_digits(s.take(k))) by {
            assert(forall|i: int| 0 <= i < k ==> #[trigger] s.take(k)[i] == s[i]);
        }
        lemma_dec_value_nonneg(s.take(k));
    } else {
        assert(s.take(k) =~= s);
    }
}

/// One budget read from a string: digits behind an optional plus sign,
/// rejected when empty, when any other letter occurs, or when the value
/// leaves i16.
pub fn parse_i16(s: &str) -> (r: Option<i16>)
    ensures
        r == spec_parse_i16(s@),
{
    let cv = chars_of(s);
    let n = cv.len();
    let start: usize = if n >= 1 && cv[0] == '+' {
        1
    } else {
        0
    };
    let ghost body = spec_i16_body(s@);
    proof {
        assert(body =~= s@.skip(start as int));
    }
    if n == start {
        return None;
    }
    let mut acc: i32 = 0;
    let mut i: usize = start;
    proof {
        assert(body.take(0) =~= Seq::<char>::empty());
    }
    while i < n
        invariant
            start <= i <= n,
            n == s@.len(),
            cv@ == s@,
            start <= 1,
            body == spec_i16_body(s@),
            body == s@.skip(start as int),
            body.len() == n - start,
            all_digits(body.take(i - start)),
            acc == dec_value(body.take(i - start)),
            0 <= acc <= 32767,
        decreases n - i,
    {
        let c = cv[i];
        let u = c as u32;
        proof {
            assert(body[i - start] == s@[i as int]);
        }
        if u < 48 || u > 57 {
            proof {
                assert(!is_digit(body[i - start]));
                assert(!all_digits(body));
                assert(spec_parse_i16(s@) is None);
            }
            return None;
        }
        proof {
            let m = i - start;
            assert(body.take(m + 1).drop_last() =~= body.take(m as int));
            assert(body.take(m + 1).last() == body[m as int]);
            assert(all_digits(body.take(m + 1))) by {
                assert(forall|j: int|
                    0 <= j < m ==> #[trigger] body.take(m + 1)[j] == body.take(m as int)[j]);
                assert(body.take(m + 1)[m as int] == body[m as int]);
            }
        }
        acc = acc * 10 + ((u - 48) as i32);
        proof {
            assert(acc == dec_value(body.take(i - start + 1)));
        }
        if acc > 32767 {
            proof {
                if all_digits(body) {
                    lemma_dec_value_prefix(body, i - start + 1);
                    assert(dec_value(body) > 32767);
                }
                assert(spec_parse_i16(s@) is None);
            }
            return None;
        }
        i = i + 1;
    }
    proof {
        assert(body.take(n - start) =~= body);
        lemma_dec_value_nonneg(body);
    }
    Some(acc as i16)
}

/// Does the argument begin with a dash, so that it reads as a flag?
pub open spec fn is_dash_arg(s: Seq<char>) -> bool {
    s.len() > 0 && s[0] == '-'
}

/// The command line read one word at a time: a file flag takes the next
/// word as the results path; an iterations flag collects up to three
/// budgets until a flag or the end; anything else is refused.
pub open spec fn spec_parse(
    args: Seq<String>,
    i: int,
    path: Seq<char>,
    iters: Seq<i16>,
    collecting: bool,
    count: int,
) -> Result<(Seq<char>, Seq<i16>), ArgsError>
    decreases args.len() - i, (if collecting { 1int } else { 0int }),
{
    if i < 0 || i >= args.len() {
        if collecting && count == 0 {
            Err(ArgsError::NoIterationCounts)
        } else {
            Ok((path, iters))
        }
    } else if collecting {
        if count < 3 && !is_dash_arg(args[i]@) {
            match spec_parse_i16(args[i]@) {
                Some(v) => spec_parse(args, i + 1, path, iters.push(v), true, count + 1),
                None => Err(ArgsError::InvalidIterationCount),
            }
        } else if count == 0 {
            Err(ArgsError::NoIterationCounts)
        } else {
            spec_parse(args, i, path, iters, false, 0)
        }
    } else if args[i]@ == "-f"@ || args[i]@ == "--file"@ {
        if i + 1 < args.len() {
            spec_parse(args, i + 2, args[i + 1]@, iters, false, 0)
        } else {
            Err(ArgsError::MissingFilePath)
        }
    } else if args[i]@ == "-i"@ || args[i]@ == "--iterations"@ {
        spec_parse(args, i + 1, path, Seq::empty(), true, 0)
    } else {
        Err(ArgsError::UnknownArgument)
    }
}

/// The whole command line, the word at index 0 being the program name:
/// defaults overridden by whatever flags follow.
pub open spec fn spec_parse_args(args: Seq<String>) -> Result<(Seq<char>, Seq<i16>), ArgsError> {
    spec_parse(args, 1, "results.csv"@, seq![50i16, 100i16, 200i16], false, 0)
}

/// Are two strings the same sequence of characters?
fn str_eq(a: &str, b: &str) -> (r: bool)
    ensures
        r == (a@ == b@),
{
    let na = a.unicode_len();
    let nb = b.unicode_len();
    if na != nb {
        return false;
    }
    let mut i: usize = 0;
    while i < na
        invariant
            0 <= i <= na,
            na == a@.len() == b@.len(),
            forall|j: int| 0 <= j < i ==> a@[j] == b@[j],
        decreases na - i,
    {
        if a.get_char(i) != b.get_char(i) {
            return false;
        }
        i = i + 1;
    }
    proof {
        assert(a@ =~= b@);
    }
    true
}

/// The command line parsed into the harness's arguments; the first word is
/// the program name and is skipped. Errors are fatal at startup and the
/// caller reports them.
pub fn parse_args(args: Vec<String>) -> (r: Result<Args, ArgsError>)
    ensures
        match r {
            Ok(a) => spec_parse_args(args@) == Ok::<(Seq<char>, Seq<i16>), ArgsError>(
                (a.file_path@, a.iterations@),
            ),
            Err(e) => spec_parse_args(args@) == Err::<(Seq<char>, Seq<i16>), ArgsError>(e),
        },
{
    let n = args.len();
    let mut path = String::from_str("results.csv");
    let mut iters: Vec<i16> = Vec::new();
    iters.push(50);
    iters.push(100);
    iters.push(200);
    proof {
        assert(iters@ =~= seq![50i16, 100i16, 200i16]);
    }
    let mut collecting = false;
    let mut count: usize = 0;
    let mut i: usize = 1;
    while i < n
        invariant
            1 <= i <= n || (i <= 1 && n <= 1),
            n == args@.len(),
            count <= 3,
            spec_parse(args@, i as int, path@, iters@, collecting, count as int)
                == spec_parse_args(args@),
        decreases n - i,
    {
        let mut handled = false;
        if collecting {
            let a_len = args[i].as_str().unicode_len();
            let dash = a_len > 0 && args[i].as_str().get_char(0) == '-';
            if count < 3 && !dash {
                match parse_i16(args[i].as_str()) {
                    Some(v) => {
                        iters.push(v);
                        count = count + 1;
                        i = i + 1;
                        handled = true;
                        proof {
                            assert(spec_parse(args@, i as int, path@, iters@, true, count as int)
                                == spec_parse_args(args@));
                        }
                    }
                    None => {
                        return Err(ArgsError::InvalidIterationCount);
                    }
                }
            } else if count == 0 {
                return Err(ArgsError::NoIterationCounts);
            } else {
                proof {
                    assert(spec_parse(args@, i as int, path@, iters@, true, count as int)
                        == spec_parse(args@, i as int, path@, iters@, false, 0));
                }
                collecting = false;
                count = 0;
            }
        }
        if !handled && !collecting {
            if str_eq(args[i].as_str(), "-f") || str_eq(args[i].as_str(), "--file") {
                if i + 1 < n {
                    path = args[i + 1].clone();
                    i = i + 2;
                    proof {
                        assert(spec_parse(args@, i as int, path@, iters@, false, 0)
                            == spec_parse_args(args@));
                    }
                } else {
                    return Err(ArgsError::MissingFilePath);
                }
            } else if str_eq(args[i].as_str(), "-i") || str_eq(args[i].as_str(), "--iterations") {
                iters = Vec::new();
                collecting = true;
                count = 0;
                i = i + 1;
                proof {
                    assert(iters@ =~= Seq::<i16>::empty());
                    assert(spec_parse(args@, i as int, path@, iters@, true, 0)
                        == spec_parse_args(args@));
                }
            } else {
                return Err(ArgsError::UnknownArgument);
            }
        }
    }
    if collecting && count == 0 {
        return Err(ArgsError::NoIterationCounts);
    }
    Ok(Args { file_path: path, iterations: iters })
}

} // verus!
