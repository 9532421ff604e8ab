use vstd::prelude::*;
use vstd::string::StringExecFns;

verus! {

/// Outcome of one position when a guess is compared to an answer.
#[derive(Clone, Copy, PartialEq, Eq, Structural, Debug)]
pub enum FeedbackSymbol {
    /// The guessed letter stands at this position in the answer (green).
    Correct,
    /// The letter occurs in the answer, but not at this position (yellow).
    Misplaced,
    /// No unconsumed occurrence of the letter is left in the answer (gray).
    Absent,
}

/// Consumption mask after the first pass: exactly the positions where
/// guess and answer agree are consumed.
pub open spec fn initial_used(g: Seq<char>, a: Seq<char>) -> Seq<bool> {
    Seq::new(a.len(), |j: int| g[j] == a[j])
}

/// Leftmost unconsumed position of `a` holding `c`, searching from `j` on.
pub open spec fn find_unused(a: Seq<char>, used: Seq<bool>, c: char, j: int) -> Option<int>
    decreases a.len() - j,
{
    if j < 0 || j >= a.len() {
        None
    } else if !used[j] && a[j] == c {
        Some(j)
    } else {
        find_unused(a, used, c, j + 1)
    }
}

/// Marks for positions `i ..` of the guess, given the consumption mask so far.
/// A position where guess and answer agree is Correct; otherwise the leftmost
/// unconsumed occurrence of the guessed letter, if any, is consumed for a
/// Misplaced mark; otherwise the mark is Absent.
pub open spec fn marks_from(g: Seq<char>, a: Seq<char>, used: Seq<bool>, i: int) -> Seq<
    FeedbackSymbol,
>
    decreases g.len() - i,
{
    if i < 0 || i >= g.len() {
        Seq::empty()
    } else if i < a.len() && g[i] == a[i] {
        seq![FeedbackSymbol::Correct] + marks_from(g, a, used, i + 1)
    } else {
        match find_unused(a, used, g[i], 0) {
            Some(j) => seq![FeedbackSymbol::Misplaced] + marks_from(g, a, used.update(j, true), i + 1),
            None => seq![FeedbackSymbol::Absent] + marks_from(g, a, used, i + 1),
        }
    }
}

/// The feedback pattern of a guess against an answer: the two-pass algorithm,
/// with the first pass folded into the initial consumption mask.
pub open spec fn spec_pattern(g: Seq<char>, a: Seq<char>) -> Seq<FeedbackSymbol> {
    marks_from(g, a, initial_used(g, a), 0)
}

pub open spec fn all_correct(p: Seq<FeedbackSymbol>) -> bool {
    forall|i: int| 0 <= i < p.len() ==> p[i] == FeedbackSymbol::Correct
}

proof fn lemma_marks_from_len(g: Seq<char>, a: Seq<char>, used: Seq<bool>, i: int)
    requires
        0 <= i <= g.len(),
    ensures
        marks_from(g, a, used, i).len() == g.len() - i,
    decreases g.len() - i,
{
    if i < g.len() {
        if i < a.len() && g[i] == a[i] {
            lemma_marks_from_len(g, a, used, i + 1);
        } else {
            match find_unused(a, used, g[i], 0) {
                Some(j) => lemma_marks_from_len(g, a, used.update(j, true), i + 1),
                None => lemma_marks_from_len(g, a, used, i + 1),
            }
        }
    }
}

/// A feedback pattern always has one mark per guess position.
pub proof fn lemma_pattern_len(g: Seq<char>, a: Seq<char>)
    ensures
        spec_pattern(g, a).len() == g.len(),
{
    lemma_marks_from_len(g, a, initial_used(g, a), 0);
}

proof fn lemma_marks_from_self(w: Seq<char>, used: Seq<bool>, i: int)
    requires
        0 <= i <= w.len(),
    ensures
        all_correct(marks_from(w, w, used, i)),
    decreases w.len() - i,
{
    if i < w.len() {
        lemma_marks_from_self(w, used, i + 1);
        assert(marks_from(w, w, used, i) == seq![FeedbackSymbol::Correct] + marks_from(
            w,
            w,
            used,
            i + 1,
        ));
    }
}

/// Self-match law: matching a word against itself yields all-Correct marks.
pub proof fn lemma_self_match(w: Seq<char>)
    ensures
        spec_pattern(w, w).len() == w.len(),
        all_correct(spec_pattern(w, w)),
{
    lemma_pattern_len(w, w);
    lemma_marks_from_self(w, initial_used(w, w), 0);
}

/// How many positions of `a` hold the letter `c`.
pub open spec fn count_letter(a: Seq<char>, c: char) -> nat
    decreases a.len(),
{
    if a.len() == 0 {
        0
    } else {
        (if a[0] == c {
            1nat
        } else {
            0nat
        }) + count_letter(a.drop_first(), c)
    }
}

/// How many positions of the pattern `p` credit the letter `c`: positions
/// where the guess holds `c` and the mark is Correct or Misplaced.
pub open spec fn credited_marks(g: Seq<char>, p: Seq<FeedbackSymbol>, c: char) -> nat
    decreases p.len(),
{
    if p.len() == 0 || g.len() == 0 {
        0
    } else {
        (if g[0] == c && p[0] != FeedbackSymbol::Absent {
            1nat
        } else {
            0nat
        }) + credited_marks(g.drop_first(), p.drop_first(), c)
    }
}

/// Unconsumed occurrences of `c` in `a` at positions `j ..`.
spec fn avail_from(a: Seq<char>, used: Seq<bool>, c: char, j: int) -> nat
    decreases a.len() - j,
{
    if j < 0 || j >= a.len() {
        0
    } else {
        (if j < used.len() && !used[j] && a[j] == c {
            1nat
        } else {
            0nat
        }) + avail_from(a, used, c, j + 1)
    }
}

/// Positions `i ..` where guess and answer agree on the letter `c`.
spec fn greens_from(g: Seq<char>, a: Seq<char>, c: char, i: int) -> nat
    decreases g.len() - i,
{
    if i < 0 || i >= g.len() {
        0
    } else {
        (if i < a.len() && g[i] == a[i] && g[i] == c {
            1nat
        } else {
            0nat
        }) + greens_from(g, a, c, i + 1)
    }
}

proof fn lemma_find_unused_found(a: Seq<char>, used: Seq<bool>, c: char, k: int, j: int)
    requires
        find_unused(a, used, c, k) == Some(j),
    ensures
        k <= j < a.len(),
        j < used.len() ==> !used[j],
        a[j] == c,
    decreases a.len() - k,
{
    if !(k < 0 || k >= a.len()) && !(!used[k] && a[k] == c) {
        lemma_find_unused_found(a, used, c, k + 1, j);
    }
}

proof fn lemma_avail_update(a: Seq<char>, used: Seq<bool>, c: char, j: int, k: int)
    requires
        used.len() == a.len(),
        0 <= j < a.len(),
        !used[j],
        0 <= k <= a.len(),
    ensures
        a[j] == c && k <= j ==> avail_from(a, used, c, k) == avail_from(a, used.update(j, true), c, k)
            + 1,
        a[j] != c || j < k ==> avail_from(a, used, c, k) == avail_from(a, used.update(j, true), c, k),
    decreases a.len() - k,
{
    if k < a.len() {
        lemma_avail_update(a, used, c, j, k + 1);
    }
}

proof fn lemma_credit_bound(g: Seq<char>, a: Seq<char>, used: Seq<bool>, c: char, i: int)
    requires
        g.len() == a.len(),
        used.len() == a.len(),
        0 <= i <= g.len(),
    ensures
        credited_marks(g.skip(i), marks_from(g, a, used, i), c) <= greens_from(g, a, c, i)
            + avail_from(a, used, c, 0),
    decreases g.len() - i,
{
    if i < g.len() {
        let gs = g.skip(i);
        assert(gs.drop_first() =~= g.skip(i + 1));
        assert(gs[0] == g[i]);
        if g[i] == a[i] {
            let rest = marks_from(g, a, used, i + 1);
            let p = marks_from(g, a, used, i);
            assert(p == seq![FeedbackSymbol::Correct] + rest);
            assert(p.drop_first() =~= rest);
            lemma_credit_bound(g, a, used, c, i + 1);
        } else {
            match find_unused(a, used, g[i], 0) {
                Some(j) => {
                    lemma_find_unused_found(a, used, g[i], 0, j);
                    let used2 = used.update(j, true);
                    let rest = marks_from(g, a, used2, i + 1);
                    let p = marks_from(g, a, used, i);
                    assert(p == seq![FeedbackSymbol::Misplaced] + rest);
                    assert(p.drop_first() =~= rest);
                    lemma_credit_bound(g, a, used2, c, i + 1);
                    lemma_avail_update(a, used, c, j, 0);
                }
                None => {
                    let rest = marks_from(g, a, used, i + 1);
                    let p = marks_from(g, a, used, i);
                    assert(p == seq![FeedbackSymbol::Absent] + rest);
                    assert(p.drop_first() =~= rest);
                    lemma_credit_bound(g, a, used, c, i + 1);
                }
            }
        }
    }
}

proof fn lemma_initial_accounting(g: Seq<char>, a: Seq<char>, c: char, j: int)
    requires
        g.len() == a.len(),
        0 <= j <= a.len(),
    ensures
        greens_from(g, a, c, j) + avail_from(a, initial_used(g, a), c, j) == count_letter(
            a.skip(j),
            c,
        ),
    decreases a.len() - j,
{
    if j < a.len() {
        assert(a.skip(j).drop_first() =~= a.skip(j + 1));
        assert(a.skip(j)[0] == a[j]);
        lemma_initial_accounting(g, a, c, j + 1);
    }
}

/// Duplicate-letter law: across any guess/answer pair, the Correct and
/// Misplaced marks credited to one letter never outnumber that letter's
/// occurrences in the answer.
pub proof fn lemma_duplicate_letter_bound(g: Seq<char>, a: Seq<char>, c: char)
    requires
        g.len() == a.len(),
    ensures
        credited_marks(g, spec_pattern(g, a), c) <= count_letter(a, c),
{
    lemma_credit_bound(g, a, initial_used(g, a), c, 0);
    lemma_initial_accounting(g, a, c, 0);
    assert(g.skip(0) =~= g);
    assert(a.skip(0) =~= a);
}

proof fn lemma_find_unused_none(a: Seq<char>, used: Seq<bool>, c: char, k: int)
    requires
        0 <= k,
        used.len() == a.len(),
        find_unused(a, used, c, k) is None,
    ensures
        forall|m: int| k <= m < a.len() && a[m] == c ==> used[m],
    decreases a.len() - k,
{
    if 0 <= k < a.len() {
        lemma_find_unused_none(a, used, c, k + 1);
    }
}

proof fn lemma_marks_from_correct(g: Seq<char>, a: Seq<char>, used: Seq<bool>, i: int, j: int)
    requires
        g.len() == a.len(),
        0 <= i <= j < g.len(),
    ensures
        (marks_from(g, a, used, i)[j - i] == FeedbackSymbol::Correct) <==> (g[j] == a[j]),
    decreases j - i,
{
    let q = marks_from(g, a, used, i);
    if i < a.len() && g[i] == a[i] {
        let rest = marks_from(g, a, used, i + 1);
        lemma_marks_from_len(g, a, used, i + 1);
        assert(q == seq![FeedbackSymbol::Correct] + rest);
        if j > i {
            assert(q[j - i] == rest[j - i - 1]);
            lemma_marks_from_correct(g, a, used, i + 1, j);
        }
    } else {
        match find_unused(a, used, g[i], 0) {
            Some(f) => {
                let rest = marks_from(g, a, used.update(f, true), i + 1);
                lemma_marks_from_len(g, a, used.update(f, true), i + 1);
                assert(q == seq![FeedbackSymbol::Misplaced] + rest);
                if j > i {
                    assert(q[j - i] == rest[j - i - 1]);
                    lemma_marks_from_correct(g, a, used.update(f, true), i + 1, j);
                }
            }
            None => {
                let rest = marks_from(g, a, used, i + 1);
        lemma_marks_from_len(g, a, used, i + 1);
                assert(q == seq![FeedbackSymbol::Absent] + rest);
                if j > i {
                    assert(q[j - i] == rest[j - i - 1]);
                    lemma_marks_from_correct(g, a, used, i + 1, j);
                }
            }
        }
    }
}

proof fn lemma_marks_from_misplaced(g: Seq<char>, a: Seq<char>, used: Seq<bool>, i: int, j: int)
    requires
        g.len() == a.len(),
        0 <= i <= j < g.len(),
        marks_from(g, a, used, i)[j - i] == FeedbackSymbol::Misplaced,
    ensures
        a[j] != g[j],
        a.contains(g[j]),
    decreases j - i,
{
    let q = marks_from(g, a, used, i);
    if i < a.len() && g[i] == a[i] {
        let rest = marks_from(g, a, used, i + 1);
        lemma_marks_from_len(g, a, used, i + 1);
        assert(q == seq![FeedbackSymbol::Correct] + rest);
        assert(j > i);
        assert(q[j - i] == rest[j - i - 1]);
        lemma_marks_from_misplaced(g, a, used, i + 1, j);
    } else {
        match find_unused(a, used, g[i], 0) {
            Some(f) => {
                lemma_find_unused_found(a, used, g[i], 0, f);
                let rest = marks_from(g, a, used.update(f, true), i + 1);
                lemma_marks_from_len(g, a, used.update(f, true), i + 1);
                assert(q == seq![FeedbackSymbol::Misplaced] + rest);
                if j == i {
                    assert(a[f] == g[i]);
                } else {
                    assert(q[j - i] == rest[j - i - 1]);
                    lemma_marks_from_misplaced(g, a, used.update(f, true), i + 1, j);
                }
            }
            None => {
                let rest = marks_from(g, a, used, i + 1);
        lemma_marks_from_len(g, a, used, i + 1);
                assert(q == seq![FeedbackSymbol::Absent] + rest);
                assert(j > i);
                assert(q[j - i] == rest[j - i - 1]);
                lemma_marks_from_misplaced(g, a, used, i + 1, j);
            }
        }
    }
}

proof fn lemma_marks_from_absent(g: Seq<char>, a: Seq<char>, used: Seq<bool>, i: int, j: int)
    requires
        g.len() == a.len(),
        used.len() == a.len(),
        0 <= i <= j < g.len(),
        marks_from(g, a, used, i)[j - i] == FeedbackSymbol::Absent,
        a.contains(g[j]),
    ensures
        (exists|k: int|
            i <= k < g.len() && g[k] == g[j] && marks_from(g, a, used, i)[k - i]
                != FeedbackSymbol::Absent) || (exists|m: int|
            0 <= m < a.len() && used[m] && a[m] == g[j]),
    decreases j - i,
{
    let q = marks_from(g, a, used, i);
    if i < a.len() && g[i] == a[i] {
        let rest = marks_from(g, a, used, i + 1);
        lemma_marks_from_len(g, a, used, i + 1);
        assert(q == seq![FeedbackSymbol::Correct] + rest);
        assert(j > i);
        assert(q[j - i] == rest[j - i - 1]);
        lemma_marks_from_absent(g, a, used, i + 1, j);
        if exists|k: int|
            i + 1 <= k < g.len() && g[k] == g[j] && rest[k - (i + 1)] != FeedbackSymbol::Absent {
            let k = choose|k: int|
                i + 1 <= k < g.len() && g[k] == g[j] && rest[k - (i + 1)]
                    != FeedbackSymbol::Absent;
            assert(q[k - i] == rest[k - i - 1]);
            assert(i <= k < g.len() && g[k] == g[j] && q[k - i] != FeedbackSymbol::Absent);
        }
    } else {
        match find_unused(a, used, g[i], 0) {
            Some(f) => {
                lemma_find_unused_found(a, used, g[i], 0, f);
                let used2 = used.update(f, true);
                let rest = marks_from(g, a, used2, i + 1);
                lemma_marks_from_len(g, a, used2, i + 1);
                assert(q == seq![FeedbackSymbol::Misplaced] + rest);
                assert(j > i);
                assert(q[j - i] == rest[j - i - 1]);
                lemma_marks_from_absent(g, a, used2, i + 1, j);
                if exists|k: int|
                    i + 1 <= k < g.len() && g[k] == g[j] && rest[k - (i + 1)]
                        != FeedbackSymbol::Absent {
                    let k = choose|k: int|
                        i + 1 <= k < g.len() && g[k] == g[j] && rest[k - (i + 1)]
                            != FeedbackSymbol::Absent;
                    assert(q[k - i] == rest[k - i - 1]);
                    assert(i <= k < g.len() && g[k] == g[j] && q[k - i] != FeedbackSymbol::Absent);
                } else {
                    let m = choose|m: int| 0 <= m < a.len() && used2[m] && a[m] == g[j];
                    if m == f {
                        // The occurrence consumed by this very step: the
                        // Misplaced mark at position i credits the letter.
                        assert(a[f] == g[i]);
                        assert(g[i] == g[j]);
                        assert(q[i - i] != FeedbackSymbol::Absent);
                        assert(i <= i < g.len() && g[i] == g[j] && q[0] != FeedbackSymbol::Absent);
                    } else {
                        assert(used[m]);
                    }
                }
            }
            None => {
                let rest = marks_from(g, a, used, i + 1);
        lemma_marks_from_len(g, a, used, i + 1);
                assert(q == seq![FeedbackSymbol::Absent] + rest);
                if j == i {
                    lemma_find_unused_none(a, used, g[i], 0);
                    let m = choose|m: int| 0 <= m < a.len() && a[m] == g[j];
                    assert(used[m]);
                } else {
                    assert(q[j - i] == rest[j - i - 1]);
                    lemma_marks_from_absent(g, a, used, i + 1, j);
                    if exists|k: int|
                        i + 1 <= k < g.len() && g[k] == g[j] && rest[k - (i + 1)]
                            != FeedbackSymbol::Absent {
                        let k = choose|k: int|
                            i + 1 <= k < g.len() && g[k] == g[j] && rest[k - (i + 1)]
                                != FeedbackSymbol::Absent;
                        assert(q[k - i] == rest[k - i - 1]);
                        assert(i <= k < g.len() && g[k] == g[j] && q[k - i]
                            != FeedbackSymbol::Absent);
                    }
                }
            }
        }
    }
}

/// A Correct mark stands exactly where guess and answer agree.
pub proof fn lemma_pattern_correct_iff(g: Seq<char>, a: Seq<char>, j: int)
    requires
        g.len() == a.len(),
        0 <= j < g.len(),
    ensures
        (spec_pattern(g, a)[j] == FeedbackSymbol::Correct) <==> (g[j] == a[j]),
{
    lemma_marks_from_correct(g, a, initial_used(g, a), 0, j);
}

/// A Misplaced mark's letter occurs in the answer, away from that position.
pub proof fn lemma_pattern_misplaced(g: Seq<char>, a: Seq<char>, j: int)
    requires
        g.len() == a.len(),
        0 <= j < g.len(),
        spec_pattern(g, a)[j] == FeedbackSymbol::Misplaced,
    ensures
        a[j] != g[j],
        a.contains(g[j]),
{
    lemma_marks_from_misplaced(g, a, initial_used(g, a), 0, j);
}

/// An Absent mark for a letter the answer does contain always stands
/// beside a Correct or Misplaced mark for the same letter: consumption
/// only ever exhausts credited occurrences.
pub proof fn lemma_pattern_absent_credit(g: Seq<char>, a: Seq<char>, j: int)
    requires
        g.len() == a.len(),
        0 <= j < g.len(),
        spec_pattern(g, a)[j] == FeedbackSymbol::Absent,
        a.contains(g[j]),
    ensures
        exists|k: int|
            0 <= k < g.len() && g[k] == g[j] && spec_pattern(g, a)[k] != FeedbackSymbol::Absent,
{
    let used = initial_used(g, a);
    lemma_marks_from_absent(g, a, used, 0, j);
    if exists|m: int| 0 <= m < a.len() && used[m] && a[m] == g[j] {
        let m = choose|m: int| 0 <= m < a.len() && used[m] && a[m] == g[j];
        assert(g[m] == a[m]);
        lemma_marks_from_correct(g, a, used, 0, m);
        assert(spec_pattern(g, a)[m] == FeedbackSymbol::Correct);
        assert(0 <= m < g.len() && g[m] == g[j] && spec_pattern(g, a)[m]
            != FeedbackSymbol::Absent);
    }
}

/// Leftmost unconsumed occurrence of `c` in `answer`, or None.
fn find_unused_exec(answer: &Vec<char>, used: &Vec<bool>, c: char) -> (r: Option<usize>)
    requires
        used@.len() == answer@.len(),
    ensures
        match r {
            Some(j) => j < answer@.len() && find_unused(answer@, used@, c, 0) == Some(j as int),
            None => find_unused(answer@, used@, c, 0) is None,
        },
{
    let n = answer.len();
    let mut j: usize = 0;
    while j < n
        invariant
            0 <= j <= n,
            n == answer@.len(),
            used@.len() == answer@.len(),
            find_unused(answer@, used@, c, 0) == find_unused(answer@, used@, c, j as int),
        decreases n - j,
    {
        if !used[j] && answer[j] == c {
            return Some(j);
        }
        j = j + 1;
    }
    None
}

/// Feedback of one guess against one answer, per position.
pub fn pattern(guess: &Vec<char>, answer: &Vec<char>) -> (p: Vec<FeedbackSymbol>)
    requires
        guess@.len() == answer@.len(),
    ensures
        p@ == spec_pattern(guess@, answer@),
        p@.len() == guess@.len(),
{
    let n = guess.len();
    let mut used: Vec<bool> = Vec::new();
    let mut k: usize = 0;
    while k < n
        invariant
            0 <= k <= n,
            n == guess@.len() == answer@.len(),
            used@.len() == k,
            forall|j: int| 0 <= j < k ==> used@[j] == (guess@[j] == answer@[j]),
        decreases n - k,
    {
        used.push(guess[k] == answer[k]);
        k = k + 1;
    }
    assert(used@ =~= initial_used(guess@, answer@));

    let mut marks: Vec<FeedbackSymbol> = Vec::new();
    let mut i: usize = 0;
    while i < n
        invariant
            0 <= i <= n,
            n == guess@.len() == answer@.len(),
            used@.len() == n,
            marks@.len() == i,
            marks@ + marks_from(guess@, answer@, used@, i as int) == spec_pattern(guess@, answer@),
        decreases n - i,
    {
        let ghost used_before = used@;
        let sym: FeedbackSymbol;
        if guess[i] == answer[i] {
            sym = FeedbackSymbol::Correct;
        } else {
            match find_unused_exec(answer, &used, guess[i]) {
                Some(j) => {
                    sym = FeedbackSymbol::Misplaced;
                    used.set(j, true);
                }
                None => {
                    sym = FeedbackSymbol::Absent;
                }
            }
        }
        proof {
            assert(marks_from(guess@, answer@, used_before, i as int) == seq![sym] + marks_from(
                guess@,
                answer@,
                used@,
                i as int + 1,
            ));
        }
        marks.push(sym);
        proof {
            assert(marks@ + marks_from(guess@, answer@, used@, i as int + 1) =~= (marks@.drop_last()
                + marks_from(guess@, answer@, used_before, i as int)));
        }
        i = i + 1;
    }
    proof {
        lemma_pattern_len(guess@, answer@);
        assert(marks@ =~= spec_pattern(guess@, answer@));
    }
    marks
}

/// Is every mark of the pattern Correct?
pub fn is_all_correct(p: &Vec<FeedbackSymbol>) -> (r: bool)
    ensures
        r == all_correct(p@),
{
    let n = p.len();
    let mut i: usize = 0;
    while i < n
        invariant
            0 <= i <= n,
            n == p@.len(),
            forall|j: int| 0 <= j < i ==> p@[j] == FeedbackSymbol::Correct,
        decreases n - i,
    {
        if !(p[i] == FeedbackSymbol::Correct) {
            return false;
        }
        i = i + 1;
    }
    true
}

/// The letter a symbol is written as: G for Correct, Y for Misplaced,
/// R for Absent.
pub open spec fn symbol_char(s: FeedbackSymbol) -> char {
    match s {
        FeedbackSymbol::Correct => 'G',
        FeedbackSymbol::Misplaced => 'Y',
        FeedbackSymbol::Absent => 'R',
    }
}

pub open spec fn pattern_chars(p: Seq<FeedbackSymbol>) -> Seq<char> {
    p.map_values(|s: FeedbackSymbol| symbol_char(s))
}

pub open spec fn color_symbol(c: char) -> FeedbackSymbol {
    if c == 'G' {
        FeedbackSymbol::Correct
    } else if c == 'Y' {
        FeedbackSymbol::Misplaced
    } else {
        FeedbackSymbol::Absent
    }
}

pub open spec fn symbols_of_colors(cs: Seq<char>) -> Seq<FeedbackSymbol> {
    cs.map_values(|c: char| color_symbol(c))
}

/// A color code names each position's symbol by its letter.
pub open spec fn valid_colorcode(cs: Seq<char>) -> bool {
    forall|i: int| 0 <= i < cs.len() ==> (cs[i] == 'G' || cs[i] == 'Y' || cs[i] == 'R')
}

/// Writing a pattern as letters and reading it back is the identity: the
/// three symbols and the three letters correspond one to one.
pub proof fn lemma_colorcode_roundtrip(p: Seq<FeedbackSymbol>)
    ensures
        symbols_of_colors(pattern_chars(p)) == p,
{
    assert forall|j: int| 0 <= j < p.len() implies symbols_of_colors(pattern_chars(p))[j]
        == p[j] by {
        assert(pattern_chars(p)[j] == symbol_char(p[j]));
    }
    assert(symbols_of_colors(pattern_chars(p)) =~= p);
}

/// A written pattern is a valid color code: every letter is G, Y or R.
pub proof fn lemma_pattern_chars_valid(p: Seq<FeedbackSymbol>)
    ensures
        valid_colorcode(pattern_chars(p)),
{
    assert forall|j: int| 0 <= j < pattern_chars(p).len() implies (pattern_chars(p)[j] == 'G'
        || pattern_chars(p)[j] == 'Y' || pattern_chars(p)[j] == 'R') by {
        assert(pattern_chars(p)[j] == symbol_char(p[j]));
    }
}

/// A pattern written as a string of G, Y and R.
pub fn pattern_to_string(p: &Vec<FeedbackSymbol>) -> (s: String)
    ensures
        s@ == pattern_chars(p@),
{
    let n = p.len();
    let mut s = String::new();
    let mut i: usize = 0;
    while i < n
        invariant
            0 <= i <= n,
            n == p@.len(),
            s@ =~= pattern_chars(p@.take(i as int)),
        decreases n - i,
    {
        proof {
            reveal_strlit("G");
            reveal_strlit("Y");
            reveal_strlit("R");
            assert(p@.take(i as int + 1) =~= p@.take(i as int).push(p@[i as int]));
        }
        match p[i] {
            FeedbackSymbol::Correct => s.append("G"),
            FeedbackSymbol::Misplaced => s.append("Y"),
            FeedbackSymbol::Absent => s.append("R"),
        }
        proof {
            assert(s@ =~= pattern_chars(p@.take(i as int + 1)));
        }
        i = i + 1;
    }
    proof {
        assert(p@.take(n as int) =~= p@);
    }
    s
}

/// The symbols a color-code string names, position by position; a letter
/// other than G or Y reads as Absent.
pub fn parse_colorcode(cs: &Vec<char>) -> (p: Vec<FeedbackSymbol>)
    ensures
        p@ == symbols_of_colors(cs@),
{
    let n = cs.len();
    let mut p: Vec<FeedbackSymbol> = Vec::new();
    let mut i: usize = 0;
    while i < n
        invariant
            0 <= i <= n,
            n == cs@.len(),
            p@ =~= symbols_of_colors(cs@.take(i as int)),
        decreases n - i,
    {
        let c = cs[i];
        let sym = if c == 'G' {
            FeedbackSymbol::Correct
        } else if c == 'Y' {
            FeedbackSymbol::Misplaced
        } else {
            FeedbackSymbol::Absent
        };
        p.push(sym);
        proof {
            assert(cs@.take(i as int + 1) =~= cs@.take(i as int).push(cs@[i as int]));
            assert(p@ =~= symbols_of_colors(cs@.take(i as int + 1)));
        }
        i = i + 1;
    }
    proof {
        assert(cs@.take(n as int) =~= cs@);
    }
    p
}

} // verus!
