use vstd::prelude::*;

use crate::feedback::FeedbackSymbol;

verus! {

/// One fact derived from feedback, used to filter candidate words.
#[derive(Clone, Copy, PartialEq, Eq, Structural, Debug)]
pub enum Constraint {
    /// The letter occurs nowhere in the answer.
    AbsentLetter(char),
    /// The letter stands at this position in the answer.
    CorrectAt(char, usize),
    /// The letter occurs in the answer, but not at this position.
    MisplacedAt(char, usize),
}

/// Does this constraint assert that `c` occurs somewhere in the answer?
pub open spec fn is_positive_for(k: Constraint, c: char) -> bool {
    match k {
        Constraint::AbsentLetter(_) => false,
        Constraint::CorrectAt(ch, _) => ch == c,
        Constraint::MisplacedAt(ch, _) => ch == c,
    }
}

/// Does the store hold a CorrectAt or MisplacedAt constraint for `c`?
pub open spec fn has_positive(s: Seq<Constraint>, c: char) -> bool {
    exists|i: int| 0 <= i < s.len() && is_positive_for(#[trigger] s[i], c)
}

/// A new constraint is admitted only if it is not present already, a
/// CorrectAt and a MisplacedAt for the same letter and position never
/// coexist, and a letter already known to occur in the answer is never
/// marked absent (the duplicate-letter rule). The suppression tracks the
/// letter's presence alone, not a count of its confirmed occurrences, so
/// a candidate may keep more repeats of a letter than the feedback has
/// credited.
pub open spec fn admits(s: Seq<Constraint>, k: Constraint) -> bool {
    match k {
        Constraint::AbsentLetter(c) => !s.contains(k) && !has_positive(s, c),
        Constraint::CorrectAt(c, p) => !s.contains(k) && !s.contains(Constraint::MisplacedAt(c, p)),
        Constraint::MisplacedAt(c, p) => !s.contains(k) && !s.contains(Constraint::CorrectAt(c, p)),
    }
}

pub open spec fn insert_one(s: Seq<Constraint>, k: Constraint) -> Seq<Constraint> {
    if admits(s, k) {
        s.push(k)
    } else {
        s
    }
}

/// The constraint that position `i` of a marked guess contributes.
pub open spec fn constraint_at(g: Seq<char>, p: Seq<FeedbackSymbol>, i: int) -> Constraint {
    match p[i] {
        FeedbackSymbol::Correct => Constraint::CorrectAt(g[i], i as usize),
        FeedbackSymbol::Misplaced => Constraint::MisplacedAt(g[i], i as usize),
        FeedbackSymbol::Absent => Constraint::AbsentLetter(g[i]),
    }
}

/// Inserts, from position `i` on, the constraints of all positions whose
/// mark equals `sym`.
pub open spec fn record_phase(
    s: Seq<Constraint>,
    g: Seq<char>,
    p: Seq<FeedbackSymbol>,
    sym: FeedbackSymbol,
    i: int,
) -> Seq<Constraint>
    decreases g.len() - i,
{
    if i < 0 || i >= g.len() || i >= p.len() {
        s
    } else {
        let s2 = if p[i] == sym {
            insert_one(s, constraint_at(g, p, i))
        } else {
            s
        };
        record_phase(s2, g, p, sym, i + 1)
    }
}

/// Recording a marked guess: Correct constraints first, then Misplaced,
/// then Absent, so that an absent mark for a letter that the same guess
/// proves present is suppressed.
pub open spec fn spec_record(s: Seq<Constraint>, g: Seq<char>, p: Seq<FeedbackSymbol>) -> Seq<
    Constraint,
> {
    record_phase(
        record_phase(record_phase(s, g, p, FeedbackSymbol::Correct, 0), g, p, FeedbackSymbol::Misplaced, 0),
        g,
        p,
        FeedbackSymbol::Absent,
        0,
    )
}

/// Does the word satisfy one constraint?
pub open spec fn satisfies(w: Seq<char>, k: Constraint) -> bool {
    match k {
        Constraint::AbsentLetter(c) => !w.contains(c),
        Constraint::CorrectAt(c, p) => p < w.len() && w[p as int] == c,
        Constraint::MisplacedAt(c, p) => p < w.len() && w[p as int] != c && w.contains(c),
    }
}

/// Does the word satisfy every constraint of the store?
pub open spec fn consistent(w: Seq<char>, s: Seq<Constraint>) -> bool {
    forall|i: int| 0 <= i < s.len() ==> satisfies(w, #[trigger] s[i])
}

/// CorrectAt and MisplacedAt for the same letter and position never coexist.
pub open spec fn mutually_exclusive(s: Seq<Constraint>) -> bool {
    forall|c: char, p: usize|
        !(#[trigger] s.contains(Constraint::CorrectAt(c, p)) && #[trigger] s.contains(
            Constraint::MisplacedAt(c, p),
        ))
}

/// Is a coexisting constraint in the way of `k`, under the admission rules?
spec fn obstructed(s: Seq<Constraint>, k: Constraint) -> bool {
    match k {
        Constraint::AbsentLetter(c) => has_positive(s, c),
        Constraint::CorrectAt(c, p) => s.contains(Constraint::MisplacedAt(c, p)),
        Constraint::MisplacedAt(c, p) => s.contains(Constraint::CorrectAt(c, p)),
    }
}

/// A constraint is settled once it is present or obstructed; a settled
/// constraint is exactly one that `admits` refuses.
spec fn settled(s: Seq<Constraint>, k: Constraint) -> bool {
    s.contains(k) || obstructed(s, k)
}

/// `s2` extends `s1`: recording only appends, so every store a record
/// produces extends the store it started from.
spec fn grows_to(s1: Seq<Constraint>, s2: Seq<Constraint>) -> bool {
    s1.len() <= s2.len() && forall|i: int| 0 <= i < s1.len() ==> s2[i] == s1[i]
}

proof fn lemma_grows_contains(s1: Seq<Constraint>, s2: Seq<Constraint>, x: Constraint)
    requires
        grows_to(s1, s2),
        s1.contains(x),
    ensures
        s2.contains(x),
{
    let i = choose|i: int| 0 <= i < s1.len() && s1[i] == x;
    assert(s2[i] == x);
}

proof fn lemma_grows_settled(s1: Seq<Constraint>, s2: Seq<Constraint>, k: Constraint)
    requires
        grows_to(s1, s2),
        settled(s1, k),
    ensures
        settled(s2, k),
{
    if s1.contains(k) {
        lemma_grows_contains(s1, s2, k);
    } else {
        match k {
            Constraint::AbsentLetter(c) => {
                let i = choose|i: int| 0 <= i < s1.len() && is_positive_for(s1[i], c);
                assert(is_positive_for(s2[i], c));
            }
            Constraint::CorrectAt(c, p) => {
                lemma_grows_contains(s1, s2, Constraint::MisplacedAt(c, p));
            }
            Constraint::MisplacedAt(c, p) => {
                lemma_grows_contains(s1, s2, Constraint::CorrectAt(c, p));
            }
        }
    }
}

proof fn lemma_insert_grows(s: Seq<Constraint>, k: Constraint)
    ensures
        grows_to(s, insert_one(s, k)),
        settled(insert_one(s, k), k),
{
    if admits(s, k) {
        assert(s.push(k)[s.len() as int] == k);
        assert(s.push(k).contains(k));
    }
}

proof fn lemma_phase_settles(
    s: Seq<Constraint>,
    g: Seq<char>,
    p: Seq<FeedbackSymbol>,
    sym: FeedbackSymbol,
    i: int,
)
    requires
        0 <= i,
    ensures
        grows_to(s, record_phase(s, g, p, sym, i)),
        forall|j: int|
            i <= j < g.len() && j < p.len() && p[j] == sym ==> settled(
                record_phase(s, g, p, sym, i),
                #[trigger] constraint_at(g, p, j),
            ),
    decreases g.len() - i,
{
    if i < 0 || i >= g.len() || i >= p.len() {
    } else {
        let s2 = if p[i] == sym {
            insert_one(s, constraint_at(g, p, i))
        } else {
            s
        };
        if p[i] == sym {
            lemma_insert_grows(s, constraint_at(g, p, i));
        }
        lemma_phase_settles(s2, g, p, sym, i + 1);
        let r = record_phase(s, g, p, sym, i);
        if p[i] == sym {
            lemma_grows_settled(s2, r, constraint_at(g, p, i));
        }
    }
}

proof fn lemma_phase_identity(
    s: Seq<Constraint>,
    g: Seq<char>,
    p: Seq<FeedbackSymbol>,
    sym: FeedbackSymbol,
    i: int,
)
    requires
        forall|j: int|
            i <= j < g.len() && j < p.len() && p[j] == sym ==> settled(
                s,
                #[trigger] constraint_at(g, p, j),
            ),
    ensures
        record_phase(s, g, p, sym, i) == s,
    decreases g.len() - i,
{
    if i < 0 || i >= g.len() || i >= p.len() {
    } else {
        if p[i] == sym {
            assert(settled(s, constraint_at(g, p, i)));
            assert(!admits(s, constraint_at(g, p, i)));
        }
        lemma_phase_identity(s, g, p, sym, i + 1);
    }
}

/// Recording only ever appends: whatever the store held, it still holds.
pub proof fn lemma_record_grows(s: Seq<Constraint>, g: Seq<char>, p: Seq<FeedbackSymbol>)
    ensures
        s.len() <= spec_record(s, g, p).len(),
        forall|i: int| 0 <= i < s.len() ==> spec_record(s, g, p)[i] == s[i],
{
    let s1 = record_phase(s, g, p, FeedbackSymbol::Correct, 0);
    let s2 = record_phase(s1, g, p, FeedbackSymbol::Misplaced, 0);
    lemma_phase_settles(s, g, p, FeedbackSymbol::Correct, 0);
    lemma_phase_settles(s1, g, p, FeedbackSymbol::Misplaced, 0);
    lemma_phase_settles(s2, g, p, FeedbackSymbol::Absent, 0);
}

/// A word consistent with a store stays consistent with every store the
/// recording started from: constraints only accumulate, so consistency
/// only tightens.
pub proof fn lemma_record_refines(
    s: Seq<Constraint>,
    g: Seq<char>,
    p: Seq<FeedbackSymbol>,
    w: Seq<char>,
)
    requires
        consistent(w, spec_record(s, g, p)),
    ensures
        consistent(w, s),
{
    lemma_record_grows(s, g, p);
    assert forall|i: int| 0 <= i < s.len() implies satisfies(w, #[trigger] s[i]) by {
        assert(spec_record(s, g, p)[i] == s[i]);
    }
}

/// Idempotence: recording the same marked guess a second time is a no-op.
pub proof fn lemma_record_idempotent(s: Seq<Constraint>, g: Seq<char>, p: Seq<FeedbackSymbol>)
    ensures
        spec_record(spec_record(s, g, p), g, p) == spec_record(s, g, p),
{
    let s1 = record_phase(s, g, p, FeedbackSymbol::Correct, 0);
    let s2 = record_phase(s1, g, p, FeedbackSymbol::Misplaced, 0);
    let s3 = record_phase(s2, g, p, FeedbackSymbol::Absent, 0);
    lemma_phase_settles(s, g, p, FeedbackSymbol::Correct, 0);
    lemma_phase_settles(s1, g, p, FeedbackSymbol::Misplaced, 0);
    lemma_phase_settles(s2, g, p, FeedbackSymbol::Absent, 0);
    assert forall|j: int|
        0 <= j < g.len() && j < p.len() && p[j] == FeedbackSymbol::Correct implies settled(
        s3,
        #[trigger] constraint_at(g, p, j),
    ) by {
        lemma_grows_settled(s1, s2, constraint_at(g, p, j));
        lemma_grows_settled(s2, s3, constraint_at(g, p, j));
    }
    assert forall|j: int|
        0 <= j < g.len() && j < p.len() && p[j] == FeedbackSymbol::Misplaced implies settled(
        s3,
        #[trigger] constraint_at(g, p, j),
    ) by {
        lemma_grows_settled(s2, s3, constraint_at(g, p, j));
    }
    lemma_phase_identity(s3, g, p, FeedbackSymbol::Correct, 0);
    lemma_phase_identity(s3, g, p, FeedbackSymbol::Misplaced, 0);
    lemma_phase_identity(s3, g, p, FeedbackSymbol::Absent, 0);
}

proof fn lemma_push_contains(s: Seq<Constraint>, k: Constraint, x: Constraint)
    ensures
        s.push(k).contains(x) <==> (s.contains(x) || x == k),
{
    if s.push(k).contains(x) {
        let i = choose|i: int| 0 <= i < s.push(k).len() && s.push(k)[i] == x;
        if i < s.len() {
            assert(s[i] == x);
        }
    }
    if s.contains(x) {
        let i = choose|i: int| 0 <= i < s.len() && s[i] == x;
        assert(s.push(k)[i] == x);
    }
    if x == k {
        assert(s.push(k)[s.len() as int] == x);
    }
}

proof fn lemma_insert_mutual_exclusion(s: Seq<Constraint>, k: Constraint)
    requires
        mutually_exclusive(s),
    ensures
        mutually_exclusive(insert_one(s, k)),
{
    if admits(s, k) {
        assert forall|c: char, p: usize|
            !(#[trigger] s.push(k).contains(Constraint::CorrectAt(c, p))
                && #[trigger] s.push(k).contains(Constraint::MisplacedAt(c, p))) by {
            lemma_push_contains(s, k, Constraint::CorrectAt(c, p));
            lemma_push_contains(s, k, Constraint::MisplacedAt(c, p));
        }
    }
}

proof fn lemma_phase_mutual_exclusion(
    s: Seq<Constraint>,
    g: Seq<char>,
    p: Seq<FeedbackSymbol>,
    sym: FeedbackSymbol,
    i: int,
)
    requires
        mutually_exclusive(s),
    ensures
        mutually_exclusive(record_phase(s, g, p, sym, i)),
    decreases g.len() - i,
{
    if i < 0 || i >= g.len() || i >= p.len() {
    } else {
        let s2 = if p[i] == sym {
            insert_one(s, constraint_at(g, p, i))
        } else {
            s
        };
        if p[i] == sym {
            lemma_insert_mutual_exclusion(s, constraint_at(g, p, i));
        }
        lemma_phase_mutual_exclusion(s2, g, p, sym, i + 1);
    }
}

/// Recording preserves the store invariant: CorrectAt and MisplacedAt for
/// one letter and position never coexist.
pub proof fn lemma_record_mutual_exclusion(s: Seq<Constraint>, g: Seq<char>, p: Seq<FeedbackSymbol>)
    requires
        mutually_exclusive(s),
    ensures
        mutually_exclusive(spec_record(s, g, p)),
{
    let s1 = record_phase(s, g, p, FeedbackSymbol::Correct, 0);
    let s2 = record_phase(s1, g, p, FeedbackSymbol::Misplaced, 0);
    lemma_phase_mutual_exclusion(s, g, p, FeedbackSymbol::Correct, 0);
    lemma_phase_mutual_exclusion(s1, g, p, FeedbackSymbol::Misplaced, 0);
    lemma_phase_mutual_exclusion(s2, g, p, FeedbackSymbol::Absent, 0);
}

proof fn lemma_insert_keeps_consistent(w: Seq<char>, s: Seq<Constraint>, k: Constraint)
    requires
        consistent(w, s),
        satisfies(w, k),
    ensures
        consistent(w, insert_one(s, k)),
{
    if admits(s, k) {
        assert forall|i: int| 0 <= i < s.push(k).len() implies satisfies(w, #[trigger] s.push(k)[i]) by {
            if i < s.len() {
                assert(s.push(k)[i] == s[i]);
            } else {
                assert(s.push(k)[i] == k);
            }
        }
    }
}

proof fn lemma_phase_keeps_consistent(
    w: Seq<char>,
    s: Seq<Constraint>,
    g: Seq<char>,
    p: Seq<FeedbackSymbol>,
    sym: FeedbackSymbol,
    i: int,
)
    requires
        consistent(w, s),
        0 <= i,
        forall|j: int|
            i <= j < g.len() && j < p.len() && p[j] == sym ==> satisfies(
                w,
                #[trigger] constraint_at(g, p, j),
            ),
    ensures
        consistent(w, record_phase(s, g, p, sym, i)),
    decreases g.len() - i,
{
    if i < g.len() && i < p.len() {
        let s2 = if p[i] == sym {
            insert_one(s, constraint_at(g, p, i))
        } else {
            s
        };
        if p[i] == sym {
            lemma_insert_keeps_consistent(w, s, constraint_at(g, p, i));
        }
        lemma_phase_keeps_consistent(w, s2, g, p, sym, i + 1);
    }
}

proof fn lemma_grows_has_positive(s1: Seq<Constraint>, s2: Seq<Constraint>, c: char)
    requires
        grows_to(s1, s2),
        has_positive(s1, c),
    ensures
        has_positive(s2, c),
{
    let i = choose|i: int| 0 <= i < s1.len() && is_positive_for(s1[i], c);
    assert(is_positive_for(s2[i], c));
}

proof fn lemma_settled_has_positive(s: Seq<Constraint>, c: char, pos: usize)
    requires
        settled(s, Constraint::CorrectAt(c, pos)) || settled(s, Constraint::MisplacedAt(c, pos)),
    ensures
        has_positive(s, c),
{
    if s.contains(Constraint::CorrectAt(c, pos)) {
        let i = choose|i: int| 0 <= i < s.len() && s[i] == Constraint::CorrectAt(c, pos);
        assert(is_positive_for(s[i], c));
    } else {
        assert(s.contains(Constraint::MisplacedAt(c, pos)));
        let i = choose|i: int| 0 <= i < s.len() && s[i] == Constraint::MisplacedAt(c, pos);
        assert(is_positive_for(s[i], c));
    }
}

/// The Absent phase keeps a word consistent if each absent mark is either
/// satisfied outright or suppressed: a letter the store already knows to
/// be present is never recorded absent.
proof fn lemma_absent_phase_guarded(
    w: Seq<char>,
    s: Seq<Constraint>,
    g: Seq<char>,
    p: Seq<FeedbackSymbol>,
    i: int,
)
    requires
        consistent(w, s),
        0 <= i,
        forall|j: int|
            i <= j < g.len() && j < p.len() && p[j] == FeedbackSymbol::Absent ==> (satisfies(
                w,
                #[trigger] constraint_at(g, p, j),
            ) || has_positive(s, g[j])),
    ensures
        consistent(w, record_phase(s, g, p, FeedbackSymbol::Absent, i)),
    decreases g.len() - i,
{
    if i < g.len() && i < p.len() {
        let k = constraint_at(g, p, i);
        if p[i] == FeedbackSymbol::Absent {
            if satisfies(w, k) {
                lemma_insert_keeps_consistent(w, s, k);
                let s2 = insert_one(s, k);
                lemma_insert_grows(s, k);
                assert forall|j: int|
                    i + 1 <= j < g.len() && j < p.len() && p[j]
                        == FeedbackSymbol::Absent implies (satisfies(
                    w,
                    #[trigger] constraint_at(g, p, j),
                ) || has_positive(s2, g[j])) by {
                    if !satisfies(w, constraint_at(g, p, j)) {
                        lemma_grows_has_positive(s, s2, g[j]);
                    }
                }
                lemma_absent_phase_guarded(w, s2, g, p, i + 1);
            } else {
                assert(has_positive(s, g[i]));
                assert(!admits(s, k));
                assert(insert_one(s, k) == s);
                lemma_absent_phase_guarded(w, s, g, p, i + 1);
            }
        } else {
            lemma_absent_phase_guarded(w, s, g, p, i + 1);
        }
    }
}

/// A word stays consistent when a marked guess is recorded, provided it
/// satisfies every Correct and Misplaced constraint, and every Absent mark
/// is either satisfied or accompanied by a Correct or Misplaced mark for
/// the same letter elsewhere in the guess — the recording order then
/// suppresses that absent mark.
pub proof fn lemma_record_keeps_consistent(
    w: Seq<char>,
    s: Seq<Constraint>,
    g: Seq<char>,
    p: Seq<FeedbackSymbol>,
)
    requires
        consistent(w, s),
        forall|j: int|
            0 <= j < g.len() && j < p.len() && p[j] != FeedbackSymbol::Absent ==> satisfies(
                w,
                #[trigger] constraint_at(g, p, j),
            ),
        forall|j: int|
            0 <= j < g.len() && j < p.len() && p[j] == FeedbackSymbol::Absent ==> (satisfies(
                w,
                #[trigger] constraint_at(g, p, j),
            ) || (exists|k: int|
                0 <= k < g.len() && k < p.len() && g[k] == g[j] && p[k]
                    != FeedbackSymbol::Absent)),
    ensures
        consistent(w, spec_record(s, g, p)),
{
    let s1 = record_phase(s, g, p, FeedbackSymbol::Correct, 0);
    let s2 = record_phase(s1, g, p, FeedbackSymbol::Misplaced, 0);
    lemma_phase_keeps_consistent(w, s, g, p, FeedbackSymbol::Correct, 0);
    lemma_phase_keeps_consistent(w, s1, g, p, FeedbackSymbol::Misplaced, 0);
    lemma_phase_settles(s, g, p, FeedbackSymbol::Correct, 0);
    lemma_phase_settles(s1, g, p, FeedbackSymbol::Misplaced, 0);
    assert forall|j: int|
        0 <= j < g.len() && j < p.len() && p[j] == FeedbackSymbol::Absent implies (satisfies(
        w,
        #[trigger] constraint_at(g, p, j),
    ) || has_positive(s2, g[j])) by {
        if !satisfies(w, constraint_at(g, p, j)) {
            let k = choose|k: int|
                0 <= k < g.len() && k < p.len() && g[k] == g[j] && p[k] != FeedbackSymbol::Absent;
            if p[k] == FeedbackSymbol::Correct {
                assert(settled(s1, constraint_at(g, p, k)));
                lemma_grows_settled(s1, s2, constraint_at(g, p, k));
                assert(constraint_at(g, p, k) == Constraint::CorrectAt(g[k], k as usize));
                lemma_settled_has_positive(s2, g[k], k as usize);
            } else {
                assert(p[k] == FeedbackSymbol::Misplaced);
                assert(settled(s2, constraint_at(g, p, k)));
                assert(constraint_at(g, p, k) == Constraint::MisplacedAt(g[k], k as usize));
                lemma_settled_has_positive(s2, g[k], k as usize);
            }
        }
    }
    lemma_absent_phase_guarded(w, s2, g, p, 0);
}

/// Accumulates constraints across the rounds of one game; constraints are
/// deduplicated and never retracted.
pub struct ConstraintStore {
    pub constraints: Vec<Constraint>,
}

impl View for ConstraintStore {
    type V = Seq<Constraint>;

    open spec fn view(&self) -> Seq<Constraint> {
        self.constraints@
    }
}

fn contains_constraint(v: &Vec<Constraint>, k: Constraint) -> (r: bool)
    ensures
        r == v@.contains(k),
{
    let n = v.len();
    let mut i: usize = 0;
    while i < n
        invariant
            0 <= i <= n,
            n == v@.len(),
            forall|j: int| 0 <= j < i ==> v@[j] != k,
        decreases n - i,
    {
        if v[i] == k {
            return true;
        }
        i = i + 1;
    }
    false
}

fn has_positive_exec(v: &Vec<Constraint>, c: char) -> (r: bool)
    ensures
        r == has_positive(v@, c),
{
    let n = v.len();
    let mut i: usize = 0;
    while i < n
        invariant
            0 <= i <= n,
            n == v@.len(),
            forall|j: int| 0 <= j < i ==> !is_positive_for(v@[j], c),
        decreases n - i,
    {
        let pos = match v[i] {
            Constraint::AbsentLetter(_) => false,
            Constraint::CorrectAt(ch, _) => ch == c,
            Constraint::MisplacedAt(ch, _) => ch == c,
        };
        if pos {
            assert(is_positive_for(v@[i as int], c));
            return true;
        }
        i = i + 1;
    }
    false
}

impl ConstraintStore {
    pub fn new() -> (s: Self)
        ensures
            s@ == Seq::<Constraint>::empty(),
    {
        ConstraintStore { constraints: Vec::new() }
    }

    pub fn len(&self) -> (n: usize)
        ensures
            n == self@.len(),
    {
        self.constraints.len()
    }

    fn insert(&mut self, k: Constraint)
        ensures
            final(self)@ == insert_one(old(self)@, k),
    {
        let accepted = match k {
            Constraint::AbsentLetter(c) => !contains_constraint(&self.constraints, k)
                && !has_positive_exec(&self.constraints, c),
            Constraint::CorrectAt(c, p) => !contains_constraint(&self.constraints, k)
                && !contains_constraint(&self.constraints, Constraint::MisplacedAt(c, p)),
            Constraint::MisplacedAt(c, p) => !contains_constraint(&self.constraints, k)
                && !contains_constraint(&self.constraints, Constraint::CorrectAt(c, p)),
        };
        if accepted {
            self.constraints.push(k);
        }
    }

    fn run_phase(&mut self, guess: &Vec<char>, pat: &Vec<FeedbackSymbol>, sym: FeedbackSymbol)
        requires
            guess@.len() == pat@.len(),
        ensures
            final(self)@ == record_phase(old(self)@, guess@, pat@, sym, 0),
    {
        let n = guess.len();
        let mut i: usize = 0;
        while i < n
            invariant
                0 <= i <= n,
                n == guess@.len() == pat@.len(),
                record_phase(self@, guess@, pat@, sym, i as int) == record_phase(
                    old(self)@,
                    guess@,
                    pat@,
                    sym,
                    0,
                ),
            decreases n - i,
        {
            if pat[i] == sym {
                let k = match pat[i] {
                    FeedbackSymbol::Correct => Constraint::CorrectAt(guess[i], i),
                    FeedbackSymbol::Misplaced => Constraint::MisplacedAt(guess[i], i),
                    FeedbackSymbol::Absent => Constraint::AbsentLetter(guess[i]),
                };
                assert(k == constraint_at(guess@, pat@, i as int));
                self.insert(k);
            }
            i = i + 1;
        }
    }

    /// Derives the constraints of one marked guess and merges them into the
    /// store under the admission rules.
    pub fn record(&mut self, guess: &Vec<char>, pat: &Vec<FeedbackSymbol>)
        requires
            guess@.len() == pat@.len(),
        ensures
            final(self)@ == spec_record(old(self)@, guess@, pat@),
    {
        self.run_phase(guess, pat, FeedbackSymbol::Correct);
        self.run_phase(guess, pat, FeedbackSymbol::Misplaced);
        self.run_phase(guess, pat, FeedbackSymbol::Absent);
    }

    /// Does the word satisfy every accumulated constraint?
    pub fn is_consistent(&self, w: &Vec<char>) -> (r: bool)
        ensures
            r == consistent(w@, self@),
    {
        satisfies_all(&self.constraints, w)
    }
}

/// Does the word satisfy every constraint of the list?
pub fn satisfies_all(cs: &Vec<Constraint>, w: &Vec<char>) -> (r: bool)
    ensures
        r == consistent(w@, cs@),
{
    let n = cs.len();
    let mut i: usize = 0;
    while i < n
        invariant
            0 <= i <= n,
            n == cs@.len(),
            forall|j: int| 0 <= j < i ==> satisfies(w@, #[trigger] cs@[j]),
        decreases n - i,
    {
        let ok = match cs[i] {
            Constraint::AbsentLetter(c) => !contains_char(w, c),
            Constraint::CorrectAt(c, p) => p < w.len() && w[p] == c,
            Constraint::MisplacedAt(c, p) => p < w.len() && w[p] != c && contains_char(w, c),
        };
        if !ok {
            assert(!satisfies(w@, cs@[i as int]));
            return false;
        }
        assert(satisfies(w@, cs@[i as int]));
        i = i + 1;
    }
    true
}

/// Does the word contain the letter anywhere?
pub fn contains_char(w: &Vec<char>, c: char) -> (r: bool)
    ensures
        r == w@.contains(c),
{
    let n = w.len();
    let mut i: usize = 0;
    while i < n
        invariant
            0 <= i <= n,
            n == w@.len(),
            forall|j: int| 0 <= j < i ==> w@[j] != c,
        decreases n - i,
    {
        if w[i] == c {
            return true;
        }
        i = i + 1;
    }
    false
}

} // verus!
