use vstd::prelude::*;

use vstd::arithmetic::power2::{pow2, lemma_pow2_unfold, lemma_pow2_strictly_increases, lemma2_to64};
use crate::feedback::{FeedbackSymbol, spec_pattern, pattern};
use crate::words::{chars_of, is_word, all_words};
use crate::WORD_LENGTH;

verus! {

/// The number of distinct feedback patterns: 3 to the power WORD_LENGTH.
pub const PATTERN_COUNT: usize = 243;

/// Scores are binary logarithms in fixed point: ONE_BIT is one bit of
/// expected information.
pub const ONE_BIT: u64 = 0x1_0000_0000;

/// Halve the mantissa until it lies in [ONE_BIT, 2*ONE_BIT); the number of
/// halvings is the integer part of the logarithm.
pub open spec fn spec_normalize(m: int, ip: int) -> (int, int)
    decreases m,
{
    if m < 2 * ONE_BIT {
        (m, ip)
    } else {
        spec_normalize(m / 2, ip + 1)
    }
}

/// One binary digit of the fractional part per step: square the mantissa
/// and note whether it crossed 2.
pub open spec fn spec_frac_steps(m: int, acc: int, t: nat) -> int
    decreases t,
{
    if t == 0 {
        acc
    } else {
        let sq = (m * m) / (ONE_BIT as int);
        if sq >= 2 * ONE_BIT {
            spec_frac_steps(sq / 2, 2 * acc + 1, (t - 1) as nat)
        } else {
            spec_frac_steps(sq, 2 * acc, (t - 1) as nat)
        }
    }
}

/// The binary logarithm of `x`, in fixed point with 32 fractional bits,
/// rounded down bit by bit. Zero for `x <= 1`; in particular the logarithm
/// of 1 is exactly 0.
pub open spec fn spec_log2(x: int) -> int {
    let m0 = x * ONE_BIT;
    let norm = spec_normalize(m0, 0);
    norm.1 * ONE_BIT + spec_frac_steps(norm.0, 0, 32)
}

proof fn lemma_normalize_props(m: int, ip: int)
    requires
        ONE_BIT <= m,
        0 <= ip,
    ensures
        ONE_BIT <= spec_normalize(m, ip).0 < 2 * ONE_BIT,
        ip <= spec_normalize(m, ip).1,
        spec_normalize(m, ip).0 * pow2((spec_normalize(m, ip).1 - ip) as nat) <= m,
    decreases m,
{
    if m < 2 * ONE_BIT {
        assert(pow2(0) == 1) by {
            lemma2_to64();
        }
        assert(m * pow2(0) == m);
    } else {
        lemma_normalize_props(m / 2, ip + 1);
        let r = spec_normalize(m / 2, ip + 1);
        assert(spec_normalize(m, ip) == r);
        let e1 = (r.1 - (ip + 1)) as nat;
        let e = (r.1 - ip) as nat;
        assert(e == e1 + 1);
        assert(pow2(e) == 2 * pow2(e1)) by {
            lemma_pow2_unfold(e);
            assert((e - 1) as nat == e1);
        }
        assert(r.0 * pow2(e1) <= m / 2);
        assert(r.0 * pow2(e) == 2 * (r.0 * pow2(e1))) by (nonlinear_arith)
            requires
                pow2(e) == 2 * pow2(e1),
        ;
        assert(2 * (m / 2) <= m);
        assert(2 * (r.0 * pow2(e1)) <= 2 * (m / 2));
    }
}

proof fn lemma_frac_bound(m: int, acc: int, t: nat, bound: int)
    requires
        0 <= acc < bound,
        ONE_BIT <= m < 2 * ONE_BIT,
    ensures
        spec_frac_steps(m, acc, t) < bound * pow2(t),
    decreases t,
{
    if t == 0 {
        assert(pow2(0) == 1) by {
            lemma2_to64();
        }
    } else {
        let q = ONE_BIT as int;
        let sq = (m * m) / q;
        assert(q * q <= m * m && m * m < 4 * (q * q)) by (nonlinear_arith)
            requires
                q <= m < 2 * q,
                0 < q,
        ;
        assert(q <= sq < 4 * q) by {
            vstd::arithmetic::div_mod::lemma_div_multiples_vanish(q, q);
            vstd::arithmetic::div_mod::lemma_div_is_ordered(q * q, m * m, q);
            assert(m * m < q * (4 * q)) by (nonlinear_arith)
                requires
                    m * m < 4 * (q * q),
            ;
            vstd::arithmetic::div_mod::lemma_multiply_divide_lt(m * m, q, 4 * q);
        }
        assert(pow2(t) == 2 * pow2((t - 1) as nat)) by {
            lemma_pow2_unfold(t);
        }
        if sq >= 2 * q {
            assert(q <= sq / 2 < 2 * q);
            lemma_frac_bound(sq / 2, 2 * acc + 1, (t - 1) as nat, 2 * bound);
            assert(2 * bound * pow2((t - 1) as nat) == bound * pow2(t)) by (nonlinear_arith)
                requires
                    pow2(t) == 2 * pow2((t - 1) as nat),
            ;
        } else {
            lemma_frac_bound(sq, 2 * acc, (t - 1) as nat, 2 * bound);
            assert(2 * bound * pow2((t - 1) as nat) == bound * pow2(t)) by (nonlinear_arith)
                requires
                    pow2(t) == 2 * pow2((t - 1) as nat),
            ;
        }
    }
}

proof fn lemma_frac_nonneg(m: int, acc: int, t: nat)
    requires
        0 <= acc,
    ensures
        spec_frac_steps(m, acc, t) >= 0,
    decreases t,
{
    if t != 0 {
        let sq = (m * m) / (ONE_BIT as int);
        if sq >= 2 * ONE_BIT {
            lemma_frac_nonneg(sq / 2, 2 * acc + 1, (t - 1) as nat);
        } else {
            lemma_frac_nonneg(sq, 2 * acc, (t - 1) as nat);
        }
    }
}

/// The logarithm of any count that fits in a u64 is below 65 bits.
pub proof fn lemma_log2_bounds(x: int)
    requires
        1 <= x < 0x1_0000_0000_0000_0000,
    ensures
        0 <= spec_log2(x) < 65 * (ONE_BIT as int),
        0 <= spec_normalize(x * (ONE_BIT as int), 0).1 <= 64,
{
    let q = ONE_BIT as int;
    let m0 = x * q;
    assert(q <= m0) by (nonlinear_arith)
        requires
            1 <= x,
            0 < q,
            m0 == x * q,
    ;
    lemma_normalize_props(m0, 0);
    let norm = spec_normalize(m0, 0);
    let ip = norm.1;
    assert(pow2(64) == 0x1_0000_0000_0000_0000) by {
        lemma2_to64();
    }
    if ip >= 65 {
        assert(pow2(64) < pow2(ip as nat)) by {
            lemma_pow2_strictly_increases(64, ip as nat);
        }
        assert(norm.0 * pow2(ip as nat) > q * pow2(64)) by (nonlinear_arith)
            requires
                norm.0 >= q,
                pow2(ip as nat) > pow2(64) > 0,
                q > 0,
        ;
        assert(m0 < q * pow2(64)) by (nonlinear_arith)
            requires
                x < 0x1_0000_0000_0000_0000 == pow2(64),
                0 < q,
                m0 == x * q,
        ;
        assert(false);
    }
    lemma_frac_nonneg(norm.0, 0, 32);
    assert(pow2(32) == 0x1_0000_0000) by {
        lemma2_to64();
    }
    lemma_frac_bound(norm.0, 0, 32, 1);
}

/// The binary logarithm in fixed point, with 32 fractional bits.
pub fn log2_fixed(x: u64) -> (r: u64)
    requires
        x >= 1,
    ensures
        r == spec_log2(x as int),
        r < 65 * ONE_BIT,
{
    let q: u128 = ONE_BIT as u128;
    let ghost m0 = (x as int) * (ONE_BIT as int);
    let mut m: u128 = (x as u128) * q;
    let mut ip: u64 = 0;
    proof {
        assert(q <= m) by (nonlinear_arith)
            requires
                1 <= x,
                m == (x as int) * q,
                0 < q,
        ;
        lemma_normalize_props(m0, 0);
        lemma_log2_bounds(x as int);
    }
    while m >= 2 * q
        invariant
            q == ONE_BIT,
            ONE_BIT <= m,
            0 <= ip,
            spec_normalize(m0, 0) == spec_normalize(m as int, ip as int),
            spec_normalize(m0, 0).1 <= 64,
            ONE_BIT <= spec_normalize(m0, 0).0 < 2 * ONE_BIT,
        decreases m,
    {
        proof {
            lemma_normalize_props(m as int, ip as int);
            assert(ip <= spec_normalize(m as int, ip as int).1);
            assert(ip <= 64);
            assert(spec_normalize(m as int, ip as int) == spec_normalize(m as int / 2, ip as int + 1));
        }
        m = m / 2;
        ip = ip + 1;
    }
    proof {
        assert(spec_normalize(m as int, ip as int) == (m as int, ip as int));
        assert(m == spec_normalize(m0, 0).0 && ip == spec_normalize(m0, 0).1);
        assert(ip <= 64);
    }
    let ghost mn = m as int;
    let mut frac: u64 = 0;
    let mut t: u64 = 0;
    proof {
        lemma2_to64();
    }
    while t < 32
        invariant
            q == ONE_BIT,
            0 <= t <= 32,
            ONE_BIT <= m < 2 * ONE_BIT,
            frac < pow2(t as nat),
            pow2(t as nat) <= pow2(32),
            spec_frac_steps(mn, 0, 32) == spec_frac_steps(m as int, frac as int, (32 - t) as nat),
        decreases 32 - t,
    {
        let ghost q_i = ONE_BIT as int;
        proof {
            assert((m as int) * (m as int) < 4 * (q_i * q_i) && q_i * q_i <= (m as int) * (m as int))
                by (nonlinear_arith)
                requires
                    q_i <= m < 2 * q_i,
                    0 < q_i,
            ;
            assert(q_i <= ((m as int) * (m as int)) / q_i < 4 * q_i) by {
                vstd::arithmetic::div_mod::lemma_div_multiples_vanish(q_i, q_i);
                vstd::arithmetic::div_mod::lemma_div_is_ordered(q_i * q_i, (m as int) * (m as int), q_i);
                assert((m as int) * (m as int) < q_i * (4 * q_i)) by (nonlinear_arith)
                    requires
                        (m as int) * (m as int) < 4 * (q_i * q_i),
                ;
                vstd::arithmetic::div_mod::lemma_multiply_divide_lt(
                    (m as int) * (m as int),
                    q_i,
                    4 * q_i,
                );
            }
            assert(pow2((t + 1) as nat) == 2 * pow2(t as nat)) by {
                lemma_pow2_unfold((t + 1) as nat);
            }
            if t + 1 <= 32 {
                if (t + 1) as nat == 32 {
                    assert(pow2((t + 1) as nat) <= pow2(32));
                } else {
                    lemma_pow2_strictly_increases((t + 1) as nat, 32);
                }
            }
            assert(pow2(32) == 0x1_0000_0000) by {
                lemma2_to64();
            }
        }
        let sq: u128 = (m * m) / q;
        if sq >= 2 * q {
            m = sq / 2;
            frac = 2 * frac + 1;
        } else {
            m = sq;
            frac = 2 * frac;
        }
        t = t + 1;
    }
    proof {
        assert(spec_frac_steps(m as int, frac as int, 0) == frac as int);
        assert(pow2(32) == 0x1_0000_0000) by {
            lemma2_to64();
        }
    }
    ip * ONE_BIT + frac
}

pub open spec fn symbol_digit(s: FeedbackSymbol) -> int {
    match s {
        FeedbackSymbol::Correct => 0,
        FeedbackSymbol::Misplaced => 1,
        FeedbackSymbol::Absent => 2,
    }
}

/// A feedback pattern as a number below PATTERN_COUNT, base 3, first
/// position least significant.
pub open spec fn encode_marks(p: Seq<FeedbackSymbol>) -> int
    decreases p.len(),
{
    if p.len() == 0 {
        0
    } else {
        symbol_digit(p[0]) + 3 * encode_marks(p.drop_first())
    }
}

spec fn pow3(e: nat) -> int
    decreases e,
{
    if e == 0 {
        1
    } else {
        3 * pow3((e - 1) as nat)
    }
}

proof fn lemma_encode_bound(p: Seq<FeedbackSymbol>)
    ensures
        0 <= encode_marks(p) < pow3(p.len()),
    decreases p.len(),
{
    if p.len() != 0 {
        lemma_encode_bound(p.drop_first());
    }
}

/// The bucket number of one pattern.
fn encode_exec(p: &Vec<FeedbackSymbol>) -> (r: usize)
    requires
        p@.len() == WORD_LENGTH,
    ensures
        r == encode_marks(p@),
        r < PATTERN_COUNT,
{
    let n = p.len();
    let mut acc: usize = 0;
    let mut j: usize = n;
    proof {
        assert(p@.skip(n as int).len() == 0);
    }
    while j > 0
        invariant
            0 <= j <= n,
            n == p@.len() == WORD_LENGTH,
            acc == encode_marks(p@.skip(j as int)),
            0 <= acc < pow3((n - j) as nat),
        decreases j,
    {
        proof {
            lemma_encode_bound(p@.skip(j as int - 1));
            assert(p@.skip(j as int - 1).len() == (n - j + 1) as nat);
            assert(p@.skip(j as int - 1)[0] == p@[j as int - 1]);
            assert(p@.skip(j as int - 1).drop_first() =~= p@.skip(j as int));
            assert(pow3((n - j + 1) as nat) <= pow3(5)) by {
                lemma_pow3_le((n - j + 1) as nat, 5);
            }
            lemma_pow3_243();
        }
        let d: usize = match p[j - 1] {
            FeedbackSymbol::Correct => 0,
            FeedbackSymbol::Misplaced => 1,
            FeedbackSymbol::Absent => 2,
        };
        acc = 3 * acc + d;
        j = j - 1;
    }
    proof {
        assert(p@.skip(0) =~= p@);
        lemma_pow3_243();
    }
    acc
}

proof fn lemma_pow3_243()
    ensures
        pow3(5) == 243,
{
    assert(pow3(0) == 1);
    assert(pow3(1) == 3);
    assert(pow3(2) == 9);
    assert(pow3(3) == 27);
    assert(pow3(4) == 81);
    assert(pow3(5) == 243);
}

proof fn lemma_pow3_le(a: nat, b: nat)
    requires
        a <= b,
    ensures
        pow3(a) <= pow3(b),
    decreases b,
{
    if a < b {
        lemma_pow3_le(a, (b - 1) as nat);
        assert(pow3((b - 1) as nat) >= 1) by {
            lemma_pow3_pos((b - 1) as nat);
        }
    }
}

proof fn lemma_pow3_pos(e: nat)
    ensures
        pow3(e) >= 1,
    decreases e,
{
    if e != 0 {
        lemma_pow3_pos((e - 1) as nat);
    }
}

/// How many of the candidate answers produce the pattern numbered `k`
/// against the guess.
pub open spec fn bucket_count(g: Seq<char>, cands: Seq<Seq<char>>, k: int) -> nat
    decreases cands.len(),
{
    if cands.len() == 0 {
        0
    } else {
        bucket_count(g, cands.drop_last(), k) + (if encode_marks(spec_pattern(g, cands.last()))
            == k {
            1nat
        } else {
            0nat
        })
    }
}

proof fn lemma_bucket_le_len(g: Seq<char>, cands: Seq<Seq<char>>, k: int)
    ensures
        bucket_count(g, cands, k) <= cands.len(),
    decreases cands.len(),
{
    if cands.len() != 0 {
        lemma_bucket_le_len(g, cands.drop_last(), k);
    }
}

/// One bucket's contribution to the entropy sum: the bucket size times the
/// information its pattern carries, both in fixed point; an empty bucket
/// contributes nothing.
pub open spec fn score_term(c: nat, n: nat) -> int {
    if c == 0 {
        0
    } else {
        let ln = spec_log2(n as int);
        let lc = spec_log2(c as int);
        if lc <= ln {
            c * (ln - lc)
        } else {
            0
        }
    }
}

/// The entropy sum over the buckets numbered `k ..`.
pub open spec fn entropy_sum(g: Seq<char>, cands: Seq<Seq<char>>, k: int) -> int
    decreases PATTERN_COUNT - k,
{
    if k < 0 || k >= PATTERN_COUNT {
        0
    } else {
        score_term(bucket_count(g, cands, k), cands.len()) + entropy_sum(g, cands, k + 1)
    }
}

/// The expected information gain of guessing `g` when the answer is drawn
/// uniformly from `cands`: the Shannon entropy of the feedback-pattern
/// distribution, in fixed point (ONE_BIT is one bit), rounded down.
pub open spec fn spec_expected_entropy(g: Seq<char>, cands: Seq<Seq<char>>) -> int {
    if cands.len() == 0 {
        0
    } else {
        entropy_sum(g, cands, 0) / (cands.len() as int)
    }
}

/// The views of a word list.
pub open spec fn views_of(ws: Seq<String>) -> Seq<Seq<char>> {
    ws.map_values(|w: String| w@)
}


/// Pattern-distribution buckets: entry `k` is how many candidate answers
/// produce the pattern numbered `k` against the guess.
fn fill_buckets(guess: &Vec<char>, cands: &Vec<String>) -> (counts: Vec<u64>)
    requires
        guess@.len() == WORD_LENGTH,
        all_words(cands@),
    ensures
        counts@.len() == PATTERN_COUNT,
        forall|k: int|
            0 <= k < PATTERN_COUNT ==> counts@[k] == bucket_count(guess@, views_of(cands@), k),
        forall|k: int| 0 <= k < PATTERN_COUNT ==> counts@[k] <= cands@.len(),
{
    let n = cands.len();
    let ghost dv = views_of(cands@);
    let mut counts: Vec<u64> = Vec::new();
    let mut k: usize = 0;
    while k < PATTERN_COUNT
        invariant
            0 <= k <= PATTERN_COUNT,
            counts@.len() == k,
            forall|j: int| 0 <= j < k ==> counts@[j] == 0,
        decreases PATTERN_COUNT - k,
    {
        counts.push(0);
        k = k + 1;
    }
    let mut i: usize = 0;
    proof {
        assert(dv.take(0).len() == 0);
    }
    while i < n
        invariant
            0 <= i <= n,
            n == cands@.len(),
            dv == views_of(cands@),
            guess@.len() == WORD_LENGTH,
            all_words(cands@),
            counts@.len() == PATTERN_COUNT,
            forall|kk: int|
                0 <= kk < PATTERN_COUNT ==> counts@[kk] == bucket_count(
                    guess@,
                    dv.take(i as int),
                    kk,
                ),
        decreases n - i,
    {
        let wchars = chars_of(cands[i].as_str());
        proof {
            assert(wchars@ == dv[i as int]);
            assert(is_word(cands@[i as int]@));
        }
        let pat = pattern(guess, &wchars);
        let idx = encode_exec(&pat);
        let cur = counts[idx];
        proof {
            lemma_bucket_le_len(guess@, dv.take(i as int), idx as int);
            assert(dv.take(i as int).len() == i);
        }
        counts.set(idx, cur + 1);
        proof {
            let prev = dv.take(i as int);
            let ext = dv.take(i as int + 1);
            assert(ext.drop_last() =~= prev);
            assert(ext.last() == dv[i as int]);
            assert forall|kk: int| 0 <= kk < PATTERN_COUNT implies counts@[kk] == bucket_count(
                guess@,
                ext,
                kk,
            ) by {
                assert(bucket_count(guess@, ext, kk) == bucket_count(guess@, prev, kk) + (
                if encode_marks(spec_pattern(guess@, dv[i as int])) == kk {
                    1nat
                } else {
                    0nat
                }));
            }
        }
        i = i + 1;
    }
    proof {
        assert(dv.take(n as int) =~= dv);
        assert forall|kk: int| 0 <= kk < PATTERN_COUNT implies counts@[kk] <= cands@.len() by {
            lemma_bucket_le_len(guess@, dv, kk);
        }
    }
    counts
}

/// The entropy sum over the buckets `k ..` of a counts table, for a
/// candidate set of `n` answers.
pub open spec fn counts_sum(counts: Seq<u64>, n: nat, k: int) -> int
    decreases PATTERN_COUNT - k,
{
    if k < 0 || k >= PATTERN_COUNT || counts.len() < PATTERN_COUNT {
        0
    } else {
        score_term(counts[k] as nat, n) + counts_sum(counts, n, k + 1)
    }
}

proof fn lemma_counts_sum_matches(
    g: Seq<char>,
    cands: Seq<Seq<char>>,
    counts: Seq<u64>,
    k: int,
)
    requires
        counts.len() == PATTERN_COUNT,
        forall|j: int| 0 <= j < PATTERN_COUNT ==> counts[j] == bucket_count(g, cands, j),
    ensures
        counts_sum(counts, cands.len(), k) == entropy_sum(g, cands, k),
    decreases PATTERN_COUNT - k,
{
    if 0 <= k < PATTERN_COUNT {
        lemma_counts_sum_matches(g, cands, counts, k + 1);
    }
}

/// Entropy in fixed point from the bucket counts: the bucket terms summed,
/// then divided by the number of candidates.
fn entropy_from_counts(counts: &Vec<u64>, n: usize) -> (r: u64)
    requires
        1 <= n,
        counts@.len() == PATTERN_COUNT,
        forall|j: int| 0 <= j < PATTERN_COUNT ==> counts@[j] <= n,
    ensures
        r == counts_sum(counts@, n as nat, 0) / (n as int),
{
    let ln = log2_fixed(n as u64);
    let ghost b = (n as int) * (65 * (ONE_BIT as int));
    proof {
        vstd::arithmetic::mul::lemma_mul_upper_bound(
            n as int,
            0xFFFF_FFFF_FFFF_FFFF,
            65 * (ONE_BIT as int),
            65 * (ONE_BIT as int),
        );
        vstd::arithmetic::mul::lemma_mul_inequality(1, n as int, 65 * (ONE_BIT as int));
    }
    let mut acc: u128 = 0;
    let mut k: usize = 0;
    while k < PATTERN_COUNT
        invariant
            0 <= k <= PATTERN_COUNT,
            1 <= n,
            counts@.len() == PATTERN_COUNT,
            forall|j: int| 0 <= j < PATTERN_COUNT ==> counts@[j] <= n,
            ln == spec_log2(n as int),
            ln < 65 * ONE_BIT,
            b == (n as int) * (65 * (ONE_BIT as int)),
            65 * (ONE_BIT as int) <= b <= 0xFFFF_FFFF_FFFF_FFFF * 279172874240,
            counts_sum(counts@, n as nat, 0) == acc + counts_sum(counts@, n as nat, k as int),
            acc <= (k as int) * b,
        decreases PATTERN_COUNT - k,
    {
        let c = counts[k];
        let term: u128;
        if c == 0 {
            term = 0;
        } else {
            let lc = log2_fixed(c);
            if lc <= ln {
                proof {
                    vstd::arithmetic::mul::lemma_mul_upper_bound(
                        c as int,
                        0xFFFF_FFFF_FFFF_FFFF,
                        (ln - lc) as int,
                        65 * (ONE_BIT as int),
                    );
                    vstd::arithmetic::mul::lemma_mul_upper_bound(
                        c as int,
                        n as int,
                        (ln - lc) as int,
                        65 * (ONE_BIT as int),
                    );
                }
                term = (c as u128) * ((ln - lc) as u128);
            } else {
                term = 0;
            }
        }
        proof {
            assert(term == score_term(counts@[k as int] as nat, n as nat));
            assert(term <= b);
            assert((k as int + 1) * b == (k as int) * b + b) by {
                vstd::arithmetic::mul::lemma_mul_is_distributive_add_other_way(
                    b,
                    k as int,
                    1,
                );
            }
            assert(counts_sum(counts@, n as nat, k as int) == score_term(
                counts@[k as int] as nat,
                n as nat,
            ) + counts_sum(counts@, n as nat, k as int + 1));
            assert((k as int) * b <= 243 * b) by {
                vstd::arithmetic::mul::lemma_mul_inequality(k as int, 243, b);
            }
        }
        acc = acc + term;
        k = k + 1;
    }
    proof {
        assert(counts_sum(counts@, n as nat, PATTERN_COUNT as int) == 0);
        assert(acc == counts_sum(counts@, n as nat, 0));
        assert(acc <= 243 * b) by {
            vstd::arithmetic::mul::lemma_mul_inequality(k as int, 243, b);
        }
        assert(243 * b == (n as int) * (243 * (65 * (ONE_BIT as int)))) by {
            vstd::arithmetic::mul::lemma_mul_is_associative(
                243,
                n as int,
                65 * (ONE_BIT as int),
            );
            vstd::arithmetic::mul::lemma_mul_is_commutative(243, n as int);
            vstd::arithmetic::mul::lemma_mul_is_associative(
                n as int,
                243,
                65 * (ONE_BIT as int),
            );
        }
        vstd::arithmetic::div_mod::lemma_div_multiples_vanish(
            243 * (65 * (ONE_BIT as int)),
            n as int,
        );
        vstd::arithmetic::div_mod::lemma_div_is_ordered(
            acc as int,
            (n as int) * (243 * (65 * (ONE_BIT as int))),
            n as int,
        );
        vstd::arithmetic::div_mod::lemma_div_pos_is_pos(acc as int, n as int);
    }
    let r128 = acc / (n as u128);
    r128 as u64
}

/// The expected information gain of one guess against the candidate
/// answers, simulated over the whole candidate set: feedback patterns are
/// bucketed and the entropy of the distribution is returned in fixed point.
pub fn expected_entropy(guess: &Vec<char>, cands: &Vec<String>) -> (r: u64)
    requires
        guess@.len() == WORD_LENGTH,
        all_words(cands@),
    ensures
        r == spec_expected_entropy(guess@, views_of(cands@)),
{
    let n = cands.len();
    if n == 0 {
        return 0;
    }
    let counts = fill_buckets(guess, cands);
    proof {
        lemma_counts_sum_matches(guess@, views_of(cands@), counts@, 0);
        assert(views_of(cands@).len() == n);
    }
    entropy_from_counts(&counts, n)
}

/// Every candidate paired with its expected information gain against the
/// whole set, in the set's own order.
pub open spec fn scored_candidates(cands: Seq<String>) -> Seq<(String, u64)> {
    Seq::new(
        cands.len(),
        |i: int| (cands[i], spec_expected_entropy(cands[i]@, views_of(cands)) as u64),
    )
}

/// Where a new entry goes: after every entry scoring at least as much, so
/// equal scores keep their first-come order.
pub open spec fn insert_desc(xs: Seq<(String, u64)>, x: (String, u64)) -> Seq<(String, u64)>
    decreases xs.len(),
{
    if xs.len() == 0 {
        seq![x]
    } else if xs[0].1 >= x.1 {
        seq![xs[0]] + insert_desc(xs.drop_first(), x)
    } else {
        seq![x] + xs
    }
}

/// Stable insertion sort, descending by score.
pub open spec fn sort_desc(xs: Seq<(String, u64)>) -> Seq<(String, u64)>
    decreases xs.len(),
{
    if xs.len() == 0 {
        Seq::empty()
    } else {
        insert_desc(sort_desc(xs.drop_last()), xs.last())
    }
}

/// The candidates ordered by expected information gain, descending; ties
/// keep the candidate list's order.
pub open spec fn spec_rank(cands: Seq<String>) -> Seq<(String, u64)> {
    sort_desc(scored_candidates(cands))
}

pub open spec fn sorted_desc(xs: Seq<(String, u64)>) -> bool {
    forall|i: int, j: int| 0 <= i < j < xs.len() ==> xs[i].1 >= xs[j].1
}

proof fn lemma_insert_desc_len(xs: Seq<(String, u64)>, x: (String, u64))
    ensures
        insert_desc(xs, x).len() == xs.len() + 1,
    decreases xs.len(),
{
    if xs.len() != 0 && xs[0].1 >= x.1 {
        lemma_insert_desc_len(xs.drop_first(), x);
    }
}

proof fn lemma_insert_desc_contains(xs: Seq<(String, u64)>, x: (String, u64), y: (String, u64))
    ensures
        insert_desc(xs, x).contains(y) <==> (xs.contains(y) || y == x),
    decreases xs.len(),
{
    if xs.len() == 0 {
        assert(insert_desc(xs, x) == seq![x]);
        assert(seq![x][0] == x);
    } else if xs[0].1 >= x.1 {
        lemma_insert_desc_contains(xs.drop_first(), x, y);
        let r = seq![xs[0]] + insert_desc(xs.drop_first(), x);
        assert(insert_desc(xs, x) == r);
        if xs.contains(y) || y == x {
            if y == xs[0] {
                assert(r[0] == y);
            } else if xs.contains(y) {
                let i = choose|i: int| 0 <= i < xs.len() && xs[i] == y;
                assert(xs.drop_first()[i - 1] == y);
                assert(insert_desc(xs.drop_first(), x).contains(y));
                let j = choose|j: int|
                    0 <= j < insert_desc(xs.drop_first(), x).len() && insert_desc(
                        xs.drop_first(),
                        x,
                    )[j] == y;
                assert(r[j + 1] == y);
            } else {
                assert(insert_desc(xs.drop_first(), x).contains(y));
                let j = choose|j: int|
                    0 <= j < insert_desc(xs.drop_first(), x).len() && insert_desc(
                        xs.drop_first(),
                        x,
                    )[j] == y;
                assert(r[j + 1] == y);
            }
        }
        if r.contains(y) {
            let i = choose|i: int| 0 <= i < r.len() && r[i] == y;
            if i == 0 {
                assert(xs[0] == y);
            } else {
                assert(insert_desc(xs.drop_first(), x)[i - 1] == y);
                assert(insert_desc(xs.drop_first(), x).contains(y));
                if xs.drop_first().contains(y) {
                    let j = choose|j: int| 0 <= j < xs.drop_first().len() && xs.drop_first()[j] == y;
                    assert(xs[j + 1] == y);
                }
            }
        }
    } else {
        let r = seq![x] + xs;
        assert(insert_desc(xs, x) == r);
        if xs.contains(y) {
            let i = choose|i: int| 0 <= i < xs.len() && xs[i] == y;
            assert(r[i + 1] == y);
        }
        if y == x {
            assert(r[0] == y);
        }
        if r.contains(y) {
            let i = choose|i: int| 0 <= i < r.len() && r[i] == y;
            if i > 0 {
                assert(xs[i - 1] == y);
            }
        }
    }
}

proof fn lemma_insert_desc_sorted(xs: Seq<(String, u64)>, x: (String, u64))
    requires
        sorted_desc(xs),
    ensures
        sorted_desc(insert_desc(xs, x)),
    decreases xs.len(),
{
    if xs.len() == 0 {
    } else if xs[0].1 >= x.1 {
        assert(sorted_desc(xs.drop_first())) by {
            assert forall|i: int, j: int|
                0 <= i < j < xs.drop_first().len() implies xs.drop_first()[i].1
                >= xs.drop_first()[j].1 by {
                assert(xs.drop_first()[i] == xs[i + 1]);
                assert(xs.drop_first()[j] == xs[j + 1]);
            }
        }
        lemma_insert_desc_sorted(xs.drop_first(), x);
        let rest = insert_desc(xs.drop_first(), x);
        let r = seq![xs[0]] + rest;
        assert(insert_desc(xs, x) == r);
        assert forall|i: int, j: int| 0 <= i < j < r.len() implies r[i].1 >= r[j].1 by {
            if i == 0 {
                assert(r[j] == rest[j - 1]);
                assert(rest.contains(rest[j - 1]));
                lemma_insert_desc_contains(xs.drop_first(), x, rest[j - 1]);
                if xs.drop_first().contains(rest[j - 1]) {
                    let k = choose|k: int|
                        0 <= k < xs.drop_first().len() && xs.drop_first()[k] == rest[j - 1];
                    assert(xs[k + 1] == rest[j - 1]);
                }
            } else {
                assert(r[i] == rest[i - 1] && r[j] == rest[j - 1]);
            }
        }
    } else {
        let r = seq![x] + xs;
        assert(insert_desc(xs, x) == r);
        assert forall|i: int, j: int| 0 <= i < j < r.len() implies r[i].1 >= r[j].1 by {
            if i == 0 {
                if j > 1 {
                    assert(xs[0].1 >= xs[j - 1].1);
                }
            }
        }
    }
}

/// The ranking is ordered: scores never increase along it.
pub proof fn lemma_rank_sorted(cands: Seq<String>)
    ensures
        sorted_desc(spec_rank(cands)),
        spec_rank(cands).len() == cands.len(),
{
    lemma_sort_desc_props(scored_candidates(cands));
}

proof fn lemma_sort_desc_props(xs: Seq<(String, u64)>)
    ensures
        sorted_desc(sort_desc(xs)),
        sort_desc(xs).len() == xs.len(),
    decreases xs.len(),
{
    if xs.len() != 0 {
        lemma_sort_desc_props(xs.drop_last());
        lemma_insert_desc_sorted(sort_desc(xs.drop_last()), xs.last());
        lemma_insert_desc_len(sort_desc(xs.drop_last()), xs.last());
    }
}

/// Every ranked entry is one of the scored candidates, and the other way
/// round: sorting neither invents nor loses entries.
pub proof fn lemma_rank_contains(cands: Seq<String>, y: (String, u64))
    ensures
        spec_rank(cands).contains(y) <==> scored_candidates(cands).contains(y),
{
    lemma_sort_desc_contains(scored_candidates(cands), y);
}

proof fn lemma_sort_desc_contains(xs: Seq<(String, u64)>, y: (String, u64))
    ensures
        sort_desc(xs).contains(y) <==> xs.contains(y),
    decreases xs.len(),
{
    if xs.len() != 0 {
        lemma_sort_desc_contains(xs.drop_last(), y);
        lemma_insert_desc_contains(sort_desc(xs.drop_last()), xs.last(), y);
        if xs.contains(y) {
            let i = choose|i: int| 0 <= i < xs.len() && xs[i] == y;
            if i < xs.len() - 1 {
                assert(xs.drop_last()[i] == y);
            } else {
                assert(y == xs.last());
            }
        }
        if xs.drop_last().contains(y) {
            let i = choose|i: int| 0 <= i < xs.drop_last().len() && xs.drop_last()[i] == y;
            assert(xs[i] == y);
        }
        if y == xs.last() {
            assert(xs[xs.len() - 1] == y);
        }
    }
}

proof fn lemma_insert_desc_at(xs: Seq<(String, u64)>, x: (String, u64), j: int)
    requires
        0 <= j <= xs.len(),
        forall|k: int| 0 <= k < j ==> xs[k].1 >= x.1,
        j == xs.len() || xs[j].1 < x.1,
    ensures
        insert_desc(xs, x) == xs.insert(j, x),
    decreases xs.len(),
{
    if j == 0 {
        if xs.len() == 0 {
            assert(insert_desc(xs, x) =~= xs.insert(0, x));
        } else {
            assert(insert_desc(xs, x) == seq![x] + xs);
            assert(seq![x] + xs =~= xs.insert(0, x));
        }
    } else {
        assert(xs[0].1 >= x.1);
        let rest = xs.drop_first();
        assert(forall|k: int| 0 <= k < j - 1 ==> rest[k] == xs[k + 1]);
        lemma_insert_desc_at(rest, x, j - 1);
        assert(insert_desc(xs, x) == seq![xs[0]] + rest.insert(j - 1, x));
        assert(seq![xs[0]] + rest.insert(j - 1, x) =~= xs.insert(j, x));
    }
}

proof fn lemma_frac_steps_one(t: nat)
    ensures
        spec_frac_steps(ONE_BIT as int, 0, t) == 0,
    decreases t,
{
    if t != 0 {
        let q = ONE_BIT as int;
        assert((q * q) / q == q) by {
            vstd::arithmetic::div_mod::lemma_div_multiples_vanish(q, q);
        }
        lemma_frac_steps_one((t - 1) as nat);
    }
}

/// The logarithm of 1 is exactly zero, also in fixed point.
pub proof fn lemma_log2_one()
    ensures
        spec_log2(1) == 0,
{
    lemma_frac_steps_one(32);
}

proof fn lemma_entropy_sum_singleton(g: Seq<char>, cands: Seq<Seq<char>>, k: int)
    requires
        cands.len() == 1,
    ensures
        entropy_sum(g, cands, k) == 0,
    decreases PATTERN_COUNT - k,
{
    if 0 <= k < PATTERN_COUNT {
        lemma_bucket_le_len(g, cands, k);
        let c = bucket_count(g, cands, k);
        assert(score_term(c, 1) == 0) by {
            if c == 1 {
                lemma_log2_one();
            }
        }
        lemma_entropy_sum_singleton(g, cands, k + 1);
    }
}

/// A lone candidate answer carries no information to gain: every guess
/// scores zero against it.
pub proof fn lemma_singleton_entropy(g: Seq<char>, cands: Seq<Seq<char>>)
    requires
        cands.len() == 1,
    ensures
        spec_expected_entropy(g, cands) == 0,
{
    lemma_entropy_sum_singleton(g, cands, 0);
}

/// Boundary law: a candidate set of one word ranks that word first, with
/// score exactly zero.
pub proof fn lemma_rank_singleton(cands: Seq<String>)
    requires
        cands.len() == 1,
    ensures
        spec_rank(cands) == seq![(cands[0], 0u64)],
{
    let sc = scored_candidates(cands);
    lemma_singleton_entropy(cands[0]@, views_of(cands));
    assert(sc =~= seq![(cands[0], 0u64)]);
    assert(sc.drop_last() =~= Seq::<(String, u64)>::empty());
    assert(sort_desc(sc.drop_last()) == Seq::<(String, u64)>::empty());
    assert(sort_desc(sc) == insert_desc(sort_desc(sc.drop_last()), sc.last()));
    assert(insert_desc(Seq::<(String, u64)>::empty(), sc.last()) == seq![sc.last()]);
    assert(sc.last() == (cands[0], 0u64));
}

/// Candidate guesses ordered by expected information gain, descending;
/// ties keep the candidate list's order. The result is a function of the
/// candidate list alone, so an unchanged list always ranks the same.
pub fn rank(cands: &Vec<String>) -> (r: Vec<(String, u64)>)
    requires
        all_words(cands@),
    ensures
        r@ == spec_rank(cands@),
        r@.len() == cands@.len(),
{
    let n = cands.len();
    let mut scored: Vec<(String, u64)> = Vec::new();
    let mut i: usize = 0;
    while i < n
        invariant
            0 <= i <= n,
            n == cands@.len(),
            all_words(cands@),
            scored@.len() == i,
            forall|j: int| 0 <= j < i ==> scored@[j] == scored_candidates(cands@)[j],
        decreases n - i,
    {
        let w = cands[i].clone();
        let wchars = chars_of(cands[i].as_str());
        proof {
            assert(is_word(cands@[i as int]@));
        }
        let s = expected_entropy(&wchars, cands);
        scored.push((w, s));
        i = i + 1;
    }
    proof {
        assert(scored@ =~= scored_candidates(cands@));
    }
    let mut out: Vec<(String, u64)> = Vec::new();
    let mut i2: usize = 0;
    while i2 < n
        invariant
            0 <= i2 <= n,
            n == scored@.len(),
            scored@ == scored_candidates(cands@),
            out@ == sort_desc(scored@.take(i2 as int)),
            out@.len() == i2,
        decreases n - i2,
    {
        let xw = scored[i2].0.clone();
        let xv = scored[i2].1;
        let x = (xw, xv);
        proof {
            assert(x == scored@[i2 as int]);
        }
        let m = out.len();
        let mut j: usize = 0;
        while j < m && out[j].1 >= xv
            invariant
                0 <= j <= m,
                m == out@.len(),
                x.1 == xv,
                forall|k: int| 0 <= k < j ==> out@[k].1 >= x.1,
            decreases m - j,
        {
            j = j + 1;
        }
        let ghost out_before = out@;
        out.insert(j, x);
        proof {
            lemma_insert_desc_at(out_before, x, j as int);
            lemma_sort_desc_props(scored@.take(i2 as int));
            assert(scored@.take(i2 as int + 1).drop_last() =~= scored@.take(i2 as int));
            assert(scored@.take(i2 as int + 1).last() == scored@[i2 as int]);
            assert(sort_desc(scored@.take(i2 as int + 1)) == insert_desc(
                sort_desc(scored@.take(i2 as int)),
                scored@[i2 as int],
            ));
            lemma_insert_desc_len(out_before, x);
        }
        i2 = i2 + 1;
    }
    proof {
        assert(scored@.take(n as int) =~= scored@);
    }
    out
}

} // verus!
