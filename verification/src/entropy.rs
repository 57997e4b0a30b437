//! Deterministic fixed-point arithmetic for the scoring formulas.
//!
//! Scores rank guesses by the Shannon entropy of the hint distribution
//! they induce. Entropy needs `ln` and `exp`, which have no exact
//! integer form, so this module evaluates them in binary fixed point
//! with [`SCALE`] as the unit: a value `v` stands for the real number
//! `v / SCALE`. Every function here is a pure, fully specified integer
//! computation, so scores are reproducible bit for bit on any machine
//! and in any processing order.
//!
//! The pipeline, for one guess with hint-bucket sizes `c_1 .. c_m`
//! summing to `n`:
//!
//! * entropy `H = ln n - (sum of c_i * ln c_i) / n`, from
//!   [`entropy_fixed`], using the base-two digit-by-digit logarithm
//!   [`log2_fixed`] scaled by `ln 2`;
//! * expected score `(1 - exp(-H)) * 100`, from [`expected_millis`],
//!   in thousandths of a percent, using the Maclaurin series for `exp`
//!   on the fractional part and halving for each whole power of two;
//! * worst-case score `100 * (1 - max(c_i) / n)`, from
//!   [`worst_millis`], also in thousandths of a percent.

use vstd::prelude::*;

use vstd::arithmetic::div_mod::{
    lemma_div_denominator, lemma_div_is_ordered, lemma_div_is_ordered_by_denominator,
    lemma_div_multiples_vanish,
};
use vstd::arithmetic::power2::{lemma2_to64, lemma_pow2_adds, lemma_pow2_pos, pow2};

verus! {

/// The fixed-point unit: values are in units of `1 / SCALE`.
pub const SCALE: u64 = 16777216;

/// The number of fractional bits in [`SCALE`]: `SCALE == pow2(FRAC_BITS)`.
pub const FRAC_BITS: u64 = 24;

/// `ln 2` in fixed point: the floor of `ln 2 * SCALE`.
pub const LN2_FP: u64 = 11629079;

/// The largest candidate-set size the scoring pipeline accepts.
pub const MAX_CANDIDATES: u64 = 4294967296;

/// The exponent of the largest power of two that is at most `x`.
pub open spec fn floor_log2(x: nat) -> nat
    decreases x,
{
    if x < 2 {
        0
    } else {
        1 + floor_log2(x / 2)
    }
}

/// The fractional bits of the base-two logarithm of `y / SCALE`, for
/// `y` in `[SCALE, 2 * SCALE)`, produced most significant first by the
/// classic digit-by-digit method: square the mantissa; if it reaches 2,
/// the next bit is 1 and the mantissa is halved.
pub open spec fn log2_frac(y: nat, n: nat) -> nat
    decreases n,
{
    if n == 0 {
        0
    } else {
        let y2 = (y * y) / (SCALE as nat);
        if y2 >= 2 * SCALE {
            pow2((n - 1) as nat) + log2_frac(y2 / 2, (n - 1) as nat)
        } else {
            log2_frac(y2, (n - 1) as nat)
        }
    }
}

/// The base-two logarithm of `x`, scaled by `SCALE`: the integer part
/// from [`floor_log2`], the `FRAC_BITS` fractional bits from
/// [`log2_frac`] on the normalized mantissa.
pub open spec fn log2_fixed(x: nat) -> nat {
    let k = floor_log2(x);
    k * (SCALE as nat) + log2_frac((x * (SCALE as nat)) / pow2(k), FRAC_BITS as nat)
}

/// The natural logarithm of `x`, scaled by `SCALE`: `log2(x) * ln 2`.
pub open spec fn ln_fixed(x: nat) -> nat {
    (log2_fixed(x) * (LN2_FP as nat)) / (SCALE as nat)
}

/// The fractional bits are fewer than `pow2(n)`.
proof fn lemma_log2_frac_bound(y: nat, n: nat)
    ensures
        log2_frac(y, n) < pow2(n),
    decreases n,
{
    lemma_pow2_pos(n);
    if n == 0 {
    } else {
        let y2 = (y * y) / (SCALE as nat);
        lemma_pow2_adds((n - 1) as nat, 1);
        lemma2_to64();
        if y2 >= 2 * SCALE {
            lemma_log2_frac_bound(y2 / 2, (n - 1) as nat);
        } else {
            lemma_log2_frac_bound(y2, (n - 1) as nat);
            lemma_pow2_pos((n - 1) as nat);
        }
    }
}

/// Executable [`floor_log2`], which also returns `pow2` of the result.
fn floor_log2_exec(x: u64) -> (r: (u64, u64))
    requires
        1 <= x,
        x <= MAX_CANDIDATES,
    ensures
        r.0 == floor_log2(x as nat),
        r.1 == pow2(r.0 as nat),
        r.0 <= 32,
        pow2(r.0 as nat) <= x,
    decreases x,
{
    proof {
        lemma2_to64();
    }
    let mut k: u64 = 0;
    let mut p: u64 = 1;
    let mut t: u64 = x;
    while t >= 2
        invariant
            1 <= t,
            x <= MAX_CANDIDATES,
            k <= 32,
            p == pow2(k as nat),
            t == x as nat / pow2(k as nat),
            floor_log2(x as nat) == k + floor_log2(t as nat),
            p <= x,
        decreases t,
    {
        proof {
            lemma_pow2_pos(k as nat);
            lemma_pow2_adds(k as nat, 1);
            lemma2_to64();
            lemma_div_denominator(x as int, pow2(k as nat) as int, 2);
            assert(t as nat / 2 == x as nat / pow2((k + 1) as nat));
            // p * 2 <= x because x / (p * 2) >= 1
            lemma_pow2_pos((k + 1) as nat);
            assert(pow2((k + 1) as nat) <= x) by {
                if x < pow2((k + 1) as nat) {
                    lemma_div_is_ordered(x as int, pow2((k + 1) as nat) as int - 1, pow2(
                        (k + 1) as nat,
                    ) as int);
                    assert((pow2((k + 1) as nat) - 1) as int / pow2((k + 1) as nat) as int == 0)
                        by (nonlinear_arith)
                        requires
                            pow2((k + 1) as nat) >= 1,
                    ;
                }
            };
            assert(p * 2 == pow2((k + 1) as nat));
            if k >= 32 {
                vstd::arithmetic::power2::lemma_pow2_strictly_increases(32, (k + 1) as nat);
                vstd::arithmetic::power2::lemma2_to64_rest();
                assert(false);
            }
        }
        t = t / 2;
        p = p * 2;
        k = k + 1;
    }
    proof {
        if k > 32 {
            assert(pow2(k as nat) > MAX_CANDIDATES) by {
                vstd::arithmetic::power2::lemma_pow2_strictly_increases(32, k as nat);
                vstd::arithmetic::power2::lemma2_to64_rest();
            };
        }
    }
    (k, p)
}

/// Executable [`log2_fixed`].
pub fn log2_fixed_exec(x: u64) -> (r: u64)
    requires
        1 <= x,
        x <= MAX_CANDIDATES,
    ensures
        r == log2_fixed(x as nat),
        r <= 33 * SCALE,
{
    let (k, p) = floor_log2_exec(x);
    proof {
        lemma2_to64();
        // x * SCALE fits in u64: x <= 2^32, SCALE == 2^24
        assert(x * SCALE <= MAX_CANDIDATES * SCALE) by (nonlinear_arith)
            requires
                x <= MAX_CANDIDATES,
        ;
    }
    let y0: u64 = (x * SCALE) / p;
    proof {
        // SCALE <= y0 < 2 * SCALE
        let kp = pow2(k as nat) as int;
        assert(kp >= 1) by {
            lemma_pow2_pos(k as nat);
        };
        assert(x < 2 * pow2(k as nat)) by {
            // t = x / 2^k dropped below 2 when the loop ended
            assert(x as nat / pow2(k as nat) < 2 || k == floor_log2(x as nat));
            lemma_floor_log2_range(x as nat);
        };
        assert(y0 >= SCALE) by (nonlinear_arith)
            requires
                y0 == (x * SCALE) as int / kp,
                kp <= x,
                kp >= 1,
        ;
        assert(y0 < 2 * SCALE) by (nonlinear_arith)
            requires
                y0 == (x * SCALE) as int / kp,
                x < 2 * kp,
                kp >= 1,
        ;
    }
    let mut y: u64 = y0;
    let mut frac: u64 = 0;
    let mut j: u64 = 0;
    while j < FRAC_BITS
        invariant
            j <= FRAC_BITS,
            SCALE <= y < 2 * SCALE,
            frac < pow2(j as nat),
            log2_frac(y0 as nat, FRAC_BITS as nat) == frac * pow2((FRAC_BITS - j) as nat)
                + log2_frac(y as nat, (FRAC_BITS - j) as nat),
        decreases FRAC_BITS - j,
    {
        proof {
            lemma2_to64();
            assert((y as int) * (y as int) < 4 * (SCALE as int) * (SCALE as int)) by (nonlinear_arith)
                requires
                    y < 2 * SCALE,
            ;
            assert(((y as int) * (y as int)) / (SCALE as int) >= SCALE) by (nonlinear_arith)
                requires
                    y >= SCALE,
                    SCALE >= 1,
            ;
            assert(((y as int) * (y as int)) / (SCALE as int) < 4 * SCALE) by (nonlinear_arith)
                requires
                    (y as int) * (y as int) < 4 * (SCALE as int) * (SCALE as int),
                    SCALE >= 1,
            ;
        }
        let y2: u64 = (y * y) / SCALE;
        let ghost n_left = (FRAC_BITS - j) as nat;
        proof {
            lemma_pow2_adds((n_left - 1) as nat, 1);
            lemma2_to64();
            lemma_pow2_pos((n_left - 1) as nat);
        }
        if y2 >= 2 * SCALE {
            y = y2 / 2;
            frac = frac * 2 + 1;
            proof {
                assert(log2_frac(y0 as nat, FRAC_BITS as nat) == frac * pow2(
                    (n_left - 1) as nat,
                ) + log2_frac(y as nat, (n_left - 1) as nat)) by (nonlinear_arith)
                    requires
                        log2_frac(y0 as nat, FRAC_BITS as nat) == (frac - 1) / 2 * (2 * pow2(
                            (n_left - 1) as nat,
                        )) + pow2((n_left - 1) as nat) + log2_frac(y as nat, (n_left - 1) as nat),
                        frac % 2 == 1,
                ;
            }
        } else {
            y = y2;
            frac = frac * 2;
            proof {
                assert(log2_frac(y0 as nat, FRAC_BITS as nat) == frac * pow2(
                    (n_left - 1) as nat,
                ) + log2_frac(y as nat, (n_left - 1) as nat)) by (nonlinear_arith)
                    requires
                        log2_frac(y0 as nat, FRAC_BITS as nat) == frac / 2 * (2 * pow2(
                            (n_left - 1) as nat,
                        )) + log2_frac(y as nat, (n_left - 1) as nat),
                        frac % 2 == 0,
                ;
            }
        }
        j = j + 1;
    }
    proof {
        lemma2_to64();
        assert(j == FRAC_BITS);
        assert(pow2((FRAC_BITS - j) as nat) == 1);
        assert(log2_frac(y as nat, (FRAC_BITS - j) as nat) == 0);
        assert(log2_frac(y0 as nat, FRAC_BITS as nat) == frac * pow2((FRAC_BITS - j) as nat)
            + log2_frac(y as nat, (FRAC_BITS - j) as nat));
        assert(frac * pow2((FRAC_BITS - j) as nat) == frac * 1 == frac);
        assert(frac == log2_frac(y0 as nat, FRAC_BITS as nat));
        lemma_log2_frac_bound(y0 as nat, FRAC_BITS as nat);
        assert(k * SCALE <= 32 * SCALE) by (nonlinear_arith)
            requires
                k <= 32,
        ;
    }
    k * SCALE + frac
}

/// Executable [`ln_fixed`].
pub fn ln_fixed_exec(x: u64) -> (r: u64)
    requires
        1 <= x,
        x <= MAX_CANDIDATES,
    ensures
        r == ln_fixed(x as nat),
        r <= 33 * LN2_FP,
{
    let lg = log2_fixed_exec(x);
    proof {
        assert(lg * LN2_FP <= 33 * SCALE * LN2_FP) by (nonlinear_arith)
            requires
                lg <= 33 * SCALE,
        ;
        assert((lg as int * LN2_FP as int) / (SCALE as int) <= 33 * LN2_FP) by (nonlinear_arith)
            requires
                lg <= 33 * SCALE,
                SCALE >= 1,
        ;
    }
    (lg * LN2_FP) / SCALE
}

/// The tail of the Maclaurin series for `exp(r / SCALE)` in fixed
/// point, starting at term index `k` whose value is `term`, running
/// through term index 12: `term_0 = SCALE`, `term_{j+1} = term_j * r
/// / SCALE / (j + 1)`.
pub open spec fn exp_tail(r: nat, term: nat, k: nat) -> nat
    decreases 13 - k,
{
    if k >= 13 {
        0
    } else {
        term + exp_tail(r, ((term * r) / (SCALE as nat)) / ((k + 1) as nat), (k + 1) as nat)
    }
}

/// `exp(-h / SCALE) * SCALE` in fixed point: `h` is split into whole
/// multiples of `ln 2` (each a halving) and a remainder `rem` in
/// `[0, ln 2)`, whose exponential comes from the reciprocal of the
/// series for `exp(rem / SCALE)`.
pub open spec fn exp_neg_fixed(h: nat) -> nat {
    let q = h / (LN2_FP as nat);
    let rem = h % (LN2_FP as nat);
    (((SCALE * SCALE) as nat) / exp_tail(rem, SCALE as nat, 0)) / pow2(q)
}

/// Executable [`exp_neg_fixed`]. The result never exceeds `SCALE`,
/// matching `exp(-x) <= 1` for `x >= 0`.
pub fn exp_neg_exec(h: u64) -> (r: u64)
    requires
        h <= 33 * LN2_FP,
    ensures
        r == exp_neg_fixed(h as nat),
        r <= SCALE,
{
    let q = h / LN2_FP;
    let rem = h % LN2_FP;
    let mut term: u64 = SCALE;
    let mut sum: u64 = 0;
    let mut k: u64 = 0;
    while k < 13
        invariant
            k <= 13,
            term <= SCALE,
            sum <= k * SCALE,
            rem < LN2_FP,
            exp_tail(rem as nat, SCALE as nat, 0) == sum + exp_tail(
                rem as nat,
                term as nat,
                k as nat,
            ),
            k >= 1 ==> sum >= SCALE,
            k == 0 ==> term == SCALE && sum == 0,
        decreases 13 - k,
    {
        proof {
            assert(sum + term <= (k + 1) * SCALE) by (nonlinear_arith)
                requires
                    sum <= k * SCALE,
                    term <= SCALE,
                    k <= 13,
            ;
            assert(term * rem <= SCALE * SCALE) by (nonlinear_arith)
                requires
                    term <= SCALE,
                    rem <= SCALE,
            ;
            assert(((term as int) * (rem as int)) / (SCALE as int) <= term) by (nonlinear_arith)
                requires
                    rem < SCALE,
                    SCALE >= 1,
                    term >= 0,
            ;
            lemma_div_is_ordered_by_denominator(
                ((term as int) * (rem as int)) / (SCALE as int),
                1,
                (k + 1) as int,
            );
        }
        sum = sum + term;
        term = ((term * rem) / SCALE) / (k + 1);
        k = k + 1;
    }
    proof {
        assert(exp_tail(rem as nat, term as nat, 13) == 0);
        assert(sum >= SCALE);
    }
    let inv0 = (SCALE * SCALE) / sum;
    proof {
        lemma_div_is_ordered_by_denominator((SCALE * SCALE) as int, SCALE as int, sum as int);
        lemma_div_multiples_vanish(SCALE as int, SCALE as int);
        assert(inv0 <= SCALE);
        lemma2_to64();
        assert(pow2(0) == 1);
    }
    let mut v = inv0;
    let mut i: u64 = 0;
    while i < q
        invariant
            i <= q,
            inv0 <= SCALE,
            v == inv0 as nat / pow2(i as nat),
            v <= inv0,
        decreases q - i,
    {
        proof {
            lemma_pow2_pos(i as nat);
            lemma_pow2_adds(i as nat, 1);
            lemma2_to64();
            lemma_div_denominator(inv0 as int, pow2(i as nat) as int, 2);
            lemma_div_is_ordered_by_denominator(inv0 as int, 1, 2);
        }
        v = v / 2;
        i = i + 1;
    }
    proof {
        assert(v == exp_neg_fixed(h as nat));
    }
    v
}

/// The sum of a sequence of counts.
pub open spec fn sum_counts(s: Seq<nat>) -> nat
    decreases s.len(),
{
    if s.len() == 0 {
        0
    } else {
        sum_counts(s.drop_last()) + s.last()
    }
}

/// The entropy weight sum: each count times the fixed-point natural
/// logarithm of itself.
pub open spec fn weighted_ln_sum(s: Seq<nat>) -> nat
    decreases s.len(),
{
    if s.len() == 0 {
        0
    } else {
        weighted_ln_sum(s.drop_last()) + s.last() * ln_fixed(s.last())
    }
}

/// The fixed-point Shannon entropy of the distribution with bucket
/// sizes `counts` over `n` outcomes: `ln n - (sum c * ln c) / n`,
/// floored at zero.
pub open spec fn entropy_fixed(counts: Seq<nat>, n: nat) -> nat {
    if n == 0 {
        0
    } else {
        let avg = weighted_ln_sum(counts) / n;
        if avg >= ln_fixed(n) {
            0
        } else {
            (ln_fixed(n) - avg) as nat
        }
    }
}

/// The expected score `(1 - exp(-H)) * 100`, in thousandths of a
/// percent: always in `[0, 100000)`, so the score in percent lies in
/// `[0, 100)`. The exponential is floored at one fixed-point unit so
/// that the score stays strictly below one hundred percent.
pub open spec fn expected_millis_of(counts: Seq<nat>, n: nat) -> nat {
    if n == 0 {
        0
    } else {
        let v0 = exp_neg_fixed(entropy_fixed(counts, n));
        let v = if v0 == 0 {
            1nat
        } else if v0 > SCALE {
            SCALE as nat
        } else {
            v0
        };
        ((((SCALE as nat) - v) as nat) * 100000) / (SCALE as nat)
    }
}

/// The worst-case score `100 * (1 - max / n)`, in thousandths of a
/// percent: the guaranteed reduction left by the largest hint bucket.
pub open spec fn worst_millis_of(max_count: nat, n: nat) -> nat {
    if n == 0 {
        100000
    } else if max_count > n {
        0
    } else {
        (((n - max_count) as nat) * 100000) / n
    }
}

/// Taking one more element adds it to the sum of a prefix.
proof fn lemma_sum_take_unfold(s: Seq<nat>, j: int)
    requires
        0 <= j < s.len(),
    ensures
        sum_counts(s.take(j + 1)) == sum_counts(s.take(j)) + s[j],
        weighted_ln_sum(s.take(j + 1)) == weighted_ln_sum(s.take(j)) + s[j] * ln_fixed(s[j]),
{
    assert(s.take(j + 1).drop_last() =~= s.take(j));
    assert(s.take(j + 1).last() == s[j]);
}

/// A prefix sums to no more than the whole.
proof fn lemma_sum_take_le(s: Seq<nat>, j: int)
    requires
        0 <= j <= s.len(),
    ensures
        sum_counts(s.take(j)) <= sum_counts(s),
    decreases s.len() - j,
{
    if j == s.len() {
        assert(s.take(j) =~= s);
    } else {
        lemma_sum_take_unfold(s, j);
        lemma_sum_take_le(s, j + 1);
    }
}

/// Every element is at most the sum of its sequence.
proof fn lemma_element_le_sum(s: Seq<nat>, j: int)
    requires
        0 <= j < s.len(),
    ensures
        s[j] <= sum_counts(s),
{
    lemma_sum_take_unfold(s, j);
    lemma_sum_take_le(s, j + 1);
}

/// Executable [`expected_millis_of`] over bucket counts that sum to
/// `n`. The result is strictly below `100000`: an expected score is
/// always under one hundred percent.
pub fn expected_millis(counts: &Vec<u64>, n: u64) -> (r: u64)
    requires
        sum_counts(counts@.map_values(|c: u64| c as nat)) == n,
        forall|i: int| 0 <= i < counts@.len() ==> 1 <= #[trigger] counts@[i],
        n <= MAX_CANDIDATES,
    ensures
        r == expected_millis_of(counts@.map_values(|c: u64| c as nat), n as nat),
        r < 100000,
{
    let ghost cs = counts@.map_values(|c: u64| c as nat);
    if n == 0 {
        return 0;
    }
    let mut t: u64 = 0;
    let mut i: usize = 0;
    while i < counts.len()
        invariant
            i <= counts@.len(),
            cs == counts@.map_values(|c: u64| c as nat),
            cs.len() == counts@.len(),
            sum_counts(cs) == n,
            n <= MAX_CANDIDATES,
            forall|j: int| 0 <= j < counts@.len() ==> 1 <= #[trigger] counts@[j],
            t == weighted_ln_sum(cs.take(i as int)),
            t <= 33 * (LN2_FP as int) * sum_counts(cs.take(i as int)),
        decreases counts@.len() - i,
    {
        let c = counts[i];
        proof {
            lemma_element_le_sum(cs, i as int);
            assert(c <= n);
        }
        let lc = ln_fixed_exec(c);
        proof {
            lemma_sum_take_unfold(cs, i as int);
            lemma_sum_take_le(cs, i as int + 1);
            assert(c * lc <= c * (33 * (LN2_FP as int))) by (nonlinear_arith)
                requires
                    lc <= 33 * LN2_FP,
                    c >= 0,
            ;
            assert(t + c * lc <= 33 * (LN2_FP as int) * sum_counts(cs.take(i as int + 1)))
                by (nonlinear_arith)
                requires
                    t <= 33 * (LN2_FP as int) * sum_counts(cs.take(i as int)),
                    c * lc <= c * (33 * (LN2_FP as int)),
                    sum_counts(cs.take(i as int + 1)) == sum_counts(cs.take(i as int)) + c,
            ;
            assert(33 * (LN2_FP as int) * sum_counts(cs.take(i as int + 1)) <= 33 * (
            LN2_FP as int) * n) by (nonlinear_arith)
                requires
                    sum_counts(cs.take(i as int + 1)) <= n,
            ;
            assert(c * lc <= MAX_CANDIDATES * (33 * (LN2_FP as int))) by (nonlinear_arith)
                requires
                    c * lc <= c * (33 * (LN2_FP as int)),
                    c <= MAX_CANDIDATES,
            ;
            assert(33 * (LN2_FP as int) * n <= 33 * (LN2_FP as int) * MAX_CANDIDATES)
                by (nonlinear_arith)
                requires
                    n <= MAX_CANDIDATES,
            ;
        }
        t = t + c * lc;
        i = i + 1;
    }
    proof {
        assert(cs.take(cs.len() as int) =~= cs);
    }
    let ln_n = ln_fixed_exec(n);
    let avg = t / n;
    let h = if avg >= ln_n {
        0
    } else {
        ln_n - avg
    };
    let v0 = exp_neg_exec(h);
    let v = if v0 == 0 {
        1
    } else {
        v0
    };
    proof {
        assert((((SCALE - v) as int) * 100000) / (SCALE as int) < 100000) by (nonlinear_arith)
            requires
                1 <= v <= SCALE,
                SCALE >= 1,
        ;
    }
    ((SCALE - v) * 100000) / SCALE
}

/// Executable [`worst_millis_of`]: the score never exceeds one hundred
/// percent.
pub fn worst_millis(max_count: u64, n: u64) -> (r: u64)
    requires
        max_count <= n,
        n <= MAX_CANDIDATES,
    ensures
        r == worst_millis_of(max_count as nat, n as nat),
        r <= 100000,
{
    if n == 0 {
        100000
    } else {
        proof {
            assert((((n - max_count) as int) * 100000) / (n as int) <= 100000)
                by (nonlinear_arith)
                requires
                    0 <= max_count <= n,
                    1 <= n,
            ;
        }
        ((n - max_count) * 100000) / n
    }
}

/// An expected score always lies strictly below one hundred percent.
pub proof fn lemma_expected_millis_of_bound(counts: Seq<nat>, n: nat)
    ensures
        expected_millis_of(counts, n) < 100000,
{
    if n != 0 {
        let v0 = exp_neg_fixed(entropy_fixed(counts, n));
        let v: nat = if v0 == 0 {
            1nat
        } else if v0 > SCALE {
            SCALE as nat
        } else {
            v0
        };
        assert(((((SCALE as nat) - v) as nat) * 100000) / (SCALE as nat) < 100000)
            by (nonlinear_arith)
            requires
                1 <= v <= SCALE,
                SCALE >= 1,
        ;
    }
}

/// A worst-case score never exceeds one hundred percent.
pub proof fn lemma_worst_millis_of_bound(max_count: nat, n: nat)
    ensures
        worst_millis_of(max_count, n) <= 100000,
{
    if n != 0 && max_count <= n {
        assert((((n - max_count) as nat) * 100000) / n <= 100000) by (nonlinear_arith)
            requires
                0 <= max_count <= n,
                1 <= n,
        ;
    }
}

/// `floor_log2` names the exponent of the power of two floor of `x`.
proof fn lemma_floor_log2_range(x: nat)
    ensures
        x >= 1 ==> pow2(floor_log2(x)) <= x < 2 * pow2(floor_log2(x)),
    decreases x,
{
    lemma2_to64();
    if x >= 2 {
        lemma_floor_log2_range(x / 2);
        let k = floor_log2(x / 2);
        lemma_pow2_adds(k, 1);
    }
}

} // verus!
