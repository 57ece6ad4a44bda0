//! Paired significance testing.
//!
//! Per-query scores of two systems are compared with a paired t-test
//! whose two-tailed p-value uses the normal approximation (an
//! Abramowitz–Stegun error function), a normal-quantile confidence
//! interval, and Cohen's d effect size. All arithmetic runs on the
//! `Q20` fixed-point scale of [`Frac::to_q20`]; the approximation
//! coefficients are the classical ones rounded to that scale.

use vstd::prelude::*;
use crate::frac::{Frac, Q20, Q20_CAP};
use crate::fixed::{isqrt_u128, log2_q48, spec_is_isqrt, spec_log2_q48};

verus! {

/// ln 2 on the `Q20` scale.
pub const LN2_Q20: u128 = 726817;

/// 1/e on the `Q20` scale.
pub const INV_E_Q20: u128 = 385774;

/// 1/sqrt(2) on the `Q20` scale.
pub const INV_SQRT2_Q20: u128 = 741455;

/// The integer square root, as a specification-level function.
pub open spec fn spec_isqrt(x: int) -> int
    decreases (if x >= 0 { x } else { 0 })
{
    if x < 1 {
        0
    } else {
        let r = spec_isqrt(x - 1);
        if (r + 1) * (r + 1) <= x {
            r + 1
        } else {
            r
        }
    }
}

/// `spec_isqrt` is the floor of the square root.
pub proof fn lemma_spec_isqrt(x: int)
    requires
        x >= 0,
    ensures
        spec_is_isqrt(x, spec_isqrt(x)),
        spec_isqrt(x) >= 0,
    decreases x
{
    if x >= 1 {
        lemma_spec_isqrt(x - 1);
        let r = spec_isqrt(x - 1);
        assert(r * r <= x - 1 && x - 1 < (r + 1) * (r + 1));
        if (r + 1) * (r + 1) <= x {
            assert(spec_isqrt(x) == r + 1);
            assert(x < (r + 2) * (r + 2)) by (nonlinear_arith)
                requires
                    r >= 0,
                    x <= (r + 1) * (r + 1),
            ;
            assert(((r + 1) + 1) * ((r + 1) + 1) == (r + 2) * (r + 2));
        } else {
            assert(spec_isqrt(x) == r);
            assert(r * r <= x);
            assert(x < (r + 1) * (r + 1));
        }
    } else {
        assert(spec_isqrt(x) == 0);
        assert(0 * 0 <= x);
        assert(x < (0 + 1) * (0 + 1)) by (nonlinear_arith)
            requires
                x < 1,
        ;
    }
}

/// The floor square root is unique, so the executable and the
/// specification square root agree.
pub proof fn lemma_isqrt_unique(x: int, r1: int, r2: int)
    requires
        r1 >= 0,
        r2 >= 0,
        spec_is_isqrt(x, r1),
        spec_is_isqrt(x, r2),
    ensures
        r1 == r2,
{
    if r1 < r2 {
        vstd::arithmetic::mul::lemma_mul_inequality(r1 + 1, r2, r1 + 1);
        vstd::arithmetic::mul::lemma_mul_inequality(r1 + 1, r2, r2);
        vstd::arithmetic::mul::lemma_mul_is_commutative(r1 + 1, r2);
        assert(false);
    }
    if r2 < r1 {
        vstd::arithmetic::mul::lemma_mul_inequality(r2 + 1, r1, r2 + 1);
        vstd::arithmetic::mul::lemma_mul_inequality(r2 + 1, r1, r1);
        vstd::arithmetic::mul::lemma_mul_is_commutative(r2 + 1, r1);
        assert(false);
    }
}

/// Integer square root returning the specification value.
fn isqrt_spec(x: u128) -> (r: u128)
    ensures
        r == spec_isqrt(x as int),
        r < 0x10000000000000000,
{
    let r = isqrt_u128(x);
    proof {
        lemma_spec_isqrt(x as int);
        lemma_isqrt_unique(x as int, r as int, spec_isqrt(x as int));
    }
    r
}

/// `e^f` for `0 <= f < 1` on the `Q20` scale, by twelve terms of the
/// exponential series (the remainder is far below the grid).
pub open spec fn spec_exp_series(f: int, j: int, term: int, acc: int) -> int
    decreases (if j <= 13 { 13 - j } else { 0 })
{
    if j > 12 {
        acc
    } else {
        let t2 = term * f / (Q20 as int * j);
        spec_exp_series(f, j + 1, t2, acc + t2)
    }
}

/// `e^(-y)` for `y >= 0` on the `Q20` scale: split `y` into integer
/// and fractional parts, divide by the series value of `e^frac`, and
/// multiply by `1/e` once per integer step.
pub open spec fn spec_exp_neg(y: int) -> int {
    let f = y % Q20 as int;
    let ef = spec_exp_series(f, 1, Q20 as int, Q20 as int);
    let base = if ef >= 1 {
        Q20 as int * Q20 as int / ef
    } else {
        Q20 as int
    };
    spec_exp_int_steps(base, y / Q20 as int)
}

/// Multiply by `1/e` once per step.
pub open spec fn spec_exp_int_steps(v: int, steps: int) -> int
    decreases (if steps >= 0 { steps } else { 0 })
{
    if steps <= 0 {
        v
    } else {
        spec_exp_int_steps(v * INV_E_Q20 as int / Q20 as int, steps - 1)
    }
}

/// `e^(-y)` on the `Q20` scale.
fn exp_neg_q20(y: u128) -> (r: u128)
    requires
        y <= 64 * 0x100000,
    ensures
        r == spec_exp_neg(y as int),
        r <= 0x100000,
{
    let f: u128 = y % (Q20 as u128);
    let mut term: u128 = Q20 as u128;
    let mut acc: u128 = Q20 as u128;
    let mut j: u128 = 1;
    while j <= 12
        invariant
            1 <= j <= 13,
            f < Q20,
            term <= Q20,
            Q20 <= acc,
            acc as int <= j as int * Q20 as int,
            spec_exp_series(f as int, j as int, term as int, acc as int) == spec_exp_series(
                f as int,
                1,
                Q20 as int,
                Q20 as int,
            ),
        decreases 13 - j,
    {
        proof {
            vstd::arithmetic::mul::lemma_mul_upper_bound(
                term as int,
                Q20 as int,
                f as int,
                Q20 as int,
            );
            vstd::arithmetic::mul::lemma_mul_nonnegative(term as int, f as int);
            vstd::arithmetic::mul::lemma_mul_strictly_positive(Q20 as int, j as int);
            vstd::arithmetic::div_mod::lemma_div_pos_is_pos(
                term as int * f as int,
                Q20 as int * j as int,
            );
            // term * f <= (Q20 * j) * term, so the new term stays at most term
            vstd::arithmetic::mul::lemma_mul_inequality(
                f as int,
                Q20 as int * j as int,
                term as int,
            );
            vstd::arithmetic::mul::lemma_mul_is_commutative(f as int, term as int);
            vstd::arithmetic::mul::lemma_mul_is_commutative(Q20 as int * j as int, term as int);
            vstd::arithmetic::div_mod::lemma_multiply_divide_le(
                term as int * f as int,
                Q20 as int * j as int,
                term as int,
            );
            vstd::arithmetic::mul::lemma_mul_inequality(1, j as int, Q20 as int);
            vstd::arithmetic::mul::lemma_mul_is_commutative(j as int, Q20 as int);
            assert((j + 1) as int * Q20 as int == j as int * Q20 as int + Q20 as int) by {
                vstd::arithmetic::mul::lemma_mul_is_distributive_add_other_way(
                    Q20 as int,
                    j as int,
                    1,
                );
            }
        }
        let t2: u128 = term * f / ((Q20 as u128) * j);
        acc = acc + t2;
        term = t2;
        j = j + 1;
    }
    let ef = acc;
    let base: u128 = if ef >= 1 {
        (Q20 as u128) * (Q20 as u128) / ef
    } else {
        Q20 as u128
    };
    proof {
        vstd::arithmetic::div_mod::lemma_div_is_ordered_by_denominator(
            (Q20 * Q20) as int,
            Q20 as int,
            ef as int,
        );
    }
    let mut v: u128 = base;
    let mut steps: u128 = y / (Q20 as u128);
    proof {
        vstd::arithmetic::div_mod::lemma_div_is_ordered(y as int, (64 * 0x100000) as int, Q20 as int);
    }
    while steps > 0
        invariant
            v <= Q20,
            spec_exp_int_steps(v as int, steps as int) == spec_exp_neg(y as int),
        decreases steps,
    {
        proof {
            vstd::arithmetic::mul::lemma_mul_upper_bound(
                v as int,
                Q20 as int,
                INV_E_Q20 as int,
                Q20 as int,
            );
            vstd::arithmetic::mul::lemma_mul_nonnegative(v as int, INV_E_Q20 as int);
            vstd::arithmetic::mul::lemma_mul_inequality(
                INV_E_Q20 as int,
                Q20 as int,
                v as int,
            );
            vstd::arithmetic::mul::lemma_mul_is_commutative(v as int, INV_E_Q20 as int);
            vstd::arithmetic::mul::lemma_mul_is_commutative(v as int, Q20 as int);
            vstd::arithmetic::div_mod::lemma_multiply_divide_le(
                v as int * INV_E_Q20 as int,
                Q20 as int,
                v as int,
            );
            vstd::arithmetic::div_mod::lemma_div_pos_is_pos(
                v as int * INV_E_Q20 as int,
                Q20 as int,
            );
        }
        v = v * INV_E_Q20 / (Q20 as u128);
        steps = steps - 1;
    }
    v
}

/// A signed `Q20` value as sign and magnitude.
pub open spec fn spec_sm_mul_t(v: (bool, int), t: int) -> (bool, int) {
    (v.0, v.1 * t / Q20 as int)
}

/// Add a signed constant to a sign-magnitude value.
pub open spec fn spec_sm_add(v: (bool, int), cneg: bool, c: int) -> (bool, int) {
    if v.0 == cneg {
        (v.0, v.1 + c)
    } else if v.1 >= c {
        (v.0, v.1 - c)
    } else {
        (cneg, c - v.1)
    }
}

/// Multiply a sign-magnitude value by `t` (at most `Q20`) on the `Q20`
/// scale.
fn sm_mul_t(v: (bool, u128), t: u128) -> (r: (bool, u128))
    requires
        t <= Q20,
        v.1 <= 0x100000000000000,
    ensures
        (r.0, r.1 as int) == spec_sm_mul_t((v.0, v.1 as int), t as int),
        r.1 <= v.1,
{
    proof {
        vstd::arithmetic::mul::lemma_mul_upper_bound(
            v.1 as int,
            0x100000000000000int,
            t as int,
            Q20 as int,
        );
        vstd::arithmetic::mul::lemma_mul_nonnegative(v.1 as int, t as int);
        vstd::arithmetic::mul::lemma_mul_inequality(t as int, Q20 as int, v.1 as int);
        vstd::arithmetic::mul::lemma_mul_is_commutative(t as int, v.1 as int);
        vstd::arithmetic::mul::lemma_mul_is_commutative(Q20 as int, v.1 as int);
        vstd::arithmetic::div_mod::lemma_multiply_divide_le(
            v.1 as int * t as int,
            Q20 as int,
            v.1 as int,
        );
        vstd::arithmetic::div_mod::lemma_div_pos_is_pos(v.1 as int * t as int, Q20 as int);
    }
    (v.0, v.1 * t / (Q20 as u128))
}

/// Add a signed constant (of magnitude below 2^24) to a
/// sign-magnitude value.
fn sm_add(v: (bool, u128), cneg: bool, c: u128) -> (r: (bool, u128))
    requires
        v.1 <= 0x100000000000000,
        c <= 0x1000000,
    ensures
        (r.0, r.1 as int) == spec_sm_add((v.0, v.1 as int), cneg, c as int),
        r.1 <= v.1 + c,
{
    if v.0 == cneg {
        (v.0, v.1 + c)
    } else if v.1 >= c {
        (v.0, v.1 - c)
    } else {
        (cneg, c - v.1)
    }
}

/// The Abramowitz–Stegun polynomial in `t`, sign and magnitude, on the
/// `Q20` scale: `((((a5 t + a4) t + a3) t + a2) t + a1) t`.
pub open spec fn spec_erf_poly(t: int) -> (bool, int) {
    let h1 = spec_sm_mul_t((false, 1112967), t);
    let h2 = spec_sm_add(h1, true, 1523740);
    let h3 = spec_sm_mul_t(h2, t);
    let h4 = spec_sm_add(h3, false, 1490460);
    let h5 = spec_sm_mul_t(h4, t);
    let h6 = spec_sm_add(h5, true, 298313);
    let h7 = spec_sm_mul_t(h6, t);
    let h8 = spec_sm_add(h7, false, 267209);
    spec_sm_mul_t(h8, t)
}

/// The error function on the `Q20` scale (clamped into `[0, 1]`;
/// arguments of 6 or more simply return 1, where the true value is
/// within 2^-52 of it).
pub open spec fn spec_erf(x: int) -> int {
    if x >= 6 * Q20 as int {
        Q20 as int
    } else {
        let px = 343546 * x / Q20 as int;
        let t = Q20 as int * Q20 as int / (Q20 as int + px);
        let poly = spec_erf_poly(t);
        let e = spec_exp_neg(x * x / Q20 as int);
        let prod = poly.1 * e / Q20 as int;
        if poly.0 {
            Q20 as int
        } else if prod > Q20 as int {
            0
        } else {
            Q20 as int - prod
        }
    }
}

/// The error function on the `Q20` scale.
fn erf_q20(x: u128) -> (r: u128)
    requires
        x <= 0x4000000,  // at most 64 on the Q20 scale
    ensures
        r == spec_erf(x as int),
        r <= Q20,
{
    if x >= 6 * (Q20 as u128) {
        return Q20 as u128;
    }
    proof {
        vstd::arithmetic::mul::lemma_mul_upper_bound(343546, 343546, x as int, 0x600000int);
        vstd::arithmetic::div_mod::lemma_div_pos_is_pos(343546 * x as int, Q20 as int);
        vstd::arithmetic::div_mod::lemma_multiply_divide_le(
            343546 * x as int,
            Q20 as int,
            0x200000000000int,
        );
        vstd::arithmetic::mul::lemma_mul_nonnegative(343546, x as int);
    }
    let px: u128 = 343546 * x / (Q20 as u128);
    let t: u128 = (Q20 as u128) * (Q20 as u128) / ((Q20 as u128) + px);
    proof {
        vstd::arithmetic::div_mod::lemma_div_is_ordered_by_denominator(
            (Q20 * Q20) as int,
            Q20 as int,
            (Q20 as int + px as int),
        );
    }
    let h1 = sm_mul_t((false, 1112967), t);
    let h2 = sm_add(h1, true, 1523740);
    let h3 = sm_mul_t(h2, t);
    let h4 = sm_add(h3, false, 1490460);
    let h5 = sm_mul_t(h4, t);
    let h6 = sm_add(h5, true, 298313);
    let h7 = sm_mul_t(h6, t);
    let h8 = sm_add(h7, false, 267209);
    let poly = sm_mul_t(h8, t);
    proof {
        vstd::arithmetic::mul::lemma_mul_upper_bound(x as int, 0x600000int, x as int, 0x600000int);
        vstd::arithmetic::mul::lemma_mul_nonnegative(x as int, x as int);
        vstd::arithmetic::div_mod::lemma_div_pos_is_pos(x as int * x as int, Q20 as int);
        vstd::arithmetic::div_mod::lemma_multiply_divide_le(
            x as int * x as int,
            Q20 as int,
            0x2400000int,
        );
    }
    let e = exp_neg_q20(x * x / (Q20 as u128));
    proof {
        vstd::arithmetic::mul::lemma_mul_upper_bound(
            poly.1 as int,
            0x100000000000000int,
            e as int,
            Q20 as int,
        );
        vstd::arithmetic::mul::lemma_mul_nonnegative(poly.1 as int, e as int);
        vstd::arithmetic::div_mod::lemma_div_pos_is_pos(poly.1 as int * e as int, Q20 as int);
    }
    let prod: u128 = poly.1 * e / (Q20 as u128);
    if poly.0 {
        Q20 as u128
    } else if prod > Q20 as u128 {
        0
    } else {
        (Q20 as u128) - prod
    }
}

/// The two-tailed normal p-value of a `Q20` z-score:
/// `2 (1 - cdf(z)) = 1 - erf(z / sqrt 2)`. Scores of 8 or more round
/// to zero.
pub open spec fn spec_p_value(z: int) -> int {
    if z >= 8 * Q20 as int {
        0
    } else {
        Q20 as int - spec_erf(z * INV_SQRT2_Q20 as int / Q20 as int)
    }
}

/// The two-tailed normal p-value of a `Q20` z-score.
fn p_value_q20(z: u128) -> (r: u128)
    ensures
        r == spec_p_value(z as int),
        r <= Q20,
{
    if z >= 8 * (Q20 as u128) {
        return 0;
    }
    proof {
        vstd::arithmetic::mul::lemma_mul_upper_bound(
            z as int,
            0x800000int,
            INV_SQRT2_Q20 as int,
            Q20 as int,
        );
        vstd::arithmetic::mul::lemma_mul_nonnegative(z as int, INV_SQRT2_Q20 as int);
        vstd::arithmetic::div_mod::lemma_div_pos_is_pos(
            z as int * INV_SQRT2_Q20 as int,
            Q20 as int,
        );
        vstd::arithmetic::div_mod::lemma_multiply_divide_le(
            z as int * INV_SQRT2_Q20 as int,
            Q20 as int,
            0x800000int,
        );
    }
    let w: u128 = z * INV_SQRT2_Q20 / (Q20 as u128);
    let e = erf_q20(w);
    (Q20 as u128) - e
}

/// Result of a paired t-test. All continuous quantities are exact
/// fractions of the computed `Q20` fixed-point values.
#[derive(Clone, Copy, Debug, PartialEq, Eq, Structural)]
pub struct TTestResult {
    pub t_statistic: Frac,
    pub p_value: Frac,
    pub degrees_of_freedom: usize,
    pub mean_difference: Frac,
    pub std_error: Frac,
    pub significant: bool,
}

/// The shifted difference sum: each paired difference, moved up by
/// `Q20_CAP` so it is non-negative, summed over the first `j` pairs.
pub open spec fn spec_sum_shift(a: Seq<Frac>, b: Seq<Frac>, j: int) -> int
    decreases j
{
    if j <= 0 {
        0
    } else {
        spec_sum_shift(a, b, j - 1) + a[j - 1].spec_to_q20() - b[j - 1].spec_to_q20()
            + Q20_CAP as int
    }
}

/// The squared deviation of pair `i` from the shifted mean.
pub open spec fn spec_dev_sq(a: Seq<Frac>, b: Seq<Frac>, i: int, mean_sh: int) -> int {
    let dsh = a[i].spec_to_q20() - b[i].spec_to_q20() + Q20_CAP as int;
    if dsh >= mean_sh {
        (dsh - mean_sh) * (dsh - mean_sh)
    } else {
        (mean_sh - dsh) * (mean_sh - dsh)
    }
}

/// The sum of squared deviations over the first `j` pairs.
pub open spec fn spec_sum_sq(a: Seq<Frac>, b: Seq<Frac>, j: int, mean_sh: int) -> int
    decreases j
{
    if j <= 0 {
        0
    } else {
        spec_sum_sq(a, b, j - 1, mean_sh) + spec_dev_sq(a, b, j - 1, mean_sh)
    }
}

/// What the paired t-test reports for two or more pairs: the mean
/// difference and sample standard error on the `Q20` scale (`2^20`),
/// `t = mean / se` as an exact fraction (zero when the error is
/// zero on the grid), the normal-approximation two-tailed p-value,
/// `n - 1` degrees of freedom, and significance below `alpha`.
pub open spec fn spec_paired_t_test(a: Seq<Frac>, b: Seq<Frac>, alpha: Frac) -> TTestResult {
    let n = a.len() as int;
    let mean_sh = spec_sum_shift(a, b, n) / n;
    let mean = mean_sh - Q20_CAP as int;
    let var = spec_sum_sq(a, b, n, mean_sh) / (n - 1);
    let se = spec_isqrt(var / n);
    let t = if se > 0 {
        Frac { num: mean as i128, den: se as i128 }
    } else {
        Frac { num: 0, den: 1 }
    };
    let z = if se > 0 {
        (if mean >= 0 {
            mean
        } else {
            -mean
        }) * Q20 as int / se
    } else {
        0
    };
    let p = if se > 0 {
        spec_p_value(z)
    } else {
        Q20 as int
    };
    TTestResult {
        t_statistic: t,
        p_value: Frac { num: p as i128, den: Q20 as i128 },
        degrees_of_freedom: (n - 1) as usize,
        mean_difference: Frac { num: mean as i128, den: Q20 as i128 },
        std_error: Frac { num: se as i128, den: Q20 as i128 },
        significant: p < alpha.spec_to_q20(),
    }
}

/// Paired t-test of two aligned per-query score vectors. With fewer
/// than two pairs the result is neutral: `t = 0`, `p = 1`, zero
/// degrees of freedom, not significant.
pub fn paired_t_test(method_a: &Vec<Frac>, method_b: &Vec<Frac>, alpha: Frac) -> (r: TTestResult)
    requires
        method_a@.len() == method_b@.len(),
        alpha.wf(),
        forall|i: int| 0 <= i < method_a@.len() ==> (#[trigger] method_a@[i]).wf(),
        forall|i: int| 0 <= i < method_b@.len() ==> (#[trigger] method_b@[i]).wf(),
    ensures
        method_a@.len() < 2 ==> r == (TTestResult {
            t_statistic: Frac { num: 0, den: 1 },
            p_value: Frac { num: Q20, den: Q20 },
            degrees_of_freedom: 0,
            mean_difference: Frac { num: 0, den: 1 },
            std_error: Frac { num: 0, den: 1 },
            significant: false,
        }),
        method_a@.len() >= 2 ==> r == spec_paired_t_test(method_a@, method_b@, alpha),
        r.p_value.wf(),
        r.p_value.in_unit(),
{
    let n = method_a.len();
    if n < 2 {
        return TTestResult {
            t_statistic: Frac::new(0, 1),
            p_value: Frac::new(Q20, Q20),
            degrees_of_freedom: 0,
            mean_difference: Frac::new(0, 1),
            std_error: Frac::new(0, 1),
            significant: false,
        };
    }
    // shifted difference sum (every summand lies in [0, 2 * Q20_CAP])
    let mut sum_sh: u128 = 0;
    let mut i: usize = 0;
    while i < n
        invariant
            i <= n == method_a@.len() == method_b@.len(),
            forall|j: int| 0 <= j < method_a@.len() ==> (#[trigger] method_a@[j]).wf(),
            forall|j: int| 0 <= j < method_b@.len() ==> (#[trigger] method_b@[j]).wf(),
            sum_sh == spec_sum_shift(method_a@, method_b@, i as int),
            sum_sh <= i as int * (2 * Q20_CAP) as int,
        decreases n - i,
    {
        proof {
            assert((i + 1) as int * (2 * Q20_CAP) as int == i as int * (2 * Q20_CAP) as int + (2
                * Q20_CAP) as int) by {
                vstd::arithmetic::mul::lemma_mul_is_distributive_add_other_way(
                    (2 * Q20_CAP) as int,
                    i as int,
                    1,
                );
            }
            vstd::arithmetic::mul::lemma_mul_inequality(
                (i + 1) as int,
                0x10000000000000000int,
                (2 * Q20_CAP) as int,
            );
        }
        let aq = method_a[i].to_q20();
        let bq = method_b[i].to_q20();
        sum_sh = sum_sh + ((aq - bq + Q20_CAP) as u128);
        i = i + 1;
    }
    let mean_sh: u128 = sum_sh / (n as u128);
    proof {
        vstd::arithmetic::div_mod::lemma_div_pos_is_pos(sum_sh as int, n as int);
        // mean_sh is at most 2 * Q20_CAP
        vstd::arithmetic::mul::lemma_mul_is_commutative(n as int, (2 * Q20_CAP) as int);
        vstd::arithmetic::div_mod::lemma_multiply_divide_le(
            sum_sh as int,
            n as int,
            (2 * Q20_CAP) as int,
        );
    }
    // sum of squared deviations
    let mut sum_sq: u128 = 0;
    let mut j: usize = 0;
    while j < n
        invariant
            j <= n == method_a@.len() == method_b@.len(),
            forall|w: int| 0 <= w < method_a@.len() ==> (#[trigger] method_a@[w]).wf(),
            forall|w: int| 0 <= w < method_b@.len() ==> (#[trigger] method_b@[w]).wf(),
            mean_sh <= 2 * Q20_CAP,
            sum_sq == spec_sum_sq(method_a@, method_b@, j as int, mean_sh as int),
            sum_sq <= j as int * 0x1000000000000000int,  // 2^66 = (2^33)^2
        decreases n - j,
    {
        proof {
            assert((j + 1) as int * 0x1000000000000000int == j as int * 0x1000000000000000int
                + 0x1000000000000000int) by {
                vstd::arithmetic::mul::lemma_mul_is_distributive_add_other_way(
                    0x1000000000000000int,
                    j as int,
                    1,
                );
            }
            vstd::arithmetic::mul::lemma_mul_inequality(
                (j + 1) as int,
                0x10000000000000000int,
                0x1000000000000000int,
            );
        }
        let aq = method_a[j].to_q20();
        let bq = method_b[j].to_q20();
        let dsh: u128 = (aq - bq + Q20_CAP) as u128;
        let dev: u128 = if dsh >= mean_sh {
            dsh - mean_sh
        } else {
            mean_sh - dsh
        };
        proof {
            vstd::arithmetic::mul::lemma_mul_upper_bound(
                dev as int,
                0x40000000int,
                dev as int,
                0x40000000int,
            );
            vstd::arithmetic::mul::lemma_mul_nonnegative(dev as int, dev as int);
        }
        sum_sq = sum_sq + dev * dev;
        j = j + 1;
    }
    let var: u128 = sum_sq / ((n - 1) as u128);
    let se: u128 = isqrt_spec(var / (n as u128));
    proof {
        vstd::arithmetic::div_mod::lemma_div_pos_is_pos(sum_sq as int, (n - 1) as int);
        vstd::arithmetic::div_mod::lemma_div_pos_is_pos(var as int, n as int);
    }
    let mean_i: i128 = (mean_sh as i128) - Q20_CAP;
    let t = if se > 0 {
        Frac::new(mean_i, se as i128)
    } else {
        Frac::new(0, 1)
    };
    let abs_mean: u128 = if mean_i >= 0 {
        mean_i as u128
    } else {
        (-mean_i) as u128
    };
    let z: u128 = if se > 0 {
        proof {
            vstd::arithmetic::mul::lemma_mul_upper_bound(
                abs_mean as int,
                (2 * Q20_CAP) as int,
                Q20 as int,
                Q20 as int,
            );
            vstd::arithmetic::mul::lemma_mul_nonnegative(abs_mean as int, Q20 as int);
            vstd::arithmetic::div_mod::lemma_div_pos_is_pos(
                abs_mean as int * Q20 as int,
                se as int,
            );
        }
        abs_mean * (Q20 as u128) / se
    } else {
        0
    };
    let p: u128 = if se > 0 {
        p_value_q20(z)
    } else {
        Q20 as u128
    };
    let a_q20 = alpha.to_q20();
    TTestResult {
        t_statistic: t,
        p_value: Frac::new(p as i128, Q20),
        degrees_of_freedom: n - 1,
        mean_difference: Frac::new(mean_i, Q20),
        std_error: Frac::new(se as i128, Q20),
        significant: (p as i128) < a_q20,
    }
}

/// The normal quantile of `p` (on the `Q20` scale, `p >= 1/2`), by
/// the classical rational approximation over `sqrt(-2 ln(1 - p))`,
/// with the logarithm taken through the fixed-point base-2 logarithm.
pub open spec fn spec_normal_quantile(p: int) -> int {
    if p <= 524288 {
        0
    } else {
        let q = Q20 as int - p;
        let q1 = if q < 1 {
            1
        } else {
            q
        };
        let l = spec_log2_q48(Q20 as int * Q20 as int / q1);
        let l48 = if l >= 20 * 0x1000000000000 {
            l - 20 * 0x1000000000000
        } else {
            0
        };
        let ln_q20 = l48 / 0x10000000 * LN2_Q20 as int / Q20 as int;
        let tv = spec_isqrt(2 * ln_q20 * Q20 as int);
        let t2 = tv * tv / Q20 as int;
        let t3 = t2 * tv / Q20 as int;
        let numer = 2637723 + 841890 * tv / Q20 as int + 10830 * t2 / Q20 as int;
        let denom = Q20 as int + 1502404 * tv / Q20 as int + 198458 * t2 / Q20 as int + 1371 * t3
            / Q20 as int;
        let corr = numer * Q20 as int / denom;
        if tv >= corr {
            tv - corr
        } else {
            0
        }
    }
}

/// The normal quantile on the `Q20` scale.
fn normal_quantile_q20(p: u128) -> (r: u128)
    requires
        p <= Q20,
    ensures
        r == spec_normal_quantile(p as int),
        r <= 0x4000000,
{
    if p <= 524288 {
        return 0;
    }
    let q = (Q20 as u128) - p;
    let q1: u128 = if q < 1 {
        1
    } else {
        q
    };
    proof {
        vstd::arithmetic::div_mod::lemma_div_is_ordered_by_denominator(
            (Q20 * Q20) as int,
            1,
            q1 as int,
        );
        vstd::arithmetic::div_mod::lemma_div_is_ordered_by_denominator(
            (Q20 * Q20) as int,
            q1 as int,
            524288,
        );
    }
    let u: u128 = (Q20 as u128) * (Q20 as u128) / q1;
    // u lies in [2 * Q20, Q20^2], so its logarithm is between 21 and 40;
    // the subtraction still saturates so that no bound is needed here.
    let l = log2_q48(u);
    let l48: u128 = if l >= 20 * 0x1000000000000 {
        l - 20 * 0x1000000000000
    } else {
        0
    };
    let ln_q20: u128 = l48 / 0x10000000 * LN2_Q20 / (Q20 as u128);
    proof {
        vstd::arithmetic::div_mod::lemma_div_pos_is_pos(l48 as int, 0x10000000);
        vstd::arithmetic::div_mod::lemma_div_is_ordered(
            l48 as int,
            0x200000000000000int,
            0x10000000,
        );
        vstd::arithmetic::mul::lemma_mul_upper_bound(
            (l48 / 0x10000000) as int,
            0x2000000000int,
            LN2_Q20 as int,
            Q20 as int,
        );
        vstd::arithmetic::mul::lemma_mul_nonnegative((l48 / 0x10000000) as int, LN2_Q20 as int);
        vstd::arithmetic::div_mod::lemma_div_pos_is_pos(
            (l48 / 0x10000000) as int * LN2_Q20 as int,
            Q20 as int,
        );
        vstd::arithmetic::div_mod::lemma_multiply_divide_le(
            (l48 / 0x10000000) as int * LN2_Q20 as int,
            Q20 as int,
            0x2000000000int,
        );
    }
    proof {
        vstd::arithmetic::mul::lemma_mul_upper_bound(
            (2 * ln_q20) as int,
            0x40000000int,
            Q20 as int,
            Q20 as int,
        );
        vstd::arithmetic::mul::lemma_mul_nonnegative((2 * ln_q20) as int, Q20 as int);
    }
    let tv: u128 = isqrt_spec(2 * ln_q20 * (Q20 as u128));
    proof {
        lemma_spec_isqrt((2 * ln_q20 * (Q20 as u128)) as int);
        if tv > 0x4000000 {
            // tv^2 would exceed 2^52, above the square root's argument
            vstd::arithmetic::mul::lemma_mul_strict_inequality(
                0x4000000int,
                tv as int,
                tv as int,
            );
            vstd::arithmetic::mul::lemma_mul_inequality(
                0x4000000int,
                tv as int,
                0x4000000int,
            );
            vstd::arithmetic::mul::lemma_mul_is_commutative(0x4000000int, tv as int);
            assert(false);
        }
        vstd::arithmetic::mul::lemma_mul_upper_bound(
            tv as int,
            0x4000000int,
            tv as int,
            0x4000000int,
        );
        vstd::arithmetic::mul::lemma_mul_nonnegative(tv as int, tv as int);
    }
    let t2: u128 = tv * tv / (Q20 as u128);
    proof {
        vstd::arithmetic::div_mod::lemma_div_pos_is_pos((tv * tv) as int, Q20 as int);
        vstd::arithmetic::div_mod::lemma_div_is_ordered_by_denominator(
            (tv * tv) as int,
            1,
            Q20 as int,
        );
        vstd::arithmetic::mul::lemma_mul_upper_bound(
            t2 as int,
            0x10000000000000int,
            tv as int,
            0x4000000int,
        );
        vstd::arithmetic::mul::lemma_mul_nonnegative(t2 as int, tv as int);
    }
    let t3: u128 = t2 * tv / (Q20 as u128);
    proof {
        vstd::arithmetic::div_mod::lemma_div_pos_is_pos((t2 * tv) as int, Q20 as int);
        vstd::arithmetic::mul::lemma_mul_nonnegative(841890, tv as int);
        vstd::arithmetic::div_mod::lemma_div_pos_is_pos((841890 * tv) as int, Q20 as int);
        vstd::arithmetic::mul::lemma_mul_nonnegative(10830, t2 as int);
        vstd::arithmetic::div_mod::lemma_div_pos_is_pos((10830 * t2) as int, Q20 as int);
        vstd::arithmetic::mul::lemma_mul_nonnegative(1502404, tv as int);
        vstd::arithmetic::div_mod::lemma_div_pos_is_pos((1502404 * tv) as int, Q20 as int);
        vstd::arithmetic::mul::lemma_mul_nonnegative(198458, t2 as int);
        vstd::arithmetic::div_mod::lemma_div_pos_is_pos((198458 * t2) as int, Q20 as int);
        vstd::arithmetic::mul::lemma_mul_nonnegative(1371, t3 as int);
        vstd::arithmetic::div_mod::lemma_div_pos_is_pos((1371 * t3) as int, Q20 as int);
    }
    let numer: u128 = 2637723 + 841890 * tv / (Q20 as u128) + 10830 * t2 / (Q20 as u128);
    let denom: u128 = (Q20 as u128) + 1502404 * tv / (Q20 as u128) + 198458 * t2 / (Q20 as u128)
        + 1371 * t3 / (Q20 as u128);
    proof {
        vstd::arithmetic::mul::lemma_mul_nonnegative(numer as int, Q20 as int);
        vstd::arithmetic::div_mod::lemma_div_pos_is_pos((numer * Q20 as u128) as int, denom as int);
    }
    let corr: u128 = numer * (Q20 as u128) / denom;
    if tv >= corr {
        tv - corr
    } else {
        0
    }
}

/// The `Q20` sum of a score vector's values.
pub open spec fn spec_sum_scores(v: Seq<Frac>, j: int) -> int
    decreases j
{
    if j <= 0 {
        0
    } else {
        spec_sum_scores(v, j - 1) + v[j - 1].spec_to_q20()
    }
}

/// The sum of squared `Q20` deviations from `mean`.
pub open spec fn spec_sum_sq_scores(v: Seq<Frac>, j: int, mean: int) -> int
    decreases j
{
    if j <= 0 {
        0
    } else {
        let q = v[j - 1].spec_to_q20();
        let d = if q >= mean {
            q - mean
        } else {
            mean - q
        };
        spec_sum_sq_scores(v, j - 1, mean) + d * d
    }
}

/// Accumulate the `Q20` values and their squared deviations.
fn score_moments(scores: &Vec<Frac>) -> (r: (u128, u128))
    requires
        scores@.len() >= 1,
        forall|i: int| 0 <= i < scores@.len() ==> (#[trigger] scores@[i]).wf(),
    ensures
        r.0 == spec_sum_scores(scores@, scores@.len() as int) / scores@.len() as int,
        r.1 == spec_sum_sq_scores(scores@, scores@.len() as int, r.0 as int),
        r.0 <= Q20_CAP,
        r.1 <= scores@.len() as int * 0x100000000000000int,
{
    let n = scores.len();
    let mut sum: u128 = 0;
    let mut i: usize = 0;
    while i < n
        invariant
            i <= n == scores@.len(),
            forall|j: int| 0 <= j < scores@.len() ==> (#[trigger] scores@[j]).wf(),
            sum == spec_sum_scores(scores@, i as int),
            sum <= i as int * Q20_CAP as int,
        decreases n - i,
    {
        proof {
            assert((i + 1) as int * Q20_CAP as int == i as int * Q20_CAP as int
                + Q20_CAP as int) by {
                vstd::arithmetic::mul::lemma_mul_is_distributive_add_other_way(
                    Q20_CAP as int,
                    i as int,
                    1,
                );
            }
            vstd::arithmetic::mul::lemma_mul_inequality(
                (i + 1) as int,
                0x10000000000000000int,
                Q20_CAP as int,
            );
        }
        sum = sum + (scores[i].to_q20() as u128);
        i = i + 1;
    }
    let mean: u128 = sum / (n as u128);
    proof {
        vstd::arithmetic::div_mod::lemma_div_pos_is_pos(sum as int, n as int);
        vstd::arithmetic::mul::lemma_mul_is_commutative(n as int, Q20_CAP as int);
        vstd::arithmetic::div_mod::lemma_multiply_divide_le(
            sum as int,
            n as int,
            Q20_CAP as int,
        );
    }
    let mut sq: u128 = 0;
    let mut j: usize = 0;
    while j < n
        invariant
            j <= n == scores@.len(),
            forall|w: int| 0 <= w < scores@.len() ==> (#[trigger] scores@[w]).wf(),
            mean <= Q20_CAP,
            sq == spec_sum_sq_scores(scores@, j as int, mean as int),
            sq <= j as int * 0x100000000000000int,  // 2^56 = (2^28)^2
        decreases n - j,
    {
        proof {
            assert((j + 1) as int * 0x100000000000000int == j as int * 0x100000000000000int
                + 0x100000000000000int) by {
                vstd::arithmetic::mul::lemma_mul_is_distributive_add_other_way(
                    0x100000000000000int,
                    j as int,
                    1,
                );
            }
            vstd::arithmetic::mul::lemma_mul_inequality(
                (j + 1) as int,
                0x10000000000000000int,
                0x100000000000000int,
            );
        }
        let q = scores[j].to_q20() as u128;
        let d: u128 = if q >= mean {
            q - mean
        } else {
            mean - q
        };
        proof {
            vstd::arithmetic::mul::lemma_mul_upper_bound(
                d as int,
                0x10000000int,
                d as int,
                0x10000000int,
            );
            vstd::arithmetic::mul::lemma_mul_nonnegative(d as int, d as int);
        }
        sq = sq + d * d;
        j = j + 1;
    }
    (mean, sq)
}

/// What the confidence interval reports: mean plus and minus
/// `z(confidence)` times the sample standard error, all on the `Q20`
/// scale. A single score has no sample variance and yields a
/// zero-width interval.
pub open spec fn spec_confidence_interval(scores: Seq<Frac>, confidence: Frac) -> (Frac, Frac) {
    let n = scores.len() as int;
    let mean = spec_sum_scores(scores, n) / n;
    let var = if n >= 2 {
        spec_sum_sq_scores(scores, n, mean) / (n - 1)
    } else {
        0
    };
    let std = spec_isqrt(var);
    let sqrt_n = spec_isqrt(n * 0x10000000000);
    let se = if sqrt_n >= 1 {
        std * Q20 as int / sqrt_n
    } else {
        0
    };
    let c = confidence.spec_to_q20();
    let c1 = if c > Q20 as int {
        Q20 as int
    } else {
        c
    };
    let z = spec_normal_quantile((Q20 as int + c1) / 2);
    let margin = z * se / Q20 as int;
    (
        Frac { num: (mean - margin) as i128, den: Q20 as i128 },
        Frac { num: (mean + margin) as i128, den: Q20 as i128 },
    )
}

/// Confidence interval for the mean of a score vector, by the normal
/// quantile approximation. Empty input yields `(0, 0)`.
pub fn confidence_interval(scores: &Vec<Frac>, confidence: Frac) -> (r: (Frac, Frac))
    requires
        confidence.wf(),
        forall|i: int| 0 <= i < scores@.len() ==> (#[trigger] scores@[i]).wf(),
    ensures
        scores@.len() == 0 ==> r == (Frac { num: 0, den: 1 }, Frac { num: 0, den: 1 }),
        scores@.len() >= 1 ==> r == spec_confidence_interval(scores@, confidence),
        r.0.wf(),
        r.1.wf(),
        r.0.spec_value_le(r.1),
{
    let n = scores.len();
    if n == 0 {
        return (Frac::new(0, 1), Frac::new(0, 1));
    }
    let m = score_moments(scores);
    let mean = m.0;
    let var: u128 = if n >= 2 {
        m.1 / ((n - 1) as u128)
    } else {
        0
    };
    proof {
        if n >= 2 {
            vstd::arithmetic::div_mod::lemma_div_pos_is_pos(m.1 as int, (n - 1) as int);
        }
    }
    let std = isqrt_spec(var);
    let sqrt_n = isqrt_spec((n as u128) * 0x10000000000);
    proof {
        vstd::arithmetic::mul::lemma_mul_nonnegative(n as int, 0x10000000000int);
        vstd::arithmetic::mul::lemma_mul_upper_bound(
            std as int,
            0xFFFFFFFFFFFFFFFFint,
            Q20 as int,
            Q20 as int,
        );
        vstd::arithmetic::mul::lemma_mul_nonnegative(std as int, Q20 as int);
    }
    let se: u128 = if sqrt_n >= 1 {
        proof {
            vstd::arithmetic::div_mod::lemma_div_pos_is_pos(
                (std as int) * (Q20 as int),
                sqrt_n as int,
            );
            vstd::arithmetic::div_mod::lemma_div_is_ordered_by_denominator(
                (std as int) * (Q20 as int),
                1,
                sqrt_n as int,
            );
        }
        std * (Q20 as u128) / sqrt_n
    } else {
        0
    };
    assert(se <= 0x1000000000000000000000u128);
    let c = confidence.to_q20();
    let c1: i128 = if c > Q20 {
        Q20
    } else {
        c
    };
    let z = normal_quantile_q20(((Q20 + c1) / 2) as u128);
    proof {
        vstd::arithmetic::mul::lemma_mul_nonnegative(z as int, se as int);
        vstd::arithmetic::mul::lemma_mul_upper_bound(
            z as int,
            0x4000000int,
            se as int,
            0x1000000000000000000000int,
        );
        vstd::arithmetic::div_mod::lemma_div_pos_is_pos((z as int) * (se as int), Q20 as int);
        vstd::arithmetic::div_mod::lemma_div_is_ordered_by_denominator(
            (z as int) * (se as int),
            1,
            Q20 as int,
        );
    }
    let margin: u128 = z * se / (Q20 as u128);
    let lower = Frac::new((mean as i128) - (margin as i128), Q20);
    let upper = Frac::new((mean as i128) + (margin as i128), Q20);
    proof {
        vstd::arithmetic::mul::lemma_mul_inequality(
            lower.num as int,
            upper.num as int,
            Q20 as int,
        );
    }
    (lower, upper)
}

/// What Cohen's d reports: the difference of the `Q20` means over the
/// pooled standard deviation `sqrt((var_a + var_b) / 2)`, zero when
/// the pooled deviation vanishes on the grid (or the vectors are
/// empty or too short for a sample variance).
pub open spec fn spec_cohens_d(a: Seq<Frac>, b: Seq<Frac>) -> Frac {
    let n = a.len() as int;
    let mean_a = spec_sum_scores(a, n) / n;
    let mean_b = spec_sum_scores(b, n) / n;
    let var_a = if n >= 2 {
        spec_sum_sq_scores(a, n, mean_a) / (n - 1)
    } else {
        0
    };
    let var_b = if n >= 2 {
        spec_sum_sq_scores(b, n, mean_b) / (n - 1)
    } else {
        0
    };
    let pooled = spec_isqrt((var_a + var_b) / 2);
    if pooled == 0 {
        Frac { num: 0, den: 1 }
    } else {
        Frac { num: (mean_a - mean_b) as i128, den: pooled as i128 }
    }
}

/// Cohen's d effect size between two equal-length score vectors:
/// standardized difference of the means. Empty input, or a vanishing
/// pooled deviation, yields zero; identical vectors always yield zero.
pub fn cohens_d(method_a: &Vec<Frac>, method_b: &Vec<Frac>) -> (r: Frac)
    requires
        method_a@.len() == method_b@.len(),
        forall|i: int| 0 <= i < method_a@.len() ==> (#[trigger] method_a@[i]).wf(),
        forall|i: int| 0 <= i < method_b@.len() ==> (#[trigger] method_b@[i]).wf(),
    ensures
        method_a@.len() == 0 ==> r.is_zero(),
        method_a@.len() >= 1 ==> r == spec_cohens_d(method_a@, method_b@),
        method_a@ == method_b@ ==> r.is_zero(),
        r.wf(),
{
    let n = method_a.len();
    if n == 0 {
        return Frac::zero();
    }
    let ma = score_moments(method_a);
    let mb = score_moments(method_b);
    let var_a: u128 = if n >= 2 {
        ma.1 / ((n - 1) as u128)
    } else {
        0
    };
    let var_b: u128 = if n >= 2 {
        mb.1 / ((n - 1) as u128)
    } else {
        0
    };
    proof {
        if n >= 2 {
            vstd::arithmetic::div_mod::lemma_div_pos_is_pos(ma.1 as int, (n - 1) as int);
            vstd::arithmetic::div_mod::lemma_div_pos_is_pos(mb.1 as int, (n - 1) as int);
            vstd::arithmetic::div_mod::lemma_div_is_ordered_by_denominator(
                ma.1 as int,
                1,
                (n - 1) as int,
            );
            vstd::arithmetic::div_mod::lemma_div_is_ordered_by_denominator(
                mb.1 as int,
                1,
                (n - 1) as int,
            );
        }
        vstd::arithmetic::mul::lemma_mul_inequality(
            n as int,
            0x10000000000000000int,
            0x100000000000000int,
        );
    }
    let pooled = isqrt_spec((var_a + var_b) / 2);
    if pooled == 0 {
        return Frac::zero();
    }
    Frac::new((ma.0 as i128) - (mb.0 as i128), pooled as i128)
}

} // verus!
