//! Fixed-point numeric kernel.
//!
//! Rank discounting needs a binary logarithm and the significance tests
//! need a square root; neither is rational, so this module computes both
//! deterministically in integer fixed point. `log2_q48` carries 48
//! fractional bits, enough that the discounted-gain metrics agree with a
//! real-valued evaluation to well below any published score precision.

use vstd::prelude::*;
use vstd::arithmetic::power2::pow2;

verus! {

/// 2^48, the fixed-point scale of the binary logarithm.
pub const Q48: u128 = 0x1000000000000;

/// 2^63: mantissas are normalized into `[2^63, 2^64)`.
pub const P63: u128 = 0x8000000000000000;

/// 2^64.
pub const P64: u128 = 0x10000000000000000;

/// 2^96, the dividend used to invert a `Q48` logarithm into a discount.
pub const P96: u128 = 0x1000000000000000000000000;

/// Doubling phase of mantissa normalization: shift `m` up into
/// `[2^63, 2^64)`, decrementing the exponent once per doubling.
pub open spec fn spec_norm_up(m: int, e: int) -> (int, int)
    decreases P64 - m
        when 0 < m
{
    if 0 < m && m < P63 {
        spec_norm_up(2 * m, e - 1)
    } else {
        (m, e)
    }
}

/// Halving phase of mantissa normalization: shift `m` down below 2^64,
/// incrementing the exponent once per halving.
pub open spec fn spec_norm_down(m: int, e: int) -> (int, int)
    decreases m
        when m >= 0
{
    if m >= P64 {
        spec_norm_down(m / 2, e + 1)
    } else {
        (m, e)
    }
}

/// One fractional bit of the logarithm per step: square the normalized
/// mantissa; if it crosses 2^64 the next bit is 1 and the mantissa is
/// halved back into range.
pub open spec fn spec_frac_bits(m: int, acc: int, steps: nat) -> int
    decreases steps
{
    if steps == 0 {
        acc
    } else {
        let sq = (m * m) / P63 as int;
        if sq >= P64 {
            spec_frac_bits(sq / 2, 2 * acc + 1, (steps - 1) as nat)
        } else {
            spec_frac_bits(sq, 2 * acc, (steps - 1) as nat)
        }
    }
}

/// The binary logarithm of `n`, in `Q48` fixed point, as computed by
/// [`log2_q48`]: exponent from normalization, 48 fractional bits from
/// repeated squaring.
pub open spec fn spec_log2_q48(n: int) -> int {
    let up = spec_norm_up(n, 63);
    let down = spec_norm_down(up.0, up.1);
    down.1 * Q48 as int + spec_frac_bits(down.0, 0, 48)
}

/// Binary logarithm in `Q48` fixed point.
///
/// For powers of two the result is exact; in particular `log2_q48(2)`
/// is exactly `Q48`, so the discount of the top rank is exactly one.
pub fn log2_q48(n: u128) -> (r: u128)
    requires
        n >= 2,
    ensures
        r == spec_log2_q48(n as int),
        Q48 <= r < 0x200000000000000,  // below 512 * Q48
{
    let mut m: u128 = n;
    let mut e: u32 = 63;
    proof {
        vstd::arithmetic::power2::lemma2_to64();
    }
    while m < P63
        invariant
            1 <= e <= 63,
            2 <= m,
            m >= pow2((64 - e) as nat),
            e <= 62 ==> m < P64,
            e == 63 ==> m == n,
            spec_norm_up(m as int, e as int) == spec_norm_up(n as int, 63),
        decreases P64 - m,
    {
        proof {
            if e == 1 {
                vstd::arithmetic::power2::lemma2_to64_rest();
                assert(pow2(63) == P63);
                assert(false);
            }
            vstd::arithmetic::power2::lemma_pow2_unfold((64 - (e - 1)) as nat);
        }
        m = m * 2;
        e = e - 1;
    }
    while m >= P64
        invariant
            1 <= e <= 129,
            P63 <= m,
            e <= 62 ==> m < P64,
            e == 63 ==> m == n,
            e >= 64 ==> m as int * pow2((e - 63) as nat) <= n as int,
            spec_norm_down(m as int, e as int) == spec_norm_down(
                spec_norm_up(n as int, 63).0,
                spec_norm_up(n as int, 63).1,
            ),
        decreases m,
    {
        proof {
            assert(e >= 63);
            assert(e <= 127) by {
                if e >= 128 {
                    vstd::arithmetic::power2::lemma_pow2_pos((e - 63) as nat);
                    vstd::arithmetic::mul::lemma_mul_inequality(
                        P64 as int,
                        m as int,
                        pow2((e - 63) as nat) as int,
                    );
                    vstd::arithmetic::power2::lemma_pow2_adds(64, (e - 63) as nat);
                    vstd::arithmetic::power2::lemma2_to64();
                    vstd::arithmetic::power2::lemma_pow2_adds(64, 64);
                    assert(0x10000000000000000 * 0x10000000000000000int
                        == 0x100000000000000000000000000000000int) by (nonlinear_arith);
                    vstd::arithmetic::power2::lemma_pow2_strictly_increases(
                        128,
                        (64 + (e - 63)) as nat,
                    );
                    assert(false);
                }
            }
        }
        let ghost old_m: int = m as int;
        let ghost old_e: int = e as int;
        m = m / 2;
        e = e + 1;
        proof {
            vstd::arithmetic::power2::lemma_pow2_unfold((old_e + 1 - 63) as nat);
            if old_e == 63 {
                assert(m as int * pow2(1) <= n as int) by {
                    vstd::arithmetic::power2::lemma2_to64();
                }
            } else {
                assert((old_m / 2) * pow2((old_e + 1 - 63) as nat) <= old_m * pow2(
                    (old_e - 63) as nat,
                )) by {
                    vstd::arithmetic::mul::lemma_mul_is_associative(
                        old_m / 2,
                        2,
                        pow2((old_e - 63) as nat) as int,
                    );
                    vstd::arithmetic::mul::lemma_mul_is_commutative(
                        2,
                        pow2((old_e - 63) as nat) as int,
                    );
                    vstd::arithmetic::mul::lemma_mul_inequality(
                        (old_m / 2) * 2,
                        old_m,
                        pow2((old_e - 63) as nat) as int,
                    );
                }
            }
        }
    }
    let ghost m0: int = m as int;
    let mut acc: u64 = 0;
    let mut j: u32 = 0;
    proof {
        vstd::arithmetic::power2::lemma2_to64();
    }
    while j < 48
        invariant
            j <= 48,
            P63 <= m < P64,
            acc < pow2(j as nat),
            spec_frac_bits(m as int, acc as int, (48 - j) as nat) == spec_frac_bits(m0, 0, 48),
        decreases 48 - j,
    {
        proof {
            vstd::arithmetic::power2::lemma2_to64_rest();
            if j < 47 {
                vstd::arithmetic::power2::lemma_pow2_strictly_increases(j as nat, 47);
            }
            assert(acc < pow2(47));
            vstd::arithmetic::mul::lemma_mul_upper_bound(
                m as int,
                (P64 - 1) as int,
                m as int,
                (P64 - 1) as int,
            );
            vstd::arithmetic::mul::lemma_mul_inequality(P63 as int, m as int, m as int);
            vstd::arithmetic::mul::lemma_mul_left_inequality(P63 as int, P63 as int, m as int);
            assert(((P64 - 1) as int) * ((P64 - 1) as int) < (P63 as int)
                * 0x20000000000000000int) by (nonlinear_arith);
            vstd::arithmetic::div_mod::lemma_div_is_ordered(
                (P63 * P63) as int,
                (m * m) as int,
                P63 as int,
            );
            vstd::arithmetic::div_mod::lemma_div_by_multiple(P63 as int, P63 as int);
            vstd::arithmetic::div_mod::lemma_multiply_divide_lt(
                (m * m) as int,
                P63 as int,
                0x20000000000000000,
            );
            vstd::arithmetic::power2::lemma_pow2_unfold((j + 1) as nat);
        }
        let sq: u128 = (m * m) / P63;
        if sq >= P64 {
            m = sq / 2;
            acc = acc * 2 + 1;
        } else {
            m = sq;
            acc = acc * 2;
        }
        j = j + 1;
    }
    proof {
        vstd::arithmetic::power2::lemma2_to64_rest();
        assert(acc < 0x1000000000000);
    }
    (e as u128) * Q48 + (acc as u128)
}

/// The rank discount `1 / log2(i + 2)` in `Q48` fixed point, as computed
/// by [`disc_q48`].
pub open spec fn spec_disc_q48(i: int) -> int {
    P96 as int / spec_log2_q48(i + 2)
}

/// The discount applied to rank position `i` (0-based): the fixed-point
/// reciprocal of `log2(i + 2)`. Position 0 gets exactly `Q48`, i.e. 1.
pub fn disc_q48(i: usize) -> (r: u128)
    ensures
        r == spec_disc_q48(i as int),
        1 <= r <= Q48,
{
    let l: u128 = log2_q48(i as u128 + 2);
    proof {
        vstd::arithmetic::div_mod::lemma_div_is_ordered_by_denominator(
            P96 as int,
            Q48 as int,
            l as int,
        );
        vstd::arithmetic::div_mod::lemma_div_is_ordered_by_denominator(
            P96 as int,
            l as int,
            0x200000000000000,
        );
        assert(P96 / 0x200000000000000 >= 1);
        assert(P96 / Q48 == 0x1000000000000);
    }
    P96 / l
}

/// The fractional bits lie in `[acc * 2^steps, (acc + 1) * 2^steps)`.
pub proof fn lemma_frac_bits_range(m: int, acc: int, steps: nat)
    ensures
        acc * pow2(steps) <= spec_frac_bits(m, acc, steps) < (acc + 1) * pow2(steps),
    decreases steps
{
    vstd::arithmetic::power2::lemma_pow2_pos(steps);
    if steps == 0 {
        vstd::arithmetic::power2::lemma2_to64();
        assert(acc * pow2(0) == acc) by {
            vstd::arithmetic::mul::lemma_mul_basics(acc);
        }
        assert((acc + 1) * pow2(0) == acc + 1) by {
            vstd::arithmetic::mul::lemma_mul_basics(acc + 1);
        }
    } else {
        let sq = (m * m) / P63 as int;
        vstd::arithmetic::power2::lemma_pow2_unfold(steps);
        if sq >= P64 {
            lemma_frac_bits_range(sq / 2, 2 * acc + 1, (steps - 1) as nat);
            assert((2 * acc + 1) * pow2((steps - 1) as nat) >= acc * pow2(steps)) by (
            nonlinear_arith)
                requires
                    pow2(steps) == 2 * pow2((steps - 1) as nat),
                    pow2((steps - 1) as nat) > 0,
            ;
            assert((2 * acc + 2) * pow2((steps - 1) as nat) <= (acc + 1) * pow2(steps)) by (
            nonlinear_arith)
                requires
                    pow2(steps) == 2 * pow2((steps - 1) as nat),
                    pow2((steps - 1) as nat) > 0,
            ;
        } else {
            lemma_frac_bits_range(sq, 2 * acc, (steps - 1) as nat);
            assert((2 * acc) * pow2((steps - 1) as nat) == acc * pow2(steps)) by (
            nonlinear_arith)
                requires
                    pow2(steps) == 2 * pow2((steps - 1) as nat),
            ;
            assert((2 * acc + 1) * pow2((steps - 1) as nat) <= (acc + 1) * pow2(steps)) by (
            nonlinear_arith)
                requires
                    pow2(steps) == 2 * pow2((steps - 1) as nat),
                    pow2((steps - 1) as nat) > 0,
            ;
        }
    }
}

/// The fractional bits grow with the mantissa.
pub proof fn lemma_frac_bits_mono(m1: int, m2: int, acc: int, steps: nat)
    requires
        0 <= m1 <= m2,
    ensures
        spec_frac_bits(m1, acc, steps) <= spec_frac_bits(m2, acc, steps),
    decreases steps
{
    if steps > 0 {
        let sq1 = (m1 * m1) / P63 as int;
        let sq2 = (m2 * m2) / P63 as int;
        assert(m1 * m1 <= m2 * m2) by (nonlinear_arith)
            requires
                0 <= m1 <= m2,
        ;
        vstd::arithmetic::div_mod::lemma_div_is_ordered(m1 * m1, m2 * m2, P63 as int);
        vstd::arithmetic::mul::lemma_mul_nonnegative(m1, m1);
        vstd::arithmetic::div_mod::lemma_div_pos_is_pos(m1 * m1, P63 as int);
        if sq1 >= P64 && sq2 >= P64 {
            vstd::arithmetic::div_mod::lemma_div_is_ordered(sq1, sq2, 2);
            lemma_frac_bits_mono(sq1 / 2, sq2 / 2, 2 * acc + 1, (steps - 1) as nat);
        } else if sq1 < P64 && sq2 < P64 {
            lemma_frac_bits_mono(sq1, sq2, 2 * acc, (steps - 1) as nat);
        } else {
            // the bits diverge here: the smaller side can never catch up
            lemma_frac_bits_range(sq1, 2 * acc, (steps - 1) as nat);
            lemma_frac_bits_range(sq2 / 2, 2 * acc + 1, (steps - 1) as nat);
        }
    }
}

/// The doubling phase never raises the exponent.
pub proof fn lemma_norm_up_e_le(m: int, e: int)
    requires
        0 < m,
    ensures
        spec_norm_up(m, e).1 <= e,
    decreases (if 0 < m <= P63 { P64 - m } else { 0 })
{
    if 0 < m && m < P63 {
        lemma_norm_up_e_le(2 * m, e - 1);
    }
}

/// The doubling phase lands in `[2^63, 2^64)` whenever it starts
/// positive and below 2^64.
pub proof fn lemma_norm_up_in_range(m: int, e: int)
    requires
        0 < m < P64,
    ensures
        P63 <= spec_norm_up(m, e).0 < P64,
    decreases (if 0 < m <= P63 { P64 - m } else { 0 })
{
    if m < P63 {
        lemma_norm_up_in_range(2 * m, e - 1);
    }
}

/// With at least two in the mantissa and the usual starting exponent,
/// the doubling phase keeps the exponent at one or above (the mirror
/// of the executable loop's invariant `m >= 2^(64 - e)`).
pub proof fn lemma_norm_up_e_pos(m: int, e: int)
    requires
        1 <= e <= 63,
        m >= pow2((64 - e) as nat),
    ensures
        spec_norm_up(m, e).1 >= 1,
    decreases (if 0 < m <= P63 { P64 - m } else { 0 })
{
    vstd::arithmetic::power2::lemma_pow2_pos((64 - e) as nat);
    if 0 < m && m < P63 {
        if e == 1 {
            vstd::arithmetic::power2::lemma2_to64_rest();
            assert(pow2(63) == P63);
            assert(false);
        }
        vstd::arithmetic::power2::lemma_pow2_unfold((64 - (e - 1)) as nat);
        lemma_norm_up_e_pos(2 * m, e - 1);
    }
}

/// The doubling phase is monotone: a larger start either ends with a
/// larger exponent, or the same exponent and a mantissa at least as
/// large.
pub proof fn lemma_norm_up_mono(m1: int, m2: int, e: int)
    requires
        0 < m1 <= m2,
    ensures
        spec_norm_up(m1, e).1 < spec_norm_up(m2, e).1 || (spec_norm_up(m1, e).1 == spec_norm_up(
            m2,
            e,
        ).1 && spec_norm_up(m1, e).0 <= spec_norm_up(m2, e).0),
    decreases (if 0 < m1 <= P63 { P64 - m1 } else { 0 })
{
    if m1 < P63 && m2 < P63 {
        lemma_norm_up_mono(2 * m1, 2 * m2, e - 1);
    } else if m1 < P63 {
        // m2 stops here with exponent e; m1 keeps doubling below it
        lemma_norm_up_e_le(2 * m1, e - 1);
    }
}

/// The fixed-point logarithm is at least `Q48` for arguments of two
/// or more (used to keep the discounts well-defined and at most one).
pub proof fn lemma_log2_lower(n: int)
    requires
        2 <= n < P64,
    ensures
        Q48 as int <= spec_log2_q48(n),
{
    vstd::arithmetic::power2::lemma2_to64();
    assert(n >= pow2(1));
    lemma_norm_up_e_pos(n, 63);
    lemma_norm_up_in_range(n, 63);
    let up = spec_norm_up(n, 63);
    assert(spec_norm_down(up.0, up.1) == up);
    lemma_frac_bits_range(up.0, 0, 48);
    assert(0 * pow2(48) == 0) by {
        vstd::arithmetic::mul::lemma_mul_basics(pow2(48) as int);
    }
    vstd::arithmetic::mul::lemma_mul_inequality(1, up.1, Q48 as int);
    vstd::arithmetic::mul::lemma_mul_is_commutative(up.1, Q48 as int);
}

/// The fixed-point logarithm is monotone (below 2^64, which covers
/// every rank discount).
pub proof fn lemma_log2_mono(n1: int, n2: int)
    requires
        2 <= n1 <= n2 < P64,
    ensures
        spec_log2_q48(n1) <= spec_log2_q48(n2),
{
    vstd::arithmetic::power2::lemma2_to64();
    lemma_norm_up_in_range(n1, 63);
    lemma_norm_up_in_range(n2, 63);
    lemma_norm_up_e_pos(n1, 63);
    lemma_norm_up_e_pos(n2, 63);
    lemma_norm_up_mono(n1, n2, 63);
    let u1 = spec_norm_up(n1, 63);
    let u2 = spec_norm_up(n2, 63);
    assert(spec_norm_down(u1.0, u1.1) == u1);
    assert(spec_norm_down(u2.0, u2.1) == u2);
    lemma_frac_bits_range(u1.0, 0, 48);
    lemma_frac_bits_range(u2.0, 0, 48);
    assert(0 * pow2(48) == 0) by {
        vstd::arithmetic::mul::lemma_mul_basics(pow2(48) as int);
    }
    assert(1 * pow2(48) == pow2(48)) by {
        vstd::arithmetic::mul::lemma_mul_basics(pow2(48) as int);
    }
    vstd::arithmetic::power2::lemma2_to64_rest();
    if u1.1 < u2.1 {
        // a whole exponent step dominates any fractional part
        assert(u1.1 * Q48 as int + Q48 as int <= u2.1 * Q48 as int) by (nonlinear_arith)
            requires
                u1.1 < u2.1,
        ;
    } else {
        lemma_frac_bits_mono(u1.0, u2.0, 0, 48);
        vstd::arithmetic::mul::lemma_mul_is_commutative(u1.1, Q48 as int);
    }
}

/// Rank discounts never grow with the position.
pub proof fn lemma_disc_antitone(i: int, j: int)
    requires
        0 <= j <= i,
        i + 2 < P64,
    ensures
        spec_disc_q48(i) <= spec_disc_q48(j),
{
    lemma_log2_mono(j + 2, i + 2);
    lemma_log2_lower(j + 2);
    vstd::arithmetic::div_mod::lemma_div_is_ordered_by_denominator(
        P96 as int,
        spec_log2_q48(j + 2),
        spec_log2_q48(i + 2),
    );
}

/// Rank discounts are non-negative (and at most `Q48`).
pub proof fn lemma_disc_bounds(i: int)
    requires
        0 <= i,
        i + 2 < P64,
    ensures
        0 <= spec_disc_q48(i) <= Q48,
{
    lemma_log2_lower(i + 2);
    vstd::arithmetic::div_mod::lemma_div_pos_is_pos(P96 as int, spec_log2_q48(i + 2));
    vstd::arithmetic::div_mod::lemma_div_is_ordered_by_denominator(
        P96 as int,
        Q48 as int,
        spec_log2_q48(i + 2),
    );
    assert(P96 as int / Q48 as int == Q48) by (nonlinear_arith);
}

/// What [`isqrt_u128`] returns: the floor of the square root.
pub open spec fn spec_is_isqrt(x: int, r: int) -> bool {
    &&& r * r <= x
    &&& x < (r + 1) * (r + 1)
}

/// Integer square root, rounding down.
pub fn isqrt_u128(x: u128) -> (r: u128)
    ensures
        spec_is_isqrt(x as int, r as int),
        r < P64,
{
    let mut r: u128 = 0;
    let mut p: u128 = P64;
    let mut b: u32 = 64;
    proof {
        vstd::arithmetic::power2::lemma2_to64();
        assert((0 + P64 as int) * (0 + P64 as int) > u128::MAX as int) by (nonlinear_arith);
    }
    while b > 0
        invariant
            p == pow2(b as nat),
            b <= 64,
            r * r <= x,
            x < (r + p) * (r + p),
            r + p <= P64,
        decreases b,
    {
        proof {
            vstd::arithmetic::power2::lemma_pow2_unfold(b as nat);
            vstd::arithmetic::power2::lemma_pow2_pos((b - 1) as nat);
        }
        let half: u128 = p / 2;
        let cand: u128 = r + half;
        proof {
            vstd::arithmetic::mul::lemma_mul_upper_bound(
                cand as int,
                (P64 - 1) as int,
                cand as int,
                (P64 - 1) as int,
            );
        }
        if cand * cand <= x {
            r = cand;
        }
        p = half;
        b = b - 1;
    }
    proof {
        vstd::arithmetic::power2::lemma2_to64();
    }
    r
}

} // verus!
