//! Exact rational values.
//!
//! Every metric in this crate reports its result as a [`Frac`]: an exact
//! fraction of two 128-bit integers. Ratios of counts (precision, recall,
//! reciprocal ranks) are represented exactly; logarithm-based quantities
//! (DCG and friends) carry a fixed-point numerator over a fixed-point
//! denominator, so that equalities such as "a perfect ranking scores 1"
//! hold exactly rather than up to rounding.

use vstd::prelude::*;

verus! {

/// The common fixed-point scale (2^20) used when a `Frac` is flattened
/// for aggregation and significance testing.
pub const Q20: i128 = 0x100000;

/// Largest fixed-point value `to_q20` will report: 256 on the `Q20` scale.
/// Metric scores live in `[0, 1]`, so the cap is never reached for them;
/// it only bounds the arithmetic for arbitrary caller-supplied fractions.
pub const Q20_CAP: i128 = 0x10000000;

/// An exact fraction `num / den` with `den >= 1`.
///
/// Two `Frac`s are `==` when they have the same numerator and denominator;
/// use [`Frac::spec_value_eq`] in specifications to compare the represented
/// values (`1/2` and `2/4` are value-equal but not structurally equal).
#[derive(Clone, Copy, Debug, PartialEq, Eq, Structural)]
pub struct Frac {
    pub num: i128,
    pub den: i128,
}

impl Frac {
    /// Well-formed: the denominator is positive.
    pub open spec fn wf(self) -> bool {
        self.den >= 1
    }

    /// The represented value is exactly zero.
    pub open spec fn is_zero(self) -> bool {
        self.num == 0
    }

    /// The represented value is exactly one.
    pub open spec fn is_one(self) -> bool {
        self.num == self.den
    }

    /// The represented value lies in the closed unit interval `[0, 1]`.
    pub open spec fn in_unit(self) -> bool {
        0 <= self.num && self.num <= self.den
    }

    /// Value-level `<=` by cross multiplication (for well-formed operands).
    pub open spec fn spec_value_le(self, other: Frac) -> bool {
        self.num * other.den <= other.num * self.den
    }

    /// Value-level equality by cross multiplication (for well-formed operands).
    pub open spec fn spec_value_eq(self, other: Frac) -> bool {
        self.num * other.den == other.num * self.den
    }

    /// The exact fraction zero.
    pub fn zero() -> (r: Frac)
        ensures
            r.wf(),
            r.is_zero(),
            r.in_unit(),
            r == (Frac { num: 0, den: 1 }),
    {
        Frac { num: 0, den: 1 }
    }

    /// The exact fraction one.
    pub fn one() -> (r: Frac)
        ensures
            r.wf(),
            r.is_one(),
            r.in_unit(),
            r == (Frac { num: 1, den: 1 }),
    {
        Frac { num: 1, den: 1 }
    }

    /// An arbitrary fraction with a positive denominator.
    pub fn new(num: i128, den: i128) -> (r: Frac)
        requires
            den >= 1,
        ensures
            r.wf(),
            r == (Frac { num, den }),
    {
        Frac { num, den }
    }

    /// What [`Frac::to_q20`] returns: the value flattened to `Q20` fixed
    /// point, truncated, clamped to `[0, Q20_CAP]`. Denominators of 2^100
    /// or more are first rescaled by `Q20`, which loses only precision
    /// below the fixed-point grid.
    pub open spec fn spec_to_q20(self) -> int {
        if self.num <= 0 {
            0
        } else {
            let shrink = self.den >= 0x10000000000000000000000000i128;
            let n: int = if shrink { self.num as int / Q20 as int } else { self.num as int };
            let d: int = if shrink { self.den as int / Q20 as int } else { self.den as int };
            if n / d >= 256 {
                Q20_CAP as int
            } else {
                (n / d) * (Q20 as int) + (n % d) * (Q20 as int) / d
            }
        }
    }

    /// Flatten to the common `Q20` fixed-point scale: truncating, and
    /// clamped to `Q20_CAP` so the conversion is total.
    pub fn to_q20(self) -> (r: i128)
        requires
            self.wf(),
        ensures
            r == self.spec_to_q20(),
            0 <= r <= Q20_CAP,
    {
        if self.num <= 0 {
            return 0;
        }
        let mut n: i128 = self.num;
        let mut d: i128 = self.den;
        if d >= 0x10000000000000000000000000i128 {
            proof {
                vstd::arithmetic::div_mod::lemma_div_pos_is_pos(n as int, Q20 as int);
                vstd::arithmetic::div_mod::lemma_div_is_ordered(
                    0x10000000000000000000000000i128 as int,
                    d as int,
                    Q20 as int,
                );
                vstd::arithmetic::div_mod::lemma_div_is_ordered(
                    d as int,
                    i128::MAX as int,
                    Q20 as int,
                );
            }
            n = n / Q20;
            d = d / Q20;
        }
        // In both branches the denominator stays below 2^107.
        assert(d <= 0x7FFFFFFFFFFFFFFFFFFFFFFFFFFi128);
        proof {
            vstd::arithmetic::div_mod::lemma_div_pos_is_pos(n as int, d as int);
        }
        if n / d >= 256 {
            return Q20_CAP;
        }
        let w: i128 = n / d;
        let rem: i128 = n % d;
        proof {
            vstd::arithmetic::div_mod::lemma_mod_division_less_than_divisor(n as int, d as int);
            // d stays below 2^107, so rem * Q20 stays below 2^127.
            vstd::arithmetic::mul::lemma_mul_inequality(
                rem as int,
                0x7FFFFFFFFFFFFFFFFFFFFFFFFFEi128 as int,
                Q20 as int,
            );
            vstd::arithmetic::mul::lemma_mul_nonnegative(rem as int, Q20 as int);
            vstd::arithmetic::div_mod::lemma_div_pos_is_pos(rem * Q20, d as int);
            // rem * Q20 < d * Q20 gives (rem * Q20) / d < Q20.
            vstd::arithmetic::mul::lemma_mul_strict_inequality(rem as int, d as int, Q20 as int);
            vstd::arithmetic::mul::lemma_mul_is_commutative(d as int, Q20 as int);
            vstd::arithmetic::div_mod::lemma_multiply_divide_lt(rem * Q20, d as int, Q20 as int);
            vstd::arithmetic::mul::lemma_mul_inequality(w as int, 255, Q20 as int);
        }
        w * Q20 + rem * Q20 / d
    }
}

/// A fraction no greater than one flattens to at most `Q20`.
pub proof fn lemma_to_q20_le_unit(f: Frac)
    requires
        f.wf(),
        f.num <= f.den,
    ensures
        f.spec_to_q20() <= Q20,
{
    if f.num > 0 {
        let shrink = f.den >= 0x10000000000000000000000000i128;
        let n: int = if shrink { f.num as int / Q20 as int } else { f.num as int };
        let d: int = if shrink { f.den as int / Q20 as int } else { f.den as int };
        if shrink {
            vstd::arithmetic::div_mod::lemma_div_is_ordered(
                f.num as int,
                f.den as int,
                Q20 as int,
            );
            vstd::arithmetic::div_mod::lemma_div_pos_is_pos(f.num as int, Q20 as int);
            vstd::arithmetic::div_mod::lemma_div_is_ordered(
                0x10000000000000000000000000int,
                f.den as int,
                Q20 as int,
            );
        }
        vstd::arithmetic::div_mod::lemma_div_is_ordered(n, d, d);
        assert(d / d == 1) by {
            vstd::arithmetic::div_mod::lemma_div_by_self(d);
        }
        vstd::arithmetic::div_mod::lemma_div_pos_is_pos(n, d);
        if n / d == 1 {
            vstd::arithmetic::div_mod::lemma_fundamental_div_mod(n, d);
            vstd::arithmetic::div_mod::lemma_mod_division_less_than_divisor(n, d);
            assert(n % d == n - d);
            assert(n % d == 0);
        } else {
            assert(n / d == 0);
            vstd::arithmetic::div_mod::lemma_mod_division_less_than_divisor(n, d);
            vstd::arithmetic::mul::lemma_mul_strict_inequality(n % d, d, Q20 as int);
            vstd::arithmetic::mul::lemma_mul_is_commutative(d, Q20 as int);
            vstd::arithmetic::div_mod::lemma_multiply_divide_lt((n % d) * Q20, d, Q20 as int);
            vstd::arithmetic::mul::lemma_mul_nonnegative(n % d, Q20 as int);
            vstd::arithmetic::div_mod::lemma_div_pos_is_pos((n % d) * Q20, d);
        }
    }
}

} // verus!
