//! Exact decimal scores.
//!
//! A run line's score is kept as the exact decimal value written in the
//! file: a sign, a mantissa of up to 19 significant digits, and a decimal
//! exponent. Values whose magnitude would overflow a 32-bit binary float
//! are rejected at parse time, as the run format demands; everything else
//! is stored and compared exactly, with no rounding to binary.

use vstd::prelude::*;
use vstd::arithmetic::power::pow;

verus! {

/// Largest magnitude a score may exceed: decimal values at or above
/// 2^128 - 2^103 are what a 32-bit float rounds to infinity.
pub const SCORE_LIMIT: u128 = 340282356779733661637539395458142568448;

/// Mantissas stop growing at 19 digits (10^18): further digits only
/// shift the exponent (integer part) or are dropped (fraction part),
/// far below the precision of any 32-bit float input.
pub const MANT_CAP: u64 = 1000000000000000000;

/// An exact decimal number `(-1)^neg * mant * 10^exp`.
///
/// Normal form: a zero mantissa forces `neg == false` and `exp == 0`;
/// a nonzero mantissa is not divisible by 10. Two well-formed scores
/// are therefore value-equal exactly when they are `==`.
#[derive(Clone, Copy, Debug, PartialEq, Eq, Structural)]
pub struct Score {
    pub neg: bool,
    pub mant: u64,
    pub exp: i128,
}

impl Score {
    /// Normal form (see the type documentation), with the exponent
    /// bounded well inside `i128` so that comparisons cannot overflow.
    pub open spec fn wf(self) -> bool {
        &&& (self.mant == 0 ==> !self.neg && self.exp == 0)
        &&& (self.mant != 0 ==> self.mant % 10 != 0)
        &&& -0x40000000000000000000i128 <= self.exp <= 0x40000000000000000000i128
    }

    /// The magnitude scaled by `10^(-emin)`, an integer when `emin` is
    /// at most the exponent.
    pub open spec fn magnitude(self, emin: int) -> int {
        self.mant * pow(10, (self.exp - emin) as nat)
    }

    /// The signed value scaled by `10^(-emin)`.
    pub open spec fn scaled(self, emin: int) -> int {
        if self.neg {
            -self.magnitude(emin)
        } else {
            self.magnitude(emin)
        }
    }

    /// Exact value order: align both numbers on the smaller exponent
    /// and compare the resulting integers.
    pub open spec fn spec_le(self, other: Score) -> bool {
        let m = if self.exp < other.exp {
            self.exp as int
        } else {
            other.exp as int
        };
        self.scaled(m) <= other.scaled(m)
    }

    /// The score zero.
    pub fn zero() -> (r: Score)
        ensures
            r.wf(),
            r == (Score { neg: false, mant: 0, exp: 0 }),
    {
        Score { neg: false, mant: 0, exp: 0 }
    }
}

/// Number of decimal digits (zero for zero).
pub open spec fn spec_digits(m: int) -> int
    decreases (if m >= 0 { m } else { 0 })
{
    if m <= 0 {
        0
    } else {
        1 + spec_digits(m / 10)
    }
}

/// A positive number with `d` digits lies in `[10^(d-1), 10^d)`.
pub proof fn lemma_digits_nonneg(m: int)
    ensures
        spec_digits(m) >= 0,
        m >= 1 ==> spec_digits(m) >= 1,
    decreases if m >= 0 { m } else { 0 }
{
    if m > 0 {
        lemma_digits_nonneg(m / 10);
    }
}

/// A positive number with `d` digits lies in `[10^(d-1), 10^d)`.
pub proof fn lemma_digits_bounds(m: int)
    requires
        m >= 1,
    ensures
        1 <= spec_digits(m),
        pow(10, (spec_digits(m) - 1) as nat) <= m < pow(10, spec_digits(m) as nat),
    decreases m
{
    vstd::arithmetic::power::lemma_pow0(10);
    vstd::arithmetic::power::lemma_pow1(10);
    if m < 10 {
        assert(spec_digits(m / 10) == 0);
        assert(spec_digits(m) == 1);
    } else {
        let q = m / 10;
        lemma_digits_bounds(q);
        let d = spec_digits(m);
        assert(d == 1 + spec_digits(q));
        vstd::arithmetic::div_mod::lemma_fundamental_div_mod(m, 10);
        vstd::arithmetic::div_mod::lemma_mod_division_less_than_divisor(m, 10);
        vstd::arithmetic::power::lemma_pow_adds(10, (d - 2) as nat, 1);
        vstd::arithmetic::power::lemma_pow_adds(10, (d - 1) as nat, 1);
        assert(pow(10, (d - 1) as nat) == pow(10, (d - 2) as nat) * 10);
        assert(pow(10, d as nat) == pow(10, (d - 1) as nat) * 10);
        assert(pow(10, (d - 2) as nat) * 10 <= q * 10) by (nonlinear_arith)
            requires pow(10, (d - 2) as nat) <= q;
        assert((q + 1) * 10 <= pow(10, (d - 1) as nat) * 10) by (nonlinear_arith)
            requires q + 1 <= pow(10, (d - 1) as nat) as int;
        assert(m >= q * 10);
        assert(m < (q + 1) * 10) by (nonlinear_arith)
            requires m == 10 * q + m % 10, m % 10 < 10;
    }
}

/// Digits of a `u64` never exceed 20.
pub proof fn lemma_digits_u64(m: u64)
    ensures
        0 <= spec_digits(m as int) <= 20,
        m >= 1 ==> 1 <= spec_digits(m as int),
{
    if m >= 1 {
        lemma_digits_bounds(m as int);
        if spec_digits(m as int) > 20 {
            vstd::arithmetic::power::lemma_pow_increases(10, 20, (spec_digits(m as int) - 1) as nat);
            lemma_pow10_20();
        }
    }
}

/// Concrete value of 10^20.
proof fn lemma_pow10_20()
    ensures
        pow(10, 20) == 100000000000000000000,
{
    reveal_with_fuel(pow, 21);
}

/// Count the decimal digits of `m`.
pub fn count_digits(m: u64) -> (d: u32)
    ensures
        d == spec_digits(m as int),
        d <= 20,
{
    let mut d: u32 = 0;
    let mut t: u64 = m;
    proof {
        lemma_digits_u64(m);
    }
    while t > 0
        invariant
            spec_digits(m as int) == d + spec_digits(t as int),
            d <= spec_digits(m as int) <= 20,
        decreases t,
    {
        proof {
            lemma_digits_nonneg(t as int / 10);
        }
        t = t / 10;
        d = d + 1;
    }
    proof {
        lemma_digits_nonneg(t as int);
    }
    d
}

/// `10^e` for `e <= 38`, exactly.
pub fn pow10_u128(e: u32) -> (r: u128)
    requires
        e <= 38,
    ensures
        r == pow(10, e as nat),
        r >= 1,
{
    proof {
        vstd::arithmetic::power::lemma_pow0(10);
    }
    let mut r: u128 = 1;
    let mut i: u32 = 0;
    while i < e
        invariant
            i <= e <= 38,
            r == pow(10, i as nat),
        decreases e - i,
    {
        proof {
            vstd::arithmetic::power::lemma_pow1(10);
            vstd::arithmetic::power::lemma_pow_adds(10, i as nat, 1);
            if i + 1 <= 38 {
                vstd::arithmetic::power::lemma_pow_increases(10, (i + 1) as nat, 38);
            }
            assert(pow(10, 38) == 100000000000000000000000000000000000000) by {
                reveal_with_fuel(pow, 39);
            }
            vstd::arithmetic::power::lemma_pow_positive(10, i as nat);
        }
        r = r * 10;
        i = i + 1;
    }
    proof {
        vstd::arithmetic::power::lemma_pow_positive(10, e as nat);
    }
    r
}

/// The magnitude with the smaller digit-position of its leading digit
/// is strictly smaller: if `a.exp + digits(a) < b.exp + digits(b)` then
/// `a`'s magnitude is below `b`'s, on any common scale `emin` at or
/// below both exponents.
proof fn lemma_magnitude_lt(a: Score, b: Score, emin: int)
    requires
        a.mant >= 1,
        b.mant >= 1,
        emin <= a.exp,
        emin <= b.exp,
        a.exp + spec_digits(a.mant as int) < b.exp + spec_digits(b.mant as int),
    ensures
        a.magnitude(emin) < b.magnitude(emin),
{
    let da = spec_digits(a.mant as int);
    let db = spec_digits(b.mant as int);
    lemma_digits_bounds(a.mant as int);
    lemma_digits_bounds(b.mant as int);
    let pa = pow(10, (a.exp - emin) as nat) as int;
    let pb = pow(10, (b.exp - emin) as nat) as int;
    vstd::arithmetic::power::lemma_pow_positive(10, (a.exp - emin) as nat);
    vstd::arithmetic::power::lemma_pow_positive(10, (b.exp - emin) as nat);
    // a.mant * pa < 10^da * pa = 10^(hi_a - emin)
    vstd::arithmetic::mul::lemma_mul_strict_inequality(
        a.mant as int,
        pow(10, da as nat) as int,
        pa,
    );
    vstd::arithmetic::power::lemma_pow_adds(10, da as nat, (a.exp - emin) as nat);
    // 10^(hi_a - emin) <= 10^(hi_b - 1 - emin)
    vstd::arithmetic::power::lemma_pow_increases(
        10,
        (da + a.exp - emin) as nat,
        (db - 1 + b.exp - emin) as nat,
    );
    // 10^(db-1) * pb <= b.mant * pb
    vstd::arithmetic::mul::lemma_mul_inequality(
        pow(10, (db - 1) as nat) as int,
        b.mant as int,
        pb,
    );
    vstd::arithmetic::power::lemma_pow_adds(10, (db - 1) as nat, (b.exp - emin) as nat);
}

/// Magnitude comparison of two positive scores, exactly.
fn magnitude_le(a: &Score, b: &Score) -> (r: bool)
    requires
        a.wf(),
        b.wf(),
        a.mant >= 1,
        b.mant >= 1,
    ensures
        r == {
            let m = if a.exp < b.exp {
                a.exp as int
            } else {
                b.exp as int
            };
            a.magnitude(m) <= b.magnitude(m)
        },
{
    let da = count_digits(a.mant);
    let db = count_digits(b.mant);
    let hi_a: i128 = a.exp + da as i128;
    let hi_b: i128 = b.exp + db as i128;
    let ghost emin: int = if a.exp < b.exp {
        a.exp as int
    } else {
        b.exp as int
    };
    if hi_a < hi_b {
        proof {
            lemma_magnitude_lt(*a, *b, emin);
        }
        return true;
    }
    if hi_b < hi_a {
        proof {
            lemma_magnitude_lt(*b, *a, emin);
        }
        return false;
    }
    // Same leading digit position: the exponent gap equals the digit
    // gap, at most 19 either way, so both sides fit in 128 bits.
    proof {
        lemma_digits_u64(a.mant);
        lemma_digits_u64(b.mant);
        vstd::arithmetic::power::lemma_pow0(10);
    }
    if a.exp >= b.exp {
        let shift = (a.exp - b.exp) as u32;
        let p = pow10_u128(shift);
        proof {
            assert(pow(10, 19) == 10000000000000000000) by {
                reveal_with_fuel(pow, 20);
            }
            vstd::arithmetic::power::lemma_pow_increases(10, shift as nat, 19);
            vstd::arithmetic::mul::lemma_mul_upper_bound(
                a.mant as int,
                0xFFFFFFFFFFFFFFFFint,
                p as int,
                pow(10, 19) as int,
            );
            vstd::arithmetic::mul::lemma_mul_nonnegative(a.mant as int, p as int);
        }
        (a.mant as u128) * p <= b.mant as u128
    } else {
        let shift = (b.exp - a.exp) as u32;
        let p = pow10_u128(shift);
        proof {
            assert(pow(10, 19) == 10000000000000000000) by {
                reveal_with_fuel(pow, 20);
            }
            vstd::arithmetic::power::lemma_pow_increases(10, shift as nat, 19);
            vstd::arithmetic::mul::lemma_mul_upper_bound(
                b.mant as int,
                0xFFFFFFFFFFFFFFFFint,
                p as int,
                pow(10, 19) as int,
            );
            vstd::arithmetic::mul::lemma_mul_nonnegative(b.mant as int, p as int);
        }
        a.mant as u128 <= (b.mant as u128) * p
    }
}

/// Exact value order on well-formed scores.
pub fn score_le(a: &Score, b: &Score) -> (r: bool)
    requires
        a.wf(),
        b.wf(),
    ensures
        r == a.spec_le(*b),
{
    proof {
        vstd::arithmetic::power::lemma_pow_positive(
            10,
            (a.exp as int - if a.exp < b.exp { a.exp as int } else { b.exp as int }) as nat,
        );
        vstd::arithmetic::power::lemma_pow_positive(
            10,
            (b.exp as int - if a.exp < b.exp { a.exp as int } else { b.exp as int }) as nat,
        );
        let emin: int = if a.exp < b.exp {
            a.exp as int
        } else {
            b.exp as int
        };
        if a.mant >= 1 {
            vstd::arithmetic::mul::lemma_mul_strictly_positive(
                a.mant as int,
                pow(10, (a.exp - emin) as nat) as int,
            );
        }
        if b.mant >= 1 {
            vstd::arithmetic::mul::lemma_mul_strictly_positive(
                b.mant as int,
                pow(10, (b.exp - emin) as nat) as int,
            );
        }
    }
    if a.mant == 0 && b.mant == 0 {
        assert(a.spec_le(*b));
        true
    } else if a.mant == 0 {
        assert(!b.neg ==> a.spec_le(*b));
        assert(b.neg ==> !a.spec_le(*b));
        !b.neg
    } else if b.mant == 0 {
        assert(a.neg ==> a.spec_le(*b));
        assert(!a.neg ==> !a.spec_le(*b));
        a.neg
    } else if a.neg != b.neg {
        assert(a.neg ==> a.spec_le(*b));
        assert(!a.neg ==> !a.spec_le(*b));
        a.neg
    } else if !a.neg {
        let r = magnitude_le(a, b);
        assert(r == a.spec_le(*b));
        r
    } else {
        let r = magnitude_le(b, a);
        assert(r == a.spec_le(*b));
        r
    }
}

/// An ASCII decimal digit.
pub open spec fn spec_is_digit(b: u8) -> bool {
    48 <= b <= 57
}

/// Consume digits from position `i`, accumulating a mantissa. Once the
/// mantissa has reached `MANT_CAP` (19 digits), integer digits only
/// shift the exponent up and fraction digits are dropped; otherwise
/// fraction digits shift the exponent down. Returns the next position,
/// the mantissa and the exponent shift.
pub open spec fn spec_scan_mant(s: Seq<u8>, i: int, mant: int, shift: int, frac: bool) -> (
    int,
    int,
    int,
)
    decreases s.len() - i when 0 <= i <= s.len()
{
    if i < s.len() && spec_is_digit(s[i]) {
        if mant < MANT_CAP {
            spec_scan_mant(
                s,
                i + 1,
                mant * 10 + (s[i] - 48),
                if frac {
                    shift - 1
                } else {
                    shift
                },
                frac,
            )
        } else {
            spec_scan_mant(
                s,
                i + 1,
                mant,
                if frac {
                    shift
                } else {
                    shift + 1
                },
                frac,
            )
        }
    } else {
        (i, mant, shift)
    }
}

/// Consume exponent digits from position `i`, saturating at 10^15
/// (exponents that large are far outside the representable range
/// anyway).
pub open spec fn spec_scan_exp(s: Seq<u8>, i: int, v: int) -> (int, int)
    decreases s.len() - i when 0 <= i <= s.len()
{
    if i < s.len() && spec_is_digit(s[i]) {
        spec_scan_exp(
            s,
            i + 1,
            if v < 1000000000000000 {
                v * 10 + (s[i] - 48)
            } else {
                v
            },
        )
    } else {
        (i, v)
    }
}

/// Strip trailing zero digits, moving them into the exponent.
pub open spec fn spec_strip(m: int, e: int) -> (int, int)
    decreases (if m >= 0 { m } else { 0 })
{
    if m > 0 && m % 10 == 0 {
        spec_strip(m / 10, e + 1)
    } else {
        (m, e)
    }
}

/// Stripping keeps the mantissa positive and un-divisible by 10, and
/// moves the exponent up by at most the number of digits.
pub proof fn lemma_strip(m: int, e: int)
    requires
        m >= 0,
    ensures
        0 <= spec_strip(m, e).0 <= m,
        m > 0 ==> spec_strip(m, e).0 > 0,
        spec_strip(m, e).0 > 0 ==> spec_strip(m, e).0 % 10 != 0,
        e <= spec_strip(m, e).1 <= e + spec_digits(m),
    decreases m
{
    lemma_digits_nonneg(m);
    if m > 0 && m % 10 == 0 {
        vstd::arithmetic::div_mod::lemma_fundamental_div_mod(m, 10);
        lemma_strip(m / 10, e + 1);
    }
}

/// The outcome of reading a score token.
#[derive(Clone, Copy, Debug, PartialEq, Eq, Structural)]
pub enum ScoreParse {
    /// A finite decimal value.
    Value(Score),
    /// Decimal syntax, but outside the finite range of a 32-bit float.
    TooLarge,
    /// Not a plain decimal number (this includes the textual infinity
    /// and not-a-number forms, which the run format rejects anyway).
    Invalid,
}

/// Whether `m * 10^e` (with `m >= 1`) reaches `SCORE_LIMIT`, i.e. is
/// at least 2^128 - 2^103 and would round to a 32-bit infinity. With
/// `hi = e + digits(m)` the value lies in `[10^(hi-1), 10^hi)`, and
/// `10^38 < SCORE_LIMIT < 10^39`, so only `hi == 39` needs the exact
/// comparison.
pub open spec fn spec_too_large(m: int, e: int) -> bool {
    let hi = e + spec_digits(m);
    if hi >= 40 {
        true
    } else if hi <= 38 {
        false
    } else {
        m > (SCORE_LIMIT - 1) as int / pow(10, e as nat)
    }
}

/// Parse a whole token as a decimal score:
/// `sign? (digits ['.' digits*] | '.' digits) (('e'|'E') sign? digits)?`.
/// The token must be consumed entirely; at least one mantissa digit is
/// required; values reaching the 32-bit float overflow threshold are
/// `TooLarge`; anything else is normalized into a well-formed [`Score`].
pub open spec fn spec_parse_score(s: Seq<u8>) -> ScoreParse {
    let n = s.len() as int;
    if n == 0 {
        ScoreParse::Invalid
    } else {
        let neg = s[0] == 45;
        let i1: int = if s[0] == 45 || s[0] == 43 {
            1
        } else {
            0
        };
        let t2 = spec_scan_mant(s, i1, 0, 0, false);
        let has_dot = t2.0 < n && s[t2.0] == 46;
        let t3 = if has_dot {
            spec_scan_mant(s, t2.0 + 1, t2.1, t2.2, true)
        } else {
            t2
        };
        let digit_count = (t2.0 - i1) + if has_dot {
            t3.0 - (t2.0 + 1)
        } else {
            0
        };
        if digit_count <= 0 {
            ScoreParse::Invalid
        } else if t3.0 == n {
            spec_finish_score(neg, t3.1, t3.2)
        } else if s[t3.0] == 101 || s[t3.0] == 69 {
            let eneg = t3.0 + 1 < n && s[t3.0 + 1] == 45;
            let i4: int = if t3.0 + 1 < n && (s[t3.0 + 1] == 45 || s[t3.0 + 1] == 43) {
                t3.0 + 2
            } else {
                t3.0 + 1
            };
            let t5 = spec_scan_exp(s, i4, 0);
            if t5.0 == i4 || t5.0 != n {
                ScoreParse::Invalid
            } else {
                spec_finish_score(
                    neg,
                    t3.1,
                    t3.2 + if eneg {
                        -t5.1
                    } else {
                        t5.1
                    },
                )
            }
        } else {
            ScoreParse::Invalid
        }
    }
}

/// Normalize a raw parse into a score, or reject it as too large.
pub open spec fn spec_finish_score(neg: bool, m: int, e: int) -> ScoreParse {
    let t = spec_strip(m, e);
    if t.0 == 0 {
        ScoreParse::Value(Score { neg: false, mant: 0, exp: 0 })
    } else if spec_too_large(t.0, t.1) {
        ScoreParse::TooLarge
    } else {
        ScoreParse::Value(Score { neg, mant: t.0 as u64, exp: t.1 as i128 })
    }
}

/// Is this byte an ASCII digit?
fn is_digit(b: u8) -> (r: bool)
    ensures
        r == spec_is_digit(b),
{
    48 <= b && b <= 57
}

/// Scan a run of mantissa digits (the loop mirror of `spec_scan_mant`).
fn scan_mant(s: &[u8], start: usize, mant0: u64, shift0: i128, frac: bool) -> (r: (
    usize,
    u64,
    i128,
))
    requires
        start <= s@.len(),
        mant0 < 10000000000000000000,
        -0x10000000000000000i128 <= shift0 <= 0x10000000000000000i128,
    ensures
        (r.0 as int, r.1 as int, r.2 as int) == spec_scan_mant(
            s@,
            start as int,
            mant0 as int,
            shift0 as int,
            frac,
        ),
        start <= r.0 <= s@.len(),
        r.1 < 10000000000000000000,
        shift0 - (r.0 - start) <= r.2 <= shift0 + (r.0 - start),
{
    let mut i = start;
    let mut mant = mant0;
    let mut shift = shift0;
    while i < s.len() && is_digit(s[i])
        invariant
            start <= i <= s@.len(),
            mant < 10000000000000000000,
            shift0 - (i - start) <= shift <= shift0 + (i - start),
            -0x10000000000000000i128 <= shift0 <= 0x10000000000000000i128,
            spec_scan_mant(s@, i as int, mant as int, shift as int, frac) == spec_scan_mant(
                s@,
                start as int,
                mant0 as int,
                shift0 as int,
                frac,
            ),
        decreases s@.len() - i,
    {
        if mant < MANT_CAP {
            mant = mant * 10 + ((s[i] - 48) as u64);
            if frac {
                shift = shift - 1;
            }
        } else {
            if !frac {
                shift = shift + 1;
            }
        }
        i = i + 1;
    }
    (i, mant, shift)
}

/// Scan exponent digits (the loop mirror of `spec_scan_exp`).
fn scan_exp(s: &[u8], start: usize) -> (r: (usize, i128))
    requires
        start <= s@.len(),
    ensures
        (r.0 as int, r.1 as int) == spec_scan_exp(s@, start as int, 0),
        start <= r.0 <= s@.len(),
        0 <= r.1 <= 10000000000000000,
{
    let mut i = start;
    let mut v: i128 = 0;
    while i < s.len() && is_digit(s[i])
        invariant
            start <= i <= s@.len(),
            0 <= v <= 10000000000000000,
            spec_scan_exp(s@, i as int, v as int) == spec_scan_exp(s@, start as int, 0),
        decreases s@.len() - i,
    {
        if v < 1000000000000000 {
            v = v * 10 + ((s[i] - 48) as i128);
        }
        i = i + 1;
    }
    (i, v)
}

/// Parse a whole token as a decimal score (see [`spec_parse_score`]).
/// A `Value` outcome is always a well-formed, normalized score.
pub fn parse_score(s: &[u8]) -> (r: ScoreParse)
    ensures
        r == spec_parse_score(s@),
        r matches ScoreParse::Value(v) ==> v.wf(),
{
    let n = s.len();
    if n == 0 {
        return ScoreParse::Invalid;
    }
    let neg = s[0] == 45;
    let i1: usize = if s[0] == 45 || s[0] == 43 {
        1
    } else {
        0
    };
    let t2 = scan_mant(s, i1, 0, 0, false);
    let has_dot = t2.0 < n && s[t2.0] == 46;
    let t3 = if has_dot {
        scan_mant(s, t2.0 + 1, t2.1, t2.2, true)
    } else {
        t2
    };
    let digit_count = (t2.0 - i1) + if has_dot {
        t3.0 - (t2.0 + 1)
    } else {
        0
    };
    if digit_count == 0 {
        return ScoreParse::Invalid;
    }
    if t3.0 == n {
        return finish_score(neg, t3.1, t3.2);
    }
    if s[t3.0] == 101 || s[t3.0] == 69 {
        let eneg = t3.0 + 1 < n && s[t3.0 + 1] == 45;
        let i4: usize = if t3.0 + 1 < n && (s[t3.0 + 1] == 45 || s[t3.0 + 1] == 43) {
            t3.0 + 2
        } else {
            t3.0 + 1
        };
        let t5 = scan_exp(s, i4);
        if t5.0 == i4 || t5.0 != n {
            return ScoreParse::Invalid;
        }
        let e: i128 = t3.2 + if eneg {
            -t5.1
        } else {
            t5.1
        };
        return finish_score(neg, t3.1, e);
    }
    ScoreParse::Invalid
}

/// Normalize a raw parse into a score, or reject it as too large (the
/// executable mirror of `spec_finish_score`).
fn finish_score(neg: bool, m0: u64, e0: i128) -> (r: ScoreParse)
    requires
        m0 < 10000000000000000000,
        -0x40000000000000000i128 <= e0 <= 0x40000000000000000i128,
    ensures
        r == spec_finish_score(neg, m0 as int, e0 as int),
        r matches ScoreParse::Value(v) ==> v.wf(),
{
    let mut m = m0;
    let mut e = e0;
    proof {
        lemma_digits_u64(m0);
    }
    while m > 0 && m % 10 == 0
        invariant
            m <= m0,
            m0 == 0 ==> m == 0 && e == e0,
            m0 >= 1 ==> m >= 1 && e - e0 == spec_digits(m0 as int) - spec_digits(m as int),
            spec_digits(m as int) <= spec_digits(m0 as int) <= 20,
            -0x40000000000000000i128 <= e0 <= 0x40000000000000000i128,
            e0 <= e <= e0 + 20,
            spec_strip(m as int, e as int) == spec_strip(m0 as int, e0 as int),
        decreases m,
    {
        proof {
            lemma_digits_nonneg(m as int / 10);
            vstd::arithmetic::div_mod::lemma_fundamental_div_mod(m as int, 10);
        }
        m = m / 10;
        e = e + 1;
    }
    if m == 0 {
        return ScoreParse::Value(Score::zero());
    }
    let d = count_digits(m);
    let hi: i128 = e + d as i128;
    if hi >= 40 {
        return ScoreParse::TooLarge;
    }
    if hi <= 38 {
        return ScoreParse::Value(Score { neg, mant: m, exp: e });
    }
    // hi == 39: compare exactly against the overflow threshold.
    proof {
        lemma_digits_u64(m);
    }
    let p = pow10_u128((39 - d as i128) as u32);
    if (m as u128) > (SCORE_LIMIT - 1) / p {
        ScoreParse::TooLarge
    } else {
        ScoreParse::Value(Score { neg, mant: m, exp: e })
    }
}

} // verus!
