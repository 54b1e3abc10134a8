//! Numbers: IEEE-754 binary64 values, held by their bit pattern.
//!
//! The library never computes with hardware floating point. What the array
//! verbs need of a number (is it an integer, which one, how do two numbers
//! order) is read off the sign, exponent and fraction fields of the pattern.

use vstd::prelude::*;
use vstd::arithmetic::power2::{pow2, lemma_pow2_pos, lemma_pow2_unfold, lemma_pow2_adds, lemma_pow2_strictly_increases, lemma2_to64, lemma2_to64_rest};

verus! {

/// The outcome of comparing two values under the total order.
#[derive(Clone, Copy, Debug, PartialEq, Eq, Structural)]
pub enum Comparison {
    Less,
    Equal,
    Greater,
}

/// Two to the power 52: the range of the fraction field.
pub const FRACTION_RANGE: u64 = 0x10_0000_0000_0000;

/// Two to the power 63: the sign bit.
pub const SIGN_BIT: u64 = 0x8000_0000_0000_0000;

/// Two to the power 53: every natural number below it is a binary64 value.
pub const EXACT_LIMIT: u64 = 0x20_0000_0000_0000;

/// Whether a bit pattern encodes a NaN.
pub open spec fn nan_pattern(bits: u64) -> bool {
    (bits as int / 0x10_0000_0000_0000) % 2048 == 2047 && bits as int % 0x10_0000_0000_0000 != 0
}

/// `x` limited to the interval from `lo` to `hi`.
pub open spec fn clamp(x: int, lo: int, hi: int) -> int {
    if x < lo {
        lo
    } else if x > hi {
        hi
    } else {
        x
    }
}

/// A binary64 number that is not a NaN.
#[derive(Clone, Copy, Debug, PartialEq, Eq, Structural)]
pub struct Number {
    bits: u64,
}

impl Number {
    #[verifier::type_invariant]
    spec fn not_nan(self) -> bool {
        !nan_pattern(self.bits)
    }

    /// The bit pattern.
    pub closed spec fn bits(self) -> u64 {
        self.bits
    }

    /// 1 for a set sign bit, else 0.
    pub open spec fn sign(self) -> int {
        self.bits() as int / 0x8000_0000_0000_0000
    }

    /// The biased exponent field.
    pub open spec fn exponent(self) -> int {
        (self.bits() as int / 0x10_0000_0000_0000) % 2048
    }

    /// The fraction field.
    pub open spec fn fraction(self) -> int {
        self.bits() as int % 0x10_0000_0000_0000
    }

    /// Neither an infinity nor a NaN.
    pub open spec fn finite(self) -> bool {
        self.exponent() != 2047
    }

    /// The integer `m` of the decomposition `|v| = m * 2^scale`.
    pub open spec fn significand(self) -> int {
        if self.exponent() == 0 {
            self.fraction()
        } else {
            self.fraction() + 0x10_0000_0000_0000
        }
    }

    /// The power of two of the decomposition `|v| = m * 2^scale`.
    pub open spec fn scale(self) -> int {
        if self.exponent() == 0 {
            -1074
        } else {
            self.exponent() - 1075
        }
    }

    /// The number is finite and its value is a whole number.
    pub open spec fn integral(self) -> bool {
        self.finite() && (self.scale() >= 0 || self.significand() % (pow2(
            (-self.scale()) as nat,
        ) as int) == 0)
    }

    /// The whole part of `|v|`. An infinity counts as a value beyond every
    /// machine integer.
    pub open spec fn magnitude(self) -> int {
        if self.scale() >= 0 {
            self.significand() * pow2(self.scale() as nat)
        } else {
            self.significand() / (pow2((-self.scale()) as nat) as int)
        }
    }

    /// The value truncated toward zero.
    pub open spec fn int_value(self) -> int {
        if self.sign() == 1 {
            -self.magnitude()
        } else {
            self.magnitude()
        }
    }

    /// The value as an array extent: the nearest whole number (halves away
    /// from zero), provided the value lies within 2^-52 of it and it is
    /// positive.
    pub open spec fn extent(self) -> Option<int> {
        if !self.finite() || self.sign() == 1 {
            None
        } else if self.scale() >= 0 {
            Some(self.magnitude())
        } else {
            let d = pow2((-self.scale()) as nat) as int;
            let q = self.significand() / d;
            let r = self.significand() % d;
            let n = if 2 * r >= d {
                q + 1
            } else {
                q
            };
            let dist = if 2 * r >= d {
                d - r
            } else {
                r
            };
            if dist * 0x10_0000_0000_0000 <= d && n > 0 {
                Some(n)
            } else {
                None
            }
        }
    }

    /// The place of the number in the total order: `a` comes before `b`
    /// exactly when `a.key() < b.key()`. Negative zero comes just before
    /// positive zero.
    pub open spec fn key(self) -> int {
        if self.bits() < 0x8000_0000_0000_0000 {
            self.bits() as int
        } else {
            0x7fff_ffff_ffff_ffff - self.bits() as int
        }
    }

    /// Positive zero.
    pub closed spec fn zero_view() -> Number {
        Number { bits: 0 }
    }

    /// The number 1.
    pub closed spec fn one_view() -> Number {
        Number { bits: 0x3ff0_0000_0000_0000 }
    }

    /// The number with the given bit pattern, unless the pattern is a NaN.
    pub fn from_bits(bits: u64) -> (r: Option<Number>)
        ensures
            r is Some <==> !nan_pattern(bits),
            r matches Some(n) ==> n.bits() == bits,
    {
        if (bits / FRACTION_RANGE) % 2048 == 2047 && bits % FRACTION_RANGE != 0 {
            None
        } else {
            Some(Number { bits })
        }
    }

    /// The bit pattern.
    pub fn to_bits(&self) -> (r: u64)
        ensures
            r == self.bits(),
    {
        self.bits
    }

    /// Positive zero.
    pub fn zero() -> (r: Number)
        ensures
            r == Number::zero_view(),
            r.bits() == 0,
            r.integral(),
            r.int_value() == 0,
    {
        let r = Number { bits: 0 };
        proof {
            lemma_pow2_pos(1074);
            let d = pow2(1074) as int;
            assert(0int % d == 0 && 0int / d == 0) by (nonlinear_arith)
                requires
                    d > 0,
            ;
            assert(r.exponent() == 0 && r.significand() == 0 && r.scale() == -1074);
        }
        r
    }

    /// The number 1.
    pub fn one() -> (r: Number)
        ensures
            r == Number::one_view(),
            r.bits() == 0x3ff0_0000_0000_0000,
            r.integral(),
            r.int_value() == 1,
            r.sign() == 0,
    {
        let r = Number { bits: 0x3ff0_0000_0000_0000 };
        proof {
            lemma2_to64_rest();
            assert(r.exponent() == 1023 && r.fraction() == 0 && r.scale() == -52);
            assert(r.significand() == 0x10_0000_0000_0000);
            assert(pow2(52) == 0x10_0000_0000_0000);
            assert((-r.scale()) as nat == 52);
            assert(r.significand() % (pow2(52) as int) == 0);
            assert(r.significand() / (pow2(52) as int) == 1);
            assert(r.sign() == 0);
        }
        r
    }

    /// The number equal to `n`, for `n` below 2^53.
    pub fn from_usize(n: usize) -> (r: Option<Number>)
        ensures
            r is Some <==> n < 0x20_0000_0000_0000,
            r matches Some(x) ==> x.integral() && x.int_value() == n && x.sign() == 0,
    {
        if n as u64 >= EXACT_LIMIT {
            return None;
        }
        if n == 0 {
            return Some(Number::zero());
        }
        let wide: u64 = n as u64;
        let mut p: u64 = 0;
        let mut top: u64 = 1;
        proof {
            lemma2_to64();
            lemma2_to64_rest();
        }
        while top <= wide / 2
            invariant
                top == pow2(p as nat),
                1 <= top <= wide,
                wide < 0x20_0000_0000_0000,
                p <= 52,
            decreases wide - top,
        {
            proof {
                lemma_pow2_unfold((p + 1) as nat);
                if p == 52 {
                    lemma2_to64_rest();
                }
            }
            top = top * 2;
            p = p + 1;
        }
        let m: u64 = pow2_u64(52 - p);
        proof {
            lemma_pow2_adds(p as nat, (52 - p) as nat);
            lemma2_to64_rest();
            assert(top * m == 0x10_0000_0000_0000);
            assert(wide * m >= 0x10_0000_0000_0000 && wide * m < 0x20_0000_0000_0000)
                by (nonlinear_arith)
                requires
                    top * m == 0x10_0000_0000_0000,
                    top <= wide < 2 * top,
                    m >= 1,
            ;
        }
        let sig: u64 = wide * m;
        let bits: u64 = (p + 1023) * FRACTION_RANGE + (sig - FRACTION_RANGE);
        let r = Number { bits };
        proof {
            assert(r.exponent() == p + 1023);
            assert(r.fraction() == sig - 0x10_0000_0000_0000);
            assert(r.significand() == sig);
            assert(r.scale() == p - 52);
            assert(r.sign() == 0);
            if p == 52 {
                assert(m == 1);
                assert(sig * pow2(0) == sig);
            } else {
                assert((wide * m) % (m as int) == 0 && (wide * m) / (m as int) == wide)
                    by (nonlinear_arith)
                    requires
                        m >= 1,
                ;
            }
        }
        Some(r)
    }

    /// Whether the number is finite and whole.
    pub fn is_integer(&self) -> (r: bool)
        ensures
            r == self.integral(),
    {
        let e: u64 = (self.bits / FRACTION_RANGE) % 2048;
        let f: u64 = self.bits % FRACTION_RANGE;
        if e == 2047 {
            return false;
        }
        if e >= 1075 {
            return true;
        }
        let sig: u64 = if e == 0 {
            f
        } else {
            f + FRACTION_RANGE
        };
        let k: u64 = if e == 0 {
            1074
        } else {
            1075 - e
        };
        if k >= 54 {
            proof {
                lemma2_to64_rest();
                lemma_pow2_strictly_increases(53, k as nat);
                let d = pow2(k as nat) as int;
                assert(sig < d);
                assert((sig as int) % d == sig) by (nonlinear_arith)
                    requires
                        0 <= sig < d,
                ;
            }
            return sig == 0;
        }
        let d: u64 = pow2_u64(k);
        proof {
            lemma_pow2_pos(k as nat);
        }
        sig % d == 0
    }

    /// Whether the number is a whole number that is not negative.
    pub fn is_nat(&self) -> (r: bool)
        ensures
            r == (self.integral() && self.int_value() >= 0),
    {
        let whole = self.is_integer();
        let v = self.clamped();
        whole && v >= 0
    }

    /// The value truncated toward zero and limited to 65 bits.
    fn clamped(&self) -> (r: i128)
        ensures
            r == clamp(
                self.int_value(),
                -0x1_0000_0000_0000_0000,
                0x1_0000_0000_0000_0000,
            ),
    {
        let e: u64 = (self.bits / FRACTION_RANGE) % 2048;
        let f: u64 = self.bits % FRACTION_RANGE;
        let negative: bool = self.bits >= SIGN_BIT;
        let sig: u64 = if e == 0 {
            f
        } else {
            f + FRACTION_RANGE
        };
        proof {
            lemma2_to64();
            lemma2_to64_rest();
        }
        let mag: u128 = if e >= 1075 {
            let s: u64 = e - 1075;
            if s >= 12 {
                proof {
                    if s > 12 {
                        lemma_pow2_strictly_increases(12, s as nat);
                    }
                    let w = pow2(s as nat) as int;
                    assert(sig * w >= 0x1_0000_0000_0000_0000) by (nonlinear_arith)
                        requires
                            sig >= 0x10_0000_0000_0000,
                            w >= 0x1000,
                    ;
                }
                0x1_0000_0000_0000_0000
            } else {
                let w: u64 = pow2_u64(s);
                proof {
                    if s < 11 {
                        lemma_pow2_strictly_increases(s as nat, 11);
                    }
                    assert(sig * w < 0x1_0000_0000_0000_0000) by (nonlinear_arith)
                        requires
                            0 <= sig < 0x20_0000_0000_0000,
                            0 <= w <= 0x800,
                    ;
                }
                (sig as u128) * (w as u128)
            }
        } else {
            let k: u64 = if e == 0 {
                1074
            } else {
                1075 - e
            };
            if k >= 54 {
                proof {
                    lemma_pow2_strictly_increases(53, k as nat);
                    let d = pow2(k as nat) as int;
                    assert((sig as int) / d == 0) by (nonlinear_arith)
                        requires
                            0 <= sig < d,
                    ;
                }
                0
            } else {
                let d: u64 = pow2_u64(k);
                (sig / d) as u128
            }
        };
        assert(mag == clamp(self.magnitude(), 0, 0x1_0000_0000_0000_0000));
        if negative {
            -(mag as i128)
        } else {
            mag as i128
        }
    }

    /// The value truncated toward zero, limited to the range of `isize`.
    pub fn to_isize(&self) -> (r: isize)
        ensures
            r == clamp(self.int_value(), isize::MIN as int, isize::MAX as int),
    {
        let v = self.clamped();
        if v > isize::MAX as i128 {
            isize::MAX
        } else if v < isize::MIN as i128 {
            isize::MIN
        } else {
            v as isize
        }
    }

    /// The value truncated toward zero, limited to the range of `usize`.
    pub fn to_usize(&self) -> (r: usize)
        ensures
            r == clamp(self.int_value(), 0, usize::MAX as int),
    {
        let v = self.clamped();
        if v > usize::MAX as i128 {
            usize::MAX
        } else if v < 0 {
            0
        } else {
            v as usize
        }
    }

    /// The number read as an array extent, limited to the range of `usize`.
    pub fn to_extent(&self) -> (r: Option<usize>)
        ensures
            r == self.as_extent(),
    {
        let e: u64 = (self.bits / FRACTION_RANGE) % 2048;
        let f: u64 = self.bits % FRACTION_RANGE;
        if e == 2047 || self.bits >= SIGN_BIT {
            return None;
        }
        if e >= 1075 {
            return Some(self.to_usize());
        }
        let sig: u64 = if e == 0 {
            f
        } else {
            f + FRACTION_RANGE
        };
        let k: u64 = if e == 0 {
            1074
        } else {
            1075 - e
        };
        proof {
            lemma2_to64();
            lemma2_to64_rest();
        }
        if k >= 55 {
            proof {
                lemma_pow2_strictly_increases(54, k as nat);
                let d = pow2(k as nat) as int;
                assert((sig as int) / d == 0 && (sig as int) % d == sig) by (nonlinear_arith)
                    requires
                        0 <= sig < d,
                ;
            }
            return None;
        }
        let d: u64 = pow2_u64(k);
        proof {
            if k < 54 {
                lemma_pow2_strictly_increases(k as nat, 54);
            }
        }
        let q: u64 = sig / d;
        let r: u64 = sig % d;
        let up: bool = 2 * r >= d;
        let n: u64 = if up {
            q + 1
        } else {
            q
        };
        let dist: u64 = if up {
            d - r
        } else {
            r
        };
        assert(dist * 0x10_0000_0000_0000 < 0x1_0000_0000_0000_0000_0000_0000_0000) by (nonlinear_arith)
            requires
                0 <= dist <= 0x40_0000_0000_0000,
        ;
        if (dist as u128) * (FRACTION_RANGE as u128) <= d as u128 && n > 0 {
            if n > usize::MAX as u64 {
                Some(usize::MAX)
            } else {
                Some(n as usize)
            }
        } else {
            None
        }
    }

    /// Compares two numbers under the total order.
    pub fn compare(&self, other: &Number) -> (r: Comparison)
        ensures
            r == Comparison::Less <==> self.key() < other.key(),
            r == Comparison::Equal <==> *self == *other,
            r == Comparison::Greater <==> self.key() > other.key(),
    {
        let a: i128 = if self.bits < SIGN_BIT {
            self.bits as i128
        } else {
            0x7fff_ffff_ffff_ffff - self.bits as i128
        };
        let b: i128 = if other.bits < SIGN_BIT {
            other.bits as i128
        } else {
            0x7fff_ffff_ffff_ffff - other.bits as i128
        };
        if a < b {
            Comparison::Less
        } else if a == b {
            Comparison::Equal
        } else {
            Comparison::Greater
        }
    }
}

impl Number {
    /// The number as an array extent, if it is one.
    pub open spec fn as_extent(self) -> Option<usize> {
        match self.extent() {
            Some(n) => Some(clamp(n, 0, usize::MAX as int) as usize),
            None => None,
        }
    }

    /// The number as a signed index, if it is whole.
    pub open spec fn as_index(self) -> Option<isize> {
        if self.integral() {
            Some(clamp(self.int_value(), isize::MIN as int, isize::MAX as int) as isize)
        } else {
            None
        }
    }

    /// The number as a count, if it is whole and not negative.
    pub open spec fn as_count(self) -> Option<usize> {
        if self.integral() && self.int_value() >= 0 {
            Some(clamp(self.int_value(), 0, usize::MAX as int) as usize)
        } else {
            None
        }
    }

    /// The number as a signed index, if it is whole. A value beyond the
    /// range of `isize` gives the nearest end of the range.
    pub fn to_index(&self) -> (r: Option<isize>)
        ensures
            r == self.as_index(),
    {
        if self.is_integer() {
            Some(self.to_isize())
        } else {
            None
        }
    }

    /// The number as a count, if it is whole and not negative. A value
    /// beyond the range of `usize` gives the largest `usize`.
    pub fn to_count(&self) -> (r: Option<usize>)
        ensures
            r == self.as_count(),
    {
        if self.is_nat() {
            Some(self.to_usize())
        } else {
            None
        }
    }
}

impl Number {
    /// A whole number that is at least 1 lies between two powers of two
    /// that its exponent field names, and its significand is the number
    /// scaled to 53 bits.
    proof fn lemma_whole_binade(self)
        requires
            self.integral(),
            self.sign() == 0,
            self.int_value() >= 1,
        ensures
            ({
                let e = self.exponent() - 1023;
                &&& 0 <= e <= 1023
                &&& pow2(e as nat) <= self.int_value() < pow2((e + 1) as nat)
                &&& e <= 52 ==> self.significand() == self.int_value() * pow2((52 - e) as nat)
                &&& e > 52 ==> self.int_value() == self.significand() * pow2((e - 52) as nat)
            }),
    {
        lemma2_to64();
        lemma2_to64_rest();
        let ex = self.exponent();
        let sig = self.significand();
        let iv = self.int_value();
        if ex == 0 {
            lemma_pow2_strictly_increases(52, 1074);
            let d = pow2(1074) as int;
            assert(sig / d == 0) by (nonlinear_arith)
                requires
                    0 <= sig < d,
            ;
        } else if ex >= 1075 {
            let s = (ex - 1075) as nat;
            let w = pow2(s) as int;
            lemma_pow2_pos(s);
            lemma_pow2_adds(52, s);
            lemma_pow2_adds(53, s);
            assert(0x10_0000_0000_0000 * w <= sig * w < 0x20_0000_0000_0000 * w) by (nonlinear_arith)
                requires
                    0x10_0000_0000_0000 <= sig < 0x20_0000_0000_0000,
                    w > 0,
            ;
            if s == 0 {
                assert(sig * w == sig) by (nonlinear_arith)
                    requires
                        w == 1,
                ;
            }
        } else {
            let k = (1075 - ex) as nat;
            let d = pow2(k) as int;
            lemma_pow2_pos(k);
            vstd::arithmetic::div_mod::lemma_fundamental_div_mod(sig, d);
            assert(sig == d * iv);
            if k >= 53 {
                if k > 53 {
                    lemma_pow2_strictly_increases(53, k);
                }
                assert(false) by (nonlinear_arith)
                    requires
                        sig == d * iv,
                        iv >= 1,
                        d >= 0x20_0000_0000_0000,
                        sig < 0x20_0000_0000_0000,
                ;
            }
            let e = (52 - k) as nat;
            lemma_pow2_adds(e, k);
            lemma_pow2_adds(e + 1, k);
            lemma_pow2_unfold((e + 1 + k) as nat);
            let lo = pow2(e) as int;
            let hi = pow2(e + 1) as int;
            assert(lo <= iv < hi) by (nonlinear_arith)
                requires
                    lo * d <= d * iv < hi * d,
                    d > 0,
            ;
            assert(d * iv == iv * d) by (nonlinear_arith);
        }
    }

    /// Two numbers that are the same natural number are the same number:
    /// a natural number has one pattern only.
    pub proof fn law_natural_is_unique(a: Number, b: Number)
        requires
            a.integral(),
            b.integral(),
            a.sign() == 0,
            b.sign() == 0,
            a.int_value() >= 0,
            a.int_value() == b.int_value(),
        ensures
            a == b,
    {
        lemma2_to64();
        lemma2_to64_rest();
        a.lemma_whole_or_zero();
        b.lemma_whole_or_zero();
        if a.int_value() >= 1 {
            a.lemma_whole_binade();
            b.lemma_whole_binade();
            let ea = (a.exponent() - 1023) as nat;
            let eb = (b.exponent() - 1023) as nat;
            if ea < eb {
                if ea + 1 < eb {
                    lemma_pow2_strictly_increases(ea + 1, eb);
                }
                assert(false);
            }
            if eb < ea {
                if eb + 1 < ea {
                    lemma_pow2_strictly_increases(eb + 1, ea);
                }
                assert(false);
            }
            if ea > 52 {
                let w = pow2((ea - 52) as nat) as int;
                lemma_pow2_pos((ea - 52) as nat);
                let x = a.significand();
                let y = b.significand();
                assert(x == y) by (nonlinear_arith)
                    requires
                        x * w == y * w,
                        w > 0,
                ;
            }
            assert(a.fraction() == b.fraction());
        }
        assert(a.bits == b.bits);
    }

    /// A whole number that is not negative is zero, with the pattern 0,
    /// or at least 1, with an exponent field other than 0.
    proof fn lemma_whole_or_zero(self)
        requires
            self.integral(),
            self.sign() == 0,
        ensures
            self.int_value() == 0 ==> self.bits == 0,
            self.int_value() != 0 ==> self.int_value() >= 1 && self.exponent() >= 1,
    {
        lemma2_to64();
        lemma2_to64_rest();
        let ex = self.exponent();
        let sig = self.significand();
        if ex == 0 {
            lemma_pow2_strictly_increases(52, 1074);
            let d = pow2(1074) as int;
            assert(sig % d == sig && sig / d == 0) by (nonlinear_arith)
                requires
                    0 <= sig < d,
            ;
        } else if ex >= 1075 {
            let s = (ex - 1075) as nat;
            let w = pow2(s) as int;
            lemma_pow2_pos(s);
            assert(sig * w >= 1) by (nonlinear_arith)
                requires
                    sig >= 1,
                    w >= 1,
            ;
        } else {
            let k = (1075 - ex) as nat;
            let d = pow2(k) as int;
            lemma_pow2_pos(k);
            vstd::arithmetic::div_mod::lemma_fundamental_div_mod(sig, d);
            let q = sig / d;
            assert(q >= 1) by (nonlinear_arith)
                requires
                    sig == d * q,
                    sig >= 1,
                    d > 0,
            ;
        }
    }
}

/// Two to the power `k`.
fn pow2_u64(k: u64) -> (r: u64)
    requires
        k < 64,
    ensures
        r == pow2(k as nat),
{
    let mut r: u64 = 1;
    let mut i: u64 = 0;
    proof {
        lemma2_to64();
    }
    while i < k
        invariant
            i <= k < 64,
            r == pow2(i as nat),
        decreases k - i,
    {
        proof {
            lemma_pow2_unfold((i + 1) as nat);
            lemma2_to64_rest();
            if i + 1 < 63 {
                lemma_pow2_strictly_increases((i + 1) as nat, 63);
            }
        }
        r = r * 2;
        i = i + 1;
    }
    r
}

} // verus!
