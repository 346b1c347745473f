//! Binary64 numbers as plain bit patterns, with the arithmetic of IEEE 754.
//!
//! Every operation is stated over the exact value of its operands: a sum, a
//! product or a quotient is the number nearest to the exact result.

use vstd::arithmetic::div_mod::{
    lemma_div_is_ordered, lemma_fundamental_div_mod, lemma_fundamental_div_mod_converse,
};
use vstd::arithmetic::mul::{
    lemma_mul_inequality, lemma_mul_is_associative, lemma_mul_is_commutative,
    lemma_mul_is_distributive_add, lemma_mul_is_distributive_sub, lemma_mul_strict_inequality,
    lemma_mul_strictly_positive,
};
use vstd::arithmetic::power2::{
    lemma2_to64, lemma2_to64_rest, lemma_pow2_adds, lemma_pow2_pos, lemma_pow2_unfold, pow2,
};
use vstd::prelude::*;

use crate::nearest::{
    divide_nearest, lemma_nearest_even_scaled, lemma_nearest_monotone, lemma_nearest_same_ratio,
    lemma_pow2_le, lemma_scale_bounds, lemma_scale_unique, lemma_significand_bounds, nearest_even,
    nearest_magnitude, nearest_ratio, scale_of, shifted_up, two_to, INFINITE, TWO52, TWO53,
};

verus! {

/// `2^63`, the weight of the sign bit.
pub const SIGN: u64 = 0x8000_0000_0000_0000;

/// The bit pattern of the number that is no number.
pub const NAN_BITS: u64 = 0x7ff8_0000_0000_0000;

/// A binary64 number, held as its bit pattern.
#[derive(Clone, Copy, Debug, PartialEq, Eq, Structural)]
pub struct Real {
    pub bits: u64,
}

/// The significand of a magnitude.
pub open spec fn significand_of(magnitude: nat) -> nat {
    if magnitude < TWO52 {
        magnitude
    } else {
        (TWO52 as nat) + magnitude % (TWO52 as nat)
    }
}

/// The power of two that a magnitude's significand is scaled by, counted from
/// `2^-1074`.
pub open spec fn exponent_of(magnitude: nat) -> nat {
    if magnitude < TWO52 {
        0
    } else {
        (magnitude / (TWO52 as nat) - 1) as nat
    }
}

/// What a magnitude stands for, in units of `2^-1074`.
pub open spec fn size_of_magnitude(magnitude: nat) -> nat {
    significand_of(magnitude) * pow2(exponent_of(magnitude))
}

/// One, in units of `2^-1074`.
pub open spec fn unit() -> nat {
    pow2(1074)
}

/// The number with this sign and magnitude.
pub open spec fn signed(negative: bool, magnitude: nat) -> Real {
    Real {
        bits: (magnitude + if negative {
            SIGN as nat
        } else {
            0
        }) as u64,
    }
}

/// The integer nearest to `n / d`, the larger one of two that are equally near.
pub open spec fn nearest_up(n: nat, d: nat) -> nat {
    if 2 * (n % d) < d {
        n / d
    } else {
        n / d + 1
    }
}

/// The smallest integer that is not less than `n / d`.
pub open spec fn ceiling(n: nat, d: nat) -> nat {
    if n % d == 0 {
        n / d
    } else {
        n / d + 1
    }
}

impl Real {
    pub open spec fn magnitude(self) -> nat {
        (self.bits % SIGN) as nat
    }

    pub open spec fn negative(self) -> bool {
        self.bits >= SIGN
    }

    pub open spec fn nan(self) -> bool {
        self.magnitude() > INFINITE
    }

    pub open spec fn infinite(self) -> bool {
        self.magnitude() == INFINITE
    }

    pub open spec fn finite(self) -> bool {
        self.magnitude() < INFINITE
    }

    pub open spec fn zero(self) -> bool {
        self.magnitude() == 0
    }

    /// The distance from zero in units of `2^-1074`; that of infinity is larger
    /// than that of every finite number.
    pub open spec fn size(self) -> nat {
        size_of_magnitude(self.magnitude())
    }

    /// The value in units of `2^-1074`.
    pub open spec fn value(self) -> int {
        if self.negative() {
            -self.size()
        } else {
            self.size() as int
        }
    }

    pub open spec fn negated(self) -> Real {
        signed(!self.negative(), self.magnitude())
    }

    /// The sum of two numbers.
    #[verifier::opaque]
    pub open spec fn sum(self, other: Real) -> Real {
        if self.nan() || other.nan() || (self.infinite() && other.infinite() && self.negative()
            != other.negative()) {
            Real { bits: NAN_BITS }
        } else if self.infinite() {
            self
        } else if other.infinite() {
            other
        } else {
            let exact = self.value() + other.value();
            if exact == 0 {
                signed(self.negative() && other.negative(), 0)
            } else {
                signed(exact < 0, nearest_magnitude(if exact < 0 {
                    (-exact) as nat
                } else {
                    exact as nat
                }, 1))
            }
        }
    }

    /// The difference of two numbers.
    pub open spec fn difference(self, other: Real) -> Real {
        self.sum(other.negated())
    }

    /// The product of two numbers.
    #[verifier::opaque]
    pub open spec fn product(self, other: Real) -> Real {
        let negative = self.negative() != other.negative();
        if self.nan() || other.nan() || (self.infinite() && other.zero()) || (self.zero()
            && other.infinite()) {
            Real { bits: NAN_BITS }
        } else if self.infinite() || other.infinite() {
            signed(negative, INFINITE as nat)
        } else {
            signed(negative, nearest_magnitude(self.size() * other.size(), unit()))
        }
    }

    /// The quotient of two numbers.
    #[verifier::opaque]
    pub open spec fn quotient(self, other: Real) -> Real {
        let negative = self.negative() != other.negative();
        if self.nan() || other.nan() || (self.infinite() && other.infinite()) || (self.zero()
            && other.zero()) {
            Real { bits: NAN_BITS }
        } else if self.infinite() || other.zero() {
            signed(negative, INFINITE as nat)
        } else if other.infinite() {
            signed(negative, 0)
        } else {
            signed(negative, nearest_magnitude(self.size() * unit(), other.size()))
        }
    }

    /// Whether `self < other`; never with a number that is no number.
    pub open spec fn less(self, other: Real) -> bool {
        !self.nan() && !other.nan() && self.value() < other.value()
    }

    /// Whether `self <= other`; never with a number that is no number.
    pub open spec fn at_most(self, other: Real) -> bool {
        !self.nan() && !other.nan() && self.value() <= other.value()
    }

    /// This number without its sign.
    pub open spec fn absolute(self) -> Real {
        signed(false, self.magnitude())
    }

    /// The nearest integral number, ties going away from zero.
    pub open spec fn integral(self) -> Real {
        if !self.finite() {
            self
        } else {
            signed(
                self.negative(),
                nearest_magnitude(nearest_up(self.size(), unit()) * unit(), 1),
            )
        }
    }

    /// This number, or zero where it is negative or no number.
    pub open spec fn not_below_zero(self) -> Real {
        if self.nan() || self.value() <= 0 {
            Real { bits: 0 }
        } else {
            self
        }
    }

    /// The smaller one of two numbers; the other one where one is no number.
    pub open spec fn least(self, other: Real) -> Real {
        if other.nan() || self.less(other) {
            self
        } else {
            other
        }
    }

    /// The larger one of two numbers; the other one where one is no number.
    pub open spec fn greatest(self, other: Real) -> Real {
        if other.nan() || other.less(self) {
            self
        } else {
            other
        }
    }

    /// The number nearest to an integer.
    pub open spec fn of_int(i: int) -> Real {
        signed(i < 0, nearest_magnitude(if i < 0 {
            (-i) as nat * unit()
        } else {
            i as nat * unit()
        }, 1))
    }

    /// The number nearest to a ratio of natural numbers.
    pub open spec fn of_ratio(n: nat, d: nat) -> Real {
        signed(false, nearest_magnitude(n * unit(), d))
    }

    /// The integer nearest to this number, ties going away from zero.
    pub open spec fn rounded(self) -> int {
        if self.nan() {
            0
        } else if self.negative() {
            -nearest_up(self.size(), unit())
        } else {
            nearest_up(self.size(), unit()) as int
        }
    }

    /// This number without its fraction.
    pub open spec fn truncated(self) -> int {
        if self.nan() {
            0
        } else if self.negative() {
            -(self.size() / unit())
        } else {
            (self.size() / unit()) as int
        }
    }
}

/// A larger magnitude stands for a larger number.
pub proof fn lemma_size_increases(a: nat, b: nat)
    requires
        a < b,
    ensures
        size_of_magnitude(a) < size_of_magnitude(b),
{
    let ea = exponent_of(a);
    let eb = exponent_of(b);
    let ma = significand_of(a);
    let mb = significand_of(b);
    lemma2_to64();
    lemma2_to64_rest();
    lemma_pow2_pos(ea);
    if a < TWO52 {
        assert(ma * 1 == ma);
        if b < TWO52 {
            assert(mb * 1 == mb);
        } else {
            lemma_pow2_le(0, eb);
            lemma_mul_inequality(1, pow2(eb) as int, mb as int);
            lemma_mul_is_commutative(mb as int, pow2(eb) as int);
        }
    } else if ea == eb {
        lemma_mul_strict_inequality(ma as int, mb as int, pow2(ea) as int);
    } else {
        lemma_pow2_le(ea + 1, eb);
        lemma_pow2_unfold(ea + 1);
        lemma_mul_strict_inequality(ma as int, TWO53 as int, pow2(ea) as int);
        lemma_mul_inequality(TWO52 as int, mb as int, pow2(eb) as int);
        lemma_mul_inequality(pow2(ea + 1) as int, pow2(eb) as int, TWO52 as int);
        assert(TWO53 * pow2(ea) == (2 * pow2(ea)) * TWO52);
        lemma_mul_is_commutative(TWO52 as int, pow2(eb) as int);
    }
}

/// Numbers of larger magnitude are further from zero.
pub proof fn lemma_size_order(a: Real, b: Real)
    ensures
        a.size() < b.size() <==> a.magnitude() < b.magnitude(),
        a.size() == b.size() <==> a.magnitude() == b.magnitude(),
        a.size() == 0 <==> a.magnitude() == 0,
{
    if a.magnitude() < b.magnitude() {
        lemma_size_increases(a.magnitude(), b.magnitude());
    } else if b.magnitude() < a.magnitude() {
        lemma_size_increases(b.magnitude(), a.magnitude());
    }
    assert(size_of_magnitude(0) == 0) by {
        lemma2_to64();
        assert(significand_of(0) == 0 && exponent_of(0) == 0);
    }
    if a.magnitude() > 0 {
        lemma_size_increases(0, a.magnitude());
    }
}

impl Real {
    pub fn from_bits(bits: u64) -> (r: Real)
        ensures
            r == (Real { bits }),
    {
        Real { bits }
    }

    pub fn to_bits(self) -> (r: u64)
        ensures
            r == self.bits,
    {
        self.bits
    }

    pub fn is_nan(self) -> (b: bool)
        ensures
            b == self.nan(),
    {
        self.bits % SIGN > INFINITE
    }

    pub fn is_finite(self) -> (b: bool)
        ensures
            b == self.finite(),
    {
        self.bits % SIGN < INFINITE
    }

    pub fn is_negative(self) -> (b: bool)
        ensures
            b == self.negative(),
    {
        self.bits >= SIGN
    }

    pub fn lt(self, other: Real) -> (b: bool)
        ensures
            b == self.less(other),
    {
        if self.is_nan() || other.is_nan() {
            return false;
        }
        let a: u64 = self.bits % SIGN;
        let b: u64 = other.bits % SIGN;
        proof {
            lemma_size_order(self, other);
            lemma_size_order(other, self);
        }
        if self.is_negative() {
            if other.is_negative() {
                b < a
            } else {
                a != 0 || b != 0
            }
        } else {
            !other.is_negative() && a < b
        }
    }

    pub fn le(self, other: Real) -> (b: bool)
        ensures
            b == self.at_most(other),
    {
        !self.is_nan() && !other.is_nan() && !other.lt(self)
    }

    /// `max` with zero.
    pub fn max_zero(self) -> (r: Real)
        ensures
            r == self.not_below_zero(),
    {
        let zero = Real { bits: 0 };
        proof {
            lemma_size_order(zero, zero);
        }
        if zero.lt(self) {
            self
        } else {
            zero
        }
    }

    pub fn min(self, other: Real) -> (r: Real)
        ensures
            r == self.least(other),
    {
        if other.is_nan() || self.lt(other) {
            self
        } else {
            other
        }
    }

    pub fn max(self, other: Real) -> (r: Real)
        ensures
            r == self.greatest(other),
    {
        if other.is_nan() || other.lt(self) {
            self
        } else {
            other
        }
    }

    pub fn neg(self) -> (r: Real)
        ensures
            r == self.negated(),
    {
        if self.bits >= SIGN {
            Real { bits: self.bits - SIGN }
        } else {
            Real { bits: self.bits + SIGN }
        }
    }

    /// The significand and the exponent.
    pub(crate) fn parts(self) -> (r: (u64, u32))
        ensures
            r.0 == significand_of(self.magnitude()),
            r.1 == exponent_of(self.magnitude()),
            r.0 < TWO53,
            r.1 <= 2046,
            r.1 > 0 ==> r.0 >= TWO52,
            self.finite() ==> r.1 <= 2045,
    {
        let m: u64 = self.bits % SIGN;
        if m < TWO52 {
            (m, 0)
        } else {
            (TWO52 + m % TWO52, (m / TWO52 - 1) as u32)
        }
    }

    pub fn from_u64(i: u64) -> (r: Real)
        ensures
            r == Real::of_int(i as int),
    {
        let m = nearest_ratio(i as u128, 1, 1074);
        Real { bits: m }
    }

    pub fn from_i64(i: i64) -> (r: Real)
        ensures
            r == Real::of_int(i as int),
    {
        if i < 0 {
            let a: u128 = (-(i as i128)) as u128;
            let m = nearest_ratio(a, 1, 1074);
            Real { bits: m + SIGN }
        } else {
            let m = nearest_ratio(i as u128, 1, 1074);
            Real { bits: m }
        }
    }

    pub fn from_ratio(n: u64, d: u64) -> (r: Real)
        requires
            0 < d <= TWO53,
        ensures
            r == Real::of_ratio(n as nat, d as nat),
    {
        let m = nearest_ratio(n as u128, d, 1074);
        Real { bits: m }
    }

    pub fn times(self, other: Real) -> (r: Real)
        ensures
            r == self.product(other),
    {
        proof {
            reveal(Real::product);
        }
        let negative = self.is_negative() != other.is_negative();
        let a: u64 = self.bits % SIGN;
        let b: u64 = other.bits % SIGN;
        if a > INFINITE || b > INFINITE || (a == INFINITE && b == 0) || (a == 0 && b == INFINITE) {
            return Real { bits: NAN_BITS };
        }
        let m: u64 = if a == INFINITE || b == INFINITE {
            INFINITE
        } else {
            let (ma, qa) = self.parts();
            let (mb, qb) = other.parts();
            proof {
                assert(ma * mb < 0x400_0000_0000_0000_0000_0000_0000) by (nonlinear_arith)
                    requires
                        ma < TWO53,
                        mb < TWO53,
                ;
            }
            let n: u128 = ma as u128 * mb as u128;
            let s: i32 = qa as i32 + qb as i32 - 1074;
            proof {
                let n1 = shifted_up(n as nat, s as int);
                let d1 = shifted_up(1, -s);
                let pa = pow2(qa as nat) as int;
                let pb = pow2(qb as nat) as int;
                lemma_pow2_adds(qa as nat, qb as nat);
                assert(self.size() * other.size() == n * pow2((qa + qb) as nat)) by (nonlinear_arith)
                    requires
                        self.size() == ma * pa,
                        other.size() == mb * pb,
                        n == ma * mb,
                        pow2((qa + qb) as nat) == pa * pb,
                ;
                lemma_pow2_pos(1074);
                if s > 0 {
                    lemma_pow2_adds(s as nat, 1074);
                    lemma_mul_is_associative(n as int, pow2(s as nat) as int, unit() as int);
                } else {
                    lemma2_to64();
                    lemma_pow2_pos((-s) as nat);
                    lemma_pow2_adds((qa + qb) as nat, (-s) as nat);
                    lemma_mul_is_associative(n as int, pow2((qa + qb) as nat) as int, pow2((-s) as nat) as int);
                }
                lemma_nearest_same_ratio(n1, d1, self.size() * other.size(), unit());
            }
            nearest_ratio(n, 1, s)
        };
        if negative {
            Real { bits: m + SIGN }
        } else {
            Real { bits: m }
        }
    }

    pub fn over(self, other: Real) -> (r: Real)
        ensures
            r == self.quotient(other),
    {
        proof {
            reveal(Real::quotient);
        }
        let negative = self.is_negative() != other.is_negative();
        let a: u64 = self.bits % SIGN;
        let b: u64 = other.bits % SIGN;
        if a > INFINITE || b > INFINITE || (a == INFINITE && b == INFINITE) || (a == 0 && b == 0) {
            return Real { bits: NAN_BITS };
        }
        let m: u64 = if a == INFINITE || b == 0 {
            INFINITE
        } else if b == INFINITE {
            0
        } else {
            let (ma, qa) = self.parts();
            let (mb, qb) = other.parts();
            let s: i32 = qa as i32 - qb as i32 + 1074;
            proof {
                lemma_size_order(other, other);
                assert(mb > 0) by {
                    if mb == 0 {
                        assert(0 * pow2(qb as nat) == 0);
                    }
                }
                let n1 = shifted_up(ma as nat, s as int);
                let d1 = shifted_up(mb as nat, -s);
                let pa = pow2(qa as nat) as int;
                let pb = pow2(qb as nat) as int;
                let u = unit() as int;
                lemma2_to64();
                if s > 0 {
                    lemma_pow2_adds(s as nat, qb as nat);
                    lemma_pow2_adds(qa as nat, 1074);
                    let ps = pow2(s as nat) as int;
                    assert((ma * ps) * (mb * pb) == ((ma * pa) * u) * mb) by (nonlinear_arith)
                        requires
                            ps * pb == pa * u,
                    ;
                } else {
                    lemma_pow2_pos((-s) as nat);
                    lemma_mul_strictly_positive(mb as int, pow2((-s) as nat) as int);
                    lemma_pow2_adds(qa as nat, 1074);
                    lemma_pow2_adds((qa + 1074) as nat, (-s) as nat);
                    let ps = pow2((-s) as nat) as int;
                    assert(ma * (mb * pb) == ((ma * pa) * u) * (mb * ps)) by (nonlinear_arith)
                        requires
                            pb == (pa * u) * ps,
                    ;
                    if s == 0 {
                        assert(mb * 1 == mb);
                    }
                }
                lemma_nearest_same_ratio(n1, d1, self.size() * unit(), other.size());
            }
            nearest_ratio(ma as u128, mb, s)
        };
        if negative {
            Real { bits: m + SIGN }
        } else {
            Real { bits: m }
        }
    }
}

/// A number's own size is represented exactly.
pub proof fn lemma_exact(magnitude: nat)
    requires
        magnitude <= INFINITE,
    ensures
        nearest_magnitude(size_of_magnitude(magnitude), 1) == magnitude,
{
    let m = significand_of(magnitude);
    let q = exponent_of(magnitude);
    let n = size_of_magnitude(magnitude);
    lemma2_to64();
    lemma2_to64_rest();
    lemma_pow2_pos(q);
    lemma_mul_strict_inequality(m as int, TWO53 as int, pow2(q) as int);
    if q > 0 {
        lemma_pow2_unfold(q);
        lemma_mul_inequality(TWO52 as int, m as int, pow2(q) as int);
        assert(TWO53 * pow2((q - 1) as nat) == TWO52 * pow2(q)) by (nonlinear_arith)
            requires
                pow2(q) == 2 * pow2((q - 1) as nat),
                TWO53 == 2 * TWO52,
        ;
    }
    assert(1 * pow2(q) == pow2(q));
    assert(TWO53 * (1 * pow2(q)) == TWO53 * pow2(q));
    lemma_scale_unique(n, 1, q);
    lemma_fundamental_div_mod_converse(n as int, pow2(q) as int, m as int, 0);
    assert(nearest_even(n, pow2(q)) == m);
}

/// A number much smaller than another one does not change it.
proof fn lemma_absorbed(ma: nat, qa: nat, mb: nat, qb: nat, n: int)
    requires
        TWO52 <= ma < TWO53,
        mb < TWO53,
        qa >= qb + 60,
        n == ma * pow2(qa) + mb * pow2(qb) || n == ma * pow2(qa) - mb * pow2(qb),
    ensures
        n > 0,
        nearest_magnitude(n as nat, 1) == nearest_magnitude(ma * pow2(qa), 1),
{
    let g = (qa - qb) as nat;
    let a = ma * pow2(qa);
    let b = mb * pow2(qb);
    let one = pow2(qa);
    lemma2_to64();
    lemma2_to64_rest();
    lemma_pow2_pos(qa);
    lemma_pow2_pos(qb);
    lemma_pow2_adds(g, qb);
    lemma_pow2_le(60, g);
    // b is less than a quarter of the last place of a.
    assert(4 * b < one) by {
        lemma_mul_strict_inequality(4 * mb as int, pow2(g) as int, pow2(qb) as int);
        lemma_mul_is_associative(4, mb as int, pow2(qb) as int);
    }
    lemma_mul_strict_inequality(ma as int, TWO53 as int, one as int);
    lemma_mul_inequality(TWO52 as int, ma as int, one as int);
    lemma_mul_inequality((ma + 1) as int, TWO53 as int, one as int);
    assert((ma + 1) * one == ma * one + one) by (nonlinear_arith);
    assert(1 * one == one);
    lemma_pow2_unfold(qa);
    let half = pow2((qa - 1) as nat);
    assert(1 * half == half);
    assert(TWO53 * half == TWO52 * one) by (nonlinear_arith)
        requires
            one == 2 * half,
            TWO53 == 2 * TWO52,
    ;
    lemma_scale_unique(a, 1, qa);
    lemma_fundamental_div_mod_converse(a as int, one as int, ma as int, 0);
    assert(nearest_even(a, one) == ma);
    if b == 0 {
    } else if n == a + b {
        lemma_scale_unique(n as nat, 1, qa);
        lemma_fundamental_div_mod_converse(n, one as int, ma as int, b as int);
        assert(nearest_even(n as nat, one) == ma);
    } else if ma > TWO52 {
        lemma_mul_inequality(TWO52 + 1, ma as int, one as int);
        assert((TWO52 + 1) * one == TWO52 * one + one) by (nonlinear_arith);
        lemma_scale_unique(n as nat, 1, qa);
        assert(ma * one == (ma - 1) * one + one) by (nonlinear_arith);
        lemma_fundamental_div_mod_converse(n, one as int, ma - 1, one - b);
        assert(nearest_even(n as nat, one) == ma);
    } else {
        // The last place below a power of two is half as wide.
        lemma_pow2_unfold((qa - 1) as nat);
        let quarter = pow2((qa - 2) as nat);
        assert(TWO53 * quarter == TWO52 * half) by (nonlinear_arith)
            requires
                half == 2 * quarter,
                TWO53 == 2 * TWO52,
        ;
        assert(1 * quarter == quarter);
        lemma_pow2_pos((qa - 2) as nat);
        lemma_mul_inequality(TWO52 + 1, TWO53 as int, half as int);
        assert((TWO52 + 1) * half == TWO52 * half + half) by (nonlinear_arith);
        lemma_scale_unique(n as nat, 1, (qa - 1) as nat);
        assert(TWO53 * half == (TWO53 - 1) * half + half) by (nonlinear_arith);
        lemma_fundamental_div_mod_converse(n, half as int, TWO53 - 1, half - b);
        assert(nearest_even(n as nat, half) == TWO53);
    }
}

impl Real {
    /// The sum of two finite numbers, the first with the larger exponent.
    fn plus_smaller(self, other: Real) -> (r: Real)
        requires
            self.finite(),
            other.finite(),
            exponent_of(self.magnitude()) >= exponent_of(other.magnitude()),
        ensures
            r == self.sum(other),
    {
        proof {
            reveal(Real::sum);
        }
        let (ma, qa) = self.parts();
        let (mb, qb) = other.parts();
        let na = self.is_negative();
        let nb = other.is_negative();
        let g: u32 = qa - qb;
        if g >= 60 {
            proof {
                let n = if na == nb {
                    (self.size() + other.size()) as int
                } else {
                    self.size() - other.size()
                };
                lemma_absorbed(ma as nat, qa as nat, mb as nat, qb as nat, n);
                lemma_exact(self.magnitude());
            }
            return self;
        }
        let wide: u128 = two_to(g);
        proof {
            lemma2_to64();
            lemma2_to64_rest();
            lemma_pow2_le(g as nat, 59);
            assert(ma * wide < 0x1_0000_0000_0000_0000_0000_0000_0000) by (nonlinear_arith)
                requires
                    ma < TWO53,
                    wide <= 0x800_0000_0000_0000,
            ;
            lemma_pow2_adds(g as nat, qb as nat);
            lemma_mul_is_associative(ma as int, wide as int, pow2(qb as nat) as int);
            lemma_pow2_pos(qb as nat);
            lemma_mul_is_distributive_add(pow2(qb as nat) as int, ma * wide, mb as int);
            lemma_mul_is_distributive_sub(pow2(qb as nat) as int, ma * wide, mb as int);
            lemma_mul_is_distributive_sub(pow2(qb as nat) as int, mb as int, ma * wide);
        }
        let a: u128 = ma as u128 * wide;
        let b: u128 = mb as u128;
        let same = na == nb;
        let negative = if same || a >= b {
            na
        } else {
            nb
        };
        let n: u128 = if same {
            a + b
        } else if a >= b {
            a - b
        } else {
            b - a
        };
        let ghost exact = self.value() + other.value();
        proof {
            let p = pow2(qb as nat) as int;
            lemma_mul_is_commutative(p, a as int);
            lemma_mul_is_commutative(p, b as int);
            lemma_mul_is_commutative(p, n as int);
            assert(n * p == if negative {
                -exact
            } else {
                exact
            } || n == 0);
            if n > 0 {
                lemma_mul_strictly_positive(n as int, p);
            } else {
                assert(0 * p == 0);
            }
            if qb == 0 {
                assert(n * 1 == n);
            }
        }
        if n == 0 {
            if na && nb {
                Real { bits: SIGN }
            } else {
                Real { bits: 0 }
            }
        } else {
            let m = nearest_ratio(n, 1, qb as i32);
            if negative {
                Real { bits: m + SIGN }
            } else {
                Real { bits: m }
            }
        }
    }

    pub fn plus(self, other: Real) -> (r: Real)
        ensures
            r == self.sum(other),
    {
        proof {
            reveal(Real::sum);
        }
        let a: u64 = self.bits % SIGN;
        let b: u64 = other.bits % SIGN;
        if a > INFINITE || b > INFINITE || (a == INFINITE && b == INFINITE && self.is_negative()
            != other.is_negative()) {
            Real { bits: NAN_BITS }
        } else if a == INFINITE {
            self
        } else if b == INFINITE {
            other
        } else {
            let (ma, qa) = self.parts();
            let (mb, qb) = other.parts();
            if qa >= qb {
                self.plus_smaller(other)
            } else {
                other.plus_smaller(self)
            }
        }
    }

    pub fn minus(self, other: Real) -> (r: Real)
        ensures
            r == self.difference(other),
    {
        self.plus(other.neg())
    }

    /// The whole part of the size in units, cut off at the largest `u64`, and
    /// how the rest compares with one half: 0 for no rest, 1 for less than one
    /// half, 2 for one half or more.
    fn whole_and_rest(self) -> (r: (u64, u8))
        ensures
            r.0 == if self.size() / unit() <= u64::MAX {
                self.size() / unit()
            } else {
                u64::MAX as nat
            },
            r.1 == if self.size() % unit() == 0 {
                0int
            } else if 2 * (self.size() % unit()) < unit() {
                1
            } else {
                2
            },
    {
        let (m, q) = self.parts();
        let ghost p = pow2(q as nat) as int;
        proof {
            lemma_pow2_pos(q as nat);
            lemma_pow2_pos(1074);
            lemma2_to64();
            lemma2_to64_rest();
        }
        if q >= 1074 {
            let s: u32 = q - 1074;
            proof {
                lemma_pow2_adds(s as nat, 1074);
                lemma_mul_is_associative(m as int, pow2(s as nat) as int, unit() as int);
                lemma_fundamental_div_mod_converse(self.size() as int, unit() as int, m * pow2(s as nat), 0);
            }
            if s >= 64 {
                proof {
                    lemma_pow2_le(64, s as nat);
                    lemma_mul_inequality(1, m as int, pow2(s as nat) as int);
                }
                return (u64::MAX, 0);
            }
            let wide: u128 = two_to(s);
            proof {
                lemma_pow2_le(s as nat, 63);
                assert(m * wide < 0x1_0000_0000_0000_0000_0000_0000_0000_0000) by (nonlinear_arith)
                    requires
                        m < TWO53,
                        wide <= 0x8000_0000_0000_0000,
                ;
            }
            let t: u128 = m as u128 * wide;
            if t > u64::MAX as u128 {
                (u64::MAX, 0)
            } else {
                (t as u64, 0)
            }
        } else {
            let k: u32 = 1074 - q;
            proof {
                lemma_pow2_adds(k as nat, q as nat);
                lemma_pow2_pos(k as nat);
                lemma_mul_is_commutative(pow2(k as nat) as int, p);
                lemma_mul_is_commutative(m as int, p);
            }
            if k >= 64 {
                proof {
                    lemma_pow2_le(64, k as nat);
                    lemma_mul_strict_inequality(2 * m as int, pow2(k as nat) as int, p);
                    lemma_mul_is_associative(2, m as int, p);
                    lemma_mul_inequality(0, m as int, p);
                    lemma_fundamental_div_mod_converse(self.size() as int, unit() as int, 0, m * p);
                    if m > 0 {
                        lemma_mul_strictly_positive(m as int, p);
                    } else {
                        assert(0 * p == 0);
                    }
                }
                if m == 0 {
                    (0, 0)
                } else {
                    (0, 1)
                }
            } else {
                let wide: u128 = two_to(k);
                let t: u128 = m as u128 / wide;
                let rest: u128 = m as u128 % wide;
                proof {
                    let w = wide as int;
                    lemma_fundamental_div_mod(m as int, w);
                    assert(rest * p < w * p) by (nonlinear_arith)
                        requires
                            rest < w,
                            p > 0,
                    ;
                    assert(m * p == (w * p) * t + rest * p) by (nonlinear_arith)
                        requires
                            m == w * t + rest,
                    ;
                    lemma_mul_is_commutative(w * p, t as int);
                    assert(rest * p >= 0) by (nonlinear_arith)
                        requires
                            p > 0,
                            rest >= 0,
                    ;
                    lemma_fundamental_div_mod_converse(self.size() as int, unit() as int, t as int, rest * p);
                    assert(rest == 0 <==> rest * p == 0) by (nonlinear_arith)
                        requires
                            p > 0,
                    ;
                    assert(2 * rest < w <==> 2 * (rest * p) < w * p) by (nonlinear_arith)
                        requires
                            p > 0,
                    ;
                    assert(t <= m) by (nonlinear_arith)
                        requires
                            m == w * t + rest,
                            w >= 1,
                            rest >= 0,
                            t >= 0,
                    ;
                    lemma_pow2_le(k as nat, 63);
                }
                if rest == 0 {
                    (t as u64, 0)
                } else if 2 * rest < wide {
                    (t as u64, 1)
                } else {
                    (t as u64, 2)
                }
            }
        }
    }
}

/// An integer cut off at the bounds of `i64`.
pub open spec fn clip_i64(i: int) -> int {
    if i < i64::MIN {
        i64::MIN as int
    } else if i > i64::MAX {
        i64::MAX as int
    } else {
        i
    }
}

/// An integer cut off at the bounds of `u64`.
pub open spec fn clip_u64(i: int) -> int {
    if i < 0 {
        0
    } else if i > u64::MAX {
        u64::MAX as int
    } else {
        i
    }
}

impl Real {
    fn signed_i64(negative: bool, t: u64) -> (r: i64)
        ensures
            r == clip_i64(if negative {
                -(t as int)
            } else {
                t as int
            }),
    {
        if negative {
            if t >= SIGN {
                i64::MIN
            } else {
                -(t as i64)
            }
        } else if t >= SIGN {
            i64::MAX
        } else {
            t as i64
        }
    }

    /// The nearest integer, ties going away from zero, cut off at the bounds of `i64`.
    pub fn round_i64(self) -> (r: i64)
        ensures
            r == clip_i64(self.rounded()),
    {
        if self.is_nan() {
            return 0;
        }
        proof {
            lemma_pow2_pos(1074);
        }
        let (t, rest) = self.whole_and_rest();
        let t: u64 = if rest == 2 && t < u64::MAX {
            t + 1
        } else {
            t
        };
        Real::signed_i64(self.is_negative(), t)
    }

    /// The integer without the fraction, cut off at the bounds of `i64`.
    pub fn trunc_i64(self) -> (r: i64)
        ensures
            r == clip_i64(self.truncated()),
    {
        if self.is_nan() {
            return 0;
        }
        proof {
            lemma_pow2_pos(1074);
        }
        let (t, rest) = self.whole_and_rest();
        Real::signed_i64(self.is_negative(), t)
    }

    /// The nearest integer, ties going away from zero, cut off at the bounds of `u64`.
    pub fn round_u64(self) -> (r: u64)
        ensures
            r == clip_u64(self.rounded()),
    {
        if self.is_nan() || self.is_negative() {
            return 0;
        }
        proof {
            lemma_pow2_pos(1074);
        }
        let (t, rest) = self.whole_and_rest();
        if rest == 2 && t < u64::MAX {
            t + 1
        } else {
            t
        }
    }

    /// The smallest integer that is not less, cut off at the bounds of `u64`.
    pub fn ceil_u64(self) -> (r: u64)
        ensures
            r == if self.nan() || self.negative() {
                0
            } else {
                clip_u64(ceiling(self.size(), unit()) as int)
            },
    {
        if self.is_nan() || self.is_negative() {
            return 0;
        }
        proof {
            lemma_pow2_pos(1074);
        }
        let (t, rest) = self.whole_and_rest();
        if rest != 0 && t < u64::MAX {
            t + 1
        } else {
            t
        }
    }
}

impl Real {
    pub fn abs(self) -> (r: Real)
        ensures
            r == self.absolute(),
    {
        Real { bits: self.bits % SIGN }
    }

    /// The nearest integral number, ties going away from zero.
    pub fn round(self) -> (r: Real)
        ensures
            r == self.integral(),
    {
        if !self.is_finite() {
            return self;
        }
        let (m, q) = self.parts();
        proof {
            lemma_pow2_pos(1074);
        }
        if q >= 1074 {
            proof {
                let s = (q - 1074) as nat;
                lemma_pow2_adds(s, 1074);
                lemma_mul_is_associative(m as int, pow2(s) as int, unit() as int);
                lemma_fundamental_div_mod_converse(
                    self.size() as int,
                    unit() as int,
                    m * pow2(s),
                    0,
                );
                lemma_exact(self.magnitude());
            }
            return self;
        }
        let (t, rest) = self.whole_and_rest();
        let t: u128 = if rest == 2 {
            t as u128 + 1
        } else {
            t as u128
        };
        proof {
            // Below 2^53 the whole part is not cut off.
            lemma_pow2_le(q as nat, 1074);
            lemma2_to64();
            lemma2_to64_rest();
            let u = unit() as int;
            lemma_mul_inequality(pow2(q as nat) as int, u, m as int);
            lemma_mul_is_commutative(m as int, pow2(q as nat) as int);
            lemma_mul_is_commutative(m as int, u);
            lemma_fundamental_div_mod(self.size() as int, u);
            let w = self.size() as int / u;
            assert(w <= m) by (nonlinear_arith)
                requires
                    u > 0,
                    u * w <= m * u,
            ;
        }
        let n = nearest_ratio(t, 1, 1074);
        if self.is_negative() {
            Real { bits: n + SIGN }
        } else {
            Real { bits: n }
        }
    }

    /// Whether two numbers are equal, the two zeros alike.
    pub open spec fn equal(self, other: Real) -> bool {
        !self.nan() && !other.nan() && self.value() == other.value()
    }

    pub fn eq_value(self, other: Real) -> (b: bool)
        ensures
            b == self.equal(other),
    {
        self.le(other) && other.le(self)
    }
}

/// An integer below `2^53` is a number of its own: its value is exact.
pub proof fn lemma_small_int(i: int)
    requires
        -(TWO53 as int) < i < TWO53,
    ensures
        Real::of_int(i).finite(),
        Real::of_int(i).value() == i * unit(),
        unit() > 0,
        i != 0 ==> Real::of_int(i).negative() == (i < 0),
{
    let a: nat = if i < 0 {
        (-i) as nat
    } else {
        i as nat
    };
    let u = unit();
    lemma_pow2_pos(1074);
    lemma_exact_int(a);
    let m = nearest_magnitude(a * u, 1);
    let r = Real::of_int(i);
    assert(m < SIGN);
    assert(r.magnitude() == m);
    if i < 0 {
        assert(-(a * u) == i * u) by (nonlinear_arith)
            requires
                a == -i,
        ;
    }
    if i == 0 {
        assert(0 * u == 0);
    }
}

proof fn lemma_exact_int(a: nat)
    requires
        a < TWO53,
    ensures
        nearest_magnitude(a * unit(), 1) < INFINITE,
        size_of_magnitude(nearest_magnitude(a * unit(), 1)) == a * unit(),
{
    let u = unit();
    lemma_pow2_pos(1074);
    lemma2_to64();
    lemma2_to64_rest();
    if a == 0 {
        assert(0 * u == 0);
        assert(significand_of(0) == 0 && exponent_of(0) == 0);
        lemma_exact(0);
    } else {
        lemma_exact_shifted(a, 1074);
    }
}

/// A number of at most 53 bits, shifted up, is a number of its own.
pub proof fn lemma_exact_shifted(a: nat, k: nat)
    requires
        0 < a < TWO53,
        k <= 1990,
    ensures
        nearest_magnitude(a * pow2(k), 1) < INFINITE,
        size_of_magnitude(nearest_magnitude(a * pow2(k), 1)) == a * pow2(k),
    decreases k,
{
    lemma2_to64();
    lemma2_to64_rest();
    if a >= TWO52 {
        let magnitude = (k + 1) * (TWO52 as nat) + (a - TWO52) as nat;
        lemma_fundamental_div_mod_converse(
            magnitude as int,
            TWO52 as int,
            (k + 1) as int,
            a - TWO52,
        );
        assert(significand_of(magnitude) == a);
        assert(exponent_of(magnitude) == k);
        assert(magnitude < INFINITE);
        lemma_exact(magnitude);
    } else if k == 0 {
        assert(a * 1 == a);
        assert(significand_of(a) == a && exponent_of(a) == 0);
        lemma_exact(a);
    } else {
        lemma_pow2_unfold(k);
        let h = pow2((k - 1) as nat);
        assert(a * (2 * h) == (2 * a) * h) by (nonlinear_arith);
        lemma_exact_shifted(2 * a, (k - 1) as nat);
    }
}

/// Adding zero changes nothing but the sign of a zero.
pub proof fn lemma_add_zero(x: Real)
    requires
        x.finite(),
    ensures
        x.sum(Real { bits: 0 }).finite(),
        x.sum(Real { bits: 0 }).value() == x.value(),
{
    reveal(Real::sum);
    let zero = Real { bits: 0 };
    lemma_size_order(zero, zero);
    lemma_size_order(x, x);
    lemma_exact(x.magnitude());
    assert(zero.value() == 0);
    if x.value() == 0 {
        assert(x.sum(zero).magnitude() == 0);
        lemma_size_order(x.sum(zero), x.sum(zero));
    } else {
        assert(x.sum(zero) == signed(x.value() < 0, x.magnitude()));
        assert(x.sum(zero) == x);
    }
}

/// A finite number less itself is zero.
pub proof fn lemma_self_difference(x: Real)
    requires
        x.finite(),
    ensures
        x.difference(x) == (Real { bits: 0 }),
{
    reveal(Real::sum);
    let y = x.negated();
    assert(y.magnitude() == x.magnitude());
    assert(y.negative() != x.negative());
    assert(x.value() + y.value() == 0);
}

/// Zero divided by a positive number is zero.
pub proof fn lemma_zero_quotient(d: Real)
    requires
        d.finite(),
        !d.negative(),
        d.value() > 0,
    ensures
        Real::of_int(0) == (Real { bits: 0 }),
        Real::of_int(0).quotient(d) == (Real { bits: 0 }),
{
    reveal(Real::quotient);
    let u = unit();
    lemma_pow2_pos(1074);
    lemma2_to64();
    assert(0 * u == 0);
    lemma_nearest_zero(1);
    let zero = Real { bits: 0 };
    assert(Real::of_int(0) == zero);
    lemma_size_order(zero, zero);
    lemma_size_order(d, d);
    lemma_nearest_zero(d.size());
}

pub proof fn lemma_nearest_zero(d: nat)
    requires
        d > 0,
    ensures
        nearest_magnitude(0, d) == 0,
{
    lemma2_to64();
    assert(d * TWO53 > 0) by (nonlinear_arith)
        requires
            d > 0,
    ;
    assert(d * 1 == d);
    lemma_fundamental_div_mod_converse(0, d as int, 0, 0);
}

/// The size of the magnitude nearest to a ratio is its significand, scaled.
pub proof fn lemma_nearest_size(n: nat, d: nat)
    requires
        d > 0,
        scale_of(n, d) <= 2044 || nearest_magnitude(n, d) < INFINITE,
    ensures
        nearest_magnitude(n, d) < INFINITE,
        size_of_magnitude(nearest_magnitude(n, d)) == nearest_even(n, d * pow2(scale_of(n, d)))
            * pow2(scale_of(n, d)),
{
    let q = scale_of(n, d);
    let m = nearest_even(n, d * pow2(q));
    lemma_significand_bounds(n, d);
    lemma2_to64();
    lemma2_to64_rest();
    let magnitude = q * (TWO52 as nat) + m;
    if m < TWO53 {
        if m >= TWO52 {
            lemma_fundamental_div_mod_converse(
                magnitude as int,
                TWO52 as int,
                (q + 1) as int,
                m - TWO52,
            );
        } else {
            assert(m * 1 == m);
        }
    } else {
        lemma_fundamental_div_mod_converse(magnitude as int, TWO52 as int, (q + 2) as int, 0);
        lemma_pow2_unfold(q + 1);
        assert(TWO52 * (2 * pow2(q)) == TWO53 * pow2(q)) by (nonlinear_arith)
            requires
                TWO53 == 2 * TWO52,
        ;
    }
}

/// The number nearest to a ratio is off by at most half of its last place.
proof fn lemma_last_place(n: nat, d: nat)
    requires
        d > 0,
        scale_of(n, d) <= 2044 || nearest_magnitude(n, d) < INFINITE,
    ensures
        nearest_magnitude(n, d) < INFINITE,
        ({
            let y = size_of_magnitude(nearest_magnitude(n, d)) * d;
            let e = d * pow2(scale_of(n, d));
            2 * y <= 2 * n + e && 2 * y + e >= 2 * n
        }),
{
    let q = scale_of(n, d);
    lemma_nearest_size(n, d);
    let dd = (d * pow2(q)) as int;
    lemma_pow2_pos(q);
    lemma_mul_strictly_positive(d as int, pow2(q) as int);
    lemma_fundamental_div_mod(n as int, dd);
    let t = n as int / dd;
    let m = nearest_even(n, d * pow2(q));
    let p = pow2(q);
    assert((m * p) * d == m * dd) by (nonlinear_arith)
        requires
            dd == d * p,
    ;
    assert((t + 1) * dd == t * dd + dd) by (nonlinear_arith);
    lemma_mul_is_commutative(dd, t);
}

/// The number nearest to a ratio is off by at most half of the last place of a larger
/// one.
pub proof fn lemma_nearest_error(n: nat, d: nat, k: nat)
    requires
        d > 0,
        k <= 2044,
        n < d * TWO53 * pow2(k),
    ensures
        nearest_magnitude(n, d) < INFINITE,
        2 * (size_of_magnitude(nearest_magnitude(n, d)) * d) <= 2 * n + d * pow2(k),
        2 * (size_of_magnitude(nearest_magnitude(n, d)) * d) + d * pow2(k) >= 2 * n,
{
    let q = scale_of(n, d);
    lemma_scale_bounds(n, d);
    if q > k {
        lemma_pow2_le(k, (q - 1) as nat);
        let c = (d * TWO53) as int;
        assert(c * pow2(k) <= c * pow2((q - 1) as nat)) by (nonlinear_arith)
            requires
                pow2(k) <= pow2((q - 1) as nat),
                c == d * TWO53,
                d >= 0,
        ;
    }
    lemma_last_place(n, d);
    lemma_pow2_le(q, k);
    assert(d * pow2(q) <= d * pow2(k)) by (nonlinear_arith)
        requires
            pow2(q) <= pow2(k),
            d >= 0,
    ;
}

/// A finite number nearest to a ratio is off by at most one part in `2^53` of it and one
/// unit.
pub proof fn lemma_finite_error(n: nat, d: nat)
    requires
        d > 0,
        nearest_magnitude(n, d) < INFINITE,
    ensures
        TWO53 * (size_of_magnitude(nearest_magnitude(n, d)) * d) <= (TWO53 + 1) * n + TWO53 * d,
        TWO53 * (size_of_magnitude(nearest_magnitude(n, d)) * d) + TWO53 * d >= (TWO53 - 1) * n,
{
    let k = scale_of(n, d);
    lemma_scale_bounds(n, d);
    lemma_last_place(n, d);
    let e = (d * pow2(k)) as int;
    if k == 0 {
        lemma2_to64();
        assert(d * 1 == d);
    } else {
        lemma_pow2_unfold(k);
        let p = pow2((k - 1) as nat);
        assert(TWO52 * e == d * TWO53 * p) by (nonlinear_arith)
            requires
                e == d * (2 * p),
                TWO53 == 2 * TWO52,
        ;
    }
}

/// A finite number nearest to a count of units is off by at most one part in `2^53` of
/// it.
pub proof fn lemma_integer_error(n: nat)
    requires
        nearest_magnitude(n, 1) < INFINITE,
    ensures
        TWO53 * size_of_magnitude(nearest_magnitude(n, 1)) <= (TWO53 + 1) * n,
        TWO53 * size_of_magnitude(nearest_magnitude(n, 1)) >= (TWO53 - 1) * n,
{
    let y = size_of_magnitude(nearest_magnitude(n, 1));
    let k = scale_of(n, 1);
    lemma_scale_bounds(n, 1);
    lemma_nearest_size(n, 1);
    lemma_last_place(n, 1);
    assert(y * 1 == y);
    let e = pow2(k);
    assert(1 * e == e);
    if k == 0 {
        lemma2_to64();
        assert(nearest_even(n, 1) == n);
        assert(n * 1 == n);
    } else {
        lemma_pow2_unfold(k);
        let p = pow2((k - 1) as nat);
        assert(1 * TWO53 * p == TWO53 * p);
    }
}

/// The number nearest to a ratio is off by at most one part in `2^53` of it, where the
/// ratio is not too small for that.
pub proof fn lemma_relative_error(n: nat, d: nat)
    requires
        d > 0,
        n >= d * TWO52,
        n < d * TWO53 * pow2(2044),
    ensures
        nearest_magnitude(n, d) < INFINITE,
        TWO53 * (size_of_magnitude(nearest_magnitude(n, d)) * d) <= (TWO53 + 1) * n,
        TWO53 * (size_of_magnitude(nearest_magnitude(n, d)) * d) >= (TWO53 - 1) * n,
{
    let k = scale_of(n, d);
    lemma_scale_bounds(n, d);
    let c = (d * TWO53) as int;
    assert(c >= 0) by (nonlinear_arith)
        requires
            c == d * TWO53,
            d >= 0,
    ;
    if k > 2044 {
        lemma_pow2_le(2044, (k - 1) as nat);
        assert(c * pow2(2044) <= c * pow2((k - 1) as nat)) by (nonlinear_arith)
            requires
                pow2(2044) <= pow2((k - 1) as nat),
                c >= 0,
        ;
    }
    lemma_nearest_error(n, d, k);
    let y = (size_of_magnitude(nearest_magnitude(n, d)) * d) as int;
    let e = (d * pow2(k)) as int;
    assert(TWO52 * e <= n) by {
        if k == 0 {
            lemma2_to64();
            assert(d * 1 == d);
        } else {
            lemma_pow2_unfold(k);
            let p = pow2((k - 1) as nat);
            assert(TWO52 * e == d * TWO53 * p) by (nonlinear_arith)
                requires
                    e == d * (2 * p),
                    TWO53 == 2 * TWO52,
            ;
        }
    }
}

/// A number that is not above another one has no larger size, where neither is
/// negative.
pub proof fn lemma_size_at_most(a: nat, b: nat)
    requires
        a <= b,
    ensures
        size_of_magnitude(a) <= size_of_magnitude(b),
{
    if a < b {
        lemma_size_increases(a, b);
    }
}

/// Rounding to an integer keeps order.
pub proof fn lemma_nearest_up_monotone(a: nat, b: nat, d: nat)
    requires
        d > 0,
        a <= b,
    ensures
        nearest_up(a, d) <= nearest_up(b, d),
{
    lemma_fundamental_div_mod(a as int, d as int);
    lemma_fundamental_div_mod(b as int, d as int);
    lemma_div_is_ordered(a as int, b as int, d as int);
}

/// The size of a natural number below `2^53`.
pub proof fn lemma_nat_size(i: nat)
    requires
        i < TWO53,
    ensures
        Real::of_int(i as int).finite(),
        !Real::of_int(i as int).negative(),
        Real::of_int(i as int).size() == i * unit(),
        Real::of_int(i as int).magnitude() == nearest_magnitude(i * unit(), 1),
        Real::of_int(i as int).zero() == (i == 0),
        unit() > 0,
{
    lemma_small_int(i as int);
    let r = Real::of_int(i as int);
    assert(nearest_magnitude(i * unit(), 1) <= INFINITE);
    lemma_size_order(r, r);
    let u = unit();
    assert((i * u == 0) == (i == 0)) by (nonlinear_arith)
        requires
            u > 0,
    ;
}

/// Products of natural numbers below `2^53` are those of integers, rounded.
pub proof fn lemma_int_product(a: nat, b: nat)
    requires
        a < TWO53,
        b < TWO53,
    ensures
        Real::of_int(a as int).product(Real::of_int(b as int)) == Real::of_int((a * b) as int),
{
    reveal(Real::product);
    lemma_nat_size(a);
    lemma_nat_size(b);
    let u = unit();
    let n = (a * u) * (b * u);
    assert(n == ((a * b) * u) * u) by (nonlinear_arith)
        requires
            n == (a * u) * (b * u),
    ;
    assert(a * b >= 0) by (nonlinear_arith);
    assert(n * 1 == ((a * b) * u) * u);
    lemma_nearest_same_ratio(n, u, (a * b) * u, 1);
}

/// Sums of natural numbers below `2^53` are those of integers, rounded.
pub proof fn lemma_int_sum(a: nat, b: nat)
    requires
        a < TWO53,
        b < TWO53,
    ensures
        Real::of_int(a as int).sum(Real::of_int(b as int)) == Real::of_int((a + b) as int),
{
    reveal(Real::sum);
    lemma_nat_size(a);
    lemma_nat_size(b);
    let u = unit();
    assert(a * u + b * u == (a + b) * u) by (nonlinear_arith);
    if a + b == 0 {
        assert(0 * u == 0);
        lemma_nearest_zero(1);
    } else {
        assert((a + b) * u > 0) by (nonlinear_arith)
            requires
                a + b > 0,
                u > 0,
        ;
    }
}

/// The magnitude of `2^128`, where single precision ends.
pub const SINGLE_END: u64 = 0x47f0_0000_0000_0000;

impl Real {
    /// The power of two that the last place of this number has in single precision,
    /// counted from `2^-1074`.
    pub open spec fn single_place(self) -> nat {
        let e = exponent_of(self.magnitude());
        if e + 29 >= 925 {
            e + 29
        } else {
            925
        }
    }

    /// This number rounded to single precision.
    pub open spec fn single(self) -> Real {
        if !self.finite() {
            self
        } else {
            let q = self.single_place();
            let m = nearest_magnitude(nearest_even(self.size(), pow2(q)) * pow2(q), 1);
            signed(
                self.negative(),
                if m >= SINGLE_END {
                    INFINITE as nat
                } else {
                    m
                },
            )
        }
    }

    /// Rounds to single precision.
    pub fn to_single(self) -> (r: Real)
        ensures
            r == self.single(),
    {
        if !self.is_finite() {
            return self;
        }
        let (m, e) = self.parts();
        let q: u32 = if e + 29 >= 925 {
            e + 29
        } else {
            925
        };
        let shift: u32 = q - e;
        proof {
            lemma2_to64();
            lemma2_to64_rest();
            lemma_pow2_pos(e as nat);
            lemma_pow2_pos(shift as nat);
            lemma_pow2_adds(shift as nat, e as nat);
            lemma_nearest_even_scaled(m as nat, pow2(shift as nat), pow2(e as nat));
        }
        let short: u128 = if shift >= 60 {
            proof {
                lemma_pow2_le(60, shift as nat);
                lemma_fundamental_div_mod_converse(m as int, pow2(shift as nat) as int, 0, m as int);
            }
            0
        } else {
            let wide: u128 = two_to(shift);
            proof {
                lemma_pow2_le(shift as nat, 60);
                lemma_pow2_le(1, shift as nat);
                lemma_fundamental_div_mod(m as int, pow2(shift as nat) as int);
                let t = m as int / pow2(shift as nat) as int;
                assert(t <= m) by (nonlinear_arith)
                    requires
                        m == pow2(shift as nat) * t + m as int % pow2(shift as nat) as int,
                        m as int % pow2(shift as nat) as int >= 0,
                        pow2(shift as nat) >= 1,
                        t >= 0,
                ;
            }
            divide_nearest(m as u128, wide)
        };
        proof {
            assert(short == nearest_even(self.size(), pow2(q as nat)));
        }
        let n = nearest_ratio(short, 1, q as i32);
        let magnitude: u64 = if n >= SINGLE_END {
            INFINITE
        } else {
            n
        };
        if self.is_negative() {
            Real { bits: magnitude + SIGN }
        } else {
            Real { bits: magnitude }
        }
    }
}

/// Zero is the pattern without any bit.
pub proof fn lemma_zero_bits()
    ensures
        (Real { bits: 0 }).value() == 0,
        (Real { bits: 0 }).finite(),
{
    let zero = Real { bits: 0 };
    lemma_size_order(zero, zero);
}

/// A sum lies on the side of zero that the exact sum lies on, and not beyond an
/// integer that the exact sum does not lie beyond.
pub proof fn lemma_sum_bound(a: Real, b: Real, limit: nat)
    requires
        a.finite(),
        b.finite(),
        limit < TWO53,
        -(limit * unit()) <= a.value() + b.value() <= limit * unit(),
    ensures
        a.sum(b).finite(),
        -(limit * unit()) <= a.sum(b).value() <= limit * unit(),
        a.value() + b.value() >= 0 ==> a.sum(b).value() >= 0,
        a.value() + b.value() <= 0 ==> a.sum(b).value() <= 0,
{
    reveal(Real::sum);
    let exact = a.value() + b.value();
    let r = a.sum(b);
    if exact == 0 {
        assert(r.magnitude() == 0);
        lemma_size_order(r, r);
        let u = unit();
        assert(limit * u >= 0) by (nonlinear_arith);
    } else {
        let n: nat = if exact < 0 {
            (-exact) as nat
        } else {
            exact as nat
        };
        let top = limit * unit();
        lemma_nat_size(limit);
        lemma_nearest_monotone(n, 1, top, 1);
        let m = nearest_magnitude(n, 1);
        lemma_size_at_most(m, nearest_magnitude(top, 1));
        assert(nearest_magnitude(top, 1) < INFINITE) by {
            assert(Real::of_int(limit as int).finite());
        }
        assert(r.magnitude() == m);
        assert(r.negative() == (exact < 0));
    }
}

/// Sums of integers below `2^52` are exact.
pub proof fn lemma_signed_int_sum(a: int, b: int)
    requires
        -(TWO52 as int) < a < TWO52,
        -(TWO52 as int) < b < TWO52,
    ensures
        Real::of_int(a).sum(Real::of_int(b)) == Real::of_int(a + b),
{
    reveal(Real::sum);
    lemma_small_int(a);
    lemma_small_int(b);
    let u = unit();
    assert(a * u + b * u == (a + b) * u) by (nonlinear_arith);
    lemma_nearest_zero(1);
    assert(0 * u == 0);
    if a + b > 0 {
        assert((a + b) * u > 0) by (nonlinear_arith)
            requires
                a + b > 0,
                u > 0,
        ;
    } else if a + b < 0 {
        assert((a + b) * u < 0) by (nonlinear_arith)
            requires
                a + b < 0,
                u > 0,
        ;
        assert(-((a + b) * u) == (-(a + b)) * u) by (nonlinear_arith);
    }
}

/// Differences of integers below `2^52` are exact.
pub proof fn lemma_signed_int_difference(a: int, b: int)
    requires
        -(TWO52 as int) < a < TWO52,
        -(TWO52 as int) < b < TWO52,
    ensures
        Real::of_int(a).difference(Real::of_int(b)) == Real::of_int(a - b),
{
    lemma_small_int(b);
    lemma_small_int(-b);
    if b == 0 {
        reveal(Real::sum);
        lemma_small_int(a);
        let u = unit();
        assert(0 * u == 0);
        lemma_nearest_zero(1);
        let x = Real::of_int(a);
        let z = Real::of_int(0).negated();
        lemma_size_order(z, z);
        assert(z.value() == 0);
        if a > 0 {
            assert(a * u > 0) by (nonlinear_arith)
                requires
                    a > 0,
                    u > 0,
            ;
        } else if a < 0 {
            assert(a * u < 0) by (nonlinear_arith)
                requires
                    a < 0,
                    u > 0,
            ;
            assert(-(a * u) == (-a) * u) by (nonlinear_arith);
        }
    } else {
        assert(Real::of_int(b).negated() == Real::of_int(-b));
        lemma_signed_int_sum(a, -b);
    }
}

/// A number with the other sign has the opposite value.
pub proof fn lemma_negated(x: Real)
    requires
        !x.nan(),
    ensures
        x.negated().value() == -x.value(),
        x.negated().finite() == x.finite(),
{
    let y = x.negated();
    assert(y.magnitude() == x.magnitude());
    assert(y.negative() != x.negative());
}

} // verus!
