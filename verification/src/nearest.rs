//! Rounding an exact ratio to the nearest number with a 53-bit significand.
//!
//! A non-negative binary64 magnitude is the integer `q * 2^52 + m`, which stands
//! for `m * 2^q` units of `2^-1074`; the magnitudes are in the order of the
//! numbers that they stand for, and the one after the largest finite number is
//! the pattern of infinity.

use vstd::arithmetic::div_mod::{
    lemma_div_denominator, lemma_div_is_ordered, lemma_fundamental_div_mod,
    lemma_fundamental_div_mod_converse, lemma_truncate_middle,
};
use vstd::arithmetic::mul::{
    lemma_mul_inequality, lemma_mul_is_associative, lemma_mul_is_commutative,
    lemma_mul_strict_inequality, lemma_mul_strict_inequality_converse, lemma_mul_strictly_positive,
};
use vstd::arithmetic::power2::{
    lemma2_to64, lemma2_to64_rest, lemma_pow2_adds, lemma_pow2_pos, lemma_pow2_strictly_increases,
    lemma_pow2_unfold, pow2,
};
use vstd::prelude::*;

use crate::natural::Natural;

verus! {

/// `2^52`, the weight of the leading significand bit.
pub const TWO52: u64 = 0x10_0000_0000_0000;

/// `2^53`, the first integer that needs more than 53 bits.
pub const TWO53: u64 = 0x20_0000_0000_0000;

/// The magnitude of infinity.
pub const INFINITE: u64 = 0x7ff0_0000_0000_0000;

/// The integer nearest to `n / d`, the even one of two that are equally near.
pub open spec fn nearest_even(n: nat, d: nat) -> nat {
    let t = n / d;
    let r = n % d;
    if 2 * r < d || (2 * r == d && t % 2 == 0) {
        t
    } else {
        t + 1
    }
}

/// How often `n` has to be halved until fewer than 54 bits are left of `n / d`.
pub open spec fn scale_of(n: nat, d: nat) -> nat
    decreases n,
{
    if d == 0 || n < d * TWO53 {
        0
    } else {
        1 + scale_of(n / 2, d)
    }
}

/// The magnitude nearest to `n / d` units of `2^-1074`, ties going to the even
/// significand and what lies beyond the largest finite number to infinity.
pub open spec fn nearest_magnitude(n: nat, d: nat) -> nat {
    let q = scale_of(n, d);
    let packed = q * (TWO52 as nat) + nearest_even(n, d * pow2(q));
    if packed > INFINITE {
        INFINITE as nat
    } else {
        packed
    }
}

/// `n * 2^s` for a shift that is not negative, else `n`.
pub open spec fn shifted_up(n: nat, s: int) -> nat {
    if s > 0 {
        n * pow2(s as nat)
    } else {
        n
    }
}

pub proof fn lemma_pow2_le(a: nat, b: nat)
    requires
        a <= b,
    ensures
        pow2(a) <= pow2(b),
{
    if a < b {
        lemma_pow2_strictly_increases(a, b);
    }
}

pub proof fn lemma_scale_bounds(n: nat, d: nat)
    requires
        d > 0,
    ensures
        n < d * TWO53 * pow2(scale_of(n, d)),
        scale_of(n, d) > 0 ==> n >= d * TWO53 * pow2((scale_of(n, d) - 1) as nat),
    decreases n,
{
    lemma2_to64();
    let c = (d * TWO53) as int;
    if n < d * TWO53 {
        assert(c * 1 == c);
    } else {
        assert(d * TWO53 >= 1) by (nonlinear_arith)
            requires
                d > 0,
        ;
        let k = scale_of(n / 2, d);
        lemma_scale_bounds(n / 2, d);
        lemma_pow2_unfold((k + 1) as nat);
        assert(c * (2 * pow2(k)) == 2 * (c * pow2(k))) by (nonlinear_arith);
        if k > 0 {
            lemma_pow2_unfold(k);
            let p = pow2((k - 1) as nat) as int;
            assert(c * (2 * p) == 2 * (c * p)) by (nonlinear_arith);
        } else {
            assert(c * 1 == c);
        }
    }
}

pub proof fn lemma_scale_unique(n: nat, d: nat, k: nat)
    requires
        d > 0,
        n < d * TWO53 * pow2(k),
        k > 0 ==> n >= d * TWO53 * pow2((k - 1) as nat),
    ensures
        scale_of(n, d) == k,
{
    lemma_scale_bounds(n, d);
    let q = scale_of(n, d);
    let c = (d * TWO53) as int;
    assert(c >= 0) by (nonlinear_arith)
        requires
            c == d * TWO53,
    ;
    if q < k {
        lemma_pow2_le(q, (k - 1) as nat);
        lemma_mul_inequality(pow2(q) as int, pow2((k - 1) as nat) as int, c);
        lemma_mul_is_commutative(c, pow2(q) as int);
        lemma_mul_is_commutative(c, pow2((k - 1) as nat) as int);
    } else if k < q {
        lemma_pow2_le(k, (q - 1) as nat);
        lemma_mul_inequality(pow2(k) as int, pow2((q - 1) as nat) as int, c);
        lemma_mul_is_commutative(c, pow2(k) as int);
        lemma_mul_is_commutative(c, pow2((q - 1) as nat) as int);
    }
}

pub proof fn lemma_nearest_even_scaled(n: nat, d: nat, c: nat)
    requires
        d > 0,
        c > 0,
    ensures
        nearest_even(n * c, d * c) == nearest_even(n, d),
{
    lemma_mul_strictly_positive(d as int, c as int);
    lemma_mul_is_commutative(n as int, c as int);
    lemma_mul_is_commutative(d as int, c as int);
    lemma_truncate_middle(n as int, c as int, d as int);
    lemma_div_denominator((c * n) as int, c as int, d as int);
    assert((c * n) / c == n) by (nonlinear_arith)
        requires
            c > 0,
    ;
    let r = (n % d) as int;
    assert(2 * (c * r) == c * (2 * r)) by (nonlinear_arith);
    if 2 * r < d {
        lemma_mul_strict_inequality(2 * r, d as int, c as int);
        lemma_mul_is_commutative(2 * r, c as int);
    } else if 2 * r > d {
        lemma_mul_strict_inequality(d as int, 2 * r, c as int);
        lemma_mul_is_commutative(2 * r, c as int);
    }
}

/// Scaling both sides of a ratio leaves the nearest magnitude as it is.
pub proof fn lemma_nearest_scaled(n: nat, d: nat, c: nat)
    requires
        d > 0,
        c > 0,
    ensures
        nearest_magnitude(n * c, d * c) == nearest_magnitude(n, d),
{
    let q = scale_of(n, d);
    lemma_scale_bounds(n, d);
    lemma_mul_strictly_positive(d as int, c as int);
    let x = d * TWO53 * pow2(q);
    lemma_mul_strict_inequality(n as int, x as int, c as int);
    assert(x * c == (d * c) * TWO53 * pow2(q)) by (nonlinear_arith)
        requires
            x == d * TWO53 * pow2(q),
    ;
    if q > 0 {
        let y = d * TWO53 * pow2((q - 1) as nat);
        lemma_mul_inequality(y as int, n as int, c as int);
        assert(y * c == (d * c) * TWO53 * pow2((q - 1) as nat)) by (nonlinear_arith)
            requires
                y == d * TWO53 * pow2((q - 1) as nat),
        ;
    }
    lemma_scale_unique(n * c, d * c, q);
    lemma_pow2_pos(q);
    lemma_mul_strictly_positive(d as int, pow2(q) as int);
    lemma_nearest_even_scaled(n, d * pow2(q), c);
    assert(d * pow2(q) * c == d * c * pow2(q)) by (nonlinear_arith);
}

/// Equal ratios have the same nearest magnitude.
pub proof fn lemma_nearest_same_ratio(n1: nat, d1: nat, n2: nat, d2: nat)
    requires
        d1 > 0,
        d2 > 0,
        n1 * d2 == n2 * d1,
    ensures
        nearest_magnitude(n1, d1) == nearest_magnitude(n2, d2),
{
    lemma_nearest_scaled(n1, d1, d2);
    lemma_nearest_scaled(n2, d2, d1);
    lemma_mul_is_commutative(d1 as int, d2 as int);
}

/// `2^k`.
pub(crate) fn two_to(k: u32) -> (r: u128)
    requires
        k <= 126,
    ensures
        r == pow2(k as nat),
        r > 0,
{
    let mut r: u128 = 1;
    let mut i: u32 = 0;
    proof {
        lemma2_to64();
        assert(pow2(126) == 0x4000_0000_0000_0000_0000_0000_0000_0000) by {
            lemma2_to64_rest();
            lemma_pow2_adds(63, 63);
        }
    }
    while i < k
        invariant
            i <= k <= 126,
            r == pow2(i as nat),
            pow2(126) == 0x4000_0000_0000_0000_0000_0000_0000_0000,
        decreases k - i,
    {
        proof {
            lemma_pow2_unfold((i + 1) as nat);
            lemma_pow2_le((i + 1) as nat, 126);
        }
        r = r * 2;
        i = i + 1;
    }
    proof {
        lemma_pow2_pos(k as nat);
    }
    r
}

/// The number of bits of `n`.
pub(crate) fn bit_length(n: u128) -> (r: u32)
    requires
        n < 0x100_0000_0000_0000_0000_0000_0000_0000,
    ensures
        r <= 120,
        n < pow2(r as nat),
        r > 0 ==> n >= pow2((r - 1) as nat),
        r == 0 <==> n == 0,
{
    let mut p: u128 = 1;
    let mut r: u32 = 0;
    proof {
        lemma2_to64();
        assert(pow2(120) == 0x100_0000_0000_0000_0000_0000_0000_0000) by {
            lemma2_to64_rest();
            lemma_pow2_adds(60, 60);
        }
    }
    while p <= n
        invariant
            n < 0x100_0000_0000_0000_0000_0000_0000_0000,
            pow2(120) == 0x100_0000_0000_0000_0000_0000_0000_0000,
            r <= 120,
            p == pow2(r as nat),
            r > 0 ==> n >= pow2((r - 1) as nat),
            r > 0 ==> n > 0,
        decreases 120 - r,
    {
        proof {
            if r == 120 {
                assert(false);
            }
            lemma_pow2_unfold((r + 1) as nat);
            lemma_pow2_pos(r as nat);
        }
        p = p * 2;
        r = r + 1;
    }
    r
}

/// Comparing `n * 2^t` with `d` comes to the same after scaling by `2^k`.
proof fn lemma_shift_compare(n: nat, d: nat, t: int, k: nat)
    ensures
        shifted_up(n, t + k) < shifted_up(d, -(t + k)) * pow2(k) <==> shifted_up(n, t)
            < shifted_up(d, -t),
{
    lemma_pow2_pos(k);
    lemma2_to64();
    let p = pow2(k) as int;
    if t >= 0 {
        let a = shifted_up(n, t) as int;
        lemma_pow2_adds(t as nat, k);
        if t > 0 {
            lemma_mul_is_associative(n as int, pow2(t as nat) as int, p);
        }
        if t + k == 0 {
            assert(n * 1 == n);
        }
        assert(shifted_up(n, t + k) == a * p);
        if a < d {
            lemma_mul_strict_inequality(a, d as int, p);
        }
        if a * p < d * p {
            lemma_mul_strict_inequality_converse(a, d as int, p);
        }
    } else if t + k >= 0 {
        let e = (t + k) as nat;
        let b = shifted_up(d, -t) as int;
        lemma_pow2_adds((-t) as nat, e);
        lemma_mul_is_associative(d as int, pow2((-t) as nat) as int, pow2(e) as int);
        lemma_pow2_pos(e);
        assert(d * p == b * pow2(e));
        if e == 0 {
            assert(n * 1 == n);
            assert(b * 1 == b);
        }
        assert(shifted_up(n, t + k) == n * pow2(e));
        if n < b {
            lemma_mul_strict_inequality(n as int, b, pow2(e) as int);
        }
        if n * pow2(e) < b * pow2(e) {
            lemma_mul_strict_inequality_converse(n as int, b, pow2(e) as int);
        }
    } else {
        let e = (-(t + k)) as nat;
        lemma_pow2_adds(e, k);
        lemma_mul_is_associative(d as int, pow2(e) as int, p);
    }
}

/// Whether `n * 2^t < d`.
fn fits(n: u128, d: u64, t: i32) -> (b: bool)
    requires
        0 < n < 0x100_0000_0000_0000_0000_0000_0000_0000,
        0 < d <= TWO53,
        -8000 <= t <= 8000,
    ensures
        b == (shifted_up(n as nat, t as int) < shifted_up(d as nat, -t)),
{
    if t > 0 {
        if t >= 54 {
            proof {
                lemma2_to64_rest();
                lemma_pow2_le(54, t as nat);
                lemma_mul_inequality(1, n as int, pow2(t as nat) as int);
            }
            false
        } else {
            let p = two_to(t as u32);
            let limit: u128 = (d as u128 - 1) / p;
            proof {
                lemma_fundamental_div_mod((d - 1) as int, p as int);
                let a = n as int;
                let l = limit as int;
                if a <= l {
                    assert(a * p <= p * l) by (nonlinear_arith)
                        requires
                            a <= l,
                            p > 0,
                    ;
                } else {
                    assert(a * p >= p * l + p) by (nonlinear_arith)
                        requires
                            a >= l + 1,
                            p > 0,
                    ;
                }
            }
            n <= limit
        }
    } else {
        let u: i32 = -t;
        if u >= 120 {
            proof {
                lemma_pow2_le(120, u as nat);
                lemma2_to64_rest();
                lemma_pow2_adds(60, 60);
                lemma_mul_inequality(1, d as int, pow2(u as nat) as int);
            }
            true
        } else {
            let p = two_to(u as u32);
            let whole: u128 = n / p;
            proof {
                lemma2_to64();
                lemma_fundamental_div_mod(n as int, p as int);
                let w = whole as int;
                let b = d as int;
                if w < b {
                    assert(b * p >= p * w + p) by (nonlinear_arith)
                        requires
                            w + 1 <= b,
                            p > 0,
                    ;
                } else {
                    assert(b * p <= p * w) by (nonlinear_arith)
                        requires
                            b <= w,
                            p > 0,
                    ;
                }
                if u == 0 {
                    assert(b * 1 == b);
                }
            }
            whole < d as u128
        }
    }
}

/// `nearest_even(n, d)`.
pub(crate) fn divide_nearest(n: u128, d: u128) -> (r: u128)
    requires
        0 < d < 0x1000_0000_0000_0000_0000_0000_0000_0000,
        n < 0x1000_0000_0000_0000_0000_0000_0000_0000,
    ensures
        r == nearest_even(n as nat, d as nat),
{
    let t: u128 = n / d;
    let r: u128 = n % d;
    if 2 * r < d || (2 * r == d && t % 2 == 0) {
        t
    } else {
        proof {
            assert(t <= n) by (nonlinear_arith)
                requires
                    t == n / d,
                    d > 0,
            ;
        }
        t + 1
    }
}

/// The significand of a ratio that needs no more than 53 bits before the point.
fn significand(n: u128, d: u64, t: i32) -> (m: u64)
    requires
        0 < n < 0x100_0000_0000_0000_0000_0000_0000_0000,
        0 < d <= TWO53,
        -8000 <= t <= 8000,
        shifted_up(n as nat, t as int) < shifted_up(d as nat, -t) * TWO53,
    ensures
        m == nearest_even(shifted_up(n as nat, t as int), shifted_up(d as nat, -t)),
        m <= TWO53,
{
    proof {
        let v = shifted_up(n as nat, t as int);
        let w = shifted_up(d as nat, -t);
        assert(w > 0) by {
            if t < 0 {
                lemma_pow2_pos((-t) as nat);
                lemma_mul_strictly_positive(d as int, pow2((-t) as nat) as int);
            }
        }
        lemma_fundamental_div_mod(v as int, w as int);
        assert(v / w < TWO53) by (nonlinear_arith)
            requires
                v < w * TWO53,
                v == w * (v / w) + v % w,
                v % w >= 0,
                w > 0,
        ;
    }
    if t > 0 {
        proof {
            assert(n * pow2(t as nat) < 0x400_0000_0000_0000_0000_0000_0000) by {
                assert(d * TWO53 <= 0x400_0000_0000_0000_0000_0000_0000) by (nonlinear_arith)
                    requires
                        d <= TWO53,
                ;
            }
            if t >= 107 {
                lemma_pow2_le(107, t as nat);
                lemma2_to64_rest();
                lemma_pow2_adds(54, 53);
                lemma_mul_inequality(1, n as int, pow2(t as nat) as int);
                assert(false);
            }
        }
        let p = two_to(t as u32);
        divide_nearest(n * p, d as u128) as u64
    } else {
        let u: i32 = -t;
        if u >= 126 {
            proof {
                lemma_pow2_le(126, u as nat);
                lemma2_to64_rest();
                lemma_pow2_adds(63, 63);
                lemma_mul_inequality(1, d as int, pow2(u as nat) as int);
                assert(2 * n < d * pow2(u as nat));
                lemma_small(n as nat, (d * pow2(u as nat)) as nat);
            }
            0
        } else {
            let p = two_to(u as u32);
            proof {
                lemma2_to64();
                lemma_fundamental_div_mod(2 * n as int, p as int);
                if u == 0 {
                    assert(d * 1 == d);
                }
            }
            if (2 * n) / p < d as u128 {
                proof {
                    let w = (2 * n as int) / (p as int);
                    assert(d * p >= p * w + p) by (nonlinear_arith)
                        requires
                            w + 1 <= d,
                            p > 0,
                    ;
                    lemma_small(n as nat, (d * p) as nat);
                }
                0
            } else {
                proof {
                    let w = (2 * n as int) / (p as int);
                    assert(d * p <= p * w) by (nonlinear_arith)
                        requires
                            d <= w,
                            p > 0,
                    ;
                    lemma_mul_strictly_positive(d as int, p as int);
                }
                divide_nearest(n, d as u128 * p) as u64
            }
        }
    }
}

proof fn lemma_small(n: nat, d: nat)
    requires
        2 * n < d,
    ensures
        nearest_even(n, d) == 0,
{
    lemma_fundamental_div_mod_converse(n as int, d as int, 0, n as int);
}

/// The significand does not depend on how the ratio is scaled.
proof fn lemma_significand_scaled(n: nat, d: nat, s: int, q: nat)
    requires
        d > 0,
    ensures
        nearest_even(shifted_up(n, s), shifted_up(d, -s) * pow2(q)) == nearest_even(
            shifted_up(n, s - q),
            shifted_up(d, -(s - q)),
        ),
{
    let t = s - q;
    lemma2_to64();
    lemma_pow2_pos(q);
    if t >= 0 {
        lemma_pow2_adds(t as nat, q);
        if t > 0 {
            lemma_mul_is_associative(n as int, pow2(t as nat) as int, pow2(q) as int);
        }
        if s == 0 {
            assert(n * 1 == n);
        }
        lemma_nearest_even_scaled(shifted_up(n, t), d, pow2(q));
    } else if s >= 0 {
        lemma_pow2_pos(s as nat);
        lemma_pow2_pos((-t) as nat);
        lemma_pow2_adds((-t) as nat, s as nat);
        lemma_mul_is_associative(d as int, pow2((-t) as nat) as int, pow2(s as nat) as int);
        lemma_mul_strictly_positive(d as int, pow2((-t) as nat) as int);
        if s == 0 {
            assert(n * 1 == n);
        }
        lemma_nearest_even_scaled(n, shifted_up(d, -t), pow2(s as nat));
    } else {
        lemma_pow2_adds((-s) as nat, q);
        lemma_mul_is_associative(d as int, pow2((-s) as nat) as int, pow2(q) as int);
    }
}

/// The magnitude nearest to `n / d * 2^s` units of `2^-1074`.
pub(crate) fn nearest_ratio(n: u128, d: u64, s: i32) -> (magnitude: u64)
    requires
        n < 0x100_0000_0000_0000_0000_0000_0000_0000,
        0 < d <= TWO53,
        -3500 <= s <= 3500,
    ensures
        magnitude == nearest_magnitude(shifted_up(n as nat, s as int), shifted_up(d as nat, -s)),
        magnitude <= INFINITE,
{
    let ghost big_n = shifted_up(n as nat, s as int);
    let ghost big_d = shifted_up(d as nat, -s);
    proof {
        lemma2_to64();
        lemma2_to64_rest();
        assert(big_d > 0) by {
            if s < 0 {
                lemma_pow2_pos((-s) as nat);
                lemma_mul_strictly_positive(d as int, pow2((-s) as nat) as int);
            }
        }
    }
    if n == 0 {
        proof {
            assert(big_n == 0) by {
                if s > 0 {
                    assert(0 * pow2(s as nat) == 0);
                }
            }
            assert(big_d * TWO53 > 0) by (nonlinear_arith)
                requires
                    big_d > 0,
            ;
            assert(big_d * pow2(0) == big_d);
            lemma_small(0, big_d);
        }
        return 0;
    }
    let ln: i32 = bit_length(n) as i32;
    let ld: i32 = bit_length(d as u128) as i32;
    let guess: i32 = ln + s - ld - 53;
    let q0: i32 = if guess > 0 {
        guess
    } else {
        0
    };
    let low = fits(n, d, s - 53 - q0);
    let q: i32 = if low {
        q0
    } else {
        q0 + 1
    };
    proof {
        assert forall|k: nat| #[trigger] (big_d * TWO53 * pow2(k)) == big_d * pow2(53 + k) by {
            lemma_pow2_adds(53, k);
            lemma_mul_is_associative(big_d as int, TWO53 as int, pow2(k) as int);
        }
        lemma_shift_compare(n as nat, d as nat, s - 53 - q0, (53 + q0) as nat);
        assert(big_d * TWO53 * pow2(q0 as nat) == big_d * pow2((53 + q0) as nat));
        if low {
            if q0 > 0 {
                lemma_not_fits(n as nat, d as nat, ln as nat, ld as nat, s - 53 - (q0 - 1));
                lemma_shift_compare(n as nat, d as nat, s - 53 - (q0 - 1), (53 + q0 - 1) as nat);
                assert(big_d * TWO53 * pow2((q0 - 1) as nat) == big_d * pow2((53 + q0 - 1) as nat));
            }
        } else {
            lemma_fits(n as nat, d as nat, ln as nat, ld as nat, s - 53 - (q0 + 1));
            lemma_shift_compare(n as nat, d as nat, s - 53 - (q0 + 1), (53 + q0 + 1) as nat);
            assert(big_d * TWO53 * pow2((q0 + 1) as nat) == big_d * pow2((53 + q0 + 1) as nat));
        }
        lemma_scale_unique(big_n, big_d, q as nat);
        lemma_significand_scaled(n as nat, d as nat, s as int, q as nat);
        lemma_shift_compare(n as nat, d as nat, s - 53 - q, 53);
        lemma_shift_compare(n as nat, d as nat, s - 53 - q, (53 + q) as nat);
        assert(big_d * TWO53 * pow2(q as nat) == big_d * pow2((53 + q) as nat));
    }
    let m = significand(n, d, s - q);
    let packed: u64 = q as u64 * TWO52 + m;
    if packed > INFINITE {
        INFINITE
    } else {
        packed
    }
}

proof fn lemma_not_fits(n: nat, d: nat, ln: nat, ld: nat, t: int)
    requires
        ln > 0,
        n >= pow2((ln - 1) as nat),
        d < pow2(ld),
        ln - 1 + t >= ld,
    ensures
        !(shifted_up(n, t) < shifted_up(d, -t)),
{
    lemma2_to64();
    if t >= 0 {
        let p = pow2(t as nat) as int;
        lemma_pow2_pos(t as nat);
        lemma_mul_inequality(pow2((ln - 1) as nat) as int, n as int, p);
        lemma_pow2_adds((ln - 1) as nat, t as nat);
        lemma_pow2_le(ld, (ln - 1 + t) as nat);
    } else {
        let p = pow2((-t) as nat) as int;
        lemma_pow2_pos((-t) as nat);
        lemma_mul_strict_inequality(d as int, pow2(ld) as int, p);
        lemma_pow2_adds(ld, (-t) as nat);
        lemma_pow2_le((ld - t) as nat, (ln - 1) as nat);
    }
}

proof fn lemma_fits(n: nat, d: nat, ln: nat, ld: nat, t: int)
    requires
        ld > 0,
        n < pow2(ln),
        d >= pow2((ld - 1) as nat),
        ln + t <= ld - 1,
    ensures
        shifted_up(n, t) < shifted_up(d, -t),
{
    lemma2_to64();
    if t >= 0 {
        let p = pow2(t as nat) as int;
        lemma_pow2_pos(t as nat);
        lemma_mul_strict_inequality(n as int, pow2(ln) as int, p);
        lemma_pow2_adds(ln, t as nat);
        lemma_pow2_le((ln + t) as nat, (ld - 1) as nat);
    } else {
        let p = pow2((-t) as nat) as int;
        lemma_pow2_pos((-t) as nat);
        lemma_mul_inequality(pow2((ld - 1) as nat) as int, d as int, p);
        lemma_pow2_adds((ld - 1) as nat, (-t) as nat);
        lemma_pow2_le(ln, (ld - 1 - t) as nat);
    }
}

/// The magnitude nearest to the ratio of two numbers of any size, in units of
/// `2^-1074`.
pub(crate) fn nearest_quotient(num: Natural, den: Natural) -> (magnitude: u64)
    requires
        den.value() > 0,
    ensures
        magnitude == nearest_magnitude(num.value(), den.value()),
{
    let ghost n0 = num.value();
    let ghost d0 = den.value();
    let mut n = num;
    let mut x = den;
    x.multiply_add(0x400_0000, 0);
    x.multiply_add(0x800_0000, 0);
    let mut q: u64 = 0;
    proof {
        lemma2_to64();
        lemma2_to64_rest();
        assert(d0 * 0x400_0000 * 0x800_0000 == d0 * TWO53);
        assert(d0 * TWO53 * 1 == d0 * TWO53);
    }
    while n.at_least(&x)
        invariant
            n.value() == n0,
            n0 == num.value(),
            d0 == den.value(),
            d0 > 0,
            q <= 2047,
            x.value() == d0 * TWO53 * pow2(q as nat),
            q > 0 ==> n0 >= d0 * TWO53 * pow2((q - 1) as nat),
        decreases 2048 - q,
    {
        if q == 2047 {
            proof {
                lemma_scale_bounds(n0, d0);
                let k = scale_of(n0, d0);
                if k <= 2047 {
                    lemma_pow2_le(k, 2047);
                    lemma_mul_inequality(pow2(k) as int, pow2(2047) as int, (d0 * TWO53) as int);
                    lemma_mul_is_commutative((d0 * TWO53) as int, pow2(k) as int);
                    lemma_mul_is_commutative((d0 * TWO53) as int, pow2(2047) as int);
                }
            }
            return INFINITE;
        }
        x.multiply_add(2, 0);
        proof {
            lemma_pow2_unfold((q + 1) as nat);
            let c = d0 * TWO53;
            assert(c * pow2(q as nat) * 2 == c * (2 * pow2(q as nat))) by (nonlinear_arith);
        }
        q += 1;
    }
    proof {
        lemma_scale_unique(n0, d0, q as nat);
    }
    let ghost dd = d0 * pow2(q as nat);
    let ghost xv = x.value();
    proof {
        assert(xv == dd * TWO53) by (nonlinear_arith)
            requires
                xv == d0 * TWO53 * pow2(q as nat),
                dd == d0 * pow2(q as nat),
        ;
        lemma_pow2_pos(q as nat);
        lemma_mul_strictly_positive(d0 as int, pow2(q as nat) as int);
        lemma2_to64();
        lemma2_to64_rest();
    }
    let mut t: u64 = 0;
    let mut i: u32 = 0;
    proof {
        assert(0 * xv == 0);
        assert(n0 * 1 == n0);
    }
    while i < 53
        invariant
            i <= 53,
            x.value() == xv,
            n.value() < xv,
            t < pow2(i as nat),
            n0 * pow2(i as nat) == t * xv + n.value(),
        decreases 53 - i,
    {
        let ghost r = n.value() as int;
        proof {
            lemma_pow2_unfold((i + 1) as nat);
            let p = pow2(i as nat) as int;
            assert(n0 * (2 * p) == (2 * t) * xv + 2 * r) by (nonlinear_arith)
                requires
                    n0 * p == t * xv + r,
            ;
            assert((2 * t + 1) * xv == (2 * t) * xv + xv) by (nonlinear_arith);
            lemma2_to64();
            lemma2_to64_rest();
            lemma_pow2_le(i as nat, 52);
        }
        n.multiply_add(2, 0);
        t = 2 * t;
        if n.at_least(&x) {
            n.subtract(&x);
            t = t + 1;
        }
        i += 1;
    }
    let ghost r = n.value() as int;
    n.multiply_add(2, 0);
    let up = if n.at_least(&x) {
        !x.at_least(&n) || t % 2 == 1
    } else {
        false
    };
    proof {
        let rest = n0 - t * dd;
        assert(rest * TWO53 == r) by (nonlinear_arith)
            requires
                n0 * TWO53 == t * xv + r,
                xv == dd * TWO53,
                rest == n0 - t * dd,
        ;
        assert(0 <= rest < dd);
        lemma_fundamental_div_mod_converse(n0 as int, dd as int, t as int, rest);
    }
    let m: u64 = if up {
        t + 1
    } else {
        t
    };
    let packed: u64 = q * TWO52 + m;
    if packed > INFINITE {
        INFINITE
    } else {
        packed
    }
}

proof fn lemma_nearest_even_monotone(a: nat, b: nat, d: nat)
    requires
        d > 0,
        a <= b,
    ensures
        nearest_even(a, d) <= nearest_even(b, d),
{
    lemma_fundamental_div_mod(a as int, d as int);
    lemma_fundamental_div_mod(b as int, d as int);
    lemma_div_is_ordered(a as int, b as int, d as int);
}

proof fn lemma_scale_monotone(a: nat, b: nat, d: nat)
    requires
        d > 0,
        a <= b,
    ensures
        scale_of(a, d) <= scale_of(b, d),
{
    lemma_scale_bounds(a, d);
    lemma_scale_bounds(b, d);
    let qa = scale_of(a, d);
    let qb = scale_of(b, d);
    let c = (d * TWO53) as int;
    assert(c >= 0) by (nonlinear_arith)
        requires
            c == d * TWO53,
    ;
    if qa > qb {
        lemma_pow2_le(qb, (qa - 1) as nat);
        lemma_mul_inequality(pow2(qb) as int, pow2((qa - 1) as nat) as int, c);
        lemma_mul_is_commutative(c, pow2(qb) as int);
        lemma_mul_is_commutative(c, pow2((qa - 1) as nat) as int);
    }
}

/// A significand has at most 53 bits, or is the power of two above them; one that
/// is scaled has all of them.
pub proof fn lemma_significand_bounds(n: nat, d: nat)
    requires
        d > 0,
    ensures
        ({
            let q = scale_of(n, d);
            let m = nearest_even(n, d * pow2(q));
            m <= TWO53 && (q > 0 ==> m >= TWO52)
        }),
{
    lemma_scale_bounds(n, d);
    let q = scale_of(n, d);
    let dd = (d * pow2(q)) as int;
    lemma_pow2_pos(q);
    lemma_mul_strictly_positive(d as int, pow2(q) as int);
    lemma_fundamental_div_mod(n as int, dd);
    let t = n as int / dd;
    assert(d * TWO53 * pow2(q) == dd * TWO53) by (nonlinear_arith)
        requires
            dd == d * pow2(q),
    ;
    assert(t < TWO53) by (nonlinear_arith)
        requires
            n == dd * t + n as int % dd,
            n as int % dd >= 0,
            n < dd * TWO53,
            dd > 0,
    ;
    if q > 0 {
        lemma_pow2_unfold(q);
        let h = pow2((q - 1) as nat);
        assert(d * TWO53 * h == dd * TWO52) by (nonlinear_arith)
            requires
                dd == d * (2 * h),
                TWO53 == 2 * TWO52,
        ;
        assert(t >= TWO52) by (nonlinear_arith)
            requires
                n == dd * t + n as int % dd,
                n as int % dd < dd,
                n >= dd * TWO52,
                dd > 0,
        ;
    }
}

proof fn lemma_nearest_monotone_same(a: nat, b: nat, d: nat)
    requires
        d > 0,
        a <= b,
    ensures
        nearest_magnitude(a, d) <= nearest_magnitude(b, d),
{
    lemma_scale_monotone(a, b, d);
    lemma_significand_bounds(a, d);
    lemma_significand_bounds(b, d);
    let qa = scale_of(a, d);
    let qb = scale_of(b, d);
    if qa == qb {
        lemma_pow2_pos(qa);
        lemma_mul_strictly_positive(d as int, pow2(qa) as int);
        lemma_nearest_even_monotone(a, b, d * pow2(qa));
    } else {
        lemma_mul_inequality((qa + 1) as int, qb as int, TWO52 as int);
    }
}

/// A larger ratio has no smaller magnitude nearest to it.
pub proof fn lemma_nearest_monotone(n1: nat, d1: nat, n2: nat, d2: nat)
    requires
        d1 > 0,
        d2 > 0,
        n1 * d2 <= n2 * d1,
    ensures
        nearest_magnitude(n1, d1) <= nearest_magnitude(n2, d2),
{
    lemma_nearest_scaled(n1, d1, d2);
    lemma_nearest_scaled(n2, d2, d1);
    lemma_mul_is_commutative(d1 as int, d2 as int);
    lemma_mul_strictly_positive(d1 as int, d2 as int);
    lemma_nearest_monotone_same(n1 * d2, n2 * d1, d1 * d2);
}

} // verus!
