//! Binary64 numbers as decimal text: reading and fixed-point writing.

use vstd::arithmetic::div_mod::{lemma_fundamental_div_mod, lemma_fundamental_div_mod_converse};
use vstd::arithmetic::mul::{
    lemma_mul_inequality, lemma_mul_is_associative, lemma_mul_is_commutative,
    lemma_mul_strictly_positive,
};
use vstd::arithmetic::power2::{
    lemma2_to64, lemma2_to64_rest, lemma_pow2_adds, lemma_pow2_pos, lemma_pow2_unfold, pow2,
};
use vstd::prelude::*;

use crate::binary64::{signed, unit, Real, NAN_BITS, SIGN};
use crate::natural::Natural;
use crate::nearest::{
    divide_nearest, lemma_nearest_even_scaled, lemma_pow2_le, lemma_scale_bounds, nearest_even,
    nearest_magnitude, nearest_quotient, scale_of, two_to, INFINITE, TWO52, TWO53,
};
use crate::numeral::{
    decimal_chars, digits_from, lemma_digits_prefix, lemma_leading_zeros, push_padded,
};
use crate::text::{
    all_digits, ascii_lower, ascii_lower_char, decimal, digit_char, digits_value, find, find_char,
    int_value, is_digit, is_signed, lemma_find, padded, part, push_chars, repeated, same_chars,
    text_of,
};

verus! {

/// A power of ten.
pub open spec fn ten_to(k: nat) -> nat
    decreases k,
{
    if k == 0 {
        1
    } else {
        10 * ten_to((k - 1) as nat)
    }
}

pub open spec fn is_marker(c: char) -> bool {
    c == 'e' || c == 'E'
}

/// The position of the mark before an exponent, or the length of the text.
pub open spec fn find_marker(s: Seq<char>) -> nat
    decreases s.len(),
{
    if s.len() == 0 || is_marker(s[0]) {
        0
    } else {
        1 + find_marker(s.skip(1))
    }
}

/// The digits before the point.
pub open spec fn whole_digits(mantissa: Seq<char>) -> Seq<char> {
    mantissa.take(find(mantissa, '.') as int)
}

/// The digits after the point.
pub open spec fn fraction_digits(mantissa: Seq<char>) -> Seq<char> {
    let at = find(mantissa, '.') as int;
    if at < mantissa.len() {
        mantissa.skip(at + 1)
    } else {
        seq![]
    }
}

/// Whether a text without a sign is a decimal number: digits with at most one
/// point among them, and after them an optional exponent.
pub open spec fn is_decimal_number(t: Seq<char>) -> bool {
    let e = find_marker(t) as int;
    let mantissa = t.take(e);
    &&& all_digits(whole_digits(mantissa) + fraction_digits(mantissa))
    &&& e < t.len() ==> is_signed(t.skip(e + 1))
}

/// The magnitude nearest to `digits * 10^power`.
pub open spec fn scaled_magnitude(digits: nat, power: int) -> nat {
    if power >= 0 {
        nearest_magnitude(digits * ten_to(power as nat) * unit(), 1)
    } else {
        nearest_magnitude(digits * unit(), ten_to((-power) as nat))
    }
}

/// The magnitude nearest to what a decimal number stands for.
pub open spec fn decimal_magnitude(t: Seq<char>) -> nat {
    let e = find_marker(t) as int;
    let mantissa = t.take(e);
    let fraction = fraction_digits(mantissa);
    let exponent = if e < t.len() {
        int_value(t.skip(e + 1))
    } else {
        0
    };
    scaled_magnitude(digits_value(whole_digits(mantissa) + fraction), exponent - fraction.len())
}

/// A text after its sign, where it has one.
pub open spec fn without_sign(s: Seq<char>) -> Seq<char> {
    if s.len() > 0 && (s[0] == '+' || s[0] == '-') {
        s.skip(1)
    } else {
        s
    }
}

/// The number that a text stands for, where it is one.
pub open spec fn number_of(s: Seq<char>) -> Option<Real> {
    let negative = s.len() > 0 && s[0] == '-';
    let t = without_sign(s);
    let name = ascii_lower(t);
    if name == "inf"@ || name == "infinity"@ {
        Some(signed(negative, INFINITE as nat))
    } else if name == "nan"@ {
        Some(signed(negative, NAN_BITS as nat))
    } else if is_decimal_number(t) {
        Some(signed(negative, decimal_magnitude(t)))
    } else {
        None
    }
}

proof fn lemma_ten_to(k: nat)
    ensures
        ten_to(k) > 0,
    decreases k,
{
    if k > 0 {
        lemma_ten_to((k - 1) as nat);
    }
}

proof fn lemma_ten_to_adds(a: nat, b: nat)
    ensures
        ten_to(a + b) == ten_to(a) * ten_to(b),
    decreases a,
{
    if a > 0 {
        lemma_ten_to_adds((a - 1) as nat, b);
        lemma_mul_is_associative(10, ten_to((a - 1) as nat) as int, ten_to(b) as int);
        assert((a + b - 1) as nat == (a - 1) as nat + b);
    } else {
        assert(1 * ten_to(b) == ten_to(b));
    }
}

/// `10^(10 k)` is above `2^(33 k)`.
proof fn lemma_ten_to_large(k: nat)
    ensures
        ten_to(10 * k) >= pow2(33 * k),
    decreases k,
{
    lemma2_to64();
    lemma2_to64_rest();
    if k > 0 {
        let j = (k - 1) as nat;
        lemma_ten_to_large(j);
        lemma_ten_to_adds(10, 10 * j);
        lemma_pow2_adds(33, 33 * j);
        reveal_with_fuel(ten_to, 11);
        assert(ten_to(10) == 10_000_000_000);
        lemma_mul_inequality(pow2(33) as int, ten_to(10) as int, pow2(33 * j) as int);
        lemma_mul_inequality(pow2(33 * j) as int, ten_to(10 * j) as int, ten_to(10) as int);
        lemma_mul_is_commutative(ten_to(10) as int, pow2(33 * j) as int);
        lemma_mul_is_commutative(ten_to(10) as int, ten_to(10 * j) as int);
    }
}

proof fn lemma_ten_to_grows(a: nat, b: nat)
    requires
        a <= b,
    ensures
        ten_to(a) <= ten_to(b),
    decreases b,
{
    if a < b {
        lemma_ten_to_grows(a, (b - 1) as nat);
    }
}

/// A row of digits is below the power of ten of its length, and not below the
/// one before it where the first digit is no zero.
proof fn lemma_digits_bounds(s: Seq<char>)
    requires
        forall|i: int| 0 <= i < s.len() ==> is_digit(#[trigger] s[i]),
    ensures
        digits_value(s) < ten_to(s.len()),
        s.len() > 0 && s[0] != '0' ==> digits_value(s) >= ten_to((s.len() - 1) as nat),
    decreases s.len(),
{
    if s.len() > 0 {
        lemma_digits_bounds(s.drop_last());
        assert(is_digit(s.last()));
        if s.len() == 1 {
            assert(digits_value(s.drop_last()) == 0);
        } else {
            assert(s.drop_last()[0] == s[0]);
        }
    }
}

/// What is `2^1024` or more is infinite.
proof fn lemma_too_large(n: nat, d: nat)
    requires
        d > 0,
        n >= d * pow2(2098),
    ensures
        nearest_magnitude(n, d) == INFINITE,
{
    let q = scale_of(n, d);
    lemma_scale_bounds(n, d);
    lemma2_to64();
    lemma2_to64_rest();
    if q < 2046 {
        lemma_pow2_le(q, 2045);
        lemma_pow2_adds(53, 2045);
        assert(d * TWO53 * pow2(q) <= d * TWO53 * pow2(2045)) by (nonlinear_arith)
            requires
                pow2(q) <= pow2(2045),
        ;
        lemma_mul_is_associative(d as int, TWO53 as int, pow2(2045) as int);
    }
    assert(q >= 2046);
    // The significand has all of its 53 bits.
    let dd = d * pow2(q);
    lemma_pow2_pos(q);
    lemma_mul_strictly_positive(d as int, pow2(q) as int);
    lemma_pow2_unfold(q);
    let h = pow2((q - 1) as nat);
    assert(d * TWO53 * h == TWO52 * dd) by (nonlinear_arith)
        requires
            dd == d * (2 * h),
            TWO53 == 2 * TWO52,
    ;
    lemma_fundamental_div_mod(n as int, dd as int);
    assert(n / dd >= TWO52) by (nonlinear_arith)
        requires
            n == dd * (n / dd) + n % dd,
            n % dd < dd,
            n >= TWO52 * dd,
            dd > 0,
    ;
    assert(q * TWO52 >= 2046 * TWO52);
}

/// What is less than half of the smallest number is zero.
proof fn lemma_too_small(n: nat, d: nat)
    requires
        2 * n < d,
    ensures
        nearest_magnitude(n, d) == 0,
{
    lemma2_to64();
    assert(d * TWO53 >= d) by (nonlinear_arith);
    assert(scale_of(n, d) == 0);
    assert(d * 1 == d);
    lemma_fundamental_div_mod_converse(n as int, d as int, 0, n as int);
}

/// A value of `10^320` or more is infinite, one below `10^-330` is zero.
proof fn lemma_out_of_range(digits: nat, power: int, k: nat)
    requires
        k > 0,
        ten_to((k - 1) as nat) <= digits < ten_to(k),
    ensures
        k - 1 + power >= 320 ==> scaled_magnitude(digits, power) == INFINITE,
        k + power <= -330 ==> scaled_magnitude(digits, power) == 0,
{
    let u = unit();
    lemma_pow2_pos(1074);
    if k - 1 + power >= 320 {
        lemma_ten_to_large(32);
        lemma_pow2_le(1024, 1056);
        lemma_pow2_adds(1024, 1074);
        if power >= 0 {
            let p = power as nat;
            let t = ten_to(p);
            let j = (k - 1) as nat;
            lemma_ten_to_adds(j, p);
            lemma_ten_to_grows(320, j + p);
            lemma_ten_to(p);
            lemma_mul_inequality(ten_to(j) as int, digits as int, t as int);
            lemma_mul_inequality(pow2(1024) as int, (digits * t) as int, u as int);
            assert(1 * pow2(2098) == pow2(2098));
            lemma_too_large(digits * t * u, 1);
        } else {
            let p = (-power) as nat;
            let t = ten_to(p);
            let j = (k - 1) as nat;
            lemma_ten_to((-power) as nat);
            lemma_ten_to_adds(p, (j - p) as nat);
            lemma_ten_to_grows(320, (j - p) as nat);
            lemma_mul_inequality(pow2(1024) as int, ten_to((j - p) as nat) as int, t as int);
            lemma_mul_is_commutative(t as int, ten_to((j - p) as nat) as int);
            assert(digits >= pow2(1024) * t);
            lemma_mul_inequality((pow2(1024) * t) as int, digits as int, u as int);
            assert(pow2(1024) * t * u == t * (pow2(1024) * u)) by (nonlinear_arith);
            lemma_too_large(digits * u, t);
        }
    }
    if k + power <= -330 {
        let p = (-power) as nat;
        let t = ten_to(p);
        lemma_ten_to_large(33);
        lemma_pow2_le(1075, 1089);
        lemma_pow2_unfold(1075);
        lemma_ten_to_adds(k, (p - k) as nat);
        lemma_ten_to_grows(330, (p - k) as nat);
        let r = ten_to((p - k) as nat);
        assert(r >= 2 * u);
        assert(2 * (digits * u) < ten_to(k) * r) by (nonlinear_arith)
            requires
                digits < ten_to(k),
                r >= 2 * u,
                u > 0,
        ;
        lemma_too_small(digits * u, t);
    }
}

/// Multiplies by a power of ten.
fn raise(n: &mut Natural, power: u128)
    ensures
        final(n).value() == old(n).value() * ten_to(power as nat),
{
    let mut i: u128 = 0;
    let ghost n0 = n.value() as int;
    assert(n0 * 1 == n0);
    while i < power
        invariant
            i <= power,
            n.value() == n0 * ten_to(i as nat),
        decreases power - i,
    {
        proof {
            let t = ten_to(i as nat);
            assert(n0 * t * 10 == n0 * (10 * t)) by (nonlinear_arith);
        }
        n.multiply_add(10, 0);
        i += 1;
    }
}

/// Multiplies by `2^1074`.
fn to_units(n: &mut Natural)
    ensures
        final(n).value() == old(n).value() * unit(),
{
    let mut i: u32 = 0;
    let ghost n0 = n.value() as int;
    proof {
        lemma2_to64();
        assert(n0 * 1 == n0);
    }
    while i < 1074
        invariant
            i <= 1074,
            n.value() == n0 * pow2(i as nat),
        decreases 1074 - i,
    {
        proof {
            lemma_pow2_unfold((i + 1) as nat);
            let t = pow2(i as nat);
            assert(n0 * t * 2 == n0 * (2 * t)) by (nonlinear_arith);
        }
        n.multiply_add(2, 0);
        i += 1;
    }
}

/// The magnitude nearest to a row of digits times a power of ten.
fn scaled_digits(digits: &[char], power: i128) -> (m: u64)
    requires
        forall|i: int| 0 <= i < digits.len() ==> is_digit(#[trigger] digits[i]),
        -0x1000_0000_0000_0000_0000_0000_0000_0000 <= power
            <= 0x1000_0000_0000_0000_0000_0000_0000_0000,
    ensures
        m == scaled_magnitude(digits_value(digits@), power as int),
{
    let mut n = Natural::from_u64(0);
    let mut i: usize = 0;
    let mut significant: i128 = 0;
    let ghost s = digits@;
    proof {
        assert(s.take(0) =~= seq![]);
        lemma_ten_to(0);
    }
    while i < digits.len()
        invariant
            i <= digits.len(),
            s == digits@,
            forall|i: int| 0 <= i < s.len() ==> is_digit(#[trigger] s[i]),
            0 <= significant <= i,
            n.value() == digits_value(s.take(i as int)),
            n.value() < ten_to(significant as nat),
            significant > 0 ==> n.value() >= ten_to((significant - 1) as nat),
        decreases digits.len() - i,
    {
        let c = digits[i];
        proof {
            assert(is_digit(s[i as int]));
            lemma_digits_prefix(s, i as int);
        }
        n.multiply_add(10, c as u32 - 48);
        if significant > 0 || c != '0' {
            significant = significant + 1;
        }
        i += 1;
    }
    assert(s.take(i as int) =~= s);
    let ghost d0 = digits_value(s);
    let ghost u = unit();
    proof {
        lemma_pow2_pos(1074);
        if significant > 0 {
            lemma_out_of_range(d0, power as int, significant as nat);
        }
    }
    if significant == 0 {
        proof {
            assert(d0 == 0);
            assert(0 * u == 0);
            if power >= 0 {
                assert(0 * ten_to(power as nat) == 0);
                lemma_too_small(0, 1);
            } else {
                lemma_ten_to((-power) as nat);
                lemma_too_small(0, ten_to((-power) as nat));
            }
        }
        0
    } else if significant - 1 + power >= 320 {
        INFINITE
    } else if significant + power <= -330 {
        0
    } else if power >= 0 {
        raise(&mut n, power as u128);
        to_units(&mut n);
        nearest_quotient(n, Natural::from_u64(1))
    } else {
        let mut d = Natural::from_u64(1);
        raise(&mut d, (-power) as u128);
        to_units(&mut n);
        proof {
            lemma_ten_to((-power) as nat);
            assert(1 * ten_to((-power) as nat) == ten_to((-power) as nat));
        }
        nearest_quotient(n, d)
    }
}

proof fn lemma_find_marker(s: Seq<char>)
    ensures
        find_marker(s) <= s.len(),
    decreases s.len(),
{
    if s.len() > 0 && !is_marker(s[0]) {
        lemma_find_marker(s.skip(1));
    }
}

fn marker_position(v: &[char]) -> (r: usize)
    ensures
        r == find_marker(v@),
        r <= v.len(),
{
    let mut i: usize = 0;
    proof {
        assert(v@.skip(0) =~= v@);
    }
    while i < v.len() && v[i] != 'e' && v[i] != 'E'
        invariant
            i <= v.len(),
            find_marker(v@) == i + find_marker(v@.skip(i as int)),
        decreases v.len() - i,
    {
        proof {
            assert(v@.skip(i as int).skip(1) =~= v@.skip(i + 1));
            assert(v@.skip(i as int)[0] == v@[i as int]);
        }
        i += 1;
    }
    proof {
        if i < v.len() {
            assert(v@.skip(i as int)[0] == v@[i as int]);
        }
    }
    i
}

fn only_digits(v: &[char]) -> (r: bool)
    ensures
        r == all_digits(v@),
{
    if v.len() == 0 {
        return false;
    }
    let mut i: usize = 0;
    while i < v.len()
        invariant
            i <= v.len(),
            forall|k: int| 0 <= k < i ==> is_digit(#[trigger] v@[k]),
        decreases v.len() - i,
    {
        if v[i] < '0' || v[i] > '9' {
            assert(!is_digit(v@[i as int]));
            return false;
        }
        i += 1;
    }
    true
}

/// Reads a decimal number without a sign.
fn parse_decimal(t: &[char]) -> (r: Option<u64>)
    ensures
        r.is_some() == is_decimal_number(t@),
        r.is_some() ==> r->Some_0 == decimal_magnitude(t@),
{
    let e: usize = marker_position(t);
    let mantissa = part(t, 0, e);
    proof {
        assert(mantissa@ =~= t@.take(e as int));
        lemma_find(mantissa@, '.');
        assert(mantissa@.skip(0) =~= mantissa@);
    }
    let at: usize = find_char(mantissa.as_slice(), 0, '.');
    let mut digits = part(mantissa.as_slice(), 0, at);
    proof {
        assert(digits@ =~= whole_digits(mantissa@));
    }
    let mut places: usize = 0;
    if at < mantissa.len() {
        let fraction = part(mantissa.as_slice(), at + 1, mantissa.len());
        proof {
            assert(fraction@ =~= fraction_digits(mantissa@));
        }
        places = fraction.len();
        push_chars(&mut digits, fraction.as_slice());
    } else {
        assert(digits@ =~= whole_digits(mantissa@) + fraction_digits(mantissa@));
    }
    if !only_digits(digits.as_slice()) {
        return None;
    }
    let mut exponent: i128 = 0;
    let ghost x = t@.skip(e + 1);
    let mut far = false;
    if e < t.len() {
        let negative = e + 1 < t.len() && t[e + 1] == '-';
        let sign: usize = if e + 1 < t.len() && (t[e + 1] == '+' || t[e + 1] == '-') {
            1
        } else {
            0
        };
        proof {
            assert(x.skip(0) =~= x);
            if e + 1 < t.len() {
                assert(t@.skip(e + 1 + 1) =~= x.skip(1));
                assert(x[0] == t@[e + 1]);
            }
        }
        match digits_from(t, e + 1 + sign) {
            None => {
                return None;
            },
            Some(n) => {
                far = n >= 0x100_0000_0000_0000_0000_0000_0000_0000;
                if !far {
                    exponent = if negative {
                        -(n as i128)
                    } else {
                        n as i128
                    };
                }
                if far {
                    // The exponent outweighs every row of digits.
                    let mut i: usize = 0;
                    while i < digits.len() && digits[i] == '0'
                        invariant
                            i <= digits.len(),
                            forall|k: int| 0 <= k < i ==> digits@[k] == '0',
                        decreases digits.len() - i,
                    {
                        i += 1;
                    }
                    proof {
                        lemma_far(digits@, i as int, int_value(x) - places);
                    }
                    if i == digits.len() || negative {
                        return Some(0);
                    } else {
                        return Some(INFINITE);
                    }
                }
            },
        }
    }
    Some(scaled_digits(digits.as_slice(), exponent - places as i128))
}

/// A power of ten that outweighs the length of a row of digits.
proof fn lemma_far(s: Seq<char>, zeros: int, power: int)
    requires
        0 <= zeros <= s.len(),
        forall|i: int| 0 <= i < s.len() ==> is_digit(#[trigger] s[i]),
        forall|i: int| 0 <= i < zeros ==> s[i] == '0',
        zeros < s.len() ==> s[zeros] != '0',
    ensures
        zeros == s.len() ==> scaled_magnitude(digits_value(s), power) == 0,
        zeros < s.len() && power >= 320 ==> scaled_magnitude(digits_value(s), power) == INFINITE,
        zeros < s.len() && power <= -(330 + s.len()) ==> scaled_magnitude(digits_value(s), power)
            == 0,
{
    let rest = s.skip(zeros);
    assert(s =~= repeated('0', zeros as nat) + rest);
    lemma_leading_zeros(zeros as nat, rest);
    lemma_pow2_pos(1074);
    if zeros == s.len() {
        assert(rest =~= seq![]);
        let u = unit();
        assert(0 * u == 0);
        if power >= 0 {
            assert(0 * ten_to(power as nat) == 0);
            lemma_too_small(0, 1);
        } else {
            lemma_ten_to((-power) as nat);
            lemma_too_small(0, ten_to((-power) as nat));
        }
    } else {
        assert forall|i: int| 0 <= i < rest.len() implies is_digit(#[trigger] rest[i]) by {
            assert(rest[i] == s[zeros + i]);
        }
        lemma_digits_bounds(rest);
        lemma_out_of_range(digits_value(rest), power, rest.len());
    }
}

fn lower_chars(v: &[char]) -> (r: Vec<char>)
    ensures
        r@ == ascii_lower(v@),
{
    let mut r: Vec<char> = Vec::new();
    let mut i: usize = 0;
    while i < v.len()
        invariant
            i <= v.len(),
            r.len() == i,
            forall|k: int| 0 <= k < i ==> r@[k] == ascii_lower_char(v@[k]),
        decreases v.len() - i,
    {
        let c = v[i];
        r.push(
            if 'A' <= c && c <= 'Z' {
                (c as u8 + 32) as char
            } else {
                c
            },
        );
        i += 1;
    }
    assert(r@ =~= ascii_lower(v@));
    r
}

impl Real {
    /// Reads a number.
    pub fn parse(v: &[char]) -> (r: Option<Real>)
        ensures
            r == number_of(v@),
    {
        let negative = v.len() > 0 && v[0] == '-';
        let from: usize = if v.len() > 0 && (v[0] == '+' || v[0] == '-') {
            1
        } else {
            0
        };
        let t = part(v, from, v.len());
        proof {
            assert(t@ =~= without_sign(v@));
            reveal_strlit("inf");
            reveal_strlit("infinity");
            reveal_strlit("nan");
            assert("inf"@ =~= seq!['i', 'n', 'f']);
            assert("infinity"@ =~= seq!['i', 'n', 'f', 'i', 'n', 'i', 't', 'y']);
            assert("nan"@ =~= seq!['n', 'a', 'n']);
        }
        let name = lower_chars(t.as_slice());
        let inf = vec!['i', 'n', 'f'];
        let infinity = vec!['i', 'n', 'f', 'i', 'n', 'i', 't', 'y'];
        let nan = vec!['n', 'a', 'n'];
        let m: u64 = if same_chars(name.as_slice(), inf.as_slice()) || same_chars(
            name.as_slice(),
            infinity.as_slice(),
        ) {
            INFINITE
        } else if same_chars(name.as_slice(), nan.as_slice()) {
            NAN_BITS
        } else {
            match parse_decimal(t.as_slice()) {
                Some(m) => m,
                None => {
                    return None;
                },
            }
        };
        if negative {
            Some(Real { bits: m + SIGN })
        } else {
            Some(Real { bits: m })
        }
    }
}

/// A number written with a fixed count of places after the point, rounded to
/// the nearest such numeral, ties going to the even one.
pub open spec fn fixed(x: Real, places: nat) -> Seq<char> {
    let sign = if x.negative() {
        "-"@
    } else {
        ""@
    };
    if x.nan() {
        "NaN"@
    } else if x.infinite() {
        sign + "inf"@
    } else {
        let k = nearest_even(x.size() * ten_to(places), unit());
        sign + decimal(k / ten_to(places)) + if places == 0 {
            ""@
        } else {
            "."@ + padded(k % ten_to(places), places)
        }
    }
}

/// What decimal digits stand for, the lowest one first.
spec fn low_first(s: Seq<u8>) -> nat
    decreases s.len(),
{
    if s.len() == 0 {
        0
    } else {
        low_first(s.drop_last()) + s.last() as nat * ten_to((s.len() - 1) as nat)
    }
}

proof fn lemma_low_first(s: Seq<u8>)
    requires
        s.len() > 0,
    ensures
        low_first(s) == s[0] + 10 * low_first(s.skip(1)),
    decreases s.len(),
{
    let t = s.drop_last();
    if s.len() == 1 {
        assert(s.skip(1) =~= seq![]);
        assert(low_first(t) == 0);
        assert(s.last() * 1 == s[0]);
    } else {
        lemma_low_first(t);
        assert(t.skip(1) =~= s.skip(1).drop_last());
        let a = s.last() as int;
        let w = ten_to((s.len() - 2) as nat);
        assert(a * (10 * w) == 10 * (a * w)) by (nonlinear_arith);
    }
}

proof fn lemma_low_first_decimal(s: Seq<u8>)
    requires
        s.len() > 0,
        forall|i: int| 0 <= i < s.len() ==> s[i] < 10,
        s.last() > 0,
    ensures
        decimal(low_first(s)) == Seq::new(s.len(), |i: int| digit_char(s[s.len() - 1 - i] as nat)),
        low_first(s) > 0,
    decreases s.len(),
{
    let r = Seq::new(s.len(), |i: int| digit_char(s[s.len() - 1 - i] as nat));
    lemma_low_first(s);
    let t = s.skip(1);
    if s.len() == 1 {
        assert(low_first(t) == 0);
        assert(decimal(low_first(s)) =~= r);
    } else {
        lemma_low_first_decimal(t);
        let v = low_first(s);
        assert(v / 10 == low_first(t) && v % 10 == s[0]);
        assert(decimal(v) =~= r);
    }
}

/// Twice a number that is written with its lowest digit first.
fn twice(d: &Vec<u8>) -> (r: Vec<u8>)
    requires
        d.len() > 0,
        d@.last() > 0,
        forall|i: int| 0 <= i < d.len() ==> d[i] < 10,
    ensures
        r.len() > 0,
        r@.last() > 0,
        forall|i: int| 0 <= i < r.len() ==> r[i] < 10,
        low_first(r@) == 2 * low_first(d@),
{
    let mut r: Vec<u8> = Vec::new();
    let mut carry: u8 = 0;
    let mut i: usize = 0;
    proof {
        assert(0 * ten_to(0) == 0);
    }
    while i < d.len()
        invariant
            i <= d.len(),
            r.len() == i,
            carry <= 1,
            forall|i: int| 0 <= i < d.len() ==> d[i] < 10,
            forall|i: int| 0 <= i < r.len() ==> r[i] < 10,
            i > 0 && d[i - 1] > 0 ==> carry > 0 || r[i - 1] > 0,
            low_first(r@) + carry * ten_to(i as nat) == 2 * low_first(d@.take(i as int)),
        decreases d.len() - i,
    {
        let x: u8 = 2 * d[i] + carry;
        let (y, next): (u8, u8) = if x >= 10 {
            (x - 10, 1)
        } else {
            (x, 0)
        };
        let ghost before = r@;
        r.push(y);
        proof {
            assert(d@.take(i + 1).drop_last() =~= d@.take(i as int));
            assert(r@.drop_last() =~= before);
            let w = ten_to(i as nat) as int;
            let a = low_first(before) as int;
            let b = low_first(d@.take(i as int)) as int;
            let di = d@[i as int] as int;
            assert(a + y * w + next * (10 * w) == 2 * (b + di * w)) by (nonlinear_arith)
                requires
                    a + carry * w == 2 * b,
                    y + 10 * next == 2 * di + carry,
            ;
        }
        carry = next;
        i += 1;
    }
    assert(d@.take(i as int) =~= d@);
    if carry > 0 {
        let ghost before = r@;
        r.push(carry);
        assert(r@.drop_last() =~= before);
    } else {
        assert(0 * ten_to(i as nat) == 0);
    }
    r
}

/// The digits of `m * 2^s`.
fn doubled_chars(m: u64, s: u32) -> (v: Vec<char>)
    requires
        m > 0,
    ensures
        v@ == decimal(m as nat * pow2(s as nat)),
{
    let mut d: Vec<u8> = Vec::new();
    let mut rest: u64 = m;
    proof {
        lemma2_to64();
        lemma_ten_to(0);
        assert(m * 1 == m);
    }
    while rest > 0
        invariant
            m > 0,
            rest > 0 || d.len() > 0,
            rest == 0 ==> d@.last() > 0,
            d.len() <= m - rest,
            forall|i: int| 0 <= i < d.len() ==> d[i] < 10,
            low_first(d@) + rest * ten_to(d@.len()) == m,
        decreases rest,
    {
        let ghost before = d@;
        let low: u8 = (rest % 10) as u8;
        d.push(low);
        proof {
            assert(d@.drop_last() =~= before);
            let w = ten_to(before.len()) as int;
            let next = rest / 10;
            assert(rest * w == low * w + next * (10 * w)) by (nonlinear_arith)
                requires
                    rest == low + 10 * next,
            ;
        }
        rest = rest / 10;
    }
    assert(0 * ten_to(d@.len()) == 0);
    let mut i: u32 = 0;
    while i < s
        invariant
            i <= s,
            d.len() > 0,
            d@.last() > 0,
            forall|i: int| 0 <= i < d.len() ==> d[i] < 10,
            low_first(d@) == m * pow2(i as nat),
        decreases s - i,
    {
        d = twice(&d);
        proof {
            lemma_pow2_unfold((i + 1) as nat);
            let t = pow2(i as nat);
            assert(2 * (m * t) == m * (2 * t)) by (nonlinear_arith);
        }
        i += 1;
    }
    let mut v: Vec<char> = Vec::new();
    let mut j: usize = d.len();
    while j > 0
        invariant
            j <= d.len(),
            v.len() == d.len() - j,
            forall|i: int| 0 <= i < d.len() ==> d[i] < 10,
            forall|k: int| 0 <= k < v.len() ==> v@[k] == digit_char(d@[d.len() - 1 - k] as nat),
        decreases j,
    {
        j -= 1;
        v.push((48 + d[j]) as char);
    }
    proof {
        lemma_low_first_decimal(d@);
        assert(v@ =~= decimal(low_first(d@)));
    }
    v
}

/// `m * 2^q` units times a scale, rounded to an integer.
fn scaled_round(m: u64, q: u32, scale: u64) -> (r: u128)
    requires
        q < 1074,
        m < TWO53,
        0 < scale <= 1_000_000,
    ensures
        r == nearest_even((m as nat * pow2(q as nat)) * scale as nat, unit()),
        r <= m * scale,
{
    let h: u32 = 1074 - q;
    let ghost p = pow2(q as nat);
    proof {
        lemma2_to64();
        lemma2_to64_rest();
        assert(m * scale < 0x200_0000_0000_0000_0000) by (nonlinear_arith)
            requires
                m < TWO53,
                scale <= 1_000_000,
        ;
        assert(m * scale >= 0) by (nonlinear_arith);
        lemma_pow2_pos(q as nat);
        lemma_pow2_adds(h as nat, q as nat);
        lemma_pow2_pos(h as nat);
        assert((m * p) * scale == (m * scale) * p) by (nonlinear_arith);
        lemma_nearest_even_scaled((m * scale) as nat, pow2(h as nat), p);
        lemma_pow2_adds(40, 40);
        assert(pow2(80) == 0x1_0000_0000_0000_0000_0000) by {
            assert(0x100_0000_0000int * 0x100_0000_0000 == 0x1_0000_0000_0000_0000_0000);
        }
    }
    let n: u128 = m as u128 * scale as u128;
    if h >= 80 {
        proof {
            lemma_pow2_le(80, h as nat);
            lemma_fundamental_div_mod_converse(n as int, pow2(h as nat) as int, 0, n as int);
        }
        0
    } else {
        let wide: u128 = two_to(h);
        proof {
            lemma_pow2_le(h as nat, 80);
            lemma_pow2_le(1, h as nat);
            lemma_nearest_at_most(n as nat, pow2(h as nat));
        }
        divide_nearest(n, wide)
    }
}

fn power_of_ten(places: u32) -> (scale: u64)
    requires
        places <= 6,
    ensures
        scale == ten_to(places as nat),
        0 < scale <= 1_000_000,
{
    proof {
        reveal_with_fuel(ten_to, 7);
    }
    if places == 0 {
        1
    } else if places == 1 {
        10
    } else if places == 2 {
        100
    } else if places == 3 {
        1_000
    } else if places == 4 {
        10_000
    } else if places == 5 {
        100_000
    } else {
        1_000_000
    }
}

/// An integer of `w` units has only zeros after the point.
proof fn lemma_whole(w: nat, scale: nat)
    requires
        scale > 0,
    ensures
        nearest_even((w * unit()) * scale, unit()) == w * scale,
        (w * scale) / scale == w,
        (w * scale) % scale == 0,
{
    let u = unit() as int;
    lemma_pow2_pos(1074);
    assert((w * u) * scale == (w * scale) * u) by (nonlinear_arith);
    lemma_fundamental_div_mod_converse(((w * unit()) * scale) as int, u, (w * scale) as int, 0);
    lemma_fundamental_div_mod_converse((w * scale) as int, scale as int, w as int, 0);
}

/// The digits before the point and the number after it of `m * 2^q` units.
fn fixed_digits(m: u64, q: u32, scale: u64) -> (r: (Vec<char>, u64))
    requires
        m < TWO53,
        q >= 1074 ==> m > 0,
        0 < scale <= 1_000_000,
    ensures
        ({
            let k = nearest_even((m as nat * pow2(q as nat)) * scale as nat, unit());
            &&& r.0@ == decimal(k / scale as nat)
            &&& r.1 == k % scale as nat
        }),
{
    if q >= 1074 {
        let s: u32 = q - 1074;
        proof {
            lemma_pow2_adds(s as nat, 1074);
            lemma_mul_is_associative(m as int, pow2(s as nat) as int, unit() as int);
            lemma_whole(m as nat * pow2(s as nat), scale as nat);
        }
        (doubled_chars(m, s), 0)
    } else {
        let r: u128 = scaled_round(m, q, scale);
        proof {
            assert(r / scale as u128 <= m) by (nonlinear_arith)
                requires
                    r <= m * scale,
                    scale > 0,
            ;
        }
        (decimal_chars((r / scale as u128) as u64), (r % scale as u128) as u64)
    }
}

impl Real {
    /// Appends the number with a fixed count of places after the point.
    pub fn push_fixed(self, out: &mut String, places: u32)
        requires
            places <= 6,
        ensures
            final(out)@ == old(out)@ + fixed(self, places as nat),
    {
        if self.is_nan() {
            out.push_str("NaN");
            return;
        }
        proof {
            reveal_strlit("");
        }
        if self.is_negative() {
            out.push_str("-");
        }
        if !self.is_finite() {
            out.push_str("inf");
            assert(out@ =~= old(out)@ + fixed(self, places as nat));
            return;
        }
        let (m, q) = self.parts();
        let scale: u64 = power_of_ten(places);
        let (whole, rest) = fixed_digits(m, q, scale);
        out.push_str(text_of(whole.as_slice()).as_str());
        if places > 0 {
            out.push_str(".");
            push_padded(out, rest, places as usize);
        }
        assert(out@ =~= old(out)@ + fixed(self, places as nat));
    }
}

/// Rounding a quotient by two or more does not exceed the number itself.
proof fn lemma_nearest_at_most(n: nat, d: nat)
    requires
        d >= 2,
    ensures
        nearest_even(n, d) <= n,
{
    lemma_fundamental_div_mod(n as int, d as int);
    let t = n / d;
    assert(d * t >= 2 * t) by (nonlinear_arith)
        requires
            d >= 2,
            t >= 0,
    ;
}

proof fn lemma_no_marker(s: Seq<char>)
    requires
        forall|i: int| 0 <= i < s.len() ==> is_digit(#[trigger] s[i]),
    ensures
        find_marker(s) == s.len(),
        find(s, '.') == s.len(),
    decreases s.len(),
{
    if s.len() > 0 {
        assert(is_digit(s[0]));
        assert forall|i: int| 0 <= i < s.skip(1).len() implies is_digit(#[trigger] s.skip(1)[i]) by {
            assert(s.skip(1)[i] == s[i + 1]);
        }
        lemma_no_marker(s.skip(1));
    }
}

/// A row of digits reads as the number that it stands for.
pub proof fn lemma_number_of_digits(s: Seq<char>)
    requires
        all_digits(s),
    ensures
        number_of(s) == Some(Real::of_int(digits_value(s) as int)),
{
    assert(is_digit(s[0]));
    assert(without_sign(s) == s);
    let name = ascii_lower(s);
    assert(name[0] == s[0]);
    reveal_strlit("inf");
    reveal_strlit("infinity");
    reveal_strlit("nan");
    assert("inf"@[0] == 'i' && "infinity"@[0] == 'i' && "nan"@[0] == 'n');
    lemma_no_marker(s);
    assert(s.take(s.len() as int) =~= s);
    assert(whole_digits(s) + fraction_digits(s) =~= s);
    let v = digits_value(s);
    assert(ten_to(0) == 1);
    assert(v * 1 == v);
}

} // verus!
