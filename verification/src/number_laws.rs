//! Numbers and times in words.

use vstd::arithmetic::div_mod::{lemma_fundamental_div_mod, lemma_fundamental_div_mod_converse};
use vstd::prelude::*;

use crate::binary64::{lemma_nat_size, lemma_small_int, lemma_zero_quotient, unit, Real};
use crate::clock_laws::{lemma_signed_digits, lemma_trimmed};
use crate::merge::reported_position;
use crate::model::{field_text, Field};
use crate::nearest::{nearest_even, TWO53};
use crate::number_text::{fixed, ten_to};
use crate::probe_laws::lemma_whole_rounds;
use crate::run_laws::lemma_exact_ratio;
use crate::sync::signed_duration;
use crate::text::{
    all_digits, decimal, digits_value, find, is_digit, lemma_find, padded, trim_end, trim_start,
    white,
};

verus! {

/// A finite number is written as the numeral that is nearest to it: at most half of the
/// last place away.
pub proof fn law_written_number_is_near(x: Real, places: nat) -> (k: nat)
    requires
        x.finite(),
        places > 0,
    ensures
        -(unit() as int) <= 2 * (k * unit() - x.size() * ten_to(places)) <= unit(),
        fixed(x, places) == (if x.negative() {
            "-"@
        } else {
            ""@
        }) + decimal(k / ten_to(places)) + ("."@ + padded(k % ten_to(places), places)),
{
    lemma_nat_size(0);
    let d = unit();
    let n = x.size() * ten_to(places);
    lemma_ten(places);
    assert(n >= 0) by (nonlinear_arith)
        requires
            n == x.size() * ten_to(places),
    ;
    let k = nearest_even(n, d);
    lemma_fundamental_div_mod(n as int, d as int);
    let t = (n / d) as int;
    assert(d * t == t * d) by (nonlinear_arith);
    assert((t + 1) * d == t * d + d) by (nonlinear_arith);
    k
}

proof fn lemma_ten(places: nat)
    ensures
        ten_to(places) > 0,
    decreases places,
{
    if places > 0 {
        lemma_ten((places - 1) as nat);
    }
}

/// Whole numbers are written as they are, with zeros behind the point.
proof fn lemma_whole_number(n: nat, places: nat)
    requires
        n < TWO53,
    ensures
        nearest_even((n * unit()) * ten_to(places), unit()) == n * ten_to(places),
        (n * ten_to(places)) / ten_to(places) == n,
        (n * ten_to(places)) % ten_to(places) == 0,
{
    lemma_nat_size(n);
    lemma_ten(places);
    let u = unit();
    let t = ten_to(places);
    let k = n * t;
    assert((n * u) * t == u * k) by (nonlinear_arith)
        requires
            k == n * t,
    ;
    assert(k >= 0) by (nonlinear_arith)
        requires
            k == n * t,
    ;
    lemma_fundamental_div_mod_converse((u * k) as int, u as int, k as int, 0);
    assert(k == t * n) by (nonlinear_arith)
        requires
            k == n * t,
    ;
    lemma_fundamental_div_mod_converse(k as int, t as int, n as int, 0);
}

/// Depths and temperatures are shown with one place behind the point, pressures and
/// heart rates with none; what is below zero is shown with its sign.
pub proof fn law_fields_show_whole_numbers(n: nat)
    requires
        n < TWO53,
    ensures
        field_text(Field::Depth, Real::of_int(n as int)) == Some("Depth: "@ + decimal(n) + ".0 m"@),
        field_text(Field::Temp, Real::of_int(n as int)) == Some("Temp: "@ + decimal(n) + ".0 C"@),
        field_text(Field::Pressure, Real::of_int(n as int)) == Some(
            "Pressure: "@ + decimal(n) + " bar"@,
        ),
        field_text(Field::Hr, Real::of_int(n as int)) == Some("HR: "@ + decimal(n) + " bpm"@),
        n > 0 ==> field_text(Field::Depth, Real::of_int(-n)) == Some(
            "Depth: -"@ + decimal(n) + ".0 m"@,
        ),
        n > 0 ==> field_text(Field::Temp, Real::of_int(-n)) == Some(
            "Temp: -"@ + decimal(n) + ".0 C"@,
        ),
{
    lemma_whole_number(n, 1);
    lemma_whole_number(n, 0);
    lemma_nat_size(n);
    lemma_small_int(-n);
    reveal_with_fuel(ten_to, 2);
    let u = unit();
    let x = Real::of_int(n as int);
    let y = Real::of_int(-n);
    assert(-(n * u) == (-n) * u) by (nonlinear_arith);
    assert(padded(0, 1) =~= decimal(0));
    reveal_strlit("");
    reveal_strlit("-");
    reveal_strlit(".");
    reveal_strlit("Depth: ");
    reveal_strlit("Depth: -");
    reveal_strlit("Temp: ");
    reveal_strlit("Temp: -");
    reveal_strlit("Pressure: ");
    reveal_strlit("HR: ");
    reveal_strlit(" m");
    reveal_strlit(" C");
    reveal_strlit(" bar");
    reveal_strlit(" bpm");
    reveal_strlit(".0 m");
    reveal_strlit(".0 C");
    assert(decimal(0) =~= seq!['0']);
    assert(fixed(x, 1) =~= decimal(n) + seq!['.', '0']);
    assert(fixed(x, 0) =~= decimal(n));
    if n > 0 {
        assert(y.size() == n * u);
        assert(fixed(y, 1) =~= seq!['-'] + decimal(n) + seq!['.', '0']);
        assert("Depth: "@ + fixed(y, 1) + " m"@ =~= "Depth: -"@ + decimal(n) + ".0 m"@);
        assert("Temp: "@ + fixed(y, 1) + " C"@ =~= "Temp: -"@ + decimal(n) + ".0 C"@);
    }
    assert("Depth: "@ + fixed(x, 1) + " m"@ =~= "Depth: "@ + decimal(n) + ".0 m"@);
    assert("Temp: "@ + fixed(x, 1) + " C"@ =~= "Temp: "@ + decimal(n) + ".0 C"@);
}

/// A moment of the dive is told in minutes and seconds, with a sign where it lies before
/// the dive.
pub proof fn law_told_moment(n: nat)
    requires
        n < TWO53,
    ensures
        signed_duration(Real::of_int(n as int)) == decimal(n / 60) + ":"@ + padded(n % 60, 2),
        n > 0 ==> signed_duration(Real::of_int(-n)) == "-"@ + decimal(n / 60) + ":"@ + padded(
            n % 60,
            2,
        ),
{
    reveal_strlit("");
    lemma_whole_rounds(n as int);
    lemma_small_int(n as int);
    lemma_small_int(-n);
    lemma_small_int(0);
    lemma_nat_size(n);
    let u = unit();
    assert(0 * u == 0);
    assert(n * u >= 0) by (nonlinear_arith);
    assert(-(n * u) == (-n) * u) by (nonlinear_arith);
    let x = Real::of_int(n as int);
    assert(x.absolute() == x);
    assert(signed_duration(x) =~= decimal(n / 60) + ":"@ + padded(n % 60, 2));
    if n > 0 {
        let y = Real::of_int(-n);
        assert(y.magnitude() == x.magnitude());
        assert(y.absolute() == x);
        assert(n * u > 0) by (nonlinear_arith)
            requires
                n > 0,
                u > 0,
        ;
    }
}

/// A merge that reports so many microseconds is that far, whole seconds where they are
/// whole; other lines report nothing.
pub proof fn law_reported_position(key: Seq<char>, digits: Seq<char>, seconds: nat)
    requires
        !key.contains('='),
        all_digits(digits),
        digits_value(digits) <= i64::MAX,
    ensures
        key != "out_time_us"@ && key != "out_time_ms"@ ==> reported_position(
            key + seq!['='] + digits,
        ).is_none(),
        key == "out_time_us"@ || key == "out_time_ms"@ ==> reported_position(
            key + seq!['='] + digits,
        ) == Some(Real::of_int(digits_value(digits) as int).quotient(Real::of_int(1_000_000))),
        (key == "out_time_us"@ || key == "out_time_ms"@) && digits_value(digits) == 1_000_000
            * seconds && 1_000_000 * seconds < TWO53 ==> reported_position(
            key + seq!['='] + digits,
        ) == Some(Real::of_int(seconds as int)),
{
    let line = key + seq!['='] + digits;
    lemma_find(line, '=');
    let at = find(line, '=') as int;
    assert(line[key.len() as int] == '=');
    assert(at == key.len()) by {
        if at < key.len() {
            assert(line[at] == key[at]);
            assert(key.contains(key[at]));
        }
    }
    assert(line.take(at) =~= key);
    assert(line.skip(at + 1) =~= digits);
    assert(is_digit(digits[0]) && is_digit(digits.last()));
    lemma_trimmed(digits);
    lemma_signed_digits(digits);
    if 1_000_000 * seconds < TWO53 {
        assert(seconds * 1_000_000 == 1_000_000 * seconds);
        lemma_exact_ratio(seconds, 1_000_000);
    }
}

/// A merge that reports a time below zero is at its start.
pub proof fn law_position_below_zero(key: Seq<char>, digits: Seq<char>)
    requires
        key == "out_time_us"@ || key == "out_time_ms"@,
        all_digits(digits),
        0 < digits_value(digits) <= i64::MAX,
    ensures
        reported_position(key + seq!['='] + (seq!['-'] + digits)) == Some(Real::of_int(0)),
{
    let rest = seq!['-'] + digits;
    let line = key + seq!['='] + rest;
    reveal_strlit("out_time_us");
    reveal_strlit("out_time_ms");
    assert(!key.contains('='));
    lemma_find(line, '=');
    let at = find(line, '=') as int;
    assert(line[key.len() as int] == '=');
    assert(at == key.len()) by {
        if at < key.len() {
            assert(line[at] == key[at]);
            assert(key.contains(key[at]));
        }
    }
    assert(line.take(at) =~= key);
    assert(line.skip(at + 1) =~= rest);
    assert(is_digit(digits.last()) && rest.last() == digits.last());
    assert(!white(rest[0]) && !white(rest.last()));
    assert(trim_start(rest) == rest);
    assert(trim_end(rest) == rest);
    assert(rest.skip(1) =~= digits);
    let million = Real::of_int(1_000_000);
    lemma_small_int(1_000_000);
    lemma_nat_size(1_000_000);
    lemma_zero_quotient(million);
}

} // verus!
