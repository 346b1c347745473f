//! A duration that was written as a clock reads it is read back.

use vstd::arithmetic::div_mod::lemma_fundamental_div_mod_converse;
use vstd::prelude::*;

use crate::binary64::{lemma_int_product, lemma_int_sum, lemma_nat_size, nearest_up, unit, Real};
use crate::csv_data::{clock_text, duration_of, whole_seconds};
use crate::error::ErrorView;
use crate::nearest::TWO53;
use crate::number_text::lemma_number_of_digits;
use crate::numeral::{lemma_padded, signed_of};
use crate::subtitle_laws::{lemma_digits_have_no, lemma_split_behind, lemma_split_hms};
use crate::text::{
    all_digits, digits_value, is_digit, padded, split, trim, trim_end, trim_start, white,
};

verus! {

/// A row of digits that fits is a signed numeral.
pub proof fn lemma_signed_digits(s: Seq<char>)
    requires
        all_digits(s),
        digits_value(s) <= i64::MAX,
    ensures
        signed_of(s) == Some(digits_value(s) as int),
{
    assert(is_digit(s[0]));
}

/// Text that starts and ends with a digit has nothing to trim.
pub proof fn lemma_trimmed(t: Seq<char>)
    requires
        t.len() > 0,
        is_digit(t[0]),
        is_digit(t.last()),
    ensures
        trim(t) == t,
{
    assert(!white(t[0]) && !white(t.last()));
    assert(trim_start(t) == t);
    assert(trim_end(t) == t);
}

proof fn lemma_minutes_read(m: Seq<char>, s: Seq<char>)
    requires
        all_digits(m),
        all_digits(s),
        digits_value(m) < 60,
        digits_value(s) < 60,
    ensures
        duration_of(m + seq![':'] + s) == Ok::<Real, ErrorView>(
            Real::of_int((digits_value(m) * 60 + digits_value(s)) as int),
        ),
{
    let t = m + seq![':'] + s;
    assert(is_digit(m[0]) && is_digit(s.last()));
    assert(t[0] == m[0] && t.last() == s.last());
    lemma_trimmed(t);
    lemma_digits_have_no(m, ':');
    lemma_digits_have_no(s, ':');
    lemma_split_behind(m, ':', s);
    assert(split(s, ':') =~= seq![s]);
    let parts = split(t, ':');
    assert(parts =~= seq![m, s]);
    assert(t[m.len() as int] == ':');
    lemma_signed_digits(m);
    lemma_number_of_digits(s);
    lemma_int_product(digits_value(m), 60);
    lemma_int_sum(digits_value(m) * 60, digits_value(s));
}

proof fn lemma_hours_read(h: Seq<char>, m: Seq<char>, s: Seq<char>)
    requires
        all_digits(h),
        all_digits(m),
        all_digits(s),
        digits_value(h) * 3600 + digits_value(m) * 60 + digits_value(s) < TWO53,
    ensures
        duration_of(h + seq![':'] + (m + seq![':'] + s)) == Ok::<Real, ErrorView>(
            Real::of_int(
                (digits_value(h) * 3600 + digits_value(m) * 60 + digits_value(s)) as int,
            ),
        ),
{
    let t = h + seq![':'] + (m + seq![':'] + s);
    assert(is_digit(h[0]) && is_digit(s.last()));
    assert(t[0] == h[0] && t.last() == s.last());
    lemma_trimmed(t);
    lemma_split_hms(h, m, s);
    assert(t[h.len() as int] == ':');
    lemma_signed_digits(h);
    lemma_signed_digits(m);
    lemma_number_of_digits(s);
    let a = digits_value(h);
    let b = digits_value(m);
    lemma_int_product(a, 3600);
    lemma_int_product(b, 60);
    lemma_int_sum(a * 3600, b * 60);
    lemma_int_sum(a * 3600 + b * 60, digits_value(s));
}

/// A whole number of seconds that was written as a clock reads it is read back as
/// that number. Numbers below two to the power of fifty-three are meant, up to which
/// every whole number of seconds is exact.
pub proof fn law_clock_round_trip(total: nat)
    requires
        total < TWO53,
    ensures
        duration_of(clock_text(total)) == Ok::<Real, ErrorView>(Real::of_int(total as int)),
        whole_seconds(Real::of_int(total as int)) == total,
{
    let minutes = (total % 3600) / 60;
    let seconds = total % 60;
    let m = padded(minutes, 2);
    let s = padded(seconds, 2);
    lemma_padded(minutes, 2);
    lemma_padded(seconds, 2);
    reveal_strlit(":");
    assert(":"@ =~= seq![':']);
    assert((total % 3600) % 60 == total % 60);
    if total >= 3600 {
        let h = padded(total / 3600, 2);
        lemma_padded(total / 3600, 2);
        lemma_hours_read(h, m, s);
    } else {
        lemma_minutes_read(m, s);
    }
    lemma_nat_size(total);
    let u = unit() as int;
    lemma_fundamental_div_mod_converse(total * u, u, total as int, 0);
    assert(nearest_up(total * unit(), unit()) == total);
}

} // verus!
