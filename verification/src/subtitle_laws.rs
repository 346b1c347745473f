//! What holds of every subtitle track.

use vstd::arithmetic::div_mod::{lemma_fundamental_div_mod, lemma_fundamental_div_mod_converse};
use vstd::arithmetic::power2::{
    lemma2_to64, lemma2_to64_rest, lemma_pow2_adds, lemma_pow2_pos, lemma_pow2_unfold, pow2,
};
use vstd::prelude::*;

use crate::binary64::{
    exponent_of, lemma_exact, lemma_int_product, lemma_int_sum, lemma_nat_size, lemma_nearest_error,
    lemma_nearest_up_monotone, lemma_nearest_zero, lemma_relative_error, lemma_size_order,
    nearest_up, significand_of, size_of_magnitude, unit, Real,
};
use crate::nearest::{lemma_pow2_le, nearest_magnitude, TWO52, TWO53};
use crate::number_text::lemma_number_of_digits;
use crate::numeral::lemma_padded;
use crate::paths::lemma_after_last_bound;
use crate::subtitle::{clock_seconds, cut_last, srt_millis, timestamp_of, timestamp_text};
use crate::text::{
    after_last, all_digits, digits_value, find, is_digit, lemma_find, padded, split, trim, trim_end,
    trim_start, white,
};

verus! {

/// The first moment, in milliseconds, past those that are all kept exactly: two to the
/// power of forty-two seconds.
pub const FIRST_LARGE_MILLIS: u64 = 4_398_046_511_104_000;

/// The first moment, in milliseconds, past those to which times are moved exactly: two
/// to the power of forty seconds.
pub const FIRST_UNMOVED_MILLIS: u64 = 1_099_511_627_776_000;

pub proof fn lemma_digits_have_no(s: Seq<char>, c: char)
    requires
        all_digits(s),
        !is_digit(c),
    ensures
        !s.contains(c),
        find(s, c) == s.len(),
        trim(s) == s,
{
    lemma_find(s, c);
    if s.contains(c) {
        let i = choose|i: int| 0 <= i < s.len() && s[i] == c;
        assert(is_digit(s[i]));
    }
    assert(is_digit(s[0]) && is_digit(s.last()));
    assert(!white(s[0]) && !white(s.last()));
    assert(trim_start(s) == s);
    assert(trim_end(s) == s);
}

/// The first separator stands behind a row of digits.
proof fn lemma_find_behind(s: Seq<char>, c: char, t: Seq<char>)
    requires
        !s.contains(c),
    ensures
        find(s + seq![c] + t, c) == s.len(),
    decreases s.len(),
{
    let all = s + seq![c] + t;
    if s.len() == 0 {
        assert(all[0] == c);
    } else {
        assert(all[0] == s[0]);
        assert(s.contains(s[0]));
        assert(s.skip(1) + seq![c] + t =~= all.skip(1));
        assert(!s.skip(1).contains(c)) by {
            if s.skip(1).contains(c) {
                let i = choose|i: int| 0 <= i < s.skip(1).len() && s.skip(1)[i] == c;
                assert(s[i + 1] == c);
            }
        }
        lemma_find_behind(s.skip(1), c, t);
    }
}

pub proof fn lemma_split_behind(s: Seq<char>, c: char, t: Seq<char>)
    requires
        !s.contains(c),
    ensures
        split(s + seq![c] + t, c) == seq![s] + split(t, c),
{
    let all = s + seq![c] + t;
    lemma_find_behind(s, c, t);
    assert(all.take(s.len() as int) =~= s);
    assert(all.skip((s.len() + 1) as int) =~= t);
}

proof fn lemma_after_last_behind(s: Seq<char>, c: char, t: Seq<char>)
    requires
        !t.contains(c),
    ensures
        after_last(s + seq![c] + t, c) == s.len() + 1,
    decreases t.len(),
{
    let all = s + seq![c] + t;
    if t.len() == 0 {
        assert(all.last() == c);
    } else {
        assert(all.last() == t.last());
        assert(t.contains(t.last()));
        assert(all.drop_last() =~= s + seq![c] + t.drop_last());
        assert(!t.drop_last().contains(c)) by {
            if t.drop_last().contains(c) {
                let i = choose|i: int| 0 <= i < t.len() - 1 && t.drop_last()[i] == c;
                assert(t[i] == c);
            }
        }
        lemma_after_last_behind(s, c, t.drop_last());
    }
}

/// Three rows of digits between colons come apart again.
pub proof fn lemma_split_hms(h: Seq<char>, m: Seq<char>, s: Seq<char>)
    requires
        all_digits(h),
        all_digits(m),
        all_digits(s),
    ensures
        split(h + seq![':'] + (m + seq![':'] + s), ':') == seq![h, m, s],
{
    lemma_digits_have_no(h, ':');
    lemma_digits_have_no(m, ':');
    lemma_digits_have_no(s, ':');
    lemma_split_behind(h, ':', m + seq![':'] + s);
    lemma_split_behind(m, ':', s);
    assert(split(s, ':') =~= seq![s]);
    assert(seq![h] + (seq![m] + seq![s]) =~= seq![h, m, s]);
}

/// Rows of digits as a time, with a comma or a point before the last of them.
spec fn joined(h: Seq<char>, m: Seq<char>, s: Seq<char>, ms: Seq<char>, c: char) -> Seq<char> {
    (h + seq![':'] + (m + seq![':'] + s)) + seq![c] + ms
}

/// A time made of rows of digits reads as the sum of its parts.
#[verifier::rlimit(40)]
proof fn lemma_joined_reads(h: Seq<char>, m: Seq<char>, s: Seq<char>, ms: Seq<char>, c: char)
    requires
        all_digits(h),
        all_digits(m),
        all_digits(s),
        all_digits(ms),
        c == ',' || c == '.',
    ensures
        timestamp_of(joined(h, m, s, ms, c)) == Some(
            clock_seconds(
                Real::of_int(digits_value(h) as int),
                Real::of_int(digits_value(m) as int),
                Real::of_int(digits_value(s) as int),
                Real::of_int(digits_value(ms) as int),
            ),
        ),
{
    let hms = h + seq![':'] + (m + seq![':'] + s);
    let text = joined(h, m, s, ms, c);
    lemma_split_hms(h, m, s);
    lemma_digits_have_no(ms, c);
    lemma_number_of_digits(h);
    lemma_number_of_digits(m);
    lemma_number_of_digits(s);
    lemma_number_of_digits(ms);
    lemma_digits_have_no(h, ':');
    lemma_digits_have_no(m, ':');
    lemma_digits_have_no(s, ':');
    assert(is_digit(h[0]) && is_digit(ms.last()));
    assert(text[0] == h[0] && text.last() == ms.last());
    assert(!white(text[0]) && !white(text.last()));
    assert(trim_start(text) == text);
    assert(trim_end(text) == text);
    lemma_after_last_behind(hms, c, ms);
    assert(text.take(hms.len() as int) =~= hms);
    assert(text.skip((hms.len() + 1) as int) =~= ms);
    assert(cut_last(text, c) == Some((hms, ms)));
    if c == '.' {
        assert(!text.contains(',')) by {
            if text.contains(',') {
                let i = choose|i: int| 0 <= i < text.len() && text[i] == ',';
                lemma_joined_char(h, m, s, ms, c, i);
            }
        }
        lemma_after_last_bound(text, ',');
        assert(cut_last(text, ',').is_none());
    }
    let parts = split(hms, ':');
    assert(parts.len() == 3 && parts[0] == h && parts[1] == m && parts[2] == s);
}

/// A time made of rows of digits holds digits, colons and one mark.
proof fn lemma_joined_char(
    h: Seq<char>,
    m: Seq<char>,
    s: Seq<char>,
    ms: Seq<char>,
    c: char,
    i: int,
)
    requires
        all_digits(h),
        all_digits(m),
        all_digits(s),
        all_digits(ms),
        0 <= i < joined(h, m, s, ms, c).len(),
    ensures
        ({
            let x = joined(h, m, s, ms, c)[i];
            is_digit(x) || x == ':' || x == c
        }),
{
    let x = joined(h, m, s, ms, c)[i];
    let a = h.len() as int;
    let b = a + 1 + m.len();
    let e = b + 1 + s.len();
    if i < a {
        assert(x == h[i]);
    } else if i == a {
        assert(x == ':');
    } else if i < b {
        assert(x == m[i - a - 1]);
    } else if i == b {
        assert(x == ':');
    } else if i < e {
        assert(x == s[i - b - 1]);
    } else if i == e {
        assert(x == c);
    } else {
        assert(x == ms[i - e - 1]);
    }
}

/// A time reads as the sum of its parts.
pub proof fn lemma_timestamp_reads(n: nat)
    ensures
        timestamp_of(timestamp_text(n)) == Some(
            clock_seconds(
                Real::of_int((n / 3_600_000) as int),
                Real::of_int(((n % 3_600_000) / 60_000) as int),
                Real::of_int(((n % 60_000) / 1000) as int),
                Real::of_int((n % 1000) as int),
            ),
        ),
{
    let h = padded(n / 3_600_000, 2);
    let m = padded((n % 3_600_000) / 60_000, 2);
    let s = padded((n % 60_000) / 1000, 2);
    let ms = padded(n % 1000, 3);
    lemma_padded(n / 3_600_000, 2);
    lemma_padded((n % 3_600_000) / 60_000, 2);
    lemma_padded((n % 60_000) / 1000, 2);
    lemma_padded(n % 1000, 3);
    reveal_strlit(":");
    reveal_strlit(",");
    assert(":"@ =~= seq![':']);
    assert(","@ =~= seq![',']);
    assert(timestamp_text(n) =~= joined(h, m, s, ms, ','));
    lemma_joined_reads(h, m, s, ms, ',');
}

/// A count of milliseconds as a track writes it, but with a point for the comma.
pub open spec fn pointed_text(millis: nat) -> Seq<char> {
    padded(millis / 3_600_000, 2) + ":"@ + padded((millis % 3_600_000) / 60_000, 2) + ":"@ + padded(
        (millis % 60_000) / 1000,
        2,
    ) + "."@ + padded(millis % 1000, 3)
}

/// A time with a point for the comma reads the same.
pub proof fn law_point_reads_the_same(n: nat)
    ensures
        timestamp_of(pointed_text(n)) == timestamp_of(timestamp_text(n)),
        timestamp_of(pointed_text(n)).is_some(),
{
    let h = padded(n / 3_600_000, 2);
    let m = padded((n % 3_600_000) / 60_000, 2);
    let s = padded((n % 60_000) / 1000, 2);
    let ms = padded(n % 1000, 3);
    lemma_padded(n / 3_600_000, 2);
    lemma_padded((n % 3_600_000) / 60_000, 2);
    lemma_padded((n % 60_000) / 1000, 2);
    lemma_padded(n % 1000, 3);
    reveal_strlit(":");
    reveal_strlit(",");
    reveal_strlit(".");
    assert(":"@ =~= seq![':']);
    assert(","@ =~= seq![',']);
    assert("."@ =~= seq!['.']);
    assert(timestamp_text(n) =~= joined(h, m, s, ms, ','));
    assert(pointed_text(n) =~= joined(h, m, s, ms, '.'));
    lemma_joined_reads(h, m, s, ms, ',');
    lemma_joined_reads(h, m, s, ms, '.');
}

/// The whole seconds of a time come out exact.
pub proof fn lemma_whole_seconds(n: nat)
    requires
        n < TWO53,
    ensures
        Real::of_int((n / 3_600_000) as int).product(Real::of_int(3600)).sum(
            Real::of_int(((n % 3_600_000) / 60_000) as int).product(Real::of_int(60)),
        ).sum(Real::of_int(((n % 60_000) / 1000) as int)) == Real::of_int((n / 1000) as int),
{
    let h = n / 3_600_000;
    let m = (n % 3_600_000) / 60_000;
    let s = (n % 60_000) / 1000;
    lemma_clock_parts(n);
    assert(h < 3_000_000_000 && m < 60 && s < 60);
    lemma_clock_sum(h, m, s);
}

proof fn lemma_clock_sum(h: nat, m: nat, s: nat)
    requires
        h < 3_000_000_000,
        m < 60,
        s < 60,
    ensures
        Real::of_int(h as int).product(Real::of_int(3600)).sum(
            Real::of_int(m as int).product(Real::of_int(60)),
        ).sum(Real::of_int(s as int)) == Real::of_int((h * 3600 + m * 60 + s) as int),
{
    lemma_int_product(h, 3600);
    lemma_int_product(m, 60);
    lemma_int_sum(h * 3600, m * 60);
    lemma_int_sum(h * 3600 + m * 60, s);
}

proof fn lemma_clock_parts(n: nat)
    ensures
        (n / 3_600_000) * 3600 + ((n % 3_600_000) / 60_000) * 60 + (n % 60_000) / 1000 == n / 1000,
        n % 3_600_000 < 3_600_000,
{
    let h = n / 3_600_000;
    let r = n % 3_600_000;
    let m = r / 60_000;
    let q = r % 60_000;
    let s = q / 1000;
    let ms = q % 1000;
    assert(n == 3_600_000 * h + r);
    assert(r == 60_000 * m + q);
    assert(q == 1000 * s + ms);
    let minutes = 60 * h + m;
    let seconds = 3600 * h + 60 * m + s;
    assert(n % 60_000 == q) by (nonlinear_arith)
        requires
            n == 60_000 * minutes + q,
            0 <= q < 60_000,
    ;
    assert(n / 1000 == seconds) by (nonlinear_arith)
        requires
            n == 1000 * seconds + ms,
            0 <= ms < 1000,
    ;
}

/// A thousandth of a count of milliseconds is close to the exact fraction.
proof fn lemma_fraction(ms: nat)
    requires
        ms < 1000,
    ensures
        ({
            let q = Real::of_int(ms as int).quotient(Real::of_int(1000));
            let e = 1000 * pow2(1020);
            &&& q.finite()
            &&& !q.negative()
            &&& 1000 * q.size() <= ms * unit() + e
            &&& 1000 * q.size() + e >= ms * unit()
        }),
{
    reveal(Real::quotient);
    lemma_nat_size(ms);
    lemma_nat_size(1000);
    let u = unit();
    let n = (ms * u) * u;
    let d = 1000 * u;
    lemma2_to64();
    lemma2_to64_rest();
    lemma_pow2_adds(53, 1021);
    let p = pow2(1021);
    assert(d * TWO53 * p == (1000 * u) * u) by (nonlinear_arith)
        requires
            d == 1000 * u,
            TWO53 * p == u,
    ;
    assert(n < (1000 * u) * u) by (nonlinear_arith)
        requires
            ms < 1000,
            u > 0,
            n == (ms * u) * u,
    ;
    lemma_nearest_error(n, d, 1021);
    let q = Real::of_int(ms as int).quotient(Real::of_int(1000));
    assert(q.magnitude() == nearest_magnitude(n, d));
    let f = q.size() as int;
    lemma_pow2_adds(1, 1020);
    let h = pow2(1020) as int;
    assert(1000 * f <= ms * u + 1000 * h && 1000 * f + 1000 * h >= ms * u) by (nonlinear_arith)
        requires
            2 * (f * d) <= 2 * n + d * p,
            2 * (f * d) + d * p >= 2 * n,
            p == 2 * h,
            n == (ms * u) * u,
            d == 1000 * u,
            u > 0,
    ;
}

/// Whether a number is not negative and its size is at most `error` away from an
/// exact one.
spec fn near(x: Real, exact: nat, error: nat) -> bool {
    &&& x.finite()
    &&& !x.negative()
    &&& x.size() <= exact + error
    &&& x.size() + error >= exact
}

/// The sum of two numbers that are not negative is near the exact sum, by half of a
/// last place `2 * e`.
proof fn lemma_near_sum(a: Real, b: Real, k: nat)
    requires
        a.finite(),
        b.finite(),
        !a.negative(),
        !b.negative(),
        k < 2044,
        a.size() + b.size() < TWO53 * pow2(k + 1),
    ensures
        near(a.sum(b), a.size() + b.size(), pow2(k)),
{
    reveal(Real::sum);
    let exact = a.size() + b.size();
    lemma_pow2_unfold(k + 1);
    assert(1 * TWO53 * pow2(k + 1) == TWO53 * pow2(k + 1));
    lemma_nearest_error(exact, 1, k + 1);
    if exact == 0 {
        lemma_nearest_zero(1);
    }
    let x = a.sum(b);
    assert(x.magnitude() == nearest_magnitude(exact, 1));
    assert(!x.negative());
    let y = x.size();
    assert(y * 1 == y);
    assert(1 * pow2(k + 1) == pow2(k + 1));
}

/// A thousandfold is near the exact one, by half of a last place.
proof fn lemma_thousandfold(x: Real, k: nat)
    requires
        x.finite(),
        !x.negative(),
        k < 2044,
        1000 * x.size() < TWO53 * pow2(k + 1),
    ensures
        near(x.not_below_zero().product(Real::of_int(1000)), 1000 * x.size(), pow2(k)),
{
    let y = x.size() as int;
    let u = unit() as int;
    lemma_nat_size(1000);
    lemma2_to64();
    lemma_pow2_unfold(k + 1);
    let c = pow2(k) as int;
    let cc = pow2(k + 1) as int;
    reveal(Real::product);
    let z = x.not_below_zero();
    assert(z.size() == y && z.finite() && !z.negative()) by {
        if y == 0 {
            assert(size_of_magnitude(0) == 0) by {
                assert(significand_of(0) == 0);
                assert(0 * pow2(exponent_of(0)) == 0);
            }
        }
    }
    let p = z.product(Real::of_int(1000));
    let n = z.size() * (1000 * unit());
    assert(n == (1000 * y) * u) by (nonlinear_arith)
        requires
            n == y * (1000 * u),
    ;
    assert(n < unit() * TWO53 * cc) by (nonlinear_arith)
        requires
            n == (1000 * y) * u,
            1000 * y < TWO53 * cc,
            u > 0,
            u == unit(),
    ;
    lemma_nearest_error(n, unit(), k + 1);
    assert(p.magnitude() == nearest_magnitude(n, unit()));
    let r = p.size() as int;
    assert(2 * r <= 2 * (1000 * y) + 2 * c && 2 * r + 2 * c >= 2 * (1000 * y)) by (nonlinear_arith)
        requires
            2 * (r * u) <= 2 * n + u * cc,
            2 * (r * u) + u * cc >= 2 * n,
            n == (1000 * y) * u,
            cc == 2 * c,
            u > 0,
    ;
}

/// The powers of two that errors are measured by.
proof fn lemma_scales()
    ensures
        unit() == 0x40_0000_0000_0000 * pow2(1020),
        unit() == 16384 * pow2(1060),
        unit() == 4096 * pow2(1062),
        unit() == 16 * pow2(1070),
        unit() == 4 * pow2(1072),
        pow2(1020) > 0,
        TWO53 * pow2(1061) == 0x100_0000_0000 * unit(),
        TWO53 * pow2(1063) == 0x400_0000_0000 * unit(),
        TWO53 * pow2(1071) == 0x4_0000_0000_0000 * unit(),
        TWO53 * pow2(1073) == 0x10_0000_0000_0000 * unit(),
{
    lemma2_to64();
    lemma2_to64_rest();
    lemma_pow2_adds(54, 1020);
    lemma_pow2_adds(14, 1060);
    lemma_pow2_adds(12, 1062);
    lemma_pow2_adds(4, 1070);
    lemma_pow2_adds(2, 1072);
    lemma_pow2_pos(1020);
    lemma_pow2_adds(53, 1061);
    lemma_pow2_adds(40, 1074);
    lemma_pow2_adds(53, 1063);
    lemma_pow2_adds(42, 1074);
    lemma_pow2_adds(53, 1071);
    lemma_pow2_adds(50, 1074);
    lemma_pow2_adds(53, 1073);
    lemma_pow2_adds(52, 1074);
}

/// A number of seconds that is near a count of milliseconds rounds to that count.
proof fn lemma_near_millis(x: Real, total: nat)
    requires
        x.finite(),
        !x.negative(),
        x.size() < 0x400_0000_0000 * unit() + pow2(1062),
        -(pow2(1072) as int) < 1000 * x.size() - total * unit() < pow2(1072),
        total <= u64::MAX,
    ensures
        srt_millis(x) == total,
{
    lemma_scales();
    lemma_thousandfold(x, 1072);
    lemma_rounds_to(x.not_below_zero().product(Real::of_int(1000)).size(), total);
}

/// A number of seconds that is near a count of milliseconds below `2^40` seconds rounds
/// to that count, by less.
proof fn lemma_nearer_millis(x: Real, total: nat)
    requires
        x.finite(),
        !x.negative(),
        x.size() < 0x100_0000_0000 * unit() + pow2(1060),
        -(pow2(1072) as int) <= 1000 * x.size() - total * unit() <= pow2(1072),
        total <= u64::MAX,
    ensures
        srt_millis(x) == total,
{
    lemma_scales();
    lemma_thousandfold(x, 1070);
    lemma_rounds_to(x.not_below_zero().product(Real::of_int(1000)).size(), total);
}

/// A number of seconds that is not above a whole one comes to no more milliseconds.
pub proof fn lemma_millis_at_most(x: Real, k: nat)
    requires
        x.finite(),
        !x.negative(),
        x.size() <= k * unit(),
        k < 0x400_0000_0000,
    ensures
        srt_millis(x) <= 1000 * k,
{
    let u = unit() as int;
    lemma_scales();
    assert(k * u <= 0x400_0000_0000 * u) by (nonlinear_arith)
        requires
            k <= 0x400_0000_0000,
            u >= 0,
    ;
    lemma_thousandfold(x, 1072);
    let whole = 1000 * k;
    assert(whole * u == 1000 * (k * u)) by (nonlinear_arith)
        requires
            whole == 1000 * k,
    ;
    let top = (whole * u + pow2(1072)) as nat;
    lemma_rounds_to(top, whole);
    lemma_nearest_up_monotone(
        x.not_below_zero().product(Real::of_int(1000)).size(),
        top,
        unit(),
    );
}

/// Adding nothing changes nothing.
pub proof fn lemma_plus_nothing(x: Real)
    requires
        x.finite(),
        !x.negative(),
    ensures
        x.sum(Real::of_int(0)) == x,
{
    reveal(Real::sum);
    lemma_nat_size(0);
    lemma_size_order(x, x);
    lemma_exact(x.magnitude());
    assert(0 * unit() == 0);
    let z = Real::of_int(0);
    lemma_size_order(z, z);
    if x.value() == 0 {
        assert(x.sum(z).magnitude() == 0);
    } else {
        assert(x.sum(z).magnitude() == x.magnitude());
    }
    assert(!x.sum(z).negative());
    assert(x.sum(z).bits == x.bits);
}

/// What is known of the time that was read for a count of milliseconds.
proof fn lemma_read_near(t: nat, ms: nat)
    requires
        t < 0x400_0000_0000,
        ms < 1000,
    ensures
        ({
            let x = Real::of_int(t as int).sum(
                Real::of_int(ms as int).quotient(Real::of_int(1000)),
            );
            let off = 1000 * x.size() - (1000 * t + ms) * unit();
            &&& x.finite()
            &&& !x.negative()
            &&& x.size() < 0x400_0000_0000 * unit() + pow2(1062)
            &&& -(pow2(1072) as int) < off < pow2(1072)
            &&& t < 0x100_0000_0000 ==> x.size() < 0x100_0000_0000 * unit() + pow2(1060) && -(pow2(
                1070,
            ) as int) < off < pow2(1070)
        }),
{
    let q = Real::of_int(ms as int).quotient(Real::of_int(1000));
    lemma_fraction(ms);
    lemma_nat_size(t);
    lemma_scales();
    let u = unit() as int;
    let f = q.size() as int;
    assert(ms * u <= 999 * u) by (nonlinear_arith)
        requires
            ms <= 999,
            u > 0,
    ;
    assert(f + pow2(1062) < u);
    assert(0 <= t * u <= (0x400_0000_0000 - 1) * u) by (nonlinear_arith)
        requires
            0 <= t <= 0x400_0000_0000 - 1,
            u > 0,
    ;
    let x = Real::of_int(t as int).sum(q);
    lemma_near_sum(Real::of_int(t as int), q, 1062);
    let first = 1000 * t + ms;
    assert(first * u == 1000 * (t * u) + ms * u) by (nonlinear_arith)
        requires
            first == 1000 * t + ms,
    ;
    if t < 0x100_0000_0000 {
        assert(t * u <= (0x100_0000_0000 - 1) * u) by (nonlinear_arith)
            requires
                t <= 0x100_0000_0000 - 1,
                u > 0,
        ;
        lemma_near_sum(Real::of_int(t as int), q, 1060);
    }
}

/// A time that was read is the exact count of milliseconds.
proof fn lemma_millis_survive(t: nat, ms: nat)
    requires
        t < 0x400_0000_0000,
        ms < 1000,
    ensures
        ({
            let x = Real::of_int(t as int).sum(
                Real::of_int(ms as int).quotient(Real::of_int(1000)),
            );
            &&& srt_millis(x) == 1000 * t + ms
            &&& x.finite()
            &&& x.sum(Real::of_int(0)) == x
            &&& -(unit() as int) < 2 * (1000 * x.value() - (1000 * t + ms) * unit()) < unit()
        }),
{
    let x = Real::of_int(t as int).sum(Real::of_int(ms as int).quotient(Real::of_int(1000)));
    lemma_read_near(t, ms);
    lemma_scales();
    lemma_near_millis(x, (1000 * t + ms) as nat);
    lemma_plus_nothing(x);
}

/// A time that was read, moved by whole seconds, is the exact count of milliseconds.
proof fn lemma_millis_move(t: nat, ms: nat, k: nat)
    requires
        t + k < 0x100_0000_0000,
        ms < 1000,
    ensures
        ({
            let x = Real::of_int(t as int).sum(
                Real::of_int(ms as int).quotient(Real::of_int(1000)),
            );
            srt_millis(x.sum(Real::of_int(k as int))) == 1000 * (t + k) + ms
        }),
{
    let x = Real::of_int(t as int).sum(Real::of_int(ms as int).quotient(Real::of_int(1000)));
    let kk = Real::of_int(k as int);
    lemma_read_near(t, ms);
    lemma_nat_size(k);
    lemma_scales();
    let u = unit() as int;
    let first = 1000 * t + ms;
    let total = (1000 * (t + k) + ms) as nat;
    assert(first * u + 1000 * (k * u) == total * u) by (nonlinear_arith)
        requires
            first == 1000 * t + ms,
            total == 1000 * (t + k) + ms,
    ;
    assert(total * u <= 1000 * (0x100_0000_0000 * u) - u) by (nonlinear_arith)
        requires
            total <= 1000 * 0x100_0000_0000 - 1,
            u > 0,
    ;
    assert(k * u >= 0) by (nonlinear_arith)
        requires
            k >= 0,
            u > 0,
    ;
    lemma_near_sum(x, kk, 1060);
    lemma_nearer_millis(x.sum(kk), total);
}

/// What is less than half a unit away from a whole number rounds to it.
proof fn lemma_rounds_to(size: nat, whole: nat)
    requires
        -(unit() as int) < 2 * (size - whole * unit()) < unit(),
    ensures
        nearest_up(size, unit()) == whole,
{
    let u = unit() as int;
    if size >= whole * unit() {
        lemma_fundamental_div_mod_converse(size as int, u, whole as int, size - whole * u);
    } else {
        assert(whole > 0) by {
            if whole == 0 {
                assert(0 * u == 0);
            }
        }
        assert((whole - 1) * u == whole * u - u) by (nonlinear_arith);
        lemma_fundamental_div_mod_converse(
            size as int,
            u,
            whole - 1,
            size - (whole - 1) * u,
        );
    }
}

/// A time that a track holds reads back as the same count of milliseconds, and so
/// is written again as it was, with nothing added too. Times below two to the power of
/// forty-two seconds are meant, past which not all of them do.
pub proof fn law_timestamp_round_trip(n: nat)
    requires
        n < FIRST_LARGE_MILLIS,
    ensures
        timestamp_of(timestamp_text(n)) matches Some(x) && srt_millis(x) == n
            && timestamp_text(srt_millis(x)) == timestamp_text(n) && x.sum(Real::of_int(0)) == x,
{
    lemma_timestamp_reads(n);
    lemma_whole_seconds(n);
    lemma_millis_survive(n / 1000, n % 1000);
}

/// A time that is moved by whole seconds is moved by exactly these.
pub proof fn law_timestamp_shifts_exactly(n: nat, k: nat)
    requires
        n + 1000 * k < FIRST_UNMOVED_MILLIS,
    ensures
        timestamp_of(timestamp_text(n)) matches Some(x) && srt_millis(
            x.sum(Real::of_int(k as int)),
        ) == n + 1000 * k,
{
    lemma_timestamp_reads(n);
    lemma_whole_seconds(n);
    lemma_millis_move(n / 1000, n % 1000, k);
}

/// A time that a track holds is read as a number less than half a millisecond away
/// from it.
pub proof fn law_read_time_is_near(n: nat)
    requires
        n < FIRST_LARGE_MILLIS,
    ensures
        timestamp_of(timestamp_text(n)) matches Some(x) && x.finite() && -(unit() as int) < 2 * (1000
            * x.value() - n * unit()) < unit(),
{
    lemma_timestamp_reads(n);
    lemma_whole_seconds(n);
    lemma_millis_survive(n / 1000, n % 1000);
}

/// A count of milliseconds, divided by a thousand, is written as that count.
pub proof fn law_written_millis(n: nat)
    requires
        n < FIRST_LARGE_MILLIS,
    ensures
        srt_millis(Real::of_int(n as int).quotient(Real::of_int(1000))) == n,
{
    reveal(Real::quotient);
    lemma_nat_size(n);
    lemma_nat_size(1000);
    lemma_scales();
    lemma_pow2_unfold(1063);
    let u = unit();
    let a = (n * u) * u;
    let d = 1000 * u;
    let p = pow2(1063);
    assert(a < d * TWO53 * p) by (nonlinear_arith)
        requires
            a == (n * u) * u,
            d == 1000 * u,
            TWO53 * p == 0x400_0000_0000 * u,
            n < 1000 * 0x400_0000_0000,
            u > 0,
    ;
    lemma_nearest_error(a, d, 1063);
    let q = Real::of_int(n as int).quotient(Real::of_int(1000));
    assert(q.magnitude() == nearest_magnitude(a, d));
    let f = q.size() as int;
    let e = pow2(1062) as int;
    assert(-1000 * e <= 1000 * f - n * u <= 1000 * e) by (nonlinear_arith)
        requires
            2 * (f * d) <= 2 * a + d * p,
            2 * (f * d) + d * p >= 2 * a,
            p == 2 * e,
            a == (n * u) * u,
            d == 1000 * u,
            u > 0,
    ;
    let most = 0x400_0000_0000 * u;
    assert(n * u < 1000 * most) by (nonlinear_arith)
        requires
            n < 1000 * 0x400_0000_0000,
            most == 0x400_0000_0000 * u,
            u > 0,
    ;
    lemma_near_millis(q, n);
}

/// A time is written as the nearest count of milliseconds, but for what multiplying by
/// a thousand rounds: it is at most half a millisecond, and one part in two to the power
/// of fifty-three of the time, away from it.
pub proof fn law_written_time_is_near(x: Real)
    requires
        x.finite(),
        !x.negative(),
        x.size() < 0x400_0000_0000 * unit(),
    ensures
        ({
            let away = srt_millis(x) * unit() - 1000 * x.value();
            let most = TWO53 * unit() + 2 * (1000 * x.value());
            -most <= 2 * (TWO53 * away) <= most
        }),
{
    lemma2_to64();
    lemma2_to64_rest();
    lemma_scales();
    lemma_thousandfold(x, 1072);
    reveal(Real::product);
    lemma_nat_size(1000);
    let z = x.not_below_zero();
    let p = z.product(Real::of_int(1000));
    let u = unit() as int;
    let y = p.size() as int;
    let k = 1000 * x.size() as int;
    if k < TWO52 {
        lemma_pow2_le(64, 1072);
        lemma_rounds_to(p.size(), 0);
        assert(0 * u == 0);
        assert(srt_millis(x) == 0);
    } else {
        let m = z.size() * (1000 * unit());
        assert(m == k * u) by (nonlinear_arith)
            requires
                m == x.size() * (1000 * u),
                k == 1000 * x.size(),
        ;
        lemma_pow2_le(1086, 2044);
        lemma_pow2_adds(12, 1074);
        lemma_pow2_pos(2044);
        let big = pow2(2044) as int;
        assert(m >= unit() * TWO52) by (nonlinear_arith)
            requires
                m == k * u,
                k >= TWO52,
                u > 0,
                u == unit(),
        ;
        assert(k < TWO53 * big);
        assert(m < unit() * TWO53 * big) by (nonlinear_arith)
            requires
                m == k * u,
                k < TWO53 * big,
                u > 0,
                u == unit(),
        ;
        lemma_relative_error(m, unit());
        let t = TWO53 as int;
        assert(p.magnitude() == nearest_magnitude(m, unit()));
        assert((t - 1) * k <= t * y <= (t + 1) * k) by (nonlinear_arith)
            requires
                (t - 1) * m <= t * (y * u) <= (t + 1) * m,
                m == k * u,
                u > 0,
        ;
        lemma_fundamental_div_mod(y, u);
        let q = y / u;
        assert(u * q == q * u) by (nonlinear_arith);
        assert((q + 1) * u == q * u + u) by (nonlinear_arith);
        let r = p.rounded();
        assert(-u <= 2 * (r * u) - 2 * y <= u);
        assert(r <= u64::MAX) by (nonlinear_arith)
            requires
                2 * (r * u) - 2 * y <= u,
                y <= k + u,
                k < 1000 * (0x400_0000_0000 * u),
                u > 0,
        ;
        assert(r >= 0) by (nonlinear_arith)
            requires
                -u <= 2 * (r * u) - 2 * y,
                y >= 0,
                u > 0,
        ;
    }
}

} // verus!
