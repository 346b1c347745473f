//! Decimal numerals: integers and binary64 numbers as text.

use vstd::prelude::*;

use crate::text::{
    all_digits, decimal, decimal_int, digit_char, digit_value, digits_value, int_value, is_digit,
    is_signed, is_unsigned, padded, repeated, text_of,
};

verus! {

/// The number that an unsigned numeral stands for, where it is one and is not
/// above a bound.
pub open spec fn unsigned_of(s: Seq<char>, max: nat) -> Option<nat> {
    if is_unsigned(s) && int_value(s) <= max {
        Some(int_value(s) as nat)
    } else {
        None
    }
}

/// The number that a signed numeral stands for, where it is one and fits in 64 bits.
pub open spec fn signed_of(s: Seq<char>) -> Option<int> {
    if is_signed(s) && i64::MIN <= int_value(s) <= i64::MAX {
        Some(int_value(s))
    } else {
        None
    }
}

pub proof fn lemma_digits_prefix(s: Seq<char>, i: int)
    requires
        0 <= i < s.len(),
    ensures
        digits_value(s.take(i + 1)) == 10 * digits_value(s.take(i)) + digit_value(s[i]),
{
    assert(s.take(i + 1).drop_last() =~= s.take(i));
}

proof fn lemma_prefix_at_most(s: Seq<char>, i: int)
    requires
        0 <= i <= s.len(),
    ensures
        digits_value(s.take(i)) <= digits_value(s),
    decreases s.len() - i,
{
    if i < s.len() {
        lemma_digits_prefix(s, i);
        lemma_prefix_at_most(s, i + 1);
    } else {
        assert(s.take(i) =~= s);
    }
}

/// What the digits from a position on stand for: `None` where one of them is no
/// digit or there is none. Below `2^120` the number is exact, from there on it
/// is not above the true one.
pub(crate) fn digits_from(v: &[char], from: usize) -> (r: Option<u128>)
    requires
        from <= v.len(),
    ensures
        r.is_some() == all_digits(v@.skip(from as int)),
        r.is_some() && r->Some_0 < 0x100_0000_0000_0000_0000_0000_0000_0000 ==> r->Some_0
            == digits_value(v@.skip(from as int)),
        r.is_some() && r->Some_0 >= 0x100_0000_0000_0000_0000_0000_0000_0000 ==> digits_value(
            v@.skip(from as int),
        ) >= r->Some_0,
{
    let ghost s = v@.skip(from as int);
    if from == v.len() {
        return None;
    }
    let mut n: u128 = 0;
    let mut i: usize = from;
    while i < v.len()
        invariant
            from <= i <= v.len(),
            s == v@.skip(from as int),
            forall|k: int| 0 <= k < i - from ==> is_digit(#[trigger] s[k]),
            n < 0xa00_0000_0000_0000_0000_0000_0000_0010,
            n < 0x100_0000_0000_0000_0000_0000_0000_0000 ==> n == digits_value(s.take(i - from)),
            n >= 0x100_0000_0000_0000_0000_0000_0000_0000 ==> n <= digits_value(s.take(i - from)),
        decreases v.len() - i,
    {
        let c = v[i];
        assert(s[i - from] == c);
        if c < '0' || c > '9' {
            return None;
        }
        proof {
            lemma_digits_prefix(s, i - from);
        }
        if n < 0x100_0000_0000_0000_0000_0000_0000_0000 {
            n = 10 * n + (c as u32 - 48) as u128;
        }
        i += 1;
    }
    assert(s.take(i - from) =~= s);
    Some(n)
}

/// Reads an unsigned numeral with an optional plus sign.
pub fn parse_unsigned(v: &[char], max: u64) -> (r: Option<u64>)
    ensures
        r.is_some() == unsigned_of(v@, max as nat).is_some(),
        r.is_some() ==> r->Some_0 as nat == unsigned_of(v@, max as nat)->Some_0,
{
    proof {
        assert(v@.skip(0) =~= v@);
    }
    let from: usize = if v.len() > 0 && v[0] == '+' {
        1
    } else {
        0
    };
    match digits_from(v, from) {
        Some(n) => if n <= max as u128 {
            Some(n as u64)
        } else {
            None
        },
        None => None,
    }
}

/// Reads a signed numeral.
pub fn parse_signed(v: &[char]) -> (r: Option<i64>)
    ensures
        r.is_some() == signed_of(v@).is_some(),
        r.is_some() ==> r->Some_0 as int == signed_of(v@)->Some_0,
{
    proof {
        assert(v@.skip(0) =~= v@);
    }
    let negative = v.len() > 0 && v[0] == '-';
    let from: usize = if v.len() > 0 && (v[0] == '+' || v[0] == '-') {
        1
    } else {
        0
    };
    match digits_from(v, from) {
        Some(n) => if negative {
            if n <= 0x8000_0000_0000_0000 {
                Some((-(n as i128)) as i64)
            } else {
                None
            }
        } else if n <= 0x7fff_ffff_ffff_ffff {
            Some(n as i64)
        } else {
            None
        },
        None => None,
    }
}

/// A numeral is made of digits, without a leading zero but for zero itself,
/// and reads back as its number.
pub proof fn lemma_decimal(n: nat)
    ensures
        all_digits(decimal(n)),
        digits_value(decimal(n)) == n,
        n > 0 ==> decimal(n)[0] != '0',
    decreases n,
{
    if n < 10 {
        assert(decimal(n).drop_last() =~= seq![]);
        assert(digits_value(decimal(n).drop_last()) == 0);
        assert(decimal(n).last() == digit_char(n));
    } else {
        lemma_decimal(n / 10);
        assert(decimal(n).drop_last() =~= decimal(n / 10));
    }
}

/// Zeros in front do not change what a row of digits stands for.
pub proof fn lemma_leading_zeros(k: nat, s: Seq<char>)
    ensures
        digits_value(repeated('0', k) + s) == digits_value(s),
    decreases k + s.len(),
{
    let t = repeated('0', k) + s;
    if s.len() > 0 {
        lemma_leading_zeros(k, s.drop_last());
        assert(t.drop_last() =~= repeated('0', k) + s.drop_last());
    } else if k > 0 {
        lemma_leading_zeros((k - 1) as nat, s);
        assert(t.drop_last() =~= repeated('0', (k - 1) as nat) + s);
        assert(t.last() == '0');
    } else {
        assert(t =~= s);
    }
}

/// A padded numeral reads back as its number.
pub proof fn lemma_padded(n: nat, width: nat)
    ensures
        all_digits(padded(n, width)),
        digits_value(padded(n, width)) == n,
        padded(n, width).len() >= width,
{
    lemma_decimal(n);
    let d = decimal(n);
    if d.len() < width {
        lemma_leading_zeros((width - d.len()) as nat, d);
        assert forall|i: int| 0 <= i < padded(n, width).len() implies is_digit(
            #[trigger] padded(n, width)[i],
        ) by {
            if i >= width - d.len() {
                assert(padded(n, width)[i] == d[i - (width - d.len())]);
            }
        }
    }
}

fn digit(d: u64) -> (c: char)
    requires
        d < 10,
    ensures
        c == digit_char(d as nat),
{
    (48 + d) as u8 as char
}

/// The digits of a number.
pub fn decimal_chars(n: u64) -> (v: Vec<char>)
    ensures
        v@ == decimal(n as nat),
    decreases n,
{
    let mut v: Vec<char> = if n < 10 {
        Vec::new()
    } else {
        decimal_chars(n / 10)
    };
    v.push(digit(n % 10));
    assert(v@ =~= decimal(n as nat));
    v
}

/// Appends a number in decimal.
pub fn push_decimal(out: &mut String, n: u64)
    ensures
        final(out)@ == old(out)@ + decimal(n as nat),
{
    let v = decimal_chars(n);
    out.push_str(text_of(v.as_slice()).as_str());
}

/// Appends an integer in decimal.
pub fn push_decimal_int(out: &mut String, i: i64)
    ensures
        final(out)@ == old(out)@ + decimal_int(i as int),
{
    if i < 0 {
        out.push('-');
        push_decimal(out, (-(i as i128)) as u64);
        assert(out@ =~= old(out)@ + decimal_int(i as int));
    } else {
        push_decimal(out, i as u64);
    }
}

/// Appends a number in decimal with zeros in front.
pub fn push_padded(out: &mut String, n: u64, width: usize)
    ensures
        final(out)@ == old(out)@ + padded(n as nat, width as nat),
{
    let v = decimal_chars(n);
    let ghost d = v@;
    let mut k: usize = v.len();
    let ghost zeros: nat = 0;
    proof {
        assert(old(out)@ + repeated('0', 0) =~= old(out)@);
    }
    while k < width
        invariant
            k >= d.len(),
            k <= width || k == d.len(),
            zeros == k - d.len(),
            out@ == old(out)@ + repeated('0', zeros),
        decreases width - k,
    {
        out.push('0');
        proof {
            assert(old(out)@ + repeated('0', zeros + 1) =~= (old(out)@ + repeated('0', zeros)).push('0'));
            zeros = zeros + 1;
        }
        k += 1;
    }
    out.push_str(text_of(v.as_slice()).as_str());
    assert(out@ =~= old(out)@ + padded(n as nat, width as nat));
}

} // verus!
