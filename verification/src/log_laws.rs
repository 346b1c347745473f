//! How a dive log is read.

use vstd::prelude::*;

use crate::binary64::{
    lemma_int_product, lemma_int_sum, lemma_nat_size, lemma_small_int, unit, Real,
};
use crate::csv_data::{
    cell_number, column_key, column_keys, column_map_of, duration_of, entries_of, exact_column,
    fields_of, find_column, holds_candidate, is_column_key, known_fields, listed_names,
    partial_column, unknown_names, with_entry,
};
use crate::dive_log::{
    cell, columns_of, law_sorting_keeps_samples, lower_names, resolved, row_sample, row_samples,
    table_samples,
};
use crate::error::ErrorView;
use crate::model::{field_named, law_field_name_round_trip, DiveSample, Field};
use crate::nearest::TWO53;
use crate::number_text::number_of;
use crate::numeral::signed_of;
use crate::subtitle_laws::{lemma_digits_have_no, lemma_split_behind};
use crate::text::{
    all_digits, ascii_lower, digits_value, find, is_ascii_text, is_digit, join, lemma_find,
    lemma_position_found, lower, split, trim, trim_end, trim_start, unquoted, white,
};

verus! {

/// Whether a text has no white space at its ends.
pub open spec fn is_trimmed(s: Seq<char>) -> bool {
    s.len() > 0 && !white(s[0]) && !white(s.last())
}

proof fn lemma_trimmed(s: Seq<char>)
    requires
        is_trimmed(s),
    ensures
        trim(s) == s,
{
    assert(trim_start(s) == s);
    assert(trim_end(s) == s);
}

/// A time without a colon is a number of seconds.
pub proof fn law_plain_seconds(text: Seq<char>)
    requires
        is_trimmed(text),
        !text.contains(':'),
    ensures
        number_of(text) matches Some(x) ==> duration_of(text) == Ok::<Real, ErrorView>(x),
        number_of(text).is_none() ==> duration_of(text) is Err,
{
    lemma_trimmed(text);
}

/// A time with one colon is minutes and seconds, whatever number the seconds are.
pub proof fn law_minutes_and_seconds(m: Seq<char>, s: Seq<char>, x: Real)
    requires
        all_digits(m),
        60 * digits_value(m) < TWO53,
        s.len() > 0,
        !white(s.last()),
        !s.contains(':'),
        number_of(s) == Some(x),
    ensures
        duration_of(m + seq![':'] + s) == Ok::<Real, ErrorView>(
            Real::of_int((60 * digits_value(m)) as int).sum(x),
        ),
{
    let t = m + seq![':'] + s;
    assert(is_digit(m[0]));
    assert(t[0] == m[0] && t.last() == s.last());
    lemma_trimmed(t);
    lemma_digits_have_no(m, ':');
    lemma_split_behind(m, ':', s);
    lemma_find(s, ':');
    assert(split(s, ':') =~= seq![s]);
    assert(split(t, ':') =~= seq![m, s]);
    assert(t[m.len() as int] == ':');
    lemma_int_product(digits_value(m), 60);
    assert(digits_value(m) * 60 == 60 * digits_value(m));
}

/// Minutes below zero count against the seconds behind them, which keep their own sign.
pub proof fn law_minutes_below_zero(m: Seq<char>, s: Seq<char>, x: Real)
    requires
        all_digits(m),
        60 * digits_value(m) < TWO53,
        s.len() > 0,
        !white(s.last()),
        !s.contains(':'),
        number_of(s) == Some(x),
        digits_value(m) > 0,
    ensures
        duration_of(seq!['-'] + m + seq![':'] + s) == Ok::<Real, ErrorView>(
            Real::of_int(-60 * digits_value(m)).sum(x),
        ),
{
    let d = seq!['-'] + m;
    let t = d + seq![':'] + s;
    assert(t[0] == '-' && t.last() == s.last());
    assert(!white('-'));
    lemma_trimmed(t);
    lemma_digits_have_no(m, ':');
    assert(!d.contains(':')) by {
        if d.contains(':') {
            let k = choose|k: int| 0 <= k < d.len() && d[k] == ':';
            assert(k > 0 && m[k - 1] == ':');
        }
    }
    lemma_split_behind(d, ':', s);
    lemma_find(s, ':');
    assert(split(s, ':') =~= seq![s]);
    assert(split(t, ':') =~= seq![d, s]);
    assert(t[d.len() as int] == ':');
    assert(d.skip(1) =~= m);
    let n = digits_value(m);
    assert(n <= i64::MAX);
    assert(signed_of(d) == Some(-(n as int)));
    lemma_negative_minutes(n);
}

/// Sixty times a number below zero.
proof fn lemma_negative_minutes(n: nat)
    requires
        0 < n,
        60 * n < TWO53,
    ensures
        Real::of_int(-(n as int)).product(Real::of_int(60)) == Real::of_int(-60 * n),
{
    reveal(Real::product);
    lemma_int_product(n, 60);
    lemma_small_int(-(n as int));
    lemma_small_int(-60 * n);
    lemma_nat_size(n);
    lemma_nat_size(60);
    lemma_nat_size(60 * n);
    let u = unit();
    let x = Real::of_int(n as int);
    let y = Real::of_int(-(n as int));
    assert(y.magnitude() == x.magnitude());
    assert(n * 60 == 60 * n);
}

/// A time with two colons is hours, minutes and seconds, whatever number the seconds
/// are.
pub proof fn law_hours_minutes_and_seconds(h: Seq<char>, m: Seq<char>, s: Seq<char>, x: Real)
    requires
        all_digits(h),
        all_digits(m),
        3600 * digits_value(h) + 60 * digits_value(m) < TWO53,
        s.len() > 0,
        !white(s.last()),
        !s.contains(':'),
        number_of(s) == Some(x),
    ensures
        duration_of(h + seq![':'] + (m + seq![':'] + s)) == Ok::<Real, ErrorView>(
            Real::of_int((3600 * digits_value(h) + 60 * digits_value(m)) as int).sum(x),
        ),
{
    let rest = m + seq![':'] + s;
    let t = h + seq![':'] + rest;
    assert(is_digit(h[0]));
    assert(t[0] == h[0] && t.last() == s.last());
    lemma_trimmed(t);
    lemma_digits_have_no(h, ':');
    lemma_digits_have_no(m, ':');
    lemma_split_behind(h, ':', rest);
    lemma_split_behind(m, ':', s);
    lemma_find(s, ':');
    assert(split(s, ':') =~= seq![s]);
    assert(split(rest, ':') =~= seq![m, s]);
    assert(split(t, ':') =~= seq![h, m, s]);
    assert(t[h.len() as int] == ':');
    let a = digits_value(h);
    let b = digits_value(m);
    lemma_int_product(a, 3600);
    lemma_int_product(b, 60);
    lemma_int_sum(a * 3600, b * 60);
}

/// A time with three colons or more is none.
pub proof fn law_too_many_colons(
    a: Seq<char>,
    b: Seq<char>,
    c: Seq<char>,
    d: Seq<char>,
)
    requires
        is_trimmed(a),
        is_trimmed(d),
        !a.contains(':'),
        !b.contains(':'),
        !c.contains(':'),
    ensures
        duration_of(a + seq![':'] + (b + seq![':'] + (c + seq![':'] + d))) is Err,
{
    let u = c + seq![':'] + d;
    let v = b + seq![':'] + u;
    let t = a + seq![':'] + v;
    assert(t[0] == a[0] && t.last() == d.last());
    lemma_trimmed(t);
    lemma_split_behind(a, ':', v);
    lemma_split_behind(b, ':', u);
    lemma_split_behind(c, ':', d);
    assert(split(d, ':').len() > 0) by {
        lemma_find(d, ':');
    }
    assert(split(t, ':').len() >= 4);
    assert(t[a.len() as int] == ':');
}

/// The sample that a row holds: its time, and in each column the number of the cell.
pub proof fn law_row_is_a_sample(
    row: Seq<Seq<char>>,
    columns: (nat, nat, Option<nat>, Option<nat>, Option<nat>),
    elapsed: Real,
)
    requires
        columns.0 < row.len(),
        columns.1 < row.len(),
        columns.2 matches Some(i) ==> i < row.len(),
        columns.3 matches Some(i) ==> i < row.len(),
        columns.4 matches Some(i) ==> i < row.len(),
        unquoted(row[columns.0 as int]).len() > 0,
        duration_of(unquoted(row[columns.0 as int])) == Ok::<Real, ErrorView>(elapsed),
    ensures
        row_sample(row, columns) matches Ok(Some(s)) && {
            &&& s.elapsed_sec == elapsed
            &&& s.depth_m == cell_number(row[columns.1 as int])
            &&& columns.2 matches Some(i) ==> s.temp_c == cell_number(row[i as int])
            &&& columns.3 matches Some(i) ==> s.pressure_bar == cell_number(row[i as int])
            &&& columns.4 matches Some(i) ==> s.heart_rate == cell_number(row[i as int])
            &&& columns.2.is_none() ==> s.temp_c.is_none()
            &&& columns.3.is_none() ==> s.pressure_bar.is_none()
            &&& columns.4.is_none() ==> s.heart_rate.is_none()
        },
{
}

/// A row without a time is left out.
pub proof fn law_row_without_a_time(
    rows: Seq<Option<Seq<Seq<char>>>>,
    row: Seq<Seq<char>>,
    columns: (nat, nat, Option<nat>, Option<nat>, Option<nat>),
)
    requires
        columns.0 < row.len(),
        unquoted(row[columns.0 as int]).len() == 0,
    ensures
        row_samples(rows.push(Some(row)), columns) == row_samples(rows, columns),
{
    assert(rows.push(Some(row)).drop_last() =~= rows);
}

/// Rows become samples one by one, in their order.
pub proof fn law_rows_become_samples(
    rows: Seq<Option<Seq<Seq<char>>>>,
    row: Seq<Seq<char>>,
    columns: (nat, nat, Option<nat>, Option<nat>, Option<nat>),
    samples: Seq<DiveSample>,
    sample: DiveSample,
)
    requires
        row_samples(rows, columns) == Ok::<Seq<DiveSample>, ErrorView>(samples),
        row_sample(row, columns) == Ok::<Option<DiveSample>, ErrorView>(Some(sample)),
    ensures
        row_samples(rows.push(Some(row)), columns) == Ok::<Seq<DiveSample>, ErrorView>(
            samples.push(sample),
        ),
        row_samples(seq![], columns) == Ok::<Seq<DiveSample>, ErrorView>(seq![]),
{
    assert(rows.push(Some(row)).drop_last() =~= rows);
}

/// A log has the samples of its rows, no more and no fewer.
pub proof fn law_log_has_its_samples(
    headers: Seq<Seq<char>>,
    rows: Seq<Option<Seq<Seq<char>>>>,
    map: Map<Seq<char>, Seq<char>>,
    columns: (nat, nat, Option<nat>, Option<nat>, Option<nat>),
    samples: Seq<DiveSample>,
)
    requires
        columns_of(headers, map) == Ok::<
            (nat, nat, Option<nat>, Option<nat>, Option<nat>),
            ErrorView,
        >(columns),
        row_samples(rows, columns) == Ok::<Seq<DiveSample>, ErrorView>(samples),
    ensures
        samples.len() > 0 ==> (table_samples(headers, rows, map) matches Ok(log)
            && log.to_multiset() == samples.to_multiset()),
        samples.len() == 0 ==> table_samples(headers, rows, map) is Err,
{
    law_sorting_keeps_samples(samples);
}

/// A column that alone is named like a candidate is the one that is found.
pub proof fn law_named_column_is_found(
    headers: Seq<Seq<char>>,
    candidates: Seq<Seq<char>>,
    i: int,
)
    requires
        0 <= i < headers.len(),
        candidates.contains(column_key(headers[i])),
        forall|k: int|
            0 <= k < headers.len() && k != i ==> !candidates.contains(
                column_key(#[trigger] headers[k]),
            ),
    ensures
        find_column(headers, candidates) == Some(i as nat),
{
    let keys = column_keys(headers);
    assert(keys[i] == column_key(headers[i]));
    assert forall|k: int| 0 <= k < keys.len() && k != i implies !candidates.contains(
        #[trigger] keys[k],
    ) by {
        assert(keys[k] == column_key(headers[k]));
    }
    lemma_exact_unique(keys, candidates, i);
}

proof fn lemma_exact_unique(keys: Seq<Seq<char>>, candidates: Seq<Seq<char>>, i: int)
    requires
        0 <= i < keys.len(),
        candidates.contains(keys[i]),
        forall|k: int| 0 <= k < keys.len() && k != i ==> !candidates.contains(#[trigger] keys[k]),
    ensures
        exact_column(keys, candidates) == Some(i as nat),
    decreases candidates.len(),
{
    let c = candidates[0];
    if keys[i] == c {
        assert forall|j: int| 0 <= j < i implies keys[j] != c by {
            if keys[j] == c {
                assert(candidates.contains(keys[j]));
            }
        }
        lemma_position_found(keys, c, i);
    } else {
        let rest = candidates.skip(1);
        let at = choose|at: int| 0 <= at < candidates.len() && candidates[at] == keys[i];
        assert(rest[at - 1] == keys[i]);
        assert forall|k: int| 0 <= k < keys.len() && k != i implies !rest.contains(
            #[trigger] keys[k],
        ) by {
            if rest.contains(keys[k]) {
                let m = choose|m: int| 0 <= m < rest.len() && rest[m] == keys[k];
                assert(candidates[m + 1] == keys[k]);
            }
        }
        assert forall|j: int| 0 <= j < keys.len() implies keys[j] != c by {
            if keys[j] == c && j != i {
                assert(candidates.contains(keys[j]));
            }
        }
        lemma_position_found(keys, c, keys.len() as int);
        lemma_exact_unique(keys, rest, i);
    }
}

/// A column that is found holds a candidate in its name, and one is found wherever a
/// column does.
pub proof fn law_found_column_holds_a_candidate(
    headers: Seq<Seq<char>>,
    candidates: Seq<Seq<char>>,
    i: int,
)
    requires
        0 <= i < headers.len(),
        holds_candidate(column_key(headers[i]), candidates),
    ensures
        find_column(headers, candidates).is_some(),
{
    let keys = column_keys(headers);
    assert(keys[i] == column_key(headers[i]));
    lemma_partial_found(keys, candidates, i);
}

proof fn lemma_partial_found(keys: Seq<Seq<char>>, candidates: Seq<Seq<char>>, i: int)
    requires
        0 <= i < keys.len(),
        holds_candidate(keys[i], candidates),
    ensures
        partial_column(keys, candidates).is_some(),
    decreases keys.len(),
{
    if !holds_candidate(keys[0], candidates) {
        assert(keys.skip(1)[i - 1] == keys[i]);
        lemma_partial_found(keys.skip(1), candidates, i - 1);
    }
}

/// Upper and lower case of a column's name and the space around it do not count.
pub proof fn law_column_key_of_ascii(header: Seq<char>, other: Seq<char>)
    requires
        is_ascii_text(header),
        is_ascii_text(other),
        ascii_lower(header) == ascii_lower(other),
    ensures
        column_key(header) == column_key(other),
{
}

/// A column that the column map names is the one that is taken, whatever the others are
/// called.
pub proof fn law_mapped_column_is_taken(
    map: Map<Seq<char>, Seq<char>>,
    headers: Seq<Seq<char>>,
    key: Seq<char>,
    candidates: Seq<Seq<char>>,
    i: int,
)
    requires
        map.contains_key(key),
        is_trimmed(map[key]),
        0 <= i < headers.len(),
        headers[i] == map[key],
        forall|k: int| 0 <= k < i ==> lower(#[trigger] headers[k]) != lower(map[key]),
    ensures
        resolved(map, headers, key, candidates) == Ok::<Option<nat>, ErrorView>(Some(i as nat)),
{
    lemma_trimmed(map[key]);
    let all = lower_names(headers);
    assert(all[i] == lower(map[key]));
    assert forall|k: int| 0 <= k < i implies all[k] != lower(map[key]) by {
        assert(all[k] == lower(headers[k]));
    }
    lemma_position_found(all, lower(map[key]), i);
}

/// A column that the column map names and that is not there is an error, whatever the
/// others are called.
pub proof fn law_missing_mapped_column(
    map: Map<Seq<char>, Seq<char>>,
    headers: Seq<Seq<char>>,
    key: Seq<char>,
    candidates: Seq<Seq<char>>,
)
    requires
        map.contains_key(key),
        is_trimmed(map[key]),
        forall|k: int| 0 <= k < headers.len() ==> lower(#[trigger] headers[k]) != lower(map[key]),
    ensures
        resolved(map, headers, key, candidates) == Err::<Option<nat>, ErrorView>(
            ErrorView::ColumnNotFound(map[key]),
        ),
{
    lemma_trimmed(map[key]);
    let all = lower_names(headers);
    assert forall|k: int| 0 <= k < all.len() implies all[k] != lower(map[key]) by {
        assert(all[k] == lower(headers[k]));
    }
    lemma_position_found(all, lower(map[key]), all.len() as int);
}

/// The last piece of a list comes apart from the others.
pub proof fn lemma_split_last(s: Seq<char>, c: char, t: Seq<char>)
    requires
        !t.contains(c),
    ensures
        split(s + seq![c] + t, c) == split(s, c).push(t),
    decreases s.len(),
{
    lemma_find(s, c);
    lemma_find(t, c);
    let i = find(s, c) as int;
    if i >= s.len() {
        lemma_split_behind(s, c, t);
        assert(split(t, c) =~= seq![t]);
        assert(seq![s] + seq![t] =~= seq![s].push(t));
    } else {
        let a = s.take(i);
        let rest = s.skip(i + 1);
        assert(!a.contains(c)) by {
            if a.contains(c) {
                let k = choose|k: int| 0 <= k < a.len() && a[k] == c;
                assert(s[k] == c);
            }
        }
        let tail = rest + seq![c] + t;
        assert(s + seq![c] + t =~= a + seq![c] + tail);
        lemma_split_behind(a, c, tail);
        lemma_split_last(rest, c, t);
        assert(seq![a] + split(rest, c).push(t) =~= (seq![a] + split(rest, c)).push(t));
    }
}

/// A list that was joined comes apart into its pieces.
pub proof fn lemma_split_join(pieces: Seq<Seq<char>>, c: char)
    requires
        pieces.len() > 0,
        forall|i: int| 0 <= i < pieces.len() ==> !(#[trigger] pieces[i]).contains(c),
    ensures
        split(join(pieces, seq![c]), c) == pieces,
    decreases pieces.len(),
{
    if pieces.len() == 1 {
        lemma_find(pieces[0], c);
        assert(split(pieces[0], c) =~= pieces);
    } else {
        let rest = pieces.drop_last();
        assert forall|i: int| 0 <= i < rest.len() implies !(#[trigger] rest[i]).contains(c) by {
            assert(rest[i] == pieces[i]);
        }
        lemma_split_join(rest, c);
        assert(!pieces[pieces.len() - 1].contains(c));
        lemma_split_last(join(rest, seq![c]), c, pieces.last());
        assert(rest.push(pieces.last()) =~= pieces);
    }
}

/// A field's name is plain.
proof fn lemma_field_name(f: Field)
    ensures
        !f.name().contains(','),
        f.name().len() > 0,
        lower(trim(f.name())) == f.name(),
{
    reveal_strlit("time");
    reveal_strlit("depth");
    reveal_strlit("temp");
    reveal_strlit("pressure");
    reveal_strlit("hr");
    let s = f.name();
    assert forall|i: int| #![trigger s[i]] 0 <= i < s.len() implies 97 <= s[i] as u32 && s[i] as u32
        <= 122 by {}
    if s.contains(',') {
        let i = choose|i: int| 0 <= i < s.len() && s[i] == ',';
        assert(97 <= s[i] as u32);
    }
    assert(!white(s[0]) && !white(s.last()));
    lemma_trimmed(s);
    assert(is_ascii_text(s));
    assert(ascii_lower(s) =~= s);
}

/// A list of fields is read in its order, each field by its name.
pub proof fn law_fields_are_read(fields: Seq<Field>)
    requires
        fields.len() > 0,
    ensures
        fields_of(join(fields.map_values(|f: Field| f.name()), seq![','])) == Ok::<
            Seq<Field>,
            ErrorView,
        >(fields),
{
    let names = fields.map_values(|f: Field| f.name());
    assert forall|i: int| 0 <= i < names.len() implies !(#[trigger] names[i]).contains(',') by {
        lemma_field_name(fields[i]);
    }
    lemma_split_join(names, ',');
    lemma_listed(fields);
}

proof fn lemma_listed(fields: Seq<Field>)
    ensures
        ({
            let names = fields.map_values(|f: Field| f.name());
            &&& listed_names(names) == names
            &&& unknown_names(names) == Seq::<Seq<char>>::empty()
            &&& known_fields(names) == fields
        }),
    decreases fields.len(),
{
    let names = fields.map_values(|f: Field| f.name());
    if fields.len() == 0 {
        assert(names =~= seq![]);
        assert(known_fields(names) =~= fields);
    } else {
        let rest = fields.drop_last();
        lemma_listed(rest);
        assert(names.drop_last() =~= rest.map_values(|f: Field| f.name()));
        lemma_field_name(fields.last());
        law_field_name_round_trip(fields.last());
        assert(names.drop_last().push(names.last()) =~= names);
        assert(rest.push(fields.last()) =~= fields);
    }
}

/// A list with a name that is no field's is refused.
pub proof fn law_unknown_field_is_refused(pieces: Seq<Seq<char>>, i: int)
    requires
        0 <= i < pieces.len(),
        forall|k: int| 0 <= k < pieces.len() ==> !(#[trigger] pieces[k]).contains(','),
        lower(trim(pieces[i])).len() > 0,
        field_named(lower(trim(pieces[i]))).is_none(),
    ensures
        fields_of(join(pieces, seq![','])) is Err,
{
    lemma_split_join(pieces, ',');
    lemma_unknown(pieces, i);
}

proof fn lemma_unknown(pieces: Seq<Seq<char>>, i: int)
    requires
        0 <= i < pieces.len(),
        lower(trim(pieces[i])).len() > 0,
        field_named(lower(trim(pieces[i]))).is_none(),
    ensures
        unknown_names(listed_names(pieces)).len() > 0,
    decreases pieces.len(),
{
    let rest = pieces.drop_last();
    let name = lower(trim(pieces.last()));
    if i < rest.len() {
        assert(rest[i] == pieces[i]);
        lemma_unknown(rest, i);
    }
    if name.len() > 0 {
        let before = listed_names(rest);
        assert(before.push(name).drop_last() =~= before);
    }
}

/// An entry of a column map gives its key its column, over an earlier one too.
pub proof fn law_column_map_entry(
    map: Map<Seq<char>, Seq<char>>,
    key: Seq<char>,
    column: Seq<char>,
)
    requires
        is_column_key(key),
        is_trimmed(key),
        !key.contains('='),
        is_trimmed(column),
    ensures
        with_entry(map, key + seq!['='] + column) == Ok::<Map<Seq<char>, Seq<char>>, ErrorView>(
            map.insert(key, column),
        ),
{
    let e = key + seq!['='] + column;
    lemma_trimmed(key);
    lemma_trimmed(column);
    lemma_find(e, '=');
    assert(e[key.len() as int] == '=');
    let at = find(e, '=') as int;
    assert(at == key.len()) by {
        if at < key.len() {
            assert(e[at] == key[at]);
            assert(key.contains(key[at]));
        }
    }
    assert(e.take(at) =~= key);
    assert(e.skip(at + 1) =~= column);
}

/// A column map has the entries of its list, each key the column behind it.
pub proof fn law_column_map_of_two(
    k1: Seq<char>,
    c1: Seq<char>,
    k2: Seq<char>,
    c2: Seq<char>,
)
    requires
        is_column_key(k1) && is_trimmed(k1) && !k1.contains('=') && !k1.contains(','),
        is_column_key(k2) && is_trimmed(k2) && !k2.contains('=') && !k2.contains(','),
        is_trimmed(c1) && !c1.contains(','),
        is_trimmed(c2) && !c2.contains(','),
    ensures
        column_map_of((k1 + seq!['='] + c1) + seq![','] + (k2 + seq!['='] + c2)) == Ok::<
            Map<Seq<char>, Seq<char>>,
            ErrorView,
        >(Map::<Seq<char>, Seq<char>>::empty().insert(k1, c1).insert(k2, c2)),
{
    let a = k1 + seq!['='] + c1;
    let b = k2 + seq!['='] + c2;
    let s = a + seq![','] + b;
    assert(a[0] == k1[0] && a.last() == c1.last() && b[0] == k2[0] && b.last() == c2.last());
    assert(s[0] == a[0] && s.last() == b.last());
    lemma_trimmed(s);
    lemma_trimmed(a);
    lemma_trimmed(b);
    lemma_no_comma(k1, c1);
    lemma_no_comma(k2, c2);
    lemma_split_behind(a, ',', b);
    lemma_find(b, ',');
    assert(split(b, ',') =~= seq![b]);
    let pieces = seq![a, b];
    assert(split(s, ',') =~= pieces);
    let empty = Map::<Seq<char>, Seq<char>>::empty();
    law_column_map_entry(empty, k1, c1);
    law_column_map_entry(empty.insert(k1, c1), k2, c2);
    let one = pieces.drop_last();
    assert(one =~= seq![a]);
    assert(one.drop_last() =~= seq![]);
    assert(entries_of(one.drop_last()) == Ok::<Map<Seq<char>, Seq<char>>, ErrorView>(empty));
    assert(one.last() == a && pieces.last() == b);
    assert(entries_of(one) == Ok::<Map<Seq<char>, Seq<char>>, ErrorView>(empty.insert(k1, c1)));
}

proof fn lemma_no_comma(k: Seq<char>, c: Seq<char>)
    requires
        !k.contains(','),
        !c.contains(','),
    ensures
        !(k + seq!['='] + c).contains(','),
{
    let s = k + seq!['='] + c;
    if s.contains(',') {
        let i = choose|i: int| 0 <= i < s.len() && s[i] == ',';
        if i < k.len() {
            assert(k[i] == ',');
        } else if i > k.len() {
            assert(c[i - k.len() - 1] == ',');
        }
    }
}

} // verus!
