//! The columns of logs as dive computers write them.

use vstd::prelude::*;

use crate::csv_data::{column_key, find_column};
use crate::dive_log::{
    clock_candidates, column_name, columns_of, date_candidates, depth_candidates, hr_candidates,
    lower_names, named_cell, pressure_candidates, temp_candidates, time_candidates,
};
use crate::error::ErrorView;
use crate::log_laws::law_named_column_is_found;
use crate::text::{
    ascii_lower, ascii_lower_char, is_ascii_text, lemma_position_found, lower, trim_end, trim_start,
    unquoted, white,
};

verus! {

/// Whether the columns of a log are named so, each at its place.
pub open spec fn named_so(
    headers: Seq<Seq<char>>,
    names: Seq<Seq<char>>,
    places: (nat, nat, nat, nat, nat),
) -> bool {
    &&& headers.len() == 5
    &&& names.len() == 5
    &&& places.0 < 5 && places.1 < 5 && places.2 < 5 && places.3 < 5 && places.4 < 5
    &&& column_key(headers[places.0 as int]) == names[0]
    &&& column_key(headers[places.1 as int]) == names[1]
    &&& column_key(headers[places.2 as int]) == names[2]
    &&& column_key(headers[places.3 as int]) == names[3]
    &&& column_key(headers[places.4 as int]) == names[4]
}

/// One of five columns is the only one that a candidate names.
proof fn lemma_only_one(
    headers: Seq<Seq<char>>,
    names: Seq<Seq<char>>,
    places: (nat, nat, nat, nat, nat),
    candidates: Seq<Seq<char>>,
    at: nat,
)
    requires
        named_so(headers, names, places),
        at < 5,
        candidates.contains(column_key(headers[at as int])),
        forall|i: int, j: int|
            #![trigger names[i], names[j]]
            0 <= i < j < 5 ==> names[i] != names[j],
        forall|i: int|
            0 <= i < 5 && (#[trigger] names[i]) != column_key(headers[at as int])
                ==> !candidates.contains(names[i]),
    ensures
        find_column(headers, candidates) == Some(at),
{
    let (a, b, c, d, e) = places;
    assert(names[0] != names[1] && names[0] != names[2] && names[0] != names[3] && names[0]
        != names[4]);
    assert(names[1] != names[2] && names[1] != names[3] && names[1] != names[4]);
    assert(names[2] != names[3] && names[2] != names[4] && names[3] != names[4]);
    assert(a != b && a != c && a != d && a != e && b != c && b != d && b != e && c != d && c != e
        && d != e);
    assert forall|k: int| 0 <= k < headers.len() && k != at implies !candidates.contains(
        column_key(#[trigger] headers[k]),
    ) by {
        assert(k == a || k == b || k == c || k == d || k == e);
        assert(at == a || at == b || at == c || at == d || at == e);
    }
    law_named_column_is_found(headers, candidates, at as int);
}

/// Columns that are named by what they hold are found, in whatever order they stand.
pub proof fn law_plain_columns_are_found(
    headers: Seq<Seq<char>>,
    places: (nat, nat, nat, nat, nat),
)
    requires
        named_so(
            headers,
            seq!["time"@, "depth"@, "temperature"@, "pressure"@, "heartrate"@],
            places,
        ),
    ensures
        columns_of(headers, Map::empty()) == Ok::<
            (nat, nat, Option<nat>, Option<nat>, Option<nat>),
            ErrorView,
        >((places.0, places.1, Some(places.2), Some(places.3), Some(places.4))),
{
    let names = seq!["time"@, "depth"@, "temperature"@, "pressure"@, "heartrate"@];
    lemma_literals();
    assert forall|i: int, j: int|
        #![trigger names[i], names[j]]
        0 <= i < j < 5 implies names[i] != names[j] by {
        assert(names[i].len() != names[j].len());
    }
    assert(names[2][0] == 't');
    assert("sample time"@[0] == 's');
    assert(time_candidates()[2] == names[0]);
    assert(depth_candidates()[2] == names[1]);
    assert(temp_candidates()[2] == names[2]);
    assert(pressure_candidates()[2] == names[3]);
    assert(hr_candidates()[2] == names[4]);
    lemma_all_columns(headers, names, places);
}

/// Columns that are named as samples, with their units, are found, in whatever order
/// they stand.
pub proof fn law_sample_columns_are_found(
    headers: Seq<Seq<char>>,
    places: (nat, nat, nat, nat, nat),
)
    requires
        named_so(
            headers,
            seq![
                "sample time (min)"@,
                "sample depth (m)"@,
                "sample temperature (c)"@,
                "sample pressure (bar)"@,
                "sample heartrate"@,
            ],
            places,
        ),
    ensures
        columns_of(headers, Map::empty()) == Ok::<
            (nat, nat, Option<nat>, Option<nat>, Option<nat>),
            ErrorView,
        >((places.0, places.1, Some(places.2), Some(places.3), Some(places.4))),
{
    let names = seq![
        "sample time (min)"@,
        "sample depth (m)"@,
        "sample temperature (c)"@,
        "sample pressure (bar)"@,
        "sample heartrate"@,
    ];
    lemma_literals();
    assert(names[0][7] == 't' && names[1][7] == 'd' && names[4][7] == 'h');
    assert("sample heart rate"@[7] == 'h');
    assert forall|i: int, j: int|
        #![trigger names[i], names[j]]
        0 <= i < j < 5 implies names[i] != names[j] by {
        assert(names[i].len() != names[j].len() || (i == 1 && j == 4));
    }
    assert(time_candidates()[0] == names[0]);
    assert(depth_candidates()[0] == names[1]);
    assert(temp_candidates()[0] == names[2]);
    assert(pressure_candidates()[0] == names[3]);
    assert(hr_candidates()[0] == names[4]);
    lemma_all_columns(headers, names, places);
}

proof fn lemma_literals()
    ensures
        "time"@.len() == 4,
        "sample time"@.len() == 11,
        "sample time"@[0] == 's',
        "sample time (min)"@.len() == 17,
        "sample time (min)"@[7] == 't',
        "depth"@.len() == 5,
        "sample depth"@.len() == 12,
        "sample depth (m)"@.len() == 16,
        "sample depth (m)"@[7] == 'd',
        "temperature"@.len() == 11,
        "temperature"@[0] == 't',
        "sample temperature"@.len() == 18,
        "sample temperature (c)"@.len() == 22,
        "pressure"@.len() == 8,
        "sample pressure"@.len() == 15,
        "sample pressure (bar)"@.len() == 21,
        "heartrate"@.len() == 9,
        "heart rate"@.len() == 10,
        "sample heartrate"@.len() == 16,
        "sample heartrate"@[7] == 'h',
        "sample heart rate"@.len() == 17,
        "sample heart rate"@[7] == 'h',
{
    reveal_strlit("time");
    reveal_strlit("sample time");
    reveal_strlit("sample time (min)");
    reveal_strlit("depth");
    reveal_strlit("sample depth");
    reveal_strlit("sample depth (m)");
    reveal_strlit("temperature");
    reveal_strlit("sample temperature");
    reveal_strlit("sample temperature (c)");
    reveal_strlit("pressure");
    reveal_strlit("sample pressure");
    reveal_strlit("sample pressure (bar)");
    reveal_strlit("heartrate");
    reveal_strlit("heart rate");
    reveal_strlit("sample heartrate");
    reveal_strlit("sample heart rate");
}

/// Each of five columns is found where its name is among its candidates and among no
/// others.
proof fn lemma_all_columns(
    headers: Seq<Seq<char>>,
    names: Seq<Seq<char>>,
    places: (nat, nat, nat, nat, nat),
)
    requires
        named_so(headers, names, places),
        forall|i: int, j: int|
            #![trigger names[i], names[j]]
            0 <= i < j < 5 ==> names[i] != names[j],
        time_candidates().contains(names[0]),
        depth_candidates().contains(names[1]),
        temp_candidates().contains(names[2]),
        pressure_candidates().contains(names[3]),
        hr_candidates().contains(names[4]),
        forall|i: int| 0 <= i < 5 && i != 0 ==> !time_candidates().contains(#[trigger] names[i]),
        forall|i: int| 0 <= i < 5 && i != 1 ==> !depth_candidates().contains(#[trigger] names[i]),
        forall|i: int| 0 <= i < 5 && i != 2 ==> !temp_candidates().contains(#[trigger] names[i]),
        forall|i: int|
            0 <= i < 5 && i != 3 ==> !pressure_candidates().contains(#[trigger] names[i]),
        forall|i: int| 0 <= i < 5 && i != 4 ==> !hr_candidates().contains(#[trigger] names[i]),
    ensures
        columns_of(headers, Map::empty()) == Ok::<
            (nat, nat, Option<nat>, Option<nat>, Option<nat>),
            ErrorView,
        >((places.0, places.1, Some(places.2), Some(places.3), Some(places.4))),
{
    lemma_only_one(headers, names, places, time_candidates(), places.0);
    lemma_only_one(headers, names, places, depth_candidates(), places.1);
    lemma_only_one(headers, names, places, temp_candidates(), places.2);
    lemma_only_one(headers, names, places, pressure_candidates(), places.3);
    lemma_only_one(headers, names, places, hr_candidates(), places.4);
}

/// Spaces before and behind the name of a column do not count.
pub proof fn law_space_around_a_header(header: Seq<char>)
    requires
        is_ascii_text(header),
        header.len() > 0,
        !white(header[0]),
    ensures
        column_key(seq![' '] + header) == column_key(header),
        column_key(header + seq![' ']) == column_key(header),
{
    let small = ascii_lower(header);
    let a = seq![' '] + header;
    let b = header + seq![' '];
    assert(is_ascii_text(a)) by {
        assert forall|i: int| 0 <= i < a.len() implies (#[trigger] a[i] as u32) < 128 by {
            if i > 0 {
                assert(a[i] == header[i - 1]);
            }
        }
    }
    assert(is_ascii_text(b)) by {
        assert forall|i: int| 0 <= i < b.len() implies (#[trigger] b[i] as u32) < 128 by {
            if i < header.len() {
                assert(b[i] == header[i]);
            }
        }
    }
    assert(ascii_lower(a) =~= seq![' '] + small);
    assert(ascii_lower(b) =~= small + seq![' ']);
    assert(white(' '));
    assert(!white(small[0])) by {
        let c = header[0];
        assert(small[0] == ascii_lower_char(c));
        if 'A' <= c && c <= 'Z' {
            let n = c as u8;
            assert(65 <= n <= 90);
            assert((n + 32) as u8 == n + 32);
        }
    }
    let x = seq![' '] + small;
    assert(x.skip(1) =~= small);
    assert(trim_start(x) == trim_start(x.skip(1)));
    let y = small + seq![' '];
    assert(y[0] == small[0]);
    assert(trim_start(y) == y && trim_start(small) == small);
    assert(y.drop_last() =~= small);
    assert(trim_end(y) == trim_end(y.drop_last()));
}

/// Whether a column is named like the date of a sample.
pub open spec fn names_a_date(header: Seq<char>) -> bool {
    let key = column_key(header);
    key == "date"@ || key == "datum"@ || key == "sample date"@
}

/// Whether a column is named like the time of day of a sample.
pub open spec fn names_a_clock(header: Seq<char>) -> bool {
    let key = column_key(header);
    key == "time"@ || key == "zeit"@ || key == "sample time"@ || key == "clock time"@
}

/// The one column that is named like a date is that of the dates, and the one that is
/// named like a time of day is that of the times.
pub proof fn law_date_and_clock_columns(headers: Seq<Seq<char>>, i: int, j: int)
    requires
        0 <= i < headers.len(),
        0 <= j < headers.len(),
        names_a_date(headers[i]),
        names_a_clock(headers[j]),
        forall|k: int| 0 <= k < headers.len() && k != i ==> !names_a_date(#[trigger] headers[k]),
        forall|k: int| 0 <= k < headers.len() && k != j ==> !names_a_clock(#[trigger] headers[k]),
    ensures
        column_name(headers, date_candidates()) == Some(headers[i]),
        column_name(headers, clock_candidates()) == Some(headers[j]),
{
    let dates = date_candidates();
    let clocks = clock_candidates();
    assert(dates[0] == "date"@ && dates[1] == "datum"@ && dates[2] == "sample date"@);
    assert(clocks[0] == "time"@ && clocks[1] == "zeit"@ && clocks[2] == "sample time"@ && clocks[3]
        == "clock time"@);
    assert(dates.contains(column_key(headers[i])));
    assert(clocks.contains(column_key(headers[j])));
    assert forall|k: int| 0 <= k < headers.len() && k != i implies !dates.contains(
        column_key(#[trigger] headers[k]),
    ) by {
        assert(!names_a_date(headers[k]));
    }
    assert forall|k: int| 0 <= k < headers.len() && k != j implies !clocks.contains(
        column_key(#[trigger] headers[k]),
    ) by {
        assert(!names_a_clock(headers[k]));
    }
    law_named_column_is_found(headers, dates, i);
    law_named_column_is_found(headers, clocks, j);
}

/// What a row holds in a column is its cell at the place of the first header with that
/// name, upper and lower case being alike; a row that ends before it holds nothing there.
pub proof fn law_cell_of_a_column(
    headers: Seq<Seq<char>>,
    row: Seq<Seq<char>>,
    name: Seq<char>,
    i: int,
)
    requires
        0 <= i < headers.len(),
        lower(headers[i]) == lower(name),
        forall|k: int| 0 <= k < i ==> lower(#[trigger] headers[k]) != lower(name),
    ensures
        i < row.len() ==> named_cell(headers, row, name) == unquoted(row[i]),
        i >= row.len() ==> named_cell(headers, row, name) == unquoted(""@),
{
    let all = lower_names(headers);
    assert(all[i] == lower(name));
    assert forall|k: int| 0 <= k < i implies all[k] != lower(name) by {
        assert(all[k] == lower(headers[k]));
    }
    lemma_position_found(all, lower(name), i);
}

} // verus!
