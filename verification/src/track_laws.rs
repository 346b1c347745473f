//! A subtitle track that was built is read back cue by cue.

use vstd::prelude::*;

use crate::binary64::{unit, Real};
use crate::csv_data::{clock_text, whole_seconds};
use crate::error::ErrorView;
use crate::lookup::last_not_after;
use crate::model::{field_text, raw_value, DiveSample, Field};
use crate::nearest::nearest_even;
use crate::number_text::{fixed, ten_to};
use crate::numeral::{lemma_decimal, lemma_padded};
use crate::overlay_lines::{field_lines, interpolated, last_with, overlay_lines};
use crate::subtitle::{
    arrow, block_cue, block_cues, cue_end, cue_seconds, cue_text, dive_moment, srt_blocks,
    srt_millis, timestamp_of, timestamp_text, timing_line, track_from, CueView,
};
use crate::subtitle_laws::{lemma_split_behind, lemma_timestamp_reads};
use crate::text::{
    contains_text, decimal, find_text, is_digit, join, lemma_find, lemma_find_text, lines, padded,
    split, split_text, trim, trim_end, trim_start, white, without_return, without_returns,
};

verus! {

/// Whether a text stays on one line and is not empty.
pub open spec fn one_line(s: Seq<char>) -> bool {
    s.len() > 0 && forall|i: int| #![trigger s[i]] 0 <= i < s.len() ==> s[i] != '\n' && s[i] != '\r'
}

proof fn lemma_one_line_concat(a: Seq<char>, b: Seq<char>)
    requires
        one_line(a),
        one_line(b),
    ensures
        one_line(a + b),
{
    let s = a + b;
    assert forall|i: int| 0 <= i < s.len() implies s[i] != '\n' && s[i] != '\r' by {
        if i < a.len() {
            assert(s[i] == a[i]);
        } else {
            assert(s[i] == b[i - a.len()]);
        }
    }
}

proof fn lemma_digits_one_line(n: nat, width: nat)
    ensures
        one_line(decimal(n)),
        one_line(padded(n, width)),
{
    lemma_decimal(n);
    lemma_padded(n, width);
    let d = decimal(n);
    let p = padded(n, width);
    assert forall|i: int| 0 <= i < d.len() implies d[i] != '\n' && d[i] != '\r' by {
        assert(is_digit(d[i]));
    }
    assert forall|i: int| 0 <= i < p.len() implies p[i] != '\n' && p[i] != '\r' by {
        assert(is_digit(p[i]));
    }
}

/// The front of texts that are written one after the other.
proof fn lemma_join_front(parts: Seq<Seq<char>>, sep: Seq<char>)
    requires
        parts.len() >= 2,
    ensures
        join(parts, sep) == parts[0] + sep + join(parts.skip(1), sep),
    decreases parts.len(),
{
    let rest = parts.skip(1);
    if parts.len() == 2 {
        assert(parts.drop_last() =~= seq![parts[0]]);
        assert(join(parts.drop_last(), sep) == parts[0]);
        assert(join(rest, sep) == parts[1]);
    } else {
        let front = parts.drop_last();
        lemma_join_front(front, sep);
        assert(front.skip(1) =~= rest.drop_last());
        assert(rest.last() == parts.last());
        assert(join(rest, sep) == join(rest.drop_last(), sep) + sep + rest.last());
        assert(front[0] == parts[0]);
        assert(join(parts, sep) =~= parts[0] + sep + join(rest, sep));
    }
}

pub open spec fn all_one_line(parts: Seq<Seq<char>>) -> bool {
    forall|i: int| 0 <= i < parts.len() ==> one_line(#[trigger] parts[i])
}

/// Lines that are written one after the other come apart again, and no empty line
/// stands among them.
proof fn lemma_joined_lines(parts: Seq<Seq<char>>)
    requires
        parts.len() > 0,
        all_one_line(parts),
    ensures
        split(join(parts, seq!['\n']), '\n') == parts,
        no_gap(join(parts, seq!['\n'])),
        join(parts, seq!['\n'])[0] == parts[0][0],
        join(parts, seq!['\n']).last() == parts.last().last(),
    decreases parts.len(),
{
    let nl = seq!['\n'];
    let first = parts[0];
    assert(one_line(parts[0]));
    assert(!first.contains('\n')) by {
        if first.contains('\n') {
            let i = choose|i: int| 0 <= i < first.len() && first[i] == '\n';
            assert(first[i] != '\n');
        }
    }
    if parts.len() == 1 {
        lemma_find(first, '\n');
        assert(split(first, '\n') =~= parts);
        assert forall|i: int| 0 <= i < first.len() implies first[i] != '\n' by {
            assert(first[i] != '\n');
        }
    } else {
        let rest = parts.skip(1);
        assert(all_one_line(rest)) by {
            assert forall|i: int| 0 <= i < rest.len() implies one_line(#[trigger] rest[i]) by {
                assert(rest[i] == parts[i + 1]);
            }
        }
        lemma_joined_lines(rest);
        lemma_join_front(parts, nl);
        let tail = join(rest, nl);
        let whole = join(parts, nl);
        assert(whole =~= first + nl + tail);
        lemma_split_behind(first, '\n', tail);
        assert(seq![first] + rest =~= parts);
        assert(one_line(rest[0]));
        assert(tail[0] == rest[0][0]);
        assert forall|i: int| 0 <= i < whole.len() - 1 implies !(#[trigger] whole[i] == '\n'
            && whole[i + 1] == '\n') by {
            if i < first.len() {
                assert(whole[i] == first[i]);
            } else if i == first.len() {
                assert(whole[i + 1] == tail[0]);
            } else {
                let k = i - first.len() - 1;
                assert(whole[i] == tail[k] && whole[i + 1] == tail[k + 1]);
            }
        }
        assert(whole[0] == first[0]);
        assert(whole.last() == tail.last());
    }
}

/// Whether no empty line stands in a text, nor a line feed at its end.
pub open spec fn no_gap(s: Seq<char>) -> bool {
    &&& s.len() > 0
    &&& s.last() != '\n'
    &&& forall|i: int|
        0 <= i < s.len() - 1 ==> !(#[trigger] s[i] == '\n' && s[i + 1] == '\n')
}

/// The first empty line behind a text without one.
proof fn lemma_find_gap(s: Seq<char>, rest: Seq<char>)
    requires
        s.len() > 0 ==> no_gap(s),
    ensures
        find_text(s + seq!['\n', '\n'] + rest, seq!['\n', '\n']) == s.len(),
    decreases s.len(),
{
    let gap = seq!['\n', '\n'];
    let all = s + gap + rest;
    if s.len() == 0 {
        assert(all.take(2) =~= gap);
    } else {
        assert(all[0] == s[0]);
        if s.len() == 1 {
            assert(s.last() == s[0]);
        } else {
            assert(all[1] == s[1]);
        }
        assert(all.take(2) != gap) by {
            if all.take(2) == gap {
                assert(all.take(2)[0] == '\n' && all.take(2)[1] == '\n');
                assert(all[0] == '\n' && all[1] == '\n');
            }
        }
        let t = s.skip(1);
        if t.len() > 0 {
            assert(t.last() == s.last());
            assert forall|i: int| 0 <= i < t.len() - 1 implies !(#[trigger] t[i] == '\n' && t[i + 1]
                == '\n') by {
                assert(t[i] == s[i + 1] && t[i + 1] == s[i + 2]);
            }
        }
        lemma_find_gap(t, rest);
        assert(all.skip(1) =~= t + gap + rest);
    }
}

/// A block at the front of a track comes off.
proof fn lemma_split_gap(s: Seq<char>, rest: Seq<char>)
    requires
        no_gap(s),
    ensures
        split_text(s + seq!['\n', '\n'] + rest, seq!['\n', '\n']) == seq![s] + split_text(
            rest,
            seq!['\n', '\n'],
        ),
{
    let gap = seq!['\n', '\n'];
    let all = s + gap + rest;
    lemma_find_gap(s, rest);
    assert(all.take(s.len() as int) =~= s);
    assert(all.skip((s.len() + 2) as int) =~= rest);
}

/// A text without carriage returns stays as it is.
proof fn lemma_no_returns(s: Seq<char>)
    requires
        !s.contains('\r'),
    ensures
        without_returns(s) == s,
    decreases s.len(),
{
    if s.len() > 0 {
        assert(s.contains(s[0]));
        let t = s.skip(1);
        assert(!t.contains('\r')) by {
            if t.contains('\r') {
                let i = choose|i: int| 0 <= i < t.len() && t[i] == '\r';
                assert(s[i + 1] == '\r');
            }
        }
        lemma_no_returns(t);
        assert(seq![s[0]] + t =~= s);
    } else {
        assert(without_returns(s) =~= s);
    }
}

/// The lines of lines that were written one after the other.
proof fn lemma_lines_of_joined(parts: Seq<Seq<char>>)
    requires
        parts.len() > 0,
        all_one_line(parts),
    ensures
        lines(join(parts, seq!['\n'])) == parts,
{
    lemma_joined_lines(parts);
    let pieces = split(join(parts, seq!['\n']), '\n');
    let ended = pieces.drop_last().map_values(|p: Seq<char>| without_return(p));
    assert(one_line(parts.last())) by {
        assert(one_line(parts[parts.len() - 1]));
    }
    assert forall|i: int| 0 <= i < ended.len() implies ended[i] == parts[i] by {
        assert(one_line(parts[i]));
        assert(parts[i].last() != '\r') by {
            assert(parts[i][parts[i].len() - 1] != '\r');
        }
    }
    assert(ended.push(pieces.last()) =~= parts);
}

/// The line of a cue that gives its time span.
pub open spec fn span_line(start: nat, end: nat) -> Seq<char> {
    timestamp_text(start) + " --> "@ + timestamp_text(end)
}

/// Whether a text is made of what times are made of, starting and ending in a
/// digit.
pub open spec fn time_like(s: Seq<char>) -> bool {
    &&& s.len() > 0
    &&& is_digit(s[0])
    &&& is_digit(s.last())
    &&& forall|i: int| #![trigger s[i]] 0 <= i < s.len() ==> is_digit(s[i]) || s[i] == ':' || s[i] == ','
}

proof fn lemma_time_like_join(a: Seq<char>, c: char, b: Seq<char>)
    requires
        time_like(a),
        time_like(b),
        c == ':' || c == ',',
    ensures
        time_like(a + seq![c] + b),
{
    let s = a + seq![c] + b;
    assert(s[0] == a[0]);
    assert(s.last() == b.last());
    assert forall|i: int| 0 <= i < s.len() implies is_digit(s[i]) || s[i] == ':' || s[i] == ',' by {
        if i < a.len() {
            assert(s[i] == a[i]);
        } else if i > a.len() {
            assert(s[i] == b[i - a.len() - 1]);
        }
    }
}

proof fn lemma_padded_time_like(n: nat, width: nat)
    ensures
        time_like(padded(n, width)),
{
    lemma_padded(n, width);
    let p = padded(n, width);
    assert(is_digit(p[0]) && is_digit(p[p.len() - 1]));
    assert forall|i: int| 0 <= i < p.len() implies is_digit(p[i]) || p[i] == ':' || p[i] == ',' by {
        assert(is_digit(p[i]));
    }
}

pub proof fn lemma_timestamp_time_like(n: nat)
    ensures
        time_like(timestamp_text(n)),
{
    let h = padded(n / 3_600_000, 2);
    let m = padded((n % 3_600_000) / 60_000, 2);
    let s = padded((n % 60_000) / 1000, 2);
    let ms = padded(n % 1000, 3);
    lemma_padded_time_like(n / 3_600_000, 2);
    lemma_padded_time_like((n % 3_600_000) / 60_000, 2);
    lemma_padded_time_like((n % 60_000) / 1000, 2);
    lemma_padded_time_like(n % 1000, 3);
    reveal_strlit(":");
    reveal_strlit(",");
    assert(":"@ =~= seq![':']);
    assert(","@ =~= seq![',']);
    lemma_time_like_join(h, ':', m);
    lemma_time_like_join(h + seq![':'] + m, ':', s);
    lemma_time_like_join(h + seq![':'] + m + seq![':'] + s, ',', ms);
    assert(timestamp_text(n) =~= h + seq![':'] + m + seq![':'] + s + seq![','] + ms);
}

/// White space behind or in front of a time does not count.
proof fn lemma_time_trims(t: Seq<char>)
    requires
        time_like(t),
    ensures
        trim(t) == t,
        trim(t + seq![' ']) == t,
        trim(seq![' '] + t) == t,
{
    assert(!white(t[0]) && !white(t.last()));
    assert(trim_start(t) == t);
    assert(trim_end(t) == t);
    let a = t + seq![' '];
    assert(a[0] == t[0]);
    assert(trim_start(a) == a);
    assert(a.last() == ' ');
    assert(a.drop_last() =~= t);
    assert(trim_end(a) == trim_end(t));
    let b = seq![' '] + t;
    assert(b[0] == ' ');
    assert(b.skip(1) =~= t);
    assert(trim_start(b) == trim_start(t));
}

/// The arrow in the line of a time span stands behind the first time.
proof fn lemma_find_arrow(a: Seq<char>, rest: Seq<char>)
    requires
        forall|i: int| #![trigger a[i]] 0 <= i < a.len() ==> a[i] != '-',
    ensures
        find_text(a + arrow() + rest, arrow()) == a.len(),
        contains_text(a + arrow() + rest, arrow()),
    decreases a.len(),
{
    reveal_strlit("-->");
    let s = a + arrow() + rest;
    assert(arrow().len() == 3 && arrow()[0] == '-');
    if a.len() == 0 {
        assert(s.take(3) =~= arrow());
    } else {
        assert(s[0] == a[0]);
        assert(s.take(3) != arrow()) by {
            if s.take(3) == arrow() {
                assert(s.take(3)[0] == '-');
            }
        }
        let t = a.skip(1);
        assert forall|i: int| 0 <= i < t.len() implies t[i] != '-' by {
            assert(t[i] == a[i + 1]);
        }
        lemma_find_arrow(t, rest);
        assert(s.skip(1) =~= t + arrow() + rest);
    }
    lemma_find_text(s, arrow());
}

/// A text without a dash holds no arrow.
proof fn lemma_no_arrow(s: Seq<char>)
    requires
        forall|i: int| #![trigger s[i]] 0 <= i < s.len() ==> s[i] != '-',
    ensures
        !contains_text(s, arrow()),
{
    reveal_strlit("-->");
    if contains_text(s, arrow()) {
        let i = choose|i: int|
            0 <= i <= s.len() - arrow().len() && #[trigger] s.subrange(i, i + arrow().len())
                == arrow();
        assert(s.subrange(i, i + arrow().len())[0] == s[i]);
        assert(arrow()[0] == '-');
    }
}

/// What a time reads back as.
pub open spec fn reread(x: Real) -> Real {
    timestamp_of(timestamp_text(srt_millis(x)))->0
}

/// The line with the times of a cue reads back as these times.
proof fn lemma_span_reads(start: nat, end: nat)
    ensures
        ({
            let span = span_line(start, end);
            let at = find_text(span, arrow()) as int;
            &&& contains_text(span, arrow())
            &&& timestamp_of(span.take(at)) == timestamp_of(timestamp_text(start))
            &&& timestamp_of(span.skip(at + 3)) == timestamp_of(timestamp_text(end))
        }),
{
    let a = timestamp_text(start);
    let b = timestamp_text(end);
    let span = span_line(start, end);
    lemma_timestamp_time_like(start);
    lemma_timestamp_time_like(end);
    reveal_strlit(" --> ");
    reveal_strlit("-->");
    let front = a + seq![' '];
    let back = seq![' '] + b;
    assert(span =~= front + arrow() + back);
    assert forall|i: int| 0 <= i < front.len() implies front[i] != '-' by {
        if i < a.len() {
            assert(front[i] == a[i]);
        }
    }
    lemma_find_arrow(front, back);
    assert(span.take(front.len() as int) =~= front);
    assert(span.skip((front.len() + 3) as int) =~= back);
    lemma_time_trims(a);
    lemma_time_trims(b);
    assert(timestamp_of(front) == timestamp_of(a));
    assert(timestamp_of(back) == timestamp_of(b));
}

/// The number of a cue holds no arrow.
proof fn lemma_number_has_no_arrow(number: nat)
    ensures
        !contains_text(decimal(number), arrow()),
{
    let d = decimal(number);
    lemma_decimal(number);
    assert forall|i: int| 0 <= i < d.len() implies d[i] != '-' by {
        assert(is_digit(d[i]));
    }
    lemma_no_arrow(d);
}

/// A block that was written as a cue reads back as that cue, moved by an offset.
pub proof fn lemma_block_reads(number: nat, start: nat, end: nat, text: Seq<Seq<char>>, offset: Real)
    requires
        text.len() > 0,
        all_one_line(text),
    ensures
        ({
            let block = join(seq![decimal(number), span_line(start, end)] + text, seq!['\n']);
            block_cue(block, offset) == Ok::<CueView, ErrorView>(
                CueView {
                    start: timestamp_of(timestamp_text(start))->0.sum(offset),
                    end: timestamp_of(timestamp_text(end))->0.sum(offset),
                    text: join(text, "\n"@),
                },
            )
        }),
{
    let span = span_line(start, end);
    let parts = seq![decimal(number), span] + text;
    lemma_timestamp_reads(start);
    lemma_timestamp_reads(end);
    lemma_digits_one_line(number, 0);
    lemma_span_one_line(start, end);
    reveal_strlit("\n");
    assert("\n"@ =~= seq!['\n']);
    assert(all_one_line(parts)) by {
        assert forall|i: int| 0 <= i < parts.len() implies one_line(#[trigger] parts[i]) by {
            if i >= 2 {
                assert(parts[i] == text[i - 2]);
            }
        }
    }
    lemma_lines_of_joined(parts);
    // The first line has no arrow, the second one has.
    lemma_number_has_no_arrow(number);
    lemma_span_reads(start, end);
    assert(parts[0] == decimal(number) && parts[1] == span);
    assert(parts.skip(1)[0] == span);
    assert(timing_line(parts.skip(1)) == 0);
    assert(timing_line(parts) == 1);
    assert(parts.skip(2) =~= text);
}

proof fn lemma_span_one_line(start: nat, end: nat)
    ensures
        one_line(span_line(start, end)),
{
    lemma_timestamp_time_like(start);
    lemma_timestamp_time_like(end);
    reveal_strlit(" --> ");
    let a = timestamp_text(start);
    let b = timestamp_text(end);
    let s = span_line(start, end);
    assert forall|i: int| 0 <= i < s.len() implies s[i] != '\n' && s[i] != '\r' by {
        if i < a.len() {
            assert(s[i] == a[i]);
        } else if i < a.len() + 5 {
            assert(s[i] == " --> "@[i - a.len()]);
        } else {
            assert(s[i] == b[i - a.len() - 5]);
        }
    }
}

/// Whether a text stays on one line and does not end in white space.
pub open spec fn shown_line(s: Seq<char>) -> bool {
    one_line(s) && !white(s.last())
}

proof fn lemma_fixed_one_line(x: Real, places: nat)
    ensures
        one_line(fixed(x, places)),
{
    reveal_strlit("-");
    reveal_strlit("");
    reveal_strlit("NaN");
    reveal_strlit("inf");
    reveal_strlit(".");
    assert(one_line("NaN"@));
    assert(one_line("inf"@));
    assert(one_line("."@));
    assert(one_line("-"@));
    let sign = if x.negative() {
        "-"@
    } else {
        ""@
    };
    assert(sign + "inf"@ =~= "inf"@ || sign == "-"@);
    lemma_one_line_concat("-"@, "inf"@);
    if x.finite() {
        let scale = ten_to(places);
        let k = nearest_even(x.size() * scale, unit());
        let whole = decimal(k / scale);
        let rest = padded(k % scale, places);
        lemma_digits_one_line(k / scale, 0);
        lemma_digits_one_line(k % scale, places);
        lemma_one_line_concat("-"@, whole);
        lemma_one_line_concat("."@, rest);
        assert(""@ + whole =~= whole);
        assert(one_line(sign + whole));
        lemma_one_line_concat(sign + whole, "."@ + rest);
        assert(sign + whole + ""@ =~= sign + whole);
    }
}

proof fn lemma_clock_one_line(total: nat)
    ensures
        shown_line(clock_text(total)),
{
    reveal_strlit(":");
    assert(one_line(":"@));
    let h = padded(total / 3600, 2);
    let m = padded((total % 3600) / 60, 2);
    let s = padded(total % 60, 2);
    lemma_digits_one_line(total / 3600, 2);
    lemma_digits_one_line((total % 3600) / 60, 2);
    lemma_digits_one_line(total % 60, 2);
    lemma_padded(total % 60, 2);
    lemma_one_line_concat(m, ":"@);
    lemma_one_line_concat(m + ":"@, s);
    lemma_one_line_concat(h, ":"@);
    lemma_one_line_concat(h + ":"@, m + ":"@ + s);
    assert(is_digit(s[s.len() - 1]));
    assert(clock_text(total).last() == s.last());
}

proof fn lemma_labelled(label: Seq<char>, value: Seq<char>, unit_text: Seq<char>)
    requires
        one_line(label),
        one_line(value),
        shown_line(unit_text),
    ensures
        shown_line(label + value + unit_text),
{
    lemma_one_line_concat(label, value);
    lemma_one_line_concat(label + value, unit_text);
    assert((label + value + unit_text).last() == unit_text.last());
}

proof fn lemma_field_text_shown(field: Field, value: Real)
    ensures
        field_text(field, value) matches Some(t) ==> shown_line(t),
{
    lemma_fixed_one_line(value, 0);
    lemma_fixed_one_line(value, 1);
    reveal_strlit("Depth: ");
    reveal_strlit(" m");
    reveal_strlit("Temp: ");
    reveal_strlit(" C");
    reveal_strlit("Pressure: ");
    reveal_strlit(" bar");
    reveal_strlit("HR: ");
    reveal_strlit(" bpm");
    assert(one_line("Depth: "@) && one_line("Temp: "@) && one_line("Pressure: "@) && one_line(
        "HR: "@,
    ));
    assert(shown_line(" m"@) && shown_line(" C"@) && shown_line(" bar"@) && shown_line(" bpm"@));
    match field {
        Field::Time => {},
        Field::Depth => lemma_labelled("Depth: "@, fixed(value, 1), " m"@),
        Field::Temp => lemma_labelled("Temp: "@, fixed(value, 1), " C"@),
        Field::Pressure => lemma_labelled("Pressure: "@, fixed(value, 0), " bar"@),
        Field::Hr => lemma_labelled("HR: "@, fixed(value, 0), " bpm"@),
    }
}

pub open spec fn all_shown(lines: Seq<Seq<char>>) -> bool {
    forall|i: int| 0 <= i < lines.len() ==> shown_line(#[trigger] lines[i])
}

proof fn lemma_field_lines_shown(
    fields: Seq<Field>,
    samples: Seq<DiveSample>,
    times: Seq<Real>,
    dive_sec: Real,
    idx: nat,
    interpolate: bool,
)
    ensures
        all_shown(field_lines(fields, samples, times, dive_sec, idx, interpolate)),
    decreases fields.len(),
{
    if fields.len() > 0 {
        lemma_field_lines_shown(fields.drop_last(), samples, times, dive_sec, idx, interpolate);
        let field = fields.last();
        match interpolated(samples, times, dive_sec, idx, field) {
            Some(v) => lemma_field_text_shown(field, v),
            None => {},
        }
        match last_with(samples, field, idx + 1) {
            Some(i) => match raw_value(samples[i as int], field) {
                Some(v) => lemma_field_text_shown(field, v),
                None => {},
            },
            None => {},
        }
    }
}

/// The lines of the info box stay on one line each and do not end in white space.
pub proof fn law_overlay_lines_are_lines(
    fields: Seq<Field>,
    samples: Seq<DiveSample>,
    times: Seq<Real>,
    dive_sec: Real,
    interpolate: bool,
)
    ensures
        all_shown(overlay_lines(fields, samples, times, dive_sec, interpolate)),
        overlay_lines(fields, samples, times, dive_sec, interpolate).len() > 0,
{
    reveal(overlay_lines);
    let clock = clock_text(whole_seconds(dive_sec));
    lemma_clock_one_line(whole_seconds(dive_sec));
    reveal_strlit("Dive time: ");
    reveal_strlit("No data");
    assert(one_line("Dive time: "@));
    assert(shown_line("No data"@));
    let head = "Dive time: "@ + clock;
    lemma_one_line_concat("Dive time: "@, clock);
    assert(head.last() == clock.last());
    match last_not_after(times, dive_sec, times.len()) {
        Some(idx) => lemma_field_lines_shown(fields, samples, times, dive_sec, idx, interpolate),
        None => {},
    }
}

/// A cue is its lines, and behind them an empty one.
proof fn lemma_cue_is_block(number: nat, start: Real, end: Real, text: Seq<Seq<char>>)
    requires
        text.len() > 0,
    ensures
        cue_text(number, start, end, join(text, "\n"@)) == join(
            seq![decimal(number), span_line(srt_millis(start), srt_millis(end))] + text,
            seq!['\n'],
        ) + seq!['\n', '\n'],
{
    reveal(cue_text);
    reveal_strlit("\n");
    reveal_strlit("\n\n");
    let nl = seq!['\n'];
    assert("\n"@ =~= nl);
    assert("\n\n"@ =~= seq!['\n', '\n']);
    let d = decimal(number);
    let span = span_line(srt_millis(start), srt_millis(end));
    let parts = seq![d, span] + text;
    lemma_join_front(parts, nl);
    let rest = parts.skip(1);
    assert(rest =~= seq![span] + text);
    lemma_join_front(rest, nl);
    assert(rest.skip(1) =~= text);
    assert(rest[0] == span);
    assert(cue_text(number, start, end, join(text, "\n"@)) =~= join(parts, nl) + seq!['\n', '\n']);
}

/// A text made of lines holds no carriage return.
proof fn lemma_joined_no_return(parts: Seq<Seq<char>>)
    requires
        all_one_line(parts),
    ensures
        !join(parts, seq!['\n']).contains('\r'),
    decreases parts.len(),
{
    let nl = seq!['\n'];
    let s = join(parts, nl);
    if s.contains('\r') {
        let i = choose|i: int| 0 <= i < s.len() && s[i] == '\r';
        if parts.len() == 1 {
            assert(one_line(parts[0]));
        } else {
            let front = parts.drop_last();
            assert(all_one_line(front)) by {
                assert forall|k: int| 0 <= k < front.len() implies one_line(#[trigger] front[k]) by {
                    assert(front[k] == parts[k]);
                }
            }
            lemma_joined_no_return(front);
            let head = join(front, nl);
            assert(one_line(parts[parts.len() - 1]));
            if i < head.len() {
                assert(head[i] == '\r');
            } else if i == head.len() {
                assert(s[i] == '\n');
            } else {
                assert(s[i] == parts.last()[i - head.len() - 1]);
            }
        }
    }
}

/// The cues of a built track from a second on, as they are read back, moved by an
/// offset.
pub open spec fn built_cues(
    fields: Seq<Field>,
    samples: Seq<DiveSample>,
    times: Seq<Real>,
    video_sync_sec: Real,
    csv_sync_sec: Real,
    duration: Real,
    interpolate: bool,
    sec: nat,
    offset: Real,
) -> Seq<CueView>
    decreases cue_seconds(duration) - sec,
{
    let start = Real::of_int(sec as int);
    let end = cue_end(sec, duration);
    if sec >= cue_seconds(duration) || end.at_most(start) {
        seq![]
    } else {
        let shown = overlay_lines(
            fields,
            samples,
            times,
            dive_moment(sec, video_sync_sec, csv_sync_sec),
            interpolate,
        );
        seq![
            CueView {
                start: reread(start).sum(offset),
                end: reread(end).sum(offset),
                text: join(shown, "\n"@),
            },
        ] + built_cues(
            fields,
            samples,
            times,
            video_sync_sec,
            csv_sync_sec,
            duration,
            interpolate,
            sec + 1,
            offset,
        )
    }
}

proof fn lemma_track_no_return(
    fields: Seq<Field>,
    samples: Seq<DiveSample>,
    times: Seq<Real>,
    video_sync_sec: Real,
    csv_sync_sec: Real,
    duration: Real,
    interpolate: bool,
    sec: nat,
)
    ensures
        !track_from(
            fields,
            samples,
            times,
            video_sync_sec,
            csv_sync_sec,
            duration,
            interpolate,
            sec,
        ).contains('\r'),
    decreases cue_seconds(duration) - sec,
{
    reveal_strlit("");
    let start = Real::of_int(sec as int);
    let end = cue_end(sec, duration);
    if !(sec >= cue_seconds(duration) || end.at_most(start)) {
        lemma_track_no_return(
            fields,
            samples,
            times,
            video_sync_sec,
            csv_sync_sec,
            duration,
            interpolate,
            sec + 1,
        );
        let rest = track_from(
            fields,
            samples,
            times,
            video_sync_sec,
            csv_sync_sec,
            duration,
            interpolate,
            sec + 1,
        );
        let moment = dive_moment(sec, video_sync_sec, csv_sync_sec);
        let shown = overlay_lines(fields, samples, times, moment, interpolate);
        law_overlay_lines_are_lines(fields, samples, times, moment, interpolate);
        lemma_cue_parts(sec + 1, srt_millis(start), srt_millis(end), shown);
        let parts = seq![decimal(sec + 1), span_line(srt_millis(start), srt_millis(end))] + shown;
        lemma_joined_no_return(parts);
        lemma_cue_is_block(sec + 1, start, end, shown);
        let block = join(parts, seq!['\n']);
        let cue = block + seq!['\n', '\n'];
        let all = cue + rest;
        assert(!all.contains('\r')) by {
            if all.contains('\r') {
                let i = choose|i: int| 0 <= i < all.len() && all[i] == '\r';
                if i < block.len() {
                    assert(block[i] == '\r');
                } else if i >= cue.len() {
                    assert(rest[i - cue.len()] == '\r');
                }
            }
        }
    }
}

/// The lines of a cue are lines, and its block keeps both of its ends when it is
/// trimmed.
proof fn lemma_cue_parts(number: nat, start: nat, end: nat, shown: Seq<Seq<char>>)
    requires
        shown.len() > 0,
        all_shown(shown),
    ensures
        ({
            let parts = seq![decimal(number), span_line(start, end)] + shown;
            let block = join(parts, seq!['\n']);
            &&& all_one_line(parts)
            &&& all_one_line(shown)
            &&& no_gap(block)
            &&& trim(block) == block
        }),
{
    let parts = seq![decimal(number), span_line(start, end)] + shown;
    let block = join(parts, seq!['\n']);
    lemma_digits_one_line(number, 0);
    lemma_span_one_line(start, end);
    lemma_decimal(number);
    assert forall|i: int| 0 <= i < parts.len() implies one_line(#[trigger] parts[i]) by {
        if i >= 2 {
            assert(parts[i] == shown[i - 2]);
            assert(shown_line(shown[i - 2]));
        }
    }
    assert forall|i: int| 0 <= i < shown.len() implies one_line(#[trigger] shown[i]) by {
        assert(shown_line(shown[i]));
    }
    lemma_joined_lines(parts);
    assert(is_digit(decimal(number)[0]));
    assert(block[0] == decimal(number)[0]);
    assert(shown_line(shown[shown.len() - 1]));
    assert(parts.last() == shown.last());
    assert(!white(block[0]) && !white(block.last()));
    assert(trim_start(block) == block);
    assert(trim_end(block) == block);
}

/// The subtitles of a track that was built read back, one for each cue, after
/// those that came before.
proof fn lemma_blocks_read(
    before: Seq<CueView>,
    fields: Seq<Field>,
    samples: Seq<DiveSample>,
    times: Seq<Real>,
    video_sync_sec: Real,
    csv_sync_sec: Real,
    duration: Real,
    interpolate: bool,
    sec: nat,
    offset: Real,
)
    ensures
        block_cues(
            before,
            split_text(
                track_from(
                    fields,
                    samples,
                    times,
                    video_sync_sec,
                    csv_sync_sec,
                    duration,
                    interpolate,
                    sec,
                ),
                seq!['\n', '\n'],
            ),
            offset,
        ) == Ok::<Seq<CueView>, ErrorView>(
            before + built_cues(
                fields,
                samples,
                times,
                video_sync_sec,
                csv_sync_sec,
                duration,
                interpolate,
                sec,
                offset,
            ),
        ),
    decreases cue_seconds(duration) - sec,
{
    let gap = seq!['\n', '\n'];
    let start = Real::of_int(sec as int);
    let end = cue_end(sec, duration);
    let track = track_from(
        fields,
        samples,
        times,
        video_sync_sec,
        csv_sync_sec,
        duration,
        interpolate,
        sec,
    );
    if sec >= cue_seconds(duration) || end.at_most(start) {
        reveal_strlit("");
        let empty = seq![track];
        assert(split_text(track, gap) =~= empty);
        assert(trim_start(track) == track && trim_end(track) == track);
        assert(trim(track).len() == 0);
        assert(block_cues(before, empty.skip(1), offset) == Ok::<Seq<CueView>, ErrorView>(before));
        assert(before + Seq::<CueView>::empty() =~= before);
    } else {
        let moment = dive_moment(sec, video_sync_sec, csv_sync_sec);
        let shown = overlay_lines(fields, samples, times, moment, interpolate);
        law_overlay_lines_are_lines(fields, samples, times, moment, interpolate);
        let a = srt_millis(start);
        let b = srt_millis(end);
        lemma_cue_parts(sec + 1, a, b, shown);
        lemma_cue_is_block(sec + 1, start, end, shown);
        let block = join(seq![decimal(sec + 1), span_line(a, b)] + shown, seq!['\n']);
        let rest = track_from(
            fields,
            samples,
            times,
            video_sync_sec,
            csv_sync_sec,
            duration,
            interpolate,
            sec + 1,
        );
        assert(track =~= block + gap + rest);
        lemma_split_gap(block, rest);
        let blocks = split_text(track, gap);
        assert(blocks =~= seq![block] + split_text(rest, gap));
        assert(blocks[0] == block);
        assert(blocks.skip(1) =~= split_text(rest, gap));
        lemma_block_reads(sec + 1, a, b, shown, offset);
        let cue = CueView {
            start: reread(start).sum(offset),
            end: reread(end).sum(offset),
            text: join(shown, "\n"@),
        };
        lemma_blocks_read(
            before.push(cue),
            fields,
            samples,
            times,
            video_sync_sec,
            csv_sync_sec,
            duration,
            interpolate,
            sec + 1,
            offset,
        );
        let more = built_cues(
            fields,
            samples,
            times,
            video_sync_sec,
            csv_sync_sec,
            duration,
            interpolate,
            sec + 1,
            offset,
        );
        assert(before.push(cue) + more =~= before + (seq![cue] + more));
    }
}

/// A track that was built can always be joined: it reads back cue by cue, each with
/// the lines that it was built with, moved by the offset.
pub proof fn law_built_track_reads_back(
    before: Seq<CueView>,
    fields: Seq<Field>,
    samples: Seq<DiveSample>,
    times: Seq<Real>,
    video_sync_sec: Real,
    csv_sync_sec: Real,
    duration: Real,
    interpolate: bool,
    offset: Real,
)
    ensures
        block_cues(
            before,
            srt_blocks(
                track_from(
                    fields,
                    samples,
                    times,
                    video_sync_sec,
                    csv_sync_sec,
                    duration,
                    interpolate,
                    0,
                ),
            ),
            offset,
        ) == Ok::<Seq<CueView>, ErrorView>(
            before + built_cues(
                fields,
                samples,
                times,
                video_sync_sec,
                csv_sync_sec,
                duration,
                interpolate,
                0,
                offset,
            ),
        ),
{
    let track = track_from(
        fields,
        samples,
        times,
        video_sync_sec,
        csv_sync_sec,
        duration,
        interpolate,
        0,
    );
    lemma_track_no_return(
        fields,
        samples,
        times,
        video_sync_sec,
        csv_sync_sec,
        duration,
        interpolate,
        0,
    );
    lemma_no_returns(track);
    reveal_strlit("\n\n");
    assert("\n\n"@ =~= seq!['\n', '\n']);
    lemma_blocks_read(
        before,
        fields,
        samples,
        times,
        video_sync_sec,
        csv_sync_sec,
        duration,
        interpolate,
        0,
        offset,
    );
}

} // verus!
