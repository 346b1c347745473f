//! The lines of the info box.

use vstd::prelude::*;

use crate::binary64::Real;
use crate::csv_data::{clock_text, format_duration, whole_seconds};
use crate::error::prefixed;
use crate::lookup::{ascending, choose_sample_index, last_not_after, lemma_last_not_after};
use crate::model::{
    field_raw_value, field_text, format_field_value, raw_value, sample_text, text_view,
    value_for_field, DiveSample, Field,
};
use crate::text::views;

verus! {

/// The position of the last of the first `n` samples that holds a field.
pub open spec fn last_with(samples: Seq<DiveSample>, field: Field, n: nat) -> Option<nat>
    decreases n,
{
    if n == 0 {
        None
    } else if raw_value(samples[n - 1], field).is_some() {
        Some((n - 1) as nat)
    } else {
        last_with(samples, field, (n - 1) as nat)
    }
}

/// The position of the first sample from `from` on, and before `to`, that holds
/// a field.
pub open spec fn first_with(samples: Seq<DiveSample>, field: Field, from: nat, to: nat) -> Option<nat>
    decreases to - from,
{
    if from >= to {
        None
    } else if raw_value(samples[from as int], field).is_some() {
        Some(from)
    } else {
        first_with(samples, field, from + 1, to)
    }
}

/// The time and the value of the sample at a position.
pub open spec fn point(samples: Seq<DiveSample>, times: Seq<Real>, field: Field, i: nat) -> (
    Real,
    Real,
) {
    (times[i as int], raw_value(samples[i as int], field)->0)
}

pub open spec fn optional_point(
    samples: Seq<DiveSample>,
    times: Seq<Real>,
    field: Field,
    i: Option<nat>,
) -> Option<(Real, Real)> {
    match i {
        Some(i) => Some(point(samples, times, field, i)),
        None => None,
    }
}

/// The slope from one point to another.
pub open spec fn slope(p: (Real, Real), q: (Real, Real)) -> Real {
    q.1.difference(p.1).quotient(q.0.difference(p.0))
}

/// The slope of the curve where it starts: from the neighbour before the two points
/// to the second one, or else between the two.
pub open spec fn slope_at_start(
    prev: Option<(Real, Real)>,
    p0: (Real, Real),
    p1: (Real, Real),
) -> Real {
    match prev {
        Some(p) => if p.0.less(p1.0) {
            slope(p, p1)
        } else {
            slope(p0, p1)
        },
        None => slope(p0, p1),
    }
}

/// The slope of the curve where it ends: from the first point to the neighbour
/// behind the two, or else between the two.
pub open spec fn slope_at_end(
    p0: (Real, Real),
    p1: (Real, Real),
    next: Option<(Real, Real)>,
) -> Real {
    match next {
        Some(p) => if p0.0.less(p.0) {
            slope(p0, p)
        } else {
            slope(p0, p1)
        },
        None => slope(p0, p1),
    }
}

/// The cubic with the values `v0` and `v1` and the slopes `m0` and `m1` at the ends
/// of a span `dt`, at the share `s` of the span.
pub open spec fn cubic(s: Real, dt: Real, v0: Real, v1: Real, m0: Real, m1: Real) -> Real {
    let one = Real::of_int(1);
    let two = Real::of_int(2);
    let three = Real::of_int(3);
    let s2 = s.product(s);
    let s3 = s2.product(s);
    let h00 = two.product(s3).difference(three.product(s2)).sum(one);
    let h10 = s3.difference(two.product(s2)).sum(s);
    let h01 = Real::of_int(-2).product(s3).sum(three.product(s2));
    let h11 = s3.difference(s2);
    h00.product(v0).sum(h10.product(dt).product(m0)).sum(h01.product(v1)).sum(
        h11.product(dt).product(m1),
    )
}

/// The cubic Hermite curve between two points, its slope at each end taken from
/// the neighbour beyond it, or else from the two points themselves.
pub open spec fn hermite(
    t: Real,
    prev: Option<(Real, Real)>,
    p0: (Real, Real),
    p1: (Real, Real),
    next: Option<(Real, Real)>,
) -> Real {
    let dt = p1.0.difference(p0.0);
    cubic(
        t.difference(p0.0).quotient(dt),
        dt,
        p0.1,
        p1.1,
        slope_at_start(prev, p0, p1),
        slope_at_end(p0, p1, next),
    )
}

/// Cubic Hermite interpolation between `p0` and `p1` at time `t`.
pub fn cubic_hermite(
    t: Real,
    prev: Option<(Real, Real)>,
    p0: (Real, Real),
    p1: (Real, Real),
    next: Option<(Real, Real)>,
) -> (r: Real)
    ensures
        r == hermite(t, prev, p0, p1, next),
{
    let (t0, v0) = p0;
    let (t1, v1) = p1;
    let one = Real::from_i64(1);
    let two = Real::from_i64(2);
    let three = Real::from_i64(3);
    let dt = t1.minus(t0);
    let secant = v1.minus(v0).over(dt);
    let m0 = match prev {
        Some((tp, vp)) => if tp.lt(t1) {
            v1.minus(vp).over(t1.minus(tp))
        } else {
            secant
        },
        None => secant,
    };
    let m1 = match next {
        Some((tn, vn)) => if t0.lt(tn) {
            vn.minus(v0).over(tn.minus(t0))
        } else {
            secant
        },
        None => secant,
    };
    let s = t.minus(t0).over(dt);
    let s2 = s.times(s);
    let s3 = s2.times(s);
    let h00 = two.times(s3).minus(three.times(s2)).plus(one);
    let h10 = s3.minus(two.times(s2)).plus(s);
    let h01 = Real::from_i64(-2).times(s3).plus(three.times(s2));
    let h11 = s3.minus(s2);
    h00.times(v0).plus(h10.times(dt).times(m0)).plus(h01.times(v1)).plus(h11.times(dt).times(m1))
}

/// The value of a field between samples: on the curve through the samples around
/// it that hold the field, never before the first of them, and the last one's
/// after it.
pub open spec fn interpolated(
    samples: Seq<DiveSample>,
    times: Seq<Real>,
    dive_sec: Real,
    idx: nat,
    field: Field,
) -> Option<Real> {
    match last_with(samples, field, idx + 1) {
        None => None,
        Some(before) => {
            let p0 = point(samples, times, field, before);
            let prev = last_with(samples, field, before);
            match first_with(samples, field, idx + 1, times.len()) {
                None => Some(p0.1),
                Some(after) => {
                    let p1 = point(samples, times, field, after);
                    let next = first_with(samples, field, after + 1, times.len());
                    if p0.0.less(p1.0) {
                        Some(
                            hermite(
                                dive_sec,
                                optional_point(samples, times, field, prev),
                                p0,
                                p1,
                                optional_point(samples, times, field, next),
                            ),
                        )
                    } else {
                        Some(p0.1)
                    }
                },
            }
        },
    }
}

/// The line for a field at a moment.
pub open spec fn field_line(
    samples: Seq<DiveSample>,
    times: Seq<Real>,
    dive_sec: Real,
    idx: nat,
    field: Field,
    interpolate: bool,
) -> Option<Seq<char>> {
    if interpolate {
        match interpolated(samples, times, dive_sec, idx, field) {
            Some(v) => field_text(field, v),
            None => None,
        }
    } else {
        match last_with(samples, field, idx + 1) {
            Some(i) => sample_text(samples[i as int], field),
            None => None,
        }
    }
}

/// The lines for fields at a moment, without the time.
pub open spec fn field_lines(
    fields: Seq<Field>,
    samples: Seq<DiveSample>,
    times: Seq<Real>,
    dive_sec: Real,
    idx: nat,
    interpolate: bool,
) -> Seq<Seq<char>>
    decreases fields.len(),
{
    if fields.len() == 0 {
        seq![]
    } else {
        let before = field_lines(fields.drop_last(), samples, times, dive_sec, idx, interpolate);
        match field_line(samples, times, dive_sec, idx, fields.last(), interpolate) {
            Some(line) => before.push(line),
            None => before,
        }
    }
}

/// The lines of the info box before any stand-in for missing data.
pub open spec fn known_lines(
    fields: Seq<Field>,
    samples: Seq<DiveSample>,
    times: Seq<Real>,
    dive_sec: Real,
    interpolate: bool,
) -> Seq<Seq<char>> {
    let head = if fields.contains(Field::Time) {
        seq!["Dive time: "@ + clock_text(whole_seconds(dive_sec))]
    } else {
        seq![]
    };
    head + match last_not_after(times, dive_sec, times.len()) {
        Some(idx) => field_lines(fields, samples, times, dive_sec, idx, interpolate),
        None => seq![],
    }
}

/// The lines of the info box: the time where it is asked for, then the other
/// fields, or else that there is no data.
#[verifier::opaque]
pub open spec fn overlay_lines(
    fields: Seq<Field>,
    samples: Seq<DiveSample>,
    times: Seq<Real>,
    dive_sec: Real,
    interpolate: bool,
) -> Seq<Seq<char>> {
    let lines = known_lines(fields, samples, times, dive_sec, interpolate);
    if lines.len() == 0 {
        seq!["No data"@]
    } else {
        lines
    }
}

fn find_last_with(samples: &[DiveSample], field: Field, n: usize) -> (r: Option<usize>)
    requires
        n <= samples.len(),
    ensures
        match r {
            Some(i) => last_with(samples@, field, n as nat) == Some(i as nat) && i < n && raw_value(
                samples@[i as int],
                field,
            ).is_some(),
            None => last_with(samples@, field, n as nat).is_none(),
        },
{
    let mut i: usize = n;
    while i > 0
        invariant
            i <= n <= samples.len(),
            last_with(samples@, field, n as nat) == last_with(samples@, field, i as nat),
        decreases i,
    {
        i -= 1;
        if field_raw_value(&samples[i], field).is_some() {
            return Some(i);
        }
    }
    None
}

fn find_first_with(samples: &[DiveSample], field: Field, from: usize, to: usize) -> (r: Option<usize>)
    requires
        to <= samples.len(),
    ensures
        match r {
            Some(i) => first_with(samples@, field, from as nat, to as nat) == Some(i as nat) && from
                <= i < to && raw_value(samples@[i as int], field).is_some(),
            None => first_with(samples@, field, from as nat, to as nat).is_none(),
        },
{
    let mut i: usize = from;
    while i < to
        invariant
            from <= i,
            to <= samples.len(),
            first_with(samples@, field, from as nat, to as nat) == first_with(
                samples@,
                field,
                i as nat,
                to as nat,
            ),
        decreases to - i,
    {
        if field_raw_value(&samples[i], field).is_some() {
            return Some(i);
        }
        i += 1;
    }
    None
}

fn point_at(samples: &[DiveSample], times: &[Real], field: Field, i: usize) -> (r: (Real, Real))
    requires
        i < samples.len(),
        i < times.len(),
        raw_value(samples@[i as int], field).is_some(),
    ensures
        r == point(samples@, times@, field, i as nat),
{
    match field_raw_value(&samples[i], field) {
        Some(v) => (times[i], v),
        None => (times[i], times[i]),
    }
}

/// The latest value of a field at or before a sample, as a line.
pub fn last_known_value(samples_up_to_now: &[DiveSample], field: Field) -> (r: Option<String>)
    ensures
        text_view(r) == match last_with(samples_up_to_now@, field, samples_up_to_now@.len()) {
            Some(i) => sample_text(samples_up_to_now@[i as int], field),
            None => None,
        },
{
    match find_last_with(samples_up_to_now, field, samples_up_to_now.len()) {
        Some(i) => value_for_field(&samples_up_to_now[i], field),
        None => None,
    }
}

/// The interpolated value of a field, as a line.
pub fn interpolated_value(
    samples: &[DiveSample],
    times: &[Real],
    dive_sec: Real,
    idx: usize,
    field: Field,
) -> (r: Option<String>)
    requires
        idx < times.len() <= samples.len(),
    ensures
        text_view(r) == match interpolated(samples@, times@, dive_sec, idx as nat, field) {
            Some(v) => field_text(field, v),
            None => None,
        },
{
    let before = match find_last_with(samples, field, idx + 1) {
        None => {
            return None;
        },
        Some(i) => i,
    };
    let p0 = point_at(samples, times, field, before);
    let value = match find_first_with(samples, field, idx + 1, times.len()) {
        None => p0.1,
        Some(after) => {
            let p1 = point_at(samples, times, field, after);
            if p0.0.lt(p1.0) {
                let prev = match find_last_with(samples, field, before) {
                    Some(i) => Some(point_at(samples, times, field, i)),
                    None => None,
                };
                let next = match find_first_with(samples, field, after + 1, times.len()) {
                    Some(i) => Some(point_at(samples, times, field, i)),
                    None => None,
                };
                cubic_hermite(dive_sec, prev, p0, p1, next)
            } else {
                p0.1
            }
        },
    };
    format_field_value(field, value)
}

fn contains_time(fields: &[Field]) -> (r: bool)
    ensures
        r == fields@.contains(Field::Time),
{
    let mut i: usize = 0;
    while i < fields.len()
        invariant
            i <= fields.len(),
            forall|k: int| 0 <= k < i ==> fields@[k] != Field::Time,
        decreases fields.len() - i,
    {
        if fields[i] == Field::Time {
            assert(fields@[i as int] == Field::Time);
            return true;
        }
        i += 1;
    }
    false
}

proof fn lemma_last_with_prefix(a: Seq<DiveSample>, b: Seq<DiveSample>, field: Field, n: nat)
    requires
        n <= a.len(),
        n <= b.len(),
        forall|i: int| 0 <= i < n ==> a[i] == b[i],
    ensures
        last_with(a, field, n) == last_with(b, field, n),
        last_with(a, field, n) matches Some(i) ==> i < n,
    decreases n,
{
    if n > 0 {
        lemma_last_with_prefix(a, b, field, (n - 1) as nat);
    }
}

proof fn lemma_no_time_line(
    samples: Seq<DiveSample>,
    times: Seq<Real>,
    dive_sec: Real,
    idx: nat,
    interpolate: bool,
)
    ensures
        field_line(samples, times, dive_sec, idx, Field::Time, interpolate).is_none(),
{
}

/// Builds the lines of the info box at a moment of the dive.
pub fn build_overlay_lines(
    fields: &[Field],
    samples: &[DiveSample],
    times: &[Real],
    dive_sec: Real,
    interpolate: bool,
) -> (r: Vec<String>)
    requires
        times.len() <= samples.len(),
        ascending(times@),
    ensures
        views(r@) == overlay_lines(fields@, samples@, times@, dive_sec, interpolate),
{
    proof {
        reveal(overlay_lines);
    }
    let mut lines: Vec<String> = Vec::new();
    if contains_time(fields) {
        lines.push(prefixed("Dive time: ", format_duration(dive_sec).as_str()));
    }
    let ghost head = views(lines@);
    proof {
        let line = "Dive time: "@ + clock_text(whole_seconds(dive_sec));
        assert(head =~= if fields@.contains(Field::Time) {
            seq![line]
        } else {
            seq![]
        });
        lemma_last_not_after(times@, dive_sec, times@.len());
    }
    match choose_sample_index(times, dive_sec) {
        Some(idx) => {
            let mut i: usize = 0;
            assert(views(lines@) =~= head + field_lines(fields@.take(0), samples@, times@, dive_sec, idx as nat, interpolate));
            while i < fields.len()
                invariant
                    i <= fields.len(),
                    idx < times.len() <= samples.len(),
                    views(lines@) == head + field_lines(
                        fields@.take(i as int),
                        samples@,
                        times@,
                        dive_sec,
                        idx as nat,
                        interpolate,
                    ),
                decreases fields.len() - i,
            {
                let field = fields[i];
                proof {
                    assert(fields@.take(i + 1).drop_last() =~= fields@.take(i as int));
                    lemma_no_time_line(samples@, times@, dive_sec, idx as nat, interpolate);
                }
                if field != Field::Time {
                    let value = if interpolate {
                        interpolated_value(samples, times, dive_sec, idx, field)
                    } else {
                        let known = vstd::slice::slice_subrange(samples, 0, idx + 1);
                        proof {
                            lemma_last_with_prefix(known@, samples@, field, (idx + 1) as nat);
                        }
                        last_known_value(known, field)
                    };
                    match value {
                        Some(line) => {
                            let ghost before = lines@;
                            lines.push(line);
                            assert(views(lines@) =~= views(before).push(line@));
                        },
                        None => {},
                    }
                }
                i += 1;
            }
            assert(fields@.take(i as int) =~= fields@);
        },
        None => {
            assert(head =~= known_lines(fields@, samples@, times@, dive_sec, interpolate));
        },
    }
    assert(views(lines@) == known_lines(fields@, samples@, times@, dive_sec, interpolate));
    assert(views(lines@).len() == lines.len());
    if lines.len() == 0 {
        lines.push("No data".to_owned());
        assert(views(lines@) =~= seq!["No data"@]);
    }
    lines
}

/// Where no later sample holds a field, interpolation carries the last value
/// forward as it is.
pub proof fn law_interpolation_never_extrapolates(
    samples: Seq<DiveSample>,
    times: Seq<Real>,
    dive_sec: Real,
    idx: nat,
    field: Field,
)
    requires
        idx < times.len() <= samples.len(),
        first_with(samples, field, idx + 1, times.len()).is_none(),
    ensures
        field_line(samples, times, dive_sec, idx, field, true) == field_line(
            samples,
            times,
            dive_sec,
            idx,
            field,
            false,
        ),
{
    lemma_last_with_holds(samples, field, idx + 1);
}

proof fn lemma_last_with_holds(samples: Seq<DiveSample>, field: Field, n: nat)
    ensures
        last_with(samples, field, n) matches Some(i) ==> raw_value(
            samples[i as int],
            field,
        ).is_some(),
    decreases n,
{
    if n > 0 {
        lemma_last_with_holds(samples, field, (n - 1) as nat);
    }
}

/// The info box always has a line.
pub proof fn law_overlay_has_lines(
    fields: Seq<Field>,
    samples: Seq<DiveSample>,
    times: Seq<Real>,
    dive_sec: Real,
    interpolate: bool,
)
    ensures
        overlay_lines(fields, samples, times, dive_sec, interpolate).len() > 0,
{
    reveal(overlay_lines);
}

/// Before the first sample only the dive time is shown, where it is asked for, and
/// else that there is no data.
pub proof fn law_before_first_sample(
    fields: Seq<Field>,
    samples: Seq<DiveSample>,
    times: Seq<Real>,
    dive_sec: Real,
    interpolate: bool,
)
    requires
        forall|i: int| 0 <= i < times.len() ==> !(#[trigger] times[i]).at_most(dive_sec),
    ensures
        overlay_lines(fields, samples, times, dive_sec, interpolate) == if fields.contains(
            Field::Time,
        ) {
            seq!["Dive time: "@ + clock_text(whole_seconds(dive_sec))]
        } else {
            seq!["No data"@]
        },
{
    reveal(overlay_lines);
    lemma_last_not_after(times, dive_sec, times.len());
    let line = "Dive time: "@ + clock_text(whole_seconds(dive_sec));
    if fields.contains(Field::Time) {
        assert(seq![line] + seq![] =~= seq![line]);
    }
}

} // verus!
