//! Which readings of a log are shown at a moment.

use vstd::prelude::*;

use crate::binary64::Real;
use crate::graph_laws::placeable;
use crate::line_laws::law_curve_without_neighbours_is_a_line;
use crate::lookup::{ascending, last_not_after, lemma_last_not_after};
use crate::model::{field_text, raw_value, DiveSample, Field};
use crate::overlay_lines::{
    field_line, field_lines, first_with, hermite, known_lines, last_with, overlay_lines,
};
use crate::rounding::{distance, exact, least, step, within};

verus! {

/// Each field shows its own measurement of a sample.
pub proof fn law_fields_show_their_own(sample: DiveSample)
    ensures
        raw_value(sample, Field::Depth) == sample.depth_m,
        raw_value(sample, Field::Temp) == sample.temp_c,
        raw_value(sample, Field::Pressure) == sample.pressure_bar,
        raw_value(sample, Field::Hr) == sample.heart_rate,
        raw_value(sample, Field::Time).is_none(),
{
}

/// Whether a sample is the last one that holds a field at a moment.
pub open spec fn is_reading(
    samples: Seq<DiveSample>,
    times: Seq<Real>,
    t: Real,
    field: Field,
    b: int,
) -> bool {
    &&& 0 <= b < times.len()
    &&& times[b].at_most(t)
    &&& raw_value(samples[b], field).is_some()
    &&& forall|k: int|
        b < k < times.len() && times[k].at_most(t) ==> raw_value(
            #[trigger] samples[k],
            field,
        ).is_none()
}

/// Whether a sample is the first one after a moment that holds a field.
pub open spec fn is_next_reading(
    samples: Seq<DiveSample>,
    times: Seq<Real>,
    t: Real,
    field: Field,
    a: int,
) -> bool {
    &&& 0 <= a < times.len()
    &&& !times[a].at_most(t)
    &&& raw_value(samples[a], field).is_some()
    &&& forall|k: int|
        0 <= k < a && !times[k].at_most(t) ==> raw_value(#[trigger] samples[k], field).is_none()
}

/// Whether a sample is the last one before a position that holds a field, or none does.
pub open spec fn is_before(samples: Seq<DiveSample>, field: Field, b: int, c: Option<int>) -> bool {
    match c {
        Some(c) => 0 <= c < b && raw_value(samples[c], field).is_some() && forall|k: int|
            c < k < b ==> raw_value(#[trigger] samples[k], field).is_none(),
        None => forall|k: int| 0 <= k < b ==> raw_value(#[trigger] samples[k], field).is_none(),
    }
}

/// Whether a sample is the first one behind a position that holds a field, or none does.
pub open spec fn is_behind(
    samples: Seq<DiveSample>,
    field: Field,
    a: int,
    n: int,
    c: Option<int>,
) -> bool {
    match c {
        Some(c) => a < c < n && raw_value(samples[c], field).is_some() && forall|k: int|
            a < k < c ==> raw_value(#[trigger] samples[k], field).is_none(),
        None => forall|k: int| a < k < n ==> raw_value(#[trigger] samples[k], field).is_none(),
    }
}

/// The time and the value of a reading.
pub open spec fn reading(samples: Seq<DiveSample>, times: Seq<Real>, field: Field, i: int) -> (
    Real,
    Real,
) {
    (times[i], raw_value(samples[i], field)->0)
}

pub open spec fn optional_reading(
    samples: Seq<DiveSample>,
    times: Seq<Real>,
    field: Field,
    i: Option<int>,
) -> Option<(Real, Real)> {
    match i {
        Some(i) => Some(reading(samples, times, field, i)),
        None => None,
    }
}

proof fn lemma_last_with(samples: Seq<DiveSample>, field: Field, n: nat, b: int)
    requires
        0 <= b < n,
        raw_value(samples[b], field).is_some(),
        forall|k: int| b < k < n ==> raw_value(#[trigger] samples[k], field).is_none(),
    ensures
        last_with(samples, field, n) == Some(b as nat),
    decreases n,
{
    if n - 1 > b {
        assert(raw_value(samples[n - 1], field).is_none());
        lemma_last_with(samples, field, (n - 1) as nat, b);
    }
}

proof fn lemma_none_with(samples: Seq<DiveSample>, field: Field, n: nat)
    requires
        forall|k: int| 0 <= k < n ==> raw_value(#[trigger] samples[k], field).is_none(),
    ensures
        last_with(samples, field, n).is_none(),
    decreases n,
{
    if n > 0 {
        assert(raw_value(samples[n - 1], field).is_none());
        lemma_none_with(samples, field, (n - 1) as nat);
    }
}

proof fn lemma_first_with(samples: Seq<DiveSample>, field: Field, from: nat, to: nat, a: int)
    requires
        from <= a < to,
        raw_value(samples[a], field).is_some(),
        forall|k: int| from <= k < a ==> raw_value(#[trigger] samples[k], field).is_none(),
    ensures
        first_with(samples, field, from, to) == Some(a as nat),
    decreases to - from,
{
    if from < a {
        assert(raw_value(samples[from as int], field).is_none());
        lemma_first_with(samples, field, from + 1, to, a);
    }
}

proof fn lemma_none_behind(samples: Seq<DiveSample>, field: Field, from: nat, to: nat)
    requires
        forall|k: int| from <= k < to ==> raw_value(#[trigger] samples[k], field).is_none(),
    ensures
        first_with(samples, field, from, to).is_none(),
    decreases to - from,
{
    if from < to {
        assert(raw_value(samples[from as int], field).is_none());
        lemma_none_behind(samples, field, from + 1, to);
    }
}

/// The lines for a single field.
proof fn lemma_one_field(
    samples: Seq<DiveSample>,
    times: Seq<Real>,
    t: Real,
    field: Field,
    interpolate: bool,
    idx: nat,
)
    requires
        field != Field::Time,
        last_not_after(times, t, times.len()) == Some(idx),
        field_line(samples, times, t, idx, field, interpolate).is_some(),
    ensures
        overlay_lines(seq![field], samples, times, t, interpolate) == seq![
            field_line(samples, times, t, idx, field, interpolate)->0,
        ],
{
    reveal(overlay_lines);
    let fields = seq![field];
    assert(fields.drop_last() =~= seq![]);
    assert(!fields.contains(Field::Time)) by {
        assert(fields[0] != Field::Time);
    }
    let line = field_line(samples, times, t, idx, field, interpolate)->0;
    assert(field_lines(fields.drop_last(), samples, times, t, idx, interpolate) =~= seq![]);
    assert(field_lines(fields, samples, times, t, idx, interpolate) =~= seq![line]);
    assert(known_lines(fields, samples, times, t, interpolate) =~= seq![line]);
}

/// Where the moment lies among ascending times.
proof fn lemma_index(times: Seq<Real>, t: Real, b: int) -> (idx: nat)
    requires
        ascending(times),
        0 <= b < times.len(),
        times[b].at_most(t),
    ensures
        last_not_after(times, t, times.len()) == Some(idx),
        b <= idx < times.len(),
        forall|k: int| 0 <= k < times.len() ==> ((#[trigger] times[k]).at_most(t) <==> k <= idx),
{
    lemma_last_not_after(times, t, times.len());
    let idx = last_not_after(times, t, times.len())->0;
    assert forall|k: int| 0 <= k < times.len() implies ((#[trigger] times[k]).at_most(t) <==> k
        <= idx) by {
        if k < idx {
            assert(times[k].at_most(times[idx as int]));
        }
    }
    idx
}

/// Without interpolation the last reading of a field is shown until the next one.
pub proof fn law_last_reading_is_shown(
    samples: Seq<DiveSample>,
    times: Seq<Real>,
    t: Real,
    field: Field,
    b: int,
)
    requires
        ascending(times),
        times.len() <= samples.len(),
        field != Field::Time,
        is_reading(samples, times, t, field, b),
    ensures
        overlay_lines(seq![field], samples, times, t, false) == seq![
            field_text(field, raw_value(samples[b], field)->0)->0,
        ],
{
    let idx = lemma_index(times, t, b);
    assert forall|k: int| b < k < idx + 1 implies raw_value(
        #[trigger] samples[k],
        field,
    ).is_none() by {
        assert(times[k].at_most(t));
    }
    lemma_last_with(samples, field, idx + 1, b);
    lemma_one_field(samples, times, t, field, false, idx);
}

/// With interpolation the value lies on the curve through the readings around the
/// moment, however many samples without the field lie between them; the slopes of the
/// curve come from the readings beyond.
pub proof fn law_interpolation_spans_gaps(
    samples: Seq<DiveSample>,
    times: Seq<Real>,
    t: Real,
    field: Field,
    b: int,
    a: int,
    prev: Option<int>,
    next: Option<int>,
)
    requires
        ascending(times),
        times.len() <= samples.len(),
        field != Field::Time,
        is_reading(samples, times, t, field, b),
        is_next_reading(samples, times, t, field, a),
        is_before(samples, field, b, prev),
        is_behind(samples, field, a, times.len() as int, next),
    ensures
        overlay_lines(seq![field], samples, times, t, true) == seq![
            field_text(
                field,
                hermite(
                    t,
                    optional_reading(samples, times, field, prev),
                    reading(samples, times, field, b),
                    reading(samples, times, field, a),
                    optional_reading(samples, times, field, next),
                ),
            )->0,
        ],
{
    let idx = lemma_index(times, t, b);
    assert forall|k: int| b < k < idx + 1 implies raw_value(
        #[trigger] samples[k],
        field,
    ).is_none() by {
        assert(times[k].at_most(t));
    }
    assert(idx < a) by {
        assert(!times[a].at_most(t));
    }
    assert forall|k: int| idx + 1 <= k < a implies raw_value(
        #[trigger] samples[k],
        field,
    ).is_none() by {
        assert(!times[k].at_most(t));
    }
    lemma_last_with(samples, field, idx + 1, b);
    lemma_first_with(samples, field, idx + 1, times.len(), a);
    match prev {
        Some(c) => lemma_last_with(samples, field, b as nat, c),
        None => lemma_none_with(samples, field, b as nat),
    }
    match next {
        Some(c) => lemma_first_with(samples, field, (a + 1) as nat, times.len(), c),
        None => lemma_none_behind(samples, field, (a + 1) as nat, times.len()),
    }
    assert(times[b].less(times[a]));
    lemma_one_field(samples, times, t, field, true, idx);
}

/// With interpolation a field that only two samples hold is shown on the straight line
/// between them, up to rounding, however many samples lie between.
pub proof fn law_interpolation_of_two_readings(
    samples: Seq<DiveSample>,
    times: Seq<Real>,
    t: Real,
    field: Field,
    b: int,
    a: int,
)
    requires
        ascending(times),
        times.len() <= samples.len(),
        field != Field::Time,
        0 <= b < a < times.len(),
        raw_value(samples[b], field).is_some(),
        raw_value(samples[a], field).is_some(),
        forall|k: int|
            0 <= k < times.len() && k != a && k != b ==> raw_value(
                #[trigger] samples[k],
                field,
            ).is_none(),
        times[b].at_most(t),
        t.less(times[a]),
        placeable(t, times[b], times[a]),
        hermite(
            t,
            None,
            reading(samples, times, field, b),
            reading(samples, times, field, a),
            None,
        ).finite(),
    ensures
        ({
            let vb = raw_value(samples[b], field)->0;
            let va = raw_value(samples[a], field)->0;
            let share = (exact(t) - exact(times[b])) / (exact(times[a]) - exact(times[b]));
            let rise = va.difference(vb).quotient(times[a].difference(times[b]));
            exists|v: Real|
                overlay_lines(seq![field], samples, times, t, true) == seq![
                    (#[trigger] field_text(field, v))->0,
                ] && within(
                    exact(v),
                    exact(vb) + share * (exact(va) - exact(vb)),
                    128real * (step() * (distance(exact(vb)) + distance(exact(va)))) + 16real * (
                    least() * (1real + exact(times[a].difference(times[b])) + distance(
                        exact(rise),
                    ))),
                )
        }),
{
    law_interpolation_spans_gaps(samples, times, t, field, b, a, None, None);
    let p0 = reading(samples, times, field, b);
    let p1 = reading(samples, times, field, a);
    law_curve_without_neighbours_is_a_line(t, p0, p1);
    let v = hermite(t, None, p0, p1, None);
    let line = field_text(field, v);
    assert(overlay_lines(seq![field], samples, times, t, true) == seq![line->0]);
}

/// After the last reading of a field that reading is shown, with interpolation too.
pub proof fn law_last_reading_stays(
    samples: Seq<DiveSample>,
    times: Seq<Real>,
    t: Real,
    field: Field,
    b: int,
)
    requires
        ascending(times),
        times.len() <= samples.len(),
        field != Field::Time,
        0 <= b < times.len(),
        times[b].at_most(t),
        raw_value(samples[b], field).is_some(),
        forall|k: int| b < k < times.len() ==> raw_value(#[trigger] samples[k], field).is_none(),
    ensures
        overlay_lines(seq![field], samples, times, t, true) == seq![
            field_text(field, raw_value(samples[b], field)->0)->0,
        ],
        overlay_lines(seq![field], samples, times, t, false) == seq![
            field_text(field, raw_value(samples[b], field)->0)->0,
        ],
{
    let idx = lemma_index(times, t, b);
    lemma_last_with(samples, field, idx + 1, b);
    lemma_none_behind(samples, field, idx + 1, times.len());
    lemma_one_field(samples, times, t, field, true, idx);
    lemma_one_field(samples, times, t, field, false, idx);
}

/// The lines of a list of fields are those of its fields, in the order of the list.
pub proof fn law_lines_follow_the_fields(
    fields: Seq<Field>,
    field: Field,
    samples: Seq<DiveSample>,
    times: Seq<Real>,
    t: Real,
    interpolate: bool,
)
    requires
        field != Field::Time,
    ensures
        known_lines(fields.push(field), samples, times, t, interpolate) == known_lines(
            fields,
            samples,
            times,
            t,
            interpolate,
        ) + known_lines(seq![field], samples, times, t, interpolate),
        known_lines(fields, samples, times, t, interpolate).len() > 0 ==> overlay_lines(
            fields,
            samples,
            times,
            t,
            interpolate,
        ) == known_lines(fields, samples, times, t, interpolate),
{
    reveal(overlay_lines);
    let all = fields.push(field);
    let one = seq![field];
    assert(all.drop_last() =~= fields);
    assert(one.drop_last() =~= seq![]);
    assert(!one.contains(Field::Time)) by {
        assert(one[0] != Field::Time);
    }
    assert(all.contains(Field::Time) == fields.contains(Field::Time)) by {
        if fields.contains(Field::Time) {
            let i = choose|i: int| 0 <= i < fields.len() && fields[i] == Field::Time;
            assert(all[i] == Field::Time);
        }
        if all.contains(Field::Time) {
            let i = choose|i: int| 0 <= i < all.len() && all[i] == Field::Time;
            assert(fields[i] == Field::Time);
        }
    }
    match last_not_after(times, t, times.len()) {
        Some(idx) => {
            assert(field_lines(one.drop_last(), samples, times, t, idx, interpolate) =~= seq![]);
            assert(field_lines(all, samples, times, t, idx, interpolate) =~= field_lines(
                fields,
                samples,
                times,
                t,
                idx,
                interpolate,
            ) + field_lines(one, samples, times, t, idx, interpolate));
        },
        None => {},
    }
    assert(known_lines(all, samples, times, t, interpolate) =~= known_lines(
        fields,
        samples,
        times,
        t,
        interpolate,
    ) + known_lines(one, samples, times, t, interpolate));
}

} // verus!
