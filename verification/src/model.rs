//! Dive samples, clips and the fields of an overlay.

use vstd::prelude::*;

use crate::binary64::Real;
use crate::moment::UtcTime;
use crate::number_text::fixed;
use crate::text::same_text;

verus! {

/// One row of a dive log.
#[derive(Debug, Clone, Copy, PartialEq, Eq, Structural)]
pub struct DiveSample {
    pub elapsed_sec: Real,
    pub depth_m: Option<Real>,
    pub temp_c: Option<Real>,
    pub pressure_bar: Option<Real>,
    pub heart_rate: Option<Real>,
}

/// A clip to be worked on, and where it lies in the dive.
#[derive(Debug, Clone)]
pub struct ClipJob {
    pub video_path: String,
    pub output_path: String,
    /// The moment of the dive at the clip's first frame.
    pub dive_start_sec: Real,
    pub video_start_utc: Option<UtcTime>,
}

/// A clip as contracts speak of it.
pub struct ClipView {
    pub video_path: Seq<char>,
    pub output_path: Seq<char>,
    pub dive_start_sec: Real,
    pub video_start_utc: Option<UtcTime>,
}

impl View for ClipJob {
    type V = ClipView;

    open spec fn view(&self) -> ClipView {
        ClipView {
            video_path: self.video_path@,
            output_path: self.output_path@,
            dive_start_sec: self.dive_start_sec,
            video_start_utc: self.video_start_utc,
        }
    }
}

pub open spec fn clip_views(jobs: Seq<ClipJob>) -> Seq<ClipView> {
    jobs.map_values(|j: ClipJob| j@)
}

/// What an overlay can show.
#[derive(Debug, Clone, Copy, PartialEq, Eq, Hash, Structural)]
pub enum Field {
    Time,
    Depth,
    Temp,
    Pressure,
    Hr,
}

/// The names of the fields, in the order in which messages list them.
pub const ALLOWED_FIELD_NAMES: [&'static str; 5] = ["depth", "hr", "pressure", "temp", "time"];

impl Field {
    /// The name of a field.
    pub open spec fn name(self) -> Seq<char> {
        match self {
            Field::Time => "time"@,
            Field::Depth => "depth"@,
            Field::Temp => "temp"@,
            Field::Pressure => "pressure"@,
            Field::Hr => "hr"@,
        }
    }
}

/// The field with this name, where there is one.
pub open spec fn field_named(s: Seq<char>) -> Option<Field> {
    if s == Field::Time.name() {
        Some(Field::Time)
    } else if s == Field::Depth.name() {
        Some(Field::Depth)
    } else if s == Field::Temp.name() {
        Some(Field::Temp)
    } else if s == Field::Pressure.name() {
        Some(Field::Pressure)
    } else if s == Field::Hr.name() {
        Some(Field::Hr)
    } else {
        None
    }
}

impl Field {
    pub fn parse(s: &str) -> (r: Option<Field>)
        ensures
            r == field_named(s@),
    {
        if same_text(s, "time") {
            Some(Field::Time)
        } else if same_text(s, "depth") {
            Some(Field::Depth)
        } else if same_text(s, "temp") {
            Some(Field::Temp)
        } else if same_text(s, "pressure") {
            Some(Field::Pressure)
        } else if same_text(s, "hr") {
            Some(Field::Hr)
        } else {
            None
        }
    }

    pub fn as_str(&self) -> (r: &'static str)
        ensures
            r@ == self.name(),
    {
        match self {
            Field::Time => "time",
            Field::Depth => "depth",
            Field::Temp => "temp",
            Field::Pressure => "pressure",
            Field::Hr => "hr",
        }
    }
}

/// A field is found again under its own name.
pub proof fn law_field_name_round_trip(f: Field)
    ensures
        field_named(f.name()) == Some(f),
{
    reveal_strlit("time");
    reveal_strlit("depth");
    reveal_strlit("temp");
    reveal_strlit("pressure");
    reveal_strlit("hr");
    assert("time"@.len() == 4 && "temp"@.len() == 4 && "time"@[1] == 'i' && "temp"@[1] == 'e');
    assert("depth"@.len() == 5 && "pressure"@.len() == 8 && "hr"@.len() == 2);
}

/// What a sample holds for a field.
pub open spec fn raw_value(sample: DiveSample, field: Field) -> Option<Real> {
    match field {
        Field::Time => None,
        Field::Depth => sample.depth_m,
        Field::Temp => sample.temp_c,
        Field::Pressure => sample.pressure_bar,
        Field::Hr => sample.heart_rate,
    }
}

/// The measurement of `sample` for `field`, or `None` where the sample has none;
/// the time has no value of its own.
pub fn field_raw_value(sample: &DiveSample, field: Field) -> (r: Option<Real>)
    ensures
        r == raw_value(*sample, field),
{
    match field {
        Field::Time => None,
        Field::Depth => sample.depth_m,
        Field::Temp => sample.temp_c,
        Field::Pressure => sample.pressure_bar,
        Field::Hr => sample.heart_rate,
    }
}

/// The line that shows a value of a field.
pub open spec fn field_text(field: Field, value: Real) -> Option<Seq<char>> {
    match field {
        Field::Time => None,
        Field::Depth => Some("Depth: "@ + fixed(value, 1) + " m"@),
        Field::Temp => Some("Temp: "@ + fixed(value, 1) + " C"@),
        Field::Pressure => Some("Pressure: "@ + fixed(value, 0) + " bar"@),
        Field::Hr => Some("HR: "@ + fixed(value, 0) + " bpm"@),
    }
}

/// The text of an optional string.
pub open spec fn text_view(s: Option<String>) -> Option<Seq<char>> {
    match s {
        Some(t) => Some(t@),
        None => None,
    }
}

fn with_unit(label: &str, value: Real, places: u32, unit: &str) -> (r: String)
    requires
        places <= 6,
    ensures
        r@ == label@ + fixed(value, places as nat) + unit@,
{
    let mut r = label.to_owned();
    value.push_fixed(&mut r, places);
    r.push_str(unit);
    r
}

/// Formats a value of a field for display.
pub fn format_field_value(field: Field, value: Real) -> (r: Option<String>)
    ensures
        text_view(r) == field_text(field, value),
{
    match field {
        Field::Time => None,
        Field::Depth => Some(with_unit("Depth: ", value, 1, " m")),
        Field::Temp => Some(with_unit("Temp: ", value, 1, " C")),
        Field::Pressure => Some(with_unit("Pressure: ", value, 0, " bar")),
        Field::Hr => Some(with_unit("HR: ", value, 0, " bpm")),
    }
}

/// The line that shows what a sample holds for a field.
pub open spec fn sample_text(sample: DiveSample, field: Field) -> Option<Seq<char>> {
    match raw_value(sample, field) {
        Some(v) => field_text(field, v),
        None => None,
    }
}

/// Formats what a sample holds for a field; `None` where it holds nothing.
pub fn value_for_field(sample: &DiveSample, field: Field) -> (r: Option<String>)
    ensures
        text_view(r) == sample_text(*sample, field),
{
    match field_raw_value(sample, field) {
        Some(v) => format_field_value(field, v),
        None => None,
    }
}

} // verus!
