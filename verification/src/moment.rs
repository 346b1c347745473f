//! Moments in universal time.

use vstd::prelude::*;

use crate::error::{prefixed, CoreError, ErrorView};
use crate::text::{chars_of, replace_char, replace_chars, same_text, text_of, trim, trim_text};

verus! {

/// A moment: whole seconds since the start of 1970, and nanoseconds. A leap
/// second is the second before it with a thousand million nanoseconds or more.
#[derive(Debug, Clone, Copy, PartialEq, Eq, Structural)]
pub struct UtcTime {
    pub secs: i64,
    pub nanos: u32,
}

/// The last second, before or after the start of 1970, that a moment can have.
pub const LAST_SECOND: i64 = 8_400_000_000_000;

/// Whether a moment lies in the years that dates are known for.
pub open spec fn moment_in_range(secs: i64, nanos: u32) -> bool {
    -LAST_SECOND <= secs <= LAST_SECOND && nanos < 2_000_000_000
}

/// The seconds from one moment to another, a leap second between two times of
/// day counted.
pub open spec fn seconds_between(from: UtcTime, to: UtcTime) -> int {
    let from_day = from.secs as int % 86_400;
    let to_day = to.secs as int % 86_400;
    to.secs - from.secs + if to_day > from_day && from.nanos >= 1_000_000_000 {
        1int
    } else if to_day < from_day && to.nanos >= 1_000_000_000 {
        -1
    } else {
        0
    }
}

/// An integer divided by a positive one, the fraction cut off.
pub open spec fn cut(n: int, d: int) -> int {
    if n < 0 {
        -((-n) / d)
    } else {
        n / d
    }
}

/// The milliseconds from one moment to another, the fraction cut off.
pub open spec fn millis_between(from: UtcTime, to: UtcTime) -> int {
    cut(seconds_between(from, to) * 1_000_000_000 + (to.nanos - from.nanos), 1_000_000)
}

impl UtcTime {
    pub open spec fn valid(self) -> bool {
        moment_in_range(self.secs, self.nanos)
    }

    /// Whether this moment is before another one.
    pub open spec fn earlier(self, other: UtcTime) -> bool {
        self.secs < other.secs || (self.secs == other.secs && self.nanos < other.nanos)
    }

    pub fn is_earlier(&self, other: &UtcTime) -> (r: bool)
        ensures
            r == self.earlier(*other),
    {
        self.secs < other.secs || (self.secs == other.secs && self.nanos < other.nanos)
    }

    /// The whole milliseconds since the start of 1970.
    pub open spec fn millis(self) -> int {
        self.secs * 1000 + self.nanos as int / 1_000_000
    }

    pub fn timestamp_millis(&self) -> (r: i64)
        requires
            self.valid(),
        ensures
            r == self.millis(),
    {
        self.secs * 1000 + self.nanos as i64 / 1_000_000
    }

    /// The whole milliseconds from `from` to this moment.
    pub fn millis_since(&self, from: &UtcTime) -> (r: i64)
        requires
            self.valid(),
            from.valid(),
        ensures
            r == millis_between(*from, *self),
    {
        let from_day: i64 = day_second(from.secs);
        let to_day: i64 = day_second(self.secs);
        let leap: i64 = if to_day > from_day && from.nanos >= 1_000_000_000 {
            1
        } else if to_day < from_day && self.nanos >= 1_000_000_000 {
            -1
        } else {
            0
        };
        let secs: i64 = self.secs - from.secs + leap;
        let nanos: i128 = secs as i128 * 1_000_000_000 + (self.nanos as i128 - from.nanos as i128);
        if nanos < 0 {
            -(((-nanos) / 1_000_000) as i64)
        } else {
            (nanos / 1_000_000) as i64
        }
    }
}

/// The second of the day.
fn day_second(secs: i64) -> (r: i64)
    ensures
        r == secs as int % 86_400,
{
    if secs >= 0 {
        secs % 86_400
    } else {
        // Counted back from the end of the day.
        86_399 - (-(secs + 1)) % 86_400
    }
}

/// The moment that the `chrono` crate reads in a text in the format of RFC 3339,
/// as seconds and nanoseconds.
pub uninterp spec fn rfc3339_moment(text: Seq<char>) -> Option<(i64, u32)>;

/// The moment that the `chrono` crate reads in a text in a given format, taken as
/// universal time, as seconds and nanoseconds.
pub uninterp spec fn formatted_moment(text: Seq<char>, format: Seq<char>) -> Option<(i64, u32)>;

/// `chrono::DateTime::parse_from_rfc3339`: the moment in a text, or `None` where
/// the crate reports an error. The outcome rests on the text alone, and lies in
/// the years that the crate has dates for.
#[verifier::external_body]
fn parse_rfc3339(text: &str) -> (r: Option<(i64, u32)>)
    ensures
        r == rfc3339_moment(text@),
        r matches Some(m) ==> moment_in_range(m.0, m.1),
{
    let read = chrono::DateTime::parse_from_rfc3339(text).ok();
    read.map(|t| (t.timestamp(), t.timestamp_subsec_nanos()))
}

/// `chrono::NaiveDateTime::parse_from_str`: the moment in a text that is written
/// in a format, taken as universal time, or `None` where the crate reports an
/// error. The outcome rests on the text and the format alone, and lies in the
/// years that the crate has dates for.
#[verifier::external_body]
fn parse_formatted(text: &str, format: &str) -> (r: Option<(i64, u32)>)
    ensures
        r == formatted_moment(text@, format@),
        r matches Some(m) ==> moment_in_range(m.0, m.1),
{
    let read = chrono::NaiveDateTime::parse_from_str(text, format).ok();
    read.map(|t| (t.and_utc().timestamp(), t.and_utc().timestamp_subsec_nanos()))
}

/// The first moment among readings.
pub open spec fn first_reading(readings: Seq<Option<(i64, u32)>>) -> Option<UtcTime>
    decreases readings.len(),
{
    if readings.len() == 0 {
        None
    } else {
        match readings[0] {
            Some((secs, nanos)) => Some(UtcTime { secs, nanos }),
            None => first_reading(readings.skip(1)),
        }
    }
}

/// Takes the first moment among readings.
pub fn pick_reading(readings: &Vec<Option<(i64, u32)>>) -> (r: Option<UtcTime>)
    ensures
        r == first_reading(readings@),
{
    let mut i: usize = 0;
    assert(readings@.skip(0) =~= readings@);
    while i < readings.len()
        invariant
            i <= readings.len(),
            first_reading(readings@) == first_reading(readings@.skip(i as int)),
        decreases readings.len() - i,
    {
        proof {
            assert(readings@.skip(i as int).skip(1) =~= readings@.skip(i + 1));
        }
        match readings[i] {
            Some((secs, nanos)) => {
                return Some(UtcTime { secs, nanos });
            },
            None => {},
        }
        i += 1;
    }
    None
}

/// How a text reads as a date and a time of day without an offset.
pub open spec fn naive_readings(text: Seq<char>) -> Seq<Option<(i64, u32)>> {
    seq![
        formatted_moment(text, "%Y-%m-%d %H:%M:%S%.f"@),
        formatted_moment(text, "%Y-%m-%dT%H:%M:%S%.f"@),
        formatted_moment(text, "%Y-%m-%d %H:%M:%S"@),
        formatted_moment(text, "%Y-%m-%dT%H:%M:%S"@),
    ]
}

/// The moment that a date and a time of day stand for.
pub open spec fn naive_of(text: Seq<char>) -> Result<UtcTime, ErrorView> {
    match first_reading(naive_readings(text)) {
        Some(t) => Ok(t),
        None => Err(ErrorView::Other("Unknown date/time format: "@ + text)),
    }
}

/// The moment that a text stands for, with or without an offset.
pub open spec fn moment_of(text: Seq<char>) -> Result<UtcTime, ErrorView> {
    match rfc3339_moment(trim(text)) {
        Some((secs, nanos)) => Ok(UtcTime { secs, nanos }),
        None => naive_of(trim(text)),
    }
}

/// What an outcome that is a moment says, over views; a moment that comes out is
/// valid.
pub open spec fn moment_outcome(r: Result<UtcTime, CoreError>) -> Result<UtcTime, ErrorView> {
    match r {
        Ok(t) => Ok(t),
        Err(e) => Err(e@),
    }
}

fn parse_naive_utc(text: &str) -> (r: Result<UtcTime, CoreError>)
    ensures
        moment_outcome(r) == naive_of(text@),
        r matches Ok(t) ==> t.valid(),
{
    let readings: Vec<Option<(i64, u32)>> = vec![
        parse_formatted(text, "%Y-%m-%d %H:%M:%S%.f"),
        parse_formatted(text, "%Y-%m-%dT%H:%M:%S%.f"),
        parse_formatted(text, "%Y-%m-%d %H:%M:%S"),
        parse_formatted(text, "%Y-%m-%dT%H:%M:%S"),
    ];
    proof {
        assert(readings@ =~= naive_readings(text@));
        lemma_reading_valid(readings@);
    }
    match pick_reading(&readings) {
        Some(t) => Ok(t),
        None => Err(CoreError::Other(prefixed("Unknown date/time format: ", text))),
    }
}

spec fn reading_in_range(reading: Option<(i64, u32)>) -> bool {
    match reading {
        Some((secs, nanos)) => moment_in_range(secs, nanos),
        None => true,
    }
}

proof fn lemma_reading_valid(readings: Seq<Option<(i64, u32)>>)
    requires
        forall|i: int| 0 <= i < readings.len() ==> reading_in_range(#[trigger] readings[i]),
    ensures
        first_reading(readings) matches Some(t) ==> t.valid(),
    decreases readings.len(),
{
    if readings.len() > 0 && readings[0].is_none() {
        lemma_reading_valid(readings.skip(1));
    }
}

pub fn parse_datetime_utc(date_str: &str, time_str: &str) -> (r: Result<UtcTime, CoreError>)
    ensures
        moment_outcome(r) == naive_of(trim(date_str@) + " "@ + trim(time_str@)),
        r matches Ok(t) ==> t.valid(),
{
    let mut text = trim_text(date_str);
    text.push_str(" ");
    text.push_str(trim_text(time_str).as_str());
    parse_naive_utc(text.as_str())
}

pub fn parse_datetime_text(value: &str) -> (r: Result<UtcTime, CoreError>)
    ensures
        moment_outcome(r) == moment_of(value@),
        r matches Ok(t) ==> t.valid(),
{
    let text = trim_text(value);
    match parse_rfc3339(text.as_str()) {
        Some((secs, nanos)) => Ok(UtcTime { secs, nanos }),
        None => parse_naive_utc(text.as_str()),
    }
}

/// The readings of a camera's creation time: with an offset, with an offset in
/// the place of every `Z`, and without one.
pub open spec fn creation_readings(text: Seq<char>) -> Seq<Option<(i64, u32)>> {
    let normalized = replace_char(text, 'Z', "+00:00"@);
    seq![
        rfc3339_moment(text),
        if normalized != text {
            rfc3339_moment(normalized)
        } else {
            None
        },
        formatted_moment(text, "%Y-%m-%d %H:%M:%S%.f"@),
        formatted_moment(text, "%Y-%m-%dT%H:%M:%S%.f"@),
        formatted_moment(text, "%Y-%m-%d %H:%M:%S"@),
    ]
}

/// The moment that a camera's creation time stands for.
pub open spec fn creation_of(text: Seq<char>) -> Result<UtcTime, ErrorView> {
    match first_reading(creation_readings(trim(text))) {
        Some(t) => Ok(t),
        None => Err(ErrorView::Ffprobe("Unknown creation_time format: "@ + trim(text))),
    }
}

/// Reads a camera's creation time in one of the formats that cameras write.
pub fn parse_creation_time(text: &str) -> (r: Result<UtcTime, CoreError>)
    ensures
        moment_outcome(r) == creation_of(text@),
        r matches Ok(t) ==> t.valid(),
{
    let text = trim_text(text);
    let v = chars_of(text.as_str());
    let offset = chars_of("+00:00");
    let normalized = text_of(replace_chars(v.as_slice(), 'Z', offset.as_slice()).as_slice());
    let readings: Vec<Option<(i64, u32)>> = vec![
        parse_rfc3339(text.as_str()),
        if !same_text(normalized.as_str(), text.as_str()) {
            parse_rfc3339(normalized.as_str())
        } else {
            None
        },
        parse_formatted(text.as_str(), "%Y-%m-%d %H:%M:%S%.f"),
        parse_formatted(text.as_str(), "%Y-%m-%dT%H:%M:%S%.f"),
        parse_formatted(text.as_str(), "%Y-%m-%d %H:%M:%S"),
    ];
    proof {
        assert(readings@ =~= creation_readings(text@));
        lemma_reading_valid(readings@);
    }
    match pick_reading(&readings) {
        Some(t) => Ok(t),
        None => Err(
            CoreError::Ffprobe(prefixed("Unknown creation_time format: ", text.as_str())),
        ),
    }
}

/// Time from one moment to another is the opposite of the time back.
pub proof fn law_millis_antisymmetric(a: UtcTime, b: UtcTime)
    ensures
        millis_between(a, b) == -millis_between(b, a),
{
}

} // verus!
