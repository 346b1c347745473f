//! What can go wrong.

use vstd::prelude::*;

verus! {

/// The error of the `csv` crate.
#[verifier::external_type_specification]
#[verifier::external_body]
pub struct ExCsvError(csv::Error);

#[derive(Debug)]
pub enum CoreError {
    Csv(csv::Error),
    InvalidDuration(String),
    NoHeader,
    NoSamples,
    MissingTimeColumn,
    MissingDepthColumn,
    ColumnNotFound(String),
    InvalidColumnMap(String),
    InvalidFields(String),
    InvalidClipSpec(String),
    VideoNotFound(String),
    CsvNotFound(String),
    Ffprobe(String),
    Ffmpeg(String),
    Other(String),
}

pub type CoreResult<T> = Result<T, CoreError>;

/// An error as contracts speak of it.
pub enum ErrorView {
    Csv,
    InvalidDuration(Seq<char>),
    NoHeader,
    NoSamples,
    MissingTimeColumn,
    MissingDepthColumn,
    ColumnNotFound(Seq<char>),
    InvalidColumnMap(Seq<char>),
    InvalidFields(Seq<char>),
    InvalidClipSpec(Seq<char>),
    VideoNotFound(Seq<char>),
    CsvNotFound(Seq<char>),
    Ffprobe(Seq<char>),
    Ffmpeg(Seq<char>),
    Other(Seq<char>),
}

impl View for CoreError {
    type V = ErrorView;

    open spec fn view(&self) -> ErrorView {
        match *self {
            CoreError::Csv(_) => ErrorView::Csv,
            CoreError::InvalidDuration(t) => ErrorView::InvalidDuration(t@),
            CoreError::NoHeader => ErrorView::NoHeader,
            CoreError::NoSamples => ErrorView::NoSamples,
            CoreError::MissingTimeColumn => ErrorView::MissingTimeColumn,
            CoreError::MissingDepthColumn => ErrorView::MissingDepthColumn,
            CoreError::ColumnNotFound(t) => ErrorView::ColumnNotFound(t@),
            CoreError::InvalidColumnMap(t) => ErrorView::InvalidColumnMap(t@),
            CoreError::InvalidFields(t) => ErrorView::InvalidFields(t@),
            CoreError::InvalidClipSpec(t) => ErrorView::InvalidClipSpec(t@),
            CoreError::VideoNotFound(t) => ErrorView::VideoNotFound(t@),
            CoreError::CsvNotFound(t) => ErrorView::CsvNotFound(t@),
            CoreError::Ffprobe(t) => ErrorView::Ffprobe(t@),
            CoreError::Ffmpeg(t) => ErrorView::Ffmpeg(t@),
            CoreError::Other(t) => ErrorView::Other(t@),
        }
    }
}

/// The sentence shown for an error; what the `csv` crate says of its own errors
/// is left open.
pub open spec fn error_text(e: ErrorView, csv_text: Seq<char>) -> Seq<char> {
    match e {
        ErrorView::Csv => "CSV error: "@ + csv_text,
        ErrorView::InvalidDuration(t) => "Invalid time value: "@ + t,
        ErrorView::NoHeader => "CSV has no header row"@,
        ErrorView::NoSamples => "CSV contains no usable samples"@,
        ErrorView::MissingTimeColumn => "No time column found (e.g. 'sample time (min)')"@,
        ErrorView::MissingDepthColumn => "No depth column found (e.g. 'sample depth (m)')"@,
        ErrorView::ColumnNotFound(t) => "Column '"@ + t + "' not found"@,
        ErrorView::InvalidColumnMap(t) => t,
        ErrorView::InvalidFields(t) => t,
        ErrorView::InvalidClipSpec(t) => t,
        ErrorView::VideoNotFound(t) => "Video not found: "@ + t,
        ErrorView::CsvNotFound(t) => "CSV not found: "@ + t,
        ErrorView::Ffprobe(t) => "ffprobe error: "@ + t,
        ErrorView::Ffmpeg(t) => "ffmpeg error: "@ + t,
        ErrorView::Other(t) => t,
    }
}

/// `csv::Error`'s `Display`: the crate's own sentence for its error, of which
/// nothing is said here.
#[verifier::external_body]
fn csv_error_text(e: &csv::Error) -> (r: String) {
    format!("{}", e)
}

/// A text after a constant beginning.
pub(crate) fn prefixed(prefix: &str, t: &str) -> (r: String)
    ensures
        r@ == prefix@ + t@,
{
    let mut r = prefix.to_owned();
    r.push_str(t);
    r
}

impl CoreError {
    /// The sentence shown for this error.
    pub fn message(&self) -> (r: String)
        ensures
            exists|csv_text: Seq<char>| r@ == error_text(self@, csv_text),
            self@ != ErrorView::Csv ==> r@ == error_text(self@, ""@),
    {
        let ghost mut csv_text = ""@;
        let r = match self {
            CoreError::Csv(e) => {
                let t = csv_error_text(e);
                proof {
                    csv_text = t@;
                }
                prefixed("CSV error: ", t.as_str())
            },
            CoreError::InvalidDuration(t) => prefixed("Invalid time value: ", t.as_str()),
            CoreError::NoHeader => "CSV has no header row".to_owned(),
            CoreError::NoSamples => "CSV contains no usable samples".to_owned(),
            CoreError::MissingTimeColumn => "No time column found (e.g. 'sample time (min)')".to_owned(),
            CoreError::MissingDepthColumn => "No depth column found (e.g. 'sample depth (m)')".to_owned(),
            CoreError::ColumnNotFound(t) => {
                let mut r = prefixed("Column '", t.as_str());
                r.push_str("' not found");
                r
            },
            CoreError::InvalidColumnMap(t) => t.clone(),
            CoreError::InvalidFields(t) => t.clone(),
            CoreError::InvalidClipSpec(t) => t.clone(),
            CoreError::VideoNotFound(t) => prefixed("Video not found: ", t.as_str()),
            CoreError::CsvNotFound(t) => prefixed("CSV not found: ", t.as_str()),
            CoreError::Ffprobe(t) => prefixed("ffprobe error: ", t.as_str()),
            CoreError::Ffmpeg(t) => prefixed("ffmpeg error: ", t.as_str()),
            CoreError::Other(t) => t.clone(),
        };
        assert(r@ == error_text(self@, csv_text));
        r
    }
}

} // verus!
