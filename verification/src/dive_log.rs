//! Reading a dive log: its header row, its first row and its samples.

use vstd::prelude::*;
use vstd::slice::slice_subrange;

use crate::binary64::Real;
use crate::csv_data::{
    cell_number, column_keys, duration_of, exact_column, find_column, find_column_index, index_view,
    list_outcome, parse_duration_to_seconds, parse_optional_float, partial_column, ColumnMap,
};
use crate::error::{CoreError, ErrorView};
use crate::lookup::ascending;
use crate::model::DiveSample;
use crate::text::{
    chars_of, lemma_position_found, lower, lower_text, position_of, same_text, str_views, text_of,
    trim, trim_text, unquote, unquoted, views,
};

verus! {

/// A file's bytes after the mark that may stand in front of UTF-8 text.
pub open spec fn without_bom(bytes: Seq<u8>) -> Seq<u8> {
    if bytes.len() >= 3 && bytes[0] == 0xEF && bytes[1] == 0xBB && bytes[2] == 0xBF {
        bytes.skip(3)
    } else {
        bytes
    }
}

fn strip_bom(bytes: &[u8]) -> (r: &[u8])
    ensures
        r@ == without_bom(bytes@),
{
    if bytes.len() >= 3 && bytes[0] == 0xEF && bytes[1] == 0xBB && bytes[2] == 0xBF {
        let r = slice_subrange(bytes, 3, bytes.len());
        assert(r@ =~= bytes@.skip(3));
        r
    } else {
        bytes
    }
}

/// The cells of the header row that the `csv` crate reads in a file, or `None`
/// where it reports an error.
pub uninterp spec fn csv_headers_of(bytes: Seq<u8>) -> Option<Seq<Seq<char>>>;

/// The rows below the header row that the `csv` crate reads in a file, `None` in
/// the place of a row for which it reports an error.
pub uninterp spec fn csv_records_of(bytes: Seq<u8>) -> Seq<Option<Seq<Seq<char>>>>;

/// `csv::Reader::headers` on a reader that allows rows of different lengths: the
/// cells of the first row, or the crate's error. The outcome rests on the bytes
/// alone.
#[verifier::external_body]
fn csv_headers(bytes: &[u8]) -> (r: Result<Vec<String>, csv::Error>)
    ensures
        match r {
            Ok(cells) => csv_headers_of(bytes@) == Some(views(cells@)),
            Err(_) => csv_headers_of(bytes@).is_none(),
        },
{
    let mut reader = csv::ReaderBuilder::new().flexible(true).from_reader(bytes);
    let headers = reader.headers()?;
    Ok(headers.iter().map(String::from).collect())
}

/// A row as the `csv` crate gave it, over views.
pub open spec fn row_view(row: Result<Vec<String>, csv::Error>) -> Option<Seq<Seq<char>>> {
    match row {
        Ok(cells) => Some(views(cells@)),
        Err(_) => None,
    }
}

pub open spec fn rows_view(rows: Seq<Result<Vec<String>, csv::Error>>) -> Seq<
    Option<Seq<Seq<char>>>,
> {
    rows.map_values(|row: Result<Vec<String>, csv::Error>| row_view(row))
}

/// `csv::Reader::records`, after `csv::Reader::headers` has read the first row,
/// on a reader that allows rows of different lengths: the rows in their order,
/// each as its cells or as the crate's error. The outcome rests on the bytes
/// alone.
#[verifier::external_body]
fn csv_records(bytes: &[u8]) -> (r: Vec<Result<Vec<String>, csv::Error>>)
    ensures
        rows_view(r@) == csv_records_of(bytes@),
{
    let mut reader = csv::ReaderBuilder::new().flexible(true).from_reader(bytes);
    let _ = reader.headers();
    reader.records().map(|row| row.map(|cells| cells.iter().map(String::from).collect())).collect()
}

/// The names of the columns: the cells of the header row without the white space
/// and quotation marks around them.
pub open spec fn header_names(cells: Seq<Seq<char>>) -> Seq<Seq<char>> {
    cells.map_values(|c: Seq<char>| unquoted(c))
}

/// The names of a file's columns.
pub open spec fn headers_of(bytes: Seq<u8>) -> Result<Seq<Seq<char>>, ErrorView> {
    match csv_headers_of(without_bom(bytes)) {
        None => Err(ErrorView::Csv),
        Some(cells) => if cells.len() == 0 {
            Err(ErrorView::NoHeader)
        } else {
            Ok(header_names(cells))
        },
    }
}

/// What an outcome that is a list of texts says, over views.
pub open spec fn texts_outcome(r: Result<Vec<String>, CoreError>) -> Result<
    Seq<Seq<char>>,
    ErrorView,
> {
    match r {
        Ok(v) => Ok(views(v@)),
        Err(e) => Err(e@),
    }
}

/// The names of the columns of a header row.
pub fn normalize_headers(cells: &Vec<String>) -> (r: Vec<String>)
    ensures
        views(r@) == header_names(views(cells@)),
{
    let mut r: Vec<String> = Vec::new();
    let mut i: usize = 0;
    while i < cells.len()
        invariant
            i <= cells.len(),
            r.len() == i,
            forall|k: int| 0 <= k < i ==> (#[trigger] r@[k])@ == unquoted(cells@[k]@),
        decreases cells.len() - i,
    {
        let v = unquote(cells[i].as_str());
        r.push(text_of(v.as_slice()));
        i += 1;
    }
    assert(views(r@) =~= header_names(views(cells@)));
    r
}

pub fn read_csv_headers(bytes: &[u8]) -> (r: Result<Vec<String>, CoreError>)
    ensures
        texts_outcome(r) == headers_of(bytes@),
{
    match csv_headers(strip_bom(bytes)) {
        Err(e) => Err(CoreError::Csv(e)),
        Ok(cells) => {
            proof {
                assert(views(cells@).len() == cells.len());
            }
            if cells.len() == 0 {
                Err(CoreError::NoHeader)
            } else {
                Ok(normalize_headers(&cells))
            }
        },
    }
}

pub open spec fn date_candidates() -> Seq<Seq<char>> {
    seq!["date"@, "datum"@, "sample date"@]
}

pub open spec fn clock_candidates() -> Seq<Seq<char>> {
    seq!["time"@, "zeit"@, "sample time"@, "clock time"@]
}

/// The name of the column that candidates find.
pub open spec fn column_name(headers: Seq<Seq<char>>, candidates: Seq<Seq<char>>) -> Option<
    Seq<char>,
> {
    match find_column(headers, candidates) {
        Some(i) => Some(headers[i as int]),
        None => None,
    }
}

pub open spec fn name_view(s: Option<String>) -> Option<Seq<char>> {
    match s {
        Some(t) => Some(t@),
        None => None,
    }
}

proof fn lemma_found_in_range(headers: Seq<Seq<char>>, candidates: Seq<Seq<char>>)
    ensures
        find_column(headers, candidates) matches Some(i) ==> i < headers.len(),
{
    let keys = column_keys(headers);
    assert(keys.len() == headers.len());
    lemma_exact_in_range(keys, candidates);
    lemma_partial_in_range(keys, candidates);
}

proof fn lemma_exact_in_range(keys: Seq<Seq<char>>, candidates: Seq<Seq<char>>)
    ensures
        exact_column(keys, candidates) matches Some(i) ==> i < keys.len(),
    decreases candidates.len(),
{
    if candidates.len() > 0 {
        lemma_exact_in_range(keys, candidates.skip(1));
    }
}

proof fn lemma_partial_in_range(keys: Seq<Seq<char>>, candidates: Seq<Seq<char>>)
    ensures
        partial_column(keys, candidates) matches Some(i) ==> i < keys.len(),
    decreases keys.len(),
{
    if keys.len() > 0 {
        lemma_partial_in_range(keys.skip(1), candidates);
    }
}

fn named_column(headers: &Vec<String>, candidates: &[&str]) -> (r: Option<String>)
    ensures
        name_view(r) == column_name(views(headers@), str_views(candidates@)),
{
    proof {
        lemma_found_in_range(views(headers@), str_views(candidates@));
    }
    match find_column_index(headers.as_slice(), candidates) {
        Some(i) => Some(headers[i].clone()),
        None => None,
    }
}

/// The columns of a log that hold the date and the time of day.
pub fn datetime_columns(headers: &Vec<String>) -> (r: (Option<String>, Option<String>))
    ensures
        name_view(r.0) == column_name(views(headers@), date_candidates()),
        name_view(r.1) == column_name(views(headers@), clock_candidates()),
{
    let dates: Vec<&str> = vec!["date", "datum", "sample date"];
    let clocks: Vec<&str> = vec!["time", "zeit", "sample time", "clock time"];
    proof {
        assert(str_views(dates@) =~= date_candidates());
        assert(str_views(clocks@) =~= clock_candidates());
    }
    (named_column(headers, dates.as_slice()), named_column(headers, clocks.as_slice()))
}

pub fn read_csv_datetime_columns(bytes: &[u8]) -> (r: Result<
    (Option<String>, Option<String>),
    CoreError,
>)
    ensures
        match headers_of(bytes@) {
            Err(e) => r matches Err(f) && f@ == e,
            Ok(headers) => r matches Ok(c) && name_view(c.0) == column_name(
                headers,
                date_candidates(),
            ) && name_view(c.1) == column_name(headers, clock_candidates()),
        },
{
    match read_csv_headers(bytes) {
        Err(e) => Err(e),
        Ok(headers) => Ok(datetime_columns(&headers)),
    }
}

/// Column names in lower case.
pub open spec fn lower_names(headers: Seq<Seq<char>>) -> Seq<Seq<char>> {
    headers.map_values(|h: Seq<char>| lower(h))
}

/// The position of the column with this name, upper and lower case alike.
pub open spec fn named_position(headers: Seq<Seq<char>>, name: Seq<char>) -> Option<nat> {
    let i = position_of(lower_names(headers), lower(name));
    if i < headers.len() {
        Some(i)
    } else {
        None
    }
}

fn position_by_name(headers: &Vec<String>, name: &str) -> (r: Option<usize>)
    ensures
        index_view(r) == named_position(views(headers@), name@),
{
    let wanted = lower_text(name);
    let ghost all = lower_names(views(headers@));
    let mut i: usize = 0;
    while i < headers.len()
        invariant
            i <= headers.len(),
            all == lower_names(views(headers@)),
            wanted@ == lower(name@),
            forall|k: int| 0 <= k < i ==> #[trigger] all[k] != wanted@,
        decreases headers.len() - i,
    {
        let h = lower_text(headers[i].as_str());
        proof {
            assert(all[i as int] == h@);
        }
        if same_text(h.as_str(), wanted.as_str()) {
            proof {
                lemma_position_found(all, wanted@, i as int);
            }
            return Some(i);
        }
        i += 1;
    }
    proof {
        lemma_position_found(all, wanted@, i as int);
    }
    None
}

/// A cell of a row; a row that is too short has empty cells.
pub open spec fn cell(row: Seq<Seq<char>>, i: int) -> Seq<char> {
    if 0 <= i < row.len() {
        row[i]
    } else {
        ""@
    }
}

/// What a row holds in the column with this name.
pub open spec fn named_cell(headers: Seq<Seq<char>>, row: Seq<Seq<char>>, name: Seq<char>) -> Seq<
    char,
> {
    unquoted(
        match named_position(headers, name) {
            Some(i) => cell(row, i as int),
            None => ""@,
        },
    )
}

fn cell_text(row: &Vec<String>, i: usize) -> (r: String)
    ensures
        r@ == cell(views(row@), i as int),
{
    if i < row.len() {
        row[i].clone()
    } else {
        "".to_owned()
    }
}

/// The cells of a row in some columns.
pub fn row_values(headers: &Vec<String>, row: &Vec<String>, columns: &[&str]) -> (r: Vec<String>)
    ensures
        views(r@) == str_views(columns@).map_values(
            |c: Seq<char>| named_cell(views(headers@), views(row@), c),
        ),
{
    let mut r: Vec<String> = Vec::new();
    let mut i: usize = 0;
    while i < columns.len()
        invariant
            i <= columns.len(),
            r.len() == i,
            forall|k: int|
                0 <= k < i ==> (#[trigger] r@[k])@ == named_cell(
                    views(headers@),
                    views(row@),
                    columns@[k]@,
                ),
        decreases columns.len() - i,
    {
        let raw = match position_by_name(headers, columns[i]) {
            Some(at) => cell_text(row, at),
            None => "".to_owned(),
        };
        let v = unquote(raw.as_str());
        r.push(text_of(v.as_slice()));
        i += 1;
    }
    assert(views(r@) =~= str_views(columns@).map_values(
        |c: Seq<char>| named_cell(views(headers@), views(row@), c),
    ));
    r
}

/// What the first row of a log holds in some columns; `None` where there is no row.
pub fn read_first_row_columns(bytes: &[u8], columns: &[&str]) -> (r: Result<
    Option<Vec<String>>,
    CoreError,
>)
    ensures
        match headers_of(bytes@) {
            Err(e) => r matches Err(f) && f@ == e,
            Ok(headers) => {
                let rows = csv_records_of(without_bom(bytes@));
                if rows.len() == 0 {
                    r matches Ok(None)
                } else {
                    match rows[0] {
                        None => r matches Err(f) && f@ == ErrorView::Csv,
                        Some(row) => r matches Ok(Some(v)) && views(v@) == str_views(
                            columns@,
                        ).map_values(|c: Seq<char>| named_cell(headers, row, c)),
                    }
                }
            },
        },
{
    let headers = match read_csv_headers(bytes) {
        Err(e) => {
            return Err(e);
        },
        Ok(headers) => headers,
    };
    let mut rows = csv_records(strip_bom(bytes));
    proof {
        assert(rows_view(rows@).len() == rows.len());
    }
    if rows.len() == 0 {
        return Ok(None);
    }
    proof {
        assert(rows_view(rows@)[0] == row_view(rows@[0]));
    }
    match rows.remove(0) {
        Err(e) => Err(CoreError::Csv(e)),
        Ok(row) => Ok(Some(row_values(&headers, &row, columns))),
    }
}

/// The columns that hold what samples are made of.
#[derive(Debug, Clone, Copy)]
pub struct Columns {
    pub time: usize,
    pub depth: usize,
    pub temp: Option<usize>,
    pub pressure: Option<usize>,
    pub hr: Option<usize>,
}

pub open spec fn time_candidates() -> Seq<Seq<char>> {
    seq!["sample time (min)"@, "sample time"@, "time"@]
}

pub open spec fn depth_candidates() -> Seq<Seq<char>> {
    seq!["sample depth (m)"@, "sample depth"@, "depth"@]
}

pub open spec fn temp_candidates() -> Seq<Seq<char>> {
    seq!["sample temperature (c)"@, "sample temperature"@, "temperature"@]
}

pub open spec fn pressure_candidates() -> Seq<Seq<char>> {
    seq!["sample pressure (bar)"@, "sample pressure"@, "pressure"@]
}

pub open spec fn hr_candidates() -> Seq<Seq<char>> {
    seq!["sample heartrate"@, "sample heart rate"@, "heartrate"@, "heart rate"@]
}

/// The column for a key: the one that the column map names, which then has to
/// exist, else the one that candidates find.
pub open spec fn resolved(
    map: Map<Seq<char>, Seq<char>>,
    headers: Seq<Seq<char>>,
    key: Seq<char>,
    candidates: Seq<Seq<char>>,
) -> Result<Option<nat>, ErrorView> {
    if map.contains_key(key) && trim(map[key]).len() > 0 {
        match named_position(headers, trim(map[key])) {
            Some(i) => Ok(Some(i)),
            None => Err(ErrorView::ColumnNotFound(trim(map[key]))),
        }
    } else {
        Ok(find_column(headers, candidates))
    }
}

pub open spec fn index_outcome(r: Result<Option<usize>, CoreError>) -> Result<
    Option<nat>,
    ErrorView,
> {
    match r {
        Ok(i) => Ok(index_view(i)),
        Err(e) => Err(e@),
    }
}

fn resolve_column(map: &ColumnMap, headers: &Vec<String>, key: &str, candidates: &Vec<&str>) -> (r:
    Result<Option<usize>, CoreError>)
    ensures
        index_outcome(r) == resolved(map@, views(headers@), key@, str_views(candidates@)),
{
    match map.get(key) {
        Some(column) => {
            let name = trim_text(column.as_str());
            if chars_of(name.as_str()).len() > 0 {
                return match position_by_name(headers, name.as_str()) {
                    Some(i) => Ok(Some(i)),
                    None => Err(CoreError::ColumnNotFound(name)),
                };
            }
        },
        None => {},
    }
    Ok(find_column_index(headers.as_slice(), candidates.as_slice()))
}

/// The columns of a log. A column that the map names and that does not exist
/// comes before a missing column as an error.
pub open spec fn columns_of(
    headers: Seq<Seq<char>>,
    map: Map<Seq<char>, Seq<char>>,
) -> Result<(nat, nat, Option<nat>, Option<nat>, Option<nat>), ErrorView> {
    let time = resolved(map, headers, "time"@, time_candidates());
    let depth = resolved(map, headers, "depth"@, depth_candidates());
    let temp = resolved(map, headers, "temp"@, temp_candidates());
    let pressure = resolved(map, headers, "pressure"@, pressure_candidates());
    let hr = resolved(map, headers, "hr"@, hr_candidates());
    if time is Err {
        Err(time->Err_0)
    } else if depth is Err {
        Err(depth->Err_0)
    } else if temp is Err {
        Err(temp->Err_0)
    } else if pressure is Err {
        Err(pressure->Err_0)
    } else if hr is Err {
        Err(hr->Err_0)
    } else if time->Ok_0 is None {
        Err(ErrorView::MissingTimeColumn)
    } else if depth->Ok_0 is None {
        Err(ErrorView::MissingDepthColumn)
    } else {
        Ok((time->Ok_0->0, depth->Ok_0->0, temp->Ok_0, pressure->Ok_0, hr->Ok_0))
    }
}

impl View for Columns {
    type V = (nat, nat, Option<nat>, Option<nat>, Option<nat>);

    open spec fn view(&self) -> (nat, nat, Option<nat>, Option<nat>, Option<nat>) {
        (
            self.time as nat,
            self.depth as nat,
            index_view(self.temp),
            index_view(self.pressure),
            index_view(self.hr),
        )
    }
}

/// Finds the columns of a log.
pub fn resolve_columns(headers: &Vec<String>, map: &ColumnMap) -> (r: Result<Columns, CoreError>)
    ensures
        match r {
            Ok(c) => columns_of(views(headers@), map@) == Ok::<
                (nat, nat, Option<nat>, Option<nat>, Option<nat>),
                ErrorView,
            >(c@),
            Err(e) => columns_of(views(headers@), map@) == Err::<
                (nat, nat, Option<nat>, Option<nat>, Option<nat>),
                ErrorView,
            >(e@),
        },
{
    let times: Vec<&str> = vec!["sample time (min)", "sample time", "time"];
    let depths: Vec<&str> = vec!["sample depth (m)", "sample depth", "depth"];
    let temps: Vec<&str> = vec!["sample temperature (c)", "sample temperature", "temperature"];
    let pressures: Vec<&str> = vec!["sample pressure (bar)", "sample pressure", "pressure"];
    let rates: Vec<&str> = vec![
        "sample heartrate",
        "sample heart rate",
        "heartrate",
        "heart rate",
    ];
    proof {
        assert(str_views(times@) =~= time_candidates());
        assert(str_views(depths@) =~= depth_candidates());
        assert(str_views(temps@) =~= temp_candidates());
        assert(str_views(pressures@) =~= pressure_candidates());
        assert(str_views(rates@) =~= hr_candidates());
    }
    let time = match resolve_column(map, headers, "time", &times) {
        Ok(i) => i,
        Err(e) => {
            return Err(e);
        },
    };
    let depth = match resolve_column(map, headers, "depth", &depths) {
        Ok(i) => i,
        Err(e) => {
            return Err(e);
        },
    };
    let temp = match resolve_column(map, headers, "temp", &temps) {
        Ok(i) => i,
        Err(e) => {
            return Err(e);
        },
    };
    let pressure = match resolve_column(map, headers, "pressure", &pressures) {
        Ok(i) => i,
        Err(e) => {
            return Err(e);
        },
    };
    let hr = match resolve_column(map, headers, "hr", &rates) {
        Ok(i) => i,
        Err(e) => {
            return Err(e);
        },
    };
    match time {
        None => Err(CoreError::MissingTimeColumn),
        Some(time) => match depth {
            None => Err(CoreError::MissingDepthColumn),
            Some(depth) => Ok(Columns { time, depth, temp, pressure, hr }),
        },
    }
}

/// The number in a cell of a row; none where the row is too short.
pub open spec fn row_number(row: Seq<Seq<char>>, i: nat) -> Option<Real> {
    if i < row.len() {
        cell_number(row[i as int])
    } else {
        None
    }
}

pub open spec fn optional_number(row: Seq<Seq<char>>, i: Option<nat>) -> Option<Real> {
    match i {
        Some(i) => row_number(row, i),
        None => None,
    }
}

/// The sample in a row: none in a row without a time.
pub open spec fn row_sample(
    row: Seq<Seq<char>>,
    columns: (nat, nat, Option<nat>, Option<nat>, Option<nat>),
) -> Result<Option<DiveSample>, ErrorView> {
    let time = unquoted(cell(row, columns.0 as int));
    if time.len() == 0 {
        Ok(None)
    } else {
        match duration_of(time) {
            Err(e) => Err(e),
            Ok(elapsed_sec) => Ok(
                Some(
                    DiveSample {
                        elapsed_sec,
                        depth_m: row_number(row, columns.1),
                        temp_c: optional_number(row, columns.2),
                        pressure_bar: optional_number(row, columns.3),
                        heart_rate: optional_number(row, columns.4),
                    },
                ),
            ),
        }
    }
}

/// The samples in rows, in the order of the rows; the first bad row decides the
/// error.
pub open spec fn row_samples(
    rows: Seq<Option<Seq<Seq<char>>>>,
    columns: (nat, nat, Option<nat>, Option<nat>, Option<nat>),
) -> Result<Seq<DiveSample>, ErrorView>
    decreases rows.len(),
{
    if rows.len() == 0 {
        Ok(seq![])
    } else {
        match row_samples(rows.drop_last(), columns) {
            Err(e) => Err(e),
            Ok(samples) => match rows.last() {
                None => Err(ErrorView::Csv),
                Some(row) => match row_sample(row, columns) {
                    Err(e) => Err(e),
                    Ok(None) => Ok(samples),
                    Ok(Some(sample)) => Ok(samples.push(sample)),
                },
            },
        }
    }
}

fn number_at(row: &Vec<String>, i: Option<usize>) -> (r: Option<Real>)
    ensures
        r == optional_number(views(row@), index_view(i)),
{
    match i {
        Some(i) => if i < row.len() {
            parse_optional_float(Some(row[i].as_str()))
        } else {
            None
        },
        None => None,
    }
}

/// Reads the sample in a row.
pub fn parse_row(row: &Vec<String>, columns: Columns) -> (r: Result<Option<DiveSample>, CoreError>)
    ensures
        match r {
            Ok(s) => row_sample(views(row@), columns@) == Ok::<Option<DiveSample>, ErrorView>(s),
            Err(e) => row_sample(views(row@), columns@) == Err::<Option<DiveSample>, ErrorView>(e@),
        },
{
    let raw = cell_text(row, columns.time);
    let time = unquote(raw.as_str());
    if time.len() == 0 {
        return Ok(None);
    }
    match parse_duration_to_seconds(text_of(time.as_slice()).as_str()) {
        Err(e) => Err(e),
        Ok(elapsed_sec) => Ok(
            Some(
                DiveSample {
                    elapsed_sec,
                    depth_m: number_at(row, Some(columns.depth)),
                    temp_c: number_at(row, columns.temp),
                    pressure_bar: number_at(row, columns.pressure),
                    heart_rate: number_at(row, columns.hr),
                },
            ),
        ),
    }
}

proof fn lemma_rows_error(
    rows: Seq<Option<Seq<Seq<char>>>>,
    columns: (nat, nat, Option<nat>, Option<nat>, Option<nat>),
    i: int,
)
    requires
        0 <= i <= rows.len(),
        row_samples(rows.take(i), columns) is Err,
    ensures
        row_samples(rows, columns) == row_samples(rows.take(i), columns),
    decreases rows.len(),
{
    if i < rows.len() {
        assert(rows.drop_last().take(i) =~= rows.take(i));
        lemma_rows_error(rows.drop_last(), columns, i);
    } else {
        assert(rows.take(i) =~= rows);
    }
}

/// Reads the samples in rows.
pub fn parse_rows(rows: Vec<Result<Vec<String>, csv::Error>>, columns: Columns) -> (r: Result<
    Vec<DiveSample>,
    CoreError,
>)
    ensures
        list_outcome(r) == row_samples(rows_view(rows@), columns@),
{
    let ghost all = rows_view(rows@);
    let mut samples: Vec<DiveSample> = Vec::new();
    let ghost mut i: int = 0;
    for row in it: rows
        invariant
            it.seq() == rows@,
            all == rows_view(rows@),
            i == it.index(),
            row_samples(all.take(i), columns@) == Ok::<Seq<DiveSample>, ErrorView>(samples@),
    {
        proof {
            assert(all.take(i + 1).drop_last() =~= all.take(i));
            assert(all.take(i + 1).last() == row_view(row));
            if row_samples(all.take(i + 1), columns@) is Err {
                lemma_rows_error(all, columns@, i + 1);
            }
            i = i + 1;
        }
        match row {
            Err(e) => {
                return Err(CoreError::Csv(e));
            },
            Ok(cells) => match parse_row(&cells, columns) {
                Err(e) => {
                    return Err(e);
                },
                Ok(None) => {},
                Ok(Some(sample)) => samples.push(sample),
            },
        }
    }
    assert(all.take(i) =~= all);
    Ok(samples)
}

/// Samples in order of time with one more put in its place: after those that are
/// not later.
pub open spec fn with_sample(samples: Seq<DiveSample>, x: DiveSample) -> Seq<DiveSample>
    decreases samples.len(),
{
    if samples.len() == 0 || samples.last().elapsed_sec.at_most(x.elapsed_sec) {
        samples.push(x)
    } else {
        with_sample(samples.drop_last(), x).push(samples.last())
    }
}

/// Samples in order of time; those at the same time keep their order.
pub open spec fn by_time(samples: Seq<DiveSample>) -> Seq<DiveSample>
    decreases samples.len(),
{
    if samples.len() == 0 {
        seq![]
    } else {
        with_sample(by_time(samples.drop_last()), samples.last())
    }
}

/// Whether samples can be put in order of time: no two of them can stand beside
/// a time that is no number.
pub open spec fn sortable(samples: Seq<DiveSample>) -> bool {
    samples.len() >= 2 ==> forall|i: int|
        0 <= i < samples.len() ==> !(#[trigger] samples[i]).elapsed_sec.nan()
}

fn insert_sample(samples: &mut Vec<DiveSample>, x: DiveSample)
    ensures
        final(samples)@ == with_sample(old(samples)@, x),
{
    let ghost s = samples@;
    let mut at: usize = samples.len();
    proof {
        assert(s.take(at as int) =~= s);
        assert(with_sample(s, x) =~= with_sample(s, x) + s.skip(at as int));
    }
    while at > 0 && !samples[at - 1].elapsed_sec.le(x.elapsed_sec)
        invariant
            at <= samples.len(),
            s == samples@,
            with_sample(s, x) == with_sample(s.take(at as int), x) + s.skip(at as int),
        decreases at,
    {
        proof {
            let t = s.take(at as int);
            assert(t.drop_last() =~= s.take(at - 1));
            assert(with_sample(t, x) + s.skip(at as int) =~= with_sample(s.take(at - 1), x)
                + s.skip(at - 1));
        }
        at -= 1;
    }
    proof {
        assert(s.insert(at as int, x) =~= s.take(at as int).push(x) + s.skip(at as int));
    }
    samples.insert(at, x);
}

/// Puts samples in order of time.
pub fn sort_samples(samples: &Vec<DiveSample>) -> (r: Vec<DiveSample>)
    requires
        sortable(samples@),
    ensures
        r@ == by_time(samples@),
{
    let mut r: Vec<DiveSample> = Vec::new();
    let mut i: usize = 0;
    while i < samples.len()
        invariant
            i <= samples.len(),
            r@ == by_time(samples@.take(i as int)),
        decreases samples.len() - i,
    {
        proof {
            assert(samples@.take(i + 1).drop_last() =~= samples@.take(i as int));
        }
        insert_sample(&mut r, samples[i]);
        i += 1;
    }
    assert(samples@.take(i as int) =~= samples@);
    r
}

/// The times of samples.
pub open spec fn times_of(samples: Seq<DiveSample>) -> Seq<Real> {
    samples.map_values(|s: DiveSample| s.elapsed_sec)
}

/// Sorting keeps every sample.
pub proof fn law_sorting_keeps_samples(samples: Seq<DiveSample>)
    ensures
        by_time(samples).to_multiset() == samples.to_multiset(),
        by_time(samples).len() == samples.len(),
    decreases samples.len(),
{
    if samples.len() > 0 {
        let rest = samples.drop_last();
        law_sorting_keeps_samples(rest);
        lemma_with_sample_keeps(by_time(rest), samples.last());
        assert(samples =~= rest.push(samples.last()));
        rest.to_multiset_ensures();
        by_time(rest).to_multiset_ensures();
    } else {
        assert(by_time(samples) =~= samples);
    }
}

proof fn lemma_with_sample_keeps(samples: Seq<DiveSample>, x: DiveSample)
    ensures
        with_sample(samples, x).to_multiset() == samples.push(x).to_multiset(),
        with_sample(samples, x).len() == samples.len() + 1,
    decreases samples.len(),
{
    if samples.len() > 0 && !samples.last().elapsed_sec.at_most(x.elapsed_sec) {
        let rest = samples.drop_last();
        lemma_with_sample_keeps(rest, x);
        with_sample(rest, x).to_multiset_ensures();
        rest.to_multiset_ensures();
        rest.push(x).to_multiset_ensures();
        samples.to_multiset_ensures();
        assert(samples =~= rest.push(samples.last()));
    }
}

/// Sorted samples are in ascending order of time.
pub proof fn law_sorting_orders_samples(samples: Seq<DiveSample>)
    requires
        forall|i: int| 0 <= i < samples.len() ==> !(#[trigger] samples[i]).elapsed_sec.nan(),
    ensures
        ascending(times_of(by_time(samples))),
    decreases samples.len(),
{
    if samples.len() > 0 {
        law_sorting_orders_samples(samples.drop_last());
        lemma_with_sample_orders(by_time(samples.drop_last()), samples.last());
    }
}

proof fn lemma_with_sample_orders(samples: Seq<DiveSample>, x: DiveSample)
    requires
        ascending(times_of(samples)),
        !x.elapsed_sec.nan(),
    ensures
        ascending(times_of(with_sample(samples, x))),
        forall|m: Real|
            (samples.len() > 0 ==> samples.last().elapsed_sec.at_most(m)) && x.elapsed_sec.at_most(m)
                ==> with_sample(samples, x).last().elapsed_sec.at_most(m),
        with_sample(samples, x).len() > 0,
    decreases samples.len(),
{
    let r = with_sample(samples, x);
    let t = times_of(samples);
    if samples.len() == 0 || samples.last().elapsed_sec.at_most(x.elapsed_sec) {
        assert(times_of(r) =~= t.push(x.elapsed_sec));
        assert forall|i: int, j: int| 0 <= i < j < r.len() implies times_of(r)[i].at_most(
            times_of(r)[j],
        ) by {
            if j == r.len() - 1 {
                assert(t[i].at_most(t[t.len() - 1]) || i == t.len() - 1);
            } else {
                assert(t[i].at_most(t[j]));
            }
        }
        assert forall|i: int| 0 <= i < r.len() implies !(#[trigger] times_of(r)[i]).nan() by {
            if i < t.len() {
                assert(!t[i].nan());
            }
        }
    } else {
        let rest = samples.drop_last();
        let tr = times_of(rest);
        assert(tr =~= t.drop_last());
        assert(ascending(tr)) by {
            assert forall|i: int, j: int| 0 <= i < j < tr.len() implies tr[i].at_most(tr[j]) by {
                assert(t[i].at_most(t[j]));
            }
            assert forall|i: int| 0 <= i < tr.len() implies !(#[trigger] tr[i]).nan() by {
                assert(!t[i].nan());
            }
        }
        lemma_with_sample_orders(rest, x);
        let inner = with_sample(rest, x);
        let ti = times_of(inner);
        let last = samples.last().elapsed_sec;
        assert(times_of(r) =~= ti.push(last));
        assert(t[t.len() - 1] == last);
        assert(!last.nan());
        if rest.len() > 0 {
            assert(t[t.len() - 2].at_most(last));
            assert(rest.last().elapsed_sec == t[t.len() - 2]);
        }
        assert(x.elapsed_sec.at_most(last));
        assert(inner.last().elapsed_sec.at_most(last));
        assert(ti[ti.len() - 1] == inner.last().elapsed_sec);
        assert forall|i: int, j: int| 0 <= i < j < r.len() implies times_of(r)[i].at_most(
            times_of(r)[j],
        ) by {
            if j == r.len() - 1 {
                assert(ti[i].at_most(ti[ti.len() - 1]) || i == ti.len() - 1);
            } else {
                assert(ti[i].at_most(ti[j]));
            }
        }
        assert forall|i: int| 0 <= i < r.len() implies !(#[trigger] times_of(r)[i]).nan() by {
            if i < ti.len() {
                assert(!ti[i].nan());
            }
        }
    }
}

/// The samples of a log: those of its rows in order of time, at least one.
pub open spec fn table_samples(
    headers: Seq<Seq<char>>,
    rows: Seq<Option<Seq<Seq<char>>>>,
    map: Map<Seq<char>, Seq<char>>,
) -> Result<Seq<DiveSample>, ErrorView> {
    match columns_of(headers, map) {
        Err(e) => Err(e),
        Ok(columns) => match row_samples(rows, columns) {
            Err(e) => Err(e),
            Ok(samples) => if samples.len() == 0 {
                Err(ErrorView::NoSamples)
            } else {
                Ok(by_time(samples))
            },
        },
    }
}

/// Whether the times of a log can be put in order.
pub open spec fn table_sortable(
    headers: Seq<Seq<char>>,
    rows: Seq<Option<Seq<Seq<char>>>>,
    map: Map<Seq<char>, Seq<char>>,
) -> bool {
    match columns_of(headers, map) {
        Err(e) => true,
        Ok(columns) => match row_samples(rows, columns) {
            Err(e) => true,
            Ok(samples) => sortable(samples),
        },
    }
}

/// The samples of a log whose column names and rows have been read.
pub fn samples_from_rows(
    headers: &Vec<String>,
    rows: Vec<Result<Vec<String>, csv::Error>>,
    column_map: &ColumnMap,
) -> (r: Result<Vec<DiveSample>, CoreError>)
    requires
        table_sortable(views(headers@), rows_view(rows@), column_map@),
    ensures
        list_outcome(r) == table_samples(views(headers@), rows_view(rows@), column_map@),
{
    let columns = match resolve_columns(headers, column_map) {
        Err(e) => {
            return Err(e);
        },
        Ok(columns) => columns,
    };
    let samples = match parse_rows(rows, columns) {
        Err(e) => {
            return Err(e);
        },
        Ok(samples) => samples,
    };
    if samples.len() == 0 {
        return Err(CoreError::NoSamples);
    }
    Ok(sort_samples(&samples))
}

/// The samples of a log.
pub open spec fn samples_of(bytes: Seq<u8>, map: Map<Seq<char>, Seq<char>>) -> Result<
    Seq<DiveSample>,
    ErrorView,
> {
    match headers_of(bytes) {
        Err(e) => Err(e),
        Ok(headers) => table_samples(headers, csv_records_of(without_bom(bytes)), map),
    }
}

/// Whether the times of a log can be put in order.
pub open spec fn log_sortable(bytes: Seq<u8>, map: Map<Seq<char>, Seq<char>>) -> bool {
    match headers_of(bytes) {
        Err(e) => true,
        Ok(headers) => table_sortable(headers, csv_records_of(without_bom(bytes)), map),
    }
}

/// Reads the samples of a log in order of time.
pub fn load_samples(bytes: &[u8], column_map: &ColumnMap) -> (r: Result<Vec<DiveSample>, CoreError>)
    requires
        log_sortable(bytes@, column_map@),
    ensures
        list_outcome(r) == samples_of(bytes@, column_map@),
{
    match read_csv_headers(bytes) {
        Err(e) => Err(e),
        Ok(headers) => {
            let rows = csv_records(strip_bom(bytes));
            samples_from_rows(&headers, rows, column_map)
        },
    }
}

/// Two or more samples of a log that has an order come out in ascending order
/// of time.
pub proof fn law_loaded_samples_ascend(bytes: Seq<u8>, map: Map<Seq<char>, Seq<char>>)
    requires
        log_sortable(bytes, map),
        samples_of(bytes, map) is Ok,
        samples_of(bytes, map)->Ok_0.len() >= 2,
    ensures
        ascending(times_of(samples_of(bytes, map)->Ok_0)),
{
    let headers = headers_of(bytes)->Ok_0;
    let columns = columns_of(headers, map)->Ok_0;
    let samples = row_samples(csv_records_of(without_bom(bytes)), columns)->Ok_0;
    law_sorting_keeps_samples(samples);
    law_sorting_orders_samples(samples);
}

/// The times of samples.
pub fn sample_times(samples: &Vec<DiveSample>) -> (r: Vec<Real>)
    ensures
        r@ == times_of(samples@),
{
    let mut r: Vec<Real> = Vec::new();
    let mut i: usize = 0;
    while i < samples.len()
        invariant
            i <= samples.len(),
            r.len() == i,
            forall|k: int| 0 <= k < i ==> r@[k] == samples@[k].elapsed_sec,
        decreases samples.len() - i,
    {
        r.push(samples[i].elapsed_sec);
        i += 1;
    }
    assert(r@ =~= times_of(samples@));
    r
}

fn is_sortable(samples: &Vec<DiveSample>) -> (r: bool)
    ensures
        r == sortable(samples@),
{
    if samples.len() < 2 {
        return true;
    }
    let mut i: usize = 0;
    while i < samples.len()
        invariant
            i <= samples.len(),
            samples.len() >= 2,
            forall|k: int| 0 <= k < i ==> !(#[trigger] samples@[k]).elapsed_sec.nan(),
        decreases samples.len() - i,
    {
        if samples[i].elapsed_sec.is_nan() {
            assert(samples@[i as int].elapsed_sec.nan());
            return false;
        }
        i += 1;
    }
    true
}

/// Reads the samples of a log in order of time; `None` where it has two or more
/// samples of which one has no number for its time, so that there is no order.
pub fn load_samples_checked(bytes: &[u8], column_map: &ColumnMap) -> (r: Option<
    Result<Vec<DiveSample>, CoreError>,
>)
    ensures
        match r {
            None => !log_sortable(bytes@, column_map@),
            Some(r) => log_sortable(bytes@, column_map@) && list_outcome(r) == samples_of(
                bytes@,
                column_map@,
            ),
        },
{
    match read_csv_headers(bytes) {
        Err(e) => {},
        Ok(headers) => match resolve_columns(&headers, column_map) {
            Err(e) => {},
            Ok(columns) => {
                let rows = csv_records(strip_bom(bytes));
                match parse_rows(rows, columns) {
                    Err(e) => {},
                    Ok(samples) => {
                        if !is_sortable(&samples) {
                            return None;
                        }
                    },
                }
            },
        },
    }
    Some(load_samples(bytes, column_map))
}

} // verus!
