//! Dive logs in CSV: durations, columns and samples.

use vstd::prelude::*;

use crate::binary64::{clip_i64, Real};
use crate::error::{prefixed, CoreError, ErrorView};
use crate::model::{field_named, Field, ALLOWED_FIELD_NAMES};
use crate::number_text::number_of;
use crate::numeral::{parse_signed, push_padded, signed_of};
use crate::text_map::TextMap;
use crate::text::{
    chars_of, contains_chars, contains_text, find, find_char, join, join_texts, lemma_find,
    lemma_position_found, lower, lower_text, padded, part, position_of, replace_char, replace_chars,
    same_chars, same_text, split, split_chars, str_views, text_of, texts, trim, trim_chars, unquote,
    unquoted, views,
};

verus! {

/// The keys of a column map.
pub const COLUMN_MAP_KEYS: [&'static str; 7] = [
    "time",
    "depth",
    "temp",
    "pressure",
    "hr",
    "date",
    "clock",
];

/// The number of seconds that a text stands for: seconds, or minutes and
/// seconds, or hours, minutes and seconds.
pub open spec fn duration_of(s: Seq<char>) -> Result<Real, ErrorView> {
    let v = trim(s);
    let parts = split(v, ':');
    let unknown = ErrorView::InvalidDuration("Unknown time format: "@ + v);
    if v.len() == 0 {
        Err(ErrorView::InvalidDuration("Empty time value"@))
    } else if !v.contains(':') {
        match number_of(v) {
            Some(x) => Ok(x),
            None => Err(ErrorView::InvalidDuration(v)),
        }
    } else if parts.len() == 2 {
        match (signed_of(parts[0]), number_of(parts[1])) {
            (Some(m), Some(s)) => Ok(Real::of_int(m).product(Real::of_int(60)).sum(s)),
            _ => Err(unknown),
        }
    } else if parts.len() == 3 {
        match (signed_of(parts[0]), signed_of(parts[1]), number_of(parts[2])) {
            (Some(h), Some(m), Some(s)) => Ok(
                Real::of_int(h).product(Real::of_int(3600)).sum(
                    Real::of_int(m).product(Real::of_int(60)),
                ).sum(s),
            ),
            _ => Err(unknown),
        }
    } else {
        Err(unknown)
    }
}

/// What an outcome says, over views.
pub open spec fn outcome<T>(r: Result<T, CoreError>) -> Result<T, ErrorView> {
    match r {
        Ok(v) => Ok(v),
        Err(e) => Err(e@),
    }
}

pub fn parse_duration_to_seconds(value: &str) -> (r: Result<Real, CoreError>)
    ensures
        outcome(r) == duration_of(value@),
{
    let all = chars_of(value);
    let v = trim_chars(all.as_slice());
    if v.len() == 0 {
        return Err(CoreError::InvalidDuration("Empty time value".to_owned()));
    }
    proof {
        lemma_find(v@, ':');
        assert(v@.skip(0) =~= v@);
    }
    if find_char(v.as_slice(), 0, ':') == v.len() {
        return match Real::parse(v.as_slice()) {
            Some(x) => Ok(x),
            None => Err(CoreError::InvalidDuration(text_of(v.as_slice()))),
        };
    }
    let parts = split_chars(v.as_slice(), ':');
    proof {
        assert(texts(parts@).len() == parts.len());
    }
    if parts.len() == 2 {
        proof {
            assert(texts(parts@)[0] == parts[0]@ && texts(parts@)[1] == parts[1]@);
        }
        match (parse_signed(parts[0].as_slice()), Real::parse(parts[1].as_slice())) {
            (Some(m), Some(s)) => {
                return Ok(Real::from_i64(m).times(Real::from_i64(60)).plus(s));
            },
            _ => {},
        }
    } else if parts.len() == 3 {
        proof {
            assert(texts(parts@)[0] == parts[0]@ && texts(parts@)[1] == parts[1]@
                && texts(parts@)[2] == parts[2]@);
        }
        match (
            parse_signed(parts[0].as_slice()),
            parse_signed(parts[1].as_slice()),
            Real::parse(parts[2].as_slice()),
        ) {
            (Some(h), Some(m), Some(s)) => {
                return Ok(
                    Real::from_i64(h).times(Real::from_i64(3600)).plus(
                        Real::from_i64(m).times(Real::from_i64(60)),
                    ).plus(s),
                );
            },
            _ => {},
        }
    }
    Err(CoreError::InvalidDuration(prefixed("Unknown time format: ", text_of(v.as_slice()).as_str())))
}

/// A whole number of seconds as a clock reads it.
pub open spec fn clock_text(total: nat) -> Seq<char> {
    let minutes = padded((total % 3600) / 60, 2) + ":"@ + padded(total % 60, 2);
    if total >= 3600 {
        padded(total / 3600, 2) + ":"@ + minutes
    } else {
        minutes
    }
}

/// The nearest whole number of seconds that is not negative.
pub open spec fn whole_seconds(seconds: Real) -> nat {
    if clip_i64(seconds.rounded()) < 0 {
        0
    } else {
        clip_i64(seconds.rounded()) as nat
    }
}

pub fn format_duration(seconds: Real) -> (r: String)
    ensures
        r@ == clock_text(whole_seconds(seconds)),
{
    let rounded: i64 = seconds.round_i64();
    let total: u64 = if rounded < 0 {
        0
    } else {
        rounded as u64
    };
    let hours: u64 = total / 3600;
    let mut r = String::new();
    if hours > 0 {
        push_padded(&mut r, hours, 2);
        r.push_str(":");
    }
    push_padded(&mut r, (total % 3600) / 60, 2);
    r.push_str(":");
    push_padded(&mut r, total % 60, 2);
    assert(r@ =~= clock_text(total as nat));
    r
}

/// The number in a cell: white space and quotation marks around it do not count,
/// and a comma may stand for the point.
pub open spec fn cell_number(cell: Seq<char>) -> Option<Real> {
    let text = unquoted(cell);
    if text.len() == 0 {
        None
    } else {
        number_of(replace_char(text, ',', "."@))
    }
}

pub fn parse_optional_float(value: Option<&str>) -> (r: Option<Real>)
    ensures
        r == match value {
            Some(t) => cell_number(t@),
            None => None,
        },
{
    match value {
        None => None,
        Some(t) => {
            let text = unquote(t);
            if text.len() == 0 {
                None
            } else {
                let point = chars_of(".");
                let plain = replace_chars(text.as_slice(), ',', point.as_slice());
                Real::parse(plain.as_slice())
            }
        },
    }
}

/// A column's name as it is compared: in lower case, without white space around it.
pub open spec fn column_key(header: Seq<char>) -> Seq<char> {
    trim(lower(header))
}

pub open spec fn column_keys(headers: Seq<Seq<char>>) -> Seq<Seq<char>> {
    headers.map_values(|h: Seq<char>| column_key(h))
}

/// The first column that is named exactly like a candidate, the candidates
/// tried in their order.
pub open spec fn exact_column(keys: Seq<Seq<char>>, candidates: Seq<Seq<char>>) -> Option<nat>
    decreases candidates.len(),
{
    if candidates.len() == 0 {
        None
    } else if position_of(keys, candidates[0]) < keys.len() {
        Some(position_of(keys, candidates[0]))
    } else {
        exact_column(keys, candidates.skip(1))
    }
}

/// Whether a column's name holds one of the candidates.
pub open spec fn holds_candidate(key: Seq<char>, candidates: Seq<Seq<char>>) -> bool {
    exists|j: int| 0 <= j < candidates.len() && contains_text(key, #[trigger] candidates[j])
}

/// The first column whose name holds a candidate.
pub open spec fn partial_column(keys: Seq<Seq<char>>, candidates: Seq<Seq<char>>) -> Option<nat>
    decreases keys.len(),
{
    if keys.len() == 0 {
        None
    } else if holds_candidate(keys[0], candidates) {
        Some(0)
    } else {
        match partial_column(keys.skip(1), candidates) {
            Some(i) => Some(i + 1),
            None => None,
        }
    }
}

/// The column that a list of candidates finds: one named exactly so before one
/// whose name only holds a candidate.
pub open spec fn find_column(headers: Seq<Seq<char>>, candidates: Seq<Seq<char>>) -> Option<nat> {
    let keys = column_keys(headers);
    match exact_column(keys, candidates) {
        Some(i) => Some(i),
        None => partial_column(keys, candidates),
    }
}

/// An optional index as a number.
pub open spec fn index_view(i: Option<usize>) -> Option<nat> {
    match i {
        Some(i) => Some(i as nat),
        None => None,
    }
}

fn normalized_headers(headers: &[String]) -> (r: Vec<Vec<char>>)
    ensures
        texts(r@) == column_keys(views(headers@)),
{
    let mut r: Vec<Vec<char>> = Vec::new();
    let mut i: usize = 0;
    while i < headers.len()
        invariant
            i <= headers.len(),
            r.len() == i,
            forall|k: int| 0 <= k < i ==> (#[trigger] r@[k])@ == column_key(headers@[k]@),
        decreases headers.len() - i,
    {
        let low = lower_text(headers[i].as_str());
        let v = chars_of(low.as_str());
        r.push(trim_chars(v.as_slice()));
        i += 1;
    }
    assert(texts(r@) =~= column_keys(views(headers@)));
    r
}

/// The position of a text in a list, or the length of the list.
fn position(list: &Vec<Vec<char>>, t: &[char]) -> (r: usize)
    ensures
        r == position_of(texts(list@), t@),
{
    let mut i: usize = 0;
    while i < list.len()
        invariant
            i <= list.len(),
            forall|k: int| 0 <= k < i ==> #[trigger] texts(list@)[k] != t@,
        decreases list.len() - i,
    {
        if same_chars(list[i].as_slice(), t) {
            proof {
                lemma_position_found(texts(list@), t@, i as int);
            }
            return i;
        }
        i += 1;
    }
    proof {
        lemma_position_found(texts(list@), t@, i as int);
    }
    i
}

/// Whether a name holds one of the candidates.
fn contains_any(key: &[char], candidates: &[&str]) -> (r: bool)
    ensures
        r == holds_candidate(key@, str_views(candidates@)),
{
    let ghost cs = str_views(candidates@);
    let mut k: usize = 0;
    while k < candidates.len()
        invariant
            k <= candidates.len(),
            cs == str_views(candidates@),
            forall|m: int| 0 <= m < k ==> !contains_text(key@, #[trigger] cs[m]),
        decreases candidates.len() - k,
    {
        let c = chars_of(candidates[k]);
        proof {
            assert(cs[k as int] == c@);
        }
        if contains_chars(key, c.as_slice()) {
            return true;
        }
        k += 1;
    }
    false
}

/// Finds a column: first one that is named exactly like a candidate, the
/// candidates tried in their order, then the first one whose name holds a
/// candidate.
pub fn find_column_index(headers: &[String], candidates: &[&str]) -> (r: Option<usize>)
    ensures
        index_view(r) == find_column(views(headers@), str_views(candidates@)),
{
    let keys = normalized_headers(headers);
    let ghost ks = texts(keys@);
    let ghost cs = str_views(candidates@);
    let mut j: usize = 0;
    proof {
        assert(cs.skip(0) =~= cs);
        assert(ks.len() == keys.len());
    }
    while j < candidates.len()
        invariant
            j <= candidates.len(),
            cs == str_views(candidates@),
            ks == texts(keys@),
            ks.len() == keys.len(),
            ks == column_keys(views(headers@)),
            exact_column(ks, cs) == exact_column(ks, cs.skip(j as int)),
        decreases candidates.len() - j,
    {
        let c = chars_of(candidates[j]);
        let at: usize = position(&keys, c.as_slice());
        proof {
            assert(cs.skip(j as int)[0] == c@);
            assert(cs.skip(j as int).skip(1) =~= cs.skip(j + 1));
        }
        if at < keys.len() {
            return Some(at);
        }
        j += 1;
    }
    let mut i: usize = 0;
    proof {
        assert(ks.skip(0) =~= ks);
        assert(exact_column(ks, cs).is_none());
    }
    while i < keys.len()
        invariant
            i <= keys.len(),
            cs == str_views(candidates@),
            ks == texts(keys@),
            ks == column_keys(views(headers@)),
            exact_column(ks, cs).is_none(),
            match partial_column(ks.skip(i as int), cs) {
                Some(k) => partial_column(ks, cs) == Some(k + i as nat),
                None => partial_column(ks, cs).is_none(),
            },
        decreases keys.len() - i,
    {
        proof {
            assert(ks.skip(i as int)[0] == keys@[i as int]@);
            assert(ks.skip(i as int).skip(1) =~= ks.skip(i + 1));
        }
        if contains_any(keys[i].as_slice(), candidates) {
            return Some(i);
        }
        i += 1;
    }
    None
}

/// An exact name is found wherever it stands: a column that is named like the
/// first candidate is found before one that only holds a candidate.
pub proof fn law_exact_column_first(headers: Seq<Seq<char>>, candidates: Seq<Seq<char>>, i: int)
    requires
        candidates.len() > 0,
        0 <= i < headers.len(),
        column_key(headers[i]) == candidates[0],
        forall|j: int| 0 <= j < i ==> column_key(#[trigger] headers[j]) != candidates[0],
    ensures
        find_column(headers, candidates) == Some(i as nat),
{
    let keys = column_keys(headers);
    assert forall|j: int| 0 <= j < i implies keys[j] != candidates[0] by {
        assert(keys[j] == column_key(headers[j]));
    }
    lemma_position_found(keys, candidates[0], i);
}

/// The names in a list of names that are not empty, each in lower case and
/// without white space around it.
pub open spec fn listed_names(pieces: Seq<Seq<char>>) -> Seq<Seq<char>>
    decreases pieces.len(),
{
    if pieces.len() == 0 {
        seq![]
    } else {
        let name = lower(trim(pieces.last()));
        if name.len() == 0 {
            listed_names(pieces.drop_last())
        } else {
            listed_names(pieces.drop_last()).push(name)
        }
    }
}

/// The fields among names.
pub open spec fn known_fields(names: Seq<Seq<char>>) -> Seq<Field>
    decreases names.len(),
{
    if names.len() == 0 {
        seq![]
    } else {
        match field_named(names.last()) {
            Some(f) => known_fields(names.drop_last()).push(f),
            None => known_fields(names.drop_last()),
        }
    }
}

/// The names that are no field's.
pub open spec fn unknown_names(names: Seq<Seq<char>>) -> Seq<Seq<char>>
    decreases names.len(),
{
    if names.len() == 0 {
        seq![]
    } else {
        match field_named(names.last()) {
            Some(f) => unknown_names(names.drop_last()),
            None => unknown_names(names.drop_last()).push(names.last()),
        }
    }
}

/// The fields that a list separated by commas names.
pub open spec fn fields_of(s: Seq<char>) -> Result<Seq<Field>, ErrorView> {
    let names = listed_names(split(s, ','));
    let unknown = unknown_names(names);
    if names.len() == 0 {
        Err(ErrorView::InvalidFields("--fields must not be empty"@))
    } else if unknown.len() > 0 {
        Err(
            ErrorView::InvalidFields(
                "Unknown fields in --fields: "@ + join(unknown, ", "@) + ". Allowed: "@ + join(
                    str_views(ALLOWED_FIELD_NAMES@),
                    ", "@,
                ),
            ),
        )
    } else {
        Ok(known_fields(names))
    }
}

/// What an outcome that is a list says, over views.
pub open spec fn list_outcome<T>(r: Result<Vec<T>, CoreError>) -> Result<Seq<T>, ErrorView> {
    match r {
        Ok(v) => Ok(v@),
        Err(e) => Err(e@),
    }
}

fn allowed_names() -> (r: String)
    ensures
        r@ == join(str_views(ALLOWED_FIELD_NAMES@), ", "@),
{
    let mut names: Vec<String> = Vec::new();
    let mut i: usize = 0;
    while i < ALLOWED_FIELD_NAMES.len()
        invariant
            i <= 5,
            ALLOWED_FIELD_NAMES@.len() == 5,
            names.len() == i,
            forall|k: int| 0 <= k < i ==> (#[trigger] names@[k])@ == ALLOWED_FIELD_NAMES@[k]@,
        decreases 5 - i,
    {
        names.push(ALLOWED_FIELD_NAMES[i].to_owned());
        i += 1;
    }
    assert(views(names@) =~= str_views(ALLOWED_FIELD_NAMES@));
    join_texts(&names, ", ")
}

pub fn parse_fields(value: &str) -> (r: Result<Vec<Field>, CoreError>)
    ensures
        list_outcome(r) == fields_of(value@),
{
    let v = chars_of(value);
    let pieces = split_chars(v.as_slice(), ',');
    let ghost ps = texts(pieces@);
    let mut fields: Vec<Field> = Vec::new();
    let mut unknown: Vec<String> = Vec::new();
    let mut any = false;
    let mut i: usize = 0;
    while i < pieces.len()
        invariant
            i <= pieces.len(),
            ps == texts(pieces@),
            any == (listed_names(ps.take(i as int)).len() > 0),
            fields@ == known_fields(listed_names(ps.take(i as int))),
            views(unknown@) == unknown_names(listed_names(ps.take(i as int))),
        decreases pieces.len() - i,
    {
        let t = trim_chars(pieces[i].as_slice());
        let name = lower_text(text_of(t.as_slice()).as_str());
        let ghost before = listed_names(ps.take(i as int));
        proof {
            assert(ps.take(i + 1).drop_last() =~= ps.take(i as int));
            assert(ps.take(i + 1).last() == pieces@[i as int]@);
        }
        if chars_of(name.as_str()).len() > 0 {
            any = true;
            proof {
                assert(before.push(name@).drop_last() =~= before);
            }
            match Field::parse(name.as_str()) {
                Some(f) => fields.push(f),
                None => {
                    let ghost u = unknown@;
                    unknown.push(name);
                    assert(views(unknown@) =~= views(u).push(name@));
                },
            }
        }
        i += 1;
    }
    assert(ps.take(i as int) =~= ps);
    if !any {
        return Err(CoreError::InvalidFields("--fields must not be empty".to_owned()));
    }
    assert(views(unknown@).len() == unknown.len());
    if unknown.len() > 0 {
        let mut m = prefixed("Unknown fields in --fields: ", join_texts(&unknown, ", ").as_str());
        m.push_str(". Allowed: ");
        m.push_str(allowed_names().as_str());
        return Err(CoreError::InvalidFields(m));
    }
    Ok(fields)
}

/// Which column holds what: names of columns by key.
pub type ColumnMap = TextMap;

pub open spec fn is_column_key(key: Seq<char>) -> bool {
    str_views(COLUMN_MAP_KEYS@).contains(key)
}

/// A column map with one more entry, written `key=column`.
pub open spec fn with_entry(
    map: Map<Seq<char>, Seq<char>>,
    entry: Seq<char>,
) -> Result<Map<Seq<char>, Seq<char>>, ErrorView> {
    let at = find(entry, '=') as int;
    let key = trim(entry.take(at));
    let column = trim(entry.skip(at + 1));
    if at >= entry.len() {
        Err(
            ErrorView::InvalidColumnMap(
                "--column-map format: key=ColumnName, e.g. time=TIME,depth=Depth"@,
            ),
        )
    } else if !is_column_key(key) {
        Err(ErrorView::InvalidColumnMap("Unknown column-map key: "@ + key))
    } else if column.len() == 0 {
        Err(ErrorView::InvalidColumnMap("Column name in --column-map must not be empty"@))
    } else {
        Ok(map.insert(key, column))
    }
}

/// The column map that a list of entries makes; the first bad entry decides the
/// error.
pub open spec fn entries_of(pieces: Seq<Seq<char>>) -> Result<
    Map<Seq<char>, Seq<char>>,
    ErrorView,
>
    decreases pieces.len(),
{
    if pieces.len() == 0 {
        Ok(Map::empty())
    } else {
        match entries_of(pieces.drop_last()) {
            Err(e) => Err(e),
            Ok(map) => if trim(pieces.last()).len() == 0 {
                Ok(map)
            } else {
                with_entry(map, trim(pieces.last()))
            },
        }
    }
}

/// The column map that a text stands for.
pub open spec fn column_map_of(s: Seq<char>) -> Result<Map<Seq<char>, Seq<char>>, ErrorView> {
    if trim(s).len() == 0 {
        Ok(Map::empty())
    } else {
        entries_of(split(trim(s), ','))
    }
}

/// What an outcome that is a column map says, over views.
pub open spec fn map_outcome(r: Result<ColumnMap, CoreError>) -> Result<
    Map<Seq<char>, Seq<char>>,
    ErrorView,
> {
    match r {
        Ok(m) => Ok(m@),
        Err(e) => Err(e@),
    }
}

fn known_column_key(key: &str) -> (r: bool)
    ensures
        r == is_column_key(key@),
{
    let ghost all = str_views(COLUMN_MAP_KEYS@);
    let mut i: usize = 0;
    while i < COLUMN_MAP_KEYS.len()
        invariant
            i <= 7,
            COLUMN_MAP_KEYS@.len() == 7,
            all == str_views(COLUMN_MAP_KEYS@),
            forall|k: int| 0 <= k < i ==> #[trigger] all[k] != key@,
        decreases 7 - i,
    {
        if same_text(COLUMN_MAP_KEYS[i], key) {
            assert(all[i as int] == key@);
            return true;
        }
        assert(all[i as int] != key@);
        i += 1;
    }
    false
}

/// The first bad entry decides the error of the whole list.
proof fn lemma_entries_error(pieces: Seq<Seq<char>>, i: int)
    requires
        0 <= i <= pieces.len(),
        entries_of(pieces.take(i)).is_err(),
    ensures
        entries_of(pieces) == entries_of(pieces.take(i)),
    decreases pieces.len(),
{
    if i < pieces.len() {
        assert(pieces.drop_last().take(i) =~= pieces.take(i));
        lemma_entries_error(pieces.drop_last(), i);
    } else {
        assert(pieces.take(i) =~= pieces);
    }
}

pub fn parse_column_map(value: &str) -> (r: Result<ColumnMap, CoreError>)
    ensures
        map_outcome(r) == column_map_of(value@),
{
    let mut mapping = ColumnMap::new();
    let all = chars_of(value);
    let v = trim_chars(all.as_slice());
    if v.len() == 0 {
        return Ok(mapping);
    }
    let pieces = split_chars(v.as_slice(), ',');
    let ghost ps = texts(pieces@);
    let mut i: usize = 0;
    while i < pieces.len()
        invariant
            i <= pieces.len(),
            ps == texts(pieces@),
            ps == split(trim(value@), ','),
            trim(value@).len() > 0,
            entries_of(ps.take(i as int)) == Ok::<Map<Seq<char>, Seq<char>>, ErrorView>(mapping@),
        decreases pieces.len() - i,
    {
        let entry = trim_chars(pieces[i].as_slice());
        proof {
            assert(ps.take(i + 1).drop_last() =~= ps.take(i as int));
            assert(ps.take(i + 1).last() == pieces@[i as int]@);
            if entries_of(ps.take(i + 1)).is_err() {
                lemma_entries_error(ps, i + 1);
            }
        }
        if entry.len() > 0 {
            proof {
                assert(entry@.skip(0) =~= entry@);
            }
            let at: usize = find_char(entry.as_slice(), 0, '=');
            if at == entry.len() {
                return Err(
                    CoreError::InvalidColumnMap(
                        "--column-map format: key=ColumnName, e.g. time=TIME,depth=Depth".to_owned(),
                    ),
                );
            }
            let left = part(entry.as_slice(), 0, at);
            let right = part(entry.as_slice(), at + 1, entry.len());
            proof {
                assert(left@ =~= entry@.take(at as int));
                assert(right@ =~= entry@.skip(at + 1));
            }
            let key = text_of(trim_chars(left.as_slice()).as_slice());
            let column = trim_chars(right.as_slice());
            if !known_column_key(key.as_str()) {
                return Err(
                    CoreError::InvalidColumnMap(prefixed("Unknown column-map key: ", key.as_str())),
                );
            }
            if column.len() == 0 {
                return Err(
                    CoreError::InvalidColumnMap(
                        "Column name in --column-map must not be empty".to_owned(),
                    ),
                );
            }
            mapping.insert(key, text_of(column.as_slice()));
        }
        i += 1;
    }
    assert(ps.take(i as int) =~= ps);
    Ok(mapping)
}

} // verus!
