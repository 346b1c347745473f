//! The preview of a clip at its sync point.

use vstd::prelude::*;

use crate::binary64::Real;
use crate::csv_data::{
    column_map_of, duration_of, fields_of, parse_column_map, parse_duration_to_seconds,
    parse_fields, ColumnMap,
};
use crate::error::{error_text, prefixed, ErrorView};
use crate::lookup::ascending;
use crate::model::DiveSample;
use crate::overlay_lines::{build_overlay_lines, overlay_lines};
use crate::session::{
    entry_views, is_blank, lemma_entries_error_kind, lemma_fields_error, ClipEntry, EntryView,
};
use crate::text::{split, trim, views};

verus! {

/// Why a clip cannot be previewed, if it cannot.
pub open spec fn preview_refusal(
    entries: Seq<ClipEntry>,
    idx: nat,
    video_exists: bool,
    csv_path: Seq<char>,
    csv_exists: bool,
    column_map: Seq<char>,
) -> Option<Seq<char>> {
    if idx >= entries.len() {
        Some("Invalid clip index"@)
    } else if !video_exists {
        Some("Video not found: "@ + entries[idx as int].video_path@)
    } else if trim(csv_path).len() == 0 || !csv_exists {
        Some("Please select a valid CSV file first."@)
    } else {
        match column_map_of(column_map) {
            Err(e) => Some(error_text(e, ""@)),
            Ok(_) => None,
        }
    }
}

/// Checks what a preview of a clip needs, and gives the column map to read the log
/// with. Whether the clip's video and the log exist is for the caller to say.
pub fn check_preview(
    entries: &Vec<ClipEntry>,
    idx: usize,
    video_exists: bool,
    csv_path: &str,
    csv_exists: bool,
    column_map: &str,
) -> (r: Result<ColumnMap, String>)
    ensures
        match r {
            Ok(m) => preview_refusal(
                entries@,
                idx as nat,
                video_exists,
                csv_path@,
                csv_exists,
                column_map@,
            ).is_none() && column_map_of(column_map@) == Ok::<_, ErrorView>(m@),
            Err(t) => preview_refusal(
                entries@,
                idx as nat,
                video_exists,
                csv_path@,
                csv_exists,
                column_map@,
            ) == Some(t@),
        },
{
    if idx >= entries.len() {
        return Err("Invalid clip index".to_owned());
    }
    if !video_exists {
        return Err(prefixed("Video not found: ", entries[idx].video_path.as_str()));
    }
    if is_blank(csv_path) || !csv_exists {
        return Err("Please select a valid CSV file first.".to_owned());
    }
    match parse_column_map(column_map) {
        Ok(m) => Ok(m),
        Err(e) => {
            proof {
                lemma_entries_error_kind(split(trim(column_map@), ','));
            }
            Err(e.message())
        },
    }
}

/// The moment of the dive that a preview shows and its lines, or what is wrong.
pub open spec fn previewed(
    entries: Seq<ClipEntry>,
    idx: nat,
    fields: Seq<char>,
    samples: Seq<DiveSample>,
    times: Seq<Real>,
    interpolate: bool,
) -> Result<(Real, Seq<Seq<char>>), Seq<char>> {
    if idx >= entries.len() {
        Err("Invalid clip index"@)
    } else {
        match fields_of(fields) {
            Err(e) => Err(error_text(e, ""@)),
            Ok(fields) => match duration_of(entries[idx as int].csv_sync_mmss@) {
                Err(e) => Err(error_text(e, ""@)),
                Ok(moment) => Ok(
                    (moment, overlay_lines(fields, samples, times, moment, interpolate)),
                ),
            },
        }
    }
}

/// The moment of the dive that a preview shows, which is that of the sync point, and
/// the lines of the info box there.
pub fn preview_lines(
    entries: &Vec<ClipEntry>,
    idx: usize,
    fields: &str,
    samples: &[DiveSample],
    times: &[Real],
    interpolate: bool,
) -> (r: Result<(Real, Vec<String>), String>)
    requires
        times.len() <= samples.len(),
        ascending(times@),
    ensures
        match previewed(entries@, idx as nat, fields@, samples@, times@, interpolate) {
            Ok((moment, lines)) => r matches Ok(p) && p.0 == moment && views(p.1@) == lines,
            Err(m) => r matches Err(t) && t@ == m,
        },
{
    if idx >= entries.len() {
        return Err("Invalid clip index".to_owned());
    }
    let shown = match parse_fields(fields) {
        Ok(f) => f,
        Err(e) => {
            proof {
                lemma_fields_error(fields@);
            }
            return Err(e.message());
        },
    };
    let moment = match parse_duration_to_seconds(entries[idx].csv_sync_mmss.as_str()) {
        Ok(x) => x,
        Err(e) => {
            return Err(e.message());
        },
    };
    Ok((moment, build_overlay_lines(shown.as_slice(), samples, times, moment, interpolate)))
}

/// The list after the sync point of a clip was typed: changed only where the text is
/// a time.
pub open spec fn typed_sync(entries: Seq<EntryView>, idx: nat, text: Seq<char>) -> Seq<EntryView> {
    if idx < entries.len() && duration_of(text).is_ok() {
        entries.update(
            idx as int,
            EntryView { csv_sync_mmss: text, ..entries[idx as int] },
        )
    } else {
        entries
    }
}

/// Writes a typed sync point back to a clip once it is a time, as half of one is
/// common while it is being typed. Gives what is wrong with the text otherwise.
pub fn type_csv_sync(entries: &mut Vec<ClipEntry>, idx: usize, text: &str) -> (r: Option<String>)
    ensures
        entry_views(final(entries)@) == typed_sync(entry_views(old(entries)@), idx as nat, text@),
        match duration_of(text@) {
            Ok(_) => r.is_none(),
            Err(e) => r matches Some(t) && t@ == error_text(e, ""@),
        },
{
    match parse_duration_to_seconds(text) {
        Ok(_) => {
            if idx < entries.len() {
                let entry = ClipEntry {
                    video_path: entries[idx].video_path.clone(),
                    video_sync_sec: entries[idx].video_sync_sec,
                    csv_sync_mmss: text.to_owned(),
                    output_path: entries[idx].output_path.clone(),
                };
                let ghost before = entries@;
                entries.set(idx, entry);
                proof {
                    assert(entry_views(entries@) =~= typed_sync(
                        entry_views(before),
                        idx as nat,
                        text@,
                    ));
                }
            }
            None
        },
        Err(e) => Some(e.message()),
    }
}

} // verus!
