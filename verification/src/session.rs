//! What a user sets up before a run: the list of clips, its editor and the checks
//! before the start.

use vstd::prelude::*;

use crate::binary64::{lemma_small_int, lemma_zero_bits, unit, Real};
use crate::csv_data::{
    column_map_of, duration_of, entries_of, fields_of, parse_column_map, parse_duration_to_seconds,
    parse_fields, ColumnMap,
};
use crate::error::{error_text, prefixed, CoreError, ErrorView};
use crate::model::{ClipJob, Field};
use crate::number_text::number_of;
use crate::paths::{
    as_mp4, derive_output_path, ends_in_file_name, has_directory, is_extended, is_overlay_of,
};
use crate::pipeline::{
    codec_named, name_key, preset_named, Codec, OutputMode, OutputResolution, Preset,
    ProcessingOptions,
};
use crate::text::{chars_of, same_text, split, trim, trim_chars, trim_text};

verus! {

/// A clip in the list.
#[derive(Debug, Clone)]
pub struct ClipEntry {
    pub video_path: String,
    pub video_sync_sec: Real,
    pub csv_sync_mmss: String,
    pub output_path: String,
}

/// A clip in the list as contracts speak of it.
pub struct EntryView {
    pub video_path: Seq<char>,
    pub video_sync_sec: Real,
    pub csv_sync_mmss: Seq<char>,
    pub output_path: Seq<char>,
}

impl View for ClipEntry {
    type V = EntryView;

    open spec fn view(&self) -> EntryView {
        EntryView {
            video_path: self.video_path@,
            video_sync_sec: self.video_sync_sec,
            csv_sync_mmss: self.csv_sync_mmss@,
            output_path: self.output_path@,
        }
    }
}

pub open spec fn entry_views(entries: Seq<ClipEntry>) -> Seq<EntryView> {
    entries.map_values(|e: ClipEntry| e@)
}

pub(crate) fn is_blank(s: &str) -> (r: bool)
    ensures
        r == (trim(s@).len() == 0),
{
    let v = chars_of(s);
    trim_chars(v.as_slice()).len() == 0
}

fn parse_trimmed(s: &str) -> (r: Option<Real>)
    ensures
        r == number_of(trim(s@)),
{
    let v = chars_of(s);
    let t = trim_chars(v.as_slice());
    Real::parse(t.as_slice())
}

/// The editor of one clip of the list.
#[derive(Debug)]
pub struct ClipDialogState {
    pub editing_index: usize,
    pub video: String,
    pub video_sync: String,
    pub csv_sync: String,
    pub output: String,
    pub error: Option<String>,
}

/// What the editor holds: a clip, or the first thing that is wrong.
pub open spec fn edited_entry(
    video: Seq<char>,
    video_sync: Seq<char>,
    csv_sync: Seq<char>,
    output: Seq<char>,
) -> Result<EntryView, Seq<char>> {
    if trim(video).len() == 0 {
        Err("Please select a video file."@)
    } else if trim(output).len() == 0 {
        Err("Please specify an output path."@)
    } else {
        match number_of(trim(video_sync)) {
            None => Err("Video sync must be a number."@),
            Some(video_sync_sec) => match duration_of(trim(csv_sync)) {
                Err(e) => Err("CSV sync invalid: "@ + error_text(e, ""@)),
                Ok(_) => Ok(
                    EntryView {
                        video_path: trim(video),
                        video_sync_sec,
                        csv_sync_mmss: trim(csv_sync),
                        output_path: trim(output),
                    },
                ),
            },
        }
    }
}

impl ClipDialogState {
    /// Opens the editor on a clip, given its second of the video in words.
    pub fn new_edit(idx: usize, entry: &ClipEntry, video_sync: &str) -> (r: ClipDialogState)
        ensures
            r.editing_index == idx,
            r.video@ == entry.video_path@,
            r.video_sync@ == video_sync@,
            r.csv_sync@ == entry.csv_sync_mmss@,
            r.output@ == entry.output_path@,
            r.error.is_none(),
    {
        ClipDialogState {
            editing_index: idx,
            video: entry.video_path.clone(),
            video_sync: video_sync.to_owned(),
            csv_sync: entry.csv_sync_mmss.clone(),
            output: entry.output_path.clone(),
            error: None,
        }
    }

    /// The clip that the editor holds, or the first thing that is wrong with it.
    pub fn validate(&self) -> (r: Result<ClipEntry, String>)
        ensures
            match edited_entry(self.video@, self.video_sync@, self.csv_sync@, self.output@) {
                Ok(e) => r matches Ok(entry) && entry@ == e,
                Err(m) => r matches Err(t) && t@ == m,
            },
    {
        if is_blank(self.video.as_str()) {
            return Err("Please select a video file.".to_owned());
        }
        if is_blank(self.output.as_str()) {
            return Err("Please specify an output path.".to_owned());
        }
        let video_sync_sec = match parse_trimmed(self.video_sync.as_str()) {
            Some(x) => x,
            None => {
                return Err("Video sync must be a number.".to_owned());
            },
        };
        let csv_sync = trim_text(self.csv_sync.as_str());
        match parse_duration_to_seconds(csv_sync.as_str()) {
            Ok(_) => {},
            Err(e) => {
                proof {
                    lemma_duration_error(csv_sync@);
                }
                return Err(prefixed("CSV sync invalid: ", e.message().as_str()));
            },
        }
        Ok(
            ClipEntry {
                video_path: trim_text(self.video.as_str()),
                video_sync_sec,
                csv_sync_mmss: csv_sync,
                output_path: trim_text(self.output.as_str()),
            },
        )
    }
}

proof fn lemma_duration_error(s: Seq<char>)
    ensures
        duration_of(s) matches Err(e) ==> e is InvalidDuration,
{
}

/// Writes an edited clip back to the list; where the clip has been removed, the
/// edit is dropped.
pub fn apply_edit(entries: &mut Vec<ClipEntry>, index: usize, entry: ClipEntry)
    ensures
        final(entries)@ == if index < old(entries)@.len() {
            old(entries)@.update(index as int, entry)
        } else {
            old(entries)@
        },
{
    if index < entries.len() {
        entries.set(index, entry);
    }
}

/// Where an open preview points after a clip was removed: at the same clip, or
/// nowhere where that one is gone.
pub open spec fn shifted_index(preview: Option<usize>, removed: usize) -> Option<usize> {
    match preview {
        None => None,
        Some(i) => if i == removed {
            None
        } else if i > removed {
            Some((i - 1) as usize)
        } else {
            Some(i)
        },
    }
}

/// Removes a clip from the list, and says where an open preview points then.
pub fn remove_clip(entries: &mut Vec<ClipEntry>, index: usize, preview: Option<usize>) -> (r: Option<
    usize,
>)
    requires
        index < old(entries).len(),
    ensures
        final(entries)@ == old(entries)@.remove(index as int),
        r == shifted_index(preview, index),
{
    let _ = entries.remove(index);
    match preview {
        None => None,
        Some(i) => if i == index {
            None
        } else if i > index {
            Some(i - 1)
        } else {
            Some(i)
        },
    }
}

/// A preview that stays open shows the same clip as before the removal.
pub proof fn law_preview_keeps_its_clip(entries: Seq<ClipEntry>, removed: int, preview: int)
    requires
        0 <= removed < entries.len(),
        0 <= preview < entries.len(),
        entries.len() <= usize::MAX,
    ensures
        shifted_index(Some(preview as usize), removed as usize).is_none() == (preview == removed),
        preview != removed ==> {
            let after = entries.remove(removed);
            let i = shifted_index(Some(preview as usize), removed as usize)->0 as int;
            0 <= i < after.len() && after[i] == entries[preview]
        },
{
}

/// The last moment of a clip that can be shown: a little before its end.
pub open spec fn last_moment(duration_sec: Real) -> Real {
    duration_sec.difference(Real::of_ratio(5, 100)).not_below_zero()
}

/// A moment of a clip after a step, kept inside of the clip; without a known
/// duration only its start is kept to.
pub open spec fn scrubbed(current: Real, delta: Real, duration_sec: Real) -> Real {
    let moved = current.sum(delta);
    let zero = Real::of_int(0);
    if zero.less(duration_sec) {
        let last = last_moment(duration_sec);
        if moved.less(zero) {
            zero
        } else if last.less(moved) {
            last
        } else {
            moved
        }
    } else {
        moved.not_below_zero()
    }
}

/// Moves the moment of a clip that is shown by one step.
pub fn scrubbed_video_sync(current: Real, delta: Real, duration_sec: Real) -> (r: Real)
    ensures
        r == scrubbed(current, delta, duration_sec),
{
    let moved = current.plus(delta);
    let zero = Real::from_i64(0);
    if zero.lt(duration_sec) {
        let last = duration_sec.minus(Real::from_ratio(5, 100)).max_zero();
        if moved.lt(zero) {
            zero
        } else if last.lt(moved) {
            last
        } else {
            moved
        }
    } else {
        moved.max_zero()
    }
}

/// A step never leaves the clip: it ends at or after the clip's start, and not
/// after the last moment that can be shown.
pub proof fn law_scrubbing_stays_inside(current: Real, delta: Real, duration_sec: Real)
    requires
        !current.sum(delta).nan(),
    ensures
        Real::of_int(0).at_most(scrubbed(current, delta, duration_sec)),
        Real::of_int(0).less(duration_sec) ==> scrubbed(current, delta, duration_sec).at_most(
            last_moment(duration_sec),
        ),
{
    lemma_small_int(0);
    let u = unit();
    assert(0 * u == 0);
    lemma_zero_bits();
}

/// A video file that was found for the list: when it was recorded, in milliseconds,
/// its name and its path.
#[derive(Debug, Clone)]
pub struct FoundClip {
    pub recorded_at: Option<i64>,
    pub name: String,
    pub path: String,
}

/// Whether a text comes before another one: the first difference decides.
pub open spec fn text_before(a: Seq<char>, b: Seq<char>) -> bool
    decreases a.len(),
{
    if b.len() == 0 {
        false
    } else if a.len() == 0 {
        true
    } else if a[0] != b[0] {
        (a[0] as u32) < (b[0] as u32)
    } else {
        text_before(a.skip(1), b.skip(1))
    }
}

fn is_text_before(a: &str, b: &str) -> (r: bool)
    ensures
        r == text_before(a@, b@),
{
    let x = chars_of(a);
    let y = chars_of(b);
    let mut i: usize = 0;
    proof {
        assert(x@.skip(0) =~= x@);
        assert(y@.skip(0) =~= y@);
    }
    while i < x.len() && i < y.len()
        invariant
            i <= x.len(),
            i <= y.len(),
            x@ == a@,
            y@ == b@,
            text_before(a@, b@) == text_before(x@.skip(i as int), y@.skip(i as int)),
        decreases x.len() - i,
    {
        proof {
            assert(x@.skip(i as int).skip(1) =~= x@.skip(i + 1));
            assert(y@.skip(i as int).skip(1) =~= y@.skip(i + 1));
        }
        if x[i] != y[i] {
            return (x[i] as u32) < (y[i] as u32);
        }
        i += 1;
    }
    i < y.len()
}

/// Whether a file was recorded before another one; files whose time is not known
/// come first, and names decide between files of the same time.
pub open spec fn found_before(a: FoundClip, b: FoundClip) -> bool {
    match (a.recorded_at, b.recorded_at) {
        (None, Some(_)) => true,
        (Some(_), None) => false,
        (Some(x), Some(y)) if x != y => x < y,
        _ => text_before(a.name@, b.name@),
    }
}

fn is_found_before(a: &FoundClip, b: &FoundClip) -> (r: bool)
    ensures
        r == found_before(*a, *b),
{
    match (a.recorded_at, b.recorded_at) {
        (None, Some(_)) => true,
        (Some(_), None) => false,
        (Some(x), Some(y)) => if x != y {
            x < y
        } else {
            is_text_before(a.name.as_str(), b.name.as_str())
        },
        (None, None) => is_text_before(a.name.as_str(), b.name.as_str()),
    }
}

/// Files in order with one more put in its place: after those that it is not
/// before.
pub open spec fn with_found(files: Seq<FoundClip>, x: FoundClip) -> Seq<FoundClip>
    decreases files.len(),
{
    if files.len() == 0 || !found_before(x, files.last()) {
        files.push(x)
    } else {
        with_found(files.drop_last(), x).push(files.last())
    }
}

/// Files in the order in which they were recorded.
pub open spec fn in_recorded_order(files: Seq<FoundClip>) -> Seq<FoundClip>
    decreases files.len(),
{
    if files.len() == 0 {
        seq![]
    } else {
        with_found(in_recorded_order(files.drop_last()), files.last())
    }
}

fn insert_found(files: &mut Vec<FoundClip>, x: FoundClip)
    ensures
        final(files)@ == with_found(old(files)@, x),
        final(files).len() == old(files).len() + 1,
{
    let ghost s = files@;
    let mut at: usize = files.len();
    proof {
        assert(s.take(at as int) =~= s);
        assert(with_found(s, x) =~= with_found(s, x) + s.skip(at as int));
    }
    while at > 0 && is_found_before(&x, &files[at - 1])
        invariant
            at <= files.len(),
            *files == *old(files),
            s == files@,
            with_found(s, x) == with_found(s.take(at as int), x) + s.skip(at as int),
        decreases at,
    {
        proof {
            let t = s.take(at as int);
            assert(t.drop_last() =~= s.take(at - 1));
            assert(with_found(t, x) + s.skip(at as int) =~= with_found(s.take(at - 1), x) + s.skip(
                at - 1,
            ));
        }
        at -= 1;
    }
    proof {
        assert(s.insert(at as int, x) =~= s.take(at as int).push(x) + s.skip(at as int));
    }
    files.insert(at, x);
}

/// Puts files in the order in which they were recorded.
pub fn sort_found(files: Vec<FoundClip>) -> (r: Vec<FoundClip>)
    ensures
        r@ == in_recorded_order(files@),
{
    let ghost s = files@;
    let mut sorted: Vec<FoundClip> = Vec::new();
    let ghost mut k: int = 0;
    for x in it: files
        invariant
            it.seq() == files@,
            s == files@,
            k == it.index(),
            sorted@ == in_recorded_order(s.take(k)),
    {
        proof {
            assert(s.take(k + 1).drop_last() =~= s.take(k));
            k = k + 1;
        }
        insert_found(&mut sorted, x);
    }
    assert(s.take(k) =~= s);
    sorted
}

/// The paths of the videos in the list.
pub open spec fn listed_paths(entries: Seq<ClipEntry>) -> Seq<Seq<char>> {
    entries.map_values(|e: ClipEntry| e.video_path@)
}

fn is_listed(entries: &Vec<ClipEntry>, path: &str) -> (r: bool)
    ensures
        r == listed_paths(entries@).contains(path@),
{
    let mut i: usize = 0;
    while i < entries.len()
        invariant
            i <= entries.len(),
            forall|k: int| 0 <= k < i ==> (#[trigger] listed_paths(entries@)[k]) != path@,
        decreases entries.len() - i,
    {
        if same_text(entries[i].video_path.as_str(), path) {
            assert(listed_paths(entries@)[i as int] == path@);
            return true;
        }
        i += 1;
    }
    false
}

/// Whether an entry is the one that a file is listed under at first: in sync at
/// the start of both the video and the dive.
pub open spec fn fresh_entry(e: ClipEntry) -> bool {
    &&& e.video_sync_sec == Real::of_int(0)
    &&& e.csv_sync_mmss@ == "0:00"@
    &&& has_directory(e.video_path@) ==> is_overlay_of(e.output_path@, e.video_path@)
}

/// A list of paths with those of files added, each that is not in it yet.
pub open spec fn paths_added(paths: Seq<Seq<char>>, files: Seq<FoundClip>) -> Seq<Seq<char>>
    decreases files.len(),
{
    if files.len() == 0 {
        paths
    } else {
        let before = paths_added(paths, files.drop_last());
        if before.contains(files.last().path@) {
            before
        } else {
            before.push(files.last().path@)
        }
    }
}

/// Adds files to the list in the order in which they were recorded, each that is
/// not listed yet; says how many were added. What was listed before stays.
pub fn add_found(entries: &mut Vec<ClipEntry>, files: Vec<FoundClip>) -> (added: usize)
    ensures
        listed_paths(final(entries)@) == paths_added(
            listed_paths(old(entries)@),
            in_recorded_order(files@),
        ),
        final(entries).len() == old(entries).len() + added,
        final(entries)@.take(old(entries)@.len() as int) == old(entries)@,
        forall|i: int|
            old(entries)@.len() <= i < final(entries)@.len() ==> fresh_entry(
                #[trigger] final(entries)@[i],
            ),
{
    let sorted = sort_found(files);
    let ghost before = entries@;
    let mut added: usize = 0;
    let mut i: usize = 0;
    assert(sorted@.take(0) =~= seq![]);
    assert(entries@.take(before.len() as int) =~= before);
    while i < sorted.len()
        invariant
            i <= sorted.len(),
            sorted@ == in_recorded_order(files@),
            before == old(entries)@,
            added <= i,
            entries.len() == before.len() + added,
            listed_paths(entries@) == paths_added(listed_paths(before), sorted@.take(i as int)),
            entries@.take(before.len() as int) == before,
            forall|k: int|
                before.len() <= k < entries@.len() ==> fresh_entry(#[trigger] entries@[k]),
        decreases sorted.len() - i,
    {
        let ghost middle = entries@;
        let path = sorted[i].path.clone();
        proof {
            assert(sorted@.take(i + 1).drop_last() =~= sorted@.take(i as int));
            assert(sorted@.take(i + 1).last() == sorted@[i as int]);
        }
        if !is_listed(entries, path.as_str()) {
            let entry = ClipEntry {
                output_path: derive_output_path(path.as_str(), None),
                video_path: path,
                video_sync_sec: Real::from_i64(0),
                csv_sync_mmss: "0:00".to_owned(),
            };
            entries.push(entry);
            added += 1;
            proof {
                assert(listed_paths(entries@) =~= listed_paths(middle).push(entry.video_path@));
                assert(entries@.take(before.len() as int) =~= middle.take(before.len() as int));
            }
        }
        i += 1;
    }
    assert(sorted@.take(i as int) =~= sorted@);
    added
}

/// A list without repeated videos stays so when files are added.
pub proof fn law_no_video_twice(paths: Seq<Seq<char>>, files: Seq<FoundClip>)
    requires
        paths.no_duplicates(),
    ensures
        paths_added(paths, files).no_duplicates(),
    decreases files.len(),
{
    if files.len() > 0 {
        law_no_video_twice(paths, files.drop_last());
    }
}

/// The settings of a run as the user entered them.
#[derive(Debug)]
pub struct Settings {
    pub csv_path: String,
    pub fields: String,
    pub codec: String,
    pub preset: String,
    pub hw_accel: bool,
    pub column_map: String,
    pub resolution: OutputResolution,
    pub show_graph: bool,
    pub interpolate: bool,
    pub mode: OutputMode,
    pub merge_enabled: bool,
    pub merge_output: String,
    pub auto_sync: bool,
    pub base_clip_index: usize,
    pub base_video_sync: String,
}

/// The clip that the others are placed by.
#[derive(Debug, Clone)]
pub struct AutoSyncConfig {
    pub base_clip: String,
    /// The second of the video at the sync point. Where the base clip lies in the dive
    /// is said by its own entry, so this moves no clip.
    pub base_video_sync_sec: Real,
}

/// What a run was checked to be.
#[derive(Debug)]
pub struct RunConfig {
    pub csv_path: String,
    pub column_map: ColumnMap,
    pub options: ProcessingOptions,
    pub auto_sync: Option<AutoSyncConfig>,
    /// The file that all clips are joined into, where that was asked for.
    pub merge_output: Option<String>,
}

/// The first video that is not there.
pub open spec fn first_missing(entries: Seq<ClipEntry>, exist: Seq<bool>) -> Option<Seq<char>>
    decreases entries.len(),
{
    if entries.len() == 0 {
        None
    } else if !exist[0] {
        Some(entries[0].video_path@)
    } else {
        first_missing(entries.skip(1), exist.skip(1))
    }
}

fn find_missing(entries: &Vec<ClipEntry>, exist: &Vec<bool>) -> (r: Option<usize>)
    requires
        entries.len() == exist.len(),
    ensures
        match r {
            Some(i) => i < entries.len() && first_missing(entries@, exist@) == Some(
                entries@[i as int].video_path@,
            ),
            None => first_missing(entries@, exist@).is_none(),
        },
{
    let mut i: usize = 0;
    proof {
        assert(entries@.skip(0) =~= entries@);
        assert(exist@.skip(0) =~= exist@);
    }
    while i < entries.len()
        invariant
            i <= entries.len(),
            entries.len() == exist.len(),
            first_missing(entries@, exist@) == first_missing(
                entries@.skip(i as int),
                exist@.skip(i as int),
            ),
        decreases entries.len() - i,
    {
        proof {
            assert(entries@.skip(i as int).skip(1) =~= entries@.skip(i + 1));
            assert(exist@.skip(i as int).skip(1) =~= exist@.skip(i + 1));
        }
        if !exist[i] {
            return Some(i);
        }
        i += 1;
    }
    None
}

/// What keeps a run from starting, as it is shown; the checks are made in this
/// order.
pub open spec fn start_refusal(
    s: Settings,
    entries: Seq<ClipEntry>,
    csv_exists: bool,
    videos_exist: Seq<bool>,
) -> Option<Seq<char>> {
    let missing = first_missing(entries, videos_exist);
    if trim(s.csv_path@).len() == 0 {
        Some("Error: please select a CSV file."@)
    } else if !csv_exists {
        Some("Error: CSV not found: "@ + trim(s.csv_path@))
    } else if entries.len() == 0 {
        Some("Error: please add at least one clip."@)
    } else if fields_of(s.fields@) is Err {
        Some("Error: invalid field list: "@ + error_text(fields_of(s.fields@)->Err_0, ""@))
    } else if column_map_of(s.column_map@) is Err {
        Some(
            "Error: invalid column mapping: "@ + error_text(
                column_map_of(s.column_map@)->Err_0,
                ""@,
            ),
        )
    } else if missing is Some {
        Some("Error: video not found: "@ + missing->0)
    } else if codec_named(name_key(s.codec@)) is None {
        Some("Error: unknown codec: "@ + s.codec@)
    } else if s.merge_enabled && trim(s.merge_output@).len() == 0 {
        Some("Error: please specify an output path for the combined video."@)
    } else if s.auto_sync && s.base_clip_index >= entries.len() {
        Some("Error: please select a base clip for auto-sync."@)
    } else if s.auto_sync && number_of(trim(s.base_video_sync@)) is None {
        Some("Error: the base clip's video sync must be a number."@)
    } else {
        None
    }
}

/// Whether a run is the one that was asked for.
pub open spec fn config_agrees(c: RunConfig, s: Settings, entries: Seq<ClipEntry>) -> bool {
    &&& c.csv_path@ == trim(s.csv_path@)
    &&& column_map_of(s.column_map@) == Ok::<Map<Seq<char>, Seq<char>>, ErrorView>(c.column_map@)
    &&& fields_of(s.fields@) == Ok::<Seq<Field>, ErrorView>(c.options.fields@)
    &&& codec_named(name_key(s.codec@)) == Some(c.options.codec)
    &&& c.options.preset == match preset_named(name_key(s.preset@)) {
        Some(p) => p,
        None => Preset::VeryFast,
    }
    &&& c.options.hw_accel == s.hw_accel
    &&& c.options.show_graph == s.show_graph
    &&& c.options.resolution == s.resolution
    &&& c.options.mode == s.mode
    &&& c.options.interpolate == s.interpolate
    &&& c.merge_output.is_some() == s.merge_enabled
    &&& s.merge_enabled && ends_in_file_name(trim(s.merge_output@)) ==> is_extended(
        c.merge_output->0@,
        trim(s.merge_output@),
        "mp4"@,
    )
    &&& c.auto_sync.is_some() == s.auto_sync
    &&& s.auto_sync ==> c.auto_sync->0.base_clip@ == entries[s.base_clip_index as int].video_path@
        && number_of(trim(s.base_video_sync@)) == Some(c.auto_sync->0.base_video_sync_sec)
}

pub proof fn lemma_fields_error(s: Seq<char>)
    ensures
        fields_of(s) matches Err(e) ==> e is InvalidFields,
{
}

pub proof fn lemma_entries_error_kind(pieces: Seq<Seq<char>>)
    ensures
        entries_of(pieces) matches Err(e) ==> e is InvalidColumnMap,
    decreases pieces.len(),
{
    if pieces.len() > 0 {
        lemma_entries_error_kind(pieces.drop_last());
    }
}

fn refusal<T>(m: String) -> (r: Result<T, String>)
    ensures
        r == Err::<T, String>(m),
{
    Err(m)
}

/// Checks the settings of a run, given which files are there: what the run is, or
/// the first thing that keeps it from starting.
pub fn check_settings(
    s: &Settings,
    entries: &Vec<ClipEntry>,
    csv_exists: bool,
    videos_exist: &Vec<bool>,
) -> (r: Result<RunConfig, String>)
    requires
        videos_exist.len() == entries.len(),
    ensures
        match r {
            Ok(c) => start_refusal(*s, entries@, csv_exists, videos_exist@).is_none()
                && config_agrees(c, *s, entries@),
            Err(m) => start_refusal(*s, entries@, csv_exists, videos_exist@) == Some(m@),
        },
{
    let csv_path = trim_text(s.csv_path.as_str());
    if is_blank(s.csv_path.as_str()) {
        return refusal("Error: please select a CSV file.".to_owned());
    }
    if !csv_exists {
        return refusal(prefixed("Error: CSV not found: ", csv_path.as_str()));
    }
    if entries.len() == 0 {
        return refusal("Error: please add at least one clip.".to_owned());
    }
    let fields = match parse_fields(s.fields.as_str()) {
        Ok(f) => f,
        Err(e) => {
            proof {
                lemma_fields_error(s.fields@);
            }
            return refusal(prefixed("Error: invalid field list: ", e.message().as_str()));
        },
    };
    let column_map = match parse_column_map(s.column_map.as_str()) {
        Ok(m) => m,
        Err(e) => {
            proof {
                lemma_entries_error_kind(split(trim(s.column_map@), ','));
            }
            return refusal(prefixed("Error: invalid column mapping: ", e.message().as_str()));
        },
    };
    match find_missing(entries, videos_exist) {
        Some(i) => {
            return refusal(
                prefixed("Error: video not found: ", entries[i].video_path.as_str()),
            );
        },
        None => {},
    }
    let codec = match Codec::parse(s.codec.as_str()) {
        Some(c) => c,
        None => {
            return refusal(prefixed("Error: unknown codec: ", s.codec.as_str()));
        },
    };
    let preset = match Preset::parse(s.preset.as_str()) {
        Some(p) => p,
        None => Preset::VeryFast,
    };
    let merge_output = if s.merge_enabled {
        if is_blank(s.merge_output.as_str()) {
            return refusal(
                "Error: please specify an output path for the combined video.".to_owned(),
            );
        }
        Some(as_mp4(trim_text(s.merge_output.as_str()).as_str()))
    } else {
        None
    };
    let auto_sync = if s.auto_sync {
        if s.base_clip_index >= entries.len() {
            return refusal("Error: please select a base clip for auto-sync.".to_owned());
        }
        match parse_trimmed(s.base_video_sync.as_str()) {
            Some(base_video_sync_sec) => Some(
                AutoSyncConfig {
                    base_clip: entries[s.base_clip_index].video_path.clone(),
                    base_video_sync_sec,
                },
            ),
            None => {
                return refusal(
                    "Error: the base clip's video sync must be a number.".to_owned(),
                );
            },
        }
    } else {
        None
    };
    Ok(
        RunConfig {
            csv_path,
            column_map,
            options: ProcessingOptions {
                fields,
                codec,
                preset,
                hw_accel: s.hw_accel,
                show_graph: s.show_graph,
                resolution: s.resolution,
                mode: s.mode,
                interpolate: s.interpolate,
            },
            auto_sync,
            merge_output,
        },
    )
}

/// Where a clip of the list starts in the dive.
pub open spec fn entry_start(e: EntryView) -> Result<Real, ErrorView> {
    match duration_of(e.csv_sync_mmss) {
        Ok(csv_sync) => Ok(csv_sync.difference(e.video_sync_sec)),
        Err(e) => Err(e),
    }
}

/// The first clip of the list whose moment of the dive cannot be read.
pub open spec fn first_bad_entry(entries: Seq<EntryView>) -> nat
    decreases entries.len(),
{
    if entries.len() == 0 || entry_start(entries[0]) is Err {
        0
    } else {
        1 + first_bad_entry(entries.skip(1))
    }
}

/// Whether a job is the one for a clip of the list.
pub open spec fn job_agrees(job: ClipJob, e: EntryView) -> bool {
    &&& job.video_path@ == e.video_path
    &&& ends_in_file_name(e.output_path) ==> is_extended(job.output_path@, e.output_path, "mp4"@)
    &&& entry_start(e) == Ok::<Real, ErrorView>(job.dive_start_sec)
    &&& job.video_start_utc.is_none()
}

/// Makes the jobs of a run from the list of clips.
pub fn jobs_from_entries(entries: &Vec<ClipEntry>) -> (r: Result<Vec<ClipJob>, CoreError>)
    ensures
        ({
            let all = entry_views(entries@);
            let k = first_bad_entry(all);
            match r {
                Err(e) => k < all.len() && entry_start(all[k as int]) == Err::<Real, ErrorView>(
                    e@,
                ),
                Ok(jobs) => k >= all.len() && jobs@.len() == all.len() && forall|i: int|
                    #![trigger jobs@[i]]
                    0 <= i < all.len() ==> job_agrees(jobs@[i], all[i]),
            }
        }),
{
    let ghost all = entry_views(entries@);
    let mut jobs: Vec<ClipJob> = Vec::new();
    let mut i: usize = 0;
    assert(all.skip(0) =~= all);
    while i < entries.len()
        invariant
            i <= entries.len(),
            all == entry_views(entries@),
            all.len() == entries.len(),
            jobs.len() == i,
            first_bad_entry(all) == i + first_bad_entry(all.skip(i as int)),
            forall|k: int| #![trigger jobs@[k]] 0 <= k < i ==> job_agrees(jobs@[k], all[k]),
        decreases entries.len() - i,
    {
        proof {
            assert(all.skip(i as int)[0] == entries@[i as int]@);
            assert(all.skip(i as int).skip(1) =~= all.skip(i + 1));
        }
        let e = &entries[i];
        match parse_duration_to_seconds(e.csv_sync_mmss.as_str()) {
            Err(error) => {
                return Err(error);
            },
            Ok(csv_sync) => {
                jobs.push(
                    ClipJob {
                        video_path: e.video_path.clone(),
                        output_path: as_mp4(e.output_path.as_str()),
                        dive_start_sec: csv_sync.minus(e.video_sync_sec),
                        video_start_utc: None,
                    },
                );
            },
        }
        i += 1;
    }
    Ok(jobs)
}

} // verus!
