//! Subtitle tracks in the SubRip format.

use vstd::prelude::*;

use crate::binary64::{ceiling, clip_u64, unit, Real};
use crate::error::{prefixed, CoreError, ErrorView};
use crate::lookup::ascending;
use crate::model::{DiveSample, Field};
use crate::number_text::number_of;
use crate::numeral::{push_decimal, push_padded};
use crate::overlay_lines::{build_overlay_lines, overlay_lines};
use crate::text::{
    after_last, chars_of, contains_chars, contains_text, decimal, find_after_last, find_chars,
    find_text, join, join_texts, lemma_find_text, lines, lines_of, padded, part, remove_returns,
    split, split_by, split_chars, split_text, text_of, texts, trim, trim_chars, views,
    without_returns,
};

verus! {

/// A moment in whole milliseconds, not before zero.
pub open spec fn srt_millis(total_sec: Real) -> nat {
    clip_u64(total_sec.not_below_zero().product(Real::of_int(1000)).rounded()) as nat
}

/// A count of milliseconds as a subtitle track writes it.
pub open spec fn timestamp_text(millis: nat) -> Seq<char> {
    padded(millis / 3_600_000, 2) + ":"@ + padded((millis % 3_600_000) / 60_000, 2) + ":"@ + padded(
        (millis % 60_000) / 1000,
        2,
    ) + ","@ + padded(millis % 1000, 3)
}

fn push_timestamp(out: &mut String, total_sec: Real)
    ensures
        final(out)@ == old(out)@ + timestamp_text(srt_millis(total_sec)),
{
    let millis: u64 = total_sec.max_zero().times(Real::from_i64(1000)).round_u64();
    push_padded(out, millis / 3_600_000, 2);
    out.push_str(":");
    push_padded(out, (millis % 3_600_000) / 60_000, 2);
    out.push_str(":");
    push_padded(out, (millis % 60_000) / 1000, 2);
    out.push_str(",");
    push_padded(out, millis % 1000, 3);
    assert(out@ =~= old(out)@ + timestamp_text(millis as nat));
}

pub fn format_srt_timestamp(total_sec: Real) -> (r: String)
    ensures
        r@ == timestamp_text(srt_millis(total_sec)),
{
    let mut r = String::new();
    push_timestamp(&mut r, total_sec);
    assert(r@ =~= timestamp_text(srt_millis(total_sec)));
    r
}

/// One subtitle: its number, its time span and its text.
#[verifier::opaque]
pub open spec fn cue_text(number: nat, start: Real, end: Real, text: Seq<char>) -> Seq<char> {
    decimal(number) + "\n"@ + timestamp_text(srt_millis(start)) + " --> "@ + timestamp_text(
        srt_millis(end),
    ) + "\n"@ + text + "\n\n"@
}

fn push_cue(out: &mut String, number: u64, start: Real, end: Real, text: &str)
    ensures
        final(out)@ == old(out)@ + cue_text(number as nat, start, end, text@),
{
    proof {
        reveal(cue_text);
    }
    push_decimal(out, number);
    out.push_str("\n");
    push_timestamp(out, start);
    out.push_str(" --> ");
    push_timestamp(out, end);
    out.push_str("\n");
    out.push_str(text);
    out.push_str("\n\n");
    assert(out@ =~= old(out)@ + cue_text(number as nat, start, end, text@));
}

/// How many whole seconds it takes to cover a duration.
pub open spec fn cue_seconds(duration: Real) -> nat {
    let d = duration.not_below_zero();
    clip_u64(ceiling(d.size(), unit()) as int) as nat
}

/// The end of the cue of a second.
pub open spec fn cue_end(sec: nat, duration: Real) -> Real {
    Real::of_int((sec + 1) as int).least(duration)
}

/// The moment of the dive at a second of the video.
pub open spec fn dive_moment(sec: nat, video_sync_sec: Real, csv_sync_sec: Real) -> Real {
    csv_sync_sec.sum(Real::of_int(sec as int).difference(video_sync_sec))
}

/// A subtitle track from a second on: one cue for each second up to the
/// duration, with the lines that hold at its start.
pub open spec fn track_from(
    fields: Seq<Field>,
    samples: Seq<DiveSample>,
    times: Seq<Real>,
    video_sync_sec: Real,
    csv_sync_sec: Real,
    duration: Real,
    interpolate: bool,
    sec: nat,
) -> Seq<char>
    decreases cue_seconds(duration) - sec,
{
    let start = Real::of_int(sec as int);
    let end = cue_end(sec, duration);
    if sec >= cue_seconds(duration) || end.at_most(start) {
        ""@
    } else {
        let lines = overlay_lines(
            fields,
            samples,
            times,
            dive_moment(sec, video_sync_sec, csv_sync_sec),
            interpolate,
        );
        cue_text(sec + 1, start, end, join(lines, "\n"@)) + track_from(
            fields,
            samples,
            times,
            video_sync_sec,
            csv_sync_sec,
            duration,
            interpolate,
            sec + 1,
        )
    }
}

/// Builds a subtitle track with one cue for each second of a video.
#[verifier::rlimit(40)]
pub fn build_srt(
    fields: &[Field],
    samples: &[DiveSample],
    times: &[Real],
    video_sync_sec: Real,
    csv_sync_sec: Real,
    video_duration_sec: Real,
    interpolate: bool,
) -> (r: String)
    requires
        times.len() <= samples.len(),
        ascending(times@),
    ensures
        r@ == track_from(
            fields@,
            samples@,
            times@,
            video_sync_sec,
            csv_sync_sec,
            video_duration_sec,
            interpolate,
            0,
        ),
{
    let mut out = String::new();
    let total: u64 = video_duration_sec.max_zero().ceil_u64();
    let ghost whole = track_from(
        fields@,
        samples@,
        times@,
        video_sync_sec,
        csv_sync_sec,
        video_duration_sec,
        interpolate,
        0,
    );
    let mut sec: u64 = 0;
    proof {
        reveal_strlit("");
        assert(out@ + whole =~= whole);
    }
    while sec < total
        invariant
            sec <= total,
            total == cue_seconds(video_duration_sec),
            times.len() <= samples.len(),
            ascending(times@),
            whole == track_from(
                fields@,
                samples@,
                times@,
                video_sync_sec,
                csv_sync_sec,
                video_duration_sec,
                interpolate,
                0,
            ),
            out@ + track_from(
                fields@,
                samples@,
                times@,
                video_sync_sec,
                csv_sync_sec,
                video_duration_sec,
                interpolate,
                sec as nat,
            ) == whole,
        decreases total - sec,
    {
        let start = Real::from_u64(sec);
        let end = Real::from_u64(sec + 1).min(video_duration_sec);
        if end.le(start) {
            proof {
                reveal_strlit("");
                assert(out@ =~= whole);
            }
            return out;
        }
        let dive_sec = csv_sync_sec.plus(start.minus(video_sync_sec));
        let lines = build_overlay_lines(fields, samples, times, dive_sec, interpolate);
        let ghost before = out@;
        push_cue(&mut out, sec + 1, start, end, join_texts(&lines, "\n").as_str());
        proof {
            let rest = track_from(
                fields@,
                samples@,
                times@,
                video_sync_sec,
                csv_sync_sec,
                video_duration_sec,
                interpolate,
                (sec + 1) as nat,
            );
            let cue = cue_text((sec + 1) as nat, start, end, join(views(lines@), "\n"@));
            assert(before + (cue + rest) =~= (before + cue) + rest);
        }
        sec += 1;
    }
    proof {
        reveal_strlit("");
        assert(out@ =~= whole);
    }
    out
}

/// A text cut at the last separator: what stands before it and after it.
pub open spec fn cut_last(s: Seq<char>, c: char) -> Option<(Seq<char>, Seq<char>)> {
    let at = after_last(s, c) as int;
    if at == 0 {
        None
    } else {
        Some((s.take(at - 1), s.skip(at)))
    }
}

/// The seconds that hours, minutes, seconds and milliseconds make up.
pub open spec fn clock_seconds(h: Real, m: Real, s: Real, ms: Real) -> Real {
    h.product(Real::of_int(3600)).sum(m.product(Real::of_int(60))).sum(s).sum(
        ms.quotient(Real::of_int(1000)),
    )
}

/// The moment that hours, minutes and seconds separated by colons, and
/// milliseconds, stand for.
pub open spec fn parts_moment(hms: Seq<char>, millis: Seq<char>) -> Option<Real> {
    let parts = split(hms, ':');
    if parts.len() != 3 {
        None
    } else {
        match (
            number_of(trim(parts[0])),
            number_of(trim(parts[1])),
            number_of(trim(parts[2])),
            number_of(trim(millis)),
        ) {
            (Some(h), Some(m), Some(s), Some(ms)) => Some(clock_seconds(h, m, s, ms)),
            _ => None,
        }
    }
}

/// The moment that a time of a subtitle track stands for; the milliseconds may
/// stand after a comma or a point.
pub open spec fn timestamp_of(text: Seq<char>) -> Option<Real> {
    let t = trim(text);
    match cut_last(t, ',') {
        Some((hms, millis)) => parts_moment(hms, millis),
        None => match cut_last(t, '.') {
            Some((hms, millis)) => parts_moment(hms, millis),
            None => None,
        },
    }
}

fn parse_trimmed(v: &Vec<char>) -> (r: Option<Real>)
    ensures
        r == number_of(trim(v@)),
{
    let t = trim_chars(v.as_slice());
    Real::parse(t.as_slice())
}

fn parse_parts(t: &Vec<char>, at: usize) -> (r: Option<Real>)
    requires
        0 < at <= t.len(),
    ensures
        r == parts_moment(t@.take(at - 1), t@.skip(at as int)),
{
    let hms = part(t.as_slice(), 0, at - 1);
    let millis = part(t.as_slice(), at, t.len());
    proof {
        assert(hms@ =~= t@.take(at - 1));
        assert(millis@ =~= t@.skip(at as int));
    }
    let parts = split_chars(hms.as_slice(), ':');
    proof {
        assert(texts(parts@).len() == parts.len());
    }
    if parts.len() != 3 {
        return None;
    }
    proof {
        assert(texts(parts@)[0] == parts@[0]@);
        assert(texts(parts@)[1] == parts@[1]@);
        assert(texts(parts@)[2] == parts@[2]@);
    }
    match (
        parse_trimmed(&parts[0]),
        parse_trimmed(&parts[1]),
        parse_trimmed(&parts[2]),
        parse_trimmed(&millis),
    ) {
        (Some(h), Some(m), Some(s), Some(ms)) => Some(
            h.times(Real::from_i64(3600)).plus(m.times(Real::from_i64(60))).plus(s).plus(
                ms.over(Real::from_i64(1000)),
            ),
        ),
        _ => None,
    }
}

/// Reads a time of a subtitle track.
pub fn parse_srt_timestamp(text: &[char]) -> (r: Option<Real>)
    ensures
        r == timestamp_of(text@),
{
    let t = trim_chars(text);
    let comma: usize = find_after_last(t.as_slice(), ',');
    if comma > 0 {
        return parse_parts(&t, comma);
    }
    let point: usize = find_after_last(t.as_slice(), '.');
    if point > 0 {
        return parse_parts(&t, point);
    }
    None
}

/// A subtitle track of one clip, and where the clip starts on the merged
/// timeline.
pub struct SrtPart<'a> {
    pub srt: &'a str,
    pub offset_sec: Real,
}

/// A subtitle.
pub struct Cue {
    pub start: Real,
    pub end: Real,
    pub text: String,
}

/// A subtitle as contracts speak of it.
pub struct CueView {
    pub start: Real,
    pub end: Real,
    pub text: Seq<char>,
}

impl View for Cue {
    type V = CueView;

    open spec fn view(&self) -> CueView {
        CueView { start: self.start, end: self.end, text: self.text@ }
    }
}

pub open spec fn arrow() -> Seq<char> {
    "-->"@
}

/// The position of the first line with an arrow, or the count of lines.
pub open spec fn timing_line(ls: Seq<Seq<char>>) -> nat
    decreases ls.len(),
{
    if ls.len() == 0 || contains_text(ls[0], arrow()) {
        0
    } else {
        1 + timing_line(ls.skip(1))
    }
}

/// The subtitle in a block of lines, moved by an offset: the first line with an
/// arrow gives its time span, the lines after it its text.
pub open spec fn block_cue(block: Seq<char>, offset: Real) -> Result<CueView, ErrorView> {
    let ls = lines(block);
    let i = timing_line(ls) as int;
    if i >= ls.len() {
        Err(ErrorView::Other("Malformed SRT block (no timing line): "@ + block))
    } else {
        let at = find_text(ls[i], arrow()) as int;
        match (timestamp_of(ls[i].take(at)), timestamp_of(ls[i].skip(at + 3))) {
            (Some(start), Some(end)) => Ok(
                CueView {
                    start: start.sum(offset),
                    end: end.sum(offset),
                    text: join(ls.skip(i + 1), "\n"@),
                },
            ),
            _ => Err(ErrorView::Other("Invalid SRT timestamp: "@ + trim(ls[i]))),
        }
    }
}

/// The subtitles of blocks after those that came before; the first bad block
/// decides the error.
pub open spec fn block_cues(before: Seq<CueView>, blocks: Seq<Seq<char>>, offset: Real) -> Result<
    Seq<CueView>,
    ErrorView,
>
    decreases blocks.len(),
{
    if blocks.len() == 0 {
        Ok(before)
    } else {
        let block = trim(blocks[0]);
        if block.len() == 0 {
            block_cues(before, blocks.skip(1), offset)
        } else {
            match block_cue(block, offset) {
                Ok(cue) => block_cues(before.push(cue), blocks.skip(1), offset),
                Err(e) => Err(e),
            }
        }
    }
}

/// The blocks of a subtitle track.
pub open spec fn srt_blocks(srt: Seq<char>) -> Seq<Seq<char>> {
    split_text(without_returns(srt), "\n\n"@)
}

/// The subtitles of several tracks after those that came before.
pub open spec fn part_cues(before: Seq<CueView>, parts: Seq<SrtPart<'_>>) -> Result<
    Seq<CueView>,
    ErrorView,
>
    decreases parts.len(),
{
    if parts.len() == 0 {
        Ok(before)
    } else {
        match block_cues(before, srt_blocks(parts[0].srt@), parts[0].offset_sec) {
            Ok(cues) => part_cues(cues, parts.skip(1)),
            Err(e) => Err(e),
        }
    }
}

/// Subtitles as a track, numbered from one.
pub open spec fn cues_text(cues: Seq<CueView>) -> Seq<char>
    decreases cues.len(),
{
    if cues.len() == 0 {
        ""@
    } else {
        let c = cues.last();
        cues_text(cues.drop_last()) + cue_text(cues.len(), c.start, c.end, c.text)
    }
}

pub open spec fn cue_views(cues: Seq<Cue>) -> Seq<CueView> {
    cues.map_values(|c: Cue| c@)
}

fn push_text_lines(ls: &Vec<Vec<char>>, from: usize) -> (r: String)
    requires
        from <= ls.len(),
    ensures
        r@ == join(texts(ls@).skip(from as int), "\n"@),
{
    let mut strings: Vec<String> = Vec::new();
    let mut i: usize = from;
    while i < ls.len()
        invariant
            from <= i <= ls.len(),
            strings.len() == i - from,
            forall|k: int| 0 <= k < i - from ==> (#[trigger] strings@[k])@ == ls@[from + k]@,
        decreases ls.len() - i,
    {
        strings.push(text_of(ls[i].as_slice()));
        i += 1;
    }
    assert(views(strings@) =~= texts(ls@).skip(from as int));
    join_texts(&strings, "\n")
}

/// Reads the subtitle in a block of lines.
pub fn parse_block(block: &Vec<char>, offset_sec: Real) -> (r: Result<Cue, CoreError>)
    ensures
        match r {
            Ok(c) => block_cue(block@, offset_sec) == Ok::<CueView, ErrorView>(c@),
            Err(e) => block_cue(block@, offset_sec) == Err::<CueView, ErrorView>(e@),
        },
{
    let ls = lines_of(block.as_slice());
    let mark = chars_of("-->");
    let ghost all = texts(ls@);
    let mut i: usize = 0;
    proof {
        reveal_strlit("-->");
        assert(mark.len() == 3);
        assert(all.skip(0) =~= all);
        assert(all.len() == ls.len());
    }
    while i < ls.len() && !contains_chars(ls[i].as_slice(), mark.as_slice())
        invariant
            i <= ls.len(),
            all == texts(ls@),
            all.len() == ls.len(),
            mark@ == arrow(),
            timing_line(all) == i + timing_line(all.skip(i as int)),
        decreases ls.len() - i,
    {
        proof {
            assert(all.skip(i as int)[0] == ls@[i as int]@);
            assert(all.skip(i as int).skip(1) =~= all.skip(i + 1));
        }
        i += 1;
    }
    if i == ls.len() {
        return Err(
            CoreError::Other(
                prefixed(
                    "Malformed SRT block (no timing line): ",
                    text_of(block.as_slice()).as_str(),
                ),
            ),
        );
    }
    proof {
        assert(all.skip(i as int)[0] == ls@[i as int]@);
        assert(timing_line(all) == i);
        lemma_find_text(ls@[i as int]@, arrow());
        assert(ls@[i as int]@.skip(0) =~= ls@[i as int]@);
    }
    let line = &ls[i];
    let at: usize = find_chars(line.as_slice(), 0, mark.as_slice());
    let left = part(line.as_slice(), 0, at);
    let right = part(line.as_slice(), at + 3, line.len());
    proof {
        assert(left@ =~= line@.take(at as int));
        assert(right@ =~= line@.skip(at + 3));
    }
    match (parse_srt_timestamp(left.as_slice()), parse_srt_timestamp(right.as_slice())) {
        (Some(start), Some(end)) => Ok(
            Cue {
                start: start.plus(offset_sec),
                end: end.plus(offset_sec),
                text: push_text_lines(&ls, i + 1),
            },
        ),
        _ => {
            let t = trim_chars(line.as_slice());
            Err(
                CoreError::Other(
                    prefixed("Invalid SRT timestamp: ", text_of(t.as_slice()).as_str()),
                ),
            )
        },
    }
}

fn read_blocks(cues: &mut Vec<Cue>, blocks: &Vec<Vec<char>>, offset_sec: Real) -> (r: Result<
    (),
    CoreError,
>)
    ensures
        match r {
            Ok(_) => block_cues(cue_views(old(cues)@), texts(blocks@), offset_sec) == Ok::<
                Seq<CueView>,
                ErrorView,
            >(cue_views(final(cues)@)),
            Err(e) => block_cues(cue_views(old(cues)@), texts(blocks@), offset_sec) == Err::<
                Seq<CueView>,
                ErrorView,
            >(e@),
        },
{
    let ghost all = texts(blocks@);
    let mut i: usize = 0;
    assert(all.skip(0) =~= all);
    while i < blocks.len()
        invariant
            i <= blocks.len(),
            all == texts(blocks@),
            all.len() == blocks.len(),
            block_cues(cue_views(old(cues)@), all, offset_sec) == block_cues(
                cue_views(cues@),
                all.skip(i as int),
                offset_sec,
            ),
        decreases blocks.len() - i,
    {
        let block = trim_chars(blocks[i].as_slice());
        proof {
            assert(all.skip(i as int)[0] == blocks@[i as int]@);
            assert(all.skip(i as int).skip(1) =~= all.skip(i + 1));
        }
        if block.len() > 0 {
            match parse_block(&block, offset_sec) {
                Ok(cue) => {
                    let ghost before = cues@;
                    cues.push(cue);
                    assert(cue_views(cues@) =~= cue_views(before).push(cue@));
                },
                Err(e) => {
                    return Err(e);
                },
            }
        }
        i += 1;
    }
    Ok(())
}

/// Joins the subtitle tracks of clips into one track for their merged video:
/// each cue is moved by its clip's offset, and the cues are numbered from one.
pub fn concat_srt(parts: &[SrtPart<'_>]) -> (r: Result<String, CoreError>)
    ensures
        match part_cues(seq![], parts@) {
            Ok(cues) => r matches Ok(t) && t@ == cues_text(cues),
            Err(e) => r matches Err(f) && f@ == e,
        },
{
    let mut cues: Vec<Cue> = Vec::new();
    let gap = chars_of("\n\n");
    let mut i: usize = 0;
    proof {
        reveal_strlit("\n\n");
        assert(gap.len() == 2);
        assert(parts@.skip(0) =~= parts@);
        assert(cue_views(cues@) =~= seq![]);
    }
    while i < parts.len()
        invariant
            i <= parts.len(),
            gap@ == "\n\n"@,
            gap.len() == 2,
            part_cues(seq![], parts@) == part_cues(cue_views(cues@), parts@.skip(i as int)),
        decreases parts.len() - i,
    {
        proof {
            assert(parts@.skip(i as int)[0] == parts@[i as int]);
            assert(parts@.skip(i as int).skip(1) =~= parts@.skip(i + 1));
        }
        let all = chars_of(parts[i].srt);
        let plain = remove_returns(all.as_slice());
        let blocks = split_by(plain.as_slice(), gap.as_slice());
        match read_blocks(&mut cues, &blocks, parts[i].offset_sec) {
            Ok(_) => {},
            Err(e) => {
                return Err(e);
            },
        }
        i += 1;
    }
    let mut out = String::new();
    let mut k: usize = 0;
    proof {
        reveal_strlit("");
        assert(out@ =~= cues_text(cue_views(cues@).take(0)));
    }
    while k < cues.len()
        invariant
            k <= cues.len(),
            out@ == cues_text(cue_views(cues@).take(k as int)),
        decreases cues.len() - k,
    {
        let c = &cues[k];
        proof {
            assert(cue_views(cues@).take(k + 1).drop_last() =~= cue_views(cues@).take(k as int));
        }
        push_cue(&mut out, k as u64 + 1, c.start, c.end, c.text.as_str());
        k += 1;
    }
    assert(cue_views(cues@).take(k as int) =~= cue_views(cues@));
    Ok(out)
}

} // verus!
