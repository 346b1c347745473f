//! What comes first and what stays behind it.

use vstd::prelude::*;

use crate::binary64::Real;
use crate::dive_log::{by_time, with_sample};
use crate::lookup::{ascending, last_not_after};
use crate::merge::{clips_ordered, in_dive_order, law_sorting_orders_clips, with_clip};
use crate::model::{ClipView, DiveSample};
use crate::session::{text_before, with_found, FoundClip};

verus! {

/// Clips are joined in the order in which they start in the dive; of those that start
/// together the ones without a recording time come first, then those recorded earlier.
pub proof fn law_clips_by_start(clips: Seq<ClipView>, i: int, j: int)
    requires
        clips_ordered(clips),
        0 <= i < j < in_dive_order(clips).len(),
    ensures
        ({
            let a = in_dive_order(clips)[i];
            let b = in_dive_order(clips)[j];
            &&& a.dive_start_sec.value() <= b.dive_start_sec.value()
            &&& a.dive_start_sec.value() == b.dive_start_sec.value()
                && b.video_start_utc.is_none() ==> a.video_start_utc.is_none()
            &&& a.dive_start_sec.value() == b.dive_start_sec.value()
                && a.video_start_utc.is_some() && b.video_start_utc.is_some()
                ==> a.video_start_utc->0.secs <= b.video_start_utc->0.secs
        }),
{
    law_sorting_orders_clips(clips);
    let all = in_dive_order(clips);
    assert(!all[i].dive_start_sec.nan() && !all[j].dive_start_sec.nan());
}

/// Clips that start together and were recorded together keep their order.
pub proof fn law_equal_clips_keep_their_order(clips: Seq<ClipView>, x: ClipView)
    requires
        clips.len() > 0,
        clips.last().dive_start_sec == x.dive_start_sec,
        clips.last().video_start_utc == x.video_start_utc,
    ensures
        with_clip(clips, x) == clips.push(x),
{
}

/// Samples of the same time keep their order.
pub proof fn law_equal_samples_keep_their_order(samples: Seq<DiveSample>, x: DiveSample)
    requires
        samples.len() > 0,
        samples.last().elapsed_sec == x.elapsed_sec,
        !x.elapsed_sec.nan(),
    ensures
        with_sample(samples, x) == samples.push(x),
{
}

/// A log whose samples stand in the order of their times stays as it is.
pub proof fn law_ordered_log_stays(samples: Seq<DiveSample>)
    requires
        forall|i: int| 0 <= i < samples.len() ==> !(#[trigger] samples[i]).elapsed_sec.nan(),
        forall|i: int, j: int|
            #![trigger samples[i], samples[j]]
            0 <= i < j < samples.len() ==> samples[i].elapsed_sec.value()
                <= samples[j].elapsed_sec.value(),
    ensures
        by_time(samples) == samples,
    decreases samples.len(),
{
    if samples.len() > 0 {
        let rest = samples.drop_last();
        assert forall|i: int| 0 <= i < rest.len() implies !(#[trigger] rest[i]).elapsed_sec.nan() by {
            assert(rest[i] == samples[i]);
        }
        assert forall|i: int, j: int|
            #![trigger rest[i], rest[j]]
            0 <= i < j < rest.len() implies rest[i].elapsed_sec.value()
            <= rest[j].elapsed_sec.value() by {
            assert(rest[i] == samples[i] && rest[j] == samples[j]);
        }
        law_ordered_log_stays(rest);
        let x = samples[samples.len() - 1];
        if rest.len() > 0 {
            let y = samples[rest.len() - 1];
            assert(rest.last() == y);
        }
        assert(rest.push(x) =~= samples);
    } else {
        assert(by_time(samples) =~= samples);
    }
}

/// Files of the same time and name keep their order.
pub proof fn law_equal_files_keep_their_order(files: Seq<FoundClip>, x: FoundClip)
    requires
        files.len() > 0,
        files.last().recorded_at == x.recorded_at,
        files.last().name@ == x.name@,
    ensures
        with_found(files, x) == files.push(x),
{
    lemma_not_before_itself(x.name@);
}

proof fn lemma_not_before_itself(s: Seq<char>)
    ensures
        !text_before(s, s),
    decreases s.len(),
{
    if s.len() > 0 {
        lemma_not_before_itself(s.skip(1));
    }
}

/// The sample that holds at a moment is the last one that is not after it: at its own
/// time a sample holds already, and before the first one none does.
pub proof fn law_sample_at_a_moment(times: Seq<Real>, moment: Real, i: int)
    requires
        ascending(times),
        !moment.nan(),
        0 <= i < times.len(),
    ensures
        times[i].value() <= moment.value() && (i + 1 < times.len() ==> moment.value() < times[i
            + 1].value()) ==> last_not_after(times, moment, times.len()) == Some(i as nat),
        moment.value() < times[0].value() ==> last_not_after(times, moment, times.len()).is_none(),
{
    assert forall|k: int| i < k < times.len() && i + 1 < times.len() implies times[i + 1].value()
        <= (#[trigger] times[k]).value() by {
        if k > i + 1 {
            assert(times[i + 1].at_most(times[k]));
        }
    }
    assert forall|k: int| 0 <= k < times.len() implies times[0].value() <= (
    #[trigger] times[k]).value() by {
        if k > 0 {
            assert(times[0].at_most(times[k]));
        }
    }
    lemma_found(times, moment, times.len(), i);
}

proof fn lemma_found(times: Seq<Real>, moment: Real, n: nat, i: int)
    requires
        n <= times.len(),
        0 <= i < times.len(),
        !moment.nan(),
        forall|k: int| 0 <= k < times.len() ==> !(#[trigger] times[k]).nan(),
    ensures
        i < n && times[i].value() <= moment.value() && (forall|k: int|
            i < k < n ==> moment.value() < (#[trigger] times[k]).value()) ==> last_not_after(
            times,
            moment,
            n,
        ) == Some(i as nat),
        (forall|k: int| 0 <= k < n ==> moment.value() < (#[trigger] times[k]).value())
            ==> last_not_after(times, moment, n).is_none(),
    decreases n,
{
    if n > 0 {
        assert(!times[n - 1].nan());
        lemma_found(times, moment, (n - 1) as nat, i);
    }
}

} // verus!
