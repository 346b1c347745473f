//! How clips are joined.

use vstd::arithmetic::power2::{lemma2_to64, lemma2_to64_rest};
use vstd::prelude::*;

use crate::binary64::{
    lemma_exact, lemma_finite_error, lemma_nat_size, lemma_negated, lemma_self_difference,
    lemma_signed_int_sum, lemma_size_at_most, lemma_size_order, lemma_small_int, lemma_zero_bits,
    unit, Real,
};
use crate::cell_laws::lemma_nothing_replaced;
use crate::error::ErrorView;
use crate::merge::{
    alike, concat_list, largest_fps, largest_part, law_largest_part, offset_parts, route_of,
    summed_seconds, target_of, uniform, MergeRoute, PartInfo,
};
use crate::nearest::{lemma_nearest_monotone, lemma_pow2_le, nearest_magnitude, TWO52};
use crate::pipeline::OutputMode;
use crate::subtitle::SrtPart;

verus! {

/// A difference that is rounded to less than a number is less than that number.
proof fn lemma_less_apart(a: Real, b: Real, most: Real)
    requires
        a.difference(b).absolute().less(most),
        most.finite(),
        !most.negative(),
    ensures
        a.finite(),
        b.finite(),
        -most.value() < a.value() - b.value() < most.value(),
{
    reveal(Real::sum);
    let d = a.difference(b);
    let y = b.negated();
    assert(d.absolute().magnitude() == d.magnitude());
    assert(!d.absolute().negative() || d.nan());
    lemma_size_order(d.absolute(), most);
    assert(d.finite());
    assert(y.magnitude() == b.magnitude());
    lemma_negated(b);
    let e = a.value() - b.value();
    let n: nat = if e < 0 {
        (-e) as nat
    } else {
        e as nat
    };
    lemma_size_order(d, d);
    lemma_size_order(most, most);
    if n >= most.size() {
        lemma_exact(most.magnitude());
        lemma_nearest_monotone(most.size(), 1, n, 1);
        if n > 0 {
            assert(d.magnitude() == nearest_magnitude(n, 1));
            lemma_size_at_most(most.magnitude(), d.magnitude());
        }
    }
}

/// A hundredth is close to a hundredth.
proof fn lemma_hundredth()
    ensures
        Real::of_ratio(1, 100).finite(),
        !Real::of_ratio(1, 100).negative(),
        99 * Real::of_ratio(1, 100).value() < unit(),
        Real::of_ratio(1, 100).value() > 0,
{
    let u = unit();
    lemma_nat_size(1);
    assert(1 * u == u);
    let h = Real::of_ratio(1, 100);
    lemma_nearest_monotone(u, 100, u, 1);
    assert(h.magnitude() == nearest_magnitude(u, 100));
    lemma_finite_error(u, 100);
    lemma2_to64();
    lemma2_to64_rest();
    lemma_pow2_le(60, 1074);
    lemma_size_order(h, h);
}

/// Where parts are joined as they are no two of them differ in the size of their
/// pictures or in having sound, and their frame rates are nearly the same.
pub proof fn law_copied_parts_are_alike(parts: Seq<PartInfo>, mode: OutputMode, i: int, j: int)
    requires
        route_of(parts, mode) == Ok::<MergeRoute, ErrorView>(MergeRoute::Copy),
        0 <= i < parts.len(),
        0 <= j < parts.len(),
    ensures
        parts[i].width == parts[j].width,
        parts[i].height == parts[j].height,
        parts[i].has_audio == parts[j].has_audio,
        parts[i].fps.finite(),
        -(unit() as int) < 49 * (parts[i].fps.value() - parts[j].fps.value()) < unit(),
{
    assert(alike(parts[i], parts[0]));
    assert(alike(parts[j], parts[0]));
    lemma_hundredth();
    lemma_less_apart(parts[i].fps, parts[0].fps, Real::of_ratio(1, 100));
    lemma_less_apart(parts[j].fps, parts[0].fps, Real::of_ratio(1, 100));
}

/// Parts of the same size and frame rate, all with sound or all without, are joined as
/// they are.
pub proof fn law_same_parts_are_copied(parts: Seq<PartInfo>, mode: OutputMode)
    requires
        forall|i: int, j: int|
            #![trigger parts[i], parts[j]]
            0 <= i < parts.len() && 0 <= j < parts.len() ==> parts[i].width == parts[j].width
                && parts[i].height == parts[j].height && parts[i].has_audio == parts[j].has_audio
                && parts[i].fps == parts[j].fps && parts[i].fps.finite(),
    ensures
        route_of(parts, mode) == Ok::<MergeRoute, ErrorView>(MergeRoute::Copy),
{
    lemma_hundredth();
    assert forall|i: int| 0 <= i < parts.len() implies alike(#[trigger] parts[i], parts[0]) by {
        let f = parts[i].fps;
        assert(parts[i].width == parts[0].width && f == parts[0].fps);
        lemma_self_difference(f);
        lemma_zero_bits();
        let z = Real { bits: 0 };
        assert(z.absolute() == z);
    }
}

/// Two parts that differ are never joined as they are: they are encoded again, or with
/// subtitles refused.
pub proof fn law_different_parts_are_not_copied(
    parts: Seq<PartInfo>,
    mode: OutputMode,
    i: int,
    j: int,
)
    requires
        0 <= i < parts.len(),
        0 <= j < parts.len(),
        parts[i].width != parts[j].width || parts[i].height != parts[j].height
            || parts[i].has_audio != parts[j].has_audio || 49 * (parts[i].fps.value()
            - parts[j].fps.value()) >= unit(),
    ensures
        mode == OutputMode::Overlay ==> route_of(parts, mode) == Ok::<MergeRoute, ErrorView>(
            MergeRoute::Reencode,
        ),
        mode == OutputMode::Subtitles ==> route_of(parts, mode) is Err,
{
    if uniform(parts) {
        law_copied_parts_are_alike(parts, mode, i, j);
    }
}

/// Parts that are encoded again get the size of one of them that is at least as large as
/// every other, with even sides, and sound where any of them has it.
pub proof fn law_target_of_parts(parts: Seq<PartInfo>) -> (k: int)
    requires
        parts.len() > 0,
    ensures
        0 <= k < parts.len(),
        target_of(parts).width == parts[k].width - parts[k].width % 2,
        target_of(parts).height == parts[k].height - parts[k].height % 2,
        forall|i: int|
            0 <= i < parts.len() ==> (#[trigger] parts[i]).width as nat * parts[i].height as nat
                <= parts[k].width as nat * parts[k].height as nat,
        target_of(parts).with_audio <==> exists|i: int|
            0 <= i < parts.len() && (#[trigger] parts[i]).has_audio,
{
    let k = largest_part(parts, parts.len()) as int;
    law_largest_part(parts, parts.len(), 0);
    assert forall|i: int| 0 <= i < parts.len() implies (#[trigger] parts[i]).width as nat
        * parts[i].height as nat <= parts[k].width as nat * parts[k].height as nat by {
        law_largest_part(parts, parts.len(), i);
    }
    k
}

/// Parts that are encoded again get the largest of their frame rates.
pub proof fn law_target_rate(parts: Seq<PartInfo>, n: nat) -> (k: int)
    requires
        0 < n <= parts.len(),
        forall|i: int|
            0 <= i < parts.len() ==> (#[trigger] parts[i]).fps.finite() && parts[i].fps.value() > 0,
    ensures
        0 <= k < n,
        largest_fps(parts, n).value() == parts[k].fps.value(),
        !largest_fps(parts, n).nan(),
        forall|i: int|
            0 <= i < n ==> (#[trigger] parts[i]).fps.value() <= largest_fps(parts, n).value(),
        n == parts.len() ==> target_of(parts).fps == largest_fps(parts, n),
    decreases n,
{
    lemma_small_int(0);
    assert(0 * unit() == 0);
    let last = (n - 1) as int;
    assert(parts[last].fps.finite());
    if n == 1 {
        assert(largest_fps(parts, 0) == Real::of_int(0));
        0
    } else {
        let k = law_target_rate(parts, (n - 1) as nat);
        let best = largest_fps(parts, (n - 1) as nat);
        if parts[last].fps.value() < best.value() {
            k
        } else {
            last
        }
    }
}

/// The length of parts of whole seconds is the sum of their lengths.
pub proof fn law_lengths_add_up(durations: Seq<Real>, n: nat, total: int, d: int)
    requires
        0 < n <= durations.len(),
        summed_seconds(durations, (n - 1) as nat) == Real::of_int(total),
        durations[n - 1] == Real::of_int(d),
        -(TWO52 as int) < total < TWO52,
        -(TWO52 as int) < d < TWO52,
    ensures
        summed_seconds(durations, n) == Real::of_int(total + d),
        summed_seconds(durations, 0) == Real::of_int(0),
{
    lemma_signed_int_sum(total, d);
}

/// The track of the second part is moved by the length of the first one, that of the
/// first part not at all.
pub proof fn law_tracks_follow_each_other(
    texts: Seq<String>,
    durations: Seq<Real>,
    parts: Seq<SrtPart<'_>>,
    d: int,
)
    requires
        offset_parts(texts, durations, parts),
        texts.len() >= 2,
        durations.len() >= 2,
        durations[0] == Real::of_int(d),
        -(TWO52 as int) < d < TWO52,
    ensures
        parts[0].offset_sec == Real::of_int(0),
        parts[1].offset_sec == Real::of_int(d),
        parts[0].srt@ == texts[0]@,
        parts[1].srt@ == texts[1]@,
{
    law_lengths_add_up(durations, 1, 0, d);
}

/// The list of files to join has a line for each file, in the order of the files; a path
/// without marks stands there as it is.
pub proof fn law_list_of_files(paths: Seq<Seq<char>>, path: Seq<char>)
    requires
        !path.contains('\\'),
        !path.contains('\''),
    ensures
        concat_list(paths.push(path)) == concat_list(paths) + ("file '"@ + path + "'\n"@),
{
    assert(paths.push(path).drop_last() =~= paths);
    lemma_nothing_replaced(path, '\\', "/"@);
    lemma_nothing_replaced(path, '\'', "'\\''"@);
}

} // verus!
