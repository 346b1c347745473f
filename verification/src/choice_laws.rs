//! Which encoder and which version is chosen.

use vstd::prelude::*;

use crate::pipeline::{chosen_hardware, first_success, next_candidate, Codec, ENABLED_HW_CANDIDATES};
use crate::subtitle_laws::{lemma_digits_have_no, lemma_split_behind};
use crate::text::{all_digits, digits_value, is_digit, split};
use crate::update_check::{comes_after, part_number, version_numbers};

verus! {

proof fn lemma_first_success(outcomes: Seq<bool>, i: int)
    requires
        0 <= i <= outcomes.len(),
        forall|k: int| 0 <= k < i ==> !#[trigger] outcomes[k],
        i < outcomes.len() ==> outcomes[i],
    ensures
        first_success(outcomes) == i,
    decreases outcomes.len(),
{
    if i > 0 {
        assert(!outcomes[0]);
        let rest = outcomes.skip(1);
        assert forall|k: int| 0 <= k < i - 1 implies !#[trigger] rest[k] by {
            assert(rest[k] == outcomes[k + 1]);
        }
        lemma_first_success(rest, i - 1);
    }
}

/// The first encoder in hardware whose trial succeeded is taken, where one was asked
/// for and the codec has any.
pub proof fn law_first_working_hardware(
    codec: Codec,
    width: u32,
    height: u32,
    outcomes: Seq<bool>,
    i: int,
)
    requires
        codec == Codec::Auto || codec == Codec::H264 || codec == Codec::H265,
        width > 0,
        height > 0,
        0 <= i < outcomes.len(),
        i < 3,
        outcomes[i],
        forall|k: int| 0 <= k < i ==> !#[trigger] outcomes[k],
    ensures
        chosen_hardware(codec, true, width, height, outcomes) == Some(
            ENABLED_HW_CANDIDATES@[i],
        ),
{
    lemma_first_success(outcomes, i);
    assert(ENABLED_HW_CANDIDATES@.len() == 3);
}

/// Hardware is never taken where none was asked for, where no trial succeeded, where the
/// codec has none, or for a picture without pixels.
pub proof fn law_software_otherwise(
    codec: Codec,
    hw_accel: bool,
    width: u32,
    height: u32,
    outcomes: Seq<bool>,
)
    requires
        !hw_accel || width == 0 || height == 0 || codec == Codec::Mpeg4 || codec == Codec::Xvid
            || codec == Codec::Mjpeg || forall|k: int|
            0 <= k < outcomes.len() ==> !#[trigger] outcomes[k],
    ensures
        chosen_hardware(codec, hw_accel, width, height, outcomes).is_none(),
{
    if forall|k: int| 0 <= k < outcomes.len() ==> !#[trigger] outcomes[k] {
        lemma_first_success(outcomes, outcomes.len() as int);
    }
}

/// Each encoder in hardware is tried in its turn until one works.
pub proof fn law_trials_in_turn(codec: Codec, hw_accel: bool, outcomes: Seq<bool>)
    requires
        codec == Codec::Auto || codec == Codec::H264 || codec == Codec::H265,
    ensures
        hw_accel && outcomes.len() < 3 && (forall|k: int|
            0 <= k < outcomes.len() ==> !#[trigger] outcomes[k]) ==> next_candidate(
            codec,
            hw_accel,
            outcomes,
        ) == Some(ENABLED_HW_CANDIDATES@[outcomes.len() as int]),
        !hw_accel ==> next_candidate(codec, hw_accel, outcomes).is_none(),
        (exists|k: int| 0 <= k < outcomes.len() && #[trigger] outcomes[k]) ==> next_candidate(
            codec,
            hw_accel,
            outcomes,
        ).is_none(),
{
    if forall|k: int| 0 <= k < outcomes.len() ==> !#[trigger] outcomes[k] {
        lemma_first_success(outcomes, outcomes.len() as int);
    } else {
        lemma_some_success(outcomes);
    }
    assert(ENABLED_HW_CANDIDATES@.len() == 3);
}

proof fn lemma_some_success(outcomes: Seq<bool>)
    requires
        exists|k: int| 0 <= k < outcomes.len() && #[trigger] outcomes[k],
    ensures
        first_success(outcomes) < outcomes.len(),
    decreases outcomes.len(),
{
    let k = choose|k: int| 0 <= k < outcomes.len() && #[trigger] outcomes[k];
    if !outcomes[0] {
        assert(outcomes.skip(1)[k - 1]);
        lemma_some_success(outcomes.skip(1));
    }
}

/// Of two versions the first number that differs decides which is newer.
pub proof fn law_first_difference_decides(a: Seq<nat>, b: Seq<nat>, i: int)
    requires
        0 <= i < a.len(),
        i < b.len(),
        a[i] != b[i],
        forall|k: int| 0 <= k < i ==> #[trigger] a[k] == b[k],
    ensures
        comes_after(a, b) == (a[i] > b[i]),
    decreases i,
{
    if i > 0 {
        assert(a[0] == b[0]);
        assert forall|k: int| 0 <= k < i - 1 implies #[trigger] a.skip(1)[k] == b.skip(1)[k] by {
            assert(a[k + 1] == b[k + 1]);
        }
        law_first_difference_decides(a.skip(1), b.skip(1), i - 1);
    }
}

/// A version with more numbers behind those of another one is newer, and none is newer
/// than itself.
pub proof fn law_more_numbers_are_newer(a: Seq<nat>, more: Seq<nat>)
    ensures
        comes_after(a + more, a) == (more.len() > 0),
        !comes_after(a, a + more),
    decreases a.len(),
{
    if a.len() == 0 {
        assert(a + more =~= more);
    } else {
        assert((a + more).skip(1) =~= a.skip(1) + more);
        law_more_numbers_are_newer(a.skip(1), more);
    }
}

/// A version is read as its numbers.
pub proof fn law_version_reads(a: Seq<char>, b: Seq<char>, c: Seq<char>)
    requires
        all_digits(a),
        all_digits(b),
        all_digits(c),
        digits_value(a) <= u32::MAX,
        digits_value(b) <= u32::MAX,
        digits_value(c) <= u32::MAX,
    ensures
        version_numbers(a + seq!['.'] + (b + seq!['.'] + c)) == seq![
            digits_value(a),
            digits_value(b),
            digits_value(c),
        ],
{
    let u = b + seq!['.'] + c;
    lemma_digits_have_no(a, '.');
    lemma_digits_have_no(b, '.');
    lemma_digits_have_no(c, '.');
    lemma_split_behind(a, '.', u);
    lemma_split_behind(b, '.', c);
    assert(split(c, '.') =~= seq![c]);
    assert(split(a + seq!['.'] + u, '.') =~= seq![a, b, c]);
    assert(is_digit(a[0]) && is_digit(b[0]) && is_digit(c[0]));
    assert(version_numbers(a + seq!['.'] + u) =~= seq![
        digits_value(a),
        digits_value(b),
        digits_value(c),
    ]);
}

/// Each part of a version between points counts for itself: as its number, and as zero
/// where it is none.
pub proof fn law_parts_of_a_version(s: Seq<char>, i: int)
    requires
        0 <= i < split(s, '.').len(),
    ensures
        version_numbers(s).len() == split(s, '.').len(),
        all_digits(split(s, '.')[i]) && digits_value(split(s, '.')[i]) <= u32::MAX
            ==> version_numbers(s)[i] == digits_value(split(s, '.')[i]),
        split(s, '.')[i].len() == 0 ==> version_numbers(s)[i] == 0,
        split(s, '.')[i].len() > 0 && split(s, '.')[i][0] != '+' && !all_digits(split(s, '.')[i])
            ==> version_numbers(s)[i] == 0,
{
    let p = split(s, '.')[i];
    assert(version_numbers(s)[i] == part_number(p));
    if all_digits(p) {
        assert(is_digit(p[0]));
    }
}

} // verus!
