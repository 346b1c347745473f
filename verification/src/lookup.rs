//! Which sample holds at a moment of a dive.

use vstd::prelude::*;

use crate::binary64::Real;

verus! {

/// Whether times are in ascending order, none of them no number.
pub open spec fn ascending(times: Seq<Real>) -> bool {
    &&& forall|i: int| 0 <= i < times.len() ==> !(#[trigger] times[i]).nan()
    &&& forall|i: int, j: int|
        #![trigger times[i], times[j]]
        0 <= i < j < times.len() ==> times[i].at_most(times[j])
}

/// Whether the sample at a position is the last one that is not after a moment.
pub open spec fn holds_at(times: Seq<Real>, moment: Real, i: int) -> bool {
    &&& 0 <= i < times.len()
    &&& times[i].at_most(moment)
    &&& forall|j: int| i < j < times.len() ==> !(#[trigger] times[j]).at_most(moment)
}

/// The position of the last of the first `n` times that is not after a moment.
pub open spec fn last_not_after(times: Seq<Real>, moment: Real, n: nat) -> Option<nat>
    decreases n,
{
    if n == 0 {
        None
    } else if times[n - 1].at_most(moment) {
        Some((n - 1) as nat)
    } else {
        last_not_after(times, moment, (n - 1) as nat)
    }
}

pub proof fn lemma_last_not_after(times: Seq<Real>, moment: Real, n: nat)
    requires
        n <= times.len(),
    ensures
        match last_not_after(times, moment, n) {
            Some(i) => i < n && times[i as int].at_most(moment) && forall|j: int|
                i < j < n ==> !(#[trigger] times[j]).at_most(moment),
            None => forall|j: int| 0 <= j < n ==> !(#[trigger] times[j]).at_most(moment),
        },
    decreases n,
{
    if n > 0 && !times[n - 1].at_most(moment) {
        lemma_last_not_after(times, moment, (n - 1) as nat);
    }
}

/// The index of the last time that is not after `dive_sec`, or `None` where all
/// of them are.
pub fn choose_sample_index(times: &[Real], dive_sec: Real) -> (r: Option<usize>)
    requires
        ascending(times@),
    ensures
        match r {
            Some(i) => last_not_after(times@, dive_sec, times@.len()) == Some(i as nat),
            None => last_not_after(times@, dive_sec, times@.len()).is_none(),
        },
        match r {
            Some(i) => holds_at(times@, dive_sec, i as int),
            None => forall|j: int| 0 <= j < times.len() ==> !(#[trigger] times@[j]).at_most(dive_sec),
        },
{
    let mut lo: usize = 0;
    let mut hi: usize = times.len();
    while lo < hi
        invariant
            lo <= hi <= times.len(),
            ascending(times@),
            forall|j: int| 0 <= j < lo ==> (#[trigger] times@[j]).at_most(dive_sec),
            forall|j: int| hi <= j < times.len() ==> !(#[trigger] times@[j]).at_most(dive_sec),
        decreases hi - lo,
    {
        let mid: usize = lo + (hi - lo) / 2;
        if times[mid].le(dive_sec) {
            lo = mid + 1;
        } else {
            hi = mid;
        }
    }
    proof {
        lemma_last_not_after(times@, dive_sec, times@.len());
        if lo > 0 {
            assert(times@[lo - 1].at_most(dive_sec));
        }
    }
    if lo == 0 {
        None
    } else {
        Some(lo - 1)
    }
}

/// In the order of their times the sample that holds at a later moment is not
/// an earlier one.
pub proof fn law_lookup_moves_forward(times: Seq<Real>, a: Real, b: Real, i: int, j: int)
    requires
        ascending(times),
        a.at_most(b),
        holds_at(times, a, i),
        holds_at(times, b, j),
    ensures
        i <= j,
{
}

/// Whether times are in ascending order, none of them no number.
pub fn is_ascending(times: &[Real]) -> (r: bool)
    ensures
        r == ascending(times@),
{
    let mut i: usize = 0;
    while i < times.len()
        invariant
            i <= times.len(),
            forall|k: int| 0 <= k < i ==> !(#[trigger] times@[k]).nan(),
            forall|k: int, j: int|
                #![trigger times@[k], times@[j]]
                0 <= k < j < i ==> times@[k].at_most(times@[j]),
        decreases times.len() - i,
    {
        if times[i].is_nan() {
            assert(times@[i as int].nan());
            return false;
        }
        if i > 0 && !times[i - 1].le(times[i]) {
            assert(!times@[i - 1].at_most(times@[i as int]));
            return false;
        }
        proof {
            assert forall|k: int| 0 <= k < i implies times@[k].at_most(times@[i as int]) by {
                assert(times@[i - 1].at_most(times@[i as int]));
                if k < i - 1 {
                    assert(times@[k].at_most(times@[i - 1]));
                }
            }
        }
        i += 1;
    }
    true
}

} // verus!
