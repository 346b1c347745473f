//! Whether a newer version has been released.

use vstd::prelude::*;

use crate::numeral::{parse_unsigned, unsigned_of};
use crate::text::{chars_of, part, split, split_chars, strip_start, text_of, texts};

verus! {

/// What is known of newer versions.
#[derive(Debug, Clone)]
pub enum UpdateStatus {
    Available { version: String, url: String },
    UpToDate,
    Error(String),
}

/// The number that a part of a version stands for; 0 where it is none.
pub open spec fn part_number(s: Seq<char>) -> nat {
    match unsigned_of(s, u32::MAX as nat) {
        Some(n) => n,
        None => 0,
    }
}

/// The numbers of a version.
pub open spec fn version_numbers(s: Seq<char>) -> Seq<nat> {
    split(s, '.').map_values(|p: Seq<char>| part_number(p))
}

/// Whether numbers come after other ones: the first difference decides, and more
/// numbers come after fewer.
pub open spec fn comes_after(a: Seq<nat>, b: Seq<nat>) -> bool
    decreases a.len(),
{
    if a.len() == 0 {
        false
    } else if b.len() == 0 {
        true
    } else if a[0] != b[0] {
        a[0] > b[0]
    } else {
        comes_after(a.skip(1), b.skip(1))
    }
}

/// The numbers as they are read.
pub open spec fn numbers_view(v: Seq<u64>) -> Seq<nat> {
    v.map_values(|n: u64| n as nat)
}

fn parse_version(v: &str) -> (r: Vec<u64>)
    ensures
        numbers_view(r@) == version_numbers(v@),
{
    let all = chars_of(v);
    let pieces = split_chars(all.as_slice(), '.');
    let mut r: Vec<u64> = Vec::new();
    let mut i: usize = 0;
    while i < pieces.len()
        invariant
            i <= pieces.len(),
            r.len() == i,
            forall|k: int| 0 <= k < i ==> (#[trigger] r@[k]) as nat == part_number(pieces@[k]@),
        decreases pieces.len() - i,
    {
        r.push(
            match parse_unsigned(pieces[i].as_slice(), u32::MAX as u64) {
                Some(n) => n,
                None => 0,
            },
        );
        i += 1;
    }
    proof {
        assert(texts(pieces@).len() == pieces.len());
        assert forall|k: int| 0 <= k < r@.len() implies numbers_view(r@)[k] == version_numbers(
            v@,
        )[k] by {
            assert(texts(pieces@)[k] == pieces@[k]@);
        }
        assert(numbers_view(r@) =~= version_numbers(v@));
    }
    r
}

/// Whether a version is newer than the current one.
pub fn is_newer(latest: &str, current: &str) -> (r: bool)
    ensures
        r == comes_after(version_numbers(latest@), version_numbers(current@)),
{
    let a = parse_version(latest);
    let b = parse_version(current);
    let ghost x = numbers_view(a@);
    let ghost y = numbers_view(b@);
    let mut i: usize = 0;
    proof {
        assert(x.skip(0) =~= x);
        assert(y.skip(0) =~= y);
    }
    while i < a.len() && i < b.len()
        invariant
            i <= a.len(),
            i <= b.len(),
            x == numbers_view(a@),
            y == numbers_view(b@),
            x == version_numbers(latest@),
            y == version_numbers(current@),
            comes_after(x, y) == comes_after(x.skip(i as int), y.skip(i as int)),
        decreases a.len() - i,
    {
        proof {
            assert(x.skip(i as int)[0] == a@[i as int] as nat);
            assert(y.skip(i as int)[0] == b@[i as int] as nat);
            assert(x.skip(i as int).skip(1) =~= x.skip(i + 1));
            assert(y.skip(i as int).skip(1) =~= y.skip(i + 1));
        }
        if a[i] != b[i] {
            return a[i] > b[i];
        }
        i += 1;
    }
    i < a.len()
}

/// No version is newer than itself, and of two versions at most one is newer than
/// the other.
pub proof fn law_newer_is_strict(a: Seq<nat>, b: Seq<nat>)
    ensures
        !comes_after(a, a),
        !(comes_after(a, b) && comes_after(b, a)),
    decreases a.len(),
{
    if a.len() > 0 {
        law_newer_is_strict(a.skip(1), b.skip(1));
    }
}

/// Decides whether a release is newer than the current version. The release's
/// name may start with a `v`.
pub fn judge_release(tag_name: String, url: String, current: &str) -> (r: UpdateStatus)
    ensures
        r == if comes_after(
            version_numbers(strip_start(tag_name@, 'v')),
            version_numbers(current@),
        ) {
            UpdateStatus::Available { version: tag_name, url }
        } else {
            UpdateStatus::UpToDate
        },
{
    let v = chars_of(tag_name.as_str());
    let mut from: usize = 0;
    assert(v@.skip(0) =~= v@);
    while from < v.len() && v[from] == 'v'
        invariant
            from <= v.len(),
            strip_start(v@, 'v') == strip_start(v@.skip(from as int), 'v'),
        decreases v.len() - from,
    {
        assert(v@.skip(from as int).skip(1) =~= v@.skip(from + 1));
        from += 1;
    }
    let latest = part(v.as_slice(), from, v.len());
    proof {
        assert(latest@ =~= v@.skip(from as int));
    }
    if is_newer(text_of(latest.as_slice()).as_str(), current) {
        UpdateStatus::Available { version: tag_name, url }
    } else {
        UpdateStatus::UpToDate
    }
}

} // verus!
