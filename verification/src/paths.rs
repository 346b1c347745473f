//! Names of files in paths.
//!
//! How a path is taken apart is the platform's: a slash always separates its parts, a
//! backslash only on some. What is stated here holds on every platform: a path is read
//! in one of these two ways. Where it has no backslash both are the same.

use vstd::prelude::*;

use crate::text::after_last;

verus! {

/// Whether a character separates the parts of a path, where a backslash does or does
/// not.
pub open spec fn separates(c: char, backslash: bool) -> bool {
    c == '/' || (backslash && c == '\\')
}

/// Where the last part of a path starts.
pub open spec fn name_start(path: Seq<char>, backslash: bool) -> nat
    decreases path.len(),
{
    if path.len() == 0 {
        0
    } else if separates(path.last(), backslash) {
        path.len()
    } else {
        name_start(path.drop_last(), backslash)
    }
}

/// What stands behind the last separator of a path.
pub open spec fn last_part(path: Seq<char>, backslash: bool) -> Seq<char> {
    path.skip(name_start(path, backslash) as int)
}

/// A path up to its last separator and with it.
pub open spec fn folder(path: Seq<char>, backslash: bool) -> Seq<char> {
    path.take(name_start(path, backslash) as int)
}

/// A file name without its extension.
pub open spec fn stem(name: Seq<char>) -> Seq<char> {
    let at = after_last(name, '.') as int;
    if at <= 1 {
        name
    } else {
        name.take(at - 1)
    }
}

/// Whether a text starts with two separators of either kind.
pub open spec fn starts_with_two(path: Seq<char>) -> bool {
    path.len() >= 2 && separates(path[0], true) && separates(path[1], true)
}

/// Whether a last part of a path is a file name, whose stem is more than a dot.
pub open spec fn is_name(name: Seq<char>) -> bool {
    name.len() > 0 && stem(name) != "."@
}

/// Whether a path ends in a file name on every platform, without a drive before it,
/// and does not start with two separators.
pub open spec fn ends_in_file_name(path: Seq<char>) -> bool {
    &&& !starts_with_two(path)
    &&& is_name(last_part(path, false))
    &&& is_name(last_part(path, true))
    &&& !last_part(path, true).contains(':')
}

/// Whether a text is a file name on every platform.
pub open spec fn is_file_name(name: Seq<char>) -> bool {
    &&& name.len() > 0
    &&& !name.contains('/')
    &&& !name.contains('\\')
    &&& !name.contains(':')
}

/// Whether the directory before a file name ends otherwise than in a separator more or
/// in a dot behind a separator, which both would be left out.
pub open spec fn is_tidy_folder(path: Seq<char>, backslash: bool) -> bool {
    let n = name_start(path, backslash) as int;
    n >= 2 ==> !separates(path[n - 2], backslash) && !(n >= 3 && path[n - 2] == '.' && separates(
        path[n - 3],
        backslash,
    ))
}

/// Whether a path ends in a file name that no backslash starts behind a slash.
pub open spec fn has_directory(path: Seq<char>) -> bool {
    &&& ends_in_file_name(path)
    &&& last_part(path, false)[0] == '\\' ==> name_start(path, false) == 0
}

/// Whether a path ends in a file name behind a directory that keeps its text.
pub open spec fn is_tidy(path: Seq<char>) -> bool {
    &&& has_directory(path)
    &&& is_tidy_folder(path, false)
    &&& is_tidy_folder(path, true)
}

/// The parts of a path. A separator more and a dot behind a separator are none.
pub open spec fn parts(path: Seq<char>, backslash: bool) -> Seq<Seq<char>>
    decreases path.len(),
{
    let n = name_start(path, backslash);
    let last = last_part(path, backslash);
    let before = if 0 < n <= path.len() {
        parts(path.take(n - 1), backslash)
    } else {
        seq![]
    };
    if last.len() == 0 || (last == "."@ && n > 0) {
        before
    } else {
        before.push(last)
    }
}

/// Whether two paths are the same: with the same parts, and both from the root or not.
pub open spec fn same_path(a: Seq<char>, b: Seq<char>, backslash: bool) -> bool {
    &&& parts(a, backslash) == parts(b, backslash)
    &&& (a.len() > 0 && separates(a[0], backslash)) == (b.len() > 0 && separates(b[0], backslash))
}

/// Whether a path is the same as that of a file with a name in the directory of another
/// path. A name that holds a drive or starts at the root stands for itself.
pub open spec fn is_sibling(r: Seq<char>, path: Seq<char>, name: Seq<char>) -> bool {
    ||| same_path(r, folder(path, false) + name, false)
    ||| same_path(r, folder(path, true) + name, true)
    ||| !is_file_name(name) && r == name
}

/// Whether a text ends in another one.
pub open spec fn ends_with(s: Seq<char>, end: Seq<char>) -> bool {
    end.len() <= s.len() && s.skip(s.len() - end.len()) == end
}

/// Whether a path is that of a file with a name in a directory, which is given up to
/// its last separator and with it. A directory may be left out. The separator stays,
/// or gives way to a backslash, which rests on the platform.
pub open spec fn is_file_in(path: Seq<char>, folder: Seq<char>, name: Seq<char>) -> bool {
    path == folder + name || (folder.len() >= 2 && path == folder.drop_last() + "\\"@ + name)
}

/// Whether a path is that of a file with a name in the directory of another path. A
/// name that holds a drive or starts at the root stands for itself.
pub open spec fn is_beside(r: Seq<char>, path: Seq<char>, name: Seq<char>) -> bool {
    ||| is_file_in(r, folder(path, false), name)
    ||| is_file_in(r, folder(path, true), name)
    ||| !is_file_name(name) && r == name
}

/// A path with another extension.
pub open spec fn extended(path: Seq<char>, extension: Seq<char>, backslash: bool) -> Seq<char> {
    folder(path, backslash) + stem(last_part(path, backslash)) + "."@ + extension
}

/// Whether a path is another one with another extension.
pub open spec fn is_extended(r: Seq<char>, path: Seq<char>, extension: Seq<char>) -> bool {
    r == extended(path, extension, false) || r == extended(path, extension, true)
}

/// Whether a text is the last part of a path.
pub open spec fn is_last_part(r: Seq<char>, path: Seq<char>) -> bool {
    r == last_part(path, false) || r == last_part(path, true)
}

/// A path without a backslash is read in one way only.
pub proof fn law_one_reading(path: Seq<char>)
    requires
        !path.contains('\\'),
    ensures
        name_start(path, true) == name_start(path, false),
        last_part(path, true) == last_part(path, false),
        folder(path, true) == folder(path, false),
    decreases path.len(),
{
    if path.len() > 0 {
        assert(path.contains(path[path.len() - 1]));
        let rest = path.drop_last();
        if rest.contains('\\') {
            let i = choose|i: int| 0 <= i < rest.len() && rest[i] == '\\';
            assert(path[i] == '\\');
        }
        law_one_reading(rest);
    }
}

/// `std::path::Path::file_stem`: the file name of a path without its extension. What
/// separates the file name rests on the platform. Of a path that ends in no file name
/// on some platform, or starts with two separators, nothing is said.
#[verifier::external_body]
fn file_stem(path: &str) -> (r: Option<String>)
    ensures
        ends_in_file_name(path@) ==> r.is_some() && (r->0@ == stem(last_part(path@, false)) || r->0@
            == stem(last_part(path@, true))),
{
    std::path::Path::new(path).file_stem().and_then(|s| s.to_str()).map(String::from)
}

/// `std::path::Path::file_name`: the last part of a path. What separates it rests on
/// the platform. Of a path that ends in no file name on some platform, or starts with
/// two separators, nothing is said.
#[verifier::external_body]
fn file_name(path: &str) -> (r: Option<String>)
    ensures
        ends_in_file_name(path@) ==> r.is_some() && is_last_part(r->0@, path@),
{
    std::path::Path::new(path).file_name().and_then(|s| s.to_str()).map(String::from)
}

/// Whether a name can be put in the place of the file name of a path: without a slash,
/// and at the root only where the path is.
pub open spec fn is_sibling_name(path: Seq<char>, name: Seq<char>) -> bool {
    &&& name.len() > 0
    &&& !name.contains('/')
    &&& !starts_with_two(name)
    &&& name[0] == '\\' ==> path[0] == '\\'
}

/// `std::path::Path::with_file_name`: a path with another file name and the same parent.
/// What separates the file name rests on the platform. The result has the parts of the
/// parent and the name behind them, with whose text it ends; where no part of the
/// directory is left out, its text is that of the directory too.
#[verifier::external_body]
fn with_file_name(path: &str, name: &str) -> (r: String)
    ensures
        has_directory(path@) && is_sibling_name(path@, name@) ==> {
            &&& is_sibling(r@, path@, name@)
            &&& ends_with(r@, name@)
            &&& !starts_with_two(r@)
        },
        is_tidy(path@) && is_sibling_name(path@, name@) ==> is_beside(r@, path@, name@),
{
    std::path::Path::new(path).with_file_name(name).to_string_lossy().into_owned()
}

/// The name under which a file is shown, given the file name of its path where
/// the path has one.
pub fn shown_name(name: Option<String>, path: &str) -> (r: String)
    ensures
        r@ == match name {
            Some(n) => n@,
            None => path@,
        },
{
    match name {
        Some(n) => n,
        None => path.to_owned(),
    }
}

/// The name under which a file is shown: the file name of its path.
pub fn file_label(path: &str) -> (r: String)
    ensures
        ends_in_file_name(path@) ==> is_last_part(r@, path@),
{
    shown_name(file_name(path), path)
}

/// The name of the file that the overlay of a video goes to, given the stem of
/// the video's name where it has one.
pub open spec fn overlay_name(stem: Option<Seq<char>>) -> Seq<char> {
    match stem {
        Some(s) => s + "_overlay.mp4"@,
        None => "output_overlay.mp4"@,
    }
}

/// The name of the file that the overlay of a video goes to.
pub fn overlay_file_name(stem: Option<String>) -> (r: String)
    ensures
        r@ == overlay_name(
            match stem {
                Some(s) => Some(s@),
                None => None,
            },
        ),
{
    match stem {
        Some(s) => {
            let mut r = s;
            r.push_str("_overlay.mp4");
            r
        },
        None => "output_overlay.mp4".to_owned(),
    }
}

pub proof fn lemma_after_last_bound(s: Seq<char>, c: char)
    ensures
        after_last(s, c) <= s.len(),
        !s.contains(c) ==> after_last(s, c) == 0,
    decreases s.len(),
{
    if s.len() > 0 && s.last() != c {
        lemma_after_last_bound(s.drop_last(), c);
        if s.drop_last().contains(c) {
            let i = choose|i: int| 0 <= i < s.len() - 1 && s.drop_last()[i] == c;
            assert(s[i] == c);
        }
    } else if s.len() > 0 {
        assert(s[s.len() - 1] == c);
    }
}

/// Whether a path is that of the file that the overlay of a video goes to, beside the
/// video.
pub open spec fn is_overlay_of(path: Seq<char>, video: Seq<char>) -> bool {
    is_named_beside(
        path,
        video,
        overlay_name(Some(stem(last_part(video, false)))),
        overlay_name(Some(stem(last_part(video, true)))),
    )
}

/// Whether a path is the same as that of a file in the directory of another path, and
/// ends in the name of the file, which is one of two. Where no part of the directory is
/// left out, its text is kept.
pub open spec fn is_named_beside(
    r: Seq<char>,
    path: Seq<char>,
    one: Seq<char>,
    other: Seq<char>,
) -> bool {
    ||| is_sibling(r, path, one) && ends_with(r, one) && (is_tidy(path) ==> is_beside(
        r,
        path,
        one,
    ))
    ||| is_sibling(r, path, other) && ends_with(r, other) && (is_tidy(path) ==> is_beside(
        r,
        path,
        other,
    ))
}

/// The file that the overlay of a video goes to: the one that was asked for,
/// else one beside the video.
pub fn derive_output_path(video_path: &str, output: Option<String>) -> (r: String)
    ensures
        match output {
            Some(p) => r@ == p@,
            None => has_directory(video_path@) ==> is_overlay_of(r@, video_path@),
        },
{
    match output {
        Some(p) => p,
        None => {
            proof {
                if has_directory(video_path@) {
                    reveal_strlit("_overlay.mp4");
                    assert(!"_overlay.mp4"@.contains('/')) by {
                        if "_overlay.mp4"@.contains('/') {
                            let i = choose|i: int| 0 <= i < 12 && "_overlay.mp4"@[i] == '/';
                            assert(0 <= i < 12);
                        }
                    }
                    lemma_sibling(video_path@, "_overlay.mp4"@, false);
                    lemma_sibling(video_path@, "_overlay.mp4"@, true);
                }
            }
            let name = overlay_file_name(file_stem(video_path));
            with_file_name(video_path, name.as_str())
        },
    }
}

/// What stands behind a separator starts with none and holds none.
proof fn lemma_name_start(path: Seq<char>, backslash: bool)
    ensures
        name_start(path, backslash) <= path.len(),
        forall|i: int|
            name_start(path, backslash) <= i < path.len() ==> !separates(
                #[trigger] path[i],
                backslash,
            ),
        name_start(path, backslash) > 0 ==> separates(
            path[name_start(path, backslash) - 1],
            backslash,
        ),
        name_start(path, false) <= name_start(path, true),
    decreases path.len(),
{
    if path.len() > 0 {
        let rest = path.drop_last();
        lemma_name_start(rest, backslash);
        let n = name_start(path, backslash) as int;
        assert forall|i: int| n <= i < path.len() implies !separates(#[trigger] path[i], backslash) by {
            if i < rest.len() {
                assert(rest[i] == path[i]);
            }
        }
        if n > 0 && n <= rest.len() {
            assert(rest[n - 1] == path[n - 1]);
        }
    }
}

/// The stem of a file name, as far as its first characters go.
proof fn lemma_stem(name: Seq<char>)
    requires
        name.len() > 0,
    ensures
        0 < stem(name).len() <= name.len(),
        forall|i: int| 0 <= i < stem(name).len() ==> #[trigger] stem(name)[i] == name[i],
{
    lemma_after_last_bound(name, '.');
}

/// A stem with a suffix can stand in the place of the file name.
proof fn lemma_sibling(path: Seq<char>, suffix: Seq<char>, backslash: bool)
    requires
        has_directory(path),
        suffix.len() > 0,
        suffix[0] == '_',
        !suffix.contains('/'),
    ensures
        is_sibling_name(path, stem(last_part(path, backslash)) + suffix),
{
    let k = name_start(path, backslash) as int;
    let name = last_part(path, backslash);
    let s = stem(name);
    let n = s + suffix;
    lemma_name_start(path, backslash);
    lemma_stem(name);
    assert(forall|i: int| 0 <= i < name.len() ==> #[trigger] name[i] == path[k + i]);
    if n.contains('/') {
        let i = choose|i: int| 0 <= i < n.len() && n[i] == '/';
        if i < s.len() {
            assert(s[i] == name[i]);
            assert(separates(path[k + i], backslash));
        } else {
            assert(suffix[i - s.len()] == '/');
        }
    }
    assert(n[0] == s[0] && s[0] == name[0] && name[0] == path[k]);
    assert(!separates(path[k], backslash));
    if n[0] == '\\' {
        assert(!backslash);
        assert(k == 0);
        if s.len() == 1 {
            assert(n[1] == suffix[0]);
        } else {
            assert(n[1] == s[1] && s[1] == name[1] && name[1] == path[1]);
        }
    }
}

/// Whether a directory ends otherwise than in a separator or a drive, and does not
/// start with two separators.
pub open spec fn is_plain_directory(path: Seq<char>) -> bool {
    &&& path.len() > 0
    &&& path.last() != '/' && path.last() != '\\' && path.last() != ':'
    &&& !(path.len() >= 2 && (path[0] == '/' || path[0] == '\\') && (path[1] == '/' || path[1]
        == '\\'))
}

/// `std::path::Path::join`: a file in a directory, behind a separator, which rests on
/// the platform. Of a directory that ends in a separator or a drive, or that starts
/// with two separators, nothing is said.
#[verifier::external_body]
fn join_path(directory: &str, name: &str) -> (r: String)
    ensures
        is_plain_directory(directory@) && is_file_name(name@) ==> r@ == directory@ + "/"@ + name@
            || r@ == directory@ + "\\"@ + name@,
{
    std::path::Path::new(directory).join(name).to_string_lossy().into_owned()
}

/// The path of a file in a directory.
pub(crate) fn file_in(directory: &str, name: &str) -> (r: String)
    ensures
        is_plain_directory(directory@) && is_file_name(name@) ==> is_file_in(
            r@,
            directory@ + "/"@,
            name@,
        ),
{
    let r = join_path(directory, name);
    proof {
        reveal_strlit("/");
        assert((directory@ + "/"@).drop_last() =~= directory@);
    }
    r
}

/// The name of the directory for the parts of a merged video, given the stem of
/// the video's name where it has one.
pub open spec fn parts_name(stem: Option<Seq<char>>) -> Seq<char> {
    match stem {
        Some(s) => s + "_parts"@,
        None => "dive_parts"@,
    }
}

/// The name of the directory for the parts of a merged video.
pub fn parts_directory_name(stem: Option<String>) -> (r: String)
    ensures
        r@ == parts_name(
            match stem {
                Some(s) => Some(s@),
                None => None,
            },
        ),
{
    match stem {
        Some(s) => {
            let mut r = s;
            r.push_str("_parts");
            r
        },
        None => "dive_parts".to_owned(),
    }
}

/// Whether a path is that of the directory for the parts of a merged video, beside the
/// video.
pub open spec fn is_parts_of(path: Seq<char>, merge_output: Seq<char>) -> bool {
    is_named_beside(
        path,
        merge_output,
        parts_name(Some(stem(last_part(merge_output, false)))),
        parts_name(Some(stem(last_part(merge_output, true)))),
    )
}

/// The directory for the parts of a merged video, beside the video.
pub fn parts_directory(merge_output: &str) -> (r: String)
    ensures
        has_directory(merge_output@) ==> is_parts_of(r@, merge_output@) && is_plain_directory(r@),
{
    proof {
        if has_directory(merge_output@) {
            reveal_strlit("_parts");
            assert(!"_parts"@.contains('/')) by {
                if "_parts"@.contains('/') {
                    let i = choose|i: int| 0 <= i < 6 && "_parts"@[i] == '/';
                    assert(0 <= i < 6);
                }
            }
            lemma_sibling(merge_output@, "_parts"@, false);
            lemma_sibling(merge_output@, "_parts"@, true);
        }
    }
    let name = parts_directory_name(file_stem(merge_output));
    let r = with_file_name(merge_output, name.as_str());
    proof {
        if has_directory(merge_output@) {
            let n = name@;
            assert(n.last() == "_parts"@[5]);
            assert(r@.skip(r@.len() - n.len()).last() == r@.last());
        }
    }
    r
}

/// `std::path::Path::with_extension`: a path with another extension behind the stem of
/// its file name. What separates the file name rests on the platform. Of a path that
/// ends in no file name on some platform, or starts with two separators, nothing is
/// said.
#[verifier::external_body]
fn with_extension(path: &str, extension: &str) -> (r: String)
    requires
        !extension@.contains('/'),
        !extension@.contains('\\'),
    ensures
        ends_in_file_name(path@) && extension@.len() > 0 ==> is_extended(r@, path@, extension@),
{
    std::path::Path::new(path).with_extension(extension).to_string_lossy().into_owned()
}

/// A path with the extension of the videos that are written.
pub fn as_mp4(path: &str) -> (r: String)
    ensures
        ends_in_file_name(path@) ==> is_extended(r@, path@, "mp4"@),
{
    proof {
        reveal_strlit("mp4");
        assert forall|c: char| (c == '/' || c == '\\') implies !"mp4"@.contains(c) by {
            if "mp4"@.contains(c) {
                let i = choose|i: int| 0 <= i < "mp4"@.len() && "mp4"@[i] == c;
                assert(0 <= i < 3);
            }
        }
    }
    with_extension(path, "mp4")
}

/// The subtitle track that goes beside a video.
pub fn as_srt(path: &str) -> (r: String)
    ensures
        ends_in_file_name(path@) ==> is_extended(r@, path@, "srt"@),
{
    proof {
        reveal_strlit("srt");
        assert forall|c: char| (c == '/' || c == '\\') implies !"srt"@.contains(c) by {
            if "srt"@.contains(c) {
                let i = choose|i: int| 0 <= i < "srt"@.len() && "srt"@[i] == c;
                assert(0 <= i < 3);
            }
        }
    }
    with_extension(path, "srt")
}

/// The list of files to join that goes beside a merged video.
pub fn as_concat_list(path: &str) -> (r: String)
    ensures
        ends_in_file_name(path@) ==> is_extended(r@, path@, "concat.txt"@),
{
    proof {
        reveal_strlit("concat.txt");
        assert forall|c: char| (c == '/' || c == '\\') implies !"concat.txt"@.contains(c) by {
            if "concat.txt"@.contains(c) {
                let i = choose|i: int| 0 <= i < "concat.txt"@.len() && "concat.txt"@[i] == c;
                assert(0 <= i < 10);
            }
        }
    }
    with_extension(path, "concat.txt")
}

} // verus!
