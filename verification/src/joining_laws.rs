//! Joining one built track gives the track back.

use vstd::arithmetic::div_mod::lemma_fundamental_div_mod_converse;
use vstd::prelude::*;

use crate::binary64::{
    lemma_int_product, lemma_nat_size, lemma_size_increases, lemma_size_order, lemma_small_int,
    lemma_zero_quotient, nearest_up, unit, Real,
};
use crate::error::ErrorView;
use crate::model::{DiveSample, Field};
use crate::nearest::TWO53;
use crate::numeral::lemma_padded;
use crate::overlay_lines::overlay_lines;
use crate::subtitle::{
    cue_end, cue_seconds, cue_text, cues_text, dive_moment, part_cues, srt_millis, timestamp_text,
    track_from, CueView, SrtPart,
};
use crate::subtitle_laws::{
    law_timestamp_round_trip, lemma_digits_have_no, lemma_millis_at_most, lemma_plus_nothing,
    lemma_timestamp_reads, lemma_whole_seconds,
};
use crate::text::{all_digits, decimal, is_digit, join, padded};
use crate::track_laws::{built_cues, law_built_track_reads_back, lemma_timestamp_time_like, reread};

verus! {

/// From this second on not all times are written again as they were read.
pub const FIRST_LARGE_SECOND: u64 = 0x400_0000_0000;

/// Whether a time that was written and read is written again as it was.
pub open spec fn written_again(x: Real) -> bool {
    srt_millis(reread(x).sum(Real::of_int(0))) == srt_millis(x)
}

/// Whether a track has a cue for a second: one that ends after it starts, as all cues
/// before it do.
pub open spec fn in_track(sec: nat, duration: Real) -> bool
    decreases sec,
{
    &&& sec < cue_seconds(duration)
    &&& !cue_end(sec, duration).at_most(Real::of_int(sec as int))
    &&& sec > 0 ==> in_track((sec - 1) as nat, duration)
}

/// Whether both times of a cue are written again as they were.
pub open spec fn cue_written_again(sec: nat, duration: Real) -> bool {
    written_again(Real::of_int(sec as int)) && written_again(cue_end(sec, duration))
}

/// Whether each time that a track holds is written again as it was.
pub open spec fn times_written_again(duration: Real) -> bool {
    forall|sec: nat| #[trigger] in_track(sec, duration) ==> cue_written_again(sec, duration)
}

/// A time as a track holds it, or as it is read there.
spec fn time_of(x: Real, again: bool) -> Real {
    if again {
        reread(x).sum(Real::of_int(0))
    } else {
        x
    }
}

/// The cues of a track from a second on with given texts.
spec fn cues_from(duration: Real, texts: spec_fn(nat) -> Seq<char>, sec: nat, again: bool) -> Seq<
    char,
>
    decreases cue_seconds(duration) - sec,
{
    let start = Real::of_int(sec as int);
    let end = cue_end(sec, duration);
    if sec >= cue_seconds(duration) || end.at_most(start) {
        ""@
    } else {
        cue_text(sec + 1, time_of(start, again), time_of(end, again), texts(sec)) + cues_from(
            duration,
            texts,
            sec + 1,
            again,
        )
    }
}

/// Two texts before the same mark, which is in neither, come apart alike.
proof fn lemma_same_head(x: Seq<char>, y: Seq<char>, s: Seq<char>, t: Seq<char>, c: char)
    requires
        x + s == y + t,
        s.len() > 0,
        t.len() > 0,
        s[0] == c,
        t[0] == c,
        !x.contains(c),
        !y.contains(c),
    ensures
        x == y,
        s == t,
{
    let w = x + s;
    let v = y + t;
    if x.len() < y.len() {
        assert(w[x.len() as int] == c);
        assert(v[x.len() as int] == y[x.len() as int]);
        assert(y.contains(y[x.len() as int]));
    } else if y.len() < x.len() {
        assert(v[y.len() as int] == c);
        assert(w[y.len() as int] == x[y.len() as int]);
        assert(x.contains(x[y.len() as int]));
    }
    assert(w.take(x.len() as int) =~= x);
    assert(v.take(y.len() as int) =~= y);
    assert(w.skip(x.len() as int) =~= s);
    assert(v.skip(y.len() as int) =~= t);
}

/// Four rows of digits between marks.
spec fn marked(h: Seq<char>, m: Seq<char>, s: Seq<char>, ms: Seq<char>) -> Seq<char> {
    h + (seq![':'] + (m + (seq![':'] + (s + (seq![','] + ms)))))
}

/// Rows of digits between marks come apart alike.
proof fn lemma_marked_apart(
    h: Seq<char>,
    m: Seq<char>,
    s: Seq<char>,
    ms: Seq<char>,
    h2: Seq<char>,
    m2: Seq<char>,
    s2: Seq<char>,
    ms2: Seq<char>,
)
    requires
        all_digits(h),
        all_digits(m),
        all_digits(s),
        all_digits(h2),
        all_digits(m2),
        all_digits(s2),
        marked(h, m, s, ms) == marked(h2, m2, s2, ms2),
    ensures
        h == h2,
        m == m2,
        s == s2,
        ms == ms2,
{
    lemma_digits_have_no(h, ':');
    lemma_digits_have_no(h2, ':');
    lemma_digits_have_no(m, ':');
    lemma_digits_have_no(m2, ':');
    lemma_digits_have_no(s, ',');
    lemma_digits_have_no(s2, ',');
    let c = seq![','] + ms;
    let c2 = seq![','] + ms2;
    let b = seq![':'] + (s + c);
    let b2 = seq![':'] + (s2 + c2);
    let a = seq![':'] + (m + b);
    let a2 = seq![':'] + (m2 + b2);
    lemma_same_head(h, h2, a, a2, ':');
    lemma_same_tail(':', m + b, m2 + b2);
    lemma_same_head(m, m2, b, b2, ':');
    lemma_same_tail(':', s + c, s2 + c2);
    lemma_same_head(s, s2, c, c2, ',');
    lemma_same_tail(',', ms, ms2);
}

/// What stands behind the same mark is the same.
proof fn lemma_same_tail(c: char, x: Seq<char>, y: Seq<char>)
    requires
        seq![c] + x == seq![c] + y,
    ensures
        x == y,
{
    assert((seq![c] + x).skip(1) =~= x);
    assert((seq![c] + y).skip(1) =~= y);
}

/// A written time is rows of digits between marks.
proof fn lemma_timestamp_marked(n: nat)
    ensures
        timestamp_text(n) == marked(
            padded(n / 3_600_000, 2),
            padded((n % 3_600_000) / 60_000, 2),
            padded((n % 60_000) / 1000, 2),
            padded(n % 1000, 3),
        ),
{
    reveal_strlit(":");
    reveal_strlit(",");
    assert(":"@ =~= seq![':']);
    assert(","@ =~= seq![',']);
    let h = padded(n / 3_600_000, 2);
    let m = padded((n % 3_600_000) / 60_000, 2);
    let s = padded((n % 60_000) / 1000, 2);
    let ms = padded(n % 1000, 3);
    assert(h + seq![':'] + m + seq![':'] + s + seq![','] + ms =~= marked(h, m, s, ms));
}

/// Counts of milliseconds that are written alike are the same.
pub proof fn law_written_times_differ(n: nat, k: nat)
    requires
        timestamp_text(n) == timestamp_text(k),
    ensures
        n == k,
{
    lemma_timestamp_marked(n);
    lemma_timestamp_marked(k);
    lemma_padded(n / 3_600_000, 2);
    lemma_padded((n % 3_600_000) / 60_000, 2);
    lemma_padded((n % 60_000) / 1000, 2);
    lemma_padded(n % 1000, 3);
    lemma_padded(k / 3_600_000, 2);
    lemma_padded((k % 3_600_000) / 60_000, 2);
    lemma_padded((k % 60_000) / 1000, 2);
    lemma_padded(k % 1000, 3);
    lemma_marked_apart(
        padded(n / 3_600_000, 2),
        padded((n % 3_600_000) / 60_000, 2),
        padded((n % 60_000) / 1000, 2),
        padded(n % 1000, 3),
        padded(k / 3_600_000, 2),
        padded((k % 3_600_000) / 60_000, 2),
        padded((k % 60_000) / 1000, 2),
        padded(k % 1000, 3),
    );
    lemma_clock_apart(n);
    lemma_clock_apart(k);
}

/// A count of milliseconds from its parts.
proof fn lemma_clock_apart(n: nat)
    ensures
        n == 3_600_000 * (n / 3_600_000) + 60_000 * ((n % 3_600_000) / 60_000) + 1000 * ((n % 60_000)
            / 1000) + n % 1000,
{
    let h = n / 3_600_000;
    let r = n % 3_600_000;
    let m = r / 60_000;
    let q = r % 60_000;
    let s = q / 1000;
    let ms = q % 1000;
    assert(n == 3_600_000 * h + r);
    assert(r == 60_000 * m + q);
    assert(q == 1000 * s + ms);
    let minutes = 60 * h + m;
    let seconds = 3600 * h + 60 * m + s;
    assert(n % 60_000 == q) by (nonlinear_arith)
        requires
            n == 60_000 * minutes + q,
            0 <= q < 60_000,
    ;
    assert(n % 1000 == ms) by (nonlinear_arith)
        requires
            n == 1000 * seconds + ms,
            0 <= ms < 1000,
    ;
}

/// A cue in front of other text, with given texts for its times.
spec fn cue_before(
    head: Seq<char>,
    x: Seq<char>,
    y: Seq<char>,
    body: Seq<char>,
    s: Seq<char>,
) -> Seq<char> {
    head + (x + (" --> "@ + (y + (body + s))))
}

/// A cue in front of other text is its times between what is the same.
proof fn lemma_cue_before(number: nat, a: Real, b: Real, text: Seq<char>, s: Seq<char>)
    ensures
        cue_text(number, a, b, text) + s == cue_before(
            decimal(number) + "\n"@,
            timestamp_text(srt_millis(a)),
            timestamp_text(srt_millis(b)),
            "\n"@ + text + "\n\n"@,
            s,
        ),
{
    reveal(cue_text);
    let d = decimal(number);
    let x = timestamp_text(srt_millis(a));
    let y = timestamp_text(srt_millis(b));
    let line = "\n"@;
    let arrow = " --> "@;
    let gap = "\n\n"@;
    assert(d + line + x + arrow + y + line + text + gap + s =~= (d + line) + (x + (arrow + (y + ((
    line + text + gap) + s)))));
}

/// A cue in front of other text comes apart alike.
proof fn lemma_before_apart(
    head: Seq<char>,
    x: Seq<char>,
    y: Seq<char>,
    x2: Seq<char>,
    y2: Seq<char>,
    body: Seq<char>,
    s: Seq<char>,
    t: Seq<char>,
)
    requires
        cue_before(head, x, y, body, s) == cue_before(head, x2, y2, body, t),
        body.len() > 0,
        body[0] == '\n',
        !x.contains(' '),
        !x2.contains(' '),
        !y.contains('\n'),
        !y2.contains('\n'),
    ensures
        x == x2,
        y == y2,
        s == t,
{
    reveal_strlit(" --> ");
    let arrow = " --> "@;
    let f = body + s;
    let f2 = body + t;
    let e = arrow + (y + f);
    let e2 = arrow + (y2 + f2);
    lemma_same_rest(head, x + e, x2 + e2);
    lemma_same_head(x, x2, e, e2, ' ');
    lemma_same_rest(arrow, y + f, y2 + f2);
    lemma_same_head(y, y2, f, f2, '\n');
    lemma_same_rest(body, s, t);
}

/// What stands behind the same text is the same.
proof fn lemma_same_rest(head: Seq<char>, x: Seq<char>, y: Seq<char>)
    requires
        head + x == head + y,
    ensures
        x == y,
{
    assert((head + x).skip(head.len() as int) =~= x);
    assert((head + y).skip(head.len() as int) =~= y);
}

/// A cue in front of other text gives away its times.
proof fn lemma_cue_apart(
    number: nat,
    a: Real,
    b: Real,
    c: Real,
    d: Real,
    text: Seq<char>,
    s: Seq<char>,
    t: Seq<char>,
)
    requires
        cue_text(number, a, b, text) + s == cue_text(number, c, d, text) + t,
    ensures
        srt_millis(a) == srt_millis(c),
        srt_millis(b) == srt_millis(d),
        s == t,
{
    reveal_strlit("\n");
    lemma_cue_before(number, a, b, text, s);
    lemma_cue_before(number, c, d, text, t);
    lemma_timestamp_marks(srt_millis(a));
    lemma_timestamp_marks(srt_millis(b));
    lemma_timestamp_marks(srt_millis(c));
    lemma_timestamp_marks(srt_millis(d));
    let body = "\n"@ + text + "\n\n"@;
    assert(body[0] == "\n"@[0]);
    lemma_before_apart(
        decimal(number) + "\n"@,
        timestamp_text(srt_millis(a)),
        timestamp_text(srt_millis(b)),
        timestamp_text(srt_millis(c)),
        timestamp_text(srt_millis(d)),
        body,
        s,
        t,
    );
    law_written_times_differ(srt_millis(a), srt_millis(c));
    law_written_times_differ(srt_millis(b), srt_millis(d));
}

/// A time holds neither a space nor the end of a line.
proof fn lemma_timestamp_marks(n: nat)
    ensures
        !timestamp_text(n).contains(' '),
        !timestamp_text(n).contains('\n'),
{
    let t = timestamp_text(n);
    lemma_timestamp_time_like(n);
    if t.contains(' ') {
        let i = choose|i: int| 0 <= i < t.len() && t[i] == ' ';
        assert(is_digit(t[i]) || t[i] == ':' || t[i] == ',');
    }
    if t.contains('\n') {
        let i = choose|i: int| 0 <= i < t.len() && t[i] == '\n';
        assert(is_digit(t[i]) || t[i] == ':' || t[i] == ',');
    }
}

/// The text stays where the times are written again as they were.
proof fn lemma_cues_stay(duration: Real, texts: spec_fn(nat) -> Seq<char>, sec: nat)
    requires
        times_written_again(duration),
        sec > 0 ==> in_track((sec - 1) as nat, duration),
    ensures
        cues_from(duration, texts, sec, true) == cues_from(duration, texts, sec, false),
    decreases cue_seconds(duration) - sec,
{
    let start = Real::of_int(sec as int);
    let end = cue_end(sec, duration);
    if sec < cue_seconds(duration) && !end.at_most(start) {
        assert(in_track(sec, duration));
        assert(cue_written_again(sec, duration));
        reveal(cue_text);
        assert(cue_text(sec + 1, time_of(start, true), time_of(end, true), texts(sec)) == cue_text(
            sec + 1,
            start,
            end,
            texts(sec),
        ));
        lemma_cues_stay(duration, texts, sec + 1);
    }
}

/// Where the text stays, the times are written again as they were.
proof fn lemma_times_stay(duration: Real, texts: spec_fn(nat) -> Seq<char>, sec: nat, at: nat)
    requires
        cues_from(duration, texts, sec, true) == cues_from(duration, texts, sec, false),
        sec <= at,
        in_track(at, duration),
    ensures
        cue_written_again(at, duration),
    decreases at - sec,
{
    let start = Real::of_int(sec as int);
    let end = cue_end(sec, duration);
    lemma_in_track_before(sec, at, duration);
    lemma_cue_apart(
        sec + 1,
        time_of(start, true),
        time_of(end, true),
        start,
        end,
        texts(sec),
        cues_from(duration, texts, sec + 1, true),
        cues_from(duration, texts, sec + 1, false),
    );
    if sec < at {
        lemma_times_stay(duration, texts, sec + 1, at);
    }
}

proof fn lemma_in_track_before(sec: nat, at: nat, duration: Real)
    requires
        sec <= at,
        in_track(at, duration),
    ensures
        in_track(sec, duration),
    decreases at - sec,
{
    if sec < at {
        lemma_in_track_before(sec, (at - 1) as nat, duration);
    }
}

/// The lines of a cue as one text.
spec fn cue_lines(
    fields: Seq<Field>,
    samples: Seq<DiveSample>,
    times: Seq<Real>,
    video_sync_sec: Real,
    csv_sync_sec: Real,
    duration: Real,
    interpolate: bool,
    sec: nat,
) -> Seq<char> {
    join(
        overlay_lines(
            fields,
            samples,
            times,
            dive_moment(sec, video_sync_sec, csv_sync_sec),
            interpolate,
        ),
        "\n"@,
    )
}

/// A built track is the text of its cues.
proof fn lemma_track_cues(
    fields: Seq<Field>,
    samples: Seq<DiveSample>,
    times: Seq<Real>,
    video_sync_sec: Real,
    csv_sync_sec: Real,
    duration: Real,
    interpolate: bool,
    sec: nat,
)
    ensures
        track_from(
            fields,
            samples,
            times,
            video_sync_sec,
            csv_sync_sec,
            duration,
            interpolate,
            sec,
        ) == cues_from(
            duration,
            |i: nat|
                cue_lines(
                    fields,
                    samples,
                    times,
                    video_sync_sec,
                    csv_sync_sec,
                    duration,
                    interpolate,
                    i,
                ),
            sec,
            false,
        ),
    decreases cue_seconds(duration) - sec,
{
    let start = Real::of_int(sec as int);
    let end = cue_end(sec, duration);
    if sec < cue_seconds(duration) && !end.at_most(start) {
        lemma_track_cues(
            fields,
            samples,
            times,
            video_sync_sec,
            csv_sync_sec,
            duration,
            interpolate,
            sec + 1,
        );
    }
}

/// A track that was read is written as the text of its cues, with the times that were
/// read.
proof fn lemma_read_cues(
    before: Seq<CueView>,
    fields: Seq<Field>,
    samples: Seq<DiveSample>,
    times: Seq<Real>,
    video_sync_sec: Real,
    csv_sync_sec: Real,
    duration: Real,
    interpolate: bool,
    sec: nat,
)
    requires
        before.len() == sec,
    ensures
        cues_text(
            before + built_cues(
                fields,
                samples,
                times,
                video_sync_sec,
                csv_sync_sec,
                duration,
                interpolate,
                sec,
                Real::of_int(0),
            ),
        ) == cues_text(before) + cues_from(
            duration,
            |i: nat|
                cue_lines(
                    fields,
                    samples,
                    times,
                    video_sync_sec,
                    csv_sync_sec,
                    duration,
                    interpolate,
                    i,
                ),
            sec,
            true,
        ),
    decreases cue_seconds(duration) - sec,
{
    let texts = |i: nat|
        cue_lines(
            fields,
            samples,
            times,
            video_sync_sec,
            csv_sync_sec,
            duration,
            interpolate,
            i,
        );
    let start = Real::of_int(sec as int);
    let end = cue_end(sec, duration);
    let zero = Real::of_int(0);
    if sec >= cue_seconds(duration) || end.at_most(start) {
        reveal_strlit("");
        assert(before + Seq::<CueView>::empty() =~= before);
        assert(cues_text(before) + ""@ =~= cues_text(before));
    } else {
        let cue = CueView {
            start: time_of(start, true),
            end: time_of(end, true),
            text: texts(sec),
        };
        let more = built_cues(
            fields,
            samples,
            times,
            video_sync_sec,
            csv_sync_sec,
            duration,
            interpolate,
            sec + 1,
            zero,
        );
        let rest = cues_from(duration, texts, sec + 1, true);
        lemma_read_cues(
            before.push(cue),
            fields,
            samples,
            times,
            video_sync_sec,
            csv_sync_sec,
            duration,
            interpolate,
            sec + 1,
        );
        assert(before.push(cue) + more =~= before + (seq![cue] + more));
        assert(before.push(cue).drop_last() =~= before);
        let written = cue_text(sec + 1, cue.start, cue.end, cue.text);
        assert(cues_text(before.push(cue)) == cues_text(before) + written);
        assert((cues_text(before) + written) + rest =~= cues_text(before) + (written + rest));
    }
}

/// Joining one built track at its own beginning succeeds, and gives the track back where
/// each of its times is written again as it was, and only there.
pub proof fn law_joining_one_track(
    part: Seq<SrtPart<'_>>,
    fields: Seq<Field>,
    samples: Seq<DiveSample>,
    times: Seq<Real>,
    video_sync_sec: Real,
    csv_sync_sec: Real,
    duration: Real,
    interpolate: bool,
)
    requires
        part.len() == 1,
        part[0].offset_sec == Real::of_int(0),
        part[0].srt@ == track_from(
            fields,
            samples,
            times,
            video_sync_sec,
            csv_sync_sec,
            duration,
            interpolate,
            0,
        ),
    ensures
        part_cues(seq![], part) matches Ok(cues) && ((cues_text(cues) == part[0].srt@)
            <==> times_written_again(duration)),
{
    let none = Seq::<CueView>::empty();
    let texts = |i: nat|
        cue_lines(
            fields,
            samples,
            times,
            video_sync_sec,
            csv_sync_sec,
            duration,
            interpolate,
            i,
        );
    let cues = built_cues(
        fields,
        samples,
        times,
        video_sync_sec,
        csv_sync_sec,
        duration,
        interpolate,
        0,
        Real::of_int(0),
    );
    law_built_track_reads_back(
        none,
        fields,
        samples,
        times,
        video_sync_sec,
        csv_sync_sec,
        duration,
        interpolate,
        Real::of_int(0),
    );
    lemma_track_cues(
        fields,
        samples,
        times,
        video_sync_sec,
        csv_sync_sec,
        duration,
        interpolate,
        0,
    );
    lemma_read_cues(
        none,
        fields,
        samples,
        times,
        video_sync_sec,
        csv_sync_sec,
        duration,
        interpolate,
        0,
    );
    assert(none + cues =~= cues);
    reveal_strlit("");
    let again = cues_from(duration, texts, 0, true);
    assert(cues_text(none) + again =~= again);
    assert(part_cues(cues, part.skip(1)) == Ok::<Seq<CueView>, ErrorView>(cues));
    if times_written_again(duration) {
        lemma_cues_stay(duration, texts, 0);
    }
    if cues_text(cues) == part[0].srt@ {
        assert forall|sec: nat| #[trigger] in_track(sec, duration) implies cue_written_again(
            sec,
            duration,
        ) by {
            lemma_times_stay(duration, texts, 0, sec);
        }
    }
}

/// Each time of a track of less than two to the power of forty-two seconds is written
/// again as it was.
pub proof fn law_short_track_written_again(duration: Real)
    requires
        cue_seconds(duration) < FIRST_LARGE_SECOND,
    ensures
        times_written_again(duration),
{
    assert forall|sec: nat| #[trigger] in_track(sec, duration) implies cue_written_again(
        sec,
        duration,
    ) by {
        let start = Real::of_int(sec as int);
        let next = Real::of_int((sec + 1) as int);
        let end = cue_end(sec, duration);
        lemma_nat_size(sec);
        lemma_nat_size(sec + 1);
        assert(end.finite() && !end.negative() && end.size() <= (sec + 1) * unit()) by {
            if end.magnitude() > next.magnitude() {
                lemma_size_increases(next.magnitude(), end.magnitude());
            }
        }
        lemma_millis_at_most(start, sec);
        lemma_millis_at_most(end, sec + 1);
        law_timestamp_round_trip(srt_millis(start));
        law_timestamp_round_trip(srt_millis(end));
    }
}

/// A whole number of seconds, whose milliseconds are exact, is written again as it was.
pub proof fn law_whole_second_written_again(k: nat)
    requires
        1000 * k < TWO53,
    ensures
        srt_millis(Real::of_int(k as int)) == 1000 * k,
        reread(Real::of_int(k as int)) == Real::of_int(k as int),
        written_again(Real::of_int(k as int)),
{
    let x = Real::of_int(k as int);
    let n = 1000 * k;
    let u = unit() as int;
    lemma_nat_size(k);
    lemma_nat_size(n);
    lemma_int_product(k, 1000);
    lemma_small_int(0);
    lemma_small_int(k as int);
    assert(k * 1000 == n);
    assert(x.not_below_zero() == x) by {
        if k == 0 {
            assert(0 * u == 0);
            assert(x.magnitude() == 0);
            assert(x.bits == 0);
        } else {
            assert(k * u > 0) by (nonlinear_arith)
                requires
                    k > 0,
                    u > 0,
            ;
        }
    }
    lemma_fundamental_div_mod_converse(n * u, u, n as int, 0);
    assert(nearest_up(n * unit(), unit()) == n);
    assert(srt_millis(x) == n);
    lemma_timestamp_reads(n);
    lemma_whole_seconds(n);
    lemma_fundamental_div_mod_converse(n as int, 1000, k as int, 0);
    assert(n / 1000 == k && n % 1000 == 0);
    lemma_nat_size(1000);
    assert(Real::of_int(0).quotient(Real::of_int(1000)) == Real::of_int(0)) by {
        assert(1000 * unit() > 0);
        lemma_zero_quotient(Real::of_int(1000));
    }
    lemma_plus_nothing(x);
}

/// Each time of a track of a whole number of seconds, whose milliseconds are exact, is
/// written again as it was.
pub proof fn law_whole_track_written_again(k: nat)
    requires
        1000 * k < TWO53,
    ensures
        times_written_again(Real::of_int(k as int)),
{
    let duration = Real::of_int(k as int);
    lemma_nat_size(k);
    assert forall|sec: nat| #[trigger] in_track(sec, duration) implies cue_written_again(
        sec,
        duration,
    ) by {
        lemma_whole_cue(sec, k);
    }
}

proof fn lemma_whole_cue(sec: nat, k: nat)
    requires
        1000 * k < TWO53,
        sec < cue_seconds(Real::of_int(k as int)),
    ensures
        cue_written_again(sec, Real::of_int(k as int)),
{
    let duration = Real::of_int(k as int);
    let u = unit() as int;
    lemma_nat_size(k);
    lemma_small_int(0);
    let d = duration.not_below_zero();
    assert(d.size() == k * unit()) by {
        if k == 0 {
            assert(0 * u == 0);
            lemma_size_order(d, duration);
        } else {
            assert(k * u > 0) by (nonlinear_arith)
                requires
                    k > 0,
                    u > 0,
            ;
        }
    }
    lemma_fundamental_div_mod_converse(k * u, u, k as int, 0);
    assert(cue_seconds(duration) <= k);
    lemma_nat_size(sec);
    lemma_nat_size(sec + 1);
    law_whole_second_written_again(sec);
    law_whole_second_written_again(sec + 1);
    law_whole_second_written_again(k);
}

} // verus!
