//! How clips are decoded and encoded: codecs, encoders, modes and sizes.

use vstd::prelude::*;

use crate::binary64::Real;
use crate::model::Field;
use crate::numeral::push_decimal;
use crate::text::{decimal, lower, lower_text, same_text, str_views, trim, trim_text, views};

verus! {

/// A name as it is compared: without white space around it and in lower case.
pub open spec fn name_key(s: Seq<char>) -> Seq<char> {
    lower(trim(s))
}

fn key_of(s: &str) -> (r: String)
    ensures
        r@ == name_key(s@),
{
    lower_text(trim_text(s).as_str())
}

#[derive(Debug, Clone, Copy, PartialEq, Eq, Structural)]
pub enum Codec {
    Auto,
    H264,
    H265,
    Mpeg4,
    Xvid,
    Mjpeg,
}

/// The codec with a name.
pub open spec fn codec_named(key: Seq<char>) -> Option<Codec> {
    if key == ""@ || key == "auto"@ {
        Some(Codec::Auto)
    } else if key == "avc1"@ || key == "h264"@ {
        Some(Codec::H264)
    } else if key == "hevc"@ || key == "h265"@ || key == "x265"@ {
        Some(Codec::H265)
    } else if key == "mp4v"@ {
        Some(Codec::Mpeg4)
    } else if key == "xvid"@ {
        Some(Codec::Xvid)
    } else if key == "mjpg"@ || key == "mjpeg"@ {
        Some(Codec::Mjpeg)
    } else {
        None
    }
}

impl Codec {
    /// The name of the software encoder.
    pub open spec fn encoder(self) -> Seq<char> {
        match self {
            Codec::Auto | Codec::H264 => "libx264"@,
            Codec::H265 => "libx265"@,
            Codec::Mpeg4 => "mpeg4"@,
            Codec::Xvid => "libxvid"@,
            Codec::Mjpeg => "mjpeg"@,
        }
    }

    pub open spec fn has_preset(self) -> bool {
        self == Codec::Auto || self == Codec::H264 || self == Codec::H265
    }

    /// The codec with a name; `None` for a name that is none.
    pub fn parse(s: &str) -> (r: Option<Codec>)
        ensures
            r == codec_named(name_key(s@)),
    {
        let key = key_of(s);
        let k = key.as_str();
        if same_text(k, "") || same_text(k, "auto") {
            Some(Codec::Auto)
        } else if same_text(k, "avc1") || same_text(k, "h264") {
            Some(Codec::H264)
        } else if same_text(k, "hevc") || same_text(k, "h265") || same_text(k, "x265") {
            Some(Codec::H265)
        } else if same_text(k, "mp4v") {
            Some(Codec::Mpeg4)
        } else if same_text(k, "xvid") {
            Some(Codec::Xvid)
        } else if same_text(k, "mjpg") || same_text(k, "mjpeg") {
            Some(Codec::Mjpeg)
        } else {
            None
        }
    }

    pub fn ffmpeg_codec_name(self) -> (r: &'static str)
        ensures
            r@ == self.encoder(),
    {
        match self {
            Codec::Auto | Codec::H264 => "libx264",
            Codec::H265 => "libx265",
            Codec::Mpeg4 => "mpeg4",
            Codec::Xvid => "libxvid",
            Codec::Mjpeg => "mjpeg",
        }
    }

    /// Whether the software encoder knows presets.
    pub fn supports_preset(self) -> (r: bool)
        ensures
            r == self.has_preset(),
    {
        match self {
            Codec::Auto | Codec::H264 | Codec::H265 => true,
            _ => false,
        }
    }
}

/// How much time an encoder takes for a better compression.
#[derive(Debug, Clone, Copy, PartialEq, Eq, Structural)]
pub enum Preset {
    UltraFast,
    SuperFast,
    VeryFast,
    Faster,
    Fast,
    Medium,
    Slow,
    Slower,
    VerySlow,
    Placebo,
}

impl Default for Preset {
    fn default() -> (r: Preset)
        ensures
            r == Preset::VeryFast,
    {
        Preset::VeryFast
    }
}

impl Preset {
    pub open spec fn name(self) -> Seq<char> {
        match self {
            Preset::UltraFast => "ultrafast"@,
            Preset::SuperFast => "superfast"@,
            Preset::VeryFast => "veryfast"@,
            Preset::Faster => "faster"@,
            Preset::Fast => "fast"@,
            Preset::Medium => "medium"@,
            Preset::Slow => "slow"@,
            Preset::Slower => "slower"@,
            Preset::VerySlow => "veryslow"@,
            Preset::Placebo => "placebo"@,
        }
    }

    pub fn ffmpeg_name(self) -> (r: &'static str)
        ensures
            r@ == self.name(),
    {
        match self {
            Preset::UltraFast => "ultrafast",
            Preset::SuperFast => "superfast",
            Preset::VeryFast => "veryfast",
            Preset::Faster => "faster",
            Preset::Fast => "fast",
            Preset::Medium => "medium",
            Preset::Slow => "slow",
            Preset::Slower => "slower",
            Preset::VerySlow => "veryslow",
            Preset::Placebo => "placebo",
        }
    }

    /// The preset with a name; `None` for a name that is none.
    pub fn parse(s: &str) -> (r: Option<Preset>)
        ensures
            r == preset_named(name_key(s@)),
    {
        let key = key_of(s);
        let k = key.as_str();
        if same_text(k, "ultrafast") {
            Some(Preset::UltraFast)
        } else if same_text(k, "superfast") {
            Some(Preset::SuperFast)
        } else if same_text(k, "veryfast") {
            Some(Preset::VeryFast)
        } else if same_text(k, "faster") {
            Some(Preset::Faster)
        } else if same_text(k, "fast") {
            Some(Preset::Fast)
        } else if same_text(k, "medium") {
            Some(Preset::Medium)
        } else if same_text(k, "slow") {
            Some(Preset::Slow)
        } else if same_text(k, "slower") {
            Some(Preset::Slower)
        } else if same_text(k, "veryslow") {
            Some(Preset::VerySlow)
        } else if same_text(k, "placebo") {
            Some(Preset::Placebo)
        } else {
            None
        }
    }
}

/// The preset with a name.
pub open spec fn preset_named(key: Seq<char>) -> Option<Preset> {
    if key == Preset::UltraFast.name() {
        Some(Preset::UltraFast)
    } else if key == Preset::SuperFast.name() {
        Some(Preset::SuperFast)
    } else if key == Preset::VeryFast.name() {
        Some(Preset::VeryFast)
    } else if key == Preset::Faster.name() {
        Some(Preset::Faster)
    } else if key == Preset::Fast.name() {
        Some(Preset::Fast)
    } else if key == Preset::Medium.name() {
        Some(Preset::Medium)
    } else if key == Preset::Slow.name() {
        Some(Preset::Slow)
    } else if key == Preset::Slower.name() {
        Some(Preset::Slower)
    } else if key == Preset::VerySlow.name() {
        Some(Preset::VerySlow)
    } else if key == Preset::Placebo.name() {
        Some(Preset::Placebo)
    } else {
        None
    }
}

/// Encoders in hardware.
#[derive(Debug, Clone, Copy, PartialEq, Eq, Structural)]
pub enum HwEncoder {
    Qsv,
    Nvenc,
    Amf,
}

/// The encoders in hardware that are tried, in this order.
pub const ENABLED_HW_CANDIDATES: [HwEncoder; 3] = [HwEncoder::Qsv, HwEncoder::Nvenc, HwEncoder::Amf];

/// The text of an optional constant.
pub open spec fn str_view(s: Option<&str>) -> Option<Seq<char>> {
    match s {
        Some(t) => Some(t@),
        None => None,
    }
}

impl HwEncoder {
    pub open spec fn backend(self) -> Seq<char> {
        match self {
            HwEncoder::Qsv => "Intel Quick Sync (QSV)"@,
            HwEncoder::Nvenc => "NVIDIA NVENC"@,
            HwEncoder::Amf => "AMD AMF"@,
        }
    }

    /// The name of the encoder for a codec, where there is one.
    pub open spec fn encoder(self, codec: Codec) -> Option<Seq<char>> {
        match (self, codec) {
            (HwEncoder::Qsv, Codec::Auto | Codec::H264) => Some("h264_qsv"@),
            (HwEncoder::Qsv, Codec::H265) => Some("hevc_qsv"@),
            (HwEncoder::Nvenc, Codec::Auto | Codec::H264) => Some("h264_nvenc"@),
            (HwEncoder::Nvenc, Codec::H265) => Some("hevc_nvenc"@),
            (HwEncoder::Amf, Codec::Auto | Codec::H264) => Some("h264_amf"@),
            (HwEncoder::Amf, Codec::H265) => Some("hevc_amf"@),
            _ => None,
        }
    }

    /// The arguments that ask for a fixed quality.
    pub open spec fn quality(self) -> Seq<Seq<char>> {
        match self {
            HwEncoder::Qsv | HwEncoder::Nvenc => seq!["-global_quality"@, "23"@],
            HwEncoder::Amf => seq!["-rc"@, "cqp"@, "-qp_i"@, "23"@, "-qp_p"@, "23"@],
        }
    }

    pub fn backend_label(self) -> (r: &'static str)
        ensures
            r@ == self.backend(),
    {
        match self {
            HwEncoder::Qsv => "Intel Quick Sync (QSV)",
            HwEncoder::Nvenc => "NVIDIA NVENC",
            HwEncoder::Amf => "AMD AMF",
        }
    }

    pub fn ffmpeg_encoder_name(self, codec: Codec) -> (r: Option<&'static str>)
        ensures
            str_view(r) == self.encoder(codec),
    {
        match (self, codec) {
            (HwEncoder::Qsv, Codec::Auto | Codec::H264) => Some("h264_qsv"),
            (HwEncoder::Qsv, Codec::H265) => Some("hevc_qsv"),
            (HwEncoder::Nvenc, Codec::Auto | Codec::H264) => Some("h264_nvenc"),
            (HwEncoder::Nvenc, Codec::H265) => Some("hevc_nvenc"),
            (HwEncoder::Amf, Codec::Auto | Codec::H264) => Some("h264_amf"),
            (HwEncoder::Amf, Codec::H265) => Some("hevc_amf"),
            _ => None,
        }
    }

    pub fn quality_args(self) -> (r: Vec<&'static str>)
        ensures
            str_views(r@) == self.quality(),
    {
        let r: Vec<&'static str> = match self {
            HwEncoder::Qsv | HwEncoder::Nvenc => vec!["-global_quality", "23"],
            HwEncoder::Amf => vec!["-rc", "cqp", "-qp_i", "23", "-qp_p", "23"],
        };
        assert(str_views(r@) =~= self.quality());
        r
    }
}

/// Which encoder a job was given.
#[derive(Debug, Clone, PartialEq, Eq)]
pub enum EncoderInfo {
    Hardware { backend: &'static str, ffmpeg_name: &'static str },
    Software { ffmpeg_name: &'static str, preset: Option<&'static str> },
    Remux,
}

/// Which encoder a job was given, as contracts speak of it.
pub enum EncoderView {
    Hardware { backend: Seq<char>, ffmpeg_name: Seq<char> },
    Software { ffmpeg_name: Seq<char>, preset: Option<Seq<char>> },
    Remux,
}

impl View for EncoderInfo {
    type V = EncoderView;

    open spec fn view(&self) -> EncoderView {
        match *self {
            EncoderInfo::Hardware { backend, ffmpeg_name } => EncoderView::Hardware {
                backend: backend@,
                ffmpeg_name: ffmpeg_name@,
            },
            EncoderInfo::Software { ffmpeg_name, preset } => EncoderView::Software {
                ffmpeg_name: ffmpeg_name@,
                preset: str_view(preset),
            },
            EncoderInfo::Remux => EncoderView::Remux,
        }
    }
}

/// What is shown of an encoder.
pub open spec fn encoder_text(e: EncoderView) -> Seq<char> {
    match e {
        EncoderView::Hardware { backend, ffmpeg_name } => "Hardware: "@ + backend + " ("@
            + ffmpeg_name + ")"@,
        EncoderView::Software { ffmpeg_name, preset: Some(p) } => "Software: "@ + ffmpeg_name
            + " (Preset: "@ + p + ")"@,
        EncoderView::Software { ffmpeg_name, preset: None } => "Software: "@ + ffmpeg_name,
        EncoderView::Remux => "No re-encode (subtitle mode)"@,
    }
}

impl EncoderInfo {
    pub fn describe(&self) -> (r: String)
        ensures
            r@ == encoder_text(self@),
    {
        match self {
            EncoderInfo::Hardware { backend, ffmpeg_name } => {
                let mut r = "Hardware: ".to_owned();
                r.push_str(backend);
                r.push_str(" (");
                r.push_str(ffmpeg_name);
                r.push_str(")");
                r
            },
            EncoderInfo::Software { ffmpeg_name, preset } => {
                let mut r = "Software: ".to_owned();
                r.push_str(ffmpeg_name);
                match preset {
                    Some(p) => {
                        r.push_str(" (Preset: ");
                        r.push_str(p);
                        r.push_str(")");
                    },
                    None => {},
                }
                r
            },
            EncoderInfo::Remux => "No re-encode (subtitle mode)".to_owned(),
        }
    }
}

/// What trials of encoders in hardware have shown, by encoder and frame size.
pub struct HwProbeCache {
    pub entries: Vec<(String, u32, u32, bool)>,
}

/// What is known of an encoder at a frame size: the last trial counts.
pub open spec fn known_trial(
    entries: Seq<(String, u32, u32, bool)>,
    name: Seq<char>,
    width: u32,
    height: u32,
) -> Option<bool>
    decreases entries.len(),
{
    if entries.len() == 0 {
        None
    } else {
        let e = entries.last();
        if e.0@ == name && e.1 == width && e.2 == height {
            Some(e.3)
        } else {
            known_trial(entries.drop_last(), name, width, height)
        }
    }
}

impl HwProbeCache {
    pub fn new() -> (r: HwProbeCache)
        ensures
            r.entries@.len() == 0,
    {
        HwProbeCache { entries: Vec::new() }
    }

    /// What is known of an encoder at a frame size.
    pub fn known(&self, name: &str, width: u32, height: u32) -> (r: Option<bool>)
        ensures
            r == known_trial(self.entries@, name@, width, height),
    {
        let ghost all = self.entries@;
        let mut i: usize = self.entries.len();
        assert(all.take(i as int) =~= all);
        while i > 0
            invariant
                i <= self.entries.len(),
                all == self.entries@,
                known_trial(all, name@, width, height) == known_trial(
                    all.take(i as int),
                    name@,
                    width,
                    height,
                ),
            decreases i,
        {
            i -= 1;
            proof {
                assert(all.take(i + 1).drop_last() =~= all.take(i as int));
            }
            let e = &self.entries[i];
            if same_text(e.0.as_str(), name) && e.1 == width && e.2 == height {
                return Some(e.3);
            }
        }
        None
    }

    /// Keeps the outcome of a trial.
    pub fn remember(&mut self, name: &str, width: u32, height: u32, available: bool)
        ensures
            known_trial(final(self).entries@, name@, width, height) == Some(available),
            forall|n: Seq<char>, w: u32, h: u32|
                (n != name@ || w != width || h != height) ==> #[trigger] known_trial(
                    final(self).entries@,
                    n,
                    w,
                    h,
                ) == known_trial(old(self).entries@, n, w, h),
    {
        self.entries.push((name.to_owned(), width, height, available));
        assert(self.entries@.drop_last() =~= old(self).entries@);
    }
}

/// Decimal arguments and texts as a list of arguments.
pub(crate) fn push_args(out: &mut Vec<String>, list: &Vec<&str>)
    ensures
        views(final(out)@) == views(old(out)@) + str_views(list@),
{
    let ghost before = views(out@);
    let mut i: usize = 0;
    assert(before + str_views(list@).take(0) =~= before);
    while i < list.len()
        invariant
            i <= list.len(),
            views(out@) == before + str_views(list@).take(i as int),
        decreases list.len() - i,
    {
        let ghost mid = out@;
        out.push(list[i].to_owned());
        proof {
            assert(views(out@) =~= views(mid).push(list@[i as int]@));
            assert(before + str_views(list@).take(i + 1) =~= (before + str_views(list@).take(
                i as int,
            )).push(list@[i as int]@));
        }
        i += 1;
    }
    assert(str_views(list@).take(i as int) =~= str_views(list@));
}

/// The size of a frame as encoders take it.
pub open spec fn size_text(width: u32, height: u32) -> Seq<char> {
    decimal(width as nat) + "x"@ + decimal(height as nat)
}

pub(crate) fn size_arg(width: u32, height: u32) -> (r: String)
    ensures
        r@ == size_text(width, height),
{
    let mut r = String::new();
    push_decimal(&mut r, width as u64);
    r.push_str("x");
    push_decimal(&mut r, height as u64);
    assert(r@ =~= size_text(width, height));
    r
}

/// The arguments of a trial of an encoder: one frame of the size that the job
/// will encode, written nowhere.
pub open spec fn trial_args(encoder: Seq<char>, pix_fmt: Seq<char>, width: u32, height: u32) -> Seq<
    Seq<char>,
> {
    seq![
        "-hide_banner"@,
        "-loglevel"@,
        "error"@,
        "-y"@,
        "-f"@,
        "lavfi"@,
        "-i"@,
        "nullsrc=size="@ + size_text(width, height) + ":rate=5:duration=0.2"@,
        "-frames:v"@,
        "1"@,
        "-c:v"@,
        encoder,
        "-pix_fmt"@,
        pix_fmt,
        "-f"@,
        "null"@,
        "-"@,
    ]
}

/// The arguments of a trial of an encoder; a frame without pixels is not tried.
pub fn hw_probe_args(encoder_name: &str, pix_fmt: &str, width: u32, height: u32) -> (r: Option<
    Vec<String>,
>)
    ensures
        r.is_none() == (width == 0 || height == 0),
        r matches Some(v) ==> views(v@) == trial_args(encoder_name@, pix_fmt@, width, height),
{
    if width == 0 || height == 0 {
        return None;
    }
    let mut source = "nullsrc=size=".to_owned();
    source.push_str(size_arg(width, height).as_str());
    source.push_str(":rate=5:duration=0.2");
    let list: Vec<&str> = vec![
        "-hide_banner",
        "-loglevel",
        "error",
        "-y",
        "-f",
        "lavfi",
        "-i",
        source.as_str(),
        "-frames:v",
        "1",
        "-c:v",
        encoder_name,
        "-pix_fmt",
        pix_fmt,
        "-f",
        "null",
        "-",
    ];
    let mut r: Vec<String> = Vec::new();
    push_args(&mut r, &list);
    proof {
        assert(views(r@) =~= trial_args(encoder_name@, pix_fmt@, width, height));
    }
    Some(r)
}

/// Whether an encoder works at a frame size, given how a trial ended: `None`
/// where it could not be started.
pub open spec fn trial_verdict(width: u32, height: u32, trial: Option<bool>) -> bool {
    width > 0 && height > 0 && trial == Some(true)
}

/// Whether an encoder works at a frame size. What is known already is not tried
/// again; else the outcome of a trial is kept.
pub fn probe_hw_encoder(
    cache: &mut HwProbeCache,
    encoder_name: &str,
    width: u32,
    height: u32,
    trial: Option<bool>,
) -> (r: bool)
    ensures
        r == match known_trial(old(cache).entries@, encoder_name@, width, height) {
            Some(known) => known,
            None => trial_verdict(width, height, trial),
        },
        known_trial(final(cache).entries@, encoder_name@, width, height) == Some(r),
        forall|n: Seq<char>, w: u32, h: u32|
            (n != encoder_name@ || w != width || h != height) ==> #[trigger] known_trial(
                final(cache).entries@,
                n,
                w,
                h,
            ) == known_trial(old(cache).entries@, n, w, h),
{
    match cache.known(encoder_name, width, height) {
        Some(known) => known,
        None => {
            let available = width > 0 && height > 0 && match trial {
                Some(success) => success,
                None => false,
            };
            cache.remember(encoder_name, width, height, available);
            available
        },
    }
}

/// Whether a codec has encoders in hardware.
pub open spec fn has_hardware(codec: Codec) -> bool {
    codec == Codec::Auto || codec == Codec::H264 || codec == Codec::H265
}

/// The position of the first trial that succeeded, or the count of trials.
pub open spec fn first_success(outcomes: Seq<bool>) -> nat
    decreases outcomes.len(),
{
    if outcomes.len() == 0 || outcomes[0] {
        0
    } else {
        1 + first_success(outcomes.skip(1))
    }
}

fn find_success(outcomes: &[bool]) -> (r: usize)
    ensures
        r == first_success(outcomes@),
        r <= outcomes.len(),
{
    let mut i: usize = 0;
    assert(outcomes@.skip(0) =~= outcomes@);
    while i < outcomes.len() && !outcomes[i]
        invariant
            i <= outcomes.len(),
            first_success(outcomes@) == i + first_success(outcomes@.skip(i as int)),
        decreases outcomes.len() - i,
    {
        assert(outcomes@.skip(i as int).skip(1) =~= outcomes@.skip(i + 1));
        i += 1;
    }
    i
}

/// The encoder in hardware to try next, given how the trials so far ended: none
/// once one has succeeded or all have been tried, nor where none was asked for or
/// the codec has none.
pub open spec fn next_candidate(codec: Codec, hw_accel: bool, outcomes: Seq<bool>) -> Option<
    HwEncoder,
> {
    if !hw_accel || !has_hardware(codec) || first_success(outcomes) < outcomes.len()
        || outcomes.len() >= ENABLED_HW_CANDIDATES@.len() {
        None
    } else {
        Some(ENABLED_HW_CANDIDATES@[outcomes.len() as int])
    }
}

pub fn next_hw_candidate(codec: Codec, hw_accel: bool, outcomes: &[bool]) -> (r: Option<HwEncoder>)
    ensures
        r == next_candidate(codec, hw_accel, outcomes@),
{
    if !hw_accel || !codec.supports_preset() || find_success(outcomes) < outcomes.len()
        || outcomes.len() >= 3 {
        None
    } else {
        Some(ENABLED_HW_CANDIDATES[outcomes.len()])
    }
}

/// The encoder that a job gets: the first one in hardware whose trial at the
/// job's frame size succeeded, else the one in software.
pub open spec fn chosen_hardware(
    codec: Codec,
    hw_accel: bool,
    width: u32,
    height: u32,
    outcomes: Seq<bool>,
) -> Option<HwEncoder> {
    let i = first_success(outcomes);
    if hw_accel && has_hardware(codec) && width > 0 && height > 0 && i < outcomes.len() && i
        < ENABLED_HW_CANDIDATES@.len() {
        Some(ENABLED_HW_CANDIDATES@[i as int])
    } else {
        None
    }
}

/// The name of the preset that a codec's software encoder is given.
pub open spec fn preset_of(codec: Codec, preset: Preset) -> Option<Seq<char>> {
    if codec.has_preset() {
        Some(preset.name())
    } else {
        None
    }
}

/// The encoder, the pixel format and the other arguments for a job, given how
/// trials of the encoders in hardware ended, in the order in which they are tried.
pub fn resolve_encoder(
    codec: Codec,
    preset: Preset,
    hw_accel: bool,
    width: u32,
    height: u32,
    outcomes: &[bool],
) -> (r: (&'static str, &'static str, Vec<&'static str>, EncoderInfo))
    ensures
        match chosen_hardware(codec, hw_accel, width, height, outcomes@) {
            Some(hw) => {
                &&& hw.encoder(codec) == Some(r.0@)
                &&& r.1@ == "nv12"@
                &&& str_views(r.2@) == hw.quality()
                &&& r.3@ == (EncoderView::Hardware { backend: hw.backend(), ffmpeg_name: r.0@ })
            },
            None => {
                &&& r.0@ == codec.encoder()
                &&& r.1@ == "yuv420p"@
                &&& str_views(r.2@) == match preset_of(codec, preset) {
                    Some(p) => seq!["-preset"@, p],
                    None => seq![],
                }
                &&& r.3@ == (EncoderView::Software {
                    ffmpeg_name: r.0@,
                    preset: preset_of(codec, preset),
                })
            },
        },
{
    let i: usize = find_success(outcomes);
    if hw_accel && codec.supports_preset() && width > 0 && height > 0 && i < outcomes.len() && i
        < 3 {
        let hw = ENABLED_HW_CANDIDATES[i];
        match hw.ffmpeg_encoder_name(codec) {
            Some(name) => {
                return (
                    name,
                    "nv12",
                    hw.quality_args(),
                    EncoderInfo::Hardware { backend: hw.backend_label(), ffmpeg_name: name },
                );
            },
            None => {},
        }
    }
    let name = codec.ffmpeg_codec_name();
    if codec.supports_preset() {
        let p = preset.ffmpeg_name();
        let extra: Vec<&'static str> = vec!["-preset", p];
        assert(str_views(extra@) =~= seq!["-preset"@, p@]);
        (name, "yuv420p", extra, EncoderInfo::Software { ffmpeg_name: name, preset: Some(p) })
    } else {
        let extra: Vec<&'static str> = Vec::new();
        assert(str_views(extra@) =~= seq![]);
        (name, "yuv420p", extra, EncoderInfo::Software { ffmpeg_name: name, preset: None })
    }
}

/// How telemetry gets to a video: drawn into the picture, or as a track of
/// subtitles beside it.
#[derive(Debug, Clone, Copy, PartialEq, Eq, Structural)]
pub enum OutputMode {
    Overlay,
    Subtitles,
}

pub open spec fn mode_named(key: Seq<char>) -> Option<OutputMode> {
    if key == "overlay"@ {
        Some(OutputMode::Overlay)
    } else if key == "subtitles"@ || key == "subtitle"@ {
        Some(OutputMode::Subtitles)
    } else {
        None
    }
}

impl OutputMode {
    pub fn parse(s: &str) -> (r: Option<OutputMode>)
        ensures
            r == mode_named(name_key(s@)),
    {
        let key = key_of(s);
        let k = key.as_str();
        if same_text(k, "overlay") {
            Some(OutputMode::Overlay)
        } else if same_text(k, "subtitles") || same_text(k, "subtitle") {
            Some(OutputMode::Subtitles)
        } else {
            None
        }
    }
}

/// The size of the picture with an overlay: that of the source, or one that it is
/// made to fit, never made larger.
#[derive(Debug, Clone, Copy, PartialEq, Eq, Structural)]
pub enum OutputResolution {
    Original,
    Uhd4k,
    Fhd1080p,
    Hd720p,
}

/// All sizes, in the order of menus.
pub const OUTPUT_RESOLUTIONS: [OutputResolution; 4] = [
    OutputResolution::Original,
    OutputResolution::Uhd4k,
    OutputResolution::Fhd1080p,
    OutputResolution::Hd720p,
];

pub open spec fn resolution_named(key: Seq<char>) -> Option<OutputResolution> {
    if key == ""@ || key == "original"@ || key == "source"@ || key == "native"@ {
        Some(OutputResolution::Original)
    } else if key == "4k"@ || key == "uhd"@ || key == "2160p"@ || key == "2160"@ {
        Some(OutputResolution::Uhd4k)
    } else if key == "1080p"@ || key == "1080"@ || key == "fhd"@ {
        Some(OutputResolution::Fhd1080p)
    } else if key == "720p"@ || key == "720"@ || key == "hd"@ {
        Some(OutputResolution::Hd720p)
    } else {
        None
    }
}

/// The nearest even number of pixels that is not larger than the nearest whole
/// number, and not below two.
pub open spec fn even_pixels(value: Real) -> nat {
    let r = value.rounded();
    if r < 2 {
        2
    } else if r > u32::MAX {
        (u32::MAX - 1) as nat
    } else {
        (r - r % 2) as nat
    }
}

/// A side without its last pixel where it is odd, but a single pixel stays.
pub open spec fn even_side(side: u32) -> nat {
    if side >= 2 {
        (side - side % 2) as nat
    } else {
        side as nat
    }
}

fn lower_to_even(side: u32) -> (r: u32)
    ensures
        r == even_side(side),
{
    if side >= 2 {
        side - side % 2
    } else {
        side
    }
}

/// Rounds a scaled side to an even number of pixels, at least two.
pub fn round_to_even(value: Real) -> (r: u32)
    ensures
        r == even_pixels(value),
{
    let rounded: u64 = value.round_u64();
    if rounded < 2 {
        2
    } else if rounded > u32::MAX as u64 {
        u32::MAX - 1
    } else {
        let n: u32 = rounded as u32;
        n - n % 2
    }
}

impl OutputResolution {
    pub open spec fn name(self) -> Seq<char> {
        match self {
            OutputResolution::Original => "original"@,
            OutputResolution::Uhd4k => "4k"@,
            OutputResolution::Fhd1080p => "1080p"@,
            OutputResolution::Hd720p => "720p"@,
        }
    }

    pub open spec fn title(self) -> Seq<char> {
        match self {
            OutputResolution::Original => "Original"@,
            OutputResolution::Uhd4k => "4K (3840x2160)"@,
            OutputResolution::Fhd1080p => "1080p (1920x1080)"@,
            OutputResolution::Hd720p => "720p (1280x720)"@,
        }
    }

    /// The long and the short side of the box that a picture has to fit.
    pub open spec fn sides(self) -> Option<(u32, u32)> {
        match self {
            OutputResolution::Original => None,
            OutputResolution::Uhd4k => Some((3840, 2160)),
            OutputResolution::Fhd1080p => Some((1920, 1080)),
            OutputResolution::Hd720p => Some((1280, 720)),
        }
    }

    /// The box that a picture has to fit, turned like the picture.
    pub open spec fn fitting_box(self, width: u32, height: u32) -> (u32, u32) {
        let (long, short) = self.sides()->0;
        if width >= height {
            (long, short)
        } else {
            (short, long)
        }
    }

    /// How much a picture has to shrink to fit a box.
    pub open spec fn shrink_factor(self, width: u32, height: u32) -> Real {
        let (w, h) = self.fitting_box(width, height);
        Real::of_int(w as int).quotient(Real::of_int(width as int)).least(
            Real::of_int(h as int).quotient(Real::of_int(height as int)),
        )
    }

    /// Whether a picture is not shrunken.
    pub open spec fn keeps(self, width: u32, height: u32) -> bool {
        self.sides().is_none() || width == 0 || height == 0 || (width <= self.fitting_box(
            width,
            height,
        ).0 && height <= self.fitting_box(width, height).1)
    }

    /// The size that a picture gets. One that fits the box only loses the last column
    /// or row where it has an odd count of them.
    pub open spec fn target(self, width: u32, height: u32) -> (nat, nat) {
        if self.sides().is_none() || width == 0 || height == 0 {
            (width as nat, height as nat)
        } else if self.keeps(width, height) {
            (even_side(width), even_side(height))
        } else {
            let factor = self.shrink_factor(width, height);
            (
                even_pixels(Real::of_int(width as int).product(factor)),
                even_pixels(Real::of_int(height as int).product(factor)),
            )
        }
    }

    /// The size with a name; `None` for a name that is none.
    pub fn parse(s: &str) -> (r: Option<OutputResolution>)
        ensures
            r == resolution_named(name_key(s@)),
    {
        let key = key_of(s);
        let k = key.as_str();
        if same_text(k, "") || same_text(k, "original") || same_text(k, "source") || same_text(
            k,
            "native",
        ) {
            Some(OutputResolution::Original)
        } else if same_text(k, "4k") || same_text(k, "uhd") || same_text(k, "2160p") || same_text(
            k,
            "2160",
        ) {
            Some(OutputResolution::Uhd4k)
        } else if same_text(k, "1080p") || same_text(k, "1080") || same_text(k, "fhd") {
            Some(OutputResolution::Fhd1080p)
        } else if same_text(k, "720p") || same_text(k, "720") || same_text(k, "hd") {
            Some(OutputResolution::Hd720p)
        } else {
            None
        }
    }

    /// The name under which this size is found.
    pub fn as_str(self) -> (r: &'static str)
        ensures
            r@ == self.name(),
    {
        match self {
            OutputResolution::Original => "original",
            OutputResolution::Uhd4k => "4k",
            OutputResolution::Fhd1080p => "1080p",
            OutputResolution::Hd720p => "720p",
        }
    }

    /// The name shown in a menu.
    pub fn label(self) -> (r: &'static str)
        ensures
            r@ == self.title(),
    {
        match self {
            OutputResolution::Original => "Original",
            OutputResolution::Uhd4k => "4K (3840x2160)",
            OutputResolution::Fhd1080p => "1080p (1920x1080)",
            OutputResolution::Hd720p => "720p (1280x720)",
        }
    }

    fn box_sides(self) -> (r: Option<(u32, u32)>)
        ensures
            r == self.sides(),
    {
        match self {
            OutputResolution::Original => None,
            OutputResolution::Uhd4k => Some((3840, 2160)),
            OutputResolution::Fhd1080p => Some((1920, 1080)),
            OutputResolution::Hd720p => Some((1280, 720)),
        }
    }

    /// The size that a picture of a given size gets.
    pub fn target_dimensions(self, width: u32, height: u32) -> (r: (u32, u32))
        ensures
            r.0 == self.target(width, height).0,
            r.1 == self.target(width, height).1,
    {
        let (long, short) = match self.box_sides() {
            Some(sides) => sides,
            None => {
                return (width, height);
            },
        };
        if width == 0 || height == 0 {
            return (width, height);
        }
        let (box_w, box_h) = if width >= height {
            (long, short)
        } else {
            (short, long)
        };
        if width <= box_w && height <= box_h {
            return (lower_to_even(width), lower_to_even(height));
        }
        let w = Real::from_u64(width as u64);
        let h = Real::from_u64(height as u64);
        let factor = Real::from_u64(box_w as u64).over(w).min(Real::from_u64(box_h as u64).over(h));
        (round_to_even(w.times(factor)), round_to_even(h.times(factor)))
    }
}

/// What a job is asked to do.
#[derive(Debug, Clone)]
pub struct ProcessingOptions {
    pub fields: Vec<Field>,
    pub codec: Codec,
    pub preset: Preset,
    pub hw_accel: bool,
    pub show_graph: bool,
    pub mode: OutputMode,
    pub interpolate: bool,
    /// Without meaning for subtitles, which leave the picture as it is.
    pub resolution: OutputResolution,
}

} // verus!
