//! The FFmpeg pipeline: its arguments, the state of the process that encodes,
//! and the copy that turns segments into an output.

use vstd::prelude::*;

use crate::codec::Codec;
use crate::config::{self, EncoderConfig};
use crate::paths;
use crate::segments::SegmentInfo;
use crate::text;

verus! {

// ---------------------------------------------------------------------------
// Argument lists
// ---------------------------------------------------------------------------

/// Adds one argument.
fn put(args: &mut Vec<String>, s: &str)
    ensures
        final(args).deep_view() == old(args).deep_view().push(s@),
{
    args.push(s.to_owned());
    assert(args.deep_view() =~= old(args).deep_view().push(s@));
}

/// Adds one argument.
fn put_text(args: &mut Vec<String>, s: String)
    ensures
        final(args).deep_view() == old(args).deep_view().push(s@),
{
    args.push(s);
    assert(args.deep_view() =~= old(args).deep_view().push(s@));
}

/// Adds all of `more`.
fn put_all(args: &mut Vec<String>, more: &Vec<String>)
    ensures
        final(args).deep_view() == old(args).deep_view() + more.deep_view(),
{
    let mut i: usize = 0;
    while i < more.len()
        invariant
            i <= more@.len(),
            args.deep_view() == old(args).deep_view() + more.deep_view().take(i as int),
        decreases more@.len() - i,
    {
        put(args, more[i].as_str());
        assert(more.deep_view().take(i + 1) =~= more.deep_view().take(i as int).push(
            more@[i as int]@,
        ));
        i += 1;
    }
    assert(more.deep_view().take(i as int) =~= more.deep_view());
}

fn no_args() -> (args: Vec<String>)
    ensures
        args.deep_view() == Seq::<Seq<char>>::empty(),
{
    let args: Vec<String> = Vec::new();
    assert(args.deep_view() =~= Seq::<Seq<char>>::empty());
    args
}

/// A number as an argument.
fn put_number(args: &mut Vec<String>, n: u64)
    ensures
        final(args).deep_view() == old(args).deep_view().push(text::decimal(n as nat)),
{
    let s = text::decimal_text(n);
    put_text(args, s);
}

// ---------------------------------------------------------------------------
// Recording arguments
// ---------------------------------------------------------------------------

/// `WIDTHxHEIGHT`.
pub open spec fn size_arg(width: u32, height: u32) -> Seq<char> {
    text::decimal(width as nat) + "x"@ + text::decimal(height as nat)
}

/// Raw frames from standard input.
pub open spec fn source_args(log_level: Seq<char>, width: u32, height: u32, fps: u32) -> Seq<
    Seq<char>,
> {
    seq![
        "-hide_banner"@,
        "-loglevel"@,
        log_level,
        "-y"@,
        "-f"@,
        "rawvideo"@,
        "-pix_fmt"@,
        "bgra"@,
        "-s"@,
        size_arg(width, height),
        "-r"@,
        text::decimal(fps as nat),
        "-i"@,
        "pipe:0"@,
        "-an"@,
    ]
}

/// Frames between keyframes: two seconds, and at least 24.
pub open spec fn keyframe_gap(fps: u32) -> nat {
    if 2 * fps > 24 {
        (2 * fps) as nat
    } else {
        24
    }
}

/// A target bitrate, where one is set.
pub open spec fn bitrate_args(kbps: u32) -> Seq<Seq<char>> {
    if kbps > 0 {
        seq!["-b:v"@, text::decimal(kbps as nat) + "k"@]
    } else {
        seq![]
    }
}

/// `keyint=N:min-keyint=N`.
pub open spec fn keyint_arg(fps: u32) -> Seq<char> {
    let gap = text::decimal(keyframe_gap(fps));
    "keyint="@ + gap + ":min-keyint="@ + gap
}

/// x264 and x265, which differ in the name of their parameter list.
pub open spec fn x26_args(enc: EncoderConfig, params: Seq<char>) -> Seq<Seq<char>> {
    seq!["-preset"@, config::named_preset(enc.preset@)] + bitrate_args(enc.bitrate_kbps) + seq![
        "-crf"@,
        text::decimal(enc.crf as nat),
        params,
        keyint_arg(enc.fps),
    ]
}

pub open spec fn vp9_args(enc: EncoderConfig) -> Seq<Seq<char>> {
    seq!["-crf"@, text::decimal(enc.crf as nat)] + bitrate_args(enc.bitrate_kbps) + seq![
        "-deadline"@,
        "realtime"@,
        "-cpu-used"@,
        "6"@,
        "-row-mt"@,
        "1"@,
        "-g"@,
        text::decimal(keyframe_gap(enc.fps)),
    ]
}

pub open spec fn aom_args(enc: EncoderConfig) -> Seq<Seq<char>> {
    seq!["-crf"@, text::decimal(enc.crf as nat)] + bitrate_args(enc.bitrate_kbps) + seq![
        "-cpu-used"@,
        "8"@,
        "-row-mt"@,
        "1"@,
        "-g"@,
        text::decimal(keyframe_gap(enc.fps)),
    ]
}

/// The NVENC preset for a preset name: `p1` is the best, `p7` the fastest. A
/// name that is none of x264's stays.
pub open spec fn nvenc_preset(s: Seq<char>) -> Seq<char> {
    if s == "ultrafast"@ || s == "superfast"@ || s == "veryfast"@ {
        "p7"@
    } else if s == "faster"@ {
        "p6"@
    } else if s == "fast"@ {
        "p5"@
    } else if s == "medium"@ || s == ""@ {
        "p4"@
    } else if s == "slow"@ {
        "p3"@
    } else if s == "slower"@ {
        "p2"@
    } else if s == "veryslow"@ || s == "placebo"@ {
        "p1"@
    } else {
        s
    }
}

/// The target bitrate of an NVENC encoder. Zero is written out: without it the
/// encoder would keep to a bitrate of its own.
pub open spec fn nvenc_rate(kbps: u32) -> Seq<Seq<char>> {
    if kbps > 0 {
        bitrate_args(kbps)
    } else {
        seq!["-b:v"@, "0"@]
    }
}

pub open spec fn nvenc_args(enc: EncoderConfig, encoder: Seq<char>) -> Seq<Seq<char>> {
    seq![
        "-preset"@,
        nvenc_preset(enc.preset@),
        "-rc"@,
        "vbr"@,
        "-cq"@,
        text::decimal(enc.crf as nat),
    ] + nvenc_rate(enc.bitrate_kbps) + (if text::holds(encoder, "av1"@) {
        seq![]
    } else {
        seq!["-tune"@, "ll"@]
    }) + seq!["-g"@, text::decimal(keyframe_gap(enc.fps))]
}

pub open spec fn amf_args(enc: EncoderConfig) -> Seq<Seq<char>> {
    seq![
        "-quality"@,
        "speed"@,
        "-usage"@,
        "ultrafast"@,
        "-rc"@,
        "vbr"@,
        "-qp_i"@,
        text::decimal(enc.crf as nat),
        "-qp_p"@,
        text::decimal(enc.crf as nat),
    ] + bitrate_args(enc.bitrate_kbps) + seq!["-g"@, text::decimal(keyframe_gap(enc.fps))]
}

pub open spec fn qsv_args(enc: EncoderConfig) -> Seq<Seq<char>> {
    seq!["-preset"@, "veryfast"@, "-global_quality"@, text::decimal(enc.crf as nat)]
        + bitrate_args(enc.bitrate_kbps) + seq!["-g"@, text::decimal(keyframe_gap(enc.fps))]
}

/// What an encoder is told about speed, quality and keyframes. An encoder of
/// no known family is told nothing.
pub open spec fn tuning_args(enc: EncoderConfig, encoder: Seq<char>) -> Seq<Seq<char>> {
    if text::begins(encoder, "libx264"@) {
        x26_args(enc, "-x264-params"@)
    } else if text::begins(encoder, "libx265"@) {
        x26_args(enc, "-x265-params"@)
    } else if text::begins(encoder, "libvpx-vp9"@) {
        vp9_args(enc)
    } else if text::begins(encoder, "libaom"@) {
        aom_args(enc)
    } else if text::holds(encoder, "nvenc"@) {
        nvenc_args(enc, encoder)
    } else if text::finishes(encoder, "_amf"@) {
        amf_args(enc)
    } else if text::finishes(encoder, "_qsv"@) {
        qsv_args(enc)
    } else {
        seq![]
    }
}

/// Numbered segments of a given length.
pub open spec fn segment_args(segment_time: Seq<char>) -> Seq<Seq<char>> {
    seq![
        "-f"@,
        "segment"@,
        "-segment_time"@,
        segment_time,
        "-reset_timestamps"@,
        "1"@,
        "-segment_format"@,
        "mkv"@,
        "-avoid_negative_ts"@,
        "make_zero"@,
    ]
}

/// Every recording argument but the last, which says where segments go.
pub open spec fn recording_args(
    encoder: Seq<char>,
    enc: EncoderConfig,
    width: u32,
    height: u32,
    segment_time: Seq<char>,
    log_level: Seq<char>,
) -> Seq<Seq<char>> {
    source_args(log_level, width, height, enc.fps) + seq!["-c:v"@, encoder] + tuning_args(
        enc,
        encoder,
    ) + seq!["-pix_fmt"@, enc.pixel_format@] + enc.extra_encoder_args.deep_view() + segment_args(
        segment_time,
    )
}

/// FFmpeg's pattern for segment names.
pub open spec fn segment_pattern() -> Seq<char> {
    "seg_%05d.mkv"@
}

fn put_bitrate(args: &mut Vec<String>, kbps: u32)
    ensures
        final(args).deep_view() == old(args).deep_view() + bitrate_args(kbps),
{
    if kbps > 0 {
        put(args, "-b:v");
        let mut rate = text::decimal_text(kbps as u64);
        rate.append("k");
        put_text(args, rate);
    }
    assert(args.deep_view() =~= old(args).deep_view() + bitrate_args(kbps));
}

fn gap_of(fps: u32) -> (r: u64)
    ensures
        r == keyframe_gap(fps),
{
    let two: u64 = 2 * (fps as u64);
    if two > 24 {
        two
    } else {
        24
    }
}

fn keyint_text(fps: u32) -> (r: String)
    ensures
        r@ == keyint_arg(fps),
{
    let gap = text::decimal_text(gap_of(fps));
    let mut out = "keyint=".to_owned();
    out.append(gap.as_str());
    out.append(":min-keyint=");
    out.append(gap.as_str());
    out
}

fn tune_x26(enc: &EncoderConfig, params: &str) -> (args: Vec<String>)
    ensures
        args.deep_view() == x26_args(*enc, params@),
{
    let mut args = no_args();
    put(&mut args, "-preset");
    put_text(&mut args, config::sanitize_preset(enc.preset.as_str()));
    put_bitrate(&mut args, enc.bitrate_kbps);
    put(&mut args, "-crf");
    put_number(&mut args, enc.crf as u64);
    put(&mut args, params);
    put_text(&mut args, keyint_text(enc.fps));
    assert(args.deep_view() =~= x26_args(*enc, params@));
    args
}

fn tune_vp9(enc: &EncoderConfig) -> (args: Vec<String>)
    ensures
        args.deep_view() == vp9_args(*enc),
{
    let mut args = no_args();
    put(&mut args, "-crf");
    put_number(&mut args, enc.crf as u64);
    put_bitrate(&mut args, enc.bitrate_kbps);
    put(&mut args, "-deadline");
    put(&mut args, "realtime");
    put(&mut args, "-cpu-used");
    put(&mut args, "6");
    put(&mut args, "-row-mt");
    put(&mut args, "1");
    put(&mut args, "-g");
    put_number(&mut args, gap_of(enc.fps));
    assert(args.deep_view() =~= vp9_args(*enc));
    args
}

fn tune_aom(enc: &EncoderConfig) -> (args: Vec<String>)
    ensures
        args.deep_view() == aom_args(*enc),
{
    let mut args = no_args();
    put(&mut args, "-crf");
    put_number(&mut args, enc.crf as u64);
    put_bitrate(&mut args, enc.bitrate_kbps);
    put(&mut args, "-cpu-used");
    put(&mut args, "8");
    put(&mut args, "-row-mt");
    put(&mut args, "1");
    put(&mut args, "-g");
    put_number(&mut args, gap_of(enc.fps));
    assert(args.deep_view() =~= aom_args(*enc));
    args
}

fn nvenc_preset_for(s: &str) -> (r: String)
    ensures
        r@ == nvenc_preset(s@),
{
    if text::same(s, "ultrafast") || text::same(s, "superfast") || text::same(s, "veryfast") {
        "p7".to_owned()
    } else if text::same(s, "faster") {
        "p6".to_owned()
    } else if text::same(s, "fast") {
        "p5".to_owned()
    } else if text::same(s, "medium") || text::same(s, "") {
        "p4".to_owned()
    } else if text::same(s, "slow") {
        "p3".to_owned()
    } else if text::same(s, "slower") {
        "p2".to_owned()
    } else if text::same(s, "veryslow") || text::same(s, "placebo") {
        "p1".to_owned()
    } else {
        s.to_owned()
    }
}

fn tune_nvenc(enc: &EncoderConfig, encoder: &str) -> (args: Vec<String>)
    ensures
        args.deep_view() == nvenc_args(*enc, encoder@),
{
    let mut args = no_args();
    put(&mut args, "-preset");
    put_text(&mut args, nvenc_preset_for(enc.preset.as_str()));
    put(&mut args, "-rc");
    put(&mut args, "vbr");
    put(&mut args, "-cq");
    put_number(&mut args, enc.crf as u64);
    if enc.bitrate_kbps > 0 {
        put_bitrate(&mut args, enc.bitrate_kbps);
    } else {
        put(&mut args, "-b:v");
        put(&mut args, "0");
    }
    if !text::contains(encoder, "av1") {
        put(&mut args, "-tune");
        put(&mut args, "ll");
    }
    put(&mut args, "-g");
    put_number(&mut args, gap_of(enc.fps));
    assert(args.deep_view() =~= nvenc_args(*enc, encoder@));
    args
}

fn tune_amf(enc: &EncoderConfig) -> (args: Vec<String>)
    ensures
        args.deep_view() == amf_args(*enc),
{
    let mut args = no_args();
    put(&mut args, "-quality");
    put(&mut args, "speed");
    put(&mut args, "-usage");
    put(&mut args, "ultrafast");
    put(&mut args, "-rc");
    put(&mut args, "vbr");
    put(&mut args, "-qp_i");
    put_number(&mut args, enc.crf as u64);
    put(&mut args, "-qp_p");
    put_number(&mut args, enc.crf as u64);
    put_bitrate(&mut args, enc.bitrate_kbps);
    put(&mut args, "-g");
    put_number(&mut args, gap_of(enc.fps));
    assert(args.deep_view() =~= amf_args(*enc));
    args
}

fn tune_qsv(enc: &EncoderConfig) -> (args: Vec<String>)
    ensures
        args.deep_view() == qsv_args(*enc),
{
    let mut args = no_args();
    put(&mut args, "-preset");
    put(&mut args, "veryfast");
    put(&mut args, "-global_quality");
    put_number(&mut args, enc.crf as u64);
    put_bitrate(&mut args, enc.bitrate_kbps);
    put(&mut args, "-g");
    put_number(&mut args, gap_of(enc.fps));
    assert(args.deep_view() =~= qsv_args(*enc));
    args
}

fn tune(enc: &EncoderConfig, encoder: &str) -> (args: Vec<String>)
    ensures
        args.deep_view() == tuning_args(*enc, encoder@),
{
    if text::starts_with(encoder, "libx264") {
        tune_x26(enc, "-x264-params")
    } else if text::starts_with(encoder, "libx265") {
        tune_x26(enc, "-x265-params")
    } else if text::starts_with(encoder, "libvpx-vp9") {
        tune_vp9(enc)
    } else if text::starts_with(encoder, "libaom") {
        tune_aom(enc)
    } else if text::contains(encoder, "nvenc") {
        tune_nvenc(enc, encoder)
    } else if text::ends_with(encoder, "_amf") {
        tune_amf(enc)
    } else if text::ends_with(encoder, "_qsv") {
        tune_qsv(enc)
    } else {
        no_args()
    }
}

fn source(log_level: &str, width: u32, height: u32, fps: u32) -> (args: Vec<String>)
    ensures
        args.deep_view() == source_args(log_level@, width, height, fps),
{
    let mut size = text::decimal_text(width as u64);
    size.append("x");
    size.append(text::decimal_text(height as u64).as_str());
    let mut args = no_args();
    put(&mut args, "-hide_banner");
    put(&mut args, "-loglevel");
    put(&mut args, log_level);
    put(&mut args, "-y");
    put(&mut args, "-f");
    put(&mut args, "rawvideo");
    put(&mut args, "-pix_fmt");
    put(&mut args, "bgra");
    put(&mut args, "-s");
    put_text(&mut args, size);
    put(&mut args, "-r");
    put_number(&mut args, fps as u64);
    put(&mut args, "-i");
    put(&mut args, "pipe:0");
    put(&mut args, "-an");
    args
}

fn segmenting(segment_time: &str) -> (args: Vec<String>)
    ensures
        args.deep_view() == segment_args(segment_time@),
{
    let mut args = no_args();
    put(&mut args, "-f");
    put(&mut args, "segment");
    put(&mut args, "-segment_time");
    put(&mut args, segment_time);
    put(&mut args, "-reset_timestamps");
    put(&mut args, "1");
    put(&mut args, "-segment_format");
    put(&mut args, "mkv");
    put(&mut args, "-avoid_negative_ts");
    put(&mut args, "make_zero");
    args
}

/// The argument behind the first `-c:v`, where there is one.
pub open spec fn encoder_in(args: Seq<Seq<char>>) -> Option<Seq<char>>
    decreases args.len(),
{
    if args.len() < 2 {
        None
    } else if args[0] == "-c:v"@ {
        Some(args[1])
    } else {
        encoder_in(args.drop_first())
    }
}

fn find_encoder(args: &Vec<String>) -> (r: Option<String>)
    ensures
        match r {
            Some(e) => encoder_in(args.deep_view()) == Some(e@),
            None => encoder_in(args.deep_view()) is None,
        },
{
    let ghost all = args.deep_view();
    let mut i: usize = 0;
    assert(all.skip(0) =~= all);
    while i < args.len() && i + 1 < args.len()
        invariant
            i <= args@.len(),
            all == args.deep_view(),
            encoder_in(all) == encoder_in(all.skip(i as int)),
        decreases args@.len() - i,
    {
        let ghost rest = all.skip(i as int);
        assert(rest[0] == args@[i as int]@ && rest[1] == args@[i + 1]@);
        if text::same(args[i].as_str(), "-c:v") {
            return Some(args[i + 1].clone());
        }
        assert(rest.drop_first() =~= all.skip(i + 1));
        i += 1;
    }
    None
}

/// At least this much time lies between two restarts, in milliseconds.
pub const MIN_RESTART_GAP_MS: u64 = 1500;

/// Why a frame is not written.
#[derive(Debug, Clone, Copy, PartialEq, Eq, Structural)]
pub enum FrameError {
    /// The process is broken and was not restarted yet.
    Broken,
    /// The frame has fewer bytes than a frame needs.
    TooSmall,
    /// The input was closed.
    Finished,
}

/// The encoding process: what it was started with and how it fares. Times are
/// milliseconds on a clock that never runs back.
#[derive(Debug)]
pub struct Encoder {
    pub frame_bytes: usize,
    pub total_frames: u64,
    pub encoder_name: String,
    pub encode_opts: Vec<String>,
    pub segment_frames: u64,
    pub input_open: bool,
    pub broken: bool,
    pub last_restart_ms: u64,
}

impl Encoder {
    /// Frames per segment.
    pub open spec fn frames(self) -> u64 {
        self.segment_frames
    }

    /// Whether frames can still be handed to the process.
    pub open spec fn is_open(self) -> bool {
        self.input_open
    }

    /// Whether a write failed since the process was started.
    pub open spec fn failed(self) -> bool {
        self.broken
    }

    /// When the process was last started, or a restart last tried.
    pub open spec fn restarted_at(self) -> u64 {
        self.last_restart_ms
    }

    /// A segment has at least one frame.
    pub open spec fn valid(self) -> bool {
        self.frames() >= 1
    }

    /// Nothing that is fixed at the start differs.
    pub open spec fn same_setup(self, other: Encoder) -> bool {
        &&& self.frame_bytes == other.frame_bytes
        &&& self.encoder_name == other.encoder_name
        &&& self.encode_opts == other.encode_opts
        &&& self.frames() == other.frames()
    }

    /// The arguments of a process that reads raw BGRA frames, encodes them
    /// with `encoder` and writes numbered segments into `seg_dir`.
    /// `segment_time` is the length of a segment in seconds.
    pub fn build_ffmpeg_args(
        encoder: &str,
        enc: &EncoderConfig,
        width: u32,
        height: u32,
        seg_dir: &str,
        segment_time: &str,
        log_level: &str,
    ) -> (args: Vec<String>)
        ensures
            args@.len() > 0,
            args.deep_view().drop_last() == recording_args(
                encoder@,
                *enc,
                width,
                height,
                segment_time@,
                log_level@,
            ),
            paths::is_under(args.deep_view().last(), seg_dir@, segment_pattern()),
    {
        let mut args = source(log_level, width, height, enc.fps);
        put(&mut args, "-c:v");
        put(&mut args, encoder);
        put_all(&mut args, &tune(enc, encoder));
        put(&mut args, "-pix_fmt");
        put(&mut args, enc.pixel_format.as_str());
        put_all(&mut args, &enc.extra_encoder_args);
        put_all(&mut args, &segmenting(segment_time));
        assert(args.deep_view() =~= recording_args(
            encoder@,
            *enc,
            width,
            height,
            segment_time@,
            log_level@,
        ));
        let ghost leading = args.deep_view();
        proof {
            reveal_strlit("seg_%05d.mkv");
        }
        let pattern = paths::join(seg_dir, "seg_%05d.mkv");
        put_text(&mut args, pattern);
        assert(args.deep_view().drop_last() =~= leading);
        args
    }

    /// The state of a process just started with `args`.
    pub fn spawn(
        codec: Codec,
        args: Vec<String>,
        width: u32,
        height: u32,
        segment_frames: u64,
        now_ms: u64,
    ) -> (e: Encoder)
        requires
            segment_frames >= 1,
            width * height * 4 <= usize::MAX,
        ensures
            e.valid(),
            e.frame_bytes == width * height * 4,
            e.total_frames == 0,
            e.encode_opts == args,
            e.encoder_name@ == config::or(encoder_in(args.deep_view()), codec.cpu_encoder()),
            e.frames() == segment_frames,
            e.is_open(),
            !e.failed(),
            e.restarted_at() == now_ms,
    {
        let encoder_name = match find_encoder(&args) {
            Some(name) => name,
            None => codec.ffmpeg_cpu().to_owned(),
        };
        proof {
            let w = width as int;
            let h = height as int;
            assert(w * h <= usize::MAX && w <= usize::MAX && h <= usize::MAX) by (nonlinear_arith)
                requires
                    0 <= w <= u32::MAX,
                    0 <= h <= u32::MAX,
                    w * h * 4 <= usize::MAX,
                    u32::MAX <= usize::MAX,
            ;
        }
        let pixels: usize = (width as usize) * (height as usize);
        Encoder {
            frame_bytes: pixels * 4,
            total_frames: 0,
            encoder_name,
            encode_opts: args,
            segment_frames,
            input_open: true,
            broken: false,
            last_restart_ms: now_ms,
        }
    }

    /// What to write for one raw frame (BGRA8, tightly packed rows).
    pub fn write_frame<'a>(&self, data: &'a [u8]) -> (r: Result<&'a [u8], FrameError>)
        ensures
            match r {
                Ok(frame) => !self.failed() && self.is_open() && self.frame_bytes <= data@.len()
                    && frame@ == data@.take(self.frame_bytes as int),
                Err(FrameError::Broken) => self.failed(),
                Err(FrameError::TooSmall) => !self.failed() && data@.len() < self.frame_bytes,
                Err(FrameError::Finished) => !self.failed() && self.frame_bytes <= data@.len()
                    && !self.is_open(),
            },
    {
        if self.broken {
            return Err(FrameError::Broken);
        }
        if data.len() < self.frame_bytes {
            return Err(FrameError::TooSmall);
        }
        if !self.input_open {
            return Err(FrameError::Finished);
        }
        let frame = vstd::slice::slice_subrange(data, 0, self.frame_bytes);
        assert(frame@ =~= data@.take(self.frame_bytes as int));
        Ok(frame)
    }

    /// Takes note of how the write of a frame ended: the new total frame
    /// count, or `None` for a failure, which breaks the encoder.
    pub fn frame_written(&mut self, ok: bool) -> (r: Option<u64>)
        requires
            old(self).total_frames < u64::MAX,
        ensures
            final(self).same_setup(*old(self)),
            final(self).is_open() == old(self).is_open(),
            final(self).restarted_at() == old(self).restarted_at(),
            ok ==> final(self).total_frames == old(self).total_frames + 1 && final(self).failed()
                == old(self).failed() && r == Some(final(self).total_frames),
            !ok ==> final(self).total_frames == old(self).total_frames && final(self).failed()
                && r is None,
    {
        if ok {
            self.total_frames = self.total_frames + 1;
            Some(self.total_frames)
        } else {
            self.broken = true;
            None
        }
    }

    /// Takes note that the input was closed (EOF), after which the process
    /// closes the final segment.
    pub fn finish(&mut self)
        ensures
            final(self).same_setup(*old(self)),
            !final(self).is_open(),
            final(self).failed() == old(self).failed(),
            final(self).total_frames == old(self).total_frames,
            final(self).restarted_at() == old(self).restarted_at(),
    {
        self.input_open = false;
    }

    /// Whether to start a broken process again now. Not too soon after the
    /// last try.
    pub fn restart(&mut self, now_ms: u64) -> (r: bool)
        ensures
            r == (old(self).failed() && now_ms - old(self).restarted_at() >= MIN_RESTART_GAP_MS),
            old(self).failed() ==> (r <==> now_ms >= old(self).restarted_at() + 1500),
            final(self).restarted_at() == if r {
                now_ms
            } else {
                old(self).restarted_at()
            },
            final(self).same_setup(*old(self)),
            final(self).is_open() == old(self).is_open(),
            final(self).failed() == old(self).failed(),
            final(self).total_frames == old(self).total_frames,
    {
        if !self.broken {
            return false;
        }
        if now_ms < self.last_restart_ms || now_ms - self.last_restart_ms < MIN_RESTART_GAP_MS {
            return false;
        }
        self.last_restart_ms = now_ms;
        true
    }

    /// Takes note that the process was started again.
    pub fn restarted(&mut self)
        ensures
            final(self).same_setup(*old(self)),
            final(self).is_open(),
            !final(self).failed(),
            final(self).total_frames == old(self).total_frames,
            final(self).restarted_at() == old(self).restarted_at(),
    {
        self.input_open = true;
        self.broken = false;
    }

    /// Frames per segment.
    pub fn segment_frames(&self) -> (r: u64)
        ensures
            r == self.frames(),
    {
        self.segment_frames
    }

    /// Resolved ffmpeg encoder name (e.g. libx264, h264_nvenc).
    pub fn encoder_name(&self) -> (r: String)
        ensures
            r@ == self.encoder_name@,
    {
        self.encoder_name.clone()
    }

    /// Index (seq) of the segment currently being written.
    pub fn open_segment_index(&self) -> (r: u64)
        requires
            self.valid(),
        ensures
            r as int == crate::segments::segment_of(self.total_frames as int, self.frames() as int),
    {
        self.total_frames / self.segment_frames
    }

    pub fn is_broken(&self) -> (r: bool)
        ensures
            r == self.failed(),
    {
        self.broken
    }
}

// ---------------------------------------------------------------------------
// Concatenation
// ---------------------------------------------------------------------------

/// The stretch of time in which input events belong to an output: from frame
/// `start` up to frame `end`, at `fps` frames a second.
#[derive(Debug, Clone, Copy, PartialEq, Eq, Structural)]
pub struct InputWindow {
    pub start: u128,
    pub end: u128,
    pub fps: u32,
}

/// An output job dispatched to the worker thread (concatenation = cheap copy).
#[derive(Debug)]
pub struct OutputJob {
    pub segments: Vec<SegmentInfo>,
    pub destination: String,
    pub input_window: Option<InputWindow>,
}

/// A path with forward slashes only.
pub open spec fn slashes(path: Seq<char>) -> Seq<char> {
    path.map_values(|c: char| if c == '\\' { '/' } else { c })
}

/// One line of a list file.
pub open spec fn list_line(path: Seq<char>) -> Seq<char> {
    "file '"@ + slashes(path) + "'\n"@
}

/// The list file: one line for each segment, in order.
pub open spec fn list_text(segs: Seq<SegmentInfo>) -> Seq<char>
    decreases segs.len(),
{
    if segs.len() == 0 {
        seq![]
    } else {
        list_text(segs.drop_last()) + list_line(segs.last().path@)
    }
}

/// The list file of the segments to concatenate, or `None` where there are
/// none.
pub fn concat_list(segments: &Vec<SegmentInfo>) -> (r: Option<String>)
    ensures
        segments@.len() == 0 <==> r is None,
        r is Some ==> r->0@ == list_text(segments@),
{
    if segments.len() == 0 {
        return None;
    }
    let mut out = String::new();
    let mut i: usize = 0;
    assert(out@ =~= list_text(segments@.take(0)));
    while i < segments.len()
        invariant
            i <= segments@.len(),
            out@ == list_text(segments@.take(i as int)),
        decreases segments@.len() - i,
    {
        let ghost before = out@;
        let path = text::replace_char(segments[i].path.as_str(), '\\', '/');
        out.append("file '");
        out.append(path.as_str());
        out.append("'\n");
        proof {
            let next = segments@.take(i + 1);
            assert(next.drop_last() =~= segments@.take(i as int));
            assert(path@ =~= slashes(segments@[i as int].path@));
            assert(out@ =~= before + list_line(segments@[i as int].path@));
        }
        i += 1;
    }
    assert(segments@.take(i as int) =~= segments@);
    Some(out)
}

/// Where the list of segments goes while an output is made: beside the output.
pub fn list_path(destination: &str) -> (r: String)
    ensures
        paths::replaces_extension(r@, destination@, "concatlist.txt"@),
{
    proof {
        reveal_strlit("concatlist.txt");
    }
    paths::with_extension(destination, "concatlist.txt")
}

/// The arguments that copy the listed segments into one file.
pub open spec fn copy_args(list_path: Seq<char>, destination: Seq<char>, mp4: bool) -> Seq<
    Seq<char>,
> {
    seq![
        "-hide_banner"@,
        "-loglevel"@,
        "error"@,
        "-y"@,
        "-f"@,
        "concat"@,
        "-safe"@,
        "0"@,
        "-i"@,
        list_path,
        "-c"@,
        "copy"@,
    ] + (if mp4 {
        seq!["-movflags"@, "+faststart"@]
    } else {
        seq![]
    }) + seq![destination]
}

/// Whether a file name extension, whatever its case, is that of an MP4 file.
pub open spec fn is_mp4(extension: Option<Seq<char>>) -> bool {
    extension is Some && text::lowercase(extension->0) == "mp4"@
}

/// The arguments that copy the listed segments into `destination`. An MP4 file
/// gets its index in front.
pub fn concat_args(list_path: &str, destination: &str) -> (args: Vec<String>)
    ensures
        forall|ext: Seq<char>| #[trigger]
            paths::has_extension(destination@, ext) ==> args.deep_view() == copy_args(
                list_path@,
                destination@,
                is_mp4(Some(ext)),
            ),
        !destination@.contains('.') ==> args.deep_view() == copy_args(
            list_path@,
            destination@,
            false,
        ),
        exists|mp4: bool| args.deep_view() == #[trigger] copy_args(list_path@, destination@, mp4),
{
    let extension = paths::extension(destination);
    let ghost mp4 = is_mp4(text::seen(extension));
    let args = concat_args_for(list_path, destination, extension);
    assert(args.deep_view() == copy_args(list_path@, destination@, mp4));
    args
}

/// The arguments that copy the listed segments into `destination`, whose
/// extension is given beside it.
pub fn concat_args_for(list_path: &str, destination: &str, extension: Option<String>) -> (args: Vec<
    String,
>)
    ensures
        args.deep_view() == copy_args(list_path@, destination@, is_mp4(text::seen(extension))),
{
    let mut args = no_args();
    put(&mut args, "-hide_banner");
    put(&mut args, "-loglevel");
    put(&mut args, "error");
    put(&mut args, "-y");
    put(&mut args, "-f");
    put(&mut args, "concat");
    put(&mut args, "-safe");
    put(&mut args, "0");
    put(&mut args, "-i");
    put(&mut args, list_path);
    put(&mut args, "-c");
    put(&mut args, "copy");
    let mp4 = match &extension {
        Some(e) => text::same(text::to_lowercase(e.as_str()).as_str(), "mp4"),
        None => false,
    };
    if mp4 {
        put(&mut args, "-movflags");
        put(&mut args, "+faststart");
    }
    put(&mut args, destination);
    assert(args.deep_view() =~= copy_args(
        list_path@,
        destination@,
        is_mp4(text::seen(extension)),
    ));
    args
}

/// The arguments of a run that encodes a moment of generated video with an
/// encoder, to see whether it works.
pub open spec fn smoke_args(encoder: Seq<char>) -> Seq<Seq<char>> {
    seq![
        "-hide_banner"@,
        "-loglevel"@,
        "error"@,
        "-f"@,
        "lavfi"@,
        "-i"@,
        "color=black:s=16x16:r=10:d=0.3"@,
        "-c:v"@,
        encoder,
        "-t"@,
        "0.2"@,
        "-f"@,
        "null"@,
        "-"@,
    ]
}

/// The arguments of a run that shows whether an encoder is actually usable on
/// this machine (drivers, licensing, build features).
pub fn probe_args(encoder: &str) -> (args: Vec<String>)
    ensures
        args.deep_view() == smoke_args(encoder@),
{
    let mut args = no_args();
    put(&mut args, "-hide_banner");
    put(&mut args, "-loglevel");
    put(&mut args, "error");
    put(&mut args, "-f");
    put(&mut args, "lavfi");
    put(&mut args, "-i");
    put(&mut args, "color=black:s=16x16:r=10:d=0.3");
    put(&mut args, "-c:v");
    put(&mut args, encoder);
    put(&mut args, "-t");
    put(&mut args, "0.2");
    put(&mut args, "-f");
    put(&mut args, "null");
    put(&mut args, "-");
    args
}

/// Whether a file in the segment directory is left over from an earlier run.
pub open spec fn is_leftover(name: Seq<char>) -> bool {
    text::begins(name, "seg_"@) && text::finishes(name, "mkv"@)
}

/// Whether a file in the segment directory is left over from an earlier run,
/// and has to go before a new process starts.
pub fn is_leftover_segment(name: &str) -> (r: bool)
    ensures
        r == is_leftover(name@),
{
    text::starts_with(name, "seg_") && text::ends_with(name, "mkv")
}

// ---------------------------------------------------------------------------
// Laws
// ---------------------------------------------------------------------------

proof fn lemma_encoder_in_skip(args: Seq<Seq<char>>, n: int)
    requires
        0 <= n < args.len() - 1,
        args[n] == "-c:v"@,
        forall|i: int| 0 <= i < n ==> #[trigger] args[i] != "-c:v"@,
    ensures
        encoder_in(args) == Some(args[n + 1]),
    decreases n,
{
    if n > 0 {
        let rest = args.drop_first();
        assert(rest[n - 1] == args[n] && rest[n] == args[n + 1]);
        assert forall|i: int| 0 <= i < n - 1 implies #[trigger] rest[i] != "-c:v"@ by {
            assert(rest[i] == args[i + 1]);
        }
        lemma_encoder_in_skip(rest, n - 1);
    }
}

proof fn lemma_decimal_starts_with_digit(n: nat)
    ensures
        text::decimal(n).len() > 0,
        text::is_digit(text::decimal(n)[0]),
    decreases n,
{
    if n >= 10 {
        lemma_decimal_starts_with_digit(n / 10);
    }
}

/// The encoder that the arguments were built for is the one that the process
/// is found to use.
pub proof fn built_args_name_the_encoder(
    args: Seq<Seq<char>>,
    encoder: Seq<char>,
    enc: EncoderConfig,
    width: u32,
    height: u32,
    segment_time: Seq<char>,
    log_level: Seq<char>,
)
    requires
        args.len() > 0,
        args.drop_last() == recording_args(encoder, enc, width, height, segment_time, log_level),
        log_level != "-c:v"@,
    ensures
        encoder_in(args) == Some(encoder),
{
    let lead = args.drop_last();
    let src = source_args(log_level, width, height, enc.fps);
    assert(src.len() == 15);
    assert(lead.len() >= 17);
    assert forall|i: int| 0 <= i < 15 implies lead[i] == src[i] by {}
    assert(lead[15] == "-c:v"@);
    assert(lead[16] == encoder);
    assert(args[15] == lead[15] && args[16] == lead[16]);
    reveal_strlit("-hide_banner");
    reveal_strlit("-loglevel");
    reveal_strlit("-y");
    reveal_strlit("-f");
    reveal_strlit("rawvideo");
    reveal_strlit("-pix_fmt");
    reveal_strlit("bgra");
    reveal_strlit("-s");
    reveal_strlit("-r");
    reveal_strlit("-i");
    reveal_strlit("pipe:0");
    reveal_strlit("-an");
    reveal_strlit("-c:v");
    lemma_decimal_starts_with_digit(width as nat);
    lemma_decimal_starts_with_digit(enc.fps as nat);
    assert(size_arg(width, height)[0] == text::decimal(width as nat)[0]);
    assert("-c:v"@[0] == '-' && "-c:v"@.len() == 4);
    assert("bgra"@[0] == 'b');
    assert forall|i: int| 0 <= i < 15 implies #[trigger] args[i] != "-c:v"@ by {
        assert(args[i] == lead[i]);
        assert(lead[i] == src[i]);
    }
    lemma_encoder_in_skip(args, 15);
}

/// How fast a preset of x264 is: from `placebo`, the slowest, to `ultrafast`.
pub open spec fn preset_speed(s: Seq<char>) -> int {
    if s == "ultrafast"@ {
        9
    } else if s == "superfast"@ {
        8
    } else if s == "veryfast"@ {
        7
    } else if s == "faster"@ {
        6
    } else if s == "fast"@ {
        5
    } else if s == "medium"@ {
        4
    } else if s == "slow"@ {
        3
    } else if s == "slower"@ {
        2
    } else if s == "veryslow"@ {
        1
    } else {
        0
    }
}

/// Every preset of x264 has a level from `p1`, the best, to `p7`, the fastest,
/// and no preset has a faster level than a faster preset.
pub proof fn faster_presets_have_faster_levels(a: Seq<char>, b: Seq<char>)
    requires
        config::is_named_preset(a),
        config::is_named_preset(b),
        preset_speed(a) <= preset_speed(b),
    ensures
        nvenc_preset(a).len() == 2 && nvenc_preset(a)[0] == 'p',
        nvenc_preset(b).len() == 2 && nvenc_preset(b)[0] == 'p',
        '1' <= nvenc_preset(a)[1] <= nvenc_preset(b)[1] <= '7',
{
    reveal_strlit("p1");
    reveal_strlit("p2");
    reveal_strlit("p3");
    reveal_strlit("p4");
    reveal_strlit("p5");
    reveal_strlit("p6");
    reveal_strlit("p7");
    reveal_strlit("");
    reveal_strlit("ultrafast");
    reveal_strlit("superfast");
    reveal_strlit("veryfast");
    reveal_strlit("faster");
    reveal_strlit("fast");
    reveal_strlit("medium");
    reveal_strlit("slow");
    reveal_strlit("slower");
    reveal_strlit("veryslow");
    reveal_strlit("placebo");
    assert(a.len() > 0 && b.len() > 0);
}

/// A bitrate that is set reaches every encoder of a known family.
pub proof fn bitrate_reaches_the_encoder(enc: EncoderConfig, encoder: Seq<char>)
    requires
        enc.bitrate_kbps > 0,
        tuning_args(enc, encoder).len() > 0,
    ensures
        exists|i: int|
            0 <= i < tuning_args(enc, encoder).len() - 1 && #[trigger] tuning_args(enc, encoder)[i]
                == "-b:v"@ && tuning_args(enc, encoder)[i + 1] == text::decimal(
                enc.bitrate_kbps as nat,
            ) + "k"@,
{
    let args = tuning_args(enc, encoder);
    let i: int = if text::begins(encoder, "libx264"@) || text::begins(encoder, "libx265"@)
        || text::begins(encoder, "libvpx-vp9"@) || text::begins(encoder, "libaom"@) {
        2
    } else if text::holds(encoder, "nvenc"@) {
        6
    } else if text::finishes(encoder, "_amf"@) {
        10
    } else {
        4
    };
    assert(args[i] == "-b:v"@);
    assert(args[i + 1] == text::decimal(enc.bitrate_kbps as nat) + "k"@);
}

/// An output is made by copying: the streams are never encoded again.
pub proof fn concatenation_copies(list_path: Seq<char>, destination: Seq<char>, mp4: bool)
    ensures
        ({
            let args = copy_args(list_path, destination, mp4);
            &&& args[9] == list_path
            &&& args[10] == "-c"@
            &&& args[11] == "copy"@
            &&& args.last() == destination
        }),
{
}

/// The list names the segments in order, and nothing else: a list of two runs
/// is the list of the first followed by that of the second.
pub proof fn list_follows_the_segments(a: Seq<SegmentInfo>, b: Seq<SegmentInfo>)
    ensures
        list_text(a + b) == list_text(a) + list_text(b),
    decreases b.len(),
{
    if b.len() == 0 {
        assert(a + b =~= a);
        assert(list_text(a) + list_text(b) =~= list_text(a));
    } else {
        list_follows_the_segments(a, b.drop_last());
        assert((a + b).drop_last() =~= a + b.drop_last());
        assert((a + b).last() == b.last());
        assert(list_text(a + b) =~= list_text(a) + list_text(b));
    }
}

/// The frames are described to FFmpeg as they are captured: raw BGRA pixels from
/// its standard input, of the frame's width and height, and as many a second as
/// the settings say, whatever they say. Then come the encoder and what it is
/// told.
pub proof fn frames_are_described_as_captured(
    args: Seq<Seq<char>>,
    encoder: Seq<char>,
    enc: EncoderConfig,
    width: u32,
    height: u32,
    segment_time: Seq<char>,
    log_level: Seq<char>,
)
    requires
        args.len() > 0,
        args.drop_last() == recording_args(encoder, enc, width, height, segment_time, log_level),
    ensures
        args.len() > 17 + tuning_args(enc, encoder).len(),
        args[1] == "-loglevel"@ && args[2] == log_level,
        args[4] == "-f"@ && args[5] == "rawvideo"@,
        args[6] == "-pix_fmt"@ && args[7] == "bgra"@,
        args[8] == "-s"@,
        text::split(args[9], 'x').len() == 2,
        text::number(text::split(args[9], 'x')[0]) == Some(width as nat),
        text::number(text::split(args[9], 'x')[1]) == Some(height as nat),
        args[10] == "-r"@,
        text::number(args[11]) == Some(enc.fps as nat),
        args[12] == "-i"@ && args[13] == "pipe:0"@,
        args[15] == "-c:v"@ && args[16] == encoder,
        args.subrange(17, 17 + tuning_args(enc, encoder).len() as int) == tuning_args(enc, encoder),
{
    let lead = args.drop_last();
    let src = source_args(log_level, width, height, enc.fps);
    let tuning = tuning_args(enc, encoder);
    assert(src.len() == 15);
    let told = src + seq!["-c:v"@, encoder] + tuning;
    let rest = seq!["-pix_fmt"@, enc.pixel_format@] + enc.extra_encoder_args.deep_view()
        + segment_args(segment_time);
    assert(lead =~= told + rest);
    assert(told.len() == 17 + tuning.len());
    assert forall|i: int| 0 <= i < 15 implies args[i] == src[i] by {
        assert(args[i] == lead[i]);
        assert(lead[i] == src[i]);
    }
    assert(args[15] == lead[15] && args[16] == lead[16]);
    assert(args.subrange(17, 17 + tuning.len() as int) =~= tuning) by {
        assert forall|i: int| 0 <= i < tuning.len() implies args[17 + i] == tuning[i] by {
            assert(args[17 + i] == lead[17 + i]);
        }
    }
    text::decimal_round_trip(enc.fps as nat, 0);
    lemma_size_reads_back(width, height);
}

pub proof fn lemma_size_reads_back(width: u32, height: u32)
    ensures
        ({
            let pieces = text::split(size_arg(width, height), 'x');
            &&& pieces.len() == 2
            &&& text::number(pieces[0]) == Some(width as nat)
            &&& text::number(pieces[1]) == Some(height as nat)
        }),
{
    reveal_strlit("x");
    let w = text::decimal(width as nat);
    let h = text::decimal(height as nat);
    text::decimal_round_trip(width as nat, 0);
    text::decimal_round_trip(height as nat, 0);
    assert(size_arg(width, height) =~= w.push('x') + h);
    text::lemma_split_join(w, h, 'x');
    assert(!w.contains('x')) by {
        if w.contains('x') {
            let i = choose|i: int| 0 <= i < w.len() && w[i] == 'x';
            assert(text::is_digit(w[i]));
        }
    }
    assert(!h.contains('x')) by {
        if h.contains('x') {
            let i = choose|i: int| 0 <= i < h.len() && h[i] == 'x';
            assert(text::is_digit(h[i]));
        }
    }
    text::lemma_split_whole(w, 'x');
    text::lemma_split_whole(h, 'x');
}

/// Behind what the encoder is told come the pixel format, the user's own
/// arguments as they are, and the order to write segments of the given length,
/// each with its time starting anew. Nothing else comes in between.
pub proof fn output_is_described_as_configured(
    args: Seq<Seq<char>>,
    encoder: Seq<char>,
    enc: EncoderConfig,
    width: u32,
    height: u32,
    segment_time: Seq<char>,
    log_level: Seq<char>,
)
    requires
        args.len() > 0,
        args.drop_last() == recording_args(encoder, enc, width, height, segment_time, log_level),
    ensures
        ({
            let extra = enc.extra_encoder_args.deep_view();
            let at = 17 + tuning_args(enc, encoder).len() as int;
            let tail = at + 2 + extra.len();
            &&& args.len() == tail + 11
            &&& args[at] == "-pix_fmt"@ && args[at + 1] == enc.pixel_format@
            &&& args.subrange(at + 2, tail) == extra
            &&& args[tail] == "-f"@ && args[tail + 1] == "segment"@
            &&& args[tail + 2] == "-segment_time"@ && args[tail + 3] == segment_time
            &&& args[tail + 4] == "-reset_timestamps"@ && args[tail + 5] == "1"@
            &&& args[tail + 6] == "-segment_format"@ && args[tail + 7] == "mkv"@
            &&& args[tail + 8] == "-avoid_negative_ts"@ && args[tail + 9] == "make_zero"@
        }),
{
    let lead = args.drop_last();
    let src = source_args(log_level, width, height, enc.fps);
    let tuning = tuning_args(enc, encoder);
    let extra = enc.extra_encoder_args.deep_view();
    let seg = segment_args(segment_time);
    let at = 17 + tuning.len() as int;
    let tail = at + 2 + extra.len();
    assert(src.len() == 15 && seg.len() == 10);
    let a = src + seq!["-c:v"@, encoder] + tuning;
    let b = a + seq!["-pix_fmt"@, enc.pixel_format@];
    let c = b + extra;
    assert(lead == c + seg);
    assert forall|i: int| 0 <= i < 10 implies args[tail + i] == seg[i] by {
        assert(args[tail + i] == lead[tail + i]);
    }
    assert(seg[0] == args[tail + 0]);
    assert(args[at] == lead[at] && args[at + 1] == lead[at + 1]);
    assert(args.subrange(at + 2, tail) =~= extra) by {
        assert forall|i: int| 0 <= i < extra.len() implies args[at + 2 + i] == extra[i] by {
            assert(args[at + 2 + i] == lead[at + 2 + i]);
        }
    }
}

/// Whether an encoder is of a family that it is known how to tune.
pub open spec fn is_known(encoder: Seq<char>) -> bool {
    ||| text::begins(encoder, "libx264"@)
    ||| text::begins(encoder, "libx265"@)
    ||| text::begins(encoder, "libvpx-vp9"@)
    ||| text::begins(encoder, "libaom"@)
    ||| text::holds(encoder, "nvenc"@)
    ||| text::finishes(encoder, "_amf"@)
    ||| text::finishes(encoder, "_qsv"@)
}

/// The quality that is set reaches every encoder of a known family, under the
/// name that the family has for it.
pub proof fn quality_reaches_the_encoder(enc: EncoderConfig, encoder: Seq<char>)
    requires
        is_known(encoder),
    ensures
        ({
            let args = tuning_args(enc, encoder);
            exists|i: int|
                0 <= i < args.len() - 1 && {
                    ||| #[trigger] args[i] == "-crf"@
                    ||| args[i] == "-cq"@
                    ||| args[i] == "-qp_i"@
                    ||| args[i] == "-global_quality"@
                } && text::number(args[i + 1]) == Some(enc.crf as nat)
        }),
{
    let args = tuning_args(enc, encoder);
    text::decimal_round_trip(enc.crf as nat, 0);
    let with_rate: int = if enc.bitrate_kbps > 0 {
        2
    } else {
        0
    };
    let i: int = if text::begins(encoder, "libx264"@) || text::begins(encoder, "libx265"@) {
        2 + with_rate
    } else if text::begins(encoder, "libvpx-vp9"@) || text::begins(encoder, "libaom"@) {
        0
    } else if text::holds(encoder, "nvenc"@) {
        4
    } else if text::finishes(encoder, "_amf"@) {
        6
    } else {
        2
    };
    assert(bitrate_args(enc.bitrate_kbps).len() == with_rate);
    assert(args[i + 1] == text::decimal(enc.crf as nat));
    assert(0 <= i < args.len() - 1);
    assert(args[i] == "-crf"@ || args[i] == "-cq"@ || args[i] == "-qp_i"@ || args[i]
        == "-global_quality"@);
}

/// Keyframes come every two seconds, but no closer than 24 frames, so that
/// segments can be cut there. An encoder is told so by `-g`; x264 and x265 are
/// told so in their own parameters, which also keep keyframes from coming
/// earlier.
pub proof fn keyframes_come_every_two_seconds(enc: EncoderConfig, encoder: Seq<char>)
    requires
        is_known(encoder),
    ensures
        ({
            let args = tuning_args(enc, encoder);
            let gap = if 2 * enc.fps > 24 {
                (2 * enc.fps) as nat
            } else {
                24
            };
            if text::begins(encoder, "libx264"@) || text::begins(encoder, "libx265"@) {
                exists|d: Seq<char>|
                    text::number(d) == Some(gap) && args.last() == #[trigger] ("keyint="@ + d)
                        + ":min-keyint="@ + d
            } else {
                &&& args.len() >= 2
                &&& args[args.len() - 2] == "-g"@
                &&& text::number(args.last()) == Some(gap)
            }
        }),
{
    let args = tuning_args(enc, encoder);
    let gap = keyframe_gap(enc.fps);
    text::decimal_round_trip(gap, 0);
    let d = text::decimal(gap);
    if text::begins(encoder, "libx264"@) || text::begins(encoder, "libx265"@) {
        assert(args.last() == keyint_arg(enc.fps));
        assert(args.last() == ("keyint="@ + d) + ":min-keyint="@ + d);
    } else {
        assert(args.last() == d);
        assert(args[args.len() - 2] == "-g"@);
    }
}

/// A bitrate is told exactly where one is set, and it changes nothing else: with
/// it an encoder is told what it is told without, and two arguments more. NVENC,
/// which has a bitrate of its own, is told zero where none is set.
pub proof fn bitrate_changes_nothing_else(enc: EncoderConfig, encoder: Seq<char>)
    requires
        is_known(encoder),
        enc.bitrate_kbps > 0,
    ensures
        ({
            let with = tuning_args(enc, encoder);
            let bare = tuning_args(EncoderConfig { bitrate_kbps: 0, ..enc }, encoder);
            exists|i: int|
                0 <= i < with.len() - 1 && #[trigger] with[i] == "-b:v"@ && {
                    ||| bare == with.take(i) + with.skip(i + 2)
                    ||| text::holds(encoder, "nvenc"@) && bare == with.update(i + 1, "0"@)
                }
        }),
{
    let with = tuning_args(enc, encoder);
    let bare = tuning_args(EncoderConfig { bitrate_kbps: 0, ..enc }, encoder);
    if text::begins(encoder, "libx264"@) || text::begins(encoder, "libx265"@) || text::begins(
        encoder,
        "libvpx-vp9"@,
    ) || text::begins(encoder, "libaom"@) {
        assert(with[2] == "-b:v"@);
        assert(bare =~= with.take(2) + with.skip(4));
    } else if text::holds(encoder, "nvenc"@) {
        assert(with[6] == "-b:v"@);
        assert(bare =~= with.update(7, "0"@));
    } else if text::finishes(encoder, "_amf"@) {
        assert(with[10] == "-b:v"@);
        assert(bare =~= with.take(10) + with.skip(12));
    } else {
        assert(with[4] == "-b:v"@);
        assert(bare =~= with.take(4) + with.skip(6));
    }
}

/// A preset of x264 reaches x264 and x265 as it is.
pub proof fn presets_reach_x264(enc: EncoderConfig, encoder: Seq<char>)
    requires
        text::begins(encoder, "libx264"@) || text::begins(encoder, "libx265"@),
        seq![
            "ultrafast"@,
            "superfast"@,
            "veryfast"@,
            "faster"@,
            "fast"@,
            "medium"@,
            "slow"@,
            "slower"@,
            "veryslow"@,
            "placebo"@,
        ].contains(enc.preset@),
    ensures
        tuning_args(enc, encoder)[0] == "-preset"@,
        tuning_args(enc, encoder)[1] == enc.preset@,
{
}

/// Each line of the list names its segment's path as it is, but for backslashes,
/// which become slashes: `file '`, the path, `'` and the end of the line. The
/// lines before and behind it are those of the segments before and behind it.
pub proof fn list_names_every_path(segs: Seq<SegmentInfo>, k: int)
    requires
        0 <= k < segs.len(),
    ensures
        ({
            let list = list_text(segs);
            let at = list_text(segs.take(k)).len() as int;
            let path = segs[k].path@;
            &&& list.take(at) == list_text(segs.take(k))
            &&& list.len() >= at + 8 + path.len()
            &&& list.skip(at + 8 + path.len()) == list_text(segs.skip(k + 1))
            &&& list.subrange(at, at + 6) == seq!['f', 'i', 'l', 'e', ' ', '\'']
            &&& forall|i: int|
                0 <= i < path.len() ==> list[at + 6 + i] == if #[trigger] path[i] == '\\' {
                    '/'
                } else {
                    path[i]
                }
            &&& list[at + 6 + path.len()] == '\''
            &&& list[at + 7 + path.len()] == '\n'
        }),
        list_text(Seq::<SegmentInfo>::empty()).len() == 0,
{
    let list = list_text(segs);
    let front = list_text(segs.take(k));
    let back = list_text(segs.skip(k + 1));
    let path = segs[k].path@;
    let line = list_line(path);
    let at = front.len() as int;
    assert(list == front + line + back) by {
        assert(segs.take(k + 1).drop_last() =~= segs.take(k));
        assert(segs =~= segs.take(k + 1) + segs.skip(k + 1));
        list_follows_the_segments(segs.take(k + 1), segs.skip(k + 1));
    }
    lemma_line(path);
    lemma_middle(front, line, back);
    assert(list.subrange(at, at + 6) =~= line.take(6));
    assert forall|i: int| 0 <= i < path.len() implies list[at + 6 + i] == if #[trigger] path[i]
        == '\\' {
        '/'
    } else {
        path[i]
    } by {
        assert(list[at + (6 + i)] == line[6 + i]);
    }
    let close = 6 + path.len() as int;
    assert(list[at + close] == line[close]);
    assert(list[at + (close + 1)] == line[close + 1]);
}

/// What a line of the list holds.
proof fn lemma_line(path: Seq<char>)
    ensures
        ({
            let line = list_line(path);
            &&& line.len() == path.len() + 8
            &&& line.take(6) == seq!['f', 'i', 'l', 'e', ' ', '\'']
            &&& forall|i: int|
                0 <= i < path.len() ==> line[6 + i] == if #[trigger] path[i] == '\\' {
                    '/'
                } else {
                    path[i]
                }
            &&& line[6 + path.len() as int] == '\''
            &&& line[7 + path.len() as int] == '\n'
        }),
{
    reveal_strlit("file '");
    reveal_strlit("'\n");
    let line = list_line(path);
    assert(line.take(6) =~= "file '"@);
    assert("file '"@ =~= seq!['f', 'i', 'l', 'e', ' ', '\'']);
    assert forall|i: int| 0 <= i < path.len() implies line[6 + i] == if #[trigger] path[i] == '\\' {
        '/'
    } else {
        path[i]
    } by {
        assert(line[6 + i] == slashes(path)[i]);
    }
}

/// Where the parts of a text lie.
proof fn lemma_middle(front: Seq<char>, line: Seq<char>, back: Seq<char>)
    ensures
        ({
            let whole = front + line + back;
            let at = front.len() as int;
            &&& whole.len() == front.len() + line.len() + back.len()
            &&& whole.take(at) == front
            &&& whole.skip(at + line.len()) == back
            &&& whole.subrange(at, at + line.len()) == line
            &&& forall|i: int| 0 <= i < line.len() ==> whole[at + i] == #[trigger] line[i]
        }),
{
    let whole = front + line + back;
    let at = front.len() as int;
    assert(whole.take(at) =~= front);
    assert(whole.skip(at + line.len()) =~= back);
    assert(whole.subrange(at, at + line.len()) =~= line);
}

/// The copy reads the list, takes every stream as it is and writes the
/// destination, over what may be there. The index of an MP4 file is put in
/// front; nothing else depends on the kind of file.
pub proof fn copy_reads_the_list_and_writes_the_destination(
    list_path: Seq<char>,
    destination: Seq<char>,
    mp4: bool,
)
    ensures
        ({
            let args = copy_args(list_path, destination, mp4);
            &&& args.len() == if mp4 {
                15
            } else {
                13int
            }
            &&& args[3] == "-y"@
            &&& args[4] == "-f"@ && args[5] == "concat"@
            &&& args[6] == "-safe"@ && args[7] == "0"@
            &&& args[8] == "-i"@ && args[9] == list_path
            &&& args[10] == "-c"@ && args[11] == "copy"@
            &&& mp4 ==> args[12] == "-movflags"@ && args[13] == "+faststart"@
            &&& args.last() == destination
        }),
{
}

/// A file is an MP4 file by its extension, in whatever case.
pub proof fn mp4_is_known_in_any_case(ext: Seq<char>)
    requires
        text::all_ascii(ext),
    ensures
        is_mp4(Some(ext)) <==> {
            &&& ext.len() == 3
            &&& ext[0] == 'm' || ext[0] == 'M'
            &&& ext[1] == 'p' || ext[1] == 'P'
            &&& ext[2] == '4'
        },
        !is_mp4(None),
{
    reveal_strlit("mp4");
    let low = text::lowercase(ext);
    assert(low.len() == ext.len());
    if is_mp4(Some(ext)) {
        assert(low[0] == 'm' && low[1] == 'p' && low[2] == '4');
        assert(text::lower_char(ext[0]) == 'm');
        assert(text::lower_char(ext[1]) == 'p');
        assert(text::lower_char(ext[2]) == '4');
    }
    if ext.len() == 3 && (ext[0] == 'm' || ext[0] == 'M') && (ext[1] == 'p' || ext[1] == 'P')
        && ext[2] == '4' {
        assert(low =~= "mp4"@);
    }
}

/// The trial of an encoder runs that encoder, on generated video, and keeps
/// nothing of what it makes.
pub proof fn trial_runs_the_encoder(encoder: Seq<char>)
    ensures
        ({
            let args = smoke_args(encoder);
            &&& args.len() == 14
            &&& args[0] == "-hide_banner"@ && args[1] == "-loglevel"@ && args[2] == "error"@
            &&& args[3] == "-f"@ && args[4] == "lavfi"@ && args[5] == "-i"@
            &&& args[6] == "color=black:s=16x16:r=10:d=0.3"@
            &&& args[7] == "-c:v"@ && args[8] == encoder
            &&& args[9] == "-t"@ && args[10] == "0.2"@
            &&& args[args.len() - 3] == "-f"@ && args[args.len() - 2] == "null"@
            &&& args.last() == "-"@
        }),
{
}

/// Every segment of an earlier run is cleared away before a new one.
pub proof fn old_segments_are_leftovers(seq: u64)
    ensures
        is_leftover(crate::segments::segment_name(seq as nat)),
{
    reveal_strlit("seg_");
    reveal_strlit(".");
    reveal_strlit("mkv");
    let name = crate::segments::segment_name(seq as nat);
    assert(name.take(4) =~= "seg_"@);
    assert(name.skip(name.len() - 3) =~= "mkv"@);
}

/// What the encoders of each family are told, whatever is set: speed first, since
/// the screen is recorded while it is used. `rate` is the room that a bitrate takes.
/// Encoders of no known family are told nothing.
pub proof fn families_are_told_in_their_own_words(enc: EncoderConfig, encoder: Seq<char>)
    ensures
        ({
            let args = tuning_args(enc, encoder);
            let n = args.len() as int;
            let rate: int = if enc.bitrate_kbps > 0 {
                2
            } else {
                0
            };
            let x264 = text::begins(encoder, "libx264"@);
            let x265 = !x264 && text::begins(encoder, "libx265"@);
            let vp9 = !x264 && !x265 && text::begins(encoder, "libvpx-vp9"@);
            let aom = !x264 && !x265 && !vp9 && text::begins(encoder, "libaom"@);
            let soft = x264 || x265 || vp9 || aom;
            let nvenc = !soft && text::holds(encoder, "nvenc"@);
            let amf = !soft && !nvenc && text::finishes(encoder, "_amf"@);
            let qsv = !soft && !nvenc && !amf && text::finishes(encoder, "_qsv"@);
            &&& x264 || x265 ==> {
                &&& n == 6 + rate
                &&& args[0] == "-preset"@
                &&& args[n - 4] == "-crf"@
                &&& text::number(args[n - 3]) == Some(enc.crf as nat)
                &&& x264 ==> args[n - 2] == "-x264-params"@
                &&& x265 ==> args[n - 2] == "-x265-params"@
            }
            &&& vp9 || aom ==> {
                &&& n == 8 + rate + if vp9 {
                    2int
                } else {
                    0
                }
                &&& args[0] == "-crf"@
                &&& text::number(args[1]) == Some(enc.crf as nat)
                &&& vp9 ==> args[n - 8] == "-deadline"@ && args[n - 7] == "realtime"@
                &&& args[n - 6] == "-cpu-used"@
                &&& vp9 ==> args[n - 5] == "6"@
                &&& aom ==> args[n - 5] == "8"@
                &&& args[n - 4] == "-row-mt"@ && args[n - 3] == "1"@
            }
            &&& nvenc ==> {
                &&& args[0] == "-preset"@
                &&& args[2] == "-rc"@ && args[3] == "vbr"@
                &&& args[4] == "-cq"@
                &&& text::number(args[5]) == Some(enc.crf as nat)
                &&& args[6] == "-b:v"@
                &&& text::holds(encoder, "av1"@) ==> n == 10
                &&& !text::holds(encoder, "av1"@) ==> n == 12 && args[8] == "-tune"@ && args[9]
                    == "ll"@
            }
            &&& amf ==> {
                &&& n == 12 + rate
                &&& args[0] == "-quality"@ && args[1] == "speed"@
                &&& args[2] == "-usage"@ && args[3] == "ultrafast"@
                &&& args[4] == "-rc"@ && args[5] == "vbr"@
                &&& args[6] == "-qp_i"@ && args[8] == "-qp_p"@
                &&& text::number(args[7]) == Some(enc.crf as nat)
                &&& text::number(args[9]) == Some(enc.crf as nat)
            }
            &&& qsv ==> {
                &&& n == 6 + rate
                &&& args[0] == "-preset"@ && args[1] == "veryfast"@
                &&& args[2] == "-global_quality"@
                &&& text::number(args[3]) == Some(enc.crf as nat)
            }
            &&& !soft && !nvenc && !amf && !qsv ==> n == 0
        }),
{
    text::decimal_round_trip(enc.crf as nat, 0);
    let args = tuning_args(enc, encoder);
    let rate = bitrate_args(enc.bitrate_kbps);
    assert(rate.len() == if enc.bitrate_kbps > 0 {
        2int
    } else {
        0
    });
    assert(nvenc_rate(enc.bitrate_kbps).len() == 2);
}

/// What an encoder is told follows from the preset, the bitrate, the quality and
/// the frame rate alone. The frame rate shows in the last argument only, and the
/// preset in the second of those encoders that take one.
pub proof fn tuning_follows_four_settings(a: EncoderConfig, b: EncoderConfig, encoder: Seq<char>)
    requires
        a.bitrate_kbps == b.bitrate_kbps,
        a.crf == b.crf,
    ensures
        ({
            let x = tuning_args(a, encoder);
            let y = tuning_args(b, encoder);
            &&& x.len() == y.len()
            &&& a.preset@ == b.preset@ && x.len() > 0 ==> x.drop_last() == y.drop_last()
            &&& a.preset@ == b.preset@ && a.fps == b.fps ==> x == y
            &&& a.fps == b.fps ==> forall|i: int|
                0 <= i < x.len() && i != 1 ==> #[trigger] x[i] == y[i]
        }),
{
    let x = tuning_args(a, encoder);
    let y = tuning_args(b, encoder);
    if a.preset@ == b.preset@ && x.len() > 0 {
        assert(x.drop_last() =~= y.drop_last());
    }
}

/// FFmpeg names the segments as they are looked for later: its pattern is the name
/// of a segment with the number left open, of five digits and zeros in front.
pub proof fn segments_are_named_as_they_are_looked_for(seq: nat)
    ensures
        ({
            let p = segment_pattern();
            &&& p.subrange(4, 8) == seq!['%', '0', '5', 'd']
            &&& crate::segments::segment_name(seq) == p.take(4) + text::padded(seq, 5) + p.skip(8)
        }),
{
    reveal_strlit("seg_%05d.mkv");
    reveal_strlit("seg_");
    reveal_strlit(".");
    reveal_strlit("mkv");
    let p = segment_pattern();
    assert(p.subrange(4, 8) =~= seq!['%', '0', '5', 'd']);
    assert(p.take(4) =~= "seg_"@);
    assert(crate::segments::segment_name(seq) =~= p.take(4) + text::padded(seq, 5) + p.skip(8));
}

/// Nothing is cleared away but files that are named like segments.
pub proof fn only_segments_are_leftovers(name: Seq<char>)
    requires
        is_leftover(name),
    ensures
        name.len() >= 4,
        name.take(4) == seq!['s', 'e', 'g', '_'],
        name.skip(name.len() - 3) == seq!['m', 'k', 'v'],
{
    reveal_strlit("seg_");
    reveal_strlit("mkv");
    assert("seg_"@ =~= seq!['s', 'e', 'g', '_']);
    assert("mkv"@ =~= seq!['m', 'k', 'v']);
}

/// A process that breaks, ends or starts again is still told the same: the frames
/// are as large, go to the same encoder with the same settings, and as many make
/// up a segment.
pub proof fn restarts_change_no_setting(a: Encoder, b: Encoder)
    requires
        a.same_setup(b),
    ensures
        a.frame_bytes == b.frame_bytes,
        a.encoder_name == b.encoder_name,
        a.encode_opts == b.encode_opts,
        a.frames() == b.frames(),
{
}

} // verus!
