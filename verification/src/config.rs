//! Settings: what is recorded, how it is encoded and where it is kept.

use vstd::prelude::*;

use crate::codec::{Codec, EncoderBackend};
use crate::hotkey::{Hotkey, HotkeyKey};
use crate::paths;
use crate::text;

verus! {

/// What a hotkey or a button asks for.
#[derive(Debug, Clone, Copy, PartialEq, Eq, Structural)]
pub enum Action {
    Clip,
    RecordStart,
    RecordStop,
}

#[derive(Debug, Clone, Copy, PartialEq, Eq, Structural)]
pub struct ClipConfig {
    /// How many seconds of history to keep in the rolling window.
    pub history_seconds: u32,
    /// Default clip length in seconds when the clip hotkey is pressed.
    pub default_length_seconds: u32,
}

impl Default for ClipConfig {
    fn default() -> (r: ClipConfig)
        ensures
            r.history_seconds == 30,
            r.default_length_seconds == 15,
    {
        ClipConfig { history_seconds: 30, default_length_seconds: 15 }
    }
}

#[derive(Debug, Clone)]
pub struct EncoderConfig {
    pub codec: Codec,
    pub backend: EncoderBackend,
    pub fps: u32,
    /// Bitrate for recordings/clips. `0` means quality (CRF) only.
    pub bitrate_kbps: u32,
    /// CRF/quality (lower = better). 18-23 is typical.
    pub crf: u32,
    /// Preset name: `ultrafast`..`placebo`, or `p1`..`p7` for NVENC.
    pub preset: String,
    /// Extra raw FFmpeg args appended to the encoder (e.g. `-aq-mode 1`).
    pub extra_encoder_args: Vec<String>,
    /// Pixel format passed to the encoder (yuv420p universally safe).
    pub pixel_format: String,
}

impl Default for EncoderConfig {
    fn default() -> (r: EncoderConfig)
        ensures
            r.codec is H264,
            r.backend is Auto,
            r.fps == 60,
            r.bitrate_kbps == 0,
            r.crf == 20,
            r.preset@ == "veryfast"@,
            r.extra_encoder_args@.len() == 0,
            r.pixel_format@ == "yuv420p"@,
    {
        EncoderConfig {
            codec: Codec::H264,
            backend: EncoderBackend::Auto,
            fps: 60,
            bitrate_kbps: 0,
            crf: 20,
            preset: "veryfast".to_owned(),
            extra_encoder_args: Vec::new(),
            pixel_format: "yuv420p".to_owned(),
        }
    }
}

/// The name of a backend.
pub open spec fn backend_name(b: EncoderBackend) -> Seq<char> {
    match b {
        EncoderBackend::Auto => "auto"@,
        EncoderBackend::Cpu => "cpu"@,
        EncoderBackend::Gpu => "gpu"@,
    }
}

/// The backend that `s` names, whatever its case.
pub open spec fn backend_named(s: Seq<char>) -> Option<EncoderBackend> {
    let s = text::lowercase(s);
    if s == "auto"@ {
        Some(EncoderBackend::Auto)
    } else if s == "cpu"@ {
        Some(EncoderBackend::Cpu)
    } else if s == "gpu"@ {
        Some(EncoderBackend::Gpu)
    } else {
        None
    }
}

impl EncoderConfig {
    pub fn backend_as_str(&self) -> (r: &'static str)
        ensures
            r@ == backend_name(self.backend),
    {
        match self.backend {
            EncoderBackend::Auto => "auto",
            EncoderBackend::Cpu => "cpu",
            EncoderBackend::Gpu => "gpu",
        }
    }
}

/// The backend that `s` names, whatever its case.
pub fn backend_from_name(s: &str) -> (r: Option<EncoderBackend>)
    ensures
        r == backend_named(s@),
{
    let s = text::to_lowercase(s);
    if text::same(s.as_str(), "auto") {
        Some(EncoderBackend::Auto)
    } else if text::same(s.as_str(), "cpu") {
        Some(EncoderBackend::Cpu)
    } else if text::same(s.as_str(), "gpu") {
        Some(EncoderBackend::Gpu)
    } else {
        None
    }
}

/// A backend's name names it.
pub proof fn backend_name_round_trip(b: EncoderBackend)
    ensures
        backend_named(backend_name(b)) == Some(b),
{
    reveal_strlit("auto");
    reveal_strlit("cpu");
    reveal_strlit("gpu");
    assert("auto"@.len() == 4);
    assert("cpu"@[0] == 'c' && "gpu"@[0] == 'g');
    text::lemma_lowercase_fixed(backend_name(b));
}

/// The action that `s` names, whatever its case.
pub open spec fn action_named(s: Seq<char>) -> Option<Action> {
    let s = text::lowercase(s);
    if s == "clip"@ {
        Some(Action::Clip)
    } else if s == "record"@ {
        Some(Action::RecordStart)
    } else if s == "stop"@ {
        Some(Action::RecordStop)
    } else {
        None
    }
}

/// The action that `s` names, whatever its case.
pub fn action_from_name(s: &str) -> (r: Option<Action>)
    ensures
        r == action_named(s@),
{
    let s = text::to_lowercase(s);
    if text::same(s.as_str(), "clip") {
        Some(Action::Clip)
    } else if text::same(s.as_str(), "record") {
        Some(Action::RecordStart)
    } else if text::same(s.as_str(), "stop") {
        Some(Action::RecordStop)
    } else {
        None
    }
}

/// A preset name of x264 and x265.
pub open spec fn is_named_preset(s: Seq<char>) -> bool {
    ||| s == "ultrafast"@
    ||| s == "superfast"@
    ||| s == "veryfast"@
    ||| s == "faster"@
    ||| s == "fast"@
    ||| s == "medium"@
    ||| s == "slow"@
    ||| s == "slower"@
    ||| s == "veryslow"@
    ||| s == "placebo"@
}

/// The x264/x265 preset that stands for `s`.
pub open spec fn named_preset(s: Seq<char>) -> Seq<char> {
    if is_named_preset(s) {
        s
    } else if s == "p1"@ || s == "p2"@ {
        "slow"@
    } else if s == "p3"@ || s == "p4"@ {
        "medium"@
    } else if s == "p5"@ || s == "p6"@ {
        "fast"@
    } else if s == "p7"@ {
        "veryfast"@
    } else {
        "medium"@
    }
}

fn is_named(s: &str) -> (r: bool)
    ensures
        r == is_named_preset(s@),
{
    text::same(s, "ultrafast") || text::same(s, "superfast") || text::same(s, "veryfast")
        || text::same(s, "faster") || text::same(s, "fast") || text::same(s, "medium")
        || text::same(s, "slow") || text::same(s, "slower") || text::same(s, "veryslow")
        || text::same(s, "placebo")
}

/// Valid x264/x265 preset names. Numeric NVENC presets (`p1..p7`) are only valid
/// for GPU encoders; CPU encoders get a sane named preset instead.
pub fn sanitize_preset(preset: &str) -> (r: String)
    ensures
        r@ == named_preset(preset@),
{
    if is_named(preset) {
        preset.to_owned()
    } else if text::same(preset, "p1") || text::same(preset, "p2") {
        "slow".to_owned()
    } else if text::same(preset, "p3") || text::same(preset, "p4") {
        "medium".to_owned()
    } else if text::same(preset, "p5") || text::same(preset, "p6") {
        "fast".to_owned()
    } else if text::same(preset, "p7") {
        "veryfast".to_owned()
    } else {
        "medium".to_owned()
    }
}

/// Whatever the preset, a CPU encoder gets one that it knows, and one that it
/// knows stays as it is.
pub proof fn sanitized_preset_is_named(s: Seq<char>)
    ensures
        is_named_preset(named_preset(s)),
        is_named_preset(s) ==> named_preset(s) == s,
        named_preset(named_preset(s)) == named_preset(s),
{
}

#[derive(Debug, Clone)]
pub struct Storage {
    pub clip_dir: String,
    pub record_dir: String,
    /// Rolling window scratch dir where segments are written.
    pub segment_dir: String,
    /// Maximum combined clip+record storage before auto-cleanup kicks in (MB). 0 = unlimited.
    pub max_storage_mb: u64,
    /// Max number of clips retained. 0 = keep everything.
    pub max_clips: usize,
    pub auto_cleanup: bool,
}

/// `dirs::home_dir`: the user's home directory, where there is one. It comes
/// from the environment, so nothing is said of it.
#[verifier::external_body]
pub(crate) fn home_dir() -> (r: Option<String>) {
    dirs::home_dir().map(|p| p.to_string_lossy().into_owned())
}

/// `dirs::config_dir`: the user's directory for settings, where there is one.
/// It comes from the environment, so nothing is said of it.
#[verifier::external_body]
pub(crate) fn config_dir() -> (r: Option<String>) {
    dirs::config_dir().map(|p| p.to_string_lossy().into_owned())
}

/// The first of the two that is there, else the working directory.
pub open spec fn base_dir(first: Option<String>, home: Option<String>) -> Seq<char> {
    match first {
        Some(d) => d@,
        None => match home {
            Some(h) => h@,
            None => "."@,
        },
    }
}

/// The first of the two that is there, else the working directory.
pub fn choose_base(first: Option<String>, home: Option<String>) -> (r: String)
    ensures
        r@ == base_dir(first, home),
{
    match first {
        Some(d) => d,
        None => match home {
            Some(h) => h,
            None => ".".to_owned(),
        },
    }
}

impl Storage {
    /// Whether these are the defaults for a base and a scratch directory.
    pub open spec fn is_default(self, base: Seq<char>, temp: Seq<char>) -> bool {
        &&& paths::is_under(self.clip_dir@, base, "RSClipping"@)
        &&& paths::is_under(self.record_dir@, base, "RSClippingRecordings"@)
        &&& paths::is_under(self.segment_dir@, temp, "rsclipping_segments"@)
        &&& self.max_storage_mb == 4096
        &&& self.max_clips == 500
        &&& self.auto_cleanup
    }

    /// The defaults, given the directory that holds outputs and the one for
    /// scratch files.
    pub fn default_in(base: &str, temp: &str) -> (r: Storage)
        ensures
            r.is_default(base@, temp@),
    {
        proof {
            reveal_strlit("RSClipping");
            reveal_strlit("RSClippingRecordings");
            reveal_strlit("rsclipping_segments");
        }
        Storage {
            clip_dir: paths::join(base, "RSClipping"),
            record_dir: paths::join(base, "RSClippingRecordings"),
            segment_dir: paths::join(temp, "rsclipping_segments"),
            max_storage_mb: 4096,
            max_clips: 500,
            auto_cleanup: true,
        }
    }

    /// The defaults for this user: outputs on the desktop, else in the home
    /// directory, else in the working directory.
    pub fn default_for_user(desktop: Option<String>, temp: &str) -> (r: Storage)
        ensures
            exists|home: Option<String>|
                r.is_default(#[trigger] base_dir(desktop, home), temp@),
            desktop is Some ==> r.is_default(desktop->0@, temp@),
            text::finishes(r.clip_dir@, "RSClipping"@),
            text::finishes(r.record_dir@, "RSClippingRecordings"@),
    {
        let home = home_dir();
        let ghost base = base_dir(desktop, home);
        let dir = choose_base(desktop, home);
        let r = Storage::default_in(dir.as_str(), temp);
        proof {
            reveal_strlit(".");
            reveal_strlit("..");
            reveal_strlit("RSClipping");
            reveal_strlit("RSClippingRecordings");
            paths::path_ends_in_its_name(r.clip_dir@, base, "RSClipping"@);
            paths::path_ends_in_its_name(r.record_dir@, base, "RSClippingRecordings"@);
        }
        r
    }
}

/// Corner anchor for the on-screen key overlay.
#[derive(Debug, Clone, Copy, PartialEq, Eq, Structural)]
pub enum OverlayPosition {
    BottomLeft,
    BottomRight,
    TopLeft,
    TopRight,
}

impl Default for OverlayPosition {
    fn default() -> (r: OverlayPosition)
        ensures
            r is BottomLeft,
    {
        OverlayPosition::BottomLeft
    }
}

impl OverlayPosition {
    pub open spec fn name(self) -> Seq<char> {
        match self {
            OverlayPosition::BottomLeft => "Bottom-left"@,
            OverlayPosition::BottomRight => "Bottom-right"@,
            OverlayPosition::TopLeft => "Top-left"@,
            OverlayPosition::TopRight => "Top-right"@,
        }
    }

    pub fn label(&self) -> (r: &'static str)
        ensures
            r@ == self.name(),
    {
        match self {
            OverlayPosition::BottomLeft => "Bottom-left",
            OverlayPosition::BottomRight => "Bottom-right",
            OverlayPosition::TopLeft => "Top-left",
            OverlayPosition::TopRight => "Top-right",
        }
    }

    pub fn all() -> (r: &'static [OverlayPosition])
        ensures
            r@ == seq![
                OverlayPosition::BottomLeft,
                OverlayPosition::BottomRight,
                OverlayPosition::TopLeft,
                OverlayPosition::TopRight,
            ],
    {
        &[
            OverlayPosition::BottomLeft,
            OverlayPosition::BottomRight,
            OverlayPosition::TopLeft,
            OverlayPosition::TopRight,
        ]
    }
}

#[derive(Debug, Clone, Copy, PartialEq, Eq, Structural)]
pub struct InputConfig {
    /// Master switch: record mouse/keyboard/controller events for clips
    /// (saved as a `*.inputs.json` sidecar next to each output).
    pub capture_events: bool,
    /// Draw a key/mouse overlay into the recorded video frames.
    pub overlay_enabled: bool,
    /// Which corner the overlay anchors to.
    pub overlay_position: OverlayPosition,
}

impl Default for InputConfig {
    fn default() -> (r: InputConfig)
        ensures
            r.capture_events,
            !r.overlay_enabled,
            r.overlay_position is BottomLeft,
    {
        InputConfig {
            capture_events: true,
            overlay_enabled: false,
            overlay_position: OverlayPosition::BottomLeft,
        }
    }
}

#[derive(Debug, Clone, Copy, PartialEq, Eq, Structural)]
pub struct RecordingConfig {
    /// When recording via hotkey, split at these intervals (0 = single file).
    pub segment_seconds: u32,
    pub same_encoding_as_clip: bool,
}

impl Default for RecordingConfig {
    fn default() -> (r: RecordingConfig)
        ensures
            r.segment_seconds == 0,
            r.same_encoding_as_clip,
    {
        RecordingConfig { segment_seconds: 0, same_encoding_as_clip: true }
    }
}

/// All settings but the length of a rolling-buffer segment, which is a real
/// number of seconds and enters the library as a number of frames.
#[derive(Debug, Clone)]
pub struct AppConfig {
    /// Path to ffmpeg binary. Empty string -> search PATH and common locations.
    pub ffmpeg_path: String,
    /// Master config file path used to reload.
    pub config_path: String,
    pub hotkey_clip: Hotkey,
    pub hotkey_record_start: Hotkey,
    pub hotkey_record_stop: Hotkey,
    pub clip: ClipConfig,
    pub encoding: EncoderConfig,
    pub recording: RecordingConfig,
    pub storage: Storage,
    /// Include audio in recordings (experimental; requires system audio loopback).
    pub capture_audio: bool,
    /// Which monitor to capture (0 = primary).
    pub monitor_index: usize,
    /// Input capture (mouse/keyboard/controller) and key overlay options.
    pub input: InputConfig,
}

/// The directory of this program's settings, in the user's settings directory.
pub open spec fn is_config_dir(dir: Seq<char>, base: Seq<char>) -> bool {
    paths::is_under(dir, base, "rsclipping"@)
}

/// The directory of this program's settings, given where settings and the
/// user's files are kept.
pub fn config_dir_in(config: Option<String>, home: Option<String>) -> (r: String)
    ensures
        is_config_dir(r@, base_dir(config, home)),
{
    let base = choose_base(config, home);
    proof {
        reveal_strlit("rsclipping");
    }
    paths::join(base.as_str(), "rsclipping")
}

/// The settings file in its directory.
pub fn config_path_in(dir: &str) -> (r: String)
    ensures
        paths::is_under(r@, dir@, "config.json"@),
{
    proof {
        reveal_strlit("config.json");
    }
    paths::join(dir, "config.json")
}

impl AppConfig {
    /// Whether these are the defaults for given storage settings.
    pub open spec fn is_default(self, storage: Storage) -> bool {
        &&& self.ffmpeg_path@.len() == 0
        &&& self.config_path@.len() == 0
        &&& self.hotkey_clip == (Hotkey { mods: 0, key: HotkeyKey::F(8) })
        &&& self.hotkey_record_start == (Hotkey { mods: 0, key: HotkeyKey::F(9) })
        &&& self.hotkey_record_stop == (Hotkey { mods: 0, key: HotkeyKey::F(10) })
        &&& self.clip == (ClipConfig { history_seconds: 30, default_length_seconds: 15 })
        &&& self.encoding.codec is H264
        &&& self.encoding.backend is Auto
        &&& self.encoding.fps == 60
        &&& self.encoding.bitrate_kbps == 0
        &&& self.encoding.crf == 20
        &&& self.encoding.preset@ == "veryfast"@
        &&& self.encoding.extra_encoder_args@.len() == 0
        &&& self.encoding.pixel_format@ == "yuv420p"@
        &&& self.recording == (RecordingConfig { segment_seconds: 0, same_encoding_as_clip: true })
        &&& self.storage == storage
        &&& !self.capture_audio
        &&& self.monitor_index == 0
        &&& self.input == (InputConfig {
            capture_events: true,
            overlay_enabled: false,
            overlay_position: OverlayPosition::BottomLeft,
        })
    }

    /// The defaults, for given storage settings.
    pub fn default_with(storage: Storage) -> (r: AppConfig)
        ensures
            r.is_default(storage),
    {
        proof {
            reveal_strlit("");
        }
        AppConfig {
            ffmpeg_path: "".to_owned(),
            config_path: "".to_owned(),
            hotkey_clip: Hotkey::new(0, HotkeyKey::F(8)),
            hotkey_record_start: Hotkey::new(0, HotkeyKey::F(9)),
            hotkey_record_stop: Hotkey::new(0, HotkeyKey::F(10)),
            clip: ClipConfig::default(),
            encoding: EncoderConfig::default(),
            recording: RecordingConfig::default(),
            storage,
            capture_audio: false,
            monitor_index: 0,
            input: InputConfig::default(),
        }
    }

    /// The hotkeys for clip, start and stop, as the settings file writes them.
    pub fn hotkey_names(&self) -> (r: (String, String, String))
        ensures
            r.0@ == self.hotkey_clip.config_text(),
            r.1@ == self.hotkey_record_start.config_text(),
            r.2@ == self.hotkey_record_stop.config_text(),
    {
        (
            self.hotkey_clip.as_str(),
            self.hotkey_record_start.as_str(),
            self.hotkey_record_stop.as_str(),
        )
    }

    /// The directory of this program's settings.
    pub fn default_config_dir() -> (r: String)
        ensures
            exists|config: Option<String>, home: Option<String>|
                is_config_dir(r@, #[trigger] base_dir(config, home)),
            text::finishes(r@, "rsclipping"@),
    {
        let config = config_dir();
        let home = home_dir();
        let ghost base = base_dir(config, home);
        let r = config_dir_in(config, home);
        proof {
            reveal_strlit(".");
            reveal_strlit("..");
            reveal_strlit("rsclipping");
            paths::path_ends_in_its_name(r@, base, "rsclipping"@);
        }
        r
    }

    /// The settings file of this program.
    pub fn default_config_path() -> (r: String)
        ensures
            exists|dir: Seq<char>, config: Option<String>, home: Option<String>|
                #![trigger is_config_dir(dir, base_dir(config, home))]
                is_config_dir(dir, base_dir(config, home)) && paths::is_under(
                    r@,
                    dir,
                    "config.json"@,
                ),
            text::finishes(r@, "config.json"@),
    {
        let dir = AppConfig::default_config_dir();
        let r = config_path_in(dir.as_str());
        proof {
            reveal_strlit(".");
            reveal_strlit("..");
            reveal_strlit("config.json");
            paths::path_ends_in_its_name(r@, dir@, "config.json"@);
        }
        r
    }
}

/// What the command line may set for one run.
#[derive(Debug, Clone)]
pub struct Overrides {
    pub ffmpeg: Option<String>,
    pub codec: Option<String>,
    pub backend: Option<String>,
    pub fps: Option<u32>,
    pub crf: Option<u32>,
    pub bitrate: Option<u32>,
    pub preset: Option<String>,
    pub history: Option<u32>,
    pub clip_length: Option<u32>,
    pub clip_dir: Option<String>,
    pub record_dir: Option<String>,
}

/// A word on the command line that names nothing.
#[derive(Debug, Clone)]
pub enum OverrideError {
    UnknownCodec(String),
    UnknownBackend(String),
}

/// What is given, else what is kept.
pub open spec fn or<T>(given: Option<T>, kept: T) -> T {
    match given {
        Some(v) => v,
        None => kept,
    }
}

fn given_or<T>(given: Option<T>, kept: T) -> (r: T)
    ensures
        r == or(given, kept),
{
    match given {
        Some(v) => v,
        None => kept,
    }
}

impl Overrides {
    pub open spec fn codec_known(self) -> bool {
        self.codec is Some ==> Codec::meant_by(self.codec->0@) is Some
    }

    pub open spec fn backend_known(self) -> bool {
        self.backend is Some ==> backend_named(self.backend->0@) is Some
    }

    /// The settings with what is given put in their place.
    pub open spec fn over(self, cfg: AppConfig) -> AppConfig {
        AppConfig {
            ffmpeg_path: or(self.ffmpeg, cfg.ffmpeg_path),
            encoding: EncoderConfig {
                codec: match self.codec {
                    Some(c) => Codec::meant_by(c@)->0,
                    None => cfg.encoding.codec,
                },
                backend: match self.backend {
                    Some(b) => backend_named(b@)->0,
                    None => cfg.encoding.backend,
                },
                fps: or(self.fps, cfg.encoding.fps),
                crf: or(self.crf, cfg.encoding.crf),
                bitrate_kbps: or(self.bitrate, cfg.encoding.bitrate_kbps),
                preset: or(self.preset, cfg.encoding.preset),
                ..cfg.encoding
            },
            clip: ClipConfig {
                history_seconds: or(self.history, cfg.clip.history_seconds),
                default_length_seconds: or(self.clip_length, cfg.clip.default_length_seconds),
            },
            storage: Storage {
                clip_dir: or(self.clip_dir, cfg.storage.clip_dir),
                record_dir: or(self.record_dir, cfg.storage.record_dir),
                ..cfg.storage
            },
            ..cfg
        }
    }

    /// Puts what is given in place of the saved settings. The codec is looked
    /// at before the backend.
    pub fn apply(self, cfg: AppConfig) -> (r: Result<AppConfig, OverrideError>)
        ensures
            match r {
                Ok(out) => self.codec_known() && self.backend_known() && out == self.over(cfg),
                Err(OverrideError::UnknownCodec(c)) => !self.codec_known() && self.codec == Some(c),
                Err(OverrideError::UnknownBackend(b)) => self.codec_known()
                    && !self.backend_known() && self.backend == Some(b),
            },
    {
        let codec = match self.codec {
            Some(c) => match Codec::from_name(c.as_str()) {
                Some(codec) => codec,
                None => {
                    return Err(OverrideError::UnknownCodec(c));
                },
            },
            None => cfg.encoding.codec,
        };
        let backend = match self.backend {
            Some(b) => match backend_from_name(b.as_str()) {
                Some(backend) => backend,
                None => {
                    return Err(OverrideError::UnknownBackend(b));
                },
            },
            None => cfg.encoding.backend,
        };
        let encoding = EncoderConfig {
            codec,
            backend,
            fps: given_or(self.fps, cfg.encoding.fps),
            crf: given_or(self.crf, cfg.encoding.crf),
            bitrate_kbps: given_or(self.bitrate, cfg.encoding.bitrate_kbps),
            preset: given_or(self.preset, cfg.encoding.preset),
            extra_encoder_args: cfg.encoding.extra_encoder_args,
            pixel_format: cfg.encoding.pixel_format,
        };
        let clip = ClipConfig {
            history_seconds: given_or(self.history, cfg.clip.history_seconds),
            default_length_seconds: given_or(self.clip_length, cfg.clip.default_length_seconds),
        };
        let storage = Storage {
            clip_dir: given_or(self.clip_dir, cfg.storage.clip_dir),
            record_dir: given_or(self.record_dir, cfg.storage.record_dir),
            segment_dir: cfg.storage.segment_dir,
            max_storage_mb: cfg.storage.max_storage_mb,
            max_clips: cfg.storage.max_clips,
            auto_cleanup: cfg.storage.auto_cleanup,
        };
        Ok(
            AppConfig {
                ffmpeg_path: given_or(self.ffmpeg, cfg.ffmpeg_path),
                config_path: cfg.config_path,
                hotkey_clip: cfg.hotkey_clip,
                hotkey_record_start: cfg.hotkey_record_start,
                hotkey_record_stop: cfg.hotkey_record_stop,
                clip,
                encoding,
                recording: cfg.recording,
                storage,
                capture_audio: cfg.capture_audio,
                monitor_index: cfg.monitor_index,
                input: cfg.input,
            },
        )
    }
}

/// A command line that gives nothing changes nothing.
pub proof fn nothing_given_changes_nothing(o: Overrides, cfg: AppConfig)
    requires
        o.ffmpeg is None,
        o.codec is None,
        o.backend is None,
        o.fps is None,
        o.crf is None,
        o.bitrate is None,
        o.preset is None,
        o.history is None,
        o.clip_length is None,
        o.clip_dir is None,
        o.record_dir is None,
    ensures
        o.codec_known(),
        o.backend_known(),
        o.over(cfg) == cfg,
{
}

/// What the command line gives takes effect, each value in its own place, and
/// all else stays as it was.
pub proof fn given_values_take_effect(o: Overrides, cfg: AppConfig)
    requires
        o.codec_known(),
        o.backend_known(),
    ensures
        ({
            let new = o.over(cfg);
            &&& new.ffmpeg_path == if o.ffmpeg is Some {
                o.ffmpeg->0
            } else {
                cfg.ffmpeg_path
            }
            &&& o.codec is Some ==> Codec::meant_by(o.codec->0@) == Some(new.encoding.codec)
            &&& o.codec is None ==> new.encoding.codec == cfg.encoding.codec
            &&& o.backend is Some ==> text::lowercase(o.backend->0@) == backend_name(
                new.encoding.backend,
            )
            &&& o.backend is None ==> new.encoding.backend == cfg.encoding.backend
            &&& new.encoding.fps == if o.fps is Some {
                o.fps->0
            } else {
                cfg.encoding.fps
            }
            &&& new.encoding.crf == if o.crf is Some {
                o.crf->0
            } else {
                cfg.encoding.crf
            }
            &&& new.encoding.bitrate_kbps == if o.bitrate is Some {
                o.bitrate->0
            } else {
                cfg.encoding.bitrate_kbps
            }
            &&& new.encoding.preset == if o.preset is Some {
                o.preset->0
            } else {
                cfg.encoding.preset
            }
            &&& new.clip.history_seconds == if o.history is Some {
                o.history->0
            } else {
                cfg.clip.history_seconds
            }
            &&& new.clip.default_length_seconds == if o.clip_length is Some {
                o.clip_length->0
            } else {
                cfg.clip.default_length_seconds
            }
            &&& new.storage.clip_dir == if o.clip_dir is Some {
                o.clip_dir->0
            } else {
                cfg.storage.clip_dir
            }
            &&& new.storage.record_dir == if o.record_dir is Some {
                o.record_dir->0
            } else {
                cfg.storage.record_dir
            }
            &&& new.encoding.extra_encoder_args == cfg.encoding.extra_encoder_args
            &&& new.encoding.pixel_format == cfg.encoding.pixel_format
            &&& new.storage.segment_dir == cfg.storage.segment_dir
            &&& new.storage.max_storage_mb == cfg.storage.max_storage_mb
            &&& new.storage.max_clips == cfg.storage.max_clips
            &&& new.storage.auto_cleanup == cfg.storage.auto_cleanup
            &&& new.config_path == cfg.config_path
            &&& new.hotkey_clip == cfg.hotkey_clip
            &&& new.hotkey_record_start == cfg.hotkey_record_start
            &&& new.hotkey_record_stop == cfg.hotkey_record_stop
            &&& new.recording == cfg.recording
            &&& new.capture_audio == cfg.capture_audio
            &&& new.monitor_index == cfg.monitor_index
            &&& new.input == cfg.input
        }),
{
}

/// A backend is named by its own name in whatever case, and by nothing else.
pub proof fn backends_have_one_name(s: Seq<char>, b: EncoderBackend)
    ensures
        backend_named(s) == Some(b) <==> text::lowercase(s) == backend_name(b),
{
    reveal_strlit("auto");
    reveal_strlit("cpu");
    reveal_strlit("gpu");
    assert("auto"@.len() == 4 && "cpu"@.len() == 3 && "gpu"@.len() == 3);
    assert("cpu"@[0] == 'c' && "gpu"@[0] == 'g');
}

/// A command names an action in whatever case: `clip`, `record` or `stop`.
pub proof fn actions_have_one_name(s: Seq<char>)
    ensures
        action_named(s) == Some(Action::Clip) <==> text::lowercase(s) == seq!['c', 'l', 'i', 'p'],
        action_named(s) == Some(Action::RecordStart) <==> text::lowercase(s) == seq![
            'r',
            'e',
            'c',
            'o',
            'r',
            'd',
        ],
        action_named(s) == Some(Action::RecordStop) <==> text::lowercase(s) == seq![
            's',
            't',
            'o',
            'p',
        ],
{
    reveal_strlit("clip");
    reveal_strlit("record");
    reveal_strlit("stop");
    assert("clip"@ =~= seq!['c', 'l', 'i', 'p']);
    assert("record"@ =~= seq!['r', 'e', 'c', 'o', 'r', 'd']);
    assert("stop"@ =~= seq!['s', 't', 'o', 'p']);
    assert("clip"@[0] == 'c' && "record"@[0] == 'r' && "stop"@[0] == 's');
}

/// The first directory that is there is the base, else the working directory.
pub proof fn first_directory_is_the_base(first: Option<String>, home: Option<String>)
    ensures
        first is Some ==> base_dir(first, home) == first->0@,
        first is None && home is Some ==> base_dir(first, home) == home->0@,
        first is None && home is None ==> base_dir(first, home) == seq!['.'],
{
    reveal_strlit(".");
    assert("."@ =~= seq!['.']);
}

/// A level of NVENC's becomes a preset of about its speed, `p1` being the best; any
/// other text that names no preset becomes the middle one.
pub proof fn levels_become_presets(s: Seq<char>)
    ensures
        ({
            let level = s.len() == 2 && s[0] == 'p' && '1' <= s[1] <= '7';
            &&& level && s[1] <= '2' ==> named_preset(s) == "slow"@
            &&& level && '3' <= s[1] <= '4' ==> named_preset(s) == "medium"@
            &&& level && '5' <= s[1] <= '6' ==> named_preset(s) == "fast"@
            &&& level && s[1] == '7' ==> named_preset(s) == "veryfast"@
            &&& !level && !is_named_preset(s) ==> named_preset(s) == "medium"@
        }),
{
    reveal_strlit("p1");
    reveal_strlit("p2");
    reveal_strlit("p3");
    reveal_strlit("p4");
    reveal_strlit("p5");
    reveal_strlit("p6");
    reveal_strlit("p7");
    reveal_strlit("ultrafast");
    reveal_strlit("superfast");
    reveal_strlit("veryfast");
    reveal_strlit("faster");
    reveal_strlit("fast");
    reveal_strlit("medium");
    reveal_strlit("slow");
    reveal_strlit("slower");
    reveal_strlit("veryslow");
    reveal_strlit("placebo");
    if s.len() == 2 && s[0] == 'p' {
        if s[1] == '1' {
            assert(s =~= "p1"@);
        } else if s[1] == '2' {
            assert(s =~= "p2"@);
        } else if s[1] == '3' {
            assert(s =~= "p3"@);
        } else if s[1] == '4' {
            assert(s =~= "p4"@);
        } else if s[1] == '5' {
            assert(s =~= "p5"@);
        } else if s[1] == '6' {
            assert(s =~= "p6"@);
        } else if s[1] == '7' {
            assert(s =~= "p7"@);
        }
    }
}

/// The ten presets of x264, and no others, are named ones.
pub proof fn ten_presets_are_named(s: Seq<char>)
    ensures
        is_named_preset(s) <==> seq![
            "ultrafast"@,
            "superfast"@,
            "veryfast"@,
            "faster"@,
            "fast"@,
            "medium"@,
            "slow"@,
            "slower"@,
            "veryslow"@,
            "placebo"@,
        ].contains(s),
{
    let o = seq![
        "ultrafast"@,
        "superfast"@,
        "veryfast"@,
        "faster"@,
        "fast"@,
        "medium"@,
        "slow"@,
        "slower"@,
        "veryslow"@,
        "placebo"@,
    ];
    assert(o[0] == "ultrafast"@ && o[1] == "superfast"@ && o[2] == "veryfast"@ && o[3] == "faster"@
        && o[4] == "fast"@ && o[5] == "medium"@ && o[6] == "slow"@ && o[7] == "slower"@ && o[8]
        == "veryslow"@ && o[9] == "placebo"@);
}

/// Without any settings, 15 seconds are clipped of the last 30, at 60 frames a
/// second, on F8; F9 and F10 start and stop a recording, which is not split. What
/// is stored is kept within four gigabytes and 500 clips.
pub proof fn defaults_are_as_documented(
    cfg: AppConfig,
    storage: Storage,
    base: Seq<char>,
    temp: Seq<char>,
)
    requires
        cfg.is_default(storage),
        storage.is_default(base, temp),
    ensures
        cfg.hotkey_clip.mods == 0 && cfg.hotkey_clip.key == HotkeyKey::F(8),
        cfg.hotkey_record_start.mods == 0 && cfg.hotkey_record_start.key == HotkeyKey::F(9),
        cfg.hotkey_record_stop.mods == 0 && cfg.hotkey_record_stop.key == HotkeyKey::F(10),
        cfg.clip.history_seconds == 30 && cfg.clip.default_length_seconds == 15,
        cfg.encoding.codec is H264 && cfg.encoding.backend is Auto,
        cfg.encoding.fps == 60 && cfg.encoding.crf == 20 && cfg.encoding.bitrate_kbps == 0,
        cfg.encoding.preset@ == "veryfast"@ && cfg.encoding.pixel_format@ == "yuv420p"@,
        cfg.encoding.extra_encoder_args@.len() == 0,
        cfg.recording.segment_seconds == 0 && cfg.recording.same_encoding_as_clip,
        cfg.input.capture_events && !cfg.input.overlay_enabled,
        cfg.input.overlay_position is BottomLeft,
        cfg.monitor_index == 0 && !cfg.capture_audio,
        cfg.ffmpeg_path@.len() == 0,
        cfg.storage.max_storage_mb == 4096 && cfg.storage.max_clips == 500,
        cfg.storage.auto_cleanup,
        paths::is_under(cfg.storage.clip_dir@, base, "RSClipping"@),
        paths::is_under(cfg.storage.record_dir@, base, "RSClippingRecordings"@),
        paths::is_under(cfg.storage.segment_dir@, temp, "rsclipping_segments"@),
{
}

/// A settings directory has the program's name.
pub proof fn settings_are_kept_under_the_name(dir: Seq<char>, base: Seq<char>)
    requires
        is_config_dir(dir, base),
    ensures
        paths::is_under(dir, base, "rsclipping"@),
{
}

/// A corner's label says which it is: Top or Bottom, a hyphen, left or right.
pub proof fn corners_are_labelled(p: OverlayPosition)
    ensures
        p.name() == (if p is TopLeft || p is TopRight {
            "Top"@
        } else {
            "Bottom"@
        }) + "-"@ + (if p is TopLeft || p is BottomLeft {
            "left"@
        } else {
            "right"@
        }),
{
    reveal_strlit("Top");
    reveal_strlit("Bottom");
    reveal_strlit("-");
    reveal_strlit("left");
    reveal_strlit("right");
    reveal_strlit("Top-left");
    reveal_strlit("Top-right");
    reveal_strlit("Bottom-left");
    reveal_strlit("Bottom-right");
    match p {
        OverlayPosition::TopLeft => {
            assert("Top-left"@ =~= "Top"@ + "-"@ + "left"@);
        },
        OverlayPosition::TopRight => {
            assert("Top-right"@ =~= "Top"@ + "-"@ + "right"@);
        },
        OverlayPosition::BottomLeft => {
            assert("Bottom-left"@ =~= "Bottom"@ + "-"@ + "left"@);
        },
        OverlayPosition::BottomRight => {
            assert("Bottom-right"@ =~= "Bottom"@ + "-"@ + "right"@);
        },
    }
}

} // verus!
