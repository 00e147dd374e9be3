//! The dashboard: labels, the settings being edited, and the capture of new
//! hotkeys.

use vstd::prelude::*;

use crate::codec::{Codec, EncoderBackend};
use crate::config::{self, AppConfig, ClipConfig, EncoderConfig, InputConfig, OverlayPosition, Storage};
use crate::daemon::ClipInfo;
use crate::hotkey::{Hotkey, HotkeyKey, MOD_ALT, MOD_CTRL, MOD_SHIFT};
use crate::paths;
use crate::text;

verus! {

/// A monitor to choose from.
#[derive(Debug, Clone, Copy, PartialEq, Eq, Structural)]
pub struct MonitorGui {
    pub width: u32,
    pub height: u32,
}

// ---------------------------------------------------------------------------
// Labels
// ---------------------------------------------------------------------------

/// The presets to choose from.
pub open spec fn offered_presets() -> Seq<Seq<char>> {
    seq![
        "ultrafast"@,
        "superfast"@,
        "veryfast"@,
        "faster"@,
        "fast"@,
        "medium"@,
        "slow"@,
        "slower"@,
        "veryslow"@,
        "placebo"@,
    ]
}

/// The presets to choose from.
pub fn preset_options() -> (r: Vec<&'static str>)
    ensures
        r@.len() == offered_presets().len(),
        forall|i: int| 0 <= i < r@.len() ==> (#[trigger] r@[i])@ == offered_presets()[i],
{
    let mut r: Vec<&'static str> = Vec::new();
    r.push("ultrafast");
    r.push("superfast");
    r.push("veryfast");
    r.push("faster");
    r.push("fast");
    r.push("medium");
    r.push("slow");
    r.push("slower");
    r.push("veryslow");
    r.push("placebo");
    r
}

/// The presets offered are the named ones, each of them.
pub proof fn offered_presets_are_the_named_ones(s: Seq<char>)
    ensures
        offered_presets().contains(s) <==> config::is_named_preset(s),
{
    let o = offered_presets();
    if config::is_named_preset(s) {
        assert(o[0] == "ultrafast"@ && o[1] == "superfast"@ && o[2] == "veryfast"@ && o[3]
            == "faster"@ && o[4] == "fast"@ && o[5] == "medium"@ && o[6] == "slow"@ && o[7]
            == "slower"@ && o[8] == "veryslow"@ && o[9] == "placebo"@);
    }
}

/// The name of a quality.
pub open spec fn tier_name(crf: u32) -> Seq<char> {
    if crf <= 14 {
        "Ultra"@
    } else if crf <= 18 {
        "High"@
    } else if crf <= 24 {
        "Medium"@
    } else {
        "Low"@
    }
}

/// The name of a quality.
pub fn quality_tier(crf: u32) -> (r: &'static str)
    ensures
        r@ == tier_name(crf),
{
    if crf <= 14 {
        "Ultra"
    } else if crf <= 18 {
        "High"
    } else if crf <= 24 {
        "Medium"
    } else {
        "Low"
    }
}

/// The qualities to choose from, best first, each under its own name.
pub fn quality_options() -> (r: Vec<(&'static str, u32)>)
    ensures
        r@.len() == 4,
        r@[0].1 == 14,
        r@[1].1 == 18,
        r@[2].1 == 23,
        r@[3].1 == 28,
        forall|i: int| 0 <= i < r@.len() ==> (#[trigger] r@[i]).0@ == tier_name(r@[i].1),
{
    let mut r: Vec<(&'static str, u32)> = Vec::new();
    r.push((quality_tier(14), 14));
    r.push((quality_tier(18), 18));
    r.push((quality_tier(23), 23));
    r.push((quality_tier(28), 28));
    r
}

/// A codec's name for people.
pub fn codec_label(c: Codec) -> (r: &'static str)
    ensures
        r@ == match c {
            Codec::H264 => "H.264"@,
            Codec::H265 => "H.265 / HEVC"@,
            Codec::VP9 => "VP9"@,
            Codec::AV1 => "AV1"@,
        },
{
    match c {
        Codec::H264 => "H.264",
        Codec::H265 => "H.265 / HEVC",
        Codec::VP9 => "VP9",
        Codec::AV1 => "AV1",
    }
}

/// A backend's name for people.
pub fn backend_label(b: EncoderBackend) -> (r: &'static str)
    ensures
        r@ == match b {
            EncoderBackend::Auto => "Auto (GPU if available)"@,
            EncoderBackend::Cpu => "CPU only"@,
            EncoderBackend::Gpu => "GPU only"@,
        },
{
    match b {
        EncoderBackend::Auto => "Auto (GPU if available)",
        EncoderBackend::Cpu => "CPU only",
        EncoderBackend::Gpu => "GPU only",
    }
}

/// The label of the `i`-th monitor, with its size where there is one.
pub open spec fn label_of(mons: Seq<MonitorGui>, i: int) -> Seq<char> {
    let number = "Display "@ + text::decimal((i + 1) as nat);
    if i < mons.len() {
        number + " — "@ + text::decimal(mons[i].width as nat) + "x"@ + text::decimal(
            mons[i].height as nat,
        )
    } else {
        number
    }
}

/// The label of the `i`-th monitor.
pub fn monitor_label(mons: &Vec<MonitorGui>, i: usize) -> (out: String)
    requires
        i < usize::MAX,
    ensures
        out@ == label_of(mons@, i as int),
{
    let mut out = "Display ".to_owned();
    out.append(text::decimal_text((i + 1) as u64).as_str());
    if i < mons.len() {
        out.append(" — ");
        out.append(text::decimal_text(mons[i].width as u64).as_str());
        out.append("x");
        out.append(text::decimal_text(mons[i].height as u64).as_str());
    }
    assert(out@ =~= label_of(mons@, i as int));
    out
}

/// What is shown of the output saved last: a dash where there is none, its
/// file name, or the path where it has no file name.
pub open spec fn last_text(path: Seq<char>, name: Option<Seq<char>>) -> Seq<char> {
    if path.len() == 0 {
        "—"@
    } else {
        match name {
            Some(n) => n,
            None => path,
        }
    }
}

/// What is shown of an output, given the file name of its path.
pub fn show_last(path: &str, name: Option<String>) -> (out: String)
    ensures
        out@ == last_text(path@, text::seen(name)),
{
    proof {
        reveal_strlit("");
    }
    if text::same(path, "") {
        return "—".to_owned();
    }
    assert(path@.len() > 0) by {
        if path@.len() == 0 {
            assert(path@ =~= ""@);
        }
    }
    match name {
        Some(n) => n,
        None => path.to_owned(),
    }
}

/// What is shown of the output saved last.
pub fn fmt_last(path: &str) -> (out: String)
    ensures
        path@.len() == 0 ==> out@ == "—"@,
        path@.len() > 0 && paths::ends_in_name(path@) ==> out@ == paths::after_slash(path@),
        path@.len() > 0 ==> out@.len() > 0 && text::holds(path@, out@),
        exists|name: Option<Seq<char>>| out@ == #[trigger] last_text(path@, name),
{
    let name = paths::file_name(path);
    let ghost n = text::seen(name);
    let out = show_last(path, name);
    assert(out@ == last_text(path@, n));
    proof {
        assert(path@.subrange(0, path@.len() as int) =~= path@);
        assert(text::stands_at(path@, path@, 0));
    }
    out
}

// ---------------------------------------------------------------------------
// Messages
// ---------------------------------------------------------------------------

/// How solid a message of a given age is: fully for three seconds, then less
/// and less for one more. After that it is gone.
pub open spec fn message_alpha(age_ms: u64) -> Option<u8> {
    if age_ms <= 3000 {
        Some(255)
    } else if age_ms <= 4000 {
        Some((255 * (4000 - age_ms) / 1000) as u8)
    } else {
        None
    }
}

/// How solid a message of a given age is, or `None` where it is gone.
pub fn toast_alpha(age_ms: u64) -> (r: Option<u8>)
    ensures
        r == message_alpha(age_ms),
{
    if age_ms <= 3000 {
        Some(255)
    } else if age_ms <= 4000 {
        Some((255 * (4000 - age_ms) / 1000) as u8)
    } else {
        None
    }
}

// ---------------------------------------------------------------------------
// Recent clips
// ---------------------------------------------------------------------------

/// How many clips are shown.
pub const RECENT_CLIPS: usize = 8;

/// Whether no name comes after an earlier one's.
pub open spec fn newest_first(clips: Seq<ClipInfo>) -> bool {
    forall|i: int, j: int|
        0 <= i < j < clips.len() ==> !text::comes_before(
            (#[trigger] clips[i]).name@,
            (#[trigger] clips[j]).name@,
        )
}

/// The clips with the greatest name, which is the newest clip's, in front.
pub fn sort_clips(clips: &Vec<ClipInfo>) -> (out: Vec<ClipInfo>)
    ensures
        newest_first(out@),
        out@.to_multiset() == clips@.to_multiset(),
{
    let mut out: Vec<ClipInfo> = Vec::new();
    let mut n: usize = 0;
    assert(out@ =~= clips@.take(0));
    while n < clips.len()
        invariant
            n <= clips@.len(),
            out@.len() == n,
            newest_first(out@),
            out@.to_multiset() == clips@.take(n as int).to_multiset(),
        decreases clips@.len() - n,
    {
        let mut at: usize = n;
        while at > 0 && text::less(out[at - 1].name.as_str(), clips[n].name.as_str())
            invariant
                at <= n < clips@.len(),
                out@.len() == n,
                forall|k: int|
                    at <= k < n ==> text::comes_before(
                        (#[trigger] out@[k]).name@,
                        clips@[n as int].name@,
                    ),
            decreases at,
        {
            at -= 1;
        }
        let ghost before = out@;
        let ghost c = clips@[n as int];
        out.insert(at, clips[n].clone());
        proof {
            lemma_insert_to_multiset(before, at as int, c);
            vstd::seq_lib::to_multiset_build(clips@.take(n as int), c);
            assert(clips@.take(n as int).push(c) =~= clips@.take(n + 1));
            lemma_insert_newest_first(before, at as int, c);
        }
        n += 1;
    }
    assert(clips@.take(n as int) =~= clips@);
    out
}

proof fn lemma_insert_to_multiset(clips: Seq<ClipInfo>, at: int, c: ClipInfo)
    requires
        0 <= at <= clips.len(),
    ensures
        clips.insert(at, c).to_multiset() == clips.to_multiset().insert(c),
{
    broadcast use vstd::multiset::group_multiset_axioms;

    let more = clips.insert(at, c);
    assert(more.remove(at) =~= clips);
    vstd::seq_lib::to_multiset_remove(more, at);
    more.to_multiset_ensures();
    assert(more[at] == c);
    assert(more.contains(c));
    assert(more.to_multiset().remove(c).insert(c) =~= more.to_multiset());
}

proof fn lemma_insert_newest_first(clips: Seq<ClipInfo>, at: int, c: ClipInfo)
    requires
        newest_first(clips),
        0 <= at <= clips.len(),
        at > 0 ==> !text::comes_before(clips[at - 1].name@, c.name@),
        forall|k: int| at <= k < clips.len() ==> text::comes_before((#[trigger] clips[k]).name@, c.name@),
    ensures
        newest_first(clips.insert(at, c)),
{
    let out = clips.insert(at, c);
    assert forall|i: int, j: int| 0 <= i < j < out.len() implies !text::comes_before(
        (#[trigger] out[i]).name@,
        (#[trigger] out[j]).name@,
    ) by {
        let i0 = if i < at {
            i
        } else {
            i - 1
        };
        let j0 = if j < at {
            j
        } else {
            j - 1
        };
        if i == at {
            assert(out[j] == clips[j0]);
            text::text_order_is_total(clips[j0].name@, c.name@, c.name@);
        } else if j == at {
            assert(out[i] == clips[i]);
            let last = clips[at - 1].name@;
            text::text_order_is_total(clips[i].name@, c.name@, last);
            text::text_order_is_total(c.name@, last, clips[i].name@);
            text::text_order_is_total(last, c.name@, clips[i].name@);
            if i < at - 1 {
                assert(!text::comes_before(clips[i].name@, last));
                if text::comes_before(clips[i].name@, c.name@) {
                    text::text_order_is_total(clips[i].name@, last, c.name@);
                    if last == c.name@ {
                    } else {
                        text::text_order_is_total(clips[i].name@, c.name@, last);
                    }
                }
            }
        } else {
            assert(out[i] == clips[i0] && out[j] == clips[j0]);
        }
    }
}

// ---------------------------------------------------------------------------
// Choosing a monitor
// ---------------------------------------------------------------------------

/// The monitor before, where there is one.
pub fn monitor_before(monitor: usize) -> (r: usize)
    ensures
        r == if monitor > 0 {
            monitor - 1
        } else {
            0
        },
{
    if monitor > 0 {
        monitor - 1
    } else {
        0
    }
}

/// The monitor after, if there are as many as `count`.
pub fn monitor_after(monitor: usize, count: usize) -> (r: usize)
    ensures
        r == if monitor + 1 < count {
            monitor + 1
        } else {
            monitor as int
        },
{
    if count > 0 && monitor < count - 1 {
        monitor + 1
    } else {
        monitor
    }
}

/// The monitor to show as chosen: the last one where the number is too large.
pub fn monitor_shown(monitor: usize, count: usize) -> (r: usize)
    requires
        count > 0,
    ensures
        r == if monitor < count {
            monitor as int
        } else {
            count - 1
        },
{
    if monitor < count {
        monitor
    } else {
        count - 1
    }
}

// ---------------------------------------------------------------------------
// Settings being edited
// ---------------------------------------------------------------------------

/// Which hotkey slot the user is currently re-binding.
#[derive(Debug, Clone, Copy, PartialEq, Eq, Structural)]
pub enum HotkeySlot {
    Clip,
    RecordStart,
    RecordStop,
}

/// The settings being edited.
#[derive(Debug)]
pub struct SettingsDraft {
    pub codec: Codec,
    pub backend: EncoderBackend,
    pub fps: u32,
    pub crf: u32,
    pub bitrate: u32,
    pub preset: String,
    pub history: u32,
    pub clip_len: u32,
    pub monitor: usize,
    pub hotkey_clip: Hotkey,
    pub hotkey_record_start: Hotkey,
    pub hotkey_record_stop: Hotkey,
    pub clip_dir: String,
    pub record_dir: String,
    pub max_mb: u64,
    pub auto_cleanup: bool,
    pub input_events: bool,
    pub input_overlay: bool,
    pub overlay_position: OverlayPosition,
}

impl SettingsDraft {
    /// Whether the draft shows these settings.
    pub open spec fn shows(self, cfg: AppConfig) -> bool {
        &&& self.codec == cfg.encoding.codec
        &&& self.backend == cfg.encoding.backend
        &&& self.fps == cfg.encoding.fps
        &&& self.crf == cfg.encoding.crf
        &&& self.bitrate == cfg.encoding.bitrate_kbps
        &&& self.preset@ == config::named_preset(cfg.encoding.preset@)
        &&& self.history == cfg.clip.history_seconds
        &&& self.clip_len == cfg.clip.default_length_seconds
        &&& self.monitor == cfg.monitor_index
        &&& self.hotkey_clip == cfg.hotkey_clip
        &&& self.hotkey_record_start == cfg.hotkey_record_start
        &&& self.hotkey_record_stop == cfg.hotkey_record_stop
        &&& self.clip_dir@ == cfg.storage.clip_dir@
        &&& self.record_dir@ == cfg.storage.record_dir@
        &&& self.max_mb == cfg.storage.max_storage_mb
        &&& self.auto_cleanup == cfg.storage.auto_cleanup
        &&& self.input_events == cfg.input.capture_events
        &&& self.input_overlay == cfg.input.overlay_enabled
        &&& self.overlay_position == cfg.input.overlay_position
    }

    /// A draft of these settings.
    pub fn from_config(cfg: &AppConfig) -> (d: SettingsDraft)
        ensures
            d.shows(*cfg),
    {
        SettingsDraft {
            codec: cfg.encoding.codec,
            backend: cfg.encoding.backend,
            fps: cfg.encoding.fps,
            crf: cfg.encoding.crf,
            bitrate: cfg.encoding.bitrate_kbps,
            preset: config::sanitize_preset(cfg.encoding.preset.as_str()),
            history: cfg.clip.history_seconds,
            clip_len: cfg.clip.default_length_seconds,
            monitor: cfg.monitor_index,
            hotkey_clip: cfg.hotkey_clip,
            hotkey_record_start: cfg.hotkey_record_start,
            hotkey_record_stop: cfg.hotkey_record_stop,
            clip_dir: cfg.storage.clip_dir.clone(),
            record_dir: cfg.storage.record_dir.clone(),
            max_mb: cfg.storage.max_storage_mb,
            auto_cleanup: cfg.storage.auto_cleanup,
            input_events: cfg.input.capture_events,
            input_overlay: cfg.input.overlay_enabled,
            overlay_position: cfg.input.overlay_position,
        }
    }

    /// Whether `new` is `cfg` with what the draft holds put in its place.
    pub open spec fn is_applied(self, cfg: AppConfig, new: AppConfig) -> bool {
        &&& new.encoding.preset@ == config::named_preset(self.preset@)
        &&& new.storage.clip_dir@ == text::trimmed(self.clip_dir@)
        &&& new.storage.record_dir@ == text::trimmed(self.record_dir@)
        &&& new == (AppConfig {
            hotkey_clip: self.hotkey_clip,
            hotkey_record_start: self.hotkey_record_start,
            hotkey_record_stop: self.hotkey_record_stop,
            clip: ClipConfig {
                history_seconds: self.history,
                default_length_seconds: self.clip_len,
            },
            encoding: EncoderConfig {
                codec: self.codec,
                backend: self.backend,
                fps: self.fps,
                crf: self.crf,
                bitrate_kbps: self.bitrate,
                preset: new.encoding.preset,
                ..cfg.encoding
            },
            storage: Storage {
                clip_dir: new.storage.clip_dir,
                record_dir: new.storage.record_dir,
                max_storage_mb: self.max_mb,
                auto_cleanup: self.auto_cleanup,
                ..cfg.storage
            },
            monitor_index: self.monitor,
            input: InputConfig {
                capture_events: self.input_events,
                overlay_enabled: self.input_overlay,
                overlay_position: self.overlay_position,
            },
            ..cfg
        })
    }

    /// The settings with what the draft holds put in its place.
    pub fn apply_settings(&self, cfg: AppConfig) -> (new: AppConfig)
        ensures
            self.is_applied(cfg, new),
    {
        AppConfig {
            ffmpeg_path: cfg.ffmpeg_path,
            config_path: cfg.config_path,
            hotkey_clip: self.hotkey_clip,
            hotkey_record_start: self.hotkey_record_start,
            hotkey_record_stop: self.hotkey_record_stop,
            clip: ClipConfig {
                history_seconds: self.history,
                default_length_seconds: self.clip_len,
            },
            encoding: EncoderConfig {
                codec: self.codec,
                backend: self.backend,
                fps: self.fps,
                bitrate_kbps: self.bitrate,
                crf: self.crf,
                preset: config::sanitize_preset(self.preset.as_str()),
                extra_encoder_args: cfg.encoding.extra_encoder_args,
                pixel_format: cfg.encoding.pixel_format,
            },
            recording: cfg.recording,
            storage: Storage {
                clip_dir: text::trim(self.clip_dir.as_str()),
                record_dir: text::trim(self.record_dir.as_str()),
                segment_dir: cfg.storage.segment_dir,
                max_storage_mb: self.max_mb,
                max_clips: cfg.storage.max_clips,
                auto_cleanup: self.auto_cleanup,
            },
            capture_audio: cfg.capture_audio,
            monitor_index: self.monitor,
            input: InputConfig {
                capture_events: self.input_events,
                overlay_enabled: self.input_overlay,
                overlay_position: self.overlay_position,
            },
        }
    }

    /// Binds a hotkey.
    pub fn bind(&mut self, slot: HotkeySlot, hk: Hotkey)
        ensures
            *final(self) == match slot {
                HotkeySlot::Clip => (SettingsDraft { hotkey_clip: hk, ..*old(self) }),
                HotkeySlot::RecordStart => (SettingsDraft {
                    hotkey_record_start: hk,
                    ..*old(self)
                }),
                HotkeySlot::RecordStop => (SettingsDraft { hotkey_record_stop: hk, ..*old(self) }),
            },
    {
        match slot {
            HotkeySlot::Clip => {
                self.hotkey_clip = hk;
            },
            HotkeySlot::RecordStart => {
                self.hotkey_record_start = hk;
            },
            HotkeySlot::RecordStop => {
                self.hotkey_record_stop = hk;
            },
        }
    }
}

// ---------------------------------------------------------------------------
// Capturing a hotkey
// ---------------------------------------------------------------------------

/// The slot being re-bound after a slot's box was clicked: a second click on
/// the same box ends it.
pub fn clicked_slot(capture: Option<HotkeySlot>, slot: HotkeySlot) -> (r: Option<HotkeySlot>)
    ensures
        r == if capture == Some(slot) {
            None
        } else {
            Some(slot)
        },
{
    match capture {
        Some(current) => if current == slot {
            None
        } else {
            Some(slot)
        },
        None => Some(slot),
    }
}

/// The function key `F1`..`F12` of a given number.
pub open spec fn function_key_name(n: int) -> Seq<char> {
    "F"@ + text::decimal(n as nat)
}

/// The base key that a key on the keyboard, by its name, can be bound as.
/// Letters, digits, `F1`..`F12` and `Space` are supported.
pub open spec fn bindable(name: Seq<char>) -> Option<HotkeyKey> {
    if exists|n: int| 1 <= n <= 12 && name == #[trigger] function_key_name(n) {
        Some(
            HotkeyKey::F(
                (choose|n: int| 1 <= n <= 12 && name == #[trigger] function_key_name(n)) as u8,
            ),
        )
    } else if name.len() == 1 && 'A' <= name[0] <= 'Z' {
        Some(HotkeyKey::Letter(((name[0] as int) + 32) as u8))
    } else if name.len() == 1 && text::is_digit(name[0]) {
        Some(HotkeyKey::Digit(((name[0] as int) - 48) as u8))
    } else if name == "Space"@ {
        Some(HotkeyKey::Space)
    } else {
        None
    }
}

proof fn lemma_function_key_names(m: int, n: int)
    requires
        1 <= m <= 12,
        1 <= n <= 12,
    ensures
        function_key_name(m) == function_key_name(n) ==> m == n,
        function_key_name(n).len() >= 2,
{
    reveal_strlit("F");
    text::decimal_round_trip(m as nat, 0);
    text::decimal_round_trip(n as nat, 0);
    assert(text::padded(m as nat, 0) =~= text::decimal(m as nat));
    assert(text::padded(n as nat, 0) =~= text::decimal(n as nat));
    let a = function_key_name(m);
    let b = function_key_name(n);
    assert(a.skip(1) =~= text::decimal(m as nat));
    assert(b.skip(1) =~= text::decimal(n as nat));
    assert(b.len() == 1 + text::decimal(n as nat).len());
}

/// Map a key's name to a re-bindable base key. `None` for keys that cannot be
/// registered.
pub fn hotkey_key_from_name(name: &str) -> (r: Option<HotkeyKey>)
    ensures
        r == bindable(name@),
{
    let mut n: u8 = 1;
    while n <= 12
        invariant
            1 <= n <= 13,
            forall|m: int| 1 <= m < n ==> name@ != #[trigger] function_key_name(m),
        decreases 13 - n,
    {
        let mut key = "F".to_owned();
        key.append(text::decimal_text(n as u64).as_str());
        if text::same(name, key.as_str()) {
            proof {
                assert(name@ == function_key_name(n as int));
                let c = choose|m: int| 1 <= m <= 12 && name@ == #[trigger] function_key_name(m);
                lemma_function_key_names(c, n as int);
            }
            return Some(HotkeyKey::F(n));
        }
        n += 1;
    }
    let v = text::to_chars(name);
    if v.len() == 1 {
        let c = v[0];
        if 'A' <= c && c <= 'Z' {
            return Some(HotkeyKey::Letter((c as u8) + 32));
        }
        if '0' <= c && c <= '9' {
            return Some(HotkeyKey::Digit((c as u8) - 48));
        }
    }
    if text::same(name, "Space") {
        return Some(HotkeyKey::Space);
    }
    None
}

/// A key event while a hotkey is being captured.
#[derive(Debug, Clone, Copy, PartialEq, Eq, Structural)]
pub struct KeyEvent {
    /// The base key, where the key can be bound.
    pub key: Option<HotkeyKey>,
    /// Whether it is the Escape key.
    pub escape: bool,
    pub pressed: bool,
    pub repeat: bool,
    pub alt: bool,
    pub ctrl: bool,
    pub shift: bool,
}

/// How the capture of a hotkey went on.
#[derive(Debug, Clone, Copy, PartialEq, Eq, Structural)]
pub enum CaptureStep {
    Waiting,
    Cancelled,
    Bound(Hotkey),
}

/// Letters, digits and Space need at least one modifier so a stray tap can't
/// clobber a hotkey; F-keys work without one.
pub open spec fn needs_modifier(key: HotkeyKey) -> bool {
    key is Letter || key is Digit || key is Space
}

/// The modifiers of an event.
pub open spec fn event_mods(e: KeyEvent) -> u8 {
    crate::hotkey::flags(e.alt, e.ctrl, e.shift, false)
}

/// What one event does.
pub open spec fn event_step(e: KeyEvent) -> CaptureStep {
    if !e.pressed || e.repeat {
        CaptureStep::Waiting
    } else if e.escape {
        CaptureStep::Cancelled
    } else {
        match e.key {
            Some(key) => if needs_modifier(key) && !e.alt && !e.ctrl && !e.shift {
                CaptureStep::Waiting
            } else {
                CaptureStep::Bound(Hotkey { mods: event_mods(e), key })
            },
            None => CaptureStep::Waiting,
        }
    }
}

/// What the first event does that ends the capture.
pub open spec fn capture_step(events: Seq<KeyEvent>) -> CaptureStep
    decreases events.len(),
{
    if events.len() == 0 {
        CaptureStep::Waiting
    } else if event_step(events[0]) != CaptureStep::Waiting {
        event_step(events[0])
    } else {
        capture_step(events.drop_first())
    }
}

fn step(e: KeyEvent) -> (r: CaptureStep)
    ensures
        r == event_step(e),
{
    if !e.pressed || e.repeat {
        return CaptureStep::Waiting;
    }
    if e.escape {
        return CaptureStep::Cancelled;
    }
    match e.key {
        Some(key) => {
            let a: u8 = if e.alt {
                MOD_ALT
            } else {
                0
            };
            let c: u8 = if e.ctrl {
                MOD_CTRL
            } else {
                0
            };
            let s: u8 = if e.shift {
                MOD_SHIFT
            } else {
                0
            };
            let needs = matches!(
                key,
                HotkeyKey::Letter(_) | HotkeyKey::Digit(_) | HotkeyKey::Space
            );
            if needs && !e.alt && !e.ctrl && !e.shift {
                return CaptureStep::Waiting;
            }
            CaptureStep::Bound(Hotkey::new(a + c + s, key))
        },
        None => CaptureStep::Waiting,
    }
}

/// Watch for the next non-modifier key press (with its modifier state).
pub fn poll_hotkey_capture(events: &Vec<KeyEvent>) -> (r: CaptureStep)
    ensures
        r == capture_step(events@),
{
    let mut i: usize = 0;
    assert(events@.skip(0) =~= events@);
    while i < events.len()
        invariant
            i <= events@.len(),
            capture_step(events@) == capture_step(events@.skip(i as int)),
        decreases events@.len() - i,
    {
        let r = step(events[i]);
        assert(events@.skip(i as int)[0] == events@[i as int]);
        assert(events@.skip(i as int).drop_first() =~= events@.skip(i + 1));
        match r {
            CaptureStep::Waiting => {},
            _ => {
                return r;
            },
        }
        i += 1;
    }
    CaptureStep::Waiting
}

// ---------------------------------------------------------------------------
// Laws
// ---------------------------------------------------------------------------

/// A hotkey that was captured is not a bare letter, digit or Space, and the
/// settings file can hold it if its key is one that can be held.
pub proof fn captured_hotkey_is_safe(events: Seq<KeyEvent>, h: Hotkey)
    requires
        capture_step(events) == CaptureStep::Bound(h),
    ensures
        needs_modifier(h.key) ==> h.mods != 0,
        h.key.valid() ==> h.valid(),
    decreases events.len(),
{
    if event_step(events[0]) == CaptureStep::Waiting {
        captured_hotkey_is_safe(events.drop_first(), h);
    }
}

/// A key found by its name is a valid base key.
pub proof fn bindable_key_is_valid(name: Seq<char>)
    ensures
        bindable(name) is Some ==> bindable(name)->0.valid(),
{
}

/// A draft that was not edited, applied to the settings that it shows, leaves
/// them as they were, but for a preset that has no name and white space around
/// directories.
pub proof fn unedited_draft_changes_nothing(d: SettingsDraft, cfg: AppConfig, new: AppConfig)
    requires
        d.shows(cfg),
        d.is_applied(cfg, new),
    ensures
        new.encoding.preset@ == config::named_preset(cfg.encoding.preset@),
        new.storage.clip_dir@ == text::trimmed(cfg.storage.clip_dir@),
        new.storage.record_dir@ == text::trimmed(cfg.storage.record_dir@),
        new == (AppConfig {
            encoding: EncoderConfig { preset: new.encoding.preset, ..cfg.encoding },
            storage: Storage {
                clip_dir: new.storage.clip_dir,
                record_dir: new.storage.record_dir,
                ..cfg.storage
            },
            ..cfg
        }),
{
    config::sanitized_preset_is_named(cfg.encoding.preset@);
}

/// A draft shows the settings that are there, each of them.
pub proof fn drafts_show_what_is_set(d: SettingsDraft, cfg: AppConfig)
    requires
        d.shows(cfg),
    ensures
        d.codec == cfg.encoding.codec,
        d.backend == cfg.encoding.backend,
        d.fps == cfg.encoding.fps,
        d.crf == cfg.encoding.crf,
        d.bitrate == cfg.encoding.bitrate_kbps,
        offered_presets().contains(cfg.encoding.preset@) ==> d.preset@ == cfg.encoding.preset@,
        offered_presets().contains(d.preset@),
        d.history == cfg.clip.history_seconds,
        d.clip_len == cfg.clip.default_length_seconds,
        d.monitor == cfg.monitor_index,
        d.hotkey_clip == cfg.hotkey_clip,
        d.hotkey_record_start == cfg.hotkey_record_start,
        d.hotkey_record_stop == cfg.hotkey_record_stop,
        d.clip_dir@ == cfg.storage.clip_dir@,
        d.record_dir@ == cfg.storage.record_dir@,
        d.max_mb == cfg.storage.max_storage_mb,
        d.auto_cleanup == cfg.storage.auto_cleanup,
        d.input_events == cfg.input.capture_events,
        d.input_overlay == cfg.input.overlay_enabled,
        d.overlay_position == cfg.input.overlay_position,
{
    config::sanitized_preset_is_named(cfg.encoding.preset@);
    offered_presets_are_the_named_ones(cfg.encoding.preset@);
    offered_presets_are_the_named_ones(d.preset@);
}

/// What was edited takes effect, each value in its own place, and what cannot be
/// edited stays as it was.
pub proof fn edits_take_effect(d: SettingsDraft, cfg: AppConfig, new: AppConfig)
    requires
        d.is_applied(cfg, new),
    ensures
        new.encoding.codec == d.codec,
        new.encoding.backend == d.backend,
        new.encoding.fps == d.fps,
        new.encoding.crf == d.crf,
        new.encoding.bitrate_kbps == d.bitrate,
        offered_presets().contains(d.preset@) ==> new.encoding.preset@ == d.preset@,
        new.clip.history_seconds == d.history,
        new.clip.default_length_seconds == d.clip_len,
        new.monitor_index == d.monitor,
        new.hotkey_clip == d.hotkey_clip,
        new.hotkey_record_start == d.hotkey_record_start,
        new.hotkey_record_stop == d.hotkey_record_stop,
        text::trimmed(d.clip_dir@) == new.storage.clip_dir@,
        text::trimmed(d.record_dir@) == new.storage.record_dir@,
        new.storage.max_storage_mb == d.max_mb,
        new.storage.auto_cleanup == d.auto_cleanup,
        new.input.capture_events == d.input_events,
        new.input.overlay_enabled == d.input_overlay,
        new.input.overlay_position == d.overlay_position,
        new.encoding.extra_encoder_args == cfg.encoding.extra_encoder_args,
        new.encoding.pixel_format == cfg.encoding.pixel_format,
        new.storage.segment_dir == cfg.storage.segment_dir,
        new.storage.max_clips == cfg.storage.max_clips,
        new.ffmpeg_path == cfg.ffmpeg_path,
        new.config_path == cfg.config_path,
        new.recording == cfg.recording,
        new.capture_audio == cfg.capture_audio,
{
    config::sanitized_preset_is_named(d.preset@);
    offered_presets_are_the_named_ones(d.preset@);
}

/// A lower number is a better quality: 14 and below is the best, then up to 18,
/// then up to 24.
pub proof fn tiers_go_by_quality(crf: u32)
    ensures
        tier_name(crf) == "Ultra"@ <==> crf <= 14,
        tier_name(crf) == "High"@ <==> 14 < crf <= 18,
        tier_name(crf) == "Medium"@ <==> 18 < crf <= 24,
        tier_name(crf) == "Low"@ <==> 24 < crf,
{
    reveal_strlit("Ultra");
    reveal_strlit("High");
    reveal_strlit("Medium");
    reveal_strlit("Low");
    assert("Ultra"@[0] == 'U' && "High"@[0] == 'H' && "Medium"@[0] == 'M' && "Low"@[0] == 'L');
}

/// A monitor's label counts from one, and names its width and height where the
/// monitor is known.
pub proof fn labels_count_from_one(mons: Seq<MonitorGui>, i: int)
    requires
        0 <= i,
    ensures
        ({
            let label = label_of(mons, i);
            let digits = text::decimal((i + 1) as nat);
            let size = label.skip(8 + digits.len() as int + 3);
            &&& text::digits_value(digits) == i + 1
            &&& label.take(8) == seq!['D', 'i', 's', 'p', 'l', 'a', 'y', ' ']
            &&& label.subrange(8, 8 + digits.len() as int) == digits
            &&& i >= mons.len() ==> label.len() == 8 + digits.len()
            &&& i < mons.len() ==> {
                &&& text::split(size, 'x').len() == 2
                &&& text::number(text::split(size, 'x')[0]) == Some(mons[i].width as nat)
                &&& text::number(text::split(size, 'x')[1]) == Some(mons[i].height as nat)
            }
        }),
{
    reveal_strlit("Display ");
    reveal_strlit(" — ");
    reveal_strlit("x");
    let label = label_of(mons, i);
    let digits = text::decimal((i + 1) as nat);
    text::decimal_round_trip((i + 1) as nat, 0);
    assert(label.take(8) =~= seq!['D', 'i', 's', 'p', 'l', 'a', 'y', ' ']);
    assert(label.subrange(8, 8 + digits.len() as int) =~= digits);
    if i < mons.len() {
        assert(label.skip(8 + digits.len() as int + 3) =~= crate::encoder::size_arg(
            mons[i].width,
            mons[i].height,
        ));
        crate::encoder::lemma_size_reads_back(mons[i].width, mons[i].height);
    }
}

/// A message is shown for four seconds: fully for three, then fading evenly. It
/// never gets more solid again.
pub proof fn messages_fade_evenly(age_ms: u64, later_ms: u64)
    requires
        age_ms <= later_ms,
    ensures
        message_alpha(age_ms) is Some <==> age_ms <= 4000,
        age_ms <= 3000 ==> message_alpha(age_ms) == Some(255u8),
        3000 < age_ms <= 4000 ==> message_alpha(age_ms)->0 * 1000 <= 255 * (4000 - age_ms) < (
        message_alpha(age_ms)->0 + 1) * 1000,
        message_alpha(later_ms) is Some ==> message_alpha(age_ms) is Some
            && message_alpha(later_ms)->0 <= message_alpha(age_ms)->0,
{
}

/// What is shown of an output is its file name, else its path, and a dash only
/// where there is none.
pub proof fn last_output_is_named(path: Seq<char>, name: Option<Seq<char>>)
    ensures
        path.len() > 0 && name is Some ==> last_text(path, name) == name->0,
        path.len() > 0 && name is None ==> last_text(path, name) == path,
        path.len() == 0 ==> last_text(path, name).len() == 1 && last_text(path, name)[0]
            == '\u{2014}',
{
    reveal_strlit("—");
}

/// A key is bound by the name that it is shown under, and every key that is can
/// be told by its name.
pub proof fn keys_are_bound_by_their_names(key: HotkeyKey, name: Seq<char>)
    ensures
        bindable(name) is Some ==> bindable(name)->0.display_text() == name,
        key.valid() && !(key is PrintScreen) ==> bindable(key.display_text()) == Some(key),
        !(bindable(name) == Some(HotkeyKey::PrintScreen)),
{
    reveal_strlit("F");
    reveal_strlit("Space");
    if exists|n: int| 1 <= n <= 12 && name == #[trigger] function_key_name(n) {
        let n = choose|n: int| 1 <= n <= 12 && name == #[trigger] function_key_name(n);
        assert(name =~= seq!['F'] + text::decimal(n as nat));
    } else if bindable(name) is Some {
        assert(bindable(name)->0.display_text() =~= name);
    }
    if key.valid() {
        let shown = key.display_text();
        match key {
            HotkeyKey::F(n) => {
                assert(shown =~= function_key_name(n as int));
                let c = choose|m: int| 1 <= m <= 12 && shown == #[trigger] function_key_name(m);
                lemma_function_key_names(c, n as int);
            },
            HotkeyKey::Letter(_) | HotkeyKey::Digit(_) => {
                assert(shown.len() == 1);
                assert forall|m: int| 1 <= m <= 12 implies shown != #[trigger] function_key_name(
                    m,
                ) by {
                    lemma_function_key_names(m, m);
                }
            },
            HotkeyKey::Space => {
                assert forall|m: int| 1 <= m <= 12 implies shown != #[trigger] function_key_name(
                    m,
                ) by {
                    assert(function_key_name(m)[0] == 'F');
                    assert(shown[0] == 'S');
                }
            },
            HotkeyKey::PrintScreen => {},
        }
    }
}

/// A capture ends with the first event that ends it. A key that is pressed anew
/// is bound with just the modifiers held; a letter, a digit or Space needs one.
/// Escape ends the capture without binding anything.
pub proof fn capture_binds_what_was_pressed(events: Seq<KeyEvent>)
    ensures
        ({
            let ends = |e: KeyEvent|
                e.pressed && !e.repeat && (e.escape || e.key is Some && (e.alt || e.ctrl || e.shift
                    || e.key->0 is F || e.key->0 is PrintScreen));
            match capture_step(events) {
                CaptureStep::Waiting => forall|i: int|
                    0 <= i < events.len() ==> !ends(#[trigger] events[i]),
                CaptureStep::Cancelled => exists|i: int|
                    {
                        &&& 0 <= i < events.len()
                        &&& ends(#[trigger] events[i]) && events[i].escape
                        &&& forall|j: int| 0 <= j < i ==> !ends(#[trigger] events[j])
                    },
                CaptureStep::Bound(h) => exists|i: int|
                    {
                        &&& 0 <= i < events.len()
                        &&& ends(#[trigger] events[i]) && !events[i].escape
                        &&& events[i].key == Some(h.key)
                        &&& h.mods == (if events[i].alt {
                            1int
                        } else {
                            0
                        }) + (if events[i].ctrl {
                            2int
                        } else {
                            0
                        }) + (if events[i].shift {
                            4int
                        } else {
                            0
                        })
                        &&& forall|j: int| 0 <= j < i ==> !ends(#[trigger] events[j])
                    },
            }
        }),
    decreases events.len(),
{
    let ends = |e: KeyEvent|
        e.pressed && !e.repeat && (e.escape || e.key is Some && (e.alt || e.ctrl || e.shift
            || e.key->0 is F || e.key->0 is PrintScreen));
    if events.len() > 0 {
        assert(ends(events[0]) <==> event_step(events[0]) != CaptureStep::Waiting);
        if event_step(events[0]) == CaptureStep::Waiting {
            let rest = events.drop_first();
            capture_binds_what_was_pressed(rest);
            assert forall|j: int| 0 < j < events.len() implies #[trigger] events[j] == rest[j - 1] by {}
            match capture_step(events) {
                CaptureStep::Waiting => {
                    assert forall|i: int| 0 <= i < events.len() implies !ends(
                        #[trigger] events[i],
                    ) by {
                        if i > 0 {
                            assert(!ends(rest[i - 1]));
                        }
                    }
                },
                _ => {
                    let i = choose|i: int|
                        {
                            &&& 0 <= i < rest.len()
                            &&& ends(#[trigger] rest[i])
                            &&& forall|j: int| 0 <= j < i ==> !ends(#[trigger] rest[j])
                        };
                    let at = i + 1;
                    assert(events[at] == rest[i]);
                    assert forall|j: int| 0 <= j < at implies !ends(#[trigger] events[j]) by {
                        if j > 0 {
                            assert(!ends(rest[j - 1]));
                        }
                    }
                },
            }
        } else {
            assert(ends(events[0]));
        }
    }
}

/// Of two clips in the list, the first has the greater character where their
/// names first differ, or the longer name: what was saved later has the later time
/// in its name.
pub proof fn later_clips_are_listed_first(clips: Seq<ClipInfo>, i: int, j: int, k: int)
    requires
        newest_first(clips),
        0 <= i < j < clips.len(),
        0 <= k <= clips[i].name@.len(),
        k <= clips[j].name@.len(),
        clips[i].name@.take(k) == clips[j].name@.take(k),
    ensures
        k < clips[i].name@.len() && k < clips[j].name@.len() ==> clips[i].name@[k]
            >= clips[j].name@[k],
        k == clips[i].name@.len() ==> k == clips[j].name@.len(),
{
    text::first_difference_decides(clips[i].name@, clips[j].name@);
}

} // verus!
