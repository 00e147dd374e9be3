use rsclipping::codec::{Codec, EncoderBackend};
use rsclipping::config::{
    choose_base, config_dir_in, config_path_in, sanitize_preset, AppConfig, ClipConfig,
    EncoderConfig, InputConfig, OverlayPosition, OverrideError, Overrides, RecordingConfig, Storage,
};
use rsclipping::dashboard::{
    backend_label, clicked_slot, codec_label, fmt_last, hotkey_key_from_name, monitor_after,
    monitor_before, monitor_label, monitor_shown, poll_hotkey_capture, preset_options,
    quality_options, quality_tier, show_last, sort_clips, toast_alpha, CaptureStep, HotkeySlot,
    KeyEvent, MonitorGui, SettingsDraft,
};
use rsclipping::daemon::ClipInfo;
use rsclipping::hotkey::{Hotkey, HotkeyKey, MOD_ALT, MOD_CTRL, MOD_SHIFT};

fn defaults() -> AppConfig {
    AppConfig::default_with(Storage::default_in("/home/u", "/tmp"))
}

fn no_overrides() -> Overrides {
    Overrides {
        ffmpeg: None,
        codec: None,
        backend: None,
        fps: None,
        crf: None,
        bitrate: None,
        preset: None,
        history: None,
        clip_length: None,
        clip_dir: None,
        record_dir: None,
    }
}

#[test]
fn default_settings() {
    let c = defaults();
    assert_eq!(c.hotkey_names(), ("f8".to_string(), "f9".to_string(), "f10".to_string()));
    assert_eq!(c.clip, ClipConfig { history_seconds: 30, default_length_seconds: 15 });
    assert_eq!(c.encoding.codec, Codec::H264);
    assert_eq!(c.encoding.fps, 60);
    assert_eq!(c.encoding.crf, 20);
    assert_eq!(c.encoding.preset, "veryfast");
    assert_eq!(c.encoding.pixel_format, "yuv420p");
    assert!(c.encoding.extra_encoder_args.is_empty());
    assert_eq!(c.encoding.backend_as_str(), "auto");
    assert_eq!(c.recording, RecordingConfig { segment_seconds: 0, same_encoding_as_clip: true });
    assert_eq!(c.storage.max_storage_mb, 4096);
    assert_eq!(c.storage.max_clips, 500);
    assert!(c.storage.auto_cleanup);
    assert!(!c.capture_audio);
    assert_eq!(c.input, InputConfig::default());
    assert_eq!(OverlayPosition::default(), OverlayPosition::BottomLeft);
}

#[test]
fn default_directories() {
    let s = Storage::default_in("/home/u", "/tmp/");
    assert_eq!(s.clip_dir, "/home/u/RSClipping");
    assert_eq!(s.record_dir, "/home/u/RSClippingRecordings");
    assert_eq!(s.segment_dir, "/tmp/rsclipping_segments");
    let d = Storage::default_for_user(Some("/home/u/Desktop".to_string()), "/tmp");
    assert_eq!(d.clip_dir, "/home/u/Desktop/RSClipping");
    let u = Storage::default_for_user(None, "/tmp");
    assert!(u.clip_dir.ends_with("RSClipping"));
    assert!(u.record_dir.ends_with("RSClippingRecordings"));
    assert!(u.clip_dir.len() > "RSClipping".len());
    assert_eq!(u.segment_dir, "/tmp/rsclipping_segments");
}

#[test]
fn config_file_place() {
    assert_eq!(choose_base(Some("/a".into()), Some("/b".into())), "/a");
    assert_eq!(choose_base(None, Some("/b".into())), "/b");
    assert_eq!(choose_base(None, None), ".");
    let dir = config_dir_in(None, Some("/home/u".into()));
    assert_eq!(dir, "/home/u/rsclipping");
    assert_eq!(config_path_in(&dir), "/home/u/rsclipping/config.json");
    assert!(AppConfig::default_config_dir().ends_with("rsclipping"));
    let path = AppConfig::default_config_path();
    assert!(path.ends_with("rsclipping/config.json"));
}

#[test]
fn presets_for_cpu_encoders() {
    for p in preset_options() {
        assert_eq!(sanitize_preset(p), p);
    }
    assert_eq!(preset_options().len(), 10);
    assert_eq!(sanitize_preset("p1"), "slow");
    assert_eq!(sanitize_preset("p2"), "slow");
    assert_eq!(sanitize_preset("p3"), "medium");
    assert_eq!(sanitize_preset("p4"), "medium");
    assert_eq!(sanitize_preset("p5"), "fast");
    assert_eq!(sanitize_preset("p6"), "fast");
    assert_eq!(sanitize_preset("p7"), "veryfast");
    assert_eq!(sanitize_preset("whatever"), "medium");
    assert_eq!(sanitize_preset(&sanitize_preset("p7")), "veryfast");
}

#[test]
fn overrides_take_their_place() {
    let mut o = no_overrides();
    o.ffmpeg = Some("/bin/ffmpeg".into());
    o.codec = Some("HEVC".into());
    o.backend = Some("CPU".into());
    o.fps = Some(30);
    o.crf = Some(18);
    o.bitrate = Some(900);
    o.preset = Some("p2".into());
    o.history = Some(99);
    o.clip_length = Some(7);
    o.clip_dir = Some("/c".into());
    o.record_dir = Some("/r".into());
    let c = o.apply(defaults()).ok().unwrap();
    assert_eq!(c.ffmpeg_path, "/bin/ffmpeg");
    assert_eq!(c.encoding.codec, Codec::H265);
    assert_eq!(c.encoding.backend, EncoderBackend::Cpu);
    assert_eq!(c.encoding.fps, 30);
    assert_eq!(c.encoding.crf, 18);
    assert_eq!(c.encoding.bitrate_kbps, 900);
    assert_eq!(c.encoding.preset, "p2");
    assert_eq!(c.clip, ClipConfig { history_seconds: 99, default_length_seconds: 7 });
    assert_eq!(c.storage.clip_dir, "/c");
    assert_eq!(c.storage.record_dir, "/r");
    assert_eq!(c.storage.segment_dir, "/tmp/rsclipping_segments");
    assert_eq!(c.hotkey_clip, Hotkey::new(0, HotkeyKey::F(8)));
}

#[test]
fn overrides_that_name_nothing() {
    let mut o = no_overrides();
    o.codec = Some("divx".into());
    o.backend = Some("tpu".into());
    match o.apply(defaults()) {
        Err(OverrideError::UnknownCodec(c)) => assert_eq!(c, "divx"),
        _ => panic!("the codec is looked at first"),
    }
    let mut o = no_overrides();
    o.backend = Some("tpu".into());
    match o.apply(defaults()) {
        Err(OverrideError::UnknownBackend(b)) => assert_eq!(b, "tpu"),
        _ => panic!("no such backend"),
    }
    let c = no_overrides().apply(defaults()).ok().unwrap();
    assert_eq!(c.encoding.preset, "veryfast");
}

#[test]
fn labels() {
    assert_eq!(OverlayPosition::all().len(), 4);
    assert_eq!(OverlayPosition::TopRight.label(), "Top-right");
    assert_eq!(OverlayPosition::BottomLeft.label(), "Bottom-left");
    assert_eq!(codec_label(Codec::H265), "H.265 / HEVC");
    assert_eq!(backend_label(EncoderBackend::Auto), "Auto (GPU if available)");
    assert_eq!(quality_tier(14), "Ultra");
    assert_eq!(quality_tier(15), "High");
    assert_eq!(quality_tier(19), "Medium");
    assert_eq!(quality_tier(25), "Low");
    assert_eq!(
        quality_options(),
        vec![("Ultra", 14), ("High", 18), ("Medium", 23), ("Low", 28)]
    );
    let mons = vec![MonitorGui { width: 1920, height: 1080 }];
    assert_eq!(monitor_label(&mons, 0), "Display 1 \u{2014} 1920x1080");
    assert_eq!(monitor_label(&mons, 1), "Display 2");
}

#[test]
fn last_output() {
    assert_eq!(fmt_last(""), "\u{2014}");
    assert_eq!(fmt_last("/home/u/clips/clip_1.mp4"), "clip_1.mp4");
    assert_eq!(fmt_last("clip_1.mp4"), "clip_1.mp4");
    assert_eq!(fmt_last("/"), "/");
    assert_eq!(fmt_last("/home/u/clips/"), "clips");
    assert_eq!(fmt_last("/a/.."), "/a/..");
    assert_eq!(show_last("/a/..", None), "/a/..");
    assert_eq!(show_last("/a/b", Some("b".into())), "b");
}

#[test]
fn clips_newest_first() {
    let clip = |n: &str| ClipInfo { name: n.to_string(), size: 1, path: format!("/c/{n}") };
    let list = vec![
        clip("clip_2025-01-01_12-00-00.mp4"),
        clip("clip_2025-03-01_12-00-00.mp4"),
        clip("clip_2024-12-31_23-59-59.mp4"),
        clip("clip_2025-03-01_12-00-00_1.mp4"),
    ];
    let names: Vec<String> = sort_clips(&list).into_iter().map(|c| c.name).collect();
    let mut want: Vec<String> = list.iter().map(|c| c.name.clone()).collect();
    want.sort_by(|a, b| b.cmp(a));
    assert_eq!(names, want);
}

#[test]
fn choosing_a_monitor() {
    assert_eq!(monitor_before(0), 0);
    assert_eq!(monitor_before(3), 2);
    assert_eq!(monitor_after(0, 2), 1);
    assert_eq!(monitor_after(1, 2), 1);
    assert_eq!(monitor_after(0, 0), 0);
    assert_eq!(monitor_shown(5, 2), 1);
    assert_eq!(monitor_shown(1, 2), 1);
}

#[test]
fn drafts_show_and_apply() {
    let mut cfg = defaults();
    cfg.encoding.preset = "p7".into();
    cfg.storage.clip_dir = " /c ".into();
    let draft = SettingsDraft::from_config(&cfg);
    assert_eq!(draft.preset, "veryfast");
    let new = draft.apply_settings(defaults());
    assert_eq!(new.encoding.preset, "veryfast");
    assert_eq!(new.storage.clip_dir, "/c");
    assert_eq!(new.storage.record_dir, "/home/u/RSClippingRecordings");
    assert_eq!(new.storage.max_clips, 500);

    let mut draft = SettingsDraft::from_config(&defaults());
    draft.fps = 30;
    draft.monitor = 1;
    draft.bind(HotkeySlot::RecordStop, Hotkey::new(MOD_ALT, HotkeyKey::F(1)));
    let new = draft.apply_settings(defaults());
    assert_eq!(new.encoding.fps, 30);
    assert_eq!(new.monitor_index, 1);
    assert_eq!(new.hotkey_record_stop, Hotkey::new(MOD_ALT, HotkeyKey::F(1)));
    assert_eq!(new.hotkey_clip, Hotkey::new(0, HotkeyKey::F(8)));
}

fn event(key: Option<HotkeyKey>) -> KeyEvent {
    KeyEvent {
        key,
        escape: false,
        pressed: true,
        repeat: false,
        alt: false,
        ctrl: false,
        shift: false,
    }
}

#[test]
fn capturing_a_hotkey() {
    let bare = event(Some(HotkeyKey::Letter(b'a')));
    assert_eq!(poll_hotkey_capture(&vec![bare]), CaptureStep::Waiting);
    let mut held = bare;
    held.ctrl = true;
    held.shift = true;
    assert_eq!(
        poll_hotkey_capture(&vec![bare, held]),
        CaptureStep::Bound(Hotkey::new(MOD_CTRL | MOD_SHIFT, HotkeyKey::Letter(b'a')))
    );
    let f = event(Some(HotkeyKey::F(5)));
    assert_eq!(
        poll_hotkey_capture(&vec![event(None), f]),
        CaptureStep::Bound(Hotkey::new(0, HotkeyKey::F(5)))
    );
    let mut up = f;
    up.pressed = false;
    let mut again = f;
    again.repeat = true;
    assert_eq!(poll_hotkey_capture(&vec![up, again]), CaptureStep::Waiting);
    let mut esc = event(None);
    esc.escape = true;
    assert_eq!(poll_hotkey_capture(&vec![esc, f]), CaptureStep::Cancelled);
    assert_eq!(clicked_slot(None, HotkeySlot::Clip), Some(HotkeySlot::Clip));
    assert_eq!(clicked_slot(Some(HotkeySlot::Clip), HotkeySlot::Clip), None);
    assert_eq!(
        clicked_slot(Some(HotkeySlot::Clip), HotkeySlot::RecordStop),
        Some(HotkeySlot::RecordStop)
    );
}

#[test]
fn keys_by_name() {
    assert_eq!(hotkey_key_from_name("F1"), Some(HotkeyKey::F(1)));
    assert_eq!(hotkey_key_from_name("F12"), Some(HotkeyKey::F(12)));
    assert_eq!(hotkey_key_from_name("F13"), None);
    assert_eq!(hotkey_key_from_name("F"), Some(HotkeyKey::Letter(b'f')));
    assert_eq!(hotkey_key_from_name("Z"), Some(HotkeyKey::Letter(b'z')));
    assert_eq!(hotkey_key_from_name("z"), None);
    assert_eq!(hotkey_key_from_name("0"), Some(HotkeyKey::Digit(0)));
    assert_eq!(hotkey_key_from_name("9"), Some(HotkeyKey::Digit(9)));
    assert_eq!(hotkey_key_from_name("Space"), Some(HotkeyKey::Space));
    assert_eq!(hotkey_key_from_name("Escape"), None);
}

#[test]
fn default_encoder_settings() {
    let e = EncoderConfig::default();
    assert_eq!(e.bitrate_kbps, 0);
    assert_eq!(e.backend, EncoderBackend::Auto);
}

#[test]
fn messages_fade() {
    assert_eq!(toast_alpha(0), Some(255));
    assert_eq!(toast_alpha(3000), Some(255));
    assert_eq!(toast_alpha(3500), Some(127));
    assert_eq!(toast_alpha(4000), Some(0));
    assert_eq!(toast_alpha(4001), None);
}
