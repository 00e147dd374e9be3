use rsclipping::codec::{Codec, EncoderBackend};
use rsclipping::config;
use rsclipping::hotkey::{Hotkey, HotkeyKey, MOD_ALT, MOD_CTRL, MOD_SHIFT, MOD_WIN};
use rsclipping::text;

#[test]
fn codec_names_are_found_again() {
    for c in Codec::all() {
        assert_eq!(Codec::from_name(c.as_str()), Some(*c));
    }
    assert_eq!(Codec::all().len(), 4);
}

#[test]
fn codec_aliases() {
    assert_eq!(Codec::from_name("H.264"), Some(Codec::H264));
    assert_eq!(Codec::from_name("AVC"), Some(Codec::H264));
    assert_eq!(Codec::from_name("x-264"), Some(Codec::H264));
    assert_eq!(Codec::from_name("HEVC"), Some(Codec::H265));
    assert_eq!(Codec::from_name("VP9"), Some(Codec::VP9));
    assert_eq!(Codec::from_name("aom"), Some(Codec::AV1));
    assert_eq!(Codec::from_name("mpeg2"), None);
    assert_eq!(Codec::from_name("\u{130}264"), None);
    assert_eq!(Codec::from_name(""), None);
}

#[test]
fn codec_marks_do_not_count() {
    let names = [
        "H.264", "h-2-6-4", "HEVC", "X.265", "V-P-9", "AoM", "mpeg-2", ".", "\u{130}.264",
        "\u{212a}-264", "A\u{3a3}.", "H\u{c9}VC",
    ];
    for s in names {
        let plain = s.to_lowercase().replace(['.', '-'], "");
        assert_eq!(Codec::from_name(s), Codec::from_name(&plain));
    }
}

#[test]
fn lowercase_text_stays_as_it_is() {
    for code in 0..=0x10FFFFu32 {
        let Some(c) = char::from_u32(code) else { continue };
        for d in c.to_string().to_lowercase().chars() {
            assert_eq!(d.to_string().to_lowercase(), d.to_string());
        }
    }
}

#[test]
fn codec_encoders_and_containers() {
    assert_eq!(Codec::H264.ffmpeg_cpu(), "libx264");
    assert_eq!(Codec::H265.ffmpeg_cpu(), "libx265");
    assert_eq!(Codec::VP9.ffmpeg_cpu(), "libvpx-vp9");
    assert_eq!(Codec::AV1.ffmpeg_cpu(), "libaom-av1");
    assert_eq!(Codec::H264.ffmpeg_gpu(), Some("h264_nvenc"));
    assert_eq!(Codec::VP9.ffmpeg_gpu(), None);
    assert_eq!(Codec::AV1.ffmpeg_gpu_fallback(), "av1_qsv");
    assert_eq!(Codec::H265.extension(), "mp4");
    assert_eq!(Codec::VP9.extension(), "webm");
    assert_eq!(Codec::AV1.extension(), "mkv");
    assert!(!Codec::VP9.is_gpu_encodable());
    assert!(Codec::AV1.is_gpu_encodable());
    assert_eq!(Codec::default(), Codec::H264);
    assert_eq!(EncoderBackend::default(), EncoderBackend::Auto);
}

#[test]
fn hotkey_text_is_read_back() {
    let keys = [
        HotkeyKey::F(1),
        HotkeyKey::F(12),
        HotkeyKey::PrintScreen,
        HotkeyKey::Letter(b'q'),
        HotkeyKey::Digit(7),
        HotkeyKey::Space,
    ];
    for mods in 0..16u8 {
        for key in keys {
            let h = Hotkey::new(mods, key);
            assert_eq!(Hotkey::from_str(&h.as_str()), Some(h));
            assert_eq!(Hotkey::from_str(&h.display()), Some(h));
        }
    }
}

#[test]
fn hotkey_forms() {
    let h = Hotkey::new(MOD_ALT | MOD_WIN, HotkeyKey::F(11));
    assert_eq!(h.as_str(), "alt+win+f11");
    assert_eq!(h.display(), "Alt+Win+F11");
    assert_eq!(h.vk_code(), 0x7A);
    assert_eq!(h.mods_code(), 9);
    assert_eq!(
        Hotkey::from_str("Control + Print-Screen"),
        Some(Hotkey::new(MOD_CTRL, HotkeyKey::PrintScreen))
    );
    assert_eq!(
        Hotkey::from_str("SUPER+shift+A"),
        Some(Hotkey::new(MOD_WIN | MOD_SHIFT, HotkeyKey::Letter(b'a')))
    );
    assert_eq!(Hotkey::from_str("f13"), None);
    assert_eq!(Hotkey::from_str("alt+"), None);
    assert_eq!(Hotkey::from_str("f1+f2"), None);
    assert_eq!(Hotkey::from_str("f+ctrl"), Some(Hotkey::new(MOD_CTRL, HotkeyKey::Letter(b'f'))));
    assert_eq!(Hotkey::new(0, HotkeyKey::Letter(b'z')).display(), "Z");
    assert_eq!(Hotkey::new(0, HotkeyKey::Digit(4)).vk_code(), 0x34);
    assert_eq!(Hotkey::new(0, HotkeyKey::Letter(b'c')).vk_code(), 0x43);
    assert_eq!(Hotkey::new(0, HotkeyKey::PrintScreen).vk_code(), 0x2C);
    assert_eq!(Hotkey::new(0, HotkeyKey::Space).vk_code(), 0x20);
}

#[test]
fn decimals() {
    assert_eq!(text::decimal_text(0), "0");
    assert_eq!(text::decimal_text(u64::MAX), "18446744073709551615");
    assert_eq!(text::padded_text(42, 5), "00042");
    assert_eq!(text::padded_text(123456, 5), "123456");
    assert_eq!(text::parse_u64("00042"), Some(42));
    assert_eq!(text::parse_u64("+7"), Some(7));
    assert_eq!(text::parse_u64("-7"), None);
    assert_eq!(text::parse_u64(""), None);
    assert_eq!(text::parse_u64("+"), None);
    assert_eq!(text::parse_u64("18446744073709551615"), Some(u64::MAX));
    assert_eq!(text::parse_u64("18446744073709551616"), None);
    for n in [0u64, 9, 10, 99, 100, 54321, u64::MAX] {
        assert_eq!(text::parse_u64(&text::padded_text(n, 8)), Some(n));
    }
}

#[test]
fn trimming_matches_std() {
    for s in ["", "  ", " a b ", "\t\nx\r\n", "\u{3000}y\u{a0}", "none", "\u{200b}z "] {
        assert_eq!(text::trim(s), s.trim());
        let once = text::trim(s);
        assert_eq!(text::trim(&once), once);
    }
}

#[test]
fn text_order_matches_std() {
    let all = ["", "a", "ab", "b", "B", "\u{e9}", "\u{1f600}", "\u{ff21}", "aa"];
    for a in all {
        for b in all {
            assert_eq!(text::less(a, b), a < b);
        }
    }
}

#[test]
fn matching_text() {
    assert!(text::starts_with("h264_nvenc", "h264"));
    assert!(!text::starts_with("h2", "h264"));
    assert!(text::ends_with("h264_amf", "_amf"));
    assert!(text::contains("av1_nvenc", "v1_n"));
    assert!(text::contains("x", ""));
    assert!(!text::contains("abc", "cb"));
    assert_eq!(text::split_text("a+b++", '+'), vec!["a", "b", "", ""]);
    assert_eq!(text::replace_char("a\\b\\", '\\', '/'), "a/b/");
    assert_eq!(text::remove_chars("h.2-6.4", ".-"), "h264");
    assert_eq!(text::strip("seg_7.mkv", "seg_", ".mkv"), Some("7".to_string()));
    assert_eq!(text::strip("seg.mkv", "seg_", ".mkv"), None);
}

#[test]
fn backends_and_actions_by_name() {
    assert_eq!(config::backend_from_name("AUTO"), Some(EncoderBackend::Auto));
    assert_eq!(config::backend_from_name("cpu"), Some(EncoderBackend::Cpu));
    assert_eq!(config::backend_from_name("Gpu"), Some(EncoderBackend::Gpu));
    assert_eq!(config::backend_from_name("cuda"), None);
    assert_eq!(config::action_from_name("Clip"), Some(config::Action::Clip));
    assert_eq!(config::action_from_name("record"), Some(config::Action::RecordStart));
    assert_eq!(config::action_from_name("STOP"), Some(config::Action::RecordStop));
    assert_eq!(config::action_from_name("start"), None);
}
