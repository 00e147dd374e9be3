use rsclipping::bindings::{
    action_for, action_for_id, grab_masks, hotkey_mask, keysym_for, modifier_mask_for, Binding,
    Keyboard, XK_ALT_L, XK_ALT_R, XK_F1, XK_PRINT,
};
use rsclipping::capture::{
    enumerate_monitors, rect_dims, sort_monitors, CaptureError, CaptureSession, MonitorGeometry,
    MonitorInfo,
};
use rsclipping::config::{Action, InputConfig, OverlayPosition, Storage};
use rsclipping::encoder::InputWindow;
use rsclipping::hotkey::{Hotkey, HotkeyKey, MOD_ALT, MOD_CTRL, MOD_SHIFT, MOD_WIN};
use rsclipping::input::{
    events_in_window, sidecar_path, InputCapture, InputEvent, InputState, MouseButton,
    OverlayFrame, RingVis, EVENT_HISTORY_NS, MAX_RINGS, RING_LIFETIME_NS,
};
use rsclipping::overlay::{
    blend, button_color, union, GdiOverlay, OverlayRenderer, Rect, RenderStep,
};
use rsclipping::poller::{
    to_monitor, watched_button, watched_code, watched_name, Poller, BUTTON_COUNT, KEY_COUNT,
};
use rsclipping::sizes::{fmt_bytes, human_size, logged_size};
use rsclipping::storage::{candidate, destination, enforce_retention, Destination, OutputFile};

#[test]
fn destination_names() {
    assert_eq!(candidate("clip_1", "mp4", 0), "clip_1.mp4");
    assert_eq!(candidate("clip_1", "mp4", 12), "clip_1_12.mp4");
    let asked = |probes: &[bool]| match destination("/c", "b", "mp4", &probes.to_vec()) {
        Destination::Ask(p) => format!("ask {p}"),
        Destination::Free(p) => format!("free {p}"),
    };
    assert_eq!(asked(&[]), "ask /c/b.mp4");
    assert_eq!(asked(&[false]), "free /c/b.mp4");
    assert_eq!(asked(&[true]), "ask /c/b_1.mp4");
    assert_eq!(asked(&[true, true, false]), "free /c/b_2.mp4");
}

#[test]
fn candidate_names_never_repeat() {
    let names: Vec<String> = (0..200).map(|k| candidate("b", "mp4", k)).collect();
    for i in 0..names.len() {
        for j in 0..i {
            assert_ne!(names[i], names[j]);
        }
    }
}

fn storage(max_clips: usize, max_mb: u64) -> Storage {
    let mut s = Storage::default_in("/o", "/t");
    s.max_clips = max_clips;
    s.max_storage_mb = max_mb;
    s
}

const MB: u64 = 1024 * 1024;

fn file(modified_ms: u128, size_mb: u64, is_clip: bool) -> OutputFile {
    OutputFile { size: size_mb * MB, modified_ms, is_clip }
}

fn clean(cfg: &Storage, files: &[OutputFile], works: impl Fn(usize) -> bool) -> Vec<usize> {
    let mut r = enforce_retention(cfg, files.to_vec());
    let mut gone = Vec::new();
    while let Some(i) = r.next() {
        let ok = works(i);
        if ok {
            gone.push(i);
        }
        r.tried(ok);
    }
    assert_eq!(r.removed(), gone.len());
    gone
}

#[test]
fn retention_by_count() {
    let files = [file(30, 1, true), file(10, 1, true), file(5, 1, false), file(20, 1, true)];
    assert_eq!(clean(&storage(1, 0), &files, |_| true), vec![1, 3]);
    assert_eq!(clean(&storage(3, 0), &files, |_| true), Vec::<usize>::new());
    assert_eq!(clean(&storage(0, 0), &files, |_| true), Vec::<usize>::new());
    assert_eq!(clean(&storage(2, 0), &files, |i| i != 1), vec![3]);
}

#[test]
fn retention_by_size() {
    let files = [file(3, 4, true), file(1, 3, false), file(2, 2, true)];
    assert_eq!(clean(&storage(0, 9), &files, |_| true), Vec::<usize>::new());
    assert_eq!(clean(&storage(0, 8), &files, |_| true), vec![1]);
    assert_eq!(clean(&storage(0, 5), &files, |_| true), vec![1, 2]);
    assert_eq!(clean(&storage(0, 1), &files, |_| true), vec![1, 2, 0]);
    assert_eq!(clean(&storage(0, 5), &files, |i| i != 1), vec![2, 0]);
}

#[test]
fn retention_starts_again_at_the_oldest() {
    let files = [file(1, 9, false), file(2, 1, true), file(3, 1, true)];
    assert_eq!(clean(&storage(1, 5), &files, |_| true), vec![1, 0]);
    assert_eq!(clean(&storage(1, 5), &files, |i| i != 0), vec![1, 2]);
    assert_eq!(clean(&storage(1, 0), &files, |_| true), vec![1]);
    let small = |modified_ms: u128| OutputFile { size: 1024, modified_ms, is_clip: true };
    let mixed = [file(1, 2, false), small(2), small(3)];
    assert_eq!(clean(&storage(1, 1), &mixed, |_| true), vec![1, 0]);
    assert_eq!(clean(&storage(2, 5), &files, |_| true), vec![0]);
}

#[test]
fn retention_can_be_off() {
    let mut cfg = storage(1, 1);
    cfg.auto_cleanup = false;
    let files = [file(1, 9, true), file(2, 9, true)];
    assert_eq!(clean(&cfg, &files, |_| true), Vec::<usize>::new());
}

#[test]
fn files_of_one_age_keep_their_order() {
    let files = [file(7, 1, true), file(7, 1, true), file(7, 1, true)];
    assert_eq!(clean(&storage(1, 0), &files, |_| true), vec![0, 1]);
}

#[test]
fn sizes_match_floating_point() {
    let gb = 1024.0 * 1024.0 * 1024.0;
    let mb = 1024.0 * 1024.0;
    let mut all = vec![0, 1, 511, 512, 513, 1535, 1536, 2560, 1048575, 1048576, 1100000, 1101004];
    for k in 20..64u32 {
        for d in [0u64, 1, 7, 12345, 999_999] {
            all.push((1u64 << k) + d);
            all.push((1u64 << k) - 1 - d);
        }
    }
    all.push(u64::MAX);
    for b in all {
        let want = if b >= 1 << 30 {
            format!("{:.2} GB", b as f64 / gb)
        } else if b >= 1 << 20 {
            format!("{:.1} MB", b as f64 / mb)
        } else {
            format!("{:.0} KB", b as f64 / 1024.0)
        };
        assert_eq!(human_size(b), want);
        let short = if b >= 1 << 30 {
            format!("{:.1} GB", b as f64 / gb)
        } else if b >= 1 << 20 {
            format!("{:.1} MB", b as f64 / mb)
        } else {
            format!("{} KB", b / 1024)
        };
        assert_eq!(fmt_bytes(b), short);
        assert_eq!(logged_size(b), format!("{:.1} MB", b as f64 / mb));
    }
    assert_eq!(human_size(1536 * 1024 * 1024), "1.50 GB");
    assert_eq!(human_size(5 * MB + MB / 4), "5.2 MB");
}

fn key_names(s: &InputState) -> Vec<String> {
    s.pressed_keys()
}

#[test]
fn held_keys() {
    let mut s = InputState::new();
    s.record_key("A", true, 1);
    s.record_key("CTRL", true, 2);
    s.record_key("A", true, 3);
    s.record_key("SHIFT", true, 4);
    s.record_key("B", true, 5);
    assert_eq!(key_names(&s), vec!["SHIFT", "CTRL", "A", "B"]);
    s.record_key("A", false, 6);
    assert_eq!(key_names(&s), vec!["SHIFT", "CTRL", "B"]);
    assert_eq!(s.events.len(), 6);
}

#[test]
fn last_event_of_a_key_decides() {
    let turns = [
        ("A", true),
        ("B", true),
        ("A", true),
        ("A", false),
        ("B", false),
        ("B", true),
        ("C", false),
        ("A", false),
        ("D", true),
    ];
    let mut s = InputState::new();
    for (n, (name, down)) in turns.iter().enumerate() {
        s.record_key(name, *down, n as u64);
        for key in ["A", "B", "C", "D"] {
            let last = turns[..=n].iter().rev().find(|t| t.0 == key);
            let held = key_names(&s).iter().filter(|k| *k == key).count();
            assert_eq!(held, if matches!(last, Some((_, true))) { 1 } else { 0 });
        }
    }
}

#[test]
fn log_is_cut_at_the_history() {
    let mut s = InputState::new();
    s.record_key("A", true, 10);
    s.record_key("A", false, 20);
    s.record_key("B", true, 10 + EVENT_HISTORY_NS);
    assert_eq!(s.events.len(), 3);
    s.record_key("B", false, 11 + EVENT_HISTORY_NS);
    assert_eq!(s.events.len(), 3);
    assert_eq!(s.events[0].t_ns, 20);
    s.record_key("C", true, u64::MAX);
    assert_eq!(s.events.len(), 1);
}

#[test]
fn moves_and_clicks() {
    let mut s = InputState::new();
    s.record_move(1, 0, 1);
    assert_eq!(s.events.len(), 0);
    s.record_move(1, 1, 2);
    assert_eq!(s.events.len(), 1);
    s.record_move(i32::MIN, i32::MAX, 3);
    assert_eq!(s.last_move, (i32::MIN, i32::MAX));
    for n in 0..20 {
        s.record_click(MouseButton::Left, n, 0, true, 10 + n as u64);
        s.record_click(MouseButton::Left, n, 0, false, 10 + n as u64);
    }
    assert_eq!(s.rings.len(), MAX_RINGS);
    assert_eq!(s.rings[0].x, 4);
    assert_eq!(s.events.len(), 42);
    let snap = s.overlay_snapshot(29 + RING_LIFETIME_NS - 5);
    assert_eq!(snap.clicks.len(), 5);
    assert!(!snap.is_empty());
    let late = s.overlay_snapshot(29 + RING_LIFETIME_NS);
    assert!(late.is_empty());
}

#[test]
fn windows_are_half_open() {
    let mut s = InputState::new();
    let second = 1_000_000_000u64;
    for t in [0, second - 1, second, 2 * second - 1, 2 * second] {
        s.record_key("A", true, t);
    }
    let times = |start: u128, end: u128, fps: u32| -> Vec<u64> {
        events_in_window(&s, InputWindow { start, end, fps })
            .iter()
            .map(|e| (e.since_start / fps as u128) as u64)
            .collect()
    };
    assert_eq!(times(1, 2, 1), vec![0, second - 1]);
    assert_eq!(times(60, 120, 60), vec![0, second - 1]);
    assert_eq!(times(30, 120, 60), vec![second / 2 - 1, second / 2, 3 * (second / 2) - 1]);
    assert_eq!(times(0, 1, 1), vec![0, second - 1]);
    assert_eq!(times(0, 3, 1).len(), 5);
    assert!(times(5, 9, 1).is_empty());
    let e = events_in_window(&s, InputWindow { start: 0, end: 1, fps: 1 });
    assert!(matches!(&e[0].event, InputEvent::KeyDown { name } if name == "A"));
}

#[test]
fn sidecars_lie_beside_their_outputs() {
    assert_eq!(sidecar_path("/c/clip_1.mp4"), "/c/clip_1.inputs.json");
    assert_eq!(sidecar_path("clip.a.webm"), "clip.a.inputs.json");
    assert_eq!(sidecar_path("/c.d/clip"), "/c.d/clip.inputs.json");
}

#[test]
fn capture_policy() {
    let cfg = |events: bool, overlay: bool| InputConfig {
        capture_events: events,
        overlay_enabled: overlay,
        overlay_position: OverlayPosition::TopRight,
    };
    assert!(InputCapture::start(&cfg(true, true)).overlay_enabled());
    assert!(!InputCapture::start(&cfg(false, true)).overlay_enabled());
    assert!(!InputCapture::start(&cfg(true, false)).overlay_enabled());
    let c = InputCapture::start(&cfg(true, true));
    assert_eq!(c.position(), OverlayPosition::TopRight);
    assert!(c.overlay_snapshot(0).is_empty());
}

#[test]
fn watched_keys() {
    let codes: Vec<u16> = (0..KEY_COUNT).map(watched_code).collect();
    for i in 0..codes.len() {
        for j in 0..i {
            assert_ne!(codes[i], codes[j]);
        }
    }
    let at = |code: u16| watched_name(codes.iter().position(|c| *c == code).unwrap());
    assert_eq!(at(0x30), "0");
    assert_eq!(at(0x39), "9");
    assert_eq!(at(0x41), "A");
    assert_eq!(at(0x5A), "Z");
    assert_eq!(at(0x70), "F1");
    assert_eq!(at(0x7B), "F12");
    assert_eq!(at(0x20), "SPACE");
    assert_eq!(at(0x0D), "ENTER");
    assert_eq!(at(0x08), "BACKSPACE");
    assert_eq!(at(0x25), "LEFT");
    assert_eq!(at(0x28), "DOWN");
    assert_eq!(at(0x10), "SHIFT");
    assert_eq!(at(0x12), "ALT");
    assert_eq!(at(0x5B), "WIN");
    assert_eq!(watched_button(2), (0x04, MouseButton::Middle));
    assert_eq!(watched_button(BUTTON_COUNT - 1), (0x06, MouseButton::X2));
}

#[test]
fn polling_sees_only_changes() {
    let mut p = Poller::new();
    let mut s = InputState::new();
    p.poll_key(&mut s, 10, true, 1);
    p.poll_key(&mut s, 10, true, 2);
    assert_eq!(key_names(&s), vec!["A"]);
    assert_eq!(s.events.len(), 1);
    p.poll_key(&mut s, 10, false, 3);
    assert!(key_names(&s).is_empty());

    let (off, size) = ((100, 50), (200, 100));
    p.poll_cursor(&mut s, (150, 60), off, size, 4);
    assert_eq!(p.last_pos, (50, 10));
    p.poll_cursor(&mut s, (151, 60), off, size, 5);
    assert_eq!(p.last_pos, (50, 10));
    p.poll_button(&mut s, 0, true, None, off, size, 6);
    assert_eq!((s.rings[0].x, s.rings[0].y), (50, 10));
    p.poll_button(&mut s, 0, false, Some((9999, -5)), off, size, 7);
    assert!(matches!(
        s.events[s.events.len() - 1].event,
        InputEvent::MouseUp { button: MouseButton::Left, x: 199, y: 0 }
    ));

    p.poll_pad(&mut s, 2, Some(0x1000 | 0x0001), 8);
    assert_eq!(key_names(&s), vec!["A", "D-PAD UP"]);
    p.poll_pad(&mut s, 2, Some(0x0001), 9);
    assert_eq!(key_names(&s), vec!["D-PAD UP"]);
    p.poll_pad(&mut s, 2, None, 10);
    assert_eq!(p.pads[2], 0);
    assert_eq!(key_names(&s), vec!["D-PAD UP"]);
}

#[test]
fn pointers_on_the_monitor() {
    assert_eq!(to_monitor(5, 5, (0, 0), (10, 10)), (5, 5));
    assert_eq!(to_monitor(-5, 50, (0, 0), (10, 10)), (0, 9));
    assert_eq!(to_monitor(i32::MAX, i32::MIN, (-5, 5), (10, 10)), (9, 0));
    assert_eq!(to_monitor(3, 3, (0, 0), (0, 0)), (0, 0));
}

fn rect(left: i32, top: i32, right: i32, bottom: i32) -> Rect {
    Rect { left, top, right, bottom }
}

fn snap(keys: &[&str], clicks: Vec<RingVis>) -> OverlayFrame {
    OverlayFrame { keys: keys.iter().map(|k| k.to_string()).collect(), clicks }
}

#[test]
fn unions() {
    let mut d = rect(i32::MAX, i32::MAX, i32::MIN, i32::MIN);
    union(&mut d, rect(5, 6, 7, 8));
    assert_eq!(d, rect(5, 6, 7, 8));
    union(&mut d, rect(0, 7, 6, 20));
    assert_eq!(d, rect(0, 6, 7, 20));
}

#[test]
fn key_boxes() {
    let g = GdiOverlay::new(800, 600);
    let s = snap(&["CTRL", "A"], vec![]);
    let widths = vec![40, 3];
    let p = g.compose(800, 600, OverlayPosition::BottomLeft, &widths, &s, 0).unwrap();
    assert_eq!(p.boxes, vec![rect(12, 556, 68, 588), rect(74, 556, 104, 588)]);
    assert_eq!(p.dirty, rect(12, 556, 104, 588));
    let p = g.compose(800, 600, OverlayPosition::TopRight, &widths, &s, 0).unwrap();
    assert_eq!(p.boxes, vec![rect(732, 12, 788, 44), rect(696, 12, 726, 44)]);
    assert!(g.compose(801, 600, OverlayPosition::TopRight, &widths, &s, 0).is_none());
    assert_eq!(g.anchor(OverlayPosition::BottomRight), (788, 556));
    assert_eq!(g.anchor(OverlayPosition::TopLeft), (12, 12));
    let full_hd = GdiOverlay::new(1920, 1080);
    let p = full_hd.compose(1920, 1080, OverlayPosition::BottomRight, &vec![3], &s, 0).unwrap();
    assert_eq!(p.boxes, vec![rect(1878, 1036, 1908, 1068)]);
    let huge = vec![i32::MAX; 8];
    let p = g.compose(800, 600, OverlayPosition::TopLeft, &huge, &s, 0).unwrap();
    assert_eq!(p.boxes.len(), 6);
    assert_eq!(p.boxes[0], rect(12, 12, i32::MAX, 44));
    assert_eq!(p.boxes[5].left, i32::MAX);
    assert_eq!((g.width(), g.height()), (800, 600));
}

#[test]
fn click_rings() {
    let g = GdiOverlay::new(100, 100);
    let ring = |born_ns: u64| RingVis { x: 50, y: 5, button: MouseButton::Right, born_ns };
    let now = 1_000_000_000;
    let s = snap(&[], vec![ring(now), ring(now - 500_000_000), ring(0)]);
    let p = g.compose(100, 100, OverlayPosition::TopLeft, &vec![], &s, now).unwrap();
    assert_eq!(p.rings[0].rect, rect(37, -8, 63, 18));
    assert_eq!(p.rings[1].rect, rect(22, -23, 78, 33));
    assert_eq!(p.rings[2].rect, rect(16, -29, 84, 39));
    assert_eq!(p.rings[0].color, button_color(MouseButton::Right));
    assert_eq!(p.dirty, rect(16, -29, 84, 39));
    assert_eq!(button_color(MouseButton::X2), 0xFF7AC0);
}

#[test]
fn blending() {
    let (w, h) = (3u32, 2u32);
    let old: Vec<u8> = (0..24).map(|k| 100 + k as u8).collect();
    let mut bits = vec![0u8; 24];
    bits[4] = 1;
    bits[13] = 2;
    bits[22] = 3;
    let mut f = old.clone();
    blend(&mut f, &bits, w, h, rect(0, 0, 3, 2));
    let mut want = old.clone();
    want[4..8].copy_from_slice(&[1, 0, 0, 0xFF]);
    want[12..16].copy_from_slice(&[0, 2, 0, 0xFF]);
    want[20..24].copy_from_slice(&[0, 0, 3, 0xFF]);
    assert_eq!(f, want);

    let mut f = old.clone();
    blend(&mut f, &bits, w, h, rect(1, 0, 99, 1));
    let mut want = old.clone();
    want[4..8].copy_from_slice(&[1, 0, 0, 0xFF]);
    assert_eq!(f, want);

    let mut f = old.clone();
    blend(&mut f, &bits, w, h, rect(2, 1, 2, 2));
    assert_eq!(f, old);
}

#[test]
fn renderer_steps() {
    let mut r = OverlayRenderer::new();
    let s = snap(&["A"], vec![]);
    assert_eq!(r.compose(4, 4, &snap(&[], vec![])), RenderStep::Skip);
    assert_eq!(r.compose(4, 4, &s), RenderStep::Create);
    r.created(4, 4);
    assert_eq!(r.compose(4, 4, &s), RenderStep::Draw);
    assert_eq!(r.compose(4, 5, &s), RenderStep::Create);
}

#[test]
fn monitors_in_order() {
    let g = |x: i16, y: i16, width: u16, height: u16| MonitorGeometry {
        x,
        y,
        width,
        height,
        primary: false,
    };
    let m = enumerate_monitors(&vec![g(1920, 0, 800, 600), g(0, 100, 0, 9), g(0, 0, 5, 5)], 9, 9);
    let seen: Vec<(i32, i32, u32, usize)> =
        m.iter().map(|m| (m.offset_x, m.offset_y, m.width, m.output_index)).collect();
    assert_eq!(seen, vec![(0, 0, 5, 2), (0, 100, 1, 1), (1920, 0, 800, 0)]);
    let main = MonitorGeometry { primary: true, ..g(1920, 0, 800, 600) };
    let m = enumerate_monitors(&vec![g(0, 0, 5, 5), main, g(-9, 0, 7, 7)], 9, 9);
    let widths: Vec<(u32, bool)> = m.iter().map(|m| (m.width, m.primary)).collect();
    assert_eq!(widths, vec![(800, true), (7, false), (5, false)]);
    let first = CaptureSession::new(&m, 0, 24).ok().unwrap();
    assert_eq!((first.width(), first.offset()), (800, (1920, 0)));
    let whole = enumerate_monitors(&vec![], 1920, 1080);
    assert_eq!((whole.len(), whole[0].width, whole[0].height), (1, 1920, 1080));
    let twin = MonitorInfo {
        width: 1,
        height: 1,
        offset_x: 0,
        offset_y: 0,
        adapter_index: 0,
        output_index: 0,
        primary: false,
    };
    let other = MonitorInfo { adapter_index: 1, ..twin };
    assert_eq!(sort_monitors(&vec![twin, other]), vec![twin, other]);
    assert_eq!(rect_dims(0, 0, 1920, 0), (1920, 1));
    assert_eq!(rect_dims(5, 5, 1, 1), (1, 1));
}

fn session(width: u32, height: u32) -> CaptureSession {
    let m = MonitorInfo {
        width,
        height,
        offset_x: 7,
        offset_y: -7,
        adapter_index: 0,
        output_index: 0,
        primary: false,
    };
    CaptureSession::new(&vec![m], 0, 24).ok().unwrap()
}

#[test]
fn capture_sessions() {
    let s = session(2, 2);
    assert_eq!((s.width(), s.height(), s.offset(), s.bpp), (2, 2, (7, -7), 4));
    assert_eq!(s.frame_size_bytes(), 16);
    assert_eq!(CaptureSession::new(&vec![], 0, 24), Err(CaptureError::OutOfRange));
    let m = enumerate_monitors(&vec![], 2, 2);
    assert_eq!(CaptureSession::new(&m, 0, 8), Err(CaptureError::UnsupportedDepth));
}

#[test]
fn acquired_frames() {
    let mut s = session(2, 2);
    let src: Vec<u8> = (0..20).collect();
    let mut buffer = vec![99u8; 18];
    assert!(!s.has_acquired());
    assert_eq!(s.acquire(&mut buffer, &src, 5), Ok(true));
    assert_eq!(&buffer[..16], &src[..16]);
    assert_eq!(&buffer[16..], &[99, 99]);
    assert!(s.has_acquired());
    let v = s.frame_view(&buffer);
    assert_eq!((v.data.len(), v.row_stride, v.frame_num), (16, 8, 5));
    assert_eq!(s.frame_view(&buffer[..3]).data.len(), 3);
    s.release();
    assert!(!s.has_acquired());

    let mut short = vec![0u8; 16];
    assert_eq!(s.acquire(&mut short, &src[..12], 6), Ok(true));
    assert_eq!(&short[..8], &src[..8]);
    assert_eq!(&short[8..], &[0xFF; 8]);
    assert_eq!(s.acquire(&mut vec![0u8; 15], &src, 7), Err(CaptureError::BufferTooSmall));
    s.missed();
    assert!(!s.has_acquired());

    s.bpp = 3;
    let mut b = vec![50u8; 16];
    assert_eq!(s.acquire(&mut b, &src[..7], 8), Ok(true));
    assert_eq!(b, vec![0, 1, 2, 0xFF, 3, 4, 5, 0xFF, 50, 50, 50, 50, 50, 50, 50, 50]);
    s.bpp = 2;
    assert_eq!(s.acquire(&mut b, &src, 9), Err(CaptureError::UnsupportedBpp));
}

#[test]
fn acquired_textures() {
    let mut s = session(9, 9);
    let src: Vec<u8> = (0..24).collect();
    let mut b = vec![77u8; 9];
    assert_eq!(s.acquire_texture(&mut b, &src, 12, 1, 2), Ok(true));
    assert_eq!(b, vec![0, 1, 2, 3, 12, 13, 14, 15, 77]);
    assert_eq!((s.width(), s.height(), s.frame_num), (1, 2, 1));
    assert_eq!(s.acquire_texture(&mut b, &src, 8, 2, 2), Err(CaptureError::BufferTooSmall));
    assert_eq!(s.acquire_texture(&mut b, &src, 4, 1, 2), Ok(true));
    assert_eq!(&b[..8], &src[..8]);
}

fn keyboard() -> Keyboard {
    Keyboard { first: 8, per: 2, keysyms: vec![0x61, 0x41, XK_ALT_L, 0, 0x62, 0x61, XK_ALT_R, 0] }
}

#[test]
fn keys_on_the_keyboard() {
    assert_eq!(keysym_for(HotkeyKey::F(1)), Some(XK_F1));
    assert_eq!(keysym_for(HotkeyKey::F(13)), None);
    assert_eq!(keysym_for(HotkeyKey::PrintScreen), Some(XK_PRINT));
    assert_eq!(keysym_for(HotkeyKey::Letter(b'a')), Some(0x61));
    assert_eq!(keysym_for(HotkeyKey::Digit(3)), Some(0x33));
    assert_eq!(keysym_for(HotkeyKey::Space), Some(0x20));
    let kb = keyboard();
    assert_eq!(kb.keycode_for_sym(0x61), Some(8));
    assert_eq!(kb.keycode_for_sym(0x62), Some(10));
    assert_eq!(kb.keycode_for_sym(0x7A), None);
}

#[test]
fn modifiers_on_the_keyboard() {
    let kb = keyboard();
    let mut map = vec![0u8; 16];
    map[6] = 9;
    map[7] = 99;
    map[13] = 11;
    let syms = vec![XK_ALT_L, XK_ALT_R];
    assert_eq!(modifier_mask_for(&kb, &syms, &map), (1 << 3) | (1 << 6));
    assert_eq!(modifier_mask_for(&kb, &vec![0x7A], &map), 0);
    assert_eq!(modifier_mask_for(&kb, &syms, &vec![]), 0);
    assert_eq!(modifier_mask_for(&kb, &syms, &vec![9]), 1);
}

#[test]
fn masks_of_hotkeys() {
    let h = |mods: u8| Hotkey::new(mods, HotkeyKey::F(1));
    assert_eq!(hotkey_mask(h(0), 8, 64), 0);
    assert_eq!(hotkey_mask(h(MOD_SHIFT), 8, 64), 1);
    assert_eq!(hotkey_mask(h(MOD_CTRL), 8, 64), 4);
    assert_eq!(hotkey_mask(h(MOD_ALT | MOD_WIN | MOD_SHIFT | MOD_CTRL), 8, 64), 77);
    assert_eq!(grab_masks(5), vec![5, 7, 0x15, 0x17]);
}

#[test]
fn pressed_hotkeys() {
    let binds = vec![
        Binding { keycode: 70, mask: 5, action: Action::Clip },
        Binding { keycode: 70, mask: 0, action: Action::RecordStart },
        Binding { keycode: 70, mask: 5, action: Action::RecordStop },
    ];
    for locks in [0u16, 0x02, 0x10, 0x12] {
        assert_eq!(action_for(&binds, 70, 5 | locks), Some(Action::Clip));
        assert_eq!(action_for(&binds, 70, locks), Some(Action::RecordStart));
        assert_eq!(action_for(&binds, 70, 4 | locks), None);
        assert_eq!(action_for(&binds, 71, 5 | locks), None);
    }
    assert_eq!(action_for_id(1), Some(Action::Clip));
    assert_eq!(action_for_id(2), Some(Action::RecordStart));
    assert_eq!(action_for_id(3), Some(Action::RecordStop));
    assert_eq!(action_for_id(0), None);
}
