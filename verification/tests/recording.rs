use rsclipping::codec::{Codec, EncoderBackend};
use rsclipping::config::{Action, EncoderConfig, Storage};
use rsclipping::daemon::{
    one_shot_seconds, one_shot_window, split_recording, wait_for_frame_count, DaemonMetrics,
    Decision, Ignored, OneShotKind, Recorder, RecordingPart, Ticker, WaitStep, FPS_GAP_NS,
    POLL_GAP_NS,
};
use rsclipping::encoder::{
    concat_args, concat_args_for, concat_list, list_path, is_leftover_segment, probe_args, Encoder, FrameError, InputWindow,
};
use rsclipping::segments::{
    parse_segment_name, range_segments, segment_file_name, segment_path, segment_run, SegmentFile,
    SegmentInfo, SegmentManager,
};
use rsclipping::utils::{
    base_at, ffmpeg_places, ffmpeg_variables, find_ffmpeg, gpu_candidates, holds_packages,
    pick_encoder, timestamped_base, which_ffmpeg, EncoderChoice, FfmpegError, FfmpegStep,
};

fn strings(words: &[&str]) -> Vec<String> {
    words.iter().map(|w| w.to_string()).collect()
}

fn built(encoder: &str, enc: &EncoderConfig) -> Vec<String> {
    Encoder::build_ffmpeg_args(encoder, enc, 1920, 1080, "/seg", "2.000", "error")
}

fn middle(args: &[String]) -> Vec<String> {
    let from = args.iter().position(|a| a == "-c:v").unwrap() + 2;
    let to = args.iter().rposition(|a| a == "-pix_fmt").unwrap();
    args[from..to].to_vec()
}

#[test]
fn args_for_x264() {
    let mut enc = EncoderConfig::default();
    enc.extra_encoder_args = strings(&["-aq-mode", "1"]);
    assert_eq!(
        built("libx264", &enc),
        strings(&[
            "-hide_banner", "-loglevel", "error", "-y", "-f", "rawvideo", "-pix_fmt", "bgra", "-s",
            "1920x1080", "-r", "60", "-i", "pipe:0", "-an", "-c:v", "libx264", "-preset",
            "veryfast", "-crf", "20", "-x264-params", "keyint=120:min-keyint=120", "-pix_fmt",
            "yuv420p", "-aq-mode", "1", "-f", "segment", "-segment_time", "2.000",
            "-reset_timestamps", "1", "-segment_format", "mkv", "-avoid_negative_ts", "make_zero",
            "/seg/seg_%05d.mkv",
        ])
    );
}

#[test]
fn args_for_other_encoders() {
    let mut enc = EncoderConfig::default();
    enc.fps = 10;
    enc.bitrate_kbps = 500;
    enc.preset = "p5".to_string();
    assert_eq!(
        middle(&built("libx265", &enc)),
        strings(&[
            "-preset", "fast", "-b:v", "500k", "-crf", "20", "-x265-params",
            "keyint=24:min-keyint=24",
        ])
    );
    assert_eq!(
        middle(&built("libvpx-vp9", &enc)),
        strings(&[
            "-crf", "20", "-b:v", "500k", "-deadline", "realtime", "-cpu-used", "6", "-row-mt", "1",
            "-g", "24",
        ])
    );
    assert_eq!(
        middle(&built("libaom-av1", &enc)),
        strings(&["-crf", "20", "-b:v", "500k", "-cpu-used", "8", "-row-mt", "1", "-g", "24"])
    );
    assert_eq!(
        middle(&built("h264_nvenc", &enc)),
        strings(&[
            "-preset", "p5", "-rc", "vbr", "-cq", "20", "-b:v", "500k", "-tune", "ll", "-g", "24",
        ])
    );
    assert_eq!(
        middle(&built("av1_nvenc", &enc)),
        strings(&["-preset", "p5", "-rc", "vbr", "-cq", "20", "-b:v", "500k", "-g", "24"])
    );
    assert_eq!(
        middle(&built("hevc_amf", &enc)),
        strings(&[
            "-quality", "speed", "-usage", "ultrafast", "-rc", "vbr", "-qp_i", "20", "-qp_p", "20",
            "-b:v", "500k", "-g", "24",
        ])
    );
    assert_eq!(
        middle(&built("av1_qsv", &enc)),
        strings(&["-preset", "veryfast", "-global_quality", "20", "-b:v", "500k", "-g", "24"])
    );
    assert!(middle(&built("mpeg4", &enc)).is_empty());
}

#[test]
fn no_bitrate_is_set() {
    let enc = EncoderConfig::default();
    for encoder in ["libx264", "libx265", "libvpx-vp9", "libaom-av1", "h264_amf", "av1_qsv"] {
        assert!(!built(encoder, &enc).contains(&"-b:v".to_string()));
    }
    let nvenc = middle(&built("h264_nvenc", &enc));
    let at = nvenc.iter().position(|a| a == "-b:v").unwrap();
    assert_eq!(nvenc[at + 1], "0");
}

#[test]
fn nvenc_presets() {
    let pairs = [
        ("ultrafast", "p7"),
        ("superfast", "p7"),
        ("veryfast", "p7"),
        ("faster", "p6"),
        ("fast", "p5"),
        ("medium", "p4"),
        ("", "p4"),
        ("slow", "p3"),
        ("slower", "p2"),
        ("veryslow", "p1"),
        ("placebo", "p1"),
        ("p7", "p7"),
        ("lossless", "lossless"),
    ];
    for (name, want) in pairs {
        let mut enc = EncoderConfig::default();
        enc.preset = name.to_string();
        assert_eq!(middle(&built("hevc_nvenc", &enc))[1], want);
    }
}

fn running() -> Encoder {
    let args = built("h264_amf", &EncoderConfig::default());
    Encoder::spawn(Codec::H264, args, 2, 1, 3, 1000)
}

#[test]
fn encoder_is_named_by_its_args() {
    let e = running();
    assert_eq!(e.encoder_name(), "h264_amf");
    let none = Encoder::spawn(Codec::AV1, strings(&["-i", "x"]), 2, 1, 3, 0);
    assert_eq!(none.encoder_name(), "libaom-av1");
    assert_eq!(e.frame_bytes, 8);
    assert_eq!(e.segment_frames(), 3);
}

#[test]
fn frames_are_counted() {
    let mut e = running();
    let data = [7u8; 10];
    assert_eq!(e.write_frame(&data), Ok(&data[..8]));
    assert_eq!(e.write_frame(&data[..7]), Err(FrameError::TooSmall));
    for n in 1..=7u64 {
        assert_eq!(e.frame_written(true), Some(n));
    }
    assert_eq!(e.open_segment_index(), 2);
    e.finish();
    assert_eq!(e.write_frame(&data), Err(FrameError::Finished));
    assert!(!e.is_broken());
}

#[test]
fn restarts_are_throttled() {
    let mut e = running();
    let data = [0u8; 8];
    assert!(!e.restart(1_000_000));
    assert_eq!(e.frame_written(false), None);
    assert!(e.is_broken());
    assert_eq!(e.write_frame(&data), Err(FrameError::Broken));
    assert!(!e.restart(2499));
    assert!(!e.restart(5));
    assert!(e.restart(2500));
    assert!(!e.restart(3999));
    assert!(e.restart(4000));
    e.restarted();
    assert!(!e.is_broken());
    assert_eq!(e.write_frame(&data), Ok(&data[..]));
}

#[test]
fn concatenation() {
    let segs = vec![
        SegmentInfo { seq: 1, path: "C:\\s\\seg_00001.mkv".to_string() },
        SegmentInfo { seq: 2, path: "/s/seg_00002.mkv".to_string() },
    ];
    assert_eq!(
        concat_list(&segs),
        Some("file 'C:/s/seg_00001.mkv'\nfile '/s/seg_00002.mkv'\n".to_string())
    );
    assert_eq!(concat_list(&vec![]), None);
    let head = [
        "-hide_banner", "-loglevel", "error", "-y", "-f", "concat", "-safe", "0", "-i", "/l.txt",
        "-c", "copy",
    ];
    let mut mp4 = strings(&head);
    mp4.extend(strings(&["-movflags", "+faststart", "/o.MP4"]));
    assert_eq!(concat_args("/l.txt", "/o.MP4"), mp4);
    assert_eq!(concat_args_for("/l.txt", "/o.MP4", Some("MP4".to_string())), mp4);
    let mut webm = strings(&head);
    webm.push("/o.webm".to_string());
    assert_eq!(concat_args("/l.txt", "/o.webm"), webm);
    assert_eq!(concat_args_for("/l.txt", "/o.webm", Some("webm".to_string())), webm);
    assert_eq!(concat_args_for("/l.txt", "/o.webm", None), webm);
    assert_eq!(list_path("/c/clip_1.mp4"), "/c/clip_1.concatlist.txt");
    assert_eq!(list_path("/c.d/clip"), "/c.d/clip.concatlist.txt");
    for bare in ["/mp4", "/.mp4", "/a.mp4/b"] {
        let mut plain = strings(&head);
        plain.push(bare.to_string());
        assert_eq!(concat_args("/l.txt", bare), plain);
    }
}

#[test]
fn lists_of_runs_follow_each_other() {
    let a = vec![SegmentInfo { seq: 1, path: "/a".to_string() }];
    let b = vec![SegmentInfo { seq: 2, path: "/b".to_string() }];
    let both = vec![a[0].clone(), b[0].clone()];
    let joined = format!("{}{}", concat_list(&a).unwrap(), concat_list(&b).unwrap());
    assert_eq!(concat_list(&both).unwrap(), joined);
}

#[test]
fn probes_and_leftovers() {
    assert_eq!(
        probe_args("h264_nvenc"),
        strings(&[
            "-hide_banner", "-loglevel", "error", "-f", "lavfi", "-i",
            "color=black:s=16x16:r=10:d=0.3", "-c:v", "h264_nvenc", "-t", "0.2", "-f", "null", "-",
        ])
    );
    assert!(is_leftover_segment("seg_00001.mkv"));
    assert!(is_leftover_segment("seg_mkv"));
    assert!(!is_leftover_segment("seg_00001.mp4"));
    assert!(!is_leftover_segment("old_seg_1.mkv"));
}

#[test]
fn segment_names() {
    assert_eq!(segment_file_name(7), "seg_00007.mkv");
    assert_eq!(segment_file_name(1234567), "seg_1234567.mkv");
    for n in [0u64, 1, 99999, 100000, u64::MAX] {
        assert_eq!(parse_segment_name(&segment_file_name(n)), Some(n));
    }
    assert_eq!(parse_segment_name("seg_x.mkv"), None);
    assert_eq!(parse_segment_name("seg_1.mp4"), None);
    assert_eq!(segment_path("/s", 3), "/s/seg_00003.mkv");
    assert_eq!(segment_path("/s/", 3), "/s/seg_00003.mkv");
}

#[test]
fn ranges_cover_their_frames() {
    let segs = range_segments("/s", 5, 13, 4);
    let numbers: Vec<u64> = segs.iter().map(|s| s.seq).collect();
    assert_eq!(numbers, vec![1, 2, 3]);
    assert_eq!(segs[0].path, "/s/seg_00001.mkv");
    for frame in 5..13u64 {
        assert!(numbers.contains(&(frame / 4)));
    }
    assert!(range_segments("/s", 13, 5, 4).is_empty());
    assert_eq!(seqs(segment_run("/s", 2, 4)), vec![2, 3, 4]);
    assert!(segment_run("/s", 3, 2).is_empty());
}

fn manager(names: &[&str]) -> SegmentManager {
    let mut m = SegmentManager::new("/s".to_string(), 4, 3);
    m.refresh(&strings(names));
    m
}

fn seqs(v: Vec<SegmentInfo>) -> Vec<u64> {
    v.into_iter().map(|s| s.seq).collect()
}

#[test]
fn known_segments() {
    let m = manager(&["seg_00002.mkv", "other", "seg_00000.mkv", "seg_00001.mkv", "seg_9.mp4"]);
    assert_eq!(seqs(m.segments()), vec![0, 1, 2]);
    assert_eq!(m.segments()[2].path, "/s/seg_00002.mkv");
    assert_eq!(m.segment_frames(), 4);
    assert_eq!(m.segment_of_frame(11), 2);
    assert_eq!(m.count_segments(&strings(&["seg_1.mkv", "x", "seg_"])), 2);
    let all = vec![0, 1, 2];
    assert_eq!(seqs(m.finalized(2, &all)), vec![0, 1]);
    assert_eq!(seqs(m.finalized(2, &vec![1])), vec![1]);
    assert_eq!(seqs(m.all_on_disk(&vec![0, 2])), vec![0, 2]);
    assert_eq!(seqs(m.take_last(3, 2, &all)), vec![1, 2]);
    assert!(m.take_last(3, 0, &all).is_empty());
    assert_eq!(seqs(m.take_last(3, 9, &all)), vec![0, 1, 2]);
}

#[test]
fn segments_of_a_range() {
    let m = manager(&["seg_0.mkv", "seg_1.mkv", "seg_2.mkv", "seg_3.mkv", "seg_4.mkv"]);
    let all = vec![0, 1, 2, 3, 4];
    assert_eq!(seqs(m.in_range(9, 4, 8, &all)), vec![1, 2]);
    assert_eq!(seqs(m.in_range(9, 5, 9, &all)), vec![1, 2, 3]);
    assert_eq!(seqs(m.in_range(2, 5, 9, &all)), vec![1]);
}

fn files(names: &[(&str, bool)]) -> Vec<SegmentFile> {
    names.iter().map(|(n, closed)| SegmentFile { name: n.to_string(), closed: *closed }).collect()
}

#[test]
fn trimming_the_window() {
    let mut m = manager(&[]);
    let there = files(&[
        ("seg_00006.mkv", true),
        ("seg_00009.mkv", true),
        ("seg_00005.mkv", false),
        ("notes.txt", true),
        ("seg_00007.mkv", true),
    ]);
    assert_eq!(m.oldest_to_keep(10, None), 7);
    assert_eq!(m.trim(10, None, &there), vec![0]);
    assert_eq!(seqs(m.segments()), vec![5, 7, 9]);
    m.forget_missing(7, &vec![7, 9]);
    assert_eq!(seqs(m.segments()), vec![7, 9]);
}

#[test]
fn trimming_spares_a_recording() {
    let mut m = manager(&[]);
    let there = files(&[("seg_00001.mkv", true), ("seg_00002.mkv", true), ("seg_00008.mkv", true)]);
    assert_eq!(m.oldest_to_keep(10, Some(2)), 2);
    assert_eq!(m.trim(10, Some(2), &there), vec![0]);
    assert_eq!(seqs(m.segments()), vec![2, 8]);
    assert_eq!(m.oldest_to_keep(10, Some(9)), 7);
    assert_eq!(m.oldest_to_keep(2, None), 0);
    assert_eq!(m.oldest_to_keep(3, None), 0);
    assert_eq!(m.oldest_to_keep(4, None), 1);
    assert_eq!(m.oldest_to_keep(2, Some(0)), 0);
}

#[test]
fn clips_of_the_newest_segments() {
    let m = manager(&["seg_0.mkv", "seg_1.mkv", "seg_2.mkv"]);
    let mut r = Recorder::new();
    match r.dispatch(Action::Clip, &m, "/s", &vec![0, 1, 2], 10, 2, 1, 60, 0) {
        Decision::SaveClip { segments, window } => {
            assert_eq!(seqs(segments), vec![1]);
            assert_eq!(window, InputWindow { start: 4, end: 8, fps: 60 });
        }
        _ => panic!("a clip was expected"),
    }
    match r.dispatch(Action::Clip, &m, "/s", &vec![0, 1, 2], 2, 0, 5, 0, 0) {
        Decision::Nothing(Ignored::WarmingUp) => {}
        _ => panic!("nothing is finished yet"),
    }
    match r.dispatch(Action::Clip, &m, "/s", &vec![0], 9, 2, 5, 0, 0) {
        Decision::SaveClip { segments, window } => {
            assert_eq!(seqs(segments), vec![0]);
            assert_eq!(window, InputWindow { start: 0, end: 8, fps: 1 });
        }
        _ => panic!("a clip was expected"),
    }
    match r.dispatch(Action::Clip, &m, "/s", &vec![0], 9, 2, 0, 60, 0) {
        Decision::Nothing(Ignored::WarmingUp) => {}
        _ => panic!("a clip of no length holds nothing"),
    }
}

fn outline(parts: Vec<RecordingPart>) -> Vec<(Vec<u64>, InputWindow, u64)> {
    parts.into_iter().map(|p| (seqs(p.segments), p.window, p.needed_frames)).collect()
}

#[test]
fn recordings_are_split() {
    let parts = outline(split_recording("/s", 0, 10800, 120, 60, 60));
    assert_eq!(parts.len(), 3);
    let runs: Vec<(u64, u64)> =
        parts.iter().map(|p| (p.0[0], p.0[p.0.len() - 1])).collect();
    assert_eq!(runs, vec![(0, 29), (30, 59), (60, 90)]);
    assert_eq!(parts[1].1, InputWindow { start: 3600, end: 7200, fps: 60 });
    assert_eq!(parts[0].2, 3600);
    assert_eq!(parts[2].2, 91 * 120);
    assert_eq!(split_recording("/s", 0, 10800, 120, 0, 60).len(), 1);
    assert_eq!(split_recording("/s", 0, 10801, 120, 60, 60).len(), 4);
}

#[test]
fn split_recordings_lose_nothing() {
    for start in 0..9u64 {
        for split in [0u32, 1, 2, 3, 5] {
            let parts = outline(split_recording("/s", start, start + 31, 4, split, 3));
            let whole: Vec<u64> = (start / 4..=(start + 31) / 4).collect();
            let all: Vec<u64> = parts.iter().flat_map(|p| p.0.clone()).collect();
            assert_eq!(all, whole);
            for k in 1..parts.len() {
                assert!(!parts[k].0.is_empty());
                assert_eq!(parts[k].1.start, parts[k - 1].1.end);
            }
        }
    }
}

#[test]
fn splits_follow_the_settings() {
    let m = manager(&[]);
    let none = vec![];
    let mut r = Recorder::new();
    r.dispatch(Action::RecordStart, &m, "/s", &none, 0, 0, 1, 4, 2);
    match r.dispatch(Action::RecordStop, &m, "/s", &none, 20, 5, 1, 4, 2) {
        Decision::SaveRecording { parts } => {
            let window = |start: u128, end: u128| InputWindow { start, end, fps: 4 };
            assert_eq!(
                outline(parts),
                vec![
                    (vec![0, 1], window(0, 8), 8),
                    (vec![2, 3], window(8, 16), 16),
                    (vec![4, 5], window(16, 20), 24),
                ]
            );
        }
        _ => panic!("a recording was expected"),
    }
}

#[test]
fn last_start_or_stop_decides() {
    let m = manager(&["seg_0.mkv"]);
    let turns = [
        (Action::RecordStop, 1, None),
        (Action::RecordStart, 5, Some(5)),
        (Action::Clip, 6, Some(5)),
        (Action::RecordStart, 7, Some(5)),
        (Action::RecordStop, 20, None),
        (Action::Clip, 21, None),
        (Action::RecordStart, 22, Some(22)),
    ];
    let mut r = Recorder::new();
    for (action, frame, want) in turns {
        r.dispatch(action, &m, "/s", &vec![0], frame, frame / 4, 1, 60, 0);
        assert_eq!(r.recording_start, want);
    }
}

#[test]
fn recording_from_start_to_stop() {
    let m = manager(&[]);
    let none = vec![];
    let mut r = Recorder::new();
    assert!(matches!(
        r.dispatch(Action::RecordStop, &m, "/s", &none, 5, 1, 1, 60, 0),
        Decision::Nothing(Ignored::NotRecording)
    ));
    assert!(matches!(
        r.dispatch(Action::RecordStart, &m, "/s", &none, 5, 1, 1, 60, 0),
        Decision::Started { frame: 5 }
    ));
    assert_eq!(r.record_start_seq, Some(1));
    assert!(matches!(
        r.dispatch(Action::RecordStart, &m, "/s", &none, 7, 1, 1, 60, 0),
        Decision::Nothing(Ignored::AlreadyRecording)
    ));
    match r.dispatch(Action::RecordStop, &m, "/s", &none, 13, 3, 1, 60, 0) {
        Decision::SaveRecording { parts } => {
            let want = InputWindow { start: 5, end: 13, fps: 60 };
            assert_eq!(outline(parts), vec![(vec![1, 2, 3], want, 16)]);
        }
        _ => panic!("a recording was expected"),
    }
    assert_eq!((r.recording_start, r.record_start_seq), (None, None));
    assert_eq!((r.pending, r.pending_from), (1, Some(1)));
    r.saved();
    assert_eq!(r, Recorder::new());
    r.saved();
    assert_eq!(r, Recorder::new());
    r.dispatch(Action::RecordStart, &m, "/s", &none, 20, 4, 1, 60, 0);
    assert_eq!(r.record_start_seq, Some(4));
    assert!(matches!(
        r.dispatch(Action::RecordStop, &m, "/s", &none, 21, 5, 1, 60, 0),
        Decision::Nothing(Ignored::TooShort)
    ));
    assert_eq!(r.recording_start, None);
}

fn trimmed(m: &mut SegmentManager, r: &Recorder, open_seq: u64) -> Vec<usize> {
    let names: Vec<String> = (0..=open_seq).map(segment_file_name).collect();
    let there =
        names.into_iter().map(|name| SegmentFile { name, closed: true }).collect::<Vec<_>>();
    m.trim(open_seq, r.protected_from(), &there)
}

#[test]
fn stopped_recording_keeps_its_segments() {
    let mut m = SegmentManager::new("/s".to_string(), 60, 15);
    let none = vec![];
    let mut r = Recorder::new();
    r.dispatch(Action::RecordStart, &m, "/s", &none, 0, 0, 1, 60, 0);
    assert_eq!(r.protected_from(), Some(0));
    match r.dispatch(Action::RecordStop, &m, "/s", &none, 3600, 60, 1, 60, 0) {
        Decision::SaveRecording { parts } => {
            let want = InputWindow { start: 0, end: 3600, fps: 60 };
            assert_eq!(outline(parts), vec![((0..=60).collect(), want, 3660)]);
        }
        _ => panic!("a recording was expected"),
    }
    assert_eq!(r.protected_from(), Some(0));
    assert!(trimmed(&mut m, &r, 60).is_empty());
    assert!(trimmed(&mut m, &r, 99).is_empty());
    r.saved();
    assert_eq!(r.protected_from(), None);
    assert_eq!(trimmed(&mut m, &r, 60), (0..45).collect::<Vec<usize>>());
}

#[test]
fn queued_outputs_keep_their_segments() {
    let m = manager(&["seg_3.mkv", "seg_4.mkv", "seg_5.mkv"]);
    let all = vec![3, 4, 5];
    let mut r = Recorder::new();
    r.dispatch(Action::Clip, &m, "/s", &all, 24, 6, 2, 60, 0);
    assert_eq!((r.pending, r.protected_from()), (1, Some(4)));
    r.dispatch(Action::Clip, &m, "/s", &all, 24, 6, 3, 60, 0);
    assert_eq!((r.pending, r.protected_from()), (2, Some(3)));
    r.dispatch(Action::RecordStart, &m, "/s", &all, 24, 6, 3, 60, 0);
    r.saved();
    assert_eq!((r.pending, r.protected_from()), (1, Some(3)));
    r.saved();
    assert_eq!((r.pending, r.protected_from()), (0, Some(6)));
    r.dispatch(Action::RecordStop, &m, "/s", &all, 200, 50, 3, 4, 10);
    assert_eq!((r.pending, r.protected_from()), (5, Some(6)));
    for left in (0..5).rev() {
        r.saved();
        assert_eq!(r.pending, left);
    }
    assert_eq!(r, Recorder::new());
}

#[test]
fn waiting_for_the_tail() {
    assert_eq!(wait_for_frame_count(false, 15, 16, 0), WaitStep::Sleep);
    assert_eq!(wait_for_frame_count(false, 16, 16, 0), WaitStep::Done);
    assert_eq!(wait_for_frame_count(true, 0, 16, 0), WaitStep::Done);
    assert_eq!(wait_for_frame_count(false, 0, 16, 30_000), WaitStep::Sleep);
    assert_eq!(wait_for_frame_count(false, 0, 16, 30_001), WaitStep::GiveUp);
}

#[test]
fn figures_and_kinds() {
    let mut m = DaemonMetrics::new();
    m.clip_queued("/c/a.mp4".to_string());
    m.record_queued("/r/b.mp4".to_string());
    assert_eq!((m.clips_saved, m.records_saved), (1, 1));
    assert_eq!(m.last_saved, "/r/b.mp4");
    m.clips_saved = u64::MAX;
    m.clip_queued(String::new());
    assert_eq!(m.clips_saved, 0);
    assert_eq!(OneShotKind::Clip.as_str(), "clip");
    assert_eq!(OneShotKind::Record.as_str(), "record");
    assert_eq!(one_shot_seconds(0), 1);
    assert_eq!(one_shot_seconds(9), 9);
    assert_eq!(one_shot_window(9), InputWindow { start: 0, end: 9, fps: 1 });
    let dirs = Storage::default_in("/o", "/t");
    assert_eq!(OneShotKind::Clip.output_dir(&dirs), "/o/RSClipping");
    assert_eq!(OneShotKind::Record.output_dir(&dirs), "/o/RSClippingRecordings");
}

fn choice(codec: Codec, backend: EncoderBackend, probes: &[bool]) -> String {
    match pick_encoder(codec, backend, &probes.to_vec()) {
        EncoderChoice::Use(e) => format!("use {e}"),
        EncoderChoice::Try(e) => format!("try {e}"),
        EncoderChoice::NoGpu => "none".to_string(),
    }
}

#[test]
fn picking_an_encoder() {
    assert_eq!(choice(Codec::H264, EncoderBackend::Cpu, &[]), "use libx264");
    assert_eq!(choice(Codec::VP9, EncoderBackend::Auto, &[]), "use libvpx-vp9");
    assert_eq!(choice(Codec::H264, EncoderBackend::Auto, &[]), "try h264_nvenc");
    assert_eq!(choice(Codec::H264, EncoderBackend::Auto, &[false]), "try h264_amf");
    assert_eq!(choice(Codec::H264, EncoderBackend::Auto, &[true]), "use h264_nvenc");
    assert_eq!(choice(Codec::H264, EncoderBackend::Auto, &[false, true]), "use h264_amf");
    assert_eq!(choice(Codec::H264, EncoderBackend::Auto, &[false, false]), "use libx264");
    assert_eq!(choice(Codec::AV1, EncoderBackend::Gpu, &[false, false]), "none");
    assert_eq!(choice(Codec::VP9, EncoderBackend::Gpu, &[]), "try libvpx-vp9");
    assert_eq!(gpu_candidates(Codec::AV1), vec!["av1_nvenc", "av1_qsv"]);
    assert_eq!(gpu_candidates(Codec::VP9), vec!["libvpx-vp9"]);
}

fn searched(
    configured: &str,
    exists: bool,
    works: bool,
    on_path: bool,
    which: Option<&str>,
    tried: &[bool],
) -> String {
    let which = which.map(|w| w.to_string());
    let candidates = strings(&["/a", "/b"]);
    match find_ffmpeg(configured, exists, works, on_path, which, &candidates, &tried.to_vec()) {
        FfmpegStep::Use(p) => format!("use {p}"),
        FfmpegStep::Try(p) => format!("try {p}"),
        FfmpegStep::Fail(FfmpegError::DoesNotRun) => "does not run".to_string(),
        FfmpegStep::Fail(FfmpegError::DoesNotExist) => "does not exist".to_string(),
        FfmpegStep::Fail(FfmpegError::NotFound) => "not found".to_string(),
    }
}

#[test]
fn finding_ffmpeg() {
    assert_eq!(searched("/f", true, true, false, None, &[]), "use /f");
    assert_eq!(searched("/f", true, false, true, None, &[]), "does not run");
    assert_eq!(searched("/f", false, true, true, None, &[]), "does not exist");
    assert_eq!(searched("", false, false, true, Some("/g"), &[]), "use /g");
    assert_eq!(searched("", false, false, true, None, &[]), "use ffmpeg");
    assert_eq!(searched("", true, true, false, Some("/g"), &[]), "try /a");
    assert_eq!(searched("", true, true, false, None, &[false]), "try /b");
    assert_eq!(searched("", true, true, false, None, &[false, true]), "use /b");
    assert_eq!(searched("", true, true, false, None, &[true]), "use /a");
    assert_eq!(searched("", true, true, false, None, &[false, false]), "not found");
    assert_eq!(
        ffmpeg_variables(),
        vec!["ProgramFiles", "ProgramFiles(x86)", "LOCALAPPDATA", "USERPROFILE"]
    );
    assert!(holds_packages("LOCALAPPDATA"));
    assert!(!holds_packages("ProgramFiles"));
    assert_eq!(which_ffmpeg("C:\\f.exe\r\nD:\\g.exe\r\n"), Some("C:\\f.exe".to_string()));
    assert_eq!(which_ffmpeg("\nx"), None);
    assert_eq!(which_ffmpeg(""), None);
    assert_eq!(
        ffmpeg_places("ProgramFiles"),
        vec!["ffmpeg\\bin\\ffmpeg.exe", "FFmpeg\\bin\\ffmpeg.exe"]
    );
    assert_eq!(ffmpeg_places("USERPROFILE")[0], "scoop\\shims\\ffmpeg.exe");
    assert!(ffmpeg_places("HOME").is_empty());
}

#[test]
fn names_by_time() {
    assert_eq!(base_at("", "clip", "2025-01-01_12-00-00"), "clip_2025-01-01_12-00-00");
    assert_eq!(base_at("p", "clip", "s"), "p_clip_s");
    let now = timestamped_base("", "clip");
    assert!(now.starts_with("clip_"));
    let stamp = &now["clip_".len()..];
    assert_eq!(stamp.len(), 19);
    for (i, c) in stamp.chars().enumerate() {
        match i {
            4 | 7 | 13 | 16 => assert_eq!(c, '-'),
            10 => assert_eq!(c, '_'),
            _ => assert!(c.is_ascii_digit()),
        }
    }
}

#[test]
fn the_loop_keeps_time() {
    let mut t = Ticker::new(10, 100);
    assert_eq!(t.wait_ns(100), 0);
    assert_eq!(t.wait_ns(104), 6);
    assert_eq!(t.wait_ns(117), 0);
    assert_eq!(t.wait_ns(120), 7);
    t.frame_captured();
    t.frame_captured();
    assert!(!t.poll_due(99 + POLL_GAP_NS));
    assert!(t.poll_due(100 + POLL_GAP_NS));
    assert!(!t.poll_due(101 + POLL_GAP_NS));
    assert_eq!(t.fps_due(99 + FPS_GAP_NS), None);
    assert_eq!(t.fps_due(100 + FPS_GAP_NS), Some(2));
    assert_eq!(t.fps_due(100 + 2 * FPS_GAP_NS), Some(0));
}
