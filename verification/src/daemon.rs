//! The daemon: what an action does, what waits for what, and the figures it
//! publishes.

use vstd::prelude::*;

use crate::capture::MonitorInfo;
use crate::config::{Action, Storage};
use crate::encoder::InputWindow;
use crate::segments::{range_segments, segment_run, SegmentInfo, SegmentManager};
use crate::segments;

verus! {

/// What a one-shot run makes.
#[derive(Debug, Clone, Copy, PartialEq, Eq, Structural)]
pub enum OneShotKind {
    Clip,
    Record,
}

impl OneShotKind {
    /// The kind's name, with which the names of its outputs begin.
    pub open spec fn name(self) -> Seq<char> {
        match self {
            OneShotKind::Clip => "clip"@,
            OneShotKind::Record => "record"@,
        }
    }

    /// The kind's name, with which the names of its outputs begin.
    pub fn as_str(&self) -> (r: &'static str)
        ensures
            r@ == self.name(),
    {
        match self {
            OneShotKind::Clip => "clip",
            OneShotKind::Record => "record",
        }
    }

    /// Where outputs of this kind go.
    pub open spec fn dir_in(self, storage: Storage) -> Seq<char> {
        match self {
            OneShotKind::Clip => storage.clip_dir@,
            OneShotKind::Record => storage.record_dir@,
        }
    }

    /// Where outputs of this kind go.
    pub fn output_dir<'a>(&self, storage: &'a Storage) -> (r: &'a str)
        ensures
            r@ == self.dir_in(*storage),
    {
        match self {
            OneShotKind::Clip => storage.clip_dir.as_str(),
            OneShotKind::Record => storage.record_dir.as_str(),
        }
    }
}

/// The stretch of time that the sidecar of a one-shot run covers: all of it.
pub fn one_shot_window(seconds: u32) -> (r: InputWindow)
    ensures
        r == (InputWindow { start: 0, end: seconds as u128, fps: 1 }),
{
    InputWindow { start: 0, end: seconds as u128, fps: 1 }
}

/// How long a one-shot run lasts: at least a second.
pub fn one_shot_seconds(seconds: u32) -> (r: u32)
    ensures
        r == if seconds == 0 {
            1
        } else {
            seconds
        },
{
    if seconds == 0 {
        1
    } else {
        seconds
    }
}

/// A saved clip or recording surfaced in the GUI.
#[derive(Debug)]
pub struct ClipInfo {
    pub name: String,
    pub size: u64,
    pub path: String,
}

impl Clone for ClipInfo {
    fn clone(&self) -> (r: ClipInfo)
        ensures
            r == *self,
    {
        ClipInfo { name: self.name.clone(), size: self.size, path: self.path.clone() }
    }
}

// ---------------------------------------------------------------------------
// Actions
// ---------------------------------------------------------------------------

/// Why an action does nothing.
#[derive(Debug, Clone, Copy, PartialEq, Eq, Structural)]
pub enum Ignored {
    /// No segment that the clip could be made of is finished yet.
    WarmingUp,
    /// A recording is in progress already.
    AlreadyRecording,
    /// No recording is in progress.
    NotRecording,
    /// The recording has fewer than two frames.
    TooShort,
}

/// What an action leads to.
#[derive(Debug)]
pub enum Decision {
    Nothing(Ignored),
    /// A clip of these segments is to be saved.
    SaveClip { segments: Vec<SegmentInfo>, window: InputWindow },
    /// A recording began at this frame.
    Started { frame: u64 },
    /// A recording is to be saved, each part as an output of its own.
    SaveRecording { parts: Vec<RecordingPart> },
}

/// A part of a recording that becomes one output.
#[derive(Debug)]
pub struct RecordingPart {
    pub segments: Vec<SegmentInfo>,
    pub window: InputWindow,
    /// How many frames have to be written until the last segment is closed.
    pub needed_frames: u64,
}

/// The recording in progress: the frame at which it began and the segment that
/// was open then. Also what the outputs need that were decided on and are not
/// written yet: how many there are, and the oldest segment of any of them.
#[derive(Debug, Clone, Copy, PartialEq, Eq, Structural)]
pub struct Recorder {
    pub recording_start: Option<u64>,
    pub record_start_seq: Option<u64>,
    pub pending_from: Option<u64>,
    pub pending: u64,
}

/// Outputs that were decided on: how many, and the oldest segment of them.
pub struct Queued {
    pub from: u64,
    pub count: u64,
}

impl Decision {
    /// The outputs that this asks for.
    pub open spec fn queued(self) -> Queued {
        match self {
            Decision::SaveClip { segments, .. } => Queued { from: segments@[0].seq, count: 1 },
            Decision::SaveRecording { parts } => Queued {
                from: parts@[0].segments@[0].seq,
                count: parts@.len() as u64,
            },
            _ => Queued { from: 0, count: 0 },
        }
    }
}

/// An action, with the frames written and the segment open when it is carried
/// out, and the outputs that it leads to.
pub struct Turn {
    pub action: Action,
    pub total_frames: u64,
    pub open_seq: u64,
    pub queued: Queued,
}

/// What happens to a recorder.
pub enum RecorderEvent {
    /// An action is carried out.
    Acted(Turn),
    /// An output is written, or given up.
    Saved,
}

/// The smaller of two segments, as far as they are there.
pub open spec fn earlier(a: Option<u64>, b: Option<u64>) -> Option<u64> {
    match (a, b) {
        (Some(x), Some(y)) => Some(
            if x < y {
                x
            } else {
                y
            },
        ),
        (Some(x), None) => Some(x),
        (None, _) => b,
    }
}

fn earlier_of(a: Option<u64>, b: Option<u64>) -> (r: Option<u64>)
    ensures
        r == earlier(a, b),
{
    match a {
        Some(x) => match b {
            Some(y) => Some(
                if x < y {
                    x
                } else {
                    y
                },
            ),
            None => Some(x),
        },
        None => b,
    }
}

/// The rate at which frames come: at least one a second.
pub open spec fn frame_rate(fps: u32) -> u32 {
    if fps == 0 {
        1
    } else {
        fps
    }
}

/// The frames of the `need` segments before the open one.
pub open spec fn clip_window(open_seq: u64, need: usize, frames: u64, fps: u32) -> InputWindow {
    InputWindow {
        start: if open_seq >= need {
            ((open_seq - need) * frames) as u128
        } else {
            0
        },
        end: (open_seq * frames) as u128,
        fps: frame_rate(fps),
    }
}

/// `n * frames`, or the largest number where that is too large.
pub open spec fn frames_up_to(n: int, frames: u64) -> u64 {
    if n * frames > u64::MAX {
        u64::MAX
    } else {
        (n * frames) as u64
    }
}

/// After how many frames a recording is split, or zero where it is not. An
/// output holds at least one whole segment.
pub open spec fn split_step(split_seconds: u32, fps: u32, frames: u64) -> int {
    let wanted = split_seconds * frame_rate(fps);
    if split_seconds == 0 {
        0
    } else if wanted < frames {
        frames as int
    } else {
        wanted
    }
}

/// A part that holds frames `from..to` of a recording: the segments from the
/// one in which it begins up to `last`.
pub open spec fn is_part(
    part: RecordingPart,
    dir: Seq<char>,
    from: int,
    to: int,
    last: int,
    frames: u64,
    fps: u32,
) -> bool {
    &&& segments::is_run(
        part.segments@,
        dir,
        segments::segment_of(from, frames as int),
        last,
    )
    &&& part.window == (InputWindow { start: from as u128, end: to as u128, fps: frame_rate(fps) })
    &&& part.needed_frames == frames_up_to(last + 1, frames)
}

/// `parts` are the outputs of a recording of the frames `start..end`: one for
/// each `step` frames and one for what is left, or a single one where `step` is
/// zero. A segment in which one part ends and the next begins goes to the next.
pub open spec fn is_split(
    parts: Seq<RecordingPart>,
    dir: Seq<char>,
    start: int,
    end: int,
    step: int,
    frames: u64,
    fps: u32,
) -> bool {
    let n = parts.len() as int;
    &&& n >= 1
    &&& step == 0 ==> n == 1
    &&& step > 0 ==> (n - 1) * step < end - start <= n * step
    &&& forall|k: int|
        #![trigger parts[k]]
        0 <= k < n - 1 ==> is_part(
            parts[k],
            dir,
            start + k * step,
            start + (k + 1) * step,
            segments::segment_of(start + (k + 1) * step, frames as int) - 1,
            frames,
            fps,
        )
    &&& is_part(
        parts[n - 1],
        dir,
        start + (n - 1) * step,
        end,
        segments::segment_of(end, frames as int),
        frames,
        fps,
    )
}

fn recording_part(
    segments: Vec<SegmentInfo>,
    from: u64,
    to: u64,
    last: u64,
    frames: u64,
    fps: u32,
) -> (part: RecordingPart)
    requires
        last < u64::MAX,
    ensures
        part.segments == segments,
        part.window == (InputWindow { start: from as u128, end: to as u128, fps: frame_rate(fps) }),
        part.needed_frames == frames_up_to(last + 1, frames),
{
    let rate: u32 = if fps == 0 {
        1
    } else {
        fps
    };
    let window = InputWindow { start: from as u128, end: to as u128, fps: rate };
    RecordingPart { segments, window, needed_frames: frames_through(last + 1, frames) }
}

/// The outputs of a recording of the frames `start..end`, which is split every
/// `split_seconds`, or not at all where that is zero.
pub fn split_recording(
    seg_dir: &str,
    start: u64,
    end: u64,
    frames: u64,
    split_seconds: u32,
    fps: u32,
) -> (parts: Vec<RecordingPart>)
    requires
        frames > 0,
        start < end < u64::MAX,
    ensures
        is_split(
            parts@,
            seg_dir@,
            start as int,
            end as int,
            split_step(split_seconds, fps, frames),
            frames,
            fps,
        ),
{
    let rate: u32 = if fps == 0 {
        1
    } else {
        fps
    };
    assert(0 <= split_seconds * rate <= u32::MAX * u32::MAX) by (nonlinear_arith)
        requires
            0 <= split_seconds <= u32::MAX,
            0 <= rate <= u32::MAX,
    ;
    let wanted: u64 = split_seconds as u64 * rate as u64;
    let step: u64 = if split_seconds == 0 {
        0
    } else if wanted < frames {
        frames
    } else {
        wanted
    };
    let mut parts: Vec<RecordingPart> = Vec::new();
    let mut from: u64 = start;
    assert(0 * step == 0) by (nonlinear_arith);
    while step > 0 && end - from > step
        invariant
            frames > 0,
            step > 0 ==> step >= frames,
            step == 0 ==> parts@.len() == 0,
            start <= from < end < u64::MAX,
            from == start + parts@.len() * step,
            forall|k: int|
                #![trigger parts@[k]]
                0 <= k < parts@.len() ==> is_part(
                    parts@[k],
                    seg_dir@,
                    start + k * step,
                    start + (k + 1) * step,
                    segments::segment_of(start + (k + 1) * step, frames as int) - 1,
                    frames,
                    fps,
                ),
        decreases end - from,
    {
        let to: u64 = from + step;
        proof {
            let n = parts@.len();
            assert((n + 1) * step == n * step + step) by (nonlinear_arith);
            vstd::arithmetic::div_mod::lemma_div_non_zero(to as int, frames as int);
        }
        let last: u64 = to / frames - 1;
        let segments = segment_run(seg_dir, from / frames, last);
        let part = recording_part(segments, from, to, last, frames, fps);
        parts.push(part);
        from = to;
    }
    proof {
        let n = parts@.len();
        assert((n + 1) * step == n * step + step) by (nonlinear_arith);
        vstd::arithmetic::div_mod::lemma_div_is_ordered_by_denominator(
            end as int,
            1,
            frames as int,
        );
    }
    let segments = range_segments(seg_dir, from, end, frames);
    let part = recording_part(segments, from, end, end / frames, frames, fps);
    parts.push(part);
    parts
}

/// There are segments, and none of them is older than `from`.
pub open spec fn needs_only_from(segs: Seq<SegmentInfo>, from: u64) -> bool {
    &&& segs.len() > 0
    &&& forall|i: int| 0 <= i < segs.len() ==> from <= (#[trigger] segs[i]).seq
}

impl Recorder {
    /// Nothing is being recorded, and no output is to be written.
    pub fn new() -> (r: Recorder)
        ensures
            r.recording_start is None,
            r.record_start_seq is None,
            r.pending_from is None,
            r.pending == 0,
            r.valid(),
    {
        Recorder { recording_start: None, record_start_seq: None, pending_from: None, pending: 0 }
    }

    /// Of a recording both are known or neither is, and a segment is held for
    /// outputs exactly while there are any.
    pub open spec fn valid(self) -> bool {
        &&& self.recording_start is Some <==> self.record_start_seq is Some
        &&& self.pending > 0 <==> self.pending_from is Some
    }

    /// The oldest segment that the recording in progress or an output not
    /// written yet needs, where there is one.
    pub open spec fn needed_from(self) -> Option<u64> {
        earlier(self.record_start_seq, self.pending_from)
    }

    /// The oldest segment that has to stay, whatever the rolling window holds.
    pub fn protected_from(&self) -> (r: Option<u64>)
        ensures
            r == self.needed_from(),
    {
        earlier_of(self.record_start_seq, self.pending_from)
    }

    /// The recorder with more outputs to wait for.
    pub open spec fn awaiting(self, q: Queued) -> Recorder {
        if q.count == 0 {
            self
        } else {
            Recorder {
                pending_from: earlier(self.pending_from, Some(q.from)),
                pending: (self.pending + q.count) as u64,
                ..self
            }
        }
    }

    fn wait_for(&mut self, from: u64, count: u64)
        requires
            old(self).pending + count <= u64::MAX,
            count > 0,
        ensures
            *final(self) == old(self).awaiting(Queued { from, count }),
    {
        self.pending_from = earlier_of(self.pending_from, Some(from));
        self.pending = self.pending + count;
    }

    /// The recorder with one output less to wait for.
    pub open spec fn after_saved(self) -> Recorder {
        if self.pending == 0 {
            self
        } else {
            Recorder {
                pending_from: if self.pending == 1 {
                    None
                } else {
                    self.pending_from
                },
                pending: (self.pending - 1) as u64,
                ..self
            }
        }
    }

    /// Takes note that an output is written, or given up. With the last one
    /// the segments held for outputs are let go.
    pub fn saved(&mut self)
        requires
            old(self).valid(),
        ensures
            final(self).valid(),
            *final(self) == old(self).after_saved(),
    {
        if self.pending > 0 {
            self.pending = self.pending - 1;
            if self.pending == 0 {
                self.pending_from = None;
            }
        }
    }

    /// The recorder after an action. A start begins a recording, unless one is
    /// in progress; a stop ends it; a clip leaves it alone. What an action
    /// leads to has to be waited for.
    pub open spec fn after(self, turn: Turn, frames: u64) -> Recorder {
        let then = match turn.action {
            Action::Clip => self,
            Action::RecordStart => if self.recording_start is Some {
                self
            } else {
                let at = segments::segment_of(turn.total_frames as int, frames as int);
                Recorder {
                    recording_start: Some(turn.total_frames),
                    record_start_seq: Some(
                        if at < turn.open_seq {
                            at as u64
                        } else {
                            turn.open_seq
                        },
                    ),
                    ..self
                }
            },
            Action::RecordStop => Recorder {
                recording_start: None,
                record_start_seq: None,
                ..self
            },
        };
        then.awaiting(turn.queued)
    }

    /// The recorder after one event after the other.
    pub open spec fn after_all(self, events: Seq<RecorderEvent>, frames: u64) -> Recorder
        decreases events.len(),
    {
        if events.len() == 0 {
            self
        } else {
            let before = self.after_all(events.drop_last(), frames);
            match events.last() {
                RecorderEvent::Acted(turn) => before.after(turn, frames),
                RecorderEvent::Saved => before.after_saved(),
            }
        }
    }

    /// Carries out an action. `total_frames` frames were written, segment
    /// `open_seq` is being written, `present` names the segments whose file is
    /// there, and a clip is `need` segments long. `seg_dir` is where segments
    /// are. A recording is split every `split_seconds`, or not at all where
    /// that is zero.
    pub fn dispatch(
        &mut self,
        action: Action,
        manager: &SegmentManager,
        seg_dir: &str,
        present: &Vec<u64>,
        total_frames: u64,
        open_seq: u64,
        need: usize,
        fps: u32,
        split_seconds: u32,
    ) -> (r: Decision)
        requires
            manager.valid(),
            old(self).valid(),
            old(self).pending + total_frames < u64::MAX,
        ensures
            final(self).valid(),
            *final(self) == old(self).after(
                Turn { action, total_frames, open_seq, queued: r.queued() },
                manager.frames(),
            ),
            match action {
                Action::Clip => match r {
                    Decision::SaveClip { segments, window } => {
                        &&& segments@.len() > 0
                        &&& forall|i: int|
                            #![trigger segments@[i]]
                            0 <= i < segments@.len() ==> segments@[i].seq < open_seq
                                && present@.contains(segments@[i].seq)
                                && manager.known().contains_key(segments@[i].seq)
                        &&& final(self).needed_from() is Some
                        &&& needs_only_from(segments@, final(self).needed_from()->0)
                        &&& window == clip_window(open_seq, need, manager.frames(), fps)
                        &&& exists|all: Seq<SegmentInfo>|
                            {
                                &&& #[trigger] segments::lists(
                                    all,
                                    manager.known(),
                                    segments::finished(open_seq, present@),
                                )
                                &&& segments@ == segments::most_recent(all, need as nat)
                            }
                    },
                    Decision::Nothing(why) => why == Ignored::WarmingUp && (need == 0
                        || forall|seq: u64|
                        #![trigger manager.known().contains_key(seq)]
                        seq < open_seq && present@.contains(seq) ==> !manager.known().contains_key(
                            seq,
                        )),
                    _ => false,
                },
                Action::RecordStart => r == if old(self).recording_start is Some {
                    Decision::Nothing(Ignored::AlreadyRecording)
                } else {
                    Decision::Started { frame: total_frames }
                },
                Action::RecordStop => match old(self).recording_start {
                    None => r == Decision::Nothing(Ignored::NotRecording),
                    Some(start) => if total_frames - start < 2 {
                        r == Decision::Nothing(Ignored::TooShort)
                    } else {
                        r matches Decision::SaveRecording { parts } && is_split(
                            parts@,
                            seg_dir@,
                            start as int,
                            total_frames as int,
                            split_step(split_seconds, fps, manager.frames()),
                            manager.frames(),
                            fps,
                        ) && final(self).needed_from() is Some && forall|k: int|
                            #![trigger parts@[k]]
                            0 <= k < parts@.len() ==> needs_only_from(
                                parts@[k].segments@,
                                final(self).needed_from()->0,
                            )
                    },
                },
            },
    {
        let rate: u32 = if fps == 0 {
            1
        } else {
            fps
        };
        let frames = manager.segment_frames();
        match action {
            Action::Clip => {
                let segments = manager.take_last(open_seq, need, present);
                let ghost all = choose|all: Seq<SegmentInfo>|
                    {
                        &&& #[trigger] segments::lists(
                            all,
                            manager.known(),
                            segments::finished(open_seq, present@),
                        )
                        &&& segments@ == segments::most_recent(all, need as nat)
                    };
                if segments.len() == 0 {
                    if need == 0 {
                        return Decision::Nothing(Ignored::WarmingUp);
                    }
                    proof {
                        assert(all.len() == 0);
                        assert forall|seq: u64|
                            #![trigger manager.known().contains_key(seq)]
                            seq < open_seq && present@.contains(seq) implies !manager.known().contains_key(
                            seq,
                        ) by {
                            assert(segments::finished(open_seq, present@)(seq));
                        }
                    }
                    return Decision::Nothing(Ignored::WarmingUp);
                }
                proof {
                    let skipped = all.len() - segments@.len();
                    assert forall|i: int| #![trigger segments@[i]] 0 <= i < segments@.len() implies segments@[i].seq
                        < open_seq && present@.contains(segments@[i].seq)
                        && manager.known().contains_key(segments@[i].seq) by {
                        assert(segments@[i] == all[skipped + i]);
                        assert(segments::finished(open_seq, present@)(all[skipped + i].seq));
                    }
                    assert forall|i: int| #![trigger segments@[i]] 0 <= i < segments@.len() implies segments@[0].seq
                        <= segments@[i].seq by {
                        assert(segments@[i] == all[skipped + i]);
                        assert(segments@[0] == all[skipped + 0]);
                    }
                }
                let wide = need as u64;
                let first: u64 = if open_seq >= wide {
                    open_seq - wide
                } else {
                    0
                };
                proof {
                    assert(0 <= first * frames <= u64::MAX * u64::MAX) by (nonlinear_arith)
                        requires
                            0 <= first <= u64::MAX,
                            0 <= frames <= u64::MAX,
                    ;
                    assert(0 <= open_seq * frames <= u64::MAX * u64::MAX) by (nonlinear_arith)
                        requires
                            0 <= open_seq <= u64::MAX,
                            0 <= frames <= u64::MAX,
                    ;
                    assert(first == 0 ==> first * frames == 0) by (nonlinear_arith);
                }
                let window = InputWindow {
                    start: first as u128 * frames as u128,
                    end: open_seq as u128 * frames as u128,
                    fps: rate,
                };
                self.wait_for(segments[0].seq, 1);
                Decision::SaveClip { segments, window }
            },
            Action::RecordStart => {
                if self.recording_start.is_some() {
                    return Decision::Nothing(Ignored::AlreadyRecording);
                }
                let at = manager.segment_of_frame(total_frames);
                self.recording_start = Some(total_frames);
                self.record_start_seq = Some(
                    if at < open_seq {
                        at
                    } else {
                        open_seq
                    },
                );
                Decision::Started { frame: total_frames }
            },
            Action::RecordStop => {
                let begun = self.recording_start;
                self.recording_start = None;
                self.record_start_seq = None;
                match begun {
                    None => Decision::Nothing(Ignored::NotRecording),
                    Some(start) => {
                        if total_frames < start || total_frames - start < 2 {
                            return Decision::Nothing(Ignored::TooShort);
                        }
                        let parts = split_recording(
                            seg_dir,
                            start,
                            total_frames,
                            frames,
                            split_seconds,
                            fps,
                        );
                        proof {
                            lemma_parts_need(
                                parts@,
                                seg_dir@,
                                start as int,
                                total_frames as int,
                                split_step(split_seconds, fps, frames),
                                frames,
                                fps,
                            );
                        }
                        self.wait_for(parts[0].segments[0].seq, parts.len() as u64);
                        Decision::SaveRecording { parts }
                    },
                }
            },
        }
    }
}

fn frames_through(n: u64, frames: u64) -> (r: u64)
    ensures
        r == frames_up_to(n as int, frames),
{
    assert(0 <= n * frames <= u64::MAX * u64::MAX) by (nonlinear_arith)
        requires
            0 <= n <= u64::MAX,
            0 <= frames <= u64::MAX,
    ;
    let product: u128 = n as u128 * frames as u128;
    if product > u64::MAX as u128 {
        u64::MAX
    } else {
        product as u64
    }
}

// ---------------------------------------------------------------------------
// Waiting for the last segment
// ---------------------------------------------------------------------------

/// No recording waits longer than this for its last segment, in milliseconds.
pub const MAX_WAIT_MS: u64 = 30_000;

/// What to do about a segment that may still be open.
#[derive(Debug, Clone, Copy, PartialEq, Eq, Structural)]
pub enum WaitStep {
    /// It is closed, or the daemon stops.
    Done,
    /// It is not closed yet: look again later.
    Sleep,
    /// It took too long; the tail may be truncated.
    GiveUp,
}

/// Wait until the frame count has passed `needed_frames` (i.e. the tail
/// segment is closed). `waited_ms` is how long it took so far.
pub fn wait_for_frame_count(stopped: bool, frames: u64, needed_frames: u64, waited_ms: u64) -> (r:
    WaitStep)
    ensures
        r == if waited_ms > MAX_WAIT_MS {
            WaitStep::GiveUp
        } else if stopped || frames >= needed_frames {
            WaitStep::Done
        } else {
            WaitStep::Sleep
        },
        r == WaitStep::GiveUp <==> waited_ms > 30_000,
        r == WaitStep::Sleep ==> frames < needed_frames,
{
    if waited_ms > MAX_WAIT_MS {
        WaitStep::GiveUp
    } else if stopped || frames >= needed_frames {
        WaitStep::Done
    } else {
        WaitStep::Sleep
    }
}

// ---------------------------------------------------------------------------
// The loop's clock
// ---------------------------------------------------------------------------

/// How often segments are trimmed and figures published, in nanoseconds.
pub const POLL_GAP_NS: u64 = 500_000_000;

/// Over how long frames are counted for the frame rate, in nanoseconds.
pub const FPS_GAP_NS: u64 = 1_000_000_000;

/// When the next frame is due, and when upkeep is. Times are nanoseconds on a
/// clock that never runs back.
#[derive(Debug, Clone, Copy, PartialEq, Eq, Structural)]
pub struct Ticker {
    pub interval_ns: u64,
    pub next_ns: u64,
    pub last_poll_ns: u64,
    pub fps_start_ns: u64,
    pub fps_frames: u64,
}

impl Ticker {
    /// Starts now: a frame is due at once.
    pub fn new(interval_ns: u64, now_ns: u64) -> (t: Ticker)
        ensures
            t == (Ticker {
                interval_ns,
                next_ns: now_ns,
                last_poll_ns: now_ns,
                fps_start_ns: now_ns,
                fps_frames: 0,
            }),
    {
        Ticker {
            interval_ns,
            next_ns: now_ns,
            last_poll_ns: now_ns,
            fps_start_ns: now_ns,
            fps_frames: 0,
        }
    }

    /// How long to wait for the next frame, or zero where it is due. The one
    /// after it is due an interval later.
    pub fn wait_ns(&mut self, now_ns: u64) -> (r: u64)
        requires
            now_ns + old(self).interval_ns <= u64::MAX,
        ensures
            now_ns < old(self).next_ns ==> r == old(self).next_ns - now_ns && *final(self) == *old(
                self,
            ),
            now_ns >= old(self).next_ns ==> r == 0 && *final(self) == (Ticker {
                next_ns: (now_ns + old(self).interval_ns) as u64,
                ..*old(self)
            }),
    {
        if now_ns < self.next_ns {
            return self.next_ns - now_ns;
        }
        self.next_ns = now_ns + self.interval_ns;
        0
    }

    /// Takes note that a frame was captured.
    pub fn frame_captured(&mut self)
        requires
            old(self).fps_frames < u64::MAX,
        ensures
            *final(self) == (Ticker {
                fps_frames: (old(self).fps_frames + 1) as u64,
                ..*old(self)
            }),
    {
        self.fps_frames = self.fps_frames + 1;
    }

    /// Whether upkeep is due.
    pub fn poll_due(&mut self, now_ns: u64) -> (r: bool)
        ensures
            r == (now_ns - old(self).last_poll_ns >= POLL_GAP_NS),
            r <==> now_ns >= old(self).last_poll_ns + 500_000_000,
            *final(self) == if r {
                (Ticker { last_poll_ns: now_ns, ..*old(self) })
            } else {
                *old(self)
            },
    {
        if now_ns < self.last_poll_ns || now_ns - self.last_poll_ns < POLL_GAP_NS {
            return false;
        }
        self.last_poll_ns = now_ns;
        true
    }

    /// The frames captured since the last count, where a new count is due.
    pub fn fps_due(&mut self, now_ns: u64) -> (r: Option<u64>)
        ensures
            now_ns - old(self).fps_start_ns >= FPS_GAP_NS ==> r == Some(old(self).fps_frames)
                && *final(self) == (Ticker { fps_frames: 0, fps_start_ns: now_ns, ..*old(self) }),
            now_ns - old(self).fps_start_ns < FPS_GAP_NS ==> r is None && *final(self) == *old(
                self,
            ),
            r is Some <==> now_ns >= old(self).fps_start_ns + 1_000_000_000,
    {
        if now_ns < self.fps_start_ns || now_ns - self.fps_start_ns < FPS_GAP_NS {
            return None;
        }
        let frames = self.fps_frames;
        self.fps_frames = 0;
        self.fps_start_ns = now_ns;
        Some(frames)
    }
}

// ---------------------------------------------------------------------------
// Figures
// ---------------------------------------------------------------------------

/// Live stats published by the daemon for the GUI / status consumers.
#[derive(Debug)]
pub struct DaemonMetrics {
    pub fps: u64,
    pub total_frames: u64,
    pub segments_on_disk: u64,
    pub clips_saved: u64,
    pub records_saved: u64,
    pub recording: bool,
    pub monitors: u64,
    /// Width x Height of the captured monitor.
    pub resolution: String,
    /// Resolved ffmpeg encoder name (e.g. libx264 / h264_nvenc).
    pub encoder: String,
    /// Most recently queued output path (usually while still being saved).
    pub last_saved: String,
    /// Fatal daemon error, if any (surfaces in the GUI).
    pub last_error: String,
    /// List of available monitors with their resolutions.
    pub monitor_list: Vec<MonitorInfo>,
}

/// A count with one more.
pub open spec fn counted(n: u64) -> u64 {
    if n == u64::MAX {
        0
    } else {
        (n + 1) as u64
    }
}

impl DaemonMetrics {
    pub fn new() -> (m: DaemonMetrics)
        ensures
            m.fps == 0,
            m.total_frames == 0,
            m.segments_on_disk == 0,
            m.clips_saved == 0,
            m.records_saved == 0,
            !m.recording,
            m.monitors == 0,
            m.resolution@.len() == 0,
            m.encoder@.len() == 0,
            m.last_saved@.len() == 0,
            m.last_error@.len() == 0,
            m.monitor_list@.len() == 0,
    {
        DaemonMetrics {
            fps: 0,
            total_frames: 0,
            segments_on_disk: 0,
            clips_saved: 0,
            records_saved: 0,
            recording: false,
            monitors: 0,
            resolution: String::new(),
            encoder: String::new(),
            last_saved: String::new(),
            last_error: String::new(),
            monitor_list: Vec::new(),
        }
    }

    /// A clip was queued.
    pub fn clip_queued(&mut self, destination: String)
        ensures
            *final(self) == (DaemonMetrics {
                last_saved: destination,
                clips_saved: counted(old(self).clips_saved),
                ..*old(self)
            }),
            old(self).clips_saved < u64::MAX ==> final(self).clips_saved == old(self).clips_saved
                + 1,
    {
        self.last_saved = destination;
        self.clips_saved = self.clips_saved.wrapping_add(1);
    }

    /// A recording was queued.
    pub fn record_queued(&mut self, destination: String)
        ensures
            *final(self) == (DaemonMetrics {
                last_saved: destination,
                records_saved: counted(old(self).records_saved),
                ..*old(self)
            }),
            old(self).records_saved < u64::MAX ==> final(self).records_saved == old(
                self,
            ).records_saved + 1,
    {
        self.last_saved = destination;
        self.records_saved = self.records_saved.wrapping_add(1);
    }
}

// ---------------------------------------------------------------------------
// Laws
// ---------------------------------------------------------------------------

/// While a recording is in progress, none of the segments that it will be
/// made of is trimmed: not the one in which it began, nor any after it.
pub proof fn recording_is_never_trimmed(
    r: Recorder,
    start_frame: int,
    frames: int,
    open_at_start: u64,
    open_seq: int,
    history: int,
    frame: int,
)
    requires
        frames >= 1,
        0 <= start_frame <= frame,
        ({
            let at = segments::segment_of(start_frame, frames);
            let from = if at < open_at_start {
                at
            } else {
                open_at_start as int
            };
            r.record_start_seq == Some(from as u64)
        }),
    ensures
        segments::oldest_kept(open_seq, history, r.needed_from()) <= segments::segment_of(
            frame,
            frames,
        ),
{
    vstd::arithmetic::div_mod::lemma_div_is_ordered(start_frame, frame, frames);
    vstd::arithmetic::div_mod::lemma_div_pos_is_pos(start_frame, frames);
}

/// How many outputs the actions among the events led to.
pub open spec fn queued_in(events: Seq<RecorderEvent>) -> int
    decreases events.len(),
{
    if events.len() == 0 {
        0
    } else {
        queued_in(events.drop_last()) + match events.last() {
            RecorderEvent::Acted(turn) => turn.queued.count as int,
            RecorderEvent::Saved => 0,
        }
    }
}

/// How many outputs were written, or given up, among the events.
pub open spec fn saved_in(events: Seq<RecorderEvent>) -> int
    decreases events.len(),
{
    if events.len() == 0 {
        0
    } else {
        saved_in(events.drop_last()) + if events.last() is Saved {
            1int
        } else {
            0
        }
    }
}

/// Whether at every point of the events at least `least` outputs were still to
/// be written, where there were `before` in front of them.
pub open spec fn always_pending(events: Seq<RecorderEvent>, before: int, least: int) -> bool {
    forall|i: int|
        0 <= i <= events.len() ==> before + queued_in(#[trigger] events.take(i)) - saved_in(
            events.take(i),
        ) >= least
}

proof fn lemma_counts_not_negative(events: Seq<RecorderEvent>)
    ensures
        queued_in(events) >= 0,
        saved_in(events) >= 0,
    decreases events.len(),
{
    if events.len() > 0 {
        lemma_counts_not_negative(events.drop_last());
    }
}

proof fn lemma_always_pending_front(events: Seq<RecorderEvent>, before: int, least: int)
    requires
        always_pending(events, before, least),
        events.len() > 0,
    ensures
        always_pending(events.drop_last(), before, least),
        before + queued_in(events) - saved_in(events) >= least,
        queued_in(events.drop_last()) <= queued_in(events),
        saved_in(events.drop_last()) >= 0,
{
    lemma_counts_not_negative(events.drop_last());
    let front = events.drop_last();
    assert forall|i: int| 0 <= i <= front.len() implies before + queued_in(
        #[trigger] front.take(i),
    ) - saved_in(front.take(i)) >= least by {
        assert(front.take(i) =~= events.take(i));
    }
    assert(events.take(events.len() as int) =~= events);
}

/// Outputs are counted off one by one: those still to be written are those
/// asked for without those reported. With the last one, nothing is held any
/// more but a recording in progress.
pub proof fn outputs_are_counted_off(r: Recorder, events: Seq<RecorderEvent>, frames: u64)
    requires
        r.valid(),
        r.pending + queued_in(events) <= u64::MAX,
        always_pending(events, r.pending as int, 0),
    ensures
        ({
            let then = r.after_all(events, frames);
            &&& then.valid()
            &&& then.pending == r.pending + queued_in(events) - saved_in(events)
            &&& then.pending == 0 ==> then.needed_from() == then.record_start_seq
        }),
    decreases events.len(),
{
    if events.len() > 0 {
        lemma_always_pending_front(events, r.pending as int, 0);
        outputs_are_counted_off(r, events.drop_last(), frames);
    }
}

proof fn lemma_still_held(r: Recorder, events: Seq<RecorderEvent>, frames: u64, from: u64)
    requires
        r.valid(),
        r.pending_from is Some && r.pending_from->0 <= from,
        r.pending + queued_in(events) <= u64::MAX,
        always_pending(events, r.pending as int, 1),
    ensures
        r.after_all(events, frames).pending_from is Some,
        r.after_all(events, frames).pending_from->0 <= from,
        r.after_all(events, frames).pending == r.pending + queued_in(events) - saved_in(events),
    decreases events.len(),
{
    if events.len() > 0 {
        lemma_always_pending_front(events, r.pending as int, 1);
        lemma_still_held(r, events.drop_last(), frames, from);
    }
}

/// From the action that asks for an output until the output is written, none
/// of its segments is trimmed, whatever happens in between and however short
/// the rolling window is. The output itself is still to be written as long as
/// it has not been reported, so that at every point at least one is.
pub proof fn pending_output_is_never_trimmed(
    r: Recorder,
    turn: Turn,
    events: Seq<RecorderEvent>,
    frames: u64,
    open_seq: int,
    history: int,
    seq: int,
)
    requires
        r.valid(),
        turn.queued.count > 0,
        turn.queued.from <= seq,
        r.pending + turn.queued.count + queued_in(events) <= u64::MAX,
        always_pending(events, r.pending + turn.queued.count, 1),
    ensures
        ({
            let then = r.after(turn, frames).after_all(events, frames);
            &&& then.needed_from() is Some
            &&& segments::oldest_kept(open_seq, history, then.needed_from()) <= seq
        }),
{
    assert(events.take(0).len() == 0);
    lemma_counts_not_negative(events);
    lemma_still_held(r.after(turn, frames), events, frames, turn.queued.from);
}

/// The last start or stop among the events.
pub open spec fn last_turn(events: Seq<RecorderEvent>) -> Option<Action>
    decreases events.len(),
{
    if events.len() == 0 {
        None
    } else {
        match events.last() {
            RecorderEvent::Acted(turn) => if turn.action is Clip {
                last_turn(events.drop_last())
            } else {
                Some(turn.action)
            },
            RecorderEvent::Saved => last_turn(events.drop_last()),
        }
    }
}

/// Whatever happens, in whatever order: a recording is in progress exactly
/// where the last start or stop was a start. Before any of them, it stays as it
/// is.
pub proof fn last_turn_decides(r: Recorder, events: Seq<RecorderEvent>, frames: u64)
    requires
        r.recording_start is Some <==> r.record_start_seq is Some,
    ensures
        ({
            let then = r.after_all(events, frames);
            &&& then.recording_start is Some <==> then.record_start_seq is Some
            &&& match last_turn(events) {
                Some(action) => then.recording_start is Some <==> action is RecordStart,
                None => then.recording_start == r.recording_start && then.record_start_seq
                    == r.record_start_seq,
            }
        }),
    decreases events.len(),
{
    if events.len() > 0 {
        last_turn_decides(r, events.drop_last(), frames);
    }
}

/// A recording holds everything from the start that began it: neither clips,
/// nor further starts, nor outputs being written move its beginning.
pub proof fn recording_keeps_its_beginning(
    r: Recorder,
    start: Turn,
    events: Seq<RecorderEvent>,
    frames: u64,
)
    requires
        r.recording_start is None,
        start.action is RecordStart,
        forall|i: int|
            0 <= i < events.len() ==> !((#[trigger] events[i]) matches RecorderEvent::Acted(turn)
                && turn.action is RecordStop),
    ensures
        ({
            let began = r.after(start, frames);
            let then = began.after_all(events, frames);
            &&& began.recording_start == Some(start.total_frames)
            &&& then.recording_start == began.recording_start
            &&& then.record_start_seq == began.record_start_seq
        }),
    decreases events.len(),
{
    if events.len() > 0 {
        let front = events.drop_last();
        assert forall|i: int| 0 <= i < front.len() implies !((
        #[trigger] front[i]) matches RecorderEvent::Acted(turn) && turn.action is RecordStop) by {
            assert(front[i] == events[i]);
        }
        recording_keeps_its_beginning(r, start, front, frames);
        let last = events[events.len() - 1];
        assert(!(last matches RecorderEvent::Acted(turn) && turn.action is RecordStop));
    }
}

/// Where part `k` of a split recording begins and ends, counted in segments.
proof fn lemma_part_bounds(
    parts: Seq<RecordingPart>,
    dir: Seq<char>,
    start: int,
    end: int,
    step: int,
    frames: u64,
    fps: u32,
    k: int,
)
    requires
        is_split(parts, dir, start, end, step, frames, fps),
        0 <= start < end,
        frames > 0,
        step == 0 || step >= frames,
        0 <= k < parts.len(),
    ensures
        ({
            let f = frames as int;
            let first = segments::segment_of(start + k * step, f);
            let last = if k == parts.len() - 1 {
                segments::segment_of(end, f)
            } else {
                segments::segment_of(start + (k + 1) * step, f) - 1
            };
            &&& 0 <= first <= last
            &&& segments::is_run(parts[k].segments@, dir, first, last)
            &&& parts[k].segments@.len() > 0
            &&& parts[k].segments@[0].seq == first
            &&& parts[k].segments@.last().seq == last
        }),
{
    let f = frames as int;
    let n = parts.len() as int;
    assert(0 <= k * step <= (n - 1) * step) by (nonlinear_arith)
        requires
            0 <= k <= n - 1,
            0 <= step,
    ;
    assert((k + 1) * step == k * step + step) by (nonlinear_arith);
    let from = start + k * step;
    vstd::arithmetic::div_mod::lemma_div_pos_is_pos(from, f);
    if k == n - 1 {
        if n == 1 {
            assert(k * step == 0) by (nonlinear_arith)
                requires
                    k == 0,
            ;
        }
        vstd::arithmetic::div_mod::lemma_div_is_ordered(from, end, f);
        assert(parts[k] == parts[n - 1]);
    } else {
        vstd::arithmetic::div_mod::lemma_div_is_ordered(from + f, from + step, f);
        vstd::arithmetic::div_mod::lemma_div_plus_one(from, f);
        assert(is_part(
            parts[k],
            dir,
            from,
            start + (k + 1) * step,
            segments::segment_of(start + (k + 1) * step, f) - 1,
            frames,
            fps,
        ));
    }
}

/// The parts of a recording need nothing older than the first one's first
/// segment, and there are no more of them than frames.
proof fn lemma_parts_need(
    parts: Seq<RecordingPart>,
    dir: Seq<char>,
    start: int,
    end: int,
    step: int,
    frames: u64,
    fps: u32,
)
    requires
        is_split(parts, dir, start, end, step, frames, fps),
        0 <= start < end,
        frames > 0,
        step == 0 || step >= frames,
    ensures
        1 <= parts.len() <= end - start,
        parts[0].segments@.len() > 0,
        forall|k: int|
            #![trigger parts[k]]
            0 <= k < parts.len() ==> needs_only_from(
                parts[k].segments@,
                parts[0].segments@[0].seq,
            ),
{
    let n = parts.len() as int;
    if step > 0 {
        assert(n - 1 <= (n - 1) * step) by (nonlinear_arith)
            requires
                n >= 1,
                step >= 1,
        ;
    }
    lemma_part_bounds(parts, dir, start, end, step, frames, fps, 0);
    assert forall|k: int| #![trigger parts[k]] 0 <= k < n implies needs_only_from(
        parts[k].segments@,
        parts[0].segments@[0].seq,
    ) by {
        lemma_part_bounds(parts, dir, start, end, step, frames, fps, k);
        assert(0 * step <= k * step) by (nonlinear_arith)
            requires
                0 <= k,
                0 <= step,
        ;
        vstd::arithmetic::div_mod::lemma_div_is_ordered(
            start + 0 * step,
            start + k * step,
            frames as int,
        );
    }
}

/// The parts of a split recording follow each other: the next one begins with
/// the segment behind the last of this one, and covers the time behind it.
pub proof fn split_parts_follow_each_other(
    parts: Seq<RecordingPart>,
    dir: Seq<char>,
    start: int,
    end: int,
    step: int,
    frames: u64,
    fps: u32,
    k: int,
)
    requires
        is_split(parts, dir, start, end, step, frames, fps),
        0 <= start < end,
        frames > 0,
        step == 0 || step >= frames,
        0 <= k < parts.len() - 1,
    ensures
        parts[k].segments@.len() > 0,
        parts[k + 1].segments@.len() > 0,
        parts[k + 1].segments@[0].seq == parts[k].segments@.last().seq + 1,
        parts[k + 1].window.start == parts[k].window.end,
{
    lemma_part_bounds(parts, dir, start, end, step, frames, fps, k);
    lemma_part_bounds(parts, dir, start, end, step, frames, fps, k + 1);
}

/// A split recording loses nothing: every segment from the one in which it
/// began to the one in which it ended is in one of its parts.
pub proof fn split_keeps_every_segment(
    parts: Seq<RecordingPart>,
    dir: Seq<char>,
    start: int,
    end: int,
    step: int,
    frames: u64,
    fps: u32,
    seq: int,
)
    requires
        is_split(parts, dir, start, end, step, frames, fps),
        0 <= start < end,
        frames > 0,
        step == 0 || step >= frames,
        segments::segment_of(start, frames as int) <= seq <= segments::segment_of(
            end,
            frames as int,
        ),
    ensures
        exists|k: int, i: int|
            0 <= k < parts.len() && 0 <= i < parts[k].segments@.len() && (
            #[trigger] parts[k].segments@[i]).seq == seq,
{
    assert(start + 0 * step == start) by (nonlinear_arith);
    lemma_part_holds(parts, dir, start, end, step, frames, fps, seq, 0);
}

proof fn lemma_part_holds(
    parts: Seq<RecordingPart>,
    dir: Seq<char>,
    start: int,
    end: int,
    step: int,
    frames: u64,
    fps: u32,
    seq: int,
    from: int,
)
    requires
        is_split(parts, dir, start, end, step, frames, fps),
        0 <= start < end,
        frames > 0,
        step == 0 || step >= frames,
        0 <= from < parts.len(),
        segments::segment_of(start + from * step, frames as int) <= seq,
        seq <= segments::segment_of(end, frames as int),
    ensures
        exists|k: int, i: int|
            0 <= k < parts.len() && 0 <= i < parts[k].segments@.len() && (
            #[trigger] parts[k].segments@[i]).seq == seq,
    decreases parts.len() - from,
{
    lemma_part_bounds(parts, dir, start, end, step, frames, fps, from);
    let run = parts[from].segments@;
    if seq <= run.last().seq {
        assert(run[seq - run[0].seq].seq == seq);
        assert(parts[from].segments@[seq - run[0].seq].seq == seq);
    } else {
        lemma_part_holds(parts, dir, start, end, step, frames, fps, seq, from + 1);
    }
}

/// What a part of a recording is made of: segments one behind the other, and a
/// count of frames that is reached exactly when its last segment is full.
proof fn lemma_part_is_whole(
    part: RecordingPart,
    dir: Seq<char>,
    from: int,
    to: int,
    last: int,
    frames: u64,
    fps: u32,
)
    requires
        is_part(part, dir, from, to, last, frames, fps),
        0 <= from <= to <= u64::MAX,
        frames > 0,
        segments::segment_of(from, frames as int) <= last <= u64::MAX,
    ensures
        part.segments@.len() > 0,
        part.segments@[0].seq * frames <= from < (part.segments@[0].seq + 1) * frames,
        part.segments@.last().seq == last,
        forall|i: int|
            0 < i < part.segments@.len() ==> (#[trigger] part.segments@[i]).seq
                == part.segments@[0].seq + i,
        part.window.start == from,
        part.window.end == to,
        part.window.fps == if fps == 0 {
            1
        } else {
            fps
        },
        (last + 1) * frames <= u64::MAX ==> part.needed_frames == (last + 1) * frames,
{
    segments::segments_hold_their_frames(
        from,
        frames as int,
        segments::segment_of(from, frames as int),
    );
}

/// Without splitting a recording is a single full-length output, however long
/// it is: from the segment that holds its first frame to the one that holds the
/// frame after its last, with none left out.
pub proof fn unsplit_recording_is_one_output(
    parts: Seq<RecordingPart>,
    dir: Seq<char>,
    start: int,
    end: int,
    frames: u64,
    fps: u32,
)
    requires
        is_split(parts, dir, start, end, split_step(0, fps, frames), frames, fps),
        0 <= start < end <= u64::MAX,
        frames > 0,
    ensures
        parts.len() == 1,
        parts[0].window.start == start,
        parts[0].window.end == end,
        parts[0].window.fps == if fps == 0 {
            1
        } else {
            fps
        },
        parts[0].segments@.len() > 0,
        parts[0].segments@[0].seq * frames <= start < (parts[0].segments@[0].seq + 1) * frames,
        parts[0].segments@.last().seq * frames <= end < (parts[0].segments@.last().seq + 1) * frames,
        forall|i: int|
            0 < i < parts[0].segments@.len() ==> (#[trigger] parts[0].segments@[i]).seq
                == parts[0].segments@[0].seq + i,
{
    let f = frames as int;
    let last = segments::segment_of(end, f);
    assert(0 * split_step(0, fps, frames) == 0);
    vstd::arithmetic::div_mod::lemma_div_is_ordered(start, end, f);
    vstd::arithmetic::div_mod::lemma_div_is_ordered_by_denominator(end, 1, f);
    segments::segments_hold_their_frames(end, f, last);
    lemma_part_is_whole(parts[0], dir, start, end, last, frames, fps);
}

/// A split recording covers all of its time without gap or overlap. Every part
/// but the last lasts as long as asked for, but no less than a segment, and the
/// last one lasts no longer. A part begins with the segment that holds its first
/// frame, and the next one goes on with the segment behind its last.
pub proof fn split_parts_last_as_long_as_asked(
    parts: Seq<RecordingPart>,
    dir: Seq<char>,
    start: int,
    end: int,
    split_seconds: u32,
    frames: u64,
    fps: u32,
    k: int,
)
    requires
        is_split(parts, dir, start, end, split_step(split_seconds, fps, frames), frames, fps),
        0 <= start < end < u64::MAX,
        frames > 0,
        split_seconds > 0,
        0 <= k < parts.len(),
    ensures
        ({
            let rate = if fps == 0 {
                1int
            } else {
                fps as int
            };
            let asked = split_seconds * rate;
            let length = parts[k].window.end - parts[k].window.start;
            &&& k < parts.len() - 1 ==> length == if asked < frames {
                frames as int
            } else {
                asked
            }
            &&& 0 < length && (length <= asked || length <= frames)
            &&& k == 0 ==> parts[k].window.start == start
            &&& k == parts.len() - 1 ==> parts[k].window.end == end
            &&& k < parts.len() - 1 ==> parts[k + 1].window.start == parts[k].window.end
            &&& parts[k].window.fps == rate
        }),
        parts[k].segments@.len() > 0,
        parts[k].segments@[0].seq * frames <= parts[k].window.start < (parts[k].segments@[0].seq
            + 1) * frames,
        forall|i: int|
            0 < i < parts[k].segments@.len() ==> (#[trigger] parts[k].segments@[i]).seq
                == parts[k].segments@[0].seq + i,
        k < parts.len() - 1 ==> parts[k + 1].segments@.len() > 0 && parts[k + 1].segments@[0].seq
            == parts[k].segments@.last().seq + 1,
        k == parts.len() - 1 ==> parts[k].segments@.last().seq * frames <= end < (
        parts[k].segments@.last().seq + 1) * frames,
        (parts[k].segments@.last().seq + 1) * frames <= u64::MAX ==> parts[k].needed_frames == (
        parts[k].segments@.last().seq + 1) * frames,
{
    let f = frames as int;
    let n = parts.len() as int;
    let step = split_step(split_seconds, fps, frames);
    let from = start + k * step;
    assert(split_seconds * frame_rate(fps) > 0) by (nonlinear_arith)
        requires
            split_seconds > 0,
            frame_rate(fps) > 0,
    ;
    assert((k + 1) * step == k * step + step) by (nonlinear_arith);
    assert(0 <= k * step <= (n - 1) * step) by (nonlinear_arith)
        requires
            0 <= k <= n - 1,
            0 <= step,
    ;
    assert(n * step == (n - 1) * step + step) by (nonlinear_arith);
    lemma_part_bounds(parts, dir, start, end, step, frames, fps, k);
    if k == 0 {
        assert(k * step == 0) by (nonlinear_arith)
            requires
                k == 0,
        ;
    }
    vstd::arithmetic::div_mod::lemma_div_is_ordered_by_denominator(end, 1, f);
    if k < n - 1 {
        assert((k + 1) * step <= (n - 1) * step) by (nonlinear_arith)
            requires
                k + 1 <= n - 1,
                0 <= step,
        ;
        let last = segments::segment_of(start + (k + 1) * step, f) - 1;
        vstd::arithmetic::div_mod::lemma_div_is_ordered(start + (k + 1) * step, end, f);
        lemma_part_is_whole(parts[k], dir, from, start + (k + 1) * step, last, frames, fps);
        split_parts_follow_each_other(parts, dir, start, end, step, frames, fps, k);
    } else {
        assert(parts[k] == parts[n - 1]);
        let last = segments::segment_of(end, f);
        segments::segments_hold_their_frames(end, f, last);
        lemma_part_is_whole(parts[k], dir, from, end, last, frames, fps);
    }
}

/// The time of a clip ends where the open segment begins, and it is as long as
/// the segments asked for, as far as there were so many.
pub proof fn clip_window_ends_at_the_open_segment(
    open_seq: u64,
    need: usize,
    frames: u64,
    fps: u32,
)
    ensures
        ({
            let w = clip_window(open_seq, need, frames, fps);
            &&& w.end == open_seq * frames
            &&& need <= open_seq ==> w.end - w.start == need * frames
            &&& need > open_seq ==> w.start == 0
            &&& w.fps >= 1
            &&& fps >= 1 ==> w.fps == fps
        }),
{
    assert(0 <= open_seq * frames <= u64::MAX * u64::MAX) by (nonlinear_arith)
        requires
            0 <= open_seq <= u64::MAX,
            0 <= frames <= u64::MAX,
    ;
    if need <= open_seq {
        assert(0 <= (open_seq - need) * frames <= u64::MAX * u64::MAX && (open_seq - need) * frames
            == open_seq * frames - need * frames) by (nonlinear_arith)
            requires
                0 <= open_seq <= u64::MAX,
                0 <= need <= open_seq,
                0 <= frames <= u64::MAX,
        ;
    }
}

/// A recording that begins holds the segment of its first frame, and no older
/// one than that and the open one.
pub proof fn recording_begins_with_its_first_frame(r: Recorder, turn: Turn, frames: u64)
    requires
        r.recording_start is None,
        turn.action is RecordStart,
        frames > 0,
    ensures
        ({
            let then = r.after(turn, frames);
            &&& then.recording_start == Some(turn.total_frames)
            &&& then.record_start_seq is Some
            &&& then.record_start_seq->0 * frames <= turn.total_frames
            &&& then.record_start_seq->0 <= turn.open_seq
            &&& then.record_start_seq->0 == turn.open_seq || turn.total_frames < (
            then.record_start_seq->0 + 1) * frames
        }),
{
    let f = frames as int;
    let total = turn.total_frames as int;
    let at = segments::segment_of(total, f);
    segments::segments_hold_their_frames(total, f, at);
    vstd::arithmetic::div_mod::lemma_div_is_ordered_by_denominator(total, 1, f);
    vstd::arithmetic::div_mod::lemma_div_pos_is_pos(total, f);
    if turn.open_seq <= at {
        assert(turn.open_seq * f <= at * f) by (nonlinear_arith)
            requires
                0 <= f,
                turn.open_seq <= at,
        ;
    }
}

/// What is held is what is needed: nothing that the recording in progress or a
/// pending output needs is older, and one of them needs it.
pub proof fn no_more_is_held_than_needed(r: Recorder)
    ensures
        r.needed_from() is Some <==> r.record_start_seq is Some || r.pending_from is Some,
        r.needed_from() is Some ==> {
            &&& r.record_start_seq is Some ==> r.needed_from()->0 <= r.record_start_seq->0
            &&& r.pending_from is Some ==> r.needed_from()->0 <= r.pending_from->0
            &&& r.needed_from() == r.record_start_seq || r.needed_from() == r.pending_from
        },
{
}

/// Outputs asked for are added to those pending: the segment held for them is
/// the oldest that any of them needs, and no older. A recording in progress is
/// left alone.
pub proof fn queued_outputs_are_added(r: Recorder, q: Queued)
    requires
        q.count > 0,
        r.pending + q.count <= u64::MAX,
    ensures
        ({
            let then = r.awaiting(q);
            &&& then.pending == r.pending + q.count
            &&& then.pending_from is Some
            &&& then.pending_from->0 <= q.from
            &&& r.pending_from is Some ==> then.pending_from->0 <= r.pending_from->0
            &&& then.pending_from->0 == q.from || then.pending_from == r.pending_from
            &&& then.recording_start == r.recording_start
            &&& then.record_start_seq == r.record_start_seq
        }),
{
}

/// When as many frames were written as a recording waits for, every segment of
/// it is closed: a later one is being written.
pub proof fn waited_for_segments_are_closed(end_frame: int, frames: u64, total: u64)
    requires
        frames >= 1,
        0 <= end_frame,
        ({
            let last = segments::segment_of(end_frame, frames as int);
            &&& (last + 1) * frames <= u64::MAX
            &&& total >= frames_up_to(last + 1, frames)
        }),
    ensures
        segments::segment_of(total as int, frames as int) > segments::segment_of(
            end_frame,
            frames as int,
        ),
{
    let f = frames as int;
    let last = segments::segment_of(end_frame, f);
    let n = last + 1;
    assert(total >= n * f);
    vstd::arithmetic::div_mod::lemma_div_is_ordered(n * f, total as int, f);
    vstd::arithmetic::div_mod::lemma_div_multiples_vanish(n, f);
    assert(f * n == n * f) by (nonlinear_arith);
}

/// Clips go to the directory for clips and recordings to the one for recordings,
/// and an output's name says which of them it is.
pub proof fn outputs_go_where_they_belong(kind: OneShotKind, storage: Storage)
    ensures
        kind is Clip ==> kind.dir_in(storage) == storage.clip_dir@ && kind.name() == seq![
            'c',
            'l',
            'i',
            'p',
        ],
        kind is Record ==> kind.dir_in(storage) == storage.record_dir@ && kind.name() == seq![
            'r',
            'e',
            'c',
            'o',
            'r',
            'd',
        ],
{
    reveal_strlit("clip");
    reveal_strlit("record");
    assert("clip"@ =~= seq!['c', 'l', 'i', 'p']);
    assert("record"@ =~= seq!['r', 'e', 'c', 'o', 'r', 'd']);
}

/// A clip is one output, a recording one for each of its parts, and both need what
/// their first segment holds. Nothing else asks for an output.
pub proof fn decisions_ask_for_their_outputs(d: Decision)
    ensures
        match d {
            Decision::SaveClip { segments, .. } => d.queued().count == 1 && (segments@.len() > 0
                ==> d.queued().from == segments@.first().seq),
            Decision::SaveRecording { parts } => (parts@.len() <= u64::MAX ==> d.queued().count
                == parts@.len()) && (parts@.len() > 0 && parts@.first().segments@.len() > 0
                ==> d.queued().from == parts@.first().segments@.first().seq),
            _ => d.queued().count == 0,
        },
{
}

} // verus!
