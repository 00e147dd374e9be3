//! Input capture for clips: mouse, keyboard and controller (gamepad) events
//! with their time since capture start, what is held down, and what an
//! on-screen overlay has to show. Times are nanoseconds.

use vstd::prelude::*;

use crate::config::{InputConfig, OverlayPosition};
use crate::encoder::InputWindow;
use crate::paths;
use crate::text;
use std::collections::VecDeque;

verus! {

/// Cap the rolling event log to this much history: 360 seconds. Clips can
/// never reach further back than the segment window, so a few minutes is
/// generous.
pub const EVENT_HISTORY_NS: u64 = 360_000_000_000;

/// Max number of click rings kept for the overlay at once.
pub const MAX_RINGS: usize = 16;

/// How long a click ring remains visible on screen: 0.7 seconds.
pub const RING_LIFETIME_NS: u64 = 700_000_000;

#[derive(Debug, Clone, Copy, PartialEq, Eq, Structural)]
pub enum MouseButton {
    Left,
    Right,
    Middle,
    X1,
    X2,
}

/// A single captured input event.
#[derive(Debug)]
pub enum InputEvent {
    KeyDown { name: String },
    KeyUp { name: String },
    MouseDown { button: MouseButton, x: i32, y: i32 },
    MouseUp { button: MouseButton, x: i32, y: i32 },
    Move { x: i32, y: i32 },
    Gamepad { name: String, pressed: bool },
}

/// An input event as contracts speak of it.
pub enum EventModel {
    KeyDown { name: Seq<char> },
    KeyUp { name: Seq<char> },
    MouseDown { button: MouseButton, x: i32, y: i32 },
    MouseUp { button: MouseButton, x: i32, y: i32 },
    Move { x: i32, y: i32 },
    Gamepad { name: Seq<char>, pressed: bool },
}

impl View for InputEvent {
    type V = EventModel;

    open spec fn view(&self) -> EventModel {
        match *self {
            InputEvent::KeyDown { name } => EventModel::KeyDown { name: name@ },
            InputEvent::KeyUp { name } => EventModel::KeyUp { name: name@ },
            InputEvent::MouseDown { button, x, y } => EventModel::MouseDown { button, x, y },
            InputEvent::MouseUp { button, x, y } => EventModel::MouseUp { button, x, y },
            InputEvent::Move { x, y } => EventModel::Move { x, y },
            InputEvent::Gamepad { name, pressed } => EventModel::Gamepad { name: name@, pressed },
        }
    }
}

impl Clone for InputEvent {
    fn clone(&self) -> (r: InputEvent)
        ensures
            r@ == self@,
    {
        match self {
            InputEvent::KeyDown { name } => InputEvent::KeyDown { name: name.clone() },
            InputEvent::KeyUp { name } => InputEvent::KeyUp { name: name.clone() },
            InputEvent::MouseDown { button, x, y } => InputEvent::MouseDown {
                button: *button,
                x: *x,
                y: *y,
            },
            InputEvent::MouseUp { button, x, y } => InputEvent::MouseUp {
                button: *button,
                x: *x,
                y: *y,
            },
            InputEvent::Move { x, y } => InputEvent::Move { x: *x, y: *y },
            InputEvent::Gamepad { name, pressed } => InputEvent::Gamepad {
                name: name.clone(),
                pressed: *pressed,
            },
        }
    }
}

/// An event and when it happened.
#[derive(Debug)]
pub struct EventRec {
    pub t_ns: u64,
    pub event: InputEvent,
}

/// An event and when it happened, as contracts speak of it.
pub struct RecModel {
    pub t_ns: u64,
    pub event: EventModel,
}

impl View for EventRec {
    type V = RecModel;

    open spec fn view(&self) -> RecModel {
        RecModel { t_ns: self.t_ns, event: self.event@ }
    }
}

/// One click ring for the overlay (coords relative to the capture region,
/// plus when it was born so the renderer can grow/fade it).
#[derive(Debug, Clone, Copy, PartialEq, Eq, Structural)]
pub struct RingVis {
    pub x: i32,
    pub y: i32,
    pub button: MouseButton,
    pub born_ns: u64,
}

/// Snapshot of what the overlay should draw this frame.
#[derive(Debug)]
pub struct OverlayFrame {
    pub keys: Vec<String>,
    pub clicks: Vec<RingVis>,
}

impl OverlayFrame {
    pub fn is_empty(&self) -> (r: bool)
        ensures
            r == (self.keys@.len() == 0 && self.clicks@.len() == 0),
    {
        self.keys.len() == 0 && self.clicks.len() == 0
    }
}

/// A modifier key.
pub open spec fn is_modifier_name(k: Seq<char>) -> bool {
    k == "CTRL"@ || k == "SHIFT"@ || k == "ALT"@ || k == "WIN"@
}

fn is_modifier(k: &str) -> (r: bool)
    ensures
        r == is_modifier_name(k@),
{
    text::same(k, "CTRL") || text::same(k, "SHIFT") || text::same(k, "ALT") || text::same(k, "WIN")
}

// ---------------------------------------------------------------------------
// The model
// ---------------------------------------------------------------------------

/// The log without its oldest events, as far as they are beyond the history.
pub open spec fn fresh(events: Seq<RecModel>, now: u64) -> Seq<RecModel>
    decreases events.len(),
{
    if events.len() > 0 && events[0].t_ns + EVENT_HISTORY_NS < now {
        fresh(events.drop_first(), now)
    } else {
        events
    }
}

/// How far apart two points are, along the axes.
pub open spec fn distance(x: i32, y: i32, p: (i32, i32)) -> int {
    let dx = x - p.0;
    let dy = y - p.1;
    (if dx < 0 {
        -dx
    } else {
        dx
    }) + (if dy < 0 {
        -dy
    } else {
        dy
    })
}

/// Any name but one.
pub open spec fn differs_from(name: Seq<char>) -> spec_fn(Seq<char>) -> bool {
    |k: Seq<char>| k != name
}

/// The input state as contracts speak of it.
#[verifier::ext_equal]
pub struct InputModel {
    /// The log, oldest first.
    pub events: Seq<RecModel>,
    /// The keys held down, in the order in which they went down.
    pub pressed: Seq<Seq<char>>,
    /// The click rings, oldest first.
    pub rings: Seq<RingVis>,
    /// Where the pointer was when a move was last logged.
    pub last_move: (i32, i32),
}

impl InputModel {
    /// The state with one more event in the log.
    pub open spec fn logged(self, event: EventModel, now: u64) -> InputModel {
        InputModel { events: fresh(self.events.push(RecModel { t_ns: now, event }), now), ..self }
    }

    /// The state after a key went down or up.
    pub open spec fn key(self, name: Seq<char>, down: bool, now: u64) -> InputModel {
        if down {
            InputModel {
                pressed: if self.pressed.contains(name) {
                    self.pressed
                } else {
                    self.pressed.push(name)
                },
                ..self
            }.logged(EventModel::KeyDown { name }, now)
        } else {
            InputModel {
                pressed: self.pressed.filter(differs_from(name)),
                ..self
            }.logged(EventModel::KeyUp { name }, now)
        }
    }

    /// The state after a mouse button went down or up.
    pub open spec fn click(self, button: MouseButton, x: i32, y: i32, down: bool, now: u64) -> InputModel {
        if down {
            let rings = self.rings.push(RingVis { x, y, button, born_ns: now });
            InputModel {
                rings: if rings.len() > MAX_RINGS {
                    rings.drop_first()
                } else {
                    rings
                },
                ..self
            }.logged(EventModel::MouseDown { button, x, y }, now)
        } else {
            self.logged(EventModel::MouseUp { button, x, y }, now)
        }
    }

    /// The state after the pointer was seen somewhere.
    pub open spec fn moved(self, x: i32, y: i32, now: u64) -> InputModel {
        if distance(x, y, self.last_move) >= 2 {
            InputModel { last_move: (x, y), ..self }.logged(EventModel::Move { x, y }, now)
        } else {
            self
        }
    }

    /// The keys held, ordered for display: modifiers first, the one pressed
    /// last in front, then the other keys as they were pressed.
    pub open spec fn shown_keys(self) -> Seq<Seq<char>> {
        self.pressed.filter(|k: Seq<char>| is_modifier_name(k)).reverse() + self.pressed.filter(
            |k: Seq<char>| !is_modifier_name(k),
        )
    }

    /// The rings still visible.
    pub open spec fn shown_rings(self, now: u64) -> Seq<RingVis> {
        self.rings.filter(|r: RingVis| is_visible(r, now))
    }

    /// Whether no key is held twice, no more rings are kept than there may
    /// be, the log is in order, and it reaches no further back than the
    /// history.
    pub open spec fn valid(self) -> bool {
        &&& self.pressed.no_duplicates()
        &&& self.rings.len() <= MAX_RINGS
        &&& in_order(self.events)
        &&& self.events.len() > 0 ==> self.events.last().t_ns <= self.events[0].t_ns
            + EVENT_HISTORY_NS
    }

    /// Whether `now` is no earlier than any event in the log.
    pub open spec fn not_after(self, now: u64) -> bool {
        self.events.len() > 0 ==> self.events.last().t_ns <= now
    }
}

/// Whether the log is in order.
pub open spec fn in_order(events: Seq<RecModel>) -> bool {
    forall|i: int, j: int|
        0 <= i <= j < events.len() ==> (#[trigger] events[i]).t_ns <= (#[trigger] events[j]).t_ns
}

/// Whether a ring is young enough to be seen.
pub open spec fn is_visible(r: RingVis, now: u64) -> bool {
    now - r.born_ns < RING_LIFETIME_NS
}

/// Input state. Written by the polling thread, read by the capture loop
/// (overlay snapshot) and the output worker (sidecar).
#[derive(Debug)]
pub struct InputState {
    pub events: VecDeque<EventRec>,
    pub pressed: Vec<String>,
    pub rings: VecDeque<RingVis>,
    pub last_move: (i32, i32),
}

impl View for InputState {
    type V = InputModel;

    open spec fn view(&self) -> InputModel {
        InputModel {
            events: self.events@.map_values(|e: EventRec| e@),
            pressed: self.pressed.deep_view(),
            rings: self.rings@,
            last_move: self.last_move,
        }
    }
}

impl InputState {
    pub fn new() -> (s: InputState)
        ensures
            s@ == (InputModel {
                events: seq![],
                pressed: seq![],
                rings: seq![],
                last_move: (0, 0),
            }),
            s@.valid(),
    {
        let s = InputState {
            events: VecDeque::new(),
            pressed: Vec::new(),
            rings: VecDeque::new(),
            last_move: (0, 0),
        };
        assert(s@.events =~= seq![]);
        assert(s@.pressed =~= seq![]);
        s
    }

    fn push(&mut self, event: InputEvent, now_ns: u64)
        ensures
            final(self)@ == old(self)@.logged(event@, now_ns),
    {
        self.events.push_back(EventRec { t_ns: now_ns, event });
        let ghost all = self@.events;
        assert(all =~= old(self)@.events.push(RecModel { t_ns: now_ns, event: event@ }));
        while self.events.len() > 0 && self.events[0].t_ns < now_ns && now_ns - self.events[0].t_ns
            > EVENT_HISTORY_NS
            invariant
                fresh(all, now_ns) == fresh(self@.events, now_ns),
                self@ == (InputModel { events: self@.events, ..old(self)@ }),
            decreases self.events@.len(),
        {
            let ghost before = self@.events;
            let _dropped = self.events.pop_front();
            assert(self@.events =~= before.drop_first());
        }
        proof {
            if self.events@.len() > 0 {
                assert(self@.events[0].t_ns == self.events@[0].t_ns);
            }
        }
    }

    /// A key went down or up.
    pub fn record_key(&mut self, name: &str, down: bool, now_ns: u64)
        ensures
            final(self)@ == old(self)@.key(name@, down, now_ns),
    {
        if down {
            if !self.holds(name) {
                self.pressed.push(name.to_owned());
                assert(self@.pressed =~= old(self)@.pressed.push(name@));
            }
            self.push(InputEvent::KeyDown { name: name.to_owned() }, now_ns);
        } else {
            let mut kept: Vec<String> = Vec::new();
            let ghost other = differs_from(name@);
            let mut i: usize = 0;
            proof {
                reveal(Seq::filter);
                assert(kept.deep_view() =~= self@.pressed.take(0).filter(other));
            }
            while i < self.pressed.len()
                invariant
                    i <= self.pressed@.len(),
                    *self == *old(self),
                    other == differs_from(name@),
                    kept.deep_view() == self@.pressed.take(i as int).filter(other),
                decreases self.pressed@.len() - i,
            {
                let ghost before = kept.deep_view();
                let k = self.pressed[i].clone();
                let other_key = !text::same(k.as_str(), name);
                proof {
                    reveal(Seq::filter);
                    let next = self@.pressed.take(i + 1);
                    assert(next.drop_last() =~= self@.pressed.take(i as int));
                    assert(next.last() == k@);
                }
                if other_key {
                    kept.push(k);
                    assert(kept.deep_view() =~= before.push(k@));
                }
                i += 1;
            }
            assert(self@.pressed.take(i as int) =~= self@.pressed);
            self.pressed = kept;
            self.push(InputEvent::KeyUp { name: name.to_owned() }, now_ns);
        }
    }

    fn holds(&self, name: &str) -> (r: bool)
        ensures
            r == self@.pressed.contains(name@),
    {
        let mut i: usize = 0;
        while i < self.pressed.len()
            invariant
                i <= self.pressed@.len(),
                forall|j: int| 0 <= j < i ==> (#[trigger] self@.pressed[j]) != name@,
            decreases self.pressed@.len() - i,
        {
            if text::same(self.pressed[i].as_str(), name) {
                assert(self@.pressed[i as int] == name@);
                return true;
            }
            i += 1;
        }
        false
    }

    /// A mouse button went down or up.
    pub fn record_click(&mut self, button: MouseButton, x: i32, y: i32, down: bool, now_ns: u64)
        ensures
            final(self)@ == old(self)@.click(button, x, y, down, now_ns),
    {
        if down {
            self.rings.push_back(RingVis { x, y, button, born_ns: now_ns });
            if self.rings.len() > MAX_RINGS {
                let ghost before = self.rings@;
                let _oldest = self.rings.pop_front();
                assert(self.rings@ =~= before.drop_first());
            }
            self.push(InputEvent::MouseDown { button, x, y }, now_ns);
        } else {
            self.push(InputEvent::MouseUp { button, x, y }, now_ns);
        }
    }

    /// The pointer was seen somewhere.
    pub fn record_move(&mut self, x: i32, y: i32, now_ns: u64)
        ensures
            final(self)@ == old(self)@.moved(x, y, now_ns),
    {
        if span(x, y, self.last_move) >= 2 {
            self.last_move = (x, y);
            self.push(InputEvent::Move { x, y }, now_ns);
        }
    }

    /// Keys currently held, ordered for display (modifiers first).
    pub fn pressed_keys(&self) -> (out: Vec<String>)
        ensures
            out.deep_view() == self@.shown_keys(),
    {
        let ghost yes = |k: Seq<char>| is_modifier_name(k);
        let ghost no = |k: Seq<char>| !is_modifier_name(k);
        let mut out: Vec<String> = Vec::new();
        let mut i: usize = 0;
        proof {
            reveal(Seq::filter);
            let none = self@.pressed.take(0);
            assert(none.filter(yes).reverse() + none.filter(no) =~= seq![]);
            assert(out.deep_view() =~= seq![]);
        }
        while i < self.pressed.len()
            invariant
                i <= self.pressed@.len(),
                yes == (|k: Seq<char>| is_modifier_name(k)),
                no == (|k: Seq<char>| !is_modifier_name(k)),
                out.deep_view() == self@.pressed.take(i as int).filter(yes).reverse()
                    + self@.pressed.take(i as int).filter(no),
            decreases self.pressed@.len() - i,
        {
            let ghost before = out.deep_view();
            let ghost part = self@.pressed.take(i as int);
            let ghost next = self@.pressed.take(i + 1);
            let k = self.pressed[i].clone();
            proof {
                reveal(Seq::filter);
                assert(next.drop_last() =~= part);
                assert(next.last() == k@);
            }
            if is_modifier(k.as_str()) {
                out.insert(0, k);
                assert(out.deep_view() =~= before.insert(0, k@));
                assert(next.filter(yes).reverse() =~= part.filter(yes).reverse().insert(0, k@));
            } else {
                out.push(k);
                assert(out.deep_view() =~= before.push(k@));
            }
            assert(out.deep_view() =~= next.filter(yes).reverse() + next.filter(no));
            i += 1;
        }
        assert(self@.pressed.take(i as int) =~= self@.pressed);
        out
    }

    /// What the overlay has to show at a given time.
    pub fn overlay_snapshot(&self, now_ns: u64) -> (out: OverlayFrame)
        ensures
            out.keys.deep_view() == self@.shown_keys(),
            out.clicks@ == self@.shown_rings(now_ns),
    {
        let ghost young = |r: RingVis| is_visible(r, now_ns);
        let mut clicks: Vec<RingVis> = Vec::new();
        let mut i: usize = 0;
        proof {
            reveal(Seq::filter);
            assert(clicks@ =~= self.rings@.take(0).filter(young));
        }
        while i < self.rings.len()
            invariant
                i <= self.rings@.len(),
                young == (|r: RingVis| is_visible(r, now_ns)),
                clicks@ == self.rings@.take(i as int).filter(young),
            decreases self.rings@.len() - i,
        {
            let r = self.rings[i];
            proof {
                reveal(Seq::filter);
                let next = self.rings@.take(i + 1);
                assert(next.drop_last() =~= self.rings@.take(i as int));
                assert(next.last() == r);
            }
            if now_ns < r.born_ns || now_ns - r.born_ns < RING_LIFETIME_NS {
                clicks.push(r);
            }
            i += 1;
        }
        assert(self.rings@.take(i as int) =~= self.rings@);
        OverlayFrame { keys: self.pressed_keys(), clicks }
    }
}

pub(crate) fn span(x: i32, y: i32, p: (i32, i32)) -> (r: i64)
    ensures
        r == distance(x, y, p),
{
    let dx: i64 = (x as i64) - (p.0 as i64);
    let dy: i64 = (y as i64) - (p.1 as i64);
    let ax: i64 = if dx < 0 {
        -dx
    } else {
        dx
    };
    let ay: i64 = if dy < 0 {
        -dy
    } else {
        dy
    };
    ax + ay
}

// ---------------------------------------------------------------------------
// Windows of time
// ---------------------------------------------------------------------------

/// The frame that is on screen at a given time.
pub open spec fn frame_at(t_ns: u64, fps: u32) -> int {
    (t_ns * fps) as int / 1_000_000_000
}

/// Whether a time lies in a window: its start belongs to it, its end does not.
pub open spec fn in_window(t_ns: u64, w: InputWindow) -> bool {
    w.start <= frame_at(t_ns, w.fps) < w.end
}

/// An event and how long after the start of a window it happened.
#[derive(Debug)]
pub struct WindowEvent {
    /// The time since the window's start, counted in parts of which a second
    /// has `1_000_000_000 * fps`.
    pub since_start: u128,
    pub event: InputEvent,
}

/// An event and how long after the start of a window it happened, as contracts
/// speak of it.
pub struct WindowModel {
    pub since_start: int,
    pub event: EventModel,
}

impl View for WindowEvent {
    type V = WindowModel;

    open spec fn view(&self) -> WindowModel {
        WindowModel { since_start: self.since_start as int, event: self.event@ }
    }
}

/// How long after the start of a window a time is, counted in parts of which a
/// second has `1_000_000_000 * fps`: in these both are whole numbers.
pub open spec fn since_start(t_ns: u64, w: InputWindow) -> int {
    t_ns * w.fps - w.start * 1_000_000_000
}

/// An event as seen from the start of a window.
pub open spec fn seen_from(w: InputWindow) -> spec_fn(RecModel) -> WindowModel {
    |e: RecModel| WindowModel { since_start: since_start(e.t_ns, w), event: e.event }
}

/// The events of a log that lie in a window, as seen from its start.
pub open spec fn window_events(events: Seq<RecModel>, w: InputWindow) -> Seq<WindowModel> {
    events.filter(|e: RecModel| in_window(e.t_ns, w)).map_values(seen_from(w))
}

/// Events that fall inside the window: at its start or after, and before its
/// end. Each comes with the time since the window's start.
pub fn events_in_window(state: &InputState, w: InputWindow) -> (out: Vec<WindowEvent>)
    ensures
        out@.map_values(|e: WindowEvent| e@) == window_events(state@.events, w),
{
    let ghost inside = |e: RecModel| in_window(e.t_ns, w);
    let ghost all = state@.events;
    let mut out: Vec<WindowEvent> = Vec::new();
    let mut i: usize = 0;
    proof {
        reveal(Seq::filter);
        assert(out@.map_values(|e: WindowEvent| e@) =~= window_events(all.take(0), w));
    }
    while i < state.events.len()
        invariant
            i <= state.events@.len(),
            all == state@.events,
            inside == (|e: RecModel| in_window(e.t_ns, w)),
            out@.map_values(|e: WindowEvent| e@) == window_events(all.take(i as int), w),
        decreases state.events@.len() - i,
    {
        let ghost before = out@.map_values(|e: WindowEvent| e@);
        let t = state.events[i].t_ns;
        let frame: u128 = mul_div(t, w.fps);
        let ghost front = all.take(i as int).filter(inside);
        proof {
            reveal(Seq::filter);
            let next = all.take(i + 1);
            assert(next.drop_last() =~= all.take(i as int));
            assert(next.last() == state.events@[i as int]@);
        }
        if w.start <= frame && frame < w.end {
            proof {
                window_in_time(t, w);
                lemma_product(t, w.fps);
            }
            let since_start: u128 = t as u128 * w.fps as u128 - w.start * 1_000_000_000;
            let e = WindowEvent { since_start, event: state.events[i].event.clone() };
            let ghost seen = e@;
            out.push(e);
            proof {
                assert(out@.map_values(|e: WindowEvent| e@) =~= before.push(seen));
                let rec = state.events@[i as int]@;
                assert(seen == seen_from(w)(rec));
                assert(front.push(rec).map_values(seen_from(w)) =~= front.map_values(
                    seen_from(w),
                ).push(seen));
            }
        }
        i += 1;
    }
    assert(all.take(i as int) =~= all);
    out
}

proof fn lemma_product(t: u64, fps: u32)
    ensures
        0 <= t * fps <= u64::MAX * u32::MAX,
{
    assert(0 <= t * fps <= u64::MAX * u32::MAX) by (nonlinear_arith)
        requires
            0 <= t <= u64::MAX,
            0 <= fps <= u32::MAX,
    ;
}

/// Where the events of an output are saved: beside it.
pub fn sidecar_path(destination: &str) -> (r: String)
    ensures
        paths::replaces_extension(r@, destination@, "inputs.json"@),
{
    proof {
        reveal_strlit("inputs.json");
    }
    paths::with_extension(destination, "inputs.json")
}

fn mul_div(t: u64, fps: u32) -> (r: u128)
    ensures
        r == frame_at(t, fps),
{
    proof {
        lemma_product(t, fps);
    }
    ((t as u128) * (fps as u128)) / 1_000_000_000
}

// ---------------------------------------------------------------------------
// Policy
// ---------------------------------------------------------------------------

/// An input capture session: state and overlay policy.
#[derive(Debug)]
pub struct InputCapture {
    pub inner: InputState,
    pub position: OverlayPosition,
    pub overlay_enabled: bool,
}

impl InputCapture {
    /// Begins a session. The overlay needs the events, so it is off where
    /// they are not captured.
    pub fn start(cfg: &InputConfig) -> (c: InputCapture)
        ensures
            c.inner@ == (InputModel {
                events: seq![],
                pressed: seq![],
                rings: seq![],
                last_move: (0, 0),
            }),
            c.position == cfg.overlay_position,
            c.overlay_enabled == (cfg.overlay_enabled && cfg.capture_events),
    {
        InputCapture {
            inner: InputState::new(),
            position: cfg.overlay_position,
            overlay_enabled: cfg.overlay_enabled && cfg.capture_events,
        }
    }

    pub fn overlay_enabled(&self) -> (r: bool)
        ensures
            r == self.overlay_enabled,
    {
        self.overlay_enabled
    }

    pub fn position(&self) -> (r: OverlayPosition)
        ensures
            r == self.position,
    {
        self.position
    }

    pub fn overlay_snapshot(&self, now_ns: u64) -> (out: OverlayFrame)
        ensures
            out.keys.deep_view() == self.inner@.shown_keys(),
            out.clicks@ == self.inner@.shown_rings(now_ns),
    {
        self.inner.overlay_snapshot(now_ns)
    }
}

// ---------------------------------------------------------------------------
// Laws
// ---------------------------------------------------------------------------

proof fn lemma_fresh(events: Seq<RecModel>, now: u64)
    requires
        in_order(events),
    ensures
        in_order(fresh(events, now)),
        fresh(events, now).len() <= events.len(),
        fresh(events, now) == events.skip(events.len() - fresh(events, now).len()),
        forall|i: int|
            0 <= i < fresh(events, now).len() ==> now <= (#[trigger] fresh(events, now)[i]).t_ns
                + EVENT_HISTORY_NS,
        forall|i: int|
            0 <= i < events.len() - fresh(events, now).len() ==> (#[trigger] events[i]).t_ns
                + EVENT_HISTORY_NS < now,
    decreases events.len(),
{
    let kept = fresh(events, now);
    if events.len() > 0 && events[0].t_ns + EVENT_HISTORY_NS < now {
        let rest = events.drop_first();
        assert(in_order(rest));
        lemma_fresh(rest, now);
        assert(kept =~= events.skip(events.len() - kept.len()));
        assert forall|i: int| 0 <= i < events.len() - kept.len() implies (#[trigger] events[i]).t_ns
            + EVENT_HISTORY_NS < now by {
            if i > 0 {
                assert(rest[i - 1] == events[i]);
            }
        }
    } else {
        assert(kept =~= events.skip(0));
        assert forall|i: int| 0 <= i < kept.len() implies now <= (#[trigger] kept[i]).t_ns
            + EVENT_HISTORY_NS by {
            assert(events[0].t_ns <= events[i].t_ns);
        }
    }
}

proof fn lemma_logged(m: InputModel, event: EventModel, now: u64)
    requires
        m.valid(),
        m.not_after(now),
    ensures
        m.logged(event, now).valid(),
        m.logged(event, now).not_after(now),
        m.logged(event, now).events.len() > 0,
        m.logged(event, now).events.last() == (RecModel { t_ns: now, event }),
{
    let all = m.events.push(RecModel { t_ns: now, event });
    assert forall|i: int, j: int| 0 <= i <= j < all.len() implies (#[trigger] all[i]).t_ns <= (
    #[trigger] all[j]).t_ns by {
        if i < m.events.len() {
            assert(m.events[i].t_ns <= m.events.last().t_ns);
        }
    }
    lemma_fresh(all, now);
    let kept = fresh(all, now);
    if kept.len() == 0 {
        assert(all.last().t_ns + EVENT_HISTORY_NS < now);
    }
}

/// The log keeps exactly the events of the last six minutes: whatever is
/// dropped is older than that, and whatever stays is not.
pub proof fn log_keeps_the_history(events: Seq<RecModel>, now: u64, i: int)
    requires
        in_order(events),
        0 <= i < events.len(),
    ensures
        ({
            let dropped = events.len() - fresh(events, now).len();
            &&& 0 <= dropped
            &&& fresh(events, now) == events.skip(dropped)
            &&& i < dropped <==> events[i].t_ns + EVENT_HISTORY_NS < now
        }),
{
    lemma_fresh(events, now);
    let kept = fresh(events, now);
    let dropped = events.len() - kept.len();
    if i >= dropped {
        assert(kept[i - dropped] == events[i]);
    }
}

/// Whatever is recorded, the state stays sound and the newest event is the
/// last one in the log.
pub proof fn recording_keeps_the_state_valid(
    m: InputModel,
    name: Seq<char>,
    button: MouseButton,
    x: i32,
    y: i32,
    down: bool,
    now: u64,
)
    requires
        m.valid(),
        m.not_after(now),
    ensures
        m.key(name, down, now).valid(),
        m.key(name, down, now).not_after(now),
        m.click(button, x, y, down, now).valid(),
        m.click(button, x, y, down, now).not_after(now),
        m.moved(x, y, now).valid(),
        m.moved(x, y, now).not_after(now),
{
    let others = m.pressed.filter(differs_from(name));
    lemma_filter_no_duplicates(m.pressed, differs_from(name));
    if !m.pressed.contains(name) {
        lemma_push_member(m.pressed, name, name);
    }
    let pressed = if m.pressed.contains(name) {
        m.pressed
    } else {
        m.pressed.push(name)
    };
    lemma_logged(InputModel { pressed, ..m }, EventModel::KeyDown { name }, now);
    lemma_logged(InputModel { pressed: others, ..m }, EventModel::KeyUp { name }, now);
    let rings = m.rings.push(RingVis { x, y, button, born_ns: now });
    let rings = if rings.len() > MAX_RINGS {
        rings.drop_first()
    } else {
        rings
    };
    lemma_logged(InputModel { rings, ..m }, EventModel::MouseDown { button, x, y }, now);
    lemma_logged(m, EventModel::MouseUp { button, x, y }, now);
    lemma_logged(InputModel { last_move: (x, y), ..m }, EventModel::Move { x, y }, now);
}

proof fn lemma_filter_members<A>(s: Seq<A>, p: spec_fn(A) -> bool, k: A)
    ensures
        s.filter(p).contains(k) <==> s.contains(k) && p(k),
    decreases s.len(),
{
    reveal(Seq::filter);
    if s.len() > 0 {
        let rest = s.drop_last();
        lemma_filter_members(rest, p, k);
        let f = s.filter(p);
        let g = rest.filter(p);
        if s.contains(k) && p(k) {
            let i = choose|i: int| 0 <= i < s.len() && s[i] == k;
            if i < rest.len() {
                assert(rest[i] == k);
                let j = choose|j: int| 0 <= j < g.len() && g[j] == k;
                assert(f[j] == k);
            } else {
                assert(f[g.len() as int] == k);
            }
        }
        if f.contains(k) {
            let j = choose|j: int| 0 <= j < f.len() && f[j] == k;
            if j < g.len() {
                assert(g[j] == k);
                let i = choose|i: int| 0 <= i < rest.len() && rest[i] == k;
                assert(s[i] == k);
            } else {
                assert(s[s.len() - 1] == k);
            }
        }
    }
}

proof fn lemma_filter_no_duplicates(s: Seq<Seq<char>>, p: spec_fn(Seq<char>) -> bool)
    requires
        s.no_duplicates(),
    ensures
        s.filter(p).no_duplicates(),
    decreases s.len(),
{
    reveal(Seq::filter);
    if s.len() > 0 {
        let rest = s.drop_last();
        assert(rest.no_duplicates()) by {
            assert forall|i: int, j: int| 0 <= i < rest.len() && 0 <= j < rest.len() && i != j implies rest[i]
                != rest[j] by {
                assert(s[i] != s[j]);
            }
        }
        lemma_filter_no_duplicates(rest, p);
        let f = s.filter(p);
        let g = rest.filter(p);
        if p(s.last()) {
            lemma_filter_members(rest, p, s.last());
            if rest.contains(s.last()) {
                let i = choose|i: int| 0 <= i < rest.len() && rest[i] == s.last();
                assert(s[i] != s[s.len() - 1]);
            }
            assert forall|i: int, j: int| 0 <= i < f.len() && 0 <= j < f.len() && i != j implies f[i]
                != f[j] by {
                if i < g.len() && j < g.len() {
                    assert(g[i] != g[j]);
                } else if i < g.len() {
                    assert(g.contains(g[i]));
                } else {
                    assert(g.contains(g[j]));
                }
            }
        }
    }
}

/// No modifier is shown after another key.
pub proof fn modifiers_are_shown_first(m: InputModel, i: int, j: int)
    requires
        0 <= i < j < m.shown_keys().len(),
        is_modifier_name(m.shown_keys()[j]),
    ensures
        is_modifier_name(m.shown_keys()[i]),
{
    let yes = |k: Seq<char>| is_modifier_name(k);
    let no = |k: Seq<char>| !is_modifier_name(k);
    let mods = m.pressed.filter(yes);
    let rest = m.pressed.filter(no);
    let shown = m.shown_keys();
    assert(shown == mods.reverse() + rest);
    if j >= mods.len() {
        assert(shown[j] == rest[j - mods.len()]);
        assert(rest.contains(shown[j]));
        lemma_filter_members(m.pressed, no, shown[j]);
    }
    let a = mods[mods.len() - 1 - i];
    assert(shown[i] == a);
    assert(mods.contains(a));
    lemma_filter_members(m.pressed, yes, a);
}

/// The keys shown are the keys held, each of them.
pub proof fn held_keys_are_shown(m: InputModel, k: Seq<char>)
    ensures
        m.shown_keys().contains(k) <==> m.pressed.contains(k),
{
    let yes = |k: Seq<char>| is_modifier_name(k);
    let no = |k: Seq<char>| !is_modifier_name(k);
    let mods = m.pressed.filter(yes);
    let rest = m.pressed.filter(no);
    let shown = m.shown_keys();
    assert(shown == mods.reverse() + rest);
    lemma_filter_members(m.pressed, yes, k);
    lemma_filter_members(m.pressed, no, k);
    if mods.contains(k) {
        let x = choose|x: int| 0 <= x < mods.len() && mods[x] == k;
        assert(shown[mods.len() - 1 - x] == k);
    }
    if rest.contains(k) {
        let x = choose|x: int| 0 <= x < rest.len() && rest[x] == k;
        assert(shown[mods.len() + x] == k);
    }
    if shown.contains(k) {
        let x = choose|x: int| 0 <= x < shown.len() && shown[x] == k;
        if x < mods.len() {
            assert(mods[mods.len() - 1 - x] == k);
        } else {
            assert(rest[x - mods.len()] == k);
        }
    }
}

/// A key that goes up is no longer held, and no other key is let go by it.
pub proof fn released_key_is_gone(m: InputModel, name: Seq<char>, other: Seq<char>, now: u64)
    ensures
        !m.key(name, false, now).pressed.contains(name),
        other != name ==> (m.key(name, false, now).pressed.contains(other)
            <==> m.pressed.contains(other)),
{
    lemma_filter_members(m.pressed, differs_from(name), name);
    lemma_filter_members(m.pressed, differs_from(name), other);
}

/// A key that goes down or up.
pub struct KeyTurn {
    pub name: Seq<char>,
    pub down: bool,
    pub now: u64,
}

impl InputModel {
    /// The state after one key event after the other.
    pub open spec fn keys(self, turns: Seq<KeyTurn>) -> InputModel
        decreases turns.len(),
    {
        if turns.len() == 0 {
            self
        } else {
            let t = turns.last();
            self.keys(turns.drop_last()).key(t.name, t.down, t.now)
        }
    }
}

/// Whether the last event of a key was that it went down, where there was one.
pub open spec fn last_went_down(turns: Seq<KeyTurn>, name: Seq<char>) -> Option<bool>
    decreases turns.len(),
{
    if turns.len() == 0 {
        None
    } else if turns.last().name == name {
        Some(turns.last().down)
    } else {
        last_went_down(turns.drop_last(), name)
    }
}

/// Whatever keys go down and up, in whatever order: a key is held exactly where
/// it went down last, and no key is listed twice. A key without an event is
/// held where it was held before.
pub proof fn last_key_event_decides(m: InputModel, turns: Seq<KeyTurn>, name: Seq<char>)
    requires
        m.pressed.no_duplicates(),
    ensures
        m.keys(turns).pressed.no_duplicates(),
        m.keys(turns).pressed.contains(name) <==> match last_went_down(turns, name) {
            Some(down) => down,
            None => m.pressed.contains(name),
        },
    decreases turns.len(),
{
    if turns.len() > 0 {
        let t = turns.last();
        let before = m.keys(turns.drop_last());
        last_key_event_decides(m, turns.drop_last(), name);
        lemma_filter_no_duplicates(before.pressed, differs_from(t.name));
        lemma_filter_members(before.pressed, differs_from(t.name), name);
        if t.down && !before.pressed.contains(t.name) {
            lemma_push_member(before.pressed, t.name, name);
        }
    }
}

proof fn lemma_push_member(s: Seq<Seq<char>>, a: Seq<char>, k: Seq<char>)
    requires
        s.no_duplicates(),
        !s.contains(a),
    ensures
        s.push(a).no_duplicates(),
        s.push(a).contains(k) <==> s.contains(k) || k == a,
{
    let more = s.push(a);
    assert forall|i: int, j: int| 0 <= i < more.len() && 0 <= j < more.len() && i != j implies more[i]
        != more[j] by {
        if i < s.len() && j < s.len() {
            assert(s[i] != s[j]);
        } else if i < s.len() {
            assert(s.contains(s[i]));
        } else {
            assert(s.contains(s[j]));
        }
    }
    assert(more[s.len() as int] == a);
    if s.contains(k) {
        let i = choose|i: int| 0 <= i < s.len() && s[i] == k;
        assert(more[i] == k);
    }
}

/// Of two windows that adjoin, an event of the whole belongs to exactly one.
pub proof fn adjoining_windows_share_no_event(t_ns: u64, start: u128, middle: u128, end: u128, fps: u32)
    requires
        start <= middle <= end,
    ensures
        ({
            let whole = in_window(t_ns, InputWindow { start, end, fps });
            let first = in_window(t_ns, InputWindow { start, end: middle, fps });
            let second = in_window(t_ns, InputWindow { start: middle, end, fps });
            &&& whole <==> first || second
            &&& !(first && second)
        }),
{
}

/// In terms of time: an event belongs to a window where it is no earlier than
/// the window's first frame and earlier than the frame after its last.
pub proof fn window_in_time(t_ns: u64, w: InputWindow)
    ensures
        in_window(t_ns, w) <==> w.start * 1_000_000_000 <= t_ns * w.fps && t_ns * w.fps < w.end
            * 1_000_000_000,
{
    let n = (t_ns * w.fps) as int;
    let q = n / 1_000_000_000;
    vstd::arithmetic::div_mod::lemma_fundamental_div_mod(n, 1_000_000_000);
}

/// No event is dated before the window's start, nor at its end or after.
pub proof fn window_times_are_inside(t_ns: u64, w: InputWindow)
    requires
        in_window(t_ns, w),
    ensures
        0 <= since_start(t_ns, w) < (w.end - w.start) * 1_000_000_000,
{
    window_in_time(t_ns, w);
}

/// What a new event leaves of the log: what happened in the last 360 seconds.
pub open spec fn is_recent_part(kept: Seq<RecModel>, events: Seq<RecModel>, now: u64) -> bool {
    exists|d: int|
        {
            &&& 0 <= d <= events.len()
            &&& kept == #[trigger] events.skip(d)
            &&& forall|i: int|
                0 <= i < events.len() ==> (i < d <==> (#[trigger] events[i]).t_ns + 360_000_000_000
                    < now)
        }
}

proof fn lemma_recent_part(m: InputModel, event: EventModel, now: u64)
    requires
        m.valid(),
        m.not_after(now),
    ensures
        m.logged(event, now).events.len() > 0,
        m.logged(event, now).events.last() == (RecModel { t_ns: now, event }),
        is_recent_part(m.logged(event, now).events.drop_last(), m.events, now),
{
    lemma_logged(m, event, now);
    let all = m.events.push(RecModel { t_ns: now, event });
    assert forall|i: int, j: int| 0 <= i <= j < all.len() implies (#[trigger] all[i]).t_ns <= (
    #[trigger] all[j]).t_ns by {
        if i < m.events.len() {
            assert(m.events[i].t_ns <= m.events.last().t_ns);
        }
    }
    lemma_fresh(all, now);
    let kept = fresh(all, now);
    let d = all.len() - kept.len();
    assert(kept.drop_last() =~= m.events.skip(d));
    assert forall|i: int| 0 <= i < m.events.len() implies (i < d <==> (#[trigger] m.events[i]).t_ns
        + 360_000_000_000 < now) by {
        assert(all[i] == m.events[i]);
        if i >= d {
            assert(kept[i - d] == all[i]);
        }
    }
}

/// A key that goes down or up is logged under its name, after what happened in
/// the last 360 seconds. It is held after it went down, behind the keys that were
/// held before. Neither the rings nor the pointer change.
pub proof fn keys_are_logged(m: InputModel, name: Seq<char>, down: bool, now: u64)
    requires
        m.valid(),
        m.not_after(now),
    ensures
        ({
            let after = m.key(name, down, now);
            &&& after.events.len() > 0
            &&& after.events.last().t_ns == now
            &&& down ==> after.events.last().event == (EventModel::KeyDown { name })
            &&& !down ==> after.events.last().event == (EventModel::KeyUp { name })
            &&& is_recent_part(after.events.drop_last(), m.events, now)
            &&& down && m.pressed.contains(name) ==> after.pressed == m.pressed
            &&& down && !m.pressed.contains(name) ==> after.pressed == m.pressed.push(name)
            &&& after.rings == m.rings
            &&& after.last_move == m.last_move
        }),
{
    let others = m.pressed.filter(differs_from(name));
    let pressed = if m.pressed.contains(name) {
        m.pressed
    } else {
        m.pressed.push(name)
    };
    lemma_filter_no_duplicates(m.pressed, differs_from(name));
    if !m.pressed.contains(name) {
        lemma_push_member(m.pressed, name, name);
    }
    lemma_recent_part(InputModel { pressed, ..m }, EventModel::KeyDown { name }, now);
    lemma_recent_part(InputModel { pressed: others, ..m }, EventModel::KeyUp { name }, now);
}

/// A mouse button that goes down or up is logged with its place. One that goes
/// down leaves a ring where the pointer is, behind the rings before it, of which
/// the fifteen newest stay. No key changes.
pub proof fn clicks_are_logged(
    m: InputModel,
    button: MouseButton,
    x: i32,
    y: i32,
    down: bool,
    now: u64,
)
    requires
        m.valid(),
        m.not_after(now),
    ensures
        ({
            let after = m.click(button, x, y, down, now);
            &&& after.events.len() > 0
            &&& after.events.last().t_ns == now
            &&& down ==> after.events.last().event == (EventModel::MouseDown { button, x, y })
            &&& !down ==> after.events.last().event == (EventModel::MouseUp { button, x, y })
            &&& is_recent_part(after.events.drop_last(), m.events, now)
            &&& down ==> after.rings.len() > 0 && after.rings.last() == (RingVis {
                x,
                y,
                button,
                born_ns: now,
            })
            &&& down && m.rings.len() <= 15 ==> after.rings.drop_last() == m.rings
            &&& down && m.rings.len() > 15 ==> after.rings.len() == 16 && after.rings.drop_last()
                == m.rings.skip(m.rings.len() - 15)
            &&& !down ==> after.rings == m.rings
            &&& after.pressed == m.pressed
            &&& after.last_move == m.last_move
        }),
{
    let rings = m.rings.push(RingVis { x, y, button, born_ns: now });
    let kept = if rings.len() > MAX_RINGS {
        rings.drop_first()
    } else {
        rings
    };
    lemma_recent_part(InputModel { rings: kept, ..m }, EventModel::MouseDown { button, x, y }, now);
    lemma_recent_part(m, EventModel::MouseUp { button, x, y }, now);
    if m.rings.len() <= 15 {
        assert(kept.drop_last() =~= m.rings);
    } else {
        assert(kept.drop_last() =~= m.rings.skip(m.rings.len() - 15));
    }
}

/// The pointer is logged where it is two pixels or more from where it was logged
/// last, counted along the axes. Nearer than that, nothing changes.
pub proof fn moves_are_logged(m: InputModel, x: i32, y: i32, now: u64)
    requires
        m.valid(),
        m.not_after(now),
    ensures
        ({
            let after = m.moved(x, y, now);
            let dx = x - m.last_move.0;
            let dy = y - m.last_move.1;
            let far = dx <= -2 || 2 <= dx || dy <= -2 || 2 <= dy || (dx != 0 && dy != 0);
            &&& far ==> {
                &&& after.events.len() > 0
                &&& after.events.last() == (RecModel {
                    t_ns: now,
                    event: EventModel::Move { x, y },
                })
                &&& is_recent_part(after.events.drop_last(), m.events, now)
                &&& after.last_move == (x, y)
                &&& after.pressed == m.pressed
                &&& after.rings == m.rings
            }
            &&& !far ==> after == m
        }),
{
    lemma_recent_part(InputModel { last_move: (x, y), ..m }, EventModel::Move { x, y }, now);
}

/// A key that goes down is shown beside the keys shown before: Ctrl, Shift, Alt or
/// Win in front of them, any other key behind them.
pub proof fn new_keys_are_shown_beside_the_others(m: InputModel, name: Seq<char>, now: u64)
    requires
        !m.pressed.contains(name),
    ensures
        ({
            let shown = m.key(name, true, now).shown_keys();
            let first = name == "CTRL"@ || name == "SHIFT"@ || name == "ALT"@ || name == "WIN"@;
            &&& first ==> shown == seq![name] + m.shown_keys()
            &&& !first ==> shown == m.shown_keys().push(name)
        }),
{
    let yes = |k: Seq<char>| is_modifier_name(k);
    let no = |k: Seq<char>| !is_modifier_name(k);
    let more = m.pressed.push(name);
    reveal(Seq::filter);
    assert(more.drop_last() =~= m.pressed);
    assert(more.last() == name);
    let shown = m.key(name, true, now).shown_keys();
    assert(shown == more.filter(yes).reverse() + more.filter(no));
    if is_modifier_name(name) {
        assert(more.filter(yes) == m.pressed.filter(yes).push(name));
        assert(more.filter(no) == m.pressed.filter(no));
        assert(shown =~= seq![name] + m.shown_keys());
    } else {
        assert(more.filter(yes) == m.pressed.filter(yes));
        assert(more.filter(no) == m.pressed.filter(no).push(name));
        assert(shown =~= m.shown_keys().push(name));
    }
}

/// A ring is shown for 700 milliseconds, and only rings of the state are.
pub proof fn rings_are_shown_while_young(m: InputModel, now: u64)
    ensures
        forall|i: int|
            0 <= i < m.shown_rings(now).len() ==> now < (#[trigger] m.shown_rings(now)[i]).born_ns
                + 700_000_000 && m.rings.contains(m.shown_rings(now)[i]),
        forall|i: int|
            0 <= i < m.rings.len() && now < (#[trigger] m.rings[i]).born_ns + 700_000_000
                ==> m.shown_rings(now).contains(m.rings[i]),
{
    let young = |r: RingVis| is_visible(r, now);
    let shown = m.shown_rings(now);
    assert(shown == m.rings.filter(young));
    assert forall|i: int| 0 <= i < shown.len() implies now < (#[trigger] shown[i]).born_ns
        + 700_000_000 && m.rings.contains(shown[i]) by {
        assert(shown.contains(shown[i]));
        lemma_filter_members(m.rings, young, shown[i]);
    }
    assert forall|i: int|
        0 <= i < m.rings.len() && now < (#[trigger] m.rings[i]).born_ns + 700_000_000 implies shown.contains(
        m.rings[i],
    ) by {
        assert(m.rings.contains(m.rings[i]));
        lemma_filter_members(m.rings, young, m.rings[i]);
    }
}

/// The events of a window are those of the log, event by event: one more event
/// is one more of the window's where its time lies in the window, dated from the
/// window's start, and changes nothing where it does not.
pub proof fn windows_take_event_by_event(events: Seq<RecModel>, e: RecModel, w: InputWindow)
    ensures
        window_events(Seq::empty(), w).len() == 0,
        ({
            let inside = w.start * 1_000_000_000 <= e.t_ns * w.fps && e.t_ns * w.fps < w.end
                * 1_000_000_000;
            let before = window_events(events, w);
            let after = window_events(events.push(e), w);
            &&& inside ==> after == before.push(
                WindowModel {
                    since_start: e.t_ns * w.fps - w.start * 1_000_000_000,
                    event: e.event,
                },
            )
            &&& !inside ==> after == before
        }),
{
    let p = |e: RecModel| in_window(e.t_ns, w);
    let more = events.push(e);
    reveal(Seq::filter);
    assert(Seq::<RecModel>::empty().filter(p) =~= Seq::<RecModel>::empty());
    assert(more.drop_last() =~= events);
    assert(more.last() == e);
    window_in_time(e.t_ns, w);
    let f = seen_from(w);
    if in_window(e.t_ns, w) {
        assert(more.filter(p) == events.filter(p).push(e));
        assert(events.filter(p).push(e).map_values(f) =~= events.filter(p).map_values(f).push(f(e)));
    } else {
        assert(more.filter(p) == events.filter(p));
    }
}

} // verus!
