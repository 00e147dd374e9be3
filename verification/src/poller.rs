//! Polling: which keys and buttons are watched, and what a change in their
//! state does to the input state.

use vstd::prelude::*;

use crate::input::{InputState, MouseButton};
use crate::text;

verus! {

// ---------------------------------------------------------------------------
// What is watched
// ---------------------------------------------------------------------------

/// How many keys are watched.
pub const KEY_COUNT: usize = 61;

/// The virtual-key code of a watched key: digits, letters, function keys and
/// then the keys with a name.
pub open spec fn key_code(i: int) -> int {
    if i < 10 {
        0x30 + i
    } else if i < 36 {
        0x41 + (i - 10)
    } else if i < 48 {
        0x70 + (i - 36)
    } else if i == 48 {
        0x20
    } else if i == 49 {
        0x0D
    } else if i == 50 {
        0x09
    } else if i == 51 {
        0x1B
    } else if i == 52 {
        0x08
    } else if i < 57 {
        0x25 + (i - 53)
    } else if i < 60 {
        0x10 + (i - 57)
    } else {
        0x5B
    }
}

/// The name of a watched key (display text for overlay and sidecar).
pub open spec fn key_name(i: int) -> Seq<char> {
    if i < 10 {
        text::decimal(i as nat)
    } else if i < 36 {
        seq![(0x41 + (i - 10)) as char]
    } else if i < 48 {
        seq!['F'] + text::decimal((i - 35) as nat)
    } else if i == 48 {
        "SPACE"@
    } else if i == 49 {
        "ENTER"@
    } else if i == 50 {
        "TAB"@
    } else if i == 51 {
        "ESC"@
    } else if i == 52 {
        "BACKSPACE"@
    } else if i == 53 {
        "LEFT"@
    } else if i == 54 {
        "UP"@
    } else if i == 55 {
        "RIGHT"@
    } else if i == 56 {
        "DOWN"@
    } else if i == 57 {
        "SHIFT"@
    } else if i == 58 {
        "CTRL"@
    } else if i == 59 {
        "ALT"@
    } else {
        "WIN"@
    }
}

/// The virtual-key code of a watched key.
pub fn watched_code(i: usize) -> (r: u16)
    requires
        i < KEY_COUNT,
    ensures
        r == key_code(i as int),
{
    let k: u16 = i as u16;
    if k < 10 {
        0x30 + k
    } else if k < 36 {
        0x41 + (k - 10)
    } else if k < 48 {
        0x70 + (k - 36)
    } else if k == 48 {
        0x20
    } else if k == 49 {
        0x0D
    } else if k == 50 {
        0x09
    } else if k == 51 {
        0x1B
    } else if k == 52 {
        0x08
    } else if k < 57 {
        0x25 + (k - 53)
    } else if k < 60 {
        0x10 + (k - 57)
    } else {
        0x5B
    }
}

/// The name of a watched key.
pub fn watched_name(i: usize) -> (r: String)
    requires
        i < KEY_COUNT,
    ensures
        r@ == key_name(i as int),
{
    if i < 10 {
        text::decimal_text(i as u64)
    } else if i < 36 {
        let mut out = String::new();
        let letter: u8 = 0x41 + (i - 10) as u8;
        out.push(letter as char);
        assert(out@ =~= key_name(i as int));
        out
    } else if i < 48 {
        let mut out = String::new();
        out.push('F');
        out.append(text::decimal_text((i - 35) as u64).as_str());
        assert(out@ =~= key_name(i as int));
        out
    } else {
        named_key(i).to_owned()
    }
}

fn named_key(i: usize) -> (r: &'static str)
    requires
        48 <= i < KEY_COUNT,
    ensures
        r@ == key_name(i as int),
{
    match i {
        48 => "SPACE",
        49 => "ENTER",
        50 => "TAB",
        51 => "ESC",
        52 => "BACKSPACE",
        53 => "LEFT",
        54 => "UP",
        55 => "RIGHT",
        56 => "DOWN",
        57 => "SHIFT",
        58 => "CTRL",
        59 => "ALT",
        _ => "WIN",
    }
}

/// No two watched keys share a code.
pub proof fn key_codes_differ(i: int, j: int)
    requires
        0 <= i < j < KEY_COUNT,
    ensures
        key_code(i) != key_code(j),
{
}

/// How many mouse buttons are watched.
pub const BUTTON_COUNT: usize = 5;

/// A watched mouse button.
pub open spec fn button_at(i: int) -> MouseButton {
    if i == 0 {
        MouseButton::Left
    } else if i == 1 {
        MouseButton::Right
    } else if i == 2 {
        MouseButton::Middle
    } else if i == 3 {
        MouseButton::X1
    } else {
        MouseButton::X2
    }
}

/// The virtual-key code of a watched mouse button.
pub open spec fn button_code(i: int) -> int {
    if i < 2 {
        1 + i
    } else {
        2 + i
    }
}

/// A watched mouse button and its virtual-key code.
pub fn watched_button(i: usize) -> (r: (u16, MouseButton))
    requires
        i < BUTTON_COUNT,
    ensures
        r.0 == button_code(i as int),
        r.1 == button_at(i as int),
{
    match i {
        0 => (0x01, MouseButton::Left),
        1 => (0x02, MouseButton::Right),
        2 => (0x04, MouseButton::Middle),
        3 => (0x05, MouseButton::X1),
        _ => (0x06, MouseButton::X2),
    }
}

/// How many gamepad buttons are watched.
pub const PAD_BUTTON_COUNT: usize = 14;

/// How many gamepads are watched.
pub const PAD_COUNT: usize = 4;

/// The flag of a gamepad button.
pub open spec fn pad_flag(i: int) -> u16 {
    if i == 0 {
        0x1000
    } else if i == 1 {
        0x2000
    } else if i == 2 {
        0x4000
    } else if i == 3 {
        0x8000
    } else if i == 4 {
        0x0001
    } else if i == 5 {
        0x0002
    } else if i == 6 {
        0x0004
    } else if i == 7 {
        0x0008
    } else if i == 8 {
        0x0010
    } else if i == 9 {
        0x0020
    } else if i == 10 {
        0x0040
    } else if i == 11 {
        0x0080
    } else if i == 12 {
        0x0100
    } else {
        0x0200
    }
}

/// The name of a gamepad button.
pub open spec fn pad_name(i: int) -> Seq<char> {
    if i == 0 {
        "A"@
    } else if i == 1 {
        "B"@
    } else if i == 2 {
        "X"@
    } else if i == 3 {
        "Y"@
    } else if i == 4 {
        "D-PAD UP"@
    } else if i == 5 {
        "D-PAD DOWN"@
    } else if i == 6 {
        "D-PAD LEFT"@
    } else if i == 7 {
        "D-PAD RIGHT"@
    } else if i == 8 {
        "START"@
    } else if i == 9 {
        "BACK"@
    } else if i == 10 {
        "L-STICK"@
    } else if i == 11 {
        "R-STICK"@
    } else if i == 12 {
        "LB"@
    } else {
        "RB"@
    }
}

fn pad_button(i: usize) -> (r: (u16, &'static str))
    requires
        i < PAD_BUTTON_COUNT,
    ensures
        r.0 == pad_flag(i as int),
        r.1@ == pad_name(i as int),
{
    match i {
        0 => (0x1000, "A"),
        1 => (0x2000, "B"),
        2 => (0x4000, "X"),
        3 => (0x8000, "Y"),
        4 => (0x0001, "D-PAD UP"),
        5 => (0x0002, "D-PAD DOWN"),
        6 => (0x0004, "D-PAD LEFT"),
        7 => (0x0008, "D-PAD RIGHT"),
        8 => (0x0010, "START"),
        9 => (0x0020, "BACK"),
        10 => (0x0040, "L-STICK"),
        11 => (0x0080, "R-STICK"),
        12 => (0x0100, "LB"),
        _ => (0x0200, "RB"),
    }
}

// ---------------------------------------------------------------------------
// Coordinates
// ---------------------------------------------------------------------------

/// A coordinate brought into `0..size`.
pub open spec fn clamped(v: int, size: u32) -> int {
    if v < 0 || size == 0 {
        0
    } else if v >= size {
        size - 1
    } else {
        v
    }
}

/// Where a pointer on the desktop is within the captured monitor.
pub open spec fn on_monitor(x: i32, y: i32, off: (i32, i32), size: (u32, u32)) -> (i32, i32) {
    (clamped(x - off.0, size.0) as i32, clamped(y - off.1, size.1) as i32)
}

/// Whether a monitor's sides fit a coordinate.
pub open spec fn side_fits(size: (u32, u32)) -> bool {
    size.0 <= 0x8000_0000 && size.1 <= 0x8000_0000
}

fn clamp_to(v: i64, size: u32) -> (r: i32)
    requires
        size <= 0x8000_0000,
    ensures
        r == clamped(v as int, size),
{
    if v < 0 || size == 0 {
        0
    } else if v >= size as i64 {
        (size - 1) as i32
    } else {
        v as i32
    }
}

/// Translate a desktop cursor position to monitor-relative capture coords.
pub fn to_monitor(x: i32, y: i32, off: (i32, i32), size: (u32, u32)) -> (r: (i32, i32))
    requires
        side_fits(size),
    ensures
        r == on_monitor(x, y, off, size),
{
    (
        clamp_to((x as i64) - (off.0 as i64), size.0),
        clamp_to((y as i64) - (off.1 as i64), size.1),
    )
}

/// A pointer is always found on the monitor, if the monitor has any pixels.
pub proof fn pointer_is_on_monitor(x: i32, y: i32, off: (i32, i32), size: (u32, u32))
    requires
        0 < size.0 <= 0x8000_0000,
        0 < size.1 <= 0x8000_0000,
    ensures
        0 <= on_monitor(x, y, off, size).0 < size.0,
        0 <= on_monitor(x, y, off, size).1 < size.1,
{
}

// ---------------------------------------------------------------------------
// Edge detection
// ---------------------------------------------------------------------------

/// What was seen at the last poll.
#[derive(Debug)]
pub struct Poller {
    pub keys: Vec<bool>,
    pub buttons: Vec<bool>,
    pub last_pos: (i32, i32),
    pub pads: Vec<u16>,
}

/// The input state after the buttons of a gamepad, from the `i`-th on, went
/// from one set of flags to another.
pub open spec fn pad_changes(
    m: crate::input::InputModel,
    was: u16,
    now: u16,
    i: int,
    now_ns: u64,
) -> crate::input::InputModel
    decreases PAD_BUTTON_COUNT - i,
{
    if i >= PAD_BUTTON_COUNT {
        m
    } else {
        let flag = pad_flag(i);
        let next = if (was & flag != 0) != (now & flag != 0) {
            m.key(pad_name(i), now & flag != 0, now_ns)
        } else {
            m
        };
        pad_changes(next, was, now, i + 1, now_ns)
    }
}

impl Poller {
    pub open spec fn valid(self) -> bool {
        &&& self.keys@.len() == KEY_COUNT
        &&& self.buttons@.len() == BUTTON_COUNT
        &&& self.pads@.len() == PAD_COUNT
    }

    /// Nothing is held down, and the pointer was seen nowhere.
    pub fn new() -> (p: Poller)
        ensures
            p.valid(),
            forall|i: int| 0 <= i < KEY_COUNT ==> !#[trigger] p.keys@[i],
            forall|i: int| 0 <= i < BUTTON_COUNT ==> !#[trigger] p.buttons@[i],
            forall|i: int| 0 <= i < PAD_COUNT ==> #[trigger] p.pads@[i] == 0,
            p.last_pos == (i32::MIN, i32::MIN),
    {
        let mut keys: Vec<bool> = Vec::new();
        let mut i: usize = 0;
        while i < KEY_COUNT
            invariant
                i <= KEY_COUNT,
                keys@.len() == i,
                forall|j: int| 0 <= j < i ==> !#[trigger] keys@[j],
            decreases KEY_COUNT - i,
        {
            keys.push(false);
            i += 1;
        }
        Poller {
            keys,
            buttons: vec![false, false, false, false, false],
            last_pos: (i32::MIN, i32::MIN),
            pads: vec![0, 0, 0, 0],
        }
    }

    /// A key was polled. Only a change counts.
    pub fn poll_key(&mut self, s: &mut InputState, i: usize, down: bool, now_ns: u64)
        requires
            old(self).valid(),
            i < KEY_COUNT,
        ensures
            final(self).valid(),
            final(self).keys@ == old(self).keys@.update(i as int, down),
            final(self).buttons == old(self).buttons,
            final(self).last_pos == old(self).last_pos,
            final(self).pads == old(self).pads,
            final(s)@ == if down != old(self).keys@[i as int] {
                old(s)@.key(key_name(i as int), down, now_ns)
            } else {
                old(s)@
            },
    {
        if down != self.keys[i] {
            let name = watched_name(i);
            s.record_key(name.as_str(), down, now_ns);
            self.keys.set(i, down);
        }
        assert(self.keys@ =~= old(self).keys@.update(i as int, down));
    }

    /// The pointer was polled, in desktop coordinates. A move of less than
    /// two pixels does not count.
    pub fn poll_cursor(
        &mut self,
        s: &mut InputState,
        pos: (i32, i32),
        off: (i32, i32),
        size: (u32, u32),
        now_ns: u64,
    )
        requires
            side_fits(size),
        ensures
            final(self).keys == old(self).keys,
            final(self).buttons == old(self).buttons,
            final(self).pads == old(self).pads,
            ({
                let at = on_monitor(pos.0, pos.1, off, size);
                if crate::input::distance(at.0, at.1, old(self).last_pos) >= 2 {
                    final(self).last_pos == at && final(s)@ == old(s)@.moved(at.0, at.1, now_ns)
                } else {
                    final(self).last_pos == old(self).last_pos && final(s)@ == old(s)@
                }
            }),
    {
        let at = to_monitor(pos.0, pos.1, off, size);
        if crate::input::span(at.0, at.1, self.last_pos) >= 2 {
            self.last_pos = at;
            s.record_move(at.0, at.1, now_ns);
        }
    }

    /// A mouse button was polled, with where the pointer is where that can be
    /// told. Only a change counts.
    pub fn poll_button(
        &mut self,
        s: &mut InputState,
        i: usize,
        down: bool,
        pos: Option<(i32, i32)>,
        off: (i32, i32),
        size: (u32, u32),
        now_ns: u64,
    )
        requires
            old(self).valid(),
            i < BUTTON_COUNT,
            side_fits(size),
        ensures
            final(self).valid(),
            final(self).buttons@ == old(self).buttons@.update(i as int, down),
            final(self).keys == old(self).keys,
            final(self).last_pos == old(self).last_pos,
            final(self).pads == old(self).pads,
            ({
                let at = match pos {
                    Some(p) => on_monitor(p.0, p.1, off, size),
                    None => old(self).last_pos,
                };
                final(s)@ == if down != old(self).buttons@[i as int] {
                    old(s)@.click(button_at(i as int), at.0, at.1, down, now_ns)
                } else {
                    old(s)@
                }
            }),
    {
        if down != self.buttons[i] {
            let at = match pos {
                Some(p) => to_monitor(p.0, p.1, off, size),
                None => self.last_pos,
            };
            let (_code, button) = watched_button(i);
            s.record_click(button, at.0, at.1, down, now_ns);
            self.buttons.set(i, down);
        }
        assert(self.buttons@ =~= old(self).buttons@.update(i as int, down));
    }

    /// A gamepad was polled: its buttons, or `None` where it is not there.
    /// Buttons held on a gamepad that goes away are forgotten.
    pub fn poll_pad(&mut self, s: &mut InputState, idx: usize, buttons: Option<u16>, now_ns: u64)
        requires
            old(self).valid(),
            idx < PAD_COUNT,
        ensures
            final(self).valid(),
            final(self).keys == old(self).keys,
            final(self).buttons == old(self).buttons,
            final(self).last_pos == old(self).last_pos,
            match buttons {
                Some(now) => final(self).pads@ == old(self).pads@.update(idx as int, now)
                    && final(s)@ == pad_changes(
                    old(s)@,
                    old(self).pads@[idx as int],
                    now,
                    0,
                    now_ns,
                ),
                None => final(self).pads@ == old(self).pads@.update(idx as int, 0) && final(s)@
                    == old(s)@,
            },
    {
        match buttons {
            None => {
                self.pads.set(idx, 0);
            },
            Some(now) => {
                let was = self.pads[idx];
                let mut i: usize = 0;
                while i < PAD_BUTTON_COUNT
                    invariant
                        i <= PAD_BUTTON_COUNT,
                        pad_changes(old(s)@, was, now, 0, now_ns) == pad_changes(
                            s@,
                            was,
                            now,
                            i as int,
                            now_ns,
                        ),
                    decreases PAD_BUTTON_COUNT - i,
                {
                    let (flag, name) = pad_button(i);
                    let before = was & flag != 0;
                    let after = now & flag != 0;
                    if before != after {
                        s.record_key(name, after, now_ns);
                    }
                    i += 1;
                }
                self.pads.set(idx, now);
            },
        }
    }
}

/// Whatever the buttons of a gamepad do, the input state stays sound.
pub proof fn pad_changes_keep_the_state_valid(
    m: crate::input::InputModel,
    was: u16,
    now: u16,
    i: int,
    now_ns: u64,
)
    requires
        m.valid(),
        m.not_after(now_ns),
        0 <= i,
    ensures
        pad_changes(m, was, now, i, now_ns).valid(),
        pad_changes(m, was, now, i, now_ns).not_after(now_ns),
    decreases PAD_BUTTON_COUNT - i,
{
    if i < PAD_BUTTON_COUNT {
        let flag = pad_flag(i);
        let down = now & flag != 0;
        crate::input::recording_keeps_the_state_valid(
            m,
            pad_name(i),
            MouseButton::Left,
            0,
            0,
            down,
            now_ns,
        );
        let next = if (was & flag != 0) != down {
            m.key(pad_name(i), down, now_ns)
        } else {
            m
        };
        pad_changes_keep_the_state_valid(next, was, now, i + 1, now_ns);
    }
}

/// The watched keys: digits and letters have the code of the character that is
/// their name, F1 to F12 the twelve codes from 112 on, in order of the number in
/// their name.
pub proof fn key_codes_go_with_the_names(i: int)
    requires
        0 <= i < KEY_COUNT,
    ensures
        KEY_COUNT == 61,
        i < 36 ==> key_name(i).len() == 1 && key_code(i) == key_name(i)[0] as int,
        36 <= i < 48 ==> key_name(i)[0] == 'F' && 112 <= key_code(i) <= 123 && text::number(
            key_name(i).skip(1),
        ) == Some((key_code(i) - 111) as nat),
        key_name(i) == "SPACE"@ <==> key_code(i) == 0x20,
        key_name(i) == "ENTER"@ <==> key_code(i) == 0x0D,
        key_name(i) == "TAB"@ <==> key_code(i) == 0x09,
        key_name(i) == "ESC"@ <==> key_code(i) == 0x1B,
        key_name(i) == "BACKSPACE"@ <==> key_code(i) == 0x08,
        key_name(i) == "LEFT"@ <==> key_code(i) == 0x25,
        key_name(i) == "UP"@ <==> key_code(i) == 0x26,
        key_name(i) == "RIGHT"@ <==> key_code(i) == 0x27,
        key_name(i) == "DOWN"@ <==> key_code(i) == 0x28,
        key_name(i) == "SHIFT"@ <==> key_code(i) == 0x10,
        key_name(i) == "CTRL"@ <==> key_code(i) == 0x11,
        key_name(i) == "ALT"@ <==> key_code(i) == 0x12,
        key_name(i) == "WIN"@ <==> key_code(i) == 0x5B,
{
    reveal_strlit("SPACE");
    reveal_strlit("ENTER");
    reveal_strlit("TAB");
    reveal_strlit("ESC");
    reveal_strlit("BACKSPACE");
    reveal_strlit("LEFT");
    reveal_strlit("UP");
    reveal_strlit("RIGHT");
    reveal_strlit("DOWN");
    reveal_strlit("SHIFT");
    reveal_strlit("CTRL");
    reveal_strlit("ALT");
    reveal_strlit("WIN");
    assert("SPACE"@[1] == 'P' && "SHIFT"@[1] == 'H');
    assert("SPACE"@[0] == 'S' && "ENTER"@[0] == 'E' && "TAB"@[0] == 'T' && "ESC"@[0] == 'E'
        && "BACKSPACE"@[0] == 'B' && "LEFT"@[0] == 'L' && "UP"@[0] == 'U' && "RIGHT"@[0] == 'R'
        && "DOWN"@[0] == 'D' && "SHIFT"@[0] == 'S' && "CTRL"@[0] == 'C' && "ALT"@[0] == 'A'
        && "WIN"@[0] == 'W');
    if i < 10 {
        assert(text::decimal(i as nat) =~= seq![text::digit_char(i)]);
    } else if 36 <= i < 48 {
        let n = (i - 35) as nat;
        text::decimal_round_trip(n, 0);
        assert(key_name(i).skip(1) =~= text::decimal(n));
    }
}

/// The watched mouse buttons, each under its own code.
pub proof fn button_codes_go_with_the_buttons(i: int)
    requires
        0 <= i < BUTTON_COUNT,
    ensures
        BUTTON_COUNT == 5,
        button_at(i) is Left <==> button_code(i) == 1,
        button_at(i) is Right <==> button_code(i) == 2,
        button_at(i) is Middle <==> button_code(i) == 4,
        button_at(i) is X1 <==> button_code(i) == 5,
        button_at(i) is X2 <==> button_code(i) == 6,
{
}

/// A pointer on the captured monitor is found where it is, seen from the
/// monitor's corner; one beside it at the nearest edge.
pub proof fn pointer_keeps_its_place(x: i32, y: i32, off: (i32, i32), size: (u32, u32))
    requires
        0 < size.0 <= 0x8000_0000,
        0 < size.1 <= 0x8000_0000,
    ensures
        off.0 <= x < off.0 + size.0 ==> off.0 + on_monitor(x, y, off, size).0 == x,
        off.1 <= y < off.1 + size.1 ==> off.1 + on_monitor(x, y, off, size).1 == y,
        x < off.0 ==> on_monitor(x, y, off, size).0 == 0,
        y < off.1 ==> on_monitor(x, y, off, size).1 == 0,
        x >= off.0 + size.0 ==> on_monitor(x, y, off, size).0 + 1 == size.0,
        y >= off.1 + size.1 ==> on_monitor(x, y, off, size).1 + 1 == size.1,
{
}

/// No two gamepad buttons share a name or a flag.
pub proof fn pad_buttons_differ(i: int, j: int)
    requires
        0 <= i < PAD_BUTTON_COUNT,
        0 <= j < PAD_BUTTON_COUNT,
        i != j,
    ensures
        pad_flag(i) != pad_flag(j),
        pad_name(i) != pad_name(j),
{
    reveal_strlit("A");
    reveal_strlit("B");
    reveal_strlit("X");
    reveal_strlit("Y");
    reveal_strlit("D-PAD UP");
    reveal_strlit("D-PAD DOWN");
    reveal_strlit("D-PAD LEFT");
    reveal_strlit("D-PAD RIGHT");
    reveal_strlit("START");
    reveal_strlit("BACK");
    reveal_strlit("L-STICK");
    reveal_strlit("R-STICK");
    reveal_strlit("LB");
    reveal_strlit("RB");
    let a = pad_name(i);
    let b = pad_name(j);
    assert("BACK"@.len() == 4 && "START"@.len() == 5 && "D-PAD UP"@.len() == 8);
    assert("D-PAD RIGHT"@.len() == 11);
    if a.len() == b.len() {
        if a.len() == 10 {
            assert("D-PAD DOWN"@[6] == 'D' && "D-PAD LEFT"@[6] == 'L');
            assert(a[6] != b[6]);
        } else {
            assert("A"@[0] == 'A' && "B"@[0] == 'B' && "X"@[0] == 'X' && "Y"@[0] == 'Y');
            assert("L-STICK"@[0] == 'L' && "R-STICK"@[0] == 'R' && "LB"@[0] == 'L' && "RB"@[0] == 'R');
            assert(a[0] != b[0]);
        }
    }
}

/// After a gamepad was polled, a button whose flag changed is held just where its
/// flag is set now. A button whose flag stayed, and every other key, is held
/// where it was held before.
pub proof fn pad_buttons_follow_their_flags(
    m: crate::input::InputModel,
    was: u16,
    now: u16,
    k: int,
    other: Seq<char>,
    now_ns: u64,
)
    requires
        m.pressed.no_duplicates(),
        0 <= k < PAD_BUTTON_COUNT,
        forall|i: int| 0 <= i < PAD_BUTTON_COUNT ==> #[trigger] pad_name(i) != other,
    ensures
        ({
            let after = pad_changes(m, was, now, 0, now_ns);
            let set = now & pad_flag(k) != 0;
            &&& (was & pad_flag(k) != 0) != set ==> (after.pressed.contains(pad_name(k)) <==> set)
            &&& (was & pad_flag(k) != 0) == set ==> (after.pressed.contains(pad_name(k))
                <==> m.pressed.contains(pad_name(k)))
            &&& after.pressed.contains(other) <==> m.pressed.contains(other)
            &&& after.rings == m.rings
            &&& after.last_move == m.last_move
        }),
{
    lemma_pad_changes(m, was, now, 0, k, other, now_ns);
}

proof fn lemma_pad_changes(
    m: crate::input::InputModel,
    was: u16,
    now: u16,
    i: int,
    k: int,
    other: Seq<char>,
    now_ns: u64,
)
    requires
        m.pressed.no_duplicates(),
        0 <= k < PAD_BUTTON_COUNT,
        0 <= i <= PAD_BUTTON_COUNT,
        forall|j: int| 0 <= j < PAD_BUTTON_COUNT ==> #[trigger] pad_name(j) != other,
    ensures
        ({
            let after = pad_changes(m, was, now, i, now_ns);
            let set = now & pad_flag(k) != 0;
            let turned = (was & pad_flag(k) != 0) != set && i <= k;
            &&& turned ==> (after.pressed.contains(pad_name(k)) <==> set)
            &&& !turned ==> (after.pressed.contains(pad_name(k)) <==> m.pressed.contains(
                pad_name(k),
            ))
            &&& after.pressed.contains(other) <==> m.pressed.contains(other)
            &&& after.rings == m.rings
            &&& after.last_move == m.last_move
        }),
    decreases PAD_BUTTON_COUNT - i,
{
    if i < PAD_BUTTON_COUNT {
        let flag = pad_flag(i);
        let down = now & flag != 0;
        let turn = crate::input::KeyTurn { name: pad_name(i), down, now: now_ns };
        let none = Seq::<crate::input::KeyTurn>::empty();
        let turns = none.push(turn);
        let next = if (was & flag != 0) != down {
            m.key(pad_name(i), down, now_ns)
        } else {
            m
        };
        assert(turns.drop_last() =~= none);
        reveal_with_fuel(crate::input::InputModel::keys, 2);
        reveal_with_fuel(crate::input::last_went_down, 2);
        assert(m.keys(turns) == m.key(pad_name(i), down, now_ns));
        crate::input::last_key_event_decides(m, turns, pad_name(k));
        crate::input::last_key_event_decides(m, turns, other);
        if i != k {
            pad_buttons_differ(i, k);
        }
        assert(pad_name(i) != other);
        lemma_pad_changes(next, was, now, i + 1, k, other, now_ns);
    }
}

/// Every gamepad button is told by its own flag.
pub proof fn pad_flags_go_with_the_names(i: int)
    requires
        0 <= i < PAD_BUTTON_COUNT,
    ensures
        PAD_BUTTON_COUNT == 14,
        pad_flag(i) == 0x1000 <==> pad_name(i) == "A"@,
        pad_flag(i) == 0x2000 <==> pad_name(i) == "B"@,
        pad_flag(i) == 0x4000 <==> pad_name(i) == "X"@,
        pad_flag(i) == 0x8000 <==> pad_name(i) == "Y"@,
        pad_flag(i) == 0x0001 <==> pad_name(i) == "D-PAD UP"@,
        pad_flag(i) == 0x0002 <==> pad_name(i) == "D-PAD DOWN"@,
        pad_flag(i) == 0x0004 <==> pad_name(i) == "D-PAD LEFT"@,
        pad_flag(i) == 0x0008 <==> pad_name(i) == "D-PAD RIGHT"@,
        pad_flag(i) == 0x0010 <==> pad_name(i) == "START"@,
        pad_flag(i) == 0x0020 <==> pad_name(i) == "BACK"@,
        pad_flag(i) == 0x0040 <==> pad_name(i) == "L-STICK"@,
        pad_flag(i) == 0x0080 <==> pad_name(i) == "R-STICK"@,
        pad_flag(i) == 0x0100 <==> pad_name(i) == "LB"@,
        pad_flag(i) == 0x0200 <==> pad_name(i) == "RB"@,
{
    assert forall|j: int| 0 <= j < PAD_BUTTON_COUNT && j != i implies #[trigger] pad_name(j)
        != pad_name(i) by {
        pad_buttons_differ(j, i);
    }
    assert(pad_name(0) == "A"@ && pad_name(1) == "B"@ && pad_name(2) == "X"@ && pad_name(3) == "Y"@);
    assert(pad_name(4) == "D-PAD UP"@ && pad_name(5) == "D-PAD DOWN"@ && pad_name(6)
        == "D-PAD LEFT"@ && pad_name(7) == "D-PAD RIGHT"@);
    assert(pad_name(8) == "START"@ && pad_name(9) == "BACK"@ && pad_name(10) == "L-STICK"@
        && pad_name(11) == "R-STICK"@ && pad_name(12) == "LB"@ && pad_name(13) == "RB"@);
}

/// On a monitor without pixels a pointer is found in the corner.
pub proof fn pointer_on_nothing_is_in_the_corner(x: i32, y: i32, off: (i32, i32), size: (u32, u32))
    ensures
        size.0 == 0 ==> on_monitor(x, y, off, size).0 == 0,
        size.1 == 0 ==> on_monitor(x, y, off, size).1 == 0,
{
}

} // verus!
