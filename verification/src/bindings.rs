//! Global hotkeys: how a hotkey is found on a keyboard, and which action a key
//! press asks for.

use vstd::prelude::*;

use crate::config::Action;
use crate::hotkey::{Hotkey, HotkeyKey, MOD_ALT, MOD_CTRL, MOD_SHIFT, MOD_WIN};

verus! {

pub const XK_F1: u32 = 0xffbe;

pub const XK_PRINT: u32 = 0xff61;

pub const XK_ALT_L: u32 = 0xffe9;

pub const XK_ALT_R: u32 = 0xffea;

pub const XK_SUPER_L: u32 = 0xffeb;

pub const XK_SUPER_R: u32 = 0xffec;

pub const XK_SPACE: u32 = 0x20;

/// CapsLock (0x02) and NumLock (0x10) must not change a hotkey's identity;
/// grabs are registered for both states.
pub const STRIP_MASK: u16 = 0x12;

// ---------------------------------------------------------------------------
// Keyboards
// ---------------------------------------------------------------------------

/// The keysym of a key.
pub open spec fn key_sym(key: HotkeyKey) -> Option<int> {
    match key {
        HotkeyKey::F(n) => if 1 <= n <= 12 {
            Some(XK_F1 + n - 1)
        } else {
            None
        },
        HotkeyKey::PrintScreen => Some(XK_PRINT as int),
        HotkeyKey::Letter(c) => Some(c as int),
        HotkeyKey::Digit(d) => Some(0x30 + d),
        HotkeyKey::Space => Some(XK_SPACE as int),
    }
}

/// The keysym of a key.
pub fn keysym_for(key: HotkeyKey) -> (r: Option<u32>)
    ensures
        match r {
            Some(s) => key_sym(key) == Some(s as int),
            None => key_sym(key) is None,
        },
{
    match key {
        HotkeyKey::F(n) => if 1 <= n && n <= 12 {
            Some(XK_F1 + n as u32 - 1)
        } else {
            None
        },
        HotkeyKey::PrintScreen => Some(XK_PRINT),
        HotkeyKey::Letter(c) => Some(c as u32),
        HotkeyKey::Digit(d) => Some(0x30u32 + d as u32),
        HotkeyKey::Space => Some(XK_SPACE),
    }
}

/// A keyboard as the display server describes it: for each keycode from
/// `first` on, a row of `per` keysyms.
#[derive(Debug)]
pub struct Keyboard {
    pub first: u8,
    pub per: usize,
    pub keysyms: Vec<u32>,
}

impl Keyboard {
    /// Whether rows are not empty and every row has a keycode.
    pub open spec fn valid(self) -> bool {
        &&& self.per > 0
        &&& self.keysyms@.len() <= self.per * (256 - self.first)
    }

    /// The keycode of the row in which a keysym stands.
    pub open spec fn keycode_at(self, i: int) -> int {
        self.first + i / (self.per as int)
    }

    /// Whether one of some keysyms stands in the row of a keycode.
    pub open spec fn carries(self, syms: Seq<u32>, keycode: u8) -> bool {
        exists|i: int|
            0 <= i < self.keysyms@.len() && syms.contains(#[trigger] self.keysyms@[i])
                && self.keycode_at(i) == keycode
    }

    /// Whether this is the first keycode in whose row a keysym stands.
    pub open spec fn is_first_with(self, sym: u32, keycode: u8) -> bool {
        exists|i: int|
            {
                &&& 0 <= i < self.keysyms@.len()
                &&& #[trigger] self.keysyms@[i] == sym
                &&& self.keycode_at(i) == keycode
                &&& forall|j: int| 0 <= j < i ==> #[trigger] self.keysyms@[j] != sym
            }
    }

    fn code_of(&self, i: usize) -> (r: u8)
        requires
            self.valid(),
            i < self.keysyms@.len(),
        ensures
            r == self.keycode_at(i as int),
    {
        proof {
            let p = self.per as int;
            let n = 256 - self.first;
            vstd::arithmetic::div_mod::lemma_fundamental_div_mod(i as int, p);
            let q = i as int / p;
            assert(q < n) by (nonlinear_arith)
                requires
                    i == p * q + i as int % p,
                    0 <= i as int % p,
                    i < p * n,
                    p > 0,
            ;
            assert(q >= 0) by (nonlinear_arith)
                requires
                    i == p * q + i as int % p,
                    i as int % p < p,
                    i >= 0,
                    p > 0,
            ;
        }
        let row: usize = i / self.per;
        self.first + row as u8
    }

    /// Find the first keycode whose keysym row contains `sym`.
    pub fn keycode_for_sym(&self, sym: u32) -> (r: Option<u8>)
        requires
            self.valid(),
        ensures
            match r {
                Some(kc) => self.is_first_with(sym, kc),
                None => !self.keysyms@.contains(sym),
            },
    {
        let mut i: usize = 0;
        while i < self.keysyms.len()
            invariant
                self.valid(),
                i <= self.keysyms@.len(),
                forall|j: int| 0 <= j < i ==> #[trigger] self.keysyms@[j] != sym,
            decreases self.keysyms@.len() - i,
        {
            if self.keysyms[i] == sym {
                let kc = self.code_of(i);
                assert(self.keysyms@[i as int] == sym);
                return Some(kc);
            }
            i += 1;
        }
        None
    }

    fn row_carries(&self, syms: &Vec<u32>, keycode: u8) -> (r: bool)
        requires
            self.valid(),
        ensures
            r == self.carries(syms@, keycode),
    {
        let mut i: usize = 0;
        while i < self.keysyms.len()
            invariant
                self.valid(),
                i <= self.keysyms@.len(),
                forall|j: int|
                    0 <= j < i ==> !(syms@.contains(#[trigger] self.keysyms@[j])
                        && self.keycode_at(j) == keycode),
            decreases self.keysyms@.len() - i,
        {
            if is_among(syms, self.keysyms[i]) && self.code_of(i) == keycode {
                assert(syms@.contains(self.keysyms@[i as int]));
                return true;
            }
            i += 1;
        }
        false
    }
}

fn is_among(syms: &Vec<u32>, sym: u32) -> (r: bool)
    ensures
        r == syms@.contains(sym),
{
    let mut i: usize = 0;
    while i < syms.len()
        invariant
            i <= syms@.len(),
            forall|j: int| 0 <= j < i ==> #[trigger] syms@[j] != sym,
        decreases syms@.len() - i,
    {
        if syms[i] == sym {
            assert(syms@[i as int] == sym);
            return true;
        }
        i += 1;
    }
    false
}

/// How many keycodes a modifier has in a modifier map of eight modifiers.
pub open spec fn keycodes_per_modifier(len: nat) -> nat {
    if len / 8 == 0 {
        1
    } else {
        len / 8
    }
}

/// The modifiers that some keysyms stand for, given the first entries of a
/// modifier map.
pub open spec fn modifiers_of(
    kb: Keyboard,
    syms: Seq<u32>,
    map: Seq<u8>,
    per_mod: nat,
) -> u16
    decreases map.len(),
{
    if map.len() == 0 {
        0
    } else {
        let i = (map.len() - 1) as nat;
        let rest = modifiers_of(kb, syms, map.drop_last(), per_mod);
        if map.last() != 0 && kb.carries(syms, map.last()) {
            rest | (1u16 << ((i / per_mod) as u16))
        } else {
            rest
        }
    }
}

proof fn lemma_modifier_number(len: nat, i: nat)
    requires
        i < len,
    ensures
        i / keycodes_per_modifier(len) < 16,
{
    let q = len / 8;
    let p = keycodes_per_modifier(len);
    vstd::arithmetic::div_mod::lemma_fundamental_div_mod(i as int, p as int);
    let r = i / p;
    assert(r < 16) by (nonlinear_arith)
        requires
            i == p * r + i % p,
            0 <= i % p,
            i < len,
            len < 8 * q + 8,
            p >= q,
            p >= 1,
            q == 0 ==> p == 1,
            q >= 1 ==> p == q,
    ;
}

/// Find the modifier mask bits for the given modifier keysyms by scanning the
/// keyboard and modifier maps (e.g. which ModN is Alt / Super).
pub fn modifier_mask_for(kb: &Keyboard, syms: &Vec<u32>, map: &Vec<u8>) -> (mask: u16)
    requires
        kb.valid(),
    ensures
        mask == modifiers_of(*kb, syms@, map@, keycodes_per_modifier(map@.len())),
{
    let per_mod: usize = if map.len() / 8 == 0 {
        1
    } else {
        map.len() / 8
    };
    let mut mask: u16 = 0;
    let mut i: usize = 0;
    assert(map@.take(0).len() == 0);
    while i < map.len()
        invariant
            kb.valid(),
            i <= map@.len(),
            per_mod == keycodes_per_modifier(map@.len()),
            mask == modifiers_of(*kb, syms@, map@.take(i as int), per_mod as nat),
        decreases map@.len() - i,
    {
        proof {
            lemma_modifier_number(map@.len(), i as nat);
            let next = map@.take(i + 1);
            assert(next.drop_last() =~= map@.take(i as int));
            assert(next.last() == map@[i as int]);
        }
        let kc = map[i];
        if kc != 0 && kb.row_carries(syms, kc) {
            let m: u16 = (i / per_mod) as u16;
            mask = mask | (1u16 << m);
        }
        i += 1;
    }
    assert(map@.take(i as int) =~= map@);
    mask
}

// ---------------------------------------------------------------------------
// Grabs
// ---------------------------------------------------------------------------

/// `x11rb`'s `ModMask::SHIFT`: the bit that stands for Shift.
#[verifier::external_body]
fn shift_mask() -> (r: u16)
    ensures
        r == 0x01,
{
    u16::from(x11rb::protocol::xproto::ModMask::SHIFT)
}

/// `x11rb`'s `ModMask::CONTROL`: the bit that stands for Control.
#[verifier::external_body]
fn control_mask() -> (r: u16)
    ensures
        r == 0x04,
{
    u16::from(x11rb::protocol::xproto::ModMask::CONTROL)
}

/// What one modifier adds to a mask.
pub open spec fn if_set(mods: u8, flag: u8, mask: u16) -> u16 {
    if mods & flag != 0 {
        mask
    } else {
        0
    }
}

/// The mask of a hotkey's modifiers, where Alt and Super have the masks given.
pub open spec fn grab_mask(mods: u8, alt: u16, super_mask: u16) -> u16 {
    if_set(mods, MOD_SHIFT, 0x01) | if_set(mods, MOD_CTRL, 0x04) | if_set(mods, MOD_ALT, alt)
        | if_set(mods, MOD_WIN, super_mask)
}

/// The mask of a hotkey's modifiers, where Alt and Super have the masks given.
pub fn hotkey_mask(key: Hotkey, alt: u16, super_mask: u16) -> (mask: u16)
    ensures
        mask == grab_mask(key.mods, alt, super_mask),
{
    let shift: u16 = if key.mods & MOD_SHIFT != 0 {
        shift_mask()
    } else {
        0
    };
    let ctrl: u16 = if key.mods & MOD_CTRL != 0 {
        control_mask()
    } else {
        0
    };
    let alt: u16 = if key.mods & MOD_ALT != 0 {
        alt
    } else {
        0
    };
    let win: u16 = if key.mods & MOD_WIN != 0 {
        super_mask
    } else {
        0
    };
    shift | ctrl | alt | win
}

/// The masks to grab: with and without CapsLock and NumLock, so the hotkey
/// fires regardless of lock-key state.
pub fn grab_masks(mask: u16) -> (r: Vec<u16>)
    ensures
        r@ == seq![mask | 0, mask | 0x02, mask | 0x10, mask | 0x12],
{
    let mut r: Vec<u16> = Vec::new();
    r.push(mask | 0);
    r.push(mask | 0x02);
    r.push(mask | 0x10);
    r.push(mask | 0x12);
    r
}

/// A key on the keyboard bound to an action.
#[derive(Debug, Clone, Copy, PartialEq, Eq, Structural)]
pub struct Binding {
    pub keycode: u8,
    pub mask: u16,
    pub action: Action,
}

/// Whether a key press, with the lock keys taken out of its state, is that of
/// a binding.
pub open spec fn is_pressed(b: Binding, keycode: u8, state: u16) -> bool {
    keycode == b.keycode && state & !STRIP_MASK == b.mask
}

/// The action of the first binding that a key press fits.
pub open spec fn pressed_action(binds: Seq<Binding>, keycode: u8, state: u16) -> Option<Action>
    decreases binds.len(),
{
    if binds.len() == 0 {
        None
    } else if is_pressed(binds[0], keycode, state) {
        Some(binds[0].action)
    } else {
        pressed_action(binds.drop_first(), keycode, state)
    }
}

/// The action that a key press asks for.
pub fn action_for(binds: &Vec<Binding>, keycode: u8, state: u16) -> (r: Option<Action>)
    ensures
        r == pressed_action(binds@, keycode, state),
{
    let bare: u16 = state & !STRIP_MASK;
    let mut i: usize = 0;
    assert(binds@.skip(0) =~= binds@);
    while i < binds.len()
        invariant
            i <= binds@.len(),
            bare == state & !STRIP_MASK,
            pressed_action(binds@, keycode, state) == pressed_action(
                binds@.skip(i as int),
                keycode,
                state,
            ),
        decreases binds@.len() - i,
    {
        let b = binds[i];
        assert(binds@.skip(i as int)[0] == b);
        if keycode == b.keycode && bare == b.mask {
            return Some(b.action);
        }
        assert(binds@.skip(i as int).drop_first() =~= binds@.skip(i + 1));
        i += 1;
    }
    None
}

/// The action of a hotkey registered under a number.
pub open spec fn numbered_action(id: u32) -> Option<Action> {
    if id == 1 {
        Some(Action::Clip)
    } else if id == 2 {
        Some(Action::RecordStart)
    } else if id == 3 {
        Some(Action::RecordStop)
    } else {
        None
    }
}

/// The action of a hotkey registered under a number.
pub fn action_for_id(id: u32) -> (r: Option<Action>)
    ensures
        r == numbered_action(id),
{
    match id {
        1 => Some(Action::Clip),
        2 => Some(Action::RecordStart),
        3 => Some(Action::RecordStop),
        _ => None,
    }
}

// ---------------------------------------------------------------------------
// Laws
// ---------------------------------------------------------------------------

/// CapsLock and NumLock do not change which action a key press asks for.
pub proof fn lock_keys_do_not_count(binds: Seq<Binding>, keycode: u8, state: u16, locks: u16)
    requires
        locks & !STRIP_MASK == 0,
    ensures
        pressed_action(binds, keycode, state | locks) == pressed_action(binds, keycode, state),
    decreases binds.len(),
{
    assert((state | locks) & !0x12u16 == state & !0x12u16) by (bit_vector)
        requires
            locks & !0x12u16 == 0,
    ;
    if binds.len() > 0 {
        lock_keys_do_not_count(binds.drop_first(), keycode, state, locks);
    }
}

/// A hotkey fires in every state of the lock keys that is grabbed for it, if
/// its mask holds no lock key.
pub proof fn grabbed_states_fire(b: Binding, extra: u16)
    requires
        b.mask & STRIP_MASK == 0,
        extra == 0 || extra == 0x02 || extra == 0x10 || extra == 0x12,
    ensures
        is_pressed(b, b.keycode, b.mask | extra),
{
    let mask = b.mask;
    assert((mask | extra) & !0x12u16 == mask) by (bit_vector)
        requires
            mask & 0x12u16 == 0,
            extra == 0 || extra == 0x02 || extra == 0x10 || extra == 0x12,
    ;
}

/// Two hotkeys with different keys never stand for one keysym.
pub proof fn keysyms_differ(a: HotkeyKey, b: HotkeyKey)
    requires
        a.valid(),
        b.valid(),
        a != b,
    ensures
        key_sym(a) != key_sym(b),
{
}

/// A letter or a digit has the keysym of its own character, F1 to F12 have
/// consecutive keysyms, and there is one for every key that exists.
pub proof fn keysyms_are_those_of_the_characters(key: HotkeyKey)
    requires
        key.valid(),
    ensures
        key_sym(key) is Some,
        key is Letter || key is Digit ==> key.config_text().len() == 1 && key_sym(key) == Some(
            key.config_text()[0] as int,
        ),
        key matches HotkeyKey::F(n) ==> key_sym(key) == Some(0xffbd + n as int),
        key is PrintScreen ==> key_sym(key) == Some(0xff61int),
        key is Space ==> key_sym(key) == Some(0x20int),
{
}

/// The keycode found for a keysym is that of the first row that holds it: the row
/// of each keycode has `per` keysyms, from keycode `first` on.
pub proof fn keycodes_count_rows(kb: Keyboard, sym: u32, keycode: u8)
    requires
        kb.valid(),
        kb.is_first_with(sym, keycode),
    ensures
        keycode >= kb.first,
        exists|column: int|
            {
                &&& 0 <= column < kb.per
                &&& (keycode - kb.first) * kb.per + column < kb.keysyms@.len()
                &&& #[trigger] kb.keysyms@[(keycode - kb.first) * kb.per + column] == sym
            },
        forall|i: int|
            0 <= i < (keycode - kb.first) * kb.per ==> #[trigger] kb.keysyms@[i] != sym,
{
    let i = choose|i: int|
        {
            &&& 0 <= i < kb.keysyms@.len()
            &&& #[trigger] kb.keysyms@[i] == sym
            &&& kb.keycode_at(i) == keycode
            &&& forall|j: int| 0 <= j < i ==> #[trigger] kb.keysyms@[j] != sym
        };
    let p = kb.per as int;
    vstd::arithmetic::div_mod::lemma_fundamental_div_mod(i, p);
    vstd::arithmetic::div_mod::lemma_div_pos_is_pos(i, p);
    let q = i / p;
    let column = i % p;
    assert(p * q == q * p) by (nonlinear_arith);
    assert(q == keycode - kb.first);
    assert(kb.keysyms@[(keycode - kb.first) * kb.per + column] == sym);
}

/// A modifier's bit is set just where one of its keycodes carries one of the
/// keysyms asked for. The modifier map lists the keycodes of one modifier after
/// those of another.
pub proof fn modifier_bits_go_with_the_map(
    kb: Keyboard,
    syms: Seq<u32>,
    map: Seq<u8>,
    per_mod: nat,
    bit: u16,
)
    requires
        per_mod > 0,
        map.len() <= 16 * per_mod,
        bit < 16,
    ensures
        modifiers_of(kb, syms, map, per_mod) & (1u16 << bit) != 0 <==> exists|i: int|
            {
                &&& 0 <= i < map.len()
                &&& bit * per_mod <= i < (bit + 1) * per_mod
                &&& #[trigger] map[i] != 0
                &&& kb.carries(syms, map[i])
            },
    decreases map.len(),
{
    let fits = |s: Seq<u8>, i: int|
        {
            &&& 0 <= i < s.len()
            &&& bit * per_mod <= i < (bit + 1) * per_mod
            &&& s[i] != 0
            &&& kb.carries(syms, s[i])
        };
    if map.len() == 0 {
        assert(0u16 & (1u16 << bit) == 0) by (bit_vector);
    } else {
        let rest = map.drop_last();
        let last = map.len() - 1;
        let m = (last as nat / per_mod) as u16;
        modifier_bits_go_with_the_map(kb, syms, rest, per_mod, bit);
        vstd::arithmetic::div_mod::lemma_fundamental_div_mod(last, per_mod as int);
        let q = last / (per_mod as int);
        let r = last % (per_mod as int);
        assert(0 <= q < 16) by (nonlinear_arith)
            requires
                last == per_mod * q + r,
                0 <= r < per_mod,
                0 <= last < 16 * per_mod,
                per_mod > 0,
        ;
        assert(m == q);
        assert(q == bit <==> bit * per_mod <= last < (bit + 1) * per_mod) by (nonlinear_arith)
            requires
                last == per_mod * q + r,
                0 <= r < per_mod,
                per_mod > 0,
        ;
        let old_mask = modifiers_of(kb, syms, rest, per_mod);
        assert((old_mask | (1u16 << m)) & (1u16 << bit) != 0 <==> old_mask & (1u16 << bit) != 0 || m
            == bit) by (bit_vector)
            requires
                m < 16,
                bit < 16,
        ;
        assert forall|i: int| 0 <= i < rest.len() implies rest[i] == #[trigger] map[i] by {}
        if exists|i: int| #[trigger] fits(rest, i) {
            let i = choose|i: int| #[trigger] fits(rest, i);
            assert(map[i] == rest[i]);
            assert(fits(map, i));
        }
        if exists|i: int| #[trigger] fits(map, i) {
            let i = choose|i: int| #[trigger] fits(map, i);
            if i < last {
                assert(fits(rest, i));
            }
        }
        if m == bit && map.last() != 0 && kb.carries(syms, map.last()) {
            assert(fits(map, last));
        }
        assert((exists|i: int|
            {
                &&& 0 <= i < map.len()
                &&& bit * per_mod <= i < (bit + 1) * per_mod
                &&& #[trigger] map[i] != 0
                &&& kb.carries(syms, map[i])
            }) <==> exists|i: int| #[trigger] fits(map, i)) by {
            if exists|i: int| #[trigger] fits(map, i) {
                let i = choose|i: int| #[trigger] fits(map, i);
                assert(map[i] != 0);
            }
            if exists|i: int|
                {
                    &&& 0 <= i < map.len()
                    &&& bit * per_mod <= i < (bit + 1) * per_mod
                    &&& #[trigger] map[i] != 0
                    &&& kb.carries(syms, map[i])
                } {
                let i = choose|i: int|
                    {
                        &&& 0 <= i < map.len()
                        &&& bit * per_mod <= i < (bit + 1) * per_mod
                        &&& #[trigger] map[i] != 0
                        &&& kb.carries(syms, map[i])
                    };
                assert(fits(map, i));
            }
        }
        assert((exists|i: int|
            {
                &&& 0 <= i < rest.len()
                &&& bit * per_mod <= i < (bit + 1) * per_mod
                &&& #[trigger] rest[i] != 0
                &&& kb.carries(syms, rest[i])
            }) <==> exists|i: int| #[trigger] fits(rest, i)) by {
            if exists|i: int| #[trigger] fits(rest, i) {
                let i = choose|i: int| #[trigger] fits(rest, i);
                assert(rest[i] != 0);
            }
            if exists|i: int|
                {
                    &&& 0 <= i < rest.len()
                    &&& bit * per_mod <= i < (bit + 1) * per_mod
                    &&& #[trigger] rest[i] != 0
                    &&& kb.carries(syms, rest[i])
                } {
                let i = choose|i: int|
                    {
                        &&& 0 <= i < rest.len()
                        &&& bit * per_mod <= i < (bit + 1) * per_mod
                        &&& #[trigger] rest[i] != 0
                        &&& kb.carries(syms, rest[i])
                    };
                assert(fits(rest, i));
            }
        }
    }
}

/// A bit of a hotkey's mask is set just where one of its modifiers brings it:
/// Shift the first bit, Ctrl the third, Alt and Win those of the masks given.
pub proof fn masks_hold_the_modifiers(mods: u8, alt: u16, super_mask: u16, bit: u16)
    requires
        bit < 16,
    ensures
        grab_mask(mods, alt, super_mask) & (1u16 << bit) != 0 <==> {
            ||| mods & 4 != 0 && bit == 0
            ||| mods & 2 != 0 && bit == 2
            ||| mods & 1 != 0 && alt & (1u16 << bit) != 0
            ||| mods & 8 != 0 && super_mask & (1u16 << bit) != 0
        },
{
    let s = if_set(mods, MOD_SHIFT, 0x01);
    let c = if_set(mods, MOD_CTRL, 0x04);
    let a = if_set(mods, MOD_ALT, alt);
    let w = if_set(mods, MOD_WIN, super_mask);
    assert((s | c | a | w) & (1u16 << bit) != 0 <==> s & (1u16 << bit) != 0 || c & (1u16 << bit)
        != 0 || a & (1u16 << bit) != 0 || w & (1u16 << bit) != 0) by (bit_vector);
    assert(0u16 & (1u16 << bit) == 0) by (bit_vector);
    assert(1u16 & (1u16 << bit) != 0 <==> bit == 0) by (bit_vector)
        requires
            bit < 16,
    ;
    assert(4u16 & (1u16 << bit) != 0 <==> bit == 2) by (bit_vector)
        requires
            bit < 16,
    ;
}

/// A key press asks for the action of the first binding that has its keycode and,
/// but for the lock keys, its modifiers; for none where there is no such binding.
pub proof fn first_fitting_binding_acts(binds: Seq<Binding>, keycode: u8, state: u16)
    ensures
        match pressed_action(binds, keycode, state) {
            Some(action) => exists|i: int|
                {
                    &&& 0 <= i < binds.len()
                    &&& (#[trigger] binds[i]).action == action
                    &&& binds[i].keycode == keycode && binds[i].mask == state & 0xffed
                    &&& forall|j: int|
                        0 <= j < i ==> !((#[trigger] binds[j]).keycode == keycode && binds[j].mask
                            == state & 0xffed)
                },
            None => forall|j: int|
                0 <= j < binds.len() ==> !((#[trigger] binds[j]).keycode == keycode && binds[j].mask
                    == state & 0xffed),
        },
    decreases binds.len(),
{
    assert(state & !0x12u16 == state & 0xffedu16) by (bit_vector);
    if binds.len() > 0 {
        if is_pressed(binds[0], keycode, state) {
            assert(binds[0].action == pressed_action(binds, keycode, state)->0);
        } else {
            let rest = binds.drop_first();
            first_fitting_binding_acts(rest, keycode, state);
            assert forall|j: int| 0 < j < binds.len() implies #[trigger] binds[j] == rest[j - 1] by {}
            if pressed_action(rest, keycode, state) is Some {
                let i = choose|i: int|
                    {
                        &&& 0 <= i < rest.len()
                        &&& (#[trigger] rest[i]).action == pressed_action(rest, keycode, state)->0
                        &&& rest[i].keycode == keycode && rest[i].mask == state & 0xffed
                        &&& forall|j: int|
                            0 <= j < i ==> !((#[trigger] rest[j]).keycode == keycode
                                && rest[j].mask == state & 0xffed)
                    };
                let at = i + 1;
                assert(binds[at] == rest[i]);
                assert forall|j: int| 0 <= j < at implies !((#[trigger] binds[j]).keycode == keycode
                    && binds[j].mask == state & 0xffed) by {
                    if j > 0 {
                        assert(binds[j] == rest[j - 1]);
                    }
                }
            }
        }
    }
}

/// The three actions are registered under the numbers one, two and three, in the
/// order clip, start, stop.
pub proof fn actions_have_their_numbers(id: u32)
    ensures
        numbered_action(id) == Some(Action::Clip) <==> id == 1,
        numbered_action(id) == Some(Action::RecordStart) <==> id == 2,
        numbered_action(id) == Some(Action::RecordStop) <==> id == 3,
        numbered_action(id) is None <==> id == 0 || id > 3,
{
}

/// The eight modifiers share the modifier map evenly.
pub proof fn modifiers_share_the_map(per_mod: nat)
    requires
        per_mod > 0,
    ensures
        keycodes_per_modifier(8 * per_mod) == per_mod,
{
}

/// A function key beyond F1 to F12 has no keysym.
pub proof fn other_function_keys_have_no_keysym(n: u8)
    ensures
        key_sym(HotkeyKey::F(n)) is Some <==> 1 <= n <= 12,
{
}

/// A keycode carries a keysym just where one stands in its row.
pub proof fn rows_carry_their_keysyms(kb: Keyboard, syms: Seq<u32>, keycode: u8)
    requires
        kb.per > 0,
        keycode >= kb.first,
    ensures
        kb.carries(syms, keycode) <==> exists|i: int|
            {
                &&& (keycode - kb.first) * kb.per <= i < (keycode - kb.first + 1) * kb.per
                &&& i < kb.keysyms@.len()
                &&& syms.contains(#[trigger] kb.keysyms@[i])
            },
{
    let p = kb.per as int;
    let row = keycode - kb.first;
    assert(0 <= row * p) by (nonlinear_arith)
        requires
            0 <= row,
            0 < p,
    ;
    assert forall|i: int| 0 <= i implies (#[trigger] kb.keycode_at(i) == keycode <==> row * p <= i
        < (row + 1) * p) by {
        vstd::arithmetic::div_mod::lemma_fundamental_div_mod(i, p);
        let q = i / p;
        let r = i % p;
        assert(q == row <==> row * p <= i < (row + 1) * p) by (nonlinear_arith)
            requires
                i == p * q + r,
                0 <= r < p,
        ;
    }
    if kb.carries(syms, keycode) {
        let i = choose|i: int|
            0 <= i < kb.keysyms@.len() && syms.contains(#[trigger] kb.keysyms@[i]) && kb.keycode_at(
                i,
            ) == keycode;
        assert(syms.contains(kb.keysyms@[i]));
    }
    assert forall|i: int|
        row * p <= i < (row + 1) * p && i < kb.keysyms@.len() && syms.contains(
            #[trigger] kb.keysyms@[i],
        ) implies kb.carries(syms, keycode) by {
        assert(kb.keycode_at(i) == keycode);
    }
}

} // verus!
