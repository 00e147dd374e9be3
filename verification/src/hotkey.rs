//! Global hotkeys: a base key with modifiers, and its text forms.

use vstd::prelude::*;

use crate::text;

verus! {

/// Modifier flag bits (those of Windows' `RegisterHotKey`).
pub const MOD_ALT: u8 = 0x01;

pub const MOD_CTRL: u8 = 0x02;

pub const MOD_SHIFT: u8 = 0x04;

pub const MOD_WIN: u8 = 0x08;

/// A global hotkey: zero or more modifier flags plus one base key.
#[derive(Debug, Clone, Copy, PartialEq, Eq, Structural)]
pub struct Hotkey {
    pub mods: u8,
    pub key: HotkeyKey,
}

/// Base key (without modifiers) for a global hotkey.
#[derive(Debug, Clone, Copy, PartialEq, Eq, Structural)]
pub enum HotkeyKey {
    /// `n` in 1..=12 is F1..=F12.
    F(u8),
    PrintScreen,
    /// Lowercase ascii letter.
    Letter(u8),
    /// Digit 0..=9.
    Digit(u8),
    Space,
}

// ---------------------------------------------------------------------------
// Meaning of the text forms
// ---------------------------------------------------------------------------

impl HotkeyKey {
    /// The key exists: F1..=F12, a lowercase letter, a digit, or a named key.
    pub open spec fn valid(self) -> bool {
        match self {
            HotkeyKey::F(n) => 1 <= n <= 12,
            HotkeyKey::Letter(c) => 97 <= c <= 122,
            HotkeyKey::Digit(d) => d <= 9,
            HotkeyKey::PrintScreen | HotkeyKey::Space => true,
        }
    }

    /// The key's config form.
    pub open spec fn config_text(self) -> Seq<char> {
        match self {
            HotkeyKey::F(n) => if 1 <= n <= 12 {
                seq!['f'] + text::decimal(n as nat)
            } else {
                "f12"@
            },
            HotkeyKey::PrintScreen => "print_screen"@,
            HotkeyKey::Letter(c) => if 97 <= c <= 122 {
                seq![c as char]
            } else {
                "key"@
            },
            HotkeyKey::Digit(d) => if d <= 9 {
                text::decimal(d as nat)
            } else {
                "0"@
            },
            HotkeyKey::Space => "space"@,
        }
    }

    /// The key's form for people.
    pub open spec fn display_text(self) -> Seq<char> {
        match self {
            HotkeyKey::F(n) => seq!['F'] + text::decimal(n as nat),
            HotkeyKey::PrintScreen => "Print Screen"@,
            HotkeyKey::Letter(c) => seq![if 97 <= c <= 122 { (c - 32) as char } else { c as char }],
            HotkeyKey::Digit(d) => text::decimal(d as nat),
            HotkeyKey::Space => "Space"@,
        }
    }

    /// The function key `f1`..`f12` that `s` names.
    pub open spec fn function_key(s: Seq<char>) -> Option<u8> {
        if s.len() > 0 && s[0] == 'f' {
            match text::number(s.skip(1)) {
                Some(n) => if 1 <= n <= 12 {
                    Some(n as u8)
                } else {
                    None
                },
                None => None,
            }
        } else {
            None
        }
    }

    /// The key that the (lowercase, separator-free) word `s` names.
    pub open spec fn named(s: Seq<char>) -> Option<HotkeyKey> {
        if Self::function_key(s) is Some {
            Some(HotkeyKey::F(Self::function_key(s)->0))
        } else if s == "print"@ || s == "printscreen"@ || s == "prtsc"@ || s == "prtscr"@ || s
            == "snapshot"@ {
            Some(HotkeyKey::PrintScreen)
        } else if s == "space"@ {
            Some(HotkeyKey::Space)
        } else if s.len() == 1 && 'a' <= s[0] <= 'z' {
            Some(HotkeyKey::Letter(s[0] as u8))
        } else if s.len() == 1 && '0' <= s[0] <= '9' {
            Some(HotkeyKey::Digit((s[0] as int - '0' as int) as u8))
        } else {
            None
        }
    }

    /// Windows' virtual-key code.
    pub open spec fn virtual_key(self) -> int {
        match self {
            HotkeyKey::F(n) => 0x70 + n - 1,
            HotkeyKey::PrintScreen => 0x2C,
            HotkeyKey::Letter(c) => c - 97 + 0x41,
            HotkeyKey::Digit(d) => 0x30 + d,
            HotkeyKey::Space => 0x20,
        }
    }
}

/// A word of a hotkey's text without the marks that do not count.
pub open spec fn clean(word: Seq<char>) -> Seq<char> {
    text::without(word, seq!['_', '-', ' ', '\\'])
}

pub open spec fn is_alt(w: Seq<char>) -> bool {
    w == "alt"@
}

pub open spec fn is_ctrl(w: Seq<char>) -> bool {
    w == "ctrl"@ || w == "control"@ || w == "ctl"@
}

pub open spec fn is_shift(w: Seq<char>) -> bool {
    w == "shift"@
}

pub open spec fn is_win(w: Seq<char>) -> bool {
    w == "win"@ || w == "windows"@ || w == "super"@ || w == "cmd"@ || w == "meta"@
}

/// The word names a modifier.
pub open spec fn is_modifier_word(w: Seq<char>) -> bool {
    is_alt(w) || is_ctrl(w) || is_shift(w) || is_win(w)
}

/// The words of a hotkey's text.
pub open spec fn words(s: Seq<char>) -> Seq<Seq<char>> {
    let pieces = text::split(text::lowercase(s), '+');
    pieces.map_values(|p: Seq<char>| clean(p))
}

/// The words that name no modifier, in order.
pub open spec fn key_words(ws: Seq<Seq<char>>) -> Seq<Seq<char>> {
    ws.filter(|w: Seq<char>| !is_modifier_word(w))
}

pub open spec fn has_alt(ws: Seq<Seq<char>>) -> bool {
    exists|i: int| 0 <= i < ws.len() && is_alt(#[trigger] ws[i])
}

pub open spec fn has_ctrl(ws: Seq<Seq<char>>) -> bool {
    exists|i: int| 0 <= i < ws.len() && is_ctrl(#[trigger] ws[i])
}

pub open spec fn has_shift(ws: Seq<Seq<char>>) -> bool {
    exists|i: int| 0 <= i < ws.len() && is_shift(#[trigger] ws[i])
}

pub open spec fn has_win(ws: Seq<Seq<char>>) -> bool {
    exists|i: int| 0 <= i < ws.len() && is_win(#[trigger] ws[i])
}

/// The flag set with these modifiers.
pub open spec fn flags(alt: bool, ctrl: bool, shift: bool, win: bool) -> u8 {
    ((if alt { 1int } else { 0 }) + (if ctrl { 2int } else { 0 }) + (if shift { 4int } else { 0 })
        + (if win { 8int } else { 0 })) as u8
}

/// Of the words that are no modifiers the last names a key, and it alone does.
pub open spec fn one_key_at_the_end(ks: Seq<Seq<char>>) -> bool {
    &&& ks.len() > 0
    &&& HotkeyKey::named(ks.last()) is Some
    &&& forall|i: int| 0 <= i < ks.len() - 1 ==> HotkeyKey::named(#[trigger] ks[i]) is None
}

impl Hotkey {
    /// The hotkey that `s` describes.
    pub open spec fn described(s: Seq<char>) -> Option<Hotkey> {
        let ws = words(s);
        let ks = key_words(ws);
        if one_key_at_the_end(ks) {
            Some(
                Hotkey {
                    mods: flags(has_alt(ws), has_ctrl(ws), has_shift(ws), has_win(ws)),
                    key: HotkeyKey::named(ks.last())->0,
                },
            )
        } else {
            None
        }
    }

    /// Only known modifier flags, and a key that exists.
    pub open spec fn valid(self) -> bool {
        self.mods < 16 && self.key.valid()
    }

    /// Config string form, e.g. `"f8"` or `"alt+f11"`.
    pub open spec fn config_text(self) -> Seq<char> {
        (if self.mods & MOD_ALT != 0 { "alt+"@ } else { Seq::empty() })
            + (if self.mods & MOD_CTRL != 0 { "ctrl+"@ } else { Seq::empty() })
            + (if self.mods & MOD_SHIFT != 0 { "shift+"@ } else { Seq::empty() })
            + (if self.mods & MOD_WIN != 0 { "win+"@ } else { Seq::empty() })
            + self.key.config_text()
    }

    /// Human display form, e.g. `"F8"` or `"Alt+F11"`.
    pub open spec fn display_text(self) -> Seq<char> {
        (if self.mods & MOD_ALT != 0 { "Alt+"@ } else { Seq::empty() })
            + (if self.mods & MOD_CTRL != 0 { "Ctrl+"@ } else { Seq::empty() })
            + (if self.mods & MOD_SHIFT != 0 { "Shift+"@ } else { Seq::empty() })
            + (if self.mods & MOD_WIN != 0 { "Win+"@ } else { Seq::empty() })
            + self.key.display_text()
    }
}

// ---------------------------------------------------------------------------
// Reading and writing
// ---------------------------------------------------------------------------

fn alt_word(w: &str) -> (r: bool)
    ensures
        r == is_alt(w@),
{
    text::same(w, "alt")
}

fn ctrl_word(w: &str) -> (r: bool)
    ensures
        r == is_ctrl(w@),
{
    text::same(w, "ctrl") || text::same(w, "control") || text::same(w, "ctl")
}

fn shift_word(w: &str) -> (r: bool)
    ensures
        r == is_shift(w@),
{
    text::same(w, "shift")
}

fn win_word(w: &str) -> (r: bool)
    ensures
        r == is_win(w@),
{
    text::same(w, "win") || text::same(w, "windows") || text::same(w, "super") || text::same(
        w,
        "cmd",
    ) || text::same(w, "meta")
}

proof fn lemma_has_push(ws: Seq<Seq<char>>, w: Seq<char>)
    ensures
        has_alt(ws.push(w)) == (has_alt(ws) || is_alt(w)),
        has_ctrl(ws.push(w)) == (has_ctrl(ws) || is_ctrl(w)),
        has_shift(ws.push(w)) == (has_shift(ws) || is_shift(w)),
        has_win(ws.push(w)) == (has_win(ws) || is_win(w)),
        key_words(ws.push(w)) == (if is_modifier_word(w) {
            key_words(ws)
        } else {
            key_words(ws).push(w)
        }),
{
    let n = ws.push(w);
    assert(n[ws.len() as int] == w);
    assert forall|i: int| 0 <= i < ws.len() implies n[i] == #[trigger] ws[i] by {}
    if has_alt(ws) {
        let i = choose|i: int| 0 <= i < ws.len() && is_alt(#[trigger] ws[i]);
        assert(is_alt(n[i]));
    }
    if has_ctrl(ws) {
        let i = choose|i: int| 0 <= i < ws.len() && is_ctrl(#[trigger] ws[i]);
        assert(is_ctrl(n[i]));
    }
    if has_shift(ws) {
        let i = choose|i: int| 0 <= i < ws.len() && is_shift(#[trigger] ws[i]);
        assert(is_shift(n[i]));
    }
    if has_win(ws) {
        let i = choose|i: int| 0 <= i < ws.len() && is_win(#[trigger] ws[i]);
        assert(is_win(n[i]));
    }
    if has_alt(n) {
        let i = choose|i: int| 0 <= i < n.len() && is_alt(#[trigger] n[i]);
        if i < ws.len() {
            assert(is_alt(ws[i]));
        }
    }
    if has_ctrl(n) {
        let i = choose|i: int| 0 <= i < n.len() && is_ctrl(#[trigger] n[i]);
        if i < ws.len() {
            assert(is_ctrl(ws[i]));
        }
    }
    if has_shift(n) {
        let i = choose|i: int| 0 <= i < n.len() && is_shift(#[trigger] n[i]);
        if i < ws.len() {
            assert(is_shift(ws[i]));
        }
    }
    if has_win(n) {
        let i = choose|i: int| 0 <= i < n.len() && is_win(#[trigger] n[i]);
        if i < ws.len() {
            assert(is_win(ws[i]));
        }
    }
    reveal(Seq::filter);
    assert(n.drop_last() =~= ws);
}

impl HotkeyKey {
    /// The key that a lowercase word names.
    pub fn from_str(s: &str) -> (r: Option<HotkeyKey>)
        ensures
            r == HotkeyKey::named(s@),
    {
        let v = text::to_chars(s);
        if v.len() > 0 && v[0] == 'f' {
            let rest = text::from_chars(&v, 1, v.len());
            assert(rest@ =~= s@.skip(1));
            if let Some(n) = text::parse_u64(rest.as_str()) {
                if 1 <= n && n <= 12 {
                    return Some(HotkeyKey::F(n as u8));
                }
            }
        }
        if text::same(s, "print") || text::same(s, "printscreen") || text::same(s, "prtsc")
            || text::same(s, "prtscr") || text::same(s, "snapshot") {
            return Some(HotkeyKey::PrintScreen);
        }
        if text::same(s, "space") {
            return Some(HotkeyKey::Space);
        }
        if v.len() == 1 {
            let c = v[0];
            if 'a' <= c && c <= 'z' {
                return Some(HotkeyKey::Letter(c as u8));
            }
            if '0' <= c && c <= '9' {
                return Some(HotkeyKey::Digit((c as u32 - 48) as u8));
            }
        }
        None
    }

    /// The key's config form.
    pub fn as_str(&self) -> (out: String)
        ensures
            out@ == self.config_text(),
    {
        match self {
            HotkeyKey::F(n) => if 1 <= *n && *n <= 12 {
                let mut out = String::new();
                out.push('f');
                out.append(text::decimal_text(*n as u64).as_str());
                assert(out@ =~= self.config_text());
                out
            } else {
                "f12".to_owned()
            },
            HotkeyKey::PrintScreen => "print_screen".to_owned(),
            HotkeyKey::Letter(c) => if 97 <= *c && *c <= 122 {
                let mut out = String::new();
                out.push(*c as char);
                assert(out@ =~= self.config_text());
                out
            } else {
                "key".to_owned()
            },
            HotkeyKey::Digit(d) => if *d <= 9 {
                text::decimal_text(*d as u64)
            } else {
                "0".to_owned()
            },
            HotkeyKey::Space => "space".to_owned(),
        }
    }

    /// The key's form for people.
    pub fn display(&self) -> (out: String)
        ensures
            out@ == self.display_text(),
    {
        match self {
            HotkeyKey::F(n) => {
                let mut out = String::new();
                out.push('F');
                out.append(text::decimal_text(*n as u64).as_str());
                assert(out@ =~= self.display_text());
                out
            },
            HotkeyKey::PrintScreen => "Print Screen".to_owned(),
            HotkeyKey::Letter(c) => {
                let mut out = String::new();
                let upper: u8 = if 97 <= *c && *c <= 122 { *c - 32 } else { *c };
                out.push(upper as char);
                assert(out@ =~= self.display_text());
                out
            },
            HotkeyKey::Digit(d) => text::decimal_text(*d as u64),
            HotkeyKey::Space => "Space".to_owned(),
        }
    }

    /// Virtual-key code used by RegisterHotKey (Windows).
    pub fn vk_code(&self) -> (r: u32)
        requires
            *self matches HotkeyKey::Letter(c) ==> c >= 97,
        ensures
            r == self.virtual_key(),
    {
        match self {
            HotkeyKey::F(n) => 0x70u32 + *n as u32 - 1,
            HotkeyKey::PrintScreen => 0x2C,
            HotkeyKey::Letter(c) => (*c - 97) as u32 + 0x41,
            HotkeyKey::Digit(d) => 0x30u32 + *d as u32,
            HotkeyKey::Space => 0x20,
        }
    }
}

impl Hotkey {
    pub fn new(mods: u8, key: HotkeyKey) -> (h: Hotkey)
        ensures
            h == (Hotkey { mods, key }),
    {
        Hotkey { mods, key }
    }

    /// The hotkey that `s` describes: words joined by `+`, in any case, of
    /// which exactly the last that is no modifier names a key.
    pub fn from_str(s: &str) -> (r: Option<Hotkey>)
        ensures
            r == Hotkey::described(s@),
    {
        let lower = text::to_lowercase(s);
        let pieces = text::split_text(lower.as_str(), '+');
        let ghost parts = text::split(text::lowercase(s@), '+');
        let ghost ws = words(s@);
        let mut alt = false;
        let mut ctrl = false;
        let mut shift = false;
        let mut win = false;
        let mut key: Option<HotkeyKey> = None;
        let mut i: usize = 0;
        proof {
            reveal(Seq::filter);
            reveal_strlit("_- \\");
            assert("_- \\"@ =~= seq!['_', '-', ' ', '\\']);
            assert(ws.take(0) =~= Seq::<Seq<char>>::empty());
        }
        while i < pieces.len()
            invariant
                i <= pieces@.len(),
                pieces.deep_view() == parts,
                ws == parts.map_values(|p: Seq<char>| clean(p)),
                "_- \\"@ == seq!['_', '-', ' ', '\\'],
                ws == words(s@),
                alt == has_alt(ws.take(i as int)),
                ctrl == has_ctrl(ws.take(i as int)),
                shift == has_shift(ws.take(i as int)),
                win == has_win(ws.take(i as int)),
                ({
                    let ks = key_words(ws.take(i as int));
                    &&& key is Some ==> one_key_at_the_end(ks) && key == HotkeyKey::named(ks.last())
                    &&& key is None ==> forall|j: int|
                        0 <= j < ks.len() ==> HotkeyKey::named(#[trigger] ks[j]) is None
                }),
            decreases pieces@.len() - i,
        {
            let word = text::remove_chars(pieces[i].as_str(), "_- \\");
            let w = word.as_str();
            let ghost before = ws.take(i as int);
            proof {
                assert(pieces.deep_view()[i as int] == pieces@[i as int]@);
                assert(w@ == ws[i as int]);
                assert(ws.take(i + 1) =~= before.push(w@));
                lemma_has_push(before, w@);
            }
            if alt_word(w) {
                alt = true;
                proof {
                    lemma_modifier_words_differ(w@);
                }
            } else if ctrl_word(w) {
                ctrl = true;
                proof {
                    lemma_modifier_words_differ(w@);
                }
            } else if shift_word(w) {
                shift = true;
                proof {
                    lemma_modifier_words_differ(w@);
                }
            } else if win_word(w) {
                win = true;
            } else if key.is_none() {
                key = HotkeyKey::from_str(w);
                proof {
                    let ks = key_words(before);
                    assert(ks.push(w@).last() == w@);
                    assert forall|j: int| 0 <= j < ks.push(w@).len() - 1 implies HotkeyKey::named(
                        #[trigger] ks.push(w@)[j],
                    ) is None by {
                        assert(ks.push(w@)[j] == ks[j]);
                    }
                }
            } else {
                proof {
                    lemma_key_words_prefix(ws, i + 1);
                    let ks = key_words(ws.take(i + 1));
                    let at = ks.len() - 2;
                    assert(ks[at] == key_words(before).last());
                    assert(key_words(ws)[at] == ks[at]);
                }
                return None;
            }
            i += 1;
        }
        proof {
            assert(ws.take(ws.len() as int) =~= ws);
        }
        match key {
            Some(key) => {
                let mut mods: u8 = 0;
                if alt {
                    mods = mods + MOD_ALT;
                }
                if ctrl {
                    mods = mods + MOD_CTRL;
                }
                if shift {
                    mods = mods + MOD_SHIFT;
                }
                if win {
                    mods = mods + MOD_WIN;
                }
                Some(Hotkey { mods, key })
            },
            None => {
                proof {
                    let ks = key_words(ws);
                    if ks.len() > 0 {
                        assert(HotkeyKey::named(ks[ks.len() - 1]) is None);
                    }
                }
                None
            },
        }
    }

    /// Config string form, e.g. `"f8"` or `"alt+f11"`.
    pub fn as_str(&self) -> (out: String)
        ensures
            out@ == self.config_text(),
    {
        let mut out = String::new();
        if self.mods & MOD_ALT != 0 {
            out.append("alt+");
        }
        if self.mods & MOD_CTRL != 0 {
            out.append("ctrl+");
        }
        if self.mods & MOD_SHIFT != 0 {
            out.append("shift+");
        }
        if self.mods & MOD_WIN != 0 {
            out.append("win+");
        }
        out.append(self.key.as_str().as_str());
        assert(out@ =~= self.config_text());
        out
    }

    /// Human display form, e.g. `"F8"` or `"Alt+F11"`.
    pub fn display(&self) -> (out: String)
        ensures
            out@ == self.display_text(),
    {
        let mut out = String::new();
        if self.mods & MOD_ALT != 0 {
            out.append("Alt+");
        }
        if self.mods & MOD_CTRL != 0 {
            out.append("Ctrl+");
        }
        if self.mods & MOD_SHIFT != 0 {
            out.append("Shift+");
        }
        if self.mods & MOD_WIN != 0 {
            out.append("Win+");
        }
        out.append(self.key.display().as_str());
        assert(out@ =~= self.display_text());
        out
    }

    /// Virtual-key code used by RegisterHotKey (Windows).
    pub fn vk_code(&self) -> (r: u32)
        requires
            self.key matches HotkeyKey::Letter(c) ==> c >= 97,
        ensures
            r == self.key.virtual_key(),
    {
        self.key.vk_code()
    }

    /// Windows `RegisterHotKey` modifier flags.
    pub fn mods_code(&self) -> (r: u32)
        ensures
            r == self.mods,
    {
        self.mods as u32
    }
}

/// No word names two modifiers.
proof fn lemma_modifier_words_differ(w: Seq<char>)
    ensures
        is_alt(w) ==> !is_ctrl(w) && !is_shift(w) && !is_win(w),
        is_ctrl(w) ==> !is_shift(w) && !is_win(w),
        is_shift(w) ==> !is_win(w),
{
    reveal_strlit("alt");
    reveal_strlit("ctrl");
    reveal_strlit("control");
    reveal_strlit("ctl");
    reveal_strlit("shift");
    reveal_strlit("win");
    reveal_strlit("windows");
    reveal_strlit("super");
    reveal_strlit("cmd");
    reveal_strlit("meta");
    if is_alt(w) {
        assert(w[0] == 'a');
    }
    if is_ctrl(w) {
        assert(w[0] == 'c' && w[1] != 'm');
    }
    if is_shift(w) {
        assert(w[0] == 's' && w[1] == 'h');
    }
    if is_win(w) {
        assert(w[0] == 'w' || w[0] == 's' && w[1] == 'u' || w[0] == 'c' && w[1] == 'm' || w[0] == 'm');
    }
}

/// The key words of a prefix are a prefix of the key words.
proof fn lemma_key_words_prefix(ws: Seq<Seq<char>>, n: int)
    requires
        0 <= n <= ws.len(),
    ensures
        key_words(ws.take(n)).len() <= key_words(ws).len(),
        forall|j: int| 0 <= j < key_words(ws.take(n)).len() ==> #[trigger] key_words(ws)[j]
            == key_words(ws.take(n))[j],
    decreases ws.len(),
{
    if n < ws.len() {
        lemma_key_words_prefix(ws.drop_last(), n);
        assert(ws.drop_last().take(n) =~= ws.take(n));
        assert(ws =~= ws.drop_last().push(ws.last()));
        lemma_has_push(ws.drop_last(), ws.last());
    } else {
        assert(ws.take(n) =~= ws);
    }
}

// ---------------------------------------------------------------------------
// Laws
// ---------------------------------------------------------------------------

/// A plain word: ASCII, nothing uppercase, no `+`.
spec fn plain(s: Seq<char>) -> bool {
    &&& forall|i: int| 0 <= i < s.len() ==> (#[trigger] s[i] as int) < 128 && !('A' <= s[i] <= 'Z')
    &&& !s.contains('+')
}

proof fn lemma_clean_fixed(s: Seq<char>)
    requires
        forall|i: int|
            0 <= i < s.len() ==> #[trigger] s[i] != '_' && s[i] != '-' && s[i] != ' ' && s[i] != '\\',
    ensures
        clean(s) == s,
{
    let drop = seq!['_', '-', ' ', '\\'];
    assert forall|i: int| 0 <= i < s.len() implies !drop.contains(#[trigger] s[i]) by {
        assert(s[i] != drop[0] && s[i] != drop[1] && s[i] != drop[2] && s[i] != drop[3]);
    }
    text::lemma_without_fixed(s, drop);
}

proof fn lemma_clean_two_words(a: Seq<char>, mark: char, b: Seq<char>)
    requires
        mark == '_' || mark == ' ',
        clean(a) == a,
        clean(b) == b,
    ensures
        clean(a.push(mark) + b) == a + b,
{
    let drop = seq!['_', '-', ' ', '\\'];
    let keep = |c: char| !drop.contains(c);
    let m = seq![mark];
    assert(a.push(mark) + b =~= (a + m) + b);
    Seq::filter_distributes_over_add(a + m, b, keep);
    Seq::filter_distributes_over_add(a, m, keep);
    assert(m.filter(keep) =~= Seq::<char>::empty()) by {
        reveal(Seq::filter);
        assert(drop[0] == '_' && drop[2] == ' ');
        assert(m.drop_last() =~= Seq::<char>::empty());
        assert(m.last() == mark);
    }
    assert(a + Seq::<char>::empty() + b =~= a + b);
}

proof fn lemma_clean_print_screen()
    ensures
        clean("print_screen"@) == "printscreen"@,
        clean("print screen"@) == "printscreen"@,
{
    reveal_strlit("print_screen");
    reveal_strlit("print screen");
    reveal_strlit("printscreen");
    let a = "printscreen"@.take(5);
    let b = "printscreen"@.skip(5);
    lemma_clean_fixed(a);
    lemma_clean_fixed(b);
    lemma_clean_two_words(a, '_', b);
    lemma_clean_two_words(a, ' ', b);
    assert("print_screen"@ =~= a.push('_') + b);
    assert("print screen"@ =~= a.push(' ') + b);
    assert(a + b =~= "printscreen"@);
}

proof fn lemma_key_text(k: HotkeyKey)
    requires
        k.valid(),
    ensures
        plain(k.config_text()),
        HotkeyKey::named(clean(k.config_text())) == Some(k),
        !is_modifier_word(clean(k.config_text())),
{
    let t = k.config_text();
    reveal_strlit("print_screen");
    reveal_strlit("print");
    reveal_strlit("printscreen");
    reveal_strlit("prtsc");
    reveal_strlit("prtscr");
    reveal_strlit("snapshot");
    reveal_strlit("space");
    reveal_strlit("alt");
    reveal_strlit("ctrl");
    reveal_strlit("control");
    reveal_strlit("ctl");
    reveal_strlit("shift");
    reveal_strlit("win");
    reveal_strlit("windows");
    reveal_strlit("super");
    reveal_strlit("cmd");
    reveal_strlit("meta");
    match k {
        HotkeyKey::F(n) => {
            text::decimal_round_trip(n as nat, 0);
            let d = text::decimal(n as nat);
            assert forall|i: int| 0 <= i < t.len() implies (t[i] == 'f' || text::is_digit(
                #[trigger] t[i],
            )) by {
                if i > 0 {
                    assert(t[i] == d[i - 1]);
                }
            }
            lemma_clean_fixed(t);
            assert(t.skip(1) =~= d);
            assert(t[0] == 'f');
        },
        HotkeyKey::PrintScreen => {
            lemma_clean_print_screen();
            assert("printscreen"@[0] == 'p');
        },
        HotkeyKey::Letter(c) => {
            lemma_clean_fixed(t);
            assert(t.skip(1).len() == 0);
        },
        HotkeyKey::Digit(d) => {
            assert(t =~= seq![text::digit_char(d as int)]);
            lemma_clean_fixed(t);
        },
        HotkeyKey::Space => {
            lemma_clean_fixed(t);
            assert(t[0] == 's' && t[1] == 'p');
            assert("super"@[1] == 'u');
        },
    }
}

/// One more modifier in front: one more word in front.
proof fn lemma_modifier_in_front(m: Seq<char>, rest: Seq<char>)
    requires
        plain(m),
        plain_but_plus(rest),
    ensures
        plain_but_plus(m.push('+') + rest),
        text::split(m.push('+') + rest, '+') == seq![m] + text::split(rest, '+'),
{
    text::lemma_split_join(m, rest, '+');
    text::lemma_split_whole(m, '+');
    let s = m.push('+') + rest;
    assert forall|i: int| 0 <= i < s.len() implies (#[trigger] s[i] as int) < 128 && !('A' <= s[i]
        <= 'Z') by {
        if i < m.len() {
            assert(s[i] == m[i]);
        } else if i > m.len() {
            assert(s[i] == rest[i - m.len() - 1]);
        }
    }
}

/// ASCII and nothing uppercase.
spec fn plain_but_plus(s: Seq<char>) -> bool {
    forall|i: int| 0 <= i < s.len() ==> (#[trigger] s[i] as int) < 128 && !('A' <= s[i] <= 'Z')
}

proof fn lemma_flags(mods: u8)
    requires
        mods < 16,
    ensures
        flags(mods & 1 != 0, mods & 2 != 0, mods & 4 != 0, mods & 8 != 0) == mods,
{
    assert((if mods & 1 != 0 { 1u8 } else { 0 }) + (if mods & 2 != 0 { 2u8 } else { 0 }) + (
    if mods & 4 != 0 { 4u8 } else { 0 }) + (if mods & 8 != 0 { 8u8 } else { 0 }) == mods)
        by (bit_vector)
        requires
            mods < 16,
    ;
}

/// The words of a hotkey with these modifiers and the key word `kw`.
spec fn word_list(alt: bool, ctrl: bool, shift: bool, win: bool, kw: Seq<char>) -> Seq<Seq<char>> {
    let w1 = if alt { Seq::<Seq<char>>::empty().push("alt"@) } else { Seq::empty() };
    let w2 = if ctrl { w1.push("ctrl"@) } else { w1 };
    let w3 = if shift { w2.push("shift"@) } else { w2 };
    let w4 = if win { w3.push("win"@) } else { w3 };
    w4.push(kw)
}

proof fn lemma_word_list(alt: bool, ctrl: bool, shift: bool, win: bool, kw: Seq<char>)
    requires
        !is_modifier_word(kw),
    ensures
        ({
            let ws = word_list(alt, ctrl, shift, win, kw);
            &&& has_alt(ws) == alt
            &&& has_ctrl(ws) == ctrl
            &&& has_shift(ws) == shift
            &&& has_win(ws) == win
            &&& key_words(ws) == seq![kw]
        }),
{
    let e = Seq::<Seq<char>>::empty();
    let w1 = if alt { e.push("alt"@) } else { e };
    let w2 = if ctrl { w1.push("ctrl"@) } else { w1 };
    let w3 = if shift { w2.push("shift"@) } else { w2 };
    let w4 = if win { w3.push("win"@) } else { w3 };
    assert(key_words(e) =~= e) by {
        reveal(Seq::filter);
    }
    lemma_has_push(e, "alt"@);
    lemma_has_push(w1, "ctrl"@);
    lemma_has_push(w2, "shift"@);
    lemma_has_push(w3, "win"@);
    lemma_has_push(w4, kw);
    lemma_modifier_words_differ("alt"@);
    lemma_modifier_words_differ("ctrl"@);
    lemma_modifier_words_differ("shift"@);
    lemma_modifier_words_differ("win"@);
    assert(seq![kw] =~= e.push(kw));
}

proof fn lemma_modifier_texts()
    ensures
        "alt+"@ == "alt"@.push('+') && plain("alt"@) && clean("alt"@) == "alt"@,
        "ctrl+"@ == "ctrl"@.push('+') && plain("ctrl"@) && clean("ctrl"@) == "ctrl"@,
        "shift+"@ == "shift"@.push('+') && plain("shift"@) && clean("shift"@) == "shift"@,
        "win+"@ == "win"@.push('+') && plain("win"@) && clean("win"@) == "win"@,
{
    reveal_strlit("alt+");
    reveal_strlit("ctrl+");
    reveal_strlit("shift+");
    reveal_strlit("win+");
    reveal_strlit("alt");
    reveal_strlit("ctrl");
    reveal_strlit("shift");
    reveal_strlit("win");
    assert("alt+"@ =~= "alt"@.push('+'));
    assert("ctrl+"@ =~= "ctrl"@.push('+'));
    assert("shift+"@ =~= "shift"@.push('+'));
    assert("win+"@ =~= "win"@.push('+'));
    lemma_clean_fixed("alt"@);
    lemma_clean_fixed("ctrl"@);
    lemma_clean_fixed("shift"@);
    lemma_clean_fixed("win"@);
}

/// `rest` with the modifier `m` in front, where it is set.
spec fn with_mod(set: bool, m: Seq<char>, rest: Seq<char>) -> Seq<char> {
    if set {
        m.push('+') + rest
    } else {
        rest
    }
}

spec fn with_word(set: bool, m: Seq<char>, rest: Seq<Seq<char>>) -> Seq<Seq<char>> {
    if set {
        seq![m] + rest
    } else {
        rest
    }
}

proof fn lemma_with_mod(set: bool, m: Seq<char>, rest: Seq<char>, pieces: Seq<Seq<char>>)
    requires
        plain(m),
        plain_but_plus(rest),
        text::split(rest, '+') == pieces,
    ensures
        plain_but_plus(with_mod(set, m, rest)),
        text::split(with_mod(set, m, rest), '+') == with_word(set, m, pieces),
{
    lemma_modifier_in_front(m, rest);
}

/// The text of a key with its modifiers in front, in the config's form.
spec fn with_mods(mods: u8, k: Seq<char>) -> Seq<char> {
    (if mods & MOD_ALT != 0 { "alt+"@ } else { Seq::empty() })
        + (if mods & MOD_CTRL != 0 { "ctrl+"@ } else { Seq::empty() })
        + (if mods & MOD_SHIFT != 0 { "shift+"@ } else { Seq::empty() })
        + (if mods & MOD_WIN != 0 { "win+"@ } else { Seq::empty() })
        + k
}

proof fn lemma_text_with_mods(mods: u8, k: Seq<char>)
    ensures
        with_mods(mods, k) == with_mod(
            mods & MOD_ALT != 0,
            "alt"@,
            with_mod(
                mods & MOD_CTRL != 0,
                "ctrl"@,
                with_mod(
                    mods & MOD_SHIFT != 0,
                    "shift"@,
                    with_mod(mods & MOD_WIN != 0, "win"@, k),
                ),
            ),
        ),
{
    lemma_modifier_texts();
    let e = Seq::<char>::empty();
    let alt = mods & MOD_ALT != 0;
    let ctrl = mods & MOD_CTRL != 0;
    let shift = mods & MOD_SHIFT != 0;
    let win = mods & MOD_WIN != 0;
    let a = if alt { "alt+"@ } else { e };
    let b = if ctrl { "ctrl+"@ } else { e };
    let c = if shift { "shift+"@ } else { e };
    let d = if win { "win+"@ } else { e };
    assert(with_mod(win, "win"@, k) =~= d + k);
    assert(with_mod(shift, "shift"@, d + k) =~= c + (d + k));
    assert(with_mod(ctrl, "ctrl"@, c + (d + k)) =~= b + (c + (d + k)));
    assert(with_mod(alt, "alt"@, b + (c + (d + k))) =~= a + (b + (c + (d + k))));
    assert(a + b + c + d + k =~= a + (b + (c + (d + k))));
}

proof fn lemma_map_words(alt: bool, ctrl: bool, shift: bool, win: bool, k: Seq<char>)
    ensures
        with_word(alt, "alt"@, with_word(ctrl, "ctrl"@, with_word(shift, "shift"@, with_word(win, "win"@, seq![k])))).map_values(
            |p: Seq<char>| clean(p),
        ) == word_list(alt, ctrl, shift, win, clean(k)),
{
    lemma_modifier_texts();
    let f = |p: Seq<char>| clean(p);
    let e = Seq::<Seq<char>>::empty();
    let a = if alt { seq!["alt"@] } else { e };
    let b = if ctrl { seq!["ctrl"@] } else { e };
    let c = if shift { seq!["shift"@] } else { e };
    let d = if win { seq!["win"@] } else { e };
    let last = seq![k];
    let kw = seq![clean(k)];
    assert(with_word(win, "win"@, last) =~= d + last);
    assert(with_word(shift, "shift"@, d + last) =~= c + (d + last));
    assert(with_word(ctrl, "ctrl"@, c + (d + last)) =~= b + (c + (d + last)));
    assert(with_word(alt, "alt"@, b + (c + (d + last))) =~= a + (b + (c + (d + last))));
    assert(a.map_values(f) =~= a);
    assert(b.map_values(f) =~= b);
    assert(c.map_values(f) =~= c);
    assert(d.map_values(f) =~= d);
    assert(last.map_values(f) =~= kw);
    assert((d + last).map_values(f) =~= d + kw);
    assert((c + (d + last)).map_values(f) =~= c + (d + kw));
    assert((b + (c + (d + last))).map_values(f) =~= b + (c + (d + kw)));
    assert((a + (b + (c + (d + last)))).map_values(f) =~= a + (b + (c + (d + kw))));
    let w1 = if alt { e.push("alt"@) } else { e };
    let w2 = if ctrl { w1.push("ctrl"@) } else { w1 };
    let w3 = if shift { w2.push("shift"@) } else { w2 };
    let w4 = if win { w3.push("win"@) } else { w3 };
    assert(w1 =~= a);
    assert(w2 =~= a + b);
    assert(w3 =~= (a + b) + c);
    assert(w4 =~= ((a + b) + c) + d);
    assert(w4.push(clean(k)) =~= a + (b + (c + (d + kw))));
}

/// The words of a text in lowercase that is a key's text with its modifiers in
/// front.
proof fn lemma_words_of_text(mods: u8, k: Seq<char>)
    requires
        plain(k),
    ensures
        text::split(with_mods(mods, k), '+').map_values(|p: Seq<char>| clean(p)) == word_list(
            mods & MOD_ALT != 0,
            mods & MOD_CTRL != 0,
            mods & MOD_SHIFT != 0,
            mods & MOD_WIN != 0,
            clean(k),
        ),
        text::lowercase(with_mods(mods, k)) == with_mods(mods, k),
{
    let alt = mods & MOD_ALT != 0;
    let ctrl = mods & MOD_CTRL != 0;
    let shift = mods & MOD_SHIFT != 0;
    let win = mods & MOD_WIN != 0;
    lemma_modifier_texts();
    text::lemma_split_whole(k, '+');
    let t3 = with_mod(win, "win"@, k);
    let t2 = with_mod(shift, "shift"@, t3);
    let t1 = with_mod(ctrl, "ctrl"@, t2);
    let p3 = with_word(win, "win"@, seq![k]);
    let p2 = with_word(shift, "shift"@, p3);
    let p1 = with_word(ctrl, "ctrl"@, p2);
    lemma_with_mod(win, "win"@, k, seq![k]);
    lemma_with_mod(shift, "shift"@, t3, p3);
    lemma_with_mod(ctrl, "ctrl"@, t2, p2);
    lemma_with_mod(alt, "alt"@, t1, p1);
    text::lemma_lowercase_fixed(with_mod(alt, "alt"@, t1));
    lemma_text_with_mods(mods, k);
    lemma_map_words(alt, ctrl, shift, win, k);
}

/// A text describes a hotkey where, in lowercase, it is the text of the
/// hotkey's key with its modifiers in front.
proof fn lemma_described(s: Seq<char>, h: Hotkey, k: Seq<char>)
    requires
        h.valid(),
        plain(k),
        clean(k) == clean(h.key.config_text()),
        text::lowercase(s) == with_mods(h.mods, k),
    ensures
        Hotkey::described(s) == Some(h),
{
    lemma_key_text(h.key);
    lemma_flags(h.mods);
    lemma_words_of_text(h.mods, k);
    lemma_word_list(
        h.mods & MOD_ALT != 0,
        h.mods & MOD_CTRL != 0,
        h.mods & MOD_SHIFT != 0,
        h.mods & MOD_WIN != 0,
        clean(k),
    );
}

/// A hotkey survives being written to the config and read back.
pub proof fn hotkey_text_round_trip(h: Hotkey)
    requires
        h.valid(),
    ensures
        Hotkey::described(h.config_text()) == Some(h),
{
    let k = h.key.config_text();
    lemma_key_text(h.key);
    lemma_words_of_text(h.mods, k);
    lemma_described(h.config_text(), h, k);
}

proof fn lemma_display_of_modifiers()
    ensures
        text::all_ascii("Alt+"@) && text::lowercase("Alt+"@) == "alt+"@,
        text::all_ascii("Ctrl+"@) && text::lowercase("Ctrl+"@) == "ctrl+"@,
        text::all_ascii("Shift+"@) && text::lowercase("Shift+"@) == "shift+"@,
        text::all_ascii("Win+"@) && text::lowercase("Win+"@) == "win+"@,
{
    reveal_strlit("Alt+");
    reveal_strlit("Ctrl+");
    reveal_strlit("Shift+");
    reveal_strlit("Win+");
    reveal_strlit("alt+");
    reveal_strlit("ctrl+");
    reveal_strlit("shift+");
    reveal_strlit("win+");
    assert(text::lowercase("Alt+"@) =~= "alt+"@);
    assert(text::lowercase("Ctrl+"@) =~= "ctrl+"@);
    assert(text::lowercase("Shift+"@) =~= "shift+"@);
    assert(text::lowercase("Win+"@) =~= "win+"@);
}

proof fn lemma_display_of_key(k: HotkeyKey)
    requires
        k.valid(),
    ensures
        text::all_ascii(k.display_text()),
        plain(text::lowercase(k.display_text())),
        clean(text::lowercase(k.display_text())) == clean(k.config_text()),
{
    let d = k.display_text();
    let low = text::lowercase(d);
    lemma_key_text(k);
    match k {
        HotkeyKey::F(n) => {
            text::decimal_round_trip(n as nat, 0);
            let number = text::decimal(n as nat);
            assert forall|i: int| 0 <= i < d.len() implies (#[trigger] d[i] == 'F' && i == 0
                || text::is_digit(d[i])) by {
                if i > 0 {
                    assert(d[i] == number[i - 1]);
                }
            }
            assert(low =~= k.config_text());
        },
        HotkeyKey::PrintScreen => {
            reveal_strlit("Print Screen");
            reveal_strlit("print screen");
            assert(low =~= "print screen"@);
            lemma_clean_print_screen();
        },
        HotkeyKey::Letter(c) => {
            assert(low =~= k.config_text());
        },
        HotkeyKey::Digit(_) => {
            assert(forall|i: int| 0 <= i < d.len() ==> (#[trigger] k.config_text()[i] as int) < 128);
            text::lemma_lowercase_fixed(d);
        },
        HotkeyKey::Space => {
            reveal_strlit("Space");
            reveal_strlit("space");
            assert(low =~= k.config_text());
        },
    }
}

/// What is shown of a hotkey describes it.
pub proof fn hotkey_display_round_trip(h: Hotkey)
    requires
        h.valid(),
    ensures
        Hotkey::described(h.display_text()) == Some(h),
{
    let e = Seq::<char>::empty();
    let a = if h.mods & MOD_ALT != 0 { "Alt+"@ } else { e };
    let b = if h.mods & MOD_CTRL != 0 { "Ctrl+"@ } else { e };
    let c = if h.mods & MOD_SHIFT != 0 { "Shift+"@ } else { e };
    let d = if h.mods & MOD_WIN != 0 { "Win+"@ } else { e };
    let k = h.key.display_text();
    lemma_display_of_modifiers();
    lemma_display_of_key(h.key);
    assert(text::lowercase(e) =~= e);
    text::lemma_lowercase_add(a, b);
    text::lemma_lowercase_add(a + b, c);
    text::lemma_lowercase_add(a + b + c, d);
    text::lemma_lowercase_add(a + b + c + d, k);
    lemma_described(h.display_text(), h, text::lowercase(k));
}

/// Every hotkey that a text describes is valid, so its config form describes it.
pub proof fn described_hotkey_is_valid(s: Seq<char>)
    ensures
        Hotkey::described(s) matches Some(h) ==> h.valid(),
{
}

/// Different keys have different virtual-key codes.
pub proof fn virtual_key_injective(a: HotkeyKey, b: HotkeyKey)
    requires
        a.valid(),
        b.valid(),
        a.virtual_key() == b.virtual_key(),
    ensures
        a == b,
{
}

/// One more word in front of others.
proof fn lemma_word_in_front(w: Seq<char>, ws: Seq<Seq<char>>)
    ensures
        has_alt(seq![w] + ws) == (is_alt(w) || has_alt(ws)),
        has_ctrl(seq![w] + ws) == (is_ctrl(w) || has_ctrl(ws)),
        has_shift(seq![w] + ws) == (is_shift(w) || has_shift(ws)),
        has_win(seq![w] + ws) == (is_win(w) || has_win(ws)),
        is_modifier_word(w) ==> key_words(seq![w] + ws) == key_words(ws),
        !is_modifier_word(w) ==> key_words(seq![w] + ws) == seq![w] + key_words(ws),
{
    let all = seq![w] + ws;
    let keep = |x: Seq<char>| !is_modifier_word(x);
    assert(all[0] == w);
    assert forall|i: int| 0 <= i < ws.len() implies #[trigger] ws[i] == all[i + 1] by {}
    assert forall|i: int| 1 <= i < all.len() implies #[trigger] all[i] == ws[i - 1] by {}
    if has_alt(ws) {
        let i = choose|i: int| 0 <= i < ws.len() && is_alt(#[trigger] ws[i]);
        assert(is_alt(all[i + 1]));
    }
    if has_ctrl(ws) {
        let i = choose|i: int| 0 <= i < ws.len() && is_ctrl(#[trigger] ws[i]);
        assert(is_ctrl(all[i + 1]));
    }
    if has_shift(ws) {
        let i = choose|i: int| 0 <= i < ws.len() && is_shift(#[trigger] ws[i]);
        assert(is_shift(all[i + 1]));
    }
    if has_win(ws) {
        let i = choose|i: int| 0 <= i < ws.len() && is_win(#[trigger] ws[i]);
        assert(is_win(all[i + 1]));
    }
    Seq::filter_distributes_over_add(seq![w], ws, keep);
    let one = seq![w];
    reveal(Seq::filter);
    assert(one.drop_last() =~= Seq::<Seq<char>>::empty());
    assert(one.drop_last().filter(keep) =~= Seq::<Seq<char>>::empty());
    assert(one.last() == w);
    if is_modifier_word(w) {
        assert(one.filter(keep) =~= Seq::<Seq<char>>::empty());
        assert(one.filter(keep) + ws.filter(keep) =~= ws.filter(keep));
    } else {
        assert(one.filter(keep) =~= one);
    }
}

/// The words of a text with one more in front.
proof fn lemma_words_in_front(m: Seq<char>, s: Seq<char>)
    requires
        text::all_ascii(m),
        text::all_ascii(s),
        !m.contains('+'),
    ensures
        words(m.push('+') + s) == seq![clean(text::lowercase(m))] + words(s),
{
    let low = text::lowercase(m);
    let rest = text::lowercase(s);
    let w = clean(low);
    let plus = seq!['+'];
    assert(m.push('+') + s =~= m + plus + s);
    assert(text::all_ascii(plus));
    assert(text::all_ascii(m + plus)) by {
        assert forall|i: int| 0 <= i < (m + plus).len() implies ((#[trigger] (m + plus)[i]) as int)
            < 128 by {
            if i < m.len() {
                assert((m + plus)[i] == m[i]);
            }
        }
    }
    text::lemma_lowercase_add(m, plus);
    text::lemma_lowercase_add(m + plus, s);
    text::lemma_lowercase_fixed(plus);
    assert(text::lowercase(m.push('+') + s) =~= low.push('+') + rest);
    assert(!low.contains('+')) by {
        if low.contains('+') {
            let i = choose|i: int| 0 <= i < low.len() && low[i] == '+';
            assert(m[i] == '+');
        }
    }
    text::lemma_split_join(low, rest, '+');
    text::lemma_split_whole(low, '+');
    let tidy = |p: Seq<char>| clean(p);
    assert(words(m.push('+') + s) =~= seq![w] + words(s)) by {
        let pieces = text::split(rest, '+');
        assert((seq![low] + pieces).map_values(tidy) =~= seq![w] + pieces.map_values(tidy));
    }
}

/// A modifier in front of a hotkey's text adds just that modifier, under each of
/// its names and in any case: the key stays, the other modifiers stay, and a text
/// that described no hotkey still describes none.
pub proof fn modifiers_add_up(m: Seq<char>, s: Seq<char>)
    requires
        text::all_ascii(m),
        text::all_ascii(s),
        !m.contains('+'),
    ensures
        ({
            let w = clean(text::lowercase(m));
            let alt = w == "alt"@;
            let ctrl = w == "ctrl"@ || w == "control"@ || w == "ctl"@;
            let shift = w == "shift"@;
            let win = w == "win"@ || w == "windows"@ || w == "super"@ || w == "cmd"@ || w
                == "meta"@;
            let before = Hotkey::described(s);
            let after = Hotkey::described(m.push('+') + s);
            alt || ctrl || shift || win ==> {
                &&& before is Some <==> after is Some
                &&& before is Some ==> {
                    let a = before->0;
                    let b = after->0;
                    &&& b.key == a.key
                    &&& b.mods < 16
                    &&& b.mods % 2 == 1 <==> alt || a.mods % 2 == 1
                    &&& b.mods / 2 % 2 == 1 <==> ctrl || a.mods / 2 % 2 == 1
                    &&& b.mods / 4 % 2 == 1 <==> shift || a.mods / 4 % 2 == 1
                    &&& b.mods / 8 % 2 == 1 <==> win || a.mods / 8 % 2 == 1
                }
            }
        }),
{
    let w = clean(text::lowercase(m));
    if is_modifier_word(w) {
        lemma_words_in_front(m, s);
        lemma_word_in_front(w, words(s));
        lemma_modifier_words_differ(w);
    }
}

/// Two keys make no hotkey: with a word in front that names a key, a text describes
/// none. A word in front that names neither a key nor a modifier does not count.
pub proof fn a_hotkey_has_one_key(m: Seq<char>, s: Seq<char>)
    requires
        text::all_ascii(m),
        text::all_ascii(s),
        !m.contains('+'),
    ensures
        ({
            let w = clean(text::lowercase(m));
            let before = Hotkey::described(s);
            let after = Hotkey::described(m.push('+') + s);
            !is_modifier_word(w) && before is Some ==> {
                &&& HotkeyKey::named(w) is Some ==> after is None
                &&& HotkeyKey::named(w) is None ==> after == before
            }
        }),
{
    let w = clean(text::lowercase(m));
    if !is_modifier_word(w) && Hotkey::described(s) is Some {
        lemma_words_in_front(m, s);
        lemma_word_in_front(w, words(s));
        let ks = key_words(words(s));
        let all = seq![w] + ks;
        assert(all[0] == w);
        assert(all.last() == ks.last());
        assert forall|i: int| 1 <= i < all.len() implies #[trigger] all[i] == ks[i - 1] by {}
        if HotkeyKey::named(w) is Some {
            assert(!one_key_at_the_end(all));
        } else {
            assert(one_key_at_the_end(all));
        }
    }
}

/// The keys that words name: F1 to F12 by their number, letters and digits by
/// themselves, the Print Screen key by five names, and Space. Nothing else names
/// a key.
pub proof fn keys_have_their_names(s: Seq<char>)
    ensures
        HotkeyKey::named(s) == Some(HotkeyKey::PrintScreen) <==> s == "print"@ || s
            == "printscreen"@ || s == "prtsc"@ || s == "prtscr"@ || s == "snapshot"@,
        HotkeyKey::named(s) == Some(HotkeyKey::Space) <==> s == "space"@,
        HotkeyKey::named(s) matches Some(HotkeyKey::Letter(c)) ==> s == seq![c as char] && 'a'
            <= c as char <= 'z',
        HotkeyKey::named(s) matches Some(HotkeyKey::Digit(d)) ==> s == text::decimal(d as nat) && d
            <= 9,
        HotkeyKey::named(s) matches Some(HotkeyKey::F(n)) ==> s[0] == 'f' && text::number(s.skip(1))
            == Some(n as nat) && 1 <= n <= 12,
        s.len() == 1 && 'a' <= s[0] <= 'z' ==> HotkeyKey::named(s) == Some(
            HotkeyKey::Letter(s[0] as u8),
        ),
        s.len() == 1 && '0' <= s[0] <= '9' ==> HotkeyKey::named(s) == Some(
            HotkeyKey::Digit((s[0] as int - 48) as u8),
        ),
        s.len() > 0 && s[0] == 'f' ==> (text::number(s.skip(1)) matches Some(n) ==> 1 <= n <= 12
            ==> HotkeyKey::named(s) == Some(HotkeyKey::F(n as u8))),
{
    reveal_strlit("print");
    reveal_strlit("printscreen");
    reveal_strlit("prtsc");
    reveal_strlit("prtscr");
    reveal_strlit("snapshot");
    reveal_strlit("space");
    assert("print"@[0] == 'p' && "printscreen"@[0] == 'p' && "prtsc"@[0] == 'p' && "prtscr"@[0]
        == 'p' && "snapshot"@[0] == 's' && "space"@[0] == 's');
    assert("snapshot"@[1] == 'n' && "space"@[1] == 'p');
    if s.len() == 1 {
        assert(s.skip(1).len() == 0);
        if '0' <= s[0] <= '9' {
            let d = (s[0] as int - 48) as nat;
            assert(text::decimal(d) =~= s);
        }
        assert(s =~= seq![s[0]]);
    }
}

/// A letter or a digit has the code of the character that it is shown as, F1 to
/// F12 have consecutive codes from 112 on, the Print Screen key has 44 and Space 32.
pub proof fn codes_are_those_of_the_characters(k: HotkeyKey)
    requires
        k.valid(),
    ensures
        k is Letter || k is Digit ==> k.display_text().len() == 1 && k.virtual_key()
            == k.display_text()[0] as int,
        k matches HotkeyKey::F(n) ==> k.virtual_key() == 111 + n,
        k is PrintScreen ==> k.virtual_key() == 44,
        k is Space ==> k.virtual_key() == 32,
{
}

/// What people see of a hotkey is what the config holds, but for case and for the
/// marks that do not count.
pub proof fn display_is_the_config_form(h: Hotkey)
    requires
        h.valid(),
    ensures
        clean(text::lowercase(h.key.display_text())) == clean(h.key.config_text()),
{
    lemma_display_of_key(h.key);
}

/// A hotkey's text is its modifiers' names, in the order Alt, Ctrl, Shift, Win,
/// each followed by a plus, and then the key's. Each line takes the first of them
/// off.
pub proof fn hotkeys_are_written_modifier_by_modifier(mods: u8, key: HotkeyKey)
    requires
        mods < 16,
    ensures
        ({
            let shown = |m: int| (Hotkey { mods: m as u8, key }).display_text();
            let kept = |m: int| (Hotkey { mods: m as u8, key }).config_text();
            let m = mods as int;
            &&& m % 2 == 1 ==> shown(m) == seq!['A', 'l', 't', '+'] + shown(m - 1) && kept(m)
                == seq!['a', 'l', 't', '+'] + kept(m - 1)
            &&& m % 4 == 2 ==> shown(m) == seq!['C', 't', 'r', 'l', '+'] + shown(m - 2) && kept(m)
                == seq!['c', 't', 'r', 'l', '+'] + kept(m - 2)
            &&& m % 8 == 4 ==> shown(m) == seq!['S', 'h', 'i', 'f', 't', '+'] + shown(m - 4)
                && kept(m) == seq!['s', 'h', 'i', 'f', 't', '+'] + kept(m - 4)
            &&& m == 8 ==> shown(m) == seq!['W', 'i', 'n', '+'] + shown(0) && kept(m) == seq![
                'w',
                'i',
                'n',
                '+',
            ] + kept(0)
            &&& m == 0 ==> shown(m) == key.display_text() && kept(m) == key.config_text()
        }),
{
    reveal_strlit("Alt+");
    reveal_strlit("Ctrl+");
    reveal_strlit("Shift+");
    reveal_strlit("Win+");
    reveal_strlit("alt+");
    reveal_strlit("ctrl+");
    reveal_strlit("shift+");
    reveal_strlit("win+");
    lemma_bits(mods);
    let less = if mods % 2 == 1 {
        (mods - 1) as u8
    } else if mods % 4 == 2 {
        (mods - 2) as u8
    } else if mods % 8 == 4 {
        (mods - 4) as u8
    } else {
        0u8
    };
    lemma_bits(less);
    let h = Hotkey { mods, key };
    let rest = Hotkey { mods: less, key };
    if mods % 2 == 1 {
        assert(h.display_text() =~= seq!['A', 'l', 't', '+'] + rest.display_text());
        assert(h.config_text() =~= seq!['a', 'l', 't', '+'] + rest.config_text());
    } else if mods % 4 == 2 {
        assert(h.display_text() =~= seq!['C', 't', 'r', 'l', '+'] + rest.display_text());
        assert(h.config_text() =~= seq!['c', 't', 'r', 'l', '+'] + rest.config_text());
    } else if mods % 8 == 4 {
        assert(h.display_text() =~= seq!['S', 'h', 'i', 'f', 't', '+'] + rest.display_text());
        assert(h.config_text() =~= seq!['s', 'h', 'i', 'f', 't', '+'] + rest.config_text());
    } else if mods == 8 {
        assert(h.display_text() =~= seq!['W', 'i', 'n', '+'] + rest.display_text());
        assert(h.config_text() =~= seq!['w', 'i', 'n', '+'] + rest.config_text());
    } else {
        assert(h.display_text() =~= key.display_text());
        assert(h.config_text() =~= key.config_text());
    }
}

/// The modifier flags as digits of a number.
proof fn lemma_bits(mods: u8)
    requires
        mods < 16,
    ensures
        mods & 1 != 0 <==> mods % 2 == 1,
        mods & 2 != 0 <==> mods / 2 % 2 == 1,
        mods & 4 != 0 <==> mods / 4 % 2 == 1,
        mods & 8 != 0 <==> mods / 8 % 2 == 1,
{
    assert((mods & 1 != 0 <==> mods % 2 == 1) && (mods & 2 != 0 <==> mods / 2 % 2 == 1) && (mods & 4
        != 0 <==> mods / 4 % 2 == 1) && (mods & 8 != 0 <==> mods / 8 % 2 == 1)) by (bit_vector)
        requires
            mods < 16,
    ;
}

} // verus!
