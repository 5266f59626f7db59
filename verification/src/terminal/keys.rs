//! Turning a key event into the bytes a shell expects.
//!
//! A terminal has no "key" concept: a program reads a byte stream and infers
//! keys from it, by conventions inherited from the DEC VT series. Printable
//! text comes from the event's `text` (what the platform produced after the
//! layout), never from the key code; control characters are computed, not
//! looked up: `Ctrl+<letter>` is the letter with bit 6 cleared.

use vstd::prelude::*;

use crate::text::{bytes_of, decimal, decimal_bytes, extend_bytes, push_char};

verus! {

/// Modifier state at the moment of the keypress.
#[derive(Clone, Copy, Default)]
pub struct Mods {
    pub ctrl: bool,
    pub alt: bool,
    pub shift: bool,
}

/// The logical key of an event, as far as a terminal distinguishes keys.
pub enum Key {
    Enter,
    Backspace,
    Tab,
    Escape,
    Space,
    ArrowUp,
    ArrowDown,
    ArrowRight,
    ArrowLeft,
    Home,
    End,
    Insert,
    Delete,
    PageUp,
    PageDown,
    F1,
    F2,
    F3,
    F4,
    F5,
    F6,
    F7,
    F8,
    F9,
    F10,
    F11,
    F12,
    /// A key that produced a character, with the character as the layout
    /// reports it.
    Character(String),
    /// Anything else: bare modifiers, media keys, the rest of the `Fn` row.
    Other,
}

/// One key press: the logical key and the text the platform produced for it.
pub struct KeyEvent {
    pub logical_key: Key,
    pub text: Option<String>,
}

/// The xterm modifier parameter: `1 + shift + 2*alt + 4*ctrl`.
pub open spec fn mod_param(m: Mods) -> nat {
    (1 + (if m.shift { 1nat } else { 0nat }) + (if m.alt { 2nat } else { 0nat }) + (if m.ctrl {
        4nat
    } else {
        0nat
    })) as nat
}

/// Any modifier held.
pub open spec fn mod_any(m: Mods) -> bool {
    m.ctrl || m.alt || m.shift
}

impl Mods {
    /// The xterm modifier parameter, used in the `CSI 1 ; <n> <letter>` form
    /// that carries a modified arrow or Home/End. `1` means no modifiers.
    pub fn param(self) -> (p: u8)
        ensures
            p == mod_param(self),
    {
        1 + (if self.shift {
            1u8
        } else {
            0u8
        }) + 2 * (if self.alt {
            1u8
        } else {
            0u8
        }) + 4 * (if self.ctrl {
            1u8
        } else {
            0u8
        })
    }

    /// Whether any modifier is held.
    pub fn any(self) -> (r: bool)
        ensures
            r == mod_any(self),
    {
        self.ctrl || self.alt || self.shift
    }
}

/// `bytes`, behind an ESC when Alt is held (the "meta prefix" readline expects).
pub open spec fn with_meta(m: Mods, bytes: Seq<u8>) -> Seq<u8> {
    if m.alt {
        seq![0x1bu8] + bytes
    } else {
        bytes
    }
}

/// An arrow, Home or End key: `ESC [ <letter>`, `ESC O <letter>` in
/// application-cursor mode, and `ESC [ 1 ; <mod> <letter>` with a modifier,
/// where the letter is written as the character of that code, in UTF-8.
pub open spec fn spec_cursor_key(letter: u8, m: Mods, app_cursor: bool) -> Seq<u8> {
    if mod_any(m) {
        seq![0x1bu8, 91u8, 49u8, 59u8] + decimal(mod_param(m)) + vstd::utf8::encode_utf8(
            seq![letter as char],
        )
    } else if app_cursor {
        seq![0x1bu8, 79u8, letter]
    } else {
        seq![0x1bu8, 91u8, letter]
    }
}

/// A `CSI <n> ~` key, with `; <mod>` before the `~` when a modifier is held.
pub open spec fn spec_tilde_key(n: u8, m: Mods) -> Seq<u8> {
    if mod_any(m) {
        seq![0x1bu8, 91u8] + decimal(n as nat) + seq![59u8] + decimal(mod_param(m)) + seq![126u8]
    } else {
        seq![0x1bu8, 91u8] + decimal(n as nat) + seq![126u8]
    }
}

/// F1-F4: `SS3 <letter>` unmodified, `CSI <n> ; <mod> ~` with a modifier.
pub open spec fn spec_func_key(letter: u8, n: u8, m: Mods) -> Seq<u8> {
    if mod_any(m) {
        seq![0x1bu8, 91u8] + decimal(n as nat) + seq![59u8] + decimal(mod_param(m)) + seq![126u8]
    } else {
        seq![0x1bu8, 79u8, letter]
    }
}

/// A character uppercased the ASCII way: only `a`-`z` change.
pub open spec fn ascii_upper(c: char) -> u32 {
    let u = c as u32;
    if 97 <= u <= 122 {
        (u - 32) as u32
    } else {
        u
    }
}

/// `Ctrl+<char>`: the first character uppercased, bit 6 cleared, for
/// `@A-Z[\]^_`; `Ctrl+?` is DEL; anything else has no control character.
pub open spec fn spec_control(s: Seq<char>) -> Option<Seq<u8>> {
    if s.len() == 0 {
        None
    } else {
        let c = ascii_upper(s[0]);
        if 0x40 <= c <= 0x5f {
            Some(seq![(c - 0x40) as u8])
        } else if c == 0x3f {
            Some(seq![0x7fu8])
        } else {
            None
        }
    }
}

/// The bytes an event sends to the shell, or `None` for a key a terminal has
/// nothing to say about.
pub open spec fn spec_encode(ev: KeyEvent, m: Mods, app_cursor: bool) -> Option<Seq<u8>> {
    match ev.logical_key {
        Key::Enter => Some(with_meta(m, seq![13u8])),
        Key::Backspace => Some(with_meta(m, seq![0x7fu8])),
        Key::Tab => if m.shift {
            Some(seq![0x1bu8, 91u8, 90u8])
        } else {
            Some(with_meta(m, seq![9u8]))
        },
        Key::Escape => Some(with_meta(m, seq![0x1bu8])),
        Key::ArrowUp => Some(spec_cursor_key(65, m, app_cursor)),
        Key::ArrowDown => Some(spec_cursor_key(66, m, app_cursor)),
        Key::ArrowRight => Some(spec_cursor_key(67, m, app_cursor)),
        Key::ArrowLeft => Some(spec_cursor_key(68, m, app_cursor)),
        Key::Home => Some(spec_cursor_key(72, m, app_cursor)),
        Key::End => Some(spec_cursor_key(70, m, app_cursor)),
        Key::Insert => Some(spec_tilde_key(2, m)),
        Key::Delete => Some(spec_tilde_key(3, m)),
        Key::PageUp => Some(spec_tilde_key(5, m)),
        Key::PageDown => Some(spec_tilde_key(6, m)),
        Key::F1 => Some(spec_func_key(80, 11, m)),
        Key::F2 => Some(spec_func_key(81, 12, m)),
        Key::F3 => Some(spec_func_key(82, 13, m)),
        Key::F4 => Some(spec_func_key(83, 14, m)),
        Key::F5 => Some(spec_tilde_key(15, m)),
        Key::F6 => Some(spec_tilde_key(17, m)),
        Key::F7 => Some(spec_tilde_key(18, m)),
        Key::F8 => Some(spec_tilde_key(19, m)),
        Key::F9 => Some(spec_tilde_key(20, m)),
        Key::F10 => Some(spec_tilde_key(21, m)),
        Key::F11 => Some(spec_tilde_key(23, m)),
        Key::F12 => Some(spec_tilde_key(24, m)),
        Key::Space => if m.ctrl {
            Some(with_meta(m, seq![0u8]))
        } else {
            text_bytes(ev.text, m)
        },
        Key::Character(s) => if m.ctrl {
            match spec_control(s@) {
                Some(b) => Some(with_meta(m, b)),
                None => None,
            }
        } else {
            text_bytes(ev.text, m)
        },
        Key::Other => None,
    }
}

/// The platform's text for the key, as UTF-8, when it produced any.
pub open spec fn text_bytes(text: Option<String>, m: Mods) -> Option<Seq<u8>> {
    match text {
        Some(t) => if t@.len() == 0 {
            None
        } else {
            Some(with_meta(m, vstd::utf8::encode_utf8(t@)))
        },
        None => None,
    }
}

/// `bytes` behind the meta prefix when Alt is held.
fn meta(m: Mods, bytes: Vec<u8>) -> (r: Vec<u8>)
    ensures
        r@ == with_meta(m, bytes@),
{
    if m.alt {
        let mut out: Vec<u8> = Vec::new();
        out.push(0x1b);
        extend_bytes(&mut out, bytes.as_slice());
        assert(out@ =~= seq![0x1bu8] + bytes@);
        out
    } else {
        bytes
    }
}

/// A vector holding the bytes of a literal sequence.
fn bytes3(a: u8, b: u8, c: u8) -> (r: Vec<u8>)
    ensures
        r@ == seq![a, b, c],
{
    let mut v: Vec<u8> = Vec::new();
    v.push(a);
    v.push(b);
    v.push(c);
    assert(v@ =~= seq![a, b, c]);
    v
}

/// A one-byte vector.
fn byte1(a: u8) -> (r: Vec<u8>)
    ensures
        r@ == seq![a],
{
    let mut v: Vec<u8> = Vec::new();
    v.push(a);
    assert(v@ =~= seq![a]);
    v
}

/// `CSI <n> ; <mod> ~`.
fn csi_modified(n: u8, m: Mods) -> (r: Vec<u8>)
    ensures
        r@ == seq![0x1bu8, 91u8] + decimal(n as nat) + seq![59u8] + decimal(mod_param(m)) + seq![126u8],
{
    let mut v: Vec<u8> = Vec::new();
    v.push(0x1b);
    v.push(91);
    let d = decimal_bytes(n as u64);
    extend_bytes(&mut v, d.as_slice());
    v.push(59);
    let p = decimal_bytes(m.param() as u64);
    extend_bytes(&mut v, p.as_slice());
    v.push(126);
    assert(v@ =~= seq![0x1bu8, 91u8] + decimal(n as nat) + seq![59u8] + decimal(mod_param(m))
        + seq![126u8]);
    v
}

/// An arrow / Home / End key.
pub fn cursor_key(letter: u8, m: Mods, app_cursor: bool) -> (r: Vec<u8>)
    ensures
        r@ == spec_cursor_key(letter, m, app_cursor),
{
    if m.any() {
        let mut v: Vec<u8> = Vec::new();
        v.push(0x1b);
        v.push(91);
        v.push(49);
        v.push(59);
        let p = decimal_bytes(m.param() as u64);
        extend_bytes(&mut v, p.as_slice());
        let mut ch = String::new();
        push_char(&mut ch, letter as char);
        assert(ch@ =~= seq![letter as char]);
        let tail = bytes_of(ch.as_str());
        extend_bytes(&mut v, tail.as_slice());
        assert(v@ =~= seq![0x1bu8, 91u8, 49u8, 59u8] + decimal(mod_param(m)) + vstd::utf8::encode_utf8(
            seq![letter as char],
        ));
        v
    } else if app_cursor {
        bytes3(0x1b, 79, letter)
    } else {
        bytes3(0x1b, 91, letter)
    }
}

/// A `CSI <n> ~` key (Insert, Delete, PageUp, PageDown, F5 and above).
pub fn tilde_key(n: u8, m: Mods) -> (r: Vec<u8>)
    ensures
        r@ == spec_tilde_key(n, m),
{
    if m.any() {
        csi_modified(n, m)
    } else {
        let mut v: Vec<u8> = Vec::new();
        v.push(0x1b);
        v.push(91);
        let d = decimal_bytes(n as u64);
        extend_bytes(&mut v, d.as_slice());
        v.push(126);
        assert(v@ =~= seq![0x1bu8, 91u8] + decimal(n as nat) + seq![126u8]);
        v
    }
}

/// F1-F4.
pub fn func_key(letter: u8, n: u8, m: Mods) -> (r: Vec<u8>)
    ensures
        r@ == spec_func_key(letter, n, m),
{
    if m.any() {
        csi_modified(n, m)
    } else {
        bytes3(0x1b, 79, letter)
    }
}

/// `Ctrl+<char>`: clear bit 6 of the uppercased ASCII character. Only
/// defined for `@A-Z[\]^_` and `?`; `Ctrl+5` has no control character and
/// gives `None`, so the keypress does nothing.
pub fn control(s: &str) -> (r: Option<Vec<u8>>)
    ensures
        match r {
            Some(b) => spec_control(s@) == Some(b@),
            None => spec_control(s@) is None,
        },
{
    let cs = crate::text::chars_of(s);
    if cs.len() == 0 {
        return None;
    }
    let first = cs[0];
    let code = first as u32;
    let c: u32 = if 97 <= code && code <= 122 {
        code - 32
    } else {
        code
    };
    assert(c == ascii_upper(s@[0]));
    if 0x40 <= c && c <= 0x5f {
        Some(byte1((c - 0x40) as u8))
    } else if c == 0x3f {
        Some(byte1(0x7f))
    } else {
        None
    }
}

/// The bytes `ev` should send to the shell, or `None` for a key a terminal
/// has nothing to say about (a bare modifier, a media key, an unmapped key).
///
/// `app_cursor` is DECCKM, the mode a full-screen program turns on to receive
/// `ESC O A` for Up instead of `ESC [ A`.
pub fn encode(ev: &KeyEvent, m: Mods, app_cursor: bool) -> (r: Option<Vec<u8>>)
    ensures
        match r {
            Some(b) => spec_encode(*ev, m, app_cursor) == Some(b@),
            None => spec_encode(*ev, m, app_cursor) is None,
        },
{
    match &ev.logical_key {
        Key::Enter => Some(meta(m, byte1(13))),
        // DEL, not BS: what Unix terminals send for backspace.
        Key::Backspace => Some(meta(m, byte1(0x7f))),
        Key::Tab => {
            if m.shift {
                // Back-tab, for TUIs that cycle focus backwards.
                Some(bytes3(0x1b, 91, 90))
            } else {
                Some(meta(m, byte1(9)))
            }
        },
        Key::Escape => Some(meta(m, byte1(0x1b))),
        Key::ArrowUp => Some(cursor_key(65, m, app_cursor)),
        Key::ArrowDown => Some(cursor_key(66, m, app_cursor)),
        Key::ArrowRight => Some(cursor_key(67, m, app_cursor)),
        Key::ArrowLeft => Some(cursor_key(68, m, app_cursor)),
        Key::Home => Some(cursor_key(72, m, app_cursor)),
        Key::End => Some(cursor_key(70, m, app_cursor)),
        Key::Insert => Some(tilde_key(2, m)),
        Key::Delete => Some(tilde_key(3, m)),
        Key::PageUp => Some(tilde_key(5, m)),
        Key::PageDown => Some(tilde_key(6, m)),
        // F1-F4 are SS3 keys, F5 upwards `CSI <n> ~`, skipping 16 and 22: the
        // gaps are in the VT220 layout every terminal still emulates.
        Key::F1 => Some(func_key(80, 11, m)),
        Key::F2 => Some(func_key(81, 12, m)),
        Key::F3 => Some(func_key(82, 13, m)),
        Key::F4 => Some(func_key(83, 14, m)),
        Key::F5 => Some(tilde_key(15, m)),
        Key::F6 => Some(tilde_key(17, m)),
        Key::F7 => Some(tilde_key(18, m)),
        Key::F8 => Some(tilde_key(19, m)),
        Key::F9 => Some(tilde_key(20, m)),
        Key::F10 => Some(tilde_key(21, m)),
        Key::F11 => Some(tilde_key(23, m)),
        Key::F12 => Some(tilde_key(24, m)),
        Key::Space if m.ctrl => {
            // Ctrl+Space is NUL, which emacs-mode readline reads as "set mark".
            Some(meta(m, byte1(0)))
        },
        Key::Character(s) if m.ctrl => match control(s.as_str()) {
            Some(b) => Some(meta(m, b)),
            None => None,
        },
        // The ordinary case, deliberately last: anything the platform produced
        // text for is sent as that text.
        Key::Character(_) | Key::Space => match &ev.text {
            Some(t) => {
                if t.as_str().is_empty() {
                    return None;
                }
                let bytes = crate::text::bytes_of(t.as_str());
                Some(meta(m, bytes))
            },
            None => None,
        },
        Key::Other => None,
    }
}

/// Holding Alt puts an ESC in front of whatever the key sends without it, for
/// every key that sends plain text or a single control byte: Enter,
/// Backspace, Escape, Tab without Shift, and a character or space key, with
/// Ctrl or without.
pub proof fn law_alt_is_a_meta_prefix(ev: KeyEvent, m: Mods, app_cursor: bool)
    requires
        !m.alt,
        match ev.logical_key {
            Key::Enter | Key::Backspace | Key::Escape => true,
            Key::Tab => !m.shift,
            Key::Character(_) | Key::Space => true,
            _ => false,
        },
    ensures
        spec_encode(ev, Mods { alt: true, ..m }, app_cursor) == match spec_encode(ev, m, app_cursor) {
            Some(b) => Some(seq![0x1bu8] + b),
            None => None,
        },
{
}


/// The UTF-8 form of an ASCII character is its own byte.
pub proof fn lemma_ascii_is_its_byte(c: u8)
    requires
        c < 128,
    ensures
        vstd::utf8::encode_utf8(seq![c as char]) == seq![c],
{
    let s = seq![c as char];
    assert(s.drop_first() =~= Seq::<char>::empty());
    reveal_with_fuel(vstd::utf8::encode_utf8, 2);
    let v: u32 = c as u32;
    assert((c as char) as u32 == v);
    assert(v & 0x7F == v) by (bit_vector)
        requires
            v < 128,
    ;
    assert(vstd::utf8::encode_utf8(s) =~= seq![c]);
}

/// `r` is a cursor-key sequence ending in `letter`: `ESC [ <letter>`, or
/// `ESC O <letter>` in application-cursor mode, when no modifier is held,
/// and with one held a CSI sequence (`ESC [ ...`) still ending in the letter.
pub open spec fn sends_cursor(r: Option<Seq<u8>>, letter: u8, m: Mods, app_cursor: bool) -> bool {
    match r {
        Some(b) => {
            &&& b.len() >= 3
            &&& b[0] == 0x1bu8
            &&& b.last() == letter
            &&& !mod_any(m) ==> b == seq![
                0x1bu8,
                if app_cursor {
                    79u8
                } else {
                    91u8
                },
                letter,
            ]
            &&& mod_any(m) ==> b[1] == 91u8
        },
        None => false,
    }
}

/// Each cursor key sends its own xterm final letter, in every mode and with
/// any modifiers: Up `A`, Down `B`, Right `C`, Left `D`, Home `H`, End `F`.
pub proof fn law_cursor_keys_send_their_letter(ev: KeyEvent, m: Mods, app_cursor: bool)
    ensures
        match ev.logical_key {
            Key::ArrowUp => sends_cursor(spec_encode(ev, m, app_cursor), 0x41, m, app_cursor),
            Key::ArrowDown => sends_cursor(spec_encode(ev, m, app_cursor), 0x42, m, app_cursor),
            Key::ArrowRight => sends_cursor(spec_encode(ev, m, app_cursor), 0x43, m, app_cursor),
            Key::ArrowLeft => sends_cursor(spec_encode(ev, m, app_cursor), 0x44, m, app_cursor),
            Key::Home => sends_cursor(spec_encode(ev, m, app_cursor), 0x48, m, app_cursor),
            Key::End => sends_cursor(spec_encode(ev, m, app_cursor), 0x46, m, app_cursor),
            _ => true,
        },
{
    lemma_ascii_is_its_byte(0x41);
    lemma_ascii_is_its_byte(0x42);
    lemma_ascii_is_its_byte(0x43);
    lemma_ascii_is_its_byte(0x44);
    lemma_ascii_is_its_byte(0x46);
    lemma_ascii_is_its_byte(0x48);
}

} // verus!
