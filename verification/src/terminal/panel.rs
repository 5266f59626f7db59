//! The panel's decisions that do not need the window: which columns of a row
//! a selection covers, what a keypress means, what a paste sends, and what a
//! shell's tab is named after.

use vstd::prelude::*;

use crate::terminal::keys::{encode, spec_encode, Key, KeyEvent, Mods};
use crate::text::{bytes_of, chars_of, slice_chars, string_from};

verus! {

/// The `[from, to)` columns of `row` covered by a selection running from
/// `start` to `end`: a middle row edge to edge, the first and last cut by the
/// drag's own columns, and the end cell itself included.
pub open spec fn row_span(start: (u16, u16), end: (u16, u16), row: u16, cols: u16) -> Option<(u16, u16)> {
    if row < start.0 || row > end.0 {
        None
    } else {
        let from = if row == start.0 {
            start.1
        } else {
            0
        };
        let to = if row == end.0 {
            if end.1 + 1 < cols {
                (end.1 + 1) as u16
            } else {
                cols
            }
        } else {
            cols
        };
        if from < to {
            Some((from, to))
        } else {
            None
        }
    }
}

/// Where the cursor is drawn on `row`: at its column on its own row, unless
/// the program hid it or the view is scrolled back into history, where the
/// cursor's cell is not on screen.
pub fn cursor_overlay(hide_cursor: bool, scrollback: usize, cursor: (u16, u16), row: u16) -> (r: Option<u16>)
    ensures
        r == (if !hide_cursor && scrollback == 0 && cursor.0 == row {
            Some(cursor.1)
        } else {
            None
        }),
{
    let shown = !hide_cursor && scrollback == 0;
    if shown && cursor.0 == row {
        Some(cursor.1)
    } else {
        None
    }
}

/// The `[start, end)` columns of `row` covered by a selection running from
/// `start` to `end`, or `None` when the row is outside it.
pub fn row_selection(start: (u16, u16), end: (u16, u16), row: u16, cols: u16) -> (r: Option<(u16, u16)>)
    requires
        start.0 <= row == end.0 ==> end.1 < u16::MAX,
    ensures
        r == row_span(start, end, row, cols),
{
    if row < start.0 || row > end.0 {
        return None;
    }
    let from = if row == start.0 {
        start.1
    } else {
        0
    };
    let to = if row == end.0 {
        if end.1 + 1 < cols {
            end.1 + 1
        } else {
            cols
        }
    } else {
        cols
    };
    if from < to {
        Some((from, to))
    } else {
        None
    }
}

pub open spec fn is_path_sep(c: char) -> bool {
    c == '/' || c == '\\'
}

/// What follows the last `/` or `\`: the whole string when there is none.
pub open spec fn last_component(s: Seq<char>) -> Seq<char>
    decreases s.len(),
{
    if s.len() == 0 {
        s
    } else if is_path_sep(s.last()) {
        Seq::empty()
    } else {
        last_component(s.drop_last()).push(s.last())
    }
}

pub open spec fn exe_suffix() -> Seq<char> {
    seq!['.', 'e', 'x', 'e']
}

/// `s` with every trailing `.exe` removed.
pub open spec fn strip_exe(s: Seq<char>) -> Seq<char>
    decreases s.len(),
{
    if s.len() >= 4 && s.subrange(s.len() - 4, s.len() as int) == exe_suffix() {
        strip_exe(s.subrange(0, s.len() - 4))
    } else {
        s
    }
}

/// A program's name without its directory or a Windows `.exe`, for a tab's
/// title: `/usr/bin/zsh` is `zsh`, `C:\Windows\System32\cmd.exe` is `cmd`.
pub fn basename(program: &str) -> (r: String)
    ensures
        r@ == strip_exe(last_component(program@)),
{
    let s = chars_of(program);
    let n = s.len();
    let mut i: usize = n;
    proof {
        assert(s@.take(n as int) =~= s@);
        assert(s@.subrange(n as int, n as int) =~= Seq::<char>::empty());
        assert(s@ + Seq::<char>::empty() =~= s@);
    }
    while i > 0 && !(s[i - 1] == '/' || s[i - 1] == '\\')
        invariant
            i <= s@.len(),
            n == s@.len(),
            last_component(s@) == last_component(s@.take(i as int)) + s@.subrange(i as int, n as int),
        decreases i,
    {
        proof {
            let t = s@.take(i as int);
            assert(t.drop_last() =~= s@.take(i - 1));
            assert(t.last() == s@[i - 1]);
            assert(s@.subrange(i - 1, n as int) =~= seq![s@[i - 1]] + s@.subrange(i as int, n as int));
            assert(last_component(t) == last_component(s@.take(i - 1)).push(s@[i - 1]));
            assert(last_component(s@.take(i - 1)).push(s@[i - 1]) + s@.subrange(i as int, n as int)
                =~= last_component(s@.take(i - 1)) + s@.subrange(i - 1, n as int));
        }
        i = i - 1;
    }
    proof {
        let t = s@.take(i as int);
        if i > 0 {
            assert(t.last() == s@[i - 1]);
        }
        assert(last_component(t) =~= Seq::<char>::empty());
        assert(Seq::<char>::empty() + s@.subrange(i as int, n as int) =~= s@.subrange(
            i as int,
            n as int,
        ));
    }
    let mut v = slice_chars(&s, i, n);
    while v.len() >= 4 && v[v.len() - 4] == '.' && v[v.len() - 3] == 'e' && v[v.len() - 2] == 'x'
        && v[v.len() - 1] == 'e'
        invariant
            strip_exe(last_component(program@)) == strip_exe(v@),
        decreases v@.len(),
    {
        let m = v.len();
        proof {
            assert(v@.subrange(m - 4, m as int) =~= exe_suffix());
        }
        v = slice_chars(&v, 0, m - 4);
    }
    proof {
        if v@.len() >= 4 {
            let m = v@.len();
            if v@.subrange(m - 4, m as int) == exe_suffix() {
                assert(v@.subrange(m - 4, m as int)[0] == v@[m - 4]);
                assert(v@.subrange(m - 4, m as int)[1] == v@[m - 3]);
                assert(v@.subrange(m - 4, m as int)[2] == v@[m - 2]);
                assert(v@.subrange(m - 4, m as int)[3] == v@[m - 1]);
            }
        }
    }
    string_from(v.as_slice())
}

/// Bracketed paste's opening marker, `ESC [ 200 ~`.
pub open spec fn paste_open() -> Seq<u8> {
    seq![0x1bu8, 0x5bu8, 0x32u8, 0x30u8, 0x30u8, 0x7eu8]
}

/// Bracketed paste's closing marker, `ESC [ 201 ~`.
pub open spec fn paste_close() -> Seq<u8> {
    seq![0x1bu8, 0x5bu8, 0x32u8, 0x30u8, 0x31u8, 0x7eu8]
}

/// A newline on the wire is a carriage return, as pressing Enter sends.
pub open spec fn wire_byte(b: u8) -> u8 {
    if b == 10 {
        13
    } else {
        b
    }
}

/// What pasting `text` sends: nothing for empty text; otherwise its bytes
/// with each newline as a carriage return, inside the bracketed-paste
/// markers when the program asked for them.
pub open spec fn paste_spec(text: Seq<char>, bracketed: bool) -> Option<Seq<u8>> {
    if text.len() == 0 {
        None
    } else {
        let body = vstd::utf8::encode_utf8(text).map_values(|b: u8| wire_byte(b));
        Some(
            if bracketed {
                paste_open() + body + paste_close()
            } else {
                body
            },
        )
    }
}

fn push_marker(v: &mut Vec<u8>, last: u8)
    ensures
        final(v)@ == old(v)@ + seq![0x1bu8, 0x5bu8, 0x32u8, 0x30u8, last, 0x7eu8],
{
    v.push(0x1b);
    v.push(0x5b);
    v.push(0x32);
    v.push(0x30);
    v.push(last);
    v.push(0x7e);
    assert(final(v)@ =~= old(v)@ + seq![0x1bu8, 0x5bu8, 0x32u8, 0x30u8, last, 0x7eu8]);
}

/// The bytes a paste of `text` sends, or `None` when there is nothing to send.
pub fn paste_bytes(text: &str, bracketed: bool) -> (r: Option<Vec<u8>>)
    ensures
        match r {
            Some(b) => paste_spec(text@, bracketed) == Some(b@),
            None => paste_spec(text@, bracketed) is None,
        },
{
    if text.is_empty() {
        return None;
    }
    let raw = bytes_of(text);
    let ghost body = raw@.map_values(|b: u8| wire_byte(b));
    let mut out: Vec<u8> = Vec::new();
    if bracketed {
        push_marker(&mut out, 0x30);
    }
    let ghost start = out@;
    let mut i: usize = 0;
    while i < raw.len()
        invariant
            i <= raw@.len(),
            body == raw@.map_values(|b: u8| wire_byte(b)),
            out@ == start + body.take(i as int),
        decreases raw@.len() - i,
    {
        let b = raw[i];
        out.push(if b == 10 {
            13
        } else {
            b
        });
        proof {
            assert(body.take(i + 1) =~= body.take(i as int).push(body[i as int]));
        }
        i = i + 1;
    }
    proof {
        assert(body.take(raw@.len() as int) =~= body);
    }
    if bracketed {
        push_marker(&mut out, 0x31);
        proof {
            assert(start =~= paste_open());
        }
    } else {
        assert(start =~= Seq::<u8>::empty());
        assert(out@ =~= body);
    }
    Some(out)
}

/// What a keypress asks of the panel.
pub enum KeyAction {
    /// Nothing: the panel is not listening, or the key means nothing here.
    Nothing,
    /// Move to the next tab (`true`) or the previous one.
    Cycle(bool),
    /// Copy the selection.
    Copy,
    /// Paste the clipboard.
    Paste,
    /// Open a tab.
    Open,
    /// Close the active tab.
    CloseActive,
    /// Ask for a new shell in a tab whose shell has exited.
    Restart,
    /// Write these bytes to the active shell.
    Send(Vec<u8>),
}

/// [`KeyAction`] with its bytes as a sequence.
pub enum Intent {
    Nothing,
    Cycle(bool),
    Copy,
    Paste,
    Open,
    CloseActive,
    Restart,
    Send(Seq<u8>),
}

pub open spec fn intent_of(a: KeyAction) -> Intent {
    match a {
        KeyAction::Nothing => Intent::Nothing,
        KeyAction::Cycle(f) => Intent::Cycle(f),
        KeyAction::Copy => Intent::Copy,
        KeyAction::Paste => Intent::Paste,
        KeyAction::Open => Intent::Open,
        KeyAction::CloseActive => Intent::CloseActive,
        KeyAction::Restart => Intent::Restart,
        KeyAction::Send(b) => Intent::Send(b@),
    }
}

/// The key's text is the one letter `lower`, in either case.
pub open spec fn is_letter(s: Seq<char>, lower: char) -> bool {
    s.len() == 1 && (s[0] == lower || s[0] as u32 + 32 == lower as u32)
}

pub open spec fn ctrl_shift_letter(ev: KeyEvent, m: Mods, lower: char) -> bool {
    m.ctrl && m.shift && (ev.logical_key matches Key::Character(c) && is_letter(c@, lower))
}

/// What a keypress means.
///
/// Nothing unless the panel has focus, no tab is being renamed and the key
/// went down. `Ctrl+Shift` is the terminal's own modifier: with Tab it moves
/// back a tab, with C, V, T and W it copies, pastes, opens and closes. Plain
/// `Ctrl+Tab` moves forward. A tab whose shell has exited listens only for
/// Enter, which asks for a new one. Anything else is encoded for the shell.
pub open spec fn key_intent(
    focused: bool,
    renaming: bool,
    pressed: bool,
    ev: KeyEvent,
    m: Mods,
    running: bool,
    app_cursor: bool,
) -> Intent {
    if !focused || renaming || !pressed {
        Intent::Nothing
    } else if m.ctrl && m.shift && ev.logical_key is Tab {
        Intent::Cycle(false)
    } else if ctrl_shift_letter(ev, m, 'c') {
        Intent::Copy
    } else if ctrl_shift_letter(ev, m, 'v') {
        Intent::Paste
    } else if ctrl_shift_letter(ev, m, 't') {
        Intent::Open
    } else if ctrl_shift_letter(ev, m, 'w') {
        Intent::CloseActive
    } else if m.ctrl && !m.shift && ev.logical_key is Tab {
        Intent::Cycle(true)
    } else if !running {
        if ev.logical_key is Enter {
            Intent::Restart
        } else {
            Intent::Nothing
        }
    } else {
        match spec_encode(ev, m, app_cursor) {
            Some(b) => Intent::Send(b),
            None => Intent::Nothing,
        }
    }
}

fn letter_of(s: &String, lower: char) -> (r: bool)
    requires
        97 <= lower as u32 <= 122,
    ensures
        r == is_letter(s@, lower),
{
    let v = chars_of(s.as_str());
    if v.len() != 1 {
        return false;
    }
    let c = v[0];
    c == lower || (c as u32) == (lower as u32) - 32
}

/// What a keypress asks of the panel: see [`key_intent`]. `running` is
/// whether the active tab has a live shell, `app_cursor` whether that shell
/// asked for application cursor keys.
pub fn key_action(
    focused: bool,
    renaming: bool,
    pressed: bool,
    ev: &KeyEvent,
    m: Mods,
    running: bool,
    app_cursor: bool,
) -> (a: KeyAction)
    ensures
        intent_of(a) == key_intent(focused, renaming, pressed, *ev, m, running, app_cursor),
{
    if !focused || renaming || !pressed {
        return KeyAction::Nothing;
    }
    if m.ctrl && m.shift {
        match &ev.logical_key {
            Key::Tab => {
                return KeyAction::Cycle(false);
            },
            Key::Character(c) => {
                if letter_of(c, 'c') {
                    return KeyAction::Copy;
                }
                if letter_of(c, 'v') {
                    return KeyAction::Paste;
                }
                if letter_of(c, 't') {
                    return KeyAction::Open;
                }
                if letter_of(c, 'w') {
                    return KeyAction::CloseActive;
                }
            },
            _ => {},
        }
    }
    let is_tab = match &ev.logical_key {
        Key::Tab => true,
        _ => false,
    };
    if m.ctrl && !m.shift && is_tab {
        return KeyAction::Cycle(true);
    }
    if !running {
        return match &ev.logical_key {
            Key::Enter => KeyAction::Restart,
            _ => KeyAction::Nothing,
        };
    }
    match encode(ev, m, app_cursor) {
        Some(b) => KeyAction::Send(b),
        None => KeyAction::Nothing,
    }
}

/// How much unread shell output is kept when the reader gets ahead of the
/// panel: a runaway program can write megabytes between two frames, and the
/// reader cannot push back without blocking the program.
pub const MAX_PENDING: usize = 4 * 1024 * 1024;

/// What is kept of `old` once `chunk` arrives: all of it while it fits in
/// `max` bytes, and otherwise its last `max` bytes, the oldest being dropped.
pub open spec fn capped(old: Seq<u8>, chunk: Seq<u8>, max: int) -> Seq<u8> {
    let all = old + chunk;
    if all.len() > max {
        all.skip(all.len() - max)
    } else {
        all
    }
}

/// Append a chunk of shell output to what is waiting, dropping the oldest
/// bytes past `max`: the tail is what a terminal shows anyway.
pub fn append_capped(pending: &mut Vec<u8>, chunk: &[u8], max: usize)
    requires
        old(pending)@.len() + chunk@.len() <= usize::MAX,
    ensures
        final(pending)@ == capped(old(pending)@, chunk@, max as int),
{
    let mut i: usize = 0;
    while i < chunk.len()
        invariant
            i <= chunk@.len(),
            pending@ == old(pending)@ + chunk@.take(i as int),
        decreases chunk@.len() - i,
    {
        pending.push(chunk[i]);
        i = i + 1;
        proof {
            assert(old(pending)@ + chunk@.take(i as int) =~= (old(pending)@ + chunk@.take(i - 1)).push(
                chunk@[i - 1],
            ));
        }
    }
    proof {
        assert(chunk@.take(chunk@.len() as int) =~= chunk@);
    }
    let n = pending.len();
    if n > max {
        let excess = n - max;
        let mut kept: Vec<u8> = Vec::new();
        let mut k: usize = excess;
        while k < n
            invariant
                excess <= k <= n,
                n == pending@.len(),
                kept@ == pending@.subrange(excess as int, k as int),
            decreases n - k,
        {
            kept.push(pending[k]);
            k = k + 1;
            proof {
                assert(kept@ =~= pending@.subrange(excess as int, k as int));
            }
        }
        proof {
            assert(pending@.subrange(excess as int, n as int) =~= pending@.skip(excess as int));
        }
        *pending = kept;
    }
}

/// What waits for the panel never outgrows the cap, and is always the newest
/// bytes received: the end of everything the shell wrote, as much of it as
/// fits.
pub proof fn law_capped_keeps_the_tail(old: Seq<u8>, chunk: Seq<u8>, max: int)
    requires
        0 <= max,
    ensures
        capped(old, chunk, max).len() == if old.len() + chunk.len() <= max {
            (old.len() + chunk.len()) as int
        } else {
            max
        },
        forall|i: int|
            0 <= i < capped(old, chunk, max).len() ==> #[trigger] capped(old, chunk, max)[i] == (old
                + chunk)[old.len() + chunk.len() - capped(old, chunk, max).len() + i],
{
}

} // verus!
