use renzora_plugins::terminal::keys::{control, cursor_key, encode, func_key, tilde_key, Key, KeyEvent, Mods};
use renzora_plugins::terminal::panel::{append_capped, cursor_overlay, key_action, paste_bytes, KeyAction};
use renzora_plugins::terminal::reply::{report, Replies};

const NONE: Mods = Mods { ctrl: false, alt: false, shift: false };

fn ev(key: Key, text: Option<&str>) -> KeyEvent {
    KeyEvent { logical_key: key, text: text.map(|t| t.to_string()) }
}

fn mods(ctrl: bool, alt: bool, shift: bool) -> Mods {
    Mods { ctrl, alt, shift }
}

#[test]
fn modifier_parameter_is_xterms() {
    assert_eq!(NONE.param(), 1);
    assert_eq!(mods(false, false, true).param(), 2);
    assert_eq!(mods(false, true, false).param(), 3);
    assert_eq!(mods(true, false, false).param(), 5);
    assert_eq!(mods(true, true, true).param(), 8);
    assert!(!NONE.any());
    assert!(mods(false, true, false).any());
}

#[test]
fn arrows_follow_the_cursor_mode() {
    assert_eq!(cursor_key(b'A', NONE, false), b"\x1b[A");
    assert_eq!(cursor_key(b'A', NONE, true), b"\x1bOA");
    assert_eq!(cursor_key(b'C', mods(true, false, false), true), b"\x1b[1;5C");
}

#[test]
fn a_modified_cursor_key_writes_its_letter_as_a_character() {
    // 0xC9 is 'É', two bytes in UTF-8; unmodified forms send the byte as is.
    assert_eq!(cursor_key(0xC9, mods(true, false, false), false), b"\x1b[1;5\xC3\x89");
    assert_eq!(cursor_key(0xC9, NONE, false), b"\x1b[\xC9");
    assert_eq!(cursor_key(0xC9, NONE, true), b"\x1bO\xC9");
}

#[test]
fn alt_prefixes_control_characters_too() {
    let ctrl = mods(true, false, false);
    let ctrl_alt = mods(true, true, false);
    assert_eq!(encode(&ev(Key::Character("c".to_string()), Some("c")), ctrl, false), Some(vec![3]));
    assert_eq!(encode(&ev(Key::Character("c".to_string()), Some("c")), ctrl_alt, false), Some(vec![0x1b, 3]));
    assert_eq!(encode(&ev(Key::Space, Some(" ")), ctrl_alt, false), Some(vec![0x1b, 0]));
    assert_eq!(encode(&ev(Key::Character("5".to_string()), Some("5")), ctrl_alt, false), None);
}

#[test]
fn tilde_and_function_keys() {
    assert_eq!(tilde_key(3, NONE), b"\x1b[3~");
    assert_eq!(tilde_key(15, mods(false, false, true)), b"\x1b[15;2~");
    assert_eq!(func_key(b'P', 11, NONE), b"\x1bOP");
    assert_eq!(func_key(b'P', 11, mods(true, false, false)), b"\x1b[11;5~");
}

#[test]
fn control_clears_bit_six() {
    assert_eq!(control("c"), Some(vec![3]));
    assert_eq!(control("C"), Some(vec![3]));
    assert_eq!(control("@"), Some(vec![0]));
    assert_eq!(control("["), Some(vec![0x1b]));
    assert_eq!(control("?"), Some(vec![0x7f]));
    assert_eq!(control("1"), None);
    assert_eq!(control(""), None);
}

#[test]
fn named_keys_encode() {
    assert_eq!(encode(&ev(Key::Enter, None), NONE, false), Some(vec![13]));
    assert_eq!(encode(&ev(Key::Backspace, None), NONE, false), Some(vec![0x7f]));
    assert_eq!(encode(&ev(Key::Tab, None), NONE, false), Some(vec![9]));
    assert_eq!(encode(&ev(Key::Tab, None), mods(false, false, true), false), Some(b"\x1b[Z".to_vec()));
    assert_eq!(encode(&ev(Key::Escape, None), mods(false, true, false), false), Some(vec![0x1b, 0x1b]));
    assert_eq!(encode(&ev(Key::ArrowUp, None), NONE, false), Some(b"\x1b[A".to_vec()));
    assert_eq!(encode(&ev(Key::Home, None), NONE, true), Some(b"\x1bOH".to_vec()));
    assert_eq!(encode(&ev(Key::PageDown, None), NONE, false), Some(b"\x1b[6~".to_vec()));
    assert_eq!(encode(&ev(Key::F1, None), NONE, false), Some(b"\x1bOP".to_vec()));
    assert_eq!(encode(&ev(Key::F5, None), NONE, false), Some(b"\x1b[15~".to_vec()));
    assert_eq!(encode(&ev(Key::F12, None), NONE, false), Some(b"\x1b[24~".to_vec()));
    assert_eq!(encode(&ev(Key::Other, None), NONE, false), None);
}

#[test]
fn text_is_sent_as_utf8() {
    assert_eq!(encode(&ev(Key::Character("é".into()), Some("é")), NONE, false), Some("é".as_bytes().to_vec()));
    assert_eq!(encode(&ev(Key::Character("a".into()), Some("a")), mods(false, true, false), false), Some(b"\x1ba".to_vec()));
    assert_eq!(encode(&ev(Key::Character("a".into()), Some("")), NONE, false), None);
    assert_eq!(encode(&ev(Key::Space, Some(" ")), NONE, false), Some(vec![32]));
    assert_eq!(encode(&ev(Key::Space, Some(" ")), mods(true, false, false), false), Some(vec![0]));
    assert_eq!(encode(&ev(Key::Character("c".into()), Some("c")), mods(true, false, false), false), Some(vec![3]));
    assert_eq!(encode(&ev(Key::Character("1".into()), Some("1")), mods(true, false, false), false), None);
}

#[test]
fn ctrl_shift_is_the_terminals_own_modifier() {
    let cs = mods(true, false, true);
    let c = ev(Key::Character("C".into()), Some("C"));
    assert!(matches!(key_action(true, false, true, &c, cs, true, false), KeyAction::Copy));
    let v = ev(Key::Character("v".into()), Some("v"));
    assert!(matches!(key_action(true, false, true, &v, cs, true, false), KeyAction::Paste));
    let t = ev(Key::Character("T".into()), Some("T"));
    assert!(matches!(key_action(true, false, true, &t, cs, true, false), KeyAction::Open));
    let w = ev(Key::Character("w".into()), Some("w"));
    assert!(matches!(key_action(true, false, true, &w, cs, true, false), KeyAction::CloseActive));
    let tab = ev(Key::Tab, None);
    assert!(matches!(key_action(true, false, true, &tab, cs, true, false), KeyAction::Cycle(false)));
    assert!(matches!(
        key_action(true, false, true, &tab, mods(true, false, false), true, false),
        KeyAction::Cycle(true)
    ));
    // Plain Ctrl+C belongs to the program: it is sent as ETX.
    let c = ev(Key::Character("c".into()), Some("c"));
    assert!(matches!(
        key_action(true, false, true, &c, mods(true, false, false), true, false),
        KeyAction::Send(b) if b == vec![3]
    ));
}

#[test]
fn keys_go_nowhere_without_focus_or_during_a_rename() {
    let a = ev(Key::Character("a".into()), Some("a"));
    assert!(matches!(key_action(false, false, true, &a, NONE, true, false), KeyAction::Nothing));
    assert!(matches!(key_action(true, true, true, &a, NONE, true, false), KeyAction::Nothing));
    assert!(matches!(key_action(true, false, false, &a, NONE, true, false), KeyAction::Nothing));
    assert!(matches!(key_action(true, false, true, &a, NONE, true, false), KeyAction::Send(b) if b == b"a".to_vec()));
}

#[test]
fn an_exited_shell_only_hears_enter() {
    let enter = ev(Key::Enter, None);
    assert!(matches!(key_action(true, false, true, &enter, NONE, false, false), KeyAction::Restart));
    let a = ev(Key::Character("a".into()), Some("a"));
    assert!(matches!(key_action(true, false, true, &a, NONE, false, false), KeyAction::Nothing));
}

#[test]
fn a_paste_sends_carriage_returns() {
    assert_eq!(paste_bytes("", true), None);
    assert_eq!(paste_bytes("ls\nwhoami\n", false), Some(b"ls\rwhoami\r".to_vec()));
    assert_eq!(paste_bytes("x\n", true), Some(b"\x1b[200~x\r\x1b[201~".to_vec()));
}

#[test]
fn cursor_reports_are_one_based() {
    assert_eq!(report(0, 0, false), "\x1b[1;1R");
    assert_eq!(report(4, 9, true), "\x1b[?5;10;1R");
}

#[test]
fn status_queries_are_answered() {
    let mut r = Replies::default();
    assert!(r.take().is_empty());
    r.answer(None, Some(5), 'n', (0, 0));
    assert_eq!(r.take(), b"\x1b[0n");
    r.answer(None, Some(6), 'n', (2, 3));
    r.answer(Some(b'?'), Some(6), 'n', (2, 3));
    assert_eq!(r.take(), b"\x1b[3;4R\x1b[?3;4;1R");
    assert!(r.take().is_empty(), "taking empties the queue");
    // Device attributes, and anything else, go unanswered.
    r.answer(None, Some(0), 'c', (0, 0));
    r.answer(None, Some(7), 'n', (0, 0));
    assert!(r.take().is_empty());
}

#[test]
fn unread_output_keeps_its_newest_bytes() {
    let mut pending = b"abc".to_vec();
    append_capped(&mut pending, b"de", 8);
    assert_eq!(pending, b"abcde");
    append_capped(&mut pending, b"fghij", 8);
    assert_eq!(pending, b"cdefghij", "the oldest bytes go first");
    append_capped(&mut pending, b"0123456789", 4);
    assert_eq!(pending, b"6789");
}

#[test]
fn the_cursor_shows_only_on_the_live_screen() {
    assert_eq!(cursor_overlay(false, 0, (3, 7), 3), Some(7));
    assert_eq!(cursor_overlay(false, 0, (3, 7), 4), None);
    assert_eq!(cursor_overlay(true, 0, (3, 7), 3), None, "hidden by the program");
    assert_eq!(cursor_overlay(false, 2, (3, 7), 3), None, "scrolled back");
}
