use renzora_plugins::terminal::panel::{basename, row_selection};
use renzora_plugins::terminal::state::{StripSide, Tab, Terminal, MIN_COLS, MIN_ROWS};

fn ids(t: &Terminal) -> Vec<u32> {
    t.tabs().iter().map(|t| t.id).collect()
}

#[test]
fn the_panel_starts_with_one_tab() {
    let t = Terminal::new();
    assert_eq!(ids(&t), [1]);
    assert_eq!(t.active_id(), 1);
    assert_eq!(t.tabs()[0].title, "Shell 1");
    assert!(t.tabs()[0].wanted);
    assert_eq!((t.rows, t.cols), (24, 80));
    assert!(t.dirty);
    assert_eq!(t.side, StripSide::Top);
    assert_eq!(t.active().unwrap().id, 1);
    assert!(MIN_ROWS >= 2 && MIN_COLS >= 2);
}

#[test]
fn opening_switches_to_the_new_tab() {
    let mut t = Terminal::new();
    let v = t.strip_version;
    assert_eq!(t.open(), 2);
    assert_eq!(t.open(), 3);
    assert_eq!(ids(&t), [1, 2, 3]);
    assert_eq!(t.active_id(), 3);
    assert_eq!(t.strip_version, v + 2);
    assert_eq!(t.tabs()[2].title, "Shell 3");
}

#[test]
fn closing_the_active_tab_moves_left() {
    let mut t = Terminal::new();
    t.open();
    t.open();
    t.activate(2);
    t.close(2);
    assert_eq!(ids(&t), [1, 3]);
    assert_eq!(t.active_id(), 1, "the neighbour to the left");
    t.activate(1);
    t.close(1);
    assert_eq!(t.active_id(), 3, "the new first tab when there is no left");
}

#[test]
fn closing_an_unknown_tab_changes_nothing() {
    let mut t = Terminal::new();
    let v = t.strip_version;
    t.close(42);
    assert_eq!(ids(&t), [1]);
    assert_eq!(t.strip_version, v);
}

#[test]
fn closing_the_last_tab_opens_a_fresh_one() {
    let mut t = Terminal::new();
    t.set_renaming(Some(1));
    t.close(1);
    assert_eq!(ids(&t), [2], "ids are never reused");
    assert_eq!(t.active_id(), 2);
    assert_eq!(t.renaming, None);
    assert_eq!(t.tabs()[0].title, "Shell 2");
}

#[test]
fn ids_are_never_reused() {
    let mut t = Terminal::new();
    t.open();
    t.close(2);
    assert_eq!(t.open(), 3);
    assert!(t.tabs().iter().all(|tab| tab.id != 2));
}

#[test]
fn cycling_wraps_both_ways() {
    let mut t = Terminal::new();
    t.open();
    t.open();
    t.activate(1);
    t.cycle(false);
    assert_eq!(t.active_id(), 3);
    t.cycle(true);
    assert_eq!(t.active_id(), 1);
    t.cycle(true);
    t.cycle(false);
    assert_eq!(t.active_id(), 1, "forward then back is where it started");
    let mut one = Terminal::new();
    let v = one.strip_version;
    one.cycle(true);
    assert_eq!(one.active_id(), 1);
    assert_eq!(one.strip_version, v);
}

#[test]
fn activating_the_active_tab_is_no_change() {
    let mut t = Terminal::new();
    t.open();
    let v = t.strip_version;
    t.activate(2);
    assert_eq!(t.strip_version, v);
    t.activate(9);
    assert_eq!(t.active_id(), 2);
    t.activate(1);
    assert_eq!(t.active_id(), 1);
    assert_eq!(t.strip_version, v + 1);
}

#[test]
fn a_rename_is_trimmed_and_an_empty_one_cancels() {
    let mut t = Terminal::new();
    t.rename(1, "  build  ");
    assert_eq!(t.tabs()[0].title, "build");
    assert!(t.tabs()[0].renamed);
    let v = t.strip_version;
    t.rename(1, "   ");
    assert_eq!(t.tabs()[0].title, "build");
    assert_eq!(t.strip_version, v);
}

#[test]
fn close_others_keeps_one() {
    let mut t = Terminal::new();
    t.open();
    t.open();
    t.set_renaming(Some(3));
    t.close_others(2);
    assert_eq!(ids(&t), [2]);
    assert_eq!(t.active_id(), 2);
    assert_eq!(t.renaming, None);
}

#[test]
fn side_and_rename_changes_bump_the_strip() {
    let mut t = Terminal::new();
    let v = t.strip_version;
    t.set_side(StripSide::Top);
    assert_eq!(t.strip_version, v);
    t.set_side(StripSide::Right);
    assert_eq!(t.strip_version, v + 1);
    assert!(t.side.vertical());
    assert!(!StripSide::Top.vertical());
    t.set_renaming(Some(1));
    t.set_renaming(Some(1));
    assert_eq!(t.strip_version, v + 2);
}

#[test]
fn typing_returns_to_the_live_screen() {
    let mut t = Terminal::new();
    assert_eq!(t.send(), None, "no shell, nowhere to send");
    t.launched(1, Some("/bin/bash"));
    t.scrolled_to(40);
    t.dirty = false;
    assert_eq!(t.send(), Some(1));
    assert_eq!(t.tabs()[0].scrollback, 0);
    assert!(t.dirty);
}

#[test]
fn a_launched_shell_names_its_tab() {
    let mut t = Terminal::new();
    assert_eq!(t.pending(), [1]);
    let v = t.strip_version;
    t.launched(1, Some("C:\\Windows\\System32\\cmd.exe"));
    assert_eq!(t.strip_version, v, "the strip redraws once per round, not per shell");
    t.strip_changed();
    assert_eq!(t.strip_version, v + 1);
    assert_eq!(t.tabs()[0].title, "cmd 1");
    assert!(t.tabs()[0].running);
    assert!(t.pending().is_empty());
    t.exited(1);
    assert!(!t.tabs()[0].running);
    t.restart();
    assert_eq!(t.pending(), [1]);
    t.rename(1, "mine");
    t.launched(1, Some("/usr/bin/zsh"));
    assert_eq!(t.tabs()[0].title, "mine", "a typed name survives a restart");
}

#[test]
fn a_failed_launch_is_not_retried() {
    let mut t = Terminal::new();
    t.launched(1, None);
    assert!(!t.tabs()[0].wanted);
    assert!(!t.tabs()[0].running);
    assert_eq!(t.tabs()[0].title, "Shell 1");
}

#[test]
fn dragging_selects_and_a_click_clears() {
    let mut t = Terminal::new();
    t.select(true, true, true, Some((1, 2)));
    assert!(t.dragging);
    t.select(false, true, true, Some((3, 4)));
    assert_eq!(t.tabs()[0].selection(), Some(((1, 2), (3, 4))));
    t.select(false, false, true, Some((3, 4)));
    assert!(!t.dragging);
    assert!(t.tabs()[0].anchor.is_some());
    t.select(true, true, true, Some((0, 0)));
    t.select(false, false, true, Some((0, 0)));
    assert_eq!(t.tabs()[0].selection(), None, "a click that never moved selects nothing");
    t.select(true, true, true, Some((5, 5)));
    t.select(false, true, true, Some((2, 1)));
    assert_eq!(t.tabs()[0].selection(), Some(((2, 1), (5, 5))), "top-left first");
    t.clear_selection();
    assert_eq!(t.tabs()[0].selection(), None);
}

#[test]
fn scrolling_drops_the_selection() {
    let mut t = Terminal::new();
    t.select(true, true, true, Some((1, 1)));
    t.select(false, true, true, Some((2, 2)));
    t.scrolled_to(0);
    assert!(t.tabs()[0].anchor.is_some(), "no move, no change");
    t.scrolled_to(3);
    assert_eq!(t.tabs()[0].scrollback, 3);
    assert_eq!(t.tabs()[0].anchor, None);
}

#[test]
fn focus_changes_repaint() {
    let mut t = Terminal::new();
    t.dirty = false;
    t.set_focused(false);
    assert!(!t.dirty);
    t.set_focused(true);
    assert!(t.focused && t.dirty);
}

#[test]
fn a_fresh_tab_asks_for_a_shell() {
    let tab = Tab::new(7);
    assert_eq!(tab.title, "Shell 7");
    assert!(tab.wanted && !tab.running && !tab.renamed);
    assert_eq!(tab.selection(), None);
}

#[test]
fn selections_are_by_line() {
    // First row cut at the start column, middle rows edge to edge, last row up
    // to and including the end cell.
    assert_eq!(row_selection((1, 5), (3, 2), 0, 80), None);
    assert_eq!(row_selection((1, 5), (3, 2), 1, 80), Some((5, 80)));
    assert_eq!(row_selection((1, 5), (3, 2), 2, 80), Some((0, 80)));
    assert_eq!(row_selection((1, 5), (3, 2), 3, 80), Some((0, 3)));
    assert_eq!(row_selection((1, 5), (3, 2), 4, 80), None);
    assert_eq!(row_selection((0, 79), (0, 79), 0, 80), Some((79, 80)));
    assert_eq!(row_selection((0, 10), (0, 3), 0, 80), None);
}

#[test]
fn program_names_lose_their_directory() {
    assert_eq!(basename("/usr/bin/zsh"), "zsh");
    assert_eq!(basename("C:\\Windows\\System32\\WindowsPowerShell\\v1.0\\powershell.exe"), "powershell");
    assert_eq!(basename("bash"), "bash");
    assert_eq!(basename("tool.exe.exe"), "tool");
    assert_eq!(basename("dir/"), "");
}
