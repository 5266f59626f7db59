//! The panel's state: a list of shells, and which one is on screen.
//!
//! One [`Tab`] is one shell. The shell process and its emulator belong to the
//! application, keyed by the tab's id; what is kept here is what the strip and
//! the input systems decide on.
//!
//! Tabs are addressed by id, never by index: a click on a close button is read
//! on a later frame than the one that built it, and closing another tab in
//! between shifts every index after it. An id is a serial that is never
//! reused, so at worst it names a tab that is already gone.

use vstd::prelude::*;

use crate::terminal::panel::{basename, last_component, strip_exe};
use crate::text::{
    ascii_chars, chars_of, decimal, decimal_bytes, lemma_decimal_ascii, push_char, push_str,
    string_from, string_from_ascii, trim, trim_chars,
};

verus! {

/// Floor on the row count: a one-row vt100 grid underflows its scroll region
/// on the first wrapped line.
pub const MIN_ROWS: u16 = 2;

/// Floor on the column count, for the same hazard on the other axis.
pub const MIN_COLS: u16 = 2;

/// One shell's tab.
pub struct Tab {
    /// Never reused, so a click read a frame late cannot land on the wrong tab.
    pub id: u32,
    /// What the strip shows.
    pub title: String,
    /// True once the user has renamed this tab by hand.
    pub renamed: bool,
    /// Whether a shell is running for this tab. `false` before the first
    /// launch, and again once the shell exits.
    pub running: bool,
    /// Rows scrolled up from the live bottom. `0` is the live screen.
    pub scrollback: usize,
    /// How far back this tab's history goes.
    pub history: usize,
    /// Where a drag-selection started and where it is now, in visible cells.
    pub anchor: Option<(u16, u16)>,
    pub head: Option<(u16, u16)>,
    /// Set when a shell has been asked for and not yet started.
    pub wanted: bool,
}

/// The title a tab starts with: `Shell <id>`.
pub open spec fn shell_title(id: u32) -> Seq<char> {
    "Shell "@ + ascii_chars(decimal(id as nat))
}

/// `t` is a tab just opened with `id`: titled after it, asking for a shell.
pub open spec fn is_fresh(t: Tab, id: u32) -> bool {
    &&& t.id == id
    &&& t.title@ == shell_title(id)
    &&& !t.renamed
    &&& !t.running
    &&& t.scrollback == 0
    &&& t.history == 0
    &&& t.anchor is None
    &&& t.head is None
    &&& t.wanted
}

/// A cell position comes no later than another: by row, then by column.
pub open spec fn cell_le(a: (u16, u16), b: (u16, u16)) -> bool {
    a.0 < b.0 || (a.0 == b.0 && a.1 <= b.1)
}

impl Tab {
    /// A tab for a shell not yet started. Until it launches the strip shows
    /// "Shell <id>", which is true of whatever starts.
    pub fn new(id: u32) -> (t: Tab)
        ensures
            is_fresh(t, id),
    {
        let mut title = String::new();
        push_str(&mut title, "Shell ");
        let digits = decimal_bytes(id as u64);
        proof {
            lemma_decimal_ascii(id as nat);
        }
        let d = string_from_ascii(digits.as_slice());
        push_str(&mut title, d.as_str());
        Tab {
            id,
            title,
            renamed: false,
            running: false,
            scrollback: 0,
            history: 0,
            anchor: None,
            head: None,
            wanted: true,
        }
    }

    /// The selection as `(start, end)` cell positions, top-left first.
    pub fn selection(&self) -> (s: Option<((u16, u16), (u16, u16))>)
        ensures
            s == match (self.anchor, self.head) {
                (Some(a), Some(b)) => if cell_le(a, b) {
                    Some((a, b))
                } else {
                    Some((b, a))
                },
                _ => None,
            },
    {
        match (self.anchor, self.head) {
            (Some(a), Some(b)) => {
                if a.0 < b.0 || (a.0 == b.0 && a.1 <= b.1) {
                    Some((a, b))
                } else {
                    Some((b, a))
                }
            },
            _ => None,
        }
    }
}

/// Where the tab strip sits.
#[derive(Clone, Copy, PartialEq, Eq, Debug, Default, Structural)]
pub enum StripSide {
    #[default]
    Top,
    Right,
}

impl StripSide {
    /// Whether chips are stacked down a column rather than laid across a row.
    pub fn vertical(self) -> (r: bool)
        ensures
            r == (self == StripSide::Right),
    {
        self == StripSide::Right
    }
}

/// The version counter after one more change; it wraps rather than stops.
pub open spec fn bump(v: u32) -> u32 {
    if v == u32::MAX {
        0
    } else {
        (v + 1) as u32
    }
}

/// The version counter after `n` more changes.
pub open spec fn bump_by(v: u32, n: nat) -> u32
    decreases n,
{
    if n == 0 {
        v
    } else {
        bump(bump_by(v, (n - 1) as nat))
    }
}

fn bump_exec(v: u32) -> (r: u32)
    ensures
        r == bump(v),
{
    if v == u32::MAX {
        0
    } else {
        v + 1
    }
}

/// Some tab in `tabs` has `id`.
pub open spec fn has_tab(tabs: Seq<Tab>, id: u32) -> bool {
    exists|k: int| 0 <= k < tabs.len() && tabs[k].id == id
}

/// The position of the tab with `id` (ids are distinct).
pub open spec fn pos_of(tabs: Seq<Tab>, id: u32) -> int {
    choose|k: int| 0 <= k < tabs.len() && tabs[k].id == id
}

/// Ids strictly increase along the list, so no two tabs share one.
pub open spec fn ids_increasing(tabs: Seq<Tab>) -> bool {
    forall|j: int, k: int| 0 <= j < k < tabs.len() ==> tabs[j].id < tabs[k].id
}

/// The neighbour that becomes active when the tab at `k` is closed: the one to
/// its left, or the new first tab.
pub open spec fn left_neighbour(k: int, len_after: int) -> int {
    let left = if k > 0 { k - 1 } else { 0 };
    if left < len_after - 1 {
        left
    } else {
        len_after - 1
    }
}

/// The position after `k` when cycling through `len` tabs, wrapping.
pub open spec fn cycled(k: int, len: int, forward: bool) -> int {
    if forward {
        if k + 1 == len {
            0
        } else {
            k + 1
        }
    } else {
        if k == 0 {
            len - 1
        } else {
            k - 1
        }
    }
}

/// Ids of the tabs that asked for a shell and have none, in order.
pub open spec fn pending_ids(tabs: Seq<Tab>) -> Seq<u32>
    decreases tabs.len(),
{
    if tabs.len() == 0 {
        Seq::empty()
    } else {
        let rest = pending_ids(tabs.drop_last());
        let t = tabs.last();
        if t.wanted && !t.running {
            rest.push(t.id)
        } else {
            rest
        }
    }
}

/// A started tab's name: the program's basename and the tab's id.
pub open spec fn launched_title(program: Seq<char>, id: u32) -> Seq<char> {
    strip_exe(last_component(program)) + seq![' '] + ascii_chars(decimal(id as nat))
}

/// Every shell the panel is running, and the one it is drawing.
///
/// The tab list, the active id and the next id are public so that contracts
/// can name them; [`Terminal::wf`] is what the methods keep true of them.
pub struct Terminal {
    /// The tabs, in strip order.
    pub tabs: Vec<Tab>,
    /// The id of the tab on screen.
    pub active: u32,
    /// The id the next tab will get.
    pub next_id: u32,
    /// Bumped whenever the tab list, the active tab, the strip's side or the
    /// rename in progress changes, so the strip rebuilds only on a change.
    pub strip_version: u32,
    /// Which edge the strip is on.
    pub side: StripSide,
    /// The tab whose name is being edited, if any.
    pub renaming: Option<u32>,
    /// Whether the chips no longer fit the strip.
    pub overflowing: bool,
    /// Whether keystrokes go to the shell.
    pub focused: bool,
    pub rows: u16,
    pub cols: u16,
    pub dragging: bool,
    /// True while the scrollbar thumb is being dragged.
    pub scroll_dragging: bool,
    /// Something changed that the drawn rows do not reflect yet.
    pub dirty: bool,
}

impl Terminal {
    /// The tabs, in strip order.
    pub open spec fn tab_list(&self) -> Seq<Tab> {
        self.tabs@
    }

    /// The id of the tab on screen.
    pub open spec fn active_tab(&self) -> u32 {
        self.active
    }

    /// The id the next tab will get.
    pub open spec fn next_tab_id(&self) -> u32 {
        self.next_id
    }

    /// The panel is never tabless, the active id names a tab, ids strictly
    /// increase along the list, and every id is below the next one to hand out.
    pub open spec fn wf(&self) -> bool {
        &&& self.tab_list().len() > 0
        &&& has_tab(self.tab_list(), self.active_tab())
        &&& ids_increasing(self.tab_list())
        &&& forall|k: int| 0 <= k < self.tab_list().len() ==> #[trigger] self.tab_list()[k].id < self.next_tab_id()
    }

    /// The fields that describe the strip and the grid, other than the tabs,
    /// the version and the rename in progress, are those of `other`.
    pub open spec fn same_settings(&self, other: &Terminal) -> bool {
        &&& self.side == other.side
        &&& self.overflowing == other.overflowing
        &&& self.focused == other.focused
        &&& self.rows == other.rows
        &&& self.cols == other.cols
        &&& self.dragging == other.dragging
        &&& self.scroll_dragging == other.scroll_dragging
    }

    /// A panel with one tab, seeded at 80x24 until the first resize.
    pub fn new() -> (t: Terminal)
        ensures
            t.wf(),
            t.tab_list().len() == 1,
            is_fresh(t.tab_list()[0], 1),
            t.active_tab() == 1,
            t.next_tab_id() == 2,
            t.strip_version == 0,
            t.side == StripSide::Top,
            t.renaming is None,
            !t.overflowing,
            !t.focused,
            t.rows == 24,
            t.cols == 80,
            !t.dragging,
            !t.scroll_dragging,
            t.dirty,
    {
        let mut tabs: Vec<Tab> = Vec::new();
        tabs.push(Tab::new(1));
        proof {
            assert(tabs@[0].id == 1);
        }
        Terminal {
            tabs,
            active: 1,
            next_id: 2,
            strip_version: 0,
            side: StripSide::Top,
            renaming: None,
            overflowing: false,
            focused: false,
            rows: 24,
            cols: 80,
            dragging: false,
            scroll_dragging: false,
            dirty: true,
        }
    }

    /// The tabs, in strip order.
    pub fn tabs(&self) -> (t: &[Tab])
        ensures
            t@ == self.tab_list(),
    {
        self.tabs.as_slice()
    }

    /// The id of the tab on screen.
    pub fn active_id(&self) -> (id: u32)
        ensures
            id == self.active_tab(),
    {
        self.active
    }

    /// Where the tab with `id` sits, or `None`.
    fn find(&self, id: u32) -> (k: Option<usize>)
        requires
            ids_increasing(self.tab_list()),
        ensures
            k matches Some(i) ==> i < self.tab_list().len() && self.tab_list()[i as int].id == id
                && pos_of(self.tab_list(), id) == i,
            k is None ==> !has_tab(self.tab_list(), id),
    {
        let mut i: usize = 0;
        while i < self.tabs.len()
            invariant
                i <= self.tabs@.len(),
                ids_increasing(self.tab_list()),
                forall|j: int| 0 <= j < i ==> self.tabs@[j].id != id,
            decreases self.tabs@.len() - i,
        {
            if self.tabs[i].id == id {
                proof {
                    assert(self.tabs@[i as int].id == id);
                    let p = pos_of(self.tab_list(), id);
                    assert(0 <= p < self.tabs@.len() && self.tabs@[p].id == id);
                    if p < i {
                    } else if p > i {
                        assert(self.tabs@[i as int].id < self.tabs@[p].id);
                    }
                }
                return Some(i);
            }
            i = i + 1;
        }
        None
    }

    /// The tab on screen.
    pub fn active(&self) -> (t: Option<&Tab>)
        requires
            self.wf(),
        ensures
            t matches Some(tab) && *tab == self.tab_list()[pos_of(self.tab_list(), self.active_tab())],
    {
        match self.find(self.active) {
            Some(k) => Some(&self.tabs[k]),
            None => None,
        }
    }

    /// Switch to the tab with `id`, if there is one.
    pub fn activate(&mut self, id: u32)
        ensures
            final(self).tab_list() == old(self).tab_list(),
            final(self).next_tab_id() == old(self).next_tab_id(),
            final(self).renaming == old(self).renaming,
            final(self).same_settings(old(self)),
            if has_tab(old(self).tab_list(), id) && old(self).active_tab() != id {
                &&& final(self).active_tab() == id
                &&& final(self).strip_version == bump(old(self).strip_version)
                &&& final(self).dirty
            } else {
                &&& final(self).active_tab() == old(self).active_tab()
                &&& final(self).strip_version == old(self).strip_version
                &&& final(self).dirty == old(self).dirty
            },
    {
        let mut exists = false;
        let mut i: usize = 0;
        while i < self.tabs.len()
            invariant
                i <= self.tabs@.len(),
                exists == (exists|j: int| 0 <= j < i && self.tabs@[j].id == id),
            decreases self.tabs@.len() - i,
        {
            if self.tabs[i].id == id {
                exists = true;
            }
            i = i + 1;
        }
        if self.active == id && exists {
            return;
        }
        if exists {
            self.active = id;
            self.strip_version = bump_exec(self.strip_version);
            self.dirty = true;
        }
    }

    /// Open a new tab and switch to it. Returns its id.
    pub fn open(&mut self) -> (id: u32)
        requires
            old(self).wf(),
            old(self).next_tab_id() < u32::MAX,
        ensures
            final(self).wf(),
            id == old(self).next_tab_id(),
            final(self).next_tab_id() == id + 1,
            final(self).tab_list().len() == old(self).tab_list().len() + 1,
            final(self).tab_list().drop_last() == old(self).tab_list(),
            is_fresh(final(self).tab_list().last(), id),
            final(self).active_tab() == id,
            final(self).strip_version == bump(old(self).strip_version),
            final(self).dirty,
            final(self).renaming == old(self).renaming,
            final(self).same_settings(old(self)),
    {
        let id = self.next_id;
        self.next_id = self.next_id + 1;
        self.tabs.push(Tab::new(id));
        proof {
            assert(self.tabs@.drop_last() =~= old(self).tabs@);
            assert(self.tabs@.last().id == id);
            assert(has_tab(self.tab_list(), id));
            assert(old(self).active != id) by {
                let k = choose|k: int| 0 <= k < old(self).tabs@.len() && old(self).tabs@[k].id == old(self).active;
                assert(old(self).tabs@[k].id < old(self).next_id);
            }
        }
        self.activate(id);
        id
    }

    /// Close a tab, killing its shell.
    ///
    /// Closing the last one opens a fresh tab in its place: a terminal panel
    /// showing no terminal is a dead panel. When the active tab closes, its
    /// left neighbour (or the new first tab) becomes active.
    pub fn close(&mut self, id: u32)
        requires
            old(self).wf(),
            old(self).tab_list().len() == 1 && has_tab(old(self).tab_list(), id) ==> old(
                self,
            ).next_tab_id() < u32::MAX,
        ensures
            final(self).wf(),
            final(self).same_settings(old(self)),
            !has_tab(final(self).tab_list(), id),
            has_tab(old(self).tab_list(), id) ==> final(self).renaming != Some(id),
            !has_tab(old(self).tab_list(), id) ==> *final(self) == *old(self),
            has_tab(old(self).tab_list(), id) ==> {
                let k = pos_of(old(self).tab_list(), id);
                let rest = old(self).tab_list().remove(k);
                &&& final(self).renaming == if old(self).renaming == Some(id) {
                    None
                } else {
                    old(self).renaming
                }
                &&& final(self).dirty
                &&& if rest.len() == 0 {
                    &&& final(self).tab_list().len() == 1
                    &&& is_fresh(final(self).tab_list()[0], old(self).next_tab_id())
                    &&& final(self).active_tab() == old(self).next_tab_id()
                    &&& final(self).next_tab_id() == old(self).next_tab_id() + 1
                    &&& final(self).strip_version == bump(old(self).strip_version)
                } else {
                    &&& final(self).tab_list() == rest
                    &&& final(self).next_tab_id() == old(self).next_tab_id()
                    &&& final(self).active_tab() == if old(self).active_tab() == id {
                        rest[left_neighbour(k, rest.len() as int)].id
                    } else {
                        old(self).active_tab()
                    }
                    &&& final(self).strip_version == bump(old(self).strip_version)
                }
            },
    {
        let index = match self.find(id) {
            Some(k) => k,
            None => return,
        };
        let ghost before = self.tabs@;
        self.tabs.remove(index);
        if self.renaming == Some(id) {
            self.renaming = None;
        }
        if self.tabs.len() == 0 {
            let ghost mid = *self;
            proof {
                assert(self.tabs@.len() == 0);
            }
            // Not well-formed for this one step: the panel has no tab until
            // the fresh one is pushed.
            let fresh = self.next_id;
            self.next_id = self.next_id + 1;
            self.tabs.push(Tab::new(fresh));
            self.active = fresh;
            self.strip_version = bump_exec(self.strip_version);
            self.dirty = true;
            proof {
                assert(self.tabs@[0].id == fresh);
                assert(has_tab(self.tab_list(), fresh));
            }
            return;
        }
        if self.active == id {
            let left = if index > 0 {
                index - 1
            } else {
                0
            };
            let pick = if left < self.tabs.len() - 1 {
                left
            } else {
                self.tabs.len() - 1
            };
            self.active = self.tabs[pick].id;
            proof {
                assert(has_tab(self.tab_list(), self.active));
            }
        } else {
            proof {
                let k = choose|k: int| 0 <= k < before.len() && before[k].id == self.active;
                if k < index {
                    assert(self.tabs@[k] == before[k]);
                } else {
                    assert(k != index);
                    assert(self.tabs@[k - 1] == before[k]);
                }
            }
        }
        self.strip_version = bump_exec(self.strip_version);
        self.dirty = true;
        proof {
            assert forall|j: int, k: int| 0 <= j < k < self.tabs@.len() implies self.tabs@[j].id
                < self.tabs@[k].id by {
                let bj = if j < index { j } else { j + 1 };
                let bk = if k < index { k } else { k + 1 };
                assert(self.tabs@[j] == before[bj]);
                assert(self.tabs@[k] == before[bk]);
            }
            assert forall|k: int| 0 <= k < self.tabs@.len() implies #[trigger] self.tabs@[k].id
                < self.next_id by {
                let bk = if k < index { k } else { k + 1 };
                assert(self.tabs@[k] == before[bk]);
            }
        }
    }

    /// Move the strip to another edge.
    pub fn set_side(&mut self, side: StripSide)
        ensures
            final(self).tab_list() == old(self).tab_list(),
            final(self).active_tab() == old(self).active_tab(),
            final(self).next_tab_id() == old(self).next_tab_id(),
            final(self).side == side,
            final(self).strip_version == if old(self).side == side {
                old(self).strip_version
            } else {
                bump(old(self).strip_version)
            },
            final(self).renaming == old(self).renaming,
            final(self).dirty == old(self).dirty,
            final(self).overflowing == old(self).overflowing,
            final(self).focused == old(self).focused,
            final(self).rows == old(self).rows,
            final(self).cols == old(self).cols,
            final(self).dragging == old(self).dragging,
            final(self).scroll_dragging == old(self).scroll_dragging,
    {
        if self.side == side {
            return;
        }
        self.side = side;
        self.strip_version = bump_exec(self.strip_version);
    }

    /// Begin renaming a tab, or stop.
    pub fn set_renaming(&mut self, id: Option<u32>)
        ensures
            final(self).tab_list() == old(self).tab_list(),
            final(self).active_tab() == old(self).active_tab(),
            final(self).next_tab_id() == old(self).next_tab_id(),
            final(self).renaming == id,
            final(self).strip_version == if old(self).renaming == id {
                old(self).strip_version
            } else {
                bump(old(self).strip_version)
            },
            final(self).dirty == old(self).dirty,
            final(self).same_settings(old(self)),
    {
        if self.renaming == id {
            return;
        }
        self.renaming = id;
        self.strip_version = bump_exec(self.strip_version);
    }

    /// Apply a typed name. It is trimmed first, and an empty one is a cancel,
    /// not a nameless tab.
    pub fn rename(&mut self, id: u32, title: &str)
        requires
            old(self).wf(),
        ensures
            final(self).wf(),
            final(self).active_tab() == old(self).active_tab(),
            final(self).next_tab_id() == old(self).next_tab_id(),
            final(self).renaming == old(self).renaming,
            final(self).dirty == old(self).dirty,
            final(self).same_settings(old(self)),
            final(self).tab_list().len() == old(self).tab_list().len(),
            if trim(title@).len() > 0 && has_tab(old(self).tab_list(), id) {
                let k = pos_of(old(self).tab_list(), id);
                &&& final(self).tab_list()[k].title@ == trim(title@)
                &&& final(self).tab_list()[k].renamed
                &&& final(self).tab_list()[k] == Tab {
                    title: final(self).tab_list()[k].title,
                    renamed: true,
                    ..old(self).tab_list()[k]
                }
                &&& forall|j: int|
                    0 <= j < old(self).tab_list().len() && j != k ==> final(self).tab_list()[j]
                        == old(self).tab_list()[j]
                &&& final(self).strip_version == bump(old(self).strip_version)
            } else {
                &&& final(self).tab_list() == old(self).tab_list()
                &&& final(self).strip_version == old(self).strip_version
            },
    {
        let trimmed = trim_chars(&chars_of(title));
        if trimmed.len() == 0 {
            return;
        }
        match self.find(id) {
            Some(k) => {
                let ghost before = self.tabs@;
                let mut tab = self.tabs.remove(k);
                tab.title = string_from(trimmed.as_slice());
                tab.renamed = true;
                self.tabs.insert(k, tab);
                self.strip_version = bump_exec(self.strip_version);
                proof {
                    assert forall|j: int| 0 <= j < before.len() && j != k implies self.tabs@[j]
                        == before[j] by {}
                    assert(self.tabs@[k as int].id == id);
                    assert(has_tab(self.tab_list(), self.active)) by {
                        let a = choose|a: int| 0 <= a < before.len() && before[a].id == self.active;
                        assert(self.tabs@[a].id == before[a].id);
                    }
                    assert forall|j: int, m: int| 0 <= j < m < self.tabs@.len() implies self.tabs@[j].id
                        < self.tabs@[m].id by {
                        assert(self.tabs@[j].id == before[j].id);
                        assert(self.tabs@[m].id == before[m].id);
                    }
                    assert forall|m: int| 0 <= m < self.tabs@.len() implies #[trigger] self.tabs@[m].id
                        < self.next_id by {
                        assert(self.tabs@[m].id == before[m].id);
                    }
                }
            },
            None => {},
        }
    }

    /// Close every tab but one. When `keep` names no tab every tab closes, and
    /// the last close opens a fresh one as [`close`](Self::close) does.
    pub fn close_others(&mut self, keep: u32)
        requires
            old(self).wf(),
            !has_tab(old(self).tab_list(), keep) ==> old(self).next_tab_id() < u32::MAX,
        ensures
            final(self).wf(),
            final(self).same_settings(old(self)),
            final(self).tab_list().len() == 1,
            has_tab(old(self).tab_list(), keep) ==> {
                &&& final(self).tab_list()[0] == old(self).tab_list()[pos_of(old(self).tab_list(), keep)]
                &&& final(self).active_tab() == keep
                &&& final(self).next_tab_id() == old(self).next_tab_id()
                &&& final(self).strip_version == bump_by(
                    old(self).strip_version,
                    (old(self).tab_list().len() - 1) as nat,
                )
                &&& final(self).renaming == match old(self).renaming {
                    Some(r) => if r != keep && has_tab(old(self).tab_list(), r) {
                        None
                    } else {
                        Some(r)
                    },
                    None => None,
                }
                &&& final(self).dirty == (old(self).dirty || old(self).tab_list().len() > 1)
            },
            !has_tab(old(self).tab_list(), keep) ==> {
                &&& is_fresh(final(self).tab_list()[0], old(self).next_tab_id())
                &&& final(self).active_tab() == old(self).next_tab_id()
                &&& final(self).next_tab_id() == old(self).next_tab_id() + 1
                &&& final(self).strip_version == bump_by(
                    old(self).strip_version,
                    old(self).tab_list().len() as nat,
                )
                &&& final(self).renaming == match old(self).renaming {
                    Some(r) => if has_tab(old(self).tab_list(), r) {
                        None
                    } else {
                        Some(r)
                    },
                    None => None,
                }
                &&& final(self).dirty
            },
    {
        let n = self.tabs.len();
        let ghost before = self.tabs@;
        // Clear a rename that belongs to a tab about to close.
        if let Some(r) = self.renaming {
            if r != keep {
                if let Some(_) = self.find(r) {
                    self.renaming = None;
                }
            }
        }
        // Each close bumps the version once; the strip sees one change per tab.
        let mut v = self.strip_version;
        let mut c: usize = 1;
        while c < n
            invariant
                1 <= c <= n,
                v == bump_by(old(self).strip_version, (c - 1) as nat),
            decreases n - c,
        {
            v = bump_exec(v);
            c = c + 1;
        }
        match self.find(keep) {
            Some(k) => {
                let kept = self.tabs.remove(k);
                let mut tabs: Vec<Tab> = Vec::new();
                tabs.push(kept);
                self.tabs = tabs;
                self.active = keep;
                self.strip_version = v;
                if n > 1 {
                    self.dirty = true;
                }
                proof {
                    assert(self.tabs@[0].id == keep);
                    assert(has_tab(self.tab_list(), keep));
                }
            },
            None => {
                let fresh = self.next_id;
                self.next_id = self.next_id + 1;
                let mut tabs: Vec<Tab> = Vec::new();
                tabs.push(Tab::new(fresh));
                self.tabs = tabs;
                self.active = fresh;
                self.strip_version = bump_exec(v);
                self.dirty = true;
                proof {
                    assert(self.tabs@[0].id == fresh);
                    assert(has_tab(self.tab_list(), fresh));
                    assert(bump_by(old(self).strip_version, n as nat) == bump(
                        bump_by(old(self).strip_version, (n - 1) as nat),
                    ));
                }
            },
        }
    }

    /// Move to the next or previous tab, wrapping. Fewer than two tabs: nothing.
    pub fn cycle(&mut self, forward: bool)
        requires
            old(self).wf(),
        ensures
            final(self).wf(),
            final(self).tab_list() == old(self).tab_list(),
            final(self).next_tab_id() == old(self).next_tab_id(),
            final(self).renaming == old(self).renaming,
            final(self).same_settings(old(self)),
            old(self).tab_list().len() < 2 ==> *final(self) == *old(self),
            old(self).tab_list().len() >= 2 ==> {
                let len = old(self).tab_list().len() as int;
                let k = pos_of(old(self).tab_list(), old(self).active_tab());
                &&& final(self).active_tab() == old(self).tab_list()[cycled(k, len, forward)].id
                &&& final(self).strip_version == bump(old(self).strip_version)
                &&& final(self).dirty
            },
    {
        if self.tabs.len() < 2 {
            return;
        }
        let index = match self.find(self.active) {
            Some(k) => k,
            None => return,
        };
        let len = self.tabs.len();
        let next = if forward {
            if index + 1 == len {
                0
            } else {
                index + 1
            }
        } else {
            if index == 0 {
                len - 1
            } else {
                index - 1
            }
        };
        let id = self.tabs[next].id;
        proof {
            assert(next != index);
            if next < index {
                assert(self.tabs@[next as int].id < self.tabs@[index as int].id);
            } else {
                assert(self.tabs@[index as int].id < self.tabs@[next as int].id);
            }
            assert(has_tab(self.tab_list(), id));
        }
        self.activate(id);
    }

    /// Decide where typed bytes go: the active tab, when it has a running
    /// shell. Typing returns that tab to the live screen, as every terminal
    /// does. The caller writes the bytes to the returned tab's shell and
    /// scrolls its emulator back to the bottom.
    pub fn send(&mut self) -> (target: Option<u32>)
        requires
            old(self).wf(),
        ensures
            final(self).wf(),
            final(self).active_tab() == old(self).active_tab(),
            final(self).next_tab_id() == old(self).next_tab_id(),
            final(self).strip_version == old(self).strip_version,
            final(self).renaming == old(self).renaming,
            final(self).same_settings(old(self)),
            ({
                let k = pos_of(old(self).tab_list(), old(self).active_tab());
                let t = old(self).tab_list()[k];
                if t.running {
                    &&& target == Some(t.id)
                    &&& final(self).tab_list() == old(self).tab_list().update(k, Tab { scrollback: 0, ..t })
                    &&& final(self).dirty == (old(self).dirty || t.scrollback != 0)
                } else {
                    &&& target is None
                    &&& final(self).tab_list() == old(self).tab_list()
                    &&& final(self).dirty == old(self).dirty
                }
            }),
    {
        let k = match self.find(self.active) {
            Some(k) => k,
            None => return None,
        };
        if !self.tabs[k].running {
            return None;
        }
        let ghost before = self.tabs@;
        if self.tabs[k].scrollback != 0 {
            let mut tab = self.tabs.remove(k);
            tab.scrollback = 0;
            self.tabs.insert(k, tab);
            self.dirty = true;
        }
        proof {
            assert(self.tabs@ =~= before.update(k as int, Tab { scrollback: 0, ..before[k as int] }));
            assert forall|j: int| 0 <= j < self.tabs@.len() implies self.tabs@[j].id == before[j].id by {}
            assert(has_tab(self.tab_list(), self.active)) by {
                assert(self.tabs@[k as int].id == self.active);
            }
        }
        Some(self.active)
    }

    /// Drop the active tab's selection.
    pub fn clear_selection(&mut self)
        requires
            old(self).wf(),
        ensures
            final(self).wf(),
            final(self).active_tab() == old(self).active_tab(),
            final(self).next_tab_id() == old(self).next_tab_id(),
            final(self).strip_version == old(self).strip_version,
            final(self).renaming == old(self).renaming,
            final(self).same_settings(old(self)),
            ({
                let k = pos_of(old(self).tab_list(), old(self).active_tab());
                let t = old(self).tab_list()[k];
                if t.anchor is Some {
                    &&& final(self).tab_list() == old(self).tab_list().update(
                        k,
                        Tab { anchor: None, head: None, ..t },
                    )
                    &&& final(self).dirty
                } else {
                    &&& final(self).tab_list() == old(self).tab_list()
                    &&& final(self).dirty == old(self).dirty
                }
            }),
    {
        let k = match self.find(self.active) {
            Some(k) => k,
            None => return,
        };
        let ghost before = self.tabs@;
        if self.tabs[k].anchor.is_some() {
            let mut tab = self.tabs.remove(k);
            tab.anchor = None;
            tab.head = None;
            self.tabs.insert(k, tab);
            self.dirty = true;
            proof {
                assert(self.tabs@ =~= before.update(k as int, Tab { anchor: None, head: None, ..before[k as int] }));
                assert forall|j: int| 0 <= j < self.tabs@.len() implies self.tabs@[j].id == before[j].id by {}
                assert(has_tab(self.tab_list(), self.active)) by {
                    assert(self.tabs@[k as int].id == self.active);
                }
            }
        }
    }

    /// Put `tab` in place of the tab at `k`, which has the same id.
    fn set_tab(&mut self, k: usize, tab: Tab)
        requires
            old(self).wf(),
            k < old(self).tabs@.len(),
            tab.id == old(self).tabs@[k as int].id,
        ensures
            final(self).wf(),
            final(self).tabs@ == old(self).tabs@.update(k as int, tab),
            final(self).active == old(self).active,
            final(self).next_id == old(self).next_id,
            final(self).strip_version == old(self).strip_version,
            final(self).renaming == old(self).renaming,
            final(self).dirty == old(self).dirty,
            final(self).same_settings(old(self)),
    {
        let ghost before = self.tabs@;
        self.tabs.set(k, tab);
        proof {
            assert forall|j: int| 0 <= j < self.tabs@.len() implies #[trigger] self.tabs@[j].id
                == before[j].id by {}
            assert(has_tab(self.tab_list(), self.active)) by {
                let a = choose|a: int| 0 <= a < before.len() && before[a].id == self.active;
                assert(self.tabs@[a].id == before[a].id);
            }
            assert forall|j: int, m: int| 0 <= j < m < self.tabs@.len() implies self.tabs@[j].id
                < self.tabs@[m].id by {
                assert(self.tabs@[j].id == before[j].id);
                assert(self.tabs@[m].id == before[m].id);
            }
            assert forall|m: int| 0 <= m < self.tabs@.len() implies #[trigger] self.tabs@[m].id
                < self.next_id by {
                assert(self.tabs@[m].id == before[m].id);
            }
        }
    }

    /// Take or give up keyboard focus. A change repaints, since the cursor's
    /// look follows focus.
    pub fn set_focused(&mut self, inside: bool)
        ensures
            final(self).tabs@ == old(self).tabs@,
            final(self).active == old(self).active,
            final(self).next_id == old(self).next_id,
            final(self).strip_version == old(self).strip_version,
            final(self).renaming == old(self).renaming,
            final(self).focused == inside,
            final(self).dirty == (old(self).dirty || old(self).focused != inside),
            final(self).side == old(self).side,
            final(self).overflowing == old(self).overflowing,
            final(self).rows == old(self).rows,
            final(self).cols == old(self).cols,
            final(self).dragging == old(self).dragging,
            final(self).scroll_dragging == old(self).scroll_dragging,
    {
        if self.focused != inside {
            self.focused = inside;
            self.dirty = true;
        }
    }

    /// Ask for a new shell in the active tab, once its last one has exited.
    pub fn restart(&mut self)
        requires
            old(self).wf(),
        ensures
            final(self).wf(),
            final(self).active == old(self).active,
            final(self).next_id == old(self).next_id,
            final(self).strip_version == old(self).strip_version,
            final(self).renaming == old(self).renaming,
            final(self).dirty == old(self).dirty,
            final(self).same_settings(old(self)),
            ({
                let k = pos_of(old(self).tab_list(), old(self).active);
                final(self).tabs@ == old(self).tabs@.update(k, Tab { wanted: true, ..old(self).tabs@[k] })
            }),
    {
        let k = match self.find(self.active) {
            Some(k) => k,
            None => return,
        };
        let mut tab = self.tabs.remove(k);
        tab.wanted = true;
        self.tabs.insert(k, tab);
        proof {
            assert(old(self).tabs@[k as int].id == self.active);
        }
        let ghost mid = self.tabs@;
        proof {
            assert(mid =~= old(self).tabs@.update(k as int, Tab { wanted: true, ..old(self).tabs@[k as int] }));
            assert(has_tab(self.tab_list(), self.active)) by {
                assert(mid[k as int].id == self.active);
            }
            assert forall|j: int, m: int| 0 <= j < m < mid.len() implies mid[j].id < mid[m].id by {
                assert(mid[j].id == old(self).tabs@[j].id);
                assert(mid[m].id == old(self).tabs@[m].id);
            }
            assert forall|m: int| 0 <= m < mid.len() implies #[trigger] mid[m].id < self.next_id by {
                assert(mid[m].id == old(self).tabs@[m].id);
            }
        }
    }

    /// The active tab's view moved to `actual` rows back, as the emulator
    /// reports it after a scroll. A real move drops the selection, whose
    /// cells now cover other text, and repaints.
    pub fn scrolled_to(&mut self, actual: usize)
        requires
            old(self).wf(),
        ensures
            final(self).wf(),
            final(self).active == old(self).active,
            final(self).next_id == old(self).next_id,
            final(self).strip_version == old(self).strip_version,
            final(self).renaming == old(self).renaming,
            final(self).same_settings(old(self)),
            ({
                let k = pos_of(old(self).tab_list(), old(self).active);
                let t = old(self).tabs@[k];
                if t.scrollback != actual {
                    &&& final(self).tabs@ == old(self).tabs@.update(
                        k,
                        Tab { scrollback: actual, anchor: None, head: None, ..t },
                    )
                    &&& final(self).dirty
                } else {
                    &&& final(self).tabs@ == old(self).tabs@
                    &&& final(self).dirty == old(self).dirty
                }
            }),
    {
        let k = match self.find(self.active) {
            Some(k) => k,
            None => return,
        };
        if self.tabs[k].scrollback == actual {
            return;
        }
        let tab = Tab {
            id: self.tabs[k].id,
            title: self.tabs[k].title.clone(),
            renamed: self.tabs[k].renamed,
            running: self.tabs[k].running,
            scrollback: actual,
            history: self.tabs[k].history,
            anchor: None,
            head: None,
            wanted: self.tabs[k].wanted,
        };
        self.set_tab(k, tab);
        self.dirty = true;
    }

    /// The pointer over the grid: `just_pressed` and `pressed` are the left
    /// button, `over` whether the pointer is on the panel, `cell` the cell
    /// under it, if it is over the grid.
    ///
    /// A press on the panel starts a drag, anchoring the selection at the
    /// cell; moving with the button held moves its head; letting go ends the
    /// drag, and a click that never moved clears the selection rather than
    /// leave one cell highlighted.
    pub fn select(&mut self, just_pressed: bool, pressed: bool, over: bool, cell: Option<(u16, u16)>)
        requires
            old(self).wf(),
        ensures
            final(self).wf(),
            final(self).active == old(self).active,
            final(self).next_id == old(self).next_id,
            final(self).strip_version == old(self).strip_version,
            final(self).renaming == old(self).renaming,
            final(self).side == old(self).side,
            final(self).overflowing == old(self).overflowing,
            final(self).focused == old(self).focused,
            final(self).rows == old(self).rows,
            final(self).cols == old(self).cols,
            final(self).scroll_dragging == old(self).scroll_dragging,
            ({
                let k = pos_of(old(self).tab_list(), old(self).active);
                let t = old(self).tabs@[k];
                if just_pressed && over {
                    &&& final(self).dragging
                    &&& match cell {
                        Some(c) => {
                            &&& final(self).tabs@ == old(self).tabs@.update(
                                k,
                                Tab { anchor: Some(c), head: Some(c), ..t },
                            )
                            &&& final(self).dirty
                        },
                        None => {
                            &&& final(self).tabs@ == old(self).tabs@
                            &&& final(self).dirty == old(self).dirty
                        },
                    }
                } else if old(self).dragging && pressed {
                    &&& final(self).dragging
                    &&& match cell {
                        Some(c) => if t.head != Some(c) {
                            &&& final(self).tabs@ == old(self).tabs@.update(k, Tab { head: Some(c), ..t })
                            &&& final(self).dirty
                        } else {
                            &&& final(self).tabs@ == old(self).tabs@
                            &&& final(self).dirty == old(self).dirty
                        },
                        None => {
                            &&& final(self).tabs@ == old(self).tabs@
                            &&& final(self).dirty == old(self).dirty
                        },
                    }
                } else if old(self).dragging {
                    &&& !final(self).dragging
                    &&& if t.anchor == t.head {
                        &&& final(self).tabs@ == old(self).tabs@.update(
                            k,
                            Tab { anchor: None, head: None, ..t },
                        )
                        &&& final(self).dirty
                    } else {
                        &&& final(self).tabs@ == old(self).tabs@
                        &&& final(self).dirty == old(self).dirty
                    }
                } else {
                    &&& final(self).tabs@ == old(self).tabs@
                    &&& final(self).dirty == old(self).dirty
                    &&& final(self).dragging == old(self).dragging
                }
            }),
    {
        let k = match self.find(self.active) {
            Some(k) => k,
            None => return,
        };
        let t = &self.tabs[k];
        let (id, renamed, running, scrollback, history, wanted) = (
            t.id,
            t.renamed,
            t.running,
            t.scrollback,
            t.history,
            t.wanted,
        );
        let (anchor, head) = (t.anchor, t.head);
        let title = t.title.clone();
        if just_pressed && over {
            if let Some(c) = cell {
                let tab = Tab {
                    id,
                    title,
                    renamed,
                    running,
                    scrollback,
                    history,
                    anchor: Some(c),
                    head: Some(c),
                    wanted,
                };
                self.set_tab(k, tab);
                self.dirty = true;
            }
            self.dragging = true;
        } else if self.dragging && pressed {
            if let Some(c) = cell {
                let moved = match head {
                    Some(h) => h.0 != c.0 || h.1 != c.1,
                    None => true,
                };
                if moved {
                    let tab = Tab {
                        id,
                        title,
                        renamed,
                        running,
                        scrollback,
                        history,
                        anchor,
                        head: Some(c),
                        wanted,
                    };
                    self.set_tab(k, tab);
                    self.dirty = true;
                }
            }
        } else if self.dragging {
            self.dragging = false;
            let same = match (anchor, head) {
                (Some(a), Some(h)) => a.0 == h.0 && a.1 == h.1,
                (None, None) => true,
                _ => false,
            };
            if same {
                let tab = Tab {
                    id,
                    title,
                    renamed,
                    running,
                    scrollback,
                    history,
                    anchor: None,
                    head: None,
                    wanted,
                };
                self.set_tab(k, tab);
                self.dirty = true;
            }
        }
    }

    /// Ids of the tabs waiting for a shell, in strip order.
    pub fn pending(&self) -> (ids: Vec<u32>)
        ensures
            ids@ == pending_ids(self.tabs@),
    {
        let mut ids: Vec<u32> = Vec::new();
        let mut i: usize = 0;
        while i < self.tabs.len()
            invariant
                i <= self.tabs@.len(),
                ids@ == pending_ids(self.tabs@.take(i as int)),
            decreases self.tabs@.len() - i,
        {
            proof {
                assert(self.tabs@.take(i + 1).drop_last() =~= self.tabs@.take(i as int));
            }
            if self.tabs[i].wanted && !self.tabs[i].running {
                ids.push(self.tabs[i].id);
            }
            i = i + 1;
        }
        assert(self.tabs@.take(self.tabs@.len() as int) =~= self.tabs@);
        ids
    }

    /// Record an attempt to start tab `id`'s shell. Its request is cleared
    /// either way, so a failure is reported once rather than retried every
    /// frame; `program` is the shell that started, if one did. A started tab
    /// is running, and is named after the program unless its name was typed
    /// by hand. Once every pending tab has been tried, [`strip_changed`]
    /// (Self::strip_changed) redraws the strip, once.
    pub fn launched(&mut self, id: u32, program: Option<&str>)
        requires
            old(self).wf(),
        ensures
            final(self).wf(),
            final(self).active == old(self).active,
            final(self).next_id == old(self).next_id,
            final(self).renaming == old(self).renaming,
            final(self).strip_version == old(self).strip_version,
            final(self).dirty == old(self).dirty,
            final(self).same_settings(old(self)),
            !has_tab(old(self).tab_list(), id) ==> *final(self) == *old(self),
            has_tab(old(self).tab_list(), id) ==> {
                let k = pos_of(old(self).tab_list(), id);
                let t = old(self).tabs@[k];
                &&& final(self).tabs@.len() == old(self).tabs@.len()
                &&& forall|j: int|
                    0 <= j < old(self).tabs@.len() && j != k ==> final(self).tabs@[j]
                        == old(self).tabs@[j]
                &&& match program {
                    Some(p) => {
                        &&& final(self).tabs@[k].title@ == if t.renamed {
                            t.title@
                        } else {
                            launched_title(p@, id)
                        }
                        &&& final(self).tabs@[k] == Tab {
                            title: final(self).tabs@[k].title,
                            wanted: false,
                            running: true,
                            ..t
                        }
                    },
                    None => final(self).tabs@[k] == Tab { wanted: false, ..t },
                }
            },
    {
        let k = match self.find(id) {
            Some(k) => k,
            None => return,
        };
        let t = &self.tabs[k];
        let title = match program {
            Some(p) => if t.renamed {
                t.title.clone()
            } else {
                let mut title = basename(p);
                push_char(&mut title, ' ');
                let digits = decimal_bytes(id as u64);
                proof {
                    lemma_decimal_ascii(id as nat);
                }
                let d = string_from_ascii(digits.as_slice());
                push_str(&mut title, d.as_str());
                title
            },
            None => t.title.clone(),
        };
        let tab = Tab {
            id: t.id,
            title,
            renamed: t.renamed,
            running: t.running || program.is_some(),
            scrollback: t.scrollback,
            history: t.history,
            anchor: t.anchor,
            head: t.head,
            wanted: false,
        };
        self.set_tab(k, tab);
    }

    /// Tab `id`'s shell has exited: the tab shows the exit notice and
    /// repaints. The strip, which no longer has a program to name, is redrawn
    /// once by [`strip_changed`](Self::strip_changed) after every exit of a
    /// frame is recorded.
    pub fn exited(&mut self, id: u32)
        requires
            old(self).wf(),
        ensures
            final(self).wf(),
            final(self).active == old(self).active,
            final(self).next_id == old(self).next_id,
            final(self).renaming == old(self).renaming,
            final(self).strip_version == old(self).strip_version,
            final(self).same_settings(old(self)),
            !has_tab(old(self).tab_list(), id) ==> *final(self) == *old(self),
            has_tab(old(self).tab_list(), id) ==> {
                let k = pos_of(old(self).tab_list(), id);
                &&& final(self).tabs@ == old(self).tabs@.update(
                    k,
                    Tab { running: false, ..old(self).tabs@[k] },
                )
                &&& final(self).dirty
            },
    {
        let k = match self.find(id) {
            Some(k) => k,
            None => return,
        };
        let t = &self.tabs[k];
        let tab = Tab {
            id: t.id,
            title: t.title.clone(),
            renamed: t.renamed,
            running: false,
            scrollback: t.scrollback,
            history: t.history,
            anchor: t.anchor,
            head: t.head,
            wanted: t.wanted,
        };
        self.set_tab(k, tab);
        self.dirty = true;
    }

    /// The strip has something new to show (a shell started, failed or
    /// ended): it rebuilds, and the panel repaints.
    pub fn strip_changed(&mut self)
        ensures
            final(self).strip_version == bump(old(self).strip_version),
            final(self).dirty,
            final(self).tabs@ == old(self).tabs@,
            final(self).active == old(self).active,
            final(self).next_id == old(self).next_id,
            final(self).renaming == old(self).renaming,
            final(self).same_settings(old(self)),
    {
        self.strip_version = bump_exec(self.strip_version);
        self.dirty = true;
    }
}

/// Ids are never reused: the id the next open hands out names no tab in the
/// panel now.
pub proof fn law_open_is_fresh(t: Terminal)
    requires
        t.wf(),
    ensures
        !has_tab(t.tab_list(), t.next_tab_id()),
{
    if has_tab(t.tab_list(), t.next_tab_id()) {
        let k = choose|k: int| 0 <= k < t.tabs@.len() && t.tabs@[k].id == t.next_id;
        assert(t.tabs@[k].id < t.next_id);
    }
}

/// Cycling forward and then back lands on the tab cycling started from.
pub proof fn law_cycle_round_trip(k: int, len: int)
    requires
        2 <= len,
        0 <= k < len,
    ensures
        0 <= cycled(k, len, true) < len,
        cycled(cycled(k, len, true), len, false) == k,
        cycled(cycled(k, len, false), len, true) == k,
{
}

} // verus!
