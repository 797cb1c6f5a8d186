//! Tabs, key handling and the top-level state of the viewer.
use vstd::prelude::*;
use crate::disks::{handle_key, DisksState};

verus! {

/// How often the viewer waits for an event before drawing again.
pub const POLL_TIME_MS: u64 = 1000;

/// The tabs of the viewer, in the order of the tab bar.
#[derive(Debug, Clone, Copy, PartialEq, Eq, Structural)]
pub enum Tab {
    Overview,
    Disks,
    Zfs,
    Smart,
}

/// Number of tabs.
pub const TAB_COUNT: usize = 4;

/// Position of a tab in the tab bar.
pub open spec fn tab_index(t: Tab) -> nat {
    match t {
        Tab::Overview => 0,
        Tab::Disks => 1,
        Tab::Zfs => 2,
        Tab::Smart => 3,
    }
}

/// The tab at a position of the tab bar (taken modulo the number of tabs).
pub open spec fn tab_at(i: nat) -> Tab {
    let j = i % 4;
    if j == 0 {
        Tab::Overview
    } else if j == 1 {
        Tab::Disks
    } else if j == 2 {
        Tab::Zfs
    } else {
        Tab::Smart
    }
}

/// The title that a tab shows in the tab bar, with the digit that selects it.
pub open spec fn tab_title(t: Tab) -> Seq<char> {
    match t {
        Tab::Overview => "[1]Overview"@,
        Tab::Disks => "[2]Disks"@,
        Tab::Zfs => "[3]ZFS"@,
        Tab::Smart => "[4]SMART"@,
    }
}

impl Default for Tab {
    fn default() -> (r: Self)
        ensures
            r == Tab::Overview,
    {
        Tab::Overview
    }
}

impl Tab {
    /// The tab's title in the tab bar.
    pub fn title(&self) -> (r: &'static str)
        ensures
            r@ == tab_title(*self),
    {
        match self {
            Tab::Overview => "[1]Overview",
            Tab::Disks => "[2]Disks",
            Tab::Zfs => "[3]ZFS",
            Tab::Smart => "[4]SMART",
        }
    }

    /// All tabs, in the order of the tab bar.
    pub fn all() -> (r: [Tab; 4])
        ensures
            forall|i: int| 0 <= i < 4 ==> #[trigger] r@[i] == tab_at(i as nat),
    {
        [Tab::Overview, Tab::Disks, Tab::Zfs, Tab::Smart]
    }

    /// The tab's position in the tab bar.
    pub fn position(&self) -> (r: usize)
        ensures
            r == tab_index(*self),
            r < TAB_COUNT,
    {
        match self {
            Tab::Overview => 0,
            Tab::Disks => 1,
            Tab::Zfs => 2,
            Tab::Smart => 3,
        }
    }

    /// The tab at position `i` of the tab bar.
    pub fn from_position(i: usize) -> (r: Tab)
        requires
            i < TAB_COUNT,
        ensures
            r == tab_at(i as nat),
            tab_index(r) == i,
    {
        if i == 0 {
            Tab::Overview
        } else if i == 1 {
            Tab::Disks
        } else if i == 2 {
            Tab::Zfs
        } else {
            Tab::Smart
        }
    }

    /// The tab after this one, the first after the last.
    pub fn next(self) -> (r: Tab)
        ensures
            r == next_tab(self),
    {
        let idx = self.position();
        Tab::from_position((idx + 1) % TAB_COUNT)
    }

    /// The tab before this one, the last before the first.
    pub fn prev(self) -> (r: Tab)
        ensures
            r == prev_tab(self),
    {
        let idx = self.position();
        Tab::from_position((idx + TAB_COUNT - 1) % TAB_COUNT)
    }
}

/// A key press, as far as the viewer tells keys apart.
#[derive(Debug, Clone, Copy, PartialEq, Eq, Structural)]
pub enum Key {
    Char(char),
    Tab,
    BackTab,
    Up,
    Down,
    Other,
}

/// The tab that a digit key selects: `1` to `4` select the tabs in order.
pub open spec fn digit_tab(key: Key) -> Option<Tab> {
    match key {
        Key::Char(c) => if 49 <= c as u32 <= 52 {
            Some(tab_at((c as u32 - 49) as nat))
        } else {
            None
        },
        _ => None,
    }
}

/// The state of the viewer.
pub struct App {
    pub tab: Tab,
    pub should_quit: bool,
    pub disks: DisksState,
}

impl App {
    /// A viewer on the first tab, with the disk table in its initial state.
    pub fn new() -> (r: App)
        ensures
            r.tab == Tab::Overview,
            !r.should_quit,
            r.disks.is_initial(),
    {
        App { tab: Tab::Overview, should_quit: false, disks: DisksState::default() }
    }

    /// Reacts to a key press: `q` quits, Tab and BackTab move to the next and
    /// previous tab, `1` to `4` select a tab, and any other key goes to the
    /// disk table.
    pub fn handle_key_press(&mut self, key: Key)
        requires
            old(self).disks.wf(),
        ensures
            final(self).disks.wf(),
            key == Key::Char('q') ==> final(self).should_quit && final(self).tab == old(self).tab
                && final(self).disks == old(self).disks,
            key == Key::Tab ==> final(self).tab == next_tab(old(self).tab)
                && final(self).should_quit == old(self).should_quit && final(self).disks == old(
                self).disks,
            key == Key::BackTab ==> final(self).tab == prev_tab(old(self).tab)
                && final(self).should_quit == old(self).should_quit && final(self).disks == old(
                self).disks,
            digit_tab(key) is Some ==> final(self).tab == digit_tab(key)->0 && final(self).should_quit
                == old(self).should_quit && final(self).disks == old(self).disks,
            !(key == Key::Char('q') || key == Key::Tab || key == Key::BackTab || digit_tab(key) is Some)
                ==> final(self).tab == old(self).tab && final(self).should_quit == old(self).should_quit
                && old(self).disks.after_key(key, &final(self).disks),
    {
        match key {
            Key::Char('q') => self.should_quit = true,
            Key::Tab => self.tab = self.tab.next(),
            Key::BackTab => self.tab = self.tab.prev(),
            Key::Char(c) if 49 <= c as u32 && c as u32 <= 52 => {
                let idx = (c as u32 - 49) as usize;
                self.tab = Tab::from_position(idx);
            },
            _ => handle_key(key, self),
        }
    }
}

} // verus!

verus! {

/// The tab that Tab moves to.
pub open spec fn next_tab(t: Tab) -> Tab {
    tab_at(tab_index(t) + 1)
}

/// The tab that BackTab moves to.
pub open spec fn prev_tab(t: Tab) -> Tab {
    tab_at(tab_index(t) + 3)
}

/// Tab and then BackTab, or BackTab and then Tab, come back to the same tab.
pub proof fn law_next_prev_inverse(t: Tab)
    ensures
        prev_tab(next_tab(t)) == t,
        next_tab(prev_tab(t)) == t,
{
}

/// Pressing Tab as many times as there are tabs visits every tab and comes back.
pub proof fn law_tab_cycle(t: Tab)
    ensures
        next_tab(next_tab(next_tab(next_tab(t)))) == t,
        t != next_tab(t),
        t != next_tab(next_tab(t)),
        t != next_tab(next_tab(next_tab(t))),
{
}

/// Each tab's title starts with the digit key that selects it, in brackets.
pub proof fn law_title_names_key(t: Tab)
    ensures
        tab_title(t).len() > 3,
        tab_title(t)[0] == '[',
        tab_title(t)[2] == ']',
        digit_tab(Key::Char(tab_title(t)[1])) == Some(t),
{
    reveal_strlit("[1]Overview");
    reveal_strlit("[2]Disks");
    reveal_strlit("[3]ZFS");
    reveal_strlit("[4]SMART");
}

} // verus!
