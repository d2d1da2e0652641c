//! A panel's tabs: of several file tables one is shown at a time, and each
//! can be locked to its directory.

use crate::paths::{file_name_of, path_file_name};
use crate::table_view::{
    fresh_table, navigated, FileTable, FileTableSettings, Load, Navigation, TabRestore,
};
use crate::columns::SortColumn;
use crate::text::same_text;
use vstd::prelude::*;

verus! {

/// One tab. A locked tab stays where it is, unless it may change its
/// directory all the same.
#[derive(Debug, PartialEq, Eq)]
pub struct TabEntry {
    pub table: FileTable,
    pub locked: bool,
    pub lock_dir_change: bool,
}

/// What is kept of a tab that was closed, or between sessions.
#[derive(Debug, PartialEq, Eq)]
pub struct SessionTab {
    pub dir: String,
    pub locked: bool,
    pub lock_dir_change: bool,
}

/// A tab as the tab strip shows it.
#[derive(Debug, PartialEq, Eq)]
pub struct TabView {
    pub label: String,
    pub active: bool,
}

/// What is kept of a panel between sessions.
#[derive(Debug, PartialEq, Eq)]
pub struct SessionPanel {
    pub tabs: Vec<SessionTab>,
    pub active_tab: usize,
}

#[derive(Debug, PartialEq, Eq)]
pub struct Panel {
    pub tabs: Vec<TabEntry>,
    /// The tab that is shown.
    pub active: usize,
    /// The tabs that were closed, the latest last.
    pub closed_stack: Vec<SessionTab>,
    pub settings: FileTableSettings,
}

/// A tab's directory and its two locks.
pub open spec fn tab_place(tab: TabEntry) -> (Seq<char>, bool, bool) {
    (tab.table.current_dir@, tab.locked, tab.lock_dir_change)
}

pub open spec fn kept_place(tab: SessionTab) -> (Seq<char>, bool, bool) {
    (tab.dir@, tab.locked, tab.lock_dir_change)
}

/// Whether a tab's table is held to its directory exactly where the locks say
/// so.
pub open spec fn tab_fits(tab: TabEntry) -> bool {
    &&& tab.table.wf()
    &&& tab.table.locked == (tab.locked && !tab.lock_dir_change)
}

/// The widths that a new tab takes from the tab that is shown, once that has
/// been measured.
pub open spec fn width_seed(panel: Panel) -> Option<([u32; 3], u32)> {
    if panel.active < panel.tabs@.len() {
        let d = panel.tabs@[panel.active as int].table.delegate;
        match d.last_available_width {
            Some(available) => Some((d.widths, available)),
            None => None,
        }
    } else {
        None
    }
}

/// Whether `tab` was opened at a place: a fresh table, to be listed.
pub open spec fn opened_at(
    tab: TabEntry,
    place: (Seq<char>, bool, bool),
    seed: Option<([u32; 3], u32)>,
    settings: FileTableSettings,
    load: Load,
) -> bool {
    &&& tab_fits(tab)
    &&& tab_place(tab) == place
    &&& fresh_table(tab.table, seed, settings)
    &&& load.dir@ == place.0
    &&& load.select_name is None
    &&& load.sort == (SortColumn::Name, true)
    &&& load.generation == 0
}

/// Whether a tab was opened behind the others and is shown.
pub open spec fn tab_opened(
    before: Panel,
    after: Panel,
    place: (Seq<char>, bool, bool),
    load: Load,
) -> bool {
    &&& after.tabs@.len() == before.tabs@.len() + 1
    &&& after.tabs@.drop_last() == before.tabs@
    &&& after.active == before.tabs@.len()
    &&& opened_at(after.tabs@.last(), place, width_seed(before), before.settings, load)
    &&& after.settings == before.settings
}

impl Panel {
    /// There is a tab, the one shown is there, and every table is held to its
    /// directory exactly where its tab's locks say so.
    pub open spec fn wf(self) -> bool {
        &&& 0 < self.tabs@.len()
        &&& self.active < self.tabs@.len()
        &&& forall|i: int| 0 <= i < self.tabs@.len() ==> tab_fits(#[trigger] self.tabs@[i])
    }

    fn add_tab_entry(&mut self, dir: String, locked: bool, lock_dir_change: bool) -> (load: Load)
        requires
            old(self).tabs@.len() < usize::MAX,
            forall|i: int|
                0 <= i < old(self).tabs@.len() ==> tab_fits(#[trigger] old(self).tabs@[i]),
        ensures
            final(self).tabs@.len() == old(self).tabs@.len() + 1,
            final(self).tabs@.drop_last() == old(self).tabs@,
            opened_at(
                final(self).tabs@.last(),
                (dir@, locked, lock_dir_change),
                width_seed(*old(self)),
                old(self).settings,
                load,
            ),
            forall|i: int|
                0 <= i < final(self).tabs@.len() ==> tab_fits(#[trigger] final(self).tabs@[i]),
            final(self).active == old(self).active,
            final(self).closed_stack == old(self).closed_stack,
            final(self).settings == old(self).settings,
    {
        let seed = if self.active < self.tabs.len() {
            self.tabs[self.active].table.delegate.responsive_seed()
        } else {
            None
        };
        let (mut table, load) = FileTable::new(dir, seed, TabRestore::default(), self.settings);
        table.set_locked_navigation(locked && !lock_dir_change);
        let ghost before = self.tabs@;
        self.tabs.push(TabEntry { table, locked, lock_dir_change });
        proof {
            assert(self.tabs@.drop_last() =~= before);
            assert forall|i: int| 0 <= i < self.tabs@.len() implies tab_fits(
                #[trigger] self.tabs@[i],
            ) by {
                if i < before.len() {
                    assert(tab_fits(before[i]));
                }
            }
        }
        load
    }

    /// A panel with the tabs of a session, of which it has at least one, and
    /// what is to be listed for them. An index behind the last tab stands for
    /// the last.
    pub fn new(tabs: Vec<SessionTab>, active: usize, settings: FileTableSettings) -> (r: (
        Panel,
        Vec<Load>,
    ))
        requires
            tabs@.len() > 0,
        ensures
            r.0.wf(),
            r.0.tabs@.len() == tabs@.len(),
            r.1@.len() == tabs@.len(),
            forall|i: int|
                0 <= i < tabs@.len() ==> opened_at(
                    #[trigger] r.0.tabs@[i],
                    kept_place(tabs@[i]),
                    None,
                    settings,
                    r.1@[i],
                ),
            r.0.active == (if active < tabs@.len() {
                active as int
            } else {
                tabs@.len() - 1
            }),
            r.0.closed_stack@.len() == 0,
            r.0.settings == settings,
    {
        let mut panel = Panel {
            tabs: Vec::new(),
            active: 0,
            closed_stack: Vec::new(),
            settings,
        };
        let mut loads: Vec<Load> = Vec::new();
        let mut i: usize = 0;
        while i < tabs.len()
            invariant
                i <= tabs@.len(),
                panel.tabs@.len() == i,
                loads@.len() == i,
                panel.active == 0,
                panel.closed_stack@.len() == 0,
                panel.settings == settings,
                forall|j: int| 0 <= j < i ==> tab_fits(#[trigger] panel.tabs@[j]),
                forall|j: int|
                    0 <= j < i ==> opened_at(
                        #[trigger] panel.tabs@[j],
                        kept_place(tabs@[j]),
                        None,
                        settings,
                        loads@[j],
                    ),
            decreases tabs@.len() - i,
        {
            let ghost before = panel.tabs@;
            let ghost loads_before = loads@;
            let tab = &tabs[i];
            let load = panel.add_tab_entry(tab.dir.clone(), tab.locked, tab.lock_dir_change);
            loads.push(load);
            proof {
                assert forall|j: int| 0 <= j < i + 1 implies opened_at(
                    #[trigger] panel.tabs@[j],
                    kept_place(tabs@[j]),
                    None,
                    settings,
                    loads@[j],
                ) by {
                    if j < i {
                        assert(panel.tabs@[j] == panel.tabs@.drop_last()[j]);
                        assert(opened_at(
                            before[j],
                            kept_place(tabs@[j]),
                            None,
                            settings,
                            loads_before[j],
                        ));
                    }
                }
            }
            i = i + 1;
        }
        panel.active = if active < panel.tabs.len() {
            active
        } else {
            panel.tabs.len() - 1
        };
        (panel, loads)
    }

    /// A new tab at a directory, shown and not locked: where a locked tab's
    /// way elsewhere leads.
    pub fn open_redirected_tab(&mut self, dir: String) -> (load: Load)
        requires
            old(self).wf(),
            old(self).tabs@.len() < usize::MAX,
        ensures
            final(self).wf(),
            tab_opened(*old(self), *final(self), (dir@, false, false), load),
            final(self).closed_stack == old(self).closed_stack,
    {
        let load = self.add_tab_entry(dir, false, false);
        self.active = self.tabs.len() - 1;
        load
    }

    /// Does what the active tab's request to go somewhere led to. Returns
    /// what is to be listed.
    pub fn follow(&mut self, answer: Navigation) -> (load: Option<Load>)
        requires
            old(self).wf(),
            old(self).tabs@.len() < usize::MAX,
        ensures
            final(self).wf(),
            match answer {
                Navigation::Stay => load is None && *final(self) == *old(self),
                Navigation::Go(l) => load == Some(l) && *final(self) == *old(self),
                Navigation::Redirect(dir) => load is Some && tab_opened(
                    *old(self),
                    *final(self),
                    (dir@, false, false),
                    load->0,
                ) && final(self).closed_stack == old(self).closed_stack,
            },
    {
        match answer {
            Navigation::Stay => None,
            Navigation::Go(load) => Some(load),
            Navigation::Redirect(dir) => Some(self.open_redirected_tab(dir)),
        }
    }

    /// A new tab at the active tab's directory, shown and not locked.
    pub fn new_tab(&mut self) -> (load: Load)
        requires
            old(self).wf(),
            old(self).tabs@.len() < usize::MAX,
        ensures
            final(self).wf(),
            plain_tab_opened(*old(self), *final(self), load),
    {
        let dir = self.tabs[self.active].table.current_dir.clone();
        let load = self.add_tab_entry(dir, false, false);
        self.active = self.tabs.len() - 1;
        load
    }

    /// A new tab at the active tab's directory, with its locks.
    pub fn duplicate_active(&mut self) -> (load: Load)
        requires
            old(self).wf(),
            old(self).tabs@.len() < usize::MAX,
        ensures
            final(self).wf(),
            tab_opened(
                *old(self),
                *final(self),
                tab_place(old(self).tabs@[old(self).active as int]),
                load,
            ),
            final(self).closed_stack == old(self).closed_stack,
    {
        let dir = self.tabs[self.active].table.current_dir.clone();
        let locked = self.tabs[self.active].locked;
        let lock_dir_change = self.tabs[self.active].lock_dir_change;
        let load = self.add_tab_entry(dir, locked, lock_dir_change);
        self.active = self.tabs.len() - 1;
        load
    }

    /// Closes the active tab and remembers it. The last tab stays.
    pub fn close_active(&mut self)
        requires
            old(self).wf(),
        ensures
            final(self).wf(),
            active_closed(*old(self), *final(self)),
    {
        if self.tabs.len() <= 1 {
            return;
        }
        let ghost before = self.tabs@;
        let ghost stack = self.closed_stack@;
        let closed = self.tabs.remove(self.active);
        self.closed_stack.push(
            SessionTab {
                dir: closed.table.current_dir,
                locked: closed.locked,
                lock_dir_change: closed.lock_dir_change,
            },
        );
        assert(self.closed_stack@.drop_last() =~= stack);
        if self.active >= self.tabs.len() {
            self.active = self.tabs.len() - 1;
        }
        proof {
            assert forall|i: int| 0 <= i < self.tabs@.len() implies tab_fits(
                #[trigger] self.tabs@[i],
            ) by {
                if i < old(self).active {
                    assert(tab_fits(before[i]));
                } else {
                    assert(tab_fits(before[i + 1]));
                }
            }
        }
    }

    /// Closes every tab but the active one and remembers them, in their
    /// order.
    pub fn close_others(&mut self)
        requires
            old(self).wf(),
        ensures
            final(self).wf(),
            old(self).tabs@.len() == 1 ==> *final(self) == *old(self),
            old(self).tabs@.len() > 1 ==> {
                let others = old(self).tabs@.remove(old(self).active as int);
                &&& final(self).tabs@ == seq![old(self).tabs@[old(self).active as int]]
                &&& final(self).active == 0
                &&& final(self).closed_stack@.len() == old(self).closed_stack@.len() + others.len()
                &&& final(self).closed_stack@.take(old(self).closed_stack@.len() as int) == old(self).closed_stack@
                &&& forall|i: int|
                    0 <= i < others.len() ==> kept_place(
                        #[trigger] final(self).closed_stack@[old(self).closed_stack@.len() + i],
                    ) == tab_place(others[i])
                &&& final(self).settings == old(self).settings
            },
    {
        if self.tabs.len() <= 1 {
            return;
        }
        let ghost stack = self.closed_stack@;
        let keep = self.tabs.remove(self.active);
        let ghost others = self.tabs@;
        let mut i: usize = 0;
        while i < self.tabs.len()
            invariant
                self.tabs@ == others,
                i <= others.len(),
                self.settings == old(self).settings,
                self.closed_stack@.len() == stack.len() + i,
                self.closed_stack@.take(stack.len() as int) == stack,
                forall|j: int|
                    0 <= j < i ==> kept_place(#[trigger] self.closed_stack@[stack.len() + j])
                        == tab_place(others[j]),
            decreases others.len() - i,
        {
            let ghost earlier = self.closed_stack@;
            let kept = SessionTab {
                dir: self.tabs[i].table.current_dir.clone(),
                locked: self.tabs[i].locked,
                lock_dir_change: self.tabs[i].lock_dir_change,
            };
            self.closed_stack.push(kept);
            proof {
                assert(self.closed_stack@.take(stack.len() as int) =~= earlier.take(
                    stack.len() as int,
                ));
                assert forall|j: int| 0 <= j < i + 1 implies kept_place(
                    #[trigger] self.closed_stack@[stack.len() + j],
                ) == tab_place(others[j]) by {
                    if j < i {
                        assert(self.closed_stack@[stack.len() + j] == earlier[stack.len() + j]);
                    }
                }
            }
            i = i + 1;
        }
        assert(self.closed_stack@.take(stack.len() as int) =~= stack);
        let mut tabs: Vec<TabEntry> = Vec::new();
        tabs.push(keep);
        self.tabs = tabs;
        self.active = 0;
        proof {
            assert(tab_fits(old(self).tabs@[old(self).active as int]));
            assert(self.tabs@ =~= seq![old(self).tabs@[old(self).active as int]]);
        }
    }

    /// Opens the tab again that was closed last, behind the others, with its
    /// directory and its locks. Returns what is to be listed; `None` where no
    /// tab was closed.
    pub fn reopen_closed(&mut self) -> (load: Option<Load>)
        requires
            old(self).wf(),
            old(self).tabs@.len() < usize::MAX,
        ensures
            final(self).wf(),
            last_reopened(*old(self), *final(self), load),
    {
        if self.closed_stack.len() == 0 {
            return None;
        }
        match self.closed_stack.pop() {
            Some(closed) => {
                let load = self.add_tab_entry(closed.dir, closed.locked, closed.lock_dir_change);
                self.active = self.tabs.len() - 1;
                Some(load)
            },
            None => None,
        }
    }

    /// Shows the next tab; behind the last comes the first.
    pub fn next_tab(&mut self)
        requires
            old(self).wf(),
        ensures
            final(self).wf(),
            *final(self) == (Panel {
                active: next_of(old(self).active, old(self).tabs@.len()),
                ..*old(self)
            }),
    {
        self.active = if self.active < self.tabs.len() - 1 {
            self.active + 1
        } else {
            0
        };
    }

    /// Shows the tab before; before the first comes the last.
    pub fn prev_tab(&mut self)
        requires
            old(self).wf(),
        ensures
            final(self).wf(),
            *final(self) == (Panel {
                active: prev_of(old(self).active, old(self).tabs@.len()),
                ..*old(self)
            }),
    {
        self.active = if self.active > 0 {
            self.active - 1
        } else {
            self.tabs.len() - 1
        };
    }

    /// Shows the tab at `ix`, if there is one.
    pub fn switch_to(&mut self, ix: usize)
        requires
            old(self).wf(),
        ensures
            final(self).wf(),
            *final(self) == (Panel {
                active: if ix < old(self).tabs@.len() {
                    ix
                } else {
                    old(self).active
                },
                ..*old(self)
            }),
    {
        if ix < self.tabs.len() {
            self.active = ix;
        }
    }

    fn set_locks(&mut self, locked: bool, lock_dir_change: bool)
        requires
            old(self).wf(),
        ensures
            final(self).wf(),
            locks_set(*old(self), *final(self), locked, lock_dir_change),
    {
        let ix: usize = self.active;
        let ghost before = self.tabs@;
        let mut tab = self.tabs.remove(ix);
        assert(tab_fits(before[ix as int]));
        tab.locked = locked;
        tab.lock_dir_change = lock_dir_change;
        tab.table.set_locked_navigation(locked && !lock_dir_change);
        self.tabs.insert(ix, tab);
        proof {
            assert(self.tabs@ =~= before.update(ix as int, tab));
            assert forall|i: int| 0 <= i < self.tabs@.len() implies tab_fits(
                #[trigger] self.tabs@[i],
            ) by {
                if i != ix {
                    assert(tab_fits(before[i]));
                }
            }
        }
    }

    /// Locks the active tab, or unlocks it, which also takes away that it may
    /// change its directory all the same.
    pub fn toggle_lock(&mut self)
        requires
            old(self).wf(),
        ensures
            final(self).wf(),
            ({
                let tab = old(self).tabs@[old(self).active as int];
                locks_set(
                    *old(self),
                    *final(self),
                    !tab.locked,
                    !tab.locked && tab.lock_dir_change,
                )
            }),
    {
        let locked = !self.tabs[self.active].locked;
        let lock_dir_change = locked && self.tabs[self.active].lock_dir_change;
        self.set_locks(locked, lock_dir_change);
    }

    /// Flips whether the active tab may change its directory though locked.
    /// Turning it on locks the tab.
    pub fn toggle_lock_dir_change(&mut self)
        requires
            old(self).wf(),
        ensures
            final(self).wf(),
            ({
                let tab = old(self).tabs@[old(self).active as int];
                locks_set(
                    *old(self),
                    *final(self),
                    !tab.lock_dir_change || tab.locked,
                    !tab.lock_dir_change,
                )
            }),
    {
        let lock_dir_change = !self.tabs[self.active].lock_dir_change;
        let locked = lock_dir_change || self.tabs[self.active].locked;
        self.set_locks(locked, lock_dir_change);
    }

    fn move_active(&mut self, to: usize)
        requires
            old(self).wf(),
            to < old(self).tabs@.len(),
        ensures
            final(self).wf(),
            final(self).active == to,
            final(self).tabs@ == old(self).tabs@.remove(old(self).active as int).insert(
                to as int,
                old(self).tabs@[old(self).active as int],
            ),
            final(self).closed_stack == old(self).closed_stack,
            final(self).settings == old(self).settings,
    {
        let ghost before = self.tabs@;
        let ghost from = self.active as int;
        let tab = self.tabs.remove(self.active);
        self.tabs.insert(to, tab);
        self.active = to;
        proof {
            assert forall|i: int| 0 <= i < self.tabs@.len() implies tab_fits(
                #[trigger] self.tabs@[i],
            ) by {
                assert(tab_fits(before[from]));
                if i != to {
                    let k = if i < to {
                        i
                    } else {
                        i - 1
                    };
                    let o = if k < from {
                        k
                    } else {
                        k + 1
                    };
                    assert(self.tabs@[i] == before[o]);
                    assert(tab_fits(before[o]));
                }
            }
        }
    }

    /// Swaps the active tab with the one before it.
    pub fn move_active_left(&mut self)
        requires
            old(self).wf(),
        ensures
            final(self).wf(),
            old(self).active == 0 ==> *final(self) == *old(self),
            old(self).active > 0 ==> {
                let a = old(self).active as int;
                &&& final(self).active == a - 1
                &&& final(self).tabs@ == swapped(old(self).tabs@, a, a - 1)
                &&& final(self).closed_stack == old(self).closed_stack
                &&& final(self).settings == old(self).settings
            },
    {
        if self.active == 0 {
            return;
        }
        let to: usize = self.active - 1;
        self.move_active(to);
        assert(self.tabs@ =~= swapped(old(self).tabs@, old(self).active as int, to as int));
    }

    /// Swaps the active tab with the one behind it.
    pub fn move_active_right(&mut self)
        requires
            old(self).wf(),
        ensures
            final(self).wf(),
            old(self).active + 1 == old(self).tabs@.len() ==> *final(self) == *old(self),
            old(self).active + 1 < old(self).tabs@.len() ==> {
                let a = old(self).active as int;
                &&& final(self).active == a + 1
                &&& final(self).tabs@ == swapped(old(self).tabs@, a, a + 1)
                &&& final(self).closed_stack == old(self).closed_stack
                &&& final(self).settings == old(self).settings
            },
    {
        if self.active >= self.tabs.len() - 1 {
            return;
        }
        let to: usize = self.active + 1;
        self.move_active(to);
        assert(self.tabs@ =~= swapped(old(self).tabs@, old(self).active as int, to as int));
    }

    /// The table that is shown.
    pub fn active_table(&self) -> (table: &FileTable)
        requires
            self.wf(),
        ensures
            *table == self.tabs@[self.active as int].table,
    {
        &self.tabs[self.active].table
    }

    /// The tab strip: every tab's label, and which tab is shown.
    pub fn render_tab_strip(&self) -> (strip: Vec<TabView>)
        ensures
            strip@.len() == self.tabs@.len(),
            forall|i: int|
                0 <= i < self.tabs@.len() ==> (#[trigger] strip@[i]).label@ == tab_text(
                    self.tabs@[i],
                ) && strip@[i].active == (i == self.active),
    {
        let mut strip: Vec<TabView> = Vec::new();
        while strip.len() < self.tabs.len()
            invariant
                strip@.len() <= self.tabs@.len(),
                forall|i: int|
                    0 <= i < strip@.len() ==> (#[trigger] strip@[i]).label@ == tab_text(
                        self.tabs@[i],
                    ) && strip@[i].active == (i == self.active),
            decreases self.tabs@.len() - strip@.len(),
        {
            let ix: usize = strip.len();
            let view = TabView { label: tab_label(&self.tabs[ix]), active: ix == self.active };
            strip.push(view);
        }
        strip
    }

    /// What is kept between sessions: where every tab is now, and its locks.
    pub fn snapshot(&self) -> (session: SessionPanel)
        ensures
            session.active_tab == self.active,
            session.tabs@.len() == self.tabs@.len(),
            forall|i: int|
                0 <= i < self.tabs@.len() ==> kept_place(#[trigger] session.tabs@[i]) == tab_place(
                    self.tabs@[i],
                ),
    {
        let mut tabs: Vec<SessionTab> = Vec::new();
        while tabs.len() < self.tabs.len()
            invariant
                tabs@.len() <= self.tabs@.len(),
                forall|i: int|
                    0 <= i < tabs@.len() ==> kept_place(#[trigger] tabs@[i]) == tab_place(
                        self.tabs@[i],
                    ),
            decreases self.tabs@.len() - tabs@.len(),
        {
            let tab = &self.tabs[tabs.len()];
            let kept = SessionTab {
                dir: tab.table.current_dir.clone(),
                locked: tab.locked,
                lock_dir_change: tab.lock_dir_change,
            };
            tabs.push(kept);
        }
        SessionPanel { tabs, active_tab: self.active }
    }
}

/// Whether a tab opened at the active tab's directory, not locked.
pub open spec fn plain_tab_opened(before: Panel, after: Panel, load: Load) -> bool {
    &&& tab_opened(
        before,
        after,
        (before.tabs@[before.active as int].table.current_dir@, false, false),
        load,
    )
    &&& after.closed_stack == before.closed_stack
}

/// Whether the active tab was closed and remembered; the last tab stays.
pub open spec fn active_closed(before: Panel, after: Panel) -> bool {
    &&& before.tabs@.len() == 1 ==> after == before
    &&& before.tabs@.len() > 1 ==> {
        &&& after.tabs@ == before.tabs@.remove(before.active as int)
        &&& after.active == (if before.active + 1 < before.tabs@.len() {
            before.active as int
        } else {
            before.active - 1
        })
        &&& after.closed_stack@.len() == before.closed_stack@.len() + 1
        &&& after.closed_stack@.drop_last() == before.closed_stack@
        &&& kept_place(after.closed_stack@.last()) == tab_place(
            before.tabs@[before.active as int],
        )
        &&& after.settings == before.settings
    }
}

/// Whether the tab that was closed last opened again, if any was.
pub open spec fn last_reopened(before: Panel, after: Panel, load: Option<Load>) -> bool {
    &&& before.closed_stack@.len() == 0 ==> load is None && after == before
    &&& before.closed_stack@.len() > 0 ==> load is Some && tab_opened(
        before,
        after,
        kept_place(before.closed_stack@.last()),
        load->0,
    ) && after.closed_stack@ == before.closed_stack@.drop_last()
}

pub open spec fn next_of(active: usize, count: nat) -> usize {
    if active + 1 < count {
        (active + 1) as usize
    } else {
        0
    }
}

pub open spec fn prev_of(active: usize, count: nat) -> usize {
    if active > 0 {
        (active - 1) as usize
    } else {
        (count - 1) as usize
    }
}

/// Items with two of them changed over.
pub open spec fn swapped(tabs: Seq<TabEntry>, a: int, b: int) -> Seq<TabEntry> {
    tabs.update(a, tabs[b]).update(b, tabs[a])
}

/// Whether the active tab got these locks, its table is held to its directory
/// accordingly, and nothing else changed.
pub open spec fn locks_set(
    before: Panel,
    after: Panel,
    locked: bool,
    lock_dir_change: bool,
) -> bool {
    let a = before.active as int;
    let tab = before.tabs@[a];
    &&& after.tabs@ == before.tabs@.update(
        a,
        TabEntry {
            table: FileTable { locked: locked && !lock_dir_change, ..tab.table },
            locked,
            lock_dir_change,
        },
    )
    &&& after.active == before.active
    &&& after.closed_stack == before.closed_stack
    &&& after.settings == before.settings
}

/// The next tab's tab before is the tab itself, and the other way round.
pub proof fn lemma_next_and_prev(active: usize, count: nat)
    requires
        active < count <= usize::MAX,
    ensures
        prev_of(next_of(active, count), count) == active,
        next_of(prev_of(active, count), count) == active,
{
}

/// After either toggle of its locks, a tab that may change its directory is a
/// locked one.
pub proof fn lemma_open_lock_is_a_lock(before: Panel, after: Panel)
    requires
        before.wf(),
        ({
            let tab = before.tabs@[before.active as int];
            ||| locks_set(before, after, !tab.locked, !tab.locked && tab.lock_dir_change)
            ||| locks_set(
                before,
                after,
                !tab.lock_dir_change || tab.locked,
                !tab.lock_dir_change,
            )
        }),
    ensures
        ({
            let tab = after.tabs@[after.active as int];
            tab.lock_dir_change ==> tab.locked
        }),
{
}

/// A tab that is closed and reopened has the directory and the locks that it
/// had, stands behind the others and is shown.
pub proof fn lemma_close_then_reopen(before: Panel, closed: Panel, reopened: Panel, load: Load)
    requires
        before.wf(),
        before.tabs@.len() > 1,
        active_closed(before, closed),
        last_reopened(closed, reopened, Some(load)),
    ensures
        tab_place(reopened.tabs@[reopened.active as int]) == tab_place(
            before.tabs@[before.active as int],
        ),
        reopened.active == reopened.tabs@.len() - 1,
{
}

/// A locked tab never moves: asked to go elsewhere, it stays as it is, and a
/// tab that is not locked opens there.
pub proof fn lemma_locked_tab_stays(
    tab: TabEntry,
    after: FileTable,
    dir: Seq<char>,
    select: Option<Seq<char>>,
    answer: Navigation,
)
    requires
        tab_fits(tab),
        tab.locked,
        !tab.lock_dir_change,
        navigated(tab.table, after, dir, select, answer),
    ensures
        after == tab.table,
        answer is Redirect,
        answer->Redirect_0@ == dir,
{
}

/// A tab's label.
pub open spec fn label_text(name: Seq<char>, locked: bool, lock_dir_change: bool) -> Seq<char> {
    if locked && lock_dir_change {
        "[L+] "@ + name
    } else if locked {
        "[L] "@ + name
    } else {
        name
    }
}

/// A tab's label, given its directory's name.
pub fn labelled(name: &str, locked: bool, lock_dir_change: bool) -> (text: String)
    ensures
        text@ == label_text(name@, locked, lock_dir_change),
{
    if locked && lock_dir_change {
        let mut text = "[L+] ".to_owned();
        text.append(name);
        text
    } else if locked {
        let mut text = "[L] ".to_owned();
        text.append(name);
        text
    } else {
        name.to_owned()
    }
}

/// A tab's label: its directory's name, or the whole path of one without,
/// with a mark for its locks.
pub open spec fn tab_text(tab: TabEntry) -> Seq<char> {
    label_text(
        (match path_file_name(tab.table.current_dir@) {
            Some(name) => name,
            None => tab.table.current_dir@,
        }),
        tab.locked,
        tab.lock_dir_change,
    )
}

pub fn tab_label(tab: &TabEntry) -> (text: String)
    ensures
        text@ == tab_text(*tab),
{
    match file_name_of(tab.table.current_dir.as_str()) {
        Some(name) => labelled(name.as_str(), tab.locked, tab.lock_dir_change),
        None => labelled(tab.table.current_dir.as_str(), tab.locked, tab.lock_dir_change),
    }
}

/// What a key does to the tabs.
#[derive(Clone, Copy, Debug, PartialEq, Eq, Structural)]
pub enum PanelAction {
    TabNew,
    TabClose,
    TabNext,
    TabPrev,
    TabReopenClosed,
}

pub open spec fn panel_action(keys: Seq<char>) -> Option<PanelAction> {
    if keys == "ctrl-t"@ {
        Some(PanelAction::TabNew)
    } else if keys == "ctrl-w"@ {
        Some(PanelAction::TabClose)
    } else if keys == "ctrl-tab"@ {
        Some(PanelAction::TabNext)
    } else if keys == "ctrl-shift-tab"@ {
        Some(PanelAction::TabPrev)
    } else if keys == "ctrl-shift-t"@ {
        Some(PanelAction::TabReopenClosed)
    } else {
        None
    }
}

/// The keys that the panel is bound to: the action that a keystroke stands
/// for.
pub fn bind_panel_keys(keys: &str) -> (action: Option<PanelAction>)
    ensures
        action == panel_action(keys@),
{
    if same_text(keys, "ctrl-t") {
        Some(PanelAction::TabNew)
    } else if same_text(keys, "ctrl-w") {
        Some(PanelAction::TabClose)
    } else if same_text(keys, "ctrl-tab") {
        Some(PanelAction::TabNext)
    } else if same_text(keys, "ctrl-shift-tab") {
        Some(PanelAction::TabPrev)
    } else if same_text(keys, "ctrl-shift-t") {
        Some(PanelAction::TabReopenClosed)
    } else {
        None
    }
}

/// Whether an action leads from `before` to `after`, with what is to be listed.
pub open spec fn panel_performed(
    before: Panel,
    after: Panel,
    action: PanelAction,
    load: Option<Load>,
) -> bool {
    match action {
        PanelAction::TabNew => load is Some && plain_tab_opened(before, after, load->0),
        PanelAction::TabClose => load is None && active_closed(before, after),
        PanelAction::TabNext => load is None && after == (Panel {
            active: next_of(before.active, before.tabs@.len()),
            ..before
        }),
        PanelAction::TabPrev => load is None && after == (Panel {
            active: prev_of(before.active, before.tabs@.len()),
            ..before
        }),
        PanelAction::TabReopenClosed => last_reopened(before, after, load),
    }
}

impl Panel {
    /// Does what an action asks for. Returns what is to be listed.
    pub fn perform(&mut self, action: PanelAction) -> (load: Option<Load>)
        requires
            old(self).wf(),
            old(self).tabs@.len() < usize::MAX,
        ensures
            final(self).wf(),
            panel_performed(*old(self), *final(self), action, load),
    {
        match action {
            PanelAction::TabNew => Some(self.new_tab()),
            PanelAction::TabClose => {
                self.close_active();
                None
            },
            PanelAction::TabNext => {
                self.next_tab();
                None
            },
            PanelAction::TabPrev => {
                self.prev_tab();
                None
            },
            PanelAction::TabReopenClosed => self.reopen_closed(),
        }
    }
}

/// A tab that opens stands behind the others, which stay as they are, and is
/// shown. It is at the directory and has the locks that it was asked for; its
/// table is held to that directory where it is locked and may not change it, and
/// has the widths of the tab that was shown.
pub proof fn lemma_opened_tab(
    before: Panel,
    after: Panel,
    place: (Seq<char>, bool, bool),
    load: Load,
)
    requires
        before.wf(),
        tab_opened(before, after, place, load),
    ensures
        after.tabs@.len() == before.tabs@.len() + 1,
        forall|i: int| 0 <= i < before.tabs@.len() ==> #[trigger] after.tabs@[i] == before.tabs@[i],
        after.active == before.tabs@.len(),
        ({
            let tab = after.tabs@[after.active as int];
            let shown = before.tabs@[before.active as int].table.delegate;
            &&& tab.table.current_dir@ == place.0
            &&& tab.locked == place.1
            &&& tab.lock_dir_change == place.2
            &&& tab.table.locked <==> place.1 && !place.2
            &&& tab.table.history_back@.len() == 0
            &&& tab.table.delegate.mouse_mode == before.settings.mouse_mode
            &&& load.dir@ == place.0
            &&& load.generation == tab.table.delegate.nav_generation
            &&& shown.last_available_width is Some ==> tab.table.delegate.widths == shown.widths
        }),
{
    assert forall|i: int| 0 <= i < before.tabs@.len() implies #[trigger] after.tabs@[i]
        == before.tabs@[i] by {
        assert(after.tabs@.drop_last()[i] == after.tabs@[i]);
    }
}

/// A new tab is at the directory of the tab that was shown, and is not locked.
pub proof fn lemma_new_tab(before: Panel, after: Panel, load: Load)
    requires
        before.wf(),
        plain_tab_opened(before, after, load),
    ensures
        ({
            let tab = after.tabs@[after.active as int];
            &&& tab.table.current_dir@ == before.tabs@[before.active as int].table.current_dir@
            &&& !tab.locked && !tab.lock_dir_change && !tab.table.locked
            &&& after.tabs@.len() == before.tabs@.len() + 1
            &&& after.closed_stack == before.closed_stack
        }),
{
}

/// What is kept of a tab between sessions is its directory and its two locks,
/// and a tab that opens from it has all three again.
pub proof fn lemma_session_brings_tabs_back(
    tab: TabEntry,
    kept: SessionTab,
    again: TabEntry,
    seed: Option<([u32; 3], u32)>,
    settings: FileTableSettings,
    load: Load,
)
    requires
        kept_place(kept) == tab_place(tab),
        opened_at(again, kept_place(kept), seed, settings, load),
    ensures
        kept.dir@ == tab.table.current_dir@,
        kept.locked == tab.locked,
        kept.lock_dir_change == tab.lock_dir_change,
        again.table.current_dir@ == tab.table.current_dir@,
        again.locked == tab.locked,
        again.lock_dir_change == tab.lock_dir_change,
        load.dir@ == tab.table.current_dir@,
{
}

/// Closing takes the shown tab away and no other, unless it is the only one. The
/// tab that stood behind it is shown, or else the last.
pub proof fn lemma_close(before: Panel, after: Panel, i: int)
    requires
        before.wf(),
        active_closed(before, after),
        0 <= i < before.tabs@.len() - 1,
    ensures
        after.tabs@.len() == before.tabs@.len() - 1,
        after.tabs@[i] == before.tabs@[if i < before.active {
            i
        } else {
            i + 1
        }],
        before.active < before.tabs@.len() - 1 ==> after.tabs@[after.active as int]
            == before.tabs@[before.active + 1],
        before.active == before.tabs@.len() - 1 ==> after.tabs@[after.active as int]
            == before.tabs@[before.active - 1],
        after.closed_stack@.len() == before.closed_stack@.len() + 1,
        after.closed_stack@.last().dir@ == before.tabs@[before.active as int].table.current_dir@,
        after.closed_stack@.last().locked == before.tabs@[before.active as int].locked,
        after.closed_stack@.last().lock_dir_change
            == before.tabs@[before.active as int].lock_dir_change,
{
}

/// The only tab cannot be closed.
pub proof fn lemma_last_tab_stays(before: Panel, after: Panel)
    requires
        before.tabs@.len() == 1,
        active_closed(before, after),
    ensures
        after == before,
{
}

/// Tabs that are closed reopen in the opposite order, each with its directory
/// and its locks, behind the tabs that are there; where none was closed nothing
/// happens.
pub proof fn lemma_reopen(
    before: Panel,
    after: Panel,
    load: Option<Load>,
)
    requires
        before.wf(),
        last_reopened(before, after, load),
    ensures
        before.closed_stack@.len() == 0 ==> after == before && load is None,
        before.closed_stack@.len() > 0 ==> {
            let closed = before.closed_stack@[before.closed_stack@.len() - 1];
            let tab = after.tabs@[after.active as int];
            &&& load is Some
            &&& after.tabs@.len() == before.tabs@.len() + 1
            &&& after.active == before.tabs@.len()
            &&& tab.table.current_dir@ == closed.dir@
            &&& tab.locked == closed.locked
            &&& tab.lock_dir_change == closed.lock_dir_change
            &&& after.closed_stack@ == before.closed_stack@.take(before.closed_stack@.len() - 1)
        },
{
    if before.closed_stack@.len() > 0 {
        assert(before.closed_stack@.drop_last() =~= before.closed_stack@.take(
            before.closed_stack@.len() - 1,
        ));
    }
}

/// Tabs follow one another in a ring.
pub proof fn lemma_tabs_stand_in_a_ring(active: usize, count: nat)
    requires
        active < count <= usize::MAX,
    ensures
        next_of(active, count) == (active + 1) % count as int,
        prev_of(active, count) == (active + count - 1) % count as int,
{
    if active + 1 < count {
        vstd::arithmetic::div_mod::lemma_small_mod((active + 1) as nat, count);
    } else {
        vstd::arithmetic::div_mod::lemma_mod_self_0(count as int);
    }
    if active > 0 {
        vstd::arithmetic::div_mod::lemma_small_mod((active - 1) as nat, count);
        vstd::arithmetic::div_mod::lemma_mod_add_multiples_vanish(active - 1, count as int);
        assert(active + count - 1 == count + (active - 1));
    } else {
        vstd::arithmetic::div_mod::lemma_small_mod((count - 1) as nat, count);
    }
}

/// Two tabs that are changed over stand in each other's place, and the others
/// where they stood; changed over again, all do.
pub proof fn lemma_changed_over(tabs: Seq<TabEntry>, a: int, b: int, i: int)
    requires
        0 <= a < tabs.len(),
        0 <= b < tabs.len(),
        0 <= i < tabs.len(),
    ensures
        swapped(tabs, a, b).len() == tabs.len(),
        swapped(tabs, a, b)[i] == (if i == a {
            tabs[b]
        } else if i == b {
            tabs[a]
        } else {
            tabs[i]
        }),
        swapped(swapped(tabs, a, b), a, b) == tabs,
{
    assert(swapped(swapped(tabs, a, b), a, b) =~= tabs);
}

/// Setting locks changes the shown tab's locks and nothing else of it or of any
/// other tab; its table is held where the tab is locked and may not change its
/// directory.
pub proof fn lemma_locks(before: Panel, after: Panel, locked: bool, lock_dir_change: bool, i: int)
    requires
        before.wf(),
        locks_set(before, after, locked, lock_dir_change),
        0 <= i < before.tabs@.len(),
    ensures
        after.active == before.active,
        after.tabs@.len() == before.tabs@.len(),
        i != before.active ==> after.tabs@[i] == before.tabs@[i],
        ({
            let was = before.tabs@[before.active as int];
            let tab = after.tabs@[after.active as int];
            &&& tab.locked == locked
            &&& tab.lock_dir_change == lock_dir_change
            &&& tab.table.locked <==> locked && !lock_dir_change
            &&& tab.table.current_dir == was.table.current_dir
            &&& tab.table.delegate == was.table.delegate
            &&& tab.table.history_back == was.table.history_back
            &&& tab.table.history_forward == was.table.history_forward
        }),
{
}

/// A label is a name behind a mark that tells the locks: none, locked, or locked
/// with leave to change the directory.
pub proof fn lemma_label(name: Seq<char>, locked: bool, lock_dir_change: bool)
    ensures
        name.is_suffix_of(label_text(name, locked, lock_dir_change)),
        !locked ==> label_text(name, locked, lock_dir_change) == name,
        locked && !lock_dir_change ==> label_text(name, locked, lock_dir_change) == seq![
            '[',
            'L',
            ']',
            ' ',
        ] + name,
        locked && lock_dir_change ==> label_text(name, locked, lock_dir_change) == seq![
            '[',
            'L',
            '+',
            ']',
            ' ',
        ] + name,
{
    reveal_strlit("[L] ");
    reveal_strlit("[L+] ");
    assert("[L] "@ =~= seq!['[', 'L', ']', ' ']);
    assert("[L+] "@ =~= seq!['[', 'L', '+', ']', ' ']);
    let text = label_text(name, locked, lock_dir_change);
    assert(text.skip(text.len() - name.len()) =~= name);
}

/// A tab is labelled with its directory's name; the root, which has none, with
/// its path.
pub proof fn lemma_tab_is_named(tab: TabEntry)
    requires
        !tab.locked,
    ensures
        match path_file_name(tab.table.current_dir@) {
            Some(name) => tab_text(tab) == name,
            None => tab_text(tab) == tab.table.current_dir@,
        },
{
}

/// Each key has its action, and each action its key.
pub proof fn lemma_keys_of_the_panel(keys: Seq<char>)
    ensures
        match panel_action(keys) {
            Some(PanelAction::TabNew) => keys == "ctrl-t"@,
            Some(PanelAction::TabClose) => keys == "ctrl-w"@,
            Some(PanelAction::TabNext) => keys == "ctrl-tab"@,
            Some(PanelAction::TabPrev) => keys == "ctrl-shift-tab"@,
            Some(PanelAction::TabReopenClosed) => keys == "ctrl-shift-t"@,
            None => !seq![
                "ctrl-t"@,
                "ctrl-w"@,
                "ctrl-tab"@,
                "ctrl-shift-tab"@,
                "ctrl-shift-t"@,
            ].contains(keys),
        },
{
}

/// What each action does to the tabs: one more, one fewer, or another one shown.
pub proof fn lemma_panel_actions(before: Panel, after: Panel, action: PanelAction, load: Option<Load>)
    requires
        before.wf(),
        before.tabs@.len() > 1,
        before.closed_stack@.len() > 0,
        panel_performed(before, after, action, load),
    ensures
        match action {
            PanelAction::TabNew => {
                &&& after.tabs@.len() == before.tabs@.len() + 1
                &&& after.closed_stack == before.closed_stack
                &&& load is Some
            },
            PanelAction::TabClose => {
                &&& after.tabs@.len() == before.tabs@.len() - 1
                &&& after.closed_stack@.len() == before.closed_stack@.len() + 1
                &&& load is None
            },
            PanelAction::TabReopenClosed => {
                &&& after.tabs@.len() == before.tabs@.len() + 1
                &&& after.closed_stack@.len() == before.closed_stack@.len() - 1
                &&& load is Some
            },
            PanelAction::TabNext => {
                &&& after.tabs == before.tabs
                &&& after.active == (before.active + 1) % before.tabs@.len() as int
                &&& load is None
            },
            PanelAction::TabPrev => {
                &&& after.tabs == before.tabs
                &&& after.active == (before.active + before.tabs@.len() - 1)
                    % before.tabs@.len() as int
                &&& load is None
            },
        },
{
    assert(before.tabs@.len() == before.tabs.len());
    lemma_tabs_stand_in_a_ring(before.active, before.tabs@.len());
}

} // verus!
