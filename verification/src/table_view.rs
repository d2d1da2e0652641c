//! A tab's file table: where it is, where it has been, and what keys, clicks
//! and finished background work do to it.

use crate::columns::{EntryKind, SortColumn, NAME_MIN};
use crate::file_table::{
    cursor_toggled, extended, lemma_cursor_goes_where_it_is_asked, lemma_first_row_of_a_name,
    lemma_range_is_selected, lemma_shown_row, lemma_toggle_flips_one, only_selection, row_named,
    FileTableDelegate, MODIFIED_WIDTH, SIZE_WIDTH,
};
use crate::listing::{DirectoryModel, Entry, EntryId, SortOptions};
use crate::paths::{
    components, file_name_of, joined, lemma_components_of_entry, parent_of, path_file_name,
    path_join, path_parent,
};
use crate::quick_search::{MouseMode, QuickSearchMode};
use crate::table_search::{lemma_ending_a_session_shows_everything, search_cleared};
use crate::text::{chars_of, same_text, text_of};
use vstd::prelude::*;

verus! {

/// What a file table tells its panel.
#[derive(Clone, Copy, Debug, PartialEq, Eq, Structural)]
pub enum FileTableEvent {
    DirectoryChanged,
}

/// Space on the volume that holds a directory.
#[derive(Clone, Copy, Debug, PartialEq, Eq, Structural)]
pub struct VolumeStats {
    pub total_bytes: u64,
    pub free_bytes: u64,
}

/// What a tab starts from.
#[derive(Debug, PartialEq, Eq)]
pub struct TabRestore {
    pub cursor_name: Option<String>,
    pub sort: (SortColumn, bool),
}

impl Default for TabRestore {
    /// No entry to go to, sorted by name.
    fn default() -> (restore: Self)
        ensures
            restore.cursor_name is None,
            restore.sort == (SortColumn::Name, true),
    {
        TabRestore { cursor_name: None, sort: (SortColumn::Name, true) }
    }
}

/// The settings that every table takes.
#[derive(Clone, Copy, Debug, PartialEq, Eq, Structural)]
pub struct FileTableSettings {
    pub mouse_mode: MouseMode,
    pub quick_search_default_mode: QuickSearchMode,
    pub quick_search_idle_timeout_ms: u64,
}

/// A directory that is to be listed in the background.
#[derive(Debug, PartialEq, Eq)]
pub struct Load {
    pub dir: String,
    /// The entry that the cursor goes to.
    pub select_name: Option<String>,
    pub sort: (SortColumn, bool),
    /// The navigation that the listing belongs to.
    pub generation: u64,
}

/// Whether a table is as it starts: nothing listed yet, sorted by name, nothing
/// behind or ahead, and the columns as wide as a sibling's that has been measured.
pub open spec fn fresh_table(
    table: FileTable,
    width_seed: Option<([u32; 3], u32)>,
    settings: FileTableSettings,
) -> bool {
    let d = table.delegate;
    &&& table.wf()
    &&& table.volume_stats is None
    &&& table.history_back@.len() == 0
    &&& table.history_forward@.len() == 0
    &&& table.quick_search_idle_timeout_ms == settings.quick_search_idle_timeout_ms
    &&& d.model.entries@.len() == 0
    &&& d.model.sort == (SortOptions { column: SortColumn::Name, ascending: true })
    &&& d.rows() == 0
    &&& d.loading
    &&& d.quick_search is None
    &&& d.search_count == 0
    &&& d.nav_generation == 0
    &&& !d.has_parent_row
    &&& !d.cursor_on_parent
    &&& d.range_anchor is None
    &&& d.mouse_mode == settings.mouse_mode
    &&& d.quick_search_default_mode == settings.quick_search_default_mode
    &&& match width_seed {
        Some(seed) => d.widths == seed.0 && d.last_available_width == Some(seed.1),
        None => d.last_available_width is None && d.widths@ == seq![
            NAME_MIN,
            SIZE_WIDTH,
            MODIFIED_WIDTH,
        ],
    }
}

/// What a request to go somewhere leads to.
#[derive(Debug, PartialEq, Eq)]
pub enum Navigation {
    /// There is nowhere to go.
    Stay,
    /// The tab is locked: a new tab opens at the directory.
    Redirect(String),
    /// The table changed its directory, which is to be listed.
    Go(Load),
}

#[derive(Debug, PartialEq, Eq)]
pub struct FileTable {
    pub delegate: FileTableDelegate,
    pub current_dir: String,
    pub volume_stats: Option<VolumeStats>,
    pub history_back: Vec<String>,
    pub history_forward: Vec<String>,
    /// Whether going elsewhere opens a new tab.
    pub locked: bool,
    pub quick_search_idle_timeout_ms: u64,
}

/// Where a table is, and the directories behind and ahead of it.
pub open spec fn went_back(here: String, back: Seq<String>, ahead: Seq<String>) -> (
    String,
    Seq<String>,
    Seq<String>,
) {
    (back.last(), back.drop_last(), ahead.push(here))
}

pub open spec fn went_forward(here: String, back: Seq<String>, ahead: Seq<String>) -> (
    String,
    Seq<String>,
    Seq<String>,
) {
    (ahead.last(), back.push(here), ahead.drop_last())
}

/// Going back and forward again leads to where one was, with the same
/// directories behind and ahead; so does going forward and back.
pub proof fn lemma_back_and_forward(here: String, back: Seq<String>, ahead: Seq<String>)
    ensures
        back.len() > 0 ==> ({
            let there = went_back(here, back, ahead);
            went_forward(there.0, there.1, there.2) == (here, back, ahead)
        }),
        ahead.len() > 0 ==> ({
            let there = went_forward(here, back, ahead);
            went_back(there.0, there.1, there.2) == (here, back, ahead)
        }),
{
    if back.len() > 0 {
        assert(back.drop_last().push(back.last()) =~= back);
        assert(ahead.push(here).drop_last() =~= ahead);
    }
    if ahead.len() > 0 {
        assert(ahead.drop_last().push(ahead.last()) =~= ahead);
        assert(back.push(here).drop_last() =~= back);
    }
}

/// Whether `load` lists `dir` for the table as it was before.
pub open spec fn load_of(before: FileTable, load: Load, dir: Seq<char>, select: Option<Seq<char>>)
    -> bool {
    &&& load.dir@ == dir
    &&& text_of(load.select_name) == select
    &&& load.sort == (before.delegate.model.sort.column, before.delegate.model.sort.ascending)
    &&& load.generation == before.delegate.nav_generation + 1
}

/// Whether `after` is on its way to `dir`: the session has ended, the table
/// shows that it is loading, and listings of earlier navigations are late.
pub open spec fn on_the_way(before: FileTable, after: FileTable, dir: Seq<char>) -> bool {
    &&& after.current_dir@ == dir
    &&& after.volume_stats == before.volume_stats
    &&& after.locked == before.locked
    &&& after.quick_search_idle_timeout_ms == before.quick_search_idle_timeout_ms
    &&& exists|cleared: FileTableDelegate|
        {
            &&& #[trigger] search_cleared(before.delegate, cleared)
            &&& cleared.wf()
            &&& after.delegate == (FileTableDelegate {
                nav_generation: (before.delegate.nav_generation + 1) as u64,
                loading: true,
                ..cleared
            })
        }
}

/// Whether asking for `dir` leads from `before` to `after`.
pub open spec fn navigated(
    before: FileTable,
    after: FileTable,
    dir: Seq<char>,
    select: Option<Seq<char>>,
    answer: Navigation,
) -> bool {
    if before.locked {
        &&& after == before
        &&& answer is Redirect
        &&& answer->Redirect_0@ == dir
    } else {
        &&& on_the_way(before, after, dir)
        &&& after.history_back@ == before.history_back@.push(before.current_dir)
        &&& after.history_forward@.len() == 0
        &&& answer is Go
        &&& load_of(before, answer->Go_0, dir, select)
    }
}

/// A cursor key.
#[derive(Clone, Copy, Debug, PartialEq, Eq, Structural)]
pub enum CursorKey {
    Up,
    Down,
    Home,
    End,
    PageUp,
    PageDown,
}

/// What a key does in the table.
#[derive(Clone, Copy, Debug, PartialEq, Eq, Structural)]
pub enum TableAction {
    Cursor(CursorKey),
    ExtendSelection(CursorKey),
    ToggleSelectionAndAdvance,
    ToggleSelection,
    InvertSelection,
    SelectAll,
    DeselectAll,
    SelectSameExtension,
    EnterDirectory,
    NavigateParent,
    NavigateRoot,
    NavigateHome,
    HistoryBack,
    HistoryForward,
    QuickSearchCancel,
    QuickFilterToggle,
}

/// The action that a keystroke stands for.
pub open spec fn action_of(keys: Seq<char>) -> Option<TableAction> {
    if keys == "up"@ {
        Some(TableAction::Cursor(CursorKey::Up))
    } else if keys == "down"@ {
        Some(TableAction::Cursor(CursorKey::Down))
    } else if keys == "home"@ || keys == "ctrl-home"@ {
        Some(TableAction::Cursor(CursorKey::Home))
    } else if keys == "end"@ || keys == "ctrl-end"@ {
        Some(TableAction::Cursor(CursorKey::End))
    } else if keys == "pageup"@ {
        Some(TableAction::Cursor(CursorKey::PageUp))
    } else if keys == "pagedown"@ {
        Some(TableAction::Cursor(CursorKey::PageDown))
    } else if keys == "insert"@ {
        Some(TableAction::ToggleSelectionAndAdvance)
    } else if keys == "space"@ {
        Some(TableAction::ToggleSelection)
    } else if keys == "*"@ {
        Some(TableAction::InvertSelection)
    } else if keys == "ctrl-+"@ {
        Some(TableAction::SelectAll)
    } else if keys == "ctrl--"@ {
        Some(TableAction::DeselectAll)
    } else if keys == "shift-+"@ {
        Some(TableAction::SelectSameExtension)
    } else if keys == "shift-up"@ {
        Some(TableAction::ExtendSelection(CursorKey::Up))
    } else if keys == "shift-down"@ {
        Some(TableAction::ExtendSelection(CursorKey::Down))
    } else if keys == "shift-home"@ {
        Some(TableAction::ExtendSelection(CursorKey::Home))
    } else if keys == "shift-end"@ {
        Some(TableAction::ExtendSelection(CursorKey::End))
    } else if keys == "shift-pageup"@ {
        Some(TableAction::ExtendSelection(CursorKey::PageUp))
    } else if keys == "shift-pagedown"@ {
        Some(TableAction::ExtendSelection(CursorKey::PageDown))
    } else if keys == "enter"@ || keys == "ctrl-pagedown"@ {
        Some(TableAction::EnterDirectory)
    } else if keys == "backspace"@ || keys == "ctrl-pageup"@ || keys == "alt-up"@ {
        Some(TableAction::NavigateParent)
    } else if keys == "ctrl-\\"@ {
        Some(TableAction::NavigateRoot)
    } else if keys == "alt-home"@ {
        Some(TableAction::NavigateHome)
    } else if keys == "alt-left"@ {
        Some(TableAction::HistoryBack)
    } else if keys == "alt-right"@ {
        Some(TableAction::HistoryForward)
    } else if keys == "escape"@ {
        Some(TableAction::QuickSearchCancel)
    } else if keys == "ctrl-p"@ {
        Some(TableAction::QuickFilterToggle)
    } else {
        None
    }
}

/// The keys that the table is bound to: the action that a keystroke stands
/// for.
pub fn bind_file_table_keys(keys: &str) -> (action: Option<TableAction>)
    ensures
        action == action_of(keys@),
{
    if same_text(keys, "up") {
        Some(TableAction::Cursor(CursorKey::Up))
    } else if same_text(keys, "down") {
        Some(TableAction::Cursor(CursorKey::Down))
    } else if same_text(keys, "home") || same_text(keys, "ctrl-home") {
        Some(TableAction::Cursor(CursorKey::Home))
    } else if same_text(keys, "end") || same_text(keys, "ctrl-end") {
        Some(TableAction::Cursor(CursorKey::End))
    } else if same_text(keys, "pageup") {
        Some(TableAction::Cursor(CursorKey::PageUp))
    } else if same_text(keys, "pagedown") {
        Some(TableAction::Cursor(CursorKey::PageDown))
    } else if same_text(keys, "insert") {
        Some(TableAction::ToggleSelectionAndAdvance)
    } else if same_text(keys, "space") {
        Some(TableAction::ToggleSelection)
    } else if same_text(keys, "*") {
        Some(TableAction::InvertSelection)
    } else if same_text(keys, "ctrl-+") {
        Some(TableAction::SelectAll)
    } else if same_text(keys, "ctrl--") {
        Some(TableAction::DeselectAll)
    } else if same_text(keys, "shift-+") {
        Some(TableAction::SelectSameExtension)
    } else if same_text(keys, "shift-up") {
        Some(TableAction::ExtendSelection(CursorKey::Up))
    } else if same_text(keys, "shift-down") {
        Some(TableAction::ExtendSelection(CursorKey::Down))
    } else if same_text(keys, "shift-home") {
        Some(TableAction::ExtendSelection(CursorKey::Home))
    } else if same_text(keys, "shift-end") {
        Some(TableAction::ExtendSelection(CursorKey::End))
    } else if same_text(keys, "shift-pageup") {
        Some(TableAction::ExtendSelection(CursorKey::PageUp))
    } else if same_text(keys, "shift-pagedown") {
        Some(TableAction::ExtendSelection(CursorKey::PageDown))
    } else if same_text(keys, "enter") || same_text(keys, "ctrl-pagedown") {
        Some(TableAction::EnterDirectory)
    } else if same_text(keys, "backspace") || same_text(keys, "ctrl-pageup") || same_text(
        keys,
        "alt-up",
    ) {
        Some(TableAction::NavigateParent)
    } else if same_text(keys, "ctrl-\\") {
        Some(TableAction::NavigateRoot)
    } else if same_text(keys, "alt-home") {
        Some(TableAction::NavigateHome)
    } else if same_text(keys, "alt-left") {
        Some(TableAction::HistoryBack)
    } else if same_text(keys, "alt-right") {
        Some(TableAction::HistoryForward)
    } else if same_text(keys, "escape") {
        Some(TableAction::QuickSearchCancel)
    } else if same_text(keys, "ctrl-p") {
        Some(TableAction::QuickFilterToggle)
    } else {
        None
    }
}

/// The character that a keystroke types into a search: exactly one, and none
/// while a modifier other than Shift is held.
pub fn typed_char(
    control: bool,
    alt: bool,
    platform: bool,
    function: bool,
    key_char: Option<&str>,
) -> (c: Option<char>)
    ensures
        c == (match key_char {
            Some(text) => if text@.len() == 1 && !control && !alt && !platform && !function {
                Some(text@[0])
            } else {
                None
            },
            None => None,
        }),
{
    if control || alt || platform || function {
        return None;
    }
    match key_char {
        Some(text) => {
            let chars = chars_of(text);
            if chars.len() == 1 {
                Some(chars[0])
            } else {
                None
            }
        },
        None => None,
    }
}

/// The row to scroll to so that `row` is seen: none where it already is, that
/// is from `first` up to but excluding `end`.
pub fn scroll_for(row: usize, first: usize, end: usize) -> (target: Option<usize>)
    ensures
        target == (if first <= row < end {
            None
        } else {
            Some(row)
        }),
{
    if first <= row && row < end {
        None
    } else {
        Some(row)
    }
}

/// How many rows a page key moves by where rows `first` up to `end` are seen.
pub open spec fn page_of(first: usize, end: usize) -> int {
    if end > first {
        end - first
    } else {
        1
    }
}

fn page_size(first: usize, end: usize) -> (rows: usize)
    ensures
        rows == page_of(first, end),
{
    if end > first {
        end - first
    } else {
        1
    }
}

impl FileTable {
    pub open spec fn wf(self) -> bool {
        self.delegate.wf()
    }

    /// A table at `dir`, to be listed.
    pub fn new(
        dir: String,
        width_seed: Option<([u32; 3], u32)>,
        restore: TabRestore,
        settings: FileTableSettings,
    ) -> (r: (FileTable, Load))
        ensures
            fresh_table(r.0, width_seed, settings),
            r.0.current_dir == dir,
            !r.0.locked,
            r.1.dir@ == dir@,
            r.1.select_name == restore.cursor_name,
            r.1.sort == restore.sort,
            r.1.generation == 0,
    {
        let mut delegate = FileTableDelegate::new(DirectoryModel::new());
        if let Some((widths, available)) = width_seed {
            delegate.seed_column_widths(widths, available);
        }
        delegate.set_mouse_mode(settings.mouse_mode);
        delegate.set_quick_search_default_mode(settings.quick_search_default_mode);
        let load = Load {
            dir: dir.clone(),
            select_name: restore.cursor_name,
            sort: restore.sort,
            generation: 0,
        };
        (
            FileTable {
                delegate,
                current_dir: dir,
                volume_stats: None,
                history_back: Vec::new(),
                history_forward: Vec::new(),
                locked: false,
                quick_search_idle_timeout_ms: settings.quick_search_idle_timeout_ms,
            },
            load,
        )
    }

    /// Locks the table, or lets it go elsewhere again.
    pub fn set_locked_navigation(&mut self, locked: bool)
        ensures
            *final(self) == (FileTable { locked, ..*old(self) }),
    {
        self.locked = locked;
    }

    pub fn state(&self) -> (state: &FileTableDelegate)
        ensures
            *state == self.delegate,
    {
        &self.delegate
    }

    pub fn current_dir(&self) -> (dir: &str)
        ensures
            dir@ == self.current_dir@,
    {
        self.current_dir.as_str()
    }

    pub fn volume_stats(&self) -> (stats: Option<VolumeStats>)
        ensures
            stats == self.volume_stats,
    {
        self.volume_stats
    }

    pub fn sort_state(&self) -> (sort: (SortColumn, bool))
        ensures
            sort == (self.delegate.model.sort.column, self.delegate.model.sort.ascending),
    {
        let sort = self.delegate.model.sort_options();
        (sort.column, sort.ascending)
    }

    /// Changes the directory; the history is the caller's.
    fn depart(&mut self, dir: String, select_name: Option<String>) -> (load: Load)
        requires
            old(self).wf(),
            old(self).delegate.nav_generation < u64::MAX,
        ensures
            final(self).wf(),
            on_the_way(*old(self), *final(self), dir@),
            final(self).current_dir == dir,
            final(self).history_back == old(self).history_back,
            final(self).history_forward == old(self).history_forward,
            load_of(*old(self), load, dir@, text_of(select_name)),
    {
        self.delegate.clear_quick_search();
        let ghost cleared = self.delegate;
        let sort = self.sort_state();
        let generation = self.delegate.bump_nav_generation();
        self.delegate.set_loading(true);
        self.current_dir = dir.clone();
        assert(search_cleared(old(self).delegate, cleared));
        Load { dir, select_name, sort, generation }
    }

    /// Goes to `dir`, unless the table is locked. The listing keeps the order
    /// of the one before, and the cursor goes to `select_name`.
    pub fn navigate_to(&mut self, dir: String, select_name: Option<String>) -> (answer: Navigation)
        requires
            old(self).wf(),
            old(self).delegate.nav_generation < u64::MAX,
        ensures
            final(self).wf(),
            navigated(*old(self), *final(self), dir@, text_of(select_name), answer),
    {
        if self.locked {
            return Navigation::Redirect(dir);
        }
        let here = self.current_dir.clone();
        let load = self.depart(dir, select_name);
        self.history_back.push(here);
        self.history_forward = Vec::new();
        Navigation::Go(load)
    }

    /// Enter: goes into the directory under the cursor, or up from the `..`
    /// row.
    pub fn enter_cursor_directory(&mut self) -> (answer: Navigation)
        requires
            old(self).wf(),
            old(self).delegate.nav_generation < u64::MAX,
        ensures
            final(self).wf(),
            went_in(*old(self), *final(self), answer),
    {
        if self.delegate.cursor_on_parent {
            return self.navigate_to_parent();
        }
        match self.delegate.cursor_dir_name() {
            Some(name) => {
                let target = joined(self.current_dir.as_str(), name.as_str());
                self.navigate_to(target, None)
            },
            None => Navigation::Stay,
        }
    }

    /// Goes to the directory above, with the cursor on the one that was left.
    pub fn navigate_to_parent(&mut self) -> (answer: Navigation)
        requires
            old(self).wf(),
            old(self).delegate.nav_generation < u64::MAX,
        ensures
            final(self).wf(),
            went_up(*old(self), *final(self), answer),
    {
        match parent_of(self.current_dir.as_str()) {
            Some(parent) => {
                let child = file_name_of(self.current_dir.as_str());
                self.navigate_to(parent, child)
            },
            None => Navigation::Stay,
        }
    }

    pub fn navigate_to_root(&mut self) -> (answer: Navigation)
        requires
            old(self).wf(),
            old(self).delegate.nav_generation < u64::MAX,
        ensures
            final(self).wf(),
            navigated(*old(self), *final(self), "/"@, None, answer),
    {
        self.navigate_to("/".to_owned(), None)
    }

    /// Goes to the home directory, where the environment names one.
    pub fn navigate_to_home(&mut self, home: Option<String>) -> (answer: Navigation)
        requires
            old(self).wf(),
            old(self).delegate.nav_generation < u64::MAX,
        ensures
            final(self).wf(),
            match home {
                Some(dir) => navigated(*old(self), *final(self), dir@, None, answer),
                None => *final(self) == *old(self) && answer is Stay,
            },
    {
        match home {
            Some(dir) => self.navigate_to(dir, None),
            None => Navigation::Stay,
        }
    }

    /// Goes to the directory behind.
    pub fn navigate_history_back(&mut self) -> (answer: Navigation)
        requires
            old(self).wf(),
            old(self).delegate.nav_generation < u64::MAX,
        ensures
            final(self).wf(),
            if old(self).history_back@.len() == 0 {
                *final(self) == *old(self) && answer is Stay
            } else {
                history_stepped(
                    *old(self),
                    *final(self),
                    went_back(
                        old(self).current_dir,
                        old(self).history_back@,
                        old(self).history_forward@,
                    ),
                    answer,
                )
            },
    {
        if self.history_back.len() == 0 {
            return Navigation::Stay;
        }
        match self.history_back.pop() {
            None => Navigation::Stay,
            Some(dir) => {
                let here = self.current_dir.clone();
                self.history_forward.push(here);
                if self.locked {
                    return Navigation::Redirect(dir);
                }
                let ghost before = *self;
                let load = self.depart(dir, None);
                proof {
                    let cleared = choose|cleared: FileTableDelegate|
                        {
                            &&& #[trigger] search_cleared(before.delegate, cleared)
                            &&& self.delegate == (FileTableDelegate {
                                nav_generation: (before.delegate.nav_generation + 1) as u64,
                                loading: true,
                                ..cleared
                            })
                        };
                    assert(search_cleared(old(self).delegate, cleared));
                }
                Navigation::Go(load)
            },
        }
    }

    /// Goes to the directory ahead.
    pub fn navigate_history_forward(&mut self) -> (answer: Navigation)
        requires
            old(self).wf(),
            old(self).delegate.nav_generation < u64::MAX,
        ensures
            final(self).wf(),
            if old(self).history_forward@.len() == 0 {
                *final(self) == *old(self) && answer is Stay
            } else {
                history_stepped(
                    *old(self),
                    *final(self),
                    went_forward(
                        old(self).current_dir,
                        old(self).history_back@,
                        old(self).history_forward@,
                    ),
                    answer,
                )
            },
    {
        if self.history_forward.len() == 0 {
            return Navigation::Stay;
        }
        match self.history_forward.pop() {
            None => Navigation::Stay,
            Some(dir) => {
                let here = self.current_dir.clone();
                self.history_back.push(here);
                if self.locked {
                    return Navigation::Redirect(dir);
                }
                let ghost before = *self;
                let load = self.depart(dir, None);
                proof {
                    let cleared = choose|cleared: FileTableDelegate|
                        {
                            &&& #[trigger] search_cleared(before.delegate, cleared)
                            &&& self.delegate == (FileTableDelegate {
                                nav_generation: (before.delegate.nav_generation + 1) as u64,
                                loading: true,
                                ..cleared
                            })
                        };
                    assert(search_cleared(old(self).delegate, cleared));
                }
                Navigation::Go(load)
            },
        }
    }

    /// A listing came in. One of an earlier navigation is thrown away. Else
    /// it is shown, with the cursor on `select_name` where that is there.
    /// Returns the display row to scroll to, or `None` for a late listing.
    pub fn apply_listing(
        &mut self,
        generation: u64,
        model: DirectoryModel,
        has_parent: bool,
        select_name: Option<&str>,
    ) -> (shown: Option<Option<usize>>)
        requires
            old(self).wf(),
            model.wf(),
        ensures
            final(self).wf(),
            listing_applied(
                *old(self),
                *final(self),
                generation,
                model,
                has_parent,
                match select_name {
                    Some(name) => Some(name@),
                    None => None,
                },
                shown,
            ),
    {
        if self.delegate.nav_generation() != generation {
            return None;
        }
        self.delegate.set_model(model);
        self.delegate.set_has_parent_row(has_parent);
        let ghost fresh = self.delegate;
        assert(shows_fresh(old(self).delegate, fresh, model, has_parent));
        if let Some(name) = select_name {
            self.delegate.select_row_by_name(name);
        }
        let ghost moved = self.delegate;
        self.delegate.set_loading(false);
        proof {
            assert(self.delegate.text_matches()) by {
                assert(moved.text_matches());
            }
        }
        Some(self.delegate.display_row())
    }

    /// The listing that `load` asked for came in. Where it is not late it is
    /// shown, under a `..` row in every directory that has a parent. Returns the
    /// display row to scroll to, or `None` for a late listing.
    pub fn finish_load(&mut self, load: &Load, model: DirectoryModel) -> (shown: Option<
        Option<usize>,
    >)
        requires
            old(self).wf(),
            model.wf(),
        ensures
            final(self).wf(),
            listing_applied(
                *old(self),
                *final(self),
                load.generation,
                model,
                path_parent(load.dir@) is Some,
                text_of(load.select_name),
                shown,
            ),
            shown is Some ==> final(self).delegate.has_parent_row == (components(load.dir@).len()
                > 0),
    {
        let has_parent = parent_of(load.dir.as_str()).is_some();
        match &load.select_name {
            Some(name) => self.apply_listing(load.generation, model, has_parent, Some(name.as_str())),
            None => self.apply_listing(load.generation, model, has_parent, None),
        }
    }

    /// A double click on a display row: the cursor goes there, and into what it
    /// is on. Returns the row to scroll to, and where the table goes.
    pub fn handle_double_click(&mut self, row_ix: usize) -> (r: (Option<usize>, Navigation))
        requires
            old(self).wf(),
            old(self).delegate.nav_generation < u64::MAX,
        ensures
            final(self).wf(),
            ({
                let moved = old(self).delegate.moved_to(row_ix as int);
                &&& went_in(FileTable { delegate: moved, ..*old(self) }, *final(self), r.1)
                &&& match r.0 {
                    Some(row) => moved.display_rows() > 0 && moved.shown_row() == Some(row as int),
                    None => moved.display_rows() == 0,
                }
            }),
    {
        let row = self.delegate.move_cursor_to(row_ix);
        let answer = self.enter_cursor_directory();
        (row, answer)
    }

    /// The panel lost the keyboard: a search ends.
    pub fn focus_lost(&mut self)
        requires
            old(self).wf(),
        ensures
            final(self).wf(),
            *final(self) == (FileTable { delegate: final(self).delegate, ..*old(self) }),
            search_cleared(old(self).delegate, final(self).delegate),
            final(self).delegate.quick_search is None,
    {
        self.delegate.clear_quick_search();
    }

    /// Space on the volume became known. What belongs to an earlier
    /// navigation is thrown away. Returns whether it was taken.
    pub fn apply_volume_stats(&mut self, generation: u64, stats: VolumeStats) -> (taken: bool)
        ensures
            taken == (generation == old(self).delegate.nav_generation),
            *final(self) == (if taken {
                FileTable { volume_stats: Some(stats), ..*old(self) }
            } else {
                *old(self)
            }),
    {
        if self.delegate.nav_generation() != generation {
            return false;
        }
        self.volume_stats = Some(stats);
        true
    }

    /// Ends a session that jumps; one that filters goes on.
    pub fn exit_quick_search_if_jump(&mut self)
        requires
            old(self).wf(),
        ensures
            final(self).wf(),
            *final(self) == (FileTable { delegate: final(self).delegate, ..*old(self) }),
            jump_ended(old(self).delegate, final(self).delegate),
    {
        let jumping = match self.delegate.quick_search_mode() {
            Some(mode) => mode == QuickSearchMode::Jump,
            None => false,
        };
        if jumping {
            self.delegate.clear_quick_search();
        }
    }

    /// Moves the cursor as a cursor key asks. Returns the cursor's display
    /// row.
    fn move_by_key(&mut self, key: CursorKey, first: usize, end: usize) -> (row: Option<usize>)
        requires
            old(self).wf(),
        ensures
            final(self).wf(),
            *final(self) == (FileTable {
                delegate: old(self).delegate.moved_to(
                    cursor_target(old(self).delegate, key, first, end),
                ),
                ..*old(self)
            }),
            match row {
                Some(row) => final(self).delegate.display_rows() > 0
                    && final(self).delegate.shown_row() == Some(row as int),
                None => final(self).delegate.display_rows() == 0
                    || final(self).delegate.shown_row() is None,
            },
    {
        let ghost before = self.delegate;
        proof {
            before.model.lemma_rows();
            before.lemma_cursor_row();
        }
        let current: usize = match self.delegate.display_row() {
            Some(r) => r,
            None => 0,
        };
        let page = page_size(first, end);
        proof {
            lemma_same_move(before, usize::MAX as int, before.display_rows() - 1);
            lemma_same_move(before, usize::MAX as int, current + page);
            lemma_same_move(before, 0, current - page);
        }
        match key {
            CursorKey::Up => self.delegate.move_cursor_by(-1),
            CursorKey::Down => self.delegate.move_cursor_by(1),
            CursorKey::Home => self.delegate.move_cursor_to(0),
            CursorKey::End => self.delegate.move_cursor_to(usize::MAX),
            CursorKey::PageUp => self.delegate.move_cursor_to(
                if current > page {
                    current - page
                } else {
                    0
                },
            ),
            CursorKey::PageDown => self.delegate.move_cursor_to(
                if current < usize::MAX - page {
                    current + page
                } else {
                    usize::MAX
                },
            ),
        }
    }

    /// A cursor key, while rows `first` up to `end` are seen: a jumping
    /// session ends and the cursor moves. Returns the row to scroll to.
    pub fn cursor_key(&mut self, key: CursorKey, first: usize, end: usize) -> (scroll: Option<
        usize,
    >)
        requires
            old(self).wf(),
        ensures
            final(self).wf(),
            cursor_keyed(*old(self), *final(self), key, first, end, scroll),
    {
        self.exit_quick_search_if_jump();
        let ghost cleared = self.delegate;
        let row = self.move_by_key(key, first, end);
        assert(jump_ended(old(self).delegate, cleared));
        match row {
            Some(row) => match key {
                CursorKey::Home => Some(row),
                CursorKey::End => Some(row),
                _ => scroll_for(row, first, end),
            },
            None => None,
        }
    }

    /// Flips the selection of the entry under the cursor and moves on by one
    /// row. Returns the row to scroll to.
    pub fn toggle_selection_and_advance(&mut self, first: usize, end: usize) -> (scroll: Option<
        usize,
    >)
        requires
            old(self).wf(),
        ensures
            final(self).wf(),
            toggled_and_advanced(*old(self), *final(self), first, end, scroll),
    {
        self.delegate.toggle_cursor_selection();
        let ghost toggled = self.delegate;
        proof {
            toggled.model.lemma_rows();
            toggled.lemma_cursor_row();
        }
        let row = self.delegate.move_cursor_by(1);
        assert(cursor_toggled(old(self).delegate, toggled));
        match row {
            Some(row) => scroll_for(row, first, end),
            None => None,
        }
    }

    /// A cursor key with Shift: the range is extended. Returns the row to
    /// scroll to.
    pub fn extend_selection(&mut self, key: CursorKey, first: usize, end: usize) -> (scroll: Option<
        usize,
    >)
        requires
            old(self).wf(),
        ensures
            final(self).wf(),
            range_keyed(*old(self), *final(self), key, first, end, scroll),
    {
        let rows: usize = self.delegate.model.order.len();
        if rows == 0 {
            return None;
        }
        proof {
            self.delegate.lemma_cursor_row();
        }
        let current: usize = match self.delegate.cursor_row() {
            Some(r) => r,
            None => 0,
        };
        let page = page_size(first, end);
        let target: usize = match key {
            CursorKey::Up => if current > 0 {
                current - 1
            } else {
                0
            },
            CursorKey::Down => if current + 1 < rows {
                current + 1
            } else {
                rows - 1
            },
            CursorKey::Home => 0,
            CursorKey::End => rows - 1,
            CursorKey::PageUp => if current > page {
                current - page
            } else {
                0
            },
            CursorKey::PageDown => if page < rows && current < rows - page {
                current + page
            } else {
                rows - 1
            },
        };
        proof {
            self.delegate.model.lemma_rows();
        }
        let shown: usize = target + self.delegate.parent_offset();
        self.delegate.extend_selection_to(target);
        match key {
            CursorKey::Home => Some(shown),
            CursorKey::End => Some(shown),
            _ => scroll_for(shown, first, end),
        }
    }

    /// A left click on a display row. Shift extends the range to it, Control
    /// flips its selection, and a plain click selects it alone where clicks
    /// select. A click on the `..` row only moves the cursor. Returns the row
    /// to scroll to.
    pub fn handle_left_click(&mut self, row_ix: usize, shift: bool, control: bool) -> (scroll:
        Option<usize>)
        requires
            old(self).wf(),
        ensures
            final(self).wf(),
            *final(self) == (FileTable { delegate: final(self).delegate, ..*old(self) }),
            exists|cleared: FileTableDelegate|
                {
                    &&& #[trigger] search_cleared(old(self).delegate, cleared)
                    &&& cleared.wf()
                    &&& clicked(cleared, final(self).delegate, row_ix as int, shift, control)
                },
            scroll == (if final(self).delegate.display_rows() == 0 {
                None
            } else if shift && !(final(self).delegate.has_parent_row && row_ix == 0) {
                match final(self).delegate.cursor_row {
                    Some(row) => if final(self).delegate.rows() == 0 {
                        None
                    } else {
                        Some((row + final(self).delegate.row_offset()) as usize)
                    },
                    None => None,
                }
            } else {
                match final(self).delegate.shown_row() {
                    Some(row) => Some(row as usize),
                    None => None,
                }
            }),
    {
        self.delegate.clear_quick_search();
        let ghost cleared = self.delegate;
        assert(search_cleared(old(self).delegate, cleared));
        let model_row: usize = match self.delegate.model_row(row_ix) {
            Some(row) => row,
            None => {
                return self.delegate.move_cursor_to(row_ix);
            },
        };
        if shift {
            if self.delegate.model.order.len() == 0 {
                return None;
            }
            proof {
                self.delegate.model.lemma_rows();
            }
            self.delegate.extend_selection_to(model_row);
            proof {
                self.delegate.lemma_cursor_row();
            }
            return match self.delegate.cursor_row() {
                Some(row) => Some(row + self.delegate.parent_offset()),
                None => None,
            };
        }
        let row = self.delegate.move_cursor_to(row_ix);
        let ghost moved = self.delegate;
        if control {
            self.delegate.toggle_cursor_selection();
        } else if self.delegate.mouse_mode() == MouseMode::Windows {
            self.delegate.deselect_all();
            let ghost emptied = self.delegate;
            self.delegate.toggle_cursor_selection();
            proof {
                emptied.lemma_cursor_row();
                assert forall|id: int| 0 <= id < moved.model.selected@.len() implies
                    #[trigger] self.delegate.model.selected@[id] == (moved.cursor_row is Some && id
                    == moved.model.order@[moved.cursor_row->0 as int]) by {
                    assert(!emptied.model.selected@[id]);
                }
            }
        }
        row
    }
}

/// Whether a step through the history leads from `before` to `after`: to where
/// `there` says. A locked table stays where it is.
pub open spec fn history_stepped(
    before: FileTable,
    after: FileTable,
    there: (String, Seq<String>, Seq<String>),
    answer: Navigation,
) -> bool {
    &&& after.history_back@ == there.1
    &&& after.history_forward@ == there.2
    &&& if before.locked {
        &&& answer is Redirect
        &&& answer->Redirect_0@ == there.0@
        &&& after == (FileTable {
            history_back: after.history_back,
            history_forward: after.history_forward,
            ..before
        })
    } else {
        &&& after.current_dir == there.0
        &&& on_the_way(before, after, there.0@)
        &&& answer is Go
        &&& load_of(before, answer->Go_0, there.0@, None)
    }
}

/// Whether Enter leads from `before` to `after`: into the directory under the
/// cursor, up from the `..` row, and nowhere from a file.
pub open spec fn went_in(before: FileTable, after: FileTable, answer: Navigation) -> bool {
    let d = before.delegate;
    if d.cursor_on_parent {
        went_up(before, after, answer)
    } else if d.cursor_row is Some && d.model.entry_at(d.cursor_row->0 as int).kind
        == EntryKind::Directory {
        navigated(
            before,
            after,
            path_join(before.current_dir@, d.model.entry_at(d.cursor_row->0 as int).name@),
            None,
            answer,
        )
    } else {
        after == before && answer is Stay
    }
}

/// Whether a cursor key leads from `before` to `after`: a jumping session ends
/// and the cursor moves. Home and End always scroll, other keys where the row
/// is out of sight.
pub open spec fn cursor_keyed(
    before: FileTable,
    after: FileTable,
    key: CursorKey,
    first: usize,
    end: usize,
    scroll: Option<usize>,
) -> bool {
    &&& after == (FileTable { delegate: after.delegate, ..before })
    &&& exists|cleared: FileTableDelegate|
        {
            &&& #[trigger] jump_ended(before.delegate, cleared)
            &&& cleared.wf()
            &&& after.delegate == cleared.moved_to(cursor_target(cleared, key, first, end))
        }
    &&& scroll == (match after.delegate.shown_row() {
        Some(row) => if after.delegate.display_rows() == 0 || (first <= row < end && key
            != CursorKey::Home && key != CursorKey::End) {
            None
        } else {
            Some(row as usize)
        },
        None => None,
    })
}

/// Whether marking the entry under the cursor and moving on leads from
/// `before` to `after`.
pub open spec fn toggled_and_advanced(
    before: FileTable,
    after: FileTable,
    first: usize,
    end: usize,
    scroll: Option<usize>,
) -> bool {
    &&& after == (FileTable { delegate: after.delegate, ..before })
    &&& exists|toggled: FileTableDelegate|
        {
            &&& #[trigger] cursor_toggled(before.delegate, toggled)
            &&& after.delegate == toggled.moved_to(
                (match toggled.shown_row() {
                    Some(r) => r,
                    None => 0,
                }) + 1,
            )
        }
    &&& scroll == (match after.delegate.shown_row() {
        Some(row) => if after.delegate.display_rows() == 0 || first <= row < end {
            None
        } else {
            Some(row as usize)
        },
        None => None,
    })
}

/// Whether a cursor key with Shift leads from `before` to `after`, with a
/// display row to scroll to as after a plain cursor key.
pub open spec fn range_keyed(
    before: FileTable,
    after: FileTable,
    key: CursorKey,
    first: usize,
    end: usize,
    scroll: Option<usize>,
) -> bool {
    &&& after == (FileTable { delegate: after.delegate, ..before })
    &&& before.delegate.rows() == 0 ==> after.delegate == before.delegate && scroll is None
    &&& before.delegate.rows() > 0 ==> ({
        let target = range_target(before.delegate, key, first, end);
        let shown = target + before.delegate.row_offset();
        &&& extended(before.delegate, after.delegate, target)
        &&& scroll == (if first <= shown < end && key != CursorKey::Home && key
            != CursorKey::End {
            None
        } else {
            Some(shown as usize)
        })
    })
}

/// Whether going up leads from `before` to `after`: to the parent, with the
/// cursor on the directory that was left; nowhere from the root.
pub open spec fn went_up(before: FileTable, after: FileTable, answer: Navigation) -> bool {
    match path_parent(before.current_dir@) {
        None => after == before && answer is Stay,
        Some(parent) => navigated(
            before,
            after,
            parent,
            path_file_name(before.current_dir@),
            answer,
        ),
    }
}

/// Whether a listing that came in leads from `before` to `after`, with the
/// display row to scroll to. A late one is thrown away.
pub open spec fn listing_applied(
    before: FileTable,
    after: FileTable,
    generation: u64,
    model: DirectoryModel,
    has_parent: bool,
    select_name: Option<Seq<char>>,
    shown: Option<Option<usize>>,
) -> bool {
    if generation != before.delegate.nav_generation {
        shown is None && after == before
    } else {
        &&& shown is Some
        &&& after == (FileTable { delegate: after.delegate, ..before })
        &&& after.delegate.has_parent_row == has_parent
        &&& exists|fresh: FileTableDelegate|
            {
                let moved = match select_name {
                    Some(name) => match row_named(fresh.model, name, 0) {
                        Some(row) => fresh.moved_to(row + fresh.row_offset()),
                        None => fresh,
                    },
                    None => fresh,
                };
                &&& #[trigger] shows_fresh(before.delegate, fresh, model, has_parent)
                &&& after.delegate == (FileTableDelegate { loading: false, ..moved })
            }
        &&& match shown->0 {
            Some(row) => after.delegate.shown_row() == Some(row as int),
            None => after.delegate.shown_row() is None,
        }
    }
}

/// Whether `fresh` is `before` with another listing, its cursor on the first
/// row.
pub open spec fn shows_fresh(
    before: FileTableDelegate,
    fresh: FileTableDelegate,
    model: DirectoryModel,
    has_parent: bool,
) -> bool {
    &&& fresh.wf()
    &&& fresh == (FileTableDelegate {
        model: DirectoryModel {
            cursor: if model.order@.len() > 0 {
                Some(EntryId { index: model.order@[0] })
            } else {
                None
            },
            ..model
        },
        row_text: fresh.row_text,
        cached_generation: model.generation,
        total_bytes_in_view: fresh.total_bytes_in_view,
        cursor_row: if model.order@.len() > 0 {
            Some(0usize)
        } else {
            None
        },
        cursor_on_parent: false,
        range_anchor: None,
        has_parent_row: has_parent,
        ..before
    })
}

/// Whether a jumping session has ended and everything else stayed.
pub open spec fn jump_ended(before: FileTableDelegate, after: FileTableDelegate) -> bool {
    if before.quick_search is Some && before.quick_search->0.mode == QuickSearchMode::Jump {
        search_cleared(before, after)
    } else {
        after == before
    }
}

/// The display row that a cursor key asks for.
pub open spec fn cursor_target(
    delegate: FileTableDelegate,
    key: CursorKey,
    first: usize,
    end: usize,
) -> int {
    let current = match delegate.shown_row() {
        Some(r) => r,
        None => 0,
    };
    match key {
        CursorKey::Up => current - 1,
        CursorKey::Down => current + 1,
        CursorKey::Home => 0,
        CursorKey::End => delegate.display_rows() - 1,
        CursorKey::PageUp => current - page_of(first, end),
        CursorKey::PageDown => current + page_of(first, end),
    }
}

proof fn lemma_same_move(delegate: FileTableDelegate, a: int, b: int)
    requires
        delegate.model.wf(),
    ensures
        a <= 0 && b <= 0 ==> delegate.moved_to(a) == delegate.moved_to(b),
        a >= delegate.display_rows() - 1 && b >= delegate.display_rows() - 1 ==> delegate.moved_to(
            a,
        ) == delegate.moved_to(b),
{
    delegate.model.lemma_rows();
}

/// The model row that a cursor key with Shift extends the range to.
pub open spec fn range_target(
    delegate: FileTableDelegate,
    key: CursorKey,
    first: usize,
    end: usize,
) -> int {
    let rows = delegate.rows();
    let current = match delegate.cursor_row {
        Some(r) => r as int,
        None => 0,
    };
    let wanted = match key {
        CursorKey::Up => current - 1,
        CursorKey::Down => current + 1,
        CursorKey::Home => 0,
        CursorKey::End => rows - 1,
        CursorKey::PageUp => current - page_of(first, end),
        CursorKey::PageDown => current + page_of(first, end),
    };
    if wanted < 0 {
        0
    } else if wanted < rows {
        wanted
    } else {
        rows - 1
    }
}

/// Whether a click on a display row leads from `before` to `after`.
pub open spec fn clicked(
    before: FileTableDelegate,
    after: FileTableDelegate,
    row: int,
    shift: bool,
    control: bool,
) -> bool {
    let moved = before.moved_to(row);
    if before.has_parent_row && row == 0 {
        after == moved
    } else if shift {
        if before.rows() == 0 {
            after == before
        } else {
            extended(before, after, row - before.row_offset())
        }
    } else if control {
        cursor_toggled(moved, after)
    } else if before.mouse_mode == MouseMode::Windows {
        &&& only_selection(moved, after)
        &&& forall|id: int|
            0 <= id < moved.model.selected@.len() ==> #[trigger] after.model.selected@[id] == (
            moved.cursor_row is Some && id == moved.model.order@[moved.cursor_row->0 as int])
    } else {
        after == moved
    }
}

/// A locked table never goes elsewhere: what it is asked for opens in a new tab.
/// Any other table goes to the directory it is asked for, has the one that it
/// was in behind it and nothing ahead; the listing that it asks for is of that
/// directory, in the order of the one before, and every earlier one is late.
pub proof fn lemma_navigation(
    before: FileTable,
    after: FileTable,
    dir: Seq<char>,
    select: Option<Seq<char>>,
    answer: Navigation,
)
    requires
        before.wf(),
        before.delegate.nav_generation < u64::MAX,
        navigated(before, after, dir, select, answer),
    ensures
        before.locked ==> after == before && answer is Redirect && answer->Redirect_0@ == dir,
        !before.locked ==> {
            &&& answer is Go
            &&& after.current_dir@ == dir
            &&& after.history_back@ == before.history_back@ + seq![before.current_dir]
            &&& after.history_forward@ == Seq::<String>::empty()
            &&& !after.locked
            &&& answer->Go_0.dir@ == after.current_dir@
            &&& answer->Go_0.generation == after.delegate.nav_generation
            &&& after.delegate.nav_generation > before.delegate.nav_generation
            &&& answer->Go_0.sort.0 == before.delegate.model.sort.column
            &&& answer->Go_0.sort.1 == before.delegate.model.sort.ascending
            &&& match (answer->Go_0.select_name, select) {
                (Some(name), Some(wanted)) => name@ == wanted,
                (None, None) => true,
                _ => false,
            }
            &&& after.delegate.loading
            &&& after.delegate.quick_search is None
            &&& after.delegate.model.entries == before.delegate.model.entries
        },
{
    if !before.locked {
        assert(after.history_back@ =~= before.history_back@ + seq![before.current_dir]);
        assert(after.history_forward@ =~= Seq::<String>::empty());
    }
}

/// Going back after going somewhere leads to where one was, with the same
/// directories behind; what was gone to is then ahead, and going forward leads
/// there again.
pub proof fn lemma_back_undoes_a_navigation(
    before: FileTable,
    there: FileTable,
    dir: Seq<char>,
    select: Option<Seq<char>>,
    answer: Navigation,
    back: FileTable,
    back_answer: Navigation,
    again: FileTable,
    again_answer: Navigation,
)
    requires
        !before.locked,
        navigated(before, there, dir, select, answer),
        history_stepped(
            there,
            back,
            went_back(there.current_dir, there.history_back@, there.history_forward@),
            back_answer,
        ),
        history_stepped(
            back,
            again,
            went_forward(back.current_dir, back.history_back@, back.history_forward@),
            again_answer,
        ),
    ensures
        there.history_back@.len() > 0,
        back.current_dir == before.current_dir,
        back.history_back@ == before.history_back@,
        back.history_forward@ == seq![there.current_dir],
        back_answer is Go && back_answer->Go_0.dir@ == before.current_dir@,
        again.current_dir@ == dir,
        again.history_back@ == there.history_back@,
        again.history_forward@.len() == 0,
        again_answer is Go && again_answer->Go_0.dir@ == dir,
{
    assert(there.history_back@.drop_last() =~= before.history_back@);
    assert(back.history_forward@ =~= seq![there.current_dir]);
    assert(again.history_back@ =~= there.history_back@);
}

/// A locked table that is asked to step through its history stays where it is;
/// the directory opens in a new tab, and counts as visited.
pub proof fn lemma_locked_table_steps_in_place(
    before: FileTable,
    after: FileTable,
    answer: Navigation,
)
    requires
        before.locked,
        before.history_back@.len() > 0,
        history_stepped(
            before,
            after,
            went_back(before.current_dir, before.history_back@, before.history_forward@),
            answer,
        ),
    ensures
        after.current_dir == before.current_dir,
        after.delegate == before.delegate,
        after.locked,
        answer is Redirect,
        answer->Redirect_0@ == before.history_back@[before.history_back@.len() - 1]@,
        after.history_back@.len() == before.history_back@.len() - 1,
{
}

/// Enter goes into the directory under the cursor and nowhere from anything
/// else. Going up from there asks for the cursor on the directory that was left.
pub proof fn lemma_enter_and_up(
    before: FileTable,
    inside: FileTable,
    answer: Navigation,
    above: FileTable,
    up_answer: Navigation,
)
    requires
        before.wf(),
        !before.locked,
        !before.delegate.cursor_on_parent,
        before.delegate.nav_generation < u64::MAX,
        went_in(before, inside, answer),
        went_up(inside, above, up_answer),
    ensures
        before.delegate.cursor_row is None ==> inside == before && answer is Stay,
        before.delegate.cursor_row is Some ==> {
            let entry = before.delegate.model.entries@[before.delegate.model.cursor->0.index as int];
            let name = entry.name@;
            &&& entry.kind != EntryKind::Directory ==> inside == before && answer is Stay
            &&& entry.kind == EntryKind::Directory && name.len() > 0 && !name.contains('/') && name
                != seq!['.'] && name != seq!['.', '.'] ==> {
                &&& answer is Go
                &&& components(inside.current_dir@) == components(before.current_dir@).push(name)
                &&& path_parent(inside.current_dir@) is Some ==> {
                    &&& up_answer is Go
                    &&& above.current_dir@ == path_parent(inside.current_dir@)->0
                    &&& up_answer->Go_0.select_name is Some
                    &&& up_answer->Go_0.select_name->0@ == name
                }
            }
        },
{
    before.delegate.lemma_cursor_row();
    if let Some(r) = before.delegate.cursor_row {
        let entry = before.delegate.model.entry_at(r as int);
        let name = entry.name@;
        if entry.kind == EntryKind::Directory && name.len() > 0 && !name.contains('/') && name
            != seq!['.'] && name != seq!['.', '.'] {
            assert forall|i: int| 0 <= i < name.len() implies name[i] != '/' by {
                assert(name.contains(name[i]));
            }
            lemma_components_of_entry(before.current_dir@, name);
            assert(components(inside.current_dir@).last() == name);
        }
    }
}

/// On the `..` row Enter is the same as going up.
pub proof fn lemma_enter_on_the_parent_row(
    before: FileTable,
    after: FileTable,
    answer: Navigation,
)
    requires
        before.delegate.cursor_on_parent,
    ensures
        went_in(before, after, answer) <==> went_up(before, after, answer),
        went_up(before, after, answer) && path_parent(before.current_dir@) is None ==> after
            == before && answer is Stay,
{
}

/// The display row of a table's cursor; the first where it is on none.
pub open spec fn row_now(delegate: FileTableDelegate) -> int {
    if delegate.cursor_on_parent || delegate.cursor_row is None {
        0
    } else {
        delegate.cursor_row->0 + (if delegate.has_parent_row {
            1int
        } else {
            0
        })
    }
}

/// A cursor key moves the cursor from its display row: by one, to an end, or by
/// as many rows as are seen, held to the rows there are. Nothing is selected. A
/// session that filters goes on. The table scrolls where the row is out of sight,
/// and for Home and End always.
pub proof fn lemma_cursor_key(
    before: FileTable,
    after: FileTable,
    key: CursorKey,
    first: usize,
    end: usize,
    scroll: Option<usize>,
)
    requires
        before.wf(),
        before.delegate.quick_search is None || before.delegate.quick_search->0.mode
            == QuickSearchMode::Filter,
        before.delegate.model.order@.len() > 0 || before.delegate.has_parent_row,
        cursor_keyed(before, after, key, first, end, scroll),
    ensures
        ({
            let d = before.delegate;
            let n = d.model.order@.len() + (if d.has_parent_row {
                1int
            } else {
                0
            });
            let page = if first < end {
                end - first
            } else {
                1
            };
            let from = row_now(d);
            let to = row_now(after.delegate);
            &&& after.delegate.cursor_on_parent || after.delegate.cursor_row is Some
            &&& after.delegate.cursor_on_parent <==> d.has_parent_row && to == 0
            &&& to == match key {
                CursorKey::Up => if from == 0 {
                    0
                } else {
                    from - 1
                },
                CursorKey::Down => if from == n - 1 {
                    from
                } else {
                    from + 1
                },
                CursorKey::Home => 0,
                CursorKey::End => n - 1,
                CursorKey::PageUp => if from < page {
                    0
                } else {
                    from - page
                },
                CursorKey::PageDown => if from + page < n {
                    from + page
                } else {
                    n - 1
                },
            }
            &&& after.delegate.model.selected == d.model.selected
            &&& after.delegate.quick_search == d.quick_search
            &&& after.delegate.range_anchor is None
            &&& after.current_dir == before.current_dir
            &&& first <= to < end && (key == CursorKey::Up || key == CursorKey::Down || key
                == CursorKey::PageUp || key == CursorKey::PageDown) ==> scroll is None
            &&& !(first <= to < end) ==> scroll == Some(to as usize)
            &&& key == CursorKey::Home || key == CursorKey::End ==> scroll == Some(to as usize)
        }),
{
    before.delegate.lemma_cursor_row();
    lemma_shown_row(before.delegate);
    let target = cursor_target(before.delegate, key, first, end);
    lemma_cursor_goes_where_it_is_asked(before.delegate, target);
}

/// Without rows a cursor key does nothing.
pub proof fn lemma_cursor_key_without_rows(
    before: FileTable,
    after: FileTable,
    key: CursorKey,
    first: usize,
    end: usize,
    scroll: Option<usize>,
)
    requires
        before.wf(),
        before.delegate.quick_search is None,
        before.delegate.model.order@.len() == 0,
        !before.delegate.has_parent_row,
        cursor_keyed(before, after, key, first, end, scroll),
    ensures
        after == before,
        scroll is None,
{
    before.delegate.lemma_cursor_row();
}

/// A cursor key in a session that jumps ends the session and moves from the
/// entry that it jumped to.
pub proof fn lemma_cursor_key_ends_a_jump(
    before: FileTable,
    after: FileTable,
    key: CursorKey,
    first: usize,
    end: usize,
    scroll: Option<usize>,
)
    requires
        before.wf(),
        before.delegate.quick_search is Some,
        before.delegate.quick_search->0.mode == QuickSearchMode::Jump,
        cursor_keyed(before, after, key, first, end, scroll),
    ensures
        after.delegate.quick_search is None,
        after.delegate.model.order@ == before.delegate.model.full_order@,
        after.delegate.model.selected == before.delegate.model.selected,
        exists|cleared: FileTable|
            {
                &&& cleared.wf()
                &&& cleared.delegate.quick_search is None
                &&& cleared.delegate.model.cursor == before.delegate.model.cursor
                &&& cleared.delegate.cursor_on_parent == before.delegate.cursor_on_parent
                &&& #[trigger] cursor_keyed(cleared, after, key, first, end, scroll)
            },
{
    let gone = choose|gone: FileTableDelegate|
        {
            &&& #[trigger] jump_ended(before.delegate, gone)
            &&& gone.wf()
            &&& after.delegate == gone.moved_to(cursor_target(gone, key, first, end))
        };
    lemma_ending_a_session_shows_everything(before.delegate, gone);
    let cleared = FileTable { delegate: gone, ..before };
    assert(jump_ended(cleared.delegate, gone));
    assert(cursor_keyed(cleared, after, key, first, end, scroll));
    gone.lemma_cursor_row();
    if gone.display_rows() > 0 {
        lemma_cursor_goes_where_it_is_asked(gone, cursor_target(gone, key, first, end));
    }
}

/// Marking the entry under the cursor flips that entry and moves down by one
/// display row, where there is one; from the `..` row too.
pub proof fn lemma_mark_and_move_on(
    before: FileTable,
    after: FileTable,
    first: usize,
    end: usize,
    scroll: Option<usize>,
    id: usize,
)
    requires
        before.wf(),
        before.delegate.model.order@.len() > 0 || before.delegate.has_parent_row,
        toggled_and_advanced(before, after, first, end, scroll),
        id < before.delegate.model.entries@.len(),
    ensures
        ({
            let d = before.delegate;
            let n = d.model.order@.len() + (if d.has_parent_row {
                1int
            } else {
                0
            });
            let from = row_now(d);
            let to = row_now(after.delegate);
            &&& to == (if from + 1 < n {
                from + 1
            } else {
                n - 1
            })
            &&& after.delegate.cursor_on_parent || after.delegate.cursor_row is Some
            &&& after.delegate.model.selected@[id as int] == (if d.cursor_row is Some
                && d.model.cursor == Some(EntryId { index: id }) {
                !d.model.selected@[id as int]
            } else {
                d.model.selected@[id as int]
            })
            &&& first <= to < end ==> scroll is None
            &&& !(first <= to < end) ==> scroll == Some(to as usize)
        }),
{
    let d = before.delegate;
    d.lemma_cursor_row();
    let toggled = choose|toggled: FileTableDelegate|
        {
            &&& #[trigger] cursor_toggled(d, toggled)
            &&& after.delegate == toggled.moved_to(
                (match toggled.shown_row() {
                    Some(r) => r,
                    None => 0,
                }) + 1,
            )
        };
    lemma_toggle_flips_one(d, toggled, id);
    assert(toggled.shown_row() == d.shown_row());
    lemma_shown_row(d);
}

/// A cursor key with Shift takes the cursor to the row that the key alone would
/// take it to, counted among the entries, and the range with it.
pub proof fn lemma_range_key(
    before: FileTable,
    after: FileTable,
    key: CursorKey,
    first: usize,
    end: usize,
    scroll: Option<usize>,
    r: int,
)
    requires
        before.wf(),
        0 <= r < before.delegate.model.order@.len(),
        range_keyed(before, after, key, first, end, scroll),
    ensures
        ({
            let n = before.delegate.model.order@.len() as int;
            let from = match before.delegate.cursor_row {
                Some(c) => c as int,
                None => 0,
            };
            let page = if first < end {
                end - first
            } else {
                1
            };
            let to = match key {
                CursorKey::Up => if from == 0 {
                    0
                } else {
                    from - 1
                },
                CursorKey::Down => if from == n - 1 {
                    from
                } else {
                    from + 1
                },
                CursorKey::Home => 0,
                CursorKey::End => n - 1,
                CursorKey::PageUp => if from < page {
                    0
                } else {
                    from - page
                },
                CursorKey::PageDown => if from + page < n {
                    from + page
                } else {
                    n - 1
                },
            };
            let id = before.delegate.model.order@[r] as int;
            let shown = to + (if before.delegate.has_parent_row {
                1int
            } else {
                0
            });
            &&& after.delegate.cursor_row == Some(to as usize)
            &&& before.delegate.range_anchor is None && before.delegate.cursor_row is Some
                ==> after.delegate.model.selected@[id] == (before.delegate.model.selected@[id] || (
            from <= r && r <= to) || (to <= r && r <= from))
            &&& before.delegate.range_anchor is Some ==> after.delegate.range_anchor
                == before.delegate.range_anchor
            &&& first <= shown < end && key != CursorKey::Home && key != CursorKey::End
                ==> scroll is None
            &&& !(first <= shown < end) || key == CursorKey::Home || key == CursorKey::End
                ==> scroll == Some(shown as usize)
            &&& after.delegate.quick_search == before.delegate.quick_search
            &&& after.current_dir == before.current_dir
        }),
{
    before.delegate.lemma_cursor_row();
    let target = range_target(before.delegate, key, first, end);
    if before.delegate.range_anchor is None {
        lemma_range_is_selected(before.delegate, after.delegate, target, r);
    }
}

/// A click on an entry's row, while no session goes on. With Shift it selects
/// from the cursor's row to the one that was clicked; with Control it flips that
/// entry; else it selects that entry alone where clicks select, and nothing
/// where they do not. The cursor goes to the row that was clicked, or to the
/// last.
pub proof fn lemma_click(
    before: FileTableDelegate,
    after: FileTableDelegate,
    row: int,
    shift: bool,
    control: bool,
    r: int,
)
    requires
        before.wf(),
        shift ==> before.range_anchor is None,
        row >= (if before.has_parent_row {
            1int
        } else {
            0
        }),
        0 <= r < before.model.order@.len(),
        clicked(before, after, row, shift, control),
    ensures
        ({
            let n = before.model.order@.len() as int;
            let asked = if before.has_parent_row {
                row - 1
            } else {
                row
            };
            let at = if asked < n {
                asked
            } else {
                n - 1
            };
            let from = match before.cursor_row {
                Some(c) => c as int,
                None => at,
            };
            let id = before.model.order@[r] as int;
            let was = before.model.selected@[id];
            &&& after.cursor_row == Some(at as usize)
            &&& after.model.cursor == Some(EntryId { index: before.model.order@[at] })
            &&& after.model.selected@[id] == (if shift {
                was || (from <= r && r <= at) || (at <= r && r <= from)
            } else if control {
                if r == at {
                    !was
                } else {
                    was
                }
            } else if before.mouse_mode == MouseMode::Windows {
                r == at
            } else {
                was
            })
        }),
{
    before.lemma_cursor_row();
    let order = before.model.order@;
    if shift {
        lemma_range_is_selected(before, after, row - before.row_offset(), r);
    } else {
        lemma_cursor_goes_where_it_is_asked(before, row);
        let moved = before.moved_to(row);
        let at = moved.cursor_row->0 as int;
        if r != at {
            if r < at {
                assert(order[r] != order[at]);
            } else {
                assert(order[at] != order[r]);
            }
        }
    }
}

/// A click on the `..` row goes there and selects nothing, with keys held or
/// not.
pub proof fn lemma_click_on_the_parent_row(
    before: FileTableDelegate,
    after: FileTableDelegate,
    shift: bool,
    control: bool,
)
    requires
        before.wf(),
        before.has_parent_row,
        clicked(before, after, 0, shift, control),
    ensures
        after.cursor_on_parent,
        after.model.selected == before.model.selected,
        after.model.cursor == before.model.cursor,
{
    lemma_cursor_goes_where_it_is_asked(before, 0);
}

/// A listing is shown where it is of the table's last navigation, and thrown
/// away where it is not. The cursor is on the first entry that has the wanted
/// name where one is shown, else on the first row.
pub proof fn lemma_listing_comes_in(
    before: FileTable,
    after: FileTable,
    generation: u64,
    model: DirectoryModel,
    has_parent: bool,
    select_name: Option<Seq<char>>,
    shown: Option<Option<usize>>,
    r: int,
)
    requires
        before.wf(),
        model.wf(),
        listing_applied(before, after, generation, model, has_parent, select_name, shown),
        0 <= r < model.order@.len(),
    ensures
        generation != before.delegate.nav_generation ==> after == before && shown is None,
        generation == before.delegate.nav_generation ==> {
            &&& after.delegate.model.entries == model.entries
            &&& after.delegate.model.order == model.order
            &&& after.delegate.model.selected == model.selected
            &&& after.delegate.has_parent_row == has_parent
            &&& !after.delegate.loading
            &&& !after.delegate.cursor_on_parent
            &&& after.delegate.cursor_row is Some
            &&& after.current_dir == before.current_dir
            &&& after.history_back == before.history_back
            &&& shown == Some(
                Some(
                    (after.delegate.cursor_row->0 + (if has_parent {
                        1int
                    } else {
                        0
                    })) as usize,
                ),
            )
            &&& match select_name {
                None => after.delegate.cursor_row == Some(0usize),
                Some(name) => {
                    let at = after.delegate.cursor_row->0 as int;
                    let found = model.entries@[model.order@[at] as int].name@ == name;
                    &&& model.entries@[model.order@[r] as int].name@ == name ==> found && at <= r
                    &&& !found ==> at == 0
                },
            }
        },
{
    model.lemma_rows();
    if generation == before.delegate.nav_generation {
        let fresh = choose|fresh: FileTableDelegate|
            {
                let moved = match select_name {
                    Some(name) => match row_named(fresh.model, name, 0) {
                        Some(row) => fresh.moved_to(row + fresh.row_offset()),
                        None => fresh,
                    },
                    None => fresh,
                };
                &&& #[trigger] shows_fresh(before.delegate, fresh, model, has_parent)
                &&& after.delegate == (FileTableDelegate { loading: false, ..moved })
            };
        if let Some(name) = select_name {
            lemma_first_row_of_a_name(fresh.model, name, 0);
            if let Some(row) = row_named(fresh.model, name, 0) {
                lemma_cursor_goes_where_it_is_asked(fresh, row + fresh.row_offset());
            }
        }
    }
}

/// Each key has its action, and each action its keys.
pub proof fn lemma_keys_of_the_table(keys: Seq<char>)
    ensures
        match action_of(keys) {
            Some(TableAction::Cursor(CursorKey::Up)) => keys == "up"@,
            Some(TableAction::Cursor(CursorKey::Down)) => keys == "down"@,
            Some(TableAction::Cursor(CursorKey::Home)) => keys == "home"@ || keys == "ctrl-home"@,
            Some(TableAction::Cursor(CursorKey::End)) => keys == "end"@ || keys == "ctrl-end"@,
            Some(TableAction::Cursor(CursorKey::PageUp)) => keys == "pageup"@,
            Some(TableAction::Cursor(CursorKey::PageDown)) => keys == "pagedown"@,
            Some(TableAction::ExtendSelection(CursorKey::Up)) => keys == "shift-up"@,
            Some(TableAction::ExtendSelection(CursorKey::Down)) => keys == "shift-down"@,
            Some(TableAction::ExtendSelection(CursorKey::Home)) => keys == "shift-home"@,
            Some(TableAction::ExtendSelection(CursorKey::End)) => keys == "shift-end"@,
            Some(TableAction::ExtendSelection(CursorKey::PageUp)) => keys == "shift-pageup"@,
            Some(TableAction::ExtendSelection(CursorKey::PageDown)) => keys == "shift-pagedown"@,
            Some(TableAction::ToggleSelectionAndAdvance) => keys == "insert"@,
            Some(TableAction::ToggleSelection) => keys == "space"@,
            Some(TableAction::InvertSelection) => keys == "*"@,
            Some(TableAction::SelectAll) => keys == "ctrl-+"@,
            Some(TableAction::DeselectAll) => keys == "ctrl--"@,
            Some(TableAction::SelectSameExtension) => keys == "shift-+"@,
            Some(TableAction::EnterDirectory) => keys == "enter"@ || keys == "ctrl-pagedown"@,
            Some(TableAction::NavigateParent) => keys == "backspace"@ || keys == "ctrl-pageup"@
                || keys == "alt-up"@,
            Some(TableAction::NavigateRoot) => keys == "ctrl-\\"@,
            Some(TableAction::NavigateHome) => keys == "alt-home"@,
            Some(TableAction::HistoryBack) => keys == "alt-left"@,
            Some(TableAction::HistoryForward) => keys == "alt-right"@,
            Some(TableAction::QuickSearchCancel) => keys == "escape"@,
            Some(TableAction::QuickFilterToggle) => keys == "ctrl-p"@,
            None => !seq![
                "up"@, "down"@, "home"@, "ctrl-home"@, "end"@, "ctrl-end"@, "pageup"@,
                "pagedown"@, "shift-up"@, "shift-down"@, "shift-home"@, "shift-end"@,
                "shift-pageup"@, "shift-pagedown"@, "insert"@, "space"@, "*"@, "ctrl-+"@,
                "ctrl--"@, "shift-+"@, "enter"@, "ctrl-pagedown"@, "backspace"@, "ctrl-pageup"@,
                "alt-up"@, "ctrl-\\"@, "alt-home"@, "alt-left"@, "alt-right"@, "escape"@,
                "ctrl-p"@,
            ].contains(keys),
        },
{
}

/// A new table has nothing listed, selected or searched, nothing behind or ahead
/// of it, and every setting that it was given.
pub proof fn lemma_new_table(
    table: FileTable,
    width_seed: Option<([u32; 3], u32)>,
    settings: FileTableSettings,
)
    requires
        fresh_table(table, width_seed, settings),
    ensures
        table.history_back@ == Seq::<String>::empty(),
        table.history_forward@ == Seq::<String>::empty(),
        table.volume_stats is None,
        table.delegate.model.entries@ == Seq::<Entry>::empty(),
        table.delegate.model.order@ == Seq::<usize>::empty(),
        table.delegate.cursor_row is None,
        table.delegate.model.sort.column == SortColumn::Name,
        table.delegate.model.sort.ascending,
        table.delegate.quick_search is None,
        table.delegate.loading,
        table.delegate.mouse_mode == settings.mouse_mode,
        table.delegate.quick_search_default_mode == settings.quick_search_default_mode,
        table.quick_search_idle_timeout_ms == settings.quick_search_idle_timeout_ms,
        width_seed is Some ==> table.delegate.widths == (width_seed->0).0,
{
    table.delegate.lemma_cursor_row();
    assert(table.history_back@ =~= Seq::<String>::empty());
    assert(table.history_forward@ =~= Seq::<String>::empty());
    assert(table.delegate.model.entries@ =~= Seq::<Entry>::empty());
    assert(table.delegate.model.order@ =~= Seq::<usize>::empty());
}

/// A listing without entries leaves the cursor on none, and nothing to scroll
/// to.
pub proof fn lemma_empty_listing_comes_in(
    before: FileTable,
    after: FileTable,
    model: DirectoryModel,
    has_parent: bool,
    select_name: Option<Seq<char>>,
    shown: Option<Option<usize>>,
)
    requires
        before.wf(),
        model.wf(),
        model.order@.len() == 0,
        listing_applied(
            before,
            after,
            before.delegate.nav_generation,
            model,
            has_parent,
            select_name,
            shown,
        ),
    ensures
        shown == Some(None::<usize>),
        after.delegate.cursor_row is None,
        !after.delegate.cursor_on_parent,
        !after.delegate.loading,
        after.delegate.has_parent_row == has_parent,
        after.delegate.model.order@.len() == 0,
{
    let fresh = choose|fresh: FileTableDelegate|
        {
            let moved = match select_name {
                Some(name) => match row_named(fresh.model, name, 0) {
                    Some(row) => fresh.moved_to(row + fresh.row_offset()),
                    None => fresh,
                },
                None => fresh,
            };
            &&& #[trigger] shows_fresh(before.delegate, fresh, model, has_parent)
            &&& after.delegate == (FileTableDelegate { loading: false, ..moved })
        };
    if let Some(name) = select_name {
        lemma_first_row_of_a_name(fresh.model, name, 0);
    }
}

/// Only a session that jumps is ended by moving on; one that filters stays as it
/// is, and so does a table without one.
pub proof fn lemma_only_jumps_end(before: FileTableDelegate, after: FileTableDelegate)
    requires
        before.wf(),
        after.wf(),
        jump_ended(before, after),
    ensures
        before.quick_search is None ==> after == before,
        before.quick_search is Some && before.quick_search->0.mode == QuickSearchMode::Filter
            ==> after == before,
        before.quick_search is Some && before.quick_search->0.mode == QuickSearchMode::Jump
            ==> after.quick_search is None && after.model.cursor == before.model.cursor
            && after.model.selected == before.model.selected,
{
}

} // verus!
