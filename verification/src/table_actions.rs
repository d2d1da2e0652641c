//! What a table does on each of its actions.

use crate::columns::EntryKind;
use crate::file_table::{
    all_deselected, cursor_toggled, is_shown, kin_selected, lemma_kin_share_the_extension,
    lemma_toggle_flips_one, shown_inverted, shown_selected, FileTableDelegate,
};
use crate::listing::EntryId;
use crate::paths::{components, lemma_components_of_entry, path_parent};
use crate::quick_search::QuickSearchMode;
use crate::table_search::{regime_toggled, search_cleared};
use crate::table_view::{
    cursor_keyed, history_stepped, lemma_cursor_key, lemma_mark_and_move_on, lemma_range_key,
    navigated, range_keyed, toggled_and_advanced, went_back, went_forward, went_in, went_up,
    CursorKey, FileTable, Navigation, TableAction,
};
use vstd::prelude::*;

verus! {

/// What is left to do outside the table after an action.
#[derive(Debug, PartialEq, Eq)]
pub enum TableOutcome {
    /// Scroll to the row, if there is one.
    Scroll(Option<usize>),
    /// Go on with a request to go somewhere.
    Navigate(Navigation),
    /// Apply the search under its regime, and end the session of this number
    /// when it has been idle for long enough.
    Search(u64),
}

/// Whether an action leads from `before` to `after`. Rows `first` up to `end`
/// are seen, and the environment names `home`.
pub open spec fn performed(
    before: FileTable,
    after: FileTable,
    action: TableAction,
    first: usize,
    end: usize,
    home: Option<String>,
    outcome: TableOutcome,
) -> bool {
    let still = outcome == TableOutcome::Scroll(None) && after == (FileTable {
        delegate: after.delegate,
        ..before
    });
    match action {
        TableAction::Cursor(key) => outcome is Scroll && cursor_keyed(
            before,
            after,
            key,
            first,
            end,
            outcome->Scroll_0,
        ),
        TableAction::ExtendSelection(key) => outcome is Scroll && range_keyed(
            before,
            after,
            key,
            first,
            end,
            outcome->Scroll_0,
        ),
        TableAction::ToggleSelectionAndAdvance => outcome is Scroll && toggled_and_advanced(
            before,
            after,
            first,
            end,
            outcome->Scroll_0,
        ),
        TableAction::ToggleSelection => still && cursor_toggled(before.delegate, after.delegate),
        TableAction::InvertSelection => still && shown_inverted(before.delegate, after.delegate),
        TableAction::SelectAll => still && shown_selected(before.delegate, after.delegate),
        TableAction::DeselectAll => still && all_deselected(before.delegate, after.delegate),
        TableAction::SelectSameExtension => still && kin_selected(before.delegate, after.delegate),
        TableAction::QuickSearchCancel => still && search_cleared(before.delegate, after.delegate),
        TableAction::EnterDirectory => outcome is Navigate && went_in(
            before,
            after,
            outcome->Navigate_0,
        ),
        TableAction::NavigateParent => outcome is Navigate && went_up(
            before,
            after,
            outcome->Navigate_0,
        ),
        TableAction::NavigateRoot => outcome is Navigate && navigated(
            before,
            after,
            "/"@,
            None,
            outcome->Navigate_0,
        ),
        TableAction::NavigateHome => outcome is Navigate && match home {
            Some(dir) => navigated(before, after, dir@, None, outcome->Navigate_0),
            None => after == before && outcome->Navigate_0 is Stay,
        },
        TableAction::HistoryBack => outcome is Navigate && if before.history_back@.len() == 0 {
            after == before && outcome->Navigate_0 is Stay
        } else {
            history_stepped(
                before,
                after,
                went_back(before.current_dir, before.history_back@, before.history_forward@),
                outcome->Navigate_0,
            )
        },
        TableAction::HistoryForward => outcome is Navigate && if before.history_forward@.len() == 0 {
            after == before && outcome->Navigate_0 is Stay
        } else {
            history_stepped(
                before,
                after,
                went_forward(before.current_dir, before.history_back@, before.history_forward@),
                outcome->Navigate_0,
            )
        },
        TableAction::QuickFilterToggle => {
            &&& outcome is Search
            &&& after == (FileTable { delegate: after.delegate, ..before })
            &&& regime_toggled(before.delegate, after.delegate, outcome->Search_0)
        },
    }
}

impl FileTable {
    /// Does what an action asks for, while rows `first` up to `end` are seen.
    /// Returns what is left to do outside the table.
    pub fn perform(
        &mut self,
        action: TableAction,
        first: usize,
        end: usize,
        home: Option<String>,
    ) -> (outcome: TableOutcome)
        requires
            old(self).wf(),
            old(self).delegate.nav_generation < u64::MAX,
            old(self).delegate.search_count < u64::MAX,
        ensures
            final(self).wf(),
            performed(*old(self), *final(self), action, first, end, home, outcome),
    {
        match action {
            TableAction::Cursor(key) => TableOutcome::Scroll(self.cursor_key(key, first, end)),
            TableAction::ExtendSelection(key) => TableOutcome::Scroll(
                self.extend_selection(key, first, end),
            ),
            TableAction::ToggleSelectionAndAdvance => TableOutcome::Scroll(
                self.toggle_selection_and_advance(first, end),
            ),
            TableAction::ToggleSelection => {
                self.delegate.toggle_cursor_selection();
                TableOutcome::Scroll(None)
            },
            TableAction::InvertSelection => {
                self.delegate.invert_selection();
                TableOutcome::Scroll(None)
            },
            TableAction::SelectAll => {
                self.delegate.select_all();
                TableOutcome::Scroll(None)
            },
            TableAction::DeselectAll => {
                self.delegate.deselect_all();
                TableOutcome::Scroll(None)
            },
            TableAction::SelectSameExtension => {
                self.delegate.select_same_extension();
                TableOutcome::Scroll(None)
            },
            TableAction::QuickSearchCancel => {
                self.delegate.clear_quick_search();
                TableOutcome::Scroll(None)
            },
            TableAction::EnterDirectory => TableOutcome::Navigate(self.enter_cursor_directory()),
            TableAction::NavigateParent => TableOutcome::Navigate(self.navigate_to_parent()),
            TableAction::NavigateRoot => TableOutcome::Navigate(self.navigate_to_root()),
            TableAction::NavigateHome => TableOutcome::Navigate(self.navigate_to_home(home)),
            TableAction::HistoryBack => TableOutcome::Navigate(self.navigate_history_back()),
            TableAction::HistoryForward => TableOutcome::Navigate(self.navigate_history_forward()),
            TableAction::QuickFilterToggle => TableOutcome::Search(
                self.delegate.toggle_quick_filter(),
            ),
        }
    }
}

/// What an action does to the mark of an entry. Only the actions that select
/// touch marks without moving the cursor; going somewhere, searching and moving
/// the cursor leave every mark.
pub proof fn lemma_actions_mark_entries(
    before: FileTable,
    after: FileTable,
    action: TableAction,
    first: usize,
    end: usize,
    home: Option<String>,
    outcome: TableOutcome,
    id: usize,
)
    requires
        before.wf(),
        after.wf(),
        performed(before, after, action, first, end, home, outcome),
        id < before.delegate.model.entries@.len(),
    ensures
        ({
            let was = before.delegate.model.selected@[id as int];
            let marked = after.delegate.model.selected@[id as int];
            let shown = before.delegate.model.order@.contains(id);
            let under_cursor = before.delegate.cursor_row is Some && before.delegate.model.cursor
                == Some(EntryId { index: id });
            match action {
                TableAction::ToggleSelection => marked == (if under_cursor {
                    !was
                } else {
                    was
                }) && after.delegate.cursor_row == before.delegate.cursor_row,
                TableAction::InvertSelection => marked == (if shown {
                    !was
                } else {
                    was
                }) && after.delegate.cursor_row == before.delegate.cursor_row,
                TableAction::SelectAll => marked == (was || shown) && after.delegate.cursor_row
                    == before.delegate.cursor_row,
                TableAction::DeselectAll => !marked && after.delegate.cursor_row
                    == before.delegate.cursor_row,
                TableAction::SelectSameExtension => (was ==> marked) && (marked && !was ==> shown)
                    && after.delegate.cursor_row == before.delegate.cursor_row,
                TableAction::ToggleSelectionAndAdvance => marked == (if under_cursor {
                    !was
                } else {
                    was
                }),
                TableAction::ExtendSelection(_) => !shown ==> marked == was,
                _ => marked == was,
            }
        }),
{
    let b = before.delegate;
    let a = after.delegate;
    match action {
        TableAction::ToggleSelection => {
            lemma_toggle_flips_one(b, a, id);
        },
        TableAction::InvertSelection | TableAction::SelectAll => {
            lemma_shown_marks(b.model.order@, id);
        },
        TableAction::SelectSameExtension => {
            lemma_kin_share_the_extension(b, a, id);
        },
        TableAction::ToggleSelectionAndAdvance => {
            let toggled = choose|toggled: FileTableDelegate|
                {
                    &&& #[trigger] cursor_toggled(b, toggled)
                    &&& a == toggled.moved_to(
                        (match toggled.shown_row() {
                            Some(r) => r,
                            None => 0,
                        }) + 1,
                    )
                };
            lemma_toggle_flips_one(b, toggled, id);
        },
        TableAction::ExtendSelection(_) => {
            lemma_shown_marks(b.model.order@, id);
        },
        _ => {},
    }
}

proof fn lemma_shown_marks(order: Seq<usize>, id: usize)
    ensures
        order.contains(id) <==> is_shown(order, id as int),
        order.contains(id) ==> exists|r: int| 0 <= r < order.len() && #[trigger] order[r] == id,
{
    if order.contains(id) {
        let r = choose|r: int| 0 <= r < order.len() && order[r] == id;
        assert(order[r] == id as int);
    }
    if is_shown(order, id as int) {
        let r = choose|r: int| 0 <= r < order.len() && #[trigger] order[r] == id as int;
        assert(order[r] == id);
    }
}

/// Where an action takes a table that is not locked: the root, the home
/// directory, the directory above, the last one behind or the last one ahead,
/// and nowhere where there is none of these. Every other action stays in the
/// directory.
pub proof fn lemma_actions_go_places(
    before: FileTable,
    after: FileTable,
    action: TableAction,
    first: usize,
    end: usize,
    home: Option<String>,
    outcome: TableOutcome,
)
    requires
        before.wf(),
        !before.locked,
        performed(before, after, action, first, end, home, outcome),
    ensures
        match action {
            TableAction::NavigateRoot => after.current_dir@ == seq!['/'],
            TableAction::NavigateHome => match home {
                Some(dir) => after.current_dir@ == dir@,
                None => after == before,
            },
            TableAction::NavigateParent => match path_parent(before.current_dir@) {
                Some(parent) => after.current_dir@ == parent,
                None => after == before,
            },
            TableAction::HistoryBack => if before.history_back@.len() > 0 {
                after.current_dir == before.history_back@[before.history_back@.len() - 1]
            } else {
                after == before
            },
            TableAction::HistoryForward => if before.history_forward@.len() > 0 {
                after.current_dir == before.history_forward@[before.history_forward@.len() - 1]
            } else {
                after == before
            },
            TableAction::EnterDirectory => !before.delegate.cursor_on_parent && (
            before.delegate.cursor_row is None || before.delegate.model.entries@[
                before.delegate.model.cursor->0.index as int].kind != EntryKind::Directory) ==> after
                == before,
            _ => after.current_dir == before.current_dir && after.history_back
                == before.history_back && after.history_forward == before.history_forward,
        },
        outcome is Navigate ==> (outcome->Navigate_0 is Stay <==> after == before),
{
    before.delegate.lemma_cursor_row();
    reveal_strlit("/");
    assert("/"@ =~= seq!['/']);
}

/// What an action does to a session: cancelling ends it, the filter key switches
/// it, moving the cursor ends one that jumps, and going somewhere ends any.
pub proof fn lemma_actions_in_a_session(
    before: FileTable,
    after: FileTable,
    action: TableAction,
    first: usize,
    end: usize,
    home: Option<String>,
    outcome: TableOutcome,
)
    requires
        before.wf(),
        before.delegate.quick_search is Some,
        performed(before, after, action, first, end, home, outcome),
    ensures
        match action {
            TableAction::QuickSearchCancel => after.delegate.quick_search is None,
            TableAction::QuickFilterToggle => after.delegate.quick_search is Some
                && after.delegate.quick_search->0.mode != before.delegate.quick_search->0.mode
                && after.delegate.quick_search->0.query == before.delegate.quick_search->0.query
                && outcome == TableOutcome::Search(after.delegate.search_count),
            TableAction::Cursor(_) => after.delegate.quick_search is None
                <==> before.delegate.quick_search->0.mode == QuickSearchMode::Jump,
            TableAction::NavigateRoot => after.delegate.quick_search is Some <==> before.locked,
            TableAction::ToggleSelection | TableAction::InvertSelection | TableAction::SelectAll
            | TableAction::DeselectAll | TableAction::SelectSameExtension => {
                after.delegate.quick_search == before.delegate.quick_search
            },
            _ => true,
        },
{
}

/// Where the actions that move the cursor take it: a display row up or down, or
/// to an end; with Shift, a row of the entries up or down, or to an end, with
/// the range.
pub proof fn lemma_actions_move_the_cursor(
    before: FileTable,
    after: FileTable,
    action: TableAction,
    first: usize,
    end: usize,
    home: Option<String>,
    outcome: TableOutcome,
)
    requires
        before.wf(),
        before.delegate.quick_search is None,
        before.delegate.range_anchor is None,
        before.delegate.cursor_row is Some,
        performed(before, after, action, first, end, home, outcome),
    ensures
        ({
            let n = before.delegate.model.order@.len() as int;
            let row = before.delegate.cursor_row->0 as int;
            let d = after.delegate;
            match action {
                TableAction::Cursor(CursorKey::Home) => if before.delegate.has_parent_row {
                    d.cursor_on_parent
                } else {
                    d.cursor_row == Some(0usize)
                },
                TableAction::Cursor(CursorKey::End) => d.cursor_row == Some((n - 1) as usize)
                    && !d.cursor_on_parent,
                TableAction::Cursor(CursorKey::Down) => !before.delegate.cursor_on_parent && row + 1
                    < n ==> d.cursor_row == Some((row + 1) as usize) && !d.cursor_on_parent,
                TableAction::Cursor(CursorKey::Up) => !before.delegate.cursor_on_parent && row > 0
                    ==> d.cursor_row == Some((row - 1) as usize) && !d.cursor_on_parent,
                TableAction::Cursor(CursorKey::PageDown) => !before.delegate.cursor_on_parent
                    && first < end && row + (end - first) < n ==> d.cursor_row == Some(
                    (row + (end - first)) as usize,
                ),
                TableAction::Cursor(CursorKey::PageUp) => !before.delegate.cursor_on_parent && first
                    < end && row >= end - first ==> d.cursor_row == Some(
                    (row - (end - first)) as usize,
                ) || d.cursor_on_parent,
                TableAction::ExtendSelection(CursorKey::Home) => d.cursor_row == Some(0usize)
                    && d.range_anchor == before.delegate.cursor_row,
                TableAction::ExtendSelection(CursorKey::End) => d.cursor_row == Some(
                    (n - 1) as usize,
                ) && d.range_anchor == before.delegate.cursor_row,
                TableAction::ExtendSelection(CursorKey::Down) => row + 1 < n ==> d.cursor_row
                    == Some((row + 1) as usize) && d.range_anchor == before.delegate.cursor_row,
                TableAction::ExtendSelection(CursorKey::Up) => row > 0 ==> d.cursor_row == Some(
                    (row - 1) as usize,
                ) && d.range_anchor == before.delegate.cursor_row,
                TableAction::ExtendSelection(CursorKey::PageDown) => first < end && row + (end
                    - first) < n ==> d.cursor_row == Some((row + (end - first)) as usize),
                TableAction::ExtendSelection(CursorKey::PageUp) => first < end && row >= end - first
                    ==> d.cursor_row == Some((row - (end - first)) as usize),
                TableAction::ToggleSelectionAndAdvance => !before.delegate.cursor_on_parent && row
                    + 1 < n ==> d.cursor_row == Some((row + 1) as usize),
                _ => true,
            }
        }),
{
    before.delegate.lemma_cursor_row();
    match action {
        TableAction::Cursor(key) => {
            lemma_cursor_key(before, after, key, first, end, outcome->Scroll_0);
        },
        TableAction::ExtendSelection(key) => {
            lemma_range_key(
                before,
                after,
                key,
                first,
                end,
                outcome->Scroll_0,
                before.delegate.cursor_row->0 as int,
            );
        },
        TableAction::ToggleSelectionAndAdvance => {
            if !before.delegate.cursor_on_parent {
                lemma_mark_and_move_on(
                    before,
                    after,
                    first,
                    end,
                    outcome->Scroll_0,
                    before.delegate.model.order@[0],
                );
            }
        },
        _ => {},
    }
}

/// Enter goes into the directory under the cursor.
pub proof fn lemma_enter_goes_in(
    before: FileTable,
    after: FileTable,
    first: usize,
    end: usize,
    home: Option<String>,
    outcome: TableOutcome,
    name: Seq<char>,
)
    requires
        before.wf(),
        !before.locked,
        !before.delegate.cursor_on_parent,
        before.delegate.cursor_row is Some,
        before.delegate.nav_generation < u64::MAX,
        ({
            let entry = before.delegate.model.entries@[before.delegate.model.cursor->0.index as int];
            entry.kind == EntryKind::Directory && entry.name@ == name
        }),
        name.len() > 0 && !name.contains('/') && name != seq!['.'],
        performed(before, after, TableAction::EnterDirectory, first, end, home, outcome),
    ensures
        components(after.current_dir@) == components(before.current_dir@).push(name),
        after.history_back@ == before.history_back@.push(before.current_dir),
        outcome is Navigate && outcome->Navigate_0 is Go,
{
    before.delegate.lemma_cursor_row();
    assert forall|i: int| 0 <= i < name.len() implies name[i] != '/' by {
        assert(name.contains(name[i]));
    }
    lemma_components_of_entry(before.current_dir@, name);
}

} // verus!
