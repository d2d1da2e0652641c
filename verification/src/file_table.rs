//! The file table: rows and their texts, the cursor, the selection and
//! type-ahead search.
//!
//! Rows are counted in two ways. A model row counts the entries that are
//! shown. A display row counts what the table draws, which is the same, or
//! one more where a `..` row stands on top.

use crate::calendar::{date_text, write_date};
use crate::columns::{EntryKind, SortColumn, NAME_MIN, PIXEL};
use crate::listing::{
    is_order, lemma_row_of, lemma_row_of_shown, next_generation, visible, DirectoryModel, Entry, EntryId,
    SortOptions,
};
use crate::paths::{extension, extension_of};
use crate::quick_search::{can_match, fuzzy_score, rows_rise, MouseMode, QuickSearchMode};
use crate::sizes::{size_text, write_size};
use crate::text::same_text;
use vstd::prelude::*;

verus! {

pub const COL_NAME: usize = 0;

pub const COL_SIZE: usize = 1;

pub const COL_MODIFIED: usize = 2;

/// What the table's own chrome takes of the panel's width.
pub const TABLE_CHROME_RESERVE: u32 = 2000;

pub const SIZE_WIDTH: u32 = 11000;

pub const MODIFIED_WIDTH: u32 = 17000;

/// Name's width where `available` is left for the three columns.
pub open spec fn name_share(available: u32) -> u32 {
    if available >= NAME_MIN + SIZE_WIDTH + MODIFIED_WIDTH {
        (available - SIZE_WIDTH - MODIFIED_WIDTH) as u32
    } else {
        NAME_MIN
    }
}

/// The widths of the three columns: Size and Modified fixed, Name taking the
/// rest, down to its floor.
pub fn column_widths(available: u32) -> (widths: [u32; 3])
    ensures
        widths@ == seq![name_share(available), SIZE_WIDTH, MODIFIED_WIDTH],
{
    let name: u32 = if available >= NAME_MIN + SIZE_WIDTH + MODIFIED_WIDTH {
        available - SIZE_WIDTH - MODIFIED_WIDTH
    } else {
        NAME_MIN
    };
    let widths = [name, SIZE_WIDTH, MODIFIED_WIDTH];
    assert(widths@ =~= seq![name_share(available), SIZE_WIDTH, MODIFIED_WIDTH]);
    widths
}

/// The texts of one row.
#[derive(Debug, PartialEq, Eq)]
pub struct RowText {
    pub name: String,
    pub size: String,
    pub modified: String,
}

/// Whether `row` holds the texts of `entry`.
pub open spec fn row_shows(row: RowText, entry: Entry) -> bool {
    &&& row.name@ == entry.name@
    &&& row.size@ == size_text(entry.kind, entry.size as nat)
    &&& row.modified@ == date_text(entry.mtime_secs as int)
}

/// The match that the cursor jumped to.
#[derive(Debug, PartialEq, Eq)]
pub struct JumpMatch {
    /// Its place among all matches, counted from 1 in listing order.
    pub ordinal: usize,
    pub total: usize,
    pub model_row: usize,
    /// The characters of the name that matched.
    pub indices: Vec<u32>,
}

/// A type-ahead session.
#[derive(Debug, PartialEq, Eq)]
pub struct QuickSearchState {
    pub mode: QuickSearchMode,
    /// What has been typed.
    pub query: String,
    /// A number that every keystroke makes anew.
    pub generation: u64,
    /// The current match; `None` while filtering.
    pub jump_match: Option<JumpMatch>,
    /// How many rows pass the filter; `None` while jumping.
    pub filter_match_count: Option<usize>,
}

/// How a row is drawn.
#[derive(Clone, Copy, Debug, PartialEq, Eq, Structural)]
pub enum RowStyle {
    Plain,
    Cursor,
    Selected,
}

#[derive(Debug, PartialEq, Eq)]
pub struct FileTableDelegate {
    pub model: DirectoryModel,
    /// The widths of the three columns.
    pub widths: [u32; 3],
    pub last_available_width: Option<u32>,
    pub row_text: Vec<RowText>,
    /// The generation of the rows that the texts are of.
    pub cached_generation: u64,
    pub total_bytes_in_view: u64,
    pub loading: bool,
    /// The model row of the cursor.
    pub cursor_row: Option<usize>,
    /// The fixed end of a range that is being extended.
    pub range_anchor: Option<usize>,
    /// Which entries the range being extended has added to the selection.
    pub range_added: Vec<bool>,
    /// Counts navigations, so that a listing that comes late is known.
    pub nav_generation: u64,
    /// Whether a `..` row stands on top.
    pub has_parent_row: bool,
    /// Whether the cursor is on it.
    pub cursor_on_parent: bool,
    pub mouse_mode: MouseMode,
    pub quick_search: Option<QuickSearchState>,
    /// Counts the keystrokes of all sessions.
    pub search_count: u64,
    pub quick_search_default_mode: QuickSearchMode,
}

/// The bytes of the first `upto` rows, directories left out.
pub open spec fn bytes_shown(model: DirectoryModel, upto: int) -> nat
    decreases upto,
{
    if upto <= 0 {
        0
    } else {
        bytes_shown(model, upto - 1) + if model.entry_at(upto - 1).kind == EntryKind::Directory {
            0
        } else {
            model.entry_at(upto - 1).size as nat
        }
    }
}

/// A total as the footer holds it: at most what fits.
pub open spec fn held_total(total: nat) -> u64 {
    if total <= u64::MAX {
        total as u64
    } else {
        u64::MAX
    }
}

/// Whether `r` lies between `a` and `b`, both included.
pub open spec fn in_span(a: int, b: int, r: int) -> bool {
    a <= r <= b || b <= r <= a
}

/// The first row at or behind `from` whose entry is called `name`.
pub open spec fn row_named(model: DirectoryModel, name: Seq<char>, from: int) -> Option<int>
    decreases model.order@.len() - from,
{
    if from < 0 || from >= model.order@.len() {
        None
    } else if model.entry_at(from).name@ == name {
        Some(from)
    } else {
        row_named(model, name, from + 1)
    }
}

/// The first `upto` rows that match `query`, with their scores.
pub open spec fn matches_of(model: DirectoryModel, query: Seq<char>, upto: int) -> Seq<(usize, u32)>
    decreases upto,
{
    if upto <= 0 {
        Seq::empty()
    } else {
        let before = matches_of(model, query, upto - 1);
        match fuzzy_score(query, model.entry_at(upto - 1).name@) {
            Some(s) => before.push(((upto - 1) as usize, s)),
            None => before,
        }
    }
}

/// Whether the matcher can be asked for `query` in the names of all rows.
pub open spec fn can_search(model: DirectoryModel, query: Seq<char>) -> bool {
    forall|r: int|
        0 <= r < model.order@.len() ==> can_match(query, (#[trigger] model.entry_at(r)).name@)
}

pub proof fn lemma_matches_rise(model: DirectoryModel, query: Seq<char>, upto: int)
    requires
        0 <= upto <= usize::MAX,
    ensures
        rows_rise(matches_of(model, query, upto)),
        forall|i: int|
            0 <= i < matches_of(model, query, upto).len() ==> (#[trigger] matches_of(
                model,
                query,
                upto,
            )[i]).0 < upto && fuzzy_score(
                query,
                model.entry_at(matches_of(model, query, upto)[i].0 as int).name@,
            ) == Some(matches_of(model, query, upto)[i].1),
        matches_of(model, query, upto).len() <= upto,
    decreases upto,
{
    if upto > 0 {
        lemma_matches_rise(model, query, upto - 1);
        let before = matches_of(model, query, upto - 1);
        let now = matches_of(model, query, upto);
        assert forall|i: int, j: int| 0 <= i < j < now.len() implies (#[trigger] now[i]).0 < (
        #[trigger] now[j]).0 by {
            if j < before.len() {
                assert(before[i].0 < before[j].0);
            } else {
                assert(before[i].0 < upto - 1);
            }
        }
        assert forall|i: int| 0 <= i < now.len() implies (#[trigger] now[i]).0 < upto && fuzzy_score(
            query,
            model.entry_at(now[i].0 as int).name@,
        ) == Some(now[i].1) by {
            if i < before.len() {
                assert(now[i] == before[i]);
            }
        }
    }
}

/// Whether entry `id` is on one of the rows.
pub open spec fn is_shown(order: Seq<usize>, id: int) -> bool {
    exists|r: int| 0 <= r < order.len() && #[trigger] order[r] == id
}

/// Whether extending the range to model row `row` leads from `before` to
/// `after`. What the range has reached is selected; what it has left again is
/// as it was before the range reached it.
pub open spec fn extended(before: FileTableDelegate, after: FileTableDelegate, row: int) -> bool {
    let order = before.model.order@;
    let target = if row < order.len() {
        row
    } else {
        order.len() - 1
    };
    let from = match before.cursor_row {
        Some(r) => r as int,
        None => target,
    };
    let anchor = match before.range_anchor {
        Some(a) => a as int,
        None => from,
    };
    &&& after == (FileTableDelegate {
        model: DirectoryModel {
            selected: after.model.selected,
            cursor: Some(EntryId { index: order[target] }),
            ..before.model
        },
        cursor_row: Some(target as usize),
        range_anchor: Some(anchor as usize),
        range_added: after.range_added,
        ..before
    })
    &&& after.model.selected@.len() == before.model.selected@.len()
    &&& after.range_added@.len() == before.model.entries@.len()
    &&& forall|r: int|
        0 <= r < order.len() ==> after.model.selected@[#[trigger] order[r] as int] == (in_span(
            anchor,
            target,
            r,
        ) || (before.model.selected@[order[r] as int] && !(in_span(anchor, from, r)
            && session_added(before, order[r] as int))))
    &&& forall|r: int|
        0 <= r < order.len() ==> after.range_added@[#[trigger] order[r] as int] == (in_span(
            anchor,
            target,
            r,
        ) && (session_added(before, order[r] as int) || !before.model.selected@[order[r] as int]))
    &&& forall|id: int|
        0 <= id < before.model.selected@.len() && !is_shown(order, id)
            ==> #[trigger] after.model.selected@[id] == before.model.selected@[id]
}

/// Whether the range being extended has added entry `id` to the selection.
pub open spec fn session_added(delegate: FileTableDelegate, id: int) -> bool {
    delegate.range_anchor is Some && delegate.range_added@[id]
}

impl FileTableDelegate {
    pub open spec fn rows(self) -> int {
        self.model.order@.len() as int
    }

    /// How far display rows are ahead of model rows.
    pub open spec fn row_offset(self) -> int {
        if self.has_parent_row {
            1
        } else {
            0
        }
    }

    pub open spec fn display_rows(self) -> int {
        self.rows() + self.row_offset()
    }

    /// The display row of the cursor.
    pub open spec fn shown_row(self) -> Option<int> {
        if self.cursor_on_parent {
            Some(0)
        } else {
            match self.cursor_row {
                Some(r) => Some(r + self.row_offset()),
                None => None,
            }
        }
    }

    /// Whether the texts are those of the rows.
    pub open spec fn text_matches(self) -> bool {
        &&& self.row_text@.len() == self.rows()
        &&& forall|i: int|
            0 <= i < self.rows() ==> row_shows(#[trigger] self.row_text@[i], self.model.entry_at(i))
        &&& self.total_bytes_in_view == held_total(bytes_shown(self.model, self.rows()))
    }

    /// Whether the cursor's row is that of the entry under the cursor.
    pub open spec fn cursor_agrees(self) -> bool {
        match self.cursor_row {
            Some(r) => self.model.cursor_place() == Some(r as int),
            None => self.model.cursor_place() is None,
        }
    }

    /// Whether a range being extended starts at a row that is there.
    pub open spec fn range_fits(self) -> bool {
        match self.range_anchor {
            Some(a) => a < self.rows() && self.range_added@.len() == self.model.entries@.len(),
            None => true,
        }
    }

    /// Whether a session holds what its regime has, and no more keystrokes
    /// than were counted.
    pub open spec fn session_fits(self) -> bool {
        match self.quick_search {
            Some(s) => {
                &&& s.jump_match is Some ==> s.mode == QuickSearchMode::Jump
                &&& s.filter_match_count is Some ==> s.mode == QuickSearchMode::Filter
                &&& s.generation <= self.search_count
            },
            None => true,
        }
    }

    /// Everything but the cursor.
    pub open spec fn rest_fits(self) -> bool {
        &&& self.model.wf()
        &&& self.text_matches()
        &&& self.cached_generation == self.model.generation
        &&& self.cursor_on_parent ==> self.has_parent_row
        &&& self.range_fits()
        &&& self.session_fits()
    }

    pub open spec fn wf(self) -> bool {
        self.rest_fits() && self.cursor_agrees()
    }

    /// This table with its cursor on a model row, or on the last where there
    /// are fewer; on none where there are no rows.
    pub open spec fn with_cursor_row(self, row: Option<int>) -> Self {
        let target: Option<usize> = match row {
            Some(r) => if self.rows() == 0 {
                None
            } else if r < self.rows() {
                Some(r as usize)
            } else {
                Some((self.rows() - 1) as usize)
            },
            None => None,
        };
        FileTableDelegate {
            cursor_row: target,
            model: DirectoryModel {
                cursor: match target {
                    Some(t) => Some(EntryId { index: self.model.order@[t as int] }),
                    None => None,
                },
                ..self.model
            },
            ..self
        }
    }

    /// This table with its cursor on a display row. On the `..` row the
    /// cursor keeps the model row that it had.
    pub open spec fn with_display_cursor(self, row: int) -> Self {
        if self.has_parent_row && row == 0 {
            FileTableDelegate { cursor_on_parent: true, ..self }
        } else {
            (FileTableDelegate { cursor_on_parent: false, ..self }).with_cursor_row(
                Some(row - self.row_offset()),
            )
        }
    }

    /// This table after its cursor moved to a display row, or as near to it
    /// as there are rows. That ends a range being extended.
    pub open spec fn moved_to(self, row: int) -> Self {
        if self.display_rows() == 0 {
            self
        } else {
            (FileTableDelegate { range_anchor: None, ..self }).with_display_cursor(
                if row < 0 {
                    0
                } else if row < self.display_rows() {
                    row
                } else {
                    self.display_rows() - 1
                },
            )
        }
    }

    /// The cursor of a table that fits is on a row that is there.
    pub proof fn lemma_cursor_row(self)
        requires
            self.wf(),
        ensures
            is_order(self.model.order@, self.model.entries@.len()),
            match self.cursor_row {
                Some(r) => r < self.rows() && self.model.cursor == Some(
                    EntryId { index: self.model.order@[r as int] },
                ),
                None => true,
            },
    {
        self.model.lemma_rows();
        if let Some(id) = self.model.cursor {
            lemma_row_of(self.model.order@, id.index, 0);
        }
    }

    /// A table with its cursor moved fits.
    pub proof fn lemma_cursor_moves(self, row: Option<int>)
        requires
            self.rest_fits(),
            match row {
                Some(r) => 0 <= r,
                None => true,
            },
        ensures
            self.with_cursor_row(row).wf(),
    {
        self.model.lemma_rows();
        let moved = self.with_cursor_row(row);
        if let Some(t) = moved.cursor_row {
            lemma_row_of_shown(self.model.order@, self.model.entries@.len(), t as int, 0);
        }
        assert forall|upto: int| bytes_shown(moved.model, upto) == bytes_shown(
            self.model,
            upto,
        ) by {
            lemma_bytes_of_same_rows(moved.model, self.model, upto);
        }
        assert forall|i: int| 0 <= i < moved.rows() implies row_shows(
            #[trigger] moved.row_text@[i],
            moved.model.entry_at(i),
        ) by {
            assert(row_shows(self.row_text@[i], self.model.entry_at(i)));
        }
    }

    /// A table over `model`, its cursor on the first row.
    pub fn new(model: DirectoryModel) -> (delegate: Self)
        requires
            model.wf(),
        ensures
            delegate.wf(),
            delegate.model == (DirectoryModel { cursor: delegate.model.cursor, ..model }),
            delegate.cursor_row == (if model.order@.len() > 0 {
                Some(0usize)
            } else {
                None
            }),
            delegate.model.cursor == (if model.order@.len() > 0 {
                Some(EntryId { index: model.order@[0] })
            } else {
                None
            }),
            delegate.widths@ == seq![NAME_MIN, SIZE_WIDTH, MODIFIED_WIDTH],
            delegate.last_available_width is None,
            delegate.loading,
            delegate.range_anchor is None,
            delegate.nav_generation == 0,
            !delegate.has_parent_row,
            !delegate.cursor_on_parent,
            delegate.mouse_mode == MouseMode::Windows,
            delegate.quick_search is None,
            delegate.search_count == 0,
            delegate.quick_search_default_mode == QuickSearchMode::Jump,
    {
        let widths = [NAME_MIN, SIZE_WIDTH, MODIFIED_WIDTH];
        assert(widths@ =~= seq![NAME_MIN, SIZE_WIDTH, MODIFIED_WIDTH]);
        let mut delegate = FileTableDelegate {
            model,
            widths,
            last_available_width: None,
            row_text: Vec::new(),
            cached_generation: u64::MAX,
            total_bytes_in_view: 0,
            loading: true,
            cursor_row: None,
            range_anchor: None,
            range_added: Vec::new(),
            nav_generation: 0,
            has_parent_row: false,
            cursor_on_parent: false,
            mouse_mode: MouseMode::Windows,
            quick_search: None,
            search_count: 0,
            quick_search_default_mode: QuickSearchMode::Jump,
        };
        delegate.rebuild_row_text();
        delegate.set_cursor_row(Some(0));
        delegate
    }

    /// Makes the texts of the rows anew, unless they are those of the rows as
    /// they are now.
    pub fn rebuild_row_text(&mut self)
        requires
            old(self).model.wf(),
            old(self).cached_generation == old(self).model.generation ==> old(self).text_matches(),
        ensures
            final(self).text_matches(),
            old(self).cached_generation == old(self).model.generation ==> *final(self) == *old(self),
            *final(self) == (FileTableDelegate {
                row_text: final(self).row_text,
                cached_generation: old(self).model.generation,
                total_bytes_in_view: final(self).total_bytes_in_view,
                ..*old(self)
            }),
    {
        if self.cached_generation == self.model.generation {
            return;
        }
        let mut row_text: Vec<RowText> = Vec::new();
        let mut total: u64 = 0;
        let mut row: usize = 0;
        proof {
            self.model.lemma_rows();
        }
        while row < self.model.order.len()
            invariant
                *self == *old(self),
                is_order(self.model.order@, self.model.entries@.len()),
                row <= self.model.order@.len(),
                row_text@.len() == row,
                forall|i: int|
                    0 <= i < row ==> row_shows(#[trigger] row_text@[i], self.model.entry_at(i)),
                total == held_total(bytes_shown(self.model, row as int)),
            decreases self.model.order@.len() - row,
        {
            let id: usize = self.model.order[row];
            let entry = &self.model.entries[id];
            assert(*entry == self.model.entry_at(row as int));
            let name = entry.name.clone();
            let mut size = String::new();
            write_size(&mut size, entry.kind, entry.size);
            assert(size@ =~= size_text(entry.kind, entry.size as nat));
            let mut modified = String::new();
            write_date(&mut modified, entry.mtime_secs);
            assert(modified@ =~= date_text(entry.mtime_secs as int));
            if entry.kind != EntryKind::Directory {
                total = if total <= u64::MAX - entry.size {
                    total + entry.size
                } else {
                    u64::MAX
                };
            }
            row_text.push(RowText { name, size, modified });
            row = row + 1;
        }
        self.row_text = row_text;
        self.cached_generation = self.model.generation;
        self.total_bytes_in_view = total;
        assert(self.text_matches()) by {
            lemma_bytes_of_same_rows(self.model, old(self).model, self.rows());
        }
    }

    /// Puts the cursor on a model row, held to the rows that are there, and
    /// the listing's own cursor on its entry.
    pub(crate) fn set_cursor_row(&mut self, row: Option<usize>)
        requires
            old(self).rest_fits(),
        ensures
            final(self).wf(),
            *final(self) == old(self).with_cursor_row(
                match row {
                    Some(r) => Some(r as int),
                    None => None,
                },
            ),
    {
        proof {
            self.model.lemma_rows();
            self.lemma_cursor_moves(
                match row {
                    Some(r) => Some(r as int),
                    None => None,
                },
            );
        }
        let rows: usize = self.model.order.len();
        let target: Option<usize> = match row {
            Some(r) => if rows == 0 {
                None
            } else if r < rows {
                Some(r)
            } else {
                Some(rows - 1)
            },
            None => None,
        };
        self.cursor_row = target;
        let id = match target {
            Some(t) => Some(EntryId { index: self.model.order[t] }),
            None => None,
        };
        self.model.set_cursor(id);
    }

    /// Finds the row of the entry under the cursor again, after the rows
    /// changed. That ends a range being extended.
    pub(crate) fn sync_cursor_row_from_model(&mut self)
        requires
            old(self).model.wf(),
            old(self).text_matches(),
            old(self).cached_generation == old(self).model.generation,
            old(self).cursor_on_parent ==> old(self).has_parent_row,
            old(self).session_fits(),
        ensures
            final(self).wf(),
            *final(self) == (FileTableDelegate {
                cursor_row: final(self).cursor_row,
                range_anchor: None,
                ..*old(self)
            }),
    {
        self.cursor_row = self.model.cursor_row();
        self.range_anchor = None;
    }

    /// The listing.
    pub fn model(&self) -> (model: &DirectoryModel)
        ensures
            *model == self.model,
    {
        &self.model
    }

    /// The listing, to change its selection.
    pub fn model_mut(&mut self) -> (model: &mut DirectoryModel)
        ensures
            *model == old(self).model,
            *final(self) == (FileTableDelegate { model: *final(model), ..*old(self) }),
    {
        &mut self.model
    }

    /// Shows another listing, with the cursor on its first row.
    pub fn set_model(&mut self, model: DirectoryModel)
        requires
            old(self).session_fits(),
            model.wf(),
        ensures
            final(self).wf(),
            final(self).cursor_row == (if model.order@.len() > 0 {
                Some(0usize)
            } else {
                None
            }),
            final(self).model == (DirectoryModel {
                cursor: if model.order@.len() > 0 {
                    Some(EntryId { index: model.order@[0] })
                } else {
                    None
                },
                ..model
            }),
            *final(self) == (FileTableDelegate {
                model: final(self).model,
                row_text: final(self).row_text,
                cached_generation: model.generation,
                total_bytes_in_view: final(self).total_bytes_in_view,
                cursor_row: final(self).cursor_row,
                cursor_on_parent: false,
                range_anchor: None,
                ..*old(self)
            }),
    {
        self.model = model;
        self.cached_generation = u64::MAX;
        self.rebuild_row_text();
        self.cursor_on_parent = false;
        self.range_anchor = None;
        self.set_cursor_row(Some(0));
    }

    pub fn set_loading(&mut self, loading: bool)
        ensures
            *final(self) == (FileTableDelegate { loading, ..*old(self) }),
    {
        self.loading = loading;
    }

    pub fn nav_generation(&self) -> (generation: u64)
        ensures
            generation == self.nav_generation,
    {
        self.nav_generation
    }

    /// A new number for a new navigation.
    pub fn bump_nav_generation(&mut self) -> (generation: u64)
        requires
            old(self).nav_generation < u64::MAX,
        ensures
            generation == old(self).nav_generation + 1,
            *final(self) == (FileTableDelegate { nav_generation: generation, ..*old(self) }),
    {
        self.nav_generation = self.nav_generation + 1;
        self.nav_generation
    }

    pub fn cursor_row(&self) -> (row: Option<usize>)
        ensures
            row == self.cursor_row,
    {
        self.cursor_row
    }

    /// Shows or takes away the `..` row.
    pub fn set_has_parent_row(&mut self, has_parent: bool)
        ensures
            *final(self) == (FileTableDelegate {
                has_parent_row: has_parent,
                cursor_on_parent: has_parent && old(self).cursor_on_parent,
                ..*old(self)
            }),
            old(self).wf() ==> final(self).wf(),
    {
        self.has_parent_row = has_parent;
        if !has_parent {
            self.cursor_on_parent = false;
        }
    }

    pub fn mouse_mode(&self) -> (mode: MouseMode)
        ensures
            mode == self.mouse_mode,
    {
        self.mouse_mode
    }

    pub fn set_mouse_mode(&mut self, mode: MouseMode)
        ensures
            *final(self) == (FileTableDelegate { mouse_mode: mode, ..*old(self) }),
            old(self).wf() ==> final(self).wf(),
    {
        self.mouse_mode = mode;
    }

    pub fn set_quick_search_default_mode(&mut self, mode: QuickSearchMode)
        ensures
            *final(self) == (FileTableDelegate { quick_search_default_mode: mode, ..*old(self) }),
            old(self).wf() ==> final(self).wf(),
    {
        self.quick_search_default_mode = mode;
    }

    /// The model row of a display row; the `..` row has none.
    pub fn model_row(&self, row_ix: usize) -> (row: Option<usize>)
        ensures
            row == (if self.has_parent_row && row_ix == 0 {
                None
            } else {
                Some((row_ix - self.row_offset()) as usize)
            }),
    {
        if self.has_parent_row && row_ix == 0 {
            None
        } else if self.has_parent_row {
            Some(row_ix - 1)
        } else {
            Some(row_ix)
        }
    }

    pub(crate) fn parent_offset(&self) -> (offset: usize)
        ensures
            offset == self.row_offset(),
    {
        if self.has_parent_row {
            1
        } else {
            0
        }
    }

    /// How many rows the table draws.
    pub fn display_rows_count(&self) -> (count: usize)
        requires
            self.model.wf(),
        ensures
            count == self.display_rows(),
    {
        proof {
            self.model.lemma_rows();
        }
        self.model.order.len() + self.parent_offset()
    }

    /// The display row of the cursor.
    pub fn display_row(&self) -> (row: Option<usize>)
        requires
            self.wf(),
        ensures
            match row {
                Some(r) => self.shown_row() == Some(r as int),
                None => self.shown_row() is None,
            },
    {
        proof {
            self.lemma_cursor_row();
        }
        if self.cursor_on_parent {
            Some(0)
        } else {
            match self.cursor_row {
                Some(r) => Some(r + self.parent_offset()),
                None => None,
            }
        }
    }

    fn set_display_cursor(&mut self, row: usize)
        requires
            old(self).rest_fits(),
            old(self).cursor_agrees(),
        ensures
            final(self).wf(),
            *final(self) == old(self).with_display_cursor(row as int),
    {
        if self.has_parent_row && row == 0 {
            self.cursor_on_parent = true;
        } else {
            self.cursor_on_parent = false;
            let offset = self.parent_offset();
            self.set_cursor_row(Some(row - offset));
        }
    }

    /// Moves the cursor by `delta` display rows, held to the rows that are
    /// there. Returns the display row it is on then; `None` without rows.
    pub fn move_cursor_by(&mut self, delta: i64) -> (row: Option<usize>)
        requires
            old(self).wf(),
        ensures
            final(self).wf(),
            *final(self) == old(self).moved_to(
                (match old(self).shown_row() {
                    Some(r) => r,
                    None => 0,
                }) + delta,
            ),
            match row {
                Some(r) => old(self).display_rows() > 0 && final(self).shown_row() == Some(
                    r as int,
                ),
                None => old(self).display_rows() == 0,
            },
    {
        let rows = self.display_rows_count();
        if rows == 0 {
            return None;
        }
        let current: usize = match self.display_row() {
            Some(r) => r,
            None => 0,
        };
        let target: i128 = current as i128 + delta as i128;
        let held: usize = if target < 0 {
            0
        } else if target < rows as i128 {
            target as usize
        } else {
            rows - 1
        };
        self.range_anchor = None;
        self.set_display_cursor(held);
        self.display_row()
    }

    /// Moves the cursor to a display row, or to the last where there are
    /// fewer. Returns the display row it is on then; `None` without rows.
    pub fn move_cursor_to(&mut self, row: usize) -> (at: Option<usize>)
        requires
            old(self).wf(),
        ensures
            final(self).wf(),
            *final(self) == old(self).moved_to(row as int),
            match at {
                Some(r) => old(self).display_rows() > 0 && final(self).shown_row() == Some(
                    r as int,
                ),
                None => old(self).display_rows() == 0,
            },
    {
        let rows = self.display_rows_count();
        if rows == 0 {
            return None;
        }
        let held: usize = if row < rows {
            row
        } else {
            rows - 1
        };
        self.range_anchor = None;
        self.set_display_cursor(held);
        self.display_row()
    }

    /// Moves the cursor to the first entry called `name`. Returns whether
    /// there is one.
    pub fn select_row_by_name(&mut self, name: &str) -> (found: bool)
        requires
            old(self).wf(),
        ensures
            final(self).wf(),
            found == (row_named(old(self).model, name@, 0) is Some),
            *final(self) == (match row_named(old(self).model, name@, 0) {
                Some(row) => old(self).moved_to(row + old(self).row_offset()),
                None => *old(self),
            }),
    {
        let mut row: usize = 0;
        proof {
            self.model.lemma_rows();
        }
        while row < self.model.order.len()
            invariant
                *self == *old(self),
                self.wf(),
                is_order(self.model.order@, self.model.entries@.len()),
                row <= self.model.order@.len(),
                row_named(self.model, name@, 0) == row_named(self.model, name@, row as int),
            decreases self.model.order@.len() - row,
        {
            let id: usize = self.model.order[row];
            if same_text(self.model.entries[id].name.as_str(), name) {
                let offset = self.parent_offset();
                self.move_cursor_to(row + offset);
                return true;
            }
            row = row + 1;
        }
        false
    }

    /// The name of the directory under the cursor.
    pub fn cursor_dir_name(&self) -> (name: Option<String>)
        requires
            self.wf(),
        ensures
            match name {
                Some(n) => !self.cursor_on_parent && self.cursor_row is Some && ({
                    let entry = self.model.entry_at(self.cursor_row->0 as int);
                    entry.kind == EntryKind::Directory && n@ == entry.name@
                }),
                None => self.cursor_on_parent || self.cursor_row is None || self.model.entry_at(
                    self.cursor_row->0 as int,
                ).kind != EntryKind::Directory,
            },
    {
        proof {
            self.lemma_cursor_row();
        }
        if self.cursor_on_parent {
            return None;
        }
        match self.cursor_row {
            Some(row) => {
                let id: usize = self.model.order[row];
                if self.model.entries[id].kind == EntryKind::Directory {
                    Some(self.model.entries[id].name.clone())
                } else {
                    None
                }
            },
            None => None,
        }
    }

    /// The name of the entry under the cursor.
    pub fn cursor_entry_name(&self) -> (name: Option<String>)
        requires
            self.wf(),
        ensures
            match name {
                Some(n) => !self.cursor_on_parent && self.cursor_row is Some && n@
                    == self.model.entry_at(self.cursor_row->0 as int).name@,
                None => self.cursor_on_parent || self.cursor_row is None,
            },
    {
        proof {
            self.lemma_cursor_row();
        }
        if self.cursor_on_parent {
            return None;
        }
        match self.cursor_row {
            Some(row) => {
                let id: usize = self.model.order[row];
                Some(self.model.entries[id].name.clone())
            },
            None => None,
        }
    }

    pub fn cursor_on_parent(&self) -> (on_parent: bool)
        ensures
            on_parent == self.cursor_on_parent,
    {
        self.cursor_on_parent
    }

    /// The bytes of the files that are shown.
    pub fn total_bytes_in_view(&self) -> (total: u64)
        ensures
            total == self.total_bytes_in_view,
    {
        self.total_bytes_in_view
    }
}

pub proof fn lemma_bytes_of_same_rows(a: DirectoryModel, b: DirectoryModel, upto: int)
    requires
        a.entries == b.entries,
        a.order == b.order,
    ensures
        bytes_shown(a, upto) == bytes_shown(b, upto),
    decreases upto,
{
    if upto > 0 {
        lemma_bytes_of_same_rows(a, b, upto - 1);
    }
}


/// Whether row `r`'s entry has the extension `ext`.
pub open spec fn has_extension(model: DirectoryModel, r: int, ext: Seq<char>) -> bool {
    extension(model.entry_at(r).name@) == Some(ext)
}

/// Whether `after` differs from `before` in its selection alone.
pub open spec fn only_selection(before: FileTableDelegate, after: FileTableDelegate) -> bool {
    &&& after == (FileTableDelegate {
        model: DirectoryModel { selected: after.model.selected, ..before.model },
        ..before
    })
    &&& after.model.selected@.len() == before.model.selected@.len()
}

/// Whether the selection of the entry under the cursor was flipped.
pub open spec fn cursor_toggled(before: FileTableDelegate, after: FileTableDelegate) -> bool {
    &&& only_selection(before, after)
    &&& after.model.selected@ == (match before.cursor_row {
        Some(r) => {
            let id = before.model.order@[r as int] as int;
            before.model.selected@.update(id, !before.model.selected@[id])
        },
        None => before.model.selected@,
    })
}

/// Whether the selection of every entry that is shown was flipped, and of no
/// other.
pub open spec fn shown_inverted(before: FileTableDelegate, after: FileTableDelegate) -> bool {
    &&& only_selection(before, after)
    &&& hidden_kept(before, after)
    &&& forall|r: int|
        0 <= r < before.rows() ==> after.model.selected@[#[trigger] before.model.order@[r] as int]
            == !before.model.selected@[before.model.order@[r] as int]
}

/// Whether every entry that is shown was selected, and no other.
pub open spec fn shown_selected(before: FileTableDelegate, after: FileTableDelegate) -> bool {
    &&& only_selection(before, after)
    &&& hidden_kept(before, after)
    &&& forall|r: int|
        0 <= r < before.rows() ==> after.model.selected@[#[trigger] before.model.order@[r] as int]
}

/// Whether everything was deselected.
pub open spec fn all_deselected(before: FileTableDelegate, after: FileTableDelegate) -> bool {
    &&& only_selection(before, after)
    &&& forall|id: int|
        0 <= id < before.model.selected@.len() ==> !(#[trigger] after.model.selected@[id])
}

/// Whether the entries that are shown and have the extension of the entry
/// under the cursor were selected, and no others.
pub open spec fn kin_selected(before: FileTableDelegate, after: FileTableDelegate) -> bool {
    &&& only_selection(before, after)
    &&& hidden_kept(before, after)
    &&& forall|r: int|
        0 <= r < before.rows() ==> after.model.selected@[#[trigger] before.model.order@[r] as int]
            == (before.model.selected@[before.model.order@[r] as int] || (match before.cursor_row {
            Some(c) => extension(before.model.entry_at(c as int).name@) is Some && extension(
                before.model.entry_at(r).name@,
            ) == extension(before.model.entry_at(c as int).name@),
            None => false,
        }))
}

/// Whether entries that are not shown are selected after as before.
pub open spec fn hidden_kept(before: FileTableDelegate, after: FileTableDelegate) -> bool {
    forall|id: int|
        0 <= id < before.model.selected@.len() && !is_shown(before.model.order@, id)
            ==> #[trigger] after.model.selected@[id] == before.model.selected@[id]
}

impl FileTableDelegate {
    /// The table's width became known, or changed by a pixel or more: the
    /// columns follow. Returns whether they did.
    pub fn apply_responsive_widths(&mut self, available: u32) -> (changed: bool)
        ensures
            changed == (match old(self).last_available_width {
                Some(last) => last >= available + PIXEL || available >= last + PIXEL,
                None => true,
            }),
            !changed ==> *final(self) == *old(self),
            changed ==> final(self).widths@ == seq![
                name_share(
                    if available >= TABLE_CHROME_RESERVE {
                        (available - TABLE_CHROME_RESERVE) as u32
                    } else {
                        0
                    },
                ),
                SIZE_WIDTH,
                MODIFIED_WIDTH,
            ] && *final(self) == (FileTableDelegate {
                widths: final(self).widths,
                last_available_width: Some(available),
                ..*old(self)
            }),
            old(self).wf() ==> final(self).wf(),
    {
        if let Some(last) = self.last_available_width {
            let change: u32 = if last < available {
                available - last
            } else {
                last - available
            };
            if change < PIXEL {
                return false;
            }
        }
        self.last_available_width = Some(available);
        let usable: u32 = if available >= TABLE_CHROME_RESERVE {
            available - TABLE_CHROME_RESERVE
        } else {
            0
        };
        self.widths = column_widths(usable);
        true
    }

    /// The widths of a table that has been measured, for its sibling.
    pub fn responsive_seed(&self) -> (seed: Option<([u32; 3], u32)>)
        ensures
            seed == (match self.last_available_width {
                Some(available) => Some((self.widths, available)),
                None => None,
            }),
    {
        match self.last_available_width {
            Some(available) => Some((self.widths, available)),
            None => None,
        }
    }

    /// Takes the widths of a sibling that has been measured.
    pub fn seed_column_widths(&mut self, widths: [u32; 3], available: u32)
        ensures
            *final(self) == (FileTableDelegate {
                widths,
                last_available_width: Some(available),
                ..*old(self)
            }),
            old(self).wf() ==> final(self).wf(),
    {
        self.widths = widths;
        self.last_available_width = Some(available);
    }

    /// Selects the entries of the rows as `values` says.
    fn set_rows(&mut self, values: &Vec<bool>)
        requires
            old(self).wf(),
            values@.len() == old(self).rows(),
        ensures
            final(self).wf(),
            only_selection(*old(self), *final(self)),
            hidden_kept(*old(self), *final(self)),
            forall|r: int|
                0 <= r < old(self).rows() ==> final(self).model.selected@[#[trigger] old(self).model.order@[r] as int] == values@[r],
    {
        let ghost order = self.model.order@;
        let ghost before = self.model.selected@;
        proof {
            self.model.lemma_rows();
        }
        let mut selected = self.model.selected.clone();
        assert(selected@ =~= before);
        let mut row: usize = 0;
        while row < self.model.order.len()
            invariant
                *self == *old(self),
                order == self.model.order@,
                before == self.model.selected@,
                self.model.wf(),
                is_order(order, self.model.entries@.len()),
                row <= order.len(),
                values@.len() == order.len(),
                selected@.len() == before.len(),
                forall|r: int|
                    0 <= r < row ==> selected@[#[trigger] order[r] as int] == values@[r],
                forall|id: int|
                    0 <= id < before.len() && !is_shown(order, id) ==> #[trigger] selected@[id]
                        == before[id],
            decreases order.len() - row,
        {
            let id: usize = self.model.order[row];
            let ghost earlier = selected@;
            selected.set(id, values[row]);
            proof {
                assert forall|r: int| 0 <= r < row + 1 implies selected@[#[trigger] order[r] as int]
                    == values@[r] by {
                    if r < row {
                        assert(order[r] != order[row as int]);
                        assert(earlier[order[r] as int] == values@[r]);
                    }
                }
                assert(order[row as int] == id);
                assert(is_shown(order, id as int));
                assert forall|other: int|
                    0 <= other < before.len() && !is_shown(order, other) implies
                    #[trigger] selected@[other] == before[other] by {
                    assert(earlier[other] == before[other]);
                }
            }
            row = row + 1;
        }
        self.model.selected = selected;
        proof {
            lemma_bytes_of_same_rows(self.model, old(self).model, self.rows());
            assert(self.text_matches()) by {
                assert forall|i: int| 0 <= i < self.rows() implies row_shows(
                    #[trigger] self.row_text@[i],
                    self.model.entry_at(i),
                ) by {
                    assert(row_shows(old(self).row_text@[i], old(self).model.entry_at(i)));
                }
            }
        }
    }

    /// Extends or shrinks the range between its fixed end and model row
    /// `row`, and moves the cursor there. Without rows nothing happens.
    pub fn extend_selection_to(&mut self, row: usize)
        requires
            old(self).wf(),
        ensures
            final(self).wf(),
            old(self).rows() == 0 ==> *final(self) == *old(self),
            old(self).rows() > 0 ==> extended(*old(self), *final(self), row as int),
    {
        let rows: usize = self.model.order.len();
        if rows == 0 {
            return;
        }
        proof {
            self.lemma_cursor_row();
        }
        let target: usize = if row < rows {
            row
        } else {
            rows - 1
        };
        let from: usize = match self.cursor_row {
            Some(r) => r,
            None => target,
        };
        let anchor: usize = match self.range_anchor {
            Some(a) => a,
            None => from,
        };
        let ghost start = *self;
        let ghost order = self.model.order@;
        let mut values: Vec<bool> = Vec::new();
        let mut added: Vec<bool> = Vec::new();
        while added.len() < self.model.entries.len()
            invariant
                *self == start,
                added@.len() <= self.model.entries@.len(),
                forall|i: int| 0 <= i < added@.len() ==> !(#[trigger] added@[i]),
            decreases self.model.entries@.len() - added@.len(),
        {
            added.push(false);
        }
        let mut r: usize = 0;
        while r < rows
            invariant
                *self == start,
                start.wf(),
                order == self.model.order@,
                is_order(order, self.model.entries@.len()),
                rows == order.len(),
                r <= rows,
                added@.len() == self.model.entries@.len(),
                values@.len() == r,
                forall|j: int|
                    0 <= j < r ==> #[trigger] values@[j] == (in_span(
                        anchor as int,
                        target as int,
                        j,
                    ) || (start.model.selected@[order[j] as int] && !(in_span(
                        anchor as int,
                        from as int,
                        j,
                    ) && session_added(start, order[j] as int)))),
                forall|j: int|
                    0 <= j < r ==> added@[#[trigger] order[j] as int] == (in_span(
                        anchor as int,
                        target as int,
                        j,
                    ) && (session_added(start, order[j] as int)
                        || !start.model.selected@[order[j] as int])),
            decreases rows - r,
        {
            let id: usize = self.model.order[r];
            let was_added = match self.range_anchor {
                Some(_) => self.range_added[id],
                None => false,
            };
            let selected = self.model.selected[id];
            let reached = (anchor <= r && r <= target) || (target <= r && r <= anchor);
            let left = (anchor <= r && r <= from) || (from <= r && r <= anchor);
            let ghost earlier = added@;
            values.push(reached || (selected && !(left && was_added)));
            added.set(id, reached && (was_added || !selected));
            proof {
                assert forall|j: int| 0 <= j < r + 1 implies added@[#[trigger] order[j] as int] == (
                in_span(anchor as int, target as int, j) && (session_added(start, order[j] as int)
                    || !start.model.selected@[order[j] as int])) by {
                    if j < r {
                        assert(order[j] != order[r as int]);
                        assert(earlier[order[j] as int] == added@[order[j] as int]);
                    }
                }
            }
            r = r + 1;
        }
        self.set_rows(&values);
        let ghost marked = *self;
        self.range_anchor = Some(anchor);
        self.range_added = added;
        assert(self.rest_fits());
        self.set_cursor_row(Some(target));
        proof {
            assert forall|j: int| 0 <= j < order.len() implies self.model.selected@[
                #[trigger] order[j] as int] == (in_span(anchor as int, target as int, j) || (
            start.model.selected@[order[j] as int] && !(in_span(anchor as int, from as int, j)
                && session_added(start, order[j] as int)))) by {
                assert(marked.model.selected@[order[j] as int] == values@[j]);
            }
            assert(extended(start, *self, row as int));
        }
    }

    /// Flips the selection of the entry under the cursor.
    pub fn toggle_cursor_selection(&mut self)
        requires
            old(self).wf(),
        ensures
            final(self).wf(),
            cursor_toggled(*old(self), *final(self)),
    {
        proof {
            self.lemma_cursor_row();
        }
        if let Some(row) = self.cursor_row {
            let id: usize = self.model.order[row];
            self.model.toggle_selection(EntryId { index: id });
            proof {
                lemma_bytes_of_same_rows(self.model, old(self).model, self.rows());
                assert forall|i: int| 0 <= i < self.rows() implies row_shows(
                    #[trigger] self.row_text@[i],
                    self.model.entry_at(i),
                ) by {
                    assert(row_shows(old(self).row_text@[i], old(self).model.entry_at(i)));
                }
            }
        }
    }

    /// Flips the selection of every entry that is shown.
    pub fn invert_selection(&mut self)
        requires
            old(self).wf(),
        ensures
            final(self).wf(),
            shown_inverted(*old(self), *final(self)),
    {
        let mut values: Vec<bool> = Vec::new();
        let mut row: usize = 0;
        proof {
            self.model.lemma_rows();
        }
        while row < self.model.order.len()
            invariant
                *self == *old(self),
                self.model.wf(),
                is_order(self.model.order@, self.model.entries@.len()),
                row <= self.model.order@.len(),
                values@.len() == row,
                forall|r: int|
                    0 <= r < row ==> #[trigger] values@[r]
                        == !self.model.selected@[self.model.order@[r] as int],
            decreases self.model.order@.len() - row,
        {
            let id: usize = self.model.order[row];
            values.push(!self.model.selected[id]);
            row = row + 1;
        }
        self.set_rows(&values);
    }

    /// Selects every entry that is shown.
    pub fn select_all(&mut self)
        requires
            old(self).wf(),
        ensures
            final(self).wf(),
            shown_selected(*old(self), *final(self)),
    {
        let mut values: Vec<bool> = Vec::new();
        while values.len() < self.model.order.len()
            invariant
                *self == *old(self),
                values@.len() <= self.model.order@.len(),
                forall|r: int| 0 <= r < values@.len() ==> #[trigger] values@[r],
            decreases self.model.order@.len() - values@.len(),
        {
            values.push(true);
        }
        self.set_rows(&values);
    }

    /// Deselects everything.
    pub fn deselect_all(&mut self)
        requires
            old(self).wf(),
        ensures
            final(self).wf(),
            all_deselected(*old(self), *final(self)),
    {
        self.model.clear_selection();
        proof {
            lemma_bytes_of_same_rows(self.model, old(self).model, self.rows());
            assert forall|i: int| 0 <= i < self.rows() implies row_shows(
                #[trigger] self.row_text@[i],
                self.model.entry_at(i),
            ) by {
                assert(row_shows(old(self).row_text@[i], old(self).model.entry_at(i)));
            }
        }
    }

    /// Selects every entry that is shown and has the extension of the entry
    /// under the cursor. Without one nothing happens.
    pub fn select_same_extension(&mut self)
        requires
            old(self).wf(),
        ensures
            final(self).wf(),
            kin_selected(*old(self), *final(self)),
    {
        proof {
            self.lemma_cursor_row();
        }
        let cursor: usize = match self.cursor_row {
            Some(row) => row,
            None => {
                return;
            },
        };
        let id: usize = self.model.order[cursor];
        let ext = match extension_of(self.model.entries[id].name.as_str()) {
            Some(ext) => ext,
            None => {
                return;
            },
        };
        let mut values: Vec<bool> = Vec::new();
        let mut row: usize = 0;
        while row < self.model.order.len()
            invariant
                *self == *old(self),
                self.model.wf(),
                is_order(self.model.order@, self.model.entries@.len()),
                row <= self.model.order@.len(),
                values@.len() == row,
                forall|r: int|
                    0 <= r < row ==> #[trigger] values@[r]
                        == (self.model.selected@[self.model.order@[r] as int] || has_extension(
                        self.model,
                        r,
                        ext@,
                    )),
            decreases self.model.order@.len() - row,
        {
            let id: usize = self.model.order[row];
            let same = match extension_of(self.model.entries[id].name.as_str()) {
                Some(e) => same_text(e.as_str(), ext.as_str()),
                None => false,
            };
            values.push(self.model.selected[id] || same);
            row = row + 1;
        }
        self.set_rows(&values);
    }

    /// Sorts by the column at `col_ix`, taking the order that the index made.
    /// The cursor stays on its entry.
    pub fn perform_sort(&mut self, col_ix: usize, descending: bool, full_order: Vec<usize>)
        requires
            old(self).wf(),
            is_order(full_order@, old(self).model.entries@.len()),
        ensures
            final(self).wf(),
            final(self).model.order@ == visible(full_order@, old(self).model.passes),
            *final(self) == (FileTableDelegate {
                model: DirectoryModel {
                    full_order,
                    order: final(self).model.order,
                    sort: SortOptions {
                        column: if col_ix == COL_SIZE {
                            SortColumn::Size
                        } else if col_ix == COL_MODIFIED {
                            SortColumn::Modified
                        } else {
                            SortColumn::Name
                        },
                        ascending: !descending,
                    },
                    generation: next_generation(old(self).model.generation),
                    ..old(self).model
                },
                row_text: final(self).row_text,
                cached_generation: next_generation(old(self).model.generation),
                total_bytes_in_view: final(self).total_bytes_in_view,
                cursor_row: final(self).cursor_row,
                range_anchor: None,
                ..*old(self)
            }),
    {
        let column = if col_ix == COL_SIZE {
            SortColumn::Size
        } else if col_ix == COL_MODIFIED {
            SortColumn::Modified
        } else {
            SortColumn::Name
        };
        self.model.sort_by(column, !descending, full_order);
        self.rebuild_row_text();
        self.sync_cursor_row_from_model();
    }

    /// How a row is drawn: the cursor goes before the selection, and a row
    /// behind the last one is plain.
    pub fn row_style(&self, row_ix: usize) -> (style: RowStyle)
        requires
            self.wf(),
        ensures
            style == (if self.shown_row() == Some(row_ix as int) {
                RowStyle::Cursor
            } else if (self.has_parent_row && row_ix == 0) || row_ix >= self.display_rows() {
                RowStyle::Plain
            } else if self.model.selected@[self.model.order@[row_ix - self.row_offset()] as int] {
                RowStyle::Selected
            } else {
                RowStyle::Plain
            }),
    {
        proof {
            self.lemma_cursor_row();
        }
        let model_row: usize = match self.model_row(row_ix) {
            None => {
                return if self.cursor_on_parent {
                    RowStyle::Cursor
                } else {
                    RowStyle::Plain
                };
            },
            Some(row) => row,
        };
        let is_cursor = !self.cursor_on_parent && match self.cursor_row {
            Some(r) => r == model_row,
            None => false,
        };
        if is_cursor {
            RowStyle::Cursor
        } else if model_row < self.model.order.len()
            && self.model.selected[self.model.order[model_row]] {
            RowStyle::Selected
        } else {
            RowStyle::Plain
        }
    }

    /// The directory that a middle click on a model row opens in a new tab.
    pub fn middle_click_target(&self, model_row: usize) -> (name: Option<String>)
        requires
            self.wf(),
        ensures
            match name {
                Some(n) => model_row < self.rows() && self.model.entry_at(model_row as int).kind
                    == EntryKind::Directory && n@ == self.model.entry_at(model_row as int).name@,
                None => model_row >= self.rows() || self.model.entry_at(model_row as int).kind
                    != EntryKind::Directory,
            },
    {
        proof {
            self.model.lemma_rows();
        }
        if model_row >= self.model.order.len() {
            return None;
        }
        let id: usize = self.model.order[model_row];
        if self.model.entries[id].kind == EntryKind::Directory {
            Some(self.model.entries[id].name.clone())
        } else {
            None
        }
    }

    /// The text of a cell; empty for a row or a column that is not there.
    pub fn cell_text(&self, row_ix: usize, col_ix: usize) -> (text: String)
        requires
            self.wf(),
        ensures
            text@ == (if self.has_parent_row && row_ix == 0 {
                if col_ix == COL_NAME {
                    ".."@
                } else {
                    Seq::empty()
                }
            } else if row_ix >= self.display_rows() {
                Seq::empty()
            } else {
                let entry = self.model.entry_at(row_ix - self.row_offset());
                if col_ix == COL_NAME {
                    entry.name@
                } else if col_ix == COL_SIZE {
                    size_text(entry.kind, entry.size as nat)
                } else if col_ix == COL_MODIFIED {
                    date_text(entry.mtime_secs as int)
                } else {
                    Seq::empty()
                }
            }),
    {
        match self.model_row(row_ix) {
            None => if col_ix == COL_NAME {
                "..".to_owned()
            } else {
                String::new()
            },
            Some(row) => {
                if row >= self.row_text.len() {
                    return String::new();
                }
                assert(row_shows(self.row_text@[row as int], self.model.entry_at(row as int)));
                if col_ix == COL_NAME {
                    self.row_text[row].name.clone()
                } else if col_ix == COL_SIZE {
                    self.row_text[row].size.clone()
                } else if col_ix == COL_MODIFIED {
                    self.row_text[row].modified.clone()
                } else {
                    String::new()
                }
            },
        }
    }

    /// Whether a column's texts stand at the right.
    pub fn cell_right_aligned(col_ix: usize) -> (right: bool)
        ensures
            right == (col_ix == COL_SIZE || col_ix == COL_MODIFIED),
    {
        col_ix == COL_SIZE || col_ix == COL_MODIFIED
    }

    /// The places that are set off in the name of a row: those that matched,
    /// on the row that the cursor jumped to.
    pub fn cell_highlights(&self, row_ix: usize, col_ix: usize) -> (indices: Option<Vec<u32>>)
        ensures
            match indices {
                Some(v) => col_ix == COL_NAME && !(self.has_parent_row && row_ix == 0)
                    && self.quick_search is Some && self.quick_search->0.jump_match is Some
                    && self.quick_search->0.jump_match->0.model_row == row_ix - self.row_offset()
                    && v@ == self.quick_search->0.jump_match->0.indices@,
                None => col_ix != COL_NAME || (self.has_parent_row && row_ix == 0)
                    || self.quick_search is None || self.quick_search->0.jump_match is None
                    || self.quick_search->0.jump_match->0.model_row != row_ix - self.row_offset(),
            },
    {
        if col_ix != COL_NAME {
            return None;
        }
        let row: usize = match self.model_row(row_ix) {
            Some(row) => row,
            None => {
                return None;
            },
        };
        match &self.quick_search {
            Some(session) => match &session.jump_match {
                Some(m) => if m.model_row == row {
                    let indices = m.indices.clone();
                    assert(indices@ =~= m.indices@);
                    Some(indices)
                } else {
                    None
                },
                None => None,
            },
            None => None,
        }
    }
}

/// Inverting the selection twice gives it back.
pub proof fn lemma_invert_twice(
    first: FileTableDelegate,
    second: FileTableDelegate,
    third: FileTableDelegate,
)
    requires
        first.model.wf(),
        shown_inverted(first, second),
        shown_inverted(second, third),
    ensures
        third.model.selected@ == first.model.selected@,
{
    let order = first.model.order@;
    assert forall|id: int| 0 <= id < first.model.selected@.len() implies
        #[trigger] third.model.selected@[id] == first.model.selected@[id] by {
        if is_shown(order, id) {
            let r = choose|r: int| 0 <= r < order.len() && #[trigger] order[r] == id;
            assert(second.model.selected@[order[r] as int] == !first.model.selected@[
                order[r] as int]);
            assert(third.model.selected@[second.model.order@[r] as int]
                == !second.model.selected@[second.model.order@[r] as int]);
        } else {
            assert(second.model.selected@[id] == first.model.selected@[id]);
        }
    }
    assert(third.model.selected@ =~= first.model.selected@);
}

/// Whether a range being extended has left the selection as `base` was, plus
/// the range: what it reaches is selected, and what it added is what it
/// reaches and `base` did not select.
pub open spec fn range_over(base: Seq<bool>, delegate: FileTableDelegate) -> bool {
    let order = delegate.model.order@;
    &&& delegate.range_anchor is Some
    &&& delegate.cursor_row is Some
    &&& base.len() == delegate.model.selected@.len()
    &&& forall|r: int|
        0 <= r < order.len() ==> delegate.model.selected@[#[trigger] order[r] as int] == (
        base[order[r] as int] || in_span(
            delegate.range_anchor->0 as int,
            delegate.cursor_row->0 as int,
            r,
        ))
    &&& forall|r: int|
        0 <= r < order.len() ==> delegate.range_added@[#[trigger] order[r] as int] == (in_span(
            delegate.range_anchor->0 as int,
            delegate.cursor_row->0 as int,
            r,
        ) && !base[order[r] as int])
    &&& forall|id: int|
        0 <= id < base.len() && !is_shown(order, id) ==> #[trigger] delegate.model.selected@[id]
            == base[id]
}

/// The first extension of a range selects the range on top of what was
/// selected before.
pub proof fn lemma_range_starts(before: FileTableDelegate, after: FileTableDelegate, row: int)
    requires
        before.wf(),
        before.rows() > 0,
        0 <= row,
        before.range_anchor is None,
        extended(before, after, row),
    ensures
        range_over(before.model.selected@, after),
{
    before.lemma_cursor_row();
    let target = if row < before.rows() {
        row
    } else {
        before.rows() - 1
    };
    assert(after.cursor_row == Some(target as usize));
}

/// Every further extension moves the end of the range and leaves the rest as
/// it was before the range was begun: shrinking takes away exactly what the
/// range had added.
pub proof fn lemma_range_moves(
    base: Seq<bool>,
    before: FileTableDelegate,
    after: FileTableDelegate,
    row: int,
)
    requires
        before.wf(),
        before.rows() > 0,
        0 <= row,
        range_over(base, before),
        extended(before, after, row),
    ensures
        range_over(base, after),
        after.range_anchor == before.range_anchor,
{
    before.lemma_cursor_row();
    let order = before.model.order@;
    let anchor = before.range_anchor->0 as int;
    let from = before.cursor_row->0 as int;
    let target = if row < before.rows() {
        row
    } else {
        before.rows() - 1
    };
    assert(after.cursor_row == Some(target as usize));
    assert forall|r: int| 0 <= r < order.len() implies after.model.selected@[
        #[trigger] order[r] as int] == (base[order[r] as int] || in_span(anchor, target, r)) by {
        assert(before.range_added@[order[r] as int] == (in_span(anchor, from, r)
            && !base[order[r] as int]));
    }
    assert forall|r: int| 0 <= r < order.len() implies after.range_added@[#[trigger] order[r] as int]
        == (in_span(anchor, target, r) && !base[order[r] as int]) by {
        assert(before.model.selected@[order[r] as int] == (base[order[r] as int] || in_span(
            anchor,
            from,
            r,
        )));
        assert(before.range_added@[order[r] as int] == (in_span(anchor, from, r)
            && !base[order[r] as int]));
    }
}

/// The columns fill the width that there is for them, unless that would leave
/// Name less than its floor; no more is taken from it than to that floor.
pub proof fn lemma_name_takes_the_rest(available: u32)
    ensures
        name_share(available) >= NAME_MIN,
        name_share(available) > NAME_MIN ==> name_share(available) + SIZE_WIDTH + MODIFIED_WIDTH
            == available,
        available >= NAME_MIN + SIZE_WIDTH + MODIFIED_WIDTH ==> name_share(available) + SIZE_WIDTH
            + MODIFIED_WIDTH == available,
        available < NAME_MIN + SIZE_WIDTH + MODIFIED_WIDTH ==> name_share(available) == NAME_MIN,
{
}

proof fn lemma_bytes_are_summed(model: DirectoryModel, upto: int)
    requires
        0 <= upto <= model.order@.len(),
    ensures
        bytes_shown(model, upto) == model.order@.take(upto).fold_left(
            0int,
            |sum: int, id: usize|
                if model.entries@[id as int].kind == EntryKind::Directory {
                    sum
                } else {
                    sum + model.entries@[id as int].size
                },
        ),
    decreases upto,
{
    reveal(Seq::fold_left);
    if upto > 0 {
        lemma_bytes_are_summed(model, upto - 1);
        assert(model.order@.take(upto).drop_last() =~= model.order@.take(upto - 1));
    }
}

/// The footer's total is the sum of the sizes of everything that is shown but
/// directories, held at what fits.
pub proof fn lemma_total_is_the_sum(delegate: FileTableDelegate)
    requires
        delegate.wf(),
    ensures
        ({
            let sum = delegate.model.order@.fold_left(
                0int,
                |sum: int, id: usize|
                    if delegate.model.entries@[id as int].kind == EntryKind::Directory {
                        sum
                    } else {
                        sum + delegate.model.entries@[id as int].size
                    },
            );
            delegate.total_bytes_in_view == (if sum <= u64::MAX {
                sum
            } else {
                u64::MAX as int
            })
        }),
{
    lemma_bytes_are_summed(delegate.model, delegate.rows());
    assert(delegate.model.order@.take(delegate.rows()) =~= delegate.model.order@);
}

/// Each row shows its own entry: its name, its size, its time.
pub proof fn lemma_row_shows_its_own_entry(delegate: FileTableDelegate, r: int)
    requires
        delegate.wf(),
        0 <= r < delegate.model.order@.len(),
    ensures
        ({
            let entry = delegate.model.entries@[delegate.model.order@[r] as int];
            &&& delegate.row_text@.len() == delegate.model.order@.len()
            &&& delegate.row_text@[r].name@ == entry.name@
            &&& delegate.row_text@[r].size@ == size_text(entry.kind, entry.size as nat)
            &&& delegate.row_text@[r].modified@ == date_text(entry.mtime_secs as int)
        }),
{
    assert(row_shows(delegate.row_text@[r], delegate.model.entry_at(r)));
}

/// An entry is found by its name on the first row that shows one of that name,
/// wherever a row does.
pub proof fn lemma_first_row_of_a_name(model: DirectoryModel, name: Seq<char>, from: int)
    requires
        0 <= from,
    ensures
        match row_named(model, name, from) {
            Some(row) => {
                &&& from <= row < model.order@.len()
                &&& model.entries@[model.order@[row] as int].name@ == name
                &&& forall|r: int|
                    from <= r < row ==> model.entries@[#[trigger] model.order@[r] as int].name@
                        != name
            },
            None => forall|r: int|
                from <= r < model.order@.len()
                    ==> model.entries@[#[trigger] model.order@[r] as int].name@ != name,
        },
    decreases model.order@.len() - from,
{
    if from < model.order@.len() && model.entry_at(from).name@ != name {
        lemma_first_row_of_a_name(model, name, from + 1);
    }
}

/// The display row of the cursor is nought on the `..` row; else its model row,
/// behind the `..` row where there is one. It is a row that is drawn.
pub proof fn lemma_shown_row(delegate: FileTableDelegate)
    requires
        delegate.wf(),
    ensures
        delegate.display_rows() == delegate.model.order@.len() + (if delegate.has_parent_row {
            1int
        } else {
            0
        }),
        delegate.cursor_on_parent ==> delegate.shown_row() == Some(0int),
        !delegate.cursor_on_parent ==> match delegate.cursor_row {
            Some(r) => delegate.shown_row() == Some(
                if delegate.has_parent_row {
                    r + 1
                } else {
                    r as int
                },
            ),
            None => delegate.shown_row() is None,
        },
        delegate.shown_row() is Some ==> 0 <= delegate.shown_row()->0 < delegate.display_rows(),
{
    delegate.lemma_cursor_row();
}

/// The cursor moves to the display row that is asked for, or to the nearest that
/// there is. On an entry's row it is on that entry; on the `..` row it keeps the
/// entry that it had. Nothing is selected or deselected, and a range ends.
pub proof fn lemma_cursor_goes_where_it_is_asked(delegate: FileTableDelegate, row: int)
    requires
        delegate.wf(),
        delegate.model.order@.len() > 0 || delegate.has_parent_row,
    ensures
        ({
            let after = delegate.moved_to(row);
            let n = delegate.model.order@.len() as int;
            let top = if delegate.has_parent_row {
                1int
            } else {
                0
            };
            let at = if row < 0 {
                0
            } else if row < n + top {
                row
            } else {
                n + top - 1
            };
            &&& after.cursor_on_parent == (delegate.has_parent_row && at == 0)
            &&& after.cursor_on_parent ==> after.model.cursor == delegate.model.cursor
                && after.cursor_row == delegate.cursor_row
            &&& !after.cursor_on_parent ==> after.cursor_row == Some((at - top) as usize)
                && after.model.cursor == Some(EntryId { index: delegate.model.order@[at - top] })
            &&& after.model.selected == delegate.model.selected
            &&& after.model.order == delegate.model.order
            &&& after.model.entries == delegate.model.entries
            &&& after.quick_search == delegate.quick_search
            &&& after.range_anchor is None
        }),
{
    delegate.lemma_cursor_row();
}

/// Flipping the entry under the cursor flips that entry and no other, and moves
/// nothing.
pub proof fn lemma_toggle_flips_one(before: FileTableDelegate, after: FileTableDelegate, id: usize)
    requires
        before.wf(),
        cursor_toggled(before, after),
        id < before.model.selected@.len(),
    ensures
        after.model.selected@[id as int] == (if before.cursor_row is Some && before.model.cursor == Some(
            EntryId { index: id },
        ) {
            !before.model.selected@[id as int]
        } else {
            before.model.selected@[id as int]
        }),
        after.cursor_row == before.cursor_row,
        after.model.cursor == before.model.cursor,
        after.model.order == before.model.order,
        after.cursor_on_parent == before.cursor_on_parent,
        after.range_anchor == before.range_anchor,
{
    before.lemma_cursor_row();
}

/// What works on everything works on what is shown: inverting flips each of
/// these, selecting all selects them, and neither touches what a filter hides.
/// Deselecting leaves nothing selected, hidden entries included.
pub proof fn lemma_what_is_shown_is_selected(
    before: FileTableDelegate,
    inverted: FileTableDelegate,
    selected: FileTableDelegate,
    deselected: FileTableDelegate,
    id: usize,
)
    requires
        before.wf(),
        shown_inverted(before, inverted),
        shown_selected(before, selected),
        all_deselected(before, deselected),
        id < before.model.entries@.len(),
    ensures
        ({
            let shown = before.model.order@.contains(id);
            let was = before.model.selected@[id as int];
            &&& inverted.model.selected@[id as int] == (if shown {
                !was
            } else {
                was
            })
            &&& selected.model.selected@[id as int] == (shown || was)
            &&& !deselected.model.selected@[id as int]
            &&& inverted.cursor_row == before.cursor_row && selected.cursor_row == before.cursor_row
                && deselected.cursor_row == before.cursor_row
            &&& inverted.model.order == before.model.order && selected.model.order
                == before.model.order && deselected.model.order == before.model.order
        }),
{
    let order = before.model.order@;
    if order.contains(id) {
        let r = choose|r: int| 0 <= r < order.len() && order[r] == id;
        assert(order[r] == id);
    } else {
        assert(!is_shown(order, id as int)) by {
            if is_shown(order, id as int) {
                let r = choose|r: int| 0 <= r < order.len() && #[trigger] order[r] == id;
                assert(order[r] == id);
            }
        }
    }
}

/// The entries that are shown and have the extension of the entry under the
/// cursor become selected, that entry among them; every other keeps what it had.
/// An entry without an extension has no kin.
pub proof fn lemma_kin_share_the_extension(
    before: FileTableDelegate,
    after: FileTableDelegate,
    id: usize,
)
    requires
        before.wf(),
        kin_selected(before, after),
        id < before.model.entries@.len(),
    ensures
        ({
            let shown = before.model.order@.contains(id);
            let kin = before.cursor_row is Some && extension(
                before.model.entries@[before.model.cursor->0.index as int].name@,
            ) is Some && extension(before.model.entries@[id as int].name@) == extension(
                before.model.entries@[before.model.cursor->0.index as int].name@,
            );
            after.model.selected@[id as int] == (before.model.selected@[id as int] || (shown && kin))
        }),
        after.cursor_row == before.cursor_row,
        after.model.order == before.model.order,
{
    before.lemma_cursor_row();
    let order = before.model.order@;
    if order.contains(id) {
        let r = choose|r: int| 0 <= r < order.len() && order[r] == id;
        assert(order[r] == id);
        assert(before.model.entry_at(r) == before.model.entries@[id as int]);
    } else {
        assert(!is_shown(order, id as int)) by {
            if is_shown(order, id as int) {
                let r = choose|r: int| 0 <= r < order.len() && #[trigger] order[r] == id;
                assert(order[r] == id);
            }
        }
    }
}

/// A range that is begun at the cursor selects the rows from there to the one
/// that is asked for, both included, and keeps every other row as it was; without
/// a cursor it begins at the row that is asked for. The cursor goes there, or to
/// the last row.
pub proof fn lemma_range_is_selected(
    before: FileTableDelegate,
    after: FileTableDelegate,
    row: int,
    r: int,
)
    requires
        before.wf(),
        before.range_anchor is None,
        0 <= row,
        0 <= r < before.model.order@.len(),
        extended(before, after, row),
    ensures
        ({
            let n = before.model.order@.len();
            let to = if row < n {
                row
            } else {
                n - 1
            };
            let from = match before.cursor_row {
                Some(c) => c as int,
                None => to,
            };
            let id = before.model.order@[r] as int;
            &&& after.cursor_row == Some(to as usize)
            &&& after.model.cursor == Some(EntryId { index: before.model.order@[to] })
            &&& after.range_anchor == Some(from as usize)
            &&& after.model.order == before.model.order
            &&& after.model.selected@[id] == (before.model.selected@[id] || (from <= r && r <= to) || (
            to <= r && r <= from))
        }),
{
    before.lemma_cursor_row();
}

/// A range that goes on keeps its fixed end. What lies between that and the row
/// that is asked for is selected. A row that the range has left keeps its mark
/// unless the range had set it; a row that it never reached keeps what it had.
pub proof fn lemma_range_goes_on(
    before: FileTableDelegate,
    after: FileTableDelegate,
    row: int,
    r: int,
)
    requires
        before.wf(),
        before.range_anchor is Some,
        before.cursor_row is Some,
        0 <= row,
        0 <= r < before.model.order@.len(),
        extended(before, after, row),
    ensures
        ({
            let n = before.model.order@.len();
            let anchor = before.range_anchor->0 as int;
            let from = before.cursor_row->0 as int;
            let to = if row < n {
                row
            } else {
                n - 1
            };
            let id = before.model.order@[r] as int;
            let reached = (anchor <= r && r <= to) || (to <= r && r <= anchor);
            let left = (anchor <= r && r <= from) || (from <= r && r <= anchor);
            &&& after.range_anchor == before.range_anchor
            &&& after.cursor_row == Some(to as usize)
            &&& reached ==> after.model.selected@[id]
            &&& !reached && !left ==> after.model.selected@[id] == before.model.selected@[id]
            &&& !reached && left ==> after.model.selected@[id] == (before.model.selected@[id]
                && !before.range_added@[id])
            &&& after.range_added@[id] == (reached && (before.range_added@[id]
                || !before.model.selected@[id]))
        }),
{
    before.lemma_cursor_row();
}

/// A range that is extended again reaches from where it was begun to the row
/// that is asked for now: rows that it has left are as they were before it was
/// begun.
pub proof fn lemma_range_is_moved(
    before: FileTableDelegate,
    between: FileTableDelegate,
    after: FileTableDelegate,
    first: int,
    second: int,
    r: int,
)
    requires
        before.wf(),
        between.wf(),
        before.range_anchor is None,
        before.cursor_row is Some,
        0 <= first,
        0 <= second,
        0 <= r < before.model.order@.len(),
        extended(before, between, first),
        extended(between, after, second),
    ensures
        ({
            let n = before.model.order@.len();
            let from = before.cursor_row->0 as int;
            let to = if second < n {
                second
            } else {
                n - 1
            };
            let id = before.model.order@[r] as int;
            &&& after.cursor_row == Some(to as usize)
            &&& after.model.selected@[id] == (before.model.selected@[id] || (from <= r && r <= to) || (
            to <= r && r <= from))
        }),
{
    lemma_range_starts(before, between, first);
    lemma_range_moves(before.model.selected@, between, after, second);
    before.lemma_cursor_row();
}

} // verus!
