//! A directory listing: its entries, the order and the part of them that is
//! shown, the entry under the cursor and the selection.
//!
//! The order and the filter's verdicts come from the index: a listing takes
//! them as they are handed in.

use crate::columns::{EntryKind, SortColumn};
use vstd::prelude::*;

verus! {

/// One entry of a directory.
#[derive(Debug, PartialEq, Eq)]
pub struct Entry {
    pub name: String,
    pub kind: EntryKind,
    pub size: u64,
    /// Modification time; 0 where there is none.
    pub mtime_secs: i64,
}

/// An entry's place in the listing as it was read, which sorting and
/// filtering leave alone.
#[derive(Clone, Copy, Debug, PartialEq, Eq, Structural)]
pub struct EntryId {
    pub index: usize,
}

impl EntryId {
    pub fn new(index: usize) -> (id: EntryId)
        ensures
            id.index == index,
    {
        EntryId { index }
    }
}

/// What a listing is sorted by.
#[derive(Clone, Copy, Debug, PartialEq, Eq, Structural)]
pub struct SortOptions {
    pub column: SortColumn,
    pub ascending: bool,
}

#[derive(Debug, PartialEq, Eq)]
pub struct DirectoryModel {
    pub entries: Vec<Entry>,
    /// Every entry, in sorted order.
    pub full_order: Vec<usize>,
    /// Which entries pass the filter; `None` without a filter.
    pub passes: Option<Vec<bool>>,
    /// The entries that are shown, in sorted order.
    pub order: Vec<usize>,
    /// The entry under the cursor, shown or not.
    pub cursor: Option<EntryId>,
    /// Which entries are selected.
    pub selected: Vec<bool>,
    pub sort: SortOptions,
    /// Changes whenever the rows do.
    pub generation: u64,
}

/// The number that follows a generation.
pub open spec fn next_generation(generation: u64) -> u64 {
    if generation < u64::MAX - 1 {
        (generation + 1) as u64
    } else {
        0
    }
}

/// Whether `order` lists entries of a listing of `n`, none of them twice.
pub open spec fn is_order(order: Seq<usize>, n: nat) -> bool {
    &&& order.len() < usize::MAX
    &&& forall|i: int| 0 <= i < order.len() ==> (#[trigger] order[i]) < n
    &&& forall|i: int, j: int|
        0 <= i < j < order.len() ==> #[trigger] order[i] != #[trigger] order[j]
}

/// Whether the filter lets an entry through.
pub open spec fn passes_filter(passes: Option<Vec<bool>>, id: usize) -> bool {
    match passes {
        None => true,
        Some(p) => p@[id as int],
    }
}

/// The entries of `full` that the filter lets through.
pub open spec fn visible(full: Seq<usize>, passes: Option<Vec<bool>>) -> Seq<usize>
    decreases full.len(),
{
    if full.len() == 0 {
        Seq::empty()
    } else {
        let before = visible(full.drop_last(), passes);
        if passes_filter(passes, full.last()) {
            before.push(full.last())
        } else {
            before
        }
    }
}

/// The first row at or behind `from` that shows the entry `id`.
pub open spec fn row_of(order: Seq<usize>, id: usize, from: int) -> Option<int>
    decreases order.len() - from,
{
    if from < 0 || from >= order.len() {
        None
    } else if order[from] == id {
        Some(from)
    } else {
        row_of(order, id, from + 1)
    }
}

/// What is shown is part of the whole, and shows nothing twice.
pub proof fn lemma_visible(full: Seq<usize>, passes: Option<Vec<bool>>, n: nat)
    requires
        is_order(full, n),
    ensures
        is_order(visible(full, passes), n),
        visible(full, passes).len() <= full.len(),
        forall|i: int|
            0 <= i < visible(full, passes).len() ==> full.contains(
                #[trigger] visible(full, passes)[i],
            ) && passes_filter(passes, visible(full, passes)[i]),
        forall|id: usize|
            full.contains(id) && passes_filter(passes, id) ==> #[trigger] visible(
                full,
                passes,
            ).contains(id),
    decreases full.len(),
{
    if full.len() > 0 {
        let rest = full.drop_last();
        let last = full.last();
        let before = visible(rest, passes);
        let shown = visible(full, passes);
        assert(is_order(rest, n));
        lemma_visible(rest, passes, n);
        assert forall|i: int| 0 <= i < shown.len() implies full.contains(#[trigger] shown[i])
            && passes_filter(passes, shown[i]) by {
            if i < before.len() {
                assert(shown[i] == before[i]);
                let k = choose|k: int| 0 <= k < rest.len() && rest[k] == before[i];
                assert(full[k] == shown[i]);
            } else {
                assert(full[full.len() - 1] == shown[i]);
            }
        }
        assert forall|i: int, j: int| 0 <= i < j < shown.len() implies #[trigger] shown[i]
            != #[trigger] shown[j] by {
            if j < before.len() {
                assert(before[i] != before[j]);
            } else {
                let k = choose|k: int| 0 <= k < rest.len() && rest[k] == before[i];
                assert(full[k] != full[full.len() - 1]);
            }
        }
        assert forall|i: int| 0 <= i < shown.len() implies (#[trigger] shown[i]) < n by {
            let k = choose|k: int| 0 <= k < full.len() && full[k] == shown[i];
            assert(full[k] < n);
        }
        assert forall|id: usize| full.contains(id) && passes_filter(passes, id) implies
            #[trigger] shown.contains(id) by {
            let k = choose|k: int| 0 <= k < full.len() && full[k] == id;
            if k < rest.len() {
                assert(rest[k] == id);
                assert(before.contains(id));
                let i = choose|i: int| 0 <= i < before.len() && before[i] == id;
                assert(shown[i] == id);
            } else {
                assert(shown[shown.len() - 1] == id);
            }
        }
    }
}

/// Without a filter everything is shown.
pub proof fn lemma_all_visible(full: Seq<usize>)
    ensures
        visible(full, None) == full,
    decreases full.len(),
{
    if full.len() > 0 {
        lemma_all_visible(full.drop_last());
        assert(visible(full, None) =~= full);
    } else {
        assert(visible(full, None) =~= full);
    }
}

/// The row of an entry that row `i` shows is `i`.
pub proof fn lemma_row_of_shown(order: Seq<usize>, n: nat, i: int, from: int)
    requires
        is_order(order, n),
        0 <= from <= i < order.len(),
    ensures
        row_of(order, order[i], from) == Some(i),
    decreases i - from,
{
    if from < i {
        assert(order[from] != order[i]);
        lemma_row_of_shown(order, n, i, from + 1);
    }
}

pub proof fn lemma_row_of(order: Seq<usize>, id: usize, from: int)
    requires
        0 <= from <= order.len(),
    ensures
        match row_of(order, id, from) {
            Some(i) => from <= i < order.len() && order[i] == id,
            None => forall|i: int| from <= i < order.len() ==> order[i] != id,
        },
    decreases order.len() - from,
{
    if from < order.len() && order[from] != id {
        lemma_row_of(order, id, from + 1);
    }
}

impl DirectoryModel {
    /// The orders list entries that are there, none twice; what is shown is
    /// what the filter lets through; the cursor is on an entry that is there.
    pub open spec fn wf(self) -> bool {
        &&& is_order(self.full_order@, self.entries@.len())
        &&& self.order@ == visible(self.full_order@, self.passes)
        &&& self.selected@.len() == self.entries@.len()
        &&& self.generation < u64::MAX
        &&& match self.passes {
            Some(p) => p@.len() == self.entries@.len(),
            None => true,
        }
        &&& match self.cursor {
            Some(id) => id.index < self.entries@.len(),
            None => true,
        }
    }

    pub open spec fn is_id(self, id: EntryId) -> bool {
        id.index < self.entries@.len()
    }

    /// The entry that row `row` shows.
    pub open spec fn entry_at(self, row: int) -> Entry {
        self.entries@[self.order@[row] as int]
    }

    /// The row that shows the entry under the cursor.
    pub open spec fn cursor_place(self) -> Option<int> {
        match self.cursor {
            Some(id) => row_of(self.order@, id.index, 0),
            None => None,
        }
    }

    pub proof fn lemma_rows(self)
        requires
            self.wf(),
        ensures
            is_order(self.order@, self.entries@.len()),
    {
        lemma_visible(self.full_order@, self.passes, self.entries@.len());
    }

    /// An empty listing, to be sorted by name.
    pub fn new() -> (model: Self)
        ensures
            model.wf(),
            model.entries@.len() == 0,
            model.order@.len() == 0,
            model.full_order@.len() == 0,
            model.passes is None,
            model.cursor is None,
            model.sort == (SortOptions { column: SortColumn::Name, ascending: true }),
    {
        let model = DirectoryModel {
            entries: Vec::new(),
            full_order: Vec::new(),
            passes: None,
            order: Vec::new(),
            cursor: None,
            selected: Vec::new(),
            sort: SortOptions { column: SortColumn::Name, ascending: true },
            generation: 0,
        };
        assert(model.order@ =~= visible(model.full_order@, model.passes));
        model
    }

    /// Adds an entry. It is shown once the listing has been sorted.
    pub fn push(&mut self, entry: Entry)
        requires
            old(self).wf(),
            old(self).passes is None,
        ensures
            final(self).wf(),
            final(self).entries@ == old(self).entries@.push(entry),
            final(self).selected@ == old(self).selected@.push(false),
            final(self).full_order == old(self).full_order,
            final(self).order == old(self).order,
            final(self).cursor == old(self).cursor,
            final(self).sort == old(self).sort,
            final(self).generation == old(self).generation,
            final(self).passes is None,
    {
        self.entries.push(entry);
        self.selected.push(false);
        assert(is_order(self.full_order@, self.entries@.len())) by {
            assert forall|i: int| 0 <= i < self.full_order@.len() implies (
            #[trigger] self.full_order@[i]) < self.entries@.len() by {
                assert(old(self).full_order@[i] < old(self).entries@.len());
            }
        }
    }

    fn recompute_order(&mut self)
        requires
            is_order(old(self).full_order@, old(self).entries@.len()),
            match old(self).passes {
                Some(p) => p@.len() == old(self).entries@.len(),
                None => true,
            },
        ensures
            final(self).order@ == visible(old(self).full_order@, old(self).passes),
            *final(self) == (DirectoryModel {
                order: final(self).order,
                generation: next_generation(old(self).generation),
                ..*old(self)
            }),
    {
        let mut order: Vec<usize> = Vec::new();
        let mut i: usize = 0;
        assert(self.full_order@.take(0).len() == 0);
        while i < self.full_order.len()
            invariant
                *self == *old(self),
                i <= self.full_order@.len(),
                order@ == visible(self.full_order@.take(i as int), self.passes),
                is_order(self.full_order@, self.entries@.len()),
                match self.passes {
                    Some(p) => p@.len() == self.entries@.len(),
                    None => true,
                },
            decreases self.full_order@.len() - i,
        {
            let id: usize = self.full_order[i];
            assert(self.full_order@.take(i + 1).drop_last() =~= self.full_order@.take(i as int));
            assert(self.full_order@.take(i + 1).last() == id);
            let pass = match &self.passes {
                Some(p) => p[id],
                None => true,
            };
            if pass {
                order.push(id);
            }
            i = i + 1;
        }
        assert(self.full_order@.take(i as int) =~= self.full_order@);
        self.order = order;
        self.generation = if self.generation < u64::MAX - 1 {
            self.generation + 1
        } else {
            0
        };
    }

    /// Takes the order that sorting by `column` gives.
    pub fn sort_by(&mut self, column: SortColumn, ascending: bool, full_order: Vec<usize>)
        requires
            old(self).wf(),
            is_order(full_order@, old(self).entries@.len()),
        ensures
            final(self).wf(),
            final(self).full_order == full_order,
            final(self).order@ == visible(full_order@, old(self).passes),
            *final(self) == (DirectoryModel {
                full_order,
                order: final(self).order,
                sort: SortOptions { column, ascending },
                generation: next_generation(old(self).generation),
                ..*old(self)
            }),
    {
        self.full_order = full_order;
        self.sort = SortOptions { column, ascending };
        self.recompute_order();
    }

    /// Takes the verdicts of a filter, or shows everything again.
    pub fn set_filter(&mut self, passes: Option<Vec<bool>>)
        requires
            old(self).wf(),
            match passes {
                Some(p) => p@.len() == old(self).entries@.len(),
                None => true,
            },
        ensures
            final(self).wf(),
            final(self).order@ == visible(old(self).full_order@, passes),
            *final(self) == (DirectoryModel {
                passes,
                order: final(self).order,
                generation: next_generation(old(self).generation),
                ..*old(self)
            }),
    {
        self.passes = passes;
        self.recompute_order();
    }

    pub fn order(&self) -> (order: &Vec<usize>)
        ensures
            *order == self.order,
    {
        &self.order
    }

    pub fn name(&self, id: EntryId) -> (name: &str)
        requires
            self.is_id(id),
        ensures
            name@ == self.entries@[id.index as int].name@,
    {
        self.entries[id.index].name.as_str()
    }

    pub fn kind(&self, id: EntryId) -> (kind: EntryKind)
        requires
            self.is_id(id),
        ensures
            kind == self.entries@[id.index as int].kind,
    {
        self.entries[id.index].kind
    }

    pub fn cursor(&self) -> (cursor: Option<EntryId>)
        ensures
            cursor == self.cursor,
    {
        self.cursor
    }

    pub fn set_cursor(&mut self, cursor: Option<EntryId>)
        requires
            old(self).wf(),
            match cursor {
                Some(id) => old(self).is_id(id),
                None => true,
            },
        ensures
            final(self).wf(),
            *final(self) == (DirectoryModel { cursor, ..*old(self) }),
    {
        self.cursor = cursor;
    }

    pub fn is_selected(&self, id: EntryId) -> (selected: bool)
        requires
            self.wf(),
            self.is_id(id),
        ensures
            selected == self.selected@[id.index as int],
    {
        self.selected[id.index]
    }

    fn mark(&mut self, id: EntryId, value: bool)
        requires
            old(self).wf(),
            old(self).is_id(id),
        ensures
            final(self).wf(),
            final(self).selected@ == old(self).selected@.update(id.index as int, value),
            *final(self) == (DirectoryModel { selected: final(self).selected, ..*old(self) }),
    {
        self.selected.set(id.index, value);
    }

    pub fn select(&mut self, id: EntryId)
        requires
            old(self).wf(),
            old(self).is_id(id),
        ensures
            final(self).wf(),
            final(self).selected@ == old(self).selected@.update(id.index as int, true),
            *final(self) == (DirectoryModel { selected: final(self).selected, ..*old(self) }),
    {
        self.mark(id, true);
    }

    pub fn deselect(&mut self, id: EntryId)
        requires
            old(self).wf(),
            old(self).is_id(id),
        ensures
            final(self).wf(),
            final(self).selected@ == old(self).selected@.update(id.index as int, false),
            *final(self) == (DirectoryModel { selected: final(self).selected, ..*old(self) }),
    {
        self.mark(id, false);
    }

    pub fn toggle_selection(&mut self, id: EntryId)
        requires
            old(self).wf(),
            old(self).is_id(id),
        ensures
            final(self).wf(),
            final(self).selected@ == old(self).selected@.update(
                id.index as int,
                !old(self).selected@[id.index as int],
            ),
            *final(self) == (DirectoryModel { selected: final(self).selected, ..*old(self) }),
    {
        let value = !self.selected[id.index];
        self.mark(id, value);
    }

    /// Deselects everything, shown or not.
    pub fn clear_selection(&mut self)
        requires
            old(self).wf(),
        ensures
            final(self).wf(),
            final(self).selected@ == Seq::new(old(self).entries@.len(), |i: int| false),
            *final(self) == (DirectoryModel { selected: final(self).selected, ..*old(self) }),
    {
        let mut selected: Vec<bool> = Vec::new();
        while selected.len() < self.entries.len()
            invariant
                *self == *old(self),
                selected@.len() <= self.entries@.len(),
                forall|i: int| 0 <= i < selected@.len() ==> !(#[trigger] selected@[i]),
            decreases self.entries@.len() - selected@.len(),
        {
            selected.push(false);
        }
        assert(selected@ =~= Seq::new(self.entries@.len(), |i: int| false));
        self.selected = selected;
    }

    /// How many entries are selected.
    pub fn selection_count(&self) -> (count: usize)
        requires
            self.wf(),
        ensures
            count == count_selected(self.selected@),
    {
        let mut count: usize = 0;
        let mut i: usize = 0;
        assert(self.selected@.take(0).len() == 0);
        while i < self.selected.len()
            invariant
                i <= self.selected@.len(),
                count <= i,
                count == count_selected(self.selected@.take(i as int)),
            decreases self.selected@.len() - i,
        {
            assert(self.selected@.take(i + 1).drop_last() =~= self.selected@.take(i as int));
            if self.selected[i] {
                count = count + 1;
            }
            i = i + 1;
        }
        assert(self.selected@.take(i as int) =~= self.selected@);
        count
    }

    pub fn sort_options(&self) -> (sort: SortOptions)
        ensures
            sort == self.sort,
    {
        self.sort
    }

    /// The row that shows the entry under the cursor.
    pub fn cursor_row(&self) -> (row: Option<usize>)
        ensures
            match row {
                Some(r) => self.cursor_place() == Some(r as int) && r < self.order@.len(),
                None => self.cursor_place() is None,
            },
    {
        let id = match self.cursor {
            Some(id) => id.index,
            None => {
                return None;
            },
        };
        let mut row: usize = 0;
        while row < self.order.len()
            invariant
                row <= self.order@.len(),
                self.cursor == Some(EntryId { index: id }),
                row_of(self.order@, id, 0) == row_of(self.order@, id, row as int),
            decreases self.order@.len() - row,
        {
            if self.order[row] == id {
                return Some(row);
            }
            row = row + 1;
        }
        None
    }
}

pub open spec fn count_selected(selected: Seq<bool>) -> nat
    decreases selected.len(),
{
    if selected.len() == 0 {
        0
    } else {
        count_selected(selected.drop_last()) + if selected.last() {
            1nat
        } else {
            0nat
        }
    }
}

/// The count of selected entries is the number of marks that are set.
pub proof fn lemma_selected_are_counted(selected: Seq<bool>)
    ensures
        count_selected(selected) == selected.filter(|mark: bool| mark).len(),
    decreases selected.len(),
{
    reveal(Seq::filter);
    if selected.len() > 0 {
        lemma_selected_are_counted(selected.drop_last());
    }
}

/// What is shown are the entries that pass, in the order of the whole; without
/// a filter, the whole.
pub proof fn lemma_shown_is_filtered(full: Seq<usize>, passes: Option<Vec<bool>>)
    ensures
        match passes {
            Some(p) => visible(full, passes) == full.filter(|id: usize| p@[id as int]),
            None => visible(full, passes) == full,
        },
    decreases full.len(),
{
    reveal(Seq::filter);
    match passes {
        Some(p) => if full.len() > 0 {
            lemma_shown_is_filtered(full.drop_last(), passes);
        },
        None => {
            lemma_all_visible(full);
        },
    }
}

/// The rows' number always changes, and never to the one that stands for none.
pub proof fn lemma_generations_differ(generation: u64)
    requires
        generation < u64::MAX,
    ensures
        next_generation(generation) != generation,
        next_generation(generation) < u64::MAX,
{
}

/// The cursor's row is the one that shows the entry under the cursor; there is
/// none exactly where no row does.
pub proof fn lemma_cursor_place(model: DirectoryModel)
    requires
        model.wf(),
    ensures
        match model.cursor_place() {
            Some(row) => 0 <= row < model.order@.len() && model.cursor == Some(
                EntryId { index: model.order@[row] },
            ),
            None => model.cursor is None || !model.order@.contains(model.cursor->0.index),
        },
{
    if let Some(id) = model.cursor {
        lemma_row_of(model.order@, id.index, 0);
    }
}

} // verus!
