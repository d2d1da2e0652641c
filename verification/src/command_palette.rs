//! The command palette.

use vstd::prelude::*;

verus! {

/// A command that a search found.
#[derive(Debug, PartialEq, Eq)]
pub struct PaletteEntry {
    pub id: String,
    pub title: String,
    pub category: String,
    pub bindings: Vec<String>,
}

/// One row: the command's title, its category and its first binding.
#[derive(Debug, PartialEq, Eq)]
pub struct PaletteRow {
    pub ix: usize,
    pub title: String,
    pub category: String,
    pub binding: String,
}

pub open spec fn row_of_entry(row: PaletteRow, entry: PaletteEntry) -> bool {
    &&& row.title@ == entry.title@
    &&& row.category@ == entry.category@
    &&& row.binding@ == (if entry.bindings@.len() > 0 {
        entry.bindings@[0]@
    } else {
        Seq::empty()
    })
}

#[derive(Debug, PartialEq, Eq)]
pub struct CommandPaletteDelegate {
    pub matches: Vec<PaletteEntry>,
    pub selected: Option<usize>,
}

impl CommandPaletteDelegate {
    /// The palette, showing what a search for nothing found.
    pub fn new(matches: Vec<PaletteEntry>) -> (palette: Self)
        ensures
            palette == (CommandPaletteDelegate { matches, selected: None }),
    {
        CommandPaletteDelegate { matches, selected: None }
    }

    /// Shows what a search found.
    pub fn perform_search(&mut self, matches: Vec<PaletteEntry>)
        ensures
            *final(self) == (CommandPaletteDelegate { matches, ..*old(self) }),
    {
        self.matches = matches;
    }

    pub fn items_count(&self) -> (count: usize)
        ensures
            count == self.matches@.len(),
    {
        self.matches.len()
    }

    /// The row at `row`.
    pub fn render_item(&self, row: usize) -> (item: Option<PaletteRow>)
        ensures
            match item {
                Some(r) => row < self.matches@.len() && r.ix == row && row_of_entry(
                    r,
                    self.matches@[row as int],
                ),
                None => row >= self.matches@.len(),
            },
    {
        if row >= self.matches.len() {
            return None;
        }
        let entry = &self.matches[row];
        let binding = if entry.bindings.len() > 0 {
            entry.bindings[0].clone()
        } else {
            String::new()
        };
        assert(binding@ =~= if entry.bindings@.len() > 0 {
            entry.bindings@[0]@
        } else {
            Seq::empty()
        });
        Some(
            PaletteRow {
                ix: row,
                title: entry.title.clone(),
                category: entry.category.clone(),
                binding,
            },
        )
    }

    pub fn set_selected_index(&mut self, row: Option<usize>)
        ensures
            *final(self) == (CommandPaletteDelegate { selected: row, ..*old(self) }),
    {
        self.selected = row;
    }

    /// Enter: the command to run, and its title.
    pub fn confirm(&self) -> (command: Option<(String, String)>)
        ensures
            match command {
                Some((id, title)) => self.selected is Some && self.selected->0
                    < self.matches@.len() && id@ == self.matches@[self.selected->0 as int].id@
                    && title@ == self.matches@[self.selected->0 as int].title@,
                None => self.selected is None || self.selected->0 >= self.matches@.len(),
            },
    {
        match self.selected {
            Some(ix) => if ix < self.matches.len() {
                Some((self.matches[ix].id.clone(), self.matches[ix].title.clone()))
            } else {
                None
            },
            None => None,
        }
    }
}

/// A row shows its own command: the title, the category, and of the bindings the
/// first, or nothing where there is none.
pub proof fn lemma_row_shows_its_own_command(row: PaletteRow, entry: PaletteEntry)
    requires
        row_of_entry(row, entry),
    ensures
        row.title@ == entry.title@,
        row.category@ == entry.category@,
        entry.bindings@.len() > 0 ==> row.binding@ == entry.bindings@[0]@,
        entry.bindings@.len() == 0 ==> row.binding@.len() == 0,
{
}

} // verus!
