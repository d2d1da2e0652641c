//! The directory hotlist.

use crate::text::same_text;
use vstd::prelude::*;

verus! {

#[derive(Debug, PartialEq, Eq)]
pub struct HotlistEntry {
    pub label: Option<String>,
    pub path: String,
}

/// One row: what names the entry, and its path.
#[derive(Debug, PartialEq, Eq)]
pub struct HotlistRow {
    pub ix: usize,
    pub display_name: String,
    pub path: String,
}

pub open spec fn entry_name(entry: HotlistEntry) -> Seq<char> {
    match entry.label {
        Some(label) => label@,
        None => entry.path@,
    }
}

impl HotlistRow {
    pub fn new(ix: usize, entry: &HotlistEntry) -> (row: Self)
        ensures
            row.ix == ix,
            row.display_name@ == entry_name(*entry),
            row.path@ == entry.path@,
    {
        let display_name = match &entry.label {
            Some(label) => label.clone(),
            None => entry.path.clone(),
        };
        HotlistRow { ix, display_name, path: entry.path.clone() }
    }

    /// Whether the path is shown on a line of its own: not where it would say
    /// the same twice.
    pub fn show_path_line(&self) -> (show: bool)
        ensures
            show == (self.display_name@ != self.path@),
    {
        !same_text(self.display_name.as_str(), self.path.as_str())
    }
}

#[derive(Debug, PartialEq, Eq)]
pub struct HotlistDelegate {
    pub entries: Vec<HotlistEntry>,
    pub selected: Option<usize>,
}

impl HotlistDelegate {
    /// The list, with its first entry selected.
    pub fn new(entries: Vec<HotlistEntry>) -> (list: Self)
        ensures
            list.entries == entries,
            list.selected == (if entries@.len() > 0 {
                Some(0usize)
            } else {
                None
            }),
    {
        let selected: Option<usize> = if entries.len() == 0 {
            None
        } else {
            Some(0)
        };
        HotlistDelegate { entries, selected }
    }

    pub fn items_count(&self) -> (count: usize)
        ensures
            count == self.entries@.len(),
    {
        self.entries.len()
    }

    /// The row at `row`.
    pub fn render_item(&self, row: usize) -> (item: Option<HotlistRow>)
        ensures
            match item {
                Some(r) => row < self.entries@.len() && r.ix == row && r.display_name@
                    == entry_name(self.entries@[row as int]) && r.path@
                    == self.entries@[row as int].path@,
                None => row >= self.entries@.len(),
            },
    {
        if row < self.entries.len() {
            Some(HotlistRow::new(row, &self.entries[row]))
        } else {
            None
        }
    }

    pub fn set_selected_index(&mut self, row: Option<usize>)
        ensures
            *final(self) == (HotlistDelegate { selected: row, ..*old(self) }),
    {
        self.selected = row;
    }

    /// Enter: the path to go to.
    pub fn confirm(&self) -> (path: Option<String>)
        ensures
            match path {
                Some(p) => self.selected is Some && self.selected->0 < self.entries@.len() && p@
                    == self.entries@[self.selected->0 as int].path@,
                None => self.selected is None || self.selected->0 >= self.entries@.len(),
            },
    {
        match self.selected {
            Some(ix) => if ix < self.entries.len() {
                Some(self.entries[ix].path.clone())
            } else {
                None
            },
            None => None,
        }
    }
}

/// An entry goes by its label, and by its path where it has none.
pub proof fn lemma_entry_goes_by_its_label(entry: HotlistEntry)
    ensures
        entry.label is Some ==> entry_name(entry) == entry.label->0@,
        entry.label is None ==> entry_name(entry) == entry.path@,
{
}

} // verus!
