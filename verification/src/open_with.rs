//! The chooser of an application to open files with.

use vstd::prelude::*;

verus! {

/// An application that is offered.
#[derive(Debug, PartialEq, Eq)]
pub struct AppChoice {
    pub id: String,
    pub name: String,
    pub is_default: bool,
    pub terminal: bool,
}

/// What is said of an application beside its name.
pub open spec fn detail_text(is_default: bool, terminal: bool) -> Seq<char> {
    if is_default && terminal {
        "default \u{b7} runs in a terminal"@
    } else if is_default {
        "default"@
    } else if terminal {
        "runs in a terminal"@
    } else {
        ""@
    }
}

#[derive(Debug, PartialEq, Eq)]
pub struct OpenWithRow {
    pub ix: usize,
    pub name: String,
    pub detail: &'static str,
}

impl OpenWithRow {
    pub fn new(ix: usize, choice: &AppChoice) -> (row: Self)
        ensures
            row.ix == ix,
            row.name@ == choice.name@,
            row.detail@ == detail_text(choice.is_default, choice.terminal),
    {
        let detail = if choice.is_default && choice.terminal {
            "default \u{b7} runs in a terminal"
        } else if choice.is_default {
            "default"
        } else if choice.terminal {
            "runs in a terminal"
        } else {
            ""
        };
        OpenWithRow { ix, name: choice.name.clone(), detail }
    }
}

#[derive(Debug, PartialEq, Eq)]
pub struct OpenWithDelegate {
    /// The files that are to be opened.
    pub paths: Vec<String>,
    pub choices: Vec<AppChoice>,
    pub selected: Option<usize>,
}

impl OpenWithDelegate {
    /// The chooser, with its first application selected.
    pub fn new(paths: Vec<String>, choices: Vec<AppChoice>) -> (chooser: Self)
        ensures
            chooser.paths == paths,
            chooser.choices == choices,
            chooser.selected == (if choices@.len() > 0 {
                Some(0usize)
            } else {
                None
            }),
    {
        let selected: Option<usize> = if choices.len() == 0 {
            None
        } else {
            Some(0)
        };
        OpenWithDelegate { paths, choices, selected }
    }

    pub fn items_count(&self) -> (count: usize)
        ensures
            count == self.choices@.len(),
    {
        self.choices.len()
    }

    /// The row at `row`.
    pub fn render_item(&self, row: usize) -> (item: Option<OpenWithRow>)
        ensures
            match item {
                Some(r) => row < self.choices@.len() && r.ix == row && r.name@
                    == self.choices@[row as int].name@ && r.detail@ == detail_text(
                    self.choices@[row as int].is_default,
                    self.choices@[row as int].terminal,
                ),
                None => row >= self.choices@.len(),
            },
    {
        if row < self.choices.len() {
            Some(OpenWithRow::new(row, &self.choices[row]))
        } else {
            None
        }
    }

    pub fn set_selected_index(&mut self, row: Option<usize>)
        ensures
            *final(self) == (OpenWithDelegate { selected: row, ..*old(self) }),
    {
        self.selected = row;
    }

    /// Enter: the application that opens the files.
    pub fn confirm(&self) -> (id: Option<String>)
        ensures
            match id {
                Some(i) => self.selected is Some && self.selected->0 < self.choices@.len() && i@
                    == self.choices@[self.selected->0 as int].id@,
                None => self.selected is None || self.selected->0 >= self.choices@.len(),
            },
    {
        match self.selected {
            Some(ix) => if ix < self.choices.len() {
                Some(self.choices[ix].id.clone())
            } else {
                None
            },
            None => None,
        }
    }
}

/// A row says that its application is the default exactly where it is, and that
/// it runs in a terminal exactly where it does.
pub proof fn lemma_detail_says_what_holds(is_default: bool, terminal: bool)
    ensures
        is_default <==> "default"@.is_prefix_of(detail_text(is_default, terminal)),
        terminal <==> "runs in a terminal"@.is_suffix_of(detail_text(is_default, terminal)),
        !is_default && !terminal ==> detail_text(is_default, terminal).len() == 0,
{
    reveal_strlit("default");
    reveal_strlit("runs in a terminal");
    reveal_strlit("default \u{b7} runs in a terminal");
    reveal_strlit("");
    let text = detail_text(is_default, terminal);
    if is_default {
        assert(text.take("default"@.len() as int) =~= "default"@);
    } else if "default"@.is_prefix_of(text) {
        assert(text[0] == "default"@[0]);
    }
    if terminal {
        let tail = "runs in a terminal"@;
        assert(text.skip(text.len() - tail.len()) =~= tail);
    }
}

} // verus!
