//! The copy and move dialog: what it operates on, where to, with which
//! options, and how its destination is completed.

use crate::columns::EntryKind;
use crate::dialog_job::{
    no_state_dir, no_state_dir_text, outcome_text, report_job_outcome, Notice, NoticeLevel,
    PlanOutcome,
};
use crate::file_table::FileTableDelegate;
use crate::jobs::{plural, plural_text, ConflictPolicy, JobKind};
use crate::listing::{is_order, DirectoryModel};
use crate::paths::{
    components, is_same_path, joined, lemma_components_of_entry, lemma_trailing_slash_says_nothing,
    path_file_name, path_join, path_parent, same_path, split_given, split_parent_prefix,
};
use crate::text::{chars_of, decimal, push_char, push_decimal, same_text, texts_of};
use crate::vpath::{copy_paths, VPath};
use vstd::prelude::*;

verus! {

/// How many workers a job asks for.
pub const JOB_CONCURRENCY: usize = 4;

#[derive(Debug, PartialEq, Eq)]
pub struct CopyMoveDialogState {
    pub kind: JobKind,
    pub sources: Vec<VPath>,
    /// The destination field's text.
    pub destination: String,
    pub conflict_policy: ConflictPolicy,
    pub verify: bool,
    /// Whether the job waits behind those that run now.
    pub queued: bool,
    pub planning_in_progress: bool,
    pub state_dir: Option<String>,
}

/// A plan that is to be made: what, where to, and how.
#[derive(Debug, PartialEq, Eq)]
pub struct CopyMovePlan {
    pub kind: JobKind,
    pub sources: Vec<VPath>,
    pub dest: VPath,
    pub default_conflict: ConflictPolicy,
    pub verify: bool,
    /// Lower runs first.
    pub priority: u8,
    pub concurrency: usize,
}

/// What Enter leads to.
#[derive(Debug, PartialEq, Eq)]
pub enum CopyMoveAnswer {
    Busy,
    Refused(Notice),
    Plan(CopyMovePlan),
}

pub open spec fn destination_refusal(text: Seq<char>) -> Seq<char> {
    "\u{201c}"@ + text + "\u{201d} isn't a valid destination path."@
}

pub open spec fn verb_text(kind: JobKind) -> Seq<char> {
    match kind {
        JobKind::Copy => "Copy"@,
        JobKind::Move => "Move"@,
        _ => "Operate on"@,
    }
}

pub open spec fn policy_text(policy: ConflictPolicy) -> Seq<char> {
    match policy {
        ConflictPolicy::Overwrite => "Overwrite"@,
        ConflictPolicy::AutoRename => "Auto-rename"@,
        _ => "Skip"@,
    }
}

/// The dialog's headline for some number of sources.
pub open spec fn headline(kind: JobKind, sources: nat) -> Seq<char> {
    verb_text(kind) + " "@ + decimal(sources) + " item"@ + plural_text(sources) + " to:"@
}

/// The line that shows the options.
pub open spec fn options_text(policy: ConflictPolicy, verify: bool, queued: bool) -> Seq<char> {
    "Conflict: "@ + policy_text(policy) + " (Ctrl+1/2/3)    Verify: "@ + (if verify {
        "on"@
    } else {
        "off"@
    }) + " (Ctrl+K)    Mode: "@ + (if queued {
        "Queued"@
    } else {
        "Run now"@
    }) + " (Ctrl+J)"@
}

impl CopyMoveDialogState {
    pub fn new(
        kind: JobKind,
        sources: Vec<VPath>,
        initial_destination: String,
        state_dir: Option<String>,
    ) -> (state: Self)
        ensures
            state == (CopyMoveDialogState {
                kind,
                sources,
                destination: initial_destination,
                conflict_policy: ConflictPolicy::Skip,
                verify: false,
                queued: false,
                planning_in_progress: false,
                state_dir,
            }),
    {
        CopyMoveDialogState {
            kind,
            sources,
            destination: initial_destination,
            conflict_policy: ConflictPolicy::Skip,
            verify: false,
            queued: false,
            planning_in_progress: false,
            state_dir,
        }
    }

    pub fn set_conflict_policy(&mut self, policy: ConflictPolicy)
        ensures
            *final(self) == (CopyMoveDialogState { conflict_policy: policy, ..*old(self) }),
    {
        self.conflict_policy = policy;
    }

    pub fn toggle_verify(&mut self)
        ensures
            *final(self) == (CopyMoveDialogState { verify: !old(self).verify, ..*old(self) }),
    {
        self.verify = !self.verify;
    }

    pub fn toggle_queued(&mut self)
        ensures
            *final(self) == (CopyMoveDialogState { queued: !old(self).queued, ..*old(self) }),
    {
        self.queued = !self.queued;
    }

    /// Tab: completes the destination from a panel that shows its directory.
    /// Returns whether it was completed.
    pub fn try_complete_destination(&mut self, panel_dir: &str, model: &DirectoryModel) -> (done:
        bool)
        requires
            model.wf(),
        ensures
            ({
                let split = split_given(
                    old(self).destination@,
                    path_parent(old(self).destination@),
                    path_file_name(old(self).destination@),
                );
                let completed = match split {
                    Some((dir, prefix)) => if same_path(dir, panel_dir@) {
                        completion(*model, dir, prefix)
                    } else {
                        None
                    },
                    None => None,
                };
                match completed {
                    Some(text) => done && final(self).destination@ == text && *final(self) == (
                    CopyMoveDialogState { destination: final(self).destination, ..*old(self) }),
                    None => !done && *final(self) == *old(self),
                }
            }),
    {
        match split_parent_prefix(self.destination.as_str()) {
            Some((dir, prefix)) => {
                if !is_same_path(dir.as_str(), panel_dir) {
                    return false;
                }
                match complete_against_model(model, dir.as_str(), prefix.as_str()) {
                    Some(text) => {
                        self.destination = text;
                        true
                    },
                    None => false,
                }
            },
            None => false,
        }
    }

    /// Enter, with the destination's path where its text is one.
    pub fn confirm(&mut self, dest: Option<VPath>) -> (answer: CopyMoveAnswer)
        requires
            old(self).kind == JobKind::Copy || old(self).kind == JobKind::Move,
        ensures
            match answer {
                CopyMoveAnswer::Busy => old(self).planning_in_progress && *final(self) == *old(self),
                CopyMoveAnswer::Refused(notice) => {
                    &&& !old(self).planning_in_progress
                    &&& notice.level == NoticeLevel::Error
                    &&& *final(self) == *old(self)
                    &&& if dest is None {
                        notice.message@ == destination_refusal(old(self).destination@)
                    } else {
                        old(self).state_dir is None && notice.message@ == no_state_dir_text()
                    }
                },
                CopyMoveAnswer::Plan(plan) => {
                    &&& !old(self).planning_in_progress
                    &&& dest is Some
                    &&& old(self).state_dir is Some
                    &&& plan.sources@ == old(self).sources@
                    &&& plan == (CopyMovePlan {
                        kind: old(self).kind,
                        sources: plan.sources,
                        dest: dest->0,
                        default_conflict: old(self).conflict_policy,
                        verify: old(self).verify,
                        priority: if old(self).queued {
                            10
                        } else {
                            0
                        },
                        concurrency: JOB_CONCURRENCY,
                    })
                    &&& *final(self) == (CopyMoveDialogState {
                        planning_in_progress: true,
                        ..*old(self)
                    })
                },
            },
    {
        if self.planning_in_progress {
            return CopyMoveAnswer::Busy;
        }
        let dest = match dest {
            Some(dest) => dest,
            None => {
                let mut message = "\u{201c}".to_owned();
                message.append(self.destination.as_str());
                message.append("\u{201d} isn't a valid destination path.");
                return CopyMoveAnswer::Refused(Notice { level: NoticeLevel::Error, message });
            },
        };
        if self.state_dir.is_none() {
            return CopyMoveAnswer::Refused(no_state_dir(NoticeLevel::Error));
        }
        self.planning_in_progress = true;
        CopyMoveAnswer::Plan(
            CopyMovePlan {
                kind: self.kind,
                sources: copy_paths(&self.sources),
                dest,
                default_conflict: self.conflict_policy,
                verify: self.verify,
                priority: if self.queued {
                    10
                } else {
                    0
                },
                concurrency: JOB_CONCURRENCY,
            },
        )
    }

    /// The planning run came to its end. Returns whether the dialog closes,
    /// and the notice that is raised where it does not.
    pub fn planning_ended(&mut self, outcome: &PlanOutcome) -> (r: (bool, Option<Notice>))
        ensures
            *final(self) == (CopyMoveDialogState { planning_in_progress: false, ..*old(self) }),
            r.0 == (outcome is Enqueued),
            match r.1 {
                Some(notice) => outcome_text(*outcome) == Some(notice.message@) && notice.level
                    == NoticeLevel::Error,
                None => outcome_text(*outcome) is None,
            },
    {
        self.planning_in_progress = false;
        report_job_outcome(outcome)
    }

    /// The dialog's headline.
    pub fn title(&self) -> (text: String)
        ensures
            text@ == headline(self.kind, self.sources@.len()),
    {
        let verb = match self.kind {
            JobKind::Copy => "Copy",
            JobKind::Move => "Move",
            _ => "Operate on",
        };
        let mut text = verb.to_owned();
        text.append(" ");
        push_decimal(&mut text, self.sources.len() as u64);
        text.append(" item");
        text.append(plural(self.sources.len()));
        text.append(" to:");
        text
    }

    /// The line that shows the options.
    pub fn options_line(&self) -> (text: String)
        ensures
            text@ == options_text(self.conflict_policy, self.verify, self.queued),
    {
        let mut text = "Conflict: ".to_owned();
        text.append(
            match self.conflict_policy {
                ConflictPolicy::Overwrite => "Overwrite",
                ConflictPolicy::AutoRename => "Auto-rename",
                _ => "Skip",
            },
        );
        text.append(" (Ctrl+1/2/3)    Verify: ");
        text.append(
            if self.verify {
                "on"
            } else {
                "off"
            },
        );
        text.append(" (Ctrl+K)    Mode: ");
        text.append(
            if self.queued {
                "Queued"
            } else {
                "Run now"
            },
        );
        text.append(" (Ctrl+J)");
        text
    }

    /// The dialog as it is shown.
    pub fn render(&self) -> (view: CopyMoveView)
        ensures
            view.title@ == headline(self.kind, self.sources@.len()),
            view.destination == self.destination,
            view.options@ == options_text(self.conflict_policy, self.verify, self.queued),
            view.hint@ == "Enter to confirm, Esc to cancel, Tab to complete the destination"@,
    {
        CopyMoveView {
            title: self.title(),
            destination: self.destination.clone(),
            options: self.options_line(),
            hint: "Enter to confirm, Esc to cancel, Tab to complete the destination",
        }
    }
}

/// The dialog as it is shown.
#[derive(Debug, PartialEq, Eq)]
pub struct CopyMoveView {
    pub title: String,
    pub destination: String,
    pub options: String,
    pub hint: &'static str,
}

/// What a key does in the dialog.
#[derive(Clone, Copy, Debug, PartialEq, Eq, Structural)]
pub enum CopyMoveAction {
    SetConflict(ConflictPolicy),
    ToggleVerify,
    ToggleQueued,
}

/// The keys that the dialog is bound to: the action that a keystroke stands
/// for.
pub fn bind_copy_move_dialog_keys(keys: &str) -> (action: Option<CopyMoveAction>)
    ensures
        action == (if keys@ == "ctrl-1"@ {
            Some(CopyMoveAction::SetConflict(ConflictPolicy::Skip))
        } else if keys@ == "ctrl-2"@ {
            Some(CopyMoveAction::SetConflict(ConflictPolicy::Overwrite))
        } else if keys@ == "ctrl-3"@ {
            Some(CopyMoveAction::SetConflict(ConflictPolicy::AutoRename))
        } else if keys@ == "ctrl-k"@ {
            Some(CopyMoveAction::ToggleVerify)
        } else if keys@ == "ctrl-j"@ {
            Some(CopyMoveAction::ToggleQueued)
        } else {
            None
        }),
{
    if same_text(keys, "ctrl-1") {
        Some(CopyMoveAction::SetConflict(ConflictPolicy::Skip))
    } else if same_text(keys, "ctrl-2") {
        Some(CopyMoveAction::SetConflict(ConflictPolicy::Overwrite))
    } else if same_text(keys, "ctrl-3") {
        Some(CopyMoveAction::SetConflict(ConflictPolicy::AutoRename))
    } else if same_text(keys, "ctrl-k") {
        Some(CopyMoveAction::ToggleVerify)
    } else if same_text(keys, "ctrl-j") {
        Some(CopyMoveAction::ToggleQueued)
    } else {
        None
    }
}

/// The names of the selected entries among the first `upto` rows.
pub open spec fn selected_names(model: DirectoryModel, upto: int) -> Seq<Seq<char>>
    decreases upto,
{
    if upto <= 0 {
        Seq::empty()
    } else {
        let before = selected_names(model, upto - 1);
        if model.selected@[model.order@[upto - 1] as int] {
            before.push(model.entry_at(upto - 1).name@)
        } else {
            before
        }
    }
}

/// What an operation works on: what is selected, or else the entry under the
/// cursor.
pub open spec fn source_names(delegate: FileTableDelegate) -> Seq<Seq<char>> {
    let selected = selected_names(delegate.model, delegate.rows());
    if selected.len() > 0 {
        selected
    } else if delegate.cursor_on_parent || delegate.cursor_row is None {
        Seq::empty()
    } else {
        seq![delegate.model.entry_at(delegate.cursor_row->0 as int).name@]
    }
}

/// What an operation works on: the selected entries that are shown, in
/// display order, or else the entry under the cursor.
pub fn resolve_source_names(delegate: &FileTableDelegate) -> (names: Vec<String>)
    requires
        delegate.wf(),
    ensures
        texts_of(names@) == source_names(*delegate),
{
    let model = delegate.model();
    let mut names: Vec<String> = Vec::new();
    let mut row: usize = 0;
    proof {
        delegate.lemma_cursor_row();
        assert(texts_of(names@) =~= selected_names(*model, 0));
    }
    while row < model.order.len()
        invariant
            *model == delegate.model,
            delegate.wf(),
            is_order(model.order@, model.entries@.len()),
            row <= model.order@.len(),
            texts_of(names@) == selected_names(*model, row as int),
        decreases model.order@.len() - row,
    {
        let id: usize = model.order[row];
        let ghost before = names@;
        if model.selected[id] {
            let name = model.entries[id].name.clone();
            names.push(name);
            assert(texts_of(names@) =~= texts_of(before).push(model.entry_at(row as int).name@));
        }
        row = row + 1;
    }
    if names.len() > 0 {
        assert(texts_of(names@).len() == names@.len());
        return names;
    }
    assert(texts_of(names@).len() == 0);
    if let Some(name) = delegate.cursor_entry_name() {
        names.push(name);
    }
    assert(texts_of(names@) =~= source_names(*delegate));
    names
}

/// Whether `text` begins with `prefix`.
pub open spec fn begins_with(text: Seq<char>, prefix: Seq<char>) -> bool {
    prefix.len() <= text.len() && text.take(prefix.len() as int) == prefix
}

fn starts_with(text: &str, prefix: &Vec<char>) -> (b: bool)
    ensures
        b == begins_with(text@, prefix@),
{
    let chars = chars_of(text);
    if prefix.len() > chars.len() {
        return false;
    }
    let mut i: usize = 0;
    while i < prefix.len()
        invariant
            chars@ == text@,
            i <= prefix@.len() <= chars@.len(),
            forall|j: int| 0 <= j < i ==> chars@[j] == prefix@[j],
        decreases prefix@.len() - i,
    {
        if chars[i] != prefix[i] {
            assert(text@.take(prefix@.len() as int)[i as int] != prefix@[i as int]);
            return false;
        }
        i = i + 1;
    }
    assert(text@.take(prefix@.len() as int) =~= prefix@);
    true
}

/// The rows among the first `upto` whose names begin with `prefix`.
pub open spec fn rows_beginning(model: DirectoryModel, prefix: Seq<char>, upto: int) -> Seq<int>
    decreases upto,
{
    if upto <= 0 {
        Seq::empty()
    } else {
        let before = rows_beginning(model, prefix, upto - 1);
        if begins_with(model.entry_at(upto - 1).name@, prefix) {
            before.push(upto - 1)
        } else {
            before
        }
    }
}

/// A path with a `/` behind it, unless it has one.
pub open spec fn with_slash(path: Seq<char>) -> Seq<char> {
    if path.len() > 0 && path.last() == '/' {
        path
    } else {
        path + seq!['/']
    }
}

/// What `prefix` is completed to in a directory: the one entry whose name
/// begins with it, a directory's with a `/` behind it; nothing where none or
/// several do.
pub open spec fn completion(model: DirectoryModel, dir: Seq<char>, prefix: Seq<char>) -> Option<
    Seq<char>,
> {
    let rows = rows_beginning(model, prefix, model.order@.len() as int);
    if rows.len() != 1 {
        None
    } else {
        let entry = model.entry_at(rows[0]);
        if entry.kind == EntryKind::Directory {
            Some(with_slash(path_join(dir, entry.name@)))
        } else {
            Some(path_join(dir, entry.name@))
        }
    }
}

proof fn lemma_rows_beginning(model: DirectoryModel, prefix: Seq<char>, a: int, b: int)
    requires
        0 <= a <= b,
    ensures
        rows_beginning(model, prefix, a).len() <= rows_beginning(model, prefix, b).len(),
    decreases b - a,
{
    if a < b {
        lemma_rows_beginning(model, prefix, a, b - 1);
    }
}

/// A joined path with what a directory has behind it.
pub fn completed_path(path: String, kind: EntryKind) -> (text: String)
    ensures
        text@ == (if kind == EntryKind::Directory {
            with_slash(path@)
        } else {
            path@
        }),
{
    let mut text = path;
    if kind == EntryKind::Directory {
        let chars = chars_of(text.as_str());
        if chars.len() == 0 || chars[chars.len() - 1] != '/' {
            push_char(&mut text, '/');
        }
    }
    text
}

/// The row of the one name in `model` that begins with `prefix`.
pub fn row_beginning(model: &DirectoryModel, prefix: &str) -> (row: Option<usize>)
    requires
        model.wf(),
    ensures
        ({
            let rows = rows_beginning(*model, prefix@, model.order@.len() as int);
            match row {
                Some(r) => rows == seq![r as int] && r < model.order@.len(),
                None => rows.len() != 1,
            }
        }),
{
    let prefix_chars = chars_of(prefix);
    let mut found: Option<usize> = None;
    let mut row: usize = 0;
    proof {
        model.lemma_rows();
    }
    let ghost rows = model.order@.len() as int;
    while row < model.order.len()
        invariant
            prefix_chars@ == prefix@,
            is_order(model.order@, model.entries@.len()),
            rows == model.order@.len(),
            row <= rows,
            match found {
                Some(r) => r < row && rows_beginning(*model, prefix@, row as int) == seq![r as int],
                None => rows_beginning(*model, prefix@, row as int).len() == 0,
            },
        decreases rows - row,
    {
        let id: usize = model.order[row];
        if starts_with(model.entries[id].name.as_str(), &prefix_chars) {
            if found.is_some() {
                proof {
                    assert(rows_beginning(*model, prefix@, row + 1).len() == 2);
                    lemma_rows_beginning(*model, prefix@, row + 1, rows);
                }
                return None;
            }
            found = Some(row);
            assert(rows_beginning(*model, prefix@, row + 1) =~= seq![row as int]);
        }
        row = row + 1;
    }
    found
}

/// Completes `prefix` to the one name in `model` that begins with it.
pub fn complete_against_model(model: &DirectoryModel, parent: &str, prefix: &str) -> (text: Option<
    String,
>)
    requires
        model.wf(),
    ensures
        match text {
            Some(t) => completion(*model, parent@, prefix@) == Some(t@),
            None => completion(*model, parent@, prefix@) is None,
        },
{
    proof {
        model.lemma_rows();
    }
    match row_beginning(model, prefix) {
        Some(row) => {
            let id: usize = model.order[row];
            let path = joined(parent, model.entries[id].name.as_str());
            Some(completed_path(path, model.entries[id].kind))
        },
        None => None,
    }
}

/// The rows whose entries are selected, from the top.
proof fn lemma_selected_rows(model: DirectoryModel, upto: int) -> (rows: Seq<int>)
    requires
        0 <= upto <= model.order@.len(),
    ensures
        forall|i: int, j: int| 0 <= i < j < rows.len() ==> rows[i] < rows[j],
        forall|r: int|
            #[trigger] rows.contains(r) <==> 0 <= r < upto && model.selected@[model.order@[r] as int],
        selected_names(model, upto) == rows.map_values(
            |r: int| model.entries@[model.order@[r] as int].name@,
        ),
    decreases upto,
{
    if upto <= 0 {
        let rows = Seq::<int>::empty();
        assert(selected_names(model, upto) =~= rows.map_values(
            |r: int| model.entries@[model.order@[r] as int].name@,
        ));
        rows
    } else {
        let before = lemma_selected_rows(model, upto - 1);
        assert forall|i: int| 0 <= i < before.len() implies before[i] < upto - 1 by {
            assert(before.contains(before[i]));
        }
        if model.selected@[model.order@[upto - 1] as int] {
            let rows = before.push(upto - 1);
            assert forall|r: int|
                #[trigger] rows.contains(r) <==> 0 <= r < upto
                    && model.selected@[model.order@[r] as int] by {
                if rows.contains(r) {
                    let k = choose|k: int| 0 <= k < rows.len() && rows[k] == r;
                    if k < before.len() {
                        assert(before[k] == r);
                        assert(before.contains(r));
                    }
                }
                if before.contains(r) {
                    let k = choose|k: int| 0 <= k < before.len() && before[k] == r;
                    assert(rows[k] == r);
                }
                assert(rows[rows.len() - 1] == upto - 1);
                if 0 <= r < upto - 1 && model.selected@[model.order@[r] as int] {
                    assert(before.contains(r));
                }
            }
            assert(selected_names(model, upto) =~= rows.map_values(
                |r: int| model.entries@[model.order@[r] as int].name@,
            ));
            rows
        } else {
            before
        }
    }
}

/// Whether `rows` are the rows whose entries are selected, each once, from the
/// top.
pub open spec fn lists_selected_rows(model: DirectoryModel, rows: Seq<int>) -> bool {
    &&& forall|i: int, j: int| 0 <= i < j < rows.len() ==> rows[i] < rows[j]
    &&& forall|r: int|
        #[trigger] rows.contains(r) <==> 0 <= r < model.order@.len()
            && model.selected@[model.order@[r] as int]
}

/// Where entries that are shown are selected, an operation works on these and on
/// nothing else, each once, in the order of their rows; what is under the cursor
/// does not matter.
pub proof fn lemma_selection_goes_before_cursor(delegate: FileTableDelegate, r: int)
    requires
        0 <= r < delegate.model.order@.len(),
        delegate.model.selected@[delegate.model.order@[r] as int],
    ensures
        exists|rows: Seq<int>|
            {
                &&& #[trigger] lists_selected_rows(delegate.model, rows)
                &&& source_names(delegate) == rows.map_values(
                    |k: int| delegate.model.entries@[delegate.model.order@[k] as int].name@,
                )
            },
{
    let rows = lemma_selected_rows(delegate.model, delegate.rows());
    assert(rows.contains(r));
    assert(lists_selected_rows(delegate.model, rows));
}

/// Where nothing that is shown is selected, an operation works on the entry
/// under the cursor alone; on the `..` row, or on no row, on nothing. A
/// selection that a filter hides is left alone.
pub proof fn lemma_cursor_stands_in_for_a_selection(delegate: FileTableDelegate)
    requires
        delegate.wf(),
        forall|r: int|
            0 <= r < delegate.model.order@.len()
                ==> !delegate.model.selected@[#[trigger] delegate.model.order@[r] as int],
    ensures
        source_names(delegate).len() <= 1,
        source_names(delegate).len() == 1 <==> !delegate.cursor_on_parent && delegate.cursor_row is Some,
        source_names(delegate).len() == 1 ==> delegate.model.cursor is Some && source_names(
            delegate,
        )[0] == delegate.model.entries@[delegate.model.cursor->0.index as int].name@,
{
    delegate.lemma_cursor_row();
    let rows = lemma_selected_rows(delegate.model, delegate.rows());
    if rows.len() > 0 {
        let r = rows[0];
        assert(rows.contains(r));
        assert(!delegate.model.selected@[delegate.model.order@[r] as int]);
    }
}

proof fn lemma_beginning_rows(model: DirectoryModel, prefix: Seq<char>, upto: int)
    requires
        0 <= upto <= model.order@.len(),
    ensures
        forall|r: int|
            #[trigger] rows_beginning(model, prefix, upto).contains(r) <==> 0 <= r < upto
                && prefix.is_prefix_of(model.entries@[model.order@[r] as int].name@),
        forall|i: int, j: int|
            0 <= i < j < rows_beginning(model, prefix, upto).len() ==> rows_beginning(
                model,
                prefix,
                upto,
            )[i] < rows_beginning(model, prefix, upto)[j],
    decreases upto,
{
    let rows = rows_beginning(model, prefix, upto);
    if upto > 0 {
        lemma_beginning_rows(model, prefix, upto - 1);
        let before = rows_beginning(model, prefix, upto - 1);
        let name = model.entries@[model.order@[upto - 1] as int].name@;
        assert(begins_with(name, prefix) <==> prefix.is_prefix_of(name)) by {
            if begins_with(name, prefix) {
                assert(name.take(prefix.len() as int) =~= prefix);
            }
        }
        assert forall|i: int| 0 <= i < before.len() implies before[i] < upto - 1 by {
            assert(before.contains(before[i]));
        }
        assert forall|r: int| #[trigger] rows.contains(r) <==> 0 <= r < upto && prefix.is_prefix_of(
            model.entries@[model.order@[r] as int].name@,
        ) by {
            if rows.contains(r) {
                let k = choose|k: int| 0 <= k < rows.len() && rows[k] == r;
                if k < before.len() {
                    assert(before[k] == r);
                    assert(before.contains(r));
                }
            }
            if before.contains(r) {
                let k = choose|k: int| 0 <= k < before.len() && before[k] == r;
                assert(rows[k] == r);
            }
            if 0 <= r < upto && prefix.is_prefix_of(
                model.entries@[model.order@[r] as int].name@,
            ) {
                if r == upto - 1 {
                    assert(rows[rows.len() - 1] == r);
                } else {
                    assert(before.contains(r));
                }
            }
        }
    }
}

/// What was typed is completed where the name of exactly one entry that is shown
/// begins with it: to that entry in the directory, with a slash behind it where
/// it is a directory and where nothing else is.
pub proof fn lemma_only_entry_completes(
    model: DirectoryModel,
    dir: Seq<char>,
    prefix: Seq<char>,
    r: int,
)
    requires
        0 <= r < model.order@.len(),
        ({
            let name = model.entries@[model.order@[r] as int].name@;
            name.len() > 0 && name != seq!['.'] && !name.contains('/')
        }),
        forall|k: int|
            0 <= k < model.order@.len() ==> (prefix.is_prefix_of(
                model.entries@[#[trigger] model.order@[k] as int].name@,
            ) <==> k == r),
    ensures
        completion(model, dir, prefix) is Some,
        ({
            let text = completion(model, dir, prefix)->0;
            let entry = model.entries@[model.order@[r] as int];
            &&& components(text) == components(dir).push(entry.name@)
            &&& text.last() == '/' <==> entry.kind == EntryKind::Directory
            &&& dir.is_prefix_of(text)
        }),
{
    let n = model.order@.len() as int;
    let rows = rows_beginning(model, prefix, n);
    let entry = model.entries@[model.order@[r] as int];
    let name = entry.name@;
    lemma_beginning_rows(model, prefix, n);
    assert(model.order@[r] == model.order@[r]);
    assert(prefix.is_prefix_of(name));
    assert(rows.contains(r));
    let at = choose|at: int| 0 <= at < rows.len() && rows[at] == r;
    assert(rows.len() == 1) by {
        if rows.len() > 1 {
            let other = if at == 0 {
                1int
            } else {
                0
            };
            assert(rows.contains(rows[other]));
            let k = rows[other];
            assert(prefix.is_prefix_of(model.entries@[model.order@[k] as int].name@));
            assert(k != r);
        }
    }
    assert forall|i: int| 0 <= i < name.len() implies name[i] != '/' by {
        assert(name.contains(name[i]));
    }
    lemma_components_of_entry(dir, name);
    let path = path_join(dir, name);
    assert(path.last() == name.last());
    assert(path.take(dir.len() as int) =~= dir);
    if entry.kind == EntryKind::Directory {
        let text = with_slash(path);
        assert(text =~= path.push('/'));
        lemma_trailing_slash_says_nothing(path);
        assert(text.take(dir.len() as int) =~= dir);
    }
}

/// Where no name begins with what was typed, or two do, nothing is completed.
pub proof fn lemma_nothing_completes(
    model: DirectoryModel,
    dir: Seq<char>,
    prefix: Seq<char>,
    a: int,
    b: int,
)
    requires
        ({
            ||| forall|k: int|
                0 <= k < model.order@.len() ==> !prefix.is_prefix_of(
                    model.entries@[#[trigger] model.order@[k] as int].name@,
                )
            ||| {
                &&& 0 <= a < b < model.order@.len()
                &&& prefix.is_prefix_of(model.entries@[model.order@[a] as int].name@)
                &&& prefix.is_prefix_of(model.entries@[model.order@[b] as int].name@)
            }
        }),
    ensures
        completion(model, dir, prefix) is None,
{
    let rows = rows_beginning(model, prefix, model.order@.len() as int);
    lemma_beginning_rows(model, prefix, model.order@.len() as int);
    if rows.len() == 1 {
        let k = rows[0];
        assert(rows.contains(k));
        assert(prefix.is_prefix_of(model.entries@[model.order@[k] as int].name@));
        assert(rows.contains(a) || !(0 <= a < b));
        assert(rows.contains(b) || !(0 <= a < b));
    }
}

/// The headline says what is done to how many.
pub proof fn lemma_headline(kind: JobKind, sources: nat)
    ensures
        kind == JobKind::Copy ==> ("Copy "@ + decimal(sources) + " item"@).is_prefix_of(
            headline(kind, sources),
        ),
        kind == JobKind::Move ==> ("Move "@ + decimal(sources) + " item"@).is_prefix_of(
            headline(kind, sources),
        ),
        " to:"@.is_suffix_of(headline(kind, sources)),
        headline(kind, sources).len() == headline(kind, 1).len() + decimal(sources).len() - 1 + (
        if sources == 1 {
            0int
        } else {
            1
        }),
{
    reveal_strlit("Copy ");
    reveal_strlit("Move ");
    reveal_strlit("Copy");
    reveal_strlit("Move");
    reveal_strlit(" ");
    reveal_strlit("");
    reveal_strlit("s");
    reveal_with_fuel(decimal, 2);
    let text = headline(kind, sources);
    let tail = " to:"@;
    assert(text.skip(text.len() - tail.len()) =~= tail);
    let copy = "Copy "@ + decimal(sources) + " item"@;
    let moved = "Move "@ + decimal(sources) + " item"@;
    if kind == JobKind::Copy {
        assert(text.take(copy.len() as int) =~= copy);
    }
    if kind == JobKind::Move {
        assert(text.take(moved.len() as int) =~= moved);
    }
}

/// The line of options names the policy that is set, and says whether copies are
/// verified and whether the job waits.
pub proof fn lemma_options_line(policy: ConflictPolicy, verify: bool, queued: bool)
    ensures
        ({
            let text = options_text(policy, verify, queued);
            let named = if policy == ConflictPolicy::Overwrite {
                "Conflict: Overwrite (Ctrl+1/2/3)"@
            } else if policy == ConflictPolicy::AutoRename {
                "Conflict: Auto-rename (Ctrl+1/2/3)"@
            } else {
                "Conflict: Skip (Ctrl+1/2/3)"@
            };
            let verified = if verify {
                "    Verify: on (Ctrl+K)"@
            } else {
                "    Verify: off (Ctrl+K)"@
            };
            let mode = if queued {
                "    Mode: Queued (Ctrl+J)"@
            } else {
                "    Mode: Run now (Ctrl+J)"@
            };
            text == named + verified + mode
        }),
{
    reveal_strlit("Conflict: ");
    reveal_strlit("Overwrite");
    reveal_strlit("Auto-rename");
    reveal_strlit("Skip");
    reveal_strlit(" (Ctrl+1/2/3)    Verify: ");
    reveal_strlit("on");
    reveal_strlit("off");
    reveal_strlit(" (Ctrl+K)    Mode: ");
    reveal_strlit("Queued");
    reveal_strlit("Run now");
    reveal_strlit(" (Ctrl+J)");
    reveal_strlit("Conflict: Overwrite (Ctrl+1/2/3)");
    reveal_strlit("Conflict: Auto-rename (Ctrl+1/2/3)");
    reveal_strlit("Conflict: Skip (Ctrl+1/2/3)");
    reveal_strlit("    Verify: on (Ctrl+K)");
    reveal_strlit("    Verify: off (Ctrl+K)");
    reveal_strlit("    Mode: Queued (Ctrl+J)");
    reveal_strlit("    Mode: Run now (Ctrl+J)");
    assert("Conflict: "@ + "Overwrite"@ + " (Ctrl+1/2/3)"@ =~= "Conflict: Overwrite (Ctrl+1/2/3)"@) by {
        reveal_strlit(" (Ctrl+1/2/3)");
    }
    assert("Conflict: "@ + "Auto-rename"@ + " (Ctrl+1/2/3)"@ =~= "Conflict: Auto-rename (Ctrl+1/2/3)"@) by {
        reveal_strlit(" (Ctrl+1/2/3)");
    }
    assert("Conflict: "@ + "Skip"@ + " (Ctrl+1/2/3)"@ =~= "Conflict: Skip (Ctrl+1/2/3)"@) by {
        reveal_strlit(" (Ctrl+1/2/3)");
    }
    assert(" (Ctrl+1/2/3)    Verify: "@ =~= " (Ctrl+1/2/3)"@ + "    Verify: "@) by {
        reveal_strlit(" (Ctrl+1/2/3)");
        reveal_strlit("    Verify: ");
    }
    assert(" (Ctrl+K)    Mode: "@ =~= " (Ctrl+K)"@ + "    Mode: "@) by {
        reveal_strlit(" (Ctrl+K)");
        reveal_strlit("    Mode: ");
    }
    assert("    Verify: "@ + "on"@ + " (Ctrl+K)"@ =~= "    Verify: on (Ctrl+K)"@) by {
        reveal_strlit(" (Ctrl+K)");
        reveal_strlit("    Verify: ");
    }
    assert("    Verify: "@ + "off"@ + " (Ctrl+K)"@ =~= "    Verify: off (Ctrl+K)"@) by {
        reveal_strlit(" (Ctrl+K)");
        reveal_strlit("    Verify: ");
    }
    assert("    Mode: "@ + "Queued"@ + " (Ctrl+J)"@ =~= "    Mode: Queued (Ctrl+J)"@) by {
        reveal_strlit("    Mode: ");
    }
    assert("    Mode: "@ + "Run now"@ + " (Ctrl+J)"@ =~= "    Mode: Run now (Ctrl+J)"@) by {
        reveal_strlit("    Mode: ");
    }
    let p = policy_text(policy);
    let v = if verify {
        "on"@
    } else {
        "off"@
    };
    let q = if queued {
        "Queued"@
    } else {
        "Run now"@
    };
    assert(options_text(policy, verify, queued) =~= ("Conflict: "@ + p + " (Ctrl+1/2/3)"@) + (
    "    Verify: "@ + v + " (Ctrl+K)"@) + ("    Mode: "@ + q + " (Ctrl+J)"@));
}

/// A destination that is refused is named in the refusal.
pub proof fn lemma_refusal_names_the_destination(text: Seq<char>)
    ensures
        (seq!['\u{201c}'] + text + seq!['\u{201d}']).is_prefix_of(destination_refusal(text)),
{
    reveal_strlit("\u{201c}");
    reveal_strlit("\u{201d} isn't a valid destination path.");
    let head = seq!['\u{201c}'] + text + seq!['\u{201d}'];
    assert(destination_refusal(text).take(head.len() as int) =~= head);
}

} // verus!
