//! The delete confirmation: trash or permanent, and the warning about
//! directories that are not empty.

use crate::copy_move_dialog::JOB_CONCURRENCY;
use crate::dialog_job::{
    immediate_job, no_state_dir, no_state_dir_text, outcome_text, report_job_outcome, run_now,
    DialogJob, Notice, NoticeLevel, PlanOutcome,
};
use crate::jobs::{plural, plural_text, JobKind};
use crate::text::{decimal, push_decimal, same_text, texts_of};
use crate::vpath::{copy_paths, VPath};
use vstd::prelude::*;

verus! {

#[derive(Debug, PartialEq, Eq)]
pub struct DeleteDialogState {
    pub targets: Vec<VPath>,
    /// Whether contents are removed, not moved to the trash.
    pub permanent: bool,
    /// Whether the trash is not offered.
    pub permanent_forced: bool,
    pub non_empty_dir_names: Vec<String>,
    pub planning_in_progress: bool,
    pub state_dir: Option<String>,
}

/// What Enter leads to.
#[derive(Debug, PartialEq, Eq)]
pub enum DeleteAnswer {
    Busy,
    Refused(Notice),
    /// A plan is to be made that deletes the targets.
    Plan { targets: Vec<VPath>, permanent: bool, concurrency: usize },
}

/// How the targets are deleted.
#[derive(Debug, PartialEq, Eq)]
pub enum DeleteMode {
    Permanent,
    Trash { trash_dir: VPath },
}

/// A step of reading a directory.
#[derive(Clone, Copy, Debug, PartialEq, Eq, Structural)]
pub enum DirectoryRead {
    /// So many further entries were read.
    Entries(usize),
    Failed,
    End,
}

/// What a key does in the dialog.
#[derive(Clone, Copy, Debug, PartialEq, Eq, Structural)]
pub enum DeleteAction {
    ToggleTrashPermanent,
    Confirm,
    Cancel,
}

/// The keys that the dialog is bound to: the action that a keystroke stands
/// for.
pub fn bind_delete_dialog_keys(keys: &str) -> (action: Option<DeleteAction>)
    ensures
        action == (if keys@ == "ctrl-t"@ {
            Some(DeleteAction::ToggleTrashPermanent)
        } else if keys@ == "enter"@ {
            Some(DeleteAction::Confirm)
        } else if keys@ == "escape"@ {
            Some(DeleteAction::Cancel)
        } else {
            None
        }),
{
    if same_text(keys, "ctrl-t") {
        Some(DeleteAction::ToggleTrashPermanent)
    } else if same_text(keys, "enter") {
        Some(DeleteAction::Confirm)
    } else if same_text(keys, "escape") {
        Some(DeleteAction::Cancel)
    } else {
        None
    }
}

/// The dialog's headline.
pub open spec fn title_text(count: nat, permanent: bool) -> Seq<char> {
    if permanent {
        "Delete "@ + decimal(count) + " item"@ + plural_text(count) + " permanently?"@
    } else {
        "Move "@ + decimal(count) + " item"@ + plural_text(count) + " to trash?"@
    }
}

pub fn delete_title(count: usize, permanent: bool) -> (text: String)
    ensures
        text@ == title_text(count as nat, permanent),
{
    let mut text = if permanent {
        "Delete ".to_owned()
    } else {
        "Move ".to_owned()
    };
    push_decimal(&mut text, count as u64);
    text.append(" item");
    text.append(plural(count));
    if permanent {
        text.append(" permanently?");
    } else {
        text.append(" to trash?");
    }
    text
}

/// Names with `, ` between them.
pub open spec fn listed(names: Seq<String>) -> Seq<char>
    decreases names.len(),
{
    if names.len() == 0 {
        Seq::empty()
    } else if names.len() == 1 {
        names[0]@
    } else {
        listed(names.drop_last()) + ", "@ + names.last()@
    }
}

/// The warning about directories that are not empty.
pub open spec fn warning(names: Seq<String>) -> Option<Seq<char>> {
    if names.len() == 0 {
        None
    } else if names.len() == 1 {
        Some(
            "Warning: \u{201c}"@ + names[0]@
                + "\u{201d} is not empty \u{2014} its whole contents go too."@,
        )
    } else {
        Some(
            "Warning: "@ + decimal(names.len()) + " of the selected directories are not empty ("@
                + listed(names) + ") \u{2014} their whole contents go too."@,
        )
    }
}

fn join_names(names: &Vec<String>) -> (text: String)
    ensures
        text@ == listed(names@),
{
    let mut text = String::new();
    let mut i: usize = 0;
    assert(text@ =~= listed(names@.take(0)));
    while i < names.len()
        invariant
            i <= names@.len(),
            text@ == listed(names@.take(i as int)),
        decreases names@.len() - i,
    {
        let ghost now = names@.take(i + 1);
        assert(now.drop_last() =~= names@.take(i as int));
        assert(now.last() == names@[i as int]);
        if i > 0 {
            text.append(", ");
        }
        text.append(names[i].as_str());
        if i == 0 {
            assert(text@ =~= names@[0]@);
        }
        i = i + 1;
    }
    assert(names@.take(i as int) =~= names@);
    text
}

pub fn non_empty_warning(names: &Vec<String>) -> (text: Option<String>)
    ensures
        match text {
            Some(t) => warning(names@) == Some(t@),
            None => warning(names@) is None,
        },
{
    if names.len() == 0 {
        None
    } else if names.len() == 1 {
        let mut text = "Warning: \u{201c}".to_owned();
        text.append(names[0].as_str());
        text.append("\u{201d} is not empty \u{2014} its whole contents go too.");
        Some(text)
    } else {
        let mut text = "Warning: ".to_owned();
        push_decimal(&mut text, names.len() as u64);
        text.append(" of the selected directories are not empty (");
        text.append(join_names(names).as_str());
        text.append(") \u{2014} their whole contents go too.");
        Some(text)
    }
}

/// What a step of reading a directory says of whether it holds anything;
/// `None` where reading goes on. A directory that cannot be read is not
/// warned about.
pub fn non_empty_verdict(read: DirectoryRead) -> (verdict: Option<bool>)
    ensures
        verdict == (match read {
            DirectoryRead::Entries(n) => if n > 0 {
                Some(true)
            } else {
                None
            },
            DirectoryRead::Failed => Some(false),
            DirectoryRead::End => Some(false),
        }),
{
    match read {
        DirectoryRead::Entries(n) => if n > 0 {
            Some(true)
        } else {
            None
        },
        DirectoryRead::Failed => Some(false),
        DirectoryRead::End => Some(false),
    }
}

/// The names whose verdict is that they hold something.
pub open spec fn kept_names(names: Seq<String>, verdicts: Seq<bool>) -> Seq<Seq<char>>
    decreases names.len(),
{
    if names.len() == 0 {
        Seq::empty()
    } else {
        let before = kept_names(names.drop_last(), verdicts);
        if verdicts[names.len() - 1] {
            before.push(names.last()@)
        } else {
            before
        }
    }
}

/// The names of the directories that hold something, in their order.
pub fn non_empty_directory_names(names: &Vec<String>, verdicts: &Vec<bool>) -> (found: Vec<String>)
    requires
        verdicts@.len() == names@.len(),
    ensures
        texts_of(found@) == kept_names(names@, verdicts@),
{
    let mut found: Vec<String> = Vec::new();
    let mut i: usize = 0;
    assert(texts_of(found@) =~= kept_names(names@.take(0), verdicts@));
    while i < names.len()
        invariant
            i <= names@.len(),
            verdicts@.len() == names@.len(),
            texts_of(found@) == kept_names(names@.take(i as int), verdicts@),
        decreases names@.len() - i,
    {
        let ghost now = names@.take(i + 1);
        let ghost before = found@;
        assert(now.drop_last() =~= names@.take(i as int));
        assert(now.last() == names@[i as int]);
        if verdicts[i] {
            found.push(names[i].clone());
            assert(texts_of(found@) =~= texts_of(
                before,
            ).push(names@[i as int]@));
        }
        i = i + 1;
    }
    assert(names@.take(i as int) =~= names@);
    found
}

/// How the targets are deleted. The trash directory is where the file system
/// layer found or made it, or why it could not.
pub fn resolve_delete_mode(permanent: bool, trash_dir: Result<VPath, String>) -> (mode: Result<
    DeleteMode,
    String,
>)
    ensures
        mode == (if permanent {
            Ok(DeleteMode::Permanent)
        } else {
            match trash_dir {
                Ok(dir) => Ok(DeleteMode::Trash { trash_dir: dir }),
                Err(message) => Err(message),
            }
        }),
{
    if permanent {
        return Ok(DeleteMode::Permanent);
    }
    match trash_dir {
        Ok(dir) => Ok(DeleteMode::Trash { trash_dir: dir }),
        Err(message) => Err(message),
    }
}

impl DeleteDialogState {
    pub fn new(
        targets: Vec<VPath>,
        permanent: bool,
        permanent_forced: bool,
        non_empty_dir_names: Vec<String>,
        state_dir: Option<String>,
    ) -> (state: Self)
        ensures
            state == (DeleteDialogState {
                targets,
                permanent,
                permanent_forced,
                non_empty_dir_names,
                planning_in_progress: false,
                state_dir,
            }),
    {
        DeleteDialogState {
            targets,
            permanent,
            permanent_forced,
            non_empty_dir_names,
            planning_in_progress: false,
            state_dir,
        }
    }

    /// Switches between trash and permanent, unless the trash is not offered.
    pub fn toggle_trash_permanent(&mut self)
        ensures
            *final(self) == (if old(self).permanent_forced {
                *old(self)
            } else {
                DeleteDialogState { permanent: !old(self).permanent, ..*old(self) }
            }),
    {
        if self.permanent_forced {
            return;
        }
        self.permanent = !self.permanent;
    }

    /// Enter.
    pub fn confirm(&mut self) -> (answer: DeleteAnswer)
        ensures
            match answer {
                DeleteAnswer::Busy => old(self).planning_in_progress && *final(self) == *old(self),
                DeleteAnswer::Refused(notice) => !old(self).planning_in_progress && old(self).state_dir is None && notice.level == NoticeLevel::Error && notice.message@
                    == no_state_dir_text() && *final(self) == *old(self),
                DeleteAnswer::Plan { targets, permanent, concurrency } => !old(self).planning_in_progress
                    && old(self).state_dir is Some && targets@ == old(self).targets@ && permanent == old(self).permanent
                    && concurrency == JOB_CONCURRENCY && *final(self) == (DeleteDialogState {
                    planning_in_progress: true,
                    ..*old(self)
                }),
            },
    {
        if self.planning_in_progress {
            return DeleteAnswer::Busy;
        }
        if self.state_dir.is_none() {
            return DeleteAnswer::Refused(no_state_dir(NoticeLevel::Error));
        }
        self.planning_in_progress = true;
        DeleteAnswer::Plan {
            targets: copy_paths(&self.targets),
            permanent: self.permanent,
            concurrency: JOB_CONCURRENCY,
        }
    }

    /// The job that the plan is queued as. A delete has no destination to ask about.
    pub fn job(&self) -> (job: DialogJob)
        ensures
            job == immediate_job(JobKind::Delete { permanent: self.permanent }, false),
    {
        run_now(JobKind::Delete { permanent: self.permanent }, false)
    }

    /// The planning run came to its end. Returns whether the dialog closes,
    /// and the notice that is raised where it does not.
    pub fn planning_ended(&mut self, outcome: &PlanOutcome) -> (r: (bool, Option<Notice>))
        ensures
            *final(self) == (DeleteDialogState { planning_in_progress: false, ..*old(self) }),
            r.0 == (outcome is Enqueued),
            match r.1 {
                Some(notice) => outcome_text(*outcome) == Some(notice.message@) && notice.level
                    == NoticeLevel::Error,
                None => outcome_text(*outcome) is None,
            },
    {
        self.planning_in_progress = false;
        report_job_outcome(outcome)
    }

    /// The dialog's headline.
    pub fn title(&self) -> (text: String)
        ensures
            text@ == title_text(self.targets@.len(), self.permanent),
    {
        delete_title(self.targets.len(), self.permanent)
    }

    /// The line that says how the targets are deleted.
    pub fn mode_line(&self) -> (text: String)
        ensures
            text@ == mode_text(self.permanent, self.permanent_forced),
    {
        if self.permanent_forced {
            "Permanent delete (Shift+Del) \u{2014} the trash is bypassed.".to_owned()
        } else {
            let mut text = "Mode: ".to_owned();
            if self.permanent {
                text.append("Permanent");
            } else {
                text.append("Trash");
            }
            text.append(" \u{2014} Trash / Permanent (Ctrl+T)");
            text
        }
    }

    /// The dialog as it is shown.
    pub fn render(&self) -> (view: DeleteView)
        ensures
            view.title@ == title_text(self.targets@.len(), self.permanent),
            view.mode@ == mode_text(self.permanent, self.permanent_forced),
            match view.warning {
                Some(text) => warning(self.non_empty_dir_names@) == Some(text@),
                None => warning(self.non_empty_dir_names@) is None,
            },
            view.hint@ == "Enter to confirm, Esc to cancel"@,
    {
        DeleteView {
            title: self.title(),
            mode: self.mode_line(),
            warning: non_empty_warning(&self.non_empty_dir_names),
            hint: "Enter to confirm, Esc to cancel",
        }
    }
}

/// The dialog as it is shown.
#[derive(Debug, PartialEq, Eq)]
pub struct DeleteView {
    pub title: String,
    pub mode: String,
    /// What is lost with directories that are not empty.
    pub warning: Option<String>,
    pub hint: &'static str,
}

/// The line that says how the targets are deleted.
pub open spec fn mode_text(permanent: bool, forced: bool) -> Seq<char> {
    if forced {
        "Permanent delete (Shift+Del) \u{2014} the trash is bypassed."@
    } else {
        "Mode: "@ + (if permanent {
            "Permanent"@
        } else {
            "Trash"@
        }) + " \u{2014} Trash / Permanent (Ctrl+T)"@
    }
}

/// The headline says how many entries go, and whether they go for good.
pub proof fn lemma_delete_headline(count: nat, permanent: bool)
    ensures
        permanent ==> ("Delete "@ + decimal(count) + " item"@).is_prefix_of(
            title_text(count, permanent),
        ) && " permanently?"@.is_suffix_of(title_text(count, permanent)),
        !permanent ==> ("Move "@ + decimal(count) + " item"@).is_prefix_of(
            title_text(count, permanent),
        ) && " to trash?"@.is_suffix_of(title_text(count, permanent)),
        title_text(count, permanent).len() == title_text(1, permanent).len() + decimal(count).len()
            - 1 + (if count == 1 {
            0int
        } else {
            1
        }),
{
    reveal_strlit("");
    reveal_strlit("s");
    reveal_with_fuel(decimal, 2);
    let text = title_text(count, permanent);
    let head = (if permanent {
        "Delete "@
    } else {
        "Move "@
    }) + decimal(count) + " item"@;
    let tail = if permanent {
        " permanently?"@
    } else {
        " to trash?"@
    };
    assert(text.take(head.len() as int) =~= head);
    assert(text.skip(text.len() - tail.len()) =~= tail);
}

/// The line of the mode names the mode that is set; where the trash is not
/// offered, it says so and offers no switch.
pub proof fn lemma_mode_line(permanent: bool, forced: bool)
    ensures
        forced ==> "Permanent delete"@.is_prefix_of(mode_text(permanent, forced)),
        !forced && permanent ==> "Mode: Permanent "@.is_prefix_of(mode_text(permanent, forced)),
        !forced && !permanent ==> "Mode: Trash "@.is_prefix_of(mode_text(permanent, forced)),
        !forced ==> "Trash / Permanent (Ctrl+T)"@.is_suffix_of(mode_text(permanent, forced)),
{
    reveal_strlit("Permanent delete");
    reveal_strlit("Permanent delete (Shift+Del) \u{2014} the trash is bypassed.");
    reveal_strlit("Mode: Permanent ");
    reveal_strlit("Mode: Trash ");
    reveal_strlit("Mode: ");
    reveal_strlit("Permanent");
    reveal_strlit("Trash");
    reveal_strlit(" \u{2014} Trash / Permanent (Ctrl+T)");
    reveal_strlit("Trash / Permanent (Ctrl+T)");
    let text = mode_text(permanent, forced);
    if forced {
        assert(text.take("Permanent delete"@.len() as int) =~= "Permanent delete"@);
    } else {
        let head = if permanent {
            "Mode: Permanent "@
        } else {
            "Mode: Trash "@
        };
        assert(text.take(head.len() as int) =~= head);
        let tail = "Trash / Permanent (Ctrl+T)"@;
        assert(text.skip(text.len() - tail.len()) =~= tail);
    }
}

proof fn lemma_listed_names(names: Seq<String>, i: int) -> (at: int)
    requires
        0 <= i < names.len(),
    ensures
        0 <= at,
        at + names[i]@.len() <= listed(names).len(),
        listed(names).subrange(at, at + names[i]@.len()) == names[i]@,
    decreases names.len(),
{
    if names.len() == 1 {
        assert(names[0]@.subrange(0, names[0]@.len() as int) =~= names[0]@);
        0
    } else if i == names.len() - 1 {
        let at = listed(names.drop_last()).len() + ", "@.len() as int;
        assert(listed(names).subrange(at, at + names[i]@.len()) =~= names[i]@);
        at
    } else {
        let rest = names.drop_last();
        let at = lemma_listed_names(rest, i);
        assert(listed(names).subrange(at, at + names[i]@.len()) =~= listed(rest).subrange(
            at,
            at + names[i]@.len(),
        ));
        at
    }
}

/// There is a warning exactly where a directory is not empty. It names every
/// one of them and, where there are several, says how many.
pub proof fn lemma_warning_names_every_directory(names: Seq<String>, i: int)
    requires
        0 <= i < names.len(),
    ensures
        warning(Seq::empty()) is None,
        warning(names) is Some,
        exists|at: int|
            0 <= at && at + names[i]@.len() <= warning(names)->0.len()
                && #[trigger] warning(names)->0.subrange(at, at + names[i]@.len()) == names[i]@,
        names.len() > 1 ==> ("Warning: "@ + decimal(names.len())).is_prefix_of(warning(names)->0),
{
    let text = warning(names)->0;
    if names.len() == 1 {
        let at = "Warning: \u{201c}"@.len() as int;
        assert(text.subrange(at, at + names[i]@.len()) =~= names[i]@);
    } else {
        let inner = lemma_listed_names(names, i);
        let head = "Warning: "@ + decimal(names.len())
            + " of the selected directories are not empty ("@;
        let at = head.len() + inner;
        assert(text.subrange(at, at + names[i]@.len()) =~= listed(names).subrange(
            inner,
            inner + names[i]@.len(),
        ));
        let begin = "Warning: "@ + decimal(names.len());
        assert(text.take(begin.len() as int) =~= begin);
    }
}

/// Names are listed in their order, with a comma and a space between each two.
pub proof fn lemma_listed_in_order(names: Seq<String>, last: String)
    ensures
        names.len() > 0 ==> listed(names.push(last)) == listed(names) + seq![',', ' '] + last@,
        listed(seq![last]) == last@,
{
    reveal_strlit(", ");
    assert(", "@ =~= seq![',', ' ']);
    assert(names.push(last).drop_last() =~= names);
}

/// The directories that hold something are kept, the others are not, in their
/// order.
pub proof fn lemma_kept_directories(names: Seq<String>, verdicts: Seq<bool>)
    requires
        verdicts.len() == names.len(),
    ensures
        kept_names(names, verdicts) == Seq::new(names.len(), |i: int| i).filter(
            |i: int| verdicts[i],
        ).map_values(|i: int| names[i]@),
{
    assert(names.take(names.len() as int) =~= names);
    lemma_kept_by_fewer(names, verdicts, names);
}

proof fn lemma_kept_by_fewer(rest: Seq<String>, verdicts: Seq<bool>, names: Seq<String>)
    requires
        rest.len() <= names.len() == verdicts.len(),
        rest == names.take(rest.len() as int),
    ensures
        kept_names(rest, verdicts) == Seq::new(rest.len(), |i: int| i).filter(
            |i: int| verdicts[i],
        ).map_values(|i: int| names[i]@),
    decreases rest.len(),
{
    reveal(Seq::filter);
    let all = Seq::new(rest.len(), |i: int| i);
    let keep = |i: int| verdicts[i];
    let name = |i: int| names[i]@;
    if rest.len() == 0 {
        assert(kept_names(rest, verdicts) =~= all.filter(keep).map_values(name));
    } else {
        let fewer = rest.drop_last();
        assert(fewer =~= names.take(fewer.len() as int));
        lemma_kept_by_fewer(fewer, verdicts, names);
        assert(all.drop_last() =~= Seq::new(fewer.len(), |i: int| i));
        assert(rest.last() == names[rest.len() - 1]);
        assert(kept_names(rest, verdicts) =~= all.filter(keep).map_values(name));
    }
}

} // verus!
