//! The dialog that creates a directory, nested ones in one go.

use crate::dialog_job::{
    immediate_job, no_state_dir, no_state_dir_text, outcome_text, report_job_outcome, run_now,
    DialogJob, Notice, NoticeLevel, PlanOutcome,
};
use crate::jobs::JobKind;
use crate::vpath::VPath;
use vstd::prelude::*;

verus! {

#[derive(Debug, PartialEq, Eq)]
pub struct MkdirDialogState {
    /// The field's text.
    pub destination: String,
    pub planning_in_progress: bool,
    pub state_dir: Option<String>,
}

/// What Enter leads to.
#[derive(Debug, PartialEq, Eq)]
pub enum MkdirAnswer {
    Busy,
    Refused(Notice),
    /// A plan is to be made that creates the directory.
    Plan(VPath),
}

pub open spec fn directory_refusal(text: Seq<char>) -> Seq<char> {
    "\u{201c}"@ + text + "\u{201d} isn't a valid directory path."@
}

impl MkdirDialogState {
    pub fn new(initial_destination: String, state_dir: Option<String>) -> (state: Self)
        ensures
            state == (MkdirDialogState {
                destination: initial_destination,
                planning_in_progress: false,
                state_dir,
            }),
    {
        MkdirDialogState {
            destination: initial_destination,
            planning_in_progress: false,
            state_dir,
        }
    }

    /// Enter, with the path of the field's text where that is one.
    pub fn confirm(&mut self, dest: Option<VPath>) -> (answer: MkdirAnswer)
        ensures
            match answer {
                MkdirAnswer::Busy => old(self).planning_in_progress && *final(self) == *old(self),
                MkdirAnswer::Refused(notice) => {
                    &&& !old(self).planning_in_progress
                    &&& notice.level == NoticeLevel::Error
                    &&& *final(self) == *old(self)
                    &&& if dest is None {
                        notice.message@ == directory_refusal(old(self).destination@)
                    } else {
                        old(self).state_dir is None && notice.message@ == no_state_dir_text()
                    }
                },
                MkdirAnswer::Plan(path) => !old(self).planning_in_progress && dest == Some(path)
                    && old(self).state_dir is Some && *final(self) == (MkdirDialogState {
                    planning_in_progress: true,
                    ..*old(self)
                }),
            },
    {
        if self.planning_in_progress {
            return MkdirAnswer::Busy;
        }
        let dest = match dest {
            Some(dest) => dest,
            None => {
                let mut message = "\u{201c}".to_owned();
                message.append(self.destination.as_str());
                message.append("\u{201d} isn't a valid directory path.");
                return MkdirAnswer::Refused(Notice { level: NoticeLevel::Error, message });
            },
        };
        if self.state_dir.is_none() {
            return MkdirAnswer::Refused(no_state_dir(NoticeLevel::Error));
        }
        self.planning_in_progress = true;
        MkdirAnswer::Plan(dest)
    }

    /// The job that the plan is queued as.
    pub fn job(&self) -> (job: DialogJob)
        ensures
            job == immediate_job(JobKind::CreateDir, true),
    {
        run_now(JobKind::CreateDir, true)
    }

    /// The planning run came to its end. Returns whether the dialog closes,
    /// and the notice that is raised where it does not.
    pub fn planning_ended(&mut self, outcome: &PlanOutcome) -> (r: (bool, Option<Notice>))
        ensures
            *final(self) == (MkdirDialogState { planning_in_progress: false, ..*old(self) }),
            r.0 == (outcome is Enqueued),
            match r.1 {
                Some(notice) => outcome_text(*outcome) == Some(notice.message@) && notice.level
                    == NoticeLevel::Error,
                None => outcome_text(*outcome) is None,
            },
    {
        self.planning_in_progress = false;
        report_job_outcome(outcome)
    }

    /// The dialog as it is shown.
    pub fn render(&self) -> (view: MkdirView)
        ensures
            view.title@ == "Create directory:"@,
            view.destination == self.destination,
            view.hint@
                == "Nested paths (a/b/c) are created in one go. Enter to confirm, Esc to cancel."@,
    {
        MkdirView {
            title: "Create directory:",
            destination: self.destination.clone(),
            hint: "Nested paths (a/b/c) are created in one go. Enter to confirm, Esc to cancel.",
        }
    }
}

/// The dialog as it is shown.
#[derive(Debug, PartialEq, Eq)]
pub struct MkdirView {
    pub title: &'static str,
    pub destination: String,
    pub hint: &'static str,
}

/// A path that is refused is named in the refusal.
pub proof fn lemma_refusal_names_the_directory(text: Seq<char>)
    ensures
        (seq!['\u{201c}'] + text + seq!['\u{201d}']).is_prefix_of(directory_refusal(text)),
{
    reveal_strlit("\u{201c}");
    reveal_strlit("\u{201d} isn't a valid directory path.");
    let head = seq!['\u{201c}'] + text + seq!['\u{201d}'];
    assert(directory_refusal(text).take(head.len() as int) =~= head);
}

} // verus!
