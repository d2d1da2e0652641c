//! What the dialogs share when they hand a plan to the operation queue: the
//! job they queue, the notices they raise and what becomes of a planning run.

use crate::copy_move_dialog::JOB_CONCURRENCY;
use crate::jobs::JobKind;
use vstd::prelude::*;

verus! {

/// How serious a notice is.
#[derive(Clone, Copy, Debug, PartialEq, Eq, Structural)]
pub enum NoticeLevel {
    Warning,
    Error,
}

/// A message for the user.
#[derive(Debug, PartialEq, Eq)]
pub struct Notice {
    pub level: NoticeLevel,
    pub message: String,
}

/// How a dialog's plan goes into the queue.
#[derive(Clone, Copy, Debug, PartialEq, Eq, Structural)]
pub struct DialogJob {
    pub kind: JobKind,
    /// Nought runs at once.
    pub priority: u8,
    /// How many steps run side by side.
    pub concurrency: usize,
    /// Whether the user is asked about a destination that is taken.
    pub asks: bool,
}

/// A job that runs at once.
pub open spec fn immediate_job(kind: JobKind, asks: bool) -> DialogJob {
    DialogJob { kind, priority: 0, concurrency: JOB_CONCURRENCY, asks }
}

/// The job of a dialog that offers no choice between now and later.
pub fn run_now(kind: JobKind, asks: bool) -> (job: DialogJob)
    ensures
        job == immediate_job(kind, asks),
{
    DialogJob { kind, priority: 0, concurrency: JOB_CONCURRENCY, asks }
}

/// How a planning run ended.
#[derive(Debug, PartialEq, Eq)]
pub enum PlanOutcome {
    /// The plan was made and its job stands in the queue.
    Enqueued(u64),
    /// No plan could be made.
    Failed(String),
    /// The run was dropped before it came to an end.
    Dropped,
}

/// The refusal of a dialog that has nowhere to keep a job's journal.
pub open spec fn no_state_dir_text() -> Seq<char> {
    "Can't run the operation: no writable state directory found (is $HOME/$XDG_STATE_HOME set?)."@
}

pub fn no_state_dir(level: NoticeLevel) -> (notice: Notice)
    ensures
        notice.level == level,
        notice.message@ == no_state_dir_text(),
{
    Notice {
        level,
        message:
            "Can't run the operation: no writable state directory found (is $HOME/$XDG_STATE_HOME set?).".to_owned(),
    }
}

/// What the user is told of a planning run; nothing where it succeeded.
pub open spec fn outcome_text(outcome: PlanOutcome) -> Option<Seq<char>> {
    match outcome {
        PlanOutcome::Enqueued(_) => None,
        PlanOutcome::Failed(message) => Some("Couldn't plan the operation: "@ + message@),
        PlanOutcome::Dropped => Some("The planning task was dropped before completing."@),
    }
}

/// Whether a planning run put its job into the queue; where it did not, the
/// notice that says so. A dialog closes exactly where it did.
pub fn report_job_outcome(outcome: &PlanOutcome) -> (r: (bool, Option<Notice>))
    ensures
        r.0 == (outcome is Enqueued),
        match r.1 {
            Some(notice) => outcome_text(*outcome) == Some(notice.message@) && notice.level
                == NoticeLevel::Error,
            None => outcome_text(*outcome) is None,
        },
{
    match outcome {
        PlanOutcome::Enqueued(_) => (true, None),
        PlanOutcome::Failed(text) => {
            let mut message = "Couldn't plan the operation: ".to_owned();
            message.append(text.as_str());
            (false, Some(Notice { level: NoticeLevel::Error, message }))
        },
        PlanOutcome::Dropped => (
            false,
            Some(
                Notice {
                    level: NoticeLevel::Error,
                    message: "The planning task was dropped before completing.".to_owned(),
                },
            ),
        ),
    }
}

/// A dialog closes exactly on the outcomes that raise no notice.
pub proof fn lemma_closes_or_tells(outcome: PlanOutcome)
    ensures
        (outcome is Enqueued) <==> outcome_text(outcome) is None,
{
}

/// A dialog's job is of the sort it is asked for, goes before every job that
/// waits, and runs as many steps side by side as any other.
pub proof fn lemma_dialog_jobs_run_at_once(a: JobKind, b: JobKind, asks: bool)
    ensures
        immediate_job(a, asks).kind == a,
        immediate_job(a, asks).asks == asks,
        immediate_job(a, asks).priority == 0,
        immediate_job(a, asks).concurrency == JOB_CONCURRENCY,
        immediate_job(a, asks) == immediate_job(b, asks) <==> a == b,
{
}

/// What a failed run said is what the user is told, behind what failed.
pub proof fn lemma_failure_is_passed_on(message: String)
    ensures
        outcome_text(PlanOutcome::Failed(message)) is Some,
        message@.is_suffix_of(outcome_text(PlanOutcome::Failed(message))->0),
        outcome_text(PlanOutcome::Dropped) is Some,
{
    let text = outcome_text(PlanOutcome::Failed(message))->0;
    assert(text.skip(text.len() - message@.len()) =~= message@);
}

} // verus!
