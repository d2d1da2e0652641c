//! The operation manager: the queue's jobs in display order, what each row
//! says, and the tray's one line.

use crate::job_report_dialog::JobReport;
use crate::jobs::{plural, plural_text, JobKind};
use crate::sizes::{byte_count_text, write_byte_count};
use crate::text::{
    all_digits, decimal, lemma_decimal_reads_back, lemma_padded_reads_back, number, padded,
    push_decimal, push_padded, same_text,
};
use std::collections::HashMap;
use vstd::prelude::*;

verus! {

broadcast use {vstd::std_specs::hash::group_hash_axioms, vstd::seq_lib::group_to_multiset_ensures};

/// How a job ended.
#[derive(Clone, Copy, Debug, PartialEq, Eq, Structural)]
pub enum JobOutcome {
    Completed,
    CompletedWithSkips,
    Cancelled,
    Failed,
}

/// How far a job is.
#[derive(Debug, PartialEq, Eq)]
pub enum JobState {
    Queued,
    Planning,
    Running { current_step: u32 },
    Paused { current_step: u32 },
    Terminal { outcome: JobOutcome, report: JobReport },
}

impl JobState {
    pub open spec fn terminal(self) -> bool {
        self is Terminal
    }

    /// Whether the job has come to its end.
    pub fn is_terminal(&self) -> (t: bool)
        ensures
            t == self.terminal(),
    {
        match self {
            JobState::Terminal { .. } => true,
            _ => false,
        }
    }

    /// Whether the job has still to come to its end.
    pub fn is_active(&self) -> (a: bool)
        ensures
            a == !self.terminal(),
    {
        !self.is_terminal()
    }
}

/// A job of the queue.
#[derive(Debug, PartialEq, Eq)]
pub struct Job {
    /// Numbers rise as jobs are put into the queue.
    pub id: u64,
    pub kind: JobKind,
    pub total_files: u64,
    pub total_bytes: u64,
    pub state: JobState,
}

/// A sample of how far a running job is.
#[derive(Clone, Copy, Debug, PartialEq, Eq, Structural)]
pub struct ProgressSnapshot {
    pub files_done: u64,
    pub bytes_done: u64,
    pub throughput_bytes_per_sec: u64,
    pub eta_secs: Option<u64>,
}

/// Whether `a` may stand before `b`: jobs that have still to end first, and
/// among equals the younger first.
pub open spec fn may_precede(a: Job, b: Job) -> bool {
    if a.state.terminal() == b.state.terminal() {
        a.id >= b.id
    } else {
        !a.state.terminal()
    }
}

/// Whether `jobs` stand in display order.
pub open spec fn in_display_order(jobs: Seq<Job>) -> bool {
    forall|i: int, j: int|
        0 <= i < j < jobs.len() ==> may_precede(#[trigger] jobs[i], #[trigger] jobs[j])
}

fn goes_before(a: &Job, b: &Job) -> (p: bool)
    ensures
        p == may_precede(*a, *b),
{
    if a.state.is_terminal() == b.state.is_terminal() {
        a.id >= b.id
    } else {
        !a.state.is_terminal()
    }
}

/// The jobs in display order.
pub fn sorted_jobs(jobs: Vec<Job>) -> (sorted: Vec<Job>)
    ensures
        in_display_order(sorted@),
        sorted@.to_multiset() == jobs@.to_multiset(),
{
    let ghost all = jobs@.to_multiset();
    let mut rest = jobs;
    let mut sorted: Vec<Job> = Vec::new();
    proof {
        assert(sorted@.to_multiset() =~= vstd::multiset::Multiset::empty());
        assert(all =~= rest@.to_multiset().add(sorted@.to_multiset()));
    }
    while rest.len() > 0
        invariant
            in_display_order(sorted@),
            all == rest@.to_multiset().add(sorted@.to_multiset()),
        decreases rest@.len(),
    {
        let ghost rest_before = rest@;
        let ghost before = sorted@;
        let job = rest.remove(0);
        proof {
            assert(rest_before.to_multiset() =~= rest@.to_multiset().insert(job)) by {
                assert(rest_before =~= seq![job] + rest@);
                assert(rest_before.remove(0) =~= rest@);
                vstd::seq_lib::to_multiset_remove(rest_before, 0);
                assert(rest_before.contains(rest_before[0]));
            }
        }
        let mut at: usize = 0;
        while at < sorted.len() && goes_before(&sorted[at], &job)
            invariant
                sorted@ == before,
                at <= before.len(),
                forall|i: int| 0 <= i < at ==> may_precede(#[trigger] before[i], job),
            decreases before.len() - at,
        {
            at = at + 1;
        }
        proof {
            let after = before.insert(at as int, job);
            assert forall|i: int, j: int| 0 <= i < j < after.len() implies may_precede(
                #[trigger] after[i],
                #[trigger] after[j],
            ) by {
                if i < at && j < at {
                    assert(may_precede(before[i], before[j]));
                } else if i < at && j == at {
                } else if i < at {
                    assert(may_precede(before[i], before[j - 1]));
                } else if i == at {
                    assert(!may_precede(before[at as int], job));
                    if j - 1 > at {
                        assert(may_precede(before[at as int], before[j - 1]));
                    }
                } else {
                    assert(may_precede(before[i - 1], before[j - 1]));
                }
            }
            vstd::seq_lib::to_multiset_insert(before, at as int, job);
        }
        sorted.insert(at, job);
        assert(all =~= rest@.to_multiset().add(sorted@.to_multiset()));
    }
    assert(rest@.to_multiset() =~= vstd::multiset::Multiset::empty());
    assert(all =~= sorted@.to_multiset());
    sorted
}

/// Jobs with different numbers have one display order.
pub proof fn lemma_display_order_is_unique(a: Seq<Job>, b: Seq<Job>)
    requires
        in_display_order(a),
        in_display_order(b),
        a.to_multiset() == b.to_multiset(),
        forall|i: int, j: int| 0 <= i < j < a.len() ==> (#[trigger] a[i]).id != (#[trigger] a[j]).id,
    ensures
        a == b,
    decreases a.len(),
{
    a.to_multiset_ensures();
    b.to_multiset_ensures();
    assert(a.len() == b.len());
    if a.len() > 0 {
        let x = a[0];
        let y = b[0];
        assert(b.to_multiset().contains(y));
        assert(a.contains(y));
        let k = choose|k: int| 0 <= k < a.len() && a[k] == y;
        assert(a.to_multiset().contains(x)) by {
            assert(a.contains(x));
        }
        assert(b.contains(x));
        let l = choose|l: int| 0 <= l < b.len() && b[l] == x;
        if k > 0 {
            assert(may_precede(a[0], a[k]));
            assert(a[0].id != a[k].id);
            if l > 0 {
                assert(may_precede(b[0], b[l]));
            }
        }
        assert(x == y);
        let ra = a.drop_first();
        let rb = b.drop_first();
        assert(ra =~= a.remove(0));
        assert(rb =~= b.remove(0));
        vstd::seq_lib::to_multiset_remove(a, 0);
        vstd::seq_lib::to_multiset_remove(b, 0);
        assert forall|i: int, j: int| 0 <= i < j < ra.len() implies (#[trigger] ra[i]).id != (
        #[trigger] ra[j]).id by {
            assert(a[i + 1].id != a[j + 1].id);
        }
        assert(in_display_order(ra)) by {
            assert forall|i: int, j: int| 0 <= i < j < ra.len() implies may_precede(
                #[trigger] ra[i],
                #[trigger] ra[j],
            ) by {
                assert(may_precede(a[i + 1], a[j + 1]));
            }
        }
        assert(in_display_order(rb)) by {
            assert forall|i: int, j: int| 0 <= i < j < rb.len() implies may_precede(
                #[trigger] rb[i],
                #[trigger] rb[j],
            ) by {
                assert(may_precede(b[i + 1], b[j + 1]));
            }
        }
        lemma_display_order_is_unique(ra, rb);
        assert(a =~= seq![x] + ra);
        assert(b =~= seq![y] + rb);
    } else {
        assert(a =~= b);
    }
}

/// How many jobs have still to end.
pub open spec fn active_count(jobs: Seq<Job>) -> nat
    decreases jobs.len(),
{
    if jobs.len() == 0 {
        0
    } else {
        active_count(jobs.drop_last()) + if jobs.last().state.terminal() {
            0nat
        } else {
            1nat
        }
    }
}

/// The sample of a job that runs.
pub open spec fn running_sample(job: Job, progress: Map<u64, ProgressSnapshot>) -> Option<
    ProgressSnapshot,
> {
    if job.state is Running && progress.contains_key(job.id) {
        Some(progress[job.id])
    } else {
        None
    }
}

/// The throughput of all jobs that run, at most what fits.
pub open spec fn total_throughput(jobs: Seq<Job>, progress: Map<u64, ProgressSnapshot>) -> nat
    decreases jobs.len(),
{
    if jobs.len() == 0 {
        0
    } else {
        let before = total_throughput(jobs.drop_last(), progress);
        match running_sample(jobs.last(), progress) {
            Some(sample) => {
                let sum = before + sample.throughput_bytes_per_sec as nat;
                if sum <= u64::MAX {
                    sum
                } else {
                    u64::MAX as nat
                }
            },
            None => before,
        }
    }
}

/// The longest time that a job that runs is expected to take.
pub open spec fn longest_eta(jobs: Seq<Job>, progress: Map<u64, ProgressSnapshot>) -> Option<u64>
    decreases jobs.len(),
{
    if jobs.len() == 0 {
        None
    } else {
        let before = longest_eta(jobs.drop_last(), progress);
        match running_sample(jobs.last(), progress) {
            Some(sample) => match (before, sample.eta_secs) {
                (Some(b), Some(e)) => Some(
                    if b < e {
                        e
                    } else {
                        b
                    },
                ),
                (None, eta) => eta,
                (b, None) => b,
            },
            None => before,
        }
    }
}

/// The tray's line; none where no job has still to end.
pub open spec fn tray_text(jobs: Seq<Job>, progress: Map<u64, ProgressSnapshot>) -> Option<
    Seq<char>,
> {
    let active = active_count(jobs);
    if active == 0 {
        None
    } else {
        let throughput = total_throughput(jobs, progress);
        let eta = longest_eta(jobs, progress);
        Some(
            decimal(active) + " operation"@ + plural_text(active) + (if throughput > 0 {
                " \u{2014} "@ + byte_count_text(throughput) + "/s"@
            } else {
                Seq::empty()
            }) + (match eta {
                Some(secs) => " \u{2014} ETA "@ + eta_text(secs as nat),
                None => Seq::empty(),
            }),
        )
    }
}

/// The tray's line: how many jobs have still to end, how fast those that run
/// are together, and how long the longest will take.
pub fn tray_summary(jobs: &Vec<Job>, progress: &HashMap<u64, ProgressSnapshot>) -> (text: Option<
    String,
>)
    ensures
        match text {
            Some(t) => tray_text(jobs@, progress@) == Some(t@),
            None => tray_text(jobs@, progress@) is None,
        },
{
    let mut active: usize = 0;
    let mut throughput: u64 = 0;
    let mut eta: Option<u64> = None;
    let mut i: usize = 0;
    assert(jobs@.take(0).len() == 0);
    while i < jobs.len()
        invariant
            i <= jobs@.len(),
            active <= i,
            active == active_count(jobs@.take(i as int)),
            throughput == total_throughput(jobs@.take(i as int), progress@),
            eta == longest_eta(jobs@.take(i as int), progress@),
        decreases jobs@.len() - i,
    {
        let job = &jobs[i];
        assert(jobs@.take(i + 1).drop_last() =~= jobs@.take(i as int));
        assert(jobs@.take(i + 1).last() == *job);
        if job.state.is_active() {
            active = active + 1;
        }
        if let JobState::Running { .. } = &job.state {
            if let Some(sample) = progress.get(&job.id) {
                throughput = if throughput <= u64::MAX - sample.throughput_bytes_per_sec {
                    throughput + sample.throughput_bytes_per_sec
                } else {
                    u64::MAX
                };
                if let Some(secs) = sample.eta_secs {
                    eta = match eta {
                        Some(longest) => Some(
                            if longest < secs {
                                secs
                            } else {
                                longest
                            },
                        ),
                        None => Some(secs),
                    };
                }
            }
        }
        i = i + 1;
    }
    assert(jobs@.take(i as int) =~= jobs@);
    if active == 0 {
        return None;
    }
    let mut text = String::new();
    push_decimal(&mut text, active as u64);
    text.append(" operation");
    text.append(plural(active));
    assert(text@ =~= decimal(active as nat) + " operation"@ + plural_text(active as nat));
    let mut speed = String::new();
    if throughput > 0 {
        speed.append(" \u{2014} ");
        write_byte_count(&mut speed, throughput);
        speed.append("/s");
        assert(speed@ =~= " \u{2014} "@ + byte_count_text(throughput as nat) + "/s"@);
    }
    text.append(speed.as_str());
    let mut left = String::new();
    if let Some(secs) = eta {
        left.append(" \u{2014} ETA ");
        left.append(format_eta_secs(secs).as_str());
        assert(left@ =~= " \u{2014} ETA "@ + eta_text(secs as nat));
    }
    text.append(left.as_str());
    Some(text)
}

pub open spec fn kind_text(kind: JobKind) -> Seq<char> {
    match kind {
        JobKind::Copy => "Copy"@,
        JobKind::Move => "Move"@,
        JobKind::Delete { permanent } => if permanent {
            "Delete (permanent)"@
        } else {
            "Delete (trash)"@
        },
        JobKind::CreateDir => "Create directory"@,
        JobKind::CreateSymlink => "Create symlink"@,
        JobKind::CreateHardlink => "Create hardlink"@,
        JobKind::ChangeAttributes => "Change attributes"@,
    }
}

/// What a job does, in words.
pub fn describe_kind(kind: JobKind) -> (text: &'static str)
    ensures
        text@ == kind_text(kind),
{
    match kind {
        JobKind::Copy => "Copy",
        JobKind::Move => "Move",
        JobKind::Delete { permanent } => if permanent {
            "Delete (permanent)"
        } else {
            "Delete (trash)"
        },
        JobKind::CreateDir => "Create directory",
        JobKind::CreateSymlink => "Create symlink",
        JobKind::CreateHardlink => "Create hardlink",
        JobKind::ChangeAttributes => "Change attributes",
    }
}

pub open spec fn state_text(state: JobState) -> Seq<char> {
    match state {
        JobState::Queued => "Queued"@,
        JobState::Planning => "Planning"@,
        JobState::Running { .. } => "Running"@,
        JobState::Paused { .. } => "Paused"@,
        JobState::Terminal { outcome, .. } => match outcome {
            JobOutcome::Completed => "Completed"@,
            JobOutcome::CompletedWithSkips => "Completed (with skips)"@,
            JobOutcome::Cancelled => "Cancelled"@,
            JobOutcome::Failed => "Failed"@,
        },
    }
}

/// How far a job is, in words.
pub fn describe_state(state: &JobState) -> (text: &'static str)
    ensures
        text@ == state_text(*state),
{
    match state {
        JobState::Queued => "Queued",
        JobState::Planning => "Planning",
        JobState::Running { .. } => "Running",
        JobState::Paused { .. } => "Paused",
        JobState::Terminal { outcome, .. } => match outcome {
            JobOutcome::Completed => "Completed",
            JobOutcome::CompletedWithSkips => "Completed (with skips)",
            JobOutcome::Cancelled => "Cancelled",
            JobOutcome::Failed => "Failed",
        },
    }
}

pub open spec fn controls_text(state: JobState) -> Seq<char> {
    match state {
        JobState::Running { .. } => "P pause \u{2022} C cancel"@,
        JobState::Paused { .. } => "R resume \u{2022} C cancel"@,
        JobState::Queued => "C cancel"@,
        JobState::Planning => "C cancel"@,
        JobState::Terminal { .. } => ""@,
    }
}

/// The keys that mean something for a job: pausing one that runs, going on
/// with one that is paused, cancelling one that has still to end.
pub fn controls_hint(state: &JobState) -> (text: &'static str)
    ensures
        text@ == controls_text(*state),
{
    match state {
        JobState::Running { .. } => "P pause \u{2022} C cancel",
        JobState::Paused { .. } => "R resume \u{2022} C cancel",
        JobState::Queued => "C cancel",
        JobState::Planning => "C cancel",
        JobState::Terminal { .. } => "",
    }
}

/// A duration: `m:ss`, or `h:mm:ss` from one hour on.
pub open spec fn eta_text(secs: nat) -> Seq<char> {
    let hours = secs / 3600;
    let minutes = secs % 3600 / 60;
    let seconds = secs % 60;
    if hours > 0 {
        decimal(hours) + ":"@ + padded(minutes, 2) + ":"@ + padded(seconds, 2)
    } else {
        decimal(minutes) + ":"@ + padded(seconds, 2)
    }
}

pub fn format_eta_secs(total_secs: u64) -> (text: String)
    ensures
        text@ == eta_text(total_secs as nat),
{
    let hours: u64 = total_secs / 3600;
    let minutes: u64 = total_secs % 3600 / 60;
    let seconds: u64 = total_secs % 60;
    let mut text = String::new();
    if hours > 0 {
        push_decimal(&mut text, hours);
        text.append(":");
        push_padded(&mut text, minutes, 2);
        text.append(":");
        push_padded(&mut text, seconds, 2);
    } else {
        push_decimal(&mut text, minutes);
        text.append(":");
        push_padded(&mut text, seconds, 2);
    }
    assert(text@ =~= eta_text(total_secs as nat));
    text
}

/// The second line of a job's row.
pub open spec fn progress_text(job: Job, progress: Option<ProgressSnapshot>) -> Seq<char> {
    match job.state {
        JobState::Queued => "Waiting in queue."@,
        JobState::Planning => "Scanning source..."@,
        JobState::Terminal { outcome, report } => match outcome {
            JobOutcome::Completed => decimal(report.files_completed as nat) + " file(s), "@
                + byte_count_text(report.bytes_completed as nat) + "."@,
            JobOutcome::CompletedWithSkips => decimal(report.files_completed as nat)
                + " file(s) completed, "@ + decimal(report.skipped@.len()) + " skipped."@,
            JobOutcome::Cancelled => "Cancelled."@,
            JobOutcome::Failed => "Failed \u{2014} "@ + decimal(report.errors@.len())
                + " error(s)."@,
        },
        _ => match progress {
            Some(sample) => decimal(sample.files_done as nat) + "/"@ + decimal(
                job.total_files as nat,
            ) + " files \u{2022} "@ + byte_count_text(sample.bytes_done as nat) + " of "@
                + byte_count_text(job.total_bytes as nat) + " \u{2022} "@ + byte_count_text(
                sample.throughput_bytes_per_sec as nat,
            ) + "/s \u{2022} ETA "@ + (match sample.eta_secs {
                Some(secs) => eta_text(secs as nat),
                None => "--"@,
            }),
            None => "No progress data yet."@,
        },
    }
}

pub fn progress_line(job: &Job, progress: Option<ProgressSnapshot>) -> (text: String)
    ensures
        text@ == progress_text(*job, progress),
{
    match &job.state {
        JobState::Queued => "Waiting in queue.".to_owned(),
        JobState::Planning => "Scanning source...".to_owned(),
        JobState::Terminal { outcome, report } => match outcome {
            JobOutcome::Completed => {
                let mut text = String::new();
                push_decimal(&mut text, report.files_completed);
                assert(text@ =~= decimal(report.files_completed as nat));
                text.append(" file(s), ");
                write_byte_count(&mut text, report.bytes_completed);
                text.append(".");
                text
            },
            JobOutcome::CompletedWithSkips => {
                let mut text = String::new();
                push_decimal(&mut text, report.files_completed);
                assert(text@ =~= decimal(report.files_completed as nat));
                text.append(" file(s) completed, ");
                push_decimal(&mut text, report.skipped.len() as u64);
                text.append(" skipped.");
                text
            },
            JobOutcome::Cancelled => "Cancelled.".to_owned(),
            JobOutcome::Failed => {
                let mut text = "Failed \u{2014} ".to_owned();
                push_decimal(&mut text, report.errors.len() as u64);
                text.append(" error(s).");
                text
            },
        },
        _ => match progress {
            Some(sample) => {
                let mut text = String::new();
                push_decimal(&mut text, sample.files_done);
                assert(text@ =~= decimal(sample.files_done as nat));
                text.append("/");
                push_decimal(&mut text, job.total_files);
                text.append(" files \u{2022} ");
                write_byte_count(&mut text, sample.bytes_done);
                text.append(" of ");
                write_byte_count(&mut text, job.total_bytes);
                text.append(" \u{2022} ");
                write_byte_count(&mut text, sample.throughput_bytes_per_sec);
                text.append("/s \u{2022} ETA ");
                match sample.eta_secs {
                    Some(secs) => {
                        text.append(format_eta_secs(secs).as_str());
                    },
                    None => {
                        text.append("--");
                    },
                }
                text
            },
            None => "No progress data yet.".to_owned(),
        },
    }
}

pub open spec fn job_title_text(job: Job) -> Seq<char> {
    kind_text(job.kind) + " \u{2014} "@ + state_text(job.state)
}

/// The first line of a job's row.
pub fn row_title(job: &Job) -> (text: String)
    ensures
        text@ == job_title_text(*job),
{
    let mut text = describe_kind(job.kind).to_owned();
    text.append(" \u{2014} ");
    text.append(describe_state(&job.state));
    text
}

/// What a key does in the manager.
#[derive(Clone, Copy, Debug, PartialEq, Eq, Structural)]
pub enum ManagerAction {
    Close,
    CursorUp,
    CursorDown,
    PauseSelected,
    ResumeSelected,
    CancelSelected,
}

/// The keys that the manager is bound to: the action that a keystroke stands
/// for.
pub fn bind_operation_manager_keys(keys: &str) -> (action: Option<ManagerAction>)
    ensures
        action == (if keys@ == "escape"@ {
            Some(ManagerAction::Close)
        } else if keys@ == "up"@ {
            Some(ManagerAction::CursorUp)
        } else if keys@ == "down"@ {
            Some(ManagerAction::CursorDown)
        } else if keys@ == "p"@ {
            Some(ManagerAction::PauseSelected)
        } else if keys@ == "r"@ {
            Some(ManagerAction::ResumeSelected)
        } else if keys@ == "c"@ {
            Some(ManagerAction::CancelSelected)
        } else {
            None
        }),
{
    if same_text(keys, "escape") {
        Some(ManagerAction::Close)
    } else if same_text(keys, "up") {
        Some(ManagerAction::CursorUp)
    } else if same_text(keys, "down") {
        Some(ManagerAction::CursorDown)
    } else if same_text(keys, "p") {
        Some(ManagerAction::PauseSelected)
    } else if same_text(keys, "r") {
        Some(ManagerAction::ResumeSelected)
    } else if same_text(keys, "c") {
        Some(ManagerAction::CancelSelected)
    } else {
        None
    }
}

/// The manager's cursor: a row of the jobs in display order.
#[derive(Clone, Copy, Debug, PartialEq, Eq, Structural)]
pub struct OperationManagerState {
    pub cursor: usize,
}

impl OperationManagerState {
    pub fn new() -> (state: Self)
        ensures
            state.cursor == 0,
    {
        OperationManagerState { cursor: 0 }
    }

    pub fn cursor_up(&mut self)
        ensures
            final(self).cursor == (if old(self).cursor > 0 {
                old(self).cursor - 1
            } else {
                0
            }),
    {
        if self.cursor > 0 {
            self.cursor = self.cursor - 1;
        }
    }

    /// Moves on by one row, held to the `jobs` that there are.
    pub fn cursor_down(&mut self, jobs: usize)
        ensures
            final(self).cursor == (if jobs == 0 {
                old(self).cursor as int
            } else if old(self).cursor + 1 < jobs {
                old(self).cursor + 1
            } else {
                jobs - 1
            }),
    {
        if jobs > 0 {
            self.cursor = if self.cursor < jobs - 1 {
                self.cursor + 1
            } else {
                jobs - 1
            };
        }
    }

    /// Holds the cursor to the `jobs` that there are.
    pub fn clamp_cursor(&mut self, jobs: usize)
        ensures
            final(self).cursor == (if jobs == 0 {
                0
            } else if old(self).cursor < jobs {
                old(self).cursor as int
            } else {
                jobs - 1
            }),
    {
        if jobs == 0 {
            self.cursor = 0;
        } else if self.cursor >= jobs {
            self.cursor = jobs - 1;
        }
    }

    /// The job that a key acts on, of `jobs` in display order.
    pub fn selected(&self, jobs: &Vec<Job>) -> (id: Option<u64>)
        requires
            in_display_order(jobs@),
        ensures
            id == (if self.cursor < jobs@.len() {
                Some(jobs@[self.cursor as int].id)
            } else {
                None
            }),
    {
        if self.cursor < jobs.len() {
            Some(jobs[self.cursor].id)
        } else {
            None
        }
    }

    /// The manager as it is shown, with the cursor held to the `jobs` that
    /// there are. They are handed in in display order.
    pub fn render(
        &mut self,
        jobs: &Vec<Job>,
        progress: &HashMap<u64, ProgressSnapshot>,
    ) -> (view: ManagerView)
        requires
            in_display_order(jobs@),
        ensures
            manager_shows(*old(self), *final(self), jobs@, progress@, view),
    {
        self.clamp_cursor(jobs.len());
        let mut rows: Vec<JobRow> = Vec::new();
        while rows.len() < jobs.len()
            invariant
                rows@.len() <= jobs@.len(),
                forall|i: int|
                    0 <= i < rows@.len() ==> is_row_of_job(
                        #[trigger] rows@[i],
                        jobs@[i],
                        sample_of(jobs@[i].id, progress@),
                        i == self.cursor,
                    ),
            decreases jobs@.len() - rows@.len(),
        {
            let ix: usize = rows.len();
            let job = &jobs[ix];
            let sample = match progress.get(&job.id) {
                Some(sample) => Some(*sample),
                None => None,
            };
            rows.push(
                JobRow {
                    title: row_title(job),
                    controls: controls_hint(&job.state),
                    progress: progress_line(job, sample),
                    selected: ix == self.cursor,
                },
            );
        }
        ManagerView {
            title: "Operations",
            empty: if jobs.len() == 0 {
                Some("No operations yet.")
            } else {
                None
            },
            rows,
            hint: "Up/Down select \u{2022} P pause \u{2022} R resume \u{2022} C cancel \u{2022} Esc close",
        }
    }

    /// Does what a key asks for while `jobs` are shown, in display order.
    /// Returns what is left to do outside the manager.
    pub fn perform(&mut self, action: ManagerAction, jobs: &Vec<Job>) -> (step: Option<ManagerStep>)
        requires
            in_display_order(jobs@),
        ensures
            manager_acts(*old(self), *final(self), action, jobs@, step),
    {
        match action {
            ManagerAction::Close => Some(ManagerStep::Close),
            ManagerAction::CursorUp => {
                self.cursor_up();
                None
            },
            ManagerAction::CursorDown => {
                self.cursor_down(jobs.len());
                None
            },
            ManagerAction::PauseSelected => match self.selected(jobs) {
                Some(id) => Some(ManagerStep::Pause(id)),
                None => None,
            },
            ManagerAction::ResumeSelected => match self.selected(jobs) {
                Some(id) => Some(ManagerStep::Resume(id)),
                None => None,
            },
            ManagerAction::CancelSelected => match self.selected(jobs) {
                Some(id) => Some(ManagerStep::Cancel(id)),
                None => None,
            },
        }
    }
}

/// Whether showing `jobs` leads from `before` to `after`.
pub open spec fn manager_shows(
    before: OperationManagerState,
    after: OperationManagerState,
    jobs: Seq<Job>,
    progress: Map<u64, ProgressSnapshot>,
    view: ManagerView,
) -> bool {
    &&& after.cursor == (if jobs.len() == 0 {
        0
    } else if before.cursor < jobs.len() {
        before.cursor as int
    } else {
        jobs.len() - 1
    })
    &&& view.title@ == "Operations"@
    &&& match view.empty {
        Some(text) => jobs.len() == 0 && text@ == "No operations yet."@,
        None => jobs.len() > 0,
    }
    &&& view.rows@.len() == jobs.len()
    &&& forall|i: int|
        0 <= i < jobs.len() ==> is_row_of_job(
            #[trigger] view.rows@[i],
            jobs[i],
            sample_of(jobs[i].id, progress),
            i == after.cursor,
        )
    &&& view.hint@
        == "Up/Down select \u{2022} P pause \u{2022} R resume \u{2022} C cancel \u{2022} Esc close"@
}

/// Whether a key leads from `before` to `after` while `jobs` are shown.
pub open spec fn manager_acts(
    before: OperationManagerState,
    after: OperationManagerState,
    action: ManagerAction,
    jobs: Seq<Job>,
    step: Option<ManagerStep>,
) -> bool {
    &&& after.cursor == (match action {
        ManagerAction::CursorUp => if before.cursor > 0 {
            before.cursor - 1
        } else {
            0
        },
        ManagerAction::CursorDown => if jobs.len() == 0 {
            before.cursor as int
        } else if before.cursor + 1 < jobs.len() {
            before.cursor + 1
        } else {
            jobs.len() - 1
        },
        _ => before.cursor as int,
    })
    &&& step == (match action {
        ManagerAction::Close => Some(ManagerStep::Close),
        ManagerAction::CursorUp => None,
        ManagerAction::CursorDown => None,
        _ => if before.cursor >= jobs.len() {
            None
        } else {
            let id = jobs[before.cursor as int].id;
            Some(
                match action {
                    ManagerAction::PauseSelected => ManagerStep::Pause(id),
                    ManagerAction::ResumeSelected => ManagerStep::Resume(id),
                    _ => ManagerStep::Cancel(id),
                },
            )
        },
    })
}

/// Whether `jobs` are those of a snapshot, in display order.
pub open spec fn displays(jobs: Seq<Job>, snapshot: Seq<Job>) -> bool {
    in_display_order(jobs) && jobs.to_multiset() == snapshot.to_multiset()
}

impl OperationManagerState {
    /// The manager as it is shown over a snapshot of the queue, whose jobs come
    /// in no order.
    pub fn show(
        &mut self,
        snapshot: Vec<Job>,
        progress: &HashMap<u64, ProgressSnapshot>,
    ) -> (view: ManagerView)
        ensures
            exists|jobs: Seq<Job>| #[trigger]
                displays(jobs, snapshot@) && manager_shows(
                    *old(self),
                    *final(self),
                    jobs,
                    progress@,
                    view,
                ),
    {
        let ghost all = snapshot@;
        let jobs = sorted_jobs(snapshot);
        let view = self.render(&jobs, progress);
        assert(displays(jobs@, all));
        view
    }

    /// Does what a key asks for over a snapshot of the queue. Returns what is
    /// left to do outside the manager.
    pub fn act(&mut self, action: ManagerAction, snapshot: Vec<Job>) -> (step: Option<ManagerStep>)
        ensures
            exists|jobs: Seq<Job>| #[trigger]
                displays(jobs, snapshot@) && manager_acts(
                    *old(self),
                    *final(self),
                    action,
                    jobs,
                    step,
                ),
    {
        let ghost all = snapshot@;
        let jobs = sorted_jobs(snapshot);
        let step = self.perform(action, &jobs);
        assert(displays(jobs@, all));
        step
    }
}

/// What is left to do outside the manager after a key.
#[derive(Clone, Copy, Debug, PartialEq, Eq, Structural)]
pub enum ManagerStep {
    Close,
    Pause(u64),
    Resume(u64),
    Cancel(u64),
}

/// A job as the manager shows it.
#[derive(Debug, PartialEq, Eq)]
pub struct JobRow {
    pub title: String,
    pub controls: &'static str,
    pub progress: String,
    pub selected: bool,
}

/// The manager as it is shown.
#[derive(Debug, PartialEq, Eq)]
pub struct ManagerView {
    pub title: &'static str,
    /// What stands in place of the rows where there are none.
    pub empty: Option<&'static str>,
    pub rows: Vec<JobRow>,
    pub hint: &'static str,
}

/// The last sample of a job's progress.
pub open spec fn sample_of(id: u64, progress: Map<u64, ProgressSnapshot>) -> Option<
    ProgressSnapshot,
> {
    if progress.contains_key(id) {
        Some(progress[id])
    } else {
        None
    }
}

pub open spec fn is_row_of_job(
    row: JobRow,
    job: Job,
    progress: Option<ProgressSnapshot>,
    selected: bool,
) -> bool {
    &&& row.title@ == job_title_text(job)
    &&& row.controls@ == controls_text(job.state)
    &&& row.progress@ == progress_text(job, progress)
    &&& row.selected == selected
}

/// The time that a job is expected to take; none where it does not run or none
/// is known.
pub open spec fn eta_of(job: Job, progress: Map<u64, ProgressSnapshot>) -> Option<u64> {
    if job.state is Running && progress.contains_key(job.id) {
        progress[job.id].eta_secs
    } else {
        None
    }
}

/// Whether `eta` is the longest of the times that the jobs that run are expected
/// to take.
pub open spec fn is_longest_eta(
    jobs: Seq<Job>,
    progress: Map<u64, ProgressSnapshot>,
    eta: Option<u64>,
) -> bool {
    match eta {
        Some(longest) => {
            &&& exists|i: int| 0 <= i < jobs.len() && eta_of(#[trigger] jobs[i], progress) == eta
            &&& forall|i: int|
                0 <= i < jobs.len() && eta_of(#[trigger] jobs[i], progress) is Some ==> eta_of(
                    jobs[i],
                    progress,
                )->0 <= longest
        },
        None => forall|i: int|
            0 <= i < jobs.len() ==> eta_of(#[trigger] jobs[i], progress) is None,
    }
}

/// The throughput of a job, nothing where it does not run or has no sample.
pub open spec fn throughput_of(job: Job, progress: Map<u64, ProgressSnapshot>) -> int {
    if job.state is Running && progress.contains_key(job.id) {
        progress[job.id].throughput_bytes_per_sec as int
    } else {
        0
    }
}

proof fn lemma_longest_eta(jobs: Seq<Job>, progress: Map<u64, ProgressSnapshot>)
    ensures
        is_longest_eta(jobs, progress, longest_eta(jobs, progress)),
    decreases jobs.len(),
{
    if jobs.len() > 0 {
        let rest = jobs.drop_last();
        lemma_longest_eta(rest, progress);
        let before = longest_eta(rest, progress);
        let now = longest_eta(jobs, progress);
        assert(forall|i: int| 0 <= i < rest.len() ==> #[trigger] jobs[i] == rest[i]);
        if before is Some {
            let i = choose|i: int| 0 <= i < rest.len() && eta_of(#[trigger] rest[i], progress) == before;
            assert(eta_of(jobs[i], progress) == before);
        }
        assert(eta_of(jobs.last(), progress) == eta_of(jobs[jobs.len() - 1], progress));
        if let Some(longest) = now {
            assert forall|i: int|
                0 <= i < jobs.len() && eta_of(#[trigger] jobs[i], progress) is Some implies eta_of(
                jobs[i],
                progress,
            )->0 <= longest by {
                if i < rest.len() {
                    assert(eta_of(rest[i], progress) is Some);
                }
            }
        } else {
            assert forall|i: int| 0 <= i < jobs.len() implies eta_of(
                #[trigger] jobs[i],
                progress,
            ) is None by {
                if i < rest.len() {
                    assert(eta_of(rest[i], progress) is None);
                }
            }
        }
    }
}

proof fn lemma_total_throughput(jobs: Seq<Job>, progress: Map<u64, ProgressSnapshot>)
    ensures
        ({
            let sum = jobs.fold_left(0int, |sum: int, job: Job| sum + throughput_of(job, progress));
            &&& sum >= 0
            &&& total_throughput(jobs, progress) == if sum <= u64::MAX {
                sum
            } else {
                u64::MAX as int
            }
        }),
    decreases jobs.len(),
{
    reveal(Seq::fold_left);
    if jobs.len() > 0 {
        lemma_total_throughput(jobs.drop_last(), progress);
    }
}

proof fn lemma_active_count(jobs: Seq<Job>)
    ensures
        active_count(jobs) == jobs.filter(|job: Job| !(job.state is Terminal)).len(),
    decreases jobs.len(),
{
    reveal(Seq::filter);
    if jobs.len() > 0 {
        lemma_active_count(jobs.drop_last());
    }
}

/// The tray tells how many jobs have not ended; the sum of the throughputs of
/// those that run, held at what fits; and the longest of their times. There is
/// no line where every job has ended.
pub proof fn lemma_tray_line(jobs: Seq<Job>, progress: Map<u64, ProgressSnapshot>)
    ensures
        ({
            let active = jobs.filter(|job: Job| !(job.state is Terminal)).len();
            let sum = jobs.fold_left(0int, |sum: int, job: Job| sum + throughput_of(job, progress));
            match tray_text(jobs, progress) {
                None => active == 0,
                Some(line) => {
                    &&& active > 0
                    &&& exists|eta: Option<u64>|
                        {
                            &&& #[trigger] is_longest_eta(jobs, progress, eta)
                            &&& line == decimal(active) + (if active == 1 {
                                " operation"@
                            } else {
                                " operations"@
                            }) + (if sum > 0 {
                                " \u{2014} "@ + byte_count_text(
                                    if sum <= u64::MAX {
                                        sum as nat
                                    } else {
                                        u64::MAX as nat
                                    },
                                ) + "/s"@
                            } else {
                                Seq::empty()
                            }) + (match eta {
                                Some(secs) => " \u{2014} ETA "@ + eta_text(secs as nat),
                                None => Seq::empty(),
                            })
                        }
                },
            }
        }),
{
    lemma_active_count(jobs);
    lemma_total_throughput(jobs, progress);
    lemma_longest_eta(jobs, progress);
    reveal_strlit(" operation");
    reveal_strlit(" operations");
    reveal_strlit("");
    reveal_strlit("s");
    assert(" operation"@ + "s"@ =~= " operations"@);
    assert(" operation"@ + ""@ =~= " operation"@);
    let n = active_count(jobs);
    assert(decimal(n) + " operation"@ + "s"@ =~= decimal(n) + " operations"@);
    assert(decimal(n) + " operation"@ + ""@ =~= decimal(n) + " operation"@);
}

/// The longest time is one, so the tray tells the same in whatever order the
/// jobs stand.
pub proof fn lemma_longest_eta_in_any_order(
    jobs: Seq<Job>,
    others: Seq<Job>,
    progress: Map<u64, ProgressSnapshot>,
    eta: Option<u64>,
    other: Option<u64>,
)
    requires
        jobs.to_multiset() == others.to_multiset(),
        is_longest_eta(jobs, progress, eta),
        is_longest_eta(others, progress, other),
    ensures
        eta == other,
{
    jobs.to_multiset_ensures();
    others.to_multiset_ensures();
    if eta is Some {
        let i = choose|i: int| 0 <= i < jobs.len() && eta_of(#[trigger] jobs[i], progress) == eta;
        assert(jobs.contains(jobs[i]));
        assert(jobs.to_multiset().contains(jobs[i]));
        assert(others.contains(jobs[i]));
    }
    if other is Some {
        let i = choose|i: int|
            0 <= i < others.len() && eta_of(#[trigger] others[i], progress) == other;
        assert(others.contains(others[i]));
        assert(others.to_multiset().contains(others[i]));
        assert(jobs.contains(others[i]));
    }
}

/// In display order no job that has ended stands above one that has not, and of
/// two that both have, or both have not, the one put into the queue later stands
/// above.
pub proof fn lemma_display_order(jobs: Seq<Job>, i: int, j: int)
    requires
        in_display_order(jobs),
        0 <= i < j < jobs.len(),
    ensures
        jobs[i].state is Terminal ==> jobs[j].state is Terminal,
        jobs[i].state is Terminal || !(jobs[j].state is Terminal) ==> jobs[i].id >= jobs[j].id,
{
    assert(may_precede(jobs[i], jobs[j]));
}

/// A duration reads back: two digits of seconds behind the last colon, and
/// before it the minutes, or from one hour on two digits of minutes behind the
/// hours.
pub proof fn lemma_eta_reads_back(secs: nat)
    ensures
        ({
            let text = eta_text(secs);
            let n = text.len() as int;
            &&& n >= 4
            &&& text[n - 3] == ':'
            &&& number(text.subrange(n - 2, n)) == secs % 60
            &&& secs < 3600 ==> all_digits(text.take(n - 3)) && number(text.take(n - 3)) == secs / 60
            &&& secs >= 3600 ==> {
                &&& n >= 7
                &&& text[n - 6] == ':'
                &&& number(text.subrange(n - 5, n - 3)) == secs / 60 % 60
                &&& all_digits(text.take(n - 6))
                &&& number(text.take(n - 6)) == secs / 3600
            }
        }),
{
    let text = eta_text(secs);
    let n = text.len() as int;
    let hours = secs / 3600;
    let minutes = secs % 3600 / 60;
    let seconds = secs % 60;
    reveal_strlit(":");
    lemma_decimal_reads_back(hours);
    lemma_decimal_reads_back(minutes);
    lemma_padded_reads_back(minutes, 2);
    lemma_padded_reads_back(seconds, 2);
    lemma_two_digits(minutes);
    lemma_two_digits(seconds);
    assert(text.subrange(n - 2, n) =~= padded(seconds, 2));
    if hours > 0 {
        assert(text.subrange(n - 5, n - 3) =~= padded(minutes, 2));
        assert(text.take(n - 6) =~= decimal(hours));
        assert(secs % 3600 / 60 == secs / 60 % 60);
    } else {
        assert(text.take(n - 3) =~= decimal(minutes));
    }
}

proof fn lemma_two_digits(n: nat)
    requires
        n < 100,
    ensures
        padded(n, 2).len() == 2,
{
    reveal_with_fuel(decimal, 3);
}

/// What is shown has one row under the cursor where it has any, and a key acts
/// on that row's job.
pub proof fn lemma_keys_act_on_the_row_that_is_marked(
    before: OperationManagerState,
    shown: OperationManagerState,
    jobs: Seq<Job>,
    progress: Map<u64, ProgressSnapshot>,
    view: ManagerView,
    action: ManagerAction,
    after: OperationManagerState,
    step: Option<ManagerStep>,
    i: int,
)
    requires
        manager_shows(before, shown, jobs, progress, view),
        manager_acts(shown, after, action, jobs, step),
        0 <= i < jobs.len(),
    ensures
        exists|k: int| 0 <= k < view.rows@.len() && (#[trigger] view.rows@[k]).selected,
        forall|k: int|
            0 <= k < view.rows@.len() && view.rows@[i].selected && (
            #[trigger] view.rows@[k]).selected ==> k == i,
        before.cursor < jobs.len() ==> shown.cursor == before.cursor,
        view.rows@[i].selected ==> match action {
            ManagerAction::PauseSelected => step == Some(ManagerStep::Pause(jobs[i].id)) && after
                == shown,
            ManagerAction::ResumeSelected => step == Some(ManagerStep::Resume(jobs[i].id)) && after
                == shown,
            ManagerAction::CancelSelected => step == Some(ManagerStep::Cancel(jobs[i].id)) && after
                == shown,
            ManagerAction::CursorUp => step is None && after.cursor == (if i == 0 {
                0
            } else {
                i - 1
            }),
            ManagerAction::CursorDown => step is None && after.cursor == (if i == jobs.len() - 1 {
                i
            } else {
                i + 1
            }),
            ManagerAction::Close => step == Some(ManagerStep::Close) && after == shown,
        },
{
    assert(view.rows@[shown.cursor as int].selected);
    assert(is_row_of_job(
        view.rows@[i],
        jobs[i],
        sample_of(jobs[i].id, progress),
        i == shown.cursor,
    ));
    assert forall|k: int|
        0 <= k < view.rows@.len() && view.rows@[i].selected && (
        #[trigger] view.rows@[k]).selected implies k == i by {
        assert(is_row_of_job(
            view.rows@[k],
            jobs[k],
            sample_of(jobs[k].id, progress),
            k == shown.cursor,
        ));
    }
}

/// The line of a job that is under way begins with the files that are done and
/// those there are, and ends with its time; that of a job that ended says how
/// many it did, or how many went wrong.
pub proof fn lemma_progress_line(job: Job, sample: ProgressSnapshot)
    ensures
        job.state is Running || job.state is Paused ==> {
            let line = progress_text(job, Some(sample));
            &&& (decimal(sample.files_done as nat) + "/"@ + decimal(job.total_files as nat)
                + " files"@).is_prefix_of(line)
            &&& (byte_count_text(sample.bytes_done as nat) + " of "@ + byte_count_text(
                job.total_bytes as nat,
            ) + " \u{2022} "@ + byte_count_text(sample.throughput_bytes_per_sec as nat)
                + "/s \u{2022} ETA "@ + (match sample.eta_secs {
                Some(secs) => eta_text(secs as nat),
                None => "--"@,
            })).is_suffix_of(line)
        },
        job.state is Queued || job.state is Planning || job.state is Terminal ==> progress_text(
            job,
            Some(sample),
        ) == progress_text(job, None),
        job.state is Terminal ==> match job.state->outcome {
            JobOutcome::Completed => (decimal(job.state->report.files_completed as nat)
                + " file"@).is_prefix_of(progress_text(job, None)) && (byte_count_text(
                job.state->report.bytes_completed as nat,
            ) + "."@).is_suffix_of(progress_text(job, None)),
            JobOutcome::CompletedWithSkips => (decimal(job.state->report.files_completed as nat)
                + " file"@).is_prefix_of(progress_text(job, None)) && (decimal(
                job.state->report.skipped@.len(),
            ) + " skipped."@).is_suffix_of(progress_text(job, None)),
            JobOutcome::Failed => (decimal(job.state->report.errors@.len())
                + " error(s)."@).is_suffix_of(progress_text(job, None)),
            JobOutcome::Cancelled => progress_text(job, None) == "Cancelled."@,
        },
{
    reveal_strlit(" files");
    reveal_strlit(" files \u{2022} ");
    reveal_strlit(" file");
    reveal_strlit(" file(s), ");
    reveal_strlit(" file(s) completed, ");
    let line = progress_text(job, Some(sample));
    if job.state is Running || job.state is Paused {
        let head = decimal(sample.files_done as nat) + "/"@ + decimal(job.total_files as nat)
            + " files"@;
        assert(line.take(head.len() as int) =~= head);
        let tail = byte_count_text(sample.bytes_done as nat) + " of "@ + byte_count_text(
            job.total_bytes as nat,
        ) + " \u{2022} "@ + byte_count_text(sample.throughput_bytes_per_sec as nat)
            + "/s \u{2022} ETA "@ + (match sample.eta_secs {
            Some(secs) => eta_text(secs as nat),
            None => "--"@,
        });
        assert(line.skip(line.len() - tail.len()) =~= tail);
    }
    if let JobState::Terminal { outcome, report } = job.state {
        let line = progress_text(job, None);
        let head = decimal(report.files_completed as nat) + " file"@;
        match outcome {
            JobOutcome::Completed => {
                assert(line.take(head.len() as int) =~= head);
                let tail = byte_count_text(report.bytes_completed as nat) + "."@;
                assert(line.skip(line.len() - tail.len()) =~= tail);
            },
            JobOutcome::CompletedWithSkips => {
                assert(line.take(head.len() as int) =~= head);
                let tail = decimal(report.skipped@.len()) + " skipped."@;
                assert(line.skip(line.len() - tail.len()) =~= tail);
            },
            JobOutcome::Failed => {
                let tail = decimal(report.errors@.len()) + " error(s)."@;
                assert(line.skip(line.len() - tail.len()) =~= tail);
            },
            JobOutcome::Cancelled => {},
        }
    }
}

/// The hint of a row offers to pause a job that runs and no other, to go on with
/// one that is paused and no other, and to cancel every one that has not ended.
pub proof fn lemma_controls_fit_the_state(state: JobState)
    ensures
        controls_text(state).contains('P') <==> state is Running,
        controls_text(state).contains('R') <==> state is Paused,
        controls_text(state).contains('C') <==> !(state is Terminal),
{
    reveal_strlit("P pause \u{2022} C cancel");
    reveal_strlit("R resume \u{2022} C cancel");
    reveal_strlit("C cancel");
    reveal_strlit("");
    let text = controls_text(state);
    match state {
        JobState::Running { .. } => {
            assert(text[0] == 'P' && text[10] == 'C');
        },
        JobState::Paused { .. } => {
            assert(text[0] == 'R' && text[11] == 'C');
        },
        JobState::Queued | JobState::Planning => {
            assert(text[0] == 'C');
        },
        JobState::Terminal { .. } => {},
    }
}

/// No two sorts of jobs, and no two ways to end, read the same.
pub proof fn lemma_rows_tell_jobs_apart(a: JobKind, b: JobKind, x: JobState, y: JobState)
    ensures
        kind_text(a) == kind_text(b) ==> a == b,
        state_text(x) == state_text(y) ==> match (x, y) {
            (JobState::Queued, _) => y is Queued,
            (JobState::Planning, _) => y is Planning,
            (JobState::Running { .. }, _) => y is Running,
            (JobState::Paused { .. }, _) => y is Paused,
            (JobState::Terminal { outcome, .. }, JobState::Terminal { outcome: other, .. }) => outcome
                == other,
            (JobState::Terminal { .. }, _) => false,
        },
{
    reveal_strlit("Copy");
    reveal_strlit("Move");
    reveal_strlit("Delete (permanent)");
    reveal_strlit("Delete (trash)");
    reveal_strlit("Create directory");
    reveal_strlit("Create symlink");
    reveal_strlit("Create hardlink");
    reveal_strlit("Change attributes");
    reveal_strlit("Queued");
    reveal_strlit("Planning");
    reveal_strlit("Running");
    reveal_strlit("Paused");
    reveal_strlit("Completed");
    reveal_strlit("Completed (with skips)");
    reveal_strlit("Cancelled");
    reveal_strlit("Failed");
    if kind_text(a) == kind_text(b) {
        assert(kind_text(a)[0] == kind_text(b)[0]);
        assert(kind_text(a).len() == kind_text(b).len());
        assert(kind_text(a)[1] == kind_text(b)[1]);
    }
    if state_text(x) == state_text(y) {
        assert(state_text(x)[0] == state_text(y)[0]);
        assert(state_text(x)[1] == state_text(y)[1]);
        assert(state_text(x).len() == state_text(y).len());
    }
}

/// A row's line of progress is made of the last sample of its own job, where
/// there is one.
pub proof fn lemma_row_shows_the_last_sample(
    before: OperationManagerState,
    after: OperationManagerState,
    jobs: Seq<Job>,
    progress: Map<u64, ProgressSnapshot>,
    view: ManagerView,
    i: int,
)
    requires
        manager_shows(before, after, jobs, progress, view),
        0 <= i < jobs.len(),
    ensures
        progress.contains_key(jobs[i].id) ==> view.rows@[i].progress@ == progress_text(
            jobs[i],
            Some(progress[jobs[i].id]),
        ),
        !progress.contains_key(jobs[i].id) ==> view.rows@[i].progress@ == progress_text(
            jobs[i],
            None,
        ),
        view.rows@[i].title@ == kind_text(jobs[i].kind) + " \u{2014} "@ + state_text(jobs[i].state),
        view.empty is None,
{
    assert(is_row_of_job(
        view.rows@[i],
        jobs[i],
        sample_of(jobs[i].id, progress),
        i == after.cursor,
    ));
}

/// What is displayed of a snapshot is every job of it, once, and nothing else,
/// in display order.
pub proof fn lemma_snapshot_is_displayed(jobs: Seq<Job>, snapshot: Seq<Job>, job: Job)
    requires
        displays(jobs, snapshot),
    ensures
        jobs.len() == snapshot.len(),
        jobs.contains(job) <==> snapshot.contains(job),
        forall|i: int, j: int|
            0 <= i < j < jobs.len() && (#[trigger] jobs[i]).state is Terminal ==> (
            #[trigger] jobs[j]).state is Terminal,
{
    jobs.to_multiset_ensures();
    snapshot.to_multiset_ensures();
    assert(jobs.contains(job) <==> jobs.to_multiset().contains(job));
    assert(snapshot.contains(job) <==> snapshot.to_multiset().contains(job));
    assert forall|i: int, j: int|
        0 <= i < j < jobs.len() && (#[trigger] jobs[i]).state is Terminal implies (
    #[trigger] jobs[j]).state is Terminal by {
        lemma_display_order(jobs, i, j);
    }
}

} // verus!
