//! The report of a finished job: one list of what failed and what was
//! skipped, and the key that runs those again.

use crate::dialog_job::{
    immediate_job, outcome_text, report_job_outcome, run_now, DialogJob, Notice, NoticeLevel,
    PlanOutcome,
};
use crate::jobs::{plural, plural_text, JobKind};
use crate::operation_manager::{describe_kind, kind_text};
use crate::text::{decimal, push_decimal, same_text};
use crate::vpath::VPath;
use vstd::prelude::*;

verus! {

/// A step that failed.
#[derive(Debug, PartialEq, Eq)]
pub struct StepFailure {
    pub path: Option<VPath>,
    /// What sort of failure it was.
    pub kind: String,
    pub message: String,
}

/// A step that was skipped.
#[derive(Debug, PartialEq, Eq)]
pub struct SkipEntry {
    pub path: VPath,
    pub reason: String,
}

/// What became of a job.
#[derive(Debug, PartialEq, Eq)]
pub struct JobReport {
    pub files_completed: u64,
    pub bytes_completed: u64,
    pub errors: Vec<StepFailure>,
    pub skipped: Vec<SkipEntry>,
}

impl Default for JobReport {
    fn default() -> (report: Self)
        ensures
            report.files_completed == 0,
            report.bytes_completed == 0,
            report.errors@.len() == 0,
            report.skipped@.len() == 0,
    {
        JobReport {
            files_completed: 0,
            bytes_completed: 0,
            errors: Vec::new(),
            skipped: Vec::new(),
        }
    }
}

/// What a key does in the dialog.
#[derive(Clone, Copy, Debug, PartialEq, Eq, Structural)]
pub enum ReportAction {
    RerunFailedItems,
    Close,
}

/// The keys that the dialog is bound to: the action that a keystroke stands
/// for.
pub fn bind_job_report_dialog_keys(keys: &str) -> (action: Option<ReportAction>)
    ensures
        action == (if keys@ == "r"@ || keys@ == "enter"@ {
            Some(ReportAction::RerunFailedItems)
        } else if keys@ == "escape"@ {
            Some(ReportAction::Close)
        } else {
            None
        }),
{
    if same_text(keys, "r") || same_text(keys, "enter") {
        Some(ReportAction::RerunFailedItems)
    } else if same_text(keys, "escape") {
        Some(ReportAction::Close)
    } else {
        None
    }
}

/// Whether there is anything to show.
pub fn has_anything_to_report(report: &JobReport) -> (any: bool)
    ensures
        any == (report.errors@.len() > 0 || report.skipped@.len() > 0),
{
    report.errors.len() > 0 || report.skipped.len() > 0
}

/// What went wrong, counted.
pub open spec fn counts_text(errors: nat, skipped: nat) -> Seq<char> {
    if errors == 0 && skipped == 0 {
        "nothing to report"@
    } else if errors == 0 {
        decimal(skipped) + " skipped"@
    } else if skipped == 0 {
        decimal(errors) + " error"@ + plural_text(errors)
    } else {
        decimal(errors) + " error"@ + plural_text(errors) + ", "@ + decimal(skipped) + " skipped"@
    }
}

/// The dialog's headline: what the job was, and what went wrong.
pub fn report_title(kind: JobKind, report: &JobReport) -> (text: String)
    ensures
        text@ == report_headline(kind, *report),
{
    let errors: usize = report.errors.len();
    let skipped: usize = report.skipped.len();
    let mut counts = String::new();
    if errors == 0 && skipped == 0 {
        counts.append("nothing to report");
    } else if errors == 0 {
        push_decimal(&mut counts, skipped as u64);
        counts.append(" skipped");
    } else if skipped == 0 {
        push_decimal(&mut counts, errors as u64);
        counts.append(" error");
        counts.append(plural(errors));
    } else {
        push_decimal(&mut counts, errors as u64);
        counts.append(" error");
        counts.append(plural(errors));
        counts.append(", ");
        push_decimal(&mut counts, skipped as u64);
        counts.append(" skipped");
    }
    assert(counts@ =~= counts_text(errors as nat, skipped as nat));
    let mut text = describe_kind(kind).to_owned();
    text.append(" \u{2014} ");
    text.append(counts.as_str());
    text
}

/// The first line of a failure: its plain path.
pub fn error_path(failure: &StepFailure) -> (text: String)
    ensures
        text@ == (match failure.path {
            Some(path) => path.path@,
            None => "(no path)"@,
        }),
{
    match &failure.path {
        Some(path) => path.path.clone(),
        None => "(no path)".to_owned(),
    }
}

/// The second line of a failure: what sort it was, and what was said.
pub fn error_detail(failure: &StepFailure) -> (text: String)
    ensures
        text@ == failure.kind@ + " \u{2014} "@ + failure.message@,
{
    let mut text = failure.kind.clone();
    text.append(" \u{2014} ");
    text.append(failure.message.as_str());
    text
}

/// The first line of a skipped step.
pub fn skip_path(entry: &SkipEntry) -> (text: String)
    ensures
        text@ == entry.path.path@,
{
    entry.path.path.clone()
}

/// One row of the list.
#[derive(Debug, PartialEq, Eq)]
pub struct ReportRow {
    pub path: String,
    pub detail: String,
}

pub open spec fn row_of_error(row: ReportRow, failure: StepFailure) -> bool {
    &&& row.path@ == (match failure.path {
        Some(path) => path.path@,
        None => "(no path)"@,
    })
    &&& row.detail@ == failure.kind@ + " \u{2014} "@ + failure.message@
}

pub open spec fn row_of_skip(row: ReportRow, entry: SkipEntry) -> bool {
    row.path@ == entry.path.path@ && row.detail@ == entry.reason@
}

/// The dialog's headline: the job's kind and how much there is to report.
pub open spec fn report_headline(kind: JobKind, report: JobReport) -> Seq<char> {
    kind_text(kind) + " \u{2014} "@ + counts_text(report.errors@.len(), report.skipped@.len())
}

/// A line of the list.
#[derive(Debug, PartialEq, Eq)]
pub enum ReportLine {
    Heading(&'static str),
    Error(ReportRow),
    Skip(ReportRow),
}

/// The dialog as it is shown.
#[derive(Debug, PartialEq, Eq)]
pub struct ReportView {
    pub title: String,
    pub lines: Vec<ReportLine>,
    pub hint: &'static str,
}

pub open spec fn heading_line(line: ReportLine, text: Seq<char>) -> bool {
    line is Heading && line->Heading_0@ == text
}

pub open spec fn error_line(line: ReportLine, failure: StepFailure) -> bool {
    line is Error && row_of_error(line->Error_0, failure)
}

pub open spec fn skip_line(line: ReportLine, entry: SkipEntry) -> bool {
    line is Skip && row_of_skip(line->Skip_0, entry)
}

/// One where there is something, zero where there is nothing.
pub open spec fn headings(rows: nat) -> nat {
    if rows > 0 {
        1
    } else {
        0
    }
}

/// Whether `lines` are a heading and the failures, then a heading and the
/// skipped steps; a part without rows has no heading.
pub open spec fn lists_report(lines: Seq<ReportLine>, report: JobReport) -> bool {
    let errors = report.errors@.len();
    let skipped = report.skipped@.len();
    let second = headings(errors) + errors;
    &&& lines.len() == second + headings(skipped) + skipped
    &&& errors > 0 ==> heading_line(lines[0], "Errors"@)
    &&& forall|k: int|
        0 <= k < errors ==> error_line(#[trigger] lines[headings(errors) + k], report.errors@[k])
    &&& skipped > 0 ==> heading_line(lines[second as int], "Skipped"@)
    &&& forall|k: int|
        0 <= k < skipped ==> skip_line(
            #[trigger] lines[second + headings(skipped) + k],
            report.skipped@[k],
        )
}

/// What a key that runs the failed steps again leads to.
#[derive(Debug, PartialEq, Eq)]
pub enum RerunAnswer {
    /// A job is already being put into the queue, or there is nothing to run.
    Nothing,
    Refused(Notice),
    /// The failed and skipped steps are to be planned as a job of this kind.
    Plan(JobKind),
}

#[derive(Debug, PartialEq, Eq)]
pub struct JobReportDialogState {
    pub kind: JobKind,
    pub report: JobReport,
    pub rerun_in_progress: bool,
    pub state_dir: Option<String>,
}

impl JobReportDialogState {
    pub fn new(kind: JobKind, report: JobReport, state_dir: Option<String>) -> (state: Self)
        ensures
            state == (JobReportDialogState { kind, report, rerun_in_progress: false, state_dir }),
    {
        JobReportDialogState { kind, report, rerun_in_progress: false, state_dir }
    }

    /// The dialog as it is shown: failures and skipped steps in one list, each
    /// part under its heading.
    pub fn render(&self) -> (view: ReportView)
        ensures
            view.title@ == report_headline(self.kind, self.report),
            lists_report(view.lines@, self.report),
            view.hint@ == "Enter/R to re-run the failed and skipped items, Esc to close"@,
    {
        let mut lines: Vec<ReportLine> = Vec::new();
        if self.report.errors.len() > 0 {
            lines.push(ReportLine::Heading("Errors"));
        }
        let ghost top = lines@;
        let mut i: usize = 0;
        while i < self.report.errors.len()
            invariant
                i <= self.report.errors@.len(),
                lines@.len() == top.len() + i,
                forall|k: int| 0 <= k < top.len() ==> lines@[k] == top[k],
                forall|k: int|
                    0 <= k < i ==> error_line(
                        #[trigger] lines@[top.len() + k],
                        self.report.errors@[k],
                    ),
            decreases self.report.errors@.len() - i,
        {
            let failure = &self.report.errors[i];
            let row = ReportRow { path: error_path(failure), detail: error_detail(failure) };
            lines.push(ReportLine::Error(row));
            i = i + 1;
        }
        let ghost upper = lines@;
        if self.report.skipped.len() > 0 {
            lines.push(ReportLine::Heading("Skipped"));
        }
        let ghost middle = lines@;
        let mut j: usize = 0;
        while j < self.report.skipped.len()
            invariant
                j <= self.report.skipped@.len(),
                lines@.len() == middle.len() + j,
                forall|k: int| 0 <= k < middle.len() ==> lines@[k] == middle[k],
                forall|k: int|
                    0 <= k < j ==> skip_line(
                        #[trigger] lines@[middle.len() + k],
                        self.report.skipped@[k],
                    ),
            decreases self.report.skipped@.len() - j,
        {
            let entry = &self.report.skipped[j];
            let row = ReportRow { path: skip_path(entry), detail: entry.reason.clone() };
            lines.push(ReportLine::Skip(row));
            j = j + 1;
        }
        proof {
            assert(top.len() == headings(self.report.errors@.len()));
            assert(middle.len() == upper.len() + headings(self.report.skipped@.len()));
            if top.len() > 0 {
                assert(upper[0] == top[0]);
                assert(lines@[0] == middle[0]);
            }
            if self.report.skipped@.len() > 0 {
                assert(lines@[upper.len() as int] == middle[upper.len() as int]);
            }
            assert forall|k: int| 0 <= k < self.report.errors@.len() implies error_line(
                #[trigger] lines@[top.len() + k],
                self.report.errors@[k],
            ) by {
                assert(upper[top.len() + k] == middle[top.len() + k]);
                assert(error_line(upper[top.len() + k], self.report.errors@[k]));
            }
        }
        ReportView {
            title: report_title(self.kind, &self.report),
            lines,
            hint: "Enter/R to re-run the failed and skipped items, Esc to close",
        }
    }

    /// The key that runs the failed and skipped steps again.
    pub fn rerun(&mut self) -> (answer: RerunAnswer)
        ensures
            match answer {
                RerunAnswer::Nothing => (old(self).rerun_in_progress || (old(self).report.errors@.len() == 0 && old(self).report.skipped@.len() == 0))
                    && *final(self) == *old(self),
                RerunAnswer::Refused(notice) => {
                    &&& !old(self).rerun_in_progress
                    &&& old(self).report.errors@.len() > 0 || old(self).report.skipped@.len() > 0
                    &&& old(self).state_dir is None
                    &&& notice.level == NoticeLevel::Error
                    &&& notice.message@
                        == "Can't re-run the operation: no writable state directory found (is $HOME/$XDG_STATE_HOME set?)."@
                    &&& *final(self) == *old(self)
                },
                RerunAnswer::Plan(kind) => {
                    &&& !old(self).rerun_in_progress
                    &&& old(self).report.errors@.len() > 0 || old(self).report.skipped@.len() > 0
                    &&& old(self).state_dir is Some
                    &&& kind == old(self).kind
                    &&& *final(self) == (JobReportDialogState {
                        rerun_in_progress: true,
                        ..*old(self)
                    })
                },
            },
    {
        if self.rerun_in_progress || !has_anything_to_report(&self.report) {
            return RerunAnswer::Nothing;
        }
        if self.state_dir.is_none() {
            return RerunAnswer::Refused(
                Notice {
                    level: NoticeLevel::Error,
                    message:
                        "Can't re-run the operation: no writable state directory found (is $HOME/$XDG_STATE_HOME set?).".to_owned(),
                },
            );
        }
        self.rerun_in_progress = true;
        RerunAnswer::Plan(self.kind)
    }

    /// The job that the steps are queued as again: of the same sort as the one that
    /// ended, and a conflict that made it skip a step is asked about anew.
    pub fn job(&self) -> (job: DialogJob)
        ensures
            job == immediate_job(self.kind, true),
    {
        run_now(self.kind, true)
    }

    /// The planning run came to its end. Returns whether the dialog closes,
    /// and the notice that is raised where it does not.
    pub fn planning_ended(&mut self, outcome: &PlanOutcome) -> (r: (bool, Option<Notice>))
        ensures
            *final(self) == (JobReportDialogState { rerun_in_progress: false, ..*old(self) }),
            r.0 == (outcome is Enqueued),
            match r.1 {
                Some(notice) => outcome_text(*outcome) == Some(notice.message@) && notice.level
                    == NoticeLevel::Error,
                None => outcome_text(*outcome) is None,
            },
    {
        self.rerun_in_progress = false;
        report_job_outcome(outcome)
    }
}

/// Every failure and every skipped step has a line of its own, the failures
/// first, each kind in its order; each line tells of its own step. Nothing else
/// is listed but a heading over each kind that there is.
pub proof fn lemma_report_lists_every_step(lines: Seq<ReportLine>, report: JobReport, e: int, s: int)
    requires
        lists_report(lines, report),
        0 <= e < report.errors@.len(),
        0 <= s < report.skipped@.len(),
    ensures
        ({
            let errors = report.errors@.len() as int;
            let failure = report.errors@[e];
            let entry = report.skipped@[s];
            let error = lines[1 + e];
            let skip = lines[errors + 2 + s];
            &&& lines.len() == errors + report.skipped@.len() + 2
            &&& lines[0] is Heading && lines[0]->Heading_0@ == "Errors"@
            &&& error is Error
            &&& failure.path is Some ==> error->Error_0.path@ == failure.path->0.path@
            &&& failure.kind@.is_prefix_of(error->Error_0.detail@)
            &&& failure.message@.is_suffix_of(error->Error_0.detail@)
            &&& lines[errors + 1] is Heading && lines[errors + 1]->Heading_0@ == "Skipped"@
            &&& skip is Skip
            &&& skip->Skip_0.path@ == entry.path.path@
            &&& skip->Skip_0.detail@ == entry.reason@
        }),
{
    let errors = report.errors@.len();
    let failure = report.errors@[e];
    assert(error_line(lines[headings(errors) + e], failure));
    assert(skip_line(
        lines[headings(errors) + errors + headings(report.skipped@.len()) + s],
        report.skipped@[s],
    ));
    let detail = lines[1 + e]->Error_0.detail@;
    assert(detail.take(failure.kind@.len() as int) =~= failure.kind@);
    assert(detail.skip(detail.len() - failure.message@.len()) =~= failure.message@);
}

/// A report of one kind of steps alone has one heading, the kind's own.
pub proof fn lemma_report_of_one_kind(lines: Seq<ReportLine>, report: JobReport)
    requires
        lists_report(lines, report),
    ensures
        report.skipped@.len() == 0 && report.errors@.len() > 0 ==> lines.len()
            == report.errors@.len() + 1 && lines[0] is Heading && lines[0]->Heading_0@ == "Errors"@,
        report.errors@.len() == 0 && report.skipped@.len() > 0 ==> lines.len()
            == report.skipped@.len() + 1 && lines[0] is Heading && lines[0]->Heading_0@
            == "Skipped"@,
        report.errors@.len() == 0 && report.skipped@.len() == 0 ==> lines.len() == 0,
{
}

/// The headline names the job's kind, and counts the failures and the skipped
/// steps where there are any of either.
pub proof fn lemma_report_headline(kind: JobKind, report: JobReport)
    ensures
        ({
            let text = report_headline(kind, report);
            let errors = report.errors@.len();
            let skipped = report.skipped@.len();
            let head = kind_text(kind) + " \u{2014} "@;
            &&& head.is_prefix_of(text)
            &&& errors > 0 ==> (head + decimal(errors) + " error"@).is_prefix_of(text)
            &&& skipped > 0 ==> (decimal(skipped) + " skipped"@).is_suffix_of(text)
            &&& errors == 0 && skipped > 0 ==> text == head + decimal(skipped) + " skipped"@
            &&& errors > 0 && skipped == 0 ==> text == head + decimal(errors) + (if errors == 1 {
                " error"@
            } else {
                " errors"@
            })
            &&& errors == 0 && skipped == 0 ==> text == head + "nothing to report"@
        }),
{
    reveal_strlit(" error");
    reveal_strlit(" errors");
    reveal_strlit("s");
    reveal_strlit("");
    let text = report_headline(kind, report);
    let errors = report.errors@.len();
    let skipped = report.skipped@.len();
    let head = kind_text(kind) + " \u{2014} "@;
    assert(text.take(head.len() as int) =~= head);
    assert(" error"@ + "s"@ =~= " errors"@);
    assert(" error"@ + ""@ =~= " error"@);
    if errors > 0 {
        let begin = head + decimal(errors) + " error"@;
        assert(text.take(begin.len() as int) =~= begin);
        if skipped == 0 {
            assert(text =~= head + decimal(errors) + (" error"@ + plural_text(errors)));
        }
    }
    if skipped > 0 {
        let tail = decimal(skipped) + " skipped"@;
        assert(text.skip(text.len() - tail.len()) =~= tail);
        if errors == 0 {
            assert(text =~= head + decimal(skipped) + " skipped"@);
        }
    }
}

/// A failure that belongs to no path says so.
pub proof fn lemma_failure_without_a_path(row: ReportRow, failure: StepFailure)
    requires
        row_of_error(row, failure),
    ensures
        failure.path is None ==> row.path@ == "(no path)"@,
        failure.path is Some ==> row.path@ == failure.path->0.path@,
        row.detail@.len() == failure.kind@.len() + 3 + failure.message@.len(),
{
    reveal_strlit(" \u{2014} ");
}

} // verus!
