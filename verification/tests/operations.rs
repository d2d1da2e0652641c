use std::collections::HashMap;

use duet_ui::dialog_job::PlanOutcome;
use duet_ui::job_report_dialog::{
    bind_job_report_dialog_keys, error_detail, error_path, has_anything_to_report, report_title,
    skip_path, JobReport, JobReportDialogState, ReportAction, ReportLine, ReportRow, RerunAnswer,
    SkipEntry, StepFailure,
};
use duet_ui::jobs::{plural, JobKind};
use duet_ui::operation_manager::{
    bind_operation_manager_keys, controls_hint, describe_kind, describe_state, format_eta_secs,
    progress_line, row_title, sorted_jobs, tray_summary, Job, JobOutcome, JobState, ManagerAction,
    ManagerStep, OperationManagerState, ProgressSnapshot,
};
use duet_ui::vpath::VPath;

fn vpath(path: &str) -> VPath {
    VPath::local(path.to_string())
}

fn failure(path: Option<&str>, kind: &str, message: &str) -> StepFailure {
    StepFailure {
        path: path.map(vpath),
        kind: kind.to_string(),
        message: message.to_string(),
    }
}

fn skip(path: &str, reason: &str) -> SkipEntry {
    SkipEntry {
        path: vpath(path),
        reason: reason.to_string(),
    }
}

fn job(id: u64, kind: JobKind, state: JobState) -> Job {
    Job {
        id,
        kind,
        total_files: 10,
        total_bytes: 1024,
        state,
    }
}

fn running(step: u32) -> JobState {
    JobState::Running { current_step: step }
}

fn completed() -> JobState {
    JobState::Terminal {
        outcome: JobOutcome::Completed,
        report: JobReport::default(),
    }
}

fn snapshot(files_done: u64, bytes_done: u64, throughput: u64, eta: Option<u64>) -> ProgressSnapshot {
    ProgressSnapshot {
        files_done,
        bytes_done,
        throughput_bytes_per_sec: throughput,
        eta_secs: eta,
    }
}

#[test]
fn report_title_names_the_kind_and_both_counts() {
    let report = JobReport {
        errors: vec![
            failure(Some("/a"), "permission denied", "denied"),
            failure(Some("/b"), "permission denied", "denied"),
        ],
        skipped: vec![skip("/c", "already there")],
        ..Default::default()
    };
    assert_eq!(
        report_title(JobKind::Copy, &report),
        "Copy \u{2014} 2 errors, 1 skipped"
    );
}

#[test]
fn report_title_singularises_exactly_one_error() {
    let report = JobReport {
        errors: vec![failure(Some("/a"), "permission denied", "denied")],
        ..Default::default()
    };
    assert_eq!(
        report_title(JobKind::Delete { permanent: true }, &report),
        "Delete (permanent) \u{2014} 1 error"
    );
}

#[test]
fn report_title_omits_the_error_half_when_there_are_only_skips() {
    let report = JobReport {
        skipped: vec![skip("/c", "already there"), skip("/d", "already there")],
        ..Default::default()
    };
    assert_eq!(
        report_title(JobKind::Move, &report),
        "Move \u{2014} 2 skipped"
    );
}

#[test]
fn report_title_degrades_gracefully_for_an_empty_report() {
    assert_eq!(
        report_title(JobKind::Copy, &JobReport::default()),
        "Copy \u{2014} nothing to report"
    );
}

#[test]
fn has_anything_to_report_is_false_only_for_a_genuinely_empty_report() {
    assert!(!has_anything_to_report(&JobReport::default()));
    assert!(has_anything_to_report(&JobReport {
        errors: vec![failure(None, "fatal", "boom")],
        ..Default::default()
    }));
    assert!(has_anything_to_report(&JobReport {
        skipped: vec![skip("/c", "already there")],
        ..Default::default()
    }));
}

#[test]
fn error_path_renders_a_plain_absolute_path_not_a_file_uri() {
    let f = failure(Some("/tmp/locked/a.txt"), "permission denied", "EACCES");
    assert_eq!(error_path(&f), "/tmp/locked/a.txt");
}

#[test]
fn error_path_falls_back_for_a_failure_with_no_path_at_all() {
    let f = failure(None, "fatal", "failed to journal JobStarted");
    assert_eq!(error_path(&f), "(no path)");
}

#[test]
fn error_detail_carries_both_the_classification_and_the_message() {
    let f = failure(Some("/a"), "permission denied", "EACCES on unlinkat");
    assert_eq!(
        error_detail(&f),
        "permission denied \u{2014} EACCES on unlinkat"
    );
}

#[test]
fn skip_path_renders_the_plain_path() {
    assert_eq!(skip_path(&skip("/dst/a.txt", "exists")), "/dst/a.txt");
}

#[test]
fn a_report_is_one_list_and_runs_again_what_failed() {
    let mut state = JobReportDialogState::new(
        JobKind::Copy,
        JobReport {
            errors: (0..50)
                .map(|n| failure(Some(&format!("/f{n}")), "permission denied", "no"))
                .collect(),
            skipped: vec![skip("/s", "exists")],
            ..Default::default()
        },
        None,
    );
    let view = state.render();
    assert_eq!(view.lines.len(), 53);
    assert_eq!(view.lines[0], ReportLine::Heading("Errors"));
    assert_eq!(
        view.lines[50],
        ReportLine::Error(ReportRow {
            path: "/f49".to_string(),
            detail: "permission denied \u{2014} no".to_string(),
        })
    );
    assert_eq!(view.lines[51], ReportLine::Heading("Skipped"));
    assert_eq!(
        view.lines[52],
        ReportLine::Skip(ReportRow {
            path: "/s".to_string(),
            detail: "exists".to_string(),
        })
    );
    assert_eq!(view.title, "Copy \u{2014} 50 errors, 1 skipped");
    assert!(matches!(state.rerun(), RerunAnswer::Refused(_)));
    state.state_dir = Some("/state".to_string());
    assert_eq!(state.rerun(), RerunAnswer::Plan(JobKind::Copy));
    let job = state.job();
    assert_eq!(job.kind, JobKind::Copy);
    assert_eq!((job.priority, job.concurrency, job.asks), (0, 4, true));
    assert_eq!(state.rerun(), RerunAnswer::Nothing);
    assert_eq!(state.planning_ended(&PlanOutcome::Enqueued(9)), (true, None));
    let mut empty = JobReportDialogState::new(
        JobKind::Move,
        JobReport::default(),
        Some("/state".to_string()),
    );
    assert_eq!(empty.rerun(), RerunAnswer::Nothing);
    assert_eq!(
        bind_job_report_dialog_keys("enter"),
        Some(ReportAction::RerunFailedItems)
    );
    assert_eq!(plural(1), "");
    assert_eq!(plural(0), "s");
}

#[test]
fn sorted_jobs_puts_active_jobs_before_terminal_ones() {
    let jobs = vec![
        job(1, JobKind::Copy, completed()),
        job(2, JobKind::Move, running(0)),
    ];
    let sorted = sorted_jobs(jobs);
    assert_eq!(sorted[0].id, 2, "the active job must sort first");
    assert_eq!(sorted[1].id, 1);
}

#[test]
fn sorted_jobs_orders_same_group_by_most_recently_enqueued_first() {
    let jobs = vec![
        job(1, JobKind::Copy, running(0)),
        job(3, JobKind::Copy, running(0)),
        job(2, JobKind::Copy, running(0)),
    ];
    let sorted = sorted_jobs(jobs);
    let ids: Vec<u64> = sorted.iter().map(|j| j.id).collect();
    assert_eq!(ids, vec![3, 2, 1]);
}

#[test]
fn tray_summary_is_none_when_no_job_is_active() {
    let jobs = vec![job(1, JobKind::Copy, completed())];
    assert_eq!(tray_summary(&jobs, &HashMap::new()), None);
}

#[test]
fn tray_summary_is_none_for_an_empty_queue() {
    assert_eq!(tray_summary(&vec![], &HashMap::new()), None);
}

#[test]
fn tray_summary_shows_the_count_alone_before_any_progress_sample_lands() {
    let jobs = vec![job(1, JobKind::Copy, running(0))];
    let text = tray_summary(&jobs, &HashMap::new()).unwrap();
    assert_eq!(text, "1 operation");
}

#[test]
fn tray_summary_aggregates_throughput_and_takes_the_largest_eta() {
    let jobs = vec![
        job(1, JobKind::Copy, running(0)),
        job(2, JobKind::Move, running(0)),
    ];
    let mut progress = HashMap::new();
    progress.insert(1, snapshot(1, 1024, 1024, Some(10)));
    progress.insert(2, snapshot(1, 1024, 2048, Some(90)));
    let text = tray_summary(&jobs, &progress).unwrap();
    assert!(text.starts_with("2 operations"));
    assert!(text.contains("3.0 KB/s"), "text was: {text}");
    assert!(text.contains("ETA 1:30"), "text was: {text}");
}

#[test]
fn tray_summary_pluralizes_correctly_for_exactly_one_operation() {
    let jobs = vec![job(1, JobKind::Copy, JobState::Queued)];
    let text = tray_summary(&jobs, &HashMap::new()).unwrap();
    assert_eq!(text, "1 operation");
}

#[test]
fn the_tray_counts_only_jobs_that_run_and_holds_its_sum() {
    let jobs = vec![
        job(1, JobKind::Copy, running(0)),
        job(2, JobKind::Copy, JobState::Paused { current_step: 1 }),
        job(3, JobKind::Copy, running(0)),
    ];
    let mut progress = HashMap::new();
    progress.insert(1, snapshot(0, 0, u64::MAX, None));
    progress.insert(2, snapshot(0, 0, 5, Some(1000)));
    progress.insert(3, snapshot(0, 0, 7, None));
    assert_eq!(
        tray_summary(&jobs, &progress),
        Some("3 operations \u{2014} 16384.0 PB/s".to_string())
    );
}

#[test]
fn describe_kind_covers_delete_permanent_and_trash_distinctly() {
    assert_eq!(
        describe_kind(JobKind::Delete { permanent: true }),
        "Delete (permanent)"
    );
    assert_eq!(
        describe_kind(JobKind::Delete { permanent: false }),
        "Delete (trash)"
    );
}

#[test]
fn controls_hint_offers_only_whats_valid_for_the_state() {
    assert_eq!(controls_hint(&running(0)), "P pause \u{2022} C cancel");
    assert_eq!(
        controls_hint(&JobState::Paused { current_step: 0 }),
        "R resume \u{2022} C cancel"
    );
    assert_eq!(controls_hint(&JobState::Queued), "C cancel");
    assert_eq!(controls_hint(&completed()), "");
}

#[test]
fn progress_line_reports_no_data_yet_before_the_first_sample() {
    let j = job(1, JobKind::Copy, running(0));
    assert_eq!(progress_line(&j, None), "No progress data yet.");
}

#[test]
fn progress_line_formats_a_live_sample() {
    let j = job(1, JobKind::Copy, running(0));
    let line = progress_line(&j, Some(snapshot(3, 512, 256, Some(5))));
    assert!(line.starts_with("3/10 files"), "line was: {line}");
    assert!(line.contains("ETA 0:05"), "line was: {line}");
    assert_eq!(
        progress_line(&j, Some(snapshot(3, 512, 256, None))),
        "3/10 files \u{2022} 512 B of 1.0 KB \u{2022} 256 B/s \u{2022} ETA --"
    );
}

#[test]
fn progress_line_summarizes_a_failed_terminal_job() {
    let report = JobReport {
        errors: vec![failure(Some("/tmp/x"), "permission denied", "denied")],
        ..Default::default()
    };
    let j = job(
        1,
        JobKind::Copy,
        JobState::Terminal {
            outcome: JobOutcome::Failed,
            report,
        },
    );
    assert_eq!(progress_line(&j, None), "Failed \u{2014} 1 error(s).");
}

#[test]
fn progress_line_summarizes_a_completed_with_skips_terminal_job() {
    let report = JobReport {
        files_completed: 4,
        skipped: vec![skip("/tmp/y", "already exists")],
        ..Default::default()
    };
    let j = job(
        1,
        JobKind::Copy,
        JobState::Terminal {
            outcome: JobOutcome::CompletedWithSkips,
            report,
        },
    );
    assert_eq!(progress_line(&j, None), "4 file(s) completed, 1 skipped.");
}

#[test]
fn progress_lines_of_the_other_states() {
    assert_eq!(
        progress_line(&job(1, JobKind::Copy, JobState::Queued), None),
        "Waiting in queue."
    );
    assert_eq!(
        progress_line(&job(1, JobKind::Copy, JobState::Planning), None),
        "Scanning source..."
    );
    let done = JobState::Terminal {
        outcome: JobOutcome::Completed,
        report: JobReport {
            files_completed: 2,
            bytes_completed: 1536,
            ..Default::default()
        },
    };
    assert_eq!(
        progress_line(&job(1, JobKind::Copy, done), None),
        "2 file(s), 1.5 KB."
    );
    assert_eq!(
        row_title(&job(1, JobKind::CreateDir, completed())),
        "Create directory \u{2014} Completed"
    );
    assert_eq!(describe_state(&JobState::Planning), "Planning");
}

#[test]
fn format_eta_secs_formats_minutes_and_seconds() {
    assert_eq!(format_eta_secs(5), "0:05");
    assert_eq!(format_eta_secs(90), "1:30");
}

#[test]
fn format_eta_secs_formats_hours_once_an_hour_is_reached() {
    assert_eq!(format_eta_secs(3661), "1:01:01");
}

#[test]
fn the_managers_cursor_stays_on_a_row() {
    let jobs = sorted_jobs(vec![
        job(1, JobKind::Copy, running(0)),
        job(2, JobKind::Copy, running(0)),
    ]);
    let mut state = OperationManagerState::new();
    state.cursor_up();
    assert_eq!(state.cursor, 0);
    state.cursor_down(2);
    state.cursor_down(2);
    assert_eq!(state.cursor, 1);
    assert_eq!(state.selected(&jobs), Some(1));
    state.clamp_cursor(1);
    assert_eq!(state.cursor, 0);
    state.clamp_cursor(0);
    state.cursor_down(0);
    assert_eq!(state.selected(&Vec::new()), None);
    assert_eq!(
        bind_operation_manager_keys("p"),
        Some(ManagerAction::PauseSelected)
    );
    assert_eq!(bind_operation_manager_keys("x"), None);
}

#[test]
fn the_manager_shows_each_job_and_acts_on_the_one_under_the_cursor() {
    let jobs = sorted_jobs(vec![
        job(5, JobKind::Move, JobState::Queued),
        job(7, JobKind::Copy, running(0)),
    ]);
    let mut progress = HashMap::new();
    progress.insert(7, snapshot(3, 512, 256, Some(5)));
    let mut state = OperationManagerState { cursor: 9 };
    let view = state.render(&jobs, &progress);
    assert_eq!(state.cursor, 1);
    assert_eq!(view.empty, None);
    assert_eq!(view.rows[0].title, "Copy \u{2014} Running");
    assert_eq!(view.rows[0].controls, "P pause \u{2022} C cancel");
    assert!(view.rows[0].progress.starts_with("3/10 files"));
    assert!(!view.rows[0].selected);
    assert_eq!(view.rows[1].progress, "Waiting in queue.");
    assert!(view.rows[1].selected);
    assert_eq!(
        state.perform(ManagerAction::CancelSelected, &jobs),
        Some(ManagerStep::Cancel(5))
    );
    assert_eq!(state.perform(ManagerAction::CursorUp, &jobs), None);
    assert_eq!(
        state.perform(ManagerAction::PauseSelected, &jobs),
        Some(ManagerStep::Pause(7))
    );
    assert_eq!(
        state.perform(ManagerAction::ResumeSelected, &Vec::new()),
        None
    );
    assert_eq!(
        state.perform(ManagerAction::Close, &jobs),
        Some(ManagerStep::Close)
    );
    assert_eq!(
        state.render(&Vec::new(), &progress).empty,
        Some("No operations yet.")
    );
}

#[test]
fn the_manager_sorts_what_the_queue_hands_out() {
    let snapshot = || {
        vec![
            job(1, JobKind::Copy, completed()),
            job(2, JobKind::Move, running(0)),
            job(3, JobKind::Copy, JobState::Queued),
        ]
    };
    let mut state = OperationManagerState::new();
    let view = state.show(snapshot(), &HashMap::new());
    let titles: Vec<&str> = view.rows.iter().map(|row| row.title.as_str()).collect();
    assert_eq!(
        titles,
        vec![
            "Copy \u{2014} Queued",
            "Move \u{2014} Running",
            "Copy \u{2014} Completed"
        ]
    );
    assert_eq!(state.act(ManagerAction::CursorDown, snapshot()), None);
    assert_eq!(
        state.act(ManagerAction::PauseSelected, snapshot()),
        Some(ManagerStep::Pause(2))
    );
}
