use duet_ui::attributes_dialog::{
    bind_attributes_dialog_keys, format_date_time, format_octal_mode, format_symbolic_mode,
    parse_octal_mode, parse_symbolic_mode, AttributesAction, AttributesAnswer,
    AttributesDialogState, AttributesPrefill, MetaPatch,
};
use duet_ui::calendar::{civil_from_unix, parse_date_time, unix_from_civil, write_date, Timestamp};
use duet_ui::dialog_job::{report_job_outcome, Notice, NoticeLevel, PlanOutcome};
use duet_ui::jobs::JobKind;
use duet_ui::vpath::VPath;

#[test]
fn parses_a_three_digit_octal_mode() {
    assert_eq!(parse_octal_mode("644"), Some(0o644));
    assert_eq!(parse_octal_mode("755"), Some(0o755));
    assert_eq!(parse_octal_mode("000"), Some(0));
    assert_eq!(parse_octal_mode("777"), Some(0o777));
}

#[test]
fn parses_a_four_digit_octal_mode_with_the_special_bits() {
    assert_eq!(parse_octal_mode("4755"), Some(0o4755));
    assert_eq!(parse_octal_mode("2775"), Some(0o2775));
    assert_eq!(parse_octal_mode("1777"), Some(0o1777));
    assert_eq!(parse_octal_mode("7777"), Some(0o7777));
}

#[test]
fn parses_a_one_or_two_digit_octal_mode() {
    assert_eq!(parse_octal_mode("7"), Some(0o7));
    assert_eq!(parse_octal_mode("44"), Some(0o44));
}

#[test]
fn rejects_malformed_octal_input() {
    for bad in [
        "", "8", "9", "64a", "rw-", "07777", "12345", " 644", "644 ", "-644", "6.4",
    ] {
        assert_eq!(parse_octal_mode(bad), None, "{bad:?} must not parse");
    }
}

#[test]
fn formats_three_digits_without_special_bits_and_four_with() {
    assert_eq!(format_octal_mode(0o644), "644");
    assert_eq!(format_octal_mode(0o000), "000");
    assert_eq!(format_octal_mode(0o4755), "4755");
    assert_eq!(format_octal_mode(0o1777), "1777");
}

#[test]
fn format_octal_mode_masks_off_the_file_type_bits() {
    assert_eq!(format_octal_mode(0o100_644), "644");
    assert_eq!(format_octal_mode(0o040_755), "755");
}

#[test]
fn parses_an_ordinary_symbolic_mode() {
    assert_eq!(parse_symbolic_mode("rw-r--r--"), Some(0o644));
    assert_eq!(parse_symbolic_mode("rwxr-xr-x"), Some(0o755));
    assert_eq!(parse_symbolic_mode("---------"), Some(0));
    assert_eq!(parse_symbolic_mode("rwxrwxrwx"), Some(0o777));
}

#[test]
fn parses_setuid_setgid_and_sticky_in_both_cases() {
    assert_eq!(parse_symbolic_mode("rwsr-xr-x"), Some(0o4755));
    assert_eq!(parse_symbolic_mode("rwSr-xr-x"), Some(0o4655));
    assert_eq!(parse_symbolic_mode("rwxr-sr-x"), Some(0o2755));
    assert_eq!(parse_symbolic_mode("rwxr-Sr-x"), Some(0o2745));
    assert_eq!(parse_symbolic_mode("rwxrwxrwt"), Some(0o1777));
    assert_eq!(parse_symbolic_mode("rwxrwxrwT"), Some(0o1776));
}

#[test]
fn rejects_malformed_symbolic_input() {
    for bad in [
        "",
        "rw-r--r",
        "rw-r--r---",
        "-rw-r--r--",
        "644",
        "xw-r--r--",
        "rr-r--r--",
        "rw-r--r--z",
        "rwtr-xr-x",
        "rwxr-xr-s",
        "RW-R--R--",
    ] {
        assert_eq!(parse_symbolic_mode(bad), None, "{bad:?} must not parse");
    }
}

#[test]
fn formats_the_special_bits_the_way_ls_does() {
    assert_eq!(format_symbolic_mode(0o644), "rw-r--r--");
    assert_eq!(format_symbolic_mode(0o755), "rwxr-xr-x");
    assert_eq!(format_symbolic_mode(0o4755), "rwsr-xr-x");
    assert_eq!(format_symbolic_mode(0o4655), "rwSr-xr-x");
    assert_eq!(format_symbolic_mode(0o2775), "rwxrwsr-x");
    assert_eq!(format_symbolic_mode(0o1777), "rwxrwxrwt");
    assert_eq!(format_symbolic_mode(0o1776), "rwxrwxrwT");
}

#[test]
fn every_mode_round_trips_through_both_renderings() {
    for bits in 0..=0o7777u32 {
        assert_eq!(
            parse_octal_mode(&format_octal_mode(bits)),
            Some(bits),
            "octal round trip failed for {bits:o}"
        );
        assert_eq!(
            parse_symbolic_mode(&format_symbolic_mode(bits)),
            Some(bits),
            "symbolic round trip failed for {bits:o}"
        );
        assert_eq!(
            parse_symbolic_mode(&format_symbolic_mode(
                parse_octal_mode(&format_octal_mode(bits)).unwrap()
            )),
            Some(bits)
        );
    }
}

#[test]
fn both_renderings_are_fixed_points_so_the_live_sync_terminates() {
    for bits in 0..=0o7777u32 {
        let octal = format_octal_mode(bits);
        assert_eq!(
            format_octal_mode(parse_octal_mode(&octal).unwrap()),
            octal,
            "octal rendering is not canonical for {bits:o}"
        );
        let symbolic = format_symbolic_mode(bits);
        assert_eq!(
            format_symbolic_mode(parse_symbolic_mode(&symbolic).unwrap()),
            symbolic,
            "symbolic rendering is not canonical for {bits:o}"
        );
    }
}

#[test]
fn parses_the_format_the_panel_itself_displays() {
    let t = parse_date_time("2023-11-14 22:13").unwrap();
    assert_eq!(t.secs, 1_700_000_000 - 20, "22:13:00, not 22:13:20");
    assert_eq!(t.nanos, 0);
    assert_eq!(format_date_time(t.secs), "2023-11-14 22:13");
}

#[test]
fn a_displayed_timestamp_round_trips_back_to_the_same_minute() {
    for secs in [1_700_000_000i64, 981_173_100, 951_782_400, 2_147_483_647] {
        let truncated = secs - secs.rem_euclid(60);
        let rendered = format_date_time(truncated);
        assert_eq!(
            parse_date_time(&rendered).map(|t| t.secs),
            Some(truncated),
            "{rendered} did not round-trip"
        );
    }
}

#[test]
fn accepts_a_real_leap_day() {
    assert!(parse_date_time("2024-02-29 12:00").is_some());
    assert!(parse_date_time("2000-02-29 00:00").is_some());
}

#[test]
fn rejects_malformed_or_impossible_dates_and_times() {
    for bad in [
        "",
        "2023-11-14",
        "22:13",
        "2023-11-14T22:13",
        "2023-11 22:13",
        "2023-11-14-01 22:13",
        "2023-13-01 00:00",
        "2023-00-01 00:00",
        "2023-02-30 00:00",
        "2023-11-31 00:00",
        "2023-02-29 00:00",
        "2023-11-14 24:00",
        "2023-11-14 22:60",
        "2023-11-14 22",
        "-",
        "not a date at all",
    ] {
        assert_eq!(parse_date_time(bad), None, "{bad:?} must not parse");
    }
}

#[test]
fn write_date_formats_unix_seconds() {
    let mut buf = String::new();
    write_date(&mut buf, 1_700_000_000);
    assert_eq!(buf, "2023-11-14 22:13");

    buf.clear();
    write_date(&mut buf, 0);
    assert_eq!(buf, "-");
}

#[test]
fn dates_before_the_epoch_and_far_from_it_are_right() {
    assert_eq!(civil_from_unix(-1), (1969, 12, 31, 23, 59));
    assert_eq!(civil_from_unix(-62_167_219_200), (0, 1, 1, 0, 0));
    assert_eq!(civil_from_unix(-62_167_219_201), (-1, 12, 31, 23, 59));
    assert_eq!(civil_from_unix(253_402_300_799), (9999, 12, 31, 23, 59));
    assert_eq!(format_date_time(-62_167_219_201), "-001-12-31 23:59");
    assert_eq!(format_date_time(253_402_300_800), "10000-01-01 00:00");
    let (y, m, d, hh, mm) = civil_from_unix(i64::MAX);
    assert_eq!(unix_from_civil(y, m, d, hh, mm), Some(i64::MAX - i64::MAX.rem_euclid(60)));
    assert_eq!(unix_from_civil(2024, 2, 29, 0, 0), Some(1_709_164_800));
    assert_eq!(unix_from_civil(2023, 2, 29, 0, 0), None);
    assert_eq!(unix_from_civil(i64::MAX, 1, 1, 0, 0), None);
}

#[test]
fn every_day_of_the_calendar_comes_back() {
    let mut secs = -62_167_219_200i64;
    while secs < 10_000_000_000 {
        let (y, m, d, hh, mm) = civil_from_unix(secs);
        assert_eq!(unix_from_civil(y, m, d, hh, mm), Some(secs));
        secs += 86_400 * 13;
    }
}

#[test]
fn numbers_of_a_date_may_carry_a_plus_sign() {
    assert_eq!(
        parse_date_time("2023-+11-14 22:13"),
        Some(Timestamp { secs: 1_700_000_000 - 20, nanos: 0 })
    );
    assert_eq!(parse_date_time("2023-++1-14 22:13"), None);
    assert_eq!(parse_date_time("2023-4294967296-14 22:13"), None);
    assert_eq!(parse_date_time("9223372036854775807-01-01 00:00"), None);
}

fn dialog(prefill: Option<AttributesPrefill>, state_dir: Option<String>) -> AttributesDialogState {
    AttributesDialogState::new(
        vec![VPath::local("/tmp/a".to_string())],
        Some("a".to_string()),
        false,
        prefill,
        state_dir,
    )
}

#[test]
fn attributes_are_changed_at_once() {
    let job = dialog(None, None).job();
    assert_eq!(job.kind, JobKind::ChangeAttributes);
    assert_eq!((job.priority, job.concurrency, job.asks), (0, 4, true));
}

fn shown() -> AttributesPrefill {
    AttributesPrefill {
        mode: Some(0o100_644),
        modified_secs: Some(1_700_000_000),
        accessed_secs: None,
    }
}

#[test]
fn the_dialog_opens_with_what_the_entry_has() {
    let state = dialog(Some(shown()), None);
    assert_eq!(state.mode_octal, "644");
    assert_eq!(state.mode_symbolic, "rw-r--r--");
    assert_eq!(state.modified, "2023-11-14 22:13");
    assert_eq!(state.accessed, "");
    let blank = dialog(None, None);
    assert_eq!(blank.mode_octal, "");
    assert_eq!(blank.mode_symbolic, "");
}

#[test]
fn the_two_permission_fields_mirror_each_other() {
    let mut state = dialog(Some(shown()), None);
    state.mode_octal = " 44 ".to_string();
    assert!(state.sync_symbolic_from_octal());
    assert_eq!(state.mode_symbolic, "---r--r--");
    assert!(state.sync_octal_from_symbolic());
    assert_eq!(state.mode_octal, "044");
    assert!(!state.sync_symbolic_from_octal());

    state.mode_octal = "9".to_string();
    assert!(!state.sync_symbolic_from_octal());
    assert_eq!(state.mode_symbolic, "---r--r--", "what does not parse stays where it is");

    state.mode_symbolic = String::new();
    assert!(state.sync_octal_from_symbolic());
    assert_eq!(state.mode_octal, "", "clearing carries over");
}

#[test]
fn confirming_the_attributes_makes_a_patch_of_what_is_not_blank() {
    let mut state = dialog(Some(shown()), Some("/state".to_string()));
    state.mode_octal = "4755".to_string();
    state.modified = String::new();
    state.accessed = "2024-02-29 12:00".to_string();
    state.toggle_recursive();
    let targets: Vec<VPath> = state
        .targets
        .iter()
        .map(|t| VPath::local(t.path.clone()))
        .collect();
    assert!(!targets.is_empty());
    assert_eq!(
        state.confirm(),
        AttributesAnswer::Plan {
            targets,
            patch: MetaPatch {
                mode: Some(0o4755),
                modified: None,
                accessed: Some(Timestamp { secs: 1_709_208_000, nanos: 0 }),
            },
            recursive: true,
        }
    );
    assert!(state.planning_in_progress);
    assert_eq!(state.confirm(), AttributesAnswer::Busy);
    assert_eq!(
        state.planning_ended(&PlanOutcome::Failed("no".to_string())),
        (
            false,
            Some(Notice {
                level: NoticeLevel::Error,
                message: "Couldn't plan the operation: no".to_string(),
            })
        )
    );
    assert!(!state.planning_in_progress);
}

#[test]
fn confirming_the_attributes_is_refused_with_the_reason() {
    let mut state = dialog(None, None);
    assert_eq!(state.confirm(), AttributesAnswer::Close);
    state.mode_symbolic = "rw".to_string();
    let refused = |message: &str| {
        AttributesAnswer::Refused(Notice {
            level: NoticeLevel::Warning,
            message: message.to_string(),
        })
    };
    assert_eq!(
        state.confirm(),
        refused(
            "\u{201c}rw\u{201d} isn't a valid symbolic permission value (nine characters, e.g. \
             rwxr-xr-x)."
        )
    );
    state.mode_octal = " 8 ".to_string();
    assert_eq!(
        state.confirm(),
        refused(
            "\u{201c}8\u{201d} isn't a valid octal permission value (three or four digits, 0-7, \
             e.g. 755)."
        )
    );
    state.mode_octal = "7".to_string();
    assert_eq!(
        state.confirm(),
        refused(
            "Can't run the operation: no writable state directory found (is \
             $HOME/$XDG_STATE_HOME set?)."
        )
    );
    state.modified = "soon".to_string();
    assert_eq!(
        state.confirm(),
        refused(
            "Modified: \u{201c}soon\u{201d} isn't a valid date and time (expected YYYY-MM-DD \
             HH:MM)."
        )
    );
    state.modified = String::new();
    state.accessed = "later".to_string();
    assert_eq!(
        state.confirm(),
        refused(
            "Accessed: \u{201c}later\u{201d} isn't a valid date and time (expected YYYY-MM-DD \
             HH:MM)."
        )
    );
}

#[test]
fn the_attributes_dialog_says_what_it_works_on() {
    let mut state = dialog(None, None);
    assert_eq!(state.title(), "Change attributes of \u{201c}a\u{201d}:");
    let view = state.render();
    assert_eq!(view.title, "Change attributes of \u{201c}a\u{201d}:");
    let labels: Vec<&str> = view.fields.iter().map(|row| row.label).collect();
    assert_eq!(
        labels,
        vec!["Permissions (octal)", "Symbolic", "Modified", "Accessed"]
    );
    assert_eq!(view.fields[0].value, state.mode_octal);
    assert_eq!(view.recursive, state.recursive_hint());
    state.single_name = None;
    assert_eq!(state.title(), "Change attributes of 1 item:");
    state.targets.push(VPath::local("/tmp/b".to_string()));
    assert_eq!(state.title(), "Change attributes of 2 items:");
    assert!(state.recursive_hint().ends_with("changes nothing"));
    state.has_directory_target = true;
    assert!(state.recursive_hint().ends_with("the selected entries themselves"));
    state.toggle_recursive();
    assert!(state.recursive_hint().starts_with("Recursive: on"));
}

#[test]
fn a_planning_run_closes_its_dialog_or_raises_a_notice() {
    assert_eq!(report_job_outcome(&PlanOutcome::Enqueued(7)), (true, None));
    assert_eq!(
        report_job_outcome(&PlanOutcome::Dropped).1.unwrap().message,
        "The planning task was dropped before completing."
    );
}

#[test]
fn one_key_is_bound() {
    assert_eq!(
        bind_attributes_dialog_keys("ctrl-r"),
        Some(AttributesAction::ToggleRecursiveApply)
    );
    assert_eq!(bind_attributes_dialog_keys("ctrl-t"), None);
}
