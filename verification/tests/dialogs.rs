use duet_ui::columns::{EntryKind, SortColumn};
use duet_ui::conflict_dialog::{
    bind_conflict_dialog_keys, hash_line, metadata_lines, policy_row, rename_alternate,
    rename_given, rename_parts,
    resolve_reply, ConflictAction, ConflictDialogState, ConflictPrompt, FileDigest, Focus,
    ConflictStep, HashOutcome, HashState, Metadata, Side, SideView, HASH_CHUNK_BYTES,
};
use duet_ui::calendar::Timestamp;
use duet_ui::copy_move_dialog::{
    bind_copy_move_dialog_keys, complete_against_model, completed_path, resolve_source_names, row_beginning,
    CopyMoveAction, CopyMoveAnswer, CopyMoveDialogState, CopyMovePlan, JOB_CONCURRENCY,
};
use duet_ui::delete_dialog::{
    bind_delete_dialog_keys, delete_title, non_empty_directory_names, non_empty_verdict,
    non_empty_warning, resolve_delete_mode, DeleteAction, DeleteAnswer, DeleteDialogState,
    DeleteMode, DirectoryRead,
};
use duet_ui::dialog_job::{run_now, DialogJob, NoticeLevel, PlanOutcome};
use duet_ui::file_table::FileTableDelegate;
use duet_ui::jobs::{
    describe_planner_error, ConflictPolicy, ConflictResolution, ConflictScope, JobKind,
    PlannerError,
};
use duet_ui::link_dialog::{LinkAnswer, LinkDialogState, LinkKind, LinkPlan};
use duet_ui::listing::{DirectoryModel, Entry, EntryId};
use duet_ui::mkdir_dialog::{MkdirAnswer, MkdirDialogState};
use duet_ui::paths::{
    extension_of, file_name_of, is_same_path, joined, split_parent_prefix, split_with,
};
use duet_ui::vpath::VPath;

fn vpath(path: &str) -> VPath {
    VPath::local(path.to_string())
}

fn model_with(entries: &[(&str, EntryKind)], order: Vec<usize>) -> DirectoryModel {
    let mut model = DirectoryModel::new();
    for (name, kind) in entries {
        model.push(Entry {
            name: name.to_string(),
            kind: *kind,
            size: 0,
            mtime_secs: 0,
        });
    }
    model.sort_by(SortColumn::Name, true, order);
    model
}

#[test]
fn resolve_source_names_prefers_the_real_selection() {
    let model = model_with(
        &[
            ("a.txt", EntryKind::File),
            ("b.txt", EntryKind::File),
            ("c.txt", EntryKind::File),
        ],
        vec![0, 1, 2],
    );
    let mut delegate = FileTableDelegate::new(model);
    let order = delegate.model().order().to_vec();
    delegate.model_mut().select(EntryId::new(order[0]));
    delegate.model_mut().select(EntryId::new(order[2]));

    let mut names = resolve_source_names(&delegate);
    names.sort();
    assert_eq!(names, vec!["a.txt".to_string(), "c.txt".to_string()]);
}

#[test]
fn resolve_source_names_falls_back_to_the_cursor_row_when_nothing_selected() {
    let model = model_with(&[("only.txt", EntryKind::File)], vec![0]);
    let delegate = FileTableDelegate::new(model);
    assert_eq!(
        resolve_source_names(&delegate),
        vec!["only.txt".to_string()]
    );
}

#[test]
fn resolve_source_names_is_empty_when_cursor_is_on_the_parent_row() {
    let model = model_with(&[("dir", EntryKind::Directory)], vec![0]);
    let mut delegate = FileTableDelegate::new(model);
    delegate.set_has_parent_row(true);
    delegate.move_cursor_to(0);
    assert!(resolve_source_names(&delegate).is_empty());
}

#[test]
fn resolve_source_names_is_empty_for_an_empty_listing() {
    let delegate = FileTableDelegate::new(DirectoryModel::new());
    assert!(resolve_source_names(&delegate).is_empty());
}

#[test]
fn split_parent_prefix_splits_a_partial_last_segment() {
    assert_eq!(
        split_parent_prefix("/home/user/doc"),
        Some(("/home/user".to_string(), "doc".to_string()))
    );
}

#[test]
fn split_parent_prefix_treats_a_trailing_slash_as_an_empty_prefix() {
    assert_eq!(
        split_parent_prefix("/home/user/"),
        Some(("/home/user/".to_string(), String::new()))
    );
}

#[test]
fn split_parent_prefix_has_nothing_to_say_of_paths_without_a_name() {
    assert_eq!(split_parent_prefix(""), None);
    assert_eq!(split_parent_prefix("."), None);
    assert_eq!(
        split_parent_prefix("a//b/."),
        Some(("a".to_string(), "b".to_string()))
    );
    assert_eq!(split_parent_prefix("/home/.."), None);
    assert_eq!(
        split_parent_prefix("doc"),
        Some((String::new(), "doc".to_string()))
    );
    assert_eq!(
        split_with("a/b", Some("a".to_string()), Some("b".to_string())),
        Some(("a".to_string(), "b".to_string()))
    );
    assert_eq!(split_with("a/b", None, Some("b".to_string())), None);
}

fn home_model() -> DirectoryModel {
    model_with(
        &[
            ("documents", EntryKind::Directory),
            ("downloads", EntryKind::Directory),
        ],
        vec![0, 1],
    )
}

#[test]
fn complete_against_model_completes_a_single_match() {
    let completed = complete_against_model(&home_model(), "/home/user", "doc");
    assert_eq!(completed, Some("/home/user/documents/".to_string()));
}

#[test]
fn complete_against_model_appends_no_slash_for_a_file() {
    let model = model_with(&[("report.txt", EntryKind::File)], vec![0]);
    let completed = complete_against_model(&model, "/home/user", "rep");
    assert_eq!(completed, Some("/home/user/report.txt".to_string()));
}

#[test]
fn complete_against_model_is_a_noop_on_zero_matches() {
    let model = model_with(&[("documents", EntryKind::Directory)], vec![0]);
    assert_eq!(complete_against_model(&model, "/home/user", "zzz"), None);
}

#[test]
fn complete_against_model_is_a_noop_on_multiple_matches() {
    assert_eq!(
        complete_against_model(&home_model(), "/home/user", "do"),
        None
    );
}

fn copy_dialog(destination: &str, state_dir: Option<&str>) -> CopyMoveDialogState {
    CopyMoveDialogState::new(
        JobKind::Copy,
        vec![vpath("/a")],
        destination.to_string(),
        state_dir.map(str::to_string),
    )
}

#[test]
fn tab_completes_a_destination_that_a_panel_shows() {
    let mut state = copy_dialog("/home/user/doc", None);
    assert!(!state.try_complete_destination("/elsewhere", &home_model()));
    assert!(state.try_complete_destination("/home/user", &home_model()));
    assert_eq!(state.destination, "/home/user/documents/");
    assert_eq!(completed_path("/a/".to_string(), EntryKind::Directory), "/a/");
    assert_eq!(completed_path("/a".to_string(), EntryKind::File), "/a");
}

#[test]
fn copying_asks_for_a_plan_with_the_options_chosen() {
    let mut state = copy_dialog("/dst", Some("/state"));
    state.set_conflict_policy(ConflictPolicy::Overwrite);
    state.toggle_verify();
    state.toggle_queued();
    assert_eq!(state.title(), "Copy 1 item to:");
    assert_eq!(
        state.options_line(),
        "Conflict: Overwrite (Ctrl+1/2/3)    Verify: on (Ctrl+K)    Mode: Queued (Ctrl+J)"
    );
    assert_eq!(
        state.confirm(Some(vpath("/dst"))),
        CopyMoveAnswer::Plan(CopyMovePlan {
            kind: JobKind::Copy,
            sources: vec![vpath("/a")],
            dest: vpath("/dst"),
            default_conflict: ConflictPolicy::Overwrite,
            verify: true,
            priority: 10,
            concurrency: JOB_CONCURRENCY,
        })
    );
    assert_eq!(state.confirm(Some(vpath("/dst"))), CopyMoveAnswer::Busy);
    assert_eq!(state.planning_ended(&PlanOutcome::Enqueued(1)), (true, None));
    assert!(!state.planning_in_progress);
}

#[test]
fn copying_is_refused_with_the_reason() {
    let mut state = copy_dialog("dst", None);
    match state.confirm(None) {
        CopyMoveAnswer::Refused(notice) => {
            assert_eq!(notice.level, NoticeLevel::Error);
            assert_eq!(
                notice.message,
                "\u{201c}dst\u{201d} isn't a valid destination path."
            );
        }
        other => panic!("{other:?}"),
    }
    match state.confirm(Some(vpath("/dst"))) {
        CopyMoveAnswer::Refused(notice) => {
            assert!(notice.message.starts_with("Can't run the operation"));
        }
        other => panic!("{other:?}"),
    }
    assert_eq!(
        bind_copy_move_dialog_keys("ctrl-3"),
        Some(CopyMoveAction::SetConflict(ConflictPolicy::AutoRename))
    );
    assert_eq!(bind_copy_move_dialog_keys("ctrl-9"), None);
}

#[test]
fn planner_errors_are_put_into_words() {
    assert_eq!(describe_planner_error(&PlannerError::Cancelled), "cancelled");
    assert_eq!(
        describe_planner_error(&PlannerError::Vfs("gone".to_string())),
        "gone"
    );
    assert_eq!(
        describe_planner_error(&PlannerError::NoFileName("file:///".to_string())),
        "file:/// has no file name"
    );
}

#[test]
fn delete_title_distinguishes_trash_from_permanent() {
    assert_eq!(delete_title(1, false), "Move 1 item to trash?");
    assert_eq!(delete_title(1, true), "Delete 1 item permanently?");
}

#[test]
fn delete_title_pluralises_beyond_one_item() {
    assert_eq!(delete_title(3, false), "Move 3 items to trash?");
    assert_eq!(delete_title(0, true), "Delete 0 items permanently?");
}

#[test]
fn non_empty_warning_is_absent_with_nothing_to_warn_about() {
    assert_eq!(non_empty_warning(&vec![]), None);
}

#[test]
fn non_empty_warning_names_a_single_directory() {
    let warning = non_empty_warning(&vec!["photos".to_string()]).unwrap();
    assert!(warning.contains("photos"), "{warning}");
    assert!(warning.starts_with("Warning:"), "{warning}");
}

#[test]
fn non_empty_warning_counts_and_lists_several_directories() {
    let warning = non_empty_warning(&vec![
        "photos".to_string(),
        "docs".to_string(),
        "src".to_string(),
    ])
    .unwrap();
    assert!(warning.contains('3'), "{warning}");
    assert!(warning.contains("photos"), "{warning}");
    assert!(warning.contains("src"), "{warning}");
    assert_eq!(
        warning,
        "Warning: 3 of the selected directories are not empty (photos, docs, src) \u{2014} their \
         whole contents go too."
    );
}

#[test]
fn a_directory_is_not_empty_once_a_read_gives_an_entry() {
    assert_eq!(non_empty_verdict(DirectoryRead::Entries(0)), None);
    assert_eq!(non_empty_verdict(DirectoryRead::Entries(2)), Some(true));
    assert_eq!(non_empty_verdict(DirectoryRead::Failed), Some(false));
    assert_eq!(non_empty_verdict(DirectoryRead::End), Some(false));
    assert_eq!(
        non_empty_directory_names(
            &vec!["empty".to_string(), "full".to_string()],
            &vec![false, true]
        ),
        vec!["full".to_string()]
    );
}

#[test]
fn resolve_delete_mode_is_permanent_without_touching_the_filesystem() {
    assert_eq!(
        resolve_delete_mode(true, Err("no trash".to_string())),
        Ok(DeleteMode::Permanent)
    );
    assert_eq!(
        resolve_delete_mode(false, Ok(vpath("/trash"))),
        Ok(DeleteMode::Trash { trash_dir: vpath("/trash") })
    );
    assert_eq!(
        resolve_delete_mode(false, Err("no trash".to_string())),
        Err("no trash".to_string())
    );
}

#[test]
fn a_forced_permanent_delete_offers_no_trash() {
    let mut forced = DeleteDialogState::new(vec![vpath("/a")], true, true, vec![], None);
    forced.toggle_trash_permanent();
    assert!(forced.permanent);
    assert!(forced.mode_line().contains("bypassed"));
    assert!(matches!(forced.confirm(), DeleteAnswer::Refused(_)));

    let mut state = DeleteDialogState::new(
        vec![vpath("/a"), vpath("/b")],
        false,
        false,
        vec![],
        Some("/state".to_string()),
    );
    assert_eq!(state.title(), "Move 2 items to trash?");
    assert_eq!(
        state.mode_line(),
        "Mode: Trash \u{2014} Trash / Permanent (Ctrl+T)"
    );
    state.toggle_trash_permanent();
    assert_eq!(
        state.confirm(),
        DeleteAnswer::Plan {
            targets: vec![vpath("/a"), vpath("/b")],
            permanent: true,
            concurrency: 4,
        }
    );
    assert_eq!(state.confirm(), DeleteAnswer::Busy);
    state.planning_ended(&PlanOutcome::Dropped);
    assert!(!state.planning_in_progress);
    assert_eq!(
        bind_delete_dialog_keys("ctrl-t"),
        Some(DeleteAction::ToggleTrashPermanent)
    );
}

#[test]
fn making_a_directory_asks_for_a_plan_or_says_why_not() {
    let mut state = MkdirDialogState::new("/home/a/b".to_string(), Some("/state".to_string()));
    assert_eq!(
        state.confirm(Some(vpath("/home/a/b"))),
        MkdirAnswer::Plan(vpath("/home/a/b"))
    );
    assert_eq!(state.confirm(None), MkdirAnswer::Busy);
    state.planning_ended(&PlanOutcome::Dropped);
    match state.confirm(None) {
        MkdirAnswer::Refused(notice) => assert_eq!(
            notice.message,
            "\u{201c}/home/a/b\u{201d} isn't a valid directory path."
        ),
        other => panic!("{other:?}"),
    }
    state.state_dir = None;
    assert!(matches!(
        state.confirm(Some(vpath("/x"))),
        MkdirAnswer::Refused(_)
    ));
}

#[test]
fn links_lead_to_the_plain_path_of_their_source() {
    let mut state = LinkDialogState::new(
        LinkKind::Symlink,
        vpath("/src/a"),
        "a".to_string(),
        "/dst/a".to_string(),
        Some("/state".to_string()),
    );
    assert_eq!(state.title(), "Create symlink to \u{201c}a\u{201d} at:");
    assert_eq!(state.detail(), "Target: /src/a");
    assert_eq!(
        state.confirm(Some(vpath("/dst/a"))),
        LinkAnswer::Plan {
            job: JobKind::CreateSymlink,
            plan: LinkPlan::Symlink { target: "/src/a".to_string(), link: vpath("/dst/a") },
        }
    );
    assert_eq!(state.confirm(None), LinkAnswer::Busy);
    state.planning_ended(&PlanOutcome::Dropped);
    state.kind = LinkKind::Hardlink;
    assert_eq!(state.detail(), "Same inode as: /src/a");
    assert_eq!(
        state.confirm(Some(vpath("/dst/a"))),
        LinkAnswer::Plan {
            job: JobKind::CreateHardlink,
            plan: LinkPlan::Hardlink { source: vpath("/src/a"), link: vpath("/dst/a") },
        }
    );
    state.planning_ended(&PlanOutcome::Dropped);
    match state.confirm(None) {
        LinkAnswer::Refused(notice) => assert_eq!(
            notice.message,
            "\u{201c}/dst/a\u{201d} isn't a valid path for the new link."
        ),
        other => panic!("{other:?}"),
    }
    assert_eq!(LinkKind::Hardlink.noun(), "hardlink");
}

#[test]
fn rename_alternate_builds_a_sibling_path_from_a_plain_name() {
    let alternate = rename_alternate(&vpath("/tmp/dst/a.txt"), "b.txt").unwrap();
    assert_eq!(alternate.to_uri(), "file:///tmp/dst/b.txt");
}

#[test]
fn rename_alternate_rejects_an_empty_name() {
    assert!(rename_alternate(&vpath("/tmp/dst/a.txt"), "   ").is_err());
}

#[test]
fn rename_alternate_rejects_a_name_containing_a_slash() {
    assert!(rename_alternate(&vpath("/tmp/dst/a.txt"), "sub/b.txt").is_err());
}

#[test]
fn rename_alternate_trims_surrounding_whitespace() {
    let alternate = rename_alternate(&vpath("/tmp/dst/a.txt"), "  b.txt  ").unwrap();
    assert_eq!(alternate.to_uri(), "file:///tmp/dst/b.txt");
}

#[test]
fn rename_alternate_says_why_a_name_is_refused() {
    let dest = vpath("/tmp/dst/a.txt");
    assert_eq!(
        rename_alternate(&dest, "").unwrap_err(),
        "Enter a name for the new destination."
    );
    assert_eq!(
        rename_alternate(&dest, "a/b").unwrap_err(),
        "The name can't contain \"/\"."
    );
    assert_eq!(
        rename_alternate(&vpath("/"), "b").unwrap_err(),
        "The destination has no parent directory to rename within."
    );
    assert_eq!(
        rename_given(&dest, " .. ", Err("reserved".to_string())).unwrap_err(),
        "\u{201c}..\u{201d} isn't a valid name: reserved"
    );
    assert_eq!(
        rename_given(&dest, "b", Ok(vpath("/tmp/dst/b"))),
        Ok(vpath("/tmp/dst/b"))
    );
    assert_eq!(
        rename_given(&dest, "a/b", Ok(vpath("/x"))).unwrap_err(),
        "The name can't contain \"/\"."
    );
    assert_eq!(
        rename_parts(&dest, "  b "),
        Ok((vpath("/tmp/dst"), "b".to_string()))
    );
    assert_eq!(rename_alternate(&vpath("/a"), "b").unwrap(), vpath("/b"));
}

#[test]
fn hash_line_reports_each_state_distinctly() {
    assert_eq!(hash_line("Hash", &HashState::Idle), "Hash: (not computed)");
    assert_eq!(
        hash_line("Hash", &HashState::Hashing),
        "Hash: computing\u{2026}"
    );
    assert_eq!(
        hash_line("Hash", &HashState::Failed("boom".to_string())),
        "Hash: failed \u{2014} boom"
    );
    assert_eq!(
        hash_line("Hash", &HashState::Done("af13".to_string())),
        "Hash: af13"
    );
}

#[test]
fn a_digest_read_in_pieces_is_the_digest_of_the_whole() {
    let content = b"the quick brown fox jumps over the lazy dog".repeat(1000);
    let mut digest = FileDigest::new();
    let mut buf = vec![0u8; 4096];
    for piece in content.chunks(1000) {
        buf[..piece.len()].copy_from_slice(piece);
        assert!(digest.feed(&buf, piece.len()));
    }
    assert!(!digest.feed(&buf, 0));
    assert_eq!(digest.finish(), blake3::hash(&content).to_string());
    assert_ne!(digest.finish(), FileDigest::new().finish());
    assert_eq!(HASH_CHUNK_BYTES, 1024 * 1024);
}

fn sample_prompt() -> ConflictPrompt {
    ConflictPrompt {
        source: vpath("/tmp/src/a.txt"),
        dest: vpath("/tmp/dst/a.txt"),
        source_meta: Metadata {
            size: 10,
            modified: Some(Timestamp { secs: 1_700_000_000, nanos: 0 }),
        },
        dest_meta: Metadata { size: 2048, modified: None },
    }
}

#[test]
fn no_answer_means_skip() {
    assert_eq!(
        resolve_reply(None),
        ConflictResolution::once(ConflictPolicy::Skip)
    );
    assert_eq!(
        resolve_reply(Some(ConflictResolution::apply_to_all(ConflictPolicy::Overwrite))),
        ConflictResolution {
            policy: ConflictPolicy::Overwrite,
            scope: ConflictScope::AllRemaining,
            alternate: None,
        }
    );
}

#[test]
fn a_conflict_is_answered_once() {
    let mut state = ConflictDialogState::new(sample_prompt());
    assert_eq!(state.title(), "\u{201c}a.txt\u{201d} already exists");
    assert_eq!(
        state.answer(ConflictPolicy::Abort, ConflictScope::AllRemaining),
        Some(ConflictResolution::apply_to_all(ConflictPolicy::Abort))
    );
    assert_eq!(state.answer(ConflictPolicy::Skip, ConflictScope::ThisOnly), None);
}

#[test]
fn a_new_name_is_asked_for_and_checked() {
    let mut state = ConflictDialogState::new(sample_prompt());
    let renamed = || Ok(vpath("/tmp/dst/b.txt"));
    assert_eq!(state.confirm_rename(renamed()), None);
    assert_eq!(state.rename_joined(), None);
    assert_eq!(state.cycle_focus(true), None);
    state.start_rename();
    assert_eq!(state.rename_input.as_deref(), Some("a.txt"));
    assert_eq!(state.cycle_focus(true), Some(Focus::RenameField));
    assert_eq!(state.cycle_focus(false), Some(Focus::Root));
    state.rename_input = Some("x/y".to_string());
    assert_eq!(
        state.rename_joined(),
        Some(Err("The name can't contain \"/\".".to_string()))
    );
    assert_eq!(state.confirm_rename(renamed()), None);
    assert_eq!(
        state.rename_error.as_deref(),
        Some("The name can't contain \"/\".")
    );
    state.start_rename();
    assert_eq!(state.rename_error, None);
    state.rename_input = Some("..".to_string());
    assert!(matches!(state.rename_joined(), Some(Err(_))));
    assert_eq!(state.confirm_rename(Err("reserved".to_string())), None);
    assert_eq!(
        state.rename_error.as_deref(),
        Some("\u{201c}..\u{201d} isn't a valid name: reserved")
    );
    state.rename_input = Some("b.txt".to_string());
    assert_eq!(state.rename_joined(), Some(renamed()));
    assert_eq!(
        state.confirm_rename(renamed()),
        Some(ConflictResolution::rename_to(vpath("/tmp/dst/b.txt")))
    );
    assert!(state.answered);
}

#[test]
fn digests_are_made_one_at_a_time_for_each_side() {
    let mut state = ConflictDialogState::new(sample_prompt());
    assert_eq!(state.start_hash(Side::Source), Some(vpath("/tmp/src/a.txt")));
    assert_eq!(state.start_hash(Side::Source), None);
    assert_eq!(state.start_hash(Side::Dest), Some(vpath("/tmp/dst/a.txt")));
    state.hash_ended(Side::Dest, HashOutcome::Dropped);
    assert_eq!(
        state.dest_hash,
        HashState::Failed("the hashing task was dropped before completing".to_string())
    );
    state.hash_ended(Side::Source, HashOutcome::Done("00".to_string()));
    assert_eq!(state.start_hash(Side::Source), Some(vpath("/tmp/src/a.txt")));
    state.hash_ended(Side::Source, HashOutcome::Failed("io".to_string()));
    assert_eq!(
        state.side_view(Side::Source),
        SideView {
            heading: "Source",
            path: "file:///tmp/src/a.txt".to_string(),
            size: "Size: 10 B".to_string(),
            modified: "Modified: 2023-11-14 22:13".to_string(),
            hash: "Hash: failed \u{2014} io".to_string(),
            hash_label: "Hash source (Alt+H)",
            hash_action: ConflictAction::Hash(Side::Source),
        }
    );
    assert_eq!(
        metadata_lines(&state.prompt.dest_meta),
        ("2.0 KB".to_string(), "-".to_string())
    );
}

#[test]
fn every_policy_has_its_keys_and_its_row() {
    assert_eq!(
        bind_conflict_dialog_keys("alt-shift-d"),
        Some(ConflictAction::Answer(
            ConflictPolicy::OverwriteIfDifferentSize,
            ConflictScope::AllRemaining
        ))
    );
    assert_eq!(
        bind_conflict_dialog_keys("escape"),
        Some(ConflictAction::Answer(
            ConflictPolicy::Skip,
            ConflictScope::ThisOnly
        ))
    );
    assert_eq!(bind_conflict_dialog_keys("alt-r"), Some(ConflictAction::Rename));
    assert_eq!(
        bind_conflict_dialog_keys("alt-shift-h"),
        Some(ConflictAction::Hash(Side::Dest))
    );
    assert_eq!(bind_conflict_dialog_keys("tab"), Some(ConflictAction::CycleFocus));
    assert_eq!(bind_conflict_dialog_keys("alt-z"), None);
    assert_eq!(policy_row(ConflictPolicy::RenameTarget).all_hint, None);
    assert_eq!(policy_row(ConflictPolicy::Skip).this_hint, "Alt+N / Esc");
}

#[test]
fn extensions_stand_behind_the_last_dot() {
    assert_eq!(extension_of("a.tar.gz"), Some("gz".to_string()));
    assert_eq!(extension_of(".bashrc"), None);
    assert_eq!(extension_of("readme"), None);
    assert_eq!(extension_of("a."), Some(String::new()));
    assert_eq!(extension_of(".."), None);
}

#[test]
fn a_path_is_its_parent_and_its_name() {
    let path = vpath("/tmp/dst/a.txt");
    assert_eq!(path.parent(), Some(vpath("/tmp/dst")));
    assert_eq!(path.file_name(), Some("a.txt".to_string()));
    assert_eq!(path.parent().unwrap().join("a.txt"), Some(path));
    assert_eq!(vpath("/a").parent(), Some(vpath("/")));
    assert_eq!(vpath("/").parent(), None);
    assert_eq!(vpath("/").file_name(), None);
    assert_eq!(vpath("/").join("a"), Some(vpath("/a")));
    assert_eq!(vpath("/a").join("."), None);
}

#[test]
fn a_conflict_is_shown_with_every_answer() {
    let mut state = ConflictDialogState::new(sample_prompt());
    let view = state.render();
    let names: Vec<&str> = view.policies.iter().map(|row| row.name).collect();
    assert_eq!(
        names,
        vec![
            "Overwrite",
            "Skip",
            "Overwrite if older",
            "Overwrite if different size",
            "Auto-rename",
            "Abort job",
            "Rename target (this conflict only)",
        ]
    );
    assert_eq!(view.rename, None);
    assert_eq!(view.dest.size, "Size: 2.0 KB");
    assert_eq!(
        state.perform(view.policies[6].this_action, true),
        Some(ConflictStep::Focus(Focus::RenameField))
    );
    assert_eq!(state.render().rename.unwrap().name, "a.txt");
    assert_eq!(
        state.perform(ConflictAction::CycleFocus, false),
        Some(ConflictStep::Focus(Focus::Root))
    );
    assert_eq!(
        state.perform(view.dest.hash_action, true),
        Some(ConflictStep::Read(Side::Dest, vpath("/tmp/dst/a.txt")))
    );
    assert_eq!(state.perform(view.dest.hash_action, true), None);
    assert_eq!(
        state.perform(view.policies[1].all_action.unwrap(), true),
        Some(ConflictStep::Send(ConflictResolution::apply_to_all(
            ConflictPolicy::Skip
        )))
    );
    assert_eq!(state.perform(view.policies[0].this_action, true), None);
}

#[test]
fn dialogs_show_their_lines() {
    let copy = copy_dialog("/dst", None).render();
    assert_eq!(copy.title, "Copy 1 item to:");
    assert_eq!(copy.destination, "/dst");
    assert!(copy.options.starts_with("Conflict: Skip"));
    assert!(copy.hint.ends_with("Tab to complete the destination"));
    let delete = DeleteDialogState::new(
        vec![vpath("/a")],
        false,
        false,
        vec!["a".to_string()],
        None,
    )
    .render();
    assert_eq!(delete.title, "Move 1 item to trash?");
    assert_eq!(
        delete.warning.as_deref(),
        Some("Warning: \u{201c}a\u{201d} is not empty \u{2014} its whole contents go too.")
    );
    assert_eq!(delete.hint, "Enter to confirm, Esc to cancel");
    let mkdir = MkdirDialogState::new("/a/b".to_string(), None).render();
    assert_eq!(mkdir.title, "Create directory:");
    assert_eq!(mkdir.destination, "/a/b");
    let link = LinkDialogState::new(
        LinkKind::Hardlink,
        vpath("/src/a"),
        "a".to_string(),
        "/dst/a".to_string(),
        None,
    )
    .render();
    assert_eq!(link.title, "Create hardlink to \u{201c}a\u{201d} at:");
    assert_eq!(link.link_path, "/dst/a");
    assert_eq!(link.detail, "Same inode as: /src/a");
}

#[test]
fn a_prefix_that_one_name_has_finds_its_row() {
    assert_eq!(row_beginning(&home_model(), "doc"), Some(0));
    assert_eq!(row_beginning(&home_model(), "dow"), Some(1));
    assert_eq!(row_beginning(&home_model(), "do"), None);
    assert_eq!(row_beginning(&home_model(), "x"), None);
}

#[test]
fn a_directory_is_completed_from_the_panel_that_shows_it_however_it_is_written() {
    let model = model_with(&[("only", EntryKind::Directory)], vec![0]);
    let mut state = copy_dialog("/home/user/", None);
    assert!(state.try_complete_destination("/home/user", &model));
    assert_eq!(state.destination, "/home/user/only/");
    let mut state = copy_dialog("/home//user/on", None);
    assert!(state.try_complete_destination("/home/user/", &model));
    assert_eq!(state.destination, "/home//user/only/");
}

#[test]
fn paths_are_the_same_by_their_components() {
    for (a, b) in [
        ("/a/b", "/a/b/"),
        ("/a/b", "//a///b"),
        ("/a/b", "/a/./b/."),
        ("a", "a"),
        ("/", "//"),
        ("", ""),
        ("/a", "a"),
        ("./a", "a"),
        ("./a", "././a"),
        ("/a/../b", "/b"),
        ("/a", "/b"),
        (".", ""),
        ("/.", "/"),
    ] {
        let expected = std::path::Path::new(a) == std::path::Path::new(b);
        assert_eq!(is_same_path(a, b), expected, "{a} and {b}");
    }
}

#[test]
fn joining_follows_the_paths_of_the_system() {
    for dir in ["", "/", "a", "/a", "/a/", "a//"] {
        for path in ["", "b", "/b", "b/", "./b", "//"] {
            let expected = std::path::Path::new(dir).join(path);
            assert_eq!(joined(dir, path), expected.to_str().unwrap(), "{dir} and {path}");
        }
    }
}

#[test]
fn names_of_paths_are_their_last_components() {
    for path in [
        "", "/", "//", ".", "..", "a", "/a", "a/", "/a/b", "/a/b//", "a/.", "./a", "./.", "a/..",
        "/..", "../a", "a/./b", ".a", "a/.b/./",
    ] {
        let expected = std::path::Path::new(path)
            .file_name()
            .map(|name| name.to_str().unwrap().to_string());
        assert_eq!(file_name_of(path), expected, "{path}");
    }
}

#[test]
fn dialogs_queue_their_jobs_to_run_at_once() {
    let mkdir = MkdirDialogState::new("/a/b".to_string(), None);
    assert_eq!(
        mkdir.job(),
        DialogJob {
            kind: JobKind::CreateDir,
            priority: 0,
            concurrency: 4,
            asks: true,
        }
    );
    let mut link = LinkDialogState::new(
        LinkKind::Symlink,
        vpath("/src/a"),
        "a".to_string(),
        "/dst/a".to_string(),
        None,
    );
    assert_eq!(link.job(), run_now(JobKind::CreateSymlink, true));
    link.kind = LinkKind::Hardlink;
    assert_eq!(link.job(), run_now(JobKind::CreateHardlink, true));
    let mut delete = DeleteDialogState::new(vec![vpath("/a")], false, false, vec![], None);
    assert_eq!(
        delete.job(),
        DialogJob {
            kind: JobKind::Delete { permanent: false },
            priority: 0,
            concurrency: 4,
            asks: false,
        }
    );
    delete.toggle_trash_permanent();
    assert_eq!(delete.job().kind, JobKind::Delete { permanent: true });
}
