use duet_ui::columns::{EntryKind, SortColumn};
use duet_ui::file_table::{
    column_widths, FileTableDelegate, JumpMatch, QuickSearchState, RowStyle, COL_MODIFIED,
    COL_NAME, COL_SIZE, MODIFIED_WIDTH, SIZE_WIDTH,
};
use duet_ui::columns::NAME_MIN;
use duet_ui::listing::{DirectoryModel, Entry, EntryId};
use duet_ui::quick_search::{
    char_indices_to_byte_ranges, matched_places, matcher_takes, pick_match, score_name, sorted_distinct,
    MouseMode, QuickSearchMode,
};
use duet_ui::sizes::{write_byte_count, write_size};

fn px(pixels: f64) -> u32 {
    (pixels * 100.0).round() as u32
}

fn entry(name: &str, kind: EntryKind, size: u64, mtime_secs: i64) -> Entry {
    Entry {
        name: name.to_string(),
        kind,
        size,
        mtime_secs,
    }
}

fn model_of(entries: Vec<Entry>, order: Vec<usize>) -> DirectoryModel {
    let mut model = DirectoryModel::new();
    for e in entries {
        model.push(e);
    }
    model.sort_by(SortColumn::Name, true, order);
    model
}

fn sample_model() -> DirectoryModel {
    model_of(
        vec![
            entry("b_dir", EntryKind::Directory, 0, 1_700_000_000),
            entry("a_file.txt", EntryKind::File, 2048, 1_700_000_060),
        ],
        vec![0, 1],
    )
}

fn five_file_model() -> DirectoryModel {
    model_of(
        (0..5)
            .map(|n| entry(&format!("f{n}"), EntryKind::File, n as u64, 0))
            .collect(),
        vec![0, 1, 2, 3, 4],
    )
}

fn selected_names(delegate: &FileTableDelegate) -> Vec<String> {
    delegate
        .model()
        .order()
        .iter()
        .filter(|&&ix| delegate.model().is_selected(EntryId::new(ix)))
        .map(|&ix| delegate.model().name(EntryId::new(ix)).to_string())
        .collect()
}

#[test]
fn char_indices_to_byte_ranges_merges_adjacent_characters() {
    let ranges = char_indices_to_byte_ranges("gamma.txt", &vec![0, 1, 2]);
    assert_eq!(ranges, vec![0..3]);
}

#[test]
fn char_indices_to_byte_ranges_keeps_non_adjacent_characters_separate() {
    let ranges = char_indices_to_byte_ranges("gamma.txt", &vec![0, 4]);
    assert_eq!(ranges, vec![0..1, 4..5]);
}

#[test]
fn char_indices_to_byte_ranges_accounts_for_multi_byte_characters() {
    let name = "caf\u{e9}.txt";
    assert_eq!(name.len(), 9);
    let ranges = char_indices_to_byte_ranges(name, &vec![3, 4]);
    assert_eq!(ranges, vec![3..6]);
}

#[test]
fn char_indices_to_byte_ranges_tolerates_unsorted_and_duplicate_input() {
    let ranges = char_indices_to_byte_ranges("gamma.txt", &vec![2, 0, 1, 1]);
    assert_eq!(ranges, vec![0..3]);
}

#[test]
fn char_indices_behind_the_end_name_nothing() {
    assert_eq!(char_indices_to_byte_ranges("ab", &vec![1, 7]), vec![1..2]);
    assert_eq!(char_indices_to_byte_ranges("", &vec![0]), vec![]);
    assert_eq!(
        char_indices_to_byte_ranges("\u{1f600}x\u{20ac}", &vec![0, 2]),
        vec![0..4, 5..8]
    );
}

#[test]
fn delegate_reads_row_count_and_columns_from_the_real_model() {
    let delegate = FileTableDelegate::new(sample_model());
    assert_eq!(delegate.widths.len(), 3);
    assert_eq!(delegate.model().order().len(), 2);
}

#[test]
fn new_delegate_starts_cursor_at_row_zero_unless_empty() {
    let delegate = FileTableDelegate::new(five_file_model());
    assert_eq!(delegate.cursor_row(), Some(0));
    assert_eq!(
        delegate.model().cursor(),
        Some(EntryId::new(delegate.model().order()[0]))
    );

    let empty = FileTableDelegate::new(DirectoryModel::new());
    assert_eq!(empty.cursor_row(), None);
    assert!(empty.model().cursor().is_none());
}

#[test]
fn move_cursor_by_steps_and_clamps_at_both_ends() {
    let mut delegate = FileTableDelegate::new(five_file_model());
    assert_eq!(delegate.move_cursor_by(1), Some(1));
    assert_eq!(delegate.move_cursor_by(2), Some(3));
    assert_eq!(
        delegate.move_cursor_by(10),
        Some(4),
        "clamps at the last row rather than going out of bounds"
    );
    assert_eq!(delegate.move_cursor_by(-100), Some(0), "clamps at row 0");
}

#[test]
fn the_cursor_is_held_however_far_it_is_asked_to_go() {
    let mut delegate = FileTableDelegate::new(five_file_model());
    assert_eq!(delegate.move_cursor_by(i64::MAX), Some(4));
    assert_eq!(delegate.move_cursor_by(i64::MIN), Some(0));
}

#[test]
fn move_cursor_by_keeps_model_cursor_in_lock_step() {
    let mut delegate = FileTableDelegate::new(five_file_model());
    delegate.move_cursor_by(2);
    let row = delegate.cursor_row().unwrap();
    assert_eq!(
        delegate.model().cursor(),
        Some(EntryId::new(delegate.model().order()[row])),
        "model's EntryId-based cursor must always match the cached row"
    );
}

#[test]
fn move_cursor_to_jumps_directly_and_clamps_usize_max_to_last_row() {
    let mut delegate = FileTableDelegate::new(five_file_model());
    assert_eq!(delegate.move_cursor_to(3), Some(3));
    assert_eq!(
        delegate.move_cursor_to(usize::MAX),
        Some(4),
        "End/Ctrl+End pass usize::MAX; must clamp to the last row"
    );
    assert_eq!(delegate.move_cursor_to(0), Some(0));
}

#[test]
fn display_rows_count_adds_one_when_parent_row_showing() {
    let mut delegate = FileTableDelegate::new(five_file_model());
    assert_eq!(delegate.display_rows_count(), 5);
    delegate.set_has_parent_row(true);
    assert_eq!(delegate.display_rows_count(), 6);
    delegate.set_has_parent_row(false);
    assert_eq!(delegate.display_rows_count(), 5);
}

#[test]
fn move_cursor_by_steps_onto_and_off_the_parent_row() {
    let mut delegate = FileTableDelegate::new(five_file_model());
    delegate.set_has_parent_row(true);

    assert_eq!(delegate.display_row(), Some(1));
    assert!(!delegate.cursor_on_parent());

    assert_eq!(delegate.move_cursor_by(-1), Some(0));
    assert!(delegate.cursor_on_parent());
    assert_eq!(
        delegate.cursor_row(),
        Some(0),
        "cursor_row keeps its last real position while parked on .."
    );

    assert_eq!(delegate.move_cursor_by(-1), Some(0));
    assert!(delegate.cursor_on_parent());

    assert_eq!(delegate.move_cursor_by(1), Some(1));
    assert!(!delegate.cursor_on_parent());
    assert_eq!(delegate.cursor_row(), Some(0));
}

#[test]
fn move_cursor_to_0_with_parent_row_lands_on_parent() {
    let mut delegate = FileTableDelegate::new(five_file_model());
    delegate.set_has_parent_row(true);
    delegate.move_cursor_to(3);
    assert!(!delegate.cursor_on_parent());

    assert_eq!(delegate.move_cursor_to(0), Some(0));
    assert!(delegate.cursor_on_parent());

    assert_eq!(delegate.move_cursor_to(1), Some(1));
    assert!(!delegate.cursor_on_parent());
    assert_eq!(delegate.cursor_row(), Some(0));
}

#[test]
fn cursor_dir_name_is_none_while_cursor_on_parent() {
    let model = model_of(vec![entry("adir", EntryKind::Directory, 0, 0)], vec![0]);
    let mut delegate = FileTableDelegate::new(model);
    delegate.set_has_parent_row(true);

    delegate.move_cursor_to(0);
    assert!(delegate.cursor_on_parent());
    assert_eq!(
        delegate.cursor_dir_name(),
        None,
        "must not report a directory name while parked on the pseudo-row"
    );
}

#[test]
fn set_has_parent_row_false_clears_cursor_on_parent() {
    let mut delegate = FileTableDelegate::new(five_file_model());
    delegate.set_has_parent_row(true);
    delegate.move_cursor_to(0);
    assert!(delegate.cursor_on_parent());

    delegate.set_has_parent_row(false);
    assert!(!delegate.cursor_on_parent());
    assert_eq!(delegate.display_rows_count(), 5);
}

#[test]
fn set_model_resets_cursor_on_parent_even_when_a_parent_row_is_still_showing() {
    let mut delegate = FileTableDelegate::new(five_file_model());
    delegate.set_has_parent_row(true);
    delegate.move_cursor_to(0);
    assert!(delegate.cursor_on_parent());

    delegate.set_model(five_file_model());
    assert!(!delegate.cursor_on_parent());
    assert_eq!(delegate.cursor_row(), Some(0));
}

#[test]
fn cursor_movement_on_an_empty_model_is_a_no_op() {
    let mut delegate = FileTableDelegate::new(DirectoryModel::new());
    assert_eq!(delegate.move_cursor_by(1), None);
    assert_eq!(delegate.move_cursor_to(0), None);
    assert!(delegate.cursor_row().is_none());
}

#[test]
fn sort_re_derives_cursor_row_to_follow_the_same_entry() {
    let mut delegate = FileTableDelegate::new(five_file_model());
    delegate.move_cursor_to(4);
    let entry_on_cursor = delegate.model().cursor();
    assert_eq!(delegate.model().name(entry_on_cursor.unwrap()), "f4");

    delegate.perform_sort(COL_NAME, true, vec![4, 3, 2, 1, 0]);

    assert_eq!(
        delegate.model().cursor(),
        entry_on_cursor,
        "the EntryId under the cursor doesn't change just because order() did"
    );
    assert_eq!(
        delegate.cursor_row(),
        Some(0),
        "f4 is now first in name-descending order, so its row must follow"
    );
}

#[test]
fn cursor_dir_name_returns_name_only_for_directories() {
    let model = model_of(
        vec![
            entry("adir", EntryKind::Directory, 0, 0),
            entry("bfile.txt", EntryKind::File, 10, 0),
        ],
        vec![0, 1],
    );
    let mut delegate = FileTableDelegate::new(model);

    delegate.move_cursor_to(0);
    assert_eq!(delegate.cursor_dir_name(), Some("adir".to_string()));

    delegate.move_cursor_to(1);
    assert_eq!(delegate.cursor_dir_name(), None);
}

#[test]
fn cursor_dir_name_is_none_on_empty_listing() {
    let delegate = FileTableDelegate::new(DirectoryModel::new());
    assert_eq!(delegate.cursor_dir_name(), None);
}

#[test]
fn select_row_by_name_finds_and_moves_cursor() {
    let mut delegate = FileTableDelegate::new(five_file_model());
    delegate.move_cursor_to(0);
    assert!(delegate.select_row_by_name("f3"));
    assert_eq!(delegate.cursor_row(), Some(3));
}

#[test]
fn select_row_by_name_accounts_for_the_parent_row_offset() {
    let mut delegate = FileTableDelegate::new(five_file_model());
    delegate.set_has_parent_row(true);
    delegate.move_cursor_to(0);

    assert!(delegate.select_row_by_name("f3"));
    assert_eq!(delegate.cursor_row(), Some(3));
    assert!(!delegate.cursor_on_parent());
}

#[test]
fn select_row_by_name_returns_false_and_leaves_cursor_when_not_found() {
    let mut delegate = FileTableDelegate::new(five_file_model());
    delegate.move_cursor_to(2);
    assert!(!delegate.select_row_by_name("does-not-exist"));
    assert_eq!(delegate.cursor_row(), Some(2), "cursor stays put on a miss");
}

#[test]
fn mouse_mode_parses_the_three_documented_settings_toml_values() {
    assert_eq!(MouseMode::from_settings_str("windows"), MouseMode::Windows);
    assert_eq!(MouseMode::from_settings_str("norton"), MouseMode::Norton);
    assert_eq!(MouseMode::from_settings_str("none"), MouseMode::Off);
}

#[test]
fn mouse_mode_falls_back_to_windows_for_an_unrecognized_value() {
    assert_eq!(MouseMode::from_settings_str("bogus"), MouseMode::Windows);
    assert_eq!(MouseMode::default(), MouseMode::Windows);
}

#[test]
fn quick_search_mode_parses_the_two_documented_settings_toml_values() {
    assert_eq!(
        QuickSearchMode::from_settings_str("jump"),
        QuickSearchMode::Jump
    );
    assert_eq!(
        QuickSearchMode::from_settings_str("filter"),
        QuickSearchMode::Filter
    );
}

#[test]
fn quick_search_mode_falls_back_to_jump_for_an_unrecognized_value() {
    assert_eq!(
        QuickSearchMode::from_settings_str("bogus"),
        QuickSearchMode::Jump
    );
    assert_eq!(QuickSearchMode::default(), QuickSearchMode::Jump);
}

#[test]
fn quick_search_mode_toggled_flips_between_jump_and_filter() {
    assert_eq!(QuickSearchMode::Jump.toggled(), QuickSearchMode::Filter);
    assert_eq!(QuickSearchMode::Filter.toggled(), QuickSearchMode::Jump);
}

#[test]
fn file_table_delegate_defaults_to_windows_mouse_mode_until_set() {
    let mut delegate = FileTableDelegate::new(five_file_model());
    assert_eq!(delegate.mouse_mode(), MouseMode::Windows);
    delegate.set_mouse_mode(MouseMode::Norton);
    assert_eq!(delegate.mouse_mode(), MouseMode::Norton);
}

#[test]
fn context_menu_row_prep_moves_the_cursor_to_the_right_clicked_row() {
    let mut delegate = FileTableDelegate::new(five_file_model());
    delegate.set_has_parent_row(true);

    assert!(delegate.prepare_context_menu_row(3));
    assert_eq!(delegate.cursor_row(), Some(2));
    assert!(!delegate.cursor_on_parent());
}

#[test]
fn context_menu_row_prep_on_the_parent_row_is_a_no_op() {
    let mut delegate = FileTableDelegate::new(five_file_model());
    delegate.set_has_parent_row(true);
    delegate.move_cursor_to(2);

    assert!(!delegate.prepare_context_menu_row(0));
    assert_eq!(
        delegate.cursor_row(),
        Some(1),
        "right-clicking \"..\" must not move the cursor"
    );
    assert!(!delegate.cursor_on_parent());
}

#[test]
fn context_menu_row_prep_toggles_selection_in_norton_mode_only() {
    let mut delegate = FileTableDelegate::new(five_file_model());
    delegate.set_has_parent_row(true);
    delegate.set_mouse_mode(MouseMode::Norton);

    assert!(delegate.prepare_context_menu_row(2));
    let id = EntryId::new(delegate.model().order()[1]);
    assert!(
        delegate.model().is_selected(id),
        "Norton mode: right-click both moves the cursor and toggles selection"
    );

    assert!(delegate.prepare_context_menu_row(2));
    assert!(
        !delegate.model().is_selected(id),
        "a second right-click on the same row toggles it back off"
    );
}

#[test]
fn context_menu_row_prep_does_not_touch_selection_outside_norton_mode() {
    for mode in [MouseMode::Windows, MouseMode::Off] {
        let mut delegate = FileTableDelegate::new(five_file_model());
        delegate.set_has_parent_row(true);
        delegate.set_mouse_mode(mode);

        assert!(delegate.prepare_context_menu_row(2));
        assert_eq!(
            delegate.model().selection_count(),
            0,
            "{mode:?}: right-click must only move the cursor, never select"
        );
    }
}

#[test]
fn quick_search_indicator_text_is_none_when_no_session_active() {
    let delegate = FileTableDelegate::new(five_file_model());
    assert_eq!(delegate.quick_search_indicator_text(), None);
}

fn session(mode: QuickSearchMode, query: &str) -> QuickSearchState {
    QuickSearchState {
        mode,
        query: query.to_string(),
        generation: 1,
        jump_match: None,
        filter_match_count: None,
    }
}

#[test]
fn quick_search_indicator_text_shows_jump_ordinal() {
    let mut delegate = FileTableDelegate::new(five_file_model());
    delegate.quick_search = Some(QuickSearchState {
        jump_match: Some(JumpMatch {
            ordinal: 2,
            total: 5,
            model_row: 0,
            indices: vec![],
        }),
        ..session(QuickSearchMode::Jump, "rmr")
    });
    assert_eq!(
        delegate.quick_search_indicator_text(),
        Some("find: rmr (2/5)".to_string())
    );
}

#[test]
fn quick_search_indicator_text_shows_no_match_for_jump_with_nothing_found() {
    let mut delegate = FileTableDelegate::new(five_file_model());
    delegate.quick_search = Some(session(QuickSearchMode::Jump, "zzz"));
    assert_eq!(
        delegate.quick_search_indicator_text(),
        Some("find: zzz (no match)".to_string())
    );
}

#[test]
fn quick_search_indicator_text_shows_filter_match_count() {
    let mut delegate = FileTableDelegate::new(five_file_model());
    delegate.quick_search = Some(QuickSearchState {
        filter_match_count: Some(3),
        ..session(QuickSearchMode::Filter, "f")
    });
    assert_eq!(
        delegate.quick_search_indicator_text(),
        Some("filter: f (3 matches)".to_string())
    );
}

#[test]
fn apply_quick_search_jump_returns_the_winners_display_row() {
    let mut delegate = FileTableDelegate::new(five_file_model());
    delegate.set_has_parent_row(true);
    delegate.search_count = 1;
    delegate.quick_search = Some(session(QuickSearchMode::Jump, "f3"));

    let row = delegate.apply_quick_search_jump("f3");

    assert_eq!(row, Some(4));
    assert_eq!(delegate.cursor_row(), Some(3));
}

#[test]
fn apply_quick_search_filter_resets_cursor_to_row_zero_when_previous_entry_is_filtered_out() {
    let mut delegate = FileTableDelegate::new(five_file_model());
    delegate.move_cursor_to(2);
    delegate.search_count = 1;
    delegate.quick_search = Some(session(QuickSearchMode::Filter, ""));

    let row = delegate.apply_quick_search_filter(vec![false, false, false, false, true]);

    assert_eq!(
        row,
        Some(0),
        "cursor must reset to the first remaining visible row"
    );
    assert_eq!(delegate.cursor_row(), Some(0));
    assert_eq!(delegate.model().order().len(), 1);
}

#[test]
fn nav_generation_starts_at_zero_and_increments() {
    let mut delegate = FileTableDelegate::new(five_file_model());
    assert_eq!(delegate.nav_generation(), 0);
    assert_eq!(delegate.bump_nav_generation(), 1);
    assert_eq!(delegate.nav_generation(), 1);
    assert_eq!(delegate.bump_nav_generation(), 2);
    assert_eq!(delegate.nav_generation(), 2);
}

#[test]
fn toggle_cursor_selection_toggles_only_the_cursor_entry() {
    let mut delegate = FileTableDelegate::new(five_file_model());
    delegate.move_cursor_to(2);
    delegate.toggle_cursor_selection();
    assert_eq!(selected_names(&delegate), vec!["f2"]);
    delegate.toggle_cursor_selection();
    assert!(selected_names(&delegate).is_empty());
}

#[test]
fn invert_selection_flips_every_visible_entry() {
    let mut delegate = FileTableDelegate::new(five_file_model());
    delegate.move_cursor_to(1);
    delegate.toggle_cursor_selection();
    delegate.invert_selection();
    assert_eq!(
        selected_names(&delegate),
        vec!["f0", "f2", "f3", "f4"],
        "everything except the previously-selected f1"
    );
    delegate.invert_selection();
    assert_eq!(selected_names(&delegate), vec!["f1"]);
}

#[test]
fn select_all_and_deselect_all() {
    let mut delegate = FileTableDelegate::new(five_file_model());
    delegate.select_all();
    assert_eq!(delegate.model().selection_count(), 5);
    delegate.deselect_all();
    assert_eq!(delegate.model().selection_count(), 0);
}

fn mixed_extension_model() -> DirectoryModel {
    model_of(
        ["photo.jpg", "photo.png", "notes.txt", "readme"]
            .iter()
            .map(|name| entry(name, EntryKind::File, 1, 0))
            .collect(),
        vec![2, 0, 1, 3],
    )
}

#[test]
fn select_same_extension_matches_only_the_cursor_entrys_extension() {
    let mut delegate = FileTableDelegate::new(mixed_extension_model());
    let jpg_row = delegate
        .model()
        .order()
        .iter()
        .position(|&ix| delegate.model().name(EntryId::new(ix)) == "photo.jpg")
        .unwrap();
    delegate.move_cursor_to(jpg_row);
    delegate.select_same_extension();
    assert_eq!(selected_names(&delegate), vec!["photo.jpg"]);
}

#[test]
fn select_same_extension_is_a_no_op_when_cursor_entry_has_none() {
    let mut delegate = FileTableDelegate::new(mixed_extension_model());
    let no_ext_row = delegate
        .model()
        .order()
        .iter()
        .position(|&ix| delegate.model().name(EntryId::new(ix)) == "readme")
        .unwrap();
    delegate.move_cursor_to(no_ext_row);
    delegate.select_same_extension();
    assert!(selected_names(&delegate).is_empty());
}

#[test]
fn extend_selection_to_grows_and_shrinks_a_range_from_a_fixed_anchor() {
    let mut delegate = FileTableDelegate::new(five_file_model());
    delegate.move_cursor_to(1);
    delegate.extend_selection_to(3);
    assert_eq!(selected_names(&delegate), vec!["f1", "f2", "f3"]);

    delegate.extend_selection_to(2);
    assert_eq!(selected_names(&delegate), vec!["f1", "f2"]);

    delegate.extend_selection_to(1);
    assert_eq!(
        selected_names(&delegate),
        vec!["f1"],
        "shrinking all the way back to the anchor leaves just the anchor row"
    );
}

#[test]
fn extend_selection_to_does_not_touch_unrelated_prior_selection() {
    let mut delegate = FileTableDelegate::new(five_file_model());
    delegate.move_cursor_to(4);
    delegate.toggle_cursor_selection();

    delegate.move_cursor_to(0);
    delegate.extend_selection_to(1);

    assert_eq!(
        selected_names(&delegate),
        vec!["f0", "f1", "f4"],
        "the range-extend session must not disturb f4's selection"
    );
}

#[test]
fn shrinking_a_range_takes_away_only_what_it_added() {
    let mut delegate = FileTableDelegate::new(five_file_model());
    delegate.move_cursor_to(3);
    delegate.toggle_cursor_selection();
    delegate.move_cursor_to(1);
    delegate.extend_selection_to(4);
    assert_eq!(selected_names(&delegate), vec!["f1", "f2", "f3", "f4"]);
    delegate.extend_selection_to(1);
    assert_eq!(selected_names(&delegate), vec!["f1", "f3"]);
    delegate.extend_selection_to(0);
    assert_eq!(selected_names(&delegate), vec!["f0", "f1", "f3"]);
}

#[test]
fn plain_cursor_movement_ends_a_range_select_session() {
    let mut delegate = FileTableDelegate::new(five_file_model());
    delegate.move_cursor_to(1);
    delegate.extend_selection_to(3);
    assert!(delegate.range_anchor.is_some());

    delegate.move_cursor_by(1);
    assert!(
        delegate.range_anchor.is_none(),
        "plain movement must end the range-select session"
    );
    assert_eq!(
        selected_names(&delegate),
        vec!["f1", "f2", "f3"],
        "but must not itself change the selection made so far"
    );

    delegate.extend_selection_to(4);
    assert_eq!(selected_names(&delegate), vec!["f1", "f2", "f3", "f4"]);
}

#[test]
fn total_bytes_in_view_sums_files_and_excludes_directories() {
    let model = model_of(
        vec![
            entry("a", EntryKind::File, 100, 0),
            entry("dir", EntryKind::Directory, 4096, 0),
            entry("b", EntryKind::File, 250, 0),
        ],
        vec![1, 0, 2],
    );
    let delegate = FileTableDelegate::new(model);
    assert_eq!(
        delegate.total_bytes_in_view(),
        350,
        "100 + 250, the directory's stored size must not count"
    );
}

#[test]
fn responsive_widths_keep_size_and_modified_fixed_always() {
    for available in [80.0, 250.0, 500.0, 1000.0] {
        let widths = column_widths(px(available));
        assert_eq!(widths[1], SIZE_WIDTH, "Size never changes");
        assert_eq!(widths[2], MODIFIED_WIDTH, "Modified never changes");
    }
}

#[test]
fn responsive_widths_grow_name_to_fill_all_leftover_space_when_roomy() {
    let widths = column_widths(px(1000.0));
    let expected_name = px(1000.0) - SIZE_WIDTH - MODIFIED_WIDTH;
    assert_eq!(widths[0], expected_name);
    assert_eq!(widths.iter().sum::<u32>(), px(1000.0));
}

#[test]
fn responsive_widths_shrink_name_as_panel_narrows() {
    let wide = column_widths(px(1000.0));
    let narrow = column_widths(px(500.0));
    assert!(narrow[0] < wide[0], "Name shrinks as available width drops");
    assert_eq!(narrow[0], px(500.0) - SIZE_WIDTH - MODIFIED_WIDTH);
}

#[test]
fn responsive_widths_fall_back_to_name_min_when_impossibly_narrow() {
    let widths = column_widths(px(50.0));
    assert_eq!(widths, [NAME_MIN, SIZE_WIDTH, MODIFIED_WIDTH]);
}

#[test]
fn apply_responsive_widths_updates_columns_and_dedupes_repeat_calls() {
    let mut delegate = FileTableDelegate::new(sample_model());
    assert!(delegate.responsive_seed().is_none());
    assert!(delegate.apply_responsive_widths(px(500.0)));
    assert_eq!(delegate.widths.len(), 3, "column count never changes");
    let narrow_name = delegate.widths[0];
    assert_eq!(narrow_name, px(500.0 - 20.0 - 110.0 - 170.0));

    assert!(
        !delegate.apply_responsive_widths(px(500.3)),
        "sub-pixel jitter should not trigger a rebuild"
    );
    assert_eq!(delegate.widths[0], narrow_name);

    assert!(
        delegate.apply_responsive_widths(px(1000.0)),
        "a real width change should trigger a rebuild"
    );
    assert!(
        delegate.widths[0] > narrow_name,
        "Name grows back once the panel widens"
    );
    assert_eq!(
        delegate.responsive_seed(),
        Some((delegate.widths, px(1000.0)))
    );
}

#[test]
fn row_text_cache_matches_order_and_is_stable_until_generation_changes() {
    let mut delegate = FileTableDelegate::new(sample_model());
    assert_eq!(delegate.row_text.len(), 2);
    assert_eq!(delegate.row_text[0].name, "b_dir");
    assert_eq!(delegate.row_text[0].size, "<DIR>");
    assert_eq!(delegate.row_text[1].name, "a_file.txt");
    assert_eq!(delegate.row_text[1].size, "2.0 KB");

    let gen_before = delegate.cached_generation;
    delegate.rebuild_row_text();
    assert_eq!(
        delegate.cached_generation, gen_before,
        "no-op rebuild must not bump the cached generation redundantly"
    );
}

#[test]
fn write_size_formats_bytes_and_directories() {
    let mut buf = String::new();
    write_size(&mut buf, EntryKind::File, 0);
    assert_eq!(buf, "0 B");

    buf.clear();
    write_size(&mut buf, EntryKind::File, 2048);
    assert_eq!(buf, "2.0 KB");

    buf.clear();
    write_size(&mut buf, EntryKind::Directory, 999_999);
    assert_eq!(buf, "<DIR>");
}

fn float_byte_count(bytes: u64) -> String {
    let units = ["B", "KB", "MB", "GB", "TB", "PB"];
    let mut size = bytes as f64;
    let mut unit = 0;
    while size >= 1024.0 && unit < units.len() - 1 {
        size /= 1024.0;
        unit += 1;
    }
    if unit == 0 {
        format!("{bytes} B")
    } else {
        format!("{size:.1} {}", units[unit])
    }
}

#[test]
fn byte_counts_read_as_a_double_with_one_decimal_does() {
    let mut samples: Vec<u64> = vec![0, 1, 1023, 1024, 1075, 1076, 1280, 1536, 1792, u64::MAX];
    for shift in 0..64 {
        for offset in 0..40u64 {
            let base = 1u64 << shift;
            samples.push(base.wrapping_add(offset));
            samples.push(base.wrapping_sub(offset));
            samples.push(base.wrapping_add(base / 4 + offset));
            samples.push(base.wrapping_add(base / 20 * offset));
            samples.push(base.wrapping_add(base / 40 * offset));
        }
    }
    for n in 0..40_000u64 {
        samples.push(n);
        samples.push(n * 1_048_576 / 20);
        samples.push(n.wrapping_mul(0x9e37_79b9_7f4a_7c15));
    }
    for bytes in samples {
        let mut text = String::new();
        write_byte_count(&mut text, bytes);
        assert_eq!(text, float_byte_count(bytes), "{bytes} bytes");
    }
}

#[test]
fn the_best_match_wins_and_the_nearest_of_equals() {
    let matched = vec![(0, 5), (2, 9), (4, 9), (9, 9)];
    assert_eq!(pick_match(&matched, 3), Some(1), "as near above as below: the upper one");
    assert_eq!(pick_match(&matched, 4), Some(2));
    assert_eq!(pick_match(&matched, 100), Some(3));
    assert_eq!(pick_match(&Vec::new(), 0), None);
}

#[test]
fn the_matcher_finds_subsequences_whatever_their_case() {
    assert!(score_name("rmr", "README.rst").is_some());
    assert!(score_name("rme", "README.rst").is_some());
    assert!(score_name("zzz", "README.rst").is_none());
    assert!(score_name("readme", "README.rst") > score_name("readme", "r-e-a-d-m-e"));
    assert_eq!(score_name("", "anything"), Some(0));
    assert_eq!(matched_places("ga", "gamma"), vec![0, 1]);
    assert_eq!(matched_places("ma ga", "gamma"), matched_places("ga ma", "gamma"));
    assert_eq!(sorted_distinct(&vec![4, 1, 4, 0]), vec![0, 1, 4]);
}

#[test]
fn typing_starts_a_session_and_every_keystroke_renews_its_number() {
    let mut delegate = FileTableDelegate::new(five_file_model());
    let first = delegate.push_quick_search_char('f');
    assert_eq!(delegate.quick_search_mode(), Some(QuickSearchMode::Jump));
    let second = delegate.push_quick_search_char('3');
    assert_ne!(first, second);
    assert_eq!(delegate.apply_quick_search(vec![true; 5]), Some(3));
    assert_eq!(
        delegate.quick_search_indicator_text(),
        Some("find: f3 (1/1)".to_string())
    );
    assert_eq!(delegate.cell_highlights(3, COL_NAME), Some(vec![0, 1]));
    assert_eq!(delegate.cell_highlights(2, COL_NAME), None);
    assert_eq!(delegate.cell_highlights(3, COL_SIZE), None);

    assert!(!delegate.idle_timeout(first), "an earlier keystroke's timer does nothing");
    delegate.clear_quick_search();
    let third = delegate.push_quick_search_char('f');
    assert!(third > second, "a later session never reuses a number");
    assert!(!delegate.idle_timeout(second));
    assert!(delegate.idle_timeout(third));
    assert_eq!(delegate.quick_search_mode(), None);
}

#[test]
fn the_filter_key_switches_the_regime_and_leaving_shows_everything() {
    let mut delegate = FileTableDelegate::new(five_file_model());
    delegate.toggle_quick_filter();
    assert_eq!(delegate.quick_search_mode(), Some(QuickSearchMode::Filter));
    delegate.push_quick_search_char('4');
    assert_eq!(
        delegate.apply_quick_search(vec![false, false, false, false, true]),
        Some(0)
    );
    assert_eq!(
        delegate.quick_search_indicator_text(),
        Some("filter: 4 (1 match)".to_string())
    );
    delegate.toggle_quick_filter();
    assert_eq!(delegate.quick_search_mode(), Some(QuickSearchMode::Jump));
    assert_eq!(
        delegate.quick_search_indicator_text(),
        Some("find: 4 (no match)".to_string())
    );
    delegate.clear_quick_search();
    assert_eq!(delegate.model().order(), &vec![0, 1, 2, 3, 4]);
    assert_eq!(delegate.cursor_row(), Some(4), "the cursor stays on its entry");
}

#[test]
fn a_jump_that_finds_nothing_leaves_the_cursor() {
    let mut delegate = FileTableDelegate::new(five_file_model());
    delegate.move_cursor_to(2);
    delegate.push_quick_search_char('q');
    assert_eq!(delegate.apply_quick_search(vec![true; 5]), None);
    assert_eq!(delegate.cursor_row(), Some(2));
}

#[test]
fn a_session_begins_in_the_configured_regime() {
    let mut delegate = FileTableDelegate::new(five_file_model());
    delegate.set_quick_search_default_mode(QuickSearchMode::Filter);
    delegate.push_quick_search_char('f');
    assert_eq!(delegate.quick_search_mode(), Some(QuickSearchMode::Filter));
    assert!(delegate.quick_search_generation().is_some());
}

#[test]
fn cells_show_the_texts_of_their_rows() {
    let mut delegate = FileTableDelegate::new(sample_model());
    delegate.set_has_parent_row(true);
    assert_eq!(delegate.cell_text(0, COL_NAME), "..");
    assert_eq!(delegate.cell_text(0, COL_SIZE), "");
    assert_eq!(delegate.cell_text(1, COL_NAME), "b_dir");
    assert_eq!(delegate.cell_text(2, COL_SIZE), "2.0 KB");
    assert_eq!(delegate.cell_text(1, COL_MODIFIED), "2023-11-14 22:13");
    assert_eq!(delegate.cell_text(2, 7), "");
    assert_eq!(delegate.cell_text(9, COL_NAME), "");
    assert!(FileTableDelegate::cell_right_aligned(COL_SIZE));
    assert!(!FileTableDelegate::cell_right_aligned(COL_NAME));
    assert_eq!(delegate.middle_click_target(0), Some("b_dir".to_string()));
    assert_eq!(delegate.middle_click_target(1), None);
    assert_eq!(delegate.middle_click_target(5), None);
}

#[test]
fn rows_are_drawn_as_cursor_before_selection() {
    let mut delegate = FileTableDelegate::new(five_file_model());
    delegate.set_has_parent_row(true);
    delegate.select_all();
    assert_eq!(delegate.row_style(0), RowStyle::Plain);
    assert_eq!(delegate.row_style(1), RowStyle::Cursor);
    assert_eq!(delegate.row_style(2), RowStyle::Selected);
    delegate.move_cursor_to(0);
    assert_eq!(delegate.row_style(0), RowStyle::Cursor);
    assert_eq!(delegate.row_style(1), RowStyle::Selected);
    assert_eq!(delegate.row_style(5), RowStyle::Selected);
    assert_eq!(delegate.row_style(6), RowStyle::Plain);
    assert_eq!(delegate.row_style(usize::MAX), RowStyle::Plain);
}

#[test]
fn the_selection_of_hidden_entries_is_left_alone_until_all_is_cleared() {
    let mut delegate = FileTableDelegate::new(five_file_model());
    delegate.select_all();
    delegate.toggle_quick_filter();
    delegate.apply_quick_search(vec![true, true, false, false, false]);
    delegate.invert_selection();
    delegate.clear_quick_search();
    assert_eq!(selected_names(&delegate), vec!["f2", "f3", "f4"]);
    delegate.model_mut().select(EntryId::new(0));
    delegate.model_mut().deselect(EntryId::new(4));
    assert_eq!(selected_names(&delegate), vec!["f0", "f2", "f3"]);
}

#[test]
fn the_menu_shows_whether_its_row_is_selected() {
    let mut delegate = FileTableDelegate::new(five_file_model());
    delegate.set_has_parent_row(true);
    delegate.set_mouse_mode(MouseMode::Norton);
    assert_eq!(delegate.context_menu(2), Some(true));
    assert_eq!(delegate.context_menu(2), Some(false));
    assert_eq!(delegate.context_menu(0), None);
}

#[test]
fn the_matcher_is_asked_where_its_counts_hold() {
    let letters = "a".repeat(2100);
    assert!(matcher_takes(&letters, &letters));
    assert_eq!(score_name(&letters, &letters), Some(36 + 2099 * 26));
    let longest = "a".repeat(2520);
    assert!(matcher_takes(&longest, &longest));
    assert_eq!(score_name(&longest, &longest), Some(36 + 2519 * 26));
    let longer = "a".repeat(2521);
    assert!(!matcher_takes(&longer, &longer));
    assert!(matcher_takes(&longer, "a"));
    let words = format!("{longest} {longest}");
    assert!(matcher_takes(&words, &longest));
    assert_eq!(score_name(&words, &longest), Some(2 * (36 + 2519 * 26)));
    let escaped = format!("a\\ {}", "a".repeat(2519));
    assert!(!matcher_takes(&escaped, &longer));
}

#[test]
fn a_backslash_can_count_twice() {
    let query = format!("{}\u{e9}", "\\".repeat(1999));
    let name = format!("{}\u{e9}", "\\".repeat(3998));
    assert!(!matcher_takes(&query, &name));
    assert!(matcher_takes(&"\\".repeat(2000), &name));
    let short = format!("{}\u{e9}", "\\".repeat(4));
    assert!(matcher_takes("\\\\\u{e9}", &short));
    assert_eq!(matched_places("\\\\\u{e9}", &short).len(), 5);
}

#[test]
fn letters_that_are_read_in_two_ways_are_not_asked_for() {
    assert!(!matcher_takes("s\u{e9}", "\u{17f}as\u{e9}b"));
    assert!(matcher_takes("se", "\u{17f}as\u{e9}b"));
    assert!(matcher_takes("s\u{e9}", "sas\u{e9}b"));
    assert!(matcher_takes("s\u{e9}", "\u{b5}s\u{e9}b"));
    assert!(matcher_takes("s\u{e9}", "\u{17f}a\u{e9}b"));
    assert_eq!(score_name("s\u{e9}", "\u{17f}a\u{e9}b"), None);
    assert!(matcher_takes("s\u{e9}", "xs\u{17f}as\u{e9}b"));
    assert!(score_name("s\u{e9}", "xs\u{17f}as\u{e9}b").is_some());
    assert!(!matcher_takes("s\u{e9}", "x\u{17f}as\u{e9}b"));
    assert!(matcher_takes("s\u{e9}", "sas\u{e9}\u{17f}b"));
    assert!(score_name("s\u{e9}", "sas\u{e9}\u{17f}b").is_some());
    assert_eq!(matched_places("s\u{e9}", "\u{b5}xs\u{e9}b"), vec![2, 3]);
    assert!(matcher_takes("\u{e9}s", "x\u{e9}a\u{17f}sb"));
    assert!(score_name("\u{e9}s", "x\u{e9}a\u{17f}sb").is_some());
    assert_eq!(matched_places("\u{e9}s", "x\u{e9}a\u{17f}sb"), vec![1, 4]);
    assert_eq!(score_name("\u{e9}s", "x\u{e9}a\u{17f}b"), None);
    assert!(score_name("\u{e9}s", "x\u{e9}\u{17f}b").is_some());
    assert!(score_name("s\u{e9}", "sas\u{e9}b").is_some());
    let greek = "\u{3bb}\u{3cc}\u{3b3}\u{3bf}\u{3c2}.txt";
    assert!(matcher_takes("\u{3b3}\u{3bf}\u{3c2}", greek));
    assert!(score_name("\u{3b3}\u{3bf}\u{3c2}", greek).is_some());
}

#[test]
fn a_search_that_the_matcher_cannot_do_changes_nothing() {
    let model = model_of(
        vec![entry("\u{17f}as\u{e9}b", EntryKind::File, 1, 0)],
        vec![0],
    );
    let mut delegate = FileTableDelegate::new(model);
    delegate.search_count = 1;
    delegate.quick_search = Some(session(QuickSearchMode::Jump, "s\u{e9}"));
    assert!(!delegate.takes_query("s\u{e9}"));
    assert_eq!(delegate.try_quick_search(vec![true]), None);
    assert!(delegate.quick_search.as_ref().unwrap().jump_match.is_none());
    delegate.quick_search = Some(session(QuickSearchMode::Jump, "sb"));
    assert_eq!(delegate.try_quick_search(vec![true]), Some(Some(0)));
    delegate.quick_search = Some(session(QuickSearchMode::Filter, "s\u{e9}"));
    assert_eq!(delegate.try_quick_search(vec![true]), Some(Some(0)));
    delegate.quick_search = None;
    assert_eq!(delegate.try_quick_search(vec![true]), Some(None));
}
