use duet_ui::clipboard::{read_files, write_files, CutMarks, FileClipboard};
use duet_ui::columns::{EntryKind, SortColumn};
use duet_ui::command_palette::{CommandPaletteDelegate, PaletteEntry};
use duet_ui::function_bar::{
    build_function_bar, fallback_label, short_label, CatalogueEntry, FKeySlot, KeyCommands,
};
use duet_ui::hotlist::{HotlistDelegate, HotlistEntry};
use duet_ui::listing::{DirectoryModel, Entry};
use duet_ui::open_with::{AppChoice, OpenWithDelegate};
use duet_ui::panel::{bind_panel_keys, labelled, tab_label, Panel, PanelAction, SessionTab};
use duet_ui::quick_search::{MouseMode, QuickSearchMode};
use duet_ui::table_actions::TableOutcome;
use duet_ui::table_view::{
    bind_file_table_keys, scroll_for, typed_char, CursorKey, FileTable, FileTableEvent,
    FileTableSettings, Load, Navigation, TabRestore, TableAction, VolumeStats,
};

fn settings() -> FileTableSettings {
    FileTableSettings {
        mouse_mode: MouseMode::Windows,
        quick_search_default_mode: QuickSearchMode::Jump,
        quick_search_idle_timeout_ms: 1000,
    }
}

fn session_tab(dir: &str, locked: bool, lock_dir_change: bool) -> SessionTab {
    SessionTab {
        dir: dir.to_string(),
        locked,
        lock_dir_change,
    }
}

fn panel(tabs: Vec<SessionTab>, active: usize) -> Panel {
    Panel::new(tabs, active, settings()).0
}

fn dirs(panel: &Panel) -> Vec<&str> {
    panel.tabs.iter().map(|t| t.table.current_dir()).collect()
}

#[test]
fn panel_new_clamps_active_index_into_range() {
    let p = panel(
        vec![session_tab("/a", false, false), session_tab("/b", false, false)],
        99,
    );
    assert_eq!(p.active, 1, "clamped to the last real tab");
    assert_eq!(p.tabs.len(), 2);
}

#[test]
fn new_tab_duplicates_active_dir_and_becomes_active() {
    let mut p = panel(vec![session_tab("/a", false, false)], 0);
    let load = p.new_tab();
    assert_eq!(load.dir, "/a");
    assert_eq!(p.tabs.len(), 2);
    assert_eq!(p.active, 1);
    assert_eq!(p.active_table().current_dir(), "/a");
    assert!(
        !p.tabs[1].locked,
        "a plain new tab is never locked, even if the source tab was"
    );
}

#[test]
fn new_tab_seeds_column_widths_from_an_already_measured_sibling() {
    let mut p = panel(vec![session_tab("/a", false, false)], 0);
    assert!(p.tabs[0].table.delegate.apply_responsive_widths(90_000));
    p.new_tab();
    assert_eq!(
        p.tabs[0].table.delegate.responsive_seed(),
        p.tabs[1].table.delegate.responsive_seed()
    );
    assert!(p.tabs[1].table.delegate.responsive_seed().is_some());
}

#[test]
fn close_active_removes_tab_and_never_drops_below_one() {
    let mut p = panel(
        vec![session_tab("/a", false, false), session_tab("/b", false, false)],
        1,
    );
    p.close_active();
    assert_eq!(dirs(&p), vec!["/a"]);
    p.close_active();
    assert_eq!(p.tabs.len(), 1, "never closes the last tab");
}

#[test]
fn next_tab_and_prev_tab_wrap_around() {
    let mut p = panel(
        vec![session_tab("/a", false, false), session_tab("/b", false, false)],
        0,
    );
    p.next_tab();
    assert_eq!(p.active, 1);
    p.next_tab();
    assert_eq!(p.active, 0, "wraps from the last tab back to the first");
    p.prev_tab();
    assert_eq!(p.active, 1, "wraps from the first tab back to the last");
}

#[test]
fn duplicate_active_copies_lock_flags() {
    let mut p = panel(vec![session_tab("/a", true, true)], 0);
    p.duplicate_active();
    assert_eq!(p.tabs.len(), 2);
    assert_eq!(p.active, 1);
    assert!(p.tabs[1].locked);
    assert!(p.tabs[1].lock_dir_change);
    assert_eq!(p.tabs[1].table.current_dir(), "/a");
}

#[test]
fn toggle_lock_and_lock_dir_change_semantics() {
    let mut p = panel(vec![session_tab("/a", false, false)], 0);
    p.toggle_lock();
    assert!(p.tabs[0].locked);
    assert!(!p.tabs[0].lock_dir_change);

    p.toggle_lock();
    p.toggle_lock_dir_change();
    assert!(p.tabs[0].locked, "lock_dir_change implies locked");
    assert!(p.tabs[0].lock_dir_change);
    assert!(!p.tabs[0].table.locked, "a tab that may change its directory is not held to it");

    p.toggle_lock();
    assert!(!p.tabs[0].locked);
    assert!(!p.tabs[0].lock_dir_change);
}

#[test]
fn close_others_then_reopen_closed_round_trips_dir_and_lock_flags() {
    let mut p = panel(
        vec![session_tab("/a", true, false), session_tab("/b", false, false)],
        1,
    );
    p.close_others();
    assert_eq!(dirs(&p), vec!["/b"], "the active tab is the one kept");
    assert_eq!(p.active, 0);

    assert!(p.reopen_closed().is_some());
    assert_eq!(dirs(&p), vec!["/b", "/a"]);
    assert_eq!(p.active, 1);
    assert!(
        p.tabs[1].locked,
        "reopening restores the closed tab's lock flag"
    );
    assert!(p.reopen_closed().is_none());
}

#[test]
fn move_active_left_and_right_reorders_tabs() {
    let mut p = panel(
        vec![session_tab("/a", false, false), session_tab("/b", false, false)],
        0,
    );
    p.move_active_left();
    assert_eq!(dirs(&p), vec!["/a", "/b"]);
    assert_eq!(p.active, 0);

    p.move_active_right();
    assert_eq!(p.active, 1);
    assert_eq!(dirs(&p), vec!["/b", "/a"]);

    p.move_active_right();
    assert_eq!(p.active, 1);
    p.move_active_left();
    assert_eq!(dirs(&p), vec!["/a", "/b"]);
}

#[test]
fn switch_to_out_of_range_is_a_no_op() {
    let mut p = panel(
        vec![session_tab("/a", false, false), session_tab("/b", false, false)],
        0,
    );
    p.switch_to(50);
    assert_eq!(p.active, 0);
    p.switch_to(1);
    assert_eq!(p.active, 1);
    let session = p.snapshot();
    assert_eq!(session.active_tab, 1);
    assert_eq!(session.tabs[0], session_tab("/a", false, false));
}

#[test]
fn locked_tab_navigation_opens_a_new_unlocked_tab_instead() {
    let mut p = panel(vec![session_tab("/a", true, false)], 0);
    let answer = p.tabs[0].table.navigate_to_root();
    assert_eq!(answer, Navigation::Redirect("/".to_string()));
    assert!(p.follow(answer).is_some());
    assert_eq!(dirs(&p), vec!["/a", "/"]);
    assert!(p.tabs[0].locked, "the locked tab stays locked");
    assert_eq!(p.active, 1, "the new tab becomes active");
    assert!(!p.tabs[1].locked, "the redirected new tab is unlocked");
    assert!(p.follow(Navigation::Stay).is_none());
}

#[test]
fn tab_labels_carry_the_name_and_the_locks() {
    let p = panel(
        vec![
            session_tab("/home/u", false, false),
            session_tab("/", true, false),
            session_tab("/home/u", true, true),
        ],
        0,
    );
    assert_eq!(tab_label(&p.tabs[0]), "u");
    assert_eq!(tab_label(&p.tabs[1]), "[L] /");
    assert_eq!(tab_label(&p.tabs[2]), "[L+] u");
    assert_eq!(labelled("x", true, false), "[L] x");
    let strip = p.render_tab_strip();
    assert_eq!(strip.len(), 3);
    assert_eq!(strip[1].label, "[L] /");
    assert!(strip[0].active && !strip[2].active);
    assert_eq!(bind_panel_keys("ctrl-shift-t"), Some(PanelAction::TabReopenClosed));
    assert_eq!(bind_panel_keys("t"), None);
}

fn listing(names: &[(&str, EntryKind)]) -> DirectoryModel {
    let mut model = DirectoryModel::new();
    for (name, kind) in names {
        model.push(Entry {
            name: name.to_string(),
            kind: *kind,
            size: 1,
            mtime_secs: 0,
        });
    }
    model.sort_by(SortColumn::Size, false, (0..names.len()).collect());
    model
}

fn table(dir: &str) -> FileTable {
    FileTable::new(dir.to_string(), None, TabRestore::default(), settings()).0
}

fn shown(names: &[(&str, EntryKind)]) -> FileTable {
    let mut t = table("/home/u");
    t.apply_listing(0, listing(names), true, None);
    t
}

#[test]
fn a_late_listing_is_thrown_away() {
    let mut t = table("/home/u");
    let go = t.navigate_to("/tmp".to_string(), None);
    assert_eq!(
        go,
        Navigation::Go(Load {
            dir: "/tmp".to_string(),
            select_name: None,
            sort: (SortColumn::Name, true),
            generation: 1,
        })
    );
    let model = listing(&[("a", EntryKind::File), ("b", EntryKind::File)]);
    assert_eq!(t.apply_listing(0, model, true, None), None);
    assert!(t.state().loading);
    let model = listing(&[("a", EntryKind::File), ("b", EntryKind::File)]);
    assert_eq!(t.apply_listing(1, model, true, Some("b")), Some(Some(2)));
    assert_eq!(t.state().cursor_row(), Some(1));
    assert!(!t.state().loading);
    assert_eq!(t.sort_state(), (SortColumn::Size, false));
    let stats = VolumeStats { total_bytes: 10, free_bytes: 4 };
    assert!(!t.apply_volume_stats(0, stats));
    assert!(t.apply_volume_stats(1, stats));
    assert_eq!(t.volume_stats(), Some(stats));
    assert_eq!(FileTableEvent::DirectoryChanged, FileTableEvent::DirectoryChanged);
}

#[test]
fn going_up_selects_the_directory_that_was_left() {
    let mut t = table("/home/u");
    match t.navigate_to_parent() {
        Navigation::Go(load) => {
            assert_eq!(load.dir, "/home");
            assert_eq!(load.select_name, Some("u".to_string()));
        }
        other => panic!("{other:?}"),
    }
    assert_eq!(t.current_dir(), "/home");
    let mut root = table("/");
    assert_eq!(root.navigate_to_parent(), Navigation::Stay);
    assert_eq!(root.navigate_to_home(None), Navigation::Stay);
}

#[test]
fn back_and_forward_lead_to_where_one_was() {
    let mut t = table("/a");
    t.navigate_to("/b".to_string(), None);
    t.navigate_to("/c".to_string(), None);
    assert!(matches!(t.navigate_history_back(), Navigation::Go(_)));
    assert_eq!(t.current_dir(), "/b");
    assert!(matches!(t.navigate_history_back(), Navigation::Go(_)));
    assert_eq!(t.navigate_history_back(), Navigation::Stay);
    assert_eq!(t.current_dir(), "/a");
    assert!(matches!(t.navigate_history_forward(), Navigation::Go(_)));
    assert_eq!(t.current_dir(), "/b");
    assert_eq!(t.history_forward, vec!["/c".to_string()]);
    t.navigate_to("/d".to_string(), None);
    assert_eq!(t.navigate_history_forward(), Navigation::Stay);
}

#[test]
fn enter_goes_into_directories_and_up_from_the_parent_row() {
    let mut t = shown(&[("sub", EntryKind::Directory), ("f", EntryKind::File)]);
    t.delegate.move_cursor_to(2);
    assert_eq!(t.enter_cursor_directory(), Navigation::Stay);
    t.delegate.move_cursor_to(1);
    assert!(matches!(t.enter_cursor_directory(), Navigation::Go(_)));
    assert_eq!(t.current_dir(), "/home/u/sub");
    let mut t = shown(&[("sub", EntryKind::Directory)]);
    t.delegate.move_cursor_to(0);
    assert!(matches!(t.enter_cursor_directory(), Navigation::Go(_)));
    assert_eq!(t.current_dir(), "/home");
    t.set_locked_navigation(true);
    assert_eq!(
        t.navigate_to_home(Some("/root".to_string())),
        Navigation::Redirect("/root".to_string())
    );
}

#[test]
fn clicks_select_as_the_mouse_mode_and_the_modifiers_say() {
    let names = [
        ("f0", EntryKind::File),
        ("f1", EntryKind::File),
        ("f2", EntryKind::File),
    ];
    let mut t = shown(&names);
    assert_eq!(t.handle_left_click(2, false, false), Some(2));
    assert_eq!(t.delegate.model().selected, vec![false, true, false]);
    t.handle_left_click(3, false, true);
    assert_eq!(t.delegate.model().selected, vec![false, true, true]);
    t.handle_left_click(1, false, false);
    assert_eq!(t.delegate.model().selected, vec![true, false, false]);
    assert_eq!(t.handle_left_click(3, true, false), Some(3));
    assert_eq!(t.delegate.model().selected, vec![true, true, true]);
    t.handle_left_click(0, true, true);
    assert!(t.delegate.cursor_on_parent());
    assert_eq!(t.delegate.model().selected, vec![true, true, true]);
    t.delegate.set_mouse_mode(MouseMode::Norton);
    t.handle_left_click(1, false, false);
    assert_eq!(t.delegate.model().selected, vec![true, true, true]);
}

#[test]
fn cursor_keys_end_a_jump_and_scroll_into_view() {
    let names = [
        ("f0", EntryKind::File),
        ("f1", EntryKind::File),
        ("f2", EntryKind::File),
        ("f3", EntryKind::File),
    ];
    let mut t = shown(&names);
    t.delegate.push_quick_search_char('f');
    assert_eq!(t.cursor_key(CursorKey::Down, 0, 3), None);
    assert_eq!(t.delegate.quick_search_mode(), None);
    assert_eq!(t.cursor_key(CursorKey::Down, 0, 3), Some(3));
    assert_eq!(t.cursor_key(CursorKey::End, 0, 9), Some(4));
    assert_eq!(t.cursor_key(CursorKey::PageUp, 0, 2), Some(2));
    assert_eq!(t.cursor_key(CursorKey::Home, 0, 9), Some(0));
    assert_eq!(t.cursor_key(CursorKey::PageDown, 0, 2), Some(2));
    assert_eq!(t.cursor_key(CursorKey::Up, 0, 9), None);
    t.delegate.toggle_quick_filter();
    t.cursor_key(CursorKey::Down, 0, 9);
    assert_eq!(t.delegate.quick_search_mode(), Some(QuickSearchMode::Filter));
    let mut empty = table("/");
    assert_eq!(empty.cursor_key(CursorKey::Down, 0, 9), None);
    assert_eq!(empty.extend_selection(CursorKey::Down, 0, 9), None);
}

#[test]
fn ranges_are_extended_by_keys() {
    let names = [
        ("f0", EntryKind::File),
        ("f1", EntryKind::File),
        ("f2", EntryKind::File),
        ("f3", EntryKind::File),
    ];
    let mut t = shown(&names);
    assert_eq!(t.extend_selection(CursorKey::Down, 0, 9), None);
    assert_eq!(t.delegate.model().selected, vec![true, true, false, false]);
    assert_eq!(t.extend_selection(CursorKey::End, 0, 9), Some(4));
    assert_eq!(t.delegate.model().selected, vec![true; 4]);
    assert_eq!(t.extend_selection(CursorKey::PageUp, 0, 2), Some(2));
    assert_eq!(t.delegate.model().selected, vec![true, true, false, false]);
    assert_eq!(t.extend_selection(CursorKey::PageDown, 0, 9), None);
    assert_eq!(t.delegate.model().selected, vec![true; 4]);
    assert_eq!(t.extend_selection(CursorKey::Home, 0, 9), Some(1));
    assert_eq!(t.extend_selection(CursorKey::Up, 0, 9), None);
    t.delegate.deselect_all();
    assert_eq!(t.toggle_selection_and_advance(0, 2), Some(2));
    assert_eq!(t.delegate.model().selected, vec![true, false, false, false]);
}

#[test]
fn keys_stand_for_actions_and_letters_for_themselves() {
    assert_eq!(
        bind_file_table_keys("ctrl-home"),
        Some(TableAction::Cursor(CursorKey::Home))
    );
    assert_eq!(bind_file_table_keys("alt-up"), Some(TableAction::NavigateParent));
    assert_eq!(bind_file_table_keys("ctrl-\\"), Some(TableAction::NavigateRoot));
    assert_eq!(
        bind_file_table_keys("shift-pagedown"),
        Some(TableAction::ExtendSelection(CursorKey::PageDown))
    );
    assert_eq!(bind_file_table_keys("q"), None);
    assert_eq!(typed_char(false, false, false, false, Some("q")), Some('q'));
    assert_eq!(typed_char(true, false, false, false, Some("q")), None);
    assert_eq!(typed_char(false, false, false, false, Some("qq")), None);
    assert_eq!(typed_char(false, false, false, false, Some("")), None);
    assert_eq!(typed_char(false, false, false, false, None), None);
    assert_eq!(scroll_for(3, 0, 3), Some(3));
    assert_eq!(scroll_for(2, 0, 3), None);
}

fn bindings() -> Vec<KeyCommands> {
    let panel = [
        None,
        Some("panel.reread"),
        Some("view.open"),
        Some("edit.open"),
        Some("ops.copy"),
        Some("ops.move"),
        Some("ops.mkdir"),
        Some("ops.delete"),
        Some("tbd.f9_unverified"),
        None,
        None,
        None,
    ];
    let app = [
        Some("help.show"),
        None,
        None,
        None,
        None,
        None,
        None,
        None,
        None,
        Some("menu.activate"),
        None,
        None,
    ];
    (0..12)
        .map(|i| KeyCommands {
            panel: panel[i].map(str::to_string),
            app: app[i].map(str::to_string),
        })
        .collect()
}

fn catalogue() -> Vec<CatalogueEntry> {
    [
        ("panel.reread", "Refresh/reread the active panel"),
        ("view.open", "Open the file in the viewer"),
        ("edit.open", "Open the file in the editor"),
        ("ops.copy", "Copy selection to the target panel"),
        ("ops.move", "Move selection to the target panel"),
        ("ops.mkdir", "Create a directory"),
        ("ops.delete", "Delete the selection"),
    ]
    .iter()
    .map(|(id, title)| CatalogueEntry {
        id: id.to_string(),
        title: title.to_string(),
    })
    .collect()
}

fn by_key(slots: &[FKeySlot], key: &str) -> String {
    slots.iter().find(|s| s.key == key).unwrap().label.clone()
}

#[test]
fn builds_all_twelve_slots_in_order() {
    let slots = build_function_bar(&bindings(), &catalogue());
    assert_eq!(slots.len(), 12);
    assert_eq!(
        slots.iter().map(|s| s.key).collect::<Vec<_>>(),
        vec![
            "F1", "F2", "F3", "F4", "F5", "F6", "F7", "F8", "F9", "F10", "F11", "F12"
        ]
    );
}

#[test]
fn known_slots_carry_real_catalogue_derived_labels() {
    let slots = build_function_bar(&bindings(), &catalogue());
    assert_eq!(by_key(&slots, "F2"), "Refresh/reread");
    assert_eq!(by_key(&slots, "F3"), "Open");
    assert_eq!(by_key(&slots, "F4"), "Open");
    assert_eq!(by_key(&slots, "F5"), "Copy");
    assert_eq!(by_key(&slots, "F6"), "Move");
    assert_eq!(by_key(&slots, "F8"), "Delete");
}

#[test]
fn unregistered_default_bindings_get_documented_fallback_labels() {
    let slots = build_function_bar(&bindings(), &catalogue());
    assert_eq!(by_key(&slots, "F1"), "Help");
    assert_eq!(by_key(&slots, "F9"), "(unverified)");
    assert_eq!(by_key(&slots, "F10"), "Menu");
}

#[test]
fn f11_addition_and_f12_gap_are_handled_honestly() {
    let slots = build_function_bar(&bindings(), &catalogue());
    assert_eq!(by_key(&slots, "F11"), "Fullscreen");
    assert_eq!(by_key(&slots, "F12"), "");
}

#[test]
fn short_labels_are_first_words() {
    assert_eq!(short_label("Copy selection"), "Copy");
    assert_eq!(short_label("\u{2003}\tMove  it"), "Move");
    assert_eq!(short_label("   "), "   ");
    assert_eq!(short_label(""), "");
    assert_eq!(fallback_label("no.such"), "?");
}

#[test]
fn the_hotlist_shows_labels_and_goes_to_paths() {
    let mut list = HotlistDelegate::new(vec![
        HotlistEntry { label: None, path: "/a".to_string() },
        HotlistEntry { label: Some("Work".to_string()), path: "/w".to_string() },
    ]);
    assert_eq!(list.items_count(), 2);
    assert_eq!(list.confirm(), Some("/a".to_string()));
    assert!(!list.render_item(0).unwrap().show_path_line());
    let row = list.render_item(1).unwrap();
    assert_eq!(row.display_name, "Work");
    assert!(row.show_path_line());
    assert!(list.render_item(2).is_none());
    list.set_selected_index(Some(7));
    assert_eq!(list.confirm(), None);
    assert_eq!(HotlistDelegate::new(vec![]).selected, None);
}

#[test]
fn the_palette_runs_the_command_that_is_selected() {
    let entry = |id: &str, binding: Option<&str>| PaletteEntry {
        id: id.to_string(),
        title: format!("{id}!"),
        category: "c".to_string(),
        bindings: binding.iter().map(|b| b.to_string()).collect(),
    };
    let mut palette = CommandPaletteDelegate::new(vec![entry("a", None)]);
    assert_eq!(palette.confirm(), None, "nothing is selected at first");
    palette.perform_search(vec![entry("b", Some("F5")), entry("a", None)]);
    palette.set_selected_index(Some(0));
    assert_eq!(palette.items_count(), 2);
    assert_eq!(palette.render_item(0).unwrap().binding, "F5");
    assert_eq!(palette.render_item(1).unwrap().binding, "");
    assert_eq!(palette.confirm(), Some(("b".to_string(), "b!".to_string())));
}

#[test]
fn the_chooser_tells_the_default_and_the_terminal() {
    let choice = |is_default: bool, terminal: bool| AppChoice {
        id: "x.desktop".to_string(),
        name: "X".to_string(),
        is_default,
        terminal,
    };
    let chooser = OpenWithDelegate::new(
        vec!["/a".to_string()],
        vec![choice(true, true), choice(true, false), choice(false, true), choice(false, false)],
    );
    let detail = |i: usize| chooser.render_item(i).unwrap().detail;
    assert_eq!(detail(0), "default \u{b7} runs in a terminal");
    assert_eq!(detail(1), "default");
    assert_eq!(detail(2), "runs in a terminal");
    assert_eq!(detail(3), "");
    assert_eq!(chooser.confirm(), Some("x.desktop".to_string()));
    assert_eq!(chooser.items_count(), 4);
}

#[test]
fn cut_entries_are_marked_by_directory() {
    let mut marks = CutMarks::new();
    let paths = vec![
        "/tmp/dir/a.txt".to_string(),
        "/tmp/dir/b c.txt".to_string(),
        "/tmp/dir/a.txt".to_string(),
        "/".to_string(),
    ];
    marks.set(&paths, false);
    assert!(marks.names_for("/tmp/dir").is_none());
    let generation = marks.generation;
    marks.set(&paths, true);
    assert_eq!(
        marks.names_for("/tmp/dir"),
        Some(vec!["a.txt".to_string(), "b c.txt".to_string()])
    );
    assert!(marks.names_for("/tmp").is_none());
    assert!(marks.is_marked("/tmp/dir", "a.txt"));
    assert!(marks.generation > generation);
    let generation = marks.generation;
    marks.clear();
    assert!(marks.names_for("/tmp/dir").is_none());
    assert_eq!(marks.generation, generation + 1);
    marks.clear();
    assert_eq!(marks.generation, generation + 1, "there was nothing to clear");
    marks.mark("/d".to_string(), "x".to_string());
    marks.mark("/d/".to_string(), "x".to_string());
    assert!(marks.is_marked("//d/.", "x"));
    assert_eq!(marks.names_for("/d/"), Some(vec!["x".to_string()]));
    assert_eq!(marks.names_for("/d"), Some(vec!["x".to_string()]));
}

#[test]
fn cutting_marks_and_copying_takes_the_marks_away() {
    let mut marks = CutMarks::new();
    let paths = vec!["/tmp/dir/a.txt".to_string()];
    let cut = write_files(&mut marks, paths.clone(), true);
    assert!(marks.is_marked("/tmp/dir", "a.txt"));
    assert_eq!(read_files(Some(cut), vec![]).unwrap().paths, paths);
    assert!(!write_files(&mut marks, paths, false).cut);
    assert!(!marks.is_marked("/tmp/dir", "a.txt"));
    assert_eq!(marks.generation, 2);
}

#[test]
fn a_clipboard_of_paths_pastes_as_a_copy() {
    let cut = FileClipboard { paths: vec!["/a".to_string()], cut: true };
    assert!(read_files(Some(cut), vec!["/b".to_string()]).unwrap().cut);
    assert_eq!(
        read_files(None, vec!["/etc/hosts".to_string()]),
        Some(FileClipboard { paths: vec!["/etc/hosts".to_string()], cut: false })
    );
    assert_eq!(read_files(None, vec![]), None);
}

#[test]
fn an_action_does_what_its_key_stands_for() {
    let names = [
        ("a.txt", EntryKind::File),
        ("b.txt", EntryKind::File),
        ("c.md", EntryKind::File),
    ];
    let mut t = shown(&names);
    let press = |t: &mut FileTable, keys: &str| {
        let action = bind_file_table_keys(keys).unwrap();
        t.perform(action, 0, 9, Some("/home/me".to_string()))
    };
    assert_eq!(press(&mut t, "shift-+"), TableOutcome::Scroll(None));
    assert_eq!(t.delegate.model().selected, vec![true, true, false]);
    press(&mut t, "*");
    assert_eq!(t.delegate.model().selected, vec![false, false, true]);
    press(&mut t, "ctrl-+");
    assert_eq!(t.delegate.model().selected, vec![true; 3]);
    press(&mut t, "space");
    assert_eq!(t.delegate.model().selected, vec![false, true, true]);
    press(&mut t, "ctrl--");
    assert_eq!(t.delegate.model().selected, vec![false; 3]);
    press(&mut t, "insert");
    assert_eq!(t.delegate.model().selected, vec![true, false, false]);
    assert_eq!(press(&mut t, "end"), TableOutcome::Scroll(Some(3)));
    press(&mut t, "shift-up");
    assert_eq!(t.delegate.model().selected, vec![true, true, true]);
    assert_eq!(press(&mut t, "ctrl-p"), TableOutcome::Search(1));
    assert_eq!(t.delegate.quick_search_mode(), Some(QuickSearchMode::Filter));
    press(&mut t, "escape");
    assert_eq!(t.delegate.quick_search_mode(), None);
    assert_eq!(press(&mut t, "enter"), TableOutcome::Navigate(Navigation::Stay));
    press(&mut t, "alt-home");
    assert_eq!(t.current_dir(), "/home/me");
    press(&mut t, "backspace");
    assert_eq!(t.current_dir(), "/home");
    press(&mut t, "ctrl-\\");
    assert_eq!(t.current_dir(), "/");
    press(&mut t, "alt-left");
    assert_eq!(t.current_dir(), "/home");
    press(&mut t, "alt-right");
    assert_eq!(t.current_dir(), "/");
}

#[test]
fn a_panels_keys_do_what_they_stand_for() {
    let mut p = panel(vec![session_tab("/a", true, false)], 0);
    let press = |p: &mut Panel, keys: &str| p.perform(bind_panel_keys(keys).unwrap());
    assert_eq!(press(&mut p, "ctrl-t").unwrap().dir, "/a");
    assert_eq!(p.active, 1);
    assert_eq!(press(&mut p, "ctrl-tab"), None);
    assert_eq!(p.active, 0);
    assert_eq!(press(&mut p, "ctrl-shift-tab"), None);
    assert_eq!(p.active, 1);
    press(&mut p, "ctrl-tab");
    assert_eq!(press(&mut p, "ctrl-w"), None);
    assert_eq!(p.tabs.len(), 1);
    assert!(!p.tabs[0].locked);
    assert_eq!(press(&mut p, "ctrl-shift-t").unwrap().dir, "/a");
    assert!(p.tabs[1].locked);
    assert_eq!(press(&mut p, "ctrl-shift-t"), None);
}

fn load_of(dir: &str, select_name: Option<&str>, generation: u64) -> Load {
    Load {
        dir: dir.to_string(),
        select_name: select_name.map(str::to_string),
        sort: (SortColumn::Name, true),
        generation,
    }
}

#[test]
fn every_directory_but_the_root_shows_the_way_up() {
    let names = [("a", EntryKind::File), ("b", EntryKind::File)];
    let mut t = table("/home/u");
    let load = load_of("/home/u", Some("b"), 0);
    assert_eq!(t.finish_load(&load, listing(&names)), Some(Some(2)));
    assert!(t.delegate.has_parent_row);
    let mut t = table("/");
    assert_eq!(
        t.finish_load(&load_of("/", None, 0), listing(&names)),
        Some(Some(0))
    );
    assert!(!t.delegate.has_parent_row);
    assert_eq!(t.finish_load(&load_of("/a", None, 7), listing(&names)), None);
    assert!(!t.delegate.has_parent_row);
}

#[test]
fn a_double_click_enters_what_it_hits() {
    let names = [("sub", EntryKind::Directory), ("f", EntryKind::File)];
    let mut t = shown(&names);
    assert_eq!(t.handle_double_click(2), (Some(2), Navigation::Stay));
    let (row, answer) = t.handle_double_click(1);
    assert_eq!(row, Some(1));
    assert!(matches!(answer, Navigation::Go(_)));
    assert_eq!(t.current_dir(), "/home/u/sub");
    let mut t = shown(&names);
    t.handle_double_click(0);
    assert_eq!(t.current_dir(), "/home");
}

#[test]
fn losing_the_keyboard_ends_a_search() {
    let mut t = shown(&[("a", EntryKind::File), ("b", EntryKind::File)]);
    t.delegate.toggle_quick_filter();
    t.delegate.try_quick_search(vec![true, false]);
    assert_eq!(t.delegate.model().order().len(), 1);
    t.focus_lost();
    assert_eq!(t.delegate.quick_search_mode(), None);
    assert_eq!(t.delegate.model().order().len(), 2);
}

#[test]
fn a_new_tab_beside_a_locked_one_is_not_locked() {
    let mut p = panel(vec![session_tab("/a", true, false)], 0);
    p.new_tab();
    assert!(p.tabs[0].locked);
    assert!(!p.tabs[1].locked);
}

fn filtered_to_the_last_two() -> FileTable {
    let mut t = shown(&[
        ("f0", EntryKind::File),
        ("f1", EntryKind::File),
        ("f2", EntryKind::File),
        ("f3", EntryKind::File),
    ]);
    t.handle_left_click(3, false, false);
    t.delegate.toggle_quick_filter();
    t.delegate.push_quick_search_char('f');
    t.delegate.try_quick_search(vec![false, false, true, true]);
    assert_eq!(t.delegate.cursor_row(), Some(0));
    t
}

#[test]
fn a_shift_click_out_of_a_filter_starts_at_the_entry_under_the_cursor() {
    let mut t = filtered_to_the_last_two();
    assert_eq!(t.handle_left_click(4, true, false), Some(4));
    assert_eq!(t.delegate.model().selected, vec![false, false, true, true]);
    assert_eq!(t.delegate.cursor_row(), Some(3));
}

#[test]
fn a_cursor_key_out_of_a_filter_starts_at_the_entry_under_the_cursor() {
    let mut t = filtered_to_the_last_two();
    t.delegate.toggle_quick_filter();
    assert_eq!(t.delegate.quick_search_mode(), Some(QuickSearchMode::Jump));
    t.cursor_key(CursorKey::Up, 0, 9);
    assert_eq!(t.delegate.model().order().len(), 4);
    assert_eq!(t.delegate.cursor_row(), Some(1));
}

#[test]
fn a_new_table_is_empty_and_sorted_by_name() {
    let p = panel(vec![session_tab("/a", false, false)], 0);
    assert_eq!(p.active_table().sort_state(), (SortColumn::Name, true));
    assert_eq!(p.active_table().delegate.model().order().len(), 0);
}
