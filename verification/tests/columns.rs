use duet_ui::columns::{
    write_mode, ColumnKind, ColumnLayout, ColumnLayoutStore, ColumnSpec, EntryKind, FIXED_MIN,
    NAME_IDEAL, NAME_MIN,
};

fn px(pixels: f64) -> u32 {
    (pixels * 100.0).round() as u32
}

fn kinds(layout: &ColumnLayout) -> Vec<ColumnKind> {
    layout.columns.iter().map(|c| c.kind).collect()
}

fn spec(key: &str, width: Option<f64>) -> ColumnSpec {
    ColumnSpec {
        key: key.to_string(),
        width: width.map(px),
    }
}

#[test]
fn default_layout_is_the_pre_t424_three_columns() {
    assert_eq!(
        kinds(&ColumnLayout::default()),
        [ColumnKind::Name, ColumnKind::Size, ColumnKind::Modified]
    );
}

#[test]
fn keys_round_trip_and_unknown_keys_are_rejected() {
    let all = ColumnKind::all();
    for kind in &all {
        assert_eq!(ColumnKind::from_key(kind.key()), Some(*kind));
    }
    assert_eq!(ColumnKind::from_key("camera"), None);
    for (i, a) in all.iter().enumerate() {
        for b in &all[i + 1..] {
            assert_ne!(a.sort_column(), b.sort_column(), "one sort key per column");
        }
    }
}

#[test]
fn from_config_skips_unknown_and_duplicate_keys_and_restores_a_missing_name() {
    let config = vec![
        spec("size", Some(90.0)),
        spec("camera", Some(200.0)),
        spec("size", Some(300.0)),
        spec("attrs", Some(5.0)),
    ];
    let layout = ColumnLayout::from_config(&config).expect("usable");
    assert_eq!(
        kinds(&layout),
        [ColumnKind::Name, ColumnKind::Size, ColumnKind::Attributes]
    );
    assert_eq!(layout.columns[1].width, px(90.0), "first occurrence wins");
    assert_eq!(layout.columns[2].width, FIXED_MIN, "clamped up");
}

#[test]
fn from_config_with_nothing_usable_is_none_so_the_default_applies() {
    assert!(ColumnLayout::from_config(&Vec::new()).is_none());
    assert!(ColumnLayout::from_config(&vec![spec("bogus", None)]).is_none());
}

#[test]
fn to_config_omits_the_elastic_name_width_and_round_trips() {
    let mut layout = ColumnLayout::default();
    layout.toggle(ColumnKind::Extension);
    layout.set_widths(&vec![
        Some(px(999.0)),
        Some(px(55.0)),
        Some(px(123.0)),
        Some(px(171.0)),
    ]);
    let config = layout.to_config();
    assert_eq!(config[0].key, "name");
    assert_eq!(config[0].width, None);
    assert_eq!(config[1].key, "ext");
    assert_eq!(config[1].width, Some(px(55.0)));
    assert_eq!(ColumnLayout::from_config(&config), Some(layout));
}

#[test]
fn toggle_hides_shows_in_catalogue_order_and_never_touches_name() {
    let mut layout = ColumnLayout::default();
    assert!(!layout.toggle(ColumnKind::Name));
    assert!(layout.contains(ColumnKind::Name));

    assert!(layout.toggle(ColumnKind::Size));
    assert_eq!(kinds(&layout), [ColumnKind::Name, ColumnKind::Modified]);

    assert!(layout.toggle(ColumnKind::Size));
    assert_eq!(
        kinds(&layout),
        [ColumnKind::Name, ColumnKind::Size, ColumnKind::Modified]
    );
    assert!(layout.toggle(ColumnKind::Attributes));
    assert!(layout.toggle(ColumnKind::Extension));
    assert_eq!(kinds(&layout), ColumnKind::all());
}

#[test]
fn toggle_respects_a_user_reordering_when_slotting_a_column_back_in() {
    let mut layout = ColumnLayout::from_kinds(&vec![
        ColumnKind::Name,
        ColumnKind::Modified,
        ColumnKind::Size,
    ]);
    assert!(layout.toggle(ColumnKind::Extension));
    assert_eq!(
        kinds(&layout),
        [
            ColumnKind::Name,
            ColumnKind::Extension,
            ColumnKind::Modified,
            ColumnKind::Size
        ]
    );
}

#[test]
fn move_column_follows_the_remove_then_insert_contract() {
    let mut layout = ColumnLayout::default();
    assert!(layout.move_column(2, 0));
    assert_eq!(
        kinds(&layout),
        [ColumnKind::Modified, ColumnKind::Name, ColumnKind::Size]
    );
    assert!(!layout.move_column(1, 1));
    assert!(!layout.move_column(0, 7));
    assert!(!layout.move_column(9, 0));
}

#[test]
fn set_widths_ignores_name_clamps_and_reports_only_real_changes() {
    let mut layout = ColumnLayout::default();
    assert!(
        !layout.set_widths(&vec![Some(px(500.0)), Some(px(110.4)), Some(px(170.0))]),
        "sub-pixel jitter"
    );
    assert!(layout.set_widths(&vec![Some(px(500.0)), Some(px(90.0)), Some(px(12.0))]));
    assert_eq!(layout.columns[0].width, NAME_IDEAL, "Name untouched");
    assert_eq!(layout.columns[1].width, px(90.0));
    assert_eq!(layout.columns[2].width, FIXED_MIN);
    assert!(!layout.set_widths(&vec![Some(px(1.0)), None, Some(px(40.0))]));
}

#[test]
fn responsive_widths_give_name_the_leftover_down_to_its_floor() {
    let layout = ColumnLayout::default();
    assert_eq!(
        layout.responsive_widths(px(1000.0)),
        [px(720.0), px(110.0), px(170.0)]
    );
    assert_eq!(
        layout.responsive_widths(px(340.0)),
        [NAME_MIN, px(110.0), px(170.0)]
    );
    assert_eq!(
        layout.responsive_widths(px(100.0)),
        [NAME_MIN, px(110.0), px(170.0)]
    );

    let mut wide = layout.clone();
    wide.toggle(ColumnKind::Attributes);
    assert_eq!(
        wide.responsive_widths(px(1000.0)),
        [px(610.0), px(110.0), px(170.0), px(110.0)]
    );
}

#[test]
fn write_mode_renders_ls_style_strings() {
    let render = |mode: Option<u32>, kind: EntryKind| {
        let mut s = String::new();
        write_mode(&mut s, mode, kind);
        s
    };
    assert_eq!(render(Some(0o100644), EntryKind::File), "-rw-r--r--");
    assert_eq!(render(Some(0o040755), EntryKind::Directory), "drwxr-xr-x");
    assert_eq!(render(Some(0o120777), EntryKind::Symlink), "lrwxrwxrwx");
    assert_eq!(render(Some(0o104755), EntryKind::File), "-rwsr-xr-x");
    assert_eq!(render(Some(0o102644), EntryKind::File), "-rw-r-Sr--");
    assert_eq!(render(Some(0o041777), EntryKind::Directory), "drwxrwxrwt");
    assert_eq!(render(Some(0o041776), EntryKind::Directory), "drwxrwxrwT");
    assert_eq!(render(None, EntryKind::Directory), "d");
    assert_eq!(render(None, EntryKind::Unknown), "?");
    assert_eq!(render(Some(0o040700), EntryKind::File), "drwx------");
}

#[test]
fn showing_and_hiding_a_column_leaves_the_layout_as_it_was() {
    let mut layout = ColumnLayout::from_kinds(&vec![
        ColumnKind::Modified,
        ColumnKind::Size,
        ColumnKind::Size,
    ]);
    assert_eq!(
        kinds(&layout),
        [ColumnKind::Name, ColumnKind::Modified, ColumnKind::Size]
    );
    let before = layout.clone();
    layout.toggle(ColumnKind::Attributes);
    assert_ne!(layout, before);
    layout.toggle(ColumnKind::Attributes);
    assert_eq!(layout, before);
    assert_eq!(layout.index_of(ColumnKind::Size), Some(2));
    assert_eq!(layout.index_of(ColumnKind::Extension), None);
    assert_eq!(layout.kind_at(1), Some(ColumnKind::Modified));
    assert_eq!(layout.kind_at(3), None);
}

#[test]
fn the_store_tells_only_of_layouts_that_differ() {
    let mut store = ColumnLayoutStore::new(ColumnLayout::default());
    assert!(!store.set_full(ColumnLayout::default()));
    let mut other = ColumnLayout::default();
    other.toggle(ColumnKind::Size);
    assert!(store.set_full(other.clone()));
    assert_eq!(store.full, other);
}

#[test]
fn titles_and_alignment_follow_the_column() {
    assert_eq!(ColumnKind::Extension.title(), "Ext");
    assert_eq!(ColumnKind::Attributes.title(), "Attr");
    assert!(ColumnKind::Size.right_aligned());
    assert!(!ColumnKind::Name.right_aligned());
    assert!(!ColumnKind::Name.removable());
    assert_eq!(ColumnKind::Modified.catalogue_index(), 3);
}
