use duet_ui::icon_cache::{IconCache, IconLookup};
use duet_ui::icons::{
    decode_image, format_of_name, icon_format, mime_data_dirs, premultiplied_rgba_to_straight_bgra, with_system_dirs, IconFormat,
    Rasterised, DEFAULT_BUDGET_BYTES,
};
use duet_ui::launcher::{
    all_usable, choices_for_many, command_accepts_multiple, describe_unusable, distinct_types,
    is_binary_executable, is_script, keep_usable, launch_all, mime_of, open_default_many, override_for,
    override_given, plan_open_many, plan_resolved, plans_for_choice_many, resolve_given, resolve_one, Candidate,
    DesktopEntry, Launch, LaunchOutcome, OpenTarget, Override,
};

fn over(key: &str, command: &str) -> Override {
    Override {
        key: key.to_string(),
        command: command.to_string(),
        tokens: command.split(' ').map(str::to_string).collect(),
    }
}

fn app(id: &str, name: &str, accepts_multiple: bool) -> DesktopEntry {
    DesktopEntry {
        id: id.to_string(),
        name: name.to_string(),
        accepts_multiple,
        terminal: false,
    }
}

fn target(path: &str, mime: &str, executable: bool, entry: Option<DesktopEntry>) -> OpenTarget {
    OpenTarget {
        path: path.to_string(),
        executable,
        mime: mime.to_string(),
        default_entry: entry,
    }
}

#[test]
fn overrides_match_type_then_extension_then_media_class() {
    let overrides = vec![
        over("text/markdown", "mdviewer %f"),
        over("*.tar.gz", "untar %f"),
        over("image/*", "imgview %f"),
    ];
    assert_eq!(
        override_for(&overrides, "text/markdown", "README.md"),
        Some("mdviewer %f")
    );
    assert_eq!(
        override_for(&overrides, "application/gzip", "A.TAR.GZ"),
        Some("untar %f")
    );
    assert_eq!(
        override_for(&overrides, "image/png", "x.png"),
        Some("imgview %f")
    );
    assert_eq!(override_for(&overrides, "text/plain", "x.txt"), None);
}

#[test]
fn the_longest_extension_goes_first_and_a_leading_dot_begins_none() {
    let overrides = vec![over("*.gz", "gz"), over("*.tar.gz", "tar"), over("*.bashrc", "rc")];
    assert_eq!(override_given(&overrides, "a/b", "x.tar.gz"), Some(1));
    assert_eq!(override_given(&overrides, "a/b", "x.gz"), Some(0));
    assert_eq!(override_given(&overrides, "a/b", ".bashrc"), None);
    assert_eq!(override_given(&overrides, "ab", ""), None);
    assert_eq!(override_for(&overrides, "a/b", "X.GZ"), Some("gz"));
}

#[test]
fn programs_and_scripts_are_known_by_their_type() {
    assert!(is_binary_executable("application/x-pie-executable"));
    assert!(!is_binary_executable("text/plain"));
    assert!(is_script("text/x-lua"));
    assert!(!is_script("application/x-executable"));
    assert_eq!(
        mime_of(Some("text/plain".to_string()), Some("x/y".to_string())),
        "text/plain"
    );
    assert_eq!(mime_of(None, Some("x/y".to_string())), "x/y");
    assert_eq!(mime_of(None, None), "application/octet-stream");
    assert!(command_accepts_multiple(&vec!["player".to_string(), "%U".to_string()]));
    assert!(!command_accepts_multiple(&vec!["ed".to_string(), "%f".to_string()]));
}

#[test]
fn a_file_is_opened_by_the_first_rule_that_applies() {
    let none = Vec::new();
    let editor = app("editor.desktop", "Editor", false);
    let script = target(
        "/d/run.sh",
        "application/x-shellscript",
        true,
        Some(editor.clone()),
    );
    assert_eq!(
        resolve_one(&none, &script),
        Ok(Launch::Executable { terminal: true })
    );
    let document = OpenTarget { executable: false, ..script };
    assert_eq!(resolve_one(&none, &document), Ok(Launch::Entry(editor)));
    let program = target("/d/prog", "application/x-executable", true, None);
    assert_eq!(
        resolve_one(&none, &program),
        Ok(Launch::Executable { terminal: false })
    );
    let bare = OpenTarget { executable: false, ..program };
    assert_eq!(
        resolve_one(&none, &bare),
        Err("No application is associated with application/x-executable (prog)".to_string())
    );
    let overrides = vec![over("*.sh", "mine %F")];
    assert_eq!(
        resolve_one(&overrides, &document),
        Ok(Launch::Command { command: "mine %F".to_string(), accepts_multiple: true })
    );
    assert_eq!(
        resolve_given(&overrides, &bare, "prog", "x.sh"),
        Ok(Launch::Command { command: "mine %F".to_string(), accepts_multiple: true })
    );
}

#[test]
fn a_selection_is_grouped_by_what_opens_it() {
    let player = app("player.desktop", "Player", true);
    let editor = app("editor.desktop", "Editor", false);
    let targets = vec![
        target("/d/a.mp4", "video/mp4", false, Some(player.clone())),
        target("/d/b.mp4", "video/mp4", false, Some(player.clone())),
        target("/d/one.txt", "text/plain", false, Some(editor.clone())),
        target("/d/two.txt", "text/plain", false, Some(editor.clone())),
        target("/d/run.sh", "application/x-shellscript", true, None),
        target("/d/x.bin", "application/octet-stream", false, None),
        target("/d/c.mp4", "video/mp4", false, Some(player.clone())),
    ];
    let (requests, errors) = plan_open_many(&Vec::new(), &targets);
    let seen: Vec<(String, Vec<String>)> = requests
        .iter()
        .map(|r| {
            let label = match &r.launch {
                Launch::Executable { .. } => "run".to_string(),
                Launch::Command { command, .. } => command.clone(),
                Launch::Entry(entry) => entry.name.clone(),
            };
            (label, r.files.clone())
        })
        .collect();
    let files = |paths: &[&str]| -> Vec<String> { paths.iter().map(|p| p.to_string()).collect() };
    assert_eq!(
        seen,
        vec![
            ("run".to_string(), files(&["/d/run.sh"])),
            ("Player".to_string(), files(&["/d/a.mp4", "/d/b.mp4"])),
            ("Editor".to_string(), files(&["/d/one.txt"])),
            ("Editor".to_string(), files(&["/d/two.txt"])),
            ("Player".to_string(), files(&["/d/c.mp4"])),
        ]
    );
    assert_eq!(
        errors,
        vec!["No application is associated with application/octet-stream (x.bin)".to_string()]
    );
    let opened: usize = requests.iter().map(|r| r.files.len()).sum();
    assert_eq!(opened + errors.len(), targets.len());

    let paths = files(&["/d/a.mp4", "/d/b.mp4"]);
    assert_eq!(
        plans_for_choice_many(Some(&player), "player.desktop", &paths)
            .unwrap()
            .len(),
        1
    );
    assert_eq!(
        plans_for_choice_many(Some(&editor), "editor.desktop", &paths)
            .unwrap()
            .len(),
        2
    );
    assert_eq!(
        plans_for_choice_many(None, "gone.desktop", &paths),
        Err("gone.desktop is no longer installed".to_string())
    );
    assert_eq!(
        describe_unusable(&Launch::Entry(editor)),
        "Editor has no usable Exec line"
    );
}

#[test]
fn only_what_opens_every_type_is_offered() {
    let first = vec![
        Candidate { entry: app("a", "A", false), is_default: true },
        Candidate { entry: app("b", "B", false), is_default: false },
        Candidate { entry: app("c", "C", false), is_default: true },
    ];
    let other = vec![
        Candidate { entry: app("c", "C", false), is_default: false },
        Candidate { entry: app("a", "A", false), is_default: true },
    ];
    let choices = choices_for_many(&first, &vec![other]);
    let ids: Vec<(&str, bool)> = choices.iter().map(|c| (c.id.as_str(), c.is_default)).collect();
    assert_eq!(ids, vec![("a", true), ("c", false)]);
    assert_eq!(choices_for_many(&first, &Vec::new()).len(), 3);
    assert_eq!(
        distinct_types(&vec!["x".to_string(), "y".to_string(), "x".to_string()]),
        vec!["x".to_string(), "y".to_string()]
    );
}

#[test]
fn what_did_not_start_is_told_in_one_message() {
    let outcomes = vec![
        LaunchOutcome { label: "A".to_string(), error: None },
        LaunchOutcome { label: "B".to_string(), error: Some("program not found: b".to_string()) },
        LaunchOutcome { label: "C".to_string(), error: Some("no".to_string()) },
    ];
    assert_eq!(
        launch_all(&outcomes),
        Err("B: program not found: b; C: no".to_string())
    );
    assert_eq!(launch_all(&Vec::new()), Ok(()));
    let (labels, errors) = open_default_many(&outcomes, vec!["first".to_string()]);
    assert_eq!(labels, vec!["A".to_string()]);
    assert_eq!(
        errors,
        vec![
            "first".to_string(),
            "B: program not found: b".to_string(),
            "C: no".to_string()
        ]
    );
}

fn insert(cache: &mut IconCache, id: &str, px: u32, image: Option<u64>) -> Vec<u64> {
    cache.insert(id, px, image);
    cache.take_evicted()
}

fn contains(cache: &IconCache, id: &str) -> bool {
    cache.entries.iter().any(|e| e.id == id && e.image.is_some())
}

#[test]
fn cache_evicts_least_recently_used_within_the_byte_budget_and_hands_images_back() {
    let mut cache = IconCache::new(true, 2 * 16 * 16 * 4);
    assert!(insert(&mut cache, "a", 16, Some(1)).is_empty());
    assert!(insert(&mut cache, "b", 16, Some(2)).is_empty());
    assert_eq!(cache.entries.len(), 2);
    assert_eq!(cache.used_bytes, 2 * 1024);

    assert!(insert(&mut cache, "miss", 16, None).is_empty());
    assert_eq!(cache.entries.len(), 3);

    assert_eq!(
        cache.get_or_load("a", 16, 1, true),
        IconLookup::Held(Some(1))
    );
    let evicted = insert(&mut cache, "c", 16, Some(3));
    assert_eq!(evicted.len(), 1, "one image over budget, one evicted");
    assert_eq!(evicted, vec![2]);
    assert!(contains(&cache, "a"));
    assert!(!contains(&cache, "b"), "least recently used went");
    assert!(contains(&cache, "c"));
    assert_eq!(cache.used_bytes, 2 * 1024);

    let evicted = insert(&mut cache, "c", 16, Some(4));
    assert_eq!(evicted.len(), 1);
    assert_eq!(cache.used_bytes, 2 * 1024);

    let evicted = insert(&mut cache, "big", 64, Some(5));
    assert_eq!(evicted.len(), 2);
    assert!(contains(&cache, "big"));
    assert_eq!(cache.used_bytes, 64 * 64 * 4);
}

#[test]
fn an_icon_is_loaded_once_and_a_miss_is_remembered() {
    let mut cache = IconCache::new(true, DEFAULT_BUDGET_BYTES);
    assert_eq!(cache.get_or_load("x", 16, 2, false), IconLookup::NotReady);
    assert_eq!(cache.get_or_load("x", 16, 2, true), IconLookup::Load(32));
    assert_eq!(cache.get_or_load("x", 16, 2, true), IconLookup::Pending);
    cache.insert("x", 32, None);
    assert_eq!(cache.get_or_load("x", 16, 2, true), IconLookup::Held(None));
    let mut off = IconCache::new(false, 0);
    assert_eq!(off.get_or_load("x", 16, 2, true), IconLookup::Disabled);
    assert!(!off.tables());
}

#[test]
fn pixels_lose_their_alpha_as_single_precision_division_does() {
    for alpha in 0..=255u8 {
        for c in 0..=255u8 {
            let out = premultiplied_rgba_to_straight_bgra([c, 0, 255, alpha]);
            let mut expected = [255u8, 0, c];
            if alpha > 0 && alpha < 255 {
                let a = f32::from(alpha) / 255.0;
                for channel in &mut expected {
                    *channel = (f32::from(*channel) / a).min(255.0) as u8;
                }
            }
            assert_eq!(out[..3], expected, "{c} at {alpha}");
            assert_eq!(out[3], alpha);
        }
    }
}

#[test]
fn icons_are_squares_of_straight_bgra_pixels() {
    let red = Rasterised::from_premultiplied(1, &vec![255, 0, 0, 255]);
    assert_eq!(red.bgra, vec![0, 0, 255, 255], "opaque red as BGRA");
    let half = Rasterised::from_premultiplied(1, &vec![0, 128, 0, 128]);
    assert_eq!(half.bgra[3], 128);
    assert!(half.bgra[1] >= 250);
    let blue: Vec<u8> = [0, 0, 255, 255].repeat(64);
    let out = Rasterised::from_image(16, blue.clone(), 8, 8);
    assert_eq!(out.size, 16);
    assert_eq!(out.bgra.len(), 16 * 16 * 4);
    assert_eq!(&out.bgra[..4], &[255, 0, 0, 255], "opaque blue as BGRA");
    let same = Rasterised::from_image(8, blue, 8, 8);
    assert_eq!(&same.bgra[..8], &[255, 0, 0, 255, 255, 0, 0, 255]);
    assert_eq!(
        Rasterised::from_straight(1, &vec![1, 2, 3, 4]).bgra,
        vec![3, 2, 1, 4]
    );
}

#[test]
fn drawings_are_known_by_their_extension() {
    assert_eq!(icon_format("/t/red.SVG", 32), Some(IconFormat::Svg));
    assert_eq!(icon_format("/t/red.svgz", 32), Some(IconFormat::Svg));
    assert_eq!(icon_format("/t/blue.png", 32), Some(IconFormat::Raster));
    assert_eq!(icon_format("/t/svg", 32), Some(IconFormat::Raster));
    assert_eq!(icon_format("/t/red.svg", 0), None);
    assert_eq!(format_of_name(None, 16), Some(IconFormat::Raster));
}

#[test]
fn data_directories_follow_the_environment() {
    let dirs = |home: Option<&str>, user: Option<&str>, list: Option<&str>| {
        mime_data_dirs(
            home.map(str::to_string),
            user.map(str::to_string),
            list.map(str::to_string),
        )
    };
    assert_eq!(
        dirs(Some("/data"), Some("/home/u"), Some("/a::/b:")),
        vec!["/data", "/a", "/b"]
    );
    assert_eq!(
        dirs(Some("relative"), Some("/home/u"), Some("  ")),
        vec!["/home/u/.local/share", "/usr/local/share", "/usr/share"]
    );
    assert_eq!(
        dirs(None, None, None),
        vec!["/usr/local/share", "/usr/share"]
    );
}

#[test]
fn an_image_file_is_read_by_its_extension() {
    let mut buffer = image::RgbaImage::new(8, 8);
    for (x, _, pixel) in buffer.enumerate_pixels_mut() {
        *pixel = image::Rgba([x as u8, 7, 255, 200]);
    }
    let mut bytes = Vec::new();
    buffer
        .write_to(&mut std::io::Cursor::new(&mut bytes), image::ImageFormat::Png)
        .unwrap();
    let same = Rasterised::from_image_file(8, "blue.PNG", &bytes).unwrap();
    assert_eq!(same.size, 8);
    assert_eq!(&same.bgra[..8], &[255, 7, 0, 200, 255, 7, 1, 200]);
    let larger = Rasterised::from_image_file(16, "blue.png", &bytes).unwrap();
    assert_eq!(larger.size, 16);
    assert_eq!(larger.bgra.len(), 16 * 16 * 4);
    assert_eq!(larger.bgra[0], 255);
    assert_eq!(
        decode_image("blue.png", &bytes),
        Some((buffer.clone().into_raw(), 8, 8))
    );
    assert_eq!(decode_image("blue", &bytes), None);
    assert_eq!(
        Rasterised::from_image(2, Vec::new(), 0, 5).bgra,
        vec![0; 16],
        "nothing to draw"
    );
    assert_eq!(Rasterised::from_image_file(0, "blue.png", &bytes), None);
    assert_eq!(Rasterised::from_image_file(8, "blue", &bytes), None);
    assert_eq!(Rasterised::from_image_file(8, "old.xpm", &bytes), None);
    assert_eq!(
        Rasterised::from_image_file(8, "old.png", &b"/* XPM */".to_vec()),
        None
    );
}

#[test]
fn what_no_plan_could_be_made_of_is_told() {
    let editor = app("editor.desktop", "Editor", false);
    let paths = vec!["/a".to_string(), "/b".to_string()];
    let requests = plans_for_choice_many(Some(&editor), "editor.desktop", &paths).unwrap();
    let (kept, told) = keep_usable(&requests, &vec![false, true], vec!["first".to_string()]);
    assert_eq!(kept.len(), 1);
    assert_eq!(kept[0].files, vec!["/b".to_string()]);
    assert_eq!(
        told,
        vec![
            "first".to_string(),
            "Editor has no usable Exec line".to_string()
        ]
    );
    assert_eq!(
        all_usable(requests, &vec![true, false]),
        Err("Editor has no usable Exec line".to_string())
    );
    assert_eq!(all_usable(Vec::new(), &vec![]), Ok(Vec::new()));
    assert_eq!(
        describe_unusable(&Launch::Command {
            command: String::new(),
            accepts_multiple: false,
        }),
        "empty override command: "
    );
}

#[test]
fn files_are_grouped_by_what_they_resolved_to() {
    let targets = vec![
        target("/a", "x/y", false, None),
        target("/b", "x/y", false, None),
        target("/c", "x/y", false, None),
    ];
    let command = |accepts_multiple: bool| Launch::Command {
        command: "view %F".to_string(),
        accepts_multiple,
    };
    let resolved = vec![Ok(command(true)), Err("no".to_string()), Ok(command(true))];
    let (requests, errors) = plan_resolved(&targets, &resolved);
    assert_eq!(requests.len(), 1);
    assert_eq!(requests[0].files, vec!["/a".to_string(), "/c".to_string()]);
    assert_eq!(errors, vec!["no".to_string()]);
}

#[test]
fn system_directories_follow_the_users_own() {
    assert_eq!(
        with_system_dirs(Some("/own".to_string()), Some("/a:/b".to_string())),
        vec!["/own", "/a", "/b"]
    );
    assert_eq!(
        with_system_dirs(None, None),
        vec!["/usr/local/share", "/usr/share"]
    );
}

#[test]
fn every_image_that_goes_is_reported_once_and_the_oldest_go_first() {
    let mut cache = IconCache::new(true, 3 * 1024);
    for (id, image) in [("a", 1), ("b", 2), ("c", 3)] {
        cache.insert(id, 16, Some(image));
    }
    cache.insert("none", 16, None);
    assert!(cache.evicted.is_empty());
    cache.get_or_load("a", 16, 1, true);
    cache.insert("b", 16, Some(4));
    assert_eq!(cache.evicted, vec![2], "the replaced image");
    cache.insert("d", 32, Some(5));
    assert_eq!(cache.evicted, vec![2, 3, 1, 4], "in the order of their use");
    assert_eq!(cache.used_bytes, 32 * 32 * 4, "over the budget by itself");
    assert!(cache.entries.iter().any(|e| e.id == "none"));
    assert!(contains(&cache, "d"));
}
