use rstree::config::{Config, CycleDetection, Opt, PathStyle, PermissionStyle, SizeStyle};
use rstree::entry::Entry;
use rstree::walk::{Action, Event, Walker};

fn plain() -> Config {
    Config {
        show_hidden: false,
        dirs_only: false,
        follow_symlinks: false,
        max_depth: None,
        entry_limit: None,
        path_style: PathStyle::Name,
        root_style: PathStyle::Name,
        indent: true,
        colorize: false,
        show_permissions: PermissionStyle::Off,
        show_size: SizeStyle::Off,
        cycle_detection: CycleDetection::Precomputed,
    }
}

fn file(parent: &str, name: &str) -> Entry {
    Entry {
        name: name.to_string(),
        path: format!("{}/{}", parent, name),
        canonical: Some(format!("/abs/{}/{}", parent, name)),
        is_directory: false,
        is_symlink: false,
        symlink_target: None,
        permission_bits: 0o100644,
        size_bytes: 0,
    }
}

fn dir(parent: &str, name: &str) -> Entry {
    Entry { is_directory: true, permission_bits: 0o040755, ..file(parent, name) }
}

fn link_to_dir(parent: &str, name: &str, text: &str, resolved: &str) -> Entry {
    Entry {
        is_directory: true,
        is_symlink: true,
        symlink_target: Some(text.to_string()),
        canonical: Some(resolved.to_string()),
        permission_bits: 0o120777,
        ..file(parent, name)
    }
}

fn root(argument: &str) -> Entry {
    Entry {
        name: argument.to_string(),
        path: argument.to_string(),
        canonical: Some(format!("/abs/{}", argument)),
        is_directory: true,
        is_symlink: false,
        symlink_target: None,
        permission_bits: 0o040755,
        size_bytes: 4096,
    }
}

/// Drives a walk over a filesystem given as a function from paths to
/// listings, for at most `fuel` steps.
fn drive(
    config: Config,
    root: Entry,
    ancestors: Vec<String>,
    read: &dyn Fn(&str) -> Option<Vec<Entry>>,
    fuel: usize,
) -> (Vec<String>, bool) {
    let mut walker = Walker::new(config, root, ancestors);
    let mut lines = Vec::new();
    let mut event = Event::Resume;
    for _ in 0..fuel {
        match walker.step(event) {
            Action::Print(line) => {
                lines.push(line);
                event = Event::Resume;
            }
            Action::Read(path) => {
                event = match read(&path) {
                    Some(listing) => Event::Listing(listing),
                    None => Event::Unreadable,
                };
            }
            Action::Finished => return (lines, true),
        }
    }
    (lines, false)
}

fn small_tree(path: &str) -> Option<Vec<Entry>> {
    match path {
        "root" => Some(vec![file("root", "b"), dir("root", "a")]),
        "root/a" => Some(vec![file("root/a", "x")]),
        _ => None,
    }
}

#[test]
fn prefixes_draw_the_tree() {
    let (lines, finished) = drive(plain(), root("root"), vec![], &small_tree, 100);
    assert!(finished);
    assert_eq!(lines, vec!["root", "├── a", "│   └── x", "└── b"]);
}

#[test]
fn the_last_directory_indents_with_blanks() {
    let read = |path: &str| match path {
        "root" => Some(vec![dir("root", "z"), file("root", "a")]),
        "root/z" => Some(vec![file("root/z", "q"), file("root/z", "p")]),
        _ => None,
    };
    let (lines, finished) = drive(plain(), root("root"), vec![], &read, 100);
    assert!(finished);
    assert_eq!(lines, vec!["root", "├── a", "└── z", "    ├── p", "    └── q"]);
}

#[test]
fn hidden_entries_are_left_out() {
    let read = |path: &str| match path {
        "." => Some(vec![file(".", ".git"), file(".", "b"), file(".", "."), file(".", "..")]),
        _ => None,
    };
    let (lines, _) = drive(plain(), root("."), vec![], &read, 100);
    assert_eq!(lines, vec![".", "└── b"]);
    let shown = Config { show_hidden: true, ..plain() };
    let (lines, _) = drive(shown, root("."), vec![], &read, 100);
    assert_eq!(lines, vec![".", "├── .git", "└── b"]);
}

#[test]
fn siblings_are_sorted_by_bytes() {
    let read = |path: &str| match path {
        "r" => Some(vec![
            file("r", "b"),
            file("r", "a"),
            file("r", "B"),
            file("r", "ab"),
            file("r", "é"),
            file("r", "z"),
        ]),
        _ => None,
    };
    let (lines, _) = drive(plain(), root("r"), vec![], &read, 100);
    assert_eq!(lines, vec!["r", "├── B", "├── a", "├── ab", "├── b", "├── z", "└── é"]);
}

#[test]
fn depth_limit_of_one_shows_only_the_children_of_the_root() {
    let config = Config { max_depth: Some(1), ..plain() };
    let (lines, finished) = drive(config, root("root"), vec![], &small_tree, 100);
    assert!(finished);
    assert_eq!(lines, vec!["root", "├── a", "└── b"]);
}

#[test]
fn depth_limit_of_two_shows_two_levels() {
    let read = |path: &str| match path {
        "r" => Some(vec![dir("r", "a")]),
        "r/a" => Some(vec![dir("r/a", "b")]),
        "r/a/b" => Some(vec![file("r/a/b", "c")]),
        _ => None,
    };
    let config = Config { max_depth: Some(2), ..plain() };
    let (lines, _) = drive(config, root("r"), vec![], &read, 100);
    assert_eq!(lines, vec!["r", "└── a", "    └── b"]);
    let (lines, _) = drive(Config { max_depth: Some(0), ..plain() }, root("r"), vec![], &read, 100);
    assert_eq!(lines, vec!["r", "└── a", "    └── b", "        └── c"]);
}

#[test]
fn a_directory_over_the_limit_is_replaced_by_one_line() {
    let read = |path: &str| match path {
        "r" => Some(vec![dir("r", "big"), file("r", "z")]),
        "r/big" => Some(vec![
            file("r/big", "1"),
            dir("r/big", "2"),
            file("r/big", "3"),
            file("r/big", ".hidden"),
        ]),
        _ => None,
    };
    let config = Config { entry_limit: Some(2), ..plain() };
    let (lines, finished) = drive(config, root("r"), vec![], &read, 100);
    assert!(finished);
    assert_eq!(
        lines,
        vec![
            "r",
            "├── big",
            "│   └── [3 entries exceeded filelimit, not printing dir]",
            "└── z"
        ]
    );
}

#[test]
fn the_limit_counts_entries_that_only_directories_mode_drops() {
    let read = |path: &str| match path {
        "r" => Some(vec![file("r", "1"), file("r", "2"), dir("r", "d")]),
        "r/d" => Some(vec![]),
        _ => None,
    };
    let config = Config { entry_limit: Some(2), dirs_only: true, ..plain() };
    let (lines, _) = drive(config, root("r"), vec![], &read, 100);
    assert_eq!(lines, vec!["r", "└── [3 entries exceeded filelimit, not printing dir]"]);
    let config = Config { entry_limit: Some(3), dirs_only: true, ..plain() };
    let (lines, _) = drive(config, root("r"), vec![], &read, 100);
    assert_eq!(lines, vec!["r", "└── d"]);
}

fn looping_tree(path: &str) -> Option<Vec<Entry>> {
    match path {
        "r" => Some(vec![dir("r", "sub")]),
        "r/sub" => Some(vec![link_to_dir("r/sub", "up", "../..", "/abs/r")]),
        "r/sub/up" => Some(vec![dir("r/sub/up", "sub")]),
        "r/sub/up/sub" => Some(vec![link_to_dir("r/sub/up/sub", "up", "../..", "/abs/r")]),
        _ => None,
    }
}

#[test]
fn a_symlink_to_an_ancestor_is_not_expanded() {
    let config = Config { follow_symlinks: true, ..plain() };
    let (lines, finished) = drive(config, root("r"), vec![], &looping_tree, 100);
    assert!(finished);
    assert_eq!(
        lines,
        vec![
            "r",
            "└── sub",
            "    └── up -> /abs/r",
            "        └── [symlink cycle detected, will not expand it]"
        ]
    );
}

#[test]
fn a_symlink_is_not_entered_unless_symlinks_are_followed() {
    let (lines, finished) = drive(plain(), root("r"), vec![], &looping_tree, 100);
    assert!(finished);
    assert_eq!(lines, vec!["r", "└── sub", "    └── up -> /abs/r"]);
}

#[test]
fn without_detection_a_cycle_is_walked_on_and_on() {
    let config =
        Config { follow_symlinks: true, cycle_detection: CycleDetection::Fast, ..plain() };
    let endless = |path: &str| {
        if path.ends_with("sub") {
            Some(vec![link_to_dir(path, "up", "../..", "/abs/r")])
        } else {
            Some(vec![dir(path, "sub")])
        }
    };
    let (lines, finished) = drive(config, root("r"), vec![], &endless, 1000);
    assert!(!finished);
    assert!(lines.len() > 300);
    assert_eq!(
        &lines[..5],
        &[
            "r",
            "└── sub",
            "    └── up -> /abs/r",
            "        └── sub",
            "            └── up -> /abs/r"
        ]
    );
}

#[test]
fn advanced_detection_knows_the_ancestors_of_the_root() {
    let read = |path: &str| match path {
        "r" => Some(vec![file("r", "f")]),
        _ => None,
    };
    let mut start = root("r");
    start.is_symlink = true;
    start.symlink_target = Some("..".to_string());
    start.canonical = Some("/abs".to_string());
    let config = Config {
        follow_symlinks: true,
        cycle_detection: CycleDetection::Advanced,
        ..plain()
    };
    let (lines, finished) =
        drive(config, start, vec!["/abs".to_string(), "/".to_string()], &read, 100);
    assert!(finished);
    assert_eq!(lines, vec!["r -> /abs", "└── f"]);
    let outward = |path: &str| match path {
        "r" => Some(vec![link_to_dir("r", "out", "../..", "/")]),
        "r/out" => Some(vec![file("r/out", "etc")]),
        _ => None,
    };
    let (lines, _) = drive(
        Config { cycle_detection: CycleDetection::Advanced, follow_symlinks: true, ..plain() },
        root("r"),
        vec!["/abs".to_string(), "/".to_string()],
        &outward,
        100,
    );
    assert_eq!(
        lines,
        vec!["r", "└── out -> /", "    └── [symlink cycle detected, will not expand it]"]
    );
}

#[test]
fn a_root_that_is_no_directory_gets_a_placeholder() {
    let mut start = root("notes.txt");
    start.is_directory = false;
    let (lines, finished) = drive(plain(), start, vec![], &small_tree, 100);
    assert!(finished);
    assert_eq!(lines, vec!["notes.txt", "    └── [given base is not a directory]"]);
}

#[test]
fn an_unreadable_directory_is_reported_and_the_walk_goes_on() {
    let read = |path: &str| match path {
        "r" => Some(vec![dir("r", "locked"), file("r", "z")]),
        _ => None,
    };
    let (lines, finished) = drive(plain(), root("r"), vec![], &read, 100);
    assert!(finished);
    assert_eq!(lines, vec!["r", "├── locked", "│   └── [error]", "└── z"]);
}

#[test]
fn only_directories_are_shown_on_request() {
    let config = Config { dirs_only: true, ..plain() };
    let (lines, _) = drive(config, root("root"), vec![], &small_tree, 100);
    assert_eq!(lines, vec!["root", "└── a"]);
}

#[test]
fn without_indentation_no_glyph_is_drawn() {
    let config = Config { indent: false, path_style: PathStyle::RelativePath, ..plain() };
    let (lines, _) = drive(config, root("root"), vec![], &small_tree, 100);
    assert_eq!(lines, vec!["root", "root/a", "root/a/x", "root/b"]);
}

#[test]
fn canonical_names_join_the_directory_and_the_name() {
    let config =
        Config { path_style: PathStyle::Canonical, root_style: PathStyle::Canonical, ..plain() };
    let (lines, _) = drive(config, root("root"), vec![], &small_tree, 100);
    assert_eq!(
        lines,
        vec!["/abs/root", "├── /abs/root/a", "│   └── /abs/root/a/x", "└── /abs/root/b"]
    );
}

#[test]
fn a_walk_repeats_itself_on_the_same_tree() {
    let config = Config { follow_symlinks: true, show_hidden: true, ..plain() };
    let first = drive(config, root("r"), vec![], &looping_tree, 100);
    let second = drive(config, root("r"), vec![], &looping_tree, 100);
    assert_eq!(first, second);
}

#[test]
fn an_event_out_of_turn_changes_nothing() {
    let mut walker = Walker::new(plain(), root("root"), vec![]);
    assert!(matches!(walker.step(Event::Unreadable), Action::Print(line) if line == "root"));
    assert!(matches!(walker.step(Event::Resume), Action::Read(path) if path == "root"));
    assert!(matches!(walker.step(Event::Resume), Action::Read(path) if path == "root"));
    let listing = small_tree("root").unwrap();
    assert!(matches!(walker.step(Event::Listing(listing)), Action::Print(line) if line == "├── a"));
    assert!(matches!(walker.step(Event::Listing(vec![])), Action::Read(path) if path == "root/a"));
    assert!(matches!(walker.step(Event::Unreadable), Action::Print(line) if line == "│   └── [error]"));
    assert!(matches!(walker.step(Event::Resume), Action::Print(line) if line == "└── b"));
    assert!(matches!(walker.step(Event::Resume), Action::Finished));
    assert!(matches!(walker.step(Event::Resume), Action::Finished));
}

#[test]
fn flags_resolve_to_a_configuration() {
    let opt = Opt {
        show_hidden: true,
        only_dir: false,
        follow_symlink: true,
        keep_canonical: true,
        full_rel_path: true,
        base_canonical: true,
        no_indent: false,
        colorize: false,
        perms: true,
        num_perms: true,
        size: false,
        hsize_ib: true,
        hsize: true,
        fast_rsc: false,
        ladv: true,
        level: 0,
        filelimit: 7,
        directory: ".".to_string(),
        target_file: String::new(),
    };
    let config = opt.config();
    assert!(config.show_hidden && !config.dirs_only && config.follow_symlinks && config.indent);
    assert_eq!(config.max_depth, None);
    assert_eq!(config.entry_limit, Some(7));
    assert_eq!(config.path_style, PathStyle::RelativePath);
    assert_eq!(config.root_style, PathStyle::Canonical);
    assert_eq!(config.show_permissions, PermissionStyle::Numeric);
    assert_eq!(config.show_size, SizeStyle::Human1000);
    assert_eq!(config.cycle_detection, CycleDetection::Advanced);
    assert!(config.needs_metadata());
    assert!(config.over_limit(8) && !config.over_limit(7));
    assert!(!config.at_depth_limit(0));
    let bare = Opt { perms: false, num_perms: false, hsize_ib: false, hsize: false, fast_rsc: true, level: 3, ..opt };
    let config = bare.config();
    assert_eq!(config.show_permissions, PermissionStyle::Off);
    assert_eq!(config.show_size, SizeStyle::Off);
    assert_eq!(config.cycle_detection, CycleDetection::Fast);
    assert_eq!(config.max_depth, Some(3));
    assert!(!config.needs_metadata());
    assert!(config.at_depth_limit(3) && !config.at_depth_limit(2));
}

#[test]
fn every_entry_below_the_root_is_listed() {
    let read = |path: &str| match path {
        "r" => Some(vec![dir("r", "src"), file("r", "Cargo.toml"), dir("r", "docs")]),
        "r/src" => Some(vec![file("r/src", "main.rs"), dir("r/src", "bin"), file("r/src", "lib.rs")]),
        "r/src/bin" => Some(vec![file("r/src/bin", "tool.rs")]),
        "r/docs" => Some(vec![]),
        _ => None,
    };
    let (lines, finished) = drive(plain(), root("r"), vec![], &read, 100);
    assert!(finished);
    assert_eq!(
        lines,
        vec![
            "r",
            "├── Cargo.toml",
            "├── docs",
            "└── src",
            "    ├── bin",
            "    │   └── tool.rs",
            "    ├── lib.rs",
            "    └── main.rs",
        ]
    );
}

#[test]
fn the_order_of_a_listing_does_not_matter() {
    let forward = |path: &str| match path {
        "r" => Some(vec![file("r", "a"), dir("r", "b"), file("r", "c"), file("r", ".d")]),
        "r/b" => Some(vec![file("r/b", "x"), file("r/b", "y")]),
        _ => None,
    };
    let backward = |path: &str| {
        forward(path).map(|mut listing| {
            listing.reverse();
            listing
        })
    };
    for config in [
        plain(),
        Config { show_hidden: true, ..plain() },
        Config { dirs_only: true, ..plain() },
        Config { entry_limit: Some(3), ..plain() },
    ] {
        assert_eq!(
            drive(config, root("r"), vec![], &forward, 100),
            drive(config, root("r"), vec![], &backward, 100)
        );
    }
}

#[test]
fn a_step_is_either_a_line_or_a_directory_to_read() {
    let mut walker = Walker::new(plain(), root("root"), vec![]);
    let mut event = Event::Resume;
    let mut lines = 0;
    let mut reads = 0;
    loop {
        match walker.step(event) {
            Action::Print(_) => {
                lines += 1;
                event = Event::Resume;
            }
            Action::Read(path) => {
                reads += 1;
                event = match small_tree(&path) {
                    Some(listing) => Event::Listing(listing),
                    None => Event::Unreadable,
                };
            }
            Action::Finished => break,
        }
    }
    assert_eq!((lines, reads), (4, 2));
}

#[test]
fn a_limit_of_zero_is_no_limit() {
    let config = Config { entry_limit: Some(0), max_depth: Some(0), ..plain() };
    let (lines, finished) = drive(config, root("root"), vec![], &small_tree, 100);
    assert!(finished);
    assert_eq!(lines, vec!["root", "├── a", "│   └── x", "└── b"]);
    let exact = Config { entry_limit: Some(2), ..plain() };
    let (lines, _) = drive(exact, root("root"), vec![], &small_tree, 100);
    assert_eq!(lines, vec!["root", "├── a", "│   └── x", "└── b"]);
    let tight = Config { entry_limit: Some(1), ..plain() };
    let (lines, _) = drive(tight, root("root"), vec![], &small_tree, 100);
    assert_eq!(lines, vec!["root", "└── [2 entries exceeded filelimit, not printing dir]"]);
}

#[test]
fn a_plain_tree_has_one_line_for_each_descendant() {
    let read = |path: &str| match path {
        "r" => Some(vec![dir("r", "a"), file("r", ".env"), dir("r", "b"), file("r", "c")]),
        "r/a" => Some(vec![file("r/a", "1"), dir("r/a", ".cache"), file("r/a", "2")]),
        "r/a/.cache" => Some(vec![file("r/a/.cache", "blob")]),
        "r/b" => Some(vec![]),
        _ => None,
    };
    let config = Config { show_hidden: true, ..plain() };
    let (lines, finished) = drive(config, root("r"), vec![], &read, 100);
    assert!(finished);
    assert_eq!(lines.len(), 1 + 8);
    assert_eq!(
        lines,
        vec![
            "r",
            "├── .env",
            "├── a",
            "│   ├── .cache",
            "│   │   └── blob",
            "│   ├── 1",
            "│   └── 2",
            "├── b",
            "└── c",
        ]
    );
}

#[test]
fn with_detection_a_walk_ends_whatever_the_symlinks() {
    let tangled = |path: &str| match path {
        "r" => Some(vec![
            dir("r", "a"),
            dir("r", "b"),
            link_to_dir("r", "self", ".", "/abs/r"),
        ]),
        "r/a" => Some(vec![link_to_dir("r/a", "to_b", "../b", "/abs/r/b")]),
        "r/b" => Some(vec![link_to_dir("r/b", "to_a", "../a", "/abs/r/a")]),
        _ => Some(vec![dir(path, "again")]),
    };
    for detection in [CycleDetection::Precomputed, CycleDetection::Advanced] {
        let config = Config { follow_symlinks: true, cycle_detection: detection, ..plain() };
        let (lines, finished) = drive(config, root("r"), vec![], &tangled, 1000);
        assert!(finished);
        assert_eq!(
            lines,
            vec![
                "r",
                "├── a",
                "│   └── to_b -> /abs/r/b",
                "│       └── [symlink cycle detected, will not expand it]",
                "├── b",
                "│   └── to_a -> /abs/r/a",
                "│       └── [symlink cycle detected, will not expand it]",
                "└── self -> /abs/r",
                "    └── [symlink cycle detected, will not expand it]",
            ]
        );
    }
}
