use rstree::color::ANSIColor;
use rstree::config::{Config, CycleDetection, PathStyle, PermissionStyle, SizeStyle};
use rstree::entry::{Entry, EntryClass};
use rstree::order::{arrange, bytes_precede, count_visible, is_listed, is_visible};
use rstree::perms::{permissions_of, stringify_permissions};
use rstree::render::{
    connectors, entry_name, glyphs_for, join_path, line_of_cycle, line_of_entry, line_of_limit,
    line_of_not_directory, line_of_root, line_of_unreadable, name_of_root, prefix_of_children,
    push_annotation, push_rendered,
};
use rstree::size::convert;
use rstree::text::{decimal_string, octal_string, push_padded, push_spaces};

fn bare() -> Config {
    Config {
        show_hidden: false,
        dirs_only: false,
        follow_symlinks: false,
        max_depth: None,
        entry_limit: None,
        path_style: PathStyle::Name,
        root_style: PathStyle::Name,
        indent: true,
        colorize: false,
        show_permissions: PermissionStyle::Off,
        show_size: SizeStyle::Off,
        cycle_detection: CycleDetection::Precomputed,
    }
}

fn regular(name: &str, mode: u32, size: u64) -> Entry {
    Entry {
        name: name.to_string(),
        path: format!("dir/{}", name),
        canonical: Some(format!("/top/dir/{}", name)),
        is_directory: false,
        is_symlink: false,
        symlink_target: None,
        permission_bits: mode,
        size_bytes: size,
    }
}

fn directory(name: &str) -> Entry {
    Entry { is_directory: true, ..regular(name, 0o040755, 4096) }
}

fn link(name: &str, text: &str, resolved: Option<&str>, to_directory: bool) -> Entry {
    Entry {
        is_symlink: true,
        is_directory: to_directory,
        symlink_target: Some(text.to_string()),
        canonical: resolved.map(|path| path.to_string()),
        ..regular(name, 0o120777, 7)
    }
}

fn shown(entry: &Entry, colorize: bool) -> String {
    let mut out = String::new();
    push_rendered(&mut out, &entry.name, entry, colorize);
    out
}

fn annotated(entry: &Entry, permissions: PermissionStyle, size: SizeStyle) -> String {
    let mut out = String::from(">");
    push_annotation(&mut out, entry, permissions, size);
    out
}

#[test]
fn convert_at_the_delimiter_is_not_scaled() {
    assert_eq!(convert(1024, 1024), "1024");
    assert_eq!(convert(1000, 1000), "1000");
    assert_eq!(convert(1025, 1024), "1.0K");
    assert_eq!(convert(1001, 1000), "1.0K");
}

#[test]
fn convert_stops_at_the_unit_that_keeps_the_value_within_the_delimiter() {
    assert_eq!(convert(1024 * 1024, 1024), "1024.0K");
    assert_eq!(convert(1024 * 1024 + 1, 1024), "1.0M");
    assert_eq!(convert(1_000_000, 1000), "1000.0K");
    assert_eq!(convert(1_500_000, 1000), "1.5M");
    assert_eq!(convert(3 * 1024 * 1024 * 1024, 1024), "3.0G");
    assert_eq!(convert(u64::MAX, 1024), "16.0E");
    assert_eq!(convert(u64::MAX, 1000), "18.4E");
    assert_eq!(convert(5_000_000_000_000, 1000), "5.0T");
    assert_eq!(convert(2_000_000_000_000_000, 1000), "2.0P");
}

#[test]
fn convert_rounds_the_quotient_as_double_precision_holds_it() {
    assert_eq!(convert(1050, 1000), "1.1K");
    assert_eq!(convert(1150, 1000), "1.1K");
    assert_eq!(convert(1075, 1024), "1.0K");
    assert_eq!(convert(1076, 1024), "1.1K");
    assert_eq!(convert(1250, 1000), "1.2K");
    assert_eq!(convert(1350, 1000), "1.4K");
    assert_eq!(convert(1251, 1000), "1.3K");
    assert_eq!(convert(1280, 1024), "1.2K");
    assert_eq!(convert(1792, 1024), "1.8K");
    assert_eq!(convert(9999, 1000), "10.0K");
}

fn by_division(num: u64, delimiter: u64) -> String {
    let units = ["B", "K", "M", "G", "T", "P", "E", "Z", "Y"];
    let size = num as f64;
    let mut power = 1.0_f64;
    let mut steps = 0;
    let mut unit = 0;
    let mut scaled = size;
    while size / power > 1.0 {
        scaled = size / power;
        unit = steps;
        steps += 1;
        power *= delimiter as f64;
    }
    if unit > 0 {
        format!("{:.1}{}", scaled, units[unit])
    } else {
        format!("{}", scaled)
    }
}

#[test]
fn convert_agrees_with_division_in_double_precision() {
    for delimiter in [1000_u64, 1024] {
        for num in 0..60_000_u64 {
            assert_eq!(convert(num, delimiter), by_division(num, delimiter));
        }
        let mut num: u64 = 0x2545_f491_4f6c_dd1d;
        for _ in 0..60_000 {
            num = num.wrapping_mul(6364136223846793005).wrapping_add(1442695040888963407);
            let below = num >> 11;
            assert_eq!(convert(below, delimiter), by_division(below, delimiter));
            let small = num >> 40;
            assert_eq!(convert(small, delimiter), by_division(small, delimiter));
        }
        let mut power: u64 = 1;
        for _ in 0..5 {
            power *= delimiter;
            for num in power - 3..power + 4 {
                if num < 1 << 53 {
                    assert_eq!(convert(num, delimiter), by_division(num, delimiter));
                }
            }
            for tenth in 10..300_u64 {
                let tie = power / 20 * (2 * tenth + 1);
                for num in tie.saturating_sub(1)..tie + 2 {
                    if num < 1 << 53 {
                        assert_eq!(convert(num, delimiter), by_division(num, delimiter));
                    }
                }
            }
        }
    }
}

#[test]
fn convert_reaches_every_unit() {
    assert_eq!(convert(3, 2), "1.5K");
    assert_eq!(convert(5, 2), "1.2M");
    assert_eq!(convert(9, 2), "1.1G");
    assert_eq!(convert(17, 2), "1.1T");
    assert_eq!(convert(33, 2), "1.0P");
    assert_eq!(convert(65, 2), "1.0E");
    assert_eq!(convert(129, 2), "1.0Z");
    assert_eq!(convert(257, 2), "1.0Y");
    assert_eq!(convert(512, 2), "2.0Y");
    assert_eq!(convert(2, 2), "2");
    assert_eq!(convert(u64::MAX, u64::MAX), "18446744073709551615");
}

#[test]
fn numerals_are_written_without_leading_zeros() {
    assert_eq!(decimal_string(0), "0");
    assert_eq!(decimal_string(10), "10");
    assert_eq!(decimal_string(u64::MAX), "18446744073709551615");
    assert_eq!(octal_string(0), "0");
    assert_eq!(octal_string(8), "10");
    assert_eq!(octal_string(0o100644), "100644");
    assert_eq!(octal_string(u32::MAX), "37777777777");
    assert_eq!(decimal_string(1234567890), "1234567890");
    assert_eq!(octal_string(0o1234567), "1234567");
}

#[test]
fn padding_aligns_to_the_right() {
    let mut out = String::from("[");
    push_padded(&mut out, "42", 5);
    assert_eq!(out, "[   42");
    push_padded(&mut out, "123456", 5);
    assert_eq!(out, "[   42123456");
    push_padded(&mut out, "é", 3);
    assert_eq!(out, "[   42123456  é");
    push_spaces(&mut out, 2);
    assert_eq!(out, "[   42123456  é  ");
    push_spaces(&mut out, 0);
    assert_eq!(out, "[   42123456  é  ");
}

#[test]
fn every_color_has_its_code() {
    assert_eq!(ANSIColor::Black.as_string(), "\u{001B}[0;30m");
    assert_eq!(ANSIColor::Red.as_string(), "\u{001B}[0;31m");
    assert_eq!(ANSIColor::Green.as_string(), "\u{001B}[0;32m");
    assert_eq!(ANSIColor::Yellow.as_string(), "\u{001B}[0;33m");
    assert_eq!(ANSIColor::Blue.as_string(), "\u{001B}[0;34m");
    assert_eq!(ANSIColor::Magenta.as_string(), "\u{001B}[0;35m");
    assert_eq!(ANSIColor::Cyan.as_string(), "\u{001B}[0;36m");
    assert_eq!(ANSIColor::White.as_string(), "\u{001B}[0;37m");
    assert_eq!(ANSIColor::Reset.as_string(), "\u{001B}[0;0m");
}

#[test]
fn modes_show_the_type_and_the_nine_flags() {
    assert_eq!(stringify_permissions(0o120777), "lrwxrwxrwx");
    assert_eq!(stringify_permissions(0o040000), "d---------");
    assert_eq!(stringify_permissions(0o100421), "-r---w---x");
    assert_eq!(stringify_permissions(0o010644), "?rw-r--r--");
    assert_eq!(stringify_permissions(0o755), "?rwxr-xr-x");
    assert_eq!(stringify_permissions(0o104000 | 0o644), "-rw-r--r--");
}

#[test]
fn connectors_tell_the_last_sibling_from_the_others() {
    assert_eq!(connectors(0, 2), ("├── ", "│   "));
    assert_eq!(connectors(1, 2), ("└── ", "    "));
    assert_eq!(connectors(0, 1), ("└── ", "    "));
    assert_eq!(connectors(0, 0), ("├── ", "│   "));
    assert_eq!(glyphs_for(true, true), ("└── ", "    "));
    assert_eq!(glyphs_for(true, false), ("├── ", "│   "));
    assert_eq!(glyphs_for(false, true), ("", ""));
    assert_eq!(prefix_of_children(&bare(), "│   ", false), "│   │   ");
    assert_eq!(prefix_of_children(&bare(), "│   ", true), "│       ");
    assert_eq!(prefix_of_children(&Config { indent: false, ..bare() }, "", true), "");
}

#[test]
fn paths_are_joined_by_one_slash() {
    assert_eq!(join_path("/usr", "bin"), "/usr/bin");
    assert_eq!(join_path("/", "bin"), "/bin");
    assert_eq!(join_path("", "bin"), "bin");
    assert_eq!(join_path("a/", "b"), "a/b");
}

#[test]
fn names_follow_the_path_style() {
    let entry = regular("f", 0o100644, 1);
    let parent = Some("/real/dir".to_string());
    assert_eq!(entry_name(&entry, PathStyle::Name, &parent), "f");
    assert_eq!(entry_name(&entry, PathStyle::RelativePath, &parent), "dir/f");
    assert_eq!(entry_name(&entry, PathStyle::Canonical, &parent), "/real/dir/f");
    assert_eq!(entry_name(&entry, PathStyle::Canonical, &None), "dir/f");
    let mut root = directory("..");
    root.path = "..".to_string();
    root.canonical = Some("/home".to_string());
    assert_eq!(name_of_root(&root, PathStyle::Name), "..");
    assert_eq!(name_of_root(&root, PathStyle::RelativePath), "..");
    assert_eq!(name_of_root(&root, PathStyle::Canonical), "/home");
    root.canonical = None;
    assert_eq!(name_of_root(&root, PathStyle::Canonical), "..");
}

#[test]
fn entries_are_classified_for_coloring() {
    assert_eq!(directory("d").class(), EntryClass::Directory);
    assert_eq!(regular("f", 0o100644, 0).class(), EntryClass::Plain);
    assert_eq!(regular("f", 0o100744, 0).class(), EntryClass::Executable);
    assert_eq!(regular("f", 0o100654, 0).class(), EntryClass::Executable);
    assert_eq!(regular("f", 0o100645, 0).class(), EntryClass::Executable);
    assert_eq!(link("l", "d", Some("/top/d"), true).class(), EntryClass::LinkToDirectory);
    assert_eq!(link("l", "f", Some("/top/f"), false).class(), EntryClass::LinkToFile);
    assert_eq!(link("l", "gone", None, false).class(), EntryClass::BrokenLink);
    assert_eq!(link("l", "gone", None, false).target(), "gone");
    assert_eq!(link("l", "d", Some("/top/d"), true).target(), "/top/d");
}

#[test]
fn plain_names_show_the_target_of_a_symlink() {
    assert_eq!(shown(&directory("d"), false), "d");
    assert_eq!(shown(&regular("f", 0o100755, 0), false), "f");
    assert_eq!(shown(&link("l", "../d", Some("/top/d"), true), false), "l -> /top/d");
    assert_eq!(shown(&link("l", "gone", None, false), false), "l -> gone");
}

#[test]
fn colors_follow_the_category() {
    let reset = "\u{1b}[0;0m";
    let yellow = "\u{1b}[0;33m";
    let green = "\u{1b}[0;32m";
    let cyan = "\u{1b}[0;36m";
    let red = "\u{1b}[0;31m";
    let magenta = "\u{1b}[0;35m";
    assert_eq!(shown(&directory("d"), true), format!("{}d{}", yellow, reset));
    assert_eq!(shown(&regular("x", 0o100755, 0), true), format!("{}x{}", green, reset));
    assert_eq!(shown(&regular("f", 0o100644, 0), true), format!("{}f{}", magenta, reset));
    assert_eq!(
        shown(&link("l", "d", Some("/top/d"), true), true),
        format!("{}l{} -> {}/top/d{}", cyan, reset, yellow, reset)
    );
    assert_eq!(
        shown(&link("l", "f", Some("/top/f"), false), true),
        format!("{}l{} -> {}/top/f{}", cyan, reset, green, reset)
    );
    assert_eq!(
        shown(&link("l", "gone", None, false), true),
        format!("{}l{} -> gone", red, reset)
    );
}

#[test]
fn annotations_hold_mode_and_size_in_brackets() {
    let entry = regular("f", 0o100644, 1536);
    assert_eq!(annotated(&entry, PermissionStyle::Off, SizeStyle::Off), ">");
    assert_eq!(annotated(&entry, PermissionStyle::Symbolic, SizeStyle::Off), ">[-rw-r--r-- ] ");
    assert_eq!(annotated(&entry, PermissionStyle::Numeric, SizeStyle::Off), ">[644] ");
    assert_eq!(annotated(&entry, PermissionStyle::Off, SizeStyle::Bytes), ">[ 1536] ");
    assert_eq!(annotated(&entry, PermissionStyle::Off, SizeStyle::Human1024), ">[  1.5K] ");
    assert_eq!(annotated(&entry, PermissionStyle::Off, SizeStyle::Human1000), ">[  1.5K iB] ");
    assert_eq!(
        annotated(&entry, PermissionStyle::Symbolic, SizeStyle::Bytes),
        ">[-rw-r--r--  1536] "
    );
    assert_eq!(
        annotated(&entry, PermissionStyle::Numeric, SizeStyle::Human1024),
        ">[644  1.5K] "
    );
    let large = regular("f", 0o100644, 1234567);
    assert_eq!(annotated(&large, PermissionStyle::Off, SizeStyle::Bytes), ">[1234567] ");
    let small = regular("f", 0o100644, 12);
    assert_eq!(annotated(&small, PermissionStyle::Off, SizeStyle::Human1024), ">[    12] ");
}

#[test]
fn numeric_permissions_leave_out_the_type_of_the_file() {
    let numeric = Config { show_permissions: PermissionStyle::Numeric, ..bare() };
    let mut root = directory("root");
    root.path = "root".to_string();
    assert_eq!(line_of_root(&numeric, &root), "[755] root");
    assert_eq!(
        line_of_entry(&numeric, "", &None, &regular("f", 0o100644, 0), true),
        "└── [644] f"
    );
    assert_eq!(
        annotated(&regular("f", 0o104755, 0), PermissionStyle::Numeric, SizeStyle::Off),
        ">[4755] "
    );
    assert_eq!(
        annotated(&regular("f", 0o100000, 0), PermissionStyle::Numeric, SizeStyle::Off),
        ">[0] "
    );
    assert_eq!(
        annotated(&link("l", "f", None, false), PermissionStyle::Numeric, SizeStyle::Bytes),
        ">[777    7] "
    );
    assert_eq!(permissions_of(0o040755), 0o755);
    assert_eq!(permissions_of(0o7777), 0o7777);
}

#[test]
fn lines_put_prefix_connector_annotation_and_name_together() {
    let entry = regular("f", 0o100755, 2048);
    let config = Config {
        show_permissions: PermissionStyle::Symbolic,
        show_size: SizeStyle::Human1024,
        ..bare()
    };
    assert_eq!(
        line_of_entry(&config, "│   ", &None, &entry, true),
        "│   └── [-rwxr-xr-x   2.0K] f"
    );
    assert_eq!(
        line_of_entry(&config, "", &None, &entry, false),
        "├── [-rwxr-xr-x   2.0K] f"
    );
    let flat = Config { indent: false, ..bare() };
    assert_eq!(line_of_entry(&flat, "", &None, &entry, true), "f");
    let mut root = directory(".");
    root.path = ".".to_string();
    assert_eq!(line_of_root(&bare(), &root), ".");
    assert_eq!(line_of_root(&config, &root), "[drwxr-xr-x   4.0K] .");
}

#[test]
fn placeholders_hang_below_their_directory() {
    assert_eq!(
        line_of_limit("│   ", 12),
        "│   └── [12 entries exceeded filelimit, not printing dir]"
    );
    assert_eq!(line_of_cycle("    "), "    └── [symlink cycle detected, will not expand it]");
    assert_eq!(line_of_unreadable(""), "└── [error]");
    assert_eq!(line_of_not_directory(), "    └── [given base is not a directory]");
}

#[test]
fn names_are_compared_byte_by_byte() {
    assert!(bytes_precede(b"", b""));
    assert!(bytes_precede(b"", b"a"));
    assert!(!bytes_precede(b"a", b""));
    assert!(bytes_precede(b"a", b"a"));
    assert!(bytes_precede(b"a", b"ab"));
    assert!(!bytes_precede(b"ab", b"a"));
    assert!(bytes_precede(b"Z", b"a"));
    assert!(!bytes_precede(b"a", b"Z"));
    assert!(bytes_precede(b"ab", b"b"));
    assert!(bytes_precede("z".as_bytes(), "é".as_bytes()));
}

#[test]
fn the_filters_pick_the_entries_that_get_a_line() {
    let config = bare();
    assert!(is_visible(&regular("a", 0, 0), false));
    assert!(is_visible(&regular("", 0, 0), false));
    assert!(!is_visible(&regular(".a", 0, 0), false));
    assert!(is_visible(&regular(".a", 0, 0), true));
    assert!(is_visible(&regular("...", 0, 0), true));
    assert!(is_visible(&regular("..a", 0, 0), true));
    assert!(!is_visible(&regular(".", 0, 0), true));
    assert!(!is_visible(&regular("..", 0, 0), true));
    assert!(!is_visible(&regular("..", 0, 0), false));
    assert!(is_listed(&regular("a", 0, 0), &config));
    assert!(!is_listed(&regular("a", 0, 0), &Config { dirs_only: true, ..config }));
    assert!(is_listed(&directory("a"), &Config { dirs_only: true, ..config }));
    assert!(!is_listed(&directory(".a"), &Config { dirs_only: true, ..config }));
}

#[test]
fn the_arrangement_sorts_the_indices_and_keeps_equal_names_in_place() {
    let listing = vec![
        regular("b", 0, 0),
        regular(".x", 0, 0),
        regular("a", 0, 1),
        directory("c"),
        regular("a", 0, 2),
        regular("B", 0, 0),
    ];
    assert_eq!(arrange(&listing, &bare()), vec![5, 2, 4, 0, 3]);
    assert_eq!(arrange(&listing, &Config { show_hidden: true, ..bare() }), vec![1, 5, 2, 4, 0, 3]);
    assert_eq!(arrange(&listing, &Config { dirs_only: true, ..bare() }), vec![3]);
    assert_eq!(arrange(&Vec::new(), &bare()), Vec::<usize>::new());
    assert_eq!(count_visible(&listing, false), 5);
    assert_eq!(count_visible(&listing, true), 6);
}
