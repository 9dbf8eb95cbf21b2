use rstree::color::ANSIColor;
use rstree::perms::{is_executable, stringify_permissions};
use rstree::size::convert;
use rstree::text::{decimal_string, octal_string};

#[test]
fn convert_leaves_small_sizes_unscaled() {
    assert_eq!(convert(0, 1024), "0");
    assert_eq!(convert(1, 1024), "1");
    assert_eq!(convert(1023, 1024), "1023");
    assert_eq!(convert(999, 1000), "999");
}

#[test]
fn convert_scales_by_the_delimiter() {
    assert_eq!(convert(1536, 1024), "1.5K");
    assert_eq!(convert(2048, 1024), "2.0K");
    assert_eq!(convert(1500, 1000), "1.5K");
    assert_eq!(convert(5 * 1024 * 1024, 1024), "5.0M");
}

#[test]
fn colors_are_escape_sequences() {
    assert_eq!(ANSIColor::Black.as_string(), "\u{1b}[0;30m");
    assert_eq!(ANSIColor::Red.as_string(), "\u{1b}[0;31m");
    assert_eq!(ANSIColor::Reset.as_string(), "\u{1b}[0;0m");
}

#[test]
fn permissions_are_written_as_ls_does() {
    assert_eq!(stringify_permissions(0o040755), "drwxr-xr-x");
    assert_eq!(stringify_permissions(0o100644), "-rw-r--r--");
    assert!(is_executable(0o100755));
    assert!(!is_executable(0o100644));
    assert_eq!(octal_string(0o755), "755");
    assert_eq!(decimal_string(1234), "1234");
}
