use kernelcore::file::{file_get_mode_by_string, FileMode};
use kernelcore::pparser::{get_drive_by_path, parse_path};
use kernelcore::status::ErrorCode;

#[test]
fn parses_drive_and_parts() {
    let root = parse_path("0:/bin/shell").unwrap();
    assert_eq!(root.drive_no, 0);
    assert_eq!(root.parts, vec!["bin", "shell"]);
}

#[test]
fn a_bare_drive_has_one_empty_part() {
    let root = parse_path("3:/").unwrap();
    assert_eq!(root.drive_no, 3);
    assert_eq!(root.parts, vec![""]);
}

#[test]
fn empty_components_are_kept() {
    let root = parse_path("1:/a//b/").unwrap();
    assert_eq!(root.parts, vec!["a", "", "b", ""]);
}

#[test]
fn rejects_malformed_prefixes() {
    assert!(matches!(parse_path(""), Err(ErrorCode::BadPath)));
    assert!(matches!(parse_path("0:"), Err(ErrorCode::BadPath)));
    assert!(matches!(parse_path("x:/a"), Err(ErrorCode::BadPath)));
    assert!(matches!(parse_path("0;/a"), Err(ErrorCode::BadPath)));
    assert!(matches!(parse_path("0:a"), Err(ErrorCode::BadPath)));
}

#[test]
fn rejects_over_long_paths() {
    let mut long = String::from("0:/");
    for _ in 0..108 {
        long.push('a');
    }
    assert!(matches!(parse_path(&long), Err(ErrorCode::BadPath)));
}

#[test]
fn drive_parse_alone() {
    assert_eq!(get_drive_by_path("7:/x").unwrap(), 7);
    assert!(matches!(get_drive_by_path("77/x"), Err(ErrorCode::BadPath)));
}

#[test]
fn mode_strings() {
    assert_eq!(file_get_mode_by_string("r"), FileMode::Read);
    assert_eq!(file_get_mode_by_string("rb"), FileMode::Read);
    assert_eq!(file_get_mode_by_string("w"), FileMode::Write);
    assert_eq!(file_get_mode_by_string("a"), FileMode::Append);
    assert_eq!(file_get_mode_by_string("x"), FileMode::Invalid);
    assert_eq!(file_get_mode_by_string(""), FileMode::Invalid);
}
