use rename_rules::rules::{find_file_renaming_rules, input_shape_ok, split_lines, Rename};
use rename_rules::validate::{validate, ValidationError};

#[test]
fn test_file_renamings() {
    let renames = find_file_renaming_rules("a", "b");
    assert_eq!(renames.len(), 1);

    let old = "a\nb";
    let new = "b\nc";
    let renames = find_file_renaming_rules(old, new);
    assert_eq!(renames.len(), 2);

    let old = "a";
    let new = "b\nc";
    let renames = find_file_renaming_rules(old, new);
    assert_eq!(renames.len(), 0);

    let old = "a\nb";
    let new = "a\nc";
    let renames = find_file_renaming_rules(old, new);
    assert_eq!(renames.len(), 1);
}

#[test]
fn identical_buffers_derive_nothing() {
    assert_eq!(find_file_renaming_rules("x\ny\nz", "x\ny\nz").len(), 0);
    assert_eq!(find_file_renaming_rules("", "").len(), 0);
}

#[test]
fn single_line_change() {
    let renames = find_file_renaming_rules("a", "b");
    assert_eq!(renames.len(), 1);
    assert_eq!(renames[0].source, "a");
    assert_eq!(renames[0].dest, "b");
}

#[test]
fn two_line_changes_keep_order() {
    let renames = find_file_renaming_rules("a\nb", "b\nc");
    assert_eq!(renames.len(), 2);
    assert_eq!(renames[0].source, "a");
    assert_eq!(renames[0].dest, "b");
    assert_eq!(renames[1].source, "b");
    assert_eq!(renames[1].dest, "c");
}

#[test]
fn line_count_mismatch_derives_nothing() {
    let renames = find_file_renaming_rules("a", "b\nc");
    assert_eq!(renames.len(), 0);
    assert!(!input_shape_ok("a", "b\nc"));
    assert!(input_shape_ok("a\nb", "b\nc"));
}

#[test]
fn equal_lines_are_skipped() {
    let renames = find_file_renaming_rules("a\nb", "a\nc");
    assert_eq!(renames.len(), 1);
    assert_eq!(renames[0].source, "b");
    assert_eq!(renames[0].dest, "c");
}

#[test]
fn split_lines_trailing_newline() {
    let lines = split_lines("a\nb\n");
    assert_eq!(lines, vec!["a".to_string(), "b".to_string()]);
    let lines = split_lines("a\nb");
    assert_eq!(lines, vec!["a".to_string(), "b".to_string()]);
    let lines = split_lines("");
    assert_eq!(lines.len(), 0);
    let lines = split_lines("\n");
    assert_eq!(lines, vec!["".to_string()]);
}

#[test]
fn split_lines_strips_carriage_return() {
    let lines = split_lines("a\r\nb");
    assert_eq!(lines, vec!["a".to_string(), "b".to_string()]);
    // a carriage return not followed by a newline is part of the line
    let lines = split_lines("a\r");
    assert_eq!(lines, vec!["a\r".to_string()]);
}

#[test]
fn whitespace_is_preserved() {
    let renames = find_file_renaming_rules(" a \nb", " a x\nb");
    assert_eq!(renames.len(), 1);
    assert_eq!(renames[0].source, " a ");
    assert_eq!(renames[0].dest, " a x");
}

#[test]
fn validate_duplicate_source() {
    let rules = vec![Rename::new("a", "x"), Rename::new("a", "y")];
    match validate(&rules) {
        Err(ValidationError::DuplicateSource { path }) => assert_eq!(path, "a"),
        _ => panic!("expected a duplicate source"),
    }
}

#[test]
fn validate_duplicate_dest() {
    let rules = vec![Rename::new("a", "z"), Rename::new("b", "z")];
    match validate(&rules) {
        Err(ValidationError::DuplicateDest { path }) => assert_eq!(path, "z"),
        _ => panic!("expected a duplicate destination"),
    }
}

#[test]
fn validate_consistent_rules() {
    let rules = vec![Rename::new("a", "x"), Rename::new("b", "y")];
    assert!(validate(&rules).is_ok());
}

#[test]
fn validate_empty_rules() {
    let rules: Vec<Rename> = Vec::new();
    assert!(validate(&rules).is_ok());
}
