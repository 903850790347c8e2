use fileagg::{
    combine_file_contents, distribution_plan, is_valid_file, join_path, make_relative,
    parse_combined_contents, select_files, FileAction, DELETED_FILE_IDENTIFIER,
    PATH_LINE_IDENTIFIER,
};
use std::path::Path;

fn strings(v: &[&str]) -> Vec<String> {
    v.iter().map(|s| s.to_string()).collect()
}

fn write(p: &str, c: &str) -> FileAction {
    FileAction::Write(p.to_string(), c.to_string())
}

fn delete(p: &str) -> FileAction {
    FileAction::Delete(p.to_string())
}

#[test]
fn test_is_valid_file() {
    let whitelist = strings(&["txt"]);
    assert!(is_valid_file("/tmp/dir/test.txt", true, &whitelist));

    let empty_whitelist: Vec<String> = vec![];
    assert!(is_valid_file("/tmp/dir/test.txt", true, &empty_whitelist));

    let invalid_whitelist = strings(&["md"]);
    assert!(!is_valid_file("/tmp/dir/test.txt", true, &invalid_whitelist));
}

#[test]
fn test_is_valid_file_no_extension() {
    let whitelist = strings(&["txt"]);
    assert!(!is_valid_file("/tmp/dir/file", true, &whitelist));
}

#[test]
fn test_is_valid_file_hidden_file() {
    let whitelist = strings(&["txt"]);
    assert!(is_valid_file("/tmp/dir/.hiddenfile.txt", true, &whitelist));
}

#[test]
fn test_is_valid_file_case_insensitive_extension() {
    let whitelist = strings(&["txt"]);
    assert!(is_valid_file("/tmp/dir/file.TXT", true, &whitelist));
}

#[test]
fn test_is_valid_file_empty_whitelist() {
    let empty_whitelist: Vec<String> = vec![];
    assert!(is_valid_file("/tmp/dir/file.txt", true, &empty_whitelist));
}

#[test]
fn test_is_valid_file_empty_path() {
    let path = "";
    let whitelist = strings(&["txt"]);
    assert!(!is_valid_file(path, Path::new(path).is_file(), &whitelist));
}

#[test]
fn test_is_valid_file_invalid_metadata() {
    let path = "/nonexistent-directory-of-this-test/nonexistentfile.txt";
    let whitelist = strings(&["txt"]);
    assert!(!is_valid_file(path, Path::new(path).is_file(), &whitelist));
}

#[test]
fn test_is_valid_file_directory_instead_of_file() {
    let whitelist = strings(&["txt"]);
    assert!(!is_valid_file("/tmp/dir/subdir", false, &whitelist));
}

#[test]
fn test_get_file_paths() {
    let entries = vec![
        ("/tmp/dir".to_string(), false),
        ("/tmp/dir/test1.txt".to_string(), true),
        ("/tmp/dir/test2.md".to_string(), true),
    ];
    let whitelist = strings(&["txt"]);
    let result = select_files(&entries, &whitelist);
    assert_eq!(result.len(), 1);
    assert_eq!(result[0], "/tmp/dir/test1.txt");
}

#[test]
fn test_distribute_contents() {
    let root_path = "/tmp/root";
    let clipboard_text = format!(
        "{0}test1.txt\ncontent1\n{0}test2.md\ncontent2\n",
        PATH_LINE_IDENTIFIER
    );
    let plan = distribution_plan(root_path, &clipboard_text);
    assert_eq!(
        plan,
        vec![
            write("/tmp/root/test1.txt", "content1\n"),
            write("/tmp/root/test2.md", "content2\n"),
        ]
    );
}

#[test]
fn test_delete_file() {
    let root_path = "/tmp/root";
    let clipboard_text = format!("{0}delete_me.txt\n", DELETED_FILE_IDENTIFIER);
    let plan = distribution_plan(root_path, &clipboard_text);
    assert_eq!(plan, vec![delete("/tmp/root/delete_me.txt")]);
}

#[test]
fn test_make_relative() {
    let base_path = "/base";
    let absolute_path = "/base/dir/file.txt";
    let relative_path = make_relative(absolute_path, base_path).unwrap();
    assert_eq!(relative_path, "dir/file.txt");

    let invalid_path = "/other/file.txt";
    assert!(make_relative(invalid_path, base_path).is_none());
}

#[test]
fn test_combine_file_contents() {
    let root_path = "/tmp/root";
    let file_paths = vec![
        ("/tmp/root/test1.txt".to_string(), "content1".to_string()),
        ("/tmp/root/test2.txt".to_string(), "content2".to_string()),
    ];
    let combined = combine_file_contents(root_path, &file_paths);

    let expected = format!(
        "{0}test1.txt\ncontent1\n{0}test2.txt\ncontent2\n",
        PATH_LINE_IDENTIFIER
    );
    assert_eq!(combined, expected);
}

#[test]
fn test_parse_combined_contents() {
    let clipboard_text = format!(
        "{0}test1.txt\ncontent1\n{0}test2.txt\ncontent2\n{1}test3.txt\n",
        PATH_LINE_IDENTIFIER, DELETED_FILE_IDENTIFIER
    );
    let parsed = parse_combined_contents(&clipboard_text);

    assert_eq!(parsed.len(), 3);

    match &parsed[0] {
        FileAction::Write(path, content) => {
            assert_eq!(path, "test1.txt");
            assert_eq!(content, "content1\n");
        }
        _ => panic!("Expected FileAction::Write"),
    }

    match &parsed[1] {
        FileAction::Write(path, content) => {
            assert_eq!(path, "test2.txt");
            assert_eq!(content, "content2\n");
        }
        _ => panic!("Expected FileAction::Write"),
    }

    match &parsed[2] {
        FileAction::Delete(path) => {
            assert_eq!(path, "test3.txt");
        }
        _ => panic!("Expected FileAction::Delete"),
    }
}
