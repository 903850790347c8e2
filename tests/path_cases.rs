use fileagg::{is_valid_file, join_path, make_relative, select_files};

fn strings(v: &[&str]) -> Vec<String> {
    v.iter().map(|s| s.to_string()).collect()
}

#[test]
fn relative_of_root_itself_is_empty() {
    assert_eq!(make_relative("/base", "/base"), Some(String::new()));
    assert_eq!(make_relative("/base/", "/base"), Some(String::new()));
}

#[test]
fn relative_is_component_wise() {
    assert_eq!(make_relative("/basement/f", "/base"), None);
    assert_eq!(make_relative("/base//dir/./f.txt", "/base/"), Some("dir/f.txt".to_string()));
    assert_eq!(make_relative("base/f", "/base"), None);
    assert_eq!(make_relative("rel/a/b", "rel"), Some("a/b".to_string()));
}

#[test]
fn join_follows_path_join() {
    assert_eq!(join_path("/r", "a/b.txt"), "/r/a/b.txt");
    assert_eq!(join_path("/r/", "a"), "/r/a");
    assert_eq!(join_path("", "a"), "a");
    assert_eq!(join_path("/r", "/abs"), "/abs");
}

#[test]
fn extension_cases() {
    let wl = strings(&["txt", "RS"]);
    assert!(is_valid_file("/d/a.rs", true, &wl));
    assert!(is_valid_file("/d/a.b.TxT", true, &wl));
    assert!(!is_valid_file("/d/.txt", true, &wl));
    assert!(!is_valid_file("/d/a.txt.bak", true, &wl));
    assert!(!is_valid_file("/d/txt", true, &wl));
    assert!(!is_valid_file("/d/a.tx", true, &wl));
    assert!(is_valid_file("/d/a.txt/", true, &wl));
    assert!(!is_valid_file("/d/a.txt", false, &wl));
    assert!(!is_valid_file("/d/..", true, &wl));
}

#[test]
fn empty_extension_entry_matches_trailing_dot() {
    let wl = strings(&[""]);
    assert!(is_valid_file("/d/a.", true, &wl));
    assert!(!is_valid_file("/d/a", true, &wl));
}

#[test]
fn selection_keeps_order_and_filters() {
    let entries = vec![
        ("/d/b.TXT".to_string(), true),
        ("/d/sub".to_string(), false),
        ("/d/a.md".to_string(), true),
        ("/d/sub/c.txt".to_string(), true),
        ("/d/noext".to_string(), true),
    ];
    assert_eq!(
        select_files(&entries, &strings(&["txt"])),
        strings(&["/d/b.TXT", "/d/sub/c.txt"])
    );
    assert_eq!(
        select_files(&entries, &Vec::new()),
        strings(&["/d/b.TXT", "/d/a.md", "/d/sub/c.txt", "/d/noext"])
    );
}
