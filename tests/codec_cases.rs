use fileagg::{combine_file_contents, distribution_plan, parse_combined_contents, FileAction};

fn write(p: &str, c: &str) -> FileAction {
    FileAction::Write(p.to_string(), c.to_string())
}

fn delete(p: &str) -> FileAction {
    FileAction::Delete(p.to_string())
}

fn files(v: &[(&str, &str)]) -> Vec<(String, String)> {
    v.iter().map(|(p, c)| (p.to_string(), c.to_string())).collect()
}

#[test]
fn single_file_encodes_and_decodes() {
    let blob = combine_file_contents("/r", &files(&[("/r/a.txt", "hello")]));
    assert_eq!(blob, "=== FILE => a.txt\nhello\n");
    assert_eq!(parse_combined_contents(&blob), vec![write("a.txt", "hello\n")]);
    assert_eq!(distribution_plan("/fresh", &blob), vec![write("/fresh/a.txt", "hello\n")]);
}

#[test]
fn erase_record_decodes_to_delete() {
    let blob = "=== ERASE => old.txt\n";
    assert_eq!(parse_combined_contents(blob), vec![delete("old.txt")]);
    assert_eq!(distribution_plan("/r", blob), vec![delete("/r/old.txt")]);
}

#[test]
fn later_write_to_same_path_comes_last() {
    let blob = "=== FILE => a\n1\n=== FILE => a\n2\n";
    assert_eq!(distribution_plan("/r", blob), vec![write("/r/a", "1\n"), write("/r/a", "2\n")]);
}

#[test]
fn round_trip_adds_one_line_feed() {
    let input = files(&[
        ("/r/a.txt", "alpha\nbeta\n"),
        ("/r/sub/b.md", ""),
        ("/r/c", "no newline"),
    ]);
    let blob = combine_file_contents("/r", &input);
    assert_eq!(
        parse_combined_contents(&blob),
        vec![
            write("a.txt", "alpha\nbeta\n\n"),
            write("sub/b.md", "\n"),
            write("c", "no newline\n"),
        ]
    );
}

#[test]
fn files_outside_root_are_left_out() {
    let input = files(&[("/other/x.txt", "x"), ("/r/y.txt", "y"), ("/rr/z.txt", "z")]);
    assert_eq!(combine_file_contents("/r", &input), "=== FILE => y.txt\ny\n");
}

#[test]
fn empty_inputs() {
    assert_eq!(combine_file_contents("/r", &Vec::new()), "");
    assert_eq!(parse_combined_contents(""), Vec::new());
}

#[test]
fn lines_before_first_marker_are_ignored() {
    let blob = "preamble\nmore\n=== ERASE => x\n";
    assert_eq!(parse_combined_contents(blob), vec![delete("x")]);
}

#[test]
fn marker_like_content_line_cuts_content() {
    let blob = "=== FILE => a\nkeep\n=== ERASE => b\nlost\n";
    assert_eq!(parse_combined_contents(blob), vec![write("a", "keep\n"), delete("b")]);
}

#[test]
fn carriage_returns_before_line_feeds_are_dropped() {
    let blob = "=== FILE => a.txt \r\none\r\ntwo\r\n";
    assert_eq!(parse_combined_contents(blob), vec![write("a.txt", "one\ntwo\n")]);
}

#[test]
fn path_is_trimmed_and_repeated_marker_stripped() {
    let blob = "=== FILE => === FILE =>   spaced.txt  \nx\n=== ERASE =>  gone \n";
    assert_eq!(parse_combined_contents(blob), vec![write("spaced.txt", "x\n"), delete("gone")]);
}

#[test]
fn write_without_content_lines() {
    let blob = "=== FILE => a\n=== FILE => b";
    assert_eq!(parse_combined_contents(blob), vec![write("a", ""), write("b", "")]);
}

#[test]
fn non_ascii_content_survives() {
    let blob = combine_file_contents("/r", &files(&[("/r/ü.txt", "grüße\nλ")]));
    assert_eq!(blob, "=== FILE => ü.txt\ngrüße\nλ\n");
    assert_eq!(parse_combined_contents(&blob), vec![write("ü.txt", "grüße\nλ\n")]);
}
