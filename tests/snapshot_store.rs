use rcd::pipeline::compare_with_snapshot;
use rcd::snapshot::{compare_hash_maps, FileDigest};
use rcd::store::{
    format_snapshot_line, parse_snapshot_line, read_hashes_from_lines, report_lines, snapshot_lines,
    trim_quote_chars,
};

fn digest_of(pairs: &[(&str, &str)]) -> FileDigest {
    let mut d = FileDigest::new();
    for (p, h) in pairs {
        d.insert(p.to_string(), h.to_string());
    }
    d
}

fn paths_of(d: &FileDigest) -> Vec<String> {
    (0..d.len()).map(|i| d.entry(i).0.clone()).collect()
}

#[test]
fn insert_replaces_in_place_and_appends_new_paths() {
    let mut d = digest_of(&[("a", "1"), ("b", "2")]);
    d.insert("a".to_string(), "3".to_string());
    assert_eq!(d.len(), 2);
    assert_eq!(d.get("a"), Some("3".to_string()));
    assert_eq!(d.get("b"), Some("2".to_string()));
    assert_eq!(d.get("c"), None);
    d.insert("c".to_string(), "4".to_string());
    assert_eq!(paths_of(&d), vec!["a", "b", "c"]);
}

#[test]
fn compare_lists_changed_added_then_removed() {
    let current = digest_of(&[("x", "1"), ("y", "2"), ("z", "3")]);
    let mut previous = digest_of(&[("w", "9"), ("y", "5"), ("z", "3"), ("v", "8")]);
    let report = compare_hash_maps(&current, &mut previous);
    assert_eq!(report, vec!["x", "y", "w", "v"]);
    assert_eq!(paths_of(&previous), vec!["w", "v"]);
    assert_eq!(previous.get("w"), Some("9".to_string()));
}

#[test]
fn compare_of_equal_mappings_is_empty() {
    let current = digest_of(&[("x", "1"), ("y", "2")]);
    let mut previous = digest_of(&[("y", "2"), ("x", "1")]);
    assert!(compare_hash_maps(&current, &mut previous).is_empty());
    assert_eq!(previous.len(), 0);
}

#[test]
fn compare_with_empty_previous_reports_every_path() {
    let current = digest_of(&[("x", "1"), ("y", "2")]);
    let mut previous = FileDigest::new();
    assert_eq!(compare_hash_maps(&current, &mut previous), vec!["x", "y"]);
}

#[test]
fn snapshot_line_format() {
    assert_eq!(format_snapshot_line("/a/f1.txt", "42"), "\"/a/f1.txt\": \"42\"");
    let d = digest_of(&[("p", "1"), ("q", "2")]);
    assert_eq!(snapshot_lines(&d), vec!["\"p\": \"1\"", "\"q\": \"2\""]);
    assert_eq!(report_lines(&vec!["p".to_string()]), vec!["\"p\""]);
}

#[test]
fn parse_line_strips_quotes_and_splits_at_first_separator() {
    assert_eq!(
        parse_snapshot_line("\"/a/f1.txt\": \"42\""),
        Some(("/a/f1.txt".to_string(), "42".to_string()))
    );
    assert_eq!(parse_snapshot_line("a: b: c"), Some(("a".to_string(), "b: c".to_string())));
    assert_eq!(parse_snapshot_line("no separator"), None);
    assert_eq!(parse_snapshot_line("a:b"), None);
    assert_eq!(parse_snapshot_line(""), None);
    assert_eq!(parse_snapshot_line(": "), Some((String::new(), String::new())));
}

#[test]
fn trim_quote_chars_strips_all_edge_quotes() {
    assert_eq!(trim_quote_chars("\"\"ab\"c\"\""), "ab\"c");
    assert_eq!(trim_quote_chars("\"\"\""), "");
    assert_eq!(trim_quote_chars("abc"), "abc");
}

#[test]
fn malformed_lines_are_skipped_and_later_lines_win() {
    let lines = vec![
        "\"a\": \"1\"".to_string(),
        "garbage".to_string(),
        "\"b\": \"2\"".to_string(),
        "\"a\": \"3\"".to_string(),
    ];
    let d = read_hashes_from_lines(&lines);
    assert_eq!(d.len(), 2);
    assert_eq!(d.get("a"), Some("3".to_string()));
    assert_eq!(d.get("b"), Some("2".to_string()));
    assert_eq!(read_hashes_from_lines(&vec![]).len(), 0);
}

#[test]
fn written_snapshot_reads_back_equal() {
    let d = digest_of(&[("/r/a.txt", "11"), ("/r/b/c.rs", "22"), ("rel/d", "33")]);
    let back = read_hashes_from_lines(&snapshot_lines(&d));
    assert_eq!(back.len(), d.len());
    for i in 0..d.len() {
        let (p, h) = d.entry(i);
        assert_eq!(back.get(p), Some(h.clone()));
    }
}

#[test]
fn second_run_without_changes_reports_nothing() {
    let d = digest_of(&[("/r/a.txt", "11"), ("/r/b.txt", "22")]);
    let first = compare_with_snapshot(&d, &vec![]);
    assert_eq!(first.paths, vec!["/r/a.txt", "/r/b.txt"]);
    assert_eq!(first.report, vec!["\"/r/a.txt\"", "\"/r/b.txt\""]);
    let second = compare_with_snapshot(&d, &first.snapshot);
    assert!(second.paths.is_empty());
    assert!(second.report.is_empty());
    assert_eq!(second.snapshot, first.snapshot);
}
