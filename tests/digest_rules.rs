use rcd::digest::{decimal_text, hash_content, DIGEST_SEED};
use rcd::rules::{path_ends_with, ExclusionRules, ALWAYS_EXCLUDED_FOLDER};
use std::hash::Hasher;

#[test]
fn decimal_text_of_zero_and_large_values() {
    assert_eq!(decimal_text(0), "0");
    assert_eq!(decimal_text(7), "7");
    assert_eq!(decimal_text(10), "10");
    assert_eq!(decimal_text(1234567890), "1234567890");
    assert_eq!(decimal_text(u64::MAX), "18446744073709551615");
}

#[test]
fn hash_content_is_deterministic() {
    let a = hash_content(b"hello");
    let b = hash_content(&b"hello".to_vec());
    assert_eq!(a, b);
    assert_ne!(hash_content(b"hello"), hash_content(b"world"));
}

#[test]
fn hash_content_is_gxhash_with_fixed_seed_in_decimal() {
    let mut h = gxhash::GxHasher::with_seed(DIGEST_SEED);
    h.write(b"hello");
    let expected = h.finish().to_string();
    assert_eq!(hash_content(b"hello"), expected);
    assert!(hash_content(b"hello").chars().all(|c| c.is_ascii_digit()));
}

#[test]
fn hash_of_empty_content_is_a_number() {
    let d = hash_content(b"");
    assert!(!d.is_empty());
    assert!(d.chars().all(|c| c.is_ascii_digit()));
}

#[test]
fn path_ends_with_matches_whole_segments() {
    assert!(path_ends_with("/a/node_modules", "node_modules"));
    assert!(path_ends_with("/a/b/c", "b/c"));
    assert!(path_ends_with("/a/b/c", "c"));
    assert!(path_ends_with("/a/b/c", "/a/b/c"));
    assert!(!path_ends_with("/a/node_modules_x", "node_modules"));
    assert!(!path_ends_with("/a/bc", "c"));
    assert!(!path_ends_with("/a/c", "/c"));
    assert!(!path_ends_with("c", "b/c"));
}

#[test]
fn path_ends_with_ignores_repeated_and_trailing_separators() {
    assert!(path_ends_with("a//b/", "b"));
    assert!(path_ends_with("/a/./b", "a/b"));
    assert!(path_ends_with("/a/b", ""));
}

#[test]
fn rules_always_exclude_node_modules() {
    let rules = ExclusionRules::new(vec!["dist".to_string()], vec![".DS_Store".to_string()]);
    assert_eq!(rules.folders, vec!["dist".to_string(), ALWAYS_EXCLUDED_FOLDER.to_string()]);
    assert!(rules.excludes_folder("/a/node_modules"));
    assert!(rules.excludes_folder("/a/dist"));
    assert!(!rules.excludes_folder("/a/src"));
    assert!(rules.excludes_file("/a/.DS_Store"));
    assert!(!rules.excludes_file("/a/x.DS_Store"));
    let empty = ExclusionRules::new(vec![], vec![]);
    assert!(empty.excludes_folder("node_modules"));
    assert!(!empty.excludes_file("/a/node_modules"));
}
