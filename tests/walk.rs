use rcd::digest::hash_content;
use rcd::pipeline::compare_with_snapshot;
use rcd::rules::ExclusionRules;
use rcd::snapshot::FileDigest;
use rcd::walker::{hash_files_in_directories, DirWalk, WalkStep};
use std::collections::BTreeMap;

/// An in-memory tree: directory path -> entries (path, is_dir); file path -> bytes.
struct Tree {
    dirs: BTreeMap<String, Vec<(String, bool)>>,
    files: BTreeMap<String, Vec<u8>>,
}

impl Tree {
    fn new() -> Tree {
        Tree { dirs: BTreeMap::new(), files: BTreeMap::new() }
    }
    fn dir(&mut self, path: &str) {
        self.dirs.entry(path.to_string()).or_default();
        if let Some(i) = path.rfind('/') {
            if i > 0 {
                let parent = &path[..i];
                self.dir(parent);
                let list = self.dirs.get_mut(parent).unwrap();
                if !list.iter().any(|(p, _)| p == path) {
                    list.push((path.to_string(), true));
                }
            }
        }
    }
    fn file(&mut self, path: &str, content: &str) {
        let i = path.rfind('/').unwrap();
        let parent = &path[..i];
        self.dir(parent);
        let list = self.dirs.get_mut(parent).unwrap();
        if !list.iter().any(|(p, _)| p == path) {
            list.push((path.to_string(), false));
        }
        self.files.insert(path.to_string(), content.as_bytes().to_vec());
    }
    fn remove_file(&mut self, path: &str) {
        self.files.remove(path);
        for list in self.dirs.values_mut() {
            list.retain(|(p, _)| p != path);
        }
    }
}

/// Drives one walk over the tree; also returns the directories listed.
fn walk(tree: &Tree, root: &str, rules: ExclusionRules) -> (FileDigest, Vec<String>) {
    let mut w = DirWalk::new(root.to_string(), rules);
    let mut listed = Vec::new();
    loop {
        match w.next_step() {
            WalkStep::ListDir(d) => {
                let entries = tree.dirs.get(&d).cloned().expect("listed directory exists");
                listed.push(d);
                w.on_listing(&entries);
            }
            WalkStep::ReadFile(f) => {
                let bytes = tree.files.get(&f).cloned().expect("read file exists");
                w.on_content(&bytes);
            }
            WalkStep::Finished => break,
        }
    }
    (w.into_digests(), listed)
}

fn default_rules() -> ExclusionRules {
    ExclusionRules::new(vec!["dist".to_string(), ".git".to_string()], vec![".gitignore".to_string()])
}

#[test]
fn walk_hashes_every_admitted_file() {
    let mut t = Tree::new();
    t.file("/a/f1.txt", "hello");
    t.file("/a/sub/f2.txt", "two");
    t.file("/a/.gitignore", "x");
    t.file("/a/dist/out.js", "built");
    t.file("/a/node_modules/dep/index.js", "dep");
    let (d, listed) = walk(&t, "/a", default_rules());
    assert_eq!(d.len(), 2);
    assert_eq!(d.get("/a/f1.txt"), Some(hash_content(b"hello")));
    assert_eq!(d.get("/a/sub/f2.txt"), Some(hash_content(b"two")));
    assert_eq!(d.get("/a/.gitignore"), None);
    assert_eq!(d.get("/a/dist/out.js"), None);
    assert_eq!(d.get("/a/node_modules/dep/index.js"), None);
    assert!(!listed.iter().any(|p| p.contains("node_modules") || p.contains("dist")));
}

#[test]
fn excluded_files_stay_out_whatever_their_content() {
    let mut t = Tree::new();
    t.file("/a/keep.txt", "k");
    t.file("/a/node_modules/f2.txt", "one");
    let (first, _) = walk(&t, "/a", default_rules());
    t.file("/a/node_modules/f2.txt", "changed");
    let (second, _) = walk(&t, "/a", default_rules());
    let out = compare_with_snapshot(&second, &compare_with_snapshot(&first, &vec![]).snapshot);
    assert!(out.paths.is_empty());
    assert_eq!(second.get("/a/node_modules/f2.txt"), None);
}

#[test]
fn root_itself_is_walked_even_if_its_name_is_excluded() {
    let mut t = Tree::new();
    t.file("/x/dist/a.txt", "a");
    let (d, _) = walk(&t, "/x/dist", default_rules());
    assert_eq!(d.get("/x/dist/a.txt"), Some(hash_content(b"a")));
}

#[test]
fn walk_of_empty_directory_is_empty() {
    let mut t = Tree::new();
    t.dir("/e");
    let (d, listed) = walk(&t, "/e", default_rules());
    assert_eq!(d.len(), 0);
    assert_eq!(listed, vec!["/e"]);
}

#[test]
fn merge_of_roots_keeps_last_digest() {
    let mut a = FileDigest::new();
    a.insert("/r/x".to_string(), "1".to_string());
    a.insert("/r/y".to_string(), "2".to_string());
    let mut b = FileDigest::new();
    b.insert("/r/y".to_string(), "3".to_string());
    b.insert("/s/z".to_string(), "4".to_string());
    let m = hash_files_in_directories(&vec![a, b]);
    assert_eq!(m.len(), 3);
    assert_eq!(m.get("/r/x"), Some("1".to_string()));
    assert_eq!(m.get("/r/y"), Some("3".to_string()));
    assert_eq!(m.get("/s/z"), Some("4".to_string()));
    assert_eq!(hash_files_in_directories(&vec![]).len(), 0);
}

#[test]
fn changed_deleted_and_new_files_between_runs() {
    let mut t = Tree::new();
    t.file("/a/keep.txt", "same");
    t.file("/a/edit.txt", "before");
    t.file("/a/gone.txt", "bye");
    let (first, _) = walk(&t, "/a", default_rules());
    let snap = compare_with_snapshot(&first, &vec![]).snapshot;
    t.file("/a/edit.txt", "after");
    t.remove_file("/a/gone.txt");
    t.file("/a/new.txt", "hi");
    let (second, _) = walk(&t, "/a", default_rules());
    let out = compare_with_snapshot(&second, &snap);
    let mut changed = out.paths.clone();
    let removed = changed.pop().unwrap();
    assert_eq!(removed, "/a/gone.txt");
    changed.sort();
    assert_eq!(changed, vec!["/a/edit.txt", "/a/new.txt"]);
    assert_eq!(second.get("/a/gone.txt"), None);
    assert_eq!(second.get("/a/new.txt"), Some(hash_content(b"hi")));
}

#[test]
fn four_runs_on_one_root() {
    let mut t = Tree::new();
    t.file("/a/f1.txt", "hello");
    t.file("/a/node_modules/f2.txt", "dep");
    let rules = || ExclusionRules::new(vec![], vec![]);

    let (cur, _) = walk(&t, "/a", rules());
    let run1 = compare_with_snapshot(&cur, &vec![]);
    assert_eq!(cur.len(), 1);
    assert_eq!(cur.get("/a/f1.txt"), Some(hash_content(b"hello")));
    assert_eq!(run1.paths, vec!["/a/f1.txt"]);
    assert_eq!(run1.snapshot.len(), 1);

    let (cur, _) = walk(&t, "/a", rules());
    let run2 = compare_with_snapshot(&cur, &run1.snapshot);
    assert!(run2.report.is_empty());

    t.file("/a/f1.txt", "world");
    let (cur, _) = walk(&t, "/a", rules());
    let run3 = compare_with_snapshot(&cur, &run2.snapshot);
    assert_eq!(run3.paths, vec!["/a/f1.txt"]);
    assert_eq!(run3.report, vec!["\"/a/f1.txt\""]);

    t.remove_file("/a/f1.txt");
    let (cur, _) = walk(&t, "/a", rules());
    let run4 = compare_with_snapshot(&cur, &run3.snapshot);
    assert_eq!(run4.paths, vec!["/a/f1.txt"]);
    assert!(run4.snapshot.is_empty());
}
