//! Exclusion rules, matched against whole path segments: a path ends with a
//! token when the token's segments are the last segments of the path.
use vstd::prelude::*;
use crate::text::{chars_of, same_chars, copy_text};

verus! {

/// The folder name that is excluded whatever the configuration says.
pub const ALWAYS_EXCLUDED_FOLDER: &'static str = "node_modules";

/// Adds a finished part to the segments found so far; empty parts (from
/// repeated or trailing separators) and `.` parts name no segment.
pub open spec fn close_part(done: Seq<Seq<char>>, part: Seq<char>) -> Seq<Seq<char>> {
    if part.len() == 0 || part == seq!['.'] {
        done
    } else {
        done.push(part)
    }
}

/// Reading `s` left to right: the segments closed so far and the open part.
pub open spec fn scan(s: Seq<char>) -> (Seq<Seq<char>>, Seq<char>)
    decreases s.len(),
{
    if s.len() == 0 {
        (seq![], seq![])
    } else {
        let (done, part) = scan(s.drop_last());
        if s.last() == '/' {
            (close_part(done, part), seq![])
        } else {
            (done, part.push(s.last()))
        }
    }
}

/// The segments of a `/`-separated path; an absolute path starts with the
/// root segment `/`.
pub open spec fn segments(s: Seq<char>) -> Seq<Seq<char>> {
    let body = close_part(scan(s).0, scan(s).1);
    if s.len() > 0 && s[0] == '/' {
        seq![seq!['/']] + body
    } else {
        body
    }
}

/// Whether the segments of `token` are the last segments of `path`.
pub open spec fn ends_with_segments(path: Seq<char>, token: Seq<char>) -> bool {
    let a = segments(path);
    let b = segments(token);
    b.len() <= a.len() && a.subrange(a.len() - b.len(), a.len() as int) == b
}

spec fn views(v: Seq<Vec<char>>) -> Seq<Seq<char>> {
    v.map_values(|x: Vec<char>| x@)
}

fn segments_of(s: &Vec<char>) -> (r: Vec<Vec<char>>)
    ensures
        views(r@) == segments(s@),
{
    let mut done: Vec<Vec<char>> = Vec::new();
    let mut part: Vec<char> = Vec::new();
    if s.len() > 0 && s[0] == '/' {
        let root_segment: Vec<char> = vec!['/'];
        assert(root_segment@ =~= seq!['/']);
        done.push(root_segment);
        assert(views(done@) =~= seq![seq!['/']]);
    } else {
        assert(views(done@) =~= seq![]);
    }
    let ghost root: Seq<Seq<char>> = views(done@);
    assert(s@.subrange(0, 0) =~= seq![]);
    assert(root + scan(seq![]).0 =~= root);
    let mut i: usize = 0;
    while i < s.len()
        invariant
            i <= s@.len(),
            root == (if s@.len() > 0 && s@[0] == '/' { seq![seq!['/']] } else { seq![] }),
            views(done@) == root + scan(s@.subrange(0, i as int)).0,
            part@ == scan(s@.subrange(0, i as int)).1,
        decreases s@.len() - i,
    {
        let c = s[i];
        assert(s@.subrange(0, i + 1).drop_last() =~= s@.subrange(0, i as int));
        if c == '/' {
            if part.len() == 0 || (part.len() == 1 && part[0] == '.') {
                assert(part@.len() == 0 || part@ =~= seq!['.']);
                part = Vec::new();
            } else {
                assert(part@ != seq!['.']);
                let ghost before = done@;
                let finished = part;
                done.push(finished);
                part = Vec::new();
                assert(views(done@) =~= views(before).push(finished@));
            }
        } else {
            part.push(c);
        }
        i = i + 1;
    }
    assert(s@.subrange(0, i as int) =~= s@);
    if part.len() == 0 || (part.len() == 1 && part[0] == '.') {
        assert(part@.len() == 0 || part@ =~= seq!['.']);
    } else {
        assert(part@ != seq!['.']);
        let ghost before = done@;
        done.push(part);
        assert(views(done@) =~= views(before).push(done@.last()@));
    }
    assert(views(done@) =~= segments(s@));
    done
}

/// Whether `path` ends with `token`, segment by segment: `/a/b/c` ends with
/// `b/c` and with `c`, but not with `/c`, and `/a/bc` does not end with `c`.
pub fn path_ends_with(path: &str, token: &str) -> (r: bool)
    ensures
        r == ends_with_segments(path@, token@),
{
    let pc = chars_of(path);
    let tc = chars_of(token);
    let a = segments_of(&pc);
    let b = segments_of(&tc);
    if b.len() > a.len() {
        return false;
    }
    let off = a.len() - b.len();
    let ghost tail = views(a@).subrange(off as int, a@.len() as int);
    let mut j: usize = 0;
    while j < b.len()
        invariant
            off + b@.len() == a@.len(),
            a@.len() <= usize::MAX,
            views(a@) == segments(path@),
            views(b@) == segments(token@),
            j <= b@.len(),
            tail == views(a@).subrange(off as int, a@.len() as int),
            forall|k: int| 0 <= k < j ==> tail[k] == views(b@)[k],
        decreases b@.len() - j,
    {
        let same = same_chars(&a[off + j], &b[j]);
        assert(tail[j as int] == a@[off + j]@);
        assert(views(b@)[j as int] == b@[j as int]@);
        if !same {
            assert(tail[j as int] != views(b@)[j as int]);
            assert(tail != views(b@));
            return false;
        }
        j = j + 1;
    }
    assert(tail =~= views(b@));
    true
}

/// The exclusion rules in force for a walk: folder tokens and file tokens.
pub struct ExclusionRules {
    pub folders: Vec<String>,
    pub files: Vec<String>,
}

/// Whether `path` ends with one of `tokens`.
pub open spec fn matches_any(path: Seq<char>, tokens: Seq<String>) -> bool {
    exists|i: int| 0 <= i < tokens.len() && ends_with_segments(path, #[trigger] tokens[i]@)
}

fn ends_with_any(path: &str, tokens: &Vec<String>) -> (r: bool)
    ensures
        r == matches_any(path@, tokens@),
{
    let mut i: usize = 0;
    while i < tokens.len()
        invariant
            i <= tokens@.len(),
            forall|k: int| 0 <= k < i ==> !ends_with_segments(path@, #[trigger] tokens@[k]@),
        decreases tokens@.len() - i,
    {
        if path_ends_with(path, tokens[i].as_str()) {
            return true;
        }
        i = i + 1;
    }
    false
}

impl ExclusionRules {
    /// Rules from the configured folder and file tokens; the always-excluded
    /// folder is added after the configured folders.
    pub fn new(folders: Vec<String>, files: Vec<String>) -> (r: ExclusionRules)
        ensures
            r.folders@.len() == folders@.len() + 1,
            forall|i: int| 0 <= i < folders@.len() ==> r.folders@[i] == folders@[i],
            r.folders@.last()@ == ALWAYS_EXCLUDED_FOLDER@,
            r.files@ == files@,
    {
        let mut folders = folders;
        folders.push(copy_text(ALWAYS_EXCLUDED_FOLDER));
        ExclusionRules { folders, files }
    }

    /// Whether a directory at `path` is skipped with everything under it.
    pub open spec fn folder_excluded(&self, path: Seq<char>) -> bool {
        matches_any(path, self.folders@)
    }

    /// Whether a file at `path` is skipped.
    pub open spec fn file_excluded(&self, path: Seq<char>) -> bool {
        matches_any(path, self.files@)
    }

    /// Whether the directory at `path` is excluded.
    pub fn excludes_folder(&self, path: &str) -> (r: bool)
        ensures
            r == self.folder_excluded(path@),
    {
        ends_with_any(path, &self.folders)
    }

    /// Whether the file at `path` is excluded.
    pub fn excludes_file(&self, path: &str) -> (r: bool)
        ensures
            r == self.file_excluded(path@),
    {
        ends_with_any(path, &self.files)
    }
}

} // verus!
