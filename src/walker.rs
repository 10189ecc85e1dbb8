//! The tree walker. A walk from one root decides which directories to list
//! and which files to read; whoever drives it does the listing and reading
//! and hands back what it found. Excluded folders are never listed and
//! excluded files are never read.
use vstd::prelude::*;
use crate::rules::ExclusionRules;
use crate::snapshot::{FileDigest, Entries, as_map, keys_unique, texts, has_key};
use crate::digest::{hash_content, content_digest};
use crate::text::copy_text;
use crate::store::lemma_as_map_push;

verus! {

/// What a walk asks for next.
pub enum WalkStep {
    /// List the directory at this path and hand its entries to `on_listing`.
    ListDir(String),
    /// Read the file at this path and hand its bytes to `on_content`.
    ReadFile(String),
    /// Nothing is left to visit.
    Finished,
}

/// One directory entry as listed: its path and whether it is a directory.
pub open spec fn listing_view(e: Seq<(String, bool)>) -> Seq<(Seq<char>, bool)> {
    e.map_values(|x: (String, bool)| (x.0@, x.1))
}

/// The directories of a listing that the rules let the walk descend into,
/// in listing order.
pub open spec fn dirs_to_visit(rules: ExclusionRules, e: Seq<(Seq<char>, bool)>) -> Seq<Seq<char>>
    decreases e.len(),
{
    if e.len() == 0 {
        seq![]
    } else {
        let rest = dirs_to_visit(rules, e.drop_last());
        if e.last().1 && !rules.folder_excluded(e.last().0) {
            rest.push(e.last().0)
        } else {
            rest
        }
    }
}

/// The files of a listing that the rules let the walk read, in listing order.
pub open spec fn files_to_read(rules: ExclusionRules, e: Seq<(Seq<char>, bool)>) -> Seq<Seq<char>>
    decreases e.len(),
{
    if e.len() == 0 {
        seq![]
    } else {
        let rest = files_to_read(rules, e.drop_last());
        if !e.last().1 && !rules.file_excluded(e.last().0) {
            rest.push(e.last().0)
        } else {
            rest
        }
    }
}

/// A walk from one root directory.
pub struct DirWalk {
    rules: ExclusionRules,
    root: String,
    pending_dirs: Vec<String>,
    pending_files: Vec<String>,
    awaiting: Option<String>,
    found: FileDigest,
}

impl DirWalk {
    /// The rules the walk applies.
    pub closed spec fn rules(&self) -> ExclusionRules {
        self.rules
    }

    /// The root the walk started from.
    pub closed spec fn root(&self) -> Seq<char> {
        self.root@
    }

    /// Directories still to be listed; the last is listed first.
    pub closed spec fn pending_dirs(&self) -> Seq<Seq<char>> {
        texts(self.pending_dirs@)
    }

    /// Files still to be read; the last is read first.
    pub closed spec fn pending_files(&self) -> Seq<Seq<char>> {
        texts(self.pending_files@)
    }

    /// The file whose content the walk waits for, if any.
    pub closed spec fn awaiting(&self) -> Option<Seq<char>> {
        match self.awaiting {
            Some(p) => Some(p@),
            None => None,
        }
    }

    /// The files hashed so far with their digests.
    pub closed spec fn found(&self) -> Entries {
        self.found@
    }

    /// The walk's invariant: its paths are unique, no excluded file was or
    /// will be read, and only the root or a directory that the rules admit
    /// is listed.
    pub open spec fn wf(&self) -> bool {
        &&& keys_unique(self.found())
        &&& forall|i: int| 0 <= i < self.found().len() ==> !self.rules().file_excluded(#[trigger] self.found()[i].0)
        &&& forall|i: int| 0 <= i < self.pending_files().len() ==> !self.rules().file_excluded(#[trigger] self.pending_files()[i])
        &&& (self.awaiting() matches Some(p) ==> !self.rules().file_excluded(p))
        &&& forall|i: int| 0 <= i < self.pending_dirs().len() ==> (#[trigger] self.pending_dirs()[i] == self.root()
                || !self.rules().folder_excluded(self.pending_dirs()[i]))
    }

    /// A walk that will first list `root`.
    pub fn new(root: String, rules: ExclusionRules) -> (r: DirWalk)
        ensures
            r.wf(),
            r.rules() == rules,
            r.root() == root@,
            r.pending_dirs() == seq![root@],
            r.pending_files() == Seq::<Seq<char>>::empty(),
            r.awaiting() is None,
            r.found() == Seq::<(Seq<char>, Seq<char>)>::empty(),
    {
        let first = copy_text(root.as_str());
        let r = DirWalk {
            rules,
            root,
            pending_dirs: vec![first],
            pending_files: Vec::new(),
            awaiting: None,
            found: FileDigest::new(),
        };
        assert(r.pending_dirs() =~= seq![r.root()]);
        assert(r.pending_files() =~= Seq::<Seq<char>>::empty());
        r
    }

    /// What to do next: read a pending file if there is one, else list a
    /// pending directory, else finish.
    pub fn next_step(&mut self) -> (r: WalkStep)
        requires
            old(self).wf(),
        ensures
            final(self).wf(),
            final(self).rules() == old(self).rules(),
            final(self).root() == old(self).root(),
            final(self).found() == old(self).found(),
            old(self).pending_files().len() > 0 ==> {
                &&& r is ReadFile
                &&& r->ReadFile_0@ == old(self).pending_files().last()
                &&& final(self).pending_files() == old(self).pending_files().drop_last()
                &&& final(self).pending_dirs() == old(self).pending_dirs()
                &&& final(self).awaiting() == Some(r->ReadFile_0@)
            },
            old(self).pending_files().len() == 0 && old(self).pending_dirs().len() > 0 ==> {
                &&& r is ListDir
                &&& r->ListDir_0@ == old(self).pending_dirs().last()
                &&& final(self).pending_dirs() == old(self).pending_dirs().drop_last()
                &&& final(self).pending_files() == old(self).pending_files()
                &&& final(self).awaiting() is None
            },
            old(self).pending_files().len() == 0 && old(self).pending_dirs().len() == 0 ==> {
                &&& r is Finished
                &&& final(self).awaiting() is None
                &&& final(self).pending_dirs() == old(self).pending_dirs()
                &&& final(self).pending_files() == old(self).pending_files()
            },
    {
        let ghost files_before = self.pending_files@;
        let ghost dirs_before = self.pending_dirs@;
        match self.pending_files.pop() {
            Some(p) => {
                assert(texts(self.pending_files@) =~= texts(files_before).drop_last());
                assert(files_before.last() == p);
                assert(texts(files_before)[files_before.len() - 1] == p@);
                let step = copy_text(p.as_str());
                self.awaiting = Some(p);
                WalkStep::ReadFile(step)
            },
            None => {
                self.awaiting = None;
                match self.pending_dirs.pop() {
                    Some(d) => {
                        assert(texts(self.pending_dirs@) =~= texts(dirs_before).drop_last());
                        assert(dirs_before.last() == d);
                        assert(texts(dirs_before)[dirs_before.len() - 1] == d@);
                        WalkStep::ListDir(d)
                    },
                    None => WalkStep::Finished,
                }
            },
        }
    }
    /// Takes the entries of a listed directory: the directories that the
    /// rules admit join the directories to list, the files that the rules
    /// admit join the files to read; everything else is skipped.
    pub fn on_listing(&mut self, entries: &Vec<(String, bool)>)
        requires
            old(self).wf(),
        ensures
            final(self).wf(),
            final(self).rules() == old(self).rules(),
            final(self).root() == old(self).root(),
            final(self).found() == old(self).found(),
            final(self).awaiting() == old(self).awaiting(),
            final(self).pending_dirs() == old(self).pending_dirs() + dirs_to_visit(old(self).rules(), listing_view(entries@)),
            final(self).pending_files() == old(self).pending_files() + files_to_read(old(self).rules(), listing_view(entries@)),
    {
        let ghost dirs0 = self.pending_dirs();
        let ghost files0 = self.pending_files();
        let ghost lv = listing_view(entries@);
        let mut i: usize = 0;
        while i < entries.len()
            invariant
                i <= entries@.len(),
                self.wf(),
                self.rules() == old(self).rules(),
                self.root() == old(self).root(),
                self.found() == old(self).found(),
                self.awaiting() == old(self).awaiting(),
                lv == listing_view(entries@),
                dirs0 == old(self).pending_dirs(),
                files0 == old(self).pending_files(),
                self.pending_dirs() == dirs0 + dirs_to_visit(self.rules(), lv.subrange(0, i as int)),
                self.pending_files() == files0 + files_to_read(self.rules(), lv.subrange(0, i as int)),
            decreases entries@.len() - i,
        {
            let path = entries[i].0.as_str();
            let is_dir = entries[i].1;
            assert(lv.subrange(0, i + 1).drop_last() =~= lv.subrange(0, i as int));
            assert(lv.subrange(0, i + 1).last() == (path@, is_dir));
            if is_dir {
                if !self.rules.excludes_folder(path) {
                    let ghost before = self.pending_dirs@;
                    let d = copy_text(path);
                    self.pending_dirs.push(d);
                    assert(texts(self.pending_dirs@) =~= texts(before).push(path@));
                }
            } else {
                if !self.rules.excludes_file(path) {
                    let ghost before = self.pending_files@;
                    let f = copy_text(path);
                    self.pending_files.push(f);
                    assert(texts(self.pending_files@) =~= texts(before).push(path@));
                }
            }
            i = i + 1;
        }
        assert(lv.subrange(0, i as int) =~= lv);
    }

    /// Takes the bytes of the file that the last step asked for and records
    /// its digest; without such a file nothing changes.
    pub fn on_content(&mut self, content: &[u8])
        requires
            old(self).wf(),
        ensures
            final(self).wf(),
            final(self).rules() == old(self).rules(),
            final(self).root() == old(self).root(),
            final(self).pending_dirs() == old(self).pending_dirs(),
            final(self).pending_files() == old(self).pending_files(),
            final(self).awaiting() is None,
            old(self).awaiting() matches Some(p) ==> as_map(final(self).found())
                == as_map(old(self).found()).insert(p, content_digest(content@)),
            old(self).awaiting() is None ==> final(self).found() == old(self).found(),
    {
        let ghost waiting = self.awaiting();
        match self.awaiting.take() {
            Some(p) => {
                let ghost pv = p@;
                assert(waiting == Some(pv));
                assert(!self.rules().file_excluded(pv));
                let ghost before = self.found@;
                let digest = hash_content(content);
                self.found.insert(p, digest);
                let ghost after = self.found@;
                assert forall|i: int| 0 <= i < after.len() implies !self.rules().file_excluded(#[trigger] after[i].0) by {
                    let k = after[i].0;
                    assert(as_map(after).dom().contains(k)) by {
                        assert(has_key(after, k));
                    }
                    if k != pv {
                        let j = choose|j: int| 0 <= j < before.len() && before[j].0 == k;
                        assert(before[j].0 == k);
                    }
                }
                assert(keys_unique(self.found()));
                assert(forall|i: int| 0 <= i < self.found().len() ==> !self.rules().file_excluded(#[trigger] self.found()[i].0));
                assert(self.awaiting() is None);
            },
            None => {},
        }
        assert(self.pending_files() == old(self).pending_files());
        assert(self.pending_dirs() == old(self).pending_dirs());
        assert(self.rules() == old(self).rules());
    }

    /// The mapping that the walk built.
    pub fn into_digests(self) -> (r: FileDigest)
        requires
            self.wf(),
        ensures
            r.wf(),
            r@ == self.found(),
    {
        self.found
    }
}

/// No file that the rules exclude is ever in a walk's mapping, nor waiting
/// to be read; no directory that the rules exclude, other than the root, is
/// ever waiting to be listed.
pub proof fn law_walk_respects_exclusions(w: &DirWalk, k: Seq<char>)
    requires
        w.wf(),
    ensures
        has_key(w.found(), k) ==> !w.rules().file_excluded(k),
        w.pending_files().contains(k) ==> !w.rules().file_excluded(k),
        w.awaiting() == Some(k) ==> !w.rules().file_excluded(k),
        w.pending_dirs().contains(k) && k != w.root() ==> !w.rules().folder_excluded(k),
{
    if has_key(w.found(), k) {
        let i = choose|i: int| 0 <= i < w.found().len() && w.found()[i].0 == k;
        assert(!w.rules().file_excluded(w.found()[i].0));
    }
    if w.pending_files().contains(k) {
        let i = choose|i: int| 0 <= i < w.pending_files().len() && w.pending_files()[i] == k;
        assert(!w.rules().file_excluded(w.pending_files()[i]));
    }
    if w.pending_dirs().contains(k) {
        let i = choose|i: int| 0 <= i < w.pending_dirs().len() && w.pending_dirs()[i] == k;
        assert(w.pending_dirs()[i] == w.root() || !w.rules().folder_excluded(w.pending_dirs()[i]));
    }
}


/// The mappings of several walks taken together in order: a path that more
/// than one of them has keeps the digest of the last.
pub open spec fn merged(maps: Seq<Entries>) -> Map<Seq<char>, Seq<char>>
    decreases maps.len(),
{
    if maps.len() == 0 {
        Map::empty()
    } else {
        merged(maps.drop_last()).union_prefer_right(as_map(maps.last()))
    }
}

/// The views of a list of mappings.
pub open spec fn digests_view(v: Seq<FileDigest>) -> Seq<Entries> {
    v.map_values(|d: FileDigest| d@)
}

/// One mapping for all roots, from the mapping of each root's walk.
pub fn hash_files_in_directories(per_root: &Vec<FileDigest>) -> (r: FileDigest)
    requires
        forall|i: int| 0 <= i < per_root@.len() ==> (#[trigger] per_root@[i]).wf(),
    ensures
        r.wf(),
        as_map(r@) == merged(digests_view(per_root@)),
{
    let ghost all = digests_view(per_root@);
    let mut r = FileDigest::new();
    assert(as_map(r@) =~= Map::empty());
    let mut i: usize = 0;
    while i < per_root.len()
        invariant
            i <= per_root@.len(),
            all == digests_view(per_root@),
            forall|k: int| 0 <= k < per_root@.len() ==> (#[trigger] per_root@[k]).wf(),
            r.wf(),
            as_map(r@) == merged(all.subrange(0, i as int)),
        decreases per_root@.len() - i,
    {
        let m = &per_root[i];
        let ghost e = m@;
        assert(m.wf());
        let ghost base = merged(all.subrange(0, i as int));
        assert(as_map(e.subrange(0, 0)) =~= Map::empty());
        assert(as_map(r@) =~= base.union_prefer_right(as_map(e.subrange(0, 0))));
        let mut j: usize = 0;
        while j < m.len()
            invariant
                j <= e.len(),
                e == m@,
                keys_unique(e),
                r.wf(),
                as_map(r@) == base.union_prefer_right(as_map(e.subrange(0, j as int))),
            decreases e.len() - j,
        {
            let (p, d) = m.entry(j);
            let ghost prefix = e.subrange(0, j + 1);
            assert(prefix.drop_last() =~= e.subrange(0, j as int));
            assert(prefix.last() == (p@, d@));
            assert(keys_unique(prefix));
            proof { lemma_as_map_push(prefix); }
            r.insert(copy_text(p.as_str()), copy_text(d.as_str()));
            assert(as_map(r@) =~= base.union_prefer_right(as_map(prefix)));
            j = j + 1;
        }
        assert(e.subrange(0, j as int) =~= e);
        assert(all.subrange(0, i + 1).drop_last() =~= all.subrange(0, i as int));
        assert(all.subrange(0, i + 1).last() == e);
        i = i + 1;
    }
    assert(all.subrange(0, i as int) =~= all);
    r
}

} // verus!
