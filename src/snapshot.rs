//! The path-to-digest mapping of one run, and the comparison of two runs.
use vstd::prelude::*;
use crate::text::{same_text, copy_text};

verus! {

/// The entries of a mapping, as (path, digest) pairs in iteration order.
pub type Entries = Seq<(Seq<char>, Seq<char>)>;

/// No path occurs twice.
pub open spec fn keys_unique(e: Entries) -> bool {
    forall|i: int, j: int| 0 <= i < e.len() && 0 <= j < e.len() && i != j ==> e[i].0 != e[j].0
}

/// Whether `k` is the path of some entry.
pub open spec fn has_key(e: Entries, k: Seq<char>) -> bool {
    exists|i: int| 0 <= i < e.len() && e[i].0 == k
}

/// The digest recorded for `k` (meaningful where `has_key(e, k)`).
pub open spec fn value_at(e: Entries, k: Seq<char>) -> Seq<char> {
    e[choose|i: int| 0 <= i < e.len() && e[i].0 == k].1
}

/// The entries as a finite map from path to digest.
pub open spec fn as_map(e: Entries) -> Map<Seq<char>, Seq<char>> {
    Map::new(|k: Seq<char>| has_key(e, k), |k: Seq<char>| value_at(e, k))
}

/// The paths of the entries, in order.
pub open spec fn keys_of(e: Entries) -> Seq<Seq<char>> {
    e.map_values(|p: (Seq<char>, Seq<char>)| p.0)
}

/// Whether `e` records digest `v` for `k`.
pub open spec fn same_digest(e: Entries, k: Seq<char>, v: Seq<char>) -> bool {
    has_key(e, k) && value_at(e, k) == v
}

/// Paths of `cur` whose digest is absent from `prev` or differs from it, in
/// the order of `cur`.
pub open spec fn changed_keys(cur: Entries, prev: Entries) -> Seq<Seq<char>>
    decreases cur.len(),
{
    if cur.len() == 0 {
        seq![]
    } else {
        let rest = changed_keys(cur.drop_last(), prev);
        if same_digest(prev, cur.last().0, cur.last().1) {
            rest
        } else {
            rest.push(cur.last().0)
        }
    }
}

/// The entries of `prev` whose path `cur` does not have, in the order of `prev`.
pub open spec fn remaining(prev: Entries, cur: Entries) -> Entries
    decreases prev.len(),
{
    if prev.len() == 0 {
        seq![]
    } else {
        let rest = remaining(prev.drop_last(), cur);
        if has_key(cur, prev.last().0) {
            rest
        } else {
            rest.push(prev.last())
        }
    }
}

/// The diff report: changed or added paths in the order of `cur`, then
/// removed paths in the order of `prev`.
pub open spec fn diff_report(cur: Entries, prev: Entries) -> Seq<Seq<char>> {
    changed_keys(cur, prev) + keys_of(remaining(prev, cur))
}

/// A mapping from file path to content digest; no path occurs twice.
pub struct FileDigest {
    entries: Vec<(String, String)>,
}

spec fn entries_view(v: Seq<(String, String)>) -> Entries {
    v.map_values(|p: (String, String)| (p.0@, p.1@))
}

impl View for FileDigest {
    type V = Entries;

    closed spec fn view(&self) -> Entries {
        entries_view(self.entries@)
    }
}

pub proof fn lemma_value_at(e: Entries, i: int)
    requires
        keys_unique(e),
        0 <= i < e.len(),
    ensures
        has_key(e, e[i].0),
        value_at(e, e[i].0) == e[i].1,
{
}

/// Index of the entry for `key`, if any.
fn find_index(entries: &Vec<(String, String)>, key: &str) -> (r: Option<usize>)
    ensures
        match r {
            Some(j) => j < entries@.len() && entries@[j as int].0@ == key@,
            None => !has_key(entries_view(entries@), key@),
        },
{
    let mut i: usize = 0;
    while i < entries.len()
        invariant
            i <= entries@.len(),
            forall|k: int| 0 <= k < i ==> entries@[k].0@ != key@,
        decreases entries@.len() - i,
    {
        if same_text(entries[i].0.as_str(), key) {
            return Some(i);
        }
        i = i + 1;
    }
    assert forall|k: int| 0 <= k < entries@.len() implies entries_view(entries@)[k].0 != key@ by {
        assert(entries_view(entries@)[k].0 == entries@[k].0@);
    }
    None
}

impl FileDigest {
    /// The mapping with no entry.
    pub fn new() -> (r: FileDigest)
        ensures
            r@ == Seq::<(Seq<char>, Seq<char>)>::empty(),
    {
        let r = FileDigest { entries: Vec::new() };
        assert(r@ =~= Seq::<(Seq<char>, Seq<char>)>::empty());
        r
    }

    /// Paths are unique.
    pub open spec fn wf(&self) -> bool {
        keys_unique(self@)
    }

    /// The number of entries.
    pub fn len(&self) -> (r: usize)
        ensures
            r == self@.len(),
    {
        self.entries.len()
    }

    /// The path and digest of entry `i`, in iteration order.
    pub fn entry(&self, i: usize) -> (r: (&String, &String))
        requires
            i < self@.len(),
        ensures
            r.0@ == self@[i as int].0,
            r.1@ == self@[i as int].1,
    {
        (&self.entries[i].0, &self.entries[i].1)
    }

    /// The digest recorded for `path`, if any.
    pub fn get(&self, path: &str) -> (r: Option<String>)
        requires
            self.wf(),
        ensures
            r.is_some() == has_key(self@, path@),
            r.is_some() ==> r.unwrap()@ == value_at(self@, path@),
    {
        match find_index(&self.entries, path) {
            Some(j) => {
                proof { lemma_value_at(self@, j as int); }
                Some(copy_text(self.entries[j].1.as_str()))
            },
            None => None,
        }
    }

    /// Records `digest` for `path`: a path already present keeps its place
    /// and takes the new digest; a new path goes last.
    pub fn insert(&mut self, path: String, digest: String)
        requires
            old(self).wf(),
        ensures
            final(self).wf(),
            final(self)@ == insert_entry(old(self)@, path@, digest@),
            as_map(final(self)@) == as_map(old(self)@).insert(path@, digest@),
    {
        let ghost before = self@;
        match find_index(&self.entries, path.as_str()) {
            Some(j) => {
                let ghost c = choose|i: int| 0 <= i < before.len() && before[i].0 == path@;
                assert(before[j as int].0 == path@);
                assert(c == j);
                self.entries.set(j, (path, digest));
                assert(self@ =~= before.update(j as int, (path@, digest@)));
            },
            None => {
                self.entries.push((path, digest));
                assert(self@ =~= before.push((path@, digest@)));
            },
        }
        proof { lemma_insert_entry(before, path@, digest@); }
    }
}

/// The entries after recording `v` for `k`: an entry for `k` keeps its place
/// and takes `v`; otherwise `(k, v)` goes last.
pub open spec fn insert_entry(e: Entries, k: Seq<char>, v: Seq<char>) -> Entries {
    if has_key(e, k) {
        e.update(choose|i: int| 0 <= i < e.len() && e[i].0 == k, (k, v))
    } else {
        e.push((k, v))
    }
}

/// Recording an entry keeps paths unique and records it in the map.
pub proof fn lemma_insert_entry(e: Entries, k: Seq<char>, v: Seq<char>)
    requires
        keys_unique(e),
    ensures
        keys_unique(insert_entry(e, k, v)),
        as_map(insert_entry(e, k, v)) == as_map(e).insert(k, v),
{
    let after = insert_entry(e, k, v);
    let pos: int = if has_key(e, k) { choose|i: int| 0 <= i < e.len() && e[i].0 == k } else { e.len() as int };
    assert(after[pos] == (k, v));
    if has_key(e, k) {
        assert forall|i: int| 0 <= i < e.len() implies after[i].0 == e[i].0 by {}
    } else {
        assert forall|i: int| 0 <= i < e.len() implies after[i] == e[i] && e[i].0 != k by {}
    }
    assert(keys_unique(after));
    assert forall|q: Seq<char>| #[trigger] as_map(after).dom().contains(q) <==> as_map(e).insert(k, v).dom().contains(q) by {
        if q == k {
            assert(after[pos].0 == q);
        }
        if has_key(e, q) {
            let i = choose|i: int| 0 <= i < e.len() && e[i].0 == q;
            if q != k {
                assert(after[i].0 == q);
            }
        }
        if has_key(after, q) {
            let i = choose|i: int| 0 <= i < after.len() && after[i].0 == q;
            if q != k {
                assert(e[i].0 == q);
            }
        }
    }
    assert forall|q: Seq<char>| #[trigger] as_map(after).dom().contains(q) implies as_map(after)[q] == as_map(e).insert(k, v)[q] by {
        let i = choose|i: int| 0 <= i < after.len() && after[i].0 == q;
        lemma_value_at(after, i);
        if q != k {
            assert(e[i].0 == q);
            lemma_value_at(e, i);
        } else {
            lemma_value_at(after, pos);
        }
    }
    assert(as_map(after) =~= as_map(e).insert(k, v));
}

/// The character sequences of a list of strings.
pub open spec fn texts(v: Seq<String>) -> Seq<Seq<char>> {
    v.map_values(|s: String| s@)
}

pub proof fn lemma_key_split(e: Entries, k: Seq<char>)
    requires
        keys_unique(e),
        e.len() > 0,
    ensures
        has_key(e, k) <==> (has_key(e.drop_last(), k) || e.last().0 == k),
        e.last().0 == k ==> !has_key(e.drop_last(), k) && value_at(e, k) == e.last().1,
        has_key(e.drop_last(), k) ==> value_at(e, k) == value_at(e.drop_last(), k),
        keys_unique(e.drop_last()),
{
    let init = e.drop_last();
    if has_key(e, k) {
        let i = choose|i: int| 0 <= i < e.len() && e[i].0 == k;
        if i < e.len() - 1 {
            assert(init[i].0 == k);
        }
    }
    if has_key(init, k) {
        let i = choose|i: int| 0 <= i < init.len() && init[i].0 == k;
        assert(e[i].0 == k);
        lemma_value_at(e, i);
        lemma_value_at(init, i);
    }
    if e.last().0 == k {
        lemma_value_at(e, e.len() - 1);
    }
}

pub proof fn lemma_remaining(p: Entries, c: Entries, k: Seq<char>)
    requires
        keys_unique(p),
    ensures
        keys_unique(remaining(p, c)),
        has_key(remaining(p, c), k) <==> (has_key(p, k) && !has_key(c, k)),
        has_key(remaining(p, c), k) ==> value_at(remaining(p, c), k) == value_at(p, k),
    decreases p.len(),
{
    if p.len() > 0 {
        let init = p.drop_last();
        let x = p.last();
        lemma_key_split(p, k);
        lemma_key_split(p, x.0);
        lemma_remaining(init, c, k);
        lemma_remaining(init, c, x.0);
        let rest = remaining(init, c);
        if !has_key(c, x.0) {
            let r = rest.push(x);
            assert(r.drop_last() =~= rest);
            assert(r.last() == x);
            assert forall|i: int, j: int| 0 <= i < r.len() && 0 <= j < r.len() && i != j implies r[i].0 != r[j].0 by {
                if i == r.len() - 1 && j < rest.len() {
                    assert(rest[j] == r[j]);
                    if rest[j].0 == x.0 { assert(has_key(rest, x.0)); }
                }
                if j == r.len() - 1 && i < rest.len() {
                    assert(rest[i] == r[i]);
                    if rest[i].0 == x.0 { assert(has_key(rest, x.0)); }
                }
                if i < rest.len() && j < rest.len() {
                    assert(rest[i] == r[i] && rest[j] == r[j]);
                }
            }
            lemma_key_split(r, k);
        }
    }
}

pub proof fn lemma_changed_keys(cur: Entries, prev: Entries, k: Seq<char>)
    requires
        keys_unique(cur),
    ensures
        changed_keys(cur, prev).contains(k) <==> (has_key(cur, k) && !same_digest(prev, k, value_at(cur, k))),
    decreases cur.len(),
{
    if cur.len() > 0 {
        let init = cur.drop_last();
        lemma_key_split(cur, k);
        lemma_changed_keys(init, prev, k);
        let rest = changed_keys(init, prev);
        if !same_digest(prev, cur.last().0, cur.last().1) {
            assert(rest.push(cur.last().0).contains(k) <==> (rest.contains(k) || cur.last().0 == k)) by {
                if rest.push(cur.last().0).contains(k) {
                    let i = choose|i: int| 0 <= i < rest.len() + 1 && rest.push(cur.last().0)[i] == k;
                    if i < rest.len() { assert(rest[i] == k); }
                }
                if rest.contains(k) {
                    let i = choose|i: int| 0 <= i < rest.len() && rest[i] == k;
                    assert(rest.push(cur.last().0)[i] == k);
                }
                if cur.last().0 == k {
                    assert(rest.push(cur.last().0)[rest.len() as int] == k);
                }
            }
        }
    }
}

/// Compares the mapping of this run (`map1`) with the previous one (`map2`).
/// Returns the paths whose digest changed or that are new, in the order of
/// `map1`, then the paths that `map1` no longer has, in the order of `map2`;
/// `map2` keeps exactly its entries whose path `map1` does not have.
pub fn compare_hash_maps(map1: &FileDigest, map2: &mut FileDigest) -> (r: Vec<String>)
    requires
        map1.wf(),
        old(map2).wf(),
    ensures
        texts(r@) == diff_report(map1@, old(map2)@),
        final(map2)@ == remaining(old(map2)@, map1@),
        final(map2).wf(),
{
    let ghost cur = map1@;
    let ghost prev = map2@;
    let mut out: Vec<String> = Vec::new();
    let mut i: usize = 0;
    while i < map1.entries.len()
        invariant
            cur == map1@,
            prev == map2@,
            keys_unique(prev),
            i <= cur.len(),
            texts(out@) == changed_keys(cur.subrange(0, i as int), prev),
        decreases cur.len() - i,
    {
        let key = map1.entries[i].0.as_str();
        let digest = map1.entries[i].1.as_str();
        assert(cur[i as int] == (key@, digest@));
        let same = match find_index(&map2.entries, key) {
            Some(j) => {
                proof { lemma_value_at(prev, j as int); }
                assert(prev[j as int].0 == key@);
                same_text(map2.entries[j].1.as_str(), digest)
            },
            None => false,
        };
        assert(same == same_digest(prev, key@, digest@));
        assert(cur.subrange(0, i + 1).drop_last() =~= cur.subrange(0, i as int));
        assert(cur.subrange(0, i + 1).last() == cur[i as int]);
        if !same {
            let ghost before = out@;
            out.push(copy_text(key));
            assert(texts(out@) =~= texts(before).push(key@));
        }
        i = i + 1;
    }
    assert(cur.subrange(0, i as int) =~= cur);
    let ghost changed = texts(out@);
    let mut kept: Vec<(String, String)> = Vec::new();
    let mut j: usize = 0;
    while j < map2.entries.len()
        invariant
            cur == map1@,
            prev == map2@,
            j <= prev.len(),
            changed == changed_keys(cur, prev),
            texts(out@) == changed + keys_of(remaining(prev.subrange(0, j as int), cur)),
            entries_view(kept@) == remaining(prev.subrange(0, j as int), cur),
        decreases prev.len() - j,
    {
        let key = map2.entries[j].0.as_str();
        let digest = map2.entries[j].1.as_str();
        assert(prev[j as int] == (key@, digest@));
        let found = find_index(&map1.entries, key);
        if let Some(x) = found {
            assert(cur[x as int].0 == key@);
        }
        assert(found.is_some() == has_key(cur, key@));
        assert(prev.subrange(0, j + 1).drop_last() =~= prev.subrange(0, j as int));
        assert(prev.subrange(0, j + 1).last() == prev[j as int]);
        if found.is_none() {
            let ghost out_before = out@;
            let ghost kept_before = kept@;
            out.push(copy_text(key));
            kept.push((copy_text(key), copy_text(digest)));
            assert(entries_view(kept@) =~= entries_view(kept_before).push((key@, digest@)));
            assert(keys_of(remaining(prev.subrange(0, j + 1), cur)) =~= keys_of(remaining(prev.subrange(0, j as int), cur)).push(key@));
            assert(texts(out@) =~= texts(out_before).push(key@));
        }
        j = j + 1;
    }
    assert(prev.subrange(0, j as int) =~= prev);
    map2.entries = kept;
    proof { lemma_remaining(prev, cur, seq![]); }
    out
}
} // verus!
