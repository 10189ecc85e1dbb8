//! What holds of the diff report between two runs.
use vstd::prelude::*;
use crate::snapshot::{Entries, keys_unique, has_key, value_at, as_map, keys_of, same_digest, changed_keys, remaining, diff_report, lemma_changed_keys, lemma_remaining};

verus! {

proof fn lemma_keys_of_contains(e: Entries, k: Seq<char>)
    ensures
        keys_of(e).contains(k) <==> has_key(e, k),
{
    if keys_of(e).contains(k) {
        let i = choose|i: int| 0 <= i < keys_of(e).len() && keys_of(e)[i] == k;
        assert(e[i].0 == k);
    }
    if has_key(e, k) {
        let i = choose|i: int| 0 <= i < e.len() && e[i].0 == k;
        assert(keys_of(e)[i] == k);
    }
}

/// A path is in the report exactly when this run has it with a digest that
/// the previous run did not record for it, or the previous run had it and
/// this run does not.
pub proof fn lemma_report_membership(cur: Entries, prev: Entries, k: Seq<char>)
    requires
        keys_unique(cur),
        keys_unique(prev),
    ensures
        diff_report(cur, prev).contains(k) <==> (
            (has_key(cur, k) && !same_digest(prev, k, value_at(cur, k)))
            || (has_key(prev, k) && !has_key(cur, k))),
{
    let a = changed_keys(cur, prev);
    let b = keys_of(remaining(prev, cur));
    lemma_changed_keys(cur, prev, k);
    lemma_remaining(prev, cur, k);
    lemma_keys_of_contains(remaining(prev, cur), k);
    let r = a + b;
    if r.contains(k) {
        let i = choose|i: int| 0 <= i < r.len() && r[i] == k;
        if i < a.len() { assert(a[i] == k); } else { assert(b[i - a.len()] == k); }
    }
    if a.contains(k) {
        let i = choose|i: int| 0 <= i < a.len() && a[i] == k;
        assert(r[i] == k);
    }
    if b.contains(k) {
        let i = choose|i: int| 0 <= i < b.len() && b[i] == k;
        assert(r[i + a.len()] == k);
    }
}

/// A file present in both runs whose digest changed is in the report.
pub proof fn law_changed_file_reported(cur: Entries, prev: Entries, k: Seq<char>)
    requires
        keys_unique(cur),
        keys_unique(prev),
        has_key(cur, k),
        has_key(prev, k),
        value_at(cur, k) != value_at(prev, k),
    ensures
        diff_report(cur, prev).contains(k),
{
    lemma_report_membership(cur, prev, k);
}

/// A file that the previous run had and this run does not is in the report,
/// and the new snapshot, which is this run's mapping, lacks it.
pub proof fn law_deleted_file_reported(cur: Entries, prev: Entries, k: Seq<char>)
    requires
        keys_unique(cur),
        keys_unique(prev),
        has_key(prev, k),
        !has_key(cur, k),
    ensures
        diff_report(cur, prev).contains(k),
        !as_map(cur).dom().contains(k),
{
    lemma_report_membership(cur, prev, k);
}

/// A file that this run has and the previous run did not is in the report,
/// and the new snapshot holds it with this run's digest.
pub proof fn law_new_file_reported(cur: Entries, prev: Entries, k: Seq<char>)
    requires
        keys_unique(cur),
        keys_unique(prev),
        has_key(cur, k),
        !has_key(prev, k),
    ensures
        diff_report(cur, prev).contains(k),
        as_map(cur).dom().contains(k),
        as_map(cur)[k] == value_at(cur, k),
{
    lemma_report_membership(cur, prev, k);
}

/// Two runs that see the same mapping (in any order) give an empty report.
pub proof fn law_unchanged_run_empty_report(cur: Entries, prev: Entries)
    requires
        keys_unique(cur),
        keys_unique(prev),
        as_map(cur) == as_map(prev),
    ensures
        diff_report(cur, prev) == Seq::<Seq<char>>::empty(),
{
    let r = diff_report(cur, prev);
    if r.len() > 0 {
        let k = r[0];
        assert(r.contains(k));
        lemma_report_membership(cur, prev, k);
        assert(as_map(cur).dom().contains(k) == has_key(cur, k));
        assert(as_map(prev).dom().contains(k) == has_key(prev, k));
        if has_key(cur, k) {
            assert(as_map(cur)[k] == value_at(cur, k));
            assert(as_map(prev)[k] == value_at(prev, k));
        }
    }
    assert(r =~= Seq::<Seq<char>>::empty());
}

} // verus!
