//! One run, between the walk and the writing: compare this run's mapping
//! with the previous snapshot's lines and produce what is to be written.
use vstd::prelude::*;
use crate::snapshot::{FileDigest, Entries, keys_unique, texts, diff_report, compare_hash_maps};
use crate::store::{
    quoted, snapshot_text, parsed_entries, read_hashes_from_lines, snapshot_lines, report_lines,
    no_separator, no_edge_quotes, lemma_parsed_entries, law_snapshot_round_trip,
};
use crate::laws::law_unchanged_run_empty_report;

verus! {

/// The lines of a diff report for these paths.
pub open spec fn report_text(paths: Seq<Seq<char>>) -> Seq<Seq<char>> {
    paths.map_values(|p: Seq<char>| quoted(p))
}

/// What a run writes: the changed, added and removed paths, the report's
/// lines for them, and the new snapshot's lines.
pub struct RunOutput {
    pub paths: Vec<String>,
    pub report: Vec<String>,
    pub snapshot: Vec<String>,
}

/// Compares `current` with the snapshot whose lines are `previous_lines`.
/// The report lists what changed since that snapshot; the new snapshot is
/// `current`, whole.
pub fn compare_with_snapshot(current: &FileDigest, previous_lines: &Vec<String>) -> (r: RunOutput)
    requires
        current.wf(),
    ensures
        texts(r.paths@) == diff_report(current@, parsed_entries(texts(previous_lines@))),
        texts(r.report@) == report_text(texts(r.paths@)),
        texts(r.snapshot@) == snapshot_text(current@),
{
    let mut previous = read_hashes_from_lines(previous_lines);
    let paths = compare_hash_maps(current, &mut previous);
    let report = report_lines(&paths);
    assert(texts(report@) =~= report_text(texts(paths@)));
    let snapshot = snapshot_lines(current);
    RunOutput { paths, report, snapshot }
}

/// Two runs in a row with nothing changed on disk: the second run, whose
/// previous snapshot is what the first one wrote, reports nothing (for
/// paths without `": "` and without quotes at their ends).
pub proof fn law_second_run_reports_nothing(e: Entries)
    requires
        keys_unique(e),
        forall|i: int| 0 <= i < e.len() ==> no_separator(#[trigger] e[i].0) && no_edge_quotes(e[i].0) && no_edge_quotes(e[i].1),
    ensures
        diff_report(e, parsed_entries(snapshot_text(e))) == Seq::<Seq<char>>::empty(),
{
    lemma_parsed_entries(snapshot_text(e));
    law_snapshot_round_trip(e);
    law_unchanged_run_empty_report(e, parsed_entries(snapshot_text(e)));
}

} // verus!
