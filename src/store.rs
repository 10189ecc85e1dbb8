//! The text form of a snapshot and of a diff report: one line per entry,
//! `"<path>": "<digest>"` for a snapshot and `"<path>"` for a report.
use vstd::prelude::*;
use vstd::string::*;
use crate::snapshot::{FileDigest, Entries, as_map, keys_unique, texts, lemma_key_split, insert_entry, lemma_insert_entry};
use crate::text::copy_text;

verus! {

/// `s` between double quotes.
pub open spec fn quoted(s: Seq<char>) -> Seq<char> {
    seq!['"'] + s + seq!['"']
}

/// The snapshot line of one entry.
pub open spec fn snapshot_line(path: Seq<char>, digest: Seq<char>) -> Seq<char> {
    quoted(path) + seq![':', ' '] + quoted(digest)
}

/// The snapshot lines of a mapping, in its iteration order.
pub open spec fn snapshot_text(e: Entries) -> Seq<Seq<char>> {
    e.map_values(|x: (Seq<char>, Seq<char>)| snapshot_line(x.0, x.1))
}

/// Whether the separator `": "` starts at index `i` of `s`.
pub open spec fn is_sep_at(s: Seq<char>, i: int) -> bool {
    0 <= i && i + 1 < s.len() && s[i] == ':' && s[i + 1] == ' '
}

/// The first separator of `s` at or after `i`, or -1 where there is none.
pub open spec fn sep_from(s: Seq<char>, i: nat) -> int
    decreases s.len() - i,
{
    if i + 1 >= s.len() {
        -1
    } else if is_sep_at(s, i as int) {
        i as int
    } else {
        sep_from(s, i + 1)
    }
}

/// `s` without the double quotes at its start and at its end.
pub open spec fn trim_quotes(s: Seq<char>) -> Seq<char>
    decreases s.len(),
{
    if s.len() > 0 && s[0] == '"' {
        trim_quotes(s.drop_first())
    } else if s.len() > 0 && s.last() == '"' {
        trim_quotes(s.drop_last())
    } else {
        s
    }
}

/// The entry that a snapshot line holds: what stands before the first
/// `": "` and what follows it, each without surrounding quotes; a line with
/// no separator holds none.
pub open spec fn parse_line(s: Seq<char>) -> Option<(Seq<char>, Seq<char>)> {
    let i = sep_from(s, 0);
    if i < 0 {
        None
    } else {
        Some((trim_quotes(s.subrange(0, i)), trim_quotes(s.subrange(i + 2, s.len() as int))))
    }
}

/// The mapping that a snapshot's lines give, read in order; a later line
/// for a path replaces an earlier one.
pub open spec fn parsed(lines: Seq<Seq<char>>) -> Map<Seq<char>, Seq<char>>
    decreases lines.len(),
{
    if lines.len() == 0 {
        Map::empty()
    } else {
        match parse_line(lines.last()) {
            Some((p, d)) => parsed(lines.drop_last()).insert(p, d),
            None => parsed(lines.drop_last()),
        }
    }
}

/// The entries that a snapshot's lines give, read in order: an entry's
/// place is where its path first appeared, its digest the last one given.
pub open spec fn parsed_entries(lines: Seq<Seq<char>>) -> Entries
    decreases lines.len(),
{
    if lines.len() == 0 {
        seq![]
    } else {
        match parse_line(lines.last()) {
            Some((p, d)) => insert_entry(parsed_entries(lines.drop_last()), p, d),
            None => parsed_entries(lines.drop_last()),
        }
    }
}

/// The parsed entries have unique paths and make up the parsed mapping.
pub proof fn lemma_parsed_entries(lines: Seq<Seq<char>>)
    ensures
        keys_unique(parsed_entries(lines)),
        as_map(parsed_entries(lines)) == parsed(lines),
    decreases lines.len(),
{
    if lines.len() == 0 {
        assert(as_map(parsed_entries(lines)) =~= Map::empty());
    } else {
        lemma_parsed_entries(lines.drop_last());
        match parse_line(lines.last()) {
            Some((p, d)) => lemma_insert_entry(parsed_entries(lines.drop_last()), p, d),
            None => {},
        }
    }
}

fn quote_text(s: &str) -> (r: String)
    ensures
        r@ == quoted(s@),
{
    let mut r = String::new();
    proof { reveal_strlit("\""); }
    r.append("\"");
    r.append(s);
    r.append("\"");
    assert(r@ =~= quoted(s@));
    r
}

/// The snapshot line of `path` and `digest`.
pub fn format_snapshot_line(path: &str, digest: &str) -> (r: String)
    ensures
        r@ == snapshot_line(path@, digest@),
{
    let mut r = quote_text(path);
    proof { reveal_strlit(": "); }
    r.append(": ");
    let q = quote_text(digest);
    r.append(q.as_str());
    assert(r@ =~= snapshot_line(path@, digest@));
    r
}

/// The lines of the snapshot file for `results`, in its iteration order.
pub fn snapshot_lines(results: &FileDigest) -> (r: Vec<String>)
    ensures
        texts(r@) == snapshot_text(results@),
{
    let mut r: Vec<String> = Vec::new();
    let mut i: usize = 0;
    while i < results.len()
        invariant
            i <= results@.len(),
            texts(r@) == snapshot_text(results@.subrange(0, i as int)),
        decreases results@.len() - i,
    {
        let (p, d) = results.entry(i);
        let ghost before = r@;
        let line = format_snapshot_line(p.as_str(), d.as_str());
        let ghost lv = line@;
        r.push(line);
        assert(texts(r@) =~= texts(before).push(lv));
        assert(snapshot_text(results@.subrange(0, i + 1)) =~= snapshot_text(results@.subrange(0, i as int)).push(lv));
        i = i + 1;
    }
    assert(results@.subrange(0, i as int) =~= results@);
    r
}

/// The lines of the diff report: each path quoted, in the given order.
pub fn report_lines(paths: &Vec<String>) -> (r: Vec<String>)
    ensures
        texts(r@) == paths@.map_values(|p: String| quoted(p@)),
{
    let mut r: Vec<String> = Vec::new();
    let mut i: usize = 0;
    while i < paths.len()
        invariant
            i <= paths@.len(),
            texts(r@) == paths@.subrange(0, i as int).map_values(|p: String| quoted(p@)),
        decreases paths@.len() - i,
    {
        let ghost before = r@;
        let line = quote_text(paths[i].as_str());
        let ghost lv = line@;
        r.push(line);
        assert(texts(r@) =~= texts(before).push(lv));
        assert(paths@.subrange(0, i + 1).map_values(|p: String| quoted(p@)) =~= paths@.subrange(0, i as int).map_values(|p: String| quoted(p@)).push(lv));
        i = i + 1;
    }
    assert(paths@.subrange(0, i as int) =~= paths@);
    r
}

/// `s` without its surrounding double quotes.
pub fn trim_quote_chars(s: &str) -> (r: String)
    ensures
        r@ == trim_quotes(s@),
{
    let n = s.unicode_len();
    let mut a: usize = 0;
    let mut b: usize = n;
    assert(s@.subrange(0, n as int) =~= s@);
    while a < b && s.get_char(a) == '"'
        invariant
            n == s@.len(),
            a <= b,
            b == n,
            trim_quotes(s@) == trim_quotes(s@.subrange(a as int, b as int)),
        decreases b - a,
    {
        assert(s@.subrange(a as int, b as int).drop_first() =~= s@.subrange(a + 1, b as int));
        a = a + 1;
    }
    while b > a && s.get_char(b - 1) == '"'
        invariant
            n == s@.len(),
            a <= b <= n,
            a == b || s@[a as int] != '"',
            trim_quotes(s@) == trim_quotes(s@.subrange(a as int, b as int)),
        decreases b - a,
    {
        assert(s@.subrange(a as int, b as int).drop_last() =~= s@.subrange(a as int, b - 1));
        b = b - 1;
    }
    let t = s.substring_char(a, b);
    copy_text(t)
}

/// The entry of one snapshot line, or `None` for a line without `": "`.
pub fn parse_snapshot_line(line: &str) -> (r: Option<(String, String)>)
    ensures
        match r {
            Some((p, d)) => parse_line(line@) == Some((p@, d@)),
            None => parse_line(line@).is_none(),
        },
{
    let n = line.unicode_len();
    let mut i: usize = 0;
    while i < n && i + 1 < n
        invariant
            n == line@.len(),
            i <= n,
            sep_from(line@, 0) == sep_from(line@, i as nat),
        decreases n - i,
    {
        if line.get_char(i) == ':' && line.get_char(i + 1) == ' ' {
            let p = trim_quote_chars(line.substring_char(0, i));
            let d = trim_quote_chars(line.substring_char(i + 2, n));
            return Some((p, d));
        }
        i = i + 1;
    }
    None
}

/// The mapping held by the lines of a snapshot file; lines without a
/// separator are skipped.
pub fn read_hashes_from_lines(lines: &Vec<String>) -> (r: FileDigest)
    ensures
        r.wf(),
        r@ == parsed_entries(texts(lines@)),
        as_map(r@) == parsed(texts(lines@)),
{
    let mut r = FileDigest::new();
    assert(as_map(r@) =~= Map::empty());
    assert(texts(lines@.subrange(0, 0)) =~= seq![]);
    let mut i: usize = 0;
    while i < lines.len()
        invariant
            i <= lines@.len(),
            r.wf(),
            r@ == parsed_entries(texts(lines@.subrange(0, i as int))),
            as_map(r@) == parsed(texts(lines@.subrange(0, i as int))),
        decreases lines@.len() - i,
    {
        assert(texts(lines@.subrange(0, i + 1)).drop_last() =~= texts(lines@.subrange(0, i as int)));
        assert(texts(lines@.subrange(0, i + 1)).last() == lines@[i as int]@);
        match parse_snapshot_line(lines[i].as_str()) {
            Some((p, d)) => {
                r.insert(p, d);
            },
            None => {},
        }
        i = i + 1;
    }
    assert(lines@.subrange(0, i as int) =~= lines@);
    r
}


/// A path or digest that a snapshot line carries unchanged at its ends: it
/// neither starts nor ends with a double quote.
pub open spec fn no_edge_quotes(s: Seq<char>) -> bool {
    s.len() == 0 || (s[0] != '"' && s.last() != '"')
}

/// `s` holds no `": "` separator.
pub open spec fn no_separator(s: Seq<char>) -> bool {
    forall|j: int| !is_sep_at(s, j)
}

proof fn lemma_trim_quoted(p: Seq<char>)
    requires
        no_edge_quotes(p),
    ensures
        trim_quotes(quoted(p)) == p,
{
    let q = quoted(p);
    assert(q.drop_first() =~= p.push('"'));
    let r = p.push('"');
    assert(q[0] == '"');
    assert(trim_quotes(q) == trim_quotes(r));
    if p.len() == 0 {
        assert(r.drop_first() =~= p);
        assert(trim_quotes(r) == trim_quotes(p));
        assert(trim_quotes(p) == p);
    } else {
        assert(r[0] == p[0]);
        assert(r.last() == '"');
        assert(r.drop_last() =~= p);
        assert(trim_quotes(r) == trim_quotes(p));
        assert(trim_quotes(p) == p);
    }
}

proof fn lemma_sep_in_line(p: Seq<char>, d: Seq<char>, j: nat)
    requires
        no_separator(p),
        j <= p.len() + 2,
    ensures
        sep_from(snapshot_line(p, d), j) == p.len() + 2,
    decreases p.len() + 2 - j,
{
    let l = snapshot_line(p, d);
    let m: int = p.len() as int;
    let k: int = j as int;
    assert(l.len() == m + d.len() + 6);
    assert(l[m + 2] == ':' && l[m + 3] == ' ');
    if k < m + 2 {
        if 1 <= k && k + 1 <= m {
            assert(l[k] == p[k - 1] && l[k + 1] == p[k]);
            assert(!is_sep_at(p, k - 1));
        } else if k == m && k >= 1 {
            assert(l[k + 1] == '"');
        } else if k == 0 {
            assert(l[0] == '"');
        } else {
            assert(l[m + 1] == '"');
        }
        lemma_sep_in_line(p, d, j + 1);
    }
}

proof fn lemma_parse_snapshot_line(p: Seq<char>, d: Seq<char>)
    requires
        no_separator(p),
        no_edge_quotes(p),
        no_edge_quotes(d),
    ensures
        parse_line(snapshot_line(p, d)) == Some((p, d)),
{
    let l = snapshot_line(p, d);
    lemma_sep_in_line(p, d, 0);
    let i: int = p.len() as int + 2;
    assert(l.subrange(0, i) =~= quoted(p));
    assert(l.subrange(i + 2, l.len() as int) =~= quoted(d));
    lemma_trim_quoted(p);
    lemma_trim_quoted(d);
}

pub proof fn lemma_as_map_push(e: Entries)
    requires
        keys_unique(e),
        e.len() > 0,
    ensures
        as_map(e) == as_map(e.drop_last()).insert(e.last().0, e.last().1),
{
    let init = e.drop_last();
    assert forall|k: Seq<char>| #[trigger] as_map(e).dom().contains(k) <==> as_map(init).insert(e.last().0, e.last().1).dom().contains(k) by {
        lemma_key_split(e, k);
    }
    assert forall|k: Seq<char>| #[trigger] as_map(e).dom().contains(k) implies as_map(e)[k] == as_map(init).insert(e.last().0, e.last().1)[k] by {
        lemma_key_split(e, k);
    }
    assert(as_map(e) =~= as_map(init).insert(e.last().0, e.last().1));
}

/// Reading back the lines written for a mapping gives the same mapping,
/// when no path holds `": "` and no path or digest starts or ends with a
/// double quote.
pub proof fn law_snapshot_round_trip(e: Entries)
    requires
        keys_unique(e),
        forall|i: int| 0 <= i < e.len() ==> no_separator(#[trigger] e[i].0) && no_edge_quotes(e[i].0) && no_edge_quotes(e[i].1),
    ensures
        parsed(snapshot_text(e)) == as_map(e),
    decreases e.len(),
{
    if e.len() == 0 {
        assert(as_map(e) =~= Map::empty());
    } else {
        let init = e.drop_last();
        lemma_key_split(e, e.last().0);
        assert forall|i: int| 0 <= i < init.len() implies no_separator(#[trigger] init[i].0) && no_edge_quotes(init[i].0) && no_edge_quotes(init[i].1) by {
            assert(init[i] == e[i]);
        }
        law_snapshot_round_trip(init);
        assert(snapshot_text(e).drop_last() =~= snapshot_text(init));
        assert(e[e.len() - 1] == e.last());
        lemma_parse_snapshot_line(e.last().0, e.last().1);
        lemma_as_map_push(e);
    }
}
} // verus!
