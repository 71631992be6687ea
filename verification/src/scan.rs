//! The per-file scan: grep's line-oriented searcher run over one mapping's
//! bytes with an early stop at the ceiling, and the parallel fan-out across
//! all cache entries.

use crate::cache::CacheEntry;
use crate::matcher::{matcher_case_sensitive, matcher_pattern};
use crate::text::{trim_end_spec, trim_line_end};
use rayon::iter::IntoParallelRefIterator;
use rayon::iter::ParallelIterator;
use vstd::prelude::*;

verus! {

/// The (line number, line) pairs that grep's line-oriented searcher reports,
/// in file order, when a matcher for `pattern` built under `case_sensitive`
/// runs over `bytes`. The report is a function of those three values alone.
pub uninterp spec fn grep_lines(
    pattern: Seq<char>,
    case_sensitive: bool,
    bytes: Seq<u8>,
) -> Seq<(u64, Seq<char>)>;

/// Line numbers in a per-file buffer are one-based and strictly ascending,
/// as grep's searcher reports them.
pub open spec fn hits_ascending(v: Seq<(u64, String)>) -> bool {
    &&& forall|i: int| 0 <= i < v.len() ==> (#[trigger] v[i]).0 >= 1
    &&& forall|i: int, j: int|
        #![trigger v[i], v[j]]
        0 <= i < j < v.len() ==> v[i].0 < v[j].0
}

/// The per-file search result: the first reported lines, at most `max` of
/// them, each trimmed of trailing whitespace.
pub open spec fn capped_hits(
    pattern: Seq<char>,
    case_sensitive: bool,
    bytes: Seq<u8>,
    max: int,
) -> Seq<(u64, Seq<char>)> {
    let g = grep_lines(pattern, case_sensitive, bytes);
    let n = if max <= g.len() {
        max
    } else {
        g.len() as int
    };
    g.take(n).map_values(|h: (u64, Seq<char>)| (h.0, trim_end_spec(h.1)))
}

/// The executable hits `v` carry exactly the model hits `h`.
pub open spec fn hits_match(v: Seq<(u64, String)>, h: Seq<(u64, Seq<char>)>) -> bool {
    v.len() == h.len() && forall|i: int|
        0 <= i < v.len() ==> (#[trigger] v[i]).0 == h[i].0 && v[i].1@ == h[i].1
}

/// Record one reported line: trim it and append it to the per-file buffer,
/// unless the buffer already holds `max` hits. The result says whether the
/// scan should go on.
pub fn record_hit(buf: &mut Vec<(u64, String)>, max: usize, line_no: u64, line: &str) -> (cont:
    bool)
    ensures
        old(buf)@.len() >= max ==> !cont && final(buf)@ == old(buf)@,
        old(buf)@.len() < max ==> cont
            && final(buf)@.len() == old(buf)@.len() + 1
            && final(buf)@.take(old(buf)@.len() as int) == old(buf)@
            && final(buf)@.last().0 == line_no
            && final(buf)@.last().1@ == trim_end_spec(line@),
{
    if buf.len() >= max {
        return false;
    }
    let t = trim_line_end(line);
    buf.push((line_no, t));
    assert(buf@.take(old(buf)@.len() as int) =~= old(buf)@);
    true
}

/// Relies on grep_searcher's `Searcher::search_slice` with the `Lossy` sink:
/// matching lines arrive in file order with one-based, strictly increasing
/// line numbers (the default searcher counts lines), and a line holding
/// invalid UTF-8 is delivered with replacement characters, so a scan of a
/// plain byte haystack runs to the end of the slice. The sink's closure only
/// calls `record_hit`, which trims each line and stops the scan once `max`
/// hits are buffered, so the buffer holds the first reported lines.
#[verifier::external_body]
pub(crate) fn scan_bytes(m: &grep_regex::RegexMatcher, data: &[u8], max: usize) -> (r: Vec<
    (u64, String),
>)
    ensures
        hits_match(
            r@,
            capped_hits(matcher_pattern(*m), matcher_case_sensitive(*m), data@, max as int),
        ),
        r@.len() <= grep_lines(matcher_pattern(*m), matcher_case_sensitive(*m), data@).len(),
        hits_ascending(r@),
{
    let mut buf: Vec<(u64, String)> = Vec::new();
    let mut searcher = grep_searcher::Searcher::new();
    let _ = searcher.search_slice(
        m,
        data,
        grep_searcher::sinks::Lossy(|n, line: &str| Ok(record_hit(&mut buf, max, n, line))),
    );
    buf
}

/// Scan one cache entry's mapping.
pub(crate) fn scan_entry(m: &grep_regex::RegexMatcher, e: &CacheEntry, max: usize) -> (r: Vec<
    (u64, String),
>)
    ensures
        hits_match(
            r@,
            capped_hits(matcher_pattern(*m), matcher_case_sensitive(*m), e.mapping@, max as int),
        ),
        hits_ascending(r@),
{
    scan_bytes(m, e.mapping.bytes(), max)
}

/// Relies on rayon's `par_iter`, `map` and `collect`: every entry is scanned
/// by `scan_entry` across a work-stealing pool, one result per entry, and
/// `collect` keeps index order.
#[verifier::external_body]
pub(crate) fn par_scan(m: &grep_regex::RegexMatcher, entries: &Vec<CacheEntry>, max: usize) -> (r:
    Vec<Vec<(u64, String)>>)
    ensures
        r@.len() == entries@.len() && forall|i: int|
            0 <= i < entries@.len() ==> hits_match(
                (#[trigger] r@[i])@,
                capped_hits(
                    matcher_pattern(*m),
                    matcher_case_sensitive(*m),
                    entries@[i].mapping@,
                    max as int,
                ),
            ) && hits_ascending((#[trigger] r@[i])@),
{
    entries.par_iter().map(|e| scan_entry(m, e, max)).collect()
}

} // verus!
