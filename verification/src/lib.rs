//! An in-memory, read-only knowledge base over (path, text) documents,
//! offering three operations: pattern search (`grep`), numbered range reads
//! (`read`), and virtual directory listings (`ls`).

pub mod document;
pub mod error;
pub mod index;
pub mod store;
pub mod text;
pub mod tokenizer;

use vstd::prelude::*;
use vstd::string::StrSliceExecFns;
use vstd::string::StringExecFns;
use vstd::string::StringSliceAdditionalSpecFns;

use crate::document::Document;
use crate::index::views_of;
use crate::store::DocumentStore;
use crate::text::contains_sub;
use crate::text::is_alphanum;
use crate::text::lower_of;
use crate::text::str_contains;
use crate::text::strs_sorted;

verus! {

pub use crate::error::MemexError;

// ---------------------------------------------------------------------------
// Trusted items: the regex engine and the glob filter.
// ---------------------------------------------------------------------------

/// Whether `pat` compiles as a case-insensitive regular expression, as
/// `regex::RegexBuilder::build` decides it.
pub uninterp spec fn regex_build_ok(pat: Seq<char>) -> bool;

/// Whether the case-insensitive regular expression `pat` matches somewhere in
/// `line`, as `regex::Regex::is_match` decides it. The result depends on the
/// pattern and the line alone.
pub uninterp spec fn regex_match(pat: Seq<char>, line: Seq<char>) -> bool;

/// Relies on `regex::RegexBuilder::{new, case_insensitive, build}`: reports
/// whether the pattern compiles; on failure the error's display text comes
/// back for the user-facing message.
#[verifier::external_body]
fn regex_compile_check(pat: &str) -> (r: Result<(), String>)
    ensures
        r is Ok <==> regex_build_ok(pat@),
{
    match regex::RegexBuilder::new(pat).case_insensitive(true).build() {
        Ok(_) => Ok(()),
        Err(e) => Err(format!("{}", e)),
    }
}

/// Relies on `regex::RegexBuilder::{new, case_insensitive, build}` and
/// `regex::Regex::is_match`: whether the case-insensitively compiled pattern
/// matches the line; the regex engine is deterministic in both arguments.
#[verifier::external_body]
fn regex_line_match(pat: &str, line: &str) -> (r: bool)
    requires
        regex_build_ok(pat@),
    ensures
        r == regex_match(pat@, line@),
{
    regex::RegexBuilder::new(pat).case_insensitive(true).build().unwrap().is_match(line)
}

/// The glob filter's verdict, as `glob_match::glob_match` computes it.
pub uninterp spec fn glob_matches(glob: Seq<char>, path: Seq<char>) -> bool;

/// Relies on `glob_match::glob_match`: the shell-style wildcard test, a pure
/// function of the two strings (a malformed glob simply matches no path).
pub assume_specification[ glob_match::glob_match ](glob: &str, path: &str) -> (r: bool)
    ensures
        r == glob_matches(glob@, path@),
;

// ---------------------------------------------------------------------------
// The query model.
// ---------------------------------------------------------------------------

/// A single grep match.
#[derive(Debug)]
pub struct GrepResult {
    pub path: String,
    pub line: u32,
    pub content: String,
}

/// The mathematical value of one match.
pub open spec fn result_view(r: GrepResult) -> (Seq<char>, u32, Seq<char>) {
    (r.path@, r.line, r.content@)
}

/// The mathematical values of a match list.
pub open spec fn results_view(rs: Seq<GrepResult>) -> Seq<(Seq<char>, u32, Seq<char>)> {
    rs.map_values(|r: GrepResult| result_view(r))
}

/// The optional glob filter's view.
pub open spec fn glob_view(glob: Option<&str>) -> Option<Seq<char>> {
    match glob {
        Some(g) => Some(g@),
        None => None,
    }
}

/// Whether `path` passes the optional glob filter.
pub open spec fn glob_ok(glob: Option<Seq<char>>, path: Seq<char>) -> bool {
    match glob {
        Some(g) => glob_matches(g, path),
        None => true,
    }
}

/// Whether a raw line answers the query: by case-insensitive regex match on
/// the raw text, or by substring containment of the (already case-folded)
/// pattern in the case-folded line.
pub open spec fn line_hits(is_regex: bool, pat: Seq<char>, raw: Seq<char>) -> bool {
    if is_regex {
        regex_match(pat, raw)
    } else {
        contains_sub(lower_of(raw), pat)
    }
}

/// The matches of the first `n` lines of one document, in line order.
pub open spec fn doc_matches_upto(
    path: Seq<char>,
    lines: Seq<Seq<char>>,
    is_regex: bool,
    pat: Seq<char>,
    n: int,
) -> Seq<(Seq<char>, u32, Seq<char>)>
    decreases n,
{
    if n <= 0 {
        Seq::empty()
    } else {
        doc_matches_upto(path, lines, is_regex, pat, n - 1) + if line_hits(
            is_regex,
            pat,
            lines[n - 1],
        ) {
            seq![(path, n as u32, lines[n - 1])]
        } else {
            Seq::empty()
        }
    }
}

/// The matches of one whole document.
pub open spec fn doc_matches(
    path: Seq<char>,
    lines: Seq<Seq<char>>,
    is_regex: bool,
    pat: Seq<char>,
) -> Seq<(Seq<char>, u32, Seq<char>)> {
    doc_matches_upto(path, lines, is_regex, pat, lines.len() as int)
}

/// The matches of the first `n` documents that pass the glob filter, in
/// (path, line) order when the documents are path-sorted.
pub open spec fn store_matches_upto(
    docs: Seq<Document>,
    glob: Option<Seq<char>>,
    is_regex: bool,
    pat: Seq<char>,
    n: int,
) -> Seq<(Seq<char>, u32, Seq<char>)>
    decreases n,
{
    if n <= 0 {
        Seq::empty()
    } else {
        store_matches_upto(docs, glob, is_regex, pat, n - 1) + if glob_ok(
            glob,
            docs[n - 1].path@,
        ) {
            doc_matches(docs[n - 1].path@, views_of(docs[n - 1].lines@), is_regex, pat)
        } else {
            Seq::empty()
        }
    }
}

/// Every match of the query over the whole store, in (path, line) order.
pub open spec fn store_matches(
    docs: Seq<Document>,
    glob: Option<Seq<char>>,
    is_regex: bool,
    pat: Seq<char>,
) -> Seq<(Seq<char>, u32, Seq<char>)> {
    store_matches_upto(docs, glob, is_regex, pat, docs.len() as int)
}

/// The result cap: scanning stops after 100 matches.
pub open spec fn capped<T>(s: Seq<T>) -> Seq<T> {
    if s.len() > 100 {
        s.take(100)
    } else {
        s
    }
}

/// A capped sequence never changes once a 100-element prefix is fixed.
proof fn lemma_cap_prefix<T>(a: Seq<T>, b: Seq<T>)
    requires
        a.is_prefix_of(b),
        a.len() >= 100,
    ensures
        capped(b) == capped(a),
{
    assert(capped(b) =~= capped(a)) by {
        assert(forall|k: int| 0 <= k < 100 ==> b[k] == a.subrange(0, a.len() as int)[k]);
    }
}

/// Longer prefixes of the match list extend shorter ones.
proof fn lemma_doc_matches_prefix(
    path: Seq<char>,
    lines: Seq<Seq<char>>,
    is_regex: bool,
    pat: Seq<char>,
    i: int,
    j: int,
)
    requires
        0 <= i <= j,
    ensures
        doc_matches_upto(path, lines, is_regex, pat, i).is_prefix_of(
            doc_matches_upto(path, lines, is_regex, pat, j),
        ),
    decreases j - i,
{
    if i == j {
        assert(doc_matches_upto(path, lines, is_regex, pat, i).is_prefix_of(
            doc_matches_upto(path, lines, is_regex, pat, i),
        )) by {
            let a = doc_matches_upto(path, lines, is_regex, pat, i);
            assert(a =~= a.subrange(0, a.len() as int));
        }
    } else {
        lemma_doc_matches_prefix(path, lines, is_regex, pat, i, j - 1);
        let a = doc_matches_upto(path, lines, is_regex, pat, i);
        let b = doc_matches_upto(path, lines, is_regex, pat, j - 1);
        let c = doc_matches_upto(path, lines, is_regex, pat, j);
        assert(a =~= c.subrange(0, a.len() as int)) by {
            assert(forall|k: int| 0 <= k < a.len() ==> a[k] == b[k]);
        }
    }
}

/// Longer prefixes of the store-wide match list extend shorter ones.
proof fn lemma_store_matches_prefix(
    docs: Seq<Document>,
    glob: Option<Seq<char>>,
    is_regex: bool,
    pat: Seq<char>,
    i: int,
    j: int,
)
    requires
        0 <= i <= j,
    ensures
        store_matches_upto(docs, glob, is_regex, pat, i).is_prefix_of(
            store_matches_upto(docs, glob, is_regex, pat, j),
        ),
    decreases j - i,
{
    if i == j {
        let a = store_matches_upto(docs, glob, is_regex, pat, i);
        assert(a =~= a.subrange(0, a.len() as int));
    } else {
        lemma_store_matches_prefix(docs, glob, is_regex, pat, i, j - 1);
        let a = store_matches_upto(docs, glob, is_regex, pat, i);
        let b = store_matches_upto(docs, glob, is_regex, pat, j - 1);
        let c = store_matches_upto(docs, glob, is_regex, pat, j);
        assert(a =~= c.subrange(0, a.len() as int)) by {
            assert(forall|k: int| 0 <= k < a.len() ==> a[k] == b[k]);
        }
    }
}

// ---------------------------------------------------------------------------
// Relating the index strategy to the scan strategy.
// ---------------------------------------------------------------------------

/// The (path, line) pair of one match.
pub open spec fn tpair(x: (Seq<char>, u32, Seq<char>)) -> (Seq<char>, u32) {
    (x.0, x.1)
}

/// The (path, line) pairs of a match list.
pub open spec fn tpairs(s: Seq<(Seq<char>, u32, Seq<char>)>) -> Seq<(Seq<char>, u32)> {
    s.map_values(|x: (Seq<char>, u32, Seq<char>)| tpair(x))
}

/// The content the store holds at a location.
pub open spec fn content_at(docs: Seq<Document>, q: (Seq<char>, u32)) -> Seq<char> {
    views_of(crate::store::doc_of(docs, q.0).lines@)[q.1 - 1]
}

/// The matches obtained by walking a location list in order, keeping the
/// locations that pass the glob filter and attaching each line's content.
spec fn attach_upto(
    docs: Seq<Document>,
    locs: Seq<(Seq<char>, u32)>,
    glob: Option<Seq<char>>,
    k: int,
) -> Seq<(Seq<char>, u32, Seq<char>)>
    decreases k,
{
    if k <= 0 {
        Seq::empty()
    } else {
        attach_upto(docs, locs, glob, k - 1) + if glob_ok(glob, locs[k - 1].0) {
            seq![(locs[k - 1].0, locs[k - 1].1, content_at(docs, locs[k - 1]))]
        } else {
            Seq::empty()
        }
    }
}

/// Membership and shape of one document's matches: exactly the in-range
/// hitting lines, with their own content.
proof fn lemma_doc_matches_member(
    path: Seq<char>,
    lines: Seq<Seq<char>>,
    is_regex: bool,
    pat: Seq<char>,
    x: (Seq<char>, u32, Seq<char>),
    n: int,
)
    requires
        0 <= n <= lines.len(),
        lines.len() <= u32::MAX,
    ensures
        doc_matches_upto(path, lines, is_regex, pat, n).contains(x) == (x.0 == path && 1 <= x.1 <= n
            && line_hits(is_regex, pat, lines[x.1 - 1]) && x.2 == lines[x.1 - 1]),
    decreases n,
{
    if n > 0 {
        lemma_doc_matches_member(path, lines, is_regex, pat, x, n - 1);
        let pre = doc_matches_upto(path, lines, is_regex, pat, n - 1);
        let cur = doc_matches_upto(path, lines, is_regex, pat, n);
        if line_hits(is_regex, pat, lines[n - 1]) {
            if pre.contains(x) {
                let k = choose|k: int| 0 <= k < pre.len() && pre[k] == x;
                assert(cur[k] == x);
            }
            if x == (path, n as u32, lines[n - 1]) {
                assert(cur[cur.len() - 1] == x);
            }
            if cur.contains(x) {
                let k = choose|k: int| 0 <= k < cur.len() && cur[k] == x;
                if k < pre.len() {
                    assert(pre[k] == x);
                } else {
                    assert(x == (path, n as u32, lines[n - 1]));
                }
            }
        } else {
            assert(cur =~= pre);
        }
    }
}

/// Membership and shape of the store-wide matches.
proof fn lemma_store_matches_member(
    docs: Seq<Document>,
    glob: Option<Seq<char>>,
    is_regex: bool,
    pat: Seq<char>,
    x: (Seq<char>, u32, Seq<char>),
    n: int,
)
    requires
        0 <= n <= docs.len(),
        forall|i: int| 0 <= i < docs.len() ==> (#[trigger] docs[i]).lines@.len() <= u32::MAX,
    ensures
        store_matches_upto(docs, glob, is_regex, pat, n).contains(x) == exists|i: int|
            0 <= i < n && glob_ok(glob, (#[trigger] docs[i]).path@) && x.0 == docs[i].path@ && 1
                <= x.1 <= docs[i].lines@.len() && line_hits(
                is_regex,
                pat,
                views_of(docs[i].lines@)[x.1 - 1],
            ) && x.2 == views_of(docs[i].lines@)[x.1 - 1],
    decreases n,
{
    if n > 0 {
        lemma_store_matches_member(docs, glob, is_regex, pat, x, n - 1);
        let pre = store_matches_upto(docs, glob, is_regex, pat, n - 1);
        let cur = store_matches_upto(docs, glob, is_regex, pat, n);
        let lines = views_of(docs[n - 1].lines@);
        lemma_doc_matches_member(
            docs[n - 1].path@,
            lines,
            is_regex,
            pat,
            x,
            lines.len() as int,
        );
        if glob_ok(glob, docs[n - 1].path@) {
            let dm = doc_matches(docs[n - 1].path@, lines, is_regex, pat);
            if pre.contains(x) {
                let k = choose|k: int| 0 <= k < pre.len() && pre[k] == x;
                assert(cur[k] == x);
                assert(cur.contains(x));
            }
            if dm.contains(x) {
                let k = choose|k: int| 0 <= k < dm.len() && dm[k] == x;
                assert(cur[pre.len() + k] == x);
                assert(cur.contains(x));
            }
            if cur.contains(x) {
                let k = choose|k: int| 0 <= k < cur.len() && cur[k] == x;
                if k < pre.len() {
                    assert(pre[k] == x);
                } else {
                    assert(dm[k - pre.len()] == x);
                }
            }
        } else {
            assert(cur =~= pre);
        }
    }
}

/// The store-wide match pairs come out strictly sorted, each taken from one
/// of the first `n` documents.
proof fn lemma_store_matches_sorted(
    docs: Seq<Document>,
    glob: Option<Seq<char>>,
    is_regex: bool,
    pat: Seq<char>,
    n: int,
)
    requires
        0 <= n <= docs.len(),
        strs_sorted(crate::store::paths_of(docs)),
        forall|i: int| 0 <= i < docs.len() ==> (#[trigger] docs[i]).lines@.len() <= u32::MAX,
    ensures
        crate::index::locs_sorted(tpairs(store_matches_upto(docs, glob, is_regex, pat, n))),
        forall|m: int|
            0 <= m < store_matches_upto(docs, glob, is_regex, pat, n).len() ==> exists|i: int|
                0 <= i < n && (#[trigger] store_matches_upto(docs, glob, is_regex, pat, n)[m]).0
                    == docs[i].path@,
    decreases n,
{
    if n > 0 {
        lemma_store_matches_sorted(docs, glob, is_regex, pat, n - 1);
        let pre = store_matches_upto(docs, glob, is_regex, pat, n - 1);
        let cur = store_matches_upto(docs, glob, is_regex, pat, n);
        let lines = views_of(docs[n - 1].lines@);
        let path = docs[n - 1].path@;
        if glob_ok(glob, path) {
            let dm = doc_matches(path, lines, is_regex, pat);
            assert forall|m: int| 0 <= m < dm.len() implies dm[m].0 == path && 1 <= dm[m].1
                <= lines.len() by {
                lemma_doc_matches_member(path, lines, is_regex, pat, dm[m], lines.len() as int);
                assert(dm.contains(dm[m]));
            }
            assert forall|m: int| 0 <= m < cur.len() implies exists|i: int|
                0 <= i < n && (#[trigger] cur[m]).0 == docs[i].path@ by {
                if m < pre.len() {
                    assert(cur[m] == pre[m]);
                    let i = choose|i: int| 0 <= i < n - 1 && (#[trigger] pre[m]).0 == docs[i].path@;
                    assert(cur[m].0 == docs[i].path@);
                } else {
                    assert(cur[m] == dm[m - pre.len()]);
                    assert(cur[m].0 == docs[n - 1].path@);
                }
            }
            let cp = tpairs(cur);
            let pp = tpairs(pre);
            assert forall|a: int, b: int|
                0 <= a < b < cp.len() implies crate::index::loc_lt(cp[a], cp[b]) by {
                if b < pre.len() {
                    assert(cp[a] == pp[a]);
                    assert(cp[b] == pp[b]);
                } else if a >= pre.len() {
                    // Both inside the new block: same path, ascending lines.
                    let xa = dm[a - pre.len()];
                    let xb = dm[b - pre.len()];
                    lemma_doc_block_sorted(path, lines, is_regex, pat, lines.len() as int);
                    assert(xa.1 < xb.1);
                } else {
                    // Across the boundary: the old path sorts strictly below.
                    let i = choose|i: int|
                        0 <= i < n - 1 && (#[trigger] pre[a]).0 == docs[i].path@;
                    assert(crate::text::seq_lt(
                        crate::store::paths_of(docs)[i],
                        crate::store::paths_of(docs)[n - 1],
                    ));
                    assert(cp[a].0 == docs[i].path@);
                    assert(cp[b].0 == path);
                }
            }
        } else {
            assert(cur =~= pre);
        }
    }
}

/// Within one document's match block, line numbers strictly ascend.
proof fn lemma_doc_block_sorted(
    path: Seq<char>,
    lines: Seq<Seq<char>>,
    is_regex: bool,
    pat: Seq<char>,
    n: int,
)
    requires
        0 <= n <= lines.len(),
        lines.len() <= u32::MAX,
    ensures
        forall|a: int, b: int|
            0 <= a < b < doc_matches_upto(path, lines, is_regex, pat, n).len()
                ==> (#[trigger] doc_matches_upto(path, lines, is_regex, pat, n)[a]).1 < (
            #[trigger] doc_matches_upto(path, lines, is_regex, pat, n)[b]).1,
        forall|a: int|
            0 <= a < doc_matches_upto(path, lines, is_regex, pat, n).len() ==> 1 <= (
            #[trigger] doc_matches_upto(path, lines, is_regex, pat, n)[a]).1 <= n,
    decreases n,
{
    if n > 0 {
        lemma_doc_block_sorted(path, lines, is_regex, pat, n - 1);
        let pre = doc_matches_upto(path, lines, is_regex, pat, n - 1);
        let cur = doc_matches_upto(path, lines, is_regex, pat, n);
        if line_hits(is_regex, pat, lines[n - 1]) {
            assert forall|a: int| 0 <= a < cur.len() implies 1 <= (#[trigger] cur[a]).1 <= n by {
                if a < pre.len() {
                    assert(cur[a] == pre[a]);
                } else {
                    assert(cur[a] == (path, n as u32, lines[n - 1]));
                }
            }
            assert forall|a: int, b: int| 0 <= a < b < cur.len() implies (#[trigger] cur[a]).1 < (
            #[trigger] cur[b]).1 by {
                if b < pre.len() {
                    assert(cur[a] == pre[a]);
                    assert(cur[b] == pre[b]);
                } else {
                    assert(cur[a] == pre[a]);
                    assert(cur[b] == (path, n as u32, lines[n - 1]));
                    assert(pre[a].1 <= n - 1);
                }
            }
        } else {
            assert(cur =~= pre);
        }
    }
}

/// Membership of the attached matches: the glob-passing locations, each with
/// the content the store holds there.
proof fn lemma_attach_member(
    docs: Seq<Document>,
    locs: Seq<(Seq<char>, u32)>,
    glob: Option<Seq<char>>,
    x: (Seq<char>, u32, Seq<char>),
    k: int,
)
    requires
        0 <= k <= locs.len(),
    ensures
        attach_upto(docs, locs, glob, k).contains(x) == (locs.take(k).contains((x.0, x.1))
            && glob_ok(glob, x.0) && x.2 == content_at(docs, (x.0, x.1))),
    decreases k,
{
    if k > 0 {
        lemma_attach_member(docs, locs, glob, x, k - 1);
        let pre = attach_upto(docs, locs, glob, k - 1);
        let cur = attach_upto(docs, locs, glob, k);
        let shorter = locs.take(k - 1);
        let longer = locs.take(k);
        assert forall|q: (Seq<char>, u32)|
            longer.contains(q) == (shorter.contains(q) || q == locs[k - 1]) by {
            if shorter.contains(q) {
                let m = choose|m: int| 0 <= m < shorter.len() && shorter[m] == q;
                assert(longer[m] == q);
            }
            if q == locs[k - 1] {
                assert(longer[k - 1] == q);
            }
            if longer.contains(q) {
                let m = choose|m: int| 0 <= m < longer.len() && longer[m] == q;
                if m < k - 1 {
                    assert(shorter[m] == q);
                }
            }
        }
        if glob_ok(glob, locs[k - 1].0) {
            let nt = (locs[k - 1].0, locs[k - 1].1, content_at(docs, locs[k - 1]));
            assert(cur == pre + seq![nt]);
            if pre.contains(x) {
                let m = choose|m: int| 0 <= m < pre.len() && pre[m] == x;
                assert(cur[m] == x);
                assert(cur.contains(x));
            }
            if x == nt {
                assert(cur[cur.len() - 1] == x);
                assert(cur.contains(x));
            }
            if cur.contains(x) {
                let m = choose|m: int| 0 <= m < cur.len() && cur[m] == x;
                if m < pre.len() {
                    assert(pre[m] == x);
                } else {
                    assert(x == nt);
                }
            }
        } else {
            assert(cur =~= pre);
        }
    } else {
        assert(locs.take(0).len() == 0);
        if locs.take(0).contains((x.0, x.1)) {
            let m = choose|m: int| 0 <= m < locs.take(0).len() && locs.take(0)[m] == (x.0, x.1);
        }
    }
}

/// The attached pairs stay strictly sorted when the locations are.
proof fn lemma_attach_sorted(
    docs: Seq<Document>,
    locs: Seq<(Seq<char>, u32)>,
    glob: Option<Seq<char>>,
    k: int,
)
    requires
        0 <= k <= locs.len(),
        crate::index::locs_sorted(locs),
    ensures
        crate::index::locs_sorted(tpairs(attach_upto(docs, locs, glob, k))),
        forall|m: int|
            0 <= m < attach_upto(docs, locs, glob, k).len() ==> exists|j: int|
                0 <= j < k && locs[j] == tpair(#[trigger] attach_upto(docs, locs, glob, k)[m]),
    decreases k,
{
    if k > 0 {
        lemma_attach_sorted(docs, locs, glob, k - 1);
        let pre = attach_upto(docs, locs, glob, k - 1);
        let cur = attach_upto(docs, locs, glob, k);
        if glob_ok(glob, locs[k - 1].0) {
            let nt = (locs[k - 1].0, locs[k - 1].1, content_at(docs, locs[k - 1]));
            assert(cur == pre + seq![nt]);
            assert forall|m: int| 0 <= m < cur.len() implies exists|j: int|
                0 <= j < k && locs[j] == tpair(#[trigger] cur[m]) by {
                if m < pre.len() {
                    assert(cur[m] == pre[m]);
                    let j = choose|j: int| 0 <= j < k - 1 && locs[j] == tpair(pre[m]);
                    assert(locs[j] == tpair(cur[m]));
                } else {
                    assert(cur[m] == nt);
                    assert(locs[k - 1] == tpair(nt));
                }
            }
            assert forall|a: int, b: int|
                0 <= a < b < tpairs(cur).len() implies crate::index::loc_lt(
                tpairs(cur)[a],
                tpairs(cur)[b],
            ) by {
                if b < pre.len() {
                    assert(tpairs(cur)[a] == tpairs(pre)[a]);
                    assert(tpairs(cur)[b] == tpairs(pre)[b]);
                } else {
                    assert(cur[b] == nt);
                    assert(cur[a] == pre[a]);
                    let j = choose|j: int| 0 <= j < k - 1 && locs[j] == tpair(pre[a]);
                    assert(crate::index::loc_lt(locs[j], locs[k - 1]));
                }
            }
        } else {
            assert(cur =~= pre);
        }
    }
}

/// Longer prefixes of the attached matches extend shorter ones.
proof fn lemma_attach_prefix(
    docs: Seq<Document>,
    locs: Seq<(Seq<char>, u32)>,
    glob: Option<Seq<char>>,
    i: int,
    j: int,
)
    requires
        0 <= i <= j,
    ensures
        attach_upto(docs, locs, glob, i).is_prefix_of(attach_upto(docs, locs, glob, j)),
    decreases j - i,
{
    if i == j {
        let a = attach_upto(docs, locs, glob, i);
        assert(a =~= a.subrange(0, a.len() as int));
    } else {
        lemma_attach_prefix(docs, locs, glob, i, j - 1);
        let a = attach_upto(docs, locs, glob, i);
        let b = attach_upto(docs, locs, glob, j - 1);
        let c = attach_upto(docs, locs, glob, j);
        assert(a =~= c.subrange(0, a.len() as int)) by {
            assert(forall|k: int| 0 <= k < a.len() ==> a[k] == b[k]);
        }
    }
}

/// Two match lists with strictly sorted pairs and the same members are
/// equal.
proof fn lemma_sorted_matches_unique(
    a: Seq<(Seq<char>, u32, Seq<char>)>,
    b: Seq<(Seq<char>, u32, Seq<char>)>,
)
    requires
        crate::index::locs_sorted(tpairs(a)),
        crate::index::locs_sorted(tpairs(b)),
        forall|x: (Seq<char>, u32, Seq<char>)| a.contains(x) == b.contains(x),
    ensures
        a == b,
    decreases a.len(),
{
    if a.len() == 0 {
        if b.len() > 0 {
            assert(b.contains(b[0]));
            assert(a.contains(b[0]));
            let m = choose|m: int| 0 <= m < a.len() && a[m] == b[0];
        }
        assert(a =~= b);
    } else {
        assert(a.contains(a[0]));
        assert(b.contains(a[0]));
        assert(b.contains(b[0]));
        assert(a.contains(b[0]));
        let ka = choose|k: int| 0 <= k < b.len() && b[k] == a[0];
        let kb = choose|k: int| 0 <= k < a.len() && a[k] == b[0];
        assert(a[0] == b[0]) by {
            assert(tpairs(b)[ka] == tpair(a[0]));
            assert(tpairs(a)[kb] == tpair(b[0]));
            if ka > 0 {
                assert(crate::index::loc_lt(tpairs(b)[0], tpairs(b)[ka]));
            }
            if kb > 0 {
                assert(crate::index::loc_lt(tpairs(a)[0], tpairs(a)[kb]));
            }
            if ka > 0 && kb > 0 {
                crate::index::lemma_loc_lt_asym(tpair(a[0]), tpair(b[0]));
            }
            if ka == 0 {
                assert(b[0] == a[0]);
            }
            if kb == 0 {
                assert(a[0] == b[0]);
            }
        }
        let at = a.drop_first();
        let bt = b.drop_first();
        assert(crate::index::locs_sorted(tpairs(at))) by {
            assert forall|x: int, y: int|
                0 <= x < y < tpairs(at).len() implies crate::index::loc_lt(
                tpairs(at)[x],
                tpairs(at)[y],
            ) by {
                assert(tpairs(at)[x] == tpairs(a)[x + 1]);
                assert(tpairs(at)[y] == tpairs(a)[y + 1]);
            }
        }
        assert(crate::index::locs_sorted(tpairs(bt))) by {
            assert forall|x: int, y: int|
                0 <= x < y < tpairs(bt).len() implies crate::index::loc_lt(
                tpairs(bt)[x],
                tpairs(bt)[y],
            ) by {
                assert(tpairs(bt)[x] == tpairs(b)[x + 1]);
                assert(tpairs(bt)[y] == tpairs(b)[y + 1]);
            }
        }
        assert forall|x: (Seq<char>, u32, Seq<char>)| at.contains(x) == bt.contains(x) by {
            lemma_matches_tail_membership(a, x);
            lemma_matches_tail_membership(b, x);
        }
        lemma_sorted_matches_unique(at, bt);
        assert(a =~= b) by {
            assert forall|i: int| 0 <= i < a.len() implies a[i] == b[i] by {
                if i > 0 {
                    assert(a[i] == at[i - 1]);
                    assert(b[i] == bt[i - 1]);
                }
            }
        }
    }
}

/// In a match list with strictly sorted pairs, the tail holds exactly the
/// members other than the head.
proof fn lemma_matches_tail_membership(
    a: Seq<(Seq<char>, u32, Seq<char>)>,
    x: (Seq<char>, u32, Seq<char>),
)
    requires
        crate::index::locs_sorted(tpairs(a)),
        a.len() > 0,
    ensures
        a.drop_first().contains(x) == (a.contains(x) && x != a[0]),
{
    let at = a.drop_first();
    if at.contains(x) {
        let k = choose|k: int| 0 <= k < at.len() && at[k] == x;
        assert(a[k + 1] == x);
        assert(a.contains(x));
        assert(tpairs(a)[k + 1] == tpair(x));
        assert(crate::index::loc_lt(tpairs(a)[0], tpairs(a)[k + 1]));
        if x == a[0] {
            crate::index::lemma_loc_lt_asym(tpair(a[0]), tpair(a[0]));
        }
    }
    if a.contains(x) && x != a[0] {
        let k = choose|k: int| 0 <= k < a.len() && a[k] == x;
        assert(k > 0);
        assert(at[k - 1] == x);
        assert(at.contains(x));
    }
}

/// The pattern occurs (as a case-insensitive substring) on line `q.1` of the
/// document stored under `q.0`.
spec fn substring_match_pair(docs: Seq<Document>, pat: Seq<char>, q: (Seq<char>, u32)) -> bool {
    exists|i: int|
        0 <= i < docs.len() && q.0 == (#[trigger] docs[i]).path@ && 1 <= q.1
            <= docs[i].lines@.len() && contains_sub(lower_of(docs[i].lines@[q.1 - 1]@), pat)
}

/// The heart of the index strategy: for a nonempty all-alphanumeric pattern,
/// walking the index's substring-over-token locations in order and attaching
/// each line's content yields exactly the store-wide substring matches.
proof fn lemma_index_strategy_exact(
    store: DocumentStore,
    locs: Seq<(Seq<char>, u32)>,
    glob: Option<Seq<char>>,
    pat: Seq<char>,
)
    requires
        store.wf(),
        pat.len() > 0,
        forall|k: int| 0 <= k < pat.len() ==> is_alphanum(pat[k]),
        crate::index::locs_sorted(locs),
        forall|q: (Seq<char>, u32)|
            #[trigger] locs.contains(q) == store.index_model().index_hit(pat, q),
    ensures
        attach_upto(store.docs_view(), locs, glob, locs.len() as int) == store_matches(
            store.docs_view(),
            glob,
            false,
            pat,
        ),
{
    let docs = store.docs_view();
    let a = attach_upto(docs, locs, glob, locs.len() as int);
    let b = store_matches(docs, glob, false, pat);
    // Locations found through the index are exactly the lines where the
    // pattern occurs as a substring of the case-folded text.
    assert forall|q: (Seq<char>, u32)| #[trigger]
        locs.contains(q) == substring_match_pair(docs, pat, q) by {
        if store.index_model().index_hit(pat, q) {
            let t = choose|t: Seq<char>|
                #[trigger] store.index_model().locs(t).contains(q)
                    && store.index_model().tokens().contains(t) && contains_sub(t, pat);
            assert(store.store_hit(t, q));
            let i = choose|i: int|
                0 <= i < docs.len() && q.0 == (#[trigger] docs[i]).path@ && 1 <= q.1
                    <= docs[i].lines@.len() && crate::tokenizer::tokens_of(
                    lower_of(docs[i].lines@[q.1 - 1]@),
                ).contains(t);
            crate::tokenizer::lemma_token_substring_equiv(lower_of(docs[i].lines@[q.1 - 1]@), pat);
            assert(contains_sub(lower_of(docs[i].lines@[q.1 - 1]@), pat));
            assert(substring_match_pair(docs, pat, q));
        }
        if substring_match_pair(docs, pat, q) {
            let i = choose|i: int|
                0 <= i < docs.len() && q.0 == (#[trigger] docs[i]).path@ && 1 <= q.1
                    <= docs[i].lines@.len() && contains_sub(lower_of(docs[i].lines@[q.1 - 1]@), pat);
            crate::tokenizer::lemma_token_substring_equiv(lower_of(docs[i].lines@[q.1 - 1]@), pat);
            let t = choose|t: Seq<char>|
                crate::tokenizer::tokens_of(lower_of(docs[i].lines@[q.1 - 1]@)).contains(t)
                    && contains_sub(t, pat);
            assert(store.store_hit(t, q));
            assert(store.index_model().locs(t).contains(q));
            assert(store.index_model().tokens().contains(t)) by {
                // A recorded location implies the token is present.
                if !store.index_model().tokens().contains(t) {
                    store.index_model().lemma_locs_absent(t);
                }
            }
            assert(store.index_model().index_hit(pat, q));
        }
    }
    // The two match lists have the same members.
    assert forall|x: (Seq<char>, u32, Seq<char>)| a.contains(x) == b.contains(x) by {
        lemma_attach_member(docs, locs, glob, x, locs.len() as int);
        lemma_store_matches_member(docs, glob, false, pat, x, docs.len() as int);
        assert(locs.take(locs.len() as int) =~= locs);
        if a.contains(x) {
            assert(locs.contains((x.0, x.1)));
            assert(substring_match_pair(docs, pat, (x.0, x.1)));
            let i = choose|i: int|
                0 <= i < docs.len() && x.0 == (#[trigger] docs[i]).path@ && 1 <= x.1
                    <= docs[i].lines@.len() && contains_sub(lower_of(docs[i].lines@[x.1 - 1]@), pat);
            crate::store::lemma_doc_of_is(docs, x.0, i);
            assert(content_at(docs, (x.0, x.1)) == views_of(docs[i].lines@)[x.1 - 1]);
            assert(views_of(docs[i].lines@)[x.1 - 1] == docs[i].lines@[x.1 - 1]@);
            assert(line_hits(false, pat, views_of(docs[i].lines@)[x.1 - 1]));
            assert(b.contains(x));
        }
        if b.contains(x) {
            let i = choose|i: int|
                0 <= i < docs.len() && glob_ok(glob, (#[trigger] docs[i]).path@) && x.0
                    == docs[i].path@ && 1 <= x.1 <= docs[i].lines@.len() && line_hits(
                    false,
                    pat,
                    views_of(docs[i].lines@)[x.1 - 1],
                ) && x.2 == views_of(docs[i].lines@)[x.1 - 1];
            assert(views_of(docs[i].lines@)[x.1 - 1] == docs[i].lines@[x.1 - 1]@);
            assert(substring_match_pair(docs, pat, (x.0, x.1)));
            assert(locs.contains((x.0, x.1)));
            crate::store::lemma_doc_of_is(docs, x.0, i);
            assert(x.2 == content_at(docs, (x.0, x.1)));
            assert(a.contains(x));
        }
    }
    lemma_attach_sorted(docs, locs, glob, locs.len() as int);
    lemma_store_matches_sorted(docs, glob, false, pat, docs.len() as int);
    lemma_sorted_matches_unique(a, b);
}

// ---------------------------------------------------------------------------
// The regex metacharacter set that selects the regex strategy.
// ---------------------------------------------------------------------------

/// The fixed metacharacter set whose presence selects the regex strategy.
pub open spec fn is_meta(c: char) -> bool {
    c == '|' || c == '*' || c == '+' || c == '?' || c == '(' || c == ')' || c == '[' || c == ']'
        || c == '{' || c == '}' || c == '\\' || c == '^' || c == '$' || c == '.'
}

pub open spec fn has_meta(s: Seq<char>) -> bool {
    exists|i: int| 0 <= i < s.len() && is_meta(s[i])
}

/// Whether every character of the string is alphanumeric.
fn all_alphanumeric(s: &str) -> (r: bool)
    ensures
        r == (forall|k: int| 0 <= k < s@.len() ==> is_alphanum(s@[k])),
{
    let n = s.unicode_len();
    let mut i: usize = 0;
    while i < n
        invariant
            0 <= i <= n,
            n == s@.len(),
            forall|k: int| 0 <= k < i ==> is_alphanum(s@[k]),
        decreases n - i,
    {
        if !s.get_char(i).is_alphanumeric() {
            return false;
        }
        i += 1;
    }
    true
}

/// Whether the pattern holds any regex metacharacter.
fn has_regex_metacharacters(pattern: &str) -> (r: bool)
    ensures
        r == has_meta(pattern@),
{
    let n = pattern.unicode_len();
    let mut i: usize = 0;
    while i < n
        invariant
            0 <= i <= n,
            n == pattern@.len(),
            forall|k: int| 0 <= k < i ==> !is_meta(pattern@[k]),
        decreases n - i,
    {
        let c = pattern.get_char(i);
        if c == '|' || c == '*' || c == '+' || c == '?' || c == '(' || c == ')' || c == '[' || c
            == ']' || c == '{' || c == '}' || c == '\\' || c == '^' || c == '$' || c == '.' {
            assert(is_meta(pattern@[i as int]));
            return true;
        }
        i += 1;
    }
    false
}

// ---------------------------------------------------------------------------
// Laws of the accessor as a whole.
// ---------------------------------------------------------------------------

/// The accessor holds exactly the documents the given pairs describe, with
/// last write winning among pairs sharing a path (what `from_pairs`
/// guarantees of its result).
pub open spec fn built_from(core: MemexFsCore, pairs: Seq<(Seq<char>, Seq<char>)>) -> bool {
    &&& core.wf()
    &&& forall|p: Seq<char>|
        core.store_model().has_path(p) == crate::store::pairs_have(pairs, p)
    &&& forall|p: Seq<char>|
        crate::store::pairs_have(pairs, p) ==> core.store_model().doc_lines(p)
            == crate::text::lines_of(crate::store::last_content(pairs, p))
}

/// The match list is a function of paths and line contents alone.
proof fn lemma_store_matches_congruence(
    d1: Seq<Document>,
    d2: Seq<Document>,
    glob: Option<Seq<char>>,
    is_regex: bool,
    pat: Seq<char>,
    n: int,
)
    requires
        d1.len() == d2.len(),
        0 <= n <= d1.len(),
        forall|i: int|
            0 <= i < d1.len() ==> (#[trigger] d1[i]).path@ == d2[i].path@ && views_of(d1[i].lines@)
                == views_of(d2[i].lines@),
    ensures
        store_matches_upto(d1, glob, is_regex, pat, n) == store_matches_upto(
            d2,
            glob,
            is_regex,
            pat,
            n,
        ),
    decreases n,
{
    if n > 0 {
        lemma_store_matches_congruence(d1, d2, glob, is_regex, pat, n - 1);
    }
}

/// Rebuilding the store from the same input pairs always yields the same
/// match list for the same query: the result is a pure function of the
/// pairs, the pattern, the strategy and the glob.
pub proof fn lemma_grep_deterministic(
    c1: MemexFsCore,
    c2: MemexFsCore,
    pairs: Seq<(Seq<char>, Seq<char>)>,
    glob: Option<Seq<char>>,
    is_regex: bool,
    pat: Seq<char>,
)
    requires
        built_from(c1, pairs),
        built_from(c2, pairs),
    ensures
        store_matches(c1.store_model().docs_view(), glob, is_regex, pat) == store_matches(
            c2.store_model().docs_view(),
            glob,
            is_regex,
            pat,
        ),
{
    let d1 = c1.store_model().docs_view();
    let d2 = c2.store_model().docs_view();
    let p1 = c1.store_model().paths_view();
    let p2 = c2.store_model().paths_view();
    assert(p1 == p2) by {
        assert forall|p: Seq<char>| p1.contains(p) == p2.contains(p) by {
            assert(c1.store_model().has_path(p) == crate::store::pairs_have(pairs, p));
            assert(c2.store_model().has_path(p) == crate::store::pairs_have(pairs, p));
        }
        crate::text::lemma_sorted_strs_unique(p1, p2);
    }
    assert forall|i: int| 0 <= i < d1.len() implies (#[trigger] d1[i]).path@ == d2[i].path@
        && views_of(d1[i].lines@) == views_of(d2[i].lines@) by {
        assert(p1[i] == d1[i].path@);
        assert(p2[i] == d2[i].path@);
        let p = p1[i];
        c1.store_model().lemma_doc_at_index(i);
        c2.store_model().lemma_doc_at_index(i);
        assert(c1.store_model().has_path(p));
        assert(crate::store::pairs_have(pairs, p));
        assert(c1.store_model().doc_lines(p) == c2.store_model().doc_lines(p));
    }
    lemma_store_matches_congruence(d1, d2, glob, is_regex, pat, d1.len() as int);
}

/// With a glob filter, every reported match lies on a path the glob accepts.
pub proof fn lemma_grep_respects_glob(
    docs: Seq<Document>,
    g: Seq<char>,
    is_regex: bool,
    pat: Seq<char>,
    x: (Seq<char>, u32, Seq<char>),
)
    requires
        forall|i: int| 0 <= i < docs.len() ==> (#[trigger] docs[i]).lines@.len() <= u32::MAX,
        capped(store_matches(docs, Some(g), is_regex, pat)).contains(x),
    ensures
        glob_matches(g, x.0),
{
    let full = store_matches(docs, Some(g), is_regex, pat);
    assert(full.contains(x)) by {
        let k = choose|k: int|
            0 <= k < capped(full).len() && capped(full)[k] == x;
        if full.len() > 100 {
            assert(full[k] == x);
        }
    }
    lemma_store_matches_member(docs, Some(g), is_regex, pat, x, docs.len() as int);
}

// ---------------------------------------------------------------------------
// The fixed tool-definition description.
// ---------------------------------------------------------------------------

/// The static description (name, description, parameter schema, required
/// fields) of the three operations, as compact JSON with keys in sorted
/// order.
pub const TOOL_DEFINITIONS_JSON: &'static str =
    "[{\"description\":\"Search for a pattern across all documents. Returns matching file paths, line numbers, and content. Use this to find relevant documents before reading them.\",\"name\":\"grep\",\"parameters\":{\"glob\":{\"description\":\"Optional file pattern filter, e.g. 'billing/**/*.md'\",\"type\":\"string\"},\"pattern\":{\"description\":\"Search pattern (supports regex)\",\"type\":\"string\"}},\"required\":[\"pattern\"]},{\"description\":\"Read the contents of a document. Returns the full document or a specific line range. Use this after grep to get the full context of a matching document.\",\"name\":\"read\",\"parameters\":{\"limit\":{\"description\":\"Number of lines to return\",\"type\":\"number\"},\"offset\":{\"description\":\"Line number to start reading from (1-indexed)\",\"type\":\"number\"},\"path\":{\"description\":\"Document path relative to the knowledge base root\",\"type\":\"string\"}},\"required\":[\"path\"]},{\"description\":\"List the contents of a directory. Returns immediate children: file names and subdirectory names (with trailing '/'). Use this to explore the document structure before grepping or reading.\",\"name\":\"ls\",\"parameters\":{\"path\":{\"description\":\"Directory path to list, e.g. 'account' or 'billing/invoices'. Use empty string or '.' for root.\",\"type\":\"string\"}},\"required\":[\"path\"]}]";

/// The text `tool_definitions` returns.
pub open spec fn tool_definitions_text() -> Seq<char> {
    TOOL_DEFINITIONS_JSON@
}

// ---------------------------------------------------------------------------
// The core: search, read and list over one immutable store.
// ---------------------------------------------------------------------------

/// The knowledge-base accessor: a fully built document store and the three
/// query operations over it.
#[derive(Debug)]
pub struct MemexFsCore {
    store: DocumentStore,
}

impl MemexFsCore {
    pub closed spec fn store_model(self) -> DocumentStore {
        self.store
    }

    pub open spec fn wf(self) -> bool {
        self.store_model().wf()
    }

    /// Builds the accessor from (path, raw text) pairs. An empty list is
    /// rejected; a later pair with the same path replaces an earlier one.
    pub fn from_pairs(docs: Vec<(String, String)>) -> (r: Result<Self, MemexError>)
        requires
            forall|i: int|
                0 <= i < docs@.len() ==> crate::text::lines_of((#[trigger] docs@[i]).1@).len()
                    <= u32::MAX,
        ensures
            match r {
                Ok(core) => {
                    &&& docs@.len() > 0
                    &&& core.wf()
                    &&& forall|p: Seq<char>|
                        core.store_model().has_path(p) == crate::store::pairs_have(
                            crate::store::pairs_view(docs@),
                            p,
                        )
                    &&& forall|p: Seq<char>|
                        crate::store::pairs_have(crate::store::pairs_view(docs@), p)
                            ==> core.store_model().doc_lines(p) == crate::text::lines_of(
                            crate::store::last_content(crate::store::pairs_view(docs@), p),
                        )
                },
                Err(e) => docs@.len() == 0 && e.message@ == "MemexError: no documents provided"@,
            },
    {
        if docs.is_empty() {
            return Err(MemexError::new("MemexError: no documents provided"));
        }
        let mut store = DocumentStore::new();
        store.load_documents(docs);
        Ok(MemexFsCore { store })
    }

    /// Searches every document for the pattern. An empty pattern is an
    /// error. A pattern holding regex metacharacters is compiled
    /// case-insensitively (a compile failure is a user-facing error) and run
    /// against raw lines; any other pattern is case-folded and matched as a
    /// substring of the case-folded lines. At most 100 results come back,
    /// sorted by (path, line).
    pub fn grep(&self, pattern: &str, glob: Option<&str>) -> (r: Result<
        Vec<GrepResult>,
        MemexError,
    >)
        requires
            self.wf(),
        ensures
            match r {
                Ok(results) => pattern@.len() > 0 && (if has_meta(pattern@) {
                    regex_build_ok(pattern@) && results_view(results@) == capped(
                        store_matches(
                            self.store_model().docs_view(),
                            glob_view(glob),
                            true,
                            pattern@,
                        ),
                    )
                } else {
                    results_view(results@) == capped(
                        store_matches(
                            self.store_model().docs_view(),
                            glob_view(glob),
                            false,
                            lower_of(pattern@),
                        ),
                    )
                }),
                Err(e) => (pattern@.len() == 0 && e.message@
                    == "MemexError: empty search pattern"@) || (has_meta(pattern@)
                    && !regex_build_ok(pattern@) && "MemexError: invalid regex: "@.is_prefix_of(
                    e.message@,
                )),
            },
    {
        if pattern.is_empty() {
            return Err(MemexError::new("MemexError: empty search pattern"));
        }
        if has_regex_metacharacters(pattern) {
            match regex_compile_check(pattern) {
                Ok(_) => Ok(self.grep_regex(pattern, glob)),
                Err(msg) => {
                    let mut m = String::from_str("MemexError: invalid regex: ");
                    m.append(msg.as_str());
                    proof {
                        assert("MemexError: invalid regex: "@ =~= m@.subrange(
                            0,
                            "MemexError: invalid regex: "@.len() as int,
                        ));
                    }
                    Err(MemexError { message: m })
                },
            }
        } else {
            let pattern_lower = pattern.to_lowercase();
            let plow = pattern_lower.as_str();
            let single = plow.len() >= 3 && all_alphanumeric(plow);
            if single {
                proof {
                    if plow@.len() == 0 {
                        assert(plow.spec_bytes() == vstd::utf8::encode_utf8(plow@));
                        assert(plow.spec_bytes().len() == 0);
                    }
                }
                Ok(self.grep_index(plow, glob))
            } else {
                Ok(self.grep_scan(plow, glob))
            }
        }
    }

    /// Reads a document by path, formatted with right-aligned line numbers;
    /// an unknown path is a user-facing error naming it.
    pub fn read(&self, path: &str, offset: Option<usize>, limit: Option<usize>) -> (r: Result<
        String,
        MemexError,
    >)
        requires
            self.wf(),
        ensures
            match r {
                Ok(s) => self.store_model().has_path(path@) && s@ == crate::document::format_read(
                    self.store_model().doc_lines(path@),
                    offset,
                    limit,
                ),
                Err(e) => !self.store_model().has_path(path@) && e.message@
                    == "MemexError: document not found: "@ + path@,
            },
    {
        match self.store.get_document(path) {
            Some(doc) => {
                let out = doc.read(offset, limit);
                proof {
                    assert(doc.lines.deep_view() =~= views_of(doc.lines@));
                }
                Ok(out)
            },
            None => {
                let mut m = String::from_str("MemexError: document not found: ");
                m.append(path);
                Err(MemexError { message: m })
            },
        }
    }

    /// Lists the immediate children of a virtual directory.
    pub fn ls(&self, path: &str) -> (r: Vec<String>)
        ensures
            strs_sorted(r.deep_view()),
            forall|e: Seq<char>|
                r.deep_view().contains(e) == exists|k: int|
                    0 <= k < self.store_model().paths_view().len() && crate::store::child_entry(
                        crate::store::normalize_dir(path@),
                        #[trigger] self.store_model().paths_view()[k],
                    ) == Some(e),
    {
        self.store.ls(path)
    }

    /// The fixed description of the three operations, for discovery by an
    /// automated caller.
    pub fn tool_definitions(&self) -> (r: String)
        ensures
            r@ == tool_definitions_text(),
    {
        String::from_str(TOOL_DEFINITIONS_JSON)
    }

    pub fn document_count(&self) -> (r: usize)
        ensures
            r == self.store_model().paths_view().len(),
    {
        self.store.document_count()
    }

    pub fn token_count(&self) -> (r: usize)
        ensures
            r == self.store_model().index_model().num_tokens(),
    {
        self.store.token_count()
    }

    /// Scan path: every document in path order, testing each case-folded line
    /// for substring containment of the case-folded pattern.
    fn grep_scan(&self, pattern_lower: &str, glob: Option<&str>) -> (r: Vec<GrepResult>)
        requires
            self.wf(),
        ensures
            results_view(r@) == capped(
                store_matches(
                    self.store_model().docs_view(),
                    glob_view(glob),
                    false,
                    pattern_lower@,
                ),
            ),
    {
        let ghost docs = self.store_model().docs_view();
        let ghost gv = glob_view(glob);
        let paths = self.store.paths();
        let mut results: Vec<GrepResult> = Vec::new();
        let mut i: usize = 0;
        proof {
            assert(results_view(results@) =~= Seq::<(Seq<char>, u32, Seq<char>)>::empty());
            assert(store_matches_upto(docs, gv, false, pattern_lower@, 0) =~= Seq::<
                (Seq<char>, u32, Seq<char>),
            >::empty());
        }
        proof {
            assert(paths.deep_view().len() == self.store_model().paths_view().len());
        }
        while i < paths.len() && results.len() < 100
            invariant
                self.wf(),
                docs == self.store_model().docs_view(),
                gv == glob_view(glob),
                paths.deep_view() == self.store_model().paths_view(),
                paths@.len() == docs.len(),
                0 <= i <= paths@.len(),
                results@.len() <= 100,
                results_view(results@) == capped(
                    store_matches_upto(docs, gv, false, pattern_lower@, i as int),
                ),
            decreases paths@.len() - i,
        {
            let ghost sofar = store_matches_upto(docs, gv, false, pattern_lower@, i as int);
            let keep = match glob {
                Some(g) => glob_match::glob_match(g, paths[i]),
                None => true,
            };
            proof {
                assert(paths.deep_view()[i as int] == paths@[i as int]@);
                assert(paths@[i as int]@ == docs[i as int].path@);
                assert(keep == glob_ok(gv, docs[i as int].path@));
            }
            if keep {
                if let Some(doc) = self.store.get_document(paths[i]) {
                    proof {
                        self.store_model().lemma_doc_at_index(i as int);
                        assert(*doc == docs[i as int]);
                    }
                    let ghost lines = views_of(doc.lines@);
                    let mut m: usize = 0;
                    proof {
                        assert(doc_matches_upto(doc.path@, lines, false, pattern_lower@, 0) =~= Seq::<
                            (Seq<char>, u32, Seq<char>),
                        >::empty());
                        assert(sofar + doc_matches_upto(doc.path@, lines, false, pattern_lower@, 0)
                            =~= sofar);
                    }
                    while m < doc.lines.len() && results.len() < 100
                        invariant
                            self.wf(),
                            doc.wf(),
                            *doc == docs[i as int],
                            0 <= i < docs.len(),
                            docs == self.store_model().docs_view(),
                            lines == views_of(doc.lines@),
                            doc.lines@.len() <= u32::MAX,
                            0 <= m <= doc.lines@.len(),
                            results@.len() <= 100,
                            sofar == store_matches_upto(docs, gv, false, pattern_lower@, i as int),
                            results_view(results@) == capped(
                                sofar + doc_matches_upto(
                                    doc.path@,
                                    lines,
                                    false,
                                    pattern_lower@,
                                    m as int,
                                ),
                            ),
                        decreases doc.lines@.len() - m,
                    {
                        let ghost partial = sofar + doc_matches_upto(
                            doc.path@,
                            lines,
                            false,
                            pattern_lower@,
                            m as int,
                        );
                        let hit = str_contains(doc.lines_lower[m].as_str(), pattern_lower);
                        proof {
                            assert(doc.lines_lower@[m as int]@ == lower_of(doc.lines@[m as int]@));
                            assert(lines[m as int] == doc.lines@[m as int]@);
                            assert(hit == line_hits(false, pattern_lower@, lines[m as int]));
                        }
                        if hit {
                            proof {
                                // Below the cap the capped list is the list itself.
                                if partial.len() > 100 {
                                    assert(results_view(results@).len() == 100);
                                }
                                assert(partial == results_view(results@));
                            }
                            let res = GrepResult {
                                path: doc.path.clone(),
                                line: (m + 1) as u32,
                                content: doc.lines[m].clone(),
                            };
                            let ghost pre = results_view(results@);
                            results.push(res);
                            proof {
                                assert(results_view(results@) =~= pre.push(
                                    (doc.path@, (m + 1) as u32, lines[m as int]),
                                ));
                                let next = sofar + doc_matches_upto(
                                    doc.path@,
                                    lines,
                                    false,
                                    pattern_lower@,
                                    m + 1,
                                );
                                assert(next =~= partial.push(
                                    (doc.path@, (m + 1) as u32, lines[m as int]),
                                ));
                                assert(next.len() <= 100);
                                assert(results_view(results@) == capped(next));
                            }
                        } else {
                            proof {
                                let next = sofar + doc_matches_upto(
                                    doc.path@,
                                    lines,
                                    false,
                                    pattern_lower@,
                                    m + 1,
                                );
                                assert(next =~= partial);
                            }
                        }
                        m += 1;
                    }
                    proof {
                        let full = sofar + doc_matches(doc.path@, lines, false, pattern_lower@);
                        assert(store_matches_upto(docs, gv, false, pattern_lower@, i + 1) == sofar
                            + doc_matches(docs[i as int].path@, views_of(docs[i as int].lines@),
                        false, pattern_lower@));
                        if m < doc.lines@.len() {
                            // The cap stopped the scan: anything further cannot
                            // change the capped list.
                            let partial = sofar + doc_matches_upto(
                                doc.path@,
                                lines,
                                false,
                                pattern_lower@,
                                m as int,
                            );
                            assert(results_view(results@).len() == 100);
                            assert(capped(partial).len() == 100);
                            assert(partial.len() >= 100);
                            lemma_doc_matches_prefix(
                                doc.path@,
                                lines,
                                false,
                                pattern_lower@,
                                m as int,
                                lines.len() as int,
                            );
                            assert(partial.is_prefix_of(full)) by {
                                let dm = doc_matches_upto(
                                    doc.path@,
                                    lines,
                                    false,
                                    pattern_lower@,
                                    m as int,
                                );
                                let df = doc_matches(doc.path@, lines, false, pattern_lower@);
                                assert(dm =~= df.subrange(0, dm.len() as int));
                                assert(partial =~= full.subrange(0, partial.len() as int));
                            }
                            lemma_cap_prefix(partial, full);
                        }
                        assert(results_view(results@) == capped(
                            store_matches_upto(docs, gv, false, pattern_lower@, i + 1),
                        ));
                    }
                } else {
                    // Unreachable: every listed path resolves to a document.
                    proof {
                        assert(self.store_model().has_path(paths.deep_view()[i as int]));
                        assert(false);
                    }
                }
            } else {
                proof {
                    assert(store_matches_upto(docs, gv, false, pattern_lower@, i + 1) =~= sofar);
                }
            }
            i += 1;
        }
        proof {
            let full = store_matches(docs, gv, false, pattern_lower@);
            if i < paths@.len() {
                let partial = store_matches_upto(docs, gv, false, pattern_lower@, i as int);
                assert(results_view(results@).len() == 100);
                assert(capped(partial).len() == 100);
                assert(partial.len() >= 100);
                lemma_store_matches_prefix(
                    docs,
                    gv,
                    false,
                    pattern_lower@,
                    i as int,
                    docs.len() as int,
                );
                lemma_cap_prefix(partial, full);
            }
        }
        results
    }

    /// Index path: the inverted index supplies, already sorted and
    /// deduplicated, every line on which some token contains the pattern;
    /// only the glob filter and the content lookup remain. For alphanumeric
    /// patterns this finds exactly the lines a full scan would.
    fn grep_index(&self, pattern_lower: &str, glob: Option<&str>) -> (r: Vec<GrepResult>)
        requires
            self.wf(),
            pattern_lower@.len() > 0,
            forall|k: int| 0 <= k < pattern_lower@.len() ==> is_alphanum(pattern_lower@[k]),
        ensures
            results_view(r@) == capped(
                store_matches(
                    self.store_model().docs_view(),
                    glob_view(glob),
                    false,
                    pattern_lower@,
                ),
            ),
    {
        let ghost docs = self.store_model().docs_view();
        let ghost gv = glob_view(glob);
        let locations = self.store.index().find_containing(pattern_lower);
        let ghost locs = crate::index::locs_view(locations@);
        proof {
            lemma_index_strategy_exact(self.store_model(), locs, gv, pattern_lower@);
        }
        let mut results: Vec<GrepResult> = Vec::new();
        let mut k: usize = 0;
        proof {
            assert(results_view(results@) =~= Seq::<(Seq<char>, u32, Seq<char>)>::empty());
            assert(attach_upto(docs, locs, gv, 0) =~= Seq::<(Seq<char>, u32, Seq<char>)>::empty());
        }
        while k < locations.len() && results.len() < 100
            invariant
                self.wf(),
                docs == self.store_model().docs_view(),
                gv == glob_view(glob),
                locs == crate::index::locs_view(locations@),
                forall|q: (Seq<char>, u32)|
                    #[trigger] locs.contains(q) == self.store_model().index_model().index_hit(
                        pattern_lower@,
                        q,
                    ),
                0 <= k <= locations@.len(),
                results@.len() <= 100,
                results_view(results@) == capped(attach_upto(docs, locs, gv, k as int)),
            decreases locations@.len() - k,
        {
            let ghost sofar = attach_upto(docs, locs, gv, k as int);
            let ghost q = locs[k as int];
            proof {
                assert(locs[k as int] == crate::index::loc_view(locations@[k as int]));
                assert(locs.contains(q));
                assert(self.store_model().index_model().index_hit(pattern_lower@, q));
                let t = choose|t: Seq<char>|
                    #[trigger] self.store_model().index_model().locs(t).contains(q)
                        && self.store_model().index_model().tokens().contains(t) && contains_sub(
                        t,
                        pattern_lower@,
                    );
                assert(self.store_model().store_hit(t, q));
            }
            let keep = match glob {
                Some(g) => glob_match::glob_match(g, locations[k].0.as_str()),
                None => true,
            };
            proof {
                assert(keep == glob_ok(gv, q.0));
            }
            if keep {
                proof {
                    // The recorded location names a stored document and an
                    // in-range line.
                    let t = choose|t: Seq<char>|
                        #[trigger] self.store_model().index_model().locs(t).contains(q)
                            && self.store_model().index_model().tokens().contains(t)
                            && contains_sub(t, pattern_lower@);
                    let i = choose|i: int|
                        0 <= i < docs.len() && q.0 == (#[trigger] docs[i]).path@ && 1 <= q.1
                            <= docs[i].lines@.len() && crate::tokenizer::tokens_of(
                            lower_of(docs[i].lines@[q.1 - 1]@),
                        ).contains(t);
                    crate::store::lemma_doc_of_is(docs, q.0, i);
                    assert(self.store_model().has_path(q.0));
                    assert(self.store_model().doc_at(q.0) == docs[i]);
                }
                if let Some(doc) = self.store.get_document(locations[k].0.as_str()) {
                    let line_num = locations[k].1;
                    proof {
                        assert(line_num == q.1);
                        assert(1 <= q.1 <= doc.lines@.len());
                    }
                    let idx = (line_num - 1) as usize;
                    if idx < doc.lines.len() {
                        proof {
                            if (sofar + seq![(q.0, q.1, content_at(docs, q))]).len() > 100 {
                                assert(results_view(results@).len() == 100);
                            }
                            assert(sofar == results_view(results@));
                        }
                        let res = GrepResult {
                            path: locations[k].0.clone(),
                            line: line_num,
                            content: doc.lines[idx].clone(),
                        };
                        let ghost pre = results_view(results@);
                        results.push(res);
                        proof {
                            assert(doc.lines@[idx as int]@ == views_of(doc.lines@)[q.1 - 1]);
                            assert(content_at(docs, q) == views_of(
                                self.store_model().doc_at(q.0).lines@,
                            )[q.1 - 1]);
                            assert(results_view(results@) =~= pre.push(
                                (q.0, q.1, content_at(docs, q)),
                            ));
                            let next = attach_upto(docs, locs, gv, k + 1);
                            assert(next =~= sofar.push((q.0, q.1, content_at(docs, q))));
                            assert(next.len() <= 100);
                            assert(results_view(results@) == capped(next));
                        }
                    } else {
                        // Unreachable: recorded line numbers are in range.
                        proof {
                            assert(false);
                        }
                    }
                } else {
                    // Unreachable: recorded locations name stored documents.
                    proof {
                        assert(false);
                    }
                }
            } else {
                proof {
                    assert(attach_upto(docs, locs, gv, k + 1) =~= sofar);
                }
            }
            k += 1;
        }
        proof {
            let full = attach_upto(docs, locs, gv, locs.len() as int);
            if k < locations@.len() {
                let partial = attach_upto(docs, locs, gv, k as int);
                assert(results_view(results@).len() == 100);
                assert(capped(partial).len() == 100);
                assert(partial.len() >= 100);
                lemma_attach_prefix(docs, locs, gv, k as int, locs.len() as int);
                lemma_cap_prefix(partial, full);
            }
            assert(results_view(results@) == capped(
                store_matches(docs, gv, false, pattern_lower@),
            ));
        }
        results
    }

    /// Regex path: every document in path order, testing each raw line
    /// against the case-insensitively compiled pattern.
    fn grep_regex(&self, pattern: &str, glob: Option<&str>) -> (r: Vec<GrepResult>)
        requires
            self.wf(),
            regex_build_ok(pattern@),
        ensures
            results_view(r@) == capped(
                store_matches(self.store_model().docs_view(), glob_view(glob), true, pattern@),
            ),
    {
        let ghost docs = self.store_model().docs_view();
        let ghost gv = glob_view(glob);
        let paths = self.store.paths();
        let mut results: Vec<GrepResult> = Vec::new();
        let mut i: usize = 0;
        proof {
            assert(results_view(results@) =~= Seq::<(Seq<char>, u32, Seq<char>)>::empty());
            assert(store_matches_upto(docs, gv, true, pattern@, 0) =~= Seq::<
                (Seq<char>, u32, Seq<char>),
            >::empty());
            assert(paths.deep_view().len() == self.store_model().paths_view().len());
        }
        while i < paths.len() && results.len() < 100
            invariant
                self.wf(),
                regex_build_ok(pattern@),
                docs == self.store_model().docs_view(),
                gv == glob_view(glob),
                paths.deep_view() == self.store_model().paths_view(),
                paths@.len() == docs.len(),
                0 <= i <= paths@.len(),
                results@.len() <= 100,
                results_view(results@) == capped(
                    store_matches_upto(docs, gv, true, pattern@, i as int),
                ),
            decreases paths@.len() - i,
        {
            let ghost sofar = store_matches_upto(docs, gv, true, pattern@, i as int);
            let keep = match glob {
                Some(g) => glob_match::glob_match(g, paths[i]),
                None => true,
            };
            proof {
                assert(paths.deep_view()[i as int] == paths@[i as int]@);
                assert(paths@[i as int]@ == docs[i as int].path@);
                assert(keep == glob_ok(gv, docs[i as int].path@));
            }
            if keep {
                if let Some(doc) = self.store.get_document(paths[i]) {
                    proof {
                        self.store_model().lemma_doc_at_index(i as int);
                        assert(*doc == docs[i as int]);
                    }
                    let ghost lines = views_of(doc.lines@);
                    let mut m: usize = 0;
                    proof {
                        assert(doc_matches_upto(doc.path@, lines, true, pattern@, 0) =~= Seq::<
                            (Seq<char>, u32, Seq<char>),
                        >::empty());
                        assert(sofar + doc_matches_upto(doc.path@, lines, true, pattern@, 0)
                            =~= sofar);
                    }
                    while m < doc.lines.len() && results.len() < 100
                        invariant
                            self.wf(),
                            doc.wf(),
                            regex_build_ok(pattern@),
                            *doc == docs[i as int],
                            0 <= i < docs.len(),
                            docs == self.store_model().docs_view(),
                            lines == views_of(doc.lines@),
                            doc.lines@.len() <= u32::MAX,
                            0 <= m <= doc.lines@.len(),
                            results@.len() <= 100,
                            sofar == store_matches_upto(docs, gv, true, pattern@, i as int),
                            results_view(results@) == capped(
                                sofar + doc_matches_upto(doc.path@, lines, true, pattern@, m as int),
                            ),
                        decreases doc.lines@.len() - m,
                    {
                        let ghost partial = sofar + doc_matches_upto(
                            doc.path@,
                            lines,
                            true,
                            pattern@,
                            m as int,
                        );
                        let hit = regex_line_match(pattern, doc.lines[m].as_str());
                        proof {
                            assert(lines[m as int] == doc.lines@[m as int]@);
                            assert(hit == line_hits(true, pattern@, lines[m as int]));
                        }
                        if hit {
                            proof {
                                if partial.len() > 100 {
                                    assert(results_view(results@).len() == 100);
                                }
                                assert(partial == results_view(results@));
                            }
                            let res = GrepResult {
                                path: doc.path.clone(),
                                line: (m + 1) as u32,
                                content: doc.lines[m].clone(),
                            };
                            let ghost pre = results_view(results@);
                            results.push(res);
                            proof {
                                assert(results_view(results@) =~= pre.push(
                                    (doc.path@, (m + 1) as u32, lines[m as int]),
                                ));
                                let next = sofar + doc_matches_upto(
                                    doc.path@,
                                    lines,
                                    true,
                                    pattern@,
                                    m + 1,
                                );
                                assert(next =~= partial.push(
                                    (doc.path@, (m + 1) as u32, lines[m as int]),
                                ));
                                assert(next.len() <= 100);
                                assert(results_view(results@) == capped(next));
                            }
                        } else {
                            proof {
                                let next = sofar + doc_matches_upto(
                                    doc.path@,
                                    lines,
                                    true,
                                    pattern@,
                                    m + 1,
                                );
                                assert(next =~= partial);
                            }
                        }
                        m += 1;
                    }
                    proof {
                        let full = sofar + doc_matches(doc.path@, lines, true, pattern@);
                        assert(store_matches_upto(docs, gv, true, pattern@, i + 1) == sofar
                            + doc_matches(docs[i as int].path@, views_of(docs[i as int].lines@),
                        true, pattern@));
                        if m < doc.lines@.len() {
                            let partial = sofar + doc_matches_upto(
                                doc.path@,
                                lines,
                                true,
                                pattern@,
                                m as int,
                            );
                            assert(results_view(results@).len() == 100);
                            assert(capped(partial).len() == 100);
                            assert(partial.len() >= 100);
                            lemma_doc_matches_prefix(
                                doc.path@,
                                lines,
                                true,
                                pattern@,
                                m as int,
                                lines.len() as int,
                            );
                            assert(partial.is_prefix_of(full)) by {
                                let dm = doc_matches_upto(
                                    doc.path@,
                                    lines,
                                    true,
                                    pattern@,
                                    m as int,
                                );
                                let df = doc_matches(doc.path@, lines, true, pattern@);
                                assert(dm =~= df.subrange(0, dm.len() as int));
                                assert(partial =~= full.subrange(0, partial.len() as int));
                            }
                            lemma_cap_prefix(partial, full);
                        }
                        assert(results_view(results@) == capped(
                            store_matches_upto(docs, gv, true, pattern@, i + 1),
                        ));
                    }
                } else {
                    // Unreachable: every listed path resolves to a document.
                    proof {
                        assert(self.store_model().has_path(paths.deep_view()[i as int]));
                        assert(false);
                    }
                }
            } else {
                proof {
                    assert(store_matches_upto(docs, gv, true, pattern@, i + 1) =~= sofar);
                }
            }
            i += 1;
        }
        proof {
            let full = store_matches(docs, gv, true, pattern@);
            if i < paths@.len() {
                let partial = store_matches_upto(docs, gv, true, pattern@, i as int);
                assert(results_view(results@).len() == 100);
                assert(capped(partial).len() == 100);
                assert(partial.len() >= 100);
                lemma_store_matches_prefix(docs, gv, true, pattern@, i as int, docs.len() as int);
                lemma_cap_prefix(partial, full);
            }
        }
        results
    }
}

} // verus!
