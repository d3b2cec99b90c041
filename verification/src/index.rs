//! The inverted index: a map from token to the ordered list of
//! (path, 1-indexed line number) locations where the token occurs. Repeated
//! occurrences of a token within one line collapse to a single location.

use vstd::prelude::*;
use vstd::string::StringExecFns;

use crate::text::contains_sub;
use crate::text::lemma_seq_lt_asym;
use crate::text::lemma_seq_lt_total;
use crate::text::lemma_seq_lt_trans;
use crate::text::lower_of;
use crate::text::seq_lt;
use crate::text::str_contains;
use crate::text::str_eq;
use crate::text::str_lt;
use crate::tokenizer::tokenize;
use crate::tokenizer::tokens_of;

verus! {

/// The mathematical value of one stored location.
pub open spec fn loc_view(l: (String, u32)) -> (Seq<char>, u32) {
    (l.0@, l.1)
}

/// The mathematical values of a stored location list.
pub open spec fn locs_view(v: Seq<(String, u32)>) -> Seq<(Seq<char>, u32)> {
    v.map_values(|l: (String, u32)| loc_view(l))
}

/// The views of a sequence of strings.
pub open spec fn views_of(ss: Seq<String>) -> Seq<Seq<char>> {
    ss.map_values(|s: String| s@)
}

/// Order on locations: by path, then by line number.
pub open spec fn loc_lt(a: (Seq<char>, u32), b: (Seq<char>, u32)) -> bool {
    seq_lt(a.0, b.0) || (a.0 == b.0 && a.1 < b.1)
}

pub proof fn lemma_loc_lt_total(a: (Seq<char>, u32), b: (Seq<char>, u32))
    ensures
        loc_lt(a, b) || loc_lt(b, a) || a == b,
{
    lemma_seq_lt_total(a.0, b.0);
}

pub proof fn lemma_loc_lt_asym(a: (Seq<char>, u32), b: (Seq<char>, u32))
    ensures
        !(loc_lt(a, b) && loc_lt(b, a)),
{
    lemma_seq_lt_asym(a.0, b.0);
}

pub proof fn lemma_loc_lt_trans(a: (Seq<char>, u32), b: (Seq<char>, u32), c: (Seq<char>, u32))
    requires
        loc_lt(a, b),
        loc_lt(b, c),
    ensures
        loc_lt(a, c),
{
    if seq_lt(a.0, b.0) && seq_lt(b.0, c.0) {
        lemma_seq_lt_trans(a.0, b.0, c.0);
    }
}

/// Strictly ascending by `loc_lt` (so also free of duplicates).
pub open spec fn locs_sorted(s: Seq<(Seq<char>, u32)>) -> bool {
    forall|i: int, j: int| 0 <= i < j < s.len() ==> loc_lt(s[i], s[j])
}

/// Whether `a` sorts before the location `(path, line)`.
fn loc_before(a: &(String, u32), path: &str, line: u32) -> (r: bool)
    ensures
        r == loc_lt(loc_view(*a), (path@, line)),
{
    if str_lt(a.0.as_str(), path) {
        true
    } else if str_eq(a.0.as_str(), path) {
        a.1 < line
    } else {
        false
    }
}

/// Inserts `(path, line)` into a strictly sorted location list, keeping it
/// sorted and ignoring the insertion when the location is already present.
fn sorted_insert_loc(v: &mut Vec<(String, u32)>, path: &str, line: u32)
    requires
        locs_sorted(locs_view(old(v)@)),
    ensures
        locs_sorted(locs_view(final(v)@)),
        forall|q: (Seq<char>, u32)|
            locs_view(final(v)@).contains(q) == (locs_view(old(v)@).contains(q) || q == (
            path@,
            line,
            )),
{
    let ghost tgt: (Seq<char>, u32) = (path@, line);
    let mut i: usize = 0;
    while i < v.len() && loc_before(&v[i], path, line)
        invariant
            tgt == (path@, line),
            0 <= i <= v@.len(),
            locs_sorted(locs_view(v@)),
            forall|k: int| 0 <= k < i ==> loc_lt(locs_view(v@)[k], tgt),
        decreases v@.len() - i,
    {
        proof {
            assert(loc_view(v@[i as int]) == locs_view(v@)[i as int]);
        }
        i += 1;
    }
    proof {
        assert(i < v@.len() ==> !loc_lt(locs_view(v@)[i as int], tgt));
    }
    if i < v.len() && str_eq(v[i].0.as_str(), path) && v[i].1 == line {
        // Already present: the set of locations is unchanged.
        proof {
            assert(locs_view(v@)[i as int] == tgt);
            assert(locs_view(v@).contains(tgt));
        }
        return ;
    }
    proof {
        if i < v@.len() {
            assert(locs_view(v@)[i as int] != tgt) by {
                assert(loc_view(v@[i as int]).0 == v@[i as int].0@);
            }
            lemma_loc_lt_total(locs_view(v@)[i as int], tgt);
            assert(loc_lt(tgt, locs_view(v@)[i as int]));
        }
    }
    let ghost pre = locs_view(v@);
    v.insert(i, (path.to_owned(), line));
    proof {
        let post = locs_view(v@);
        assert(post =~= pre.insert(i as int, tgt)) by {
            assert forall|k: int| 0 <= k < post.len() implies post[k] == pre.insert(i as int, tgt)[k]
            by {
                if k < i {
                    assert(v@[k] == old(v)@[k]);
                } else if k == i {
                } else {
                    assert(v@[k] == old(v)@[k - 1]);
                }
            }
        }
        pre.insert_ensures(i as int, tgt);
        // Sortedness: everything before the slot is below `tgt`, everything
        // after is above it.
        assert(locs_sorted(post)) by {
            assert forall|x: int, y: int| 0 <= x < y < post.len() implies loc_lt(post[x], post[y])
            by {
                let px = if x < i {
                    pre[x]
                } else if x == i {
                    tgt
                } else {
                    pre[x - 1]
                };
                let py = if y < i {
                    pre[y]
                } else if y == i {
                    tgt
                } else {
                    pre[y - 1]
                };
                assert(post[x] == px);
                assert(post[y] == py);
                if x < i && y == i {
                } else if x == i && y > i {
                    // tgt < pre[i] <= pre[y-1]
                    if y - 1 > i {
                        lemma_loc_lt_trans(tgt, pre[i as int], pre[y - 1]);
                    }
                } else if x < i && y > i {
                    if y - 1 > i {
                        lemma_loc_lt_trans(tgt, pre[i as int], pre[y - 1]);
                    }
                    lemma_loc_lt_trans(pre[x], tgt, py);
                }
            }
        }
        assert forall|q: (Seq<char>, u32)| post.contains(q) == (pre.contains(q) || q == tgt) by {
            if pre.contains(q) {
                let k = choose|k: int| 0 <= k < pre.len() && pre[k] == q;
                if k < i {
                    assert(post[k] == q);
                } else {
                    assert(post[k + 1] == q);
                }
                assert(post.contains(q));
            }
            if q == tgt {
                assert(post[i as int] == q);
                assert(post.contains(q));
            }
            if post.contains(q) && q != tgt {
                let k = choose|k: int| 0 <= k < post.len() && post[k] == q;
                if k < i {
                    assert(pre[k] == q);
                } else {
                    assert(k > i);
                    assert(pre[k - 1] == q);
                }
                assert(pre.contains(q));
            }
        }
    }
}

// ---------------------------------------------------------------------------
// What indexing one document adds for a token.
// ---------------------------------------------------------------------------

/// The locations a document contributes to token `t`, for its first `n`
/// lines: one `(path, line)` pair for each 1-indexed line whose tokens
/// include `t`, in ascending line order.
pub open spec fn doc_locs_upto(path: Seq<char>, lines: Seq<Seq<char>>, t: Seq<char>, n: int) -> Seq<
    (Seq<char>, u32),
>
    decreases n,
{
    if n <= 0 {
        Seq::empty()
    } else {
        doc_locs_upto(path, lines, t, n - 1) + if tokens_of(lower_of(lines[n - 1])).contains(t) {
            seq![(path, n as u32)]
        } else {
            Seq::empty()
        }
    }
}

/// The locations a whole document contributes to token `t`.
pub open spec fn doc_locs(path: Seq<char>, lines: Seq<Seq<char>>, t: Seq<char>) -> Seq<
    (Seq<char>, u32),
> {
    doc_locs_upto(path, lines, t, lines.len() as int)
}

/// A document's contribution for `t` holds exactly the in-range lines whose
/// tokens include `t`.
pub proof fn lemma_doc_locs_membership(
    path: Seq<char>,
    lines: Seq<Seq<char>>,
    t: Seq<char>,
    q: (Seq<char>, u32),
    n: int,
)
    requires
        0 <= n <= lines.len(),
        lines.len() <= u32::MAX,
    ensures
        doc_locs_upto(path, lines, t, n).contains(q) == (q.0 == path && 1 <= q.1 <= n
            && tokens_of(lower_of(lines[q.1 - 1])).contains(t)),
    decreases n,
{
    if n > 0 {
        lemma_doc_locs_membership(path, lines, t, q, n - 1);
        let pre = doc_locs_upto(path, lines, t, n - 1);
        let cur = doc_locs_upto(path, lines, t, n);
        if tokens_of(lower_of(lines[n - 1])).contains(t) {
            assert(cur == pre + seq![(path, n as u32)]);
            if pre.contains(q) {
                let k = choose|k: int| 0 <= k < pre.len() && pre[k] == q;
                assert(cur[k] == q);
            }
            if q == (path, n as u32) {
                assert(cur[cur.len() - 1] == q);
            }
            if cur.contains(q) {
                let k = choose|k: int| 0 <= k < cur.len() && cur[k] == q;
                if k < pre.len() {
                    assert(pre[k] == q);
                } else {
                    assert(q == (path, n as u32));
                }
            }
        } else {
            assert(cur =~= pre);
        }
    }
}

/// Whether the `at`-th string of `v` already appears among its first `upto`
/// strings.
fn prefix_contains(v: &Vec<String>, upto: usize, at: usize) -> (r: bool)
    requires
        upto <= at < v@.len(),
    ensures
        r == v.deep_view().take(upto as int).contains(v.deep_view()[at as int]),
{
    let mut m: usize = 0;
    while m < upto
        invariant
            0 <= m <= upto,
            upto <= at < v@.len(),
            forall|k: int| 0 <= k < m ==> v.deep_view()[k] != v.deep_view()[at as int],
        decreases upto - m,
    {
        if str_eq(v[m].as_str(), v[at].as_str()) {
            proof {
                assert(v.deep_view().take(upto as int)[m as int] == v.deep_view()[at as int]);
            }
            return true;
        }
        m += 1;
    }
    proof {
        let dv = v.deep_view();
        assert forall|k: int| 0 <= k < upto implies dv.take(upto as int)[k] != dv[at as int] by {}
    }
    false
}

/// However often a token repeats within one line, the line contributes at
/// most one location for it: the contributed line numbers strictly ascend,
/// all under the document's path.
pub proof fn lemma_doc_locs_distinct(path: Seq<char>, lines: Seq<Seq<char>>, t: Seq<char>, n: int)
    requires
        0 <= n <= lines.len(),
        lines.len() <= u32::MAX,
    ensures
        forall|a: int|
            0 <= a < doc_locs_upto(path, lines, t, n).len() ==> (#[trigger] doc_locs_upto(
                path,
                lines,
                t,
                n,
            )[a]).0 == path && 1 <= doc_locs_upto(path, lines, t, n)[a].1 <= n,
        forall|a: int, b: int|
            0 <= a < b < doc_locs_upto(path, lines, t, n).len() ==> (#[trigger] doc_locs_upto(
                path,
                lines,
                t,
                n,
            )[a]).1 < (#[trigger] doc_locs_upto(path, lines, t, n)[b]).1,
    decreases n,
{
    if n > 0 {
        lemma_doc_locs_distinct(path, lines, t, n - 1);
        let pre = doc_locs_upto(path, lines, t, n - 1);
        let cur = doc_locs_upto(path, lines, t, n);
        if tokens_of(lower_of(lines[n - 1])).contains(t) {
            assert forall|a: int| 0 <= a < cur.len() implies (#[trigger] cur[a]).0 == path && 1
                <= cur[a].1 <= n by {
                if a < pre.len() {
                    assert(cur[a] == pre[a]);
                } else {
                    assert(cur[a] == (path, n as u32));
                }
            }
            assert forall|a: int, b: int| 0 <= a < b < cur.len() implies (#[trigger] cur[a]).1 < (
            #[trigger] cur[b]).1 by {
                if b < pre.len() {
                    assert(cur[a] == pre[a]);
                    assert(cur[b] == pre[b]);
                } else {
                    assert(cur[a] == pre[a]);
                    assert(cur[b] == (path, n as u32));
                    assert(pre[a].1 <= n - 1);
                }
            }
        } else {
            assert(cur =~= pre);
        }
    }
}

// ---------------------------------------------------------------------------
// The index structure.
// ---------------------------------------------------------------------------

/// Maps each token to the list of locations where it occurs, as an
/// association list with unique token keys.
#[derive(Debug)]
pub struct InvertedIndex {
    entries: Vec<(String, Vec<(String, u32)>)>,
}

impl InvertedIndex {
    /// The token keys, in storage order.
    pub closed spec fn tokens(self) -> Seq<Seq<char>> {
        self.entries@.map_values(|e: (String, Vec<(String, u32)>)| e.0@)
    }

    /// The location list of the `i`-th entry.
    pub closed spec fn locs_at(self, i: int) -> Seq<(Seq<char>, u32)> {
        locs_view(self.entries@[i].1@)
    }

    /// Whether `t` is an indexed token.
    pub open spec fn has_token(self, t: Seq<char>) -> bool {
        self.tokens().contains(t)
    }

    /// The locations recorded for token `t` (empty if it is not indexed).
    pub closed spec fn locs(self, t: Seq<char>) -> Seq<(Seq<char>, u32)> {
        if self.tokens().contains(t) {
            self.locs_at(self.tokens().index_of(t))
        } else {
            Seq::empty()
        }
    }

    /// Token keys are unique.
    pub closed spec fn wf(self) -> bool {
        forall|i: int, j: int|
            0 <= i < j < self.tokens().len() ==> self.tokens()[i] != self.tokens()[j]
    }

    /// The number of distinct indexed tokens.
    pub open spec fn num_tokens(self) -> nat {
        self.tokens().len()
    }

    /// With unique keys, an entry holding `t` pins down `locs(t)`.
    proof fn lemma_locs_is(self, t: Seq<char>, i: int)
        requires
            self.wf(),
            0 <= i < self.tokens().len(),
            self.tokens()[i] == t,
        ensures
            self.has_token(t),
            self.locs(t) == self.locs_at(i),
            self.tokens().index_of(t) == i,
    {
        assert(self.tokens().contains(t));
        let j = self.tokens().index_of(t);
        assert(self.tokens()[j] == t);
        if i != j {
            assert(self.tokens()[i] != self.tokens()[j]);
        }
    }

    /// A token that is not indexed has no recorded locations.
    pub proof fn lemma_locs_absent(self, t: Seq<char>)
        requires
            !self.has_token(t),
        ensures
            self.locs(t) == Seq::<(Seq<char>, u32)>::empty(),
    {
    }

    pub fn new() -> (r: Self)
        ensures
            r.wf(),
            r.num_tokens() == 0,
            forall|t: Seq<char>| !r.has_token(t),
            forall|t: Seq<char>| r.locs(t) == Seq::<(Seq<char>, u32)>::empty(),
    {
        let r = InvertedIndex { entries: Vec::new() };
        proof {
            assert(r.tokens() =~= Seq::<Seq<char>>::empty());
        }
        r
    }

    /// The number of distinct tokens in the index.
    pub fn token_count(&self) -> (r: usize)
        ensures
            r == self.num_tokens(),
    {
        self.entries.len()
    }

    /// Index of the entry holding `tok`, if any.
    fn find_entry(&self, tok: &String) -> (r: Option<usize>)
        ensures
            match r {
                Some(e) => 0 <= e < self.tokens().len() && self.tokens()[e as int] == tok@,
                None => !self.has_token(tok@),
            },
    {
        let mut e: usize = 0;
        while e < self.entries.len()
            invariant
                0 <= e <= self.entries@.len(),
                forall|k: int| 0 <= k < e ==> self.tokens()[k] != tok@,
            decreases self.entries@.len() - e,
        {
            if str_eq(self.entries[e].0.as_str(), tok.as_str()) {
                proof {
                    assert(self.tokens()[e as int] == tok@);
                }
                return Some(e);
            }
            e += 1;
        }
        proof {
            assert(!self.tokens().contains(tok@));
        }
        None
    }

    /// Records for every token of every line of the document one location
    /// `(path, line)` per line in which the token occurs, repeated occurrences
    /// within a line collapsed to one.
    pub fn add_document(&mut self, path: &str, lines: &[String])
        requires
            old(self).wf(),
            lines@.len() <= u32::MAX,
        ensures
            final(self).wf(),
            forall|t: Seq<char>|
                final(self).locs(t) == old(self).locs(t) + doc_locs(path@, views_of(lines@), t),
            forall|t: Seq<char>|
                final(self).has_token(t) == (old(self).has_token(t) || doc_locs(
                    path@,
                    views_of(lines@),
                    t,
                ).len() > 0),
    {
        let ghost linesv = views_of(lines@);
        let mut ln: usize = 0;
        proof {
            assert forall|t: Seq<char>|
                old(self).locs(t) == old(self).locs(t) + doc_locs_upto(
                    path@,
                    linesv,
                    t,
                    0,
                ) by {
                assert(old(self).locs(t) + doc_locs_upto(path@, linesv, t, 0) =~= old(self).locs(
                    t,
                ));
            }
        }
        while ln < lines.len()
            invariant
                self.wf(),
                0 <= ln <= lines@.len(),
                lines@.len() <= u32::MAX,
                linesv == views_of(lines@),
                forall|t: Seq<char>|
                    self.locs(t) == old(self).locs(t) + doc_locs_upto(
                        path@,
                        linesv,
                        t,
                        ln as int,
                    ),
                forall|t: Seq<char>| #[trigger]
                    self.has_token(t) == (old(self).has_token(t) || doc_locs_upto(
                        path@,
                        linesv,
                        t,
                        ln as int,
                    ).len() > 0),
            decreases lines@.len() - ln,
        {
            let toks = tokenize(lines[ln].as_str());
            let line_no: u32 = (ln + 1) as u32;
            let ghost snap = *self;
            let ghost tv = toks.deep_view();
            proof {
                assert(forall|t: Seq<char>| #[trigger]
                    snap.has_token(t) == (old(self).has_token(t) || doc_locs_upto(
                        path@,
                        linesv,
                        t,
                        ln as int,
                    ).len() > 0));
            }
            let mut k: usize = 0;
            while k < toks.len()
                invariant
                    self.wf(),
                    0 <= k <= toks@.len(),
                    tv == toks.deep_view(),
                    ln < lines@.len() <= u32::MAX,
                    line_no == ln + 1,
                    snap.wf(),
                    forall|t: Seq<char>|
                        tv.take(k as int).contains(t) ==> self.locs(t) == snap.locs(t) + seq![
                            (path@, line_no),
                        ],
                    forall|t: Seq<char>|
                        !tv.take(k as int).contains(t) ==> self.locs(t) == snap.locs(t),
                    forall|t: Seq<char>| #[trigger]
                        self.has_token(t) == (snap.has_token(t) || tv.take(k as int).contains(t)),
                decreases toks@.len() - k,
            {
                let is_dup = prefix_contains(&toks, k, k);
                let ghost prev = *self;
                let ghost tk_v = tv[k as int];
                proof {
                    assert(forall|t: Seq<char>| #[trigger]
                        prev.has_token(t) == (snap.has_token(t) || tv.take(k as int).contains(t)));
                }
                if !is_dup {
                    let loc = (path.to_owned(), line_no);
                    match self.find_entry(&toks[k]) {
                        Some(e) => {
                            proof {
                                prev.lemma_locs_is(tk_v, e as int);
                            }
                            let entry = &mut self.entries[e];
                            entry.1.push(loc);
                            proof {
                                assert(self.tokens() =~= prev.tokens());
                                assert(self.locs_at(e as int) =~= prev.locs_at(e as int) + seq![
                                    (path@, line_no),
                                ]);
                                assert forall|i: int|
                                    0 <= i < self.tokens().len() && i != e ==> self.locs_at(i)
                                        == prev.locs_at(i) by {}
                                self.lemma_locs_is(tk_v, e as int);
                                assert(self.locs(tk_v) =~= prev.locs(tk_v) + seq![
                                    (path@, line_no),
                                ]);
                                assert(prev.tokens()[e as int] == tk_v);
                                assert(prev.has_token(tk_v));
                                assert(forall|t: Seq<char>|
                                    self.has_token(t) == prev.has_token(t));
                                assert forall|t: Seq<char>| t != tk_v implies self.locs(t)
                                    == prev.locs(t) by {
                                    if prev.tokens().contains(t) {
                                        let j = prev.tokens().index_of(t);
                                        prev.lemma_locs_is(t, j);
                                        self.lemma_locs_is(t, j);
                                    }
                                }
                            }
                        },
                        None => {
                            let tok_owned = toks[k].clone();
                            let mut locs_new: Vec<(String, u32)> = Vec::new();
                            locs_new.push(loc);
                            self.entries.push((tok_owned, locs_new));
                            proof {
                                assert(self.tokens() =~= prev.tokens().push(tk_v));
                                let newi = prev.tokens().len() as int;
                                assert(self.wf()) by {
                                    assert forall|i: int, j: int|
                                        0 <= i < j < self.tokens().len() implies self.tokens()[i]
                                        != self.tokens()[j] by {
                                        if j == newi {
                                            assert(self.tokens()[i] == prev.tokens()[i]);
                                            if prev.tokens()[i] == tk_v {
                                                assert(prev.tokens().contains(tk_v));
                                            }
                                        }
                                    }
                                }
                                assert(self.locs_at(newi) =~= seq![(path@, line_no)]);
                                self.lemma_locs_is(tk_v, newi);
                                assert(!prev.has_token(tk_v));
                                assert(prev.locs(tk_v) == Seq::<(Seq<char>, u32)>::empty());
                                assert(self.locs(tk_v) =~= prev.locs(tk_v) + seq![
                                    (path@, line_no),
                                ]);
                                assert forall|t: Seq<char>| t != tk_v implies self.locs(t)
                                    == prev.locs(t) by {
                                    assert(self.tokens().contains(t) == prev.tokens().contains(t))
                                        by {
                                        if self.tokens().contains(t) {
                                            let j = choose|j: int|
                                                0 <= j < self.tokens().len() && self.tokens()[j]
                                                    == t;
                                            assert(j != newi);
                                            assert(prev.tokens()[j] == t);
                                        }
                                        if prev.tokens().contains(t) {
                                            let j = choose|j: int|
                                                0 <= j < prev.tokens().len() && prev.tokens()[j]
                                                    == t;
                                            assert(self.tokens()[j] == t);
                                        }
                                    }
                                    if prev.tokens().contains(t) {
                                        let j = prev.tokens().index_of(t);
                                        prev.lemma_locs_is(t, j);
                                        self.lemma_locs_is(t, j);
                                    }
                                }
                                assert forall|t: Seq<char>|
                                    self.has_token(t) == (prev.has_token(t) || t == tk_v) by {
                                    if t == tk_v {
                                        assert(self.tokens()[newi] == tk_v);
                                        assert(self.tokens().contains(tk_v));
                                    } else {
                                        if self.tokens().contains(t) {
                                            let j = choose|j: int|
                                                0 <= j < self.tokens().len() && self.tokens()[j]
                                                    == t;
                                            assert(j != newi);
                                            assert(prev.tokens()[j] == t);
                                            assert(prev.tokens().contains(t));
                                        }
                                        if prev.tokens().contains(t) {
                                            let j = choose|j: int|
                                                0 <= j < prev.tokens().len() && prev.tokens()[j]
                                                    == t;
                                            assert(self.tokens()[j] == t);
                                            assert(self.tokens().contains(t));
                                        }
                                    }
                                }
                            }
                        },
                    }
                }
                proof {
                    assert(tv.take(k + 1) =~= tv.take(k as int).push(tk_v));
                    assert forall|t: Seq<char>|
                        tv.take(k + 1).contains(t) == (tv.take(k as int).contains(t) || t
                            == tk_v) by {
                        let taken = tv.take(k as int);
                        if taken.contains(t) {
                            let m = choose|m: int| 0 <= m < taken.len() && taken[m] == t;
                            assert(tv.take(k + 1)[m] == t);
                        }
                        if t == tk_v {
                            assert(tv.take(k + 1)[k as int] == t);
                        }
                        if tv.take(k + 1).contains(t) {
                            let longer = tv.take(k + 1);
                            let m = choose|m: int| 0 <= m < longer.len() && longer[m] == t;
                            if m < k {
                                assert(taken[m] == t);
                            }
                        }
                    }
                    if is_dup {
                        // The token was already handled on this line.
                        assert(tv.take(k as int).contains(tk_v));
                        assert forall|t: Seq<char>|
                            self.has_token(t) == (snap.has_token(t) || tv.take(k + 1).contains(
                                t,
                            )) by {}
                    } else {
                        assert(!tv.take(k as int).contains(tk_v));
                        assert(prev.locs(tk_v) == snap.locs(tk_v));
                        assert(self.locs(tk_v) == prev.locs(tk_v) + seq![(path@, line_no)]);
                        assert forall|t: Seq<char>| tv.take(k + 1).contains(t) implies self.locs(t)
                            == snap.locs(t) + seq![(path@, line_no)] by {
                            if t != tk_v {
                                assert(tv.take(k as int).contains(t));
                                assert(prev.locs(t) == snap.locs(t) + seq![(path@, line_no)]);
                                assert(self.locs(t) == prev.locs(t));
                            }
                        }
                        assert forall|t: Seq<char>|
                            !tv.take(k + 1).contains(t) implies self.locs(t) == snap.locs(t) by {
                            assert(!tv.take(k as int).contains(t));
                            assert(t != tk_v);
                            assert(self.locs(t) == prev.locs(t));
                        }
                        assert forall|t: Seq<char>|
                            self.has_token(t) == (snap.has_token(t) || tv.take(k + 1).contains(
                                t,
                            )) by {
                            if t != tk_v {
                                assert(self.has_token(t) == prev.has_token(t));
                            } else {
                                assert(self.has_token(tk_v));
                            }
                        }
                    }
                    assert(forall|t: Seq<char>| #[trigger]
                        self.has_token(t) == (snap.has_token(t) || tv.take(k + 1).contains(t)));
                }
                k += 1;
            }
            proof {
                assert(tv.take(tv.len() as int) =~= tv);
                assert(tv == tokens_of(lower_of(linesv[ln as int])));
                assert(forall|t: Seq<char>| #[trigger]
                    self.has_token(t) == (snap.has_token(t) || tv.take(tv.len() as int).contains(
                        t,
                    )));
                assert forall|t: Seq<char>|
                    self.locs(t) == old(self).locs(t) + doc_locs_upto(
                        path@,
                        linesv,
                        t,
                        ln + 1,
                    ) by {
                    let upto = doc_locs_upto(path@, linesv, t, ln as int);
                    if tv.contains(t) {
                        assert(self.locs(t) == snap.locs(t) + seq![(path@, line_no)]);
                        assert(doc_locs_upto(path@, linesv, t, ln + 1) == upto + seq![
                            (path@, (ln + 1) as u32),
                        ]);
                        assert((ln + 1) as u32 == line_no);
                        assert((old(self).locs(t) + upto) + seq![(path@, line_no)] =~= old(
                            self,
                        ).locs(t) + (upto + seq![(path@, line_no)]));
                    } else {
                        assert(self.locs(t) == snap.locs(t));
                        assert(doc_locs_upto(path@, linesv, t, ln + 1) =~= upto);
                    }
                }
                assert forall|t: Seq<char>|
                    self.has_token(t) == (old(self).has_token(t) || doc_locs_upto(
                        path@,
                        linesv,
                        t,
                        ln + 1,
                    ).len() > 0) by {
                    let upto = doc_locs_upto(path@, linesv, t, ln as int);
                    if tv.contains(t) {
                        assert(doc_locs_upto(path@, linesv, t, ln + 1).len() == upto.len() + 1);
                    } else {
                        assert(doc_locs_upto(path@, linesv, t, ln + 1) =~= upto);
                    }
                }
            }
            ln += 1;
        }
        proof {
            assert(linesv.len() == lines@.len());
        }
    }

    /// Some indexed token contains `p`, and `q` is one of its locations.
    pub open spec fn index_hit(self, p: Seq<char>, q: (Seq<char>, u32)) -> bool {
        exists|t: Seq<char>|
            #[trigger] self.locs(t).contains(q) && self.tokens().contains(t) && contains_sub(t, p)
    }

    /// As `index_hit`, over the first `n` entries.
    spec fn hit_upto(self, p: Seq<char>, q: (Seq<char>, u32), n: int) -> bool {
        exists|j: int|
            0 <= j < n && contains_sub(self.tokens()[j], p) && #[trigger] self.locs_at(j).contains(
                q,
            )
    }

    /// All locations of every token that contains `substring` anywhere,
    /// deduplicated and sorted by (path, line).
    pub fn find_containing(&self, substring: &str) -> (r: Vec<(String, u32)>)
        requires
            self.wf(),
        ensures
            locs_sorted(locs_view(r@)),
            forall|q: (Seq<char>, u32)|
                #[trigger] locs_view(r@).contains(q) == self.index_hit(substring@, q),
    {
        let mut out: Vec<(String, u32)> = Vec::new();
        let mut i: usize = 0;
        proof {
            assert(locs_view(out@) =~= Seq::<(Seq<char>, u32)>::empty());
        }
        while i < self.entries.len()
            invariant
                self.wf(),
                0 <= i <= self.entries@.len(),
                locs_sorted(locs_view(out@)),
                forall|q: (Seq<char>, u32)|
                    #[trigger] locs_view(out@).contains(q) == self.hit_upto(
                        substring@,
                        q,
                        i as int,
                    ),
            decreases self.entries@.len() - i,
        {
            if str_contains(self.entries[i].0.as_str(), substring) {
                let ghost at_start = locs_view(out@);
                let mut m: usize = 0;
                while m < self.entries[i].1.len()
                    invariant
                        self.wf(),
                        0 <= i < self.entries@.len(),
                        0 <= m <= self.entries@[i as int].1@.len(),
                        locs_sorted(locs_view(out@)),
                        forall|q: (Seq<char>, u32)|
                            #[trigger] locs_view(out@).contains(q) == (at_start.contains(q)
                                || self.locs_at(i as int).take(m as int).contains(q)),
                    decreases self.entries@[i as int].1@.len() - m,
                {
                    let path_ref: &String = &self.entries[i].1[m].0;
                    let line: u32 = self.entries[i].1[m].1;
                    let ghost before = locs_view(out@);
                    sorted_insert_loc(&mut out, path_ref.as_str(), line);
                    proof {
                        let li = self.locs_at(i as int);
                        assert(li[m as int] == (path_ref@, line));
                        assert(li.take(m + 1) =~= li.take(m as int).push(li[m as int]));
                        assert forall|q: (Seq<char>, u32)| #[trigger]
                            li.take(m + 1).contains(q) == (li.take(m as int).contains(q) || q == (
                            path_ref@,
                            line,
                            )) by {
                            let shorter = li.take(m as int);
                            let longer = li.take(m + 1);
                            if shorter.contains(q) {
                                let w = choose|w: int| 0 <= w < shorter.len() && shorter[w] == q;
                                assert(longer[w] == q);
                            }
                            if q == (path_ref@, line) {
                                assert(longer[m as int] == q);
                            }
                            if longer.contains(q) {
                                let w = choose|w: int| 0 <= w < longer.len() && longer[w] == q;
                                if w < m {
                                    assert(shorter[w] == q);
                                }
                            }
                        }
                    }
                    m += 1;
                }
                proof {
                    let li = self.locs_at(i as int);
                    assert(li.take(li.len() as int) =~= li);
                    assert forall|q: (Seq<char>, u32)| #[trigger]
                        locs_view(out@).contains(q) == self.hit_upto(substring@, q, i + 1) by {
                        if locs_view(out@).contains(q) {
                            if at_start.contains(q) {
                                let j = choose|j: int|
                                    0 <= j < i && contains_sub(self.tokens()[j], substring@)
                                        && #[trigger] self.locs_at(j).contains(q);
                                assert(self.locs_at(j).contains(q));
                            } else {
                                assert(self.locs_at(i as int).contains(q));
                                assert(contains_sub(self.tokens()[i as int], substring@));
                            }
                        }
                        if self.hit_upto(substring@, q, i + 1) {
                            let j = choose|j: int|
                                0 <= j < i + 1 && contains_sub(self.tokens()[j], substring@)
                                    && #[trigger] self.locs_at(j).contains(q);
                            if j < i {
                                assert(self.hit_upto(substring@, q, i as int));
                                assert(at_start.contains(q));
                            } else {
                                assert(self.locs_at(i as int).contains(q));
                            }
                        }
                    }
                }
            } else {
                proof {
                    assert forall|q: (Seq<char>, u32)| #[trigger]
                        locs_view(out@).contains(q) == self.hit_upto(substring@, q, i + 1) by {
                        if self.hit_upto(substring@, q, i + 1) {
                            let j = choose|j: int|
                                0 <= j < i + 1 && contains_sub(self.tokens()[j], substring@)
                                    && #[trigger] self.locs_at(j).contains(q);
                            assert(j < i);
                            assert(self.hit_upto(substring@, q, i as int));
                        }
                        if locs_view(out@).contains(q) {
                            let j = choose|j: int|
                                0 <= j < i && contains_sub(self.tokens()[j], substring@)
                                    && #[trigger] self.locs_at(j).contains(q);
                            assert(self.locs_at(j).contains(q));
                        }
                    }
                }
            }
            i += 1;
        }
        proof {
            assert forall|q: (Seq<char>, u32)| #[trigger]
                locs_view(out@).contains(q) == self.index_hit(substring@, q) by {
                if locs_view(out@).contains(q) {
                    let j = choose|j: int|
                        0 <= j < self.tokens().len() && contains_sub(self.tokens()[j], substring@)
                            && #[trigger] self.locs_at(j).contains(q);
                    let t = self.tokens()[j];
                    self.lemma_locs_is(t, j);
                    assert(self.locs(t).contains(q));
                }
                if self.index_hit(substring@, q) {
                    let t = choose|t: Seq<char>|
                        #[trigger] self.locs(t).contains(q) && self.tokens().contains(t)
                            && contains_sub(t, substring@);
                    let j = self.tokens().index_of(t);
                    self.lemma_locs_is(t, j);
                    assert(self.locs_at(j).contains(q));
                    assert(self.hit_upto(substring@, q, self.tokens().len() as int));
                }
            }
        }
        out
    }

    /// Exact-token lookup, after case-folding the query.
    pub fn lookup(&self, token: &str) -> (r: Option<&Vec<(String, u32)>>)
        requires
            self.wf(),
        ensures
            match r {
                Some(v) => self.has_token(lower_of(token@)) && locs_view(v@) == self.locs(
                    lower_of(token@),
                ),
                None => !self.has_token(lower_of(token@)),
            },
    {
        let lowered = token.to_lowercase();
        let mut i: usize = 0;
        while i < self.entries.len()
            invariant
                self.wf(),
                0 <= i <= self.entries@.len(),
                lowered@ == lower_of(token@),
                forall|k: int| 0 <= k < i ==> self.tokens()[k] != lowered@,
            decreases self.entries@.len() - i,
        {
            if str_eq(self.entries[i].0.as_str(), lowered.as_str()) {
                proof {
                    assert(self.tokens()[i as int] == lowered@);
                    self.lemma_locs_is(lowered@, i as int);
                }
                return Some(&self.entries[i].1);
            }
            i += 1;
        }
        proof {
            assert(!self.tokens().contains(lowered@));
        }
        None
    }
}

} // verus!
