//! The document store: the path-keyed document map (kept sorted by path) and
//! the one inverted index built from it, plus the virtual directory listing
//! derived from the flat path set.

use vstd::prelude::*;
use vstd::string::StrSliceExecFns;
use vstd::string::StringExecFns;

use crate::document::Document;
use crate::index::views_of;
use crate::index::InvertedIndex;
use crate::text::first_at;
use crate::text::lemma_first_at;
use crate::text::lemma_first_at_is;
use crate::text::lemma_seq_lt_irrefl;
use crate::text::lower_of;
use crate::text::seq_lt;
use crate::text::sorted_insert_string;
use crate::text::str_eq;
use crate::text::str_is_prefix;
use crate::text::str_lt;
use crate::text::strs_sorted;
use crate::tokenizer::tokens_of;

verus! {

/// The mathematical values of a list of (path, content) pairs.
pub open spec fn pairs_view(ps: Seq<(String, String)>) -> Seq<(Seq<char>, Seq<char>)> {
    ps.map_values(|pr: (String, String)| (pr.0@, pr.1@))
}

/// Some pair carries path `p`.
pub open spec fn pairs_have(pairs: Seq<(Seq<char>, Seq<char>)>, p: Seq<char>) -> bool {
    exists|i: int| 0 <= i < pairs.len() && #[trigger] pairs[i].0 == p
}

/// The content of the last pair carrying path `p` (last write wins).
pub open spec fn last_content(pairs: Seq<(Seq<char>, Seq<char>)>, p: Seq<char>) -> Seq<char>
    decreases pairs.len(),
{
    if pairs.len() == 0 {
        Seq::empty()
    } else if pairs.last().0 == p {
        pairs.last().1
    } else {
        last_content(pairs.drop_last(), p)
    }
}

/// The paths of a document list.
pub open spec fn paths_of(ds: Seq<Document>) -> Seq<Seq<char>> {
    ds.map_values(|d: Document| d.path@)
}

/// The document stored under path `p` in a document list.
pub open spec fn doc_of(ds: Seq<Document>, p: Seq<char>) -> Document {
    ds[paths_of(ds).index_of(p)]
}

/// With strictly sorted (hence unique) paths, a document found at position
/// `i` pins `doc_of`.
pub proof fn lemma_doc_of_is(ds: Seq<Document>, p: Seq<char>, i: int)
    requires
        strs_sorted(paths_of(ds)),
        0 <= i < ds.len(),
        ds[i].path@ == p,
    ensures
        paths_of(ds).contains(p),
        paths_of(ds).index_of(p) == i,
        doc_of(ds, p) == ds[i],
{
    assert(paths_of(ds)[i] == p);
    assert(paths_of(ds).contains(p));
    let j = paths_of(ds).index_of(p);
    assert(paths_of(ds)[j] == p);
    if i != j {
        if i < j {
            assert(seq_lt(paths_of(ds)[i], paths_of(ds)[j]));
        } else {
            assert(seq_lt(paths_of(ds)[j], paths_of(ds)[i]));
        }
        lemma_seq_lt_irrefl(p);
    }
}

/// Inserts a document into a path-sorted list; a document already stored
/// under the same path is replaced (last write wins).
fn insert_doc(v: &mut Vec<Document>, doc: Document)
    requires
        strs_sorted(paths_of(old(v)@)),
    ensures
        strs_sorted(paths_of(final(v)@)),
        forall|p: Seq<char>|
            paths_of(final(v)@).contains(p) == (paths_of(old(v)@).contains(p) || p == doc.path@),
        doc_of(final(v)@, doc.path@) == doc,
        forall|p: Seq<char>|
            p != doc.path@ && paths_of(old(v)@).contains(p) ==> doc_of(final(v)@, p) == doc_of(
                old(v)@,
                p,
            ),
        forall|k: int|
            0 <= k < final(v)@.len() ==> (#[trigger] final(v)@[k] == doc || old(v)@.contains(
                final(v)@[k],
            )),
{
    let ghost tgt = doc.path@;
    let mut i: usize = 0;
    while i < v.len() && str_lt(v[i].path.as_str(), doc.path.as_str())
        invariant
            tgt == doc.path@,
            0 <= i <= v@.len(),
            strs_sorted(paths_of(v@)),
            forall|k: int| 0 <= k < i ==> seq_lt(paths_of(v@)[k], tgt),
        decreases v@.len() - i,
    {
        proof {
            assert(paths_of(v@)[i as int] == v@[i as int].path@);
        }
        i += 1;
    }
    proof {
        if i < v@.len() {
            assert(!seq_lt(paths_of(v@)[i as int], tgt));
        }
    }
    if i < v.len() && str_eq(v[i].path.as_str(), doc.path.as_str()) {
        // Same path: replace the stored document.
        let ghost pre = v@;
        let slot = &mut v[i];
        *slot = doc;
        proof {
            assert(v@ == pre.update(i as int, doc));
            assert(paths_of(v@) =~= paths_of(pre)) by {
                assert forall|k: int|
                    0 <= k < v@.len() implies paths_of(v@)[k] == paths_of(pre)[k] by {
                    if k != i {
                        assert(v@[k] == pre[k]);
                    }
                }
            }
            lemma_doc_of_is(v@, tgt, i as int);
            assert forall|p: Seq<char>|
                p != tgt && paths_of(pre).contains(p) implies doc_of(v@, p) == doc_of(pre, p) by {
                let k = choose|k: int| 0 <= k < pre.len() && paths_of(pre)[k] == p;
                assert(pre[k].path@ == p);
                assert(k != i);
                assert(v@[k] == pre[k]);
                lemma_doc_of_is(pre, p, k);
                lemma_doc_of_is(v@, p, k);
            }
            assert forall|k: int|
                0 <= k < v@.len() implies (#[trigger] v@[k] == doc || pre.contains(v@[k])) by {
                if k != i {
                    assert(v@[k] == pre[k]);
                    assert(pre.contains(v@[k]));
                }
            }
        }
        return ;
    }
    proof {
        if i < v@.len() {
            assert(paths_of(v@)[i as int] == v@[i as int].path@);
            assert(v@[i as int].path@ != tgt);
            crate::text::lemma_seq_lt_total(paths_of(v@)[i as int], tgt);
            assert(seq_lt(tgt, paths_of(v@)[i as int]));
        }
    }
    let ghost pre = v@;
    v.insert(i, doc);
    proof {
        let post = v@;
        assert(post == pre.insert(i as int, doc));
        pre.insert_ensures(i as int, doc);
        assert(paths_of(post) =~= paths_of(pre).insert(i as int, tgt)) by {
            assert forall|k: int|
                0 <= k < post.len() implies paths_of(post)[k] == paths_of(pre).insert(
                i as int,
                tgt,
            )[k] by {
                paths_of(pre).insert_ensures(i as int, tgt);
                if k < i {
                    assert(post[k] == pre[k]);
                } else if k > i {
                    assert(post[k] == pre[k - 1]);
                }
            }
        }
        let pp = paths_of(pre);
        let qq = paths_of(post);
        assert(strs_sorted(qq)) by {
            assert forall|x: int, y: int| 0 <= x < y < qq.len() implies seq_lt(qq[x], qq[y]) by {
                pp.insert_ensures(i as int, tgt);
                let px = if x < i {
                    pp[x]
                } else if x == i {
                    tgt
                } else {
                    pp[x - 1]
                };
                let py = if y < i {
                    pp[y]
                } else if y == i {
                    tgt
                } else {
                    pp[y - 1]
                };
                assert(qq[x] == px);
                assert(qq[y] == py);
                if x < i && y == i {
                } else if x == i && y > i {
                    if y - 1 > i {
                        crate::text::lemma_seq_lt_trans(tgt, pp[i as int], pp[y - 1]);
                    }
                } else if x < i && y > i {
                    if y - 1 > i {
                        crate::text::lemma_seq_lt_trans(tgt, pp[i as int], pp[y - 1]);
                    }
                    crate::text::lemma_seq_lt_trans(pp[x], tgt, py);
                }
            }
        }
        assert forall|p: Seq<char>| qq.contains(p) == (pp.contains(p) || p == tgt) by {
            pp.insert_ensures(i as int, tgt);
            if pp.contains(p) {
                let k = choose|k: int| 0 <= k < pp.len() && pp[k] == p;
                if k < i {
                    assert(qq[k] == p);
                } else {
                    assert(qq[k + 1] == p);
                }
                assert(qq.contains(p));
            }
            if p == tgt {
                assert(qq[i as int] == p);
                assert(qq.contains(p));
            }
            if qq.contains(p) && p != tgt {
                let k = choose|k: int| 0 <= k < qq.len() && qq[k] == p;
                if k < i {
                    assert(pp[k] == p);
                } else {
                    assert(k > i);
                    assert(pp[k - 1] == p);
                }
                assert(pp.contains(p));
            }
        }
        assert(post[i as int] == doc);
        lemma_doc_of_is(post, tgt, i as int);
        assert forall|p: Seq<char>|
            p != tgt && pp.contains(p) implies doc_of(post, p) == doc_of(pre, p) by {
            let k = choose|k: int| 0 <= k < pre.len() && pp[k] == p;
            assert(pre[k].path@ == p);
            lemma_doc_of_is(pre, p, k);
            if k < i {
                assert(post[k] == pre[k]);
                lemma_doc_of_is(post, p, k);
            } else {
                assert(post[k + 1] == pre[k]);
                lemma_doc_of_is(post, p, k + 1);
            }
        }
        assert forall|k: int|
            0 <= k < post.len() implies (#[trigger] post[k] == doc || pre.contains(post[k])) by {
            if k < i {
                assert(post[k] == pre[k]);
                assert(pre.contains(post[k]));
            } else if k > i {
                assert(post[k] == pre[k - 1]);
                assert(pre.contains(post[k]));
            }
        }
    }
}

/// The locations the first `n` documents of a list contribute to token `t`.
pub open spec fn store_locs_upto(docs: Seq<Document>, t: Seq<char>, n: int) -> Seq<
    (Seq<char>, u32),
>
    decreases n,
{
    if n <= 0 {
        Seq::empty()
    } else {
        store_locs_upto(docs, t, n - 1) + crate::index::doc_locs(
            docs[n - 1].path@,
            views_of(docs[n - 1].lines@),
            t,
        )
    }
}

/// The first `n` documents contribute exactly the in-range lines whose tokens
/// include `t`.
proof fn lemma_store_locs_membership(docs: Seq<Document>, t: Seq<char>, q: (Seq<char>, u32), n: int)
    requires
        0 <= n <= docs.len(),
        forall|i: int| 0 <= i < docs.len() ==> (#[trigger] docs[i]).lines@.len() <= u32::MAX,
    ensures
        store_locs_upto(docs, t, n).contains(q) == exists|i: int|
            0 <= i < n && q.0 == (#[trigger] docs[i]).path@ && 1 <= q.1 <= docs[i].lines@.len()
                && tokens_of(lower_of(docs[i].lines@[q.1 - 1]@)).contains(t),
    decreases n,
{
    if n > 0 {
        lemma_store_locs_membership(docs, t, q, n - 1);
        let pre = store_locs_upto(docs, t, n - 1);
        let cur = store_locs_upto(docs, t, n);
        let dl = crate::index::doc_locs(docs[n - 1].path@, views_of(docs[n - 1].lines@), t);
        crate::index::lemma_doc_locs_membership(
            docs[n - 1].path@,
            views_of(docs[n - 1].lines@),
            t,
            q,
            views_of(docs[n - 1].lines@).len() as int,
        );
        assert(views_of(docs[n - 1].lines@).len() == docs[n - 1].lines@.len());
        if 1 <= q.1 <= docs[n - 1].lines@.len() {
            assert(views_of(docs[n - 1].lines@)[q.1 - 1] == docs[n - 1].lines@[q.1 - 1]@);
        }
        if pre.contains(q) {
            let k = choose|k: int| 0 <= k < pre.len() && pre[k] == q;
            assert(cur[k] == q);
            assert(cur.contains(q));
        }
        if dl.contains(q) {
            let k = choose|k: int| 0 <= k < dl.len() && dl[k] == q;
            assert(cur[pre.len() + k] == q);
            assert(cur.contains(q));
        }
        if cur.contains(q) {
            let k = choose|k: int| 0 <= k < cur.len() && cur[k] == q;
            if k < pre.len() {
                assert(pre[k] == q);
            } else {
                assert(dl[k - pre.len()] == q);
            }
        }
    }
}

/// Directory normalization: empty, "." and "/" mean the root; anything else
/// gets a trailing slash if it lacks one.
pub open spec fn normalize_dir(dir: Seq<char>) -> Seq<char> {
    if dir.len() == 0 || dir == seq!['/'] || dir == seq!['.'] {
        Seq::empty()
    } else if dir.last() == '/' {
        dir
    } else {
        dir.push('/')
    }
}

/// The listing entry `path` contributes under `prefix`, if any: the first
/// segment of the remainder, including a trailing slash when the path goes
/// deeper.
pub open spec fn child_entry(prefix: Seq<char>, path: Seq<char>) -> Option<Seq<char>> {
    if prefix.is_prefix_of(path) {
        let rest = path.skip(prefix.len() as int);
        let k = first_at(rest, '/');
        if k == rest.len() {
            Some(rest)
        } else {
            Some(rest.take(k + 1))
        }
    } else {
        None
    }
}

/// The in-memory document store plus its inverted index.
#[derive(Debug)]
pub struct DocumentStore {
    docs: Vec<Document>,
    index: InvertedIndex,
}

impl DocumentStore {
    /// The stored documents, in ascending path order.
    pub closed spec fn docs_view(self) -> Seq<Document> {
        self.docs@
    }

    /// The index as built at load time.
    pub closed spec fn index_model(self) -> InvertedIndex {
        self.index
    }

    /// The stored paths, in storage order.
    pub open spec fn paths_view(self) -> Seq<Seq<char>> {
        paths_of(self.docs_view())
    }

    pub open spec fn has_path(self, p: Seq<char>) -> bool {
        self.paths_view().contains(p)
    }

    /// The document stored under path `p`.
    pub open spec fn doc_at(self, p: Seq<char>) -> Document {
        doc_of(self.docs_view(), p)
    }

    /// The raw lines of the document stored under path `p`.
    pub open spec fn doc_lines(self, p: Seq<char>) -> Seq<Seq<char>> {
        views_of(self.doc_at(p).lines@)
    }

    /// `q` locates token `t` in some stored document: the path matches, the
    /// 1-indexed line is in range, and the line's tokens include `t`.
    pub open spec fn store_hit(self, t: Seq<char>, q: (Seq<char>, u32)) -> bool {
        exists|i: int|
            0 <= i < self.docs_view().len() && q.0 == (#[trigger] self.docs_view()[i]).path@ && 1
                <= q.1 <= self.docs_view()[i].lines@.len() && tokens_of(
                lower_of(self.docs_view()[i].lines@[q.1 - 1]@),
            ).contains(t)
    }

    /// Paths are strictly sorted (hence unique), every document is
    /// well-formed with a line count a `u32` can address, and the index holds
    /// exactly the locations of the stored documents' tokens.
    pub open spec fn wf(self) -> bool {
        &&& strs_sorted(self.paths_view())
        &&& (forall|i: int|
            0 <= i < self.docs_view().len() ==> (#[trigger] self.docs_view()[i]).wf())
        &&& (forall|i: int|
            0 <= i < self.docs_view().len() ==> (#[trigger] self.docs_view()[i]).lines@.len()
                <= u32::MAX)
        &&& self.index_model().wf()
        &&& (forall|t: Seq<char>, q: (Seq<char>, u32)|
            #[trigger] self.index_model().locs(t).contains(q) == self.store_hit(t, q))
        &&& (forall|t: Seq<char>|
            #[trigger] self.index_model().has_token(t) == (self.index_model().locs(t).len() > 0))
    }

    /// With unique paths, a document found at position `i` pins `doc_at`.
    proof fn lemma_doc_is(self, p: Seq<char>, i: int)
        requires
            strs_sorted(self.paths_view()),
            0 <= i < self.docs_view().len(),
            self.paths_view()[i] == p,
        ensures
            self.has_path(p),
            self.paths_view().index_of(p) == i,
            self.doc_at(p) == self.docs_view()[i],
    {
        assert(self.paths_view().contains(p));
        let j = self.paths_view().index_of(p);
        assert(self.paths_view()[j] == p);
        if i != j {
            if i < j {
                assert(seq_lt(self.paths_view()[i], self.paths_view()[j]));
            } else {
                assert(seq_lt(self.paths_view()[j], self.paths_view()[i]));
            }
            lemma_seq_lt_irrefl(p);
        }
    }

    /// With a well-formed store, the document at position `i` is the one
    /// found under the `i`-th path.
    pub proof fn lemma_doc_at_index(self, i: int)
        requires
            self.wf(),
            0 <= i < self.docs_view().len(),
        ensures
            self.has_path(self.paths_view()[i]),
            self.doc_at(self.paths_view()[i]) == self.docs_view()[i],
    {
        lemma_doc_of_is(self.docs_view(), self.paths_view()[i], i);
    }

    pub fn new() -> (r: Self)
        ensures
            r.wf(),
            r.paths_view() == Seq::<Seq<char>>::empty(),
            r.index_model().num_tokens() == 0,
    {
        let r = DocumentStore { docs: Vec::new(), index: InvertedIndex::new() };
        proof {
            assert(r.paths_view() =~= Seq::<Seq<char>>::empty());
        }
        r
    }

    /// Loads (path, content) pairs: each becomes a document, a later pair
    /// with the same path replacing an earlier one (and any document already
    /// stored under it), and the index is built from the loaded documents.
    pub fn load_documents(&mut self, documents: Vec<(String, String)>)
        requires
            old(self).wf(),
            forall|i: int|
                0 <= i < documents@.len() ==> crate::text::lines_of(
                    (#[trigger] documents@[i]).1@,
                ).len() <= u32::MAX,
        ensures
            final(self).wf(),
            forall|p: Seq<char>|
                final(self).has_path(p) == (old(self).has_path(p) || pairs_have(
                    pairs_view(documents@),
                    p,
                )),
            forall|p: Seq<char>|
                pairs_have(pairs_view(documents@), p) ==> final(self).doc_lines(p)
                    == crate::text::lines_of(last_content(pairs_view(documents@), p)),
            forall|p: Seq<char>|
                !pairs_have(pairs_view(documents@), p) && old(self).has_path(p) ==> final(
                    self).doc_lines(p) == old(self).doc_lines(p),
    {
        let ghost pv = pairs_view(documents@);
        let ghost docs0 = self.docs@;
        let mut i: usize = 0;
        proof {
            assert(pv.take(0) =~= Seq::<(Seq<char>, Seq<char>)>::empty());
        }
        while i < documents.len()
            invariant
                0 <= i <= documents@.len(),
                pv == pairs_view(documents@),
                docs0 == old(self).docs@,
                forall|k: int|
                    0 <= k < documents@.len() ==> crate::text::lines_of(
                        (#[trigger] documents@[k]).1@,
                    ).len() <= u32::MAX,
                strs_sorted(paths_of(self.docs@)),
                forall|k: int|
                    0 <= k < self.docs@.len() ==> (#[trigger] self.docs@[k]).wf()
                        && self.docs@[k].lines@.len() <= u32::MAX,
                forall|p: Seq<char>|
                    paths_of(self.docs@).contains(p) == (paths_of(docs0).contains(p)
                        || pairs_have(pv.take(i as int), p)),
                forall|p: Seq<char>|
                    pairs_have(pv.take(i as int), p) ==> views_of(
                        doc_of(self.docs@, p).lines@,
                    ) == crate::text::lines_of(last_content(pv.take(i as int), p)),
                forall|p: Seq<char>|
                    !pairs_have(pv.take(i as int), p) && paths_of(docs0).contains(p) ==> doc_of(
                        self.docs@,
                        p,
                    ) == doc_of(docs0, p),
            decreases documents@.len() - i,
        {
            let doc = Document::new(documents[i].0.clone(), documents[i].1.as_str());
            let ghost pre = self.docs@;
            let ghost newdoc = doc;
            proof {
                assert(pv[i as int] == (documents@[i as int].0@, documents@[i as int].1@));
                assert(newdoc.path@ == pv[i as int].0);
                assert(newdoc.lines.deep_view() == crate::text::lines_of(pv[i as int].1));
                assert(views_of(newdoc.lines@) =~= newdoc.lines.deep_view());
                assert(newdoc.lines@.len() <= u32::MAX);
            }
            proof {
                assert(forall|p: Seq<char>|
                    paths_of(pre).contains(p) == (paths_of(docs0).contains(p) || pairs_have(
                        pv.take(i as int),
                        p,
                    )));
            }
            insert_doc(&mut self.docs, doc);
            proof {
                assert forall|k: int|
                    0 <= k < self.docs@.len() implies (#[trigger] self.docs@[k]).wf()
                    && self.docs@[k].lines@.len() <= u32::MAX by {
                    if self.docs@[k] != newdoc {
                        assert(pre.contains(self.docs@[k]));
                        let m = choose|m: int| 0 <= m < pre.len() && pre[m] == self.docs@[k];
                        assert(pre[m].wf());
                    }
                }
                let taken = pv.take(i as int);
                let longer = pv.take(i + 1);
                assert(longer.last() == pv[i as int]);
                assert(longer.drop_last() =~= taken);
                // How one more pair changes which paths are present and what
                // the last content for each path is.
                assert forall|p: Seq<char>|
                    pairs_have(longer, p) == (pairs_have(taken, p) || p == pv[i as int].0) by {
                    if pairs_have(taken, p) {
                        let k = choose|k: int| 0 <= k < taken.len() && #[trigger] taken[k].0 == p;
                        assert(longer[k].0 == p);
                    }
                    if p == pv[i as int].0 {
                        assert(longer[i as int].0 == p);
                    }
                    if pairs_have(longer, p) {
                        let k = choose|k: int| 0 <= k < longer.len() && #[trigger] longer[k].0 == p;
                        if k < i {
                            assert(taken[k].0 == p);
                        }
                    }
                }
                assert forall|p: Seq<char>| pairs_have(longer, p) implies views_of(
                    doc_of(self.docs@, p).lines@,
                ) == crate::text::lines_of(last_content(longer, p)) by {
                    if p == pv[i as int].0 {
                        assert(last_content(longer, p) == pv[i as int].1);
                        assert(doc_of(self.docs@, p) == newdoc);
                    } else {
                        assert(last_content(longer, p) == last_content(taken, p));
                        assert(pairs_have(taken, p));
                        assert(paths_of(pre).contains(p) == (paths_of(docs0).contains(p)
                            || pairs_have(taken, p)));
                        assert(paths_of(pre).contains(p));
                        assert(doc_of(self.docs@, p) == doc_of(pre, p));
                        assert(views_of(doc_of(pre, p).lines@) == crate::text::lines_of(
                            last_content(taken, p),
                        ));
                    }
                }
                assert forall|p: Seq<char>|
                    paths_of(self.docs@).contains(p) == (paths_of(docs0).contains(p)
                        || pairs_have(longer, p)) by {
                    assert(paths_of(self.docs@).contains(p) == (paths_of(pre).contains(p) || p
                        == newdoc.path@));
                    assert(paths_of(pre).contains(p) == (paths_of(docs0).contains(p)
                        || pairs_have(taken, p)));
                    assert(pairs_have(longer, p) == (pairs_have(taken, p) || p == pv[i as int].0));
                }
                assert forall|p: Seq<char>|
                    !pairs_have(longer, p) && paths_of(docs0).contains(p) implies doc_of(
                    self.docs@,
                    p,
                ) == doc_of(docs0, p) by {
                    assert(!pairs_have(taken, p));
                    assert(p != pv[i as int].0);
                    assert(paths_of(pre).contains(p) == (paths_of(docs0).contains(p)
                        || pairs_have(taken, p)));
                    assert(doc_of(self.docs@, p) == doc_of(pre, p));
                    assert(doc_of(pre, p) == doc_of(docs0, p));
                }
            }
            i += 1;
        }
        proof {
            assert(pv.take(pv.len() as int) =~= pv);
        }
        // Rebuild the index from the final set of documents.
        self.index = InvertedIndex::new();
        let ghost docs = self.docs@;
        let mut j: usize = 0;
        proof {
            assert forall|t: Seq<char>|
                self.index.locs(t) =~= store_locs_upto(docs, t, 0) by {}
            assert(forall|t: Seq<char>| !(#[trigger] self.index.has_token(t)));
        }
        while j < self.docs.len()
            invariant
                0 <= j <= self.docs@.len(),
                docs == self.docs@,
                self.index.wf(),
                forall|k: int|
                    0 <= k < self.docs@.len() ==> (#[trigger] self.docs@[k]).lines@.len()
                        <= u32::MAX,
                forall|t: Seq<char>| self.index.locs(t) == store_locs_upto(docs, t, j as int),
                forall|t: Seq<char>| #[trigger]
                    self.index.has_token(t) == (store_locs_upto(docs, t, j as int).len() > 0),
            decreases self.docs@.len() - j,
        {
            let ghost prev = self.index;
            self.index.add_document(self.docs[j].path.as_str(), self.docs[j].lines.as_slice());
            proof {
                assert forall|t: Seq<char>|
                    self.index.locs(t) == store_locs_upto(docs, t, j + 1) by {
                    assert(prev.locs(t) == store_locs_upto(docs, t, j as int));
                    assert(self.index.locs(t) == prev.locs(t) + crate::index::doc_locs(
                        docs[j as int].path@,
                        views_of(docs[j as int].lines@),
                        t,
                    ));
                    assert(store_locs_upto(docs, t, j + 1) == store_locs_upto(docs, t, j as int)
                        + crate::index::doc_locs(
                        docs[j as int].path@,
                        views_of(docs[j as int].lines@),
                        t,
                    ));
                }
                assert forall|t: Seq<char>| #[trigger]
                    self.index.has_token(t) == (store_locs_upto(docs, t, j + 1).len() > 0) by {
                    assert(self.index.has_token(t) == (prev.has_token(t) || crate::index::doc_locs(
                        docs[j as int].path@,
                        views_of(docs[j as int].lines@),
                        t,
                    ).len() > 0));
                    assert(prev.has_token(t) == (store_locs_upto(docs, t, j as int).len() > 0));
                }
            }
            j += 1;
        }
        proof {
            assert forall|t: Seq<char>| #[trigger]
                self.index_model().has_token(t) == (self.index_model().locs(t).len() > 0) by {
                assert(self.index.has_token(t) == (store_locs_upto(docs, t, docs.len() as int).len()
                    > 0));
                assert(self.index.locs(t) == store_locs_upto(docs, t, docs.len() as int));
            }
            assert forall|t: Seq<char>, q: (Seq<char>, u32)| #[trigger]
                self.index_model().locs(t).contains(q) == self.store_hit(t, q) by {
                lemma_store_locs_membership(docs, t, q, docs.len() as int);
                assert(self.index_model().locs(t) == store_locs_upto(docs, t, docs.len() as int));
                if store_locs_upto(docs, t, docs.len() as int).contains(q) {
                    let i = choose|i: int|
                        0 <= i < docs.len() && q.0 == (#[trigger] docs[i]).path@ && 1 <= q.1
                            <= docs[i].lines@.len() && tokens_of(
                            lower_of(docs[i].lines@[q.1 - 1]@),
                        ).contains(t);
                    assert(q.0 == self.docs_view()[i].path@);
                    assert(1 <= q.1 <= self.docs_view()[i].lines@.len());
                    assert(tokens_of(lower_of(self.docs_view()[i].lines@[q.1 - 1]@)).contains(t));
                    assert(self.store_hit(t, q));
                }
                if self.store_hit(t, q) {
                    let dv = self.docs_view();
                    let i = choose|i: int|
                        0 <= i < dv.len() && q.0 == (#[trigger] dv[i]).path@ && 1 <= q.1
                            <= dv[i].lines@.len() && tokens_of(
                            lower_of(dv[i].lines@[q.1 - 1]@),
                        ).contains(t);
                    assert(q.0 == docs[i].path@);
                    assert(1 <= q.1 <= docs[i].lines@.len());
                    assert(tokens_of(lower_of(docs[i].lines@[q.1 - 1]@)).contains(t));
                    assert(store_locs_upto(docs, t, docs.len() as int).contains(q));
                }
            }
        }
    }

    pub fn document_count(&self) -> (r: usize)
        ensures
            r == self.paths_view().len(),
    {
        self.docs.len()
    }

    pub fn token_count(&self) -> (r: usize)
        ensures
            r == self.index_model().num_tokens(),
    {
        self.index.token_count()
    }

    pub fn index(&self) -> (r: &InvertedIndex)
        ensures
            *r == self.index_model(),
    {
        &self.index
    }

    pub fn get_document(&self, path: &str) -> (r: Option<&Document>)
        requires
            self.wf(),
        ensures
            match r {
                Some(d) => self.has_path(path@) && *d == self.doc_at(path@) && d.path@ == path@,
                None => !self.has_path(path@),
            },
    {
        let mut i: usize = 0;
        while i < self.docs.len()
            invariant
                self.wf(),
                0 <= i <= self.docs_view().len(),
                forall|k: int| 0 <= k < i ==> self.paths_view()[k] != path@,
            decreases self.docs_view().len() - i,
        {
            if str_eq(self.docs[i].path.as_str(), path) {
                proof {
                    assert(self.paths_view()[i as int] == path@);
                    self.lemma_doc_is(path@, i as int);
                }
                return Some(&self.docs[i]);
            }
            i += 1;
        }
        proof {
            assert(!self.paths_view().contains(path@));
        }
        None
    }

    /// Lists the immediate children of a virtual directory: file leaf names,
    /// and subdirectory names with a trailing slash, deduplicated and sorted.
    pub fn ls(&self, dir: &str) -> (r: Vec<String>)
        ensures
            strs_sorted(r.deep_view()),
            forall|e: Seq<char>|
                r.deep_view().contains(e) == exists|k: int|
                    0 <= k < self.paths_view().len() && child_entry(
                        normalize_dir(dir@),
                        #[trigger] self.paths_view()[k],
                    ) == Some(e),
    {
        let prefix: String = if dir.is_empty() {
            String::new()
        } else if str_eq(dir, "/") || str_eq(dir, ".") {
            proof {
                reveal_strlit("/");
                reveal_strlit(".");
                assert("/"@ =~= seq!['/']);
                assert("."@ =~= seq!['.']);
            }
            String::new()
        } else if dir.get_char(dir.unicode_len() - 1) == '/' {
            dir.to_owned()
        } else {
            let mut s = dir.to_owned();
            s.append("/");
            proof {
                reveal_strlit("/");
                assert("/"@ =~= seq!['/']);
                assert(s@ =~= dir@.push('/'));
            }
            s
        };
        proof {
            reveal_strlit("/");
            reveal_strlit(".");
            assert("/"@ =~= seq!['/']);
            assert("."@ =~= seq!['.']);
            assert(prefix@ == normalize_dir(dir@));
        }
        let mut out: Vec<String> = Vec::new();
        let mut i: usize = 0;
        proof {
            assert(out.deep_view() =~= Seq::<Seq<char>>::empty());
        }
        while i < self.docs.len()
            invariant
                0 <= i <= self.docs_view().len(),
                prefix@ == normalize_dir(dir@),
                strs_sorted(out.deep_view()),
                forall|e: Seq<char>|
                    out.deep_view().contains(e) == exists|k: int|
                        0 <= k < i && child_entry(prefix@, #[trigger] self.paths_view()[k])
                            == Some(e),
            decreases self.docs_view().len() - i,
        {
            let path = self.docs[i].path.as_str();
            let ghost pathv = self.paths_view()[i as int];
            if str_is_prefix(path, prefix.as_str()) {
                let plen = prefix.as_str().unicode_len();
                let n = path.unicode_len();
                let ghost rest = pathv.skip(plen as int);
                let mut j: usize = plen;
                while j < n && path.get_char(j) != '/'
                    invariant
                        plen <= j <= n,
                        n == path@.len(),
                        forall|k: int| plen <= k < j ==> path@[k] != '/',
                    decreases n - j,
                {
                    j += 1;
                }
                proof {
                    assert forall|k: int| 0 <= k < j - plen implies rest[k] != '/' by {
                        assert(rest[k] == pathv[plen + k]);
                    }
                    if j < n {
                        assert(rest[j - plen] == pathv[j as int]);
                    }
                    lemma_first_at_is(rest, '/', j - plen);
                }
                let entry: &str = if j < n {
                    path.substring_char(plen, j + 1)
                } else {
                    path.substring_char(plen, n)
                };
                proof {
                    if j < n {
                        assert(rest.take(j - plen + 1) =~= pathv.subrange(plen as int, j + 1));
                    } else {
                        assert(rest =~= pathv.subrange(plen as int, n as int));
                    }
                    assert(child_entry(prefix@, pathv) == Some(entry@));
                }
                let ghost pre = out.deep_view();
                sorted_insert_string(&mut out, entry);
                proof {
                    assert forall|e: Seq<char>|
                        out.deep_view().contains(e) == exists|k: int|
                            0 <= k < i + 1 && child_entry(prefix@, #[trigger] self.paths_view()[k])
                                == Some(e) by {
                        if out.deep_view().contains(e) {
                            if pre.contains(e) {
                                let k = choose|k: int|
                                    0 <= k < i && child_entry(
                                        prefix@,
                                        #[trigger] self.paths_view()[k],
                                    ) == Some(e);
                                assert(child_entry(prefix@, self.paths_view()[k]) == Some(e));
                            } else {
                                assert(e == entry@);
                                assert(child_entry(prefix@, self.paths_view()[i as int]) == Some(
                                    e,
                                ));
                            }
                        }
                        if exists|k: int|
                            0 <= k < i + 1 && child_entry(prefix@, #[trigger] self.paths_view()[k])
                                == Some(e) {
                            let k = choose|k: int|
                                0 <= k < i + 1 && child_entry(
                                    prefix@,
                                    #[trigger] self.paths_view()[k],
                                ) == Some(e);
                            if k < i {
                                assert(pre.contains(e));
                            } else {
                                assert(e == entry@);
                            }
                            assert(out.deep_view().contains(e));
                        }
                    }
                }
            } else {
                proof {
                    assert(child_entry(prefix@, pathv) is None);
                    assert forall|e: Seq<char>|
                        out.deep_view().contains(e) == exists|k: int|
                            0 <= k < i + 1 && child_entry(prefix@, #[trigger] self.paths_view()[k])
                                == Some(e) by {
                        if out.deep_view().contains(e) {
                            let k = choose|k: int|
                                0 <= k < i && child_entry(prefix@, #[trigger] self.paths_view()[k])
                                    == Some(e);
                            assert(child_entry(prefix@, self.paths_view()[k]) == Some(e));
                        }
                        if exists|k: int|
                            0 <= k < i + 1 && child_entry(prefix@, #[trigger] self.paths_view()[k])
                                == Some(e) {
                            let k = choose|k: int|
                                0 <= k < i + 1 && child_entry(
                                    prefix@,
                                    #[trigger] self.paths_view()[k],
                                ) == Some(e);
                            assert(k < i);
                            assert(out.deep_view().contains(e));
                        }
                    }
                }
            }
            i += 1;
        }
        out
    }

    /// All stored paths, in ascending order.
    pub fn paths(&self) -> (r: Vec<&str>)
        ensures
            r.deep_view() == self.paths_view(),
    {
        let mut out: Vec<&str> = Vec::new();
        let mut i: usize = 0;
        proof {
            assert(out.deep_view() =~= self.paths_view().take(0));
        }
        while i < self.docs.len()
            invariant
                0 <= i <= self.docs_view().len(),
                out.deep_view() == self.paths_view().take(i as int),
            decreases self.docs_view().len() - i,
        {
            let ghost pre = out.deep_view();
            out.push(self.docs[i].path.as_str());
            proof {
                assert(out.deep_view() =~= pre.push(self.docs_view()[i as int].path@));
                assert(self.paths_view().take(i + 1) =~= self.paths_view().take(i as int).push(
                    self.paths_view()[i as int],
                ));
            }
            i += 1;
        }
        proof {
            assert(self.paths_view().take(self.paths_view().len() as int) =~= self.paths_view());
        }
        out
    }
}

} // verus!
