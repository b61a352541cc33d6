//! Brute-force similarity index over embedded documents.
//!
//! The index owns a corpus of documents and one embedding per document.
//! Embedding texts is the job of an external provider; the index takes the
//! resulting vectors as plain values, so ingestion and ranked retrieval are
//! fully specified here.  Retrieval scans every stored embedding, scores it
//! against the query exactly (see [`crate::metrics`]), sorts ascending by
//! cosine distance and returns the best `top_k` documents.

use vstd::prelude::*;
use vstd::pervasive::VecAdditionalExecFns;
use crate::metrics::{Score, dist_le, lemma_dist_le_total, lemma_dist_le_trans,
    score_le, score_of, score_wf, spec_score, valid_embedding};

verus! {

/// A free-text document, keyed by its unique name.
#[derive(Debug)]
pub struct Document {
    pub name: String,
    pub data: String,
}

impl Clone for Document {
    fn clone(&self) -> (r: Self)
        ensures
            r == *self,
    {
        Document { name: self.name.clone(), data: self.data.clone() }
    }
}

/// Errors surfaced by the similarity index and its callers.
#[derive(Debug, Clone, PartialEq, Eq)]
pub enum Error {
    /// A document with the same name is already indexed; the first
    /// document is left untouched.
    DuplicateDocument,
    /// The embedding provider failed (network, timeout, malformed
    /// response); the in-flight operation mutated nothing.
    EmbeddingProvider(String),
}

/// Ranked scores never get closer again as one walks down the sequence.
pub open spec fn sorted_scores(s: Seq<(usize, Score)>) -> bool {
    forall|i: int, j: int|
        #![trigger s[i], s[j]]
        0 <= i <= j < s.len() ==> dist_le(s[i].1, s[j].1)
}

/// Ranked results never get closer again as one walks down the sequence.
pub open spec fn sorted_results(s: Seq<(Document, Score)>) -> bool {
    forall|i: int, j: int|
        #![trigger s[i], s[j]]
        0 <= i <= j < s.len() ==> dist_le(s[i].1, s[j].1)
}

/// Some document in `s` carries this name.
pub open spec fn seq_contains_name(s: Seq<Document>, name: Seq<char>) -> bool {
    exists|i: int| 0 <= i < s.len() && s[i].name@ == name
}

/// Some returned pair carries a document with this name.
pub open spec fn results_contain_name(s: Seq<(Document, Score)>, name: Seq<char>) -> bool {
    exists|i: int| 0 <= i < s.len() && s[i].0.name@ == name
}

/// The pair at position `t` of `rs` is a document of the corpus together
/// with its true score against the query.
pub open spec fn answer_from_corpus(
    store: NaiveVectorStore,
    q: Seq<i64>,
    rs: Seq<(Document, Score)>,
    t: int,
) -> bool {
    exists|k: int|
        #![trigger store.documents@[k]]
        0 <= k < store.documents@.len()
        && rs[t].0 == store.documents@[k]
        && rs[t].1 == spec_score(q, store.emb(k))
}

/// Every pair in `rs` is a document of the corpus together with its true
/// score against the query.
pub open spec fn answers_from_corpus(
    store: NaiveVectorStore,
    q: Seq<i64>,
    rs: Seq<(Document, Score)>,
) -> bool {
    forall|t: int| 0 <= t < rs.len() ==> #[trigger] answer_from_corpus(store, q, rs, t)
}

/// An exhaustive (linear scan) nearest-neighbor index.  `documents[i]`
/// always pairs with `embeddings[i]`; no query can observe one without
/// the other.
pub struct NaiveVectorStore {
    pub documents: Vec<Document>,
    pub embeddings: Vec<Vec<i64>>,
}

impl NaiveVectorStore {
    /// The embedding stored for document `i`.
    pub open spec fn emb(self, i: int) -> Seq<i64> {
        self.embeddings@[i]@
    }

    /// Dimensionality shared by every stored embedding.
    pub open spec fn dim(self) -> int {
        self.emb(0).len() as int
    }

    /// Well-formed corpus: documents and embeddings in lockstep, names
    /// unique, every embedding in range and of the common dimension.
    pub open spec fn wf(self) -> bool {
        &&& self.embeddings@.len() == self.documents@.len()
        &&& (forall|i: int, j: int| 0 <= i < j < self.documents@.len()
            ==> self.documents@[i].name@ != self.documents@[j].name@)
        &&& (forall|i: int| 0 <= i < self.documents@.len()
            ==> valid_embedding(#[trigger] self.emb(i)))
        &&& (forall|i: int| 0 <= i < self.documents@.len()
            ==> (#[trigger] self.emb(i)).len() == self.dim())
    }

    /// A document with this name is indexed.
    pub open spec fn contains_name(self, name: Seq<char>) -> bool {
        seq_contains_name(self.documents@, name)
    }

    /// Create an empty index.  Enumerating a corpus and calling the
    /// embedding provider belong to the caller; the index owns only the
    /// in-memory documents and vectors.
    pub fn new() -> (r: Self)
        ensures
            r.wf(),
            r.documents@.len() == 0,
    {
        NaiveVectorStore { documents: Vec::new(), embeddings: Vec::new() }
    }

    /// Index one document together with its embedding.  Name equality is
    /// the sole identity check: a duplicate name is rejected and the store
    /// is left exactly as it was; otherwise document and embedding are
    /// appended as one atomic unit.
    pub fn add(&mut self, document: Document, embedding: Vec<i64>) -> (r: Result<(), Error>)
        requires
            old(self).wf(),
            valid_embedding(embedding@),
            old(self).documents@.len() > 0 ==> embedding@.len() == old(self).dim(),
        ensures
            final(self).wf(),
            old(self).contains_name(document.name@) ==> *final(self) == *old(self)
                && r == Result::<(), Error>::Err(Error::DuplicateDocument),
            !old(self).contains_name(document.name@)
                ==> r == Result::<(), Error>::Ok(())
                && final(self).documents@ == old(self).documents@.push(document)
                && final(self).embeddings@ == old(self).embeddings@.push(embedding),
    {
        let n = self.documents.len();
        let mut i: usize = 0;
        while i < n
            invariant
                i <= n,
                n == self.documents@.len(),
                *self == *old(self),
                self.wf(),
                forall|j: int| 0 <= j < i ==> (#[trigger] self.documents@[j]).name@ != document.name@,
            decreases n - i,
        {
            if self.documents[i].name == document.name {
                proof {
                    assert(0 <= i < old(self).documents@.len()
                        && old(self).documents@[i as int].name@ == document.name@);
                    assert(old(self).contains_name(document.name@));
                    assert(*self == *old(self));
                }
                return Err(Error::DuplicateDocument);
            }
            i = i + 1;
        }
        self.documents.push(document);
        self.embeddings.push(embedding);
        proof {
            let m = self.documents@.len() as int;
            assert forall|a: int| 0 <= a < m implies valid_embedding(#[trigger] self.emb(a))
                && self.emb(a).len() == self.dim() by {
                if a < n {
                    assert(self.emb(a) == old(self).emb(a));
                    assert(valid_embedding(old(self).emb(a)));
                    if n > 0 {
                        assert(self.emb(0) == old(self).emb(0));
                    }
                } else {
                    assert(self.emb(a) == embedding@);
                    if n > 0 {
                        assert(self.emb(0) == old(self).emb(0));
                    }
                }
            }
            assert forall|a: int, b: int| 0 <= a < b < m implies
                (#[trigger] self.documents@[a]).name@ != (#[trigger] self.documents@[b]).name@ by {
                if b < n {
                    assert(old(self).documents@[a].name@ != old(self).documents@[b].name@);
                } else {
                    assert(self.documents@[a] == old(self).documents@[a]);
                    assert(self.documents@[b] == document);
                }
            }
        }
        Ok(())
    }

    /// Retrieve the `top_k` documents closest to the query embedding, in
    /// ascending order of cosine distance, together with their scores.
    /// With fewer than `top_k` documents the whole corpus is returned; an
    /// empty corpus yields an empty sequence, never an error.
    pub fn retrieve(&self, query: &Vec<i64>, top_k: usize) -> (r: Vec<(Document, Score)>)
        requires
            self.wf(),
            self.documents@.len() > 0 ==> valid_embedding(query@)
                && query@.len() == self.dim(),
        ensures
            r@.len() == if top_k < self.documents@.len() { top_k as int } else {
                self.documents@.len() as int
            },
            sorted_results(r@),
            // every answer is a stored document with its true score
            answers_from_corpus(*self, query@, r@),
            // no document is returned twice
            forall|t: int, u: int| #![trigger r@[t], r@[u]] 0 <= t < u < r@.len()
                ==> r@[t].0.name@ != r@[u].0.name@,
            // a document that was left out is no closer than any returned one
            forall|k: int, t: int| #![trigger self.documents@[k], r@[t]]
                0 <= k < self.documents@.len() && 0 <= t < r@.len()
                && !results_contain_name(r@, self.documents@[k].name@)
                ==> dist_le(r@[t].1, spec_score(query@, self.emb(k))),
    {
        let n = self.documents.len();
        if n == 0 {
            let r: Vec<(Document, Score)> = Vec::new();
            return r;
        }
        let mut scored: Vec<(usize, Score)> = Vec::new();
        let mut i: usize = 0;
        while i < n
            invariant
                i <= n,
                n == self.documents@.len(),
                self.wf(),
                valid_embedding(query@),
                query@.len() == self.dim(),
                scored@.len() == i,
                forall|k: int| 0 <= k < i ==> #[trigger] scored@[k]
                    == (k as usize, spec_score(query@, self.emb(k))),
                forall|k: int| 0 <= k < i ==> score_wf((#[trigger] scored@[k]).1),
            decreases n - i,
        {
            proof {
                assert(valid_embedding(self.emb(i as int)));
                assert(self.emb(i as int).len() == self.dim());
            }
            let s = score_of(query, &self.embeddings[i]);
            scored.push((i, s));
            i = i + 1;
        }
        let ghost orig = scored@;
        proof {
            assert(forall|k: int| 0 <= k < n ==> (#[trigger] orig[k]).0 == k as usize);
            assert forall|k: int, l: int| 0 <= k < l < n implies orig[k] != orig[l] by {
                assert(orig[k].0 == k as usize && orig[l].0 == l as usize);
            }
            orig.lemma_multiset_has_no_duplicates();
        }
        sort_scored(&mut scored);
        proof {
            broadcast use vstd::seq_lib::group_to_multiset_ensures;
            assert forall|t: int| 0 <= t < n implies {
                &&& 0 <= (#[trigger] scored@[t]).0 < n
                &&& scored@[t].1 == spec_score(query@, self.emb(scored@[t].0 as int))
            } by {
                assert(scored@.contains(scored@[t]));
                assert(scored@.to_multiset().count(scored@[t]) > 0);
                assert(orig.to_multiset().count(scored@[t]) > 0);
                assert(orig.contains(scored@[t]));
                let k = choose|k: int| 0 <= k < orig.len() && orig[k] == scored@[t];
                assert(orig[k] == (k as usize, spec_score(query@, self.emb(k))));
            }
            scored@.lemma_multiset_has_no_duplicates_conv();
            assert forall|t: int, u: int| 0 <= t < u < n implies
                (#[trigger] scored@[t]).0 != (#[trigger] scored@[u]).0 by {
                if scored@[t].0 == scored@[u].0 {
                    assert(scored@[t].1 == scored@[u].1);
                }
            }
        }
        let limit = if top_k < n { top_k } else { n };
        let mut results: Vec<(Document, Score)> = Vec::new();
        let mut t: usize = 0;
        while t < limit
            invariant
                t <= limit,
                limit <= n,
                n == self.documents@.len(),
                self.wf(),
                scored@.len() == n,
                sorted_scores(scored@),
                forall|k: int| 0 <= k < n ==> 0 <= (#[trigger] scored@[k]).0 < n,
                forall|k: int| 0 <= k < n ==> (#[trigger] scored@[k]).1
                    == spec_score(query@, self.emb(scored@[k].0 as int)),
                forall|k: int, l: int| #![trigger scored@[k], scored@[l]] 0 <= k < l < n
                    ==> scored@[k].0 != scored@[l].0,
                results@.len() == t,
                forall|u: int| 0 <= u < t ==> (#[trigger] results@[u]).0
                    == self.documents@[scored@[u].0 as int]
                    && results@[u].1 == scored@[u].1,
            decreases limit - t,
        {
            let (idx, s) = scored[t];
            let doc = self.documents[idx].clone();
            results.push((doc, s));
            t = t + 1;
        }
        proof {
            broadcast use vstd::seq_lib::group_to_multiset_ensures;
            // every answer is the stored document its scored index points at
            assert forall|u: int| 0 <= u < results@.len()
                implies #[trigger] answer_from_corpus(*self, query@, results@, u) by {
                let k = scored@[u].0 as int;
                assert(0 <= k < self.documents@.len()
                    && results@[u].0 == self.documents@[k]
                    && results@[u].1 == spec_score(query@, self.emb(k)));
            }
            assert(answers_from_corpus(*self, query@, results@));
            // ranked order carries over from the scored sequence
            assert forall|a: int, b: int| #![trigger results@[a], results@[b]]
                0 <= a <= b < results@.len() implies dist_le(results@[a].1, results@[b].1) by {
                assert(results@[a].1 == scored@[a].1 && results@[b].1 == scored@[b].1);
            }
            // distinct positions hold distinct documents
            assert forall|a: int, b: int| #![trigger results@[a], results@[b]]
                0 <= a < b < results@.len() implies results@[a].0.name@ != results@[b].0.name@ by {
                let ka = scored@[a].0 as int;
                let kb = scored@[b].0 as int;
                assert(ka != kb);
                assert(results@[a].0 == self.documents@[ka]);
                assert(results@[b].0 == self.documents@[kb]);
            }
            // an omitted document is at least as distant as every answer
            assert forall|k: int, a: int| #![trigger self.documents@[k], results@[a]]
                0 <= k < n && 0 <= a < results@.len()
                && !results_contain_name(results@, self.documents@[k].name@)
                implies dist_le(results@[a].1, spec_score(query@, self.emb(k))) by {
                assert(orig[k] == (k as usize, spec_score(query@, self.emb(k))));
                assert(orig.contains(orig[k]));
                assert(orig.to_multiset().count(orig[k]) > 0);
                assert(scored@.to_multiset().count(orig[k]) > 0);
                assert(scored@.contains(orig[k]));
                let p = choose|p: int| 0 <= p < scored@.len() && scored@[p] == orig[k];
                if p < limit {
                    assert(results@[p].0 == self.documents@[k]);
                    assert(results_contain_name(results@, self.documents@[k].name@));
                } else {
                    assert(dist_le(scored@[a].1, scored@[p].1));
                }
            }
        }
        results
    }
}

/// Sort (index, score) pairs ascending by cosine distance; the output is a
/// permutation (multiset-equal rearrangement) of the input.
fn sort_scored(v: &mut Vec<(usize, Score)>)
    requires
        forall|k: int| 0 <= k < old(v)@.len() ==> score_wf((#[trigger] old(v)@[k]).1),
    ensures
        final(v)@.len() == old(v)@.len(),
        final(v)@.to_multiset() == old(v)@.to_multiset(),
        sorted_scores(final(v)@),
{
    let n = v.len();
    if n <= 1 {
        return;
    }
    let mut i: usize = 1;
    while i < n
        invariant
            1 <= i <= n,
            n == v@.len(),
            v@.to_multiset() == old(v)@.to_multiset(),
            forall|k: int| 0 <= k < n ==> score_wf((#[trigger] v@[k]).1),
            sorted_scores(v@.take(i as int)),
        decreases n - i,
    {
        let mut j: usize = i;
        proof {
            assert forall|k: int, l: int| #![trigger v@[k], v@[l]]
                0 <= k <= l <= i && k != i && l != i implies dist_le(v@[k].1, v@[l].1) by {
                assert(v@.take(i as int)[k] == v@[k]);
                assert(v@.take(i as int)[l] == v@[l]);
            }
        }
        while j >= 1 && !(score_le(&v[j - 1].1, &v[j].1))
            invariant
                j <= i < n,
                n == v@.len(),
                v@.to_multiset() == old(v)@.to_multiset(),
                forall|k: int| 0 <= k < n ==> score_wf((#[trigger] v@[k]).1),
                // sorted on 0..=i once the element travelling down is ignored
                forall|k: int, l: int| #![trigger v@[k], v@[l]]
                    0 <= k <= l <= i && k != j && l != j ==> dist_le(v@[k].1, v@[l].1),
                // the travelling element precedes everything after it
                forall|l: int| j < l <= i ==> dist_le(v@[j as int].1, (#[trigger] v@[l]).1),
            decreases j,
        {
            let a = v[j - 1];
            let b = v[j];
            let ghost v0 = v@;
            proof {
                lemma_dist_le_total(a.1, b.1);
            }
            v.set(j - 1, b);
            v.set(j, a);
            proof {
                broadcast use vstd::seq_lib::group_to_multiset_ensures;
                broadcast use vstd::multiset::group_multiset_axioms;
                broadcast use vstd::multiset::group_multiset_properties;
                assert(v@ == v0.update(j - 1, b).update(j as int, a));
                assert(v0.contains(a));
                assert(v0.to_multiset().count(a) > 0);
                assert(v@.to_multiset() =~= v0.to_multiset());
            }
            j = j - 1;
        }
        proof {
            assert forall|k: int, l: int| #![trigger v@[k], v@[l]]
                0 <= k <= l <= i implies dist_le(v@[k].1, v@[l].1) by {
                if k < j && l == j {
                    // j >= 1 here, and v[j-1] <= v[j] stopped the walk
                    assert(dist_le(v@[j - 1].1, v@[j as int].1));
                    if k < j - 1 {
                        assert(dist_le(v@[k].1, v@[j - 1].1));
                        lemma_dist_le_trans(v@[k].1, v@[j - 1].1, v@[j as int].1);
                    }
                }
            }
            assert(sorted_scores(v@.take(i + 1))) by {
                assert(forall|k: int| 0 <= k < i + 1 ==> v@.take(i + 1)[k] == v@[k]);
            }
        }
        i = i + 1;
    }
    proof {
        assert(v@.take(n as int) =~= v@);
    }
}

/// Querying with a stored document's own embedding ranks that document
/// first.  The hypotheses are exactly what [`NaiveVectorStore::retrieve`]
/// ensures of a non-empty result, plus the one case the property cannot
/// survive: a tie, another document whose embedding is exactly as close
/// (ranking between tied documents is unspecified).  Strictness of every
/// other document's distance is the `dist_lt` hypothesis; by
/// [`crate::metrics::lemma_self_distance_min`] the document's own score
/// is always at least tied, so the hypothesis only excludes ties.
pub proof fn lemma_own_document_ranks_first(
    store: NaiveVectorStore,
    q: Seq<i64>,
    rs: Seq<(Document, Score)>,
    k: int,
)
    requires
        store.wf(),
        0 <= k < store.documents@.len(),
        store.emb(k) == q,
        forall|j: int| 0 <= j < store.documents@.len() && j != k
            ==> crate::metrics::dist_lt(
                spec_score(q, store.emb(k)), spec_score(q, #[trigger] store.emb(j))),
        rs.len() > 0,
        sorted_results(rs),
        answers_from_corpus(store, q, rs),
        forall|kk: int, t: int| #![trigger store.documents@[kk], rs[t]]
            0 <= kk < store.documents@.len() && 0 <= t < rs.len()
            && !results_contain_name(rs, store.documents@[kk].name@)
            ==> dist_le(rs[t].1, spec_score(q, store.emb(kk))),
    ensures
        rs[0].0.name@ == store.documents@[k].name@,
        rs[0].1 == spec_score(q, q),
{
    assert(answer_from_corpus(store, q, rs, 0));
    let j = choose|j: int|
        0 <= j < store.documents@.len()
        && rs[0].0 == store.documents@[j]
        && rs[0].1 == spec_score(q, store.emb(j));
    if j != k {
        // the document's own score is strictly closer than rs[0]'s, yet
        // rs[0] must be at most as distant wherever the document landed
        if results_contain_name(rs, store.documents@[k].name@) {
            let p = choose|p: int| 0 <= p < rs.len()
                && rs[p].0.name@ == store.documents@[k].name@;
            assert(answer_from_corpus(store, q, rs, p));
            let kk = choose|kk: int|
                0 <= kk < store.documents@.len()
                && rs[p].0 == store.documents@[kk]
                && rs[p].1 == spec_score(q, store.emb(kk));
            assert(store.documents@[kk].name@ == store.documents@[k].name@);
            assert(kk == k);
            assert(dist_le(rs[0].1, rs[p].1));
            assert(false);
        } else {
            assert(dist_le(rs[0].1, spec_score(q, store.emb(k))));
            assert(false);
        }
    }
}

/// Racing `add`s for distinct names cannot lose an update: the index
/// serializes the two insertions in some order, and in either order the
/// first cannot make the second a duplicate, both succeed, and the corpus
/// they leave behind holds the same documents regardless of the order.
pub proof fn lemma_concurrent_adds_commute(docs: Seq<Document>, d1: Document, d2: Document)
    requires
        !seq_contains_name(docs, d1.name@),
        !seq_contains_name(docs, d2.name@),
        d1.name@ != d2.name@,
    ensures
        !seq_contains_name(docs.push(d1), d2.name@),
        !seq_contains_name(docs.push(d2), d1.name@),
        seq_contains_name(docs.push(d1).push(d2), d1.name@),
        seq_contains_name(docs.push(d1).push(d2), d2.name@),
        docs.push(d1).push(d2).to_multiset() == docs.push(d2).push(d1).to_multiset(),
{
    broadcast use vstd::seq_lib::group_to_multiset_ensures;
    broadcast use vstd::multiset::group_multiset_axioms;

    assert forall|name: Seq<char>, d: Document| !seq_contains_name(docs, name) && d.name@ != name
        implies !seq_contains_name(docs.push(d), name) by {
        assert(forall|t: int| 0 <= t < docs.len() ==> docs.push(d)[t] == docs[t]);
    }
    let left = docs.push(d1).push(d2);
    assert(left[docs.len() as int] == d1);
    assert(left[docs.len() as int + 1] == d2);
    assert(docs.push(d1).push(d2).to_multiset()
        =~= docs.push(d2).push(d1).to_multiset());
}

/// Any number of racing `add`s with pairwise-distinct fresh names all
/// land: however the caller's serialization orders them (`ds` is that
/// order), each call still finds its own name absent — so each returns
/// `Ok` and appends — and afterwards every one of the documents is
/// present in the corpus, which grew by exactly their number.
pub proof fn lemma_concurrent_adds_all_land(docs: Seq<Document>, ds: Seq<Document>)
    requires
        forall|i: int, j: int| #![trigger ds[i], ds[j]]
            0 <= i < j < ds.len() ==> ds[i].name@ != ds[j].name@,
        forall|i: int| 0 <= i < ds.len()
            ==> !seq_contains_name(docs, (#[trigger] ds[i]).name@),
    ensures
        forall|i: int| 0 <= i < ds.len()
            ==> !seq_contains_name(docs + ds.take(i), (#[trigger] ds[i]).name@),
        forall|i: int| 0 <= i < ds.len()
            ==> seq_contains_name(docs + ds, (#[trigger] ds[i]).name@),
        (docs + ds).len() == docs.len() + ds.len(),
{
    assert forall|i: int| 0 <= i < ds.len()
        implies !seq_contains_name(docs + ds.take(i), (#[trigger] ds[i]).name@) by {
        if seq_contains_name(docs + ds.take(i), ds[i].name@) {
            let w = docs + ds.take(i);
            let t = choose|t: int| 0 <= t < w.len() && w[t].name@ == ds[i].name@;
            if t < docs.len() {
                assert(w[t] == docs[t]);
                assert(seq_contains_name(docs, ds[i].name@));
            } else {
                assert(w[t] == ds[t - docs.len()]);
                assert(0 <= t - docs.len() < i);
            }
            assert(false);
        }
    }
    assert forall|i: int| 0 <= i < ds.len()
        implies seq_contains_name(docs + ds, (#[trigger] ds[i]).name@) by {
        assert((docs + ds)[docs.len() + i] == ds[i]);
    }
}

} // verus!
