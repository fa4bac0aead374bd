//! The similarity engine: a corpus of documents with fixed-point embeddings,
//! loaded in bulk and queried for the top-n most similar documents by
//! cosine similarity, with ties broken by insertion order.

use vstd::prelude::*;
use vstd::seq_lib::lemma_multiset_commutative;
use vstd::seq_lib::group_to_multiset_ensures;
use crate::bounded_embedding;
use crate::cosine::cosine_similarity;
use crate::cosine::spec_cosine;
use crate::VALUE_LIMIT;
use crate::DIM_LIMIT;

verus! {

/// Mathematical model of a stored document.
pub struct DocModel {
    pub id: Seq<char>,
    pub text: Seq<char>,
    pub embedding: Seq<i64>,
    pub score: i64,
    pub metadata: Seq<Seq<char>>,
}

/// A stored document: the text it was loaded from, its embedding, and a
/// transient score that is only meaningful in the result of a single query.
#[derive(Debug, Clone)]
pub struct Document {
    pub id: String,
    pub text: String,
    pub embedding: Vec<i64>,
    pub score: i64,
    pub metadata: Vec<String>,
}

impl View for Document {
    type V = DocModel;

    open spec fn view(&self) -> DocModel {
        DocModel {
            id: self.id@,
            text: self.text@,
            embedding: self.embedding@,
            score: self.score,
            metadata: self.metadata.deep_view(),
        }
    }
}

/// The models of a sequence of documents.
pub open spec fn doc_models(s: Seq<Document>) -> Seq<DocModel> {
    s.map_values(|d: Document| d@)
}

/// Why an engine operation was refused.
#[derive(Clone, Copy, Debug, PartialEq, Eq, Structural)]
pub enum EngineError {
    /// An embedding was longer than `DIM_LIMIT` or had a component outside
    /// `[-VALUE_LIMIT, VALUE_LIMIT]`.
    ValueOutOfRange,
    /// An embedding's dimension differed from the dimension established by
    /// the first loaded document.
    DimensionMismatch,
    /// The operation is declared but intentionally has no effect; it fails
    /// loudly instead of silently succeeding.
    NotImplemented,
}

/// The document appended for a text and its embedding: zero score, no
/// metadata, and the text serving as its own identifier.
pub open spec fn loaded_model(text: Seq<char>, embedding: Seq<i64>) -> DocModel {
    DocModel { id: text, text: text, embedding: embedding, score: 0, metadata: Seq::empty() }
}

/// The brute-force vector backend: an append-only corpus of documents.
pub struct CosineDatabase {
    pub documents: Vec<Document>,
}

impl CosineDatabase {
    /// Every stored embedding is bounded and all share one dimension.
    pub open spec fn wf(&self) -> bool {
        forall|i: int|
            0 <= i < self.documents@.len() ==> {
                &&& bounded_embedding(#[trigger] self.documents@[i]@.embedding)
                &&& self.documents@[i]@.embedding.len() == self.documents@[0]@.embedding.len()
            }
    }

    /// The embedding dimension fixed by the first loaded document.
    pub open spec fn dim(&self) -> nat {
        if self.documents@.len() == 0 {
            0
        } else {
            self.documents@[0]@.embedding.len()
        }
    }

    /// An empty corpus.
    pub fn new() -> (db: CosineDatabase)
        ensures
            db.wf(),
            db.documents@.len() == 0,
    {
        CosineDatabase { documents: Vec::new() }
    }
}

/// Checks that an embedding is within the engine's fixed-point range.
pub fn check_embedding(v: &Vec<i64>) -> (ok: bool)
    ensures
        ok == bounded_embedding(v@),
{
    if v.len() > DIM_LIMIT {
        return false;
    }
    let mut i: usize = 0;
    while i < v.len()
        invariant
            0 <= i <= v@.len(),
            forall|j: int| 0 <= j < i ==> -VALUE_LIMIT <= #[trigger] v@[j] <= VALUE_LIMIT,
        decreases v@.len() - i,
    {
        if v[i] < -VALUE_LIMIT || v[i] > VALUE_LIMIT {
            return false;
        }
        i = i + 1;
    }
    true
}

fn clone_embedding(v: &Vec<i64>) -> (r: Vec<i64>)
    ensures
        r@ == v@,
{
    let mut r: Vec<i64> = Vec::new();
    let mut i: usize = 0;
    while i < v.len()
        invariant
            0 <= i <= v@.len(),
            r@ =~= v@.take(i as int),
        decreases v@.len() - i,
    {
        r.push(v[i]);
        i = i + 1;
    }
    proof {
        assert(r@ =~= v@);
    }
    r
}

fn clone_strings(v: &Vec<String>) -> (r: Vec<String>)
    ensures
        r.deep_view() == v.deep_view(),
{
    let mut r: Vec<String> = Vec::new();
    let mut i: usize = 0;
    while i < v.len()
        invariant
            0 <= i <= v@.len(),
            r@.len() == i,
            forall|j: int| 0 <= j < i ==> #[trigger] r@[j]@ == v@[j]@,
        decreases v@.len() - i,
    {
        r.push(v[i].clone());
        i = i + 1;
    }
    proof {
        assert(r.deep_view() =~= v.deep_view());
    }
    r
}

impl CosineDatabase {
    /// Loads a batch of texts with their embeddings, appending one document
    /// per text in input order. The batch is validated first and is applied
    /// all-or-nothing: a single out-of-range value or dimension mismatch
    /// refuses the whole batch and leaves the corpus unchanged.
    pub fn load(&mut self, texts: &Vec<String>, embeddings: &Vec<Vec<i64>>) -> (r: Result<
        (),
        EngineError,
    >)
        requires
            old(self).wf(),
            texts@.len() == embeddings@.len(),
        ensures
            final(self).wf(),
            ({
                let olddocs = doc_models(old(self).documents@);
                let embs = embeddings.deep_view();
                let all_bounded = forall|i: int|
                    0 <= i < embs.len() ==> bounded_embedding(#[trigger] embs[i]);
                let want_dim = if old(self).documents@.len() > 0 {
                    old(self).dim() as int
                } else if embs.len() > 0 {
                    embs[0].len() as int
                } else {
                    0
                };
                let dims_ok = forall|i: int|
                    0 <= i < embs.len() ==> (#[trigger] embs[i]).len() == want_dim;
                match r {
                    Ok(()) => {
                        &&& all_bounded
                        &&& dims_ok
                        &&& doc_models(final(self).documents@) =~= olddocs + Seq::new(
                            embs.len(),
                            |i: int| loaded_model(texts.deep_view()[i], embs[i]),
                        )
                    },
                    Err(EngineError::ValueOutOfRange) => {
                        &&& !all_bounded
                        &&& *final(self) == *old(self)
                    },
                    Err(EngineError::DimensionMismatch) => {
                        &&& all_bounded
                        &&& !dims_ok
                        &&& *final(self) == *old(self)
                    },
                    Err(_) => false,
                }
            }),
    {
        let ghost embs = embeddings.deep_view();
        // Validate ranges.
        let mut i: usize = 0;
        while i < embeddings.len()
            invariant
                *self == *old(self),
                self.wf(),
                embs == embeddings.deep_view(),
                texts@.len() == embeddings@.len(),
                0 <= i <= embs.len(),
                forall|j: int| 0 <= j < i ==> bounded_embedding(#[trigger] embs[j]),
            decreases embs.len() - i,
        {
            proof {
                assert(embs[i as int] == embeddings@[i as int]@);
            }
            if !check_embedding(&embeddings[i]) {
                return Err(EngineError::ValueOutOfRange);
            }
            i = i + 1;
        }
        // Validate dimensions against the established dimension.
        let want_dim: usize = if self.documents.len() > 0 {
            self.documents[0].embedding.len()
        } else if embeddings.len() > 0 {
            embeddings[0].len()
        } else {
            0
        };
        let mut i: usize = 0;
        while i < embeddings.len()
            invariant
                *self == *old(self),
                self.wf(),
                embs == embeddings.deep_view(),
                texts@.len() == embeddings@.len(),
                0 <= i <= embs.len(),
                forall|j: int| 0 <= j < embs.len() ==> bounded_embedding(#[trigger] embs[j]),
                want_dim == (if old(self).documents@.len() > 0 {
                    old(self).dim() as int
                } else if embs.len() > 0 {
                    embs[0].len() as int
                } else {
                    0
                }),
                forall|j: int| 0 <= j < i ==> (#[trigger] embs[j]).len() == want_dim,
            decreases embs.len() - i,
        {
            proof {
                assert(embs[i as int] == embeddings@[i as int]@);
            }
            if embeddings[i].len() != want_dim {
                return Err(EngineError::DimensionMismatch);
            }
            i = i + 1;
        }
        // Append, in input order.
        let ghost olddocs = doc_models(self.documents@);
        let ghost olddim = self.dim();
        let ghost oldlen = self.documents@.len();
        proof {
            assert forall|k: int| 0 <= k < self.documents@.len() implies {
                &&& bounded_embedding((#[trigger] self.documents@[k])@.embedding)
                &&& self.documents@[k]@.embedding.len() == want_dim
            } by {
                assert(bounded_embedding(self.documents@[k]@.embedding));
            }
        }
        let mut i: usize = 0;
        while i < embeddings.len()
            invariant
                embs == embeddings.deep_view(),
                texts@.len() == embeddings@.len(),
                0 <= i <= embs.len(),
                forall|j: int| 0 <= j < embs.len() ==> bounded_embedding(#[trigger] embs[j]),
                forall|j: int| 0 <= j < embs.len() ==> (#[trigger] embs[j]).len() == want_dim,
                forall|k: int|
                    0 <= k < self.documents@.len() ==> {
                        &&& bounded_embedding((#[trigger] self.documents@[k])@.embedding)
                        &&& self.documents@[k]@.embedding.len() == want_dim
                    },
                self.documents@.len() == oldlen + i,
                oldlen == old(self).documents@.len(),
                olddocs == doc_models(old(self).documents@),
                olddocs.len() == oldlen,
                doc_models(self.documents@) =~= olddocs + Seq::new(
                    i as nat,
                    |j: int| loaded_model(texts.deep_view()[j], embs[j]),
                ),
            decreases embs.len() - i,
        {
            let doc = Document {
                id: texts[i].clone(),
                text: texts[i].clone(),
                embedding: clone_embedding(&embeddings[i]),
                score: 0,
                metadata: Vec::new(),
            };
            proof {
                assert(embs[i as int] == embeddings@[i as int]@);
                assert(texts.deep_view()[i as int] == texts@[i as int]@);
                assert(doc@.metadata =~= Seq::<Seq<char>>::empty());
                assert(doc@ == loaded_model(texts.deep_view()[i as int], embs[i as int]));
            }
            let ghost pre = self.documents@;
            self.documents.push(doc);
            i = i + 1;
            proof {
                assert(self.documents@ =~= pre.push(doc));
                assert forall|k: int| 0 <= k < self.documents@.len() implies {
                    &&& bounded_embedding((#[trigger] self.documents@[k])@.embedding)
                    &&& self.documents@[k]@.embedding.len() == want_dim
                } by {
                    if k < pre.len() {
                        assert(self.documents@[k] == pre[k]);
                        assert(bounded_embedding(pre[k]@.embedding));
                    } else {
                        assert(self.documents@[k] == doc);
                    }
                }
                let target = olddocs + Seq::new(
                    i as nat,
                    |j: int| loaded_model(texts.deep_view()[j], embs[j]),
                );
                assert forall|j: int| 0 <= j < self.documents@.len() implies doc_models(
                    self.documents@,
                )[j] == target[j] by {
                    assert(doc_models(self.documents@)[j] == self.documents@[j]@);
                    if j < pre.len() {
                        assert(self.documents@[j] == pre[j]);
                        assert(doc_models(pre)[j] == pre[j]@);
                    } else {
                        assert(self.documents@[j] == doc);
                    }
                }
                assert(doc_models(self.documents@) =~= target);
            }
        }
        proof {
            assert forall|k: int| 0 <= k < self.documents@.len() implies {
                &&& bounded_embedding((#[trigger] self.documents@[k])@.embedding)
                &&& self.documents@[k]@.embedding.len() == self.documents@[0]@.embedding.len()
            } by {
                assert(bounded_embedding(self.documents@[k]@.embedding));
                assert(self.documents@[k]@.embedding.len() == want_dim);
                assert(self.documents@[0]@.embedding.len() == want_dim);
            }
            assert(self.wf());
        }
        Ok(())
    }
}

/// Ranking order on (score, original position) pairs: a pair ranks before
/// another when its score is higher, or equal with an earlier position.
pub open spec fn ranks_before(a: (i64, usize), b: (i64, usize)) -> bool {
    a.0 > b.0 || (a.0 == b.0 && a.1 < b.1)
}

/// Index of the first pair holding the maximal score.
pub open spec fn first_max_idx(s: Seq<(i64, usize)>) -> int
    recommends
        s.len() > 0,
    decreases s.len(),
{
    if s.len() <= 1 {
        0
    } else {
        let t = first_max_idx(s.drop_first());
        if s[0].0 >= s.drop_first()[t].0 {
            0
        } else {
            t + 1
        }
    }
}

/// `first_max_idx` is in range, holds a maximal score, and every earlier
/// pair scores strictly less.
pub proof fn lemma_first_max_idx(s: Seq<(i64, usize)>)
    requires
        s.len() > 0,
    ensures
        0 <= first_max_idx(s) < s.len(),
        forall|j: int| 0 <= j < s.len() ==> (#[trigger] s[j]).0 <= s[first_max_idx(s)].0,
        forall|j: int| 0 <= j < first_max_idx(s) ==> (#[trigger] s[j]).0 < s[first_max_idx(s)].0,
    decreases s.len(),
{
    if s.len() > 1 {
        let d = s.drop_first();
        lemma_first_max_idx(d);
        let t = first_max_idx(d);
        assert(forall|j: int| 0 <= j < d.len() ==> #[trigger] d[j] == s[j + 1]);
        let f = first_max_idx(s);
        if s[0].0 >= d[t].0 {
            assert(f == 0);
            assert forall|j: int| 0 <= j < s.len() implies (#[trigger] s[j]).0 <= s[f].0 by {
                if j >= 1 {
                    assert(s[j] == d[j - 1]);
                    assert(d[j - 1].0 <= d[t].0);
                }
            }
        } else {
            assert(f == t + 1);
            assert(s[f] == d[t]);
            assert forall|j: int| 0 <= j < s.len() implies (#[trigger] s[j]).0 <= s[f].0 by {
                if j >= 1 {
                    assert(s[j] == d[j - 1]);
                    assert(d[j - 1].0 <= d[t].0);
                }
            }
            assert forall|j: int| 0 <= j < f implies (#[trigger] s[j]).0 < s[f].0 by {
                if j >= 1 {
                    assert(s[j] == d[j - 1]);
                    assert(d[j - 1].0 < d[t].0);
                }
            }
        }
    }
}

/// Any in-range index holding a maximal score, with every earlier pair
/// scoring strictly less, is exactly `first_max_idx`.
pub proof fn lemma_first_max_idx_char(s: Seq<(i64, usize)>, m: int)
    requires
        s.len() > 0,
        0 <= m < s.len(),
        forall|j: int| 0 <= j < s.len() ==> (#[trigger] s[j]).0 <= s[m].0,
        forall|j: int| 0 <= j < m ==> (#[trigger] s[j]).0 < s[m].0,
    ensures
        m == first_max_idx(s),
{
    lemma_first_max_idx(s);
    let f = first_max_idx(s);
    if m < f {
        assert(s[m].0 < s[f].0);
        assert(s[f].0 <= s[m].0);
    }
    if f < m {
        assert(s[f].0 < s[m].0);
        assert(s[m].0 <= s[f].0);
    }
}

/// Stable descending selection sort: repeatedly pull out the first pair
/// holding the maximal score.
pub open spec fn sel_sort(s: Seq<(i64, usize)>) -> Seq<(i64, usize)>
    decreases s.len(),
    via sel_sort_decreases
{
    if s.len() == 0 {
        s
    } else {
        let i = first_max_idx(s);
        seq![s[i]] + sel_sort(s.remove(i))
    }
}

#[via_fn]
proof fn sel_sort_decreases(s: Seq<(i64, usize)>) {
    if s.len() > 0 {
        lemma_first_max_idx(s);
    }
}

/// Selection sort is a permutation: it keeps the length and the multiset of
/// pairs.
pub proof fn lemma_sel_sort_multiset(s: Seq<(i64, usize)>)
    ensures
        sel_sort(s).len() == s.len(),
        sel_sort(s).to_multiset() =~= s.to_multiset(),
    decreases s.len(),
{
    broadcast use group_to_multiset_ensures;

    if s.len() > 0 {
        lemma_first_max_idx(s);
        let i = first_max_idx(s);
        let rest = s.remove(i);
        lemma_sel_sort_multiset(rest);
        lemma_multiset_commutative(seq![s[i]], sel_sort(rest));
        assert(seq![s[i]] =~= Seq::<(i64, usize)>::empty().push(s[i]));
        assert(s.contains(s[i]));
        assert(rest.to_multiset() =~= s.to_multiset().remove(s[i]));
    }
}

/// The original positions in a scored sequence are strictly increasing.
pub open spec fn pos_increasing(s: Seq<(i64, usize)>) -> bool {
    forall|i: int, j: int| 0 <= i < j < s.len() ==> (#[trigger] s[i]).1 < (#[trigger] s[j]).1
}

/// The sequence is sorted by descending score with ties broken by earlier
/// original position.
pub open spec fn sorted_ranked(s: Seq<(i64, usize)>) -> bool {
    forall|i: int, j: int| 0 <= i < j < s.len() ==> ranks_before(#[trigger] s[i], #[trigger] s[j])
}

/// Selection sort of a position-increasing sequence is sorted by descending
/// score, ties broken by original position.
pub proof fn lemma_sel_sort_sorted(s: Seq<(i64, usize)>)
    requires
        pos_increasing(s),
    ensures
        sorted_ranked(sel_sort(s)),
    decreases s.len(),
{
    broadcast use group_to_multiset_ensures;

    if s.len() > 0 {
        lemma_first_max_idx(s);
        let i = first_max_idx(s);
        let rest = s.remove(i);
        assert(forall|j: int| 0 <= j < i ==> #[trigger] rest[j] == s[j]);
        assert(forall|j: int| i <= j < rest.len() ==> #[trigger] rest[j] == s[j + 1]);
        assert(pos_increasing(rest));
        lemma_sel_sort_sorted(rest);
        lemma_sel_sort_multiset(rest);
        let out = sel_sort(s);
        let tail = sel_sort(rest);
        assert(out =~= seq![s[i]] + tail);
        assert forall|k: int| 0 <= k < tail.len() implies ranks_before(s[i], #[trigger] tail[k]) by {
            assert(tail.contains(tail[k]));
            assert(tail.to_multiset().count(tail[k]) > 0);
            assert(rest.contains(tail[k]));
            let l = choose|l: int| 0 <= l < rest.len() && rest[l] == tail[k];
            if l < i {
                assert(rest[l] == s[l]);
                assert(s[l].0 < s[i].0);
            } else {
                assert(rest[l] == s[l + 1]);
                assert(s[l + 1].0 <= s[i].0);
                assert(s[i].1 < s[l + 1].1);
            }
        }
        assert forall|a: int, b: int| 0 <= a < b < out.len() implies ranks_before(
            #[trigger] out[a],
            #[trigger] out[b],
        ) by {
            if a == 0 {
                assert(out[b] == tail[b - 1]);
            } else {
                assert(out[a] == tail[a - 1]);
                assert(out[b] == tail[b - 1]);
            }
        }
    }
}

/// The scored pairs of a corpus against a query embedding: each document's
/// cosine similarity to the query, tagged with the document's position.
pub open spec fn scored_pairs(docs: Seq<DocModel>, q: Seq<i64>) -> Seq<(i64, usize)> {
    Seq::new(docs.len(), |j: int| (spec_cosine(q, docs[j].embedding) as i64, j as usize))
}

/// How many documents a query for `n` over a corpus of `m` returns.
pub open spec fn spec_result_len(n: int, m: int) -> int {
    if n < m {
        n
    } else {
        m
    }
}

/// A document carrying a freshly computed score.
pub open spec fn scored_model(d: DocModel, s: i64) -> DocModel {
    DocModel { score: s, ..d }
}

/// The ranked result of a query: the first `min(n, corpus size)` documents
/// in stable descending score order, each carrying its fresh score.
pub open spec fn spec_query(docs: Seq<DocModel>, q: Seq<i64>, n: int) -> Seq<DocModel> {
    let ranked = sel_sort(scored_pairs(docs, q)).take(spec_result_len(n, docs.len() as int));
    ranked.map_values(|p: (i64, usize)| scored_model(docs[p.1 as int], p.0))
}

/// Pulls the `n` best-ranked pairs out of `pairs`, best first.
fn select_top(pairs: Vec<(i64, usize)>, n: usize) -> (out: Vec<(i64, usize)>)
    ensures
        out@ == sel_sort(pairs@).take(spec_result_len(n as int, pairs@.len() as int)),
{
    let ghost orig = pairs@;
    let mut rem = pairs;
    let mut out: Vec<(i64, usize)> = Vec::new();
    while out.len() < n && rem.len() > 0
        invariant
            out@.len() <= n,
            out@.len() + rem@.len() == orig.len(),
            out@ + sel_sort(rem@) =~= sel_sort(orig),
        decreases rem@.len(),
    {
        let mut m: usize = 0;
        let mut k: usize = 1;
        while k < rem.len()
            invariant
                rem@.len() > 0,
                0 <= m < k <= rem@.len(),
                forall|j: int| 0 <= j < k ==> (#[trigger] rem@[j]).0 <= rem@[m as int].0,
                forall|j: int| 0 <= j < m ==> (#[trigger] rem@[j]).0 < rem@[m as int].0,
            decreases rem@.len() - k,
        {
            if rem[k].0 > rem[m].0 {
                m = k;
            }
            k = k + 1;
        }
        proof {
            lemma_first_max_idx_char(rem@, m as int);
        }
        let picked = rem[m];
        let ghost prerem = rem@;
        let ghost preout = out@;
        out.push(picked);
        rem.remove(m);
        proof {
            assert(sel_sort(prerem) == seq![prerem[m as int]] + sel_sort(
                prerem.remove(m as int),
            ));
            assert(rem@ =~= prerem.remove(m as int));
            assert(out@ =~= preout.push(picked));
            assert(out@ + sel_sort(rem@) =~= sel_sort(orig));
        }
    }
    proof {
        lemma_sel_sort_multiset(orig);
        let k = spec_result_len(n as int, orig.len() as int);
        if rem@.len() == 0 {
            assert(sel_sort(rem@) =~= Seq::<(i64, usize)>::empty());
            assert(out@ =~= sel_sort(orig).take(k));
        } else {
            assert(out@.len() == n);
            assert(out@ =~= sel_sort(orig).take(k));
        }
    }
    out
}

impl CosineDatabase {
    /// Ranks the whole corpus against a query embedding and returns the `n`
    /// best documents: highest cosine similarity first, ties broken by
    /// insertion order. When `n` exceeds the corpus size the whole ranked
    /// corpus is returned; `n == 0` returns an empty result. The corpus
    /// itself is never changed by a query.
    pub fn query(&self, query_embedding: &Vec<i64>, n: u32) -> (r: Result<
        Vec<Document>,
        EngineError,
    >)
        requires
            self.wf(),
        ensures
            ({
                let docs = doc_models(self.documents@);
                let q = query_embedding@;
                match r {
                    Ok(out) => {
                        &&& bounded_embedding(q)
                        &&& (self.documents@.len() == 0 || q.len() == self.dim())
                        &&& doc_models(out@) == spec_query(docs, q, n as int)
                    },
                    Err(EngineError::ValueOutOfRange) => !bounded_embedding(q),
                    Err(EngineError::DimensionMismatch) => {
                        &&& bounded_embedding(q)
                        &&& self.documents@.len() > 0
                        &&& q.len() != self.dim()
                    },
                    Err(_) => false,
                }
            }),
    {
        if !check_embedding(query_embedding) {
            return Err(EngineError::ValueOutOfRange);
        }
        if self.documents.len() > 0 && query_embedding.len() != self.documents[0].embedding.len() {
            return Err(EngineError::DimensionMismatch);
        }
        let ghost docs = doc_models(self.documents@);
        let ghost q = query_embedding@;
        let mut pairs: Vec<(i64, usize)> = Vec::new();
        let mut j: usize = 0;
        while j < self.documents.len()
            invariant
                self.wf(),
                bounded_embedding(q),
                q == query_embedding@,
                docs == doc_models(self.documents@),
                self.documents@.len() == 0 || q.len() == self.dim(),
                docs.len() == self.documents@.len(),
                0 <= j <= docs.len(),
                pairs@.len() == j,
                forall|k: int|
                    0 <= k < j ==> #[trigger] pairs@[k] == (
                        spec_cosine(q, docs[k].embedding) as i64,
                        k as usize,
                    ),
            decreases docs.len() - j,
        {
            proof {
                assert(docs[j as int] == self.documents@[j as int]@);
                assert(bounded_embedding(self.documents@[j as int]@.embedding));
                assert(self.documents@[j as int]@.embedding.len()
                    == self.documents@[0]@.embedding.len());
                assert(q.len() == self.documents@[j as int]@.embedding.len());
            }
            let score = cosine_similarity(query_embedding, &self.documents[j].embedding);
            proof {
                assert(score as int == spec_cosine(q, docs[j as int].embedding));
            }
            pairs.push((score, j));
            j = j + 1;
        }
        proof {
            assert(pairs@ =~= scored_pairs(docs, q));
            assert(pos_increasing(pairs@));
        }
        let ghost sp = scored_pairs(docs, q);
        let top = select_top(pairs, n as usize);
        proof {
            broadcast use group_to_multiset_ensures;

            lemma_sel_sort_multiset(sp);
            assert forall|k: int| 0 <= k < top@.len() implies 0 <= (#[trigger] top@[k]).1
                < docs.len() by {
                let sorted = sel_sort(sp);
                assert(top@[k] == sorted[k]);
                assert(sorted.contains(sorted[k]));
                assert(sorted.to_multiset().count(sorted[k]) > 0);
                assert(sp.to_multiset().count(sorted[k]) > 0);
                assert(sp.contains(sorted[k]));
                let l = choose|l: int| 0 <= l < sp.len() && sp[l] == sorted[k];
                assert(sp[l].1 == l as usize);
            }
        }
        let mut out: Vec<Document> = Vec::new();
        let mut k: usize = 0;
        while k < top.len()
            invariant
                self.wf(),
                docs == doc_models(self.documents@),
                docs.len() == self.documents@.len(),
                sp == scored_pairs(docs, q),
                top@ == sel_sort(sp).take(spec_result_len(n as int, docs.len() as int)),
                forall|l: int| 0 <= l < top@.len() ==> 0 <= (#[trigger] top@[l]).1 < docs.len(),
                0 <= k <= top@.len(),
                out@.len() == k,
                forall|l: int|
                    0 <= l < k ==> #[trigger] out@[l]@ == scored_model(
                        docs[top@[l].1 as int],
                        top@[l].0,
                    ),
            decreases top@.len() - k,
        {
            let idx = top[k].1;
            let d = Document {
                id: self.documents[idx].id.clone(),
                text: self.documents[idx].text.clone(),
                embedding: clone_embedding(&self.documents[idx].embedding),
                score: top[k].0,
                metadata: clone_strings(&self.documents[idx].metadata),
            };
            proof {
                assert(docs[idx as int] == self.documents@[idx as int]@);
                assert(d@ == scored_model(docs[top@[k as int].1 as int], top@[k as int].0));
            }
            out.push(d);
            k = k + 1;
        }
        proof {
            assert(doc_models(out@) =~= spec_query(docs, q, n as int));
        }
        Ok(out)
    }
}

/// One returned entry agrees with the ranked pairs: it is its source
/// document carrying that pair's score, and the score is the cosine
/// similarity of the query with that document.
pub open spec fn query_entry_ok(docs: Seq<DocModel>, q: Seq<i64>, n: int, i: int) -> bool {
    let p = sel_sort(scored_pairs(docs, q))[i];
    &&& spec_query(docs, q, n)[i] == scored_model(docs[p.1 as int], p.0)
    &&& 0 <= p.1 < docs.len()
    &&& p.0 == spec_cosine(q, docs[p.1 as int].embedding) as i64
}

/// The ranking law for queries. For every corpus, query embedding and `n`:
/// the result holds exactly `min(n, corpus size)` documents; the ranked
/// order is a permutation of the scored corpus sorted by descending score
/// with ties broken by insertion position (so every omitted document ranks
/// no better than any returned one); and each returned document is its
/// source document carrying the query's cosine similarity as its score.
pub proof fn lemma_query_ranking(docs: Seq<DocModel>, q: Seq<i64>, n: int)
    requires
        0 <= n,
        docs.len() <= usize::MAX,
    ensures
        spec_query(docs, q, n).len() == spec_result_len(n, docs.len() as int),
        sorted_ranked(sel_sort(scored_pairs(docs, q))),
        sel_sort(scored_pairs(docs, q)).to_multiset() =~= scored_pairs(docs, q).to_multiset(),
        sel_sort(scored_pairs(docs, q)).len() == docs.len(),
        forall|i: int|
            0 <= i < spec_query(docs, q, n).len() ==> #[trigger] query_entry_ok(docs, q, n, i),
{
    broadcast use group_to_multiset_ensures;

    let sp = scored_pairs(docs, q);
    assert(pos_increasing(sp));
    lemma_sel_sort_sorted(sp);
    lemma_sel_sort_multiset(sp);
    let sorted = sel_sort(sp);
    assert forall|i: int| 0 <= i < spec_query(docs, q, n).len() implies #[trigger] query_entry_ok(
        docs,
        q,
        n,
        i,
    ) by {
        assert(sorted.contains(sorted[i]));
        assert(sorted.to_multiset().count(sorted[i]) > 0);
        assert(sp.to_multiset().count(sorted[i]) > 0);
        assert(sp.contains(sorted[i]));
        let l = choose|l: int| 0 <= l < sp.len() && sp[l] == sorted[i];
        assert(sp[l] == (spec_cosine(q, docs[l].embedding) as i64, l as usize));
    }
}

/// Asking for more documents than the corpus holds is not an error: the
/// query returns the whole corpus, ranked, and nothing more.
pub proof fn lemma_query_overlong(docs: Seq<DocModel>, q: Seq<i64>, n: int)
    requires
        docs.len() <= n,
        docs.len() <= usize::MAX,
    ensures
        spec_query(docs, q, n).len() == docs.len(),
{
    lemma_query_ranking(docs, q, n);
}

// The storage interface declares several mutation and inspection operations
// that this engine's scope never implements. Instead of silently succeeding
// without effect, each fails with `NotImplemented`, so a caller can never
// mistake inaction for success.
impl CosineDatabase {
    /// Single-document insertion is out of scope: always refused.
    pub fn insert(&self, _document: Document) -> (r: Result<(), EngineError>)
        ensures
            r == Err::<(), EngineError>(EngineError::NotImplemented),
    {
        Err(EngineError::NotImplemented)
    }

    /// In-place update is out of scope: always refused.
    pub fn update(&self, _document: Document) -> (r: Result<(), EngineError>)
        ensures
            r == Err::<(), EngineError>(EngineError::NotImplemented),
    {
        Err(EngineError::NotImplemented)
    }

    /// Deletion is out of scope: always refused.
    pub fn delete(&self, _id: &str) -> (r: Result<(), EngineError>)
        ensures
            r == Err::<(), EngineError>(EngineError::NotImplemented),
    {
        Err(EngineError::NotImplemented)
    }

    /// Text search without an embedding is out of scope: always refused.
    pub fn search(&self, _query: &str) -> (r: Result<Vec<Document>, EngineError>)
        ensures
            r == Err::<Vec<Document>, EngineError>(EngineError::NotImplemented),
    {
        Err(EngineError::NotImplemented)
    }

    /// Lookup by identifier is out of scope: always refused.
    pub fn get(&self, _id: &str) -> (r: Result<Document, EngineError>)
        ensures
            r == Err::<Document, EngineError>(EngineError::NotImplemented),
    {
        Err(EngineError::NotImplemented)
    }

    /// Listing is out of scope: always refused.
    pub fn list(&self) -> (r: Result<Vec<Document>, EngineError>)
        ensures
            r == Err::<Vec<Document>, EngineError>(EngineError::NotImplemented),
    {
        Err(EngineError::NotImplemented)
    }

    /// Counting is out of scope: always refused.
    pub fn count(&self) -> (r: Result<usize, EngineError>)
        ensures
            r == Err::<usize, EngineError>(EngineError::NotImplemented),
    {
        Err(EngineError::NotImplemented)
    }

    /// Clearing is out of scope: always refused.
    pub fn clear(&self) -> (r: Result<(), EngineError>)
        ensures
            r == Err::<(), EngineError>(EngineError::NotImplemented),
    {
        Err(EngineError::NotImplemented)
    }

    /// There is no resource to close: always refused.
    pub fn close(&self) -> (r: Result<(), EngineError>)
        ensures
            r == Err::<(), EngineError>(EngineError::NotImplemented),
    {
        Err(EngineError::NotImplemented)
    }

    /// Metadata retrieval is out of scope: always refused.
    pub fn get_metadata(&self, _id: &str) -> (r: Result<Vec<String>, EngineError>)
        ensures
            r == Err::<Vec<String>, EngineError>(EngineError::NotImplemented),
    {
        Err(EngineError::NotImplemented)
    }
}

/// Whether one evaluation row hits: its query is acceptable to the corpus,
/// returns at least one document, and the best match's text equals the
/// row's reference text.
pub open spec fn spec_hit(docs: Seq<DocModel>, q: Seq<i64>, reference: Seq<char>) -> bool {
    &&& bounded_embedding(q)
    &&& (docs.len() == 0 || q.len() == docs[0].embedding.len())
    &&& spec_query(docs, q, 1).len() > 0
    &&& spec_query(docs, q, 1)[0].text == reference
}

/// How many of the first `i` evaluation rows hit.
pub open spec fn spec_hits(
    docs: Seq<DocModel>,
    queries: Seq<Seq<i64>>,
    refs: Seq<Seq<char>>,
    i: int,
) -> int
    decreases i,
{
    if i <= 0 {
        0
    } else {
        spec_hits(docs, queries, refs, i - 1) + if spec_hit(docs, queries[i - 1], refs[i - 1]) {
            1int
        } else {
            0int
        }
    }
}

/// The evaluation core: queries the corpus once per row and counts the rows
/// whose best match reproduces the row's reference text.
pub fn evaluate(db: &CosineDatabase, queries: &Vec<Vec<i64>>, references: &Vec<String>) -> (correct:
    usize)
    requires
        db.wf(),
        queries@.len() == references@.len(),
    ensures
        correct == spec_hits(
            doc_models(db.documents@),
            queries.deep_view(),
            references.deep_view(),
            queries@.len() as int,
        ),
{
    let ghost docs = doc_models(db.documents@);
    let ghost qs = queries.deep_view();
    let ghost rs = references.deep_view();
    let mut correct: usize = 0;
    let mut i: usize = 0;
    while i < queries.len()
        invariant
            db.wf(),
            docs == doc_models(db.documents@),
            qs == queries.deep_view(),
            rs == references.deep_view(),
            queries@.len() == references@.len(),
            0 <= i <= queries@.len(),
            correct <= i,
            correct == spec_hits(docs, qs, rs, i as int),
        decreases queries@.len() - i,
    {
        proof {
            assert(qs[i as int] == queries@[i as int]@);
            assert(rs[i as int] == references@[i as int]@);
        }
        let hit: bool = match db.query(&queries[i], 1) {
            Ok(result) => {
                if result.len() > 0 {
                    proof {
                        assert(doc_models(result@)[0] == result@[0]@);
                    }
                    result[0].text == references[i]
                } else {
                    false
                }
            },
            Err(_) => false,
        };
        proof {
            assert(hit == spec_hit(docs, qs[i as int], rs[i as int]));
        }
        if hit {
            correct = correct + 1;
        }
        i = i + 1;
        proof {
            assert(correct == spec_hits(docs, qs, rs, i as int));
        }
    }
    correct
}

} // verus!
