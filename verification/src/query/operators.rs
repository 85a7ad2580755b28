//! Similarity operators: embed a query text and ask an index for its
//! nearest entries.

use vstd::prelude::*;
use crate::semantic::pipeline::Embedder;
use crate::types::SCALE;
use crate::vector::flat::{score_pairs, FlatIndex};
use crate::vector::hnsw::{scores_from_nodes, HnswIndex};
use crate::vector::sorted_desc;

verus! {

/// Exact top-k over a flat index, through an embedder.
pub struct SimilarityOp<'a, E: Embedder> {
    pub index: &'a FlatIndex,
    pub embedder: &'a E,
}

impl<'a, E: Embedder> SimilarityOp<'a, E> {
    /// Embed the text and return the index's exact top-k: `min(k, n)`
    /// pairs forming a prefix of a non-increasing reordering of the full
    /// score sheet for the embedded query.
    pub fn topk(&self, text: &str, k: usize) -> (r: Vec<(u64, i64)>)
        requires
            self.index.wf(),
            self.embedder.spec_dims() == self.index.dims,
        ensures
            r@.len() == if k as int <= self.index@.len() {
                k as int
            } else {
                self.index@.len() as int
            },
            sorted_desc(r@),
            forall|i: int| 0 <= i < r@.len() ==> -SCALE <= (#[trigger] r@[i]).1 <= SCALE,
            exists|q: Seq<i64>, s: Seq<(u64, i64)>|
                #![auto]
                q.len() == self.index.dims && s.to_multiset() == score_pairs(
                    self.index@,
                    q,
                ).to_multiset() && sorted_desc(s) && r@ == s.subrange(0, r@.len() as int),
    {
        let v = self.embedder.embed(text);
        let ghost gq = v@;
        let r = self.index.cosine_topk(&v, k);
        proof {
            let s = choose|s: Seq<(u64, i64)>|
                #![auto]
                s.to_multiset() == score_pairs(self.index@, gq).to_multiset() && sorted_desc(s)
                    && r@ == s.subrange(0, r@.len() as int);
            assert(gq.len() == self.index.dims && s.to_multiset() == score_pairs(
                self.index@,
                gq,
            ).to_multiset() && sorted_desc(s) && r@ == s.subrange(0, r@.len() as int));
        }
        r
    }
}

/// Approximate top-k over the graph index, through an embedder.
pub struct SimilarityOpHnsw<'a, E: Embedder> {
    pub index: &'a HnswIndex,
    pub embedder: &'a E,
}

impl<'a, E: Embedder> SimilarityOpHnsw<'a, E> {
    /// Embed the text and run the graph's randomized top-k: between 1 and
    /// `min(k, n)` true node scores for the embedded query, ordered by
    /// non-increasing similarity.
    pub fn topk(&self, text: &str, k: usize) -> (r: Vec<(u64, i64)>)
        requires
            self.index.wf(),
            self.embedder.spec_dims() == self.index.dims,
        ensures
            r@.len() <= k,
            r@.len() <= self.index.nodes@.len(),
            k >= 1 && self.index.nodes@.len() >= 1 ==> r@.len() >= 1,
            sorted_desc(r@),
            forall|i: int| 0 <= i < r@.len() ==> -SCALE <= (#[trigger] r@[i]).1 <= SCALE,
            exists|q: Seq<i64>| scores_from_nodes(self.index.nodes@, q, r@),
    {
        let v = self.embedder.embed(text);
        let ghost gq = v@;
        let r = self.index.topk(&v, k);
        proof {
            assert(scores_from_nodes(self.index.nodes@, gq, r@));
        }
        r
    }
}

} // verus!
