//! The query-side planner: wraps an embedder and an index, overfetches
//! twice the asked-for size to absorb filtering, and applies the one
//! authorization check the retrieval core exposes — a persona lacking
//! both the responsible and the accountable role sees nothing.

use vstd::prelude::*;
use crate::persona::Persona;
use crate::query::operators::{SimilarityOp, SimilarityOpHnsw};
use crate::raci::RaciRole;
use crate::semantic::pipeline::Embedder;
use crate::types::SCALE;
use crate::vector::flat::{score_pairs, FlatIndex};
use crate::vector::hnsw::{scores_from_nodes, HnswIndex};
use crate::vector::sorted_desc;

verus! {

/// The persona filter: present, and granting neither the responsible nor
/// the accountable role.
pub open spec fn persona_blocks(p: Option<Persona>) -> bool {
    match p {
        Some(pp) => !pp.raci_allowed@.contains(RaciRole::R) && !pp.raci_allowed@.contains(
            RaciRole::A,
        ),
        None => false,
    }
}

/// The planner: an embedder and an optional access descriptor.
pub struct Planner<'a, E: Embedder> {
    pub embedder: &'a E,
    pub persona: Option<&'a Persona>,
}

impl<'a, E: Embedder> Planner<'a, E> {
    /// A planner with no access descriptor: nothing is filtered.
    pub fn new(embedder: &'a E) -> (r: Self)
        ensures
            r.embedder == embedder,
            r.persona is None,
    {
        Planner { embedder, persona: None }
    }

    /// The same planner, now carrying an access descriptor.
    pub fn with_persona(self, p: &'a Persona) -> (r: Self)
        ensures
            r.embedder == self.embedder,
            r.persona == Some(p),
    {
        Planner { embedder: self.embedder, persona: Some(p) }
    }

    pub open spec fn spec_blocks(&self) -> bool {
        match self.persona {
            Some(p) => persona_blocks(Some(*p)),
            None => false,
        }
    }

    /// Exact similarity through the flat index: fetch `2k` candidates,
    /// drop them all when the persona grants neither the responsible nor
    /// the accountable role, and truncate to `k`. Otherwise the
    /// result is exactly the index's top `min(k, n)` for the embedded
    /// query.
    pub fn similar_flat(&self, index: &FlatIndex, text: &str, k: usize) -> (r: Vec<(u64, i64)>)
        requires
            index.wf(),
            self.embedder.spec_dims() == index.dims,
            k <= usize::MAX / 2,
        ensures
            self.spec_blocks() ==> r@.len() == 0,
            !self.spec_blocks() ==> {
                &&& r@.len() == if k as int <= index@.len() {
                    k as int
                } else {
                    index@.len() as int
                }
                &&& sorted_desc(r@)
                &&& (forall|i: int| 0 <= i < r@.len() ==> -SCALE <= (#[trigger] r@[i]).1 <= SCALE)
                &&& exists|q: Seq<i64>, s: Seq<(u64, i64)>|
                    #![auto]
                    q.len() == index.dims && s.to_multiset() == score_pairs(
                        index@,
                        q,
                    ).to_multiset() && sorted_desc(s) && r@ == s.subrange(0, r@.len() as int)
            },
    {
        let op = SimilarityOp { index, embedder: self.embedder };
        let mut hits = op.topk(text, k * 2);
        let blocked = match self.persona {
            Some(p) => !(p.allows_role(RaciRole::R) || p.allows_role(RaciRole::A)),
            None => false,
        };
        if blocked {
            hits.clear();
            return hits;
        }
        let ghost pre = hits@;
        let ghost prelen = hits@.len() as int;
        hits.truncate(k);
        proof {
            if k as int >= prelen {
                assert(hits@ =~= pre.subrange(0, prelen));
            }
            broadcast use vstd::seq_lib::group_to_multiset_ensures;

            let (q, s) = choose|q: Seq<i64>, s: Seq<(u64, i64)>|
                #![auto]
                q.len() == index.dims && s.to_multiset() == score_pairs(index@, q).to_multiset()
                    && sorted_desc(s) && pre == s.subrange(0, prelen);
            assert(s.to_multiset().len() == s.len());
            assert(score_pairs(index@, q).to_multiset().len() == score_pairs(index@, q).len());
            assert(s.len() == index@.len());
            assert(hits@ =~= s.subrange(0, hits@.len() as int));
            assert(q.len() == index.dims && s.to_multiset() == score_pairs(
                index@,
                q,
            ).to_multiset() && sorted_desc(s) && hits@ == s.subrange(0, hits@.len() as int));
        }
        hits
    }

    /// Approximate similarity through the graph index, with the same
    /// authorization check: the persona either blocks everything, or the result is a
    /// non-increasing list of at most `k` true node scores — at least one
    /// on a non-empty graph when `k >= 1`.
    pub fn similar_hnsw(&self, index: &HnswIndex, text: &str, k: usize) -> (r: Vec<(u64, i64)>)
        requires
            index.wf(),
            self.embedder.spec_dims() == index.dims,
            k <= usize::MAX / 2,
        ensures
            self.spec_blocks() ==> r@.len() == 0,
            !self.spec_blocks() ==> {
                &&& r@.len() <= k
                &&& r@.len() <= index.nodes@.len()
                &&& (k >= 1 && index.nodes@.len() >= 1 ==> r@.len() >= 1)
                &&& sorted_desc(r@)
                &&& (forall|i: int| 0 <= i < r@.len() ==> -SCALE <= (#[trigger] r@[i]).1 <= SCALE)
                &&& exists|q: Seq<i64>| scores_from_nodes(index.nodes@, q, r@)
            },
    {
        let op = SimilarityOpHnsw { index, embedder: self.embedder };
        let mut hits = op.topk(text, k * 2);
        let blocked = match self.persona {
            Some(p) => !(p.allows_role(RaciRole::R) || p.allows_role(RaciRole::A)),
            None => false,
        };
        if blocked {
            hits.clear();
            return hits;
        }
        let ghost pre = hits@;
        hits.truncate(k);
        proof {
            if k as int >= pre.len() {
                assert(hits@ =~= pre.subrange(0, pre.len() as int));
            }
            assert(hits@ == pre.subrange(0, hits@.len() as int));
            let q = choose|q: Seq<i64>| scores_from_nodes(index.nodes@, q, pre);
            assert forall|i: int| 0 <= i < hits@.len() implies crate::vector::hnsw::is_node_score(
                index.nodes@,
                q,
                #[trigger] hits@[i],
            ) by {
                assert(hits@[i] == pre[i]);
            }
            assert(scores_from_nodes(index.nodes@, q, hits@));
        }
        hits
    }
}

} // verus!
