use vstd::prelude::*;
use vstd::seq_lib::group_to_multiset_ensures;
use crate::types::{DIM_MAX, SCALE, Vector};
use crate::vector::{cosine, cosine_s, sort_pairs_desc, sorted_desc};

verus! {

/// Exact brute-force cosine top-k index: `(id, vector)` pairs kept in
/// insertion order; no dedup and no replacement, so inserting twice under
/// one id yields two entries.
pub struct FlatIndex {
    pub dims: usize,
    pub items: Vec<(u64, Vector)>,
}

impl View for FlatIndex {
    type V = Seq<(u64, Seq<i64>)>;

    open spec fn view(&self) -> Seq<(u64, Seq<i64>)> {
        self.items@.map_values(|p: (u64, Vector)| (p.0, p.1@))
    }
}

/// The score sheet a query induces over the stored entries, in insertion
/// order: each entry's id paired with its cosine similarity to `q`.
pub open spec fn score_pairs(items: Seq<(u64, Seq<i64>)>, q: Seq<i64>) -> Seq<(u64, i64)> {
    Seq::new(items.len(), |i: int| (items[i].0, cosine_s(q, items[i].1) as i64))
}

impl FlatIndex {
    /// Every stored vector has the index's dimensionality and fixed-point
    /// components in range.
    pub open spec fn wf(&self) -> bool {
        &&& self.dims <= DIM_MAX
        &&& forall|i: int|
            0 <= i < self@.len() ==> (#[trigger] self@[i]).1.len() == self.dims && forall|j: int|
                0 <= j < self@[i].1.len() ==> -SCALE <= #[trigger] self@[i].1[j] <= SCALE
    }

    /// An empty index over vectors of dimensionality `dims`.
    pub fn new(dims: usize) -> (r: Self)
        requires
            dims <= DIM_MAX,
        ensures
            r.wf(),
            r.dims == dims,
            r@ == Seq::<(u64, Seq<i64>)>::empty(),
    {
        let r = FlatIndex { dims, items: Vec::new() };
        proof {
            assert(r@ =~= Seq::<(u64, Seq<i64>)>::empty());
        }
        r
    }

    /// Append `(id, v)` unconditionally; an id already present gains a
    /// second entry rather than replacing the first.
    pub fn add(&mut self, id: u64, v: Vector)
        requires
            old(self).wf(),
            v.wf(old(self).dims),
        ensures
            final(self).wf(),
            final(self).dims == old(self).dims,
            final(self)@ == old(self)@.push((id, v@)),
    {
        let ghost gv = v@;
        self.items.push((id, v));
        proof {
            assert(self@ =~= old(self)@.push((id, gv)));
        }
    }

    /// Cosine top-k: scores every stored vector against `q`, orders the
    /// score sheet by non-increasing similarity with a sort that never
    /// swaps equal scores, and returns the first `min(k, n)` pairs.
    /// The result is a prefix of some non-increasing reordering of the
    /// whole score sheet, so every returned score dominates every score
    /// left out, and every score lies in `[-SCALE, SCALE]`.
    pub fn cosine_topk(&self, q: &Vector, k: usize) -> (r: Vec<(u64, i64)>)
        requires
            self.wf(),
            q.wf(self.dims),
        ensures
            r@.len() == if k as int <= self@.len() {
                k as int
            } else {
                self@.len() as int
            },
            sorted_desc(r@),
            forall|i: int| 0 <= i < r@.len() ==> -SCALE <= (#[trigger] r@[i]).1 <= SCALE,
            exists|s: Seq<(u64, i64)>|
                #![auto]
                s.to_multiset() == score_pairs(self@, q@).to_multiset() && sorted_desc(s) && r@
                    == s.subrange(0, r@.len() as int),
    {
        let n = self.items.len();
        let mut scores: Vec<(u64, i64)> = Vec::new();
        let mut i: usize = 0;
        while i < n
            invariant
                i <= n,
                n == self.items@.len(),
                self.wf(),
                q.wf(self.dims),
                scores@.len() == i,
                forall|j: int|
                    0 <= j < i ==> #[trigger] scores@[j] == (self@[j].0, cosine_s(q@, self@[j].1)
                        as i64),
                forall|j: int| 0 <= j < i ==> -SCALE <= (#[trigger] scores@[j]).1 <= SCALE,
            decreases n - i,
        {
            proof {
                assert(self@[i as int] == (self.items@[i as int].0, self.items@[i as int].1@));
            }
            let s = cosine(&q.0, &self.items[i].1.0);
            scores.push((self.items[i].0, s));
            i = i + 1;
        }
        proof {
            assert(scores@ =~= score_pairs(self@, q@));
        }
        let ghost full = scores@;
        sort_pairs_desc(&mut scores);
        let ghost sorted_all = scores@;
        scores.truncate(k);
        proof {
            broadcast use group_to_multiset_ensures;

            if k as int >= sorted_all.len() {
                assert(scores@ =~= sorted_all.subrange(0, sorted_all.len() as int));
            }
            assert(scores@ == sorted_all.subrange(0, scores@.len() as int));
            assert forall|i2: int| 0 <= i2 < scores@.len() implies -SCALE <= (
            #[trigger] scores@[i2]).1 <= SCALE by {
                assert(sorted_all.contains(sorted_all[i2]));
                assert(sorted_all.to_multiset().count(sorted_all[i2]) > 0);
                assert(full.to_multiset().count(sorted_all[i2]) > 0);
                assert(full.contains(sorted_all[i2]));
            }
        }
        scores
    }
}

} // verus!
