use vstd::prelude::*;
use vstd::pervasive::VecAdditionalExecFns;
use rand::Rng;
use rand::seq::SliceRandom;
use crate::types::{DIM_MAX, SCALE, Vector, wf_components};
use crate::vector::{cosine, cosine_s, lemma_multiset_elems, sort_pairs_desc, sorted_desc};

verus! {

/// One node of the proximity graph: the stored vector, a degree-bounded
/// neighbor list (indices into the node table), and a sampled level that is
/// stored but never used for layered routing.
pub struct Node {
    pub id: u64,
    pub vec: Vector,
    pub neighbors: Vec<usize>,
    pub level: i32,
}

/// Relies on rand's `thread_rng` and `Rng::gen::<bool>`: a fair coin flip.
/// Nothing is promised of the outcome.
#[verifier::external_body]
fn coin_flip() -> bool {
    rand::thread_rng().gen::<bool>()
}

/// Relies on rand's `SliceRandom::shuffle`: permutes the elements in place,
/// so the result holds exactly the elements it started with.
#[verifier::external_body]
fn shuffle_indices(v: &mut Vec<usize>)
    ensures
        final(v)@.to_multiset() == old(v)@.to_multiset(),
        final(v)@.len() == old(v)@.len(),
{
    v.shuffle(&mut rand::thread_rng());
}

/// How many entries of `s` are strictly greater than `x`.
pub open spec fn count_gt(s: Seq<int>, x: int) -> nat
    decreases s.len(),
{
    if s.len() == 0 {
        0
    } else {
        count_gt(s.drop_last(), x) + if s.last() > x {
            1nat
        } else {
            0nat
        }
    }
}

proof fn lemma_count_gt_mono(s: Seq<int>, x: int, y: int)
    requires
        x >= y,
    ensures
        count_gt(s, x) <= count_gt(s, y),
    decreases s.len(),
{
    if s.len() > 0 {
        lemma_count_gt_mono(s.drop_last(), x, y);
    }
}

/// Climbing to a strictly better node strictly shrinks the set of nodes
/// that are still better: the measure for hill-climbing termination.
proof fn lemma_count_gt_strict(s: Seq<int>, x: int, i: int)
    requires
        0 <= i < s.len(),
        s[i] > x,
    ensures
        count_gt(s, s[i]) < count_gt(s, x),
    decreases s.len(),
{
    if i == s.len() - 1 {
        lemma_count_gt_mono(s.drop_last(), s[i], x);
    } else {
        lemma_count_gt_strict(s.drop_last(), x, i);
        assert(s.drop_last()[i] == s[i]);
    }
}

/// How many entries of `s` are true.
pub open spec fn count_true(s: Seq<bool>) -> nat
    decreases s.len(),
{
    if s.len() == 0 {
        0
    } else {
        count_true(s.drop_last()) + if s.last() {
            1nat
        } else {
            0nat
        }
    }
}

proof fn lemma_count_true_update(s: Seq<bool>, i: int)
    requires
        0 <= i < s.len(),
        !s[i],
    ensures
        count_true(s.update(i, true)) == count_true(s) + 1,
    decreases s.len(),
{
    let t = s.update(i, true);
    if i == s.len() - 1 {
        assert(t.drop_last() =~= s.drop_last());
    } else {
        lemma_count_true_update(s.drop_last(), i);
        assert(t.drop_last() =~= s.drop_last().update(i, true));
        assert(t.last() == s.last());
    }
}

proof fn lemma_count_true_bound(s: Seq<bool>)
    ensures
        count_true(s) <= s.len(),
    decreases s.len(),
{
    if s.len() > 0 {
        lemma_count_true_bound(s.drop_last());
    }
}

proof fn lemma_count_true_zero(s: Seq<bool>)
    requires
        forall|i: int| 0 <= i < s.len() ==> !(#[trigger] s[i]),
    ensures
        count_true(s) == 0,
    decreases s.len(),
{
    if s.len() > 0 {
        lemma_count_true_zero(s.drop_last());
    }
}

/// Node `n`, sitting at slot `i` of a table of `count` nodes, is well
/// formed: its vector fits the index, its degree is bounded by `m`, and its
/// neighbor indices stay inside the table and never point at itself.
pub open spec fn wf_node(n: Node, dims: usize, m: usize, count: int, i: int) -> bool {
    &&& n.vec@.len() == dims
    &&& wf_components(n.vec@)
    &&& n.neighbors@.len() <= m
    &&& forall|k: int|
        0 <= k < n.neighbors@.len() ==> 0 <= #[trigger] n.neighbors@[k] < count && n.neighbors@[k]
            != i
}

/// `p` is the true `(id, similarity)` reading of some node in `nodes`
/// against the query `q`.
pub open spec fn is_node_score(nodes: Seq<Node>, q: Seq<i64>, p: (u64, i64)) -> bool {
    exists|j: int|
        0 <= j < nodes.len() && p.0 == (#[trigger] nodes[j]).id && p.1 == cosine_s(nodes[j].vec@, q)
}

/// Every `(id, score)` pair in `r` is the true similarity of some stored
/// node to the query `q`.
pub open spec fn scores_from_nodes(nodes: Seq<Node>, q: Seq<i64>, r: Seq<(u64, i64)>) -> bool {
    forall|i: int| 0 <= i < r.len() ==> is_node_score(nodes, q, #[trigger] r[i])
}

proof fn lemma_scores_from_nodes_intro(
    nodes: Seq<Node>,
    q: Seq<i64>,
    r: Seq<(u64, i64)>,
    idx: Seq<int>,
)
    requires
        idx.len() == r.len(),
        forall|i: int| 0 <= i < r.len() ==> 0 <= #[trigger] idx[i] < nodes.len(),
        forall|i: int|
            0 <= i < r.len() ==> (#[trigger] r[i]).0 == nodes[idx[i]].id && r[i].1 == cosine_s(
                nodes[idx[i]].vec@,
                q,
            ),
    ensures
        scores_from_nodes(nodes, q, r),
{
    assert forall|i: int| 0 <= i < r.len() implies is_node_score(nodes, q, #[trigger] r[i]) by {
        let jw = idx[i];
        assert(0 <= jw < nodes.len() && r[i].0 == nodes[jw].id && r[i].1 == cosine_s(
            nodes[jw].vec@,
            q,
        ));
    }
}

/// A degree-bounded proximity graph searched by a randomized frontier
/// traversal; levels are sampled but the graph is effectively single-layer.
pub struct HnswIndex {
    pub dims: usize,
    pub m: usize,
    pub ef: usize,
    pub entry: Option<usize>,
    pub nodes: Vec<Node>,
}

impl HnswIndex {
    /// The graph invariant: the entry point exists exactly when the graph
    /// is non-empty, and every node is well formed — in particular no
    /// node's degree ever exceeds `m`.
    pub open spec fn wf(&self) -> bool {
        &&& self.dims <= DIM_MAX
        &&& match self.entry {
            None => self.nodes@.len() == 0,
            Some(e) => e < self.nodes@.len(),
        }
        &&& forall|i: int|
            0 <= i < self.nodes@.len() ==> wf_node(
                #[trigger] self.nodes@[i],
                self.dims,
                self.m,
                self.nodes@.len() as int,
                i,
            )
    }

    /// An empty graph with the given dimensionality, degree bound `m` and
    /// search breadth `ef`.
    pub fn new(dims: usize, m: usize, ef: usize) -> (r: Self)
        requires
            dims <= DIM_MAX,
        ensures
            r.wf(),
            r.dims == dims,
            r.m == m,
            r.ef == ef,
            r.nodes@.len() == 0,
    {
        HnswIndex { dims, m, ef, entry: None, nodes: Vec::new() }
    }

    pub fn len(&self) -> (r: usize)
        ensures
            r == self.nodes@.len(),
    {
        self.nodes.len()
    }

    /// Sample a level by repeated fair coin flips, capped at depth 5 (so
    /// the result is at most 6). Stored but not used for routing.
    fn sample_level(&self) -> (r: i32)
        ensures
            0 <= r <= 6,
    {
        let mut level: i32 = 0;
        loop
            invariant_except_break
                0 <= level <= 5,
            ensures
                0 <= level <= 6,
            decreases 5 - level,
        {
            if !coin_flip() {
                break ;
            }
            level = level + 1;
            if level > 5 {
                break ;
            }
        }
        level
    }

    /// Insert `(id, v)`: sample a level; hill-climb from the entry point to
    /// a local optimum for `v`; connect the new node bidirectionally to the
    /// best `m` of that node and its neighbors; then reactively prune any
    /// neighbor whose degree now exceeds `m`, ranking by that neighbor's
    /// own similarity (local and asymmetric on purpose). The graph
    /// invariant — every degree at most `m` — is preserved, the node count
    /// grows by one, and every node's id and vector are unchanged.
    pub fn add(&mut self, id: u64, v: Vector)
        requires
            old(self).wf(),
            v.wf(old(self).dims),
            old(self).nodes@.len() < usize::MAX,
        ensures
            final(self).wf(),
            final(self).dims == old(self).dims,
            final(self).m == old(self).m,
            final(self).ef == old(self).ef,
            final(self).nodes@.len() == old(self).nodes@.len() + 1,
            final(self).nodes@[old(self).nodes@.len() as int].id == id,
            final(self).nodes@[old(self).nodes@.len() as int].vec@ == v@,
            forall|i: int|
                0 <= i < old(self).nodes@.len() ==> (#[trigger] final(self).nodes@[i]).id == old(
                    self,
                ).nodes@[i].id && final(self).nodes@[i].vec@ == old(self).nodes@[i].vec@,
            forall|i: int|
                0 <= i < final(self).nodes@.len() ==> (
                #[trigger] final(self).nodes@[i]).neighbors@.len() <= final(self).m,
    {
        let level = self.sample_level();
        let node_idx = self.nodes.len();
        let ghost qv = v@;
        let node = Node { id, vec: v, neighbors: Vec::new(), level };
        self.nodes.push(node);
        if node_idx == 0 {
            self.entry = Some(0);
            return ;
        }
        let entry = match self.entry {
            Some(e) => e,
            None => 0,
        };
        // Similarity of every pre-existing node to the new vector; fixed
        // for the whole insertion since vectors never change.
        let ghost sims = Seq::new(
            node_idx as nat,
            |i: int| cosine_s(self.nodes@[i].vec@, qv),
        );
        // Hill climb: repeatedly move to the neighbor most similar to the
        // new vector, stopping at a local optimum.
        let mut cur = entry;
        let mut cur_sim = cosine(&self.nodes[cur].vec.0, &self.nodes[node_idx].vec.0);
        loop
            invariant_except_break
                self.dims <= DIM_MAX,
                node_idx + 1 == self.nodes@.len() <= usize::MAX,
                self.nodes@[node_idx as int].vec@ == qv,
                qv.len() == self.dims,
                wf_components(qv),
                forall|i: int|
                    0 <= i < self.nodes@.len() ==> wf_node(
                        #[trigger] self.nodes@[i],
                        self.dims,
                        self.m,
                        node_idx as int,
                        i,
                    ),
                sims == Seq::new(node_idx as nat, |i: int| cosine_s(self.nodes@[i].vec@, qv)),
                cur < node_idx,
                cur_sim == sims[cur as int],
            ensures
                cur < node_idx,
                cur_sim == sims[cur as int],
            decreases count_gt(sims, cur_sim as int),
        {
            let mut best = cur;
            let mut best_sim = cur_sim;
            let deg = self.nodes[cur].neighbors.len();
            let mut k: usize = 0;
            while k < deg
                invariant
                    cur_sim == sims[cur as int],
                    self.dims <= DIM_MAX,
                    node_idx + 1 == self.nodes@.len(),
                    self.nodes@[node_idx as int].vec@ == qv,
                    qv.len() == self.dims,
                    wf_components(qv),
                    forall|i: int|
                        0 <= i < self.nodes@.len() ==> wf_node(
                            #[trigger] self.nodes@[i],
                            self.dims,
                            self.m,
                            node_idx as int,
                            i,
                        ),
                    sims == Seq::new(node_idx as nat, |i: int| cosine_s(self.nodes@[i].vec@, qv)),
                    cur < node_idx,
                    deg == self.nodes@[cur as int].neighbors@.len(),
                    k <= deg,
                    best < node_idx,
                    best_sim == sims[best as int],
                    best_sim >= cur_sim,
                decreases deg - k,
            {
                let nb = self.nodes[cur].neighbors[k];
                let s = cosine(&self.nodes[nb].vec.0, &self.nodes[node_idx].vec.0);
                if s > best_sim {
                    best = nb;
                    best_sim = s;
                }
                k = k + 1;
            }
            if best_sim > cur_sim {
                proof {
                    lemma_count_gt_strict(sims, cur_sim as int, best as int);
                }
                cur = best;
                cur_sim = best_sim;
            } else {
                break ;
            }
        }
        // Candidates: the local optimum's neighbors plus the optimum
        // itself, ranked by similarity to the new vector, top m kept.
        let mut cand: Vec<(usize, i64)> = Vec::new();
        let cdeg = self.nodes[cur].neighbors.len();
        let mut k: usize = 0;
        while k < cdeg
            invariant
                self.dims <= DIM_MAX,
                node_idx + 1 == self.nodes@.len(),
                self.nodes@[node_idx as int].vec@ == qv,
                qv.len() == self.dims,
                wf_components(qv),
                forall|i: int|
                    0 <= i < self.nodes@.len() ==> wf_node(
                        #[trigger] self.nodes@[i],
                        self.dims,
                        self.m,
                        node_idx as int,
                        i,
                    ),
                cur < node_idx,
                cdeg == self.nodes@[cur as int].neighbors@.len(),
                k <= cdeg,
                forall|t: int| 0 <= t < cand@.len() ==> (#[trigger] cand@[t]).0 < node_idx,
            decreases cdeg - k,
        {
            let nb = self.nodes[cur].neighbors[k];
            let s = cosine(&self.nodes[nb].vec.0, &self.nodes[node_idx].vec.0);
            cand.push((nb, s));
            k = k + 1;
        }
        cand.push((cur, cur_sim));
        let ghost cand_pre_sort = cand@;
        sort_pairs_desc(&mut cand);
        proof {
            lemma_multiset_elems(cand_pre_sort, cand@);
            assert forall|u: int| 0 <= u < cand@.len() implies (#[trigger] cand@[u]).0
                < node_idx by {
                assert(cand_pre_sort.contains(cand@[u]));
            }
        }
        cand.truncate(self.m);
        proof {
            assert forall|i: int| 0 <= i < self.nodes@.len() implies wf_node(
                #[trigger] self.nodes@[i],
                self.dims,
                self.m,
                self.nodes@.len() as int,
                i,
            ) by {
                assert(wf_node(self.nodes@[i], self.dims, self.m, node_idx as int, i));
            }
        }
        // Connect bidirectionally, pruning any neighbor pushed past m.
        let mut tmp = Node { id: 0, vec: Vector(Vec::new()), neighbors: Vec::new(), level: 0 };
        let mut t: usize = 0;
        while t < cand.len()
            invariant
                self.dims <= DIM_MAX,
                self.m == old(self).m,
                self.ef == old(self).ef,
                self.dims == old(self).dims,
                self.entry == old(self).entry,
                node_idx + 1 == self.nodes@.len(),
                self.nodes@[node_idx as int].vec@ == qv,
                self.nodes@[node_idx as int].id == id,
                qv.len() == self.dims,
                wf_components(qv),
                t <= cand@.len(),
                cand@.len() <= self.m,
                forall|u: int| 0 <= u < cand@.len() ==> (#[trigger] cand@[u]).0 < node_idx,
                self.nodes@[node_idx as int].neighbors@.len() <= t,
                forall|i: int|
                    0 <= i < self.nodes@.len() ==> wf_node(
                        #[trigger] self.nodes@[i],
                        self.dims,
                        self.m,
                        self.nodes@.len() as int,
                        i,
                    ),
                forall|i: int|
                    0 <= i < node_idx ==> (#[trigger] self.nodes@[i]).id == old(self).nodes@[i].id
                        && self.nodes@[i].vec@ == old(self).nodes@[i].vec@,
            decreases cand@.len() - t,
        {
            let ghost body_pre = self.nodes@;
            let nidx = cand[t].0;
            // extend the new node's own list
            self.nodes.set_and_swap(node_idx, &mut tmp);
            let mut newn = tmp;
            tmp = Node { id: 0, vec: Vector(Vec::new()), neighbors: Vec::new(), level: 0 };
            newn.neighbors.push(nidx);
            self.nodes.set_and_swap(node_idx, &mut newn);
            let ghost upd_new = self.nodes@[node_idx as int];
            proof {
                assert(self.nodes@ =~= body_pre.update(node_idx as int, upd_new));
                assert(upd_new.neighbors@ == body_pre[node_idx as int].neighbors@.push(nidx));
            }
            // extend the neighbor's list, pruning if its degree passed m
            self.nodes.set_and_swap(nidx, &mut tmp);
            let mut nb_node = tmp;
            tmp = Node { id: 0, vec: Vector(Vec::new()), neighbors: Vec::new(), level: 0 };
            proof {
                assert(nb_node == body_pre[nidx as int]);
                assert(wf_node(
                    body_pre[nidx as int],
                    self.dims,
                    self.m,
                    body_pre.len() as int,
                    nidx as int,
                ));
            }
            nb_node.neighbors.push(node_idx);
            if nb_node.neighbors.len() > self.m {
                let mut scored: Vec<(usize, i64)> = Vec::new();
                let mut u: usize = 0;
                while u < nb_node.neighbors.len()
                    invariant
                        u <= nb_node.neighbors@.len(),
                        nidx < node_idx < self.nodes@.len(),
                        nb_node.vec@.len() == self.dims <= DIM_MAX,
                        wf_components(nb_node.vec@),
                        forall|w: int|
                            0 <= w < nb_node.neighbors@.len() ==> 0 <= (
                            #[trigger] nb_node.neighbors@[w]) < self.nodes@.len()
                                && nb_node.neighbors@[w] != nidx,
                        forall|i: int|
                            0 <= i < self.nodes@.len() && i != nidx as int ==> wf_node(
                                #[trigger] self.nodes@[i],
                                self.dims,
                                self.m,
                                self.nodes@.len() as int,
                                i,
                            ),
                        scored@.len() == u,
                        forall|w: int|
                            0 <= w < u ==> 0 <= (#[trigger] scored@[w]).0 < self.nodes@.len()
                                && scored@[w].0 != nidx,
                    decreases nb_node.neighbors@.len() - u,
                {
                    let nb2 = nb_node.neighbors[u];
                    let s = cosine(&nb_node.vec.0, &self.nodes[nb2].vec.0);
                    scored.push((nb2, s));
                    u = u + 1;
                }
                let ghost scored_pre_sort = scored@;
                sort_pairs_desc(&mut scored);
                proof {
                    lemma_multiset_elems(scored_pre_sort, scored@);
                    assert forall|w: int| 0 <= w < scored@.len() implies 0 <= (
                    #[trigger] scored@[w]).0 < self.nodes@.len() && scored@[w].0 != nidx by {
                        assert(scored_pre_sort.contains(scored@[w]));
                    }
                }
                scored.truncate(self.m);
                let mut pruned: Vec<usize> = Vec::new();
                let mut u2: usize = 0;
                while u2 < scored.len()
                    invariant
                        u2 <= scored@.len(),
                        pruned@.len() == u2,
                        forall|w: int|
                            0 <= w < scored@.len() ==> 0 <= (#[trigger] scored@[w]).0
                                < self.nodes@.len() && scored@[w].0 != nidx,
                        forall|w: int|
                            0 <= w < u2 ==> 0 <= (#[trigger] pruned@[w]) < self.nodes@.len()
                                && pruned@[w] != nidx,
                    decreases scored@.len() - u2,
                {
                    pruned.push(scored[u2].0);
                    u2 = u2 + 1;
                }
                nb_node.neighbors = pruned;
            }
            proof {
                assert(nb_node.neighbors@.len() <= self.m);
                assert(forall|w: int|
                    0 <= w < nb_node.neighbors@.len() ==> 0 <= (#[trigger] nb_node.neighbors@[w])
                        < self.nodes@.len() && nb_node.neighbors@[w] != nidx);
            }
            self.nodes.set_and_swap(nidx, &mut nb_node);
            tmp = nb_node;
            t = t + 1;
            proof {
                let fin = self.nodes@;
                assert(fin =~= body_pre.update(node_idx as int, upd_new).update(
                    nidx as int,
                    fin[nidx as int],
                ));
                assert forall|i: int| 0 <= i < fin.len() implies wf_node(
                    #[trigger] fin[i],
                    self.dims,
                    self.m,
                    fin.len() as int,
                    i,
                ) by {
                    if i == node_idx as int {
                        assert(wf_node(
                            body_pre[i],
                            self.dims,
                            self.m,
                            body_pre.len() as int,
                            i,
                        ));
                        assert(fin[i].neighbors@ == body_pre[i].neighbors@.push(nidx));
                    } else if i == nidx as int {
                    } else {
                        assert(fin[i] == body_pre[i]);
                        assert(wf_node(
                            body_pre[i],
                            self.dims,
                            self.m,
                            body_pre.len() as int,
                            i,
                        ));
                    }
                }
            }
        }
    }

    /// Approximate top-k: a randomized depth-first frontier traversal from
    /// the entry point scores every reached node (up to `ef` shuffled
    /// neighbors are expanded per node, with no visitation cap), then the
    /// scored nodes are ordered by non-increasing similarity and the first
    /// `k` returned. On a non-empty graph with `k >= 1` the result holds
    /// between 1 and `min(k, n)` entries, each the true similarity of some
    /// node to the query; randomness only decides which nodes are reached.
    pub fn topk(&self, q: &Vector, k: usize) -> (r: Vec<(u64, i64)>)
        requires
            self.wf(),
            q.wf(self.dims),
        ensures
            r@.len() <= k,
            r@.len() <= self.nodes@.len(),
            k >= 1 && self.nodes@.len() >= 1 ==> r@.len() >= 1,
            sorted_desc(r@),
            forall|i: int| 0 <= i < r@.len() ==> -SCALE <= (#[trigger] r@[i]).1 <= SCALE,
            scores_from_nodes(self.nodes@, q@, r@),
    {
        let n = self.nodes.len();
        if n == 0 {
            let r: Vec<(u64, i64)> = Vec::new();
            return r;
        }
        proof {
            assert(n >= 1);
        }
        let start = match self.entry {
            Some(e) => e,
            None => 0,
        };
        let mut frontier: Vec<usize> = Vec::new();
        frontier.push(start);
        let mut visited: Vec<bool> = vec![false; n];
        proof {
            lemma_count_true_zero(visited@);
        }
        let mut visited_count: usize = 0;
        let mut best: Vec<(usize, i64)> = Vec::new();
        while frontier.len() > 0
            invariant
                self.wf(),
                q.wf(self.dims),
                n == self.nodes@.len(),
                visited@.len() == n,
                visited_count == count_true(visited@),
                visited_count <= n,
                best@.len() == visited_count,
                forall|w: int| 0 <= w < frontier@.len() ==> (#[trigger] frontier@[w]) < n,
                forall|w: int|
                    0 <= w < best@.len() ==> (#[trigger] best@[w]).0 < n && best@[w].1 == cosine_s(
                        self.nodes@[best@[w].0 as int].vec@,
                        q@,
                    ) && -SCALE <= best@[w].1 <= SCALE,
                visited_count == 0 ==> frontier@.len() > 0 && (forall|w: int|
                    0 <= w < n ==> !(#[trigger] visited@[w])),
            decreases n - visited_count, frontier@.len(),
        {
            let cur = frontier.pop().unwrap();
            if visited[cur] {
                continue ;
            }
            proof {
                lemma_count_true_update(visited@, cur as int);
                lemma_count_true_bound(visited@.update(cur as int, true));
            }
            visited.set(cur, true);
            visited_count = visited_count + 1;
            let s = cosine(&self.nodes[cur].vec.0, &q.0);
            best.push((cur, s));
            let deg = self.nodes[cur].neighbors.len();
            let mut neigh: Vec<usize> = Vec::new();
            let mut w: usize = 0;
            while w < deg
                invariant
                    self.wf(),
                    n == self.nodes@.len(),
                    cur < n,
                    deg == self.nodes@[cur as int].neighbors@.len(),
                    w <= deg,
                    neigh@.len() == w,
                    forall|x: int| 0 <= x < w ==> (#[trigger] neigh@[x]) < n,
                decreases deg - w,
            {
                neigh.push(self.nodes[cur].neighbors[w]);
                w = w + 1;
            }
            let ghost neigh_pre = neigh@;
            shuffle_indices(&mut neigh);
            proof {
                lemma_multiset_elems(neigh_pre, neigh@);
            }
            let lim = if self.ef < neigh.len() {
                self.ef
            } else {
                neigh.len()
            };
            let mut w2: usize = 0;
            while w2 < lim
                invariant
                    lim <= neigh@.len(),
                    w2 <= lim,
                    n == visited@.len(),
                    forall|x: int| 0 <= x < neigh@.len() ==> (#[trigger] neigh@[x]) < n,
                    forall|x: int| 0 <= x < frontier@.len() ==> (#[trigger] frontier@[x]) < n,
                decreases lim - w2,
            {
                let nb = neigh[w2];
                if !visited[nb] {
                    frontier.push(nb);
                }
                w2 = w2 + 1;
            }
        }
        let ghost best_pre = best@;
        sort_pairs_desc(&mut best);
        proof {
            lemma_multiset_elems(best_pre, best@);
            assert forall|w: int| 0 <= w < best@.len() implies (#[trigger] best@[w]).0 < n
                && best@[w].1 == cosine_s(self.nodes@[best@[w].0 as int].vec@, q@) && -SCALE
                <= best@[w].1 <= SCALE by {
                assert(best_pre.contains(best@[w]));
            }
        }
        let ghost best_sorted = best@;
        best.truncate(k);
        proof {
            if k as int >= best_sorted.len() {
                assert(best@ =~= best_sorted.subrange(0, best_sorted.len() as int));
            }
            assert(best@ == best_sorted.subrange(0, best@.len() as int));
        }
        let mut out: Vec<(u64, i64)> = Vec::new();
        let mut t: usize = 0;
        while t < best.len()
            invariant
                n == self.nodes@.len(),
                t <= best@.len(),
                out@.len() == t,
                forall|w: int|
                    0 <= w < best@.len() ==> (#[trigger] best@[w]).0 < n && best@[w].1 == cosine_s(
                        self.nodes@[best@[w].0 as int].vec@,
                        q@,
                    ) && -SCALE <= best@[w].1 <= SCALE,
                sorted_desc(best@),
                forall|w: int| 0 <= w < t ==> (#[trigger] out@[w]).1 == best@[w].1,
                forall|w: int|
                    0 <= w < t ==> (#[trigger] out@[w]).0 == self.nodes@[best@[w].0 as int].id,
            decreases best@.len() - t,
        {
            out.push((self.nodes[best[t].0].id, best[t].1));
            t = t + 1;
        }
        proof {
            let idx = Seq::new(best@.len(), |i: int| best@[i].0 as int);
            lemma_scores_from_nodes_intro(self.nodes@, q@, out@, idx);
        }
        out
    }
}

} // verus!
