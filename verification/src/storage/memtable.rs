//! Memory table: per-key chains of versioned rows, newest last. The
//! engine's mutable source of truth; exclusive access is the caller's
//! concern (the engine owns its table).

use vstd::prelude::*;
use vstd::pervasive::VecAdditionalExecFns;
use crate::mvcc::{spec_visible_at, visible_at};
use crate::types::{RowKey, Timestamp, VersionedRow, VersionedRowV};

verus! {

/// Versions of one chain in ghost form, oldest first.
pub open spec fn versions_of(e: (String, Vec<VersionedRow>)) -> Seq<VersionedRowV> {
    e.1@.map_values(|v: VersionedRow| v@)
}

/// Chain versions appended in non-decreasing `begin_ts` order.
pub open spec fn chain_sorted(vs: Seq<VersionedRowV>) -> bool {
    forall|a: int, b: int|
        0 <= a <= b < vs.len() ==> (#[trigger] vs[a]).begin_ts <= (#[trigger] vs[b]).begin_ts
}

/// Chain versions appended in strictly increasing `begin_ts` order, as a
/// single global write counter produces.
pub open spec fn chain_strict(vs: Seq<VersionedRowV>) -> bool {
    forall|a: int, b: int|
        0 <= a < b < vs.len() ==> (#[trigger] vs[a]).begin_ts < (#[trigger] vs[b]).begin_ts
}

/// The newest visible version of a chain: scan from the newest end and
/// take the first version the visibility oracle accepts.
pub open spec fn visible_pick(vs: Seq<VersionedRowV>, ts: Timestamp) -> Option<VersionedRowV>
    decreases vs.len(),
{
    if vs.len() == 0 {
        None
    } else if spec_visible_at(vs.last(), ts) {
        Some(vs.last())
    } else {
        visible_pick(vs.drop_last(), ts)
    }
}

/// On a chain of non-decreasing `begin_ts`, `visible_pick` returns a
/// visible version of maximal `begin_ts`, and nothing when no version is
/// visible: the visibility law of point lookups.
pub proof fn lemma_visible_pick_maximal(vs: Seq<VersionedRowV>, ts: Timestamp)
    requires
        chain_sorted(vs),
    ensures
        match visible_pick(vs, ts) {
            Some(v) => vs.contains(v) && spec_visible_at(v, ts) && forall|j: int|
                0 <= j < vs.len() && spec_visible_at(#[trigger] vs[j], ts) ==> vs[j].begin_ts
                    <= v.begin_ts,
            None => forall|j: int| 0 <= j < vs.len() ==> !spec_visible_at(#[trigger] vs[j], ts),
        },
    decreases vs.len(),
{
    if vs.len() > 0 {
        if spec_visible_at(vs.last(), ts) {
            assert(vs.contains(vs.last()));
        } else {
            lemma_visible_pick_maximal(vs.drop_last(), ts);
            match visible_pick(vs.drop_last(), ts) {
                Some(v) => {
                    let i = choose|i: int|
                        0 <= i < vs.drop_last().len() && vs.drop_last()[i] == v;
                    assert(vs[i] == v);
                    assert(vs.contains(v));
                    assert forall|j: int|
                        0 <= j < vs.len() && spec_visible_at(#[trigger] vs[j], ts) implies
                        vs[j].begin_ts <= v.begin_ts by {
                        if j < vs.len() - 1 {
                            assert(vs.drop_last()[j] == vs[j]);
                        }
                    }
                },
                None => {
                    assert forall|j: int| 0 <= j < vs.len() implies !spec_visible_at(
                        #[trigger] vs[j],
                        ts,
                    ) by {
                        if j < vs.len() - 1 {
                            assert(vs.drop_last()[j] == vs[j]);
                        }
                    }
                },
            }
        }
    }
}

/// On a strictly increasing chain the visible version of maximal
/// `begin_ts` is unique: any visible version with the same `begin_ts` is
/// the picked one itself.
pub proof fn lemma_visible_pick_unique(vs: Seq<VersionedRowV>, ts: Timestamp, v: VersionedRowV)
    requires
        chain_strict(vs),
        visible_pick(vs, ts) == Some(v),
    ensures
        forall|j: int|
            0 <= j < vs.len() && spec_visible_at(#[trigger] vs[j], ts) && vs[j].begin_ts
                == v.begin_ts ==> vs[j] == v,
    decreases vs.len(),
{
    assert(chain_sorted(vs));
    lemma_visible_pick_maximal(vs, ts);
    let i = choose|i: int| 0 <= i < vs.len() && vs[i] == v;
    assert forall|j: int|
        0 <= j < vs.len() && spec_visible_at(#[trigger] vs[j], ts) && vs[j].begin_ts
            == v.begin_ts implies vs[j] == v by {
        if j != i {
            assert(vs[j].begin_ts != vs[i].begin_ts);
        }
    }
}

/// The in-memory table: key-ordered chains of versions (order of the
/// chain list is not observable through the lookup interface).
pub struct MemTable {
    pub chains: Vec<(String, Vec<VersionedRow>)>,
}

impl MemTable {
    /// Keys are unique and every chain is non-empty with non-decreasing
    /// timestamps.
    pub open spec fn wf(&self) -> bool {
        &&& forall|i: int, j: int|
            0 <= i < j < self.chains@.len() ==> (#[trigger] self.chains@[i]).0@ != (
            #[trigger] self.chains@[j]).0@
        &&& forall|i: int|
            0 <= i < self.chains@.len() ==> chain_sorted(versions_of(#[trigger] self.chains@[i]))
                && versions_of(self.chains@[i]).len() > 0
    }

    pub open spec fn has_chain(&self, k: Seq<char>) -> bool {
        exists|i: int| 0 <= i < self.chains@.len() && (#[trigger] self.chains@[i]).0@ == k
    }

    pub open spec fn chain_index(&self, k: Seq<char>) -> int {
        choose|i: int| 0 <= i < self.chains@.len() && (#[trigger] self.chains@[i]).0@ == k
    }

    /// All versions of the row keyed `k`, oldest first; empty when the key
    /// is absent.
    pub open spec fn chain_for(&self, k: Seq<char>) -> Seq<VersionedRowV> {
        if self.has_chain(k) {
            versions_of(self.chains@[self.chain_index(k)])
        } else {
            Seq::empty()
        }
    }

    pub fn new() -> (r: Self)
        ensures
            r.wf(),
            r.chains@.len() == 0,
            forall|k: Seq<char>| #[trigger] r.chain_for(k) == Seq::<VersionedRowV>::empty(),
    {
        MemTable { chains: Vec::new() }
    }

    fn find_chain(&self, key: &String) -> (r: Option<usize>)
        requires
            self.wf(),
        ensures
            match r {
                Some(i) => i < self.chains@.len() && self.chains@[i as int].0@ == key@
                    && self.has_chain(key@) && self.chain_index(key@) == i as int,
                None => !self.has_chain(key@),
            },
    {
        let n = self.chains.len();
        let mut i: usize = 0;
        while i < n
            invariant
                i <= n,
                n == self.chains@.len(),
                self.wf(),
                forall|j: int| 0 <= j < i ==> (#[trigger] self.chains@[j]).0@ != key@,
            decreases n - i,
        {
            if self.chains[i].0.eq(key) {
                proof {
                    assert(self.chains@[i as int].0@ == key@);
                    assert forall|j: int|
                        0 <= j < self.chains@.len() && (#[trigger] self.chains@[j]).0@
                            == key@ implies j == i as int by {
                        if j != i as int {
                            assert(self.chains@[j].0@ != self.chains@[i as int].0@);
                        }
                    }
                }
                return Some(i);
            }
            i = i + 1;
        }
        None
    }

    /// Append `v` to the chain of its key, creating the chain if absent.
    /// Every other chain is untouched.
    pub fn upsert(&mut self, v: VersionedRow)
        requires
            old(self).wf(),
            old(self).chain_for(v@.row.key).len() > 0 ==> old(self).chain_for(
                v@.row.key,
            ).last().begin_ts <= v.begin_ts,
        ensures
            final(self).wf(),
            final(self).has_chain(v@.row.key),
            final(self).chain_for(v@.row.key) == old(self).chain_for(v@.row.key).push(v@),
            forall|k: Seq<char>|
                k != v@.row.key ==> final(self).chain_for(k) == old(self).chain_for(k),
    {
        let ghost key = v@.row.key;
        let ghost vv = v@;
        match self.find_chain(&v.row.key.0) {
            Some(i) => {
                let ghost pre = self.chains@;
                let mut e: (String, Vec<VersionedRow>) = (String::new(), Vec::new());
                self.chains.set_and_swap(i, &mut e);
                e.1.push(v);
                self.chains.set_and_swap(i, &mut e);
                proof {
                    assert(self.chains@ =~= pre.update(
                        i as int,
                        (pre[i as int].0, self.chains@[i as int].1),
                    ));
                    assert(versions_of(self.chains@[i as int]) =~= versions_of(
                        pre[i as int],
                    ).push(vv));
                    assert forall|j: int| 0 <= j < self.chains@.len() implies (
                    #[trigger] self.chains@[j]).0@ == pre[j].0@ by {}
                    lemma_same_keys_same_chains(*old(self), *self, i as int, vv);
                }
            },
            None => {
                let ghost pre = *self;
                let key_string = v.row.key.0.clone();
                let mut versions: Vec<VersionedRow> = Vec::new();
                versions.push(v);
                self.chains.push((key_string, versions));
                proof {
                    let n = pre.chains@.len() as int;
                    assert(versions_of(self.chains@[n]) =~= seq![vv]);
                    assert forall|a: int, b: int|
                        0 <= a < b < self.chains@.len() implies (#[trigger] self.chains@[a]).0@
                        != (#[trigger] self.chains@[b]).0@ by {
                        if b == n {
                            assert(self.chains@[a] == pre.chains@[a]);
                            if self.chains@[a].0@ == key {
                                assert(pre.has_chain(key));
                            }
                        }
                    }
                    assert forall|j: int| 0 <= j < self.chains@.len() implies chain_sorted(
                        versions_of(#[trigger] self.chains@[j]),
                    ) && versions_of(self.chains@[j]).len() > 0 by {
                        if j < n {
                            assert(self.chains@[j] == pre.chains@[j]);
                        }
                    }
                    lemma_chain_index_is(*self, key, n);
                    assert(self.chain_for(key) =~= pre.chain_for(key).push(vv));
                    assert forall|k: Seq<char>| k != key implies self.chain_for(k)
                        == pre.chain_for(k) by {
                        if pre.has_chain(k) {
                            let j = pre.chain_index(k);
                            assert(0 <= j < pre.chains@.len() && pre.chains@[j].0@ == k);
                            assert(self.chains@[j] == pre.chains@[j]);
                            lemma_chain_index_is(*self, k, j);
                        } else {
                            assert(!self.has_chain(k)) by {
                                if self.has_chain(k) {
                                    let j = self.chain_index(k);
                                    assert(0 <= j < self.chains@.len());
                                    if j < n {
                                        assert(pre.chains@[j].0@ == k);
                                    }
                                }
                            }
                        }
                    }
                }
            },
        }
    }

    /// Newest version of `key` visible at `ts`: scan the chain from newest
    /// to oldest and return the first version the oracle accepts.
    pub fn get_visible(&self, key: &RowKey, ts: Timestamp) -> (r: Option<VersionedRow>)
        requires
            self.wf(),
        ensures
            match r {
                Some(v) => visible_pick(self.chain_for(key@), ts) == Some(v@),
                None => visible_pick(self.chain_for(key@), ts) is None,
            },
    {
        match self.find_chain(&key.0) {
            Some(i) => pick_visible(&self.chains[i].1, ts),
            None => None,
        }
    }

    /// The visible snapshot: for every key, its newest version visible at
    /// `ts`, in the table's chain order; keys with no visible version are
    /// absent.
    pub fn scan_visible(&self, ts: Timestamp) -> (r: Vec<VersionedRow>)
        requires
            self.wf(),
        ensures
            r@.map_values(|v: VersionedRow| v@) == scan_spec(self.chains@, ts),
    {
        let n = self.chains.len();
        let mut out: Vec<VersionedRow> = Vec::new();
        let mut i: usize = 0;
        while i < n
            invariant
                i <= n,
                n == self.chains@.len(),
                self.wf(),
                out@.map_values(|v: VersionedRow| v@) == scan_spec(self.chains@.take(i as int), ts),
            decreases n - i,
        {
            let picked = pick_visible(&self.chains[i].1, ts);
            proof {
                assert(self.chains@.take(i as int + 1).drop_last() =~= self.chains@.take(i as int));
                assert(self.chains@.take(i as int + 1).last() == self.chains@[i as int]);
            }
            match picked {
                Some(v) => {
                    out.push(v);
                },
                None => {
                },
            }
            i = i + 1;
            proof {
                assert(out@.map_values(|v: VersionedRow| v@) =~= scan_spec(
                    self.chains@.take(i as int),
                    ts,
                ));
            }
        }
        proof {
            assert(self.chains@.take(n as int) =~= self.chains@);
        }
        out
    }
}

/// The visible snapshot of a chain list: chain by chain, the newest
/// visible version if any.
pub open spec fn scan_spec(cs: Seq<(String, Vec<VersionedRow>)>, ts: Timestamp) -> Seq<
    VersionedRowV,
>
    decreases cs.len(),
{
    if cs.len() == 0 {
        Seq::empty()
    } else {
        scan_spec(cs.drop_last(), ts) + match visible_pick(versions_of(cs.last()), ts) {
            Some(v) => seq![v],
            None => Seq::empty(),
        }
    }
}

/// Newest visible version of one chain, newest-to-oldest scan.
fn pick_visible(chain: &Vec<VersionedRow>, ts: Timestamp) -> (r: Option<VersionedRow>)
    ensures
        match r {
            Some(v) => visible_pick(chain@.map_values(|w: VersionedRow| w@), ts) == Some(v@),
            None => visible_pick(chain@.map_values(|w: VersionedRow| w@), ts) is None,
        },
{
    let ghost cv = chain@.map_values(|w: VersionedRow| w@);
    proof {
        assert(cv.take(chain@.len() as int) =~= cv);
    }
    let mut j: usize = chain.len();
    while j > 0
        invariant
            j <= chain@.len(),
            cv == chain@.map_values(|w: VersionedRow| w@),
            visible_pick(cv, ts) == visible_pick(cv.take(j as int), ts),
        decreases j,
    {
        proof {
            assert(cv.take(j as int).last() == cv[j as int - 1]);
            assert(cv.take(j as int).drop_last() =~= cv.take(j as int - 1));
        }
        if visible_at(&chain[j - 1], ts) {
            return Some(chain[j - 1].clone());
        }
        j = j - 1;
    }
    proof {
        assert(cv.take(0).len() == 0);
    }
    None
}

proof fn lemma_same_keys_same_chains(
    pre: MemTable,
    post: MemTable,
    i: int,
    vv: VersionedRowV,
)
    requires
        pre.wf(),
        0 <= i < pre.chains@.len(),
        post.chains@.len() == pre.chains@.len(),
        pre.chains@[i].0@ == vv.row.key,
        forall|j: int|
            0 <= j < post.chains@.len() ==> (#[trigger] post.chains@[j]).0@ == pre.chains@[j].0@,
        forall|j: int|
            0 <= j < post.chains@.len() && j != i ==> #[trigger] post.chains@[j]
                == pre.chains@[j],
        versions_of(post.chains@[i]) == versions_of(pre.chains@[i]).push(vv),
        pre.chain_for(vv.row.key).len() > 0 ==> pre.chain_for(vv.row.key).last().begin_ts
            <= vv.begin_ts,
    ensures
        post.wf(),
        post.has_chain(vv.row.key),
        post.chain_for(vv.row.key) == pre.chain_for(vv.row.key).push(vv),
        forall|k: Seq<char>| k != vv.row.key ==> post.chain_for(k) == pre.chain_for(k),
{
    let key = vv.row.key;
    assert(pre.has_chain(key));
    assert(pre.chain_index(key) == i) by {
        lemma_chain_index_is(pre, key, i);
    }
    assert(post.has_chain(key));
    assert(post.chain_index(key) == i) by {
        lemma_chain_index_is(post, key, i);
    }
    assert(chain_sorted(versions_of(post.chains@[i])));
    assert forall|j: int| 0 <= j < post.chains@.len() implies chain_sorted(
        versions_of(#[trigger] post.chains@[j]),
    ) && versions_of(post.chains@[j]).len() > 0 by {
        if j != i {
            assert(post.chains@[j] == pre.chains@[j]);
        }
    }
    assert forall|k: Seq<char>| k != key implies post.chain_for(k) == pre.chain_for(k) by {
        if pre.has_chain(k) {
            let j = pre.chain_index(k);
            assert(0 <= j < pre.chains@.len() && pre.chains@[j].0@ == k);
            assert(j != i);
            lemma_chain_index_is(post, k, j);
            assert(post.chain_for(k) == pre.chain_for(k));
        } else {
            assert(!post.has_chain(k)) by {
                if post.has_chain(k) {
                    let j = post.chain_index(k);
                    assert(pre.chains@[j].0@ == k);
                }
            }
        }
    }
}

/// With unique keys, the chain index of a present key is the slot that
/// holds it.
proof fn lemma_chain_index_is(t: MemTable, k: Seq<char>, i: int)
    requires
        forall|a: int, b: int|
            0 <= a < b < t.chains@.len() ==> (#[trigger] t.chains@[a]).0@ != (
            #[trigger] t.chains@[b]).0@,
        0 <= i < t.chains@.len(),
        t.chains@[i].0@ == k,
    ensures
        t.has_chain(k),
        t.chain_index(k) == i,
{
    assert(t.has_chain(k));
    let j = t.chain_index(k);
    assert(0 <= j < t.chains@.len() && t.chains@[j].0@ == k);
    if j != i {
        if j < i {
            assert(t.chains@[j].0@ != t.chains@[i].0@);
        } else {
            assert(t.chains@[i].0@ != t.chains@[j].0@);
        }
    }
}

} // verus!
