//! Durable formats and the ingestion engine.

pub mod codec;
pub mod columnsegment;
pub mod memtable;
pub mod rowsegment;
pub mod wal;

use vstd::prelude::*;
use crate::semantic::pipeline::Embedder;
use crate::semantic::{HeuristicOlsp, Olsp, OlspOutput};
use crate::types::{DIM_MAX, Row, RowV, Timestamp, TxnId, VersionedRow, VersionedRowV};
use crate::vector::flat::FlatIndex;
use memtable::{chain_strict, MemTable};

verus! {

/// Relies on ahash's `AHasher::default` (fixed per-process keys) to hash a
/// row key to its vector-index id. The keys are seeded once per process,
/// so nothing is promised of the value.
#[verifier::external_body]
fn hash_key(k: &str) -> u64 {
    let mut h = ahash::AHasher::default();
    std::hash::Hash::hash(k, &mut h);
    std::hash::Hasher::finish(&h)
}

/// The vector-index id recorded for key `k`, if one was assigned:
/// first-match lookup in the engine's memo, at position `i` or later.
pub open spec fn key_id_from(ids: Seq<(String, u64)>, k: Seq<char>, i: int) -> Option<u64>
    decreases ids.len() - i,
{
    if i < 0 || i >= ids.len() {
        None
    } else if ids[i].0@ == k {
        Some(ids[i].1)
    } else {
        key_id_from(ids, k, i + 1)
    }
}

pub open spec fn key_id(ids: Seq<(String, u64)>, k: Seq<char>) -> Option<u64> {
    key_id_from(ids, k, 0)
}

/// Every chain strictly increasing and bounded by the engine's clock.
pub open spec fn mem_ok(mem: MemTable, now: Timestamp) -> bool {
    forall|k: Seq<char>|
        {
            let c = #[trigger] mem.chain_for(k);
            chain_strict(c) && forall|j: int| 0 <= j < c.len() ==> (#[trigger] c[j]).begin_ts <= now
        }
}

/// One write's effect on the engine: the timestamp counter advances once,
/// the row's chain gains exactly one open version stamped with the new
/// timestamp, and — when the payload carries a `text` field — the vector
/// index gains exactly one entry under the id recorded for the key (a key
/// seen before keeps its old id, so re-inserting adds a second entry
/// under the same id rather than replacing the first).
pub open spec fn insert_effect<E: Embedder>(
    pre: Engine<E>,
    post: Engine<E>,
    txn: TxnId,
    row: RowV,
) -> bool {
    &&& pre.now < u64::MAX
    &&& post.now == pre.now + 1
    &&& post.mem.chain_for(row.key) == pre.mem.chain_for(row.key).push(
        VersionedRowV { begin_ts: (pre.now + 1) as u64, end_ts: None, txn_id: txn, row },
    )
    &&& forall|k: Seq<char>| k != row.key ==> post.mem.chain_for(k) == pre.mem.chain_for(k)
    &&& post.flat_index.dims == pre.flat_index.dims
    &&& match crate::types::field_lookup(row.payload, "text"@) {
        Some(_) => {
            &&& key_id(post.vector_ids@, row.key) is Some
            &&& (key_id(pre.vector_ids@, row.key) is Some ==> key_id(post.vector_ids@, row.key)
                == key_id(pre.vector_ids@, row.key))
            &&& forall|k: Seq<char>|
                k != row.key ==> key_id(post.vector_ids@, k) == key_id(pre.vector_ids@, k)
            &&& exists|vec: Seq<i64>|
                post.flat_index@ == pre.flat_index@.push(
                    (key_id(post.vector_ids@, row.key)->Some_0, vec),
                )
        },
        None => post.flat_index@ == pre.flat_index@ && post.vector_ids@ == pre.vector_ids@,
    }
}

/// The ingestion engine: it owns the memory table, the active vector
/// index, the embedder, the logical clock, the memo of key-to-id
/// assignments, and the optional enrichment pass.
pub struct Engine<E: Embedder> {
    pub mem: MemTable,
    pub flat_index: FlatIndex,
    pub embedder: E,
    pub now: Timestamp,
    pub vector_ids: Vec<(String, u64)>,
    pub olsp: HeuristicOlsp,
}

impl<E: Embedder> Engine<E> {
    /// The engine invariant: the table and index are well formed, the
    /// embedder and index agree on dimensionality, id memo keys are
    /// unique, and every stored version was stamped at or before `now`,
    /// strictly increasing within its chain.
    pub open spec fn wf(&self) -> bool {
        &&& self.mem.wf()
        &&& self.flat_index.wf()
        &&& self.embedder.spec_dims() == self.flat_index.dims
        &&& mem_ok(self.mem, self.now)
    }

    /// A fresh engine over an embedder of dimensionality `dims`, with the
    /// logical clock at its initial value.
    pub fn new(embedder: E, dims: usize) -> (r: Self)
        requires
            dims <= DIM_MAX,
            embedder.spec_dims() == dims,
        ensures
            r.wf(),
            r.now == 1,
            r.flat_index.dims == dims,
            r.flat_index@ == Seq::<(u64, Seq<i64>)>::empty(),
            forall|k: Seq<char>| #[trigger] r.mem.chain_for(k) == Seq::<VersionedRowV>::empty(),
    {
        let r = Engine {
            mem: MemTable::new(),
            flat_index: FlatIndex::new(dims),
            embedder,
            now: 1,
            vector_ids: Vec::new(),
            olsp: HeuristicOlsp,
        };
        r
    }

    /// Take the next logical timestamp: one exclusive increment of the
    /// shared counter per write.
    fn next_ts(&mut self) -> (ts: Timestamp)
        requires
            old(self).now < u64::MAX,
        ensures
            final(self).now == old(self).now + 1,
            ts == final(self).now,
            final(self).mem == old(self).mem,
            final(self).flat_index == old(self).flat_index,
            final(self).embedder == old(self).embedder,
            final(self).vector_ids == old(self).vector_ids,
    {
        self.now = self.now + 1;
        self.now
    }

    /// The vector-index id for a key: the recorded one if the key was
    /// embedded before, else a fresh hash of the key, recorded for reuse.
    fn id_for_key(&mut self, key: &String) -> (id: u64)
        ensures
            final(self).mem == old(self).mem,
            final(self).flat_index == old(self).flat_index,
            final(self).embedder == old(self).embedder,
            final(self).now == old(self).now,
            key_id(final(self).vector_ids@, key@) == Some(id),
            key_id(old(self).vector_ids@, key@) is Some ==> final(self).vector_ids@ == old(
                self,
            ).vector_ids@ && key_id(old(self).vector_ids@, key@) == Some(id),
            forall|k: Seq<char>|
                k != key@ ==> key_id(final(self).vector_ids@, k) == key_id(
                    old(self).vector_ids@,
                    k,
                ),
    {
        let n = self.vector_ids.len();
        let mut i: usize = 0;
        while i < n
            invariant
                i <= n,
                n == self.vector_ids@.len(),
                key_id(self.vector_ids@, key@) == key_id_from(self.vector_ids@, key@, i as int),
            decreases n - i,
        {
            if self.vector_ids[i].0.eq(key) {
                return self.vector_ids[i].1;
            }
            i = i + 1;
        }
        let id = hash_key(key.as_str());
        let ghost pre = self.vector_ids@;
        let entry = (key.clone(), id);
        let ghost gentry = entry;
        self.vector_ids.push(entry);
        proof {
            assert forall|k2: Seq<char>|
                #[trigger] key_id(self.vector_ids@, k2) == (match key_id(pre, k2) {
                    Some(x) => Some(x),
                    None => if k2 == key@ {
                        Some(id)
                    } else {
                        None
                    },
                }) by {
                lemma_key_id_from_push(pre, gentry, k2, 0);
            }
        }
        id
    }

    /// Ingest one write: stamp it with the next timestamp, append it to
    /// its key's chain as an open version, and — when the payload has a
    /// string `text` field — embed the text and add it to the vector
    /// index under the key's recorded id, running enrichment as a side
    /// effect that decides nothing.
    pub fn insert(&mut self, txn: TxnId, row: Row)
        requires
            old(self).wf(),
            old(self).now < u64::MAX,
        ensures
            final(self).wf(),
            insert_effect(*old(self), *final(self), txn, row@),
    {
        let ghost rv = row@;
        let ts = self.next_ts();
        let vrow = VersionedRow { begin_ts: ts, end_ts: None, txn_id: txn, row: row.clone() };
        proof {
            let c = self.mem.chain_for(rv.key);
            if c.len() > 0 {
                assert(c.last().begin_ts <= old(self).now);
            }
        }
        proof {
            assert(vrow@ == VersionedRowV { begin_ts: ts, end_ts: None, txn_id: txn, row: rv });
        }
        self.mem.upsert(vrow);
        proof {
            lemma_mem_ok_after_push(old(self).mem, self.mem, old(self).now, ts, rv, txn);
        }
        let text_name = "text".to_owned();
        let found = match row.payload.get(&text_name) {
            Some(t) => Some(t.clone()),
            None => None,
        };
        match found {
            Some(text) => {
                proof {
                    assert(crate::types::field_lookup(rv.payload, "text"@) is Some);
                }
                let vec = self.embedder.embed(text.as_str());
                let ghost gvec = vec@;
                let id = self.id_for_key(&row.key.0);
                self.flat_index.add(id, vec);
                let _enriched: OlspOutput = self.olsp.process(text.as_str());
                proof {
                    assert(key_id(self.vector_ids@, rv.key) == Some(id));
                    assert(self.flat_index@ == old(self).flat_index@.push(
                        (key_id(self.vector_ids@, rv.key)->Some_0, gvec),
                    ));
                }
            },
            None => {
                proof {
                    assert(crate::types::field_lookup(rv.payload, "text"@) is None);
                }
            },
        }
    }
}

/// Inserting the same key twice produces two distinct memory-table
/// versions (their timestamps differ) and two vector-index entries that
/// share one id — a top-k query may return that id twice. The identity
/// reuse is the documented behavior of keying the index by a hash of the
/// row key rather than by version.
pub proof fn lemma_reinsert_shares_id<E: Embedder>(
    e0: Engine<E>,
    e1: Engine<E>,
    e2: Engine<E>,
    t1: TxnId,
    t2: TxnId,
    r1: RowV,
    r2: RowV,
)
    requires
        insert_effect(e0, e1, t1, r1),
        insert_effect(e1, e2, t2, r2),
        r1.key == r2.key,
        crate::types::field_lookup(r1.payload, "text"@) is Some,
        crate::types::field_lookup(r2.payload, "text"@) is Some,
    ensures
        e2.mem.chain_for(r1.key).len() == e0.mem.chain_for(r1.key).len() + 2,
        e2.mem.chain_for(r1.key).last().begin_ts != e2.mem.chain_for(r1.key)[e2.mem.chain_for(
            r1.key,
        ).len() - 2].begin_ts,
        e2.flat_index@.len() == e0.flat_index@.len() + 2,
        e2.flat_index@[e2.flat_index@.len() - 2].0 == e2.flat_index@[e2.flat_index@.len() - 1].0,
{
    let key = r1.key;
    let c0 = e0.mem.chain_for(key);
    let c1 = e1.mem.chain_for(key);
    let c2 = e2.mem.chain_for(key);
    assert(c2.len() == c0.len() + 2);
    assert(c2.last().begin_ts == e1.now + 1);
    assert(c2[c2.len() - 2] == c1.last());
    assert(c1.last().begin_ts == e0.now + 1);
    let id1 = key_id(e1.vector_ids@, key)->Some_0;
    let id2 = key_id(e2.vector_ids@, key)->Some_0;
    assert(id2 == id1);
    let vec1 = choose|v: Seq<i64>| e1.flat_index@ == e0.flat_index@.push((id1, v));
    assert(e1.flat_index@ == e0.flat_index@.push((id1, vec1)));
    let vec2 = choose|v: Seq<i64>| e2.flat_index@ == e1.flat_index@.push((id2, v));
    assert(e2.flat_index@ == e1.flat_index@.push((id2, vec2)));
    assert(e2.flat_index@[e2.flat_index@.len() - 1] == (id2, vec2));
    assert(e2.flat_index@[e2.flat_index@.len() - 2] == (id1, vec1));
}

proof fn lemma_key_id_from_push(ids: Seq<(String, u64)>, entry: (String, u64), k2: Seq<char>, i: int)
    requires
        0 <= i <= ids.len(),
    ensures
        key_id_from(ids.push(entry), k2, i) == (match key_id_from(ids, k2, i) {
            Some(x) => Some(x),
            None => if entry.0@ == k2 {
                Some(entry.1)
            } else {
                None
            },
        }),
    decreases ids.len() - i,
{
    if i < ids.len() {
        assert(ids.push(entry)[i] == ids[i]);
        lemma_key_id_from_push(ids, entry, k2, i + 1);
    } else {
        assert(ids.push(entry)[i] == entry);
        assert(key_id_from(ids, k2, i) is None);
        assert(key_id_from(ids.push(entry), k2, i + 1) is None);
    }
}

/// Appending one version stamped past the clock keeps every chain
/// strictly increasing and bounded by the advanced clock.
proof fn lemma_mem_ok_after_push(
    pre: MemTable,
    post: MemTable,
    old_now: Timestamp,
    ts: Timestamp,
    row: RowV,
    txn: TxnId,
)
    requires
        mem_ok(pre, old_now),
        ts == old_now + 1,
        post.chain_for(row.key) == pre.chain_for(row.key).push(
            VersionedRowV { begin_ts: ts, end_ts: None, txn_id: txn, row },
        ),
        forall|k: Seq<char>| k != row.key ==> post.chain_for(k) == pre.chain_for(k),
    ensures
        mem_ok(post, ts),
{
    assert forall|k: Seq<char>|
        {
            let c = #[trigger] post.chain_for(k);
            chain_strict(c) && forall|j: int| 0 <= j < c.len() ==> (#[trigger] c[j]).begin_ts <= ts
        } by {
        let cpre = pre.chain_for(k);
        let c = post.chain_for(k);
        assert(chain_strict(cpre));
        assert(forall|j: int| 0 <= j < cpre.len() ==> (#[trigger] cpre[j]).begin_ts <= old_now);
        if k == row.key {
            assert forall|a: int, b: int| 0 <= a < b < c.len() implies (#[trigger] c[a]).begin_ts
                < (#[trigger] c[b]).begin_ts by {
                if b < c.len() - 1 {
                    assert(c[a] == cpre[a] && c[b] == cpre[b]);
                } else {
                    assert(c[b].begin_ts == ts);
                    assert(c[a] == cpre[a]);
                }
            }
            assert forall|j: int| 0 <= j < c.len() implies (#[trigger] c[j]).begin_ts <= ts by {
                if j < c.len() - 1 {
                    assert(c[j] == cpre[j]);
                }
            }
        } else {
            assert(c == cpre);
        }
    }
}

} // verus!
