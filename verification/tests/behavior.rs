use afdb::config::Config;
use afdb::mvcc::visible_at;
use afdb::org::{OrgGraph, OrgUnit};
use afdb::persona::Persona;
use afdb::query::planner::Planner;
use afdb::query::SemanticQl;
use afdb::raci::{RaciArtifact, RaciFunction, RaciMask, RaciRole, RaciStore};
use afdb::semantic::pipeline::{DummyEmbedder, Embedder};
use afdb::semantic::HeuristicOlsp;
use afdb::storage::columnsegment::Segment;
use afdb::storage::memtable::MemTable;
use afdb::storage::rowsegment::RowSegment;
use afdb::storage::wal::Wal;
use afdb::storage::Engine;
use afdb::types::{Payload, Row, RowKey, Vector, VersionedRow, SCALE};
use afdb::vector::cosine;
use afdb::vector::flat::FlatIndex;
use afdb::vector::hnsw::HnswIndex;

fn row(key: &str, text: &str) -> Row {
    let mut payload = Payload::new();
    payload.push_field("text".to_string(), text.to_string());
    Row {
        key: RowKey(key.to_string()),
        payload,
    }
}

fn vrow(key: &str, text: &str, begin_ts: u64, end_ts: Option<u64>, txn_id: u64) -> VersionedRow {
    VersionedRow {
        begin_ts,
        end_ts,
        txn_id,
        row: row(key, text),
    }
}

#[test]
fn visibility_oracle_cases() {
    let open_v = vrow("k", "a", 5, None, 1);
    assert!(!visible_at(&open_v, 4));
    assert!(visible_at(&open_v, 5));
    assert!(visible_at(&open_v, 100));
    let closed_v = vrow("k", "a", 5, Some(9), 1);
    assert!(visible_at(&closed_v, 8));
    assert!(!visible_at(&closed_v, 9));
    assert!(!visible_at(&closed_v, 10));
}

#[test]
fn memtable_get_visible_picks_newest() {
    let mut mem = MemTable::new();
    mem.upsert(vrow("k", "one", 1, None, 1));
    mem.upsert(vrow("k", "two", 2, None, 2));
    mem.upsert(vrow("other", "x", 3, None, 3));
    let at1 = mem.get_visible(&RowKey("k".to_string()), 1).unwrap();
    assert_eq!(at1.begin_ts, 1);
    let at9 = mem.get_visible(&RowKey("k".to_string()), 9).unwrap();
    assert_eq!(at9.begin_ts, 2);
    assert!(mem.get_visible(&RowKey("missing".to_string()), 9).is_none());
    let snapshot = mem.scan_visible(9);
    assert_eq!(snapshot.len(), 2);
    let early = mem.scan_visible(0);
    assert_eq!(early.len(), 0);
}

#[test]
fn cosine_exact_values() {
    // identical vectors with an exact norm: similarity is exactly 1.0
    let a = vec![600_000i64, 800_000];
    assert_eq!(cosine(&a, &a), SCALE);
    // identical vectors in general: within rounding of 1.0, never above
    let b = vec![250_000i64, 500_000, 750_000];
    let sb = cosine(&b, &b);
    assert!(sb <= SCALE && sb >= SCALE - 2);
    // orthogonal vectors: similarity zero
    let x = vec![SCALE - 1, 0];
    let y = vec![0, SCALE - 1];
    assert_eq!(cosine(&x, &y), 0);
    // opposite vectors: similarity exactly -1.0
    let neg: Vec<i64> = a.iter().map(|c| -c).collect();
    assert_eq!(cosine(&a, &neg), -SCALE);
    // a zero vector never divides: similarity is defined as zero
    let z = vec![0i64, 0];
    assert_eq!(cosine(&a, &z), 0);
}

#[test]
fn flat_topk_orders_and_truncates() {
    let mut idx = FlatIndex::new(2);
    idx.add(1, Vector(vec![SCALE / 2, 0]));
    idx.add(2, Vector(vec![0, SCALE / 2]));
    idx.add(3, Vector(vec![SCALE / 2, SCALE / 2]));
    let q = Vector(vec![SCALE / 2, 0]);
    let hits = idx.cosine_topk(&q, 2);
    assert_eq!(hits.len(), 2);
    assert_eq!(hits[0].0, 1);
    assert_eq!(hits[0].1, SCALE);
    assert!(hits[0].1 >= hits[1].1);
    // k larger than the index: everything comes back
    let all = idx.cosine_topk(&q, 10);
    assert_eq!(all.len(), 3);
    // ties keep insertion order: two copies of the same vector
    let mut tied = FlatIndex::new(2);
    tied.add(7, Vector(vec![SCALE / 2, 0]));
    tied.add(8, Vector(vec![SCALE / 2, 0]));
    let th = tied.cosine_topk(&q, 2);
    assert_eq!(th[0].0, 7);
    assert_eq!(th[1].0, 8);
}

#[test]
fn hnsw_degrees_stay_bounded() {
    let emb = DummyEmbedder::new("demo-mini", 8);
    let m = 2usize;
    let mut idx = HnswIndex::new(8, m, 4);
    for id in 0..20u64 {
        idx.add(id, emb.embed("node"));
    }
    assert_eq!(idx.len(), 20);
    for node in &idx.nodes {
        assert!(node.neighbors.len() <= m);
    }
    let hits = idx.topk(&emb.embed("query"), 5);
    assert!(hits.len() >= 1 && hits.len() <= 5);
    for w in 1..hits.len() {
        assert!(hits[w - 1].1 >= hits[w].1);
    }
}

#[test]
fn engine_reinsert_shares_one_id() {
    let emb = DummyEmbedder::new("demo-mini", 8);
    let mut eng = Engine::new(emb, 8);
    eng.insert(1, row("dup", "first version"));
    eng.insert(2, row("dup", "second version"));
    // two distinct memory-table versions
    assert_eq!(eng.mem.chains.len(), 1);
    assert_eq!(eng.mem.chains[0].1.len(), 2);
    assert_ne!(eng.mem.chains[0].1[0].begin_ts, eng.mem.chains[0].1[1].begin_ts);
    // two vector-index entries sharing one id
    assert_eq!(eng.flat_index.items.len(), 2);
    assert_eq!(eng.flat_index.items[0].0, eng.flat_index.items[1].0);
    // a top-k query may return that id twice
    let hits = eng.flat_index.cosine_topk(&eng.embedder.embed("version"), 2);
    assert_eq!(hits.len(), 2);
    assert_eq!(hits[0].0, hits[1].0);
}

#[test]
fn engine_insert_without_text_skips_index() {
    let emb = DummyEmbedder::new("demo-mini", 8);
    let mut eng = Engine::new(emb, 8);
    let mut payload = Payload::new();
    payload.push_field("note".to_string(), "no embedding source".to_string());
    eng.insert(1, Row { key: RowKey("k".to_string()), payload });
    assert_eq!(eng.mem.chains.len(), 1);
    assert_eq!(eng.flat_index.items.len(), 0);
}

#[test]
fn wal_round_trip() {
    let mut wal = Wal::open(Vec::new());
    let r1 = vrow("a", "alpha", 2, None, 1);
    let r2 = vrow("b", "beta", 3, Some(9), 1);
    let pos1 = wal.append(&r1).unwrap();
    let pos2 = wal.append(&r2).unwrap();
    assert!(pos2 > pos1);
    let rows = wal.replay().unwrap();
    assert_eq!(rows.len(), 2);
    assert_eq!(rows[0].begin_ts, 2);
    assert_eq!(rows[0].row.key.0, "a");
    assert_eq!(rows[1].end_ts, Some(9));
    assert_eq!(
        rows[1].row.payload.get(&"text".to_string()).unwrap().as_str(),
        "beta"
    );
    // a truncated trailing frame silently ends replay
    let mut cut = wal.log.clone();
    cut.pop();
    let partial = Wal::open(cut).replay().unwrap();
    assert_eq!(partial.len(), 1);
}

#[test]
fn row_segment_round_trip() {
    let mut seg = RowSegment::create();
    seg.append(&vrow("x", "one", 4, None, 7)).unwrap();
    seg.append(&vrow("y", "two", 5, None, 7)).unwrap();
    let rows = seg.iter().unwrap();
    assert_eq!(rows.len(), 2);
    assert_eq!(rows[0].row.key.0, "x");
    assert_eq!(rows[1].begin_ts, 5);
    // reopening over the same bytes yields the same rows
    let reopened = RowSegment::open(seg.data.clone());
    assert_eq!(reopened.iter().unwrap().len(), 2);
    // an empty byte image has no metadata frame: an error, not a panic
    assert!(RowSegment::open(Vec::new()).iter().is_err());
}

#[test]
fn column_segment_round_trip() {
    let mut seg = Segment::new();
    let values = vec!["ab".to_string(), "abcd".to_string()];
    seg.add_string_column("colA", &values).unwrap();
    assert_eq!(seg.rows, 2);
    assert_eq!(seg.columns.len(), 1);
    assert_eq!(seg.columns[0].offsets, vec![0u64, 6]);
    assert_eq!(seg.columns[0].blob.len(), 14);
    assert_eq!(seg.columns[0].zonemap.min_len, 2);
    assert_eq!(seg.columns[0].zonemap.max_len, 4);
    assert_eq!(seg.columns[0].zonemap.min_ts, None);
    let bytes = seg.write_to().unwrap();
    let back = Segment::read_from(&bytes).unwrap();
    assert_eq!(back.rows, seg.rows);
    assert_eq!(back.columns.len(), 1);
    assert_eq!(back.columns[0].name, "colA");
    assert_eq!(back.columns[0].offsets, seg.columns[0].offsets);
    assert_eq!(back.columns[0].blob, seg.columns[0].blob);
    assert_eq!(back.columns[0].zonemap, seg.columns[0].zonemap);
    // garbage bytes are a decode error, not a panic
    assert!(Segment::read_from(&vec![1u8, 2, 3]).is_err());
}

#[test]
fn semantic_ql_parses_and_rejects() {
    let q = SemanticQl::parse("FIND SIMILAR \"credit card\" IN tickets TOP 3").unwrap();
    assert_eq!(q.query, "credit card");
    assert_eq!(q.space, "tickets");
    assert_eq!(q.k, 3);
    let d = SemanticQl::parse("  FIND SIMILAR \"x\" IN docs  ").unwrap();
    assert_eq!(d.query, "x");
    assert_eq!(d.space, "docs");
    assert_eq!(d.k, 10);
    assert!(SemanticQl::parse("SELECT * FROM t").is_none());
    assert!(SemanticQl::parse("FIND SIMILAR \"\" IN docs").is_none());
    assert!(SemanticQl::parse("FIND SIMILAR \"x\" IN ").is_none());
}

#[test]
fn heuristic_enrichment_finds_capitalized_tokens() {
    let out = HeuristicOlsp.run("Alice pays Bob monthly");
    assert_eq!(out.entities.len(), 2);
    assert_eq!(out.entities[0].surface, "Alice");
    assert_eq!(out.entities[0].entity_id, "alice");
    assert_eq!(out.entities[0].score, SCALE / 2);
    assert_eq!(out.entities[1].surface, "Bob");
    assert_eq!(out.summary.unwrap().text, "Alice pays Bob monthly");
    assert_eq!(out.kpis.len(), 0);
    assert!(!out.drift_flag);
}

#[test]
fn planner_hnsw_access_filter() {
    let emb = DummyEmbedder::new("demo-mini", 8);
    let mut idx = HnswIndex::new(8, 4, 4);
    idx.add(1, emb.embed("payment failed"));
    idx.add(2, emb.embed("refund issued"));
    let persona = Persona {
        person_id: "u1".into(),
        assumed_roles: vec![],
        org_scope: roaring::RoaringBitmap::new(),
        raci_allowed: vec![RaciRole::C],
    };
    let planner = Planner::new(&emb).with_persona(&persona);
    assert_eq!(planner.similar_hnsw(&idx, "anything", 2).len(), 0);
    let persona_a = Persona {
        person_id: "u1".into(),
        assumed_roles: vec![],
        org_scope: roaring::RoaringBitmap::new(),
        raci_allowed: vec![RaciRole::A],
    };
    let planner_a = Planner::new(&emb).with_persona(&persona_a);
    assert!(planner_a.similar_hnsw(&idx, "anything", 2).len() >= 1);
}

#[test]
fn embed_both_indexes_scenario() {
    let emb = DummyEmbedder::new("demo-mini", 16);
    let phrases = vec![
        (1u64, "invoice overdue"),
        (2u64, "shipment delayed"),
        (3u64, "password reset"),
        (4u64, "account closed"),
    ];
    let mut flat = FlatIndex::new(16);
    let mut graph = HnswIndex::new(16, 8, 4);
    for (id, t) in &phrases {
        flat.add(*id, emb.embed(t));
        graph.add(*id, emb.embed(t));
    }
    let k = 3usize;
    let fh = flat.cosine_topk(&emb.embed("billing problem"), k);
    assert_eq!(fh.len(), k);
    for w in 1..fh.len() {
        assert!(fh[w - 1].1 >= fh[w].1);
    }
    let gh = graph.topk(&emb.embed("billing problem"), k);
    assert_eq!(gh.len(), k);
    for w in 1..gh.len() {
        assert!(gh[w - 1].1 >= gh[w].1);
    }
}

#[test]
fn org_closure_and_scopes() {
    let mut org = OrgGraph::new();
    org.upsert_unit(OrgUnit { id: 2, name: "root".to_string(), parent_ids: vec![] });
    org.upsert_unit(OrgUnit { id: 1, name: "team".to_string(), parent_ids: vec![2] });
    org.rebuild_closure();
    let root_scope = org.scope_bitmap(2);
    assert!(root_scope.contains(2));
    assert!(root_scope.contains(1));
    let team_scope = org.scope_bitmap(1);
    assert!(team_scope.contains(1));
    assert!(!team_scope.contains(2));
    assert!(org.scope_bitmap(99).is_empty());
    // replacing a unit keeps ids unique
    org.upsert_unit(OrgUnit { id: 1, name: "renamed".to_string(), parent_ids: vec![2] });
    assert_eq!(org.units.len(), 2);
}

#[test]
fn raci_resolution_precedence() {
    let store = RaciStore {
        functions: vec![(
            7,
            RaciFunction {
                org_unit_id: 7,
                roles: vec![
                    ("eng".to_string(), RaciMask { roles: vec![RaciRole::R] }),
                    ("ops".to_string(), RaciMask { roles: vec![RaciRole::C] }),
                ],
            },
        )],
        artifacts: vec![(
            "doc-1".to_string(),
            RaciArtifact {
                artifact_id: "doc-1".to_string(),
                mask: RaciMask { roles: vec![RaciRole::A] },
            },
        )],
    };
    let direct = store.resolve_for_artifact(&"doc-1".to_string(), &vec![7]);
    assert!(direct.allows(RaciRole::A));
    assert!(!direct.allows(RaciRole::R));
    let merged = store.resolve_for_artifact(&"unknown".to_string(), &vec![9, 7]);
    assert!(merged.allows(RaciRole::R));
    assert!(merged.allows(RaciRole::C));
    assert!(!merged.allows(RaciRole::I));
    let empty = store.resolve_for_artifact(&"unknown".to_string(), &vec![9]);
    assert_eq!(empty.roles.len(), 0);
}

#[test]
fn config_defaults() {
    let c = Config::default();
    assert_eq!(c.data_dir, "data");
    assert_eq!(c.wal_dir, "wal");
    assert_eq!(c.segment_size_mb, 128);
    assert_eq!(c.vector_dims, 384);
    let e = c.embedding.unwrap();
    assert_eq!(e.base_url, "http://localhost:8080");
    assert_eq!(e.path, "/embed");
    assert_eq!(e.timeout_ms, 30_000);
    let r = c.reasoning.unwrap();
    assert_eq!(r.model, "demo-reasoner");
}
