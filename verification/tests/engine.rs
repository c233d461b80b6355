//! End-to-end checks of the hybrid memory engine: ingestion, dedup and
//! versioning, entity extraction, the knowledge graph, the vector index,
//! the memory lifecycle, and the fused search with its cache.

use memserver::digest::content_hash_hex;
use memserver::entities::extract_entities;
use memserver::fusion::{fusion_new, search_fusion};
use memserver::hits::{ScoredId, top_k_desc};
use memserver::kg::{
    delete_entity, ensure_entity_node, link_entities, list_entities,
    relate_documents_by_entities,
};
use memserver::lifecycle::{consolidate, enforce_stm_cap, run_maintenance};
use memserver::memory::{memory_add, memory_delete, memory_search, memory_update, RefInput};
use memserver::docs::document_store;
use memserver::store::{
    HitSource, Layer, MemEmbRow, Reason, Relation, Store, StoreError, standard_params,
};
use memserver::tools::{ByteBufPool, list_tools};
use memserver::vecindex::{
    ann_search_memories, build_mem_neighbor_graph, cleanup_orphan_mem_embeddings,
    reembed_all_memories, search_memories_by_vector, validate_mem_embeddings,
};

fn b(s: &str) -> Vec<u8> {
    s.as_bytes().to_vec()
}

fn mention_count(store: &Store, name: &str) -> u64 {
    store
        .kg_entities
        .iter()
        .find(|r| r.name == b(name))
        .map(|r| r.count)
        .unwrap_or(0)
}

fn zero_embedding() -> Vec<u8> {
    vec![0u8; 1536]
}

const HOUR_MS: i64 = 3_600_000;

fn add_simple(store: &mut Store, text: &str, now: i64) -> Vec<u8> {
    let (id, layer) = memory_add(
        store,
        b(text),
        None,
        None,
        None,
        None,
        None,
        zero_embedding(),
        now,
    )
    .expect("add");
    assert_eq!(layer, Layer::Stm);
    id
}

#[test]
fn extract_entities_sorted_and_deduped() {
    let out = extract_entities(&b("Banana met Apple, then apple met Banana again"));
    let names: Vec<Vec<u8>> = out;
    assert_eq!(names, vec![b("Apple"), b("Banana")]);
}

#[test]
fn extract_entities_rules() {
    // Too short, lower-case, digits inside: none qualify.
    let out = extract_entities(&b("Ab ab A1c abc x Y z9"));
    assert!(out.is_empty());
    // Three letters with a capital first qualifies as a whole token.
    let out2 = extract_entities(&b("see McDonald!"));
    assert_eq!(out2, vec![b("McDonald")]);
}

#[test]
fn extract_entities_order_independent() {
    let a = extract_entities(&b("Apple Banana Cherry"));
    let c = extract_entities(&b("Cherry Banana Apple Apple"));
    assert_eq!(a, c);
}

#[test]
fn content_hash_is_the_hex_sha_digest() {
    let h = content_hash_hex(&b(""));
    assert_eq!(
        String::from_utf8(h).unwrap(),
        "e3b0c44298fc1c149afbf4c8996fb92427ae41e4649b934ca495991b7852b855"
    );
    let h2 = content_hash_hex(&b("abc"));
    assert_eq!(
        String::from_utf8(h2).unwrap(),
        "ba7816bf8f01cfea414140de5dae2223b00361a396177a9cb410ff61f20015ad"
    );
}

#[test]
fn ensure_node_is_idempotent() {
    let mut store = Store::new();
    ensure_entity_node(&mut store.kg_nodes, b("Apple"), 1);
    let once = store.kg_nodes.len();
    ensure_entity_node(&mut store.kg_nodes, b("Apple"), 2);
    assert_eq!(store.kg_nodes.len(), once);
    assert_eq!(store.kg_nodes[0].created_at, 1);
}

#[test]
fn kg_jaccard_sets_the_related_score() {
    let mut store = Store::new();
    link_entities(
        &mut store.kg_entities,
        &mut store.kg_links,
        &b("docA"),
        &vec![b("Apple"), b("Banana")],
    );
    link_entities(
        &mut store.kg_entities,
        &mut store.kg_links,
        &b("docB"),
        &vec![b("Banana"), b("Cherry")],
    );
    let score = relate_documents_by_entities(
        &store.kg_links,
        &mut store.kg_edges,
        &b("docA"),
        &b("docB"),
        7,
    );
    assert_eq!(score, Some(333));
    let edge = store
        .kg_edges
        .iter()
        .find(|e| e.relation == Relation::Related)
        .expect("edge");
    assert_eq!(edge.score_milli, Some(333));
    assert_eq!(edge.src, b("Document::docA"));
    assert_eq!(edge.dst, b("Document::docB"));
}

#[test]
fn mention_counters_accumulate() {
    let mut store = Store::new();
    link_entities(
        &mut store.kg_entities,
        &mut store.kg_links,
        &b("d1"),
        &vec![b("Apple")],
    );
    link_entities(
        &mut store.kg_entities,
        &mut store.kg_links,
        &b("d2"),
        &vec![b("Apple")],
    );
    assert_eq!(mention_count(&store, "Apple"), 2);
}

#[test]
fn delete_entity_cascades() {
    let mut store = Store::new();
    link_entities(
        &mut store.kg_entities,
        &mut store.kg_links,
        &b("docA"),
        &vec![b("Apple"), b("Banana")],
    );
    ensure_entity_node(&mut store.kg_nodes, b("Apple"), 1);
    link_entities(
        &mut store.kg_entities,
        &mut store.kg_links,
        &b("docB"),
        &vec![b("Banana"), b("Apple")],
    );
    relate_documents_by_entities(&store.kg_links, &mut store.kg_edges, &b("docA"), &b("docB"), 7);
    let removed = delete_entity(
        &mut store.kg_nodes,
        &mut store.kg_entities,
        &mut store.kg_edges,
        &mut store.kg_links,
        &b("Apple"),
    );
    assert_eq!(removed, 1); // the node; the related edge does not touch the entity key
    assert!(store.kg_nodes.iter().all(|n| n.name != b("Apple")));
    assert!(store.kg_links.iter().all(|l| l.entity != b("Apple")));
    assert_eq!(mention_count(&store, "Apple"), 0);
}

#[test]
fn test_input_validation_errors() {
    let mut store = Store::new();
    let r = memory_add(
        &mut store,
        b(""),
        None,
        None,
        None,
        None,
        None,
        zero_embedding(),
        0,
    );
    assert_eq!(r, Err(StoreError::InvalidInput));
    let r2 = memory_add(
        &mut store,
        b("   \t\n"),
        None,
        None,
        None,
        None,
        None,
        zero_embedding(),
        0,
    );
    assert_eq!(r2, Err(StoreError::InvalidInput));
    let r3 = document_store(&mut store, Some(b("a.md")), None, None, vec![], 0);
    assert!(r3.is_err());
    assert!(store.memories.is_empty() && store.docs.is_empty());
}

#[test]
fn test_memory_add_search_and_delete() {
    let mut store = Store::new();
    let p = standard_params();
    let id = add_simple(&mut store, "alpha bravo charlie", 10);
    let hits = memory_search(
        &mut store.memories,
        &b("bravo"),
        None,
        None,
        None,
        None,
        vec![],
        &p,
        20,
    );
    assert_eq!(hits.len(), 1);
    assert_eq!(hits[0].id, id);
    assert_eq!(hits[0].score_milli, 1000);
    assert_eq!(hits[0].source, HitSource::Record);
    assert_eq!(store.memories[0].access_count, 1);
    // Case-insensitive match.
    let hits2 = memory_search(
        &mut store.memories,
        &b("BRAVO"),
        None,
        None,
        None,
        None,
        vec![],
        &p,
        21,
    );
    assert_eq!(hits2.len(), 1);
    let del = memory_delete(&mut store, &id, false, 30);
    assert_eq!(del, Ok(()));
    assert!(store.memories.is_empty());
    let again = memory_delete(&mut store, &id, false, 31);
    assert_eq!(again, Err(StoreError::NotFound));
}

#[test]
fn promotion_after_three_accesses() {
    let mut store = Store::new();
    let p = standard_params();
    let id = add_simple(&mut store, "alpha bravo charlie", 10);
    for t in 0..3 {
        memory_search(
            &mut store.memories,
            &b("bravo"),
            None,
            None,
            None,
            None,
            vec![],
            &p,
            20 + t,
        );
    }
    assert_eq!(store.memories[0].access_count, 3);
    let (removed, promoted) =
        run_maintenance(&mut store.memories, &mut store.consolidation_log, &p, 100);
    assert_eq!((removed, promoted), (0, 1));
    assert_eq!(store.memories[0].layer, Layer::Ltm);
    assert_eq!(store.memories[0].promoted_at, Some(100));
    assert_eq!(store.consolidation_log.len(), 1);
    assert_eq!(store.consolidation_log[0].mem_id, id);
    assert_eq!(store.consolidation_log[0].reason, Reason::Access);
}

#[test]
fn stm_expiry_removes_unpromoted_memories() {
    let mut store = Store::new();
    let p = standard_params();
    let id = add_simple(&mut store, "ephemeral note", 0);
    // Not yet expired: kept.
    let (r1, _) =
        run_maintenance(&mut store.memories, &mut store.consolidation_log, &p, HOUR_MS - 1);
    assert_eq!(r1, 0);
    assert_eq!(store.memories[0].id, id);
    // At the expiry instant, with no promotion earned: removed.
    let (r2, p2) =
        run_maintenance(&mut store.memories, &mut store.consolidation_log, &p, HOUR_MS);
    assert_eq!((r2, p2), (1, 0));
    assert!(store.memories.is_empty());
}

#[test]
fn ltm_decay_shrinks_importance() {
    let mut store = Store::new();
    let p = standard_params();
    let (_, layer) = memory_add(
        &mut store,
        b("long lived"),
        None,
        Some(Layer::Ltm),
        None,
        None,
        None,
        zero_embedding(),
        0,
    )
    .unwrap();
    assert_eq!(layer, Layer::Ltm);
    run_maintenance(&mut store.memories, &mut store.consolidation_log, &p, 5);
    assert_eq!(store.memories[0].importance_milli, 990);
}

#[test]
fn delete_cascades_over_every_tree() {
    let mut store = Store::new();
    let refs = vec![RefInput { doc_id: b("doc1"), chunk_id: Some(b("c1")), score_milli: Some(750) }];
    let (id, _) = memory_add(
        &mut store,
        b("Apple note"),
        None,
        None,
        None,
        Some(b("ep1")),
        Some(refs),
        zero_embedding(),
        0,
    )
    .unwrap();
    let src_key = [b("Memory::"), id.clone()].concat();
    assert!(store.kg_edges.iter().any(|e| e.src == src_key));
    assert!(store.mem_embeddings.iter().any(|r| r.mem_id == id));
    assert!(store.doc_refs.iter().any(|r| r.mem_id == id && r.score_milli == 750));
    let del = memory_delete(&mut store, &id, true, 99);
    assert_eq!(del, Ok(()));
    assert!(store.kg_edges.iter().all(|e| e.src != src_key));
    assert!(store.mem_embeddings.iter().all(|r| r.mem_id != id));
    assert!(store.doc_refs.iter().all(|r| r.mem_id != id));
    assert_eq!(store.backups.len(), 1);
    assert_eq!(store.backups[0].rec.id, id);
    assert_eq!(store.backups[0].ts, 99);
}

#[test]
fn update_bumps_version_and_reindexes() {
    let mut store = Store::new();
    let id = add_simple(&mut store, "first draft", 0);
    let v = memory_update(
        &mut store.memories,
        &mut store.text_index,
        &mut store.mem_embeddings,
        &id,
        Some(b("second draft")),
        Some(b("{\"k\":1}")),
        Some(zero_embedding()),
    )
    .unwrap();
    assert_eq!(v, 1);
    assert_eq!(store.memories[0].content, b("second draft"));
    let missing = memory_update(
        &mut store.memories,
        &mut store.text_index,
        &mut store.mem_embeddings,
        &b("nope"),
        None,
        None,
        None,
    );
    assert_eq!(missing, Err(StoreError::NotFound));
}

#[test]
fn validation_counts_bad_embedding_lengths() {
    let mut store = Store::new();
    for i in 0..10 {
        add_simple(&mut store, &format!("note number {}", i), i as i64);
    }
    // Corrupt one stored value to one byte short of the packed width.
    store.mem_embeddings[3].bytes.pop();
    let (total, invalid) = validate_mem_embeddings(&store.mem_embeddings);
    assert_eq!((total, invalid), (10, 1));
    // No orphans yet; one appears when its record is dropped directly.
    let gone = store.memories.remove(5).id;
    let removed = cleanup_orphan_mem_embeddings(&mut store.mem_embeddings, &store.memories);
    assert_eq!(removed, 1);
    assert!(store.mem_embeddings.iter().all(|r| r.mem_id != gone));
}

#[test]
fn brute_force_search_sorts_and_filters() {
    let mut emb: Vec<MemEmbRow> = Vec::new();
    emb.push(MemEmbRow { mem_id: b("m1"), bytes: vec![0u8; 1536] });
    emb.push(MemEmbRow { mem_id: b("m2"), bytes: vec![0u8; 1535] }); // wrong width
    emb.push(MemEmbRow { mem_id: b("m3"), bytes: vec![0u8; 1536] });
    let scored = vec![
        ScoredId { id: b("m1"), score_milli: 250 },
        ScoredId { id: b("m2"), score_milli: 999 },
        ScoredId { id: b("m3"), score_milli: 800 },
    ];
    let r = search_memories_by_vector(&emb, scored, 10);
    let pairs: Vec<(Vec<u8>, i64)> = r.iter().map(|h| (h.id.clone(), h.score_milli)).collect();
    assert_eq!(pairs, vec![(b("m3"), 800), (b("m1"), 250)]);
}

#[test]
fn ann_falls_back_to_brute_force_without_a_graph() {
    let emb = vec![
        MemEmbRow { mem_id: b("m1"), bytes: vec![0u8; 1536] },
        MemEmbRow { mem_id: b("m2"), bytes: vec![0u8; 1536] },
    ];
    let scored = vec![
        ScoredId { id: b("m1"), score_milli: 100 },
        ScoredId { id: b("m2"), score_milli: 900 },
    ];
    let r = ann_search_memories(&emb, &Vec::new(), scored, 5);
    assert_eq!(r.len(), 2);
    assert_eq!(r[0].id, b("m2"));
}

#[test]
fn ann_results_stay_within_the_scored_set() {
    let emb = vec![
        MemEmbRow { mem_id: b("m1"), bytes: vec![0u8; 1536] },
        MemEmbRow { mem_id: b("m2"), bytes: vec![0u8; 1536] },
        MemEmbRow { mem_id: b("m3"), bytes: vec![0u8; 1536] },
    ];
    let mut neighbors = Vec::new();
    let rows = vec![
        (b("m1"), vec![
            ScoredId { id: b("m2"), score_milli: 700 },
            ScoredId { id: b("m3"), score_milli: 300 },
        ]),
        (b("m2"), vec![ScoredId { id: b("m1"), score_milli: 700 }]),
        (b("m3"), vec![ScoredId { id: b("m1"), score_milli: 300 }]),
    ];
    let written = build_mem_neighbor_graph(&mut neighbors, rows, 16);
    assert_eq!(written, 3);
    let mk_scored = || vec![
        ScoredId { id: b("m1"), score_milli: 500 },
        ScoredId { id: b("m2"), score_milli: 900 },
        ScoredId { id: b("m3"), score_milli: 100 },
    ];
    let r = ann_search_memories(&emb, &neighbors, mk_scored(), 2);
    assert!(r.len() <= 2);
    let scored = mk_scored();
    for h in &r {
        assert!(scored.iter().any(|s| s.id == h.id && s.score_milli == h.score_milli));
    }
    for w in r.windows(2) {
        assert!(w[0].score_milli >= w[1].score_milli);
    }
}

#[test]
fn top_k_keeps_the_best_by_descending_score() {
    let hits = vec![
        ScoredId { id: b("a"), score_milli: 10 },
        ScoredId { id: b("b"), score_milli: 30 },
        ScoredId { id: b("c"), score_milli: 20 },
    ];
    let r = top_k_desc(hits, 2);
    let pairs: Vec<(Vec<u8>, i64)> = r.iter().map(|h| (h.id.clone(), h.score_milli)).collect();
    assert_eq!(pairs, vec![(b("b"), 30), (b("c"), 20)]);
}

#[test]
fn test_document_store_and_retrieve_by_path() {
    let mut store = Store::new();
    let out = document_store(
        &mut store,
        Some(b("docs/doc1.md")),
        Some(b("# Title\nHello world")),
        None,
        vec![zero_embedding()],
        5,
    )
    .unwrap();
    assert_eq!(out.chunks, 1);
    let latest = store
        .path_latest
        .iter()
        .find(|r| r.path == b("docs/doc1.md"))
        .expect("latest");
    assert_eq!(latest.doc_id, out.id);
    let n_chunks = store.chunks.iter().filter(|c| c.doc_id == out.id).count();
    assert!(n_chunks >= 1);
}

#[test]
fn dedup_and_versioning_follow_the_path_chain() {
    let mut store = Store::new();
    let first = document_store(
        &mut store,
        Some(b("a.md")),
        Some(b("# T\nhello")),
        None,
        vec![zero_embedding()],
        1,
    )
    .unwrap();
    assert_eq!(first.chunks, 1);
    // Identical content again: same id, no chunks.
    let second = document_store(
        &mut store,
        Some(b("a.md")),
        Some(b("# T\nhello")),
        None,
        vec![zero_embedding()],
        2,
    )
    .unwrap();
    assert_eq!(second.id, first.id);
    assert_eq!(second.chunks, 0);
    // Changed content at the same path: a new id, version two, previous id kept.
    let third = document_store(
        &mut store,
        Some(b("a.md")),
        Some(b("# T\nhello world")),
        None,
        vec![zero_embedding()],
        3,
    )
    .unwrap();
    assert_ne!(third.id, first.id);
    assert_eq!(third.chunks, 1);
    let latest = store.path_latest.iter().find(|r| r.path == b("a.md")).unwrap();
    assert_eq!(latest.doc_id, third.id);
    let info = store.docs_info.iter().find(|r| r.doc_id == third.id).unwrap();
    assert_eq!(info.version, 2);
    assert_eq!(info.prev_id.as_ref(), Some(&first.id));
    assert_eq!(info.path, b("a.md"));
}

#[test]
fn chunking_uses_thousand_byte_windows() {
    let mut store = Store::new();
    let content = vec![b'x'; 1500];
    let out = document_store(&mut store, None, Some(content), None, vec![], 0).unwrap();
    assert_eq!(out.chunks, 2);
    let mut starts: Vec<u64> = store
        .chunks
        .iter()
        .filter(|c| c.doc_id == out.id)
        .map(|c| c.start)
        .collect();
    starts.sort();
    assert_eq!(starts, vec![0, 1000]);
    let c0 = store.chunks.iter().find(|c| c.doc_id == out.id && c.start == 0).unwrap();
    assert_eq!(c0.end, 1000);
    let c1 = store.chunks.iter().find(|c| c.doc_id == out.id && c.start == 1000).unwrap();
    assert_eq!(c1.end, 1500);
}

#[test]
fn document_store_links_entities_into_the_graph() {
    let mut store = Store::new();
    let out = document_store(
        &mut store,
        None,
        Some(b("Apple ships Banana firmware")),
        None,
        vec![],
        0,
    )
    .unwrap();
    assert!(store.kg_nodes.iter().any(|n| n.name == b("Apple")));
    let ekey = b("Entity::Apple");
    let dkey = [b("Document::"), out.id.clone()].concat();
    assert!(store
        .kg_edges
        .iter()
        .any(|e| e.src == ekey && e.dst == dkey && e.relation == Relation::Mentions));
}

#[test]
fn fusion_cache_answers_repeat_queries_without_work() {
    let mut store = Store::new();
    let p = standard_params();
    let id = add_simple(&mut store, "alpha bravo charlie", 0);
    let mut fusion = fusion_new();
    let (r1, hit1) = search_fusion(
        &store.memories,
        &store.text_index,
        &store.kg_edges,
        &mut fusion,
        b("q=bravo::limit=10"),
        &b("bravo"),
        10,
        None,
        None,
        vec![],
        &p,
        1000,
        4,
    );
    assert!(!hit1);
    assert!(r1.iter().any(|h| h.id == id));
    assert_eq!(fusion.metrics.cache_misses, 1);
    let (r2, hit2) = search_fusion(
        &store.memories,
        &store.text_index,
        &store.kg_edges,
        &mut fusion,
        b("q=bravo::limit=10"),
        &b("bravo"),
        10,
        None,
        None,
        vec![],
        &p,
        2000,
        9,
    );
    assert!(hit2);
    assert_eq!(fusion.metrics.cache_hits, 1);
    let ids1: Vec<Vec<u8>> = r1.iter().map(|h| h.id.clone()).collect();
    let ids2: Vec<Vec<u8>> = r2.iter().map(|h| h.id.clone()).collect();
    assert_eq!(ids1, ids2);
    // Past the time-to-live the cache no longer answers.
    let (_, hit3) = search_fusion(
        &store.memories,
        &store.text_index,
        &store.kg_edges,
        &mut fusion,
        b("q=bravo::limit=10"),
        &b("bravo"),
        10,
        None,
        None,
        vec![],
        &p,
        9000,
        3,
    );
    assert!(!hit3);
}

#[test]
fn fusion_vector_candidates_arrive_without_a_graph() {
    let store = Store::new();
    let p = standard_params();
    let mut fusion = fusion_new();
    let vector = vec![ScoredId { id: b("mv"), score_milli: 444 }];
    let (r, _) = search_fusion(
        &store.memories,
        &store.text_index,
        &store.kg_edges,
        &mut fusion,
        b("q=anything::limit=5"),
        &b("anything"),
        5,
        None,
        None,
        vector,
        &p,
        0,
        1,
    );
    assert_eq!(r.len(), 1);
    assert_eq!(r[0].id, b("mv"));
    assert_eq!(r[0].source, HitSource::Vector);
    assert_eq!(r[0].vector_score_milli, Some(444));
}

#[test]
fn tool_catalog_and_buffer_pool() {
    let tools = list_tools();
    assert_eq!(tools.len(), 32);
    assert_eq!(tools[0].name, "memory.add");
    assert!(tools.iter().any(|t| t.name == "memory.search"));
    let pool = ByteBufPool::new(4096);
    assert_eq!(pool.default_capacity, 4096);
}

#[test]
fn list_entities_ranks_by_mention_count() {
    let mut store = Store::new();
    link_entities(
        &mut store.kg_entities,
        &mut store.kg_links,
        &b("d1"),
        &vec![b("Apple"), b("Banana")],
    );
    link_entities(&mut store.kg_entities, &mut store.kg_links, &b("d2"), &vec![b("Banana")]);
    let top = list_entities(&store.kg_entities, 10);
    assert_eq!(top.len(), 2);
    assert_eq!(top[0].id, b("Banana"));
    assert_eq!(top[0].score_milli, 2);
    assert_eq!(top[1].id, b("Apple"));
    let capped = list_entities(&store.kg_entities, 1);
    assert_eq!(capped.len(), 1);
}

#[test]
fn reembedding_rewrites_every_pair() {
    let mut store = Store::new();
    add_simple(&mut store, "one", 0);
    let id = store.memories[0].id.clone();
    let fresh = vec![7u8; 1536];
    let written = reembed_all_memories(&mut store.mem_embeddings, &vec![(id.clone(), fresh)]);
    assert_eq!(written, 1);
    let row = store.mem_embeddings.iter().find(|r| r.mem_id == id).unwrap();
    assert_eq!(row.bytes, vec![7u8; 1536]);
}

#[test]
fn stm_cap_drops_the_oldest_excess()
{
    let mut store = Store::new();
    let p = standard_params();
    for i in 0..5 {
        add_simple(&mut store, &format!("note {}", i), i as i64);
    }
    // Touch two of them so they are the most recently accessed.
    memory_search(&mut store.memories, &b("note 3"), None, None, None, None, vec![], &p, 100);
    memory_search(&mut store.memories, &b("note 4"), None, None, None, None, vec![], &p, 101);
    let dropped = enforce_stm_cap(&mut store.memories, 2);
    assert_eq!(dropped, 3);
    assert_eq!(store.memories.len(), 2);
    let kept: Vec<Vec<u8>> = store.memories.iter().map(|m| m.content.clone()).collect();
    assert!(kept.contains(&b("note 3")));
    assert!(kept.contains(&b("note 4")));
    // The sweep enforces the cap when it is configured.
    let mut store2 = Store::new();
    let mut p2 = standard_params();
    p2.stm_max_items = 1;
    for i in 0..3 {
        add_simple(&mut store2, &format!("fresh {}", i), 1000 + i as i64);
    }
    run_maintenance(&mut store2.memories, &mut store2.consolidation_log, &p2, 2000);
    assert_eq!(store2.memories.len(), 1);
}

#[test]
fn consolidate_promotes_up_to_the_limit()
{
    let mut store = Store::new();
    let p = standard_params();
    for i in 0..4 {
        add_simple(&mut store, &format!("busy {}", i), i as i64);
    }
    for m in store.memories.iter_mut() {
        m.access_count = 5; // all qualify
    }
    // A dry run reports without promoting.
    let (p0, c0) = consolidate(&mut store.memories, &p, 2, true, 50);
    assert_eq!((p0, c0), (0, 4));
    assert!(store.memories.iter().all(|m| m.layer == Layer::Stm));
    // A wet run promotes the first two and stops.
    let (p1, c1) = consolidate(&mut store.memories, &p, 2, false, 60);
    assert_eq!((p1, c1), (2, 2));
    assert_eq!(store.memories[0].layer, Layer::Ltm);
    assert_eq!(store.memories[1].layer, Layer::Ltm);
    assert_eq!(store.memories[2].layer, Layer::Stm);
    assert_eq!(store.memories[0].promoted_at, Some(60));
}

#[test]
fn fusion_results_carry_the_flat_zero_score()
{
    let mut store = Store::new();
    let p = standard_params();
    add_simple(&mut store, "flat pipeline check", 0);
    let mut fusion = fusion_new();
    let vector = vec![ScoredId { id: b("mv"), score_milli: 700 }];
    let (r, _) = search_fusion(
        &store.memories,
        &store.text_index,
        &store.kg_edges,
        &mut fusion,
        b("q=flat::limit=10"),
        &b("flat"),
        10,
        None,
        None,
        vector,
        &p,
        5,
        1,
    );
    assert!(r.len() >= 2); // the record, its text posting's document id is deduped onto it, and the vector candidate
    assert!(r.iter().all(|h| h.score_milli == 0));
    assert!(r.iter().any(|h| h.vector_score_milli == Some(700)));
    assert_eq!(fusion.metrics.count, 1);
    assert_eq!(fusion.metrics.last_ms, 1);
    assert_eq!(fusion.metrics.p50_ms, 1);
}

#[test]
fn reference_scores_default_to_the_jaccard_overlap()
{
    let mut store = Store::new();
    // The document mentions Apple and Banana; the memory mentions Apple
    // and Cherry: the overlap is one of three.
    link_entities(
        &mut store.kg_entities,
        &mut store.kg_links,
        &b("doc9"),
        &vec![b("Apple"), b("Banana")],
    );
    let refs = vec![RefInput { doc_id: b("doc9"), chunk_id: None, score_milli: None }];
    let (id, _) = memory_add(
        &mut store,
        b("Apple and Cherry"),
        None,
        None,
        None,
        None,
        Some(refs),
        zero_embedding(),
        0,
    )
    .unwrap();
    let rec = store.memories.iter().find(|m| m.id == id).unwrap();
    assert_eq!(rec.doc_refs.len(), 1);
    assert_eq!(rec.doc_refs[0].score_milli, Some(333));
    let row = store.doc_refs.iter().find(|r| r.mem_id == id).unwrap();
    assert_eq!(row.score_milli, 333);
}
