//! The data model: every persistent tree of the engine, held as rows with
//! unique keys. Documents, chunks, embeddings, text postings, memories,
//! knowledge-graph nodes and edges, the neighbor graph, reference links,
//! counters, and the audit trees all live in one [`Store`] value.

use vstd::prelude::*;
use crate::hits::ScoredId;

verus! {

/// Memory layer: short-term or long-term.
#[derive(PartialEq, Eq, Structural, Clone, Copy, Debug)]
pub enum Layer {
    Stm,
    Ltm,
}

/// Kind of a knowledge-graph node.
#[derive(PartialEq, Eq, Structural, Clone, Copy, Debug)]
pub enum NodeKind {
    Entity,
    Document,
    Memory,
    Episode,
}

/// Why a memory was promoted to the long-term layer.
#[derive(PartialEq, Eq, Structural, Clone, Copy, Debug)]
pub enum Reason {
    Importance,
    Access,
}

/// Relation label of an edge.
#[derive(PartialEq, Eq, Structural, Clone, Copy, Debug)]
pub enum Relation {
    Mentions,
    Evidence,
    Related,
    InEpisode,
}

/// Errors surfaced to callers.
#[derive(PartialEq, Eq, Structural, Clone, Copy, Debug)]
pub enum StoreError {
    InvalidInput,
    NotFound,
}

/// A document reference carried inside a memory record.
pub struct DocRefOut {
    pub doc_id: Vec<u8>,
    pub chunk_id: Option<Vec<u8>>,
    pub score_milli: Option<i64>,
}

/// A memory record. Importance is fixed-point in thousandths (1000 is the
/// neutral weight 1.0).
pub struct MemoryRecord {
    pub id: Vec<u8>,
    pub content: Vec<u8>,
    pub metadata: Option<Vec<u8>>,
    pub layer: Layer,
    pub session_id: Option<Vec<u8>>,
    pub episode_id: Option<Vec<u8>>,
    pub created_at: i64,
    pub expires_at: Option<i64>,
    pub doc_refs: Vec<DocRefOut>,
    pub importance_milli: u64,
    pub access_count: u64,
    pub last_access_ts: Option<i64>,
    pub version: u64,
    pub promoted_at: Option<i64>,
}

/// Content hash to document id.
pub struct DocHashRow {
    pub hash_hex: Vec<u8>,
    pub doc_id: Vec<u8>,
}

/// Document descriptor, written when a path accompanies the content.
pub struct DocInfoRow {
    pub doc_id: Vec<u8>,
    pub path: Vec<u8>,
    pub hash_hex: Vec<u8>,
    pub version: u64,
    pub prev_id: Option<Vec<u8>>,
    pub created_at: i64,
}

/// Caller-supplied metadata bytes for a document.
pub struct DocMetaRow {
    pub doc_id: Vec<u8>,
    pub meta: Vec<u8>,
}

/// Latest document id at a path.
pub struct PathRow {
    pub path: Vec<u8>,
    pub doc_id: Vec<u8>,
}

/// Document id at a (path, version) pair.
pub struct VersionRow {
    pub path: Vec<u8>,
    pub version: u64,
    pub doc_id: Vec<u8>,
}

/// A chunk of a document: a byte window of the extracted text.
pub struct ChunkRow {
    pub doc_id: Vec<u8>,
    pub start: u64,
    pub end: u64,
    pub chunk_id: Vec<u8>,
}

/// Packed embedding bytes for a document chunk.
pub struct EmbRow {
    pub doc_id: Vec<u8>,
    pub start: u64,
    pub bytes: Vec<u8>,
}

/// Key of a text posting: a document chunk or a memory.
pub enum TextKey {
    Chunk { doc_id: Vec<u8>, start: u64 },
    Mem { mem_id: Vec<u8> },
}

/// A text posting: the raw text slice under its key.
pub struct TextRow {
    pub key: TextKey,
    pub text: Vec<u8>,
}

/// Packed embedding bytes for a memory.
pub struct MemEmbRow {
    pub mem_id: Vec<u8>,
    pub bytes: Vec<u8>,
}

/// A persisted memory-to-document reference with its score.
pub struct RefRow {
    pub mem_id: Vec<u8>,
    pub doc_id: Vec<u8>,
    pub chunk_id: Vec<u8>,
    pub score_milli: i64,
}

/// A typed knowledge-graph node.
pub struct NodeRow {
    pub kind: NodeKind,
    pub name: Vec<u8>,
    pub created_at: i64,
    pub tags: Vec<Vec<u8>>,
    pub session_id: Option<Vec<u8>>,
}

/// A directed labelled edge between two node keys.
pub struct EdgeRow {
    pub src: Vec<u8>,
    pub dst: Vec<u8>,
    pub relation: Relation,
    pub score_milli: Option<i64>,
    pub created_at: i64,
}

/// A named counter row.
pub struct CountRow {
    pub name: Vec<u8>,
    pub count: u64,
}

/// A flat link from a document to an entity it mentions.
pub struct LinkRow {
    pub doc_id: Vec<u8>,
    pub entity: Vec<u8>,
}

/// Stored neighbor list of a memory, sorted by descending similarity.
pub struct NeighborRow {
    pub mem_id: Vec<u8>,
    pub neighbors: Vec<ScoredId>,
}

/// Scalar counters of the vector index.
pub struct VecMeta {
    pub items: u64,
    pub dim: u64,
    pub per_doc: Vec<CountRow>,
}

/// One promotion audit record.
pub struct LogRow {
    pub ts: i64,
    pub mem_id: Vec<u8>,
    pub reason: Reason,
}

/// Snapshot of a memory taken before deletion.
pub struct BackupRow {
    pub ts: i64,
    pub rec: MemoryRecord,
}

/// All trees of the engine.
pub struct Store {
    pub docs: Vec<DocHashRow>,
    pub docs_info: Vec<DocInfoRow>,
    pub docs_meta: Vec<DocMetaRow>,
    pub path_latest: Vec<PathRow>,
    pub versions: Vec<VersionRow>,
    pub chunks: Vec<ChunkRow>,
    pub embeddings: Vec<EmbRow>,
    pub text_index: Vec<TextRow>,
    pub mem_embeddings: Vec<MemEmbRow>,
    pub memories: Vec<MemoryRecord>,
    pub doc_refs: Vec<RefRow>,
    pub kg_nodes: Vec<NodeRow>,
    pub kg_edges: Vec<EdgeRow>,
    pub kg_entities: Vec<CountRow>,
    pub kg_links: Vec<LinkRow>,
    pub neighbors: Vec<NeighborRow>,
    pub vec_meta: VecMeta,
    pub consolidation_log: Vec<LogRow>,
    pub backups: Vec<BackupRow>,
}

/// Where a search hit came from.
#[derive(PartialEq, Eq, Structural, Clone, Copy, Debug)]
pub enum HitSource {
    Record,
    DocIndex,
    Kg,
    Vector,
}

/// One search result: the id, a fixed-point score in thousandths, the
/// layer when known, the record's document references when carried, the
/// source that produced the hit, and the vector score when the source is
/// the vector index.
pub struct SearchHit {
    pub id: Vec<u8>,
    pub score_milli: i64,
    pub layer: Option<Layer>,
    pub doc_refs: Option<Vec<DocRefOut>>,
    pub source: HitSource,
    pub vector_score_milli: Option<i64>,
}

/// Tunable thresholds and limits of the engine, in fixed-point
/// thousandths where they scale a weight.
pub struct Params {
    pub ttl_ms: i64,
    pub cache_max: usize,
    pub decay_milli: u64,
    pub strengthen_mul_milli: u64,
    pub stm_delta_milli: u64,
    pub importance_min_milli: u64,
    pub access_min: u64,
    pub stm_max_items: usize,
}

/// The stock configuration: a three-second cache with a thousand slots,
/// one percent long-term decay per sweep, five percent strengthening on
/// long-term access, a 0.05 short-term bump, promotion at importance 1.5
/// or three accesses, and no short-term cap.
pub fn standard_params() -> (r: Params)
    ensures
        r.ttl_ms == 3000,
        r.cache_max == 1000,
        r.decay_milli == 990,
        r.strengthen_mul_milli == 1050,
        r.stm_delta_milli == 50,
        r.importance_min_milli == 1500,
        r.access_min == 3,
        r.stm_max_items == 0,
{
    Params {
        ttl_ms: 3000,
        cache_max: 1000,
        decay_milli: 990,
        strengthen_mul_milli: 1050,
        stm_delta_milli: 50,
        importance_min_milli: 1500,
        access_min: 3,
        stm_max_items: 0,
    }
}

/// A comparable view of a text-posting key.
pub open spec fn text_key_view(k: TextKey) -> (int, Seq<u8>, int) {
    match k {
        TextKey::Chunk { doc_id, start } => (0, doc_id@, start as int),
        TextKey::Mem { mem_id } => (1, mem_id@, 0),
    }
}

pub open spec fn uniq_docs(s: Seq<DocHashRow>) -> bool {
    forall|i: int, j: int| 0 <= i < j < s.len() ==> s[i].hash_hex@ != s[j].hash_hex@
}

pub open spec fn uniq_infos(s: Seq<DocInfoRow>) -> bool {
    forall|i: int, j: int| 0 <= i < j < s.len() ==> s[i].doc_id@ != s[j].doc_id@
}

pub open spec fn uniq_metas(s: Seq<DocMetaRow>) -> bool {
    forall|i: int, j: int| 0 <= i < j < s.len() ==> s[i].doc_id@ != s[j].doc_id@
}

pub open spec fn uniq_paths(s: Seq<PathRow>) -> bool {
    forall|i: int, j: int| 0 <= i < j < s.len() ==> s[i].path@ != s[j].path@
}

pub open spec fn uniq_versions(s: Seq<VersionRow>) -> bool {
    forall|i: int, j: int|
        0 <= i < j < s.len() ==> !(s[i].path@ == s[j].path@ && s[i].version == s[j].version)
}

pub open spec fn uniq_chunks(s: Seq<ChunkRow>) -> bool {
    forall|i: int, j: int|
        0 <= i < j < s.len() ==> !(s[i].doc_id@ == s[j].doc_id@ && s[i].start == s[j].start)
}

pub open spec fn uniq_embs(s: Seq<EmbRow>) -> bool {
    forall|i: int, j: int|
        0 <= i < j < s.len() ==> !(s[i].doc_id@ == s[j].doc_id@ && s[i].start == s[j].start)
}

pub open spec fn uniq_texts(s: Seq<TextRow>) -> bool {
    forall|i: int, j: int|
        0 <= i < j < s.len() ==> text_key_view(s[i].key) != text_key_view(s[j].key)
}

pub open spec fn uniq_mem_embs(s: Seq<MemEmbRow>) -> bool {
    forall|i: int, j: int| 0 <= i < j < s.len() ==> s[i].mem_id@ != s[j].mem_id@
}

pub open spec fn uniq_mems(s: Seq<MemoryRecord>) -> bool {
    forall|i: int, j: int| 0 <= i < j < s.len() ==> s[i].id@ != s[j].id@
}

pub open spec fn uniq_refs(s: Seq<RefRow>) -> bool {
    forall|i: int, j: int|
        0 <= i < j < s.len() ==> !(s[i].mem_id@ == s[j].mem_id@ && s[i].doc_id@ == s[j].doc_id@
            && s[i].chunk_id@ == s[j].chunk_id@)
}

pub open spec fn uniq_nodes(s: Seq<NodeRow>) -> bool {
    forall|i: int, j: int|
        0 <= i < j < s.len() ==> !(s[i].kind == s[j].kind && s[i].name@ == s[j].name@)
}

pub open spec fn uniq_edges(s: Seq<EdgeRow>) -> bool {
    forall|i: int, j: int|
        0 <= i < j < s.len() ==> !(s[i].src@ == s[j].src@ && s[i].dst@ == s[j].dst@
            && s[i].relation == s[j].relation)
}

pub open spec fn uniq_counts(s: Seq<CountRow>) -> bool {
    forall|i: int, j: int| 0 <= i < j < s.len() ==> s[i].name@ != s[j].name@
}

pub open spec fn uniq_links(s: Seq<LinkRow>) -> bool {
    forall|i: int, j: int|
        0 <= i < j < s.len() ==> !(s[i].doc_id@ == s[j].doc_id@ && s[i].entity@ == s[j].entity@)
}

pub open spec fn uniq_neighbors(s: Seq<NeighborRow>) -> bool {
    forall|i: int, j: int| 0 <= i < j < s.len() ==> s[i].mem_id@ != s[j].mem_id@
}

impl Store {
    /// Every keyed tree has unique keys.
    pub open spec fn wf(&self) -> bool {
        &&& uniq_docs(self.docs@)
        &&& uniq_infos(self.docs_info@)
        &&& uniq_metas(self.docs_meta@)
        &&& uniq_paths(self.path_latest@)
        &&& uniq_versions(self.versions@)
        &&& uniq_chunks(self.chunks@)
        &&& uniq_embs(self.embeddings@)
        &&& uniq_texts(self.text_index@)
        &&& uniq_mem_embs(self.mem_embeddings@)
        &&& uniq_mems(self.memories@)
        &&& uniq_refs(self.doc_refs@)
        &&& uniq_nodes(self.kg_nodes@)
        &&& uniq_edges(self.kg_edges@)
        &&& uniq_counts(self.kg_entities@)
        &&& uniq_links(self.kg_links@)
        &&& uniq_neighbors(self.neighbors@)
        &&& uniq_counts(self.vec_meta.per_doc@)
    }

    /// An empty store.
    pub fn new() -> (r: Store)
        ensures
            r.wf(),
            r.docs@.len() == 0,
            r.docs_info@.len() == 0,
            r.docs_meta@.len() == 0,
            r.path_latest@.len() == 0,
            r.versions@.len() == 0,
            r.chunks@.len() == 0,
            r.embeddings@.len() == 0,
            r.text_index@.len() == 0,
            r.mem_embeddings@.len() == 0,
            r.memories@.len() == 0,
            r.doc_refs@.len() == 0,
            r.kg_nodes@.len() == 0,
            r.kg_edges@.len() == 0,
            r.kg_entities@.len() == 0,
            r.kg_links@.len() == 0,
            r.neighbors@.len() == 0,
            r.vec_meta.items == 0,
            r.vec_meta.dim == 0,
            r.vec_meta.per_doc@.len() == 0,
            r.consolidation_log@.len() == 0,
            r.backups@.len() == 0,
    {
        Store {
            docs: Vec::new(),
            docs_info: Vec::new(),
            docs_meta: Vec::new(),
            path_latest: Vec::new(),
            versions: Vec::new(),
            chunks: Vec::new(),
            embeddings: Vec::new(),
            text_index: Vec::new(),
            mem_embeddings: Vec::new(),
            memories: Vec::new(),
            doc_refs: Vec::new(),
            kg_nodes: Vec::new(),
            kg_edges: Vec::new(),
            kg_entities: Vec::new(),
            kg_links: Vec::new(),
            neighbors: Vec::new(),
            vec_meta: VecMeta { items: 0, dim: 0, per_doc: Vec::new() },
            consolidation_log: Vec::new(),
            backups: Vec::new(),
        }
    }
}

/// Is some row of `docs` keyed by `h`?
pub open spec fn has_doc_hash(s: Seq<DocHashRow>, h: Seq<u8>) -> bool {
    exists|i: int| 0 <= i < s.len() && s[i].hash_hex@ == h
}

/// Is some memory keyed by `id`?
pub open spec fn has_mem(s: Seq<MemoryRecord>, id: Seq<u8>) -> bool {
    exists|i: int| 0 <= i < s.len() && s[i].id@ == id
}

/// Is some node keyed by `(kind, name)`?
pub open spec fn has_node(s: Seq<NodeRow>, kind: NodeKind, name: Seq<u8>) -> bool {
    exists|i: int| 0 <= i < s.len() && s[i].kind == kind && s[i].name@ == name
}

/// Is some edge keyed by `(src, dst, relation)`?
pub open spec fn has_edge(s: Seq<EdgeRow>, src: Seq<u8>, dst: Seq<u8>, rel: Relation) -> bool {
    exists|i: int| 0 <= i < s.len() && s[i].src@ == src && s[i].dst@ == dst && s[i].relation == rel
}

/// Is some memory embedding keyed by `id`?
pub open spec fn has_mem_emb(s: Seq<MemEmbRow>, id: Seq<u8>) -> bool {
    exists|i: int| 0 <= i < s.len() && s[i].mem_id@ == id
}

/// Is some text posting keyed by the memory `id`?
pub open spec fn has_mem_text(s: Seq<TextRow>, id: Seq<u8>) -> bool {
    exists|i: int| 0 <= i < s.len() && text_key_view(s[i].key) == (1int, id, 0int)
}

/// Is some chunk keyed by `(doc_id, start)`?
pub open spec fn has_chunk(s: Seq<ChunkRow>, doc_id: Seq<u8>, start: u64) -> bool {
    exists|i: int| 0 <= i < s.len() && s[i].doc_id@ == doc_id && s[i].start == start
}

/// Does the document own any chunk at all?
pub open spec fn has_chunk_for_doc(s: Seq<ChunkRow>, doc_id: Seq<u8>) -> bool {
    exists|i: int| 0 <= i < s.len() && s[i].doc_id@ == doc_id
}

/// Is some reference row keyed by the memory `id`?
pub open spec fn has_ref_for_mem(s: Seq<RefRow>, id: Seq<u8>) -> bool {
    exists|i: int| 0 <= i < s.len() && s[i].mem_id@ == id
}

/// Is some path row keyed by `path`?
pub open spec fn has_path(s: Seq<PathRow>, path: Seq<u8>) -> bool {
    exists|i: int| 0 <= i < s.len() && s[i].path@ == path
}

/// Is some info row keyed by `doc_id`?
pub open spec fn has_info(s: Seq<DocInfoRow>, doc_id: Seq<u8>) -> bool {
    exists|i: int| 0 <= i < s.len() && s[i].doc_id@ == doc_id
}

/// Find the row of `docs` keyed by `h`.
pub fn find_doc_hash(rows: &Vec<DocHashRow>, h: &Vec<u8>) -> (r: Option<usize>)
    ensures
        match r {
            Some(i) => i < rows@.len() && rows@[i as int].hash_hex@ == h@,
            None => !has_doc_hash(rows@, h@),
        },
{
    let n: usize = rows.len();
    let mut i: usize = 0;
    while i < n
        invariant
            n == rows@.len(),
            i <= n,
            forall|j: int| 0 <= j < i ==> rows@[j].hash_hex@ != h@,
        decreases n - i,
    {
        if crate::bytes::bytes_eq(&rows[i].hash_hex, h) {
            return Some(i);
        }
        i = i + 1;
    }
    None
}

/// Find the memory keyed by `id`.
pub fn find_mem(rows: &Vec<MemoryRecord>, id: &Vec<u8>) -> (r: Option<usize>)
    ensures
        match r {
            Some(i) => i < rows@.len() && rows@[i as int].id@ == id@,
            None => !has_mem(rows@, id@),
        },
{
    let n: usize = rows.len();
    let mut i: usize = 0;
    while i < n
        invariant
            n == rows@.len(),
            i <= n,
            forall|j: int| 0 <= j < i ==> rows@[j].id@ != id@,
        decreases n - i,
    {
        if crate::bytes::bytes_eq(&rows[i].id, id) {
            return Some(i);
        }
        i = i + 1;
    }
    None
}

/// Find the node keyed by `(kind, name)`.
pub fn find_node(rows: &Vec<NodeRow>, kind: NodeKind, name: &Vec<u8>) -> (r: Option<usize>)
    ensures
        match r {
            Some(i) => i < rows@.len() && rows@[i as int].kind == kind && rows@[i as int].name@
                == name@,
            None => !has_node(rows@, kind, name@),
        },
{
    let n: usize = rows.len();
    let mut i: usize = 0;
    while i < n
        invariant
            n == rows@.len(),
            i <= n,
            forall|j: int| 0 <= j < i ==> !(rows@[j].kind == kind && rows@[j].name@ == name@),
        decreases n - i,
    {
        if rows[i].kind == kind && crate::bytes::bytes_eq(&rows[i].name, name) {
            return Some(i);
        }
        i = i + 1;
    }
    None
}

/// Find the edge keyed by `(src, dst, relation)`.
pub fn find_edge(rows: &Vec<EdgeRow>, src: &Vec<u8>, dst: &Vec<u8>, rel: Relation) -> (r: Option<
    usize,
>)
    ensures
        match r {
            Some(i) => i < rows@.len() && rows@[i as int].src@ == src@ && rows@[i as int].dst@
                == dst@ && rows@[i as int].relation == rel,
            None => !has_edge(rows@, src@, dst@, rel),
        },
{
    let n: usize = rows.len();
    let mut i: usize = 0;
    while i < n
        invariant
            n == rows@.len(),
            i <= n,
            forall|j: int|
                0 <= j < i ==> !(rows@[j].src@ == src@ && rows@[j].dst@ == dst@ && rows@[j].relation
                    == rel),
        decreases n - i,
    {
        if rows[i].relation == rel && crate::bytes::bytes_eq(&rows[i].src, src)
            && crate::bytes::bytes_eq(&rows[i].dst, dst) {
            return Some(i);
        }
        i = i + 1;
    }
    None
}

/// Find the counter row keyed by `name`.
pub fn find_count(rows: &Vec<CountRow>, name: &Vec<u8>) -> (r: Option<usize>)
    ensures
        match r {
            Some(i) => i < rows@.len() && rows@[i as int].name@ == name@,
            None => forall|j: int| 0 <= j < rows@.len() ==> rows@[j].name@ != name@,
        },
{
    let n: usize = rows.len();
    let mut i: usize = 0;
    while i < n
        invariant
            n == rows@.len(),
            i <= n,
            forall|j: int| 0 <= j < i ==> rows@[j].name@ != name@,
        decreases n - i,
    {
        if crate::bytes::bytes_eq(&rows[i].name, name) {
            return Some(i);
        }
        i = i + 1;
    }
    None
}

/// Find the memory embedding keyed by `id`.
pub fn find_mem_emb(rows: &Vec<MemEmbRow>, id: &Vec<u8>) -> (r: Option<usize>)
    ensures
        match r {
            Some(i) => i < rows@.len() && rows@[i as int].mem_id@ == id@,
            None => !has_mem_emb(rows@, id@),
        },
{
    let n: usize = rows.len();
    let mut i: usize = 0;
    while i < n
        invariant
            n == rows@.len(),
            i <= n,
            forall|j: int| 0 <= j < i ==> rows@[j].mem_id@ != id@,
        decreases n - i,
    {
        if crate::bytes::bytes_eq(&rows[i].mem_id, id) {
            return Some(i);
        }
        i = i + 1;
    }
    None
}

/// Find the text posting keyed by the memory `id`.
pub fn find_mem_text(rows: &Vec<TextRow>, id: &Vec<u8>) -> (r: Option<usize>)
    ensures
        match r {
            Some(i) => i < rows@.len() && text_key_view(rows@[i as int].key) == (1int, id@, 0int),
            None => !has_mem_text(rows@, id@),
        },
{
    let n: usize = rows.len();
    let mut i: usize = 0;
    while i < n
        invariant
            n == rows@.len(),
            i <= n,
            forall|j: int| 0 <= j < i ==> text_key_view(rows@[j].key) != (1int, id@, 0int),
        decreases n - i,
    {
        let hit = match &rows[i].key {
            TextKey::Mem { mem_id } => crate::bytes::bytes_eq(mem_id, id),
            TextKey::Chunk { .. } => false,
        };
        if hit {
            return Some(i);
        }
        i = i + 1;
    }
    None
}

/// Find the path row keyed by `path`.
pub fn find_path(rows: &Vec<PathRow>, path: &Vec<u8>) -> (r: Option<usize>)
    ensures
        match r {
            Some(i) => i < rows@.len() && rows@[i as int].path@ == path@,
            None => !has_path(rows@, path@),
        },
{
    let n: usize = rows.len();
    let mut i: usize = 0;
    while i < n
        invariant
            n == rows@.len(),
            i <= n,
            forall|j: int| 0 <= j < i ==> rows@[j].path@ != path@,
        decreases n - i,
    {
        if crate::bytes::bytes_eq(&rows[i].path, path) {
            return Some(i);
        }
        i = i + 1;
    }
    None
}

/// Find the info row keyed by `doc_id`.
pub fn find_info(rows: &Vec<DocInfoRow>, doc_id: &Vec<u8>) -> (r: Option<usize>)
    ensures
        match r {
            Some(i) => i < rows@.len() && rows@[i as int].doc_id@ == doc_id@,
            None => !has_info(rows@, doc_id@),
        },
{
    let n: usize = rows.len();
    let mut i: usize = 0;
    while i < n
        invariant
            n == rows@.len(),
            i <= n,
            forall|j: int| 0 <= j < i ==> rows@[j].doc_id@ != doc_id@,
        decreases n - i,
    {
        if crate::bytes::bytes_eq(&rows[i].doc_id, doc_id) {
            return Some(i);
        }
        i = i + 1;
    }
    None
}

/// Find the neighbor row keyed by `id`.
pub fn find_neighbor_row(rows: &Vec<NeighborRow>, id: &Vec<u8>) -> (r: Option<usize>)
    ensures
        match r {
            Some(i) => i < rows@.len() && rows@[i as int].mem_id@ == id@,
            None => forall|j: int| 0 <= j < rows@.len() ==> rows@[j].mem_id@ != id@,
        },
{
    let n: usize = rows.len();
    let mut i: usize = 0;
    while i < n
        invariant
            n == rows@.len(),
            i <= n,
            forall|j: int| 0 <= j < i ==> rows@[j].mem_id@ != id@,
        decreases n - i,
    {
        if crate::bytes::bytes_eq(&rows[i].mem_id, id) {
            return Some(i);
        }
        i = i + 1;
    }
    None
}

} // verus!
