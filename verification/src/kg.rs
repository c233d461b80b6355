//! The knowledge graph: typed nodes, directed labelled edges, per-entity
//! mention counters, flat document-entity links, and Jaccard-based
//! document relations.

use vstd::prelude::*;
use crate::store::{
    EdgeRow, NodeKind, NodeRow, Relation, find_edge, find_node, has_edge, has_node, uniq_edges,
    uniq_nodes,
};

verus! {

/// The tag bytes of a node kind: `Entity`, `Document`, `Memory`, `Episode`.
pub open spec fn kind_tag(kind: NodeKind) -> Seq<u8> {
    match kind {
        NodeKind::Entity => seq![69u8, 110u8, 116u8, 105u8, 116u8, 121u8],
        NodeKind::Document => seq![68u8, 111u8, 99u8, 117u8, 109u8, 101u8, 110u8, 116u8],
        NodeKind::Memory => seq![77u8, 101u8, 109u8, 111u8, 114u8, 121u8],
        NodeKind::Episode => seq![69u8, 112u8, 105u8, 115u8, 111u8, 100u8, 101u8],
    }
}

/// The key of a node: its kind tag, a double colon, and its name.
pub open spec fn node_key_of(kind: NodeKind, name: Seq<u8>) -> Seq<u8> {
    kind_tag(kind) + seq![58u8, 58u8] + name
}

/// Build the key bytes of a node.
pub fn node_key(kind: NodeKind, name: &Vec<u8>) -> (r: Vec<u8>)
    ensures
        r@ == node_key_of(kind, name@),
{
    let mut r: Vec<u8> = Vec::new();
    match kind {
        NodeKind::Entity => {
            r.push(69);
            r.push(110);
            r.push(116);
            r.push(105);
            r.push(116);
            r.push(121);
        },
        NodeKind::Document => {
            r.push(68);
            r.push(111);
            r.push(99);
            r.push(117);
            r.push(109);
            r.push(101);
            r.push(110);
            r.push(116);
        },
        NodeKind::Memory => {
            r.push(77);
            r.push(101);
            r.push(109);
            r.push(111);
            r.push(114);
            r.push(121);
        },
        NodeKind::Episode => {
            r.push(69);
            r.push(112);
            r.push(105);
            r.push(115);
            r.push(111);
            r.push(100);
            r.push(101);
        },
    }
    r.push(58);
    r.push(58);
    let n: usize = name.len();
    let mut i: usize = 0;
    proof {
        assert(r@ =~= kind_tag(kind) + seq![58u8, 58u8] + name@.take(0));
    }
    while i < n
        invariant
            n == name@.len(),
            i <= n,
            r@ == kind_tag(kind) + seq![58u8, 58u8] + name@.take(i as int),
        decreases n - i,
    {
        r.push(name[i]);
        proof {
            assert(r@ =~= kind_tag(kind) + seq![58u8, 58u8] + name@.take(i + 1));
        }
        i = i + 1;
    }
    proof {
        assert(name@.take(n as int) =~= name@);
    }
    r
}

/// Ensure a node exists: insert it when absent, change nothing when it is
/// already there. Repeated calls after the first leave the tree unchanged.
pub fn ensure_node(
    nodes: &mut Vec<NodeRow>,
    kind: NodeKind,
    name: Vec<u8>,
    created_at: i64,
    session_id: Option<Vec<u8>>,
) -> (created: bool)
    requires
        uniq_nodes(old(nodes)@),
    ensures
        uniq_nodes(final(nodes)@),
        has_node(final(nodes)@, kind, name@),
        created == !has_node(old(nodes)@, kind, name@),
        forall|k2: NodeKind, n2: Seq<u8>|
            has_node(old(nodes)@, k2, n2) ==> has_node(final(nodes)@, k2, n2),
        has_node(old(nodes)@, kind, name@) ==> *final(nodes) == *old(nodes),
        !has_node(old(nodes)@, kind, name@) ==> {
            &&& final(nodes)@.len() == old(nodes)@.len() + 1
            &&& final(nodes)@.subrange(0, old(nodes)@.len() as int) == old(nodes)@
            &&& final(nodes)@.last().kind == kind
            &&& final(nodes)@.last().name@ == name@
            &&& final(nodes)@.last().created_at == created_at
            &&& final(nodes)@.last().tags@.len() == 0
            &&& final(nodes)@.last().session_id == session_id
        },
{
    let found = find_node(nodes, kind, &name);
    match found {
        Some(_) => false,
        None => {
            let row = NodeRow { kind, name, created_at, tags: Vec::new(), session_id };
            nodes.push(row);
            proof {
                assert(final(nodes)@.subrange(0, old(nodes)@.len() as int) =~= old(nodes)@);
                assert(final(nodes)@[old(nodes)@.len() as int].kind == kind);
                assert forall|k2: NodeKind, n2: Seq<u8>|
                    has_node(old(nodes)@, k2, n2) implies has_node(final(nodes)@, k2, n2) by {
                    let k = choose|k: int|
                        0 <= k < old(nodes)@.len() && old(nodes)@[k].kind == k2
                            && old(nodes)@[k].name@ == n2;
                    assert(final(nodes)@[k] == old(nodes)@[k]);
                }
            }
            true
        },
    }
}

/// Ensure an `Entity` node.
pub fn ensure_entity_node(nodes: &mut Vec<NodeRow>, name: Vec<u8>, created_at: i64) -> (created:
    bool)
    requires
        uniq_nodes(old(nodes)@),
    ensures
        uniq_nodes(final(nodes)@),
        has_node(final(nodes)@, NodeKind::Entity, name@),
        created == !has_node(old(nodes)@, NodeKind::Entity, name@),
        forall|k2: NodeKind, n2: Seq<u8>|
            has_node(old(nodes)@, k2, n2) ==> has_node(final(nodes)@, k2, n2),
        has_node(old(nodes)@, NodeKind::Entity, name@) ==> *final(nodes) == *old(nodes),
{
    ensure_node(nodes, NodeKind::Entity, name, created_at, None)
}

/// Ensure a `Document` node.
pub fn ensure_document_node(nodes: &mut Vec<NodeRow>, doc_id: Vec<u8>, created_at: i64) -> (created:
    bool)
    requires
        uniq_nodes(old(nodes)@),
    ensures
        uniq_nodes(final(nodes)@),
        has_node(final(nodes)@, NodeKind::Document, doc_id@),
        created == !has_node(old(nodes)@, NodeKind::Document, doc_id@),
        forall|k2: NodeKind, n2: Seq<u8>|
            has_node(old(nodes)@, k2, n2) ==> has_node(final(nodes)@, k2, n2),
        has_node(old(nodes)@, NodeKind::Document, doc_id@) ==> *final(nodes) == *old(nodes),
{
    ensure_node(nodes, NodeKind::Document, doc_id, created_at, None)
}

/// Ensure a `Memory` node.
pub fn ensure_memory_node(nodes: &mut Vec<NodeRow>, mem_id: Vec<u8>, created_at: i64) -> (created:
    bool)
    requires
        uniq_nodes(old(nodes)@),
    ensures
        uniq_nodes(final(nodes)@),
        has_node(final(nodes)@, NodeKind::Memory, mem_id@),
        created == !has_node(old(nodes)@, NodeKind::Memory, mem_id@),
        forall|k2: NodeKind, n2: Seq<u8>|
            has_node(old(nodes)@, k2, n2) ==> has_node(final(nodes)@, k2, n2),
        has_node(old(nodes)@, NodeKind::Memory, mem_id@) ==> *final(nodes) == *old(nodes),
{
    ensure_node(nodes, NodeKind::Memory, mem_id, created_at, None)
}

/// Ensure an `Episode` node, carrying its session when given.
pub fn ensure_episode_node(
    nodes: &mut Vec<NodeRow>,
    episode_id: Vec<u8>,
    created_at: i64,
    session_id: Option<Vec<u8>>,
) -> (created: bool)
    requires
        uniq_nodes(old(nodes)@),
    ensures
        uniq_nodes(final(nodes)@),
        has_node(final(nodes)@, NodeKind::Episode, episode_id@),
        created == !has_node(old(nodes)@, NodeKind::Episode, episode_id@),
        forall|k2: NodeKind, n2: Seq<u8>|
            has_node(old(nodes)@, k2, n2) ==> has_node(final(nodes)@, k2, n2),
        has_node(old(nodes)@, NodeKind::Episode, episode_id@) ==> *final(nodes) == *old(nodes),
{
    ensure_node(nodes, NodeKind::Episode, episode_id, created_at, session_id)
}

/// Insert or overwrite the edge keyed `(src, dst, relation)`.
pub fn add_edge_generic(
    edges: &mut Vec<EdgeRow>,
    src: Vec<u8>,
    dst: Vec<u8>,
    relation: Relation,
    score_milli: Option<i64>,
    created_at: i64,
)
    requires
        uniq_edges(old(edges)@),
    ensures
        uniq_edges(final(edges)@),
        forall|e: EdgeRow| #[trigger]
            final(edges)@.contains(e) == ((old(edges)@.contains(e) && !(e.src@ == src@ && e.dst@
                == dst@ && e.relation == relation)) || e == (EdgeRow {
                src: src,
                dst: dst,
                relation: relation,
                score_milli: score_milli,
                created_at: created_at,
            })),
        has_edge(final(edges)@, src@, dst@, relation),
        forall|s2: Seq<u8>, d2: Seq<u8>, r2: Relation|
            has_edge(old(edges)@, s2, d2, r2) ==> has_edge(final(edges)@, s2, d2, r2),
{
    let row = EdgeRow { src, dst, relation, score_milli, created_at };
    let found = find_edge(edges, &row.src, &row.dst, relation);
    let ghost pre = edges@;
    let ghost the_row = row;
    match found {
        Some(i) => {
            let ghost xi = i as int;
            edges.set(i, row);
            proof {
                let post = edges@;
                assert(post[xi] == the_row);
                assert forall|e: EdgeRow| #[trigger]
                    post.contains(e) == ((pre.contains(e) && !(e.src@ == src@ && e.dst@ == dst@
                        && e.relation == relation)) || e == the_row) by {
                    if post.contains(e) {
                        let k = choose|k: int| 0 <= k < post.len() && post[k] == e;
                        if k != xi {
                            assert(pre[k] == e);
                            assert(pre.contains(e));
                            if e.src@ == src@ && e.dst@ == dst@ && e.relation == relation {
                                if k < xi {
                                    assert(!(pre[k].src@ == pre[xi].src@ && pre[k].dst@
                                        == pre[xi].dst@ && pre[k].relation == pre[xi].relation));
                                } else {
                                    assert(!(pre[xi].src@ == pre[k].src@ && pre[xi].dst@
                                        == pre[k].dst@ && pre[xi].relation == pre[k].relation));
                                }
                                assert(false);
                            }
                        }
                    }
                    if pre.contains(e) && !(e.src@ == src@ && e.dst@ == dst@ && e.relation
                        == relation) {
                        let k = choose|k: int| 0 <= k < pre.len() && pre[k] == e;
                        assert(k != xi);
                        assert(post[k] == e);
                        assert(post.contains(e));
                    }
                    if e == the_row {
                        assert(post.contains(e));
                    }
                }
                assert forall|i2: int, j2: int| 0 <= i2 < j2 < post.len() implies !(post[i2].src@
                    == post[j2].src@ && post[i2].dst@ == post[j2].dst@ && post[i2].relation
                    == post[j2].relation) by {
                    if i2 != xi && j2 != xi {
                        assert(post[i2] == pre[i2]);
                        assert(post[j2] == pre[j2]);
                    } else if i2 == xi {
                        assert(post[j2] == pre[j2]);
                        assert(post[i2].src@ == pre[xi].src@ && post[i2].dst@ == pre[xi].dst@
                            && post[i2].relation == pre[xi].relation);
                    } else {
                        assert(post[i2] == pre[i2]);
                        assert(post[j2].src@ == pre[xi].src@ && post[j2].dst@ == pre[xi].dst@
                            && post[j2].relation == pre[xi].relation);
                    }
                }
                assert(has_edge(post, src@, dst@, relation)) by {
                    assert(post[xi].src@ == src@ && post[xi].dst@ == dst@ && post[xi].relation
                        == relation);
                }
                assert forall|s2: Seq<u8>, d2: Seq<u8>, r2: Relation|
                    has_edge(pre, s2, d2, r2) implies has_edge(post, s2, d2, r2) by {
                    let k = choose|k: int|
                        0 <= k < pre.len() && pre[k].src@ == s2 && pre[k].dst@ == d2
                            && pre[k].relation == r2;
                    if k == xi {
                        assert(post[xi].src@ == s2 && post[xi].dst@ == d2 && post[xi].relation
                            == r2);
                    } else {
                        assert(post[k] == pre[k]);
                    }
                }
            }
        },
        None => {
            edges.push(row);
            proof {
                let post = edges@;
                let xi = pre.len() as int;
                assert(post[xi] == the_row);
                assert forall|e: EdgeRow| #[trigger]
                    post.contains(e) == ((pre.contains(e) && !(e.src@ == src@ && e.dst@ == dst@
                        && e.relation == relation)) || e == the_row) by {
                    if post.contains(e) {
                        let k = choose|k: int| 0 <= k < post.len() && post[k] == e;
                        if k != xi {
                            assert(pre[k] == e);
                            assert(pre.contains(e));
                            if e.src@ == src@ && e.dst@ == dst@ && e.relation == relation {
                                assert(has_edge(pre, src@, dst@, relation));
                                assert(false);
                            }
                        }
                    }
                    if pre.contains(e) {
                        let k = choose|k: int| 0 <= k < pre.len() && pre[k] == e;
                        assert(post[k] == e);
                        assert(post.contains(e));
                    }
                }
                assert forall|i2: int, j2: int| 0 <= i2 < j2 < post.len() implies !(post[i2].src@
                    == post[j2].src@ && post[i2].dst@ == post[j2].dst@ && post[i2].relation
                    == post[j2].relation) by {
                    if j2 == xi {
                        assert(post[i2] == pre[i2]);
                        if post[i2].src@ == src@ && post[i2].dst@ == dst@ && post[i2].relation
                            == relation {
                            assert(pre.contains(pre[i2]));
                            assert(has_edge(pre, src@, dst@, relation));
                        }
                    } else {
                        assert(post[i2] == pre[i2]);
                        assert(post[j2] == pre[j2]);
                    }
                }
                assert(has_edge(post, src@, dst@, relation)) by {
                    assert(post[xi].src@ == src@ && post[xi].dst@ == dst@ && post[xi].relation
                        == relation);
                }
                assert forall|s2: Seq<u8>, d2: Seq<u8>, r2: Relation|
                    has_edge(pre, s2, d2, r2) implies has_edge(post, s2, d2, r2) by {
                    let k = choose|k: int|
                        0 <= k < pre.len() && pre[k].src@ == s2 && pre[k].dst@ == d2
                            && pre[k].relation == r2;
                    assert(post[k] == pre[k]);
                }
            }
        },
    }
}

/// Insert or overwrite an edge from an entity to a document.
pub fn add_edge(
    edges: &mut Vec<EdgeRow>,
    entity: &Vec<u8>,
    doc_id: &Vec<u8>,
    relation: Relation,
    created_at: i64,
)
    requires
        uniq_edges(old(edges)@),
    ensures
        uniq_edges(final(edges)@),
        has_edge(
            final(edges)@,
            node_key_of(NodeKind::Entity, entity@),
            node_key_of(NodeKind::Document, doc_id@),
            relation,
        ),
        forall|s2: Seq<u8>, d2: Seq<u8>, r2: Relation|
            has_edge(old(edges)@, s2, d2, r2) ==> has_edge(final(edges)@, s2, d2, r2),
{
    let src = node_key(NodeKind::Entity, entity);
    let dst = node_key(NodeKind::Document, doc_id);
    add_edge_generic(edges, src, dst, relation, None, created_at);
}

/// Delete the edge keyed `(src, dst, relation)`; report whether it existed.
pub fn delete_relation(
    edges: &mut Vec<EdgeRow>,
    src: &Vec<u8>,
    dst: &Vec<u8>,
    relation: Relation,
) -> (existed: bool)
    requires
        uniq_edges(old(edges)@),
    ensures
        uniq_edges(final(edges)@),
        existed == has_edge(old(edges)@, src@, dst@, relation),
        !has_edge(final(edges)@, src@, dst@, relation),
        forall|e: EdgeRow| #[trigger]
            final(edges)@.contains(e) == (old(edges)@.contains(e) && !(e.src@ == src@ && e.dst@
                == dst@ && e.relation == relation)),
{
    let found = find_edge(edges, src, dst, relation);
    let ghost pre = edges@;
    match found {
        None => {
            proof {
                assert forall|e: EdgeRow| #[trigger]
                    pre.contains(e) == (pre.contains(e) && !(e.src@ == src@ && e.dst@ == dst@
                        && e.relation == relation)) by {
                    if pre.contains(e) && e.src@ == src@ && e.dst@ == dst@ && e.relation
                        == relation {
                        let k = choose|k: int| 0 <= k < pre.len() && pre[k] == e;
                        assert(has_edge(pre, src@, dst@, relation));
                    }
                }
            }
            false
        },
        Some(i) => {
            edges.remove(i);
            proof {
                let post = edges@;
                let xi = i as int;
                assert forall|e: EdgeRow| #[trigger]
                    post.contains(e) == (pre.contains(e) && !(e.src@ == src@ && e.dst@ == dst@
                        && e.relation == relation)) by {
                    if post.contains(e) {
                        let k = choose|k: int| 0 <= k < post.len() && post[k] == e;
                        let k0 = if k < xi {
                            k
                        } else {
                            k + 1
                        };
                        assert(pre[k0] == e);
                        assert(pre.contains(e));
                        if e.src@ == src@ && e.dst@ == dst@ && e.relation == relation {
                            if k0 < xi {
                                assert(!(pre[k0].src@ == pre[xi].src@ && pre[k0].dst@
                                    == pre[xi].dst@ && pre[k0].relation == pre[xi].relation));
                            } else {
                                assert(!(pre[xi].src@ == pre[k0].src@ && pre[xi].dst@
                                    == pre[k0].dst@ && pre[xi].relation == pre[k0].relation));
                            }
                            assert(false);
                        }
                    }
                    if pre.contains(e) && !(e.src@ == src@ && e.dst@ == dst@ && e.relation
                        == relation) {
                        let k = choose|k: int| 0 <= k < pre.len() && pre[k] == e;
                        assert(k != xi);
                        if k < xi {
                            assert(post[k] == e);
                        } else {
                            assert(post[k - 1] == e);
                        }
                        assert(post.contains(e));
                    }
                }
                assert(!has_edge(post, src@, dst@, relation)) by {
                    if has_edge(post, src@, dst@, relation) {
                        let k = choose|k: int|
                            0 <= k < post.len() && post[k].src@ == src@ && post[k].dst@ == dst@
                                && post[k].relation == relation;
                        assert(post.contains(post[k]));
                    }
                }
                assert forall|i2: int, j2: int| 0 <= i2 < j2 < post.len() implies !(post[i2].src@
                    == post[j2].src@ && post[i2].dst@ == post[j2].dst@ && post[i2].relation
                    == post[j2].relation) by {
                    let a = if i2 < xi {
                        i2
                    } else {
                        i2 + 1
                    };
                    let b = if j2 < xi {
                        j2
                    } else {
                        j2 + 1
                    };
                    assert(post[i2] == pre[a]);
                    assert(post[j2] == pre[b]);
                }
            }
            true
        },
    }
}

// ---------------------------------------------------------------------------
// Links, counters and document relations
// ---------------------------------------------------------------------------

use crate::store::{CountRow, LinkRow, find_count, uniq_counts, uniq_links};
use crate::order::views;

/// Is the pair `(doc, entity)` linked?
pub open spec fn has_link(s: Seq<LinkRow>, doc: Seq<u8>, entity: Seq<u8>) -> bool {
    exists|i: int| 0 <= i < s.len() && s[i].doc_id@ == doc && s[i].entity@ == entity
}

/// The mention count of `n`, zero when it has no row.
pub open spec fn count_of(s: Seq<CountRow>, n: Seq<u8>) -> u64 {
    if exists|i: int| 0 <= i < s.len() && s[i].name@ == n {
        s[choose|i: int| 0 <= i < s.len() && s[i].name@ == n].count
    } else {
        0
    }
}

/// A counter bump that stops at the top of the range.
pub open spec fn sat_add1(c: u64) -> u64 {
    if c == u64::MAX {
        c
    } else {
        (c + 1) as u64
    }
}

/// With unique names, `count_of` reads the row at any matching index.
pub proof fn lemma_count_at(s: Seq<CountRow>, i: int)
    requires
        uniq_counts(s),
        0 <= i < s.len(),
    ensures
        count_of(s, s[i].name@) == s[i].count,
{
    let n = s[i].name@;
    assert(exists|k: int| 0 <= k < s.len() && s[k].name@ == n) by {
        assert(s[i].name@ == n);
    }
    let k = choose|k: int| 0 <= k < s.len() && s[k].name@ == n;
    if k < i {
        assert(s[k].name@ != s[i].name@);
        assert(false);
    } else if i < k {
        assert(s[i].name@ != s[k].name@);
        assert(false);
    }
}

/// Increment the counter of `name`, saturating; other counters keep their
/// values.
pub fn bump_count(rows: &mut Vec<CountRow>, name: &Vec<u8>)
    requires
        uniq_counts(old(rows)@),
    ensures
        uniq_counts(final(rows)@),
        count_of(final(rows)@, name@) == sat_add1(count_of(old(rows)@, name@)),
        forall|m: Seq<u8>| m != name@ ==> count_of(final(rows)@, m) == count_of(old(rows)@, m),
{
    let found = find_count(rows, name);
    let ghost pre = rows@;
    match found {
        Some(i) => {
            let ghost xi = i as int;
            proof {
                lemma_count_at(pre, xi);
            }
            let oldc = rows[i].count;
            let newc: u64 = if oldc == u64::MAX {
                oldc
            } else {
                oldc + 1
            };
            let mut name2: Vec<u8> = Vec::new();
            let nn: usize = name.len();
            let mut t: usize = 0;
            while t < nn
                invariant
                    nn == name@.len(),
                    t <= nn,
                    name2@ =~= name@.take(t as int),
                decreases nn - t,
            {
                name2.push(name[t]);
                proof {
                    assert(name@.take(t + 1) =~= name@.take(t as int).push(name@[t as int]));
                }
                t = t + 1;
            }
            proof {
                assert(name2@ =~= name@);
            }
            rows.set(i, CountRow { name: name2, count: newc });
            proof {
                let post = rows@;
                assert(uniq_counts(post)) by {
                    assert forall|a: int, b: int| 0 <= a < b < post.len() implies post[a].name@
                        != post[b].name@ by {
                        assert(post[a].name@ == pre[a].name@);
                        assert(post[b].name@ == pre[b].name@);
                    }
                }
                lemma_count_at(post, xi);
                assert(count_of(post, name@) == newc);
                assert forall|m: Seq<u8>| m != name@ implies count_of(post, m) == count_of(
                    pre,
                    m,
                ) by {
                    if exists|k: int| 0 <= k < post.len() && post[k].name@ == m {
                        let k = choose|k: int| 0 <= k < post.len() && post[k].name@ == m;
                        lemma_count_at(post, k);
                        assert(k != xi);
                        assert(pre[k].name@ == m);
                        lemma_count_at(pre, k);
                        assert(post[k].count == pre[k].count);
                    } else {
                        if exists|k: int| 0 <= k < pre.len() && pre[k].name@ == m {
                            let k = choose|k: int| 0 <= k < pre.len() && pre[k].name@ == m;
                            assert(post[k].name@ == m);
                            assert(false);
                        }
                    }
                }
            }
        },
        None => {
            let mut name2: Vec<u8> = Vec::new();
            let nn: usize = name.len();
            let mut t: usize = 0;
            while t < nn
                invariant
                    nn == name@.len(),
                    t <= nn,
                    name2@ =~= name@.take(t as int),
                decreases nn - t,
            {
                name2.push(name[t]);
                proof {
                    assert(name@.take(t + 1) =~= name@.take(t as int).push(name@[t as int]));
                }
                t = t + 1;
            }
            proof {
                assert(name2@ =~= name@);
            }
            rows.push(CountRow { name: name2, count: 1 });
            proof {
                let post = rows@;
                let xi = pre.len() as int;
                assert(post[xi].name@ == name@);
                assert(uniq_counts(post)) by {
                    assert forall|a: int, b: int| 0 <= a < b < post.len() implies post[a].name@
                        != post[b].name@ by {
                        if b == xi {
                            assert(post[a] == pre[a]);
                        } else {
                            assert(post[a] == pre[a]);
                            assert(post[b] == pre[b]);
                        }
                    }
                }
                lemma_count_at(post, xi);
                assert(count_of(pre, name@) == 0);
                assert(count_of(post, name@) == 1);
                assert forall|m: Seq<u8>| m != name@ implies count_of(post, m) == count_of(
                    pre,
                    m,
                ) by {
                    if exists|k: int| 0 <= k < post.len() && post[k].name@ == m {
                        let k = choose|k: int| 0 <= k < post.len() && post[k].name@ == m;
                        lemma_count_at(post, k);
                        assert(k != xi);
                        assert(pre[k].name@ == m);
                        lemma_count_at(pre, k);
                    } else {
                        if exists|k: int| 0 <= k < pre.len() && pre[k].name@ == m {
                            let k = choose|k: int| 0 <= k < pre.len() && pre[k].name@ == m;
                            assert(post[k].name@ == m);
                            assert(false);
                        }
                    }
                }
            }
        },
    }
}

/// Ensure the flat link `(doc, entity)` exists.
pub fn ensure_link(links: &mut Vec<LinkRow>, doc_id: &Vec<u8>, entity: &Vec<u8>)
    requires
        uniq_links(old(links)@),
    ensures
        uniq_links(final(links)@),
        forall|d: Seq<u8>, e: Seq<u8>|
            has_link(final(links)@, d, e) == (has_link(old(links)@, d, e) || (d == doc_id@ && e
                == entity@)),
{
    let n: usize = links.len();
    let mut i: usize = 0;
    while i < n
        invariant
            n == links@.len(),
            i <= n,
            *links == *old(links),
            uniq_links(links@),
            forall|j: int|
                0 <= j < i ==> !(links@[j].doc_id@ == doc_id@ && links@[j].entity@ == entity@),
        decreases n - i,
    {
        if crate::bytes::bytes_eq(&links[i].doc_id, doc_id) && crate::bytes::bytes_eq(
            &links[i].entity,
            entity,
        ) {
            proof {
                assert(has_link(links@, doc_id@, entity@)) by {
                    assert(links@[i as int].doc_id@ == doc_id@ && links@[i as int].entity@
                        == entity@);
                }
            }
            return;
        }
        i = i + 1;
    }
    let ghost pre = links@;
    let d2 = crate::bytes::copy_bytes(doc_id);
    let e2 = crate::bytes::copy_bytes(entity);
    links.push(LinkRow { doc_id: d2, entity: e2 });
    proof {
        let post = links@;
        let xi = pre.len() as int;
        assert(post[xi].doc_id@ == doc_id@ && post[xi].entity@ == entity@);
        assert forall|a: int, b: int| 0 <= a < b < post.len() implies !(post[a].doc_id@
            == post[b].doc_id@ && post[a].entity@ == post[b].entity@) by {
            if b == xi {
                assert(post[a] == pre[a]);
            } else {
                assert(post[a] == pre[a]);
                assert(post[b] == pre[b]);
            }
        }
        assert forall|d: Seq<u8>, e: Seq<u8>|
            has_link(post, d, e) == (has_link(pre, d, e) || (d == doc_id@ && e == entity@)) by {
            if has_link(post, d, e) {
                let k = choose|k: int| 0 <= k < post.len() && post[k].doc_id@ == d && post[k].entity@ == e;
                if k != xi {
                    assert(pre[k] == post[k]);
                    assert(has_link(pre, d, e));
                }
            }
            if has_link(pre, d, e) {
                let k = choose|k: int| 0 <= k < pre.len() && pre[k].doc_id@ == d && pre[k].entity@ == e;
                assert(post[k] == pre[k]);
                assert(has_link(post, d, e));
            }
            if d == doc_id@ && e == entity@ {
                assert(has_link(post, d, e));
            }
        }
    }
}

/// No two of the byte strings are equal.
pub open spec fn distinct_views(s: Seq<Vec<u8>>) -> bool {
    forall|i: int, j: int| 0 <= i < j < s.len() ==> s[i]@ != s[j]@
}

/// Record mentions of each entity by a document: bump each counter once
/// and ensure the flat link.
pub fn link_entities(
    ents: &mut Vec<CountRow>,
    links: &mut Vec<LinkRow>,
    doc_id: &Vec<u8>,
    entities: &Vec<Vec<u8>>,
)
    requires
        uniq_counts(old(ents)@),
        uniq_links(old(links)@),
        distinct_views(entities@),
    ensures
        uniq_counts(final(ents)@),
        uniq_links(final(links)@),
        forall|m: Seq<u8>|
            count_of(final(ents)@, m) == if views(entities@).contains(m) {
                sat_add1(count_of(old(ents)@, m))
            } else {
                count_of(old(ents)@, m)
            },
        forall|d: Seq<u8>, e: Seq<u8>|
            has_link(final(links)@, d, e) == (has_link(old(links)@, d, e) || (d == doc_id@
                && views(entities@).contains(e))),
{
    let n: usize = entities.len();
    let mut i: usize = 0;
    while i < n
        invariant
            n == entities@.len(),
            i <= n,
            uniq_counts(ents@),
            uniq_links(links@),
            distinct_views(entities@),
            forall|m: Seq<u8>|
                count_of(ents@, m) == if views(entities@.take(i as int)).contains(m) {
                    sat_add1(count_of(old(ents)@, m))
                } else {
                    count_of(old(ents)@, m)
                },
            forall|d: Seq<u8>, e: Seq<u8>|
                has_link(links@, d, e) == (has_link(old(links)@, d, e) || (d == doc_id@ && views(
                    entities@.take(i as int),
                ).contains(e))),
        decreases n - i,
    {
        let ghost pre_counts = ents@;
        let ghost pre_links = links@;
        bump_count(ents, &entities[i]);
        ensure_link(links, doc_id, &entities[i]);
        proof {
            let cur = entities@[i as int]@;
            assert(views(entities@.take(i as int)) =~= views(entities@).take(i as int));
            assert(views(entities@.take(i + 1)) =~= views(entities@).take(i + 1));
            assert(views(entities@).take(i + 1) =~= views(entities@).take(i as int).push(cur));
            assert forall|m: Seq<u8>|
                count_of(ents@, m) == (if views(entities@.take(i + 1)).contains(m) {
                    sat_add1(count_of(old(ents)@, m))
                } else {
                    count_of(old(ents)@, m)
                }) by {
                let tk = views(entities@).take(i as int);
                if m == cur {
                    assert(!tk.contains(m)) by {
                        if tk.contains(m) {
                            let k = choose|k: int| 0 <= k < tk.len() && tk[k] == m;
                            assert(views(entities@)[k] == entities@[k]@);
                            assert(entities@[k]@ == entities@[i as int]@);
                            assert(false);
                        }
                    }
                    assert(views(entities@.take(i + 1)).contains(m)) by {
                        assert(views(entities@).take(i + 1)[i as int] == m);
                    }
                } else {
                    assert(views(entities@.take(i + 1)).contains(m) == tk.contains(m)) by {
                        if views(entities@).take(i + 1).contains(m) {
                            let k = choose|k: int|
                                0 <= k < i + 1 && #[trigger] views(entities@).take(i + 1)[k] == m;
                            assert(k != i);
                            assert(tk[k] == m);
                        }
                        if tk.contains(m) {
                            let k = choose|k: int| 0 <= k < i && tk[k] == m;
                            assert(views(entities@).take(i + 1)[k] == m);
                        }
                    }
                }
            }
            assert forall|d: Seq<u8>, e: Seq<u8>|
                has_link(links@, d, e) == (has_link(old(links)@, d, e) || (d == doc_id@ && views(
                    entities@.take(i + 1),
                ).contains(e))) by {
                let tk = views(entities@).take(i as int);
                if e == cur {
                    assert(views(entities@).take(i + 1)[i as int] == e);
                } else {
                    assert(views(entities@.take(i + 1)).contains(e) == tk.contains(e)) by {
                        if views(entities@).take(i + 1).contains(e) {
                            let k = choose|k: int|
                                0 <= k < i + 1 && #[trigger] views(entities@).take(i + 1)[k] == e;
                            assert(k != i);
                            assert(tk[k] == e);
                        }
                        if tk.contains(e) {
                            let k = choose|k: int| 0 <= k < i && tk[k] == e;
                            assert(views(entities@).take(i + 1)[k] == e);
                        }
                    }
                }
            }
        }
        i = i + 1;
    }
    proof {
        assert(entities@.take(n as int) =~= entities@);
    }
}


// ---------------------------------------------------------------------------
// Per-document entity lists and document relations
// ---------------------------------------------------------------------------

/// The entities linked to document `d`, in link order.
pub open spec fn ents_of_doc(s: Seq<LinkRow>, d: Seq<u8>) -> Seq<Seq<u8>>
    decreases s.len(),
{
    if s.len() == 0 {
        Seq::empty()
    } else {
        ents_of_doc(s.drop_last(), d) + if s.last().doc_id@ == d {
            seq![s.last().entity@]
        } else {
            Seq::empty()
        }
    }
}

/// How many strings of `a` also occur in `b`.
pub open spec fn inter_count(a: Seq<Seq<u8>>, b: Seq<Seq<u8>>) -> int
    decreases a.len(),
{
    if a.len() == 0 {
        0int
    } else {
        inter_count(a.drop_last(), b) + if b.contains(a.last()) {
            1int
        } else {
            0int
        }
    }
}

/// The overlap count is between zero and the length of `a`.
pub proof fn lemma_inter_count_bounds(a: Seq<Seq<u8>>, b: Seq<Seq<u8>>)
    ensures
        0 <= inter_count(a, b) <= a.len(),
    decreases a.len(),
{
    if a.len() > 0 {
        lemma_inter_count_bounds(a.drop_last(), b);
    }
}

/// List the entities linked to a document, in link order.
pub fn entities_for_doc(links: &Vec<LinkRow>, doc_id: &Vec<u8>) -> (r: Vec<Vec<u8>>)
    ensures
        views(r@) == ents_of_doc(links@, doc_id@),
{
    let n: usize = links.len();
    let mut out: Vec<Vec<u8>> = Vec::new();
    let mut i: usize = 0;
    proof {
        assert(links@.take(0) =~= Seq::<LinkRow>::empty());
        assert(views(out@) =~= ents_of_doc(links@.take(0), doc_id@));
    }
    while i < n
        invariant
            n == links@.len(),
            i <= n,
            views(out@) == ents_of_doc(links@.take(i as int), doc_id@),
        decreases n - i,
    {
        let ghost pre = out@;
        if crate::bytes::bytes_eq(&links[i].doc_id, doc_id) {
            let e = crate::bytes::copy_bytes(&links[i].entity);
            out.push(e);
            proof {
                assert(views(out@) =~= views(pre).push(links@[i as int].entity@));
            }
        }
        proof {
            assert(links@.take(i + 1).drop_last() =~= links@.take(i as int));
            assert(links@.take(i + 1).last() == links@[i as int]);
            if links@[i as int].doc_id@ == doc_id@ {
                assert(views(out@) =~= ents_of_doc(links@.take(i + 1), doc_id@));
            } else {
                assert(views(out@) =~= ents_of_doc(links@.take(i + 1), doc_id@));
            }
        }
        i = i + 1;
    }
    proof {
        assert(links@.take(n as int) =~= links@);
    }
    out
}

/// List the documents linked to an entity, sorted and deduplicated.
pub fn docs_for_entity(links: &Vec<LinkRow>, entity: &Vec<u8>) -> (r: Vec<Vec<u8>>)
    ensures
        crate::order::strictly_sorted(views(r@)),
        forall|d: Seq<u8>| views(r@).contains(d) == has_link(links@, d, entity@),
{
    let n: usize = links.len();
    let mut out: Vec<Vec<u8>> = Vec::new();
    let mut i: usize = 0;
    while i < n
        invariant
            n == links@.len(),
            i <= n,
            crate::order::strictly_sorted(views(out@)),
            forall|d: Seq<u8>|
                views(out@).contains(d) == exists|k: int|
                    0 <= k < i && links@[k].doc_id@ == d && links@[k].entity@ == entity@,
        decreases n - i,
    {
        let ghost pre = out@;
        if crate::bytes::bytes_eq(&links[i].entity, entity) {
            let d = crate::bytes::copy_bytes(&links[i].doc_id);
            crate::order::insert_sorted_unique(&mut out, d);
        }
        proof {
            assert forall|d: Seq<u8>|
                views(out@).contains(d) == exists|k: int|
                    0 <= k < i + 1 && links@[k].doc_id@ == d && #[trigger] links@[k].entity@
                        == entity@ by {
                if views(out@).contains(d) {
                    if links@[i as int].entity@ == entity@ && d == links@[i as int].doc_id@ {
                        assert(links@[i as int].doc_id@ == d && links@[i as int].entity@
                            == entity@);
                    } else {
                        assert(views(pre).contains(d));
                    }
                }
                if exists|k: int|
                    0 <= k < i + 1 && links@[k].doc_id@ == d && links@[k].entity@ == entity@ {
                    let k = choose|k: int|
                        0 <= k < i + 1 && links@[k].doc_id@ == d && #[trigger] links@[k].entity@
                            == entity@;
                    if k < i {
                        assert(views(pre).contains(d));
                        assert(views(out@).contains(d));
                    } else {
                        assert(views(out@).contains(d));
                    }
                }
            }
        }
        i = i + 1;
    }
    out
}

/// Does `x` occur among the byte strings of `b`?
pub fn contains_view(b: &Vec<Vec<u8>>, x: &Vec<u8>) -> (r: bool)
    ensures
        r == views(b@).contains(x@),
{
    let n: usize = b.len();
    let mut i: usize = 0;
    while i < n
        invariant
            n == b@.len(),
            i <= n,
            forall|j: int| 0 <= j < i ==> b@[j]@ != x@,
        decreases n - i,
    {
        if crate::bytes::bytes_eq(&b[i], x) {
            proof {
                assert(views(b@)[i as int] == x@);
            }
            return true;
        }
        i = i + 1;
    }
    proof {
        if views(b@).contains(x@) {
            let k = choose|k: int| 0 <= k < views(b@).len() && views(b@)[k] == x@;
            assert(b@[k]@ == x@);
        }
    }
    false
}

/// Count how many strings of `a` also occur in `b`.
pub fn count_in(a: &Vec<Vec<u8>>, b: &Vec<Vec<u8>>) -> (r: usize)
    ensures
        r == inter_count(views(a@), views(b@)),
        r <= a@.len(),
{
    proof {
        lemma_inter_count_bounds(views(a@), views(b@));
    }
    let n: usize = a.len();
    let mut cnt: usize = 0;
    let mut i: usize = 0;
    proof {
        assert(views(a@).take(0) =~= Seq::<Seq<u8>>::empty());
    }
    while i < n
        invariant
            n == a@.len(),
            i <= n,
            cnt == inter_count(views(a@).take(i as int), views(b@)),
            cnt <= i,
        decreases n - i,
    {
        proof {
            lemma_inter_count_bounds(views(a@).take(i as int), views(b@));
            assert(views(a@).take(i + 1).drop_last() =~= views(a@).take(i as int));
            assert(views(a@).take(i + 1).last() == views(a@)[i as int]);
        }
        if contains_view(b, &a[i]) {
            cnt = cnt + 1;
        }
        i = i + 1;
    }
    proof {
        assert(views(a@).take(n as int) =~= views(a@));
    }
    cnt
}

/// The Jaccard overlap of two entity lists, in thousandths, capped at
/// the full score; zero when both lists are empty.
pub open spec fn jaccard_milli(a: Seq<Seq<u8>>, b: Seq<Seq<u8>>) -> int {
    let ic = inter_count(a, b);
    let uni = a.len() + b.len() - ic;
    if uni <= 0 {
        0int
    } else if ic * 1000 / uni > 1000 {
        1000int
    } else {
        ic * 1000 / uni
    }
}

/// The stored score of an edge, when the edge exists.
pub open spec fn edge_score(s: Seq<EdgeRow>, src: Seq<u8>, dst: Seq<u8>, rel: Relation) -> Option<
    i64,
> {
    if has_edge(s, src, dst, rel) {
        s[choose|i: int|
            0 <= i < s.len() && s[i].src@ == src && s[i].dst@ == dst && s[i].relation
                == rel].score_milli
    } else {
        None
    }
}

/// With unique keys, `edge_score` reads the row at any matching index.
pub proof fn lemma_edge_at(s: Seq<EdgeRow>, i: int)
    requires
        uniq_edges(s),
        0 <= i < s.len(),
    ensures
        edge_score(s, s[i].src@, s[i].dst@, s[i].relation) == s[i].score_milli,
{
    let src = s[i].src@;
    let dst = s[i].dst@;
    let rel = s[i].relation;
    assert(has_edge(s, src, dst, rel)) by {
        assert(s[i].src@ == src && s[i].dst@ == dst && s[i].relation == rel);
    }
    let k = choose|k: int|
        0 <= k < s.len() && s[k].src@ == src && s[k].dst@ == dst && s[k].relation == rel;
    if k < i {
        assert(!(s[k].src@ == s[i].src@ && s[k].dst@ == s[i].dst@ && s[k].relation
            == s[i].relation));
        assert(false);
    } else if i < k {
        assert(!(s[i].src@ == s[k].src@ && s[i].dst@ == s[k].dst@ && s[i].relation
            == s[k].relation));
        assert(false);
    }
}

/// Relate two documents by the Jaccard overlap of their entity sets: when
/// both have entities and the overlap is not empty, write a `Related` edge
/// holding the score in thousandths, and return that score.
pub fn relate_documents_by_entities(
    links: &Vec<LinkRow>,
    edges: &mut Vec<EdgeRow>,
    doc_a: &Vec<u8>,
    doc_b: &Vec<u8>,
    created_at: i64,
) -> (r: Option<i64>)
    requires
        uniq_edges(old(edges)@),
    ensures
        uniq_edges(final(edges)@),
        forall|s2: Seq<u8>, d2: Seq<u8>, r2: Relation|
            has_edge(old(edges)@, s2, d2, r2) ==> has_edge(final(edges)@, s2, d2, r2),
        ({
            let ae = ents_of_doc(links@, doc_a@);
            let be = ents_of_doc(links@, doc_b@);
            let ic = inter_count(ae, be);
            &&& (ae.len() == 0 || be.len() == 0 || ic == 0) ==> (r == None::<i64> && *final(edges)
                == *old(edges))
            &&& (ae.len() > 0 && be.len() > 0 && ic > 0) ==> (r matches Some(v) && {
                &&& v == if ic * 1000 / (ae.len() + be.len() - ic) > 1000 {
                    1000int
                } else {
                    ic * 1000 / (ae.len() + be.len() - ic)
                }
                &&& 0 <= v <= 1000
                &&& edge_score(
                    final(edges)@,
                    node_key_of(NodeKind::Document, doc_a@),
                    node_key_of(NodeKind::Document, doc_b@),
                    Relation::Related,
                ) == Some(v)
                &&& forall|e: EdgeRow|
                    old(edges)@.contains(e) && !(e.src@ == node_key_of(NodeKind::Document, doc_a@)
                        && e.dst@ == node_key_of(NodeKind::Document, doc_b@) && e.relation
                        == Relation::Related) ==> final(edges)@.contains(e)
                &&& forall|e: EdgeRow|
                    final(edges)@.contains(e) ==> (old(edges)@.contains(e) || (e.src@
                        == node_key_of(NodeKind::Document, doc_a@) && e.dst@ == node_key_of(
                        NodeKind::Document,
                        doc_b@,
                    ) && e.relation == Relation::Related))
            })
        }),
{
    let a_ents = entities_for_doc(links, doc_a);
    let b_ents = entities_for_doc(links, doc_b);
    if a_ents.len() == 0 || b_ents.len() == 0 {
        return None;
    }
    let inter: usize = count_in(&a_ents, &b_ents);
    if inter == 0 {
        return None;
    }
    let ghost ae = ents_of_doc(links@, doc_a@);
    let ghost be = ents_of_doc(links@, doc_b@);
    let ghost ic = inter_count(ae, be);
    let an: usize = a_ents.len();
    let bn: usize = b_ents.len();
    let uni: u128 = an as u128 + bn as u128 - inter as u128;
    let num: u128 = inter as u128 * 1000;
    let q: u128 = num / uni;
    proof {
        assert(inter <= an);
        assert(uni >= 1);
        assert(num == ic * 1000);
        assert(q == ic * 1000 / (ae.len() + be.len() - ic));
    }
    let score: i64 = if q > 1000 {
        1000
    } else {
        q as i64
    };
    let src = node_key(NodeKind::Document, doc_a);
    let dst = node_key(NodeKind::Document, doc_b);
    let ghost srcv = src@;
    let ghost dstv = dst@;
    add_edge_generic(edges, src, dst, Relation::Related, Some(score), created_at);
    proof {
        assert(has_edge(final(edges)@, srcv, dstv, Relation::Related));
        let k = choose|k: int|
            0 <= k < final(edges)@.len() && final(edges)@[k].src@ == srcv && final(edges)@[k].dst@
                == dstv && final(edges)@[k].relation == Relation::Related;
        assert(final(edges)@.contains(final(edges)@[k]));
        assert(final(edges)@[k].score_milli == Some(score)) by {
            if final(edges)@[k] != (EdgeRow {
                src: final(edges)@[k].src,
                dst: final(edges)@[k].dst,
                relation: Relation::Related,
                score_milli: Some(score),
                created_at: created_at,
            }) {
            }
        }
        lemma_edge_at(final(edges)@, k);
    }
    Some(score)
}


// ---------------------------------------------------------------------------
// Entity deletion
// ---------------------------------------------------------------------------

/// Drop every edge whose source or destination is `key`; report how many
/// edges were dropped. The surviving rows keep their values and order.
pub fn retain_edges_not_touching(edges: &mut Vec<EdgeRow>, key: &Vec<u8>) -> (removed: usize)
    requires
        uniq_edges(old(edges)@),
    ensures
        uniq_edges(final(edges)@),
        forall|e: EdgeRow| #[trigger]
            final(edges)@.contains(e) == (old(edges)@.contains(e) && !(e.src@ == key@ || e.dst@
                == key@)),
        final(edges)@.len() + removed == old(edges)@.len(),
{
    let ghost total = edges@;
    let n0: usize = edges.len();
    let mut kept: Vec<EdgeRow> = Vec::new();
    let mut removed: usize = 0;
    proof {
        assert(total.skip(0) =~= edges@);
    }
    while edges.len() > 0
        invariant
            uniq_edges(total),
            total.len() == n0,
            n0 <= usize::MAX,
            edges@ == total.skip(n0 - edges@.len()),
            kept@.len() + removed + edges@.len() == n0,
            forall|e: EdgeRow| #[trigger]
                kept@.contains(e) == (exists|k: int|
                    0 <= k < n0 - edges@.len() && total[k] == e && !(e.src@ == key@ || e.dst@
                        == key@)),
            forall|a: int, b: int| 0 <= a < b < kept@.len() ==> kept@[a] != kept@[b],
        decreases edges@.len(),
    {
        let ghost p = n0 - edges@.len();
        let x = edges.remove(0);
        proof {
            assert(x == total[p]);
            assert(edges@ =~= total.skip(p + 1));
        }
        let touches = crate::bytes::bytes_eq(&x.src, key) || crate::bytes::bytes_eq(&x.dst, key);
        let ghost pk = kept@;
        if !touches {
            kept.push(x);
            proof {
                assert forall|e: EdgeRow| #[trigger]
                    kept@.contains(e) == (exists|k: int|
                        0 <= k < p + 1 && total[k] == e && !(e.src@ == key@ || e.dst@ == key@)) by {
                    if kept@.contains(e) {
                        let a = choose|a: int| 0 <= a < kept@.len() && kept@[a] == e;
                        if a < pk.len() {
                            assert(pk.contains(e));
                            let k = choose|k: int|
                                0 <= k < p && total[k] == e && !(e.src@ == key@ || e.dst@ == key@);
                            assert(0 <= k < p + 1 && total[k] == e);
                        } else {
                            assert(e == x);
                            assert(total[p] == e);
                        }
                    }
                    if exists|k: int|
                        0 <= k < p + 1 && total[k] == e && !(e.src@ == key@ || e.dst@ == key@) {
                        let k = choose|k: int|
                            0 <= k < p + 1 && total[k] == e && !(e.src@ == key@ || e.dst@ == key@);
                        if k == p {
                            assert(kept@[pk.len() as int] == x);
                            assert(kept@.contains(e));
                        } else {
                            assert(pk.contains(e));
                            let a = choose|a: int| 0 <= a < pk.len() && pk[a] == e;
                            assert(kept@[a] == e);
                            assert(kept@.contains(e));
                        }
                    }
                }
                assert forall|a: int, b: int| 0 <= a < b < kept@.len() implies kept@[a]
                    != kept@[b] by {
                    if b == pk.len() {
                        assert(kept@[b] == x);
                        assert(pk.contains(pk[a]));
                        let k = choose|k: int|
                            0 <= k < p && total[k] == pk[a] && !(pk[a].src@ == key@ || pk[a].dst@
                                == key@);
                        if pk[a] == x {
                            assert(total[k].src@ == total[p].src@ && total[k].dst@ == total[p].dst@
                                && total[k].relation == total[p].relation);
                            assert(false);
                        }
                        assert(kept@[a] == pk[a]);
                    } else {
                        assert(kept@[a] == pk[a]);
                        assert(kept@[b] == pk[b]);
                    }
                }
            }
        } else {
            removed = removed + 1;
            proof {
                assert forall|e: EdgeRow| #[trigger]
                    kept@.contains(e) == (exists|k: int|
                        0 <= k < p + 1 && total[k] == e && !(e.src@ == key@ || e.dst@ == key@)) by {
                    if kept@.contains(e) {
                        let k = choose|k: int|
                            0 <= k < p && total[k] == e && !(e.src@ == key@ || e.dst@ == key@);
                        assert(0 <= k < p + 1 && total[k] == e);
                    }
                    if exists|k: int|
                        0 <= k < p + 1 && total[k] == e && !(e.src@ == key@ || e.dst@ == key@) {
                        let k = choose|k: int|
                            0 <= k < p + 1 && total[k] == e && !(e.src@ == key@ || e.dst@ == key@);
                        if k == p {
                            assert(e == x);
                            assert(false);
                        } else {
                            assert(kept@.contains(e));
                        }
                    }
                }
            }
        }
    }
    proof {
        assert(uniq_edges(kept@)) by {
            assert forall|a: int, b: int| 0 <= a < b < kept@.len() implies !(kept@[a].src@
                == kept@[b].src@ && kept@[a].dst@ == kept@[b].dst@ && kept@[a].relation
                == kept@[b].relation) by {
                assert(kept@.contains(kept@[a]));
                assert(kept@.contains(kept@[b]));
                let ka = choose|k: int|
                    0 <= k < n0 && total[k] == kept@[a] && !(kept@[a].src@ == key@ || kept@[a].dst@
                        == key@);
                let kb = choose|k: int|
                    0 <= k < n0 && total[k] == kept@[b] && !(kept@[b].src@ == key@ || kept@[b].dst@
                        == key@);
                if ka == kb {
                    assert(kept@[a] == kept@[b]);
                    assert(false);
                } else if ka < kb {
                    assert(!(total[ka].src@ == total[kb].src@ && total[ka].dst@ == total[kb].dst@
                        && total[ka].relation == total[kb].relation));
                } else {
                    assert(!(total[kb].src@ == total[ka].src@ && total[kb].dst@ == total[ka].dst@
                        && total[kb].relation == total[ka].relation));
                }
            }
        }
    }
    let out = kept;
    *edges = out;
    proof {
        assert forall|e: EdgeRow| #[trigger]
            final(edges)@.contains(e) == (total.contains(e) && !(e.src@ == key@ || e.dst@
                == key@)) by {
            if total.contains(e) && !(e.src@ == key@ || e.dst@ == key@) {
                let k = choose|k: int| 0 <= k < total.len() && total[k] == e;
                assert(final(edges)@.contains(e));
            }
        }
    }
    removed
}

/// Drop every link to the entity `name`.
#[verifier::rlimit(50)]
#[verifier::spinoff_prover]
pub fn retain_links_not_entity(links: &mut Vec<LinkRow>, name: &Vec<u8>)
    requires
        uniq_links(old(links)@),
    ensures
        uniq_links(final(links)@),
        forall|d: Seq<u8>, e: Seq<u8>|
            has_link(final(links)@, d, e) == (has_link(old(links)@, d, e) && e != name@),
{
    let ghost total = links@;
    let n0: usize = links.len();
    let mut kept: Vec<LinkRow> = Vec::new();
    proof {
        assert(total.skip(0) =~= links@);
    }
    while links.len() > 0
        invariant
            uniq_links(total),
            total.len() == n0,
            n0 <= usize::MAX,
            links@ == total.skip(n0 - links@.len()),
            kept@.len() <= n0 - links@.len(),
            forall|e: LinkRow| #[trigger]
                kept@.contains(e) == (exists|k: int|
                    0 <= k < n0 - links@.len() && total[k] == e && e.entity@ != name@),
            forall|a: int, b: int| 0 <= a < b < kept@.len() ==> kept@[a] != kept@[b],
        decreases links@.len(),
    {
        let ghost p = n0 - links@.len();
        let x = links.remove(0);
        proof {
            assert(x == total[p]);
            assert(links@ =~= total.skip(p + 1));
        }
        let keep = !crate::bytes::bytes_eq(&x.entity, name);
        let ghost pk = kept@;
        if keep {
            kept.push(x);
            proof {
                assert forall|e: LinkRow| #[trigger]
                    kept@.contains(e) == (exists|k: int|
                        0 <= k < p + 1 && total[k] == e && e.entity@ != name@) by {
                    if kept@.contains(e) {
                        let a = choose|a: int| 0 <= a < kept@.len() && kept@[a] == e;
                        if a < pk.len() {
                            assert(pk.contains(e));
                            let k = choose|k: int| 0 <= k < p && total[k] == e && e.entity@ != name@;
                            assert(0 <= k < p + 1 && total[k] == e);
                        } else {
                            assert(e == x);
                            assert(total[p] == e);
                        }
                    }
                    if exists|k: int| 0 <= k < p + 1 && total[k] == e && e.entity@ != name@ {
                        let k = choose|k: int| 0 <= k < p + 1 && total[k] == e && e.entity@ != name@;
                        if k == p {
                            assert(kept@[pk.len() as int] == x);
                            assert(kept@.contains(e));
                        } else {
                            assert(pk.contains(e));
                            let a = choose|a: int| 0 <= a < pk.len() && pk[a] == e;
                            assert(kept@[a] == e);
                            assert(kept@.contains(e));
                        }
                    }
                }
                assert forall|a: int, b: int| 0 <= a < b < kept@.len() implies kept@[a]
                    != kept@[b] by {
                    if b == pk.len() {
                        assert(kept@[b] == x);
                        assert(pk.contains(pk[a]));
                        let k = choose|k: int|
                            0 <= k < p && total[k] == pk[a] && pk[a].entity@ != name@;
                        if pk[a] == x {
                            assert(total[k].doc_id@ == total[p].doc_id@ && total[k].entity@
                                == total[p].entity@);
                            assert(false);
                        }
                        assert(kept@[a] == pk[a]);
                    } else {
                        assert(kept@[a] == pk[a]);
                        assert(kept@[b] == pk[b]);
                    }
                }
            }
        } else {
            proof {
                assert forall|e: LinkRow| #[trigger]
                    kept@.contains(e) == (exists|k: int|
                        0 <= k < p + 1 && total[k] == e && e.entity@ != name@) by {
                    if kept@.contains(e) {
                        let k = choose|k: int| 0 <= k < p && total[k] == e && e.entity@ != name@;
                        assert(0 <= k < p + 1 && total[k] == e);
                    }
                    if exists|k: int| 0 <= k < p + 1 && total[k] == e && e.entity@ != name@ {
                        let k = choose|k: int| 0 <= k < p + 1 && total[k] == e && e.entity@ != name@;
                        if k == p {
                            assert(e == x);
                            assert(false);
                        } else {
                            assert(kept@.contains(e));
                        }
                    }
                }
            }
        }
    }
    proof {
        assert(uniq_links(kept@)) by {
            assert forall|a: int, b: int| 0 <= a < b < kept@.len() implies !(kept@[a].doc_id@
                == kept@[b].doc_id@ && kept@[a].entity@ == kept@[b].entity@) by {
                assert(kept@.contains(kept@[a]));
                assert(kept@.contains(kept@[b]));
                let ka = choose|k: int|
                    0 <= k < n0 && total[k] == kept@[a] && kept@[a].entity@ != name@;
                let kb = choose|k: int|
                    0 <= k < n0 && total[k] == kept@[b] && kept@[b].entity@ != name@;
                if ka == kb {
                    assert(kept@[a] == kept@[b]);
                    assert(false);
                } else if ka < kb {
                    assert(!(total[ka].doc_id@ == total[kb].doc_id@ && total[ka].entity@
                        == total[kb].entity@));
                } else {
                    assert(!(total[kb].doc_id@ == total[ka].doc_id@ && total[kb].entity@
                        == total[ka].entity@));
                }
            }
        }
    }
    let out = kept;
    *links = out;
    proof {
        assert forall|d: Seq<u8>, e: Seq<u8>|
            has_link(final(links)@, d, e) == (has_link(total, d, e) && e != name@) by {
            if has_link(final(links)@, d, e) {
                let a = choose|a: int|
                    0 <= a < final(links)@.len() && final(links)@[a].doc_id@ == d
                        && final(links)@[a].entity@ == e;
                assert(final(links)@.contains(final(links)@[a]));
                let k = choose|k: int|
                    0 <= k < n0 && total[k] == final(links)@[a] && final(links)@[a].entity@
                        != name@;
                assert(total[k].doc_id@ == d && total[k].entity@ == e);
                assert(has_link(total, d, e));
            }
            if has_link(total, d, e) && e != name@ {
                let k = choose|k: int|
                    0 <= k < total.len() && total[k].doc_id@ == d && total[k].entity@ == e;
                assert(total.contains(total[k]));
                assert(final(links)@.contains(total[k]));
                let a = choose|a: int| 0 <= a < final(links)@.len() && final(links)@[a] == total[k];
                assert(final(links)@[a].doc_id@ == d && final(links)@[a].entity@ == e);
                assert(has_link(final(links)@, d, e));
            }
        }
    }
}

/// Remove the node keyed `(kind, name)` when present.
pub fn remove_node(nodes: &mut Vec<NodeRow>, kind: NodeKind, name: &Vec<u8>) -> (existed: bool)
    requires
        uniq_nodes(old(nodes)@),
    ensures
        uniq_nodes(final(nodes)@),
        existed == has_node(old(nodes)@, kind, name@),
        !has_node(final(nodes)@, kind, name@),
        forall|nrow: NodeRow| #[trigger]
            final(nodes)@.contains(nrow) == (old(nodes)@.contains(nrow) && !(nrow.kind == kind
                && nrow.name@ == name@)),
{
    let found = find_node(nodes, kind, name);
    let ghost pre = nodes@;
    match found {
        None => {
            proof {
                assert forall|nrow: NodeRow| #[trigger]
                    pre.contains(nrow) == (pre.contains(nrow) && !(nrow.kind == kind && nrow.name@
                        == name@)) by {
                    if pre.contains(nrow) && nrow.kind == kind && nrow.name@ == name@ {
                        let k = choose|k: int| 0 <= k < pre.len() && pre[k] == nrow;
                        assert(has_node(pre, kind, name@));
                    }
                }
            }
            false
        },
        Some(i) => {
            let ghost xi = i as int;
            nodes.remove(i);
            proof {
                let post = nodes@;
                assert forall|nrow: NodeRow| #[trigger]
                    post.contains(nrow) == (pre.contains(nrow) && !(nrow.kind == kind && nrow.name@
                        == name@)) by {
                    if post.contains(nrow) {
                        let k = choose|k: int| 0 <= k < post.len() && post[k] == nrow;
                        let k0 = if k < xi {
                            k
                        } else {
                            k + 1
                        };
                        assert(pre[k0] == nrow);
                        assert(pre.contains(nrow));
                        if nrow.kind == kind && nrow.name@ == name@ {
                            if k0 < xi {
                                assert(!(pre[k0].kind == pre[xi].kind && pre[k0].name@
                                    == pre[xi].name@));
                            } else {
                                assert(!(pre[xi].kind == pre[k0].kind && pre[xi].name@
                                    == pre[k0].name@));
                            }
                            assert(false);
                        }
                    }
                    if pre.contains(nrow) && !(nrow.kind == kind && nrow.name@ == name@) {
                        let k = choose|k: int| 0 <= k < pre.len() && pre[k] == nrow;
                        assert(k != xi);
                        if k < xi {
                            assert(post[k] == nrow);
                        } else {
                            assert(post[k - 1] == nrow);
                        }
                        assert(post.contains(nrow));
                    }
                }
                assert(!has_node(post, kind, name@)) by {
                    if has_node(post, kind, name@) {
                        let k = choose|k: int|
                            0 <= k < post.len() && post[k].kind == kind && post[k].name@ == name@;
                        assert(post.contains(post[k]));
                    }
                }
                assert forall|a: int, b: int| 0 <= a < b < post.len() implies !(post[a].kind
                    == post[b].kind && post[a].name@ == post[b].name@) by {
                    let a0 = if a < xi {
                        a
                    } else {
                        a + 1
                    };
                    let b0 = if b < xi {
                        b
                    } else {
                        b + 1
                    };
                    assert(post[a] == pre[a0]);
                    assert(post[b] == pre[b0]);
                }
            }
            true
        },
    }
}

/// Remove the counter row of `name` when present.
pub fn remove_count(rows: &mut Vec<CountRow>, name: &Vec<u8>)
    requires
        uniq_counts(old(rows)@),
    ensures
        uniq_counts(final(rows)@),
        count_of(final(rows)@, name@) == 0,
        forall|m: Seq<u8>| m != name@ ==> count_of(final(rows)@, m) == count_of(old(rows)@, m),
{
    let found = find_count(rows, name);
    let ghost pre = rows@;
    match found {
        None => {
        },
        Some(i) => {
            let ghost xi = i as int;
            rows.remove(i);
            proof {
                let post = rows@;
                assert forall|a: int, b: int| 0 <= a < b < post.len() implies post[a].name@
                    != post[b].name@ by {
                    let a0 = if a < xi {
                        a
                    } else {
                        a + 1
                    };
                    let b0 = if b < xi {
                        b
                    } else {
                        b + 1
                    };
                    assert(post[a] == pre[a0]);
                    assert(post[b] == pre[b0]);
                }
                assert(count_of(post, name@) == 0) by {
                    if exists|k: int| 0 <= k < post.len() && post[k].name@ == name@ {
                        let k = choose|k: int| 0 <= k < post.len() && post[k].name@ == name@;
                        let k0 = if k < xi {
                            k
                        } else {
                            k + 1
                        };
                        assert(pre[k0].name@ == name@);
                        assert(pre[xi].name@ == name@);
                        if k0 < xi {
                            assert(pre[k0].name@ != pre[xi].name@);
                        } else {
                            assert(pre[xi].name@ != pre[k0].name@);
                        }
                        assert(false);
                    }
                }
                assert forall|m: Seq<u8>| m != name@ implies count_of(post, m) == count_of(
                    pre,
                    m,
                ) by {
                    if exists|k: int| 0 <= k < post.len() && post[k].name@ == m {
                        let k = choose|k: int| 0 <= k < post.len() && post[k].name@ == m;
                        lemma_count_at(post, k);
                        let k0 = if k < xi {
                            k
                        } else {
                            k + 1
                        };
                        assert(pre[k0].name@ == m);
                        lemma_count_at(pre, k0);
                        assert(post[k].count == pre[k0].count);
                    } else {
                        if exists|k: int| 0 <= k < pre.len() && pre[k].name@ == m {
                            let k = choose|k: int| 0 <= k < pre.len() && pre[k].name@ == m;
                            assert(k != xi);
                            if k < xi {
                                assert(post[k].name@ == m);
                            } else {
                                assert(post[k - 1].name@ == m);
                            }
                            assert(false);
                        }
                    }
                }
            }
        },
    }
}

/// Delete an entity: its node, its mention counter, every edge touching
/// its key, and every flat link naming it. Returns how many rows of the
/// node and edge trees were removed.
pub fn delete_entity(
    nodes: &mut Vec<NodeRow>,
    ents: &mut Vec<CountRow>,
    edges: &mut Vec<EdgeRow>,
    links: &mut Vec<LinkRow>,
    entity: &Vec<u8>,
) -> (removed: u64)
    requires
        uniq_nodes(old(nodes)@),
        uniq_counts(old(ents)@),
        uniq_edges(old(edges)@),
        uniq_links(old(links)@),
    ensures
        uniq_nodes(final(nodes)@),
        uniq_counts(final(ents)@),
        uniq_edges(final(edges)@),
        uniq_links(final(links)@),
        !has_node(final(nodes)@, NodeKind::Entity, entity@),
        forall|nrow: NodeRow| #[trigger]
            final(nodes)@.contains(nrow) == (old(nodes)@.contains(nrow) && !(nrow.kind
                == NodeKind::Entity && nrow.name@ == entity@)),
        count_of(final(ents)@, entity@) == 0,
        forall|m: Seq<u8>| m != entity@ ==> count_of(final(ents)@, m) == count_of(old(ents)@, m),
        forall|e: EdgeRow| #[trigger]
            final(edges)@.contains(e) == (old(edges)@.contains(e) && !(e.src@ == node_key_of(
                NodeKind::Entity,
                entity@,
            ) || e.dst@ == node_key_of(NodeKind::Entity, entity@))),
        forall|d: Seq<u8>, e2: Seq<u8>|
            has_link(final(links)@, d, e2) == (has_link(old(links)@, d, e2) && e2 != entity@),
        ({
            let tally = (if has_node(old(nodes)@, NodeKind::Entity, entity@) {
                1int
            } else {
                0int
            }) + (old(edges)@.len() - final(edges)@.len());
            removed == if tally > u64::MAX {
                u64::MAX as int
            } else {
                tally
            }
        }),
{
    let existed = remove_node(nodes, NodeKind::Entity, entity);
    remove_count(ents, entity);
    let key = node_key(NodeKind::Entity, entity);
    let dropped = retain_edges_not_touching(edges, &key);
    retain_links_not_entity(links, entity);
    let base: u64 = if existed {
        1
    } else {
        0
    };
    let sum: u128 = base as u128 + dropped as u128;
    if sum > u64::MAX as u128 {
        u64::MAX
    } else {
        sum as u64
    }
}


/// Drop every edge whose source is `src`; used when a memory is deleted.
pub fn retain_edges_not_src(edges: &mut Vec<EdgeRow>, src: &Vec<u8>)
    requires
        uniq_edges(old(edges)@),
    ensures
        uniq_edges(final(edges)@),
        forall|e: EdgeRow| #[trigger]
            final(edges)@.contains(e) == (old(edges)@.contains(e) && e.src@ != src@),
{
    let ghost total = edges@;
    let n0: usize = edges.len();
    let mut kept: Vec<EdgeRow> = Vec::new();
    proof {
        assert(total.skip(0) =~= edges@);
    }
    while edges.len() > 0
        invariant
            uniq_edges(total),
            total.len() == n0,
            n0 <= usize::MAX,
            edges@ == total.skip(n0 - edges@.len()),
            kept@.len() <= n0 - edges@.len(),
            forall|e: EdgeRow| #[trigger]
                kept@.contains(e) == (exists|k: int|
                    0 <= k < n0 - edges@.len() && total[k] == e && e.src@ != src@),
            forall|a: int, b: int| 0 <= a < b < kept@.len() ==> kept@[a] != kept@[b],
        decreases edges@.len(),
    {
        let ghost p = n0 - edges@.len();
        let x = edges.remove(0);
        proof {
            assert(x == total[p]);
            assert(edges@ =~= total.skip(p + 1));
        }
        let keep = !crate::bytes::bytes_eq(&x.src, src);
        let ghost pk = kept@;
        if keep {
            kept.push(x);
            proof {
                assert forall|e: EdgeRow| #[trigger]
                    kept@.contains(e) == (exists|k: int|
                        0 <= k < p + 1 && total[k] == e && e.src@ != src@) by {
                    if kept@.contains(e) {
                        let a = choose|a: int| 0 <= a < kept@.len() && kept@[a] == e;
                        if a < pk.len() {
                            assert(pk.contains(e));
                            let k = choose|k: int| 0 <= k < p && total[k] == e && e.src@ != src@;
                            assert(0 <= k < p + 1 && total[k] == e);
                        } else {
                            assert(e == x);
                            assert(total[p] == e);
                        }
                    }
                    if exists|k: int| 0 <= k < p + 1 && total[k] == e && e.src@ != src@ {
                        let k = choose|k: int| 0 <= k < p + 1 && total[k] == e && e.src@ != src@;
                        if k == p {
                            assert(kept@[pk.len() as int] == x);
                            assert(kept@.contains(e));
                        } else {
                            assert(pk.contains(e));
                            let a = choose|a: int| 0 <= a < pk.len() && pk[a] == e;
                            assert(kept@[a] == e);
                            assert(kept@.contains(e));
                        }
                    }
                }
                assert forall|a: int, b: int| 0 <= a < b < kept@.len() implies kept@[a]
                    != kept@[b] by {
                    if b == pk.len() {
                        assert(kept@[b] == x);
                        assert(pk.contains(pk[a]));
                        let k = choose|k: int|
                            0 <= k < p && total[k] == pk[a] && pk[a].src@ != src@;
                        if pk[a] == x {
                            assert(total[k].src@ == total[p].src@ && total[k].dst@ == total[p].dst@
                                && total[k].relation == total[p].relation);
                            assert(false);
                        }
                        assert(kept@[a] == pk[a]);
                    } else {
                        assert(kept@[a] == pk[a]);
                        assert(kept@[b] == pk[b]);
                    }
                }
            }
        } else {
            proof {
                assert forall|e: EdgeRow| #[trigger]
                    kept@.contains(e) == (exists|k: int|
                        0 <= k < p + 1 && total[k] == e && e.src@ != src@) by {
                    if kept@.contains(e) {
                        let k = choose|k: int| 0 <= k < p && total[k] == e && e.src@ != src@;
                        assert(0 <= k < p + 1 && total[k] == e);
                    }
                    if exists|k: int| 0 <= k < p + 1 && total[k] == e && e.src@ != src@ {
                        let k = choose|k: int| 0 <= k < p + 1 && total[k] == e && e.src@ != src@;
                        if k == p {
                            assert(e == x);
                            assert(false);
                        } else {
                            assert(kept@.contains(e));
                        }
                    }
                }
            }
        }
    }
    proof {
        assert(uniq_edges(kept@)) by {
            assert forall|a: int, b: int| 0 <= a < b < kept@.len() implies !(kept@[a].src@
                == kept@[b].src@ && kept@[a].dst@ == kept@[b].dst@ && kept@[a].relation
                == kept@[b].relation) by {
                assert(kept@.contains(kept@[a]));
                assert(kept@.contains(kept@[b]));
                let ka = choose|k: int|
                    0 <= k < n0 && total[k] == kept@[a] && kept@[a].src@ != src@;
                let kb = choose|k: int|
                    0 <= k < n0 && total[k] == kept@[b] && kept@[b].src@ != src@;
                if ka == kb {
                    assert(kept@[a] == kept@[b]);
                    assert(false);
                } else if ka < kb {
                    assert(!(total[ka].src@ == total[kb].src@ && total[ka].dst@ == total[kb].dst@
                        && total[ka].relation == total[kb].relation));
                } else {
                    assert(!(total[kb].src@ == total[ka].src@ && total[kb].dst@ == total[ka].dst@
                        && total[kb].relation == total[ka].relation));
                }
            }
        }
    }
    let out = kept;
    *edges = out;
    proof {
        assert forall|e: EdgeRow| #[trigger]
            final(edges)@.contains(e) == (total.contains(e) && e.src@ != src@) by {
            if total.contains(e) && e.src@ != src@ {
                let k = choose|k: int| 0 <= k < total.len() && total[k] == e;
                assert(final(edges)@.contains(e));
            }
        }
    }
}


/// The hit carries the name and (range-capped) count of some counter row.
pub open spec fn counter_pair(ents: Seq<CountRow>, h: crate::hits::ScoredId) -> bool {
    exists|j: int|
        0 <= j < ents.len() && (#[trigger] ents[j]).name@ == h.id@ && (ents[j].count as int
            == h.score_milli as int || (ents[j].count > i64::MAX as u64 && h.score_milli
            == i64::MAX))
}

/// List entities with their mention counts, best counted first, at most
/// `limit` of them. Counts above the score range are reported at its top.
pub fn list_entities(ents: &Vec<CountRow>, limit: usize) -> (r: Vec<crate::hits::ScoredId>)
    ensures
        crate::hits::sorted_desc(r@),
        r@.len() == if limit <= ents@.len() {
            limit as int
        } else {
            ents@.len() as int
        },
        forall|i: int| 0 <= i < r@.len() ==> counter_pair(ents@, #[trigger] r@[i]),
{
    let n: usize = ents.len();
    let mut scored: Vec<crate::hits::ScoredId> = Vec::new();
    let mut i: usize = 0;
    while i < n
        invariant
            n == ents@.len(),
            i <= n,
            scored@.len() == i,
            forall|k: int|
                0 <= k < i ==> (#[trigger] scored@[k]).id@ == ents@[k].name@ && (ents@[k].count
                    as int == scored@[k].score_milli as int || (ents@[k].count > i64::MAX as u64
                    && scored@[k].score_milli == i64::MAX)),
        decreases n - i,
    {
        let c = ents[i].count;
        let sc: i64 = if c > i64::MAX as u64 {
            i64::MAX
        } else {
            c as i64
        };
        scored.push(
            crate::hits::ScoredId { id: crate::bytes::copy_bytes(&ents[i].name), score_milli: sc },
        );
        i = i + 1;
    }
    let ghost mapped = scored@;
    let r = crate::hits::top_k_desc(scored, limit);
    proof {
        mapped.to_multiset_ensures();
        assert forall|i2: int| 0 <= i2 < r@.len() implies counter_pair(
            ents@,
            #[trigger] r@[i2],
        ) by {
            assert(mapped.to_multiset().contains(r@[i2]));
            assert(mapped.contains(r@[i2]));
            let k = choose|k: int| 0 <= k < mapped.len() && mapped[k] == r@[i2];
            assert(ents@[k].name@ == r@[i2].id@);
        }
    }
    r
}

} // verus!
