//! The memory store: adding, searching, updating and deleting memories,
//! with the text-index, embedding, reference and knowledge-graph side
//! effects of each operation.

use vstd::prelude::*;
use crate::store::{
    MemEmbRow, MemoryRecord, RefRow, TextKey, TextRow, find_mem, find_mem_emb, find_mem_text,
    has_mem, has_mem_emb, has_mem_text, has_ref_for_mem, text_key_view, uniq_mem_embs, uniq_mems,
    uniq_refs, uniq_texts,
};

verus! {

/// ASCII whitespace: space, tab, and the line-control bytes.
pub open spec fn is_space(b: u8) -> bool {
    b == 32 || b == 9 || b == 10 || b == 11 || b == 12 || b == 13
}

/// A byte string is blank when every byte is whitespace.
pub open spec fn is_blank(s: Seq<u8>) -> bool {
    forall|i: int| 0 <= i < s.len() ==> is_space(s[i])
}

/// Exec test for blankness.
pub fn check_blank(s: &Vec<u8>) -> (r: bool)
    ensures
        r == is_blank(s@),
{
    let n: usize = s.len();
    let mut i: usize = 0;
    while i < n
        invariant
            n == s@.len(),
            i <= n,
            forall|j: int| 0 <= j < i ==> is_space(s@[j]),
        decreases n - i,
    {
        let b = s[i];
        if !(b == 32 || b == 9 || b == 10 || b == 11 || b == 12 || b == 13) {
            assert(!is_space(s@[i as int]));
            return false;
        }
        i = i + 1;
    }
    true
}

/// The memory record keyed by `id`, when present.
pub open spec fn mem_at(s: Seq<MemoryRecord>, id: Seq<u8>) -> Option<MemoryRecord> {
    if has_mem(s, id) {
        Some(s[choose|i: int| 0 <= i < s.len() && s[i].id@ == id])
    } else {
        None
    }
}

/// With unique ids, `mem_at` reads the row at any matching index.
pub proof fn lemma_mem_at(s: Seq<MemoryRecord>, i: int)
    requires
        uniq_mems(s),
        0 <= i < s.len(),
    ensures
        mem_at(s, s[i].id@) == Some(s[i]),
{
    let id = s[i].id@;
    assert(has_mem(s, id)) by {
        assert(s[i].id@ == id);
    }
    let k = choose|k: int| 0 <= k < s.len() && s[k].id@ == id;
    if k < i {
        assert(s[k].id@ != s[i].id@);
        assert(false);
    } else if i < k {
        assert(s[i].id@ != s[k].id@);
        assert(false);
    }
}

/// The text stored for a memory, when present.
pub open spec fn mem_text_of(s: Seq<TextRow>, id: Seq<u8>) -> Option<Seq<u8>> {
    if has_mem_text(s, id) {
        Some(s[choose|i: int| 0 <= i < s.len() && text_key_view(s[i].key) == (1int, id, 0int)].text@)
    } else {
        None
    }
}

/// With unique keys, `mem_text_of` reads the row at any matching index.
pub proof fn lemma_mem_text_at(s: Seq<TextRow>, i: int, id: Seq<u8>)
    requires
        uniq_texts(s),
        0 <= i < s.len(),
        text_key_view(s[i].key) == (1int, id, 0int),
    ensures
        mem_text_of(s, id) == Some(s[i].text@),
{
    assert(has_mem_text(s, id)) by {
        assert(text_key_view(s[i].key) == (1int, id, 0int));
    }
    let k = choose|k: int| 0 <= k < s.len() && text_key_view(s[k].key) == (1int, id, 0int);
    if k < i {
        assert(text_key_view(s[k].key) != text_key_view(s[i].key));
        assert(false);
    } else if i < k {
        assert(text_key_view(s[i].key) != text_key_view(s[k].key));
        assert(false);
    }
}

/// The packed embedding stored for a memory, when present.
pub open spec fn mem_emb_of(s: Seq<MemEmbRow>, id: Seq<u8>) -> Option<Seq<u8>> {
    if has_mem_emb(s, id) {
        Some(s[choose|i: int| 0 <= i < s.len() && s[i].mem_id@ == id].bytes@)
    } else {
        None
    }
}

/// With unique ids, `mem_emb_of` reads the row at any matching index.
pub proof fn lemma_mem_emb_at(s: Seq<MemEmbRow>, i: int)
    requires
        uniq_mem_embs(s),
        0 <= i < s.len(),
    ensures
        mem_emb_of(s, s[i].mem_id@) == Some(s[i].bytes@),
{
    let id = s[i].mem_id@;
    assert(has_mem_emb(s, id)) by {
        assert(s[i].mem_id@ == id);
    }
    let k = choose|k: int| 0 <= k < s.len() && s[k].mem_id@ == id;
    if k < i {
        assert(s[k].mem_id@ != s[i].mem_id@);
        assert(false);
    } else if i < k {
        assert(s[i].mem_id@ != s[k].mem_id@);
        assert(false);
    }
}

/// Is some reference row keyed by the triple?
pub open spec fn has_ref(s: Seq<RefRow>, m: Seq<u8>, d: Seq<u8>, c: Seq<u8>) -> bool {
    exists|i: int|
        0 <= i < s.len() && s[i].mem_id@ == m && s[i].doc_id@ == d && s[i].chunk_id@ == c
}

/// Is some reference row keyed by the triple, carrying this score?
pub open spec fn has_ref_scored(
    s: Seq<RefRow>,
    m: Seq<u8>,
    d: Seq<u8>,
    c: Seq<u8>,
    score: i64,
) -> bool {
    exists|i: int|
        0 <= i < s.len() && (#[trigger] s[i]).mem_id@ == m && s[i].doc_id@ == d && s[i].chunk_id@
            == c && s[i].score_milli == score
}

/// Store or replace the text of a memory.
pub fn upsert_mem_text(rows: &mut Vec<TextRow>, id: &Vec<u8>, content: &Vec<u8>)
    requires
        uniq_texts(old(rows)@),
    ensures
        uniq_texts(final(rows)@),
        mem_text_of(final(rows)@, id@) == Some(content@),
        forall|id2: Seq<u8>|
            id2 != id@ ==> mem_text_of(final(rows)@, id2) == mem_text_of(old(rows)@, id2),
        forall|r: TextRow|
            old(rows)@.contains(r) && text_key_view(r.key) != (1int, id@, 0int)
                ==> final(rows)@.contains(r),
        forall|r: TextRow|
            final(rows)@.contains(r) ==> (old(rows)@.contains(r) || text_key_view(r.key) == (
                1int,
                id@,
                0int,
            )),
{
    let found = find_mem_text(rows, id);
    let ghost pre = rows@;
    let id2 = crate::bytes::copy_bytes(id);
    let c2 = crate::bytes::copy_bytes(content);
    let row = TextRow { key: TextKey::Mem { mem_id: id2 }, text: c2 };
    proof {
        assert(text_key_view(row.key) == (1int, id@, 0int));
    }
    match found {
        Some(i) => {
            let ghost xi = i as int;
            rows.set(i, row);
            proof {
                let post = rows@;
                assert(uniq_texts(post)) by {
                    assert forall|a: int, b: int| 0 <= a < b < post.len() implies text_key_view(
                        post[a].key,
                    ) != text_key_view(post[b].key) by {
                        if a != xi && b != xi {
                            assert(post[a] == pre[a]);
                            assert(post[b] == pre[b]);
                        } else if a == xi {
                            assert(post[b] == pre[b]);
                            assert(text_key_view(post[a].key) == text_key_view(pre[xi].key));
                        } else {
                            assert(post[a] == pre[a]);
                            assert(text_key_view(post[b].key) == text_key_view(pre[xi].key));
                        }
                    }
                }
                lemma_mem_text_at(post, xi, id@);
                assert forall|r: TextRow|
                    old(rows)@.contains(r) && text_key_view(r.key) != (1int, id@, 0int)
                        implies post.contains(r) by {
                    let k = choose|k: int| 0 <= k < pre.len() && pre[k] == r;
                    assert(k != xi);
                    assert(post[k] == r);
                }
                assert forall|id2s: Seq<u8>| id2s != id@ implies mem_text_of(post, id2s)
                    == mem_text_of(pre, id2s) by {
                    if has_mem_text(post, id2s) {
                        let k = choose|k: int|
                            0 <= k < post.len() && text_key_view(post[k].key) == (1int, id2s, 0int);
                        assert(k != xi);
                        assert(post[k] == pre[k]);
                        lemma_mem_text_at(post, k, id2s);
                        lemma_mem_text_at(pre, k, id2s);
                    } else {
                        if has_mem_text(pre, id2s) {
                            let k = choose|k: int|
                                0 <= k < pre.len() && text_key_view(pre[k].key) == (
                                    1int,
                                    id2s,
                                    0int,
                                );
                            assert(k != xi);
                            assert(text_key_view(post[k].key) == (1int, id2s, 0int));
                            assert(false);
                        }
                    }
                }
            }
        },
        None => {
            rows.push(row);
            proof {
                let post = rows@;
                let xi = pre.len() as int;
                assert(text_key_view(post[xi].key) == (1int, id@, 0int));
                assert(uniq_texts(post)) by {
                    assert forall|a: int, b: int| 0 <= a < b < post.len() implies text_key_view(
                        post[a].key,
                    ) != text_key_view(post[b].key) by {
                        if b == xi {
                            assert(post[a] == pre[a]);
                            if text_key_view(pre[a].key) == (1int, id@, 0int) {
                                assert(has_mem_text(pre, id@));
                                assert(false);
                            }
                        } else {
                            assert(post[a] == pre[a]);
                            assert(post[b] == pre[b]);
                        }
                    }
                }
                lemma_mem_text_at(post, xi, id@);
                assert forall|r: TextRow|
                    old(rows)@.contains(r) && text_key_view(r.key) != (1int, id@, 0int)
                        implies post.contains(r) by {
                    let k = choose|k: int| 0 <= k < pre.len() && pre[k] == r;
                    assert(post[k] == r);
                }
                assert forall|id2s: Seq<u8>| id2s != id@ implies mem_text_of(post, id2s)
                    == mem_text_of(pre, id2s) by {
                    if has_mem_text(post, id2s) {
                        let k = choose|k: int|
                            0 <= k < post.len() && text_key_view(post[k].key) == (1int, id2s, 0int);
                        assert(k != xi);
                        assert(post[k] == pre[k]);
                        lemma_mem_text_at(post, k, id2s);
                        lemma_mem_text_at(pre, k, id2s);
                    } else {
                        if has_mem_text(pre, id2s) {
                            let k = choose|k: int|
                                0 <= k < pre.len() && text_key_view(pre[k].key) == (
                                    1int,
                                    id2s,
                                    0int,
                                );
                            assert(text_key_view(post[k].key) == (1int, id2s, 0int));
                            assert(false);
                        }
                    }
                }
            }
        },
    }
}

/// Store or replace the packed embedding of a memory.
pub fn upsert_mem_emb(rows: &mut Vec<MemEmbRow>, id: &Vec<u8>, bytes: Vec<u8>)
    requires
        uniq_mem_embs(old(rows)@),
    ensures
        uniq_mem_embs(final(rows)@),
        mem_emb_of(final(rows)@, id@) == Some(bytes@),
        forall|id2: Seq<u8>|
            id2 != id@ ==> mem_emb_of(final(rows)@, id2) == mem_emb_of(old(rows)@, id2),
        forall|i: int| #![trigger final(rows)@[i]]
            0 <= i < final(rows)@.len() ==> (final(rows)@[i].mem_id@ == id@
                && final(rows)@[i].bytes@ == bytes@) || (exists|j: int|
                0 <= j < old(rows)@.len() && old(rows)@[j] == final(rows)@[i]),
{
    let found = find_mem_emb(rows, id);
    let ghost pre = rows@;
    let id2 = crate::bytes::copy_bytes(id);
    let row = MemEmbRow { mem_id: id2, bytes };
    let ghost the_row = row;
    match found {
        Some(i) => {
            let ghost xi = i as int;
            rows.set(i, row);
            proof {
                let post = rows@;
                assert(uniq_mem_embs(post)) by {
                    assert forall|a: int, b: int| 0 <= a < b < post.len() implies post[a].mem_id@
                        != post[b].mem_id@ by {
                        assert(post[a].mem_id@ == pre[a].mem_id@);
                        assert(post[b].mem_id@ == pre[b].mem_id@);
                    }
                }
                lemma_mem_emb_at(post, xi);
                assert forall|id2s: Seq<u8>| id2s != id@ implies mem_emb_of(post, id2s)
                    == mem_emb_of(pre, id2s) by {
                    if has_mem_emb(post, id2s) {
                        let k = choose|k: int| 0 <= k < post.len() && post[k].mem_id@ == id2s;
                        assert(k != xi);
                        assert(post[k] == pre[k]);
                        lemma_mem_emb_at(post, k);
                        lemma_mem_emb_at(pre, k);
                    } else {
                        if has_mem_emb(pre, id2s) {
                            let k = choose|k: int| 0 <= k < pre.len() && pre[k].mem_id@ == id2s;
                            assert(k != xi);
                            assert(post[k].mem_id@ == id2s);
                            assert(false);
                        }
                    }
                }
                assert forall|i2: int| #![trigger post[i2]] 0 <= i2 < post.len() implies (
                post[i2].mem_id@ == id@ && post[i2].bytes@ == bytes@) || (exists|j: int|
                    0 <= j < pre.len() && pre[j] == post[i2]) by {
                    if i2 != xi {
                        assert(pre[i2] == post[i2]);
                    }
                }
            }
        },
        None => {
            rows.push(row);
            proof {
                let post = rows@;
                let xi = pre.len() as int;
                assert(post[xi].mem_id@ == id@);
                assert(uniq_mem_embs(post)) by {
                    assert forall|a: int, b: int| 0 <= a < b < post.len() implies post[a].mem_id@
                        != post[b].mem_id@ by {
                        if b == xi {
                            assert(post[a] == pre[a]);
                            if pre[a].mem_id@ == id@ {
                                assert(has_mem_emb(pre, id@));
                                assert(false);
                            }
                        } else {
                            assert(post[a] == pre[a]);
                            assert(post[b] == pre[b]);
                        }
                    }
                }
                lemma_mem_emb_at(post, xi);
                assert forall|id2s: Seq<u8>| id2s != id@ implies mem_emb_of(post, id2s)
                    == mem_emb_of(pre, id2s) by {
                    if has_mem_emb(post, id2s) {
                        let k = choose|k: int| 0 <= k < post.len() && post[k].mem_id@ == id2s;
                        assert(k != xi);
                        assert(post[k] == pre[k]);
                        lemma_mem_emb_at(post, k);
                        lemma_mem_emb_at(pre, k);
                    } else {
                        if has_mem_emb(pre, id2s) {
                            let k = choose|k: int| 0 <= k < pre.len() && pre[k].mem_id@ == id2s;
                            assert(post[k].mem_id@ == id2s);
                            assert(false);
                        }
                    }
                }
                assert forall|i2: int| #![trigger post[i2]] 0 <= i2 < post.len() implies (
                post[i2].mem_id@ == id@ && post[i2].bytes@ == bytes@) || (exists|j: int|
                    0 <= j < pre.len() && pre[j] == post[i2]) by {
                    if i2 != xi {
                        assert(pre[i2] == post[i2]);
                    }
                }
            }
        },
    }
}


// ---------------------------------------------------------------------------
// Adding a memory
// ---------------------------------------------------------------------------

/// A caller-supplied document reference.
pub struct RefInput {
    pub doc_id: Vec<u8>,
    pub chunk_id: Option<Vec<u8>>,
    pub score_milli: Option<i64>,
}

/// Store or replace the reference row keyed by the triple.
pub fn upsert_ref(rows: &mut Vec<RefRow>, m: &Vec<u8>, d: &Vec<u8>, c: &Vec<u8>, score_milli: i64)
    requires
        uniq_refs(old(rows)@),
    ensures
        uniq_refs(final(rows)@),
        has_ref(final(rows)@, m@, d@, c@),
        has_ref_scored(final(rows)@, m@, d@, c@, score_milli),
        forall|m2: Seq<u8>, d2: Seq<u8>, c2: Seq<u8>|
            has_ref(old(rows)@, m2, d2, c2) ==> has_ref(final(rows)@, m2, d2, c2),
        forall|m2: Seq<u8>, d2: Seq<u8>, c2: Seq<u8>, sc: i64|
            has_ref_scored(old(rows)@, m2, d2, c2, sc) && !(m2 == m@ && d2 == d@ && c2 == c@)
                ==> has_ref_scored(final(rows)@, m2, d2, c2, sc),
        forall|m2: Seq<u8>, d2: Seq<u8>, c2: Seq<u8>|
            has_ref(final(rows)@, m2, d2, c2) ==> (has_ref(old(rows)@, m2, d2, c2) || (m2 == m@
                && d2 == d@ && c2 == c@)),
{
    let n: usize = rows.len();
    let mut i: usize = 0;
    while i < n
        invariant
            n == rows@.len(),
            i <= n,
            *rows == *old(rows),
            uniq_refs(rows@),
            forall|j: int|
                0 <= j < i ==> !(rows@[j].mem_id@ == m@ && rows@[j].doc_id@ == d@
                    && rows@[j].chunk_id@ == c@),
        decreases n - i,
    {
        if crate::bytes::bytes_eq(&rows[i].mem_id, m) && crate::bytes::bytes_eq(&rows[i].doc_id, d)
            && crate::bytes::bytes_eq(&rows[i].chunk_id, c) {
            let ghost pre = rows@;
            let ghost xi = i as int;
            let row = RefRow {
                mem_id: crate::bytes::copy_bytes(m),
                doc_id: crate::bytes::copy_bytes(d),
                chunk_id: crate::bytes::copy_bytes(c),
                score_milli,
            };
            rows.set(i, row);
            proof {
                let post = rows@;
                assert(post[xi].mem_id@ == m@ && post[xi].doc_id@ == d@ && post[xi].chunk_id@
                    == c@);
                assert(uniq_refs(post)) by {
                    assert forall|a: int, b: int| 0 <= a < b < post.len() implies !(post[a].mem_id@
                        == post[b].mem_id@ && post[a].doc_id@ == post[b].doc_id@
                        && post[a].chunk_id@ == post[b].chunk_id@) by {
                        let pa = if a == xi {
                            pre[xi]
                        } else {
                            pre[a]
                        };
                        let pb = if b == xi {
                            pre[xi]
                        } else {
                            pre[b]
                        };
                        assert(post[a].mem_id@ == pa.mem_id@ && post[a].doc_id@ == pa.doc_id@
                            && post[a].chunk_id@ == pa.chunk_id@);
                        assert(post[b].mem_id@ == pb.mem_id@ && post[b].doc_id@ == pb.doc_id@
                            && post[b].chunk_id@ == pb.chunk_id@);
                    }
                }
                assert forall|m2: Seq<u8>, d2: Seq<u8>, c2: Seq<u8>|
                    has_ref(pre, m2, d2, c2) implies has_ref(post, m2, d2, c2) by {
                    let k = choose|k: int|
                        0 <= k < pre.len() && pre[k].mem_id@ == m2 && pre[k].doc_id@ == d2
                            && pre[k].chunk_id@ == c2;
                    if k == xi {
                        assert(post[xi].mem_id@ == m2 && post[xi].doc_id@ == d2
                            && post[xi].chunk_id@ == c2);
                    } else {
                        assert(post[k] == pre[k]);
                    }
                }
                assert forall|m2: Seq<u8>, d2: Seq<u8>, c2: Seq<u8>, sc: i64|
                    has_ref_scored(pre, m2, d2, c2, sc) && !(m2 == m@ && d2 == d@ && c2
                        == c@) implies has_ref_scored(post, m2, d2, c2, sc) by {
                    let k = choose|k: int|
                        0 <= k < pre.len() && (#[trigger] pre[k]).mem_id@ == m2 && pre[k].doc_id@
                            == d2 && pre[k].chunk_id@ == c2 && pre[k].score_milli == sc;
                    assert(k != xi);
                    assert(post[k] == pre[k]);
                }
                assert forall|m2: Seq<u8>, d2: Seq<u8>, c2: Seq<u8>|
                    has_ref(post, m2, d2, c2) implies (has_ref(pre, m2, d2, c2) || (m2 == m@ && d2
                        == d@ && c2 == c@)) by {
                    let k = choose|k: int|
                        0 <= k < post.len() && post[k].mem_id@ == m2 && post[k].doc_id@ == d2
                            && post[k].chunk_id@ == c2;
                    if k != xi {
                        assert(post[k] == pre[k]);
                    }
                }
            }
            return;
        }
        i = i + 1;
    }
    let ghost pre = rows@;
    let row = RefRow {
        mem_id: crate::bytes::copy_bytes(m),
        doc_id: crate::bytes::copy_bytes(d),
        chunk_id: crate::bytes::copy_bytes(c),
        score_milli,
    };
    rows.push(row);
    proof {
        let post = rows@;
        let xi = pre.len() as int;
        assert(post[xi].mem_id@ == m@ && post[xi].doc_id@ == d@ && post[xi].chunk_id@ == c@);
        assert(uniq_refs(post)) by {
            assert forall|a: int, b: int| 0 <= a < b < post.len() implies !(post[a].mem_id@
                == post[b].mem_id@ && post[a].doc_id@ == post[b].doc_id@ && post[a].chunk_id@
                == post[b].chunk_id@) by {
                if b == xi {
                    assert(post[a] == pre[a]);
                } else {
                    assert(post[a] == pre[a]);
                    assert(post[b] == pre[b]);
                }
            }
        }
        assert forall|m2: Seq<u8>, d2: Seq<u8>, c2: Seq<u8>|
            has_ref(pre, m2, d2, c2) implies has_ref(post, m2, d2, c2) by {
            let k = choose|k: int|
                0 <= k < pre.len() && pre[k].mem_id@ == m2 && pre[k].doc_id@ == d2
                    && pre[k].chunk_id@ == c2;
            assert(post[k] == pre[k]);
        }
        assert forall|m2: Seq<u8>, d2: Seq<u8>, c2: Seq<u8>, sc: i64|
            has_ref_scored(pre, m2, d2, c2, sc) && !(m2 == m@ && d2 == d@ && c2 == c@) implies
            has_ref_scored(post, m2, d2, c2, sc) by {
            let k = choose|k: int|
                0 <= k < pre.len() && (#[trigger] pre[k]).mem_id@ == m2 && pre[k].doc_id@ == d2
                    && pre[k].chunk_id@ == c2 && pre[k].score_milli == sc;
            assert(post[k] == pre[k]);
        }
        assert forall|m2: Seq<u8>, d2: Seq<u8>, c2: Seq<u8>|
            has_ref(post, m2, d2, c2) implies (has_ref(pre, m2, d2, c2) || (m2 == m@ && d2 == d@
                && c2 == c@)) by {
            let k = choose|k: int|
                0 <= k < post.len() && post[k].mem_id@ == m2 && post[k].doc_id@ == d2
                    && post[k].chunk_id@ == c2;
            if k != xi {
                assert(post[k] == pre[k]);
            }
        }
    }
}

/// Store or replace the memory record keyed by its id.
pub fn upsert_mem_rec(rows: &mut Vec<MemoryRecord>, rec: MemoryRecord)
    requires
        uniq_mems(old(rows)@),
    ensures
        uniq_mems(final(rows)@),
        mem_at(final(rows)@, rec.id@) == Some(rec),
        forall|id2: Seq<u8>| id2 != rec.id@ ==> mem_at(final(rows)@, id2) == mem_at(old(rows)@, id2),
        final(rows)@.len() == old(rows)@.len() + if has_mem(old(rows)@, rec.id@) {
            0int
        } else {
            1int
        },
{
    let found = find_mem(rows, &rec.id);
    let ghost pre = rows@;
    let ghost the_rec = rec;
    match found {
        Some(i) => {
            let ghost xi = i as int;
            rows.set(i, rec);
            proof {
                let post = rows@;
                assert(uniq_mems(post)) by {
                    assert forall|a: int, b: int| 0 <= a < b < post.len() implies post[a].id@
                        != post[b].id@ by {
                        assert(post[a].id@ == pre[a].id@);
                        assert(post[b].id@ == pre[b].id@);
                    }
                }
                lemma_mem_at(post, xi);
                assert forall|id2: Seq<u8>| id2 != the_rec.id@ implies mem_at(post, id2) == mem_at(
                    pre,
                    id2,
                ) by {
                    if has_mem(post, id2) {
                        let k = choose|k: int| 0 <= k < post.len() && post[k].id@ == id2;
                        assert(k != xi);
                        assert(post[k] == pre[k]);
                        lemma_mem_at(post, k);
                        lemma_mem_at(pre, k);
                    } else {
                        if has_mem(pre, id2) {
                            let k = choose|k: int| 0 <= k < pre.len() && pre[k].id@ == id2;
                            assert(k != xi);
                            assert(post[k].id@ == id2);
                            assert(false);
                        }
                    }
                }
            }
        },
        None => {
            rows.push(rec);
            proof {
                let post = rows@;
                let xi = pre.len() as int;
                assert(post[xi] == the_rec);
                assert(uniq_mems(post)) by {
                    assert forall|a: int, b: int| 0 <= a < b < post.len() implies post[a].id@
                        != post[b].id@ by {
                        if b == xi {
                            assert(post[a] == pre[a]);
                            if pre[a].id@ == the_rec.id@ {
                                assert(has_mem(pre, the_rec.id@));
                                assert(false);
                            }
                        } else {
                            assert(post[a] == pre[a]);
                            assert(post[b] == pre[b]);
                        }
                    }
                }
                lemma_mem_at(post, xi);
                assert forall|id2: Seq<u8>| id2 != the_rec.id@ implies mem_at(post, id2) == mem_at(
                    pre,
                    id2,
                ) by {
                    if has_mem(post, id2) {
                        let k = choose|k: int| 0 <= k < post.len() && post[k].id@ == id2;
                        assert(k != xi);
                        assert(post[k] == pre[k]);
                        lemma_mem_at(post, k);
                        lemma_mem_at(pre, k);
                    } else {
                        if has_mem(pre, id2) {
                            let k = choose|k: int| 0 <= k < pre.len() && pre[k].id@ == id2;
                            assert(post[k].id@ == id2);
                            assert(false);
                        }
                    }
                }
            }
        },
    }
}

/// Ensure an `Entity` node and a `Mentions` edge from the memory to each
/// of its entities.
pub fn link_mem_entities(
    nodes: &mut Vec<crate::store::NodeRow>,
    edges: &mut Vec<crate::store::EdgeRow>,
    mem_id: &Vec<u8>,
    ents: &Vec<Vec<u8>>,
    now_ms: i64,
)
    requires
        crate::store::uniq_nodes(old(nodes)@),
        crate::store::uniq_edges(old(edges)@),
    ensures
        crate::store::uniq_nodes(final(nodes)@),
        crate::store::uniq_edges(final(edges)@),
        forall|e: Seq<u8>| #[trigger] crate::order::views(ents@).contains(e) ==> {
            &&& crate::store::has_node(final(nodes)@, crate::store::NodeKind::Entity, e)
            &&& crate::store::has_edge(
                final(edges)@,
                crate::kg::node_key_of(crate::store::NodeKind::Memory, mem_id@),
                crate::kg::node_key_of(crate::store::NodeKind::Entity, e),
                crate::store::Relation::Mentions,
            )
        },
        forall|k2: crate::store::NodeKind, n2: Seq<u8>|
            crate::store::has_node(old(nodes)@, k2, n2) ==> crate::store::has_node(
                final(nodes)@,
                k2,
                n2,
            ),
        forall|s2: Seq<u8>, d2: Seq<u8>, r2: crate::store::Relation|
            crate::store::has_edge(old(edges)@, s2, d2, r2) ==> crate::store::has_edge(
                final(edges)@,
                s2,
                d2,
                r2,
            ),
{
    let n: usize = ents.len();
    let mut i: usize = 0;
    while i < n
        invariant
            n == ents@.len(),
            i <= n,
            crate::store::uniq_nodes(nodes@),
            crate::store::uniq_edges(edges@),
            forall|j: int| 0 <= j < i ==> {
                &&& crate::store::has_node(
                    nodes@,
                    crate::store::NodeKind::Entity,
                    #[trigger] ents@[j]@,
                )
                &&& crate::store::has_edge(
                    edges@,
                    crate::kg::node_key_of(crate::store::NodeKind::Memory, mem_id@),
                    crate::kg::node_key_of(crate::store::NodeKind::Entity, ents@[j]@),
                    crate::store::Relation::Mentions,
                )
            },
            forall|k2: crate::store::NodeKind, n2: Seq<u8>|
                crate::store::has_node(old(nodes)@, k2, n2) ==> crate::store::has_node(
                    nodes@,
                    k2,
                    n2,
                ),
            forall|s2: Seq<u8>, d2: Seq<u8>, r2: crate::store::Relation|
                crate::store::has_edge(old(edges)@, s2, d2, r2) ==> crate::store::has_edge(
                    edges@,
                    s2,
                    d2,
                    r2,
                ),
        decreases n - i,
    {
        let e = crate::bytes::copy_bytes(&ents[i]);
        let ghost ev = e@;
        crate::kg::ensure_entity_node(nodes, e, now_ms);
        let src = crate::kg::node_key(crate::store::NodeKind::Memory, mem_id);
        let dst = crate::kg::node_key(crate::store::NodeKind::Entity, &ents[i]);
        crate::kg::add_edge_generic(
            edges,
            src,
            dst,
            crate::store::Relation::Mentions,
            None,
            now_ms,
        );
        i = i + 1;
    }
    proof {
        assert forall|e: Seq<u8>| #[trigger] crate::order::views(ents@).contains(e) implies {
            &&& crate::store::has_node(nodes@, crate::store::NodeKind::Entity, e)
            &&& crate::store::has_edge(
                edges@,
                crate::kg::node_key_of(crate::store::NodeKind::Memory, mem_id@),
                crate::kg::node_key_of(crate::store::NodeKind::Entity, e),
                crate::store::Relation::Mentions,
            )
        } by {
            let j = choose|j: int|
                0 <= j < crate::order::views(ents@).len() && crate::order::views(ents@)[j] == e;
            assert(ents@[j]@ == e);
        }
    }
}


/// The chunk bytes of an optional chunk id: the bytes, or empty.
pub open spec fn chunk_key_of(c: Option<Vec<u8>>) -> Seq<u8> {
    match c {
        Some(v) => v@,
        None => Seq::empty(),
    }
}

/// Copy an optional byte string.
pub fn opt_copy(v: &Option<Vec<u8>>) -> (r: Option<Vec<u8>>)
    ensures
        (r is Some) == (v is Some),
        r matches Some(x) ==> (v matches Some(y) && x@ == y@),
{
    match v {
        Some(b) => Some(crate::bytes::copy_bytes(b)),
        None => None,
    }
}

/// Link a memory to its referenced documents: ensure each document node,
/// write an `Evidence` edge and a reference row, and return the outgoing
/// reference list for the record. A caller-supplied score is kept; an
/// omitted one defaults to the Jaccard overlap (in thousandths, capped at
/// 1000) of the memory's entities against the document's linked entities.
pub fn apply_references(
    nodes: &mut Vec<crate::store::NodeRow>,
    edges: &mut Vec<crate::store::EdgeRow>,
    ref_rows: &mut Vec<RefRow>,
    links: &Vec<crate::store::LinkRow>,
    mem_id: &Vec<u8>,
    mem_ents: &Vec<Vec<u8>>,
    refs: &Vec<RefInput>,
    now_ms: i64,
) -> (out: Vec<crate::store::DocRefOut>)
    requires
        crate::store::uniq_nodes(old(nodes)@),
        crate::store::uniq_edges(old(edges)@),
        uniq_refs(old(ref_rows)@),
    ensures
        crate::store::uniq_nodes(final(nodes)@),
        crate::store::uniq_edges(final(edges)@),
        uniq_refs(final(ref_rows)@),
        out@.len() == refs@.len(),
        forall|k: int| 0 <= k < refs@.len() ==> {
            let score = (match refs@[k].score_milli {
                Some(v) => v as int,
                None => crate::kg::jaccard_milli(
                    crate::order::views(mem_ents@),
                    crate::kg::ents_of_doc(links@, refs@[k].doc_id@),
                ),
            });
            &&& crate::store::has_node(
                final(nodes)@,
                crate::store::NodeKind::Document,
                (#[trigger] refs@[k]).doc_id@,
            )
            &&& crate::store::has_edge(
                final(edges)@,
                crate::kg::node_key_of(crate::store::NodeKind::Memory, mem_id@),
                crate::kg::node_key_of(crate::store::NodeKind::Document, refs@[k].doc_id@),
                crate::store::Relation::Evidence,
            )
            &&& has_ref(final(ref_rows)@, mem_id@, refs@[k].doc_id@, chunk_key_of(refs@[k].chunk_id))
            &&& ((forall|k2: int|
                k < k2 < refs@.len() ==> !((#[trigger] refs@[k2]).doc_id@ == refs@[k].doc_id@
                    && chunk_key_of(refs@[k2].chunk_id) == chunk_key_of(refs@[k].chunk_id)))
                ==> has_ref_scored(
                final(ref_rows)@,
                mem_id@,
                refs@[k].doc_id@,
                chunk_key_of(refs@[k].chunk_id),
                score as i64,
            ))
            &&& out@[k].doc_id@ == refs@[k].doc_id@
            &&& out@[k].score_milli == Some(score as i64)
            &&& ((out@[k].chunk_id is Some) == (refs@[k].chunk_id is Some))
        },
        forall|k2: crate::store::NodeKind, n2: Seq<u8>|
            crate::store::has_node(old(nodes)@, k2, n2) ==> crate::store::has_node(
                final(nodes)@,
                k2,
                n2,
            ),
        forall|s2: Seq<u8>, d2: Seq<u8>, r2: crate::store::Relation|
            crate::store::has_edge(old(edges)@, s2, d2, r2) ==> crate::store::has_edge(
                final(edges)@,
                s2,
                d2,
                r2,
            ),
        forall|m2: Seq<u8>, d2: Seq<u8>, c2: Seq<u8>|
            has_ref(old(ref_rows)@, m2, d2, c2) ==> has_ref(final(ref_rows)@, m2, d2, c2),
{
    let n: usize = refs.len();
    let mut out: Vec<crate::store::DocRefOut> = Vec::new();
    let mut i: usize = 0;
    while i < n
        invariant
            n == refs@.len(),
            i <= n,
            out@.len() == i,
            crate::store::uniq_nodes(nodes@),
            crate::store::uniq_edges(edges@),
            uniq_refs(ref_rows@),
            forall|k: int| 0 <= k < i ==> {
                let score = (match refs@[k].score_milli {
                    Some(v) => v as int,
                    None => crate::kg::jaccard_milli(
                        crate::order::views(mem_ents@),
                        crate::kg::ents_of_doc(links@, refs@[k].doc_id@),
                    ),
                });
                &&& crate::store::has_node(
                    nodes@,
                    crate::store::NodeKind::Document,
                    (#[trigger] refs@[k]).doc_id@,
                )
                &&& crate::store::has_edge(
                    edges@,
                    crate::kg::node_key_of(crate::store::NodeKind::Memory, mem_id@),
                    crate::kg::node_key_of(crate::store::NodeKind::Document, refs@[k].doc_id@),
                    crate::store::Relation::Evidence,
                )
                &&& has_ref(ref_rows@, mem_id@, refs@[k].doc_id@, chunk_key_of(refs@[k].chunk_id))
                &&& ((forall|k2: int|
                    k < k2 < i ==> !((#[trigger] refs@[k2]).doc_id@ == refs@[k].doc_id@
                        && chunk_key_of(refs@[k2].chunk_id) == chunk_key_of(refs@[k].chunk_id)))
                    ==> has_ref_scored(
                    ref_rows@,
                    mem_id@,
                    refs@[k].doc_id@,
                    chunk_key_of(refs@[k].chunk_id),
                    score as i64,
                ))
                &&& out@[k].doc_id@ == refs@[k].doc_id@
                &&& out@[k].score_milli == Some(score as i64)
                &&& ((out@[k].chunk_id is Some) == (refs@[k].chunk_id is Some))
            },
            forall|k2: crate::store::NodeKind, n2: Seq<u8>|
                crate::store::has_node(old(nodes)@, k2, n2) ==> crate::store::has_node(
                    nodes@,
                    k2,
                    n2,
                ),
            forall|s2: Seq<u8>, d2: Seq<u8>, r2: crate::store::Relation|
                crate::store::has_edge(old(edges)@, s2, d2, r2) ==> crate::store::has_edge(
                    edges@,
                    s2,
                    d2,
                    r2,
                ),
            forall|m2: Seq<u8>, d2: Seq<u8>, c2: Seq<u8>|
                has_ref(old(ref_rows)@, m2, d2, c2) ==> has_ref(ref_rows@, m2, d2, c2),
        decreases n - i,
    {
        let d = crate::bytes::copy_bytes(&refs[i].doc_id);
        crate::kg::ensure_node(
            nodes,
            crate::store::NodeKind::Document,
            crate::bytes::copy_bytes(&d),
            now_ms,
            None,
        );
        let src = crate::kg::node_key(crate::store::NodeKind::Memory, mem_id);
        let dst = crate::kg::node_key(crate::store::NodeKind::Document, &d);
        crate::kg::add_edge_generic(
            edges,
            src,
            dst,
            crate::store::Relation::Evidence,
            None,
            now_ms,
        );
        let ghost spec_score = (match refs@[i as int].score_milli {
            Some(v) => v as int,
            None => crate::kg::jaccard_milli(
                crate::order::views(mem_ents@),
                crate::kg::ents_of_doc(links@, refs@[i as int].doc_id@),
            ),
        });
        let score: i64 = match &refs[i].score_milli {
            Some(v) => *v,
            None => {
                let doc_ents = crate::kg::entities_for_doc(links, &d);
                let inter: usize = crate::kg::count_in(mem_ents, &doc_ents);
                let an: usize = mem_ents.len();
                let bn: usize = doc_ents.len();
                let uni: u128 = an as u128 + bn as u128 - inter as u128;
                proof {
                    crate::kg::lemma_inter_count_bounds(
                        crate::order::views(mem_ents@),
                        crate::kg::ents_of_doc(links@, refs@[i as int].doc_id@),
                    );
                }
                if uni == 0 {
                    0
                } else {
                    let q: u128 = inter as u128 * 1000 / uni;
                    if q > 1000 {
                        1000
                    } else {
                        q as i64
                    }
                }
            },
        };
        proof {
            assert(score == spec_score);
        }
        let cb: Vec<u8> = match &refs[i].chunk_id {
            Some(c) => crate::bytes::copy_bytes(c),
            None => Vec::new(),
        };
        proof {
            assert(cb@ == chunk_key_of(refs@[i as int].chunk_id));
        }
        upsert_ref(ref_rows, mem_id, &d, &cb, score);
        let chunk_out = opt_copy(&refs[i].chunk_id);
        out.push(
            crate::store::DocRefOut { doc_id: d, chunk_id: chunk_out, score_milli: Some(score) },
        );
        i = i + 1;
    }
    out
}

/// Add a memory: reject blank content, create the record in the
/// short-term layer unless hinted otherwise, index its text, store its
/// embedding, ensure its node, link its entities, and honor episode and
/// document references.
pub fn memory_add(
    store: &mut crate::store::Store,
    content: Vec<u8>,
    metadata: Option<Vec<u8>>,
    layer_hint: Option<crate::store::Layer>,
    session_id: Option<Vec<u8>>,
    episode_id: Option<Vec<u8>>,
    references: Option<Vec<RefInput>>,
    embedding: Vec<u8>,
    now_ms: i64,
) -> (r: Result<(Vec<u8>, crate::store::Layer), crate::store::StoreError>)
    requires
        old(store).wf(),
        crate::vecindex::emb_ok(embedding@),
        now_ms <= i64::MAX - 3600000,
    ensures
        final(store).wf(),
        (r is Err) == is_blank(content@),
        r is Err ==> r == Err::<(Vec<u8>, crate::store::Layer), crate::store::StoreError>(
            crate::store::StoreError::InvalidInput,
        ) && *final(store) == *old(store),
        r matches Ok(ok) ==> ({
            let id = ok.0@;
            let layer = ok.1;
            &&& layer == (match layer_hint {
                Some(l) => l,
                None => crate::store::Layer::Stm,
            })
            &&& (mem_at(final(store).memories@, id) matches Some(rec) && {
                &&& rec.content@ == content@
                &&& rec.metadata == metadata
                &&& rec.layer == layer
                &&& rec.created_at == now_ms
                &&& rec.expires_at == (if layer is Stm {
                    Some((now_ms + 3600000) as i64)
                } else {
                    None::<i64>
                })
                &&& rec.importance_milli == 1000
                &&& rec.access_count == 0
                &&& rec.version == 0
                &&& rec.session_id == session_id
                &&& rec.last_access_ts is None
                &&& rec.promoted_at is None
                &&& rec.doc_refs@.len() == (match references {
                    Some(refs) => refs@.len() as int,
                    None => 0int,
                })
                // The record's reference list mirrors the request: each
                // entry keeps its document, its chunk presence, and the
                // caller's score - or the Jaccard default over the
                // memory's entity list against the document's links.
                &&& (references matches Some(refs) ==> (exists|es: Seq<Seq<u8>>|
                    {
                        &&& crate::order::strictly_sorted(es)
                        &&& (forall|x: Seq<u8>|
                            es.contains(x) == crate::entities::is_entity_of(content@, x))
                        &&& forall|k: int|
                            0 <= k < refs@.len() ==> {
                                let score = (match refs@[k].score_milli {
                                    Some(v) => v as int,
                                    None => crate::kg::jaccard_milli(
                                        es,
                                        crate::kg::ents_of_doc(
                                            old(store).kg_links@,
                                            refs@[k].doc_id@,
                                        ),
                                    ),
                                });
                                &&& (#[trigger] rec.doc_refs@[k]).doc_id@ == refs@[k].doc_id@
                                &&& rec.doc_refs@[k].score_milli == Some(score as i64)
                                &&& ((rec.doc_refs@[k].chunk_id is Some) == (refs@[k].chunk_id
                                    is Some))
                            }
                    }))
            })
            &&& mem_text_of(final(store).text_index@, id) == Some(content@)
            &&& mem_emb_of(final(store).mem_embeddings@, id) == Some(embedding@)
            &&& crate::store::has_node(final(store).kg_nodes@, crate::store::NodeKind::Memory, id)
            &&& forall|e: Seq<u8>|
                #[trigger] crate::entities::is_entity_of(content@, e) ==> (crate::store::has_node(
                    final(store).kg_nodes@,
                    crate::store::NodeKind::Entity,
                    e,
                ) && crate::store::has_edge(
                    final(store).kg_edges@,
                    crate::kg::node_key_of(crate::store::NodeKind::Memory, id),
                    crate::kg::node_key_of(crate::store::NodeKind::Entity, e),
                    crate::store::Relation::Mentions,
                ))
            &&& (episode_id matches Some(ep) ==> (crate::store::has_node(
                final(store).kg_nodes@,
                crate::store::NodeKind::Episode,
                ep@,
            ) && crate::store::has_edge(
                final(store).kg_edges@,
                crate::kg::node_key_of(crate::store::NodeKind::Memory, id),
                crate::kg::node_key_of(crate::store::NodeKind::Episode, ep@),
                crate::store::Relation::InEpisode,
            )))
            &&& (references matches Some(refs) ==> forall|k: int|
                0 <= k < refs@.len() ==> (crate::store::has_node(
                    final(store).kg_nodes@,
                    crate::store::NodeKind::Document,
                    (#[trigger] refs@[k]).doc_id@,
                ) && crate::store::has_edge(
                    final(store).kg_edges@,
                    crate::kg::node_key_of(crate::store::NodeKind::Memory, id),
                    crate::kg::node_key_of(crate::store::NodeKind::Document, refs@[k].doc_id@),
                    crate::store::Relation::Evidence,
                ) && has_ref(
                    final(store).doc_refs@,
                    id,
                    refs@[k].doc_id@,
                    chunk_key_of(refs@[k].chunk_id),
                )))
            &&& forall|id2: Seq<u8>|
                id2 != id ==> mem_at(final(store).memories@, id2) == mem_at(
                    old(store).memories@,
                    id2,
                )
            &&& forall|id2: Seq<u8>|
                id2 != id ==> mem_text_of(final(store).text_index@, id2) == mem_text_of(
                    old(store).text_index@,
                    id2,
                )
            &&& forall|id2: Seq<u8>|
                id2 != id ==> mem_emb_of(final(store).mem_embeddings@, id2) == mem_emb_of(
                    old(store).mem_embeddings@,
                    id2,
                )
        }),
        final(store).docs == old(store).docs,
        final(store).docs_info == old(store).docs_info,
        final(store).docs_meta == old(store).docs_meta,
        final(store).path_latest == old(store).path_latest,
        final(store).versions == old(store).versions,
        final(store).chunks == old(store).chunks,
        final(store).embeddings == old(store).embeddings,
        final(store).kg_entities == old(store).kg_entities,
        final(store).kg_links == old(store).kg_links,
        final(store).neighbors == old(store).neighbors,
        final(store).vec_meta == old(store).vec_meta,
        final(store).consolidation_log == old(store).consolidation_log,
        final(store).backups == old(store).backups,
{
    if check_blank(&content) {
        return Err(crate::store::StoreError::InvalidInput);
    }
    let id = crate::idgen::fresh_id();
    let layer = match layer_hint {
        Some(l) => l,
        None => crate::store::Layer::Stm,
    };
    let expires_at: Option<i64> = if matches!(layer, crate::store::Layer::Stm) {
        Some(now_ms + 3600000)
    } else {
        None
    };
    crate::kg::ensure_node(
        &mut store.kg_nodes,
        crate::store::NodeKind::Memory,
        crate::bytes::copy_bytes(&id),
        now_ms,
        None,
    );
    let ents = crate::entities::extract_entities(&content);
    link_mem_entities(&mut store.kg_nodes, &mut store.kg_edges, &id, &ents, now_ms);
    match &episode_id {
        Some(ep) => {
            crate::kg::ensure_node(
                &mut store.kg_nodes,
                crate::store::NodeKind::Episode,
                crate::bytes::copy_bytes(ep),
                now_ms,
                opt_copy(&session_id),
            );
            let src = crate::kg::node_key(crate::store::NodeKind::Memory, &id);
            let dst = crate::kg::node_key(crate::store::NodeKind::Episode, ep);
            crate::kg::add_edge_generic(
                &mut store.kg_edges,
                src,
                dst,
                crate::store::Relation::InEpisode,
                None,
                now_ms,
            );
        },
        None => {},
    }
    let doc_refs_out: Vec<crate::store::DocRefOut> = match &references {
        Some(refs) => apply_references(
            &mut store.kg_nodes,
            &mut store.kg_edges,
            &mut store.doc_refs,
            &store.kg_links,
            &id,
            &ents,
            refs,
            now_ms,
        ),
        None => Vec::new(),
    };
    upsert_mem_text(&mut store.text_index, &id, &content);
    upsert_mem_emb(&mut store.mem_embeddings, &id, embedding);
    let ret_id = crate::bytes::copy_bytes(&id);
    let rec = MemoryRecord {
        id,
        content,
        metadata,
        layer,
        session_id,
        episode_id,
        created_at: now_ms,
        expires_at,
        doc_refs: doc_refs_out,
        importance_milli: 1000,
        access_count: 0,
        last_access_ts: None,
        version: 0,
        promoted_at: None,
    };
    let ghost the_rec = rec;
    upsert_mem_rec(&mut store.memories, rec);
    proof {
        assert(mem_at(final(store).memories@, the_rec.id@) == Some(the_rec));
        match &references {
            Some(refs) => {
                let es = crate::order::views(ents@);
                assert(crate::order::strictly_sorted(es));
                assert(forall|x: Seq<u8>|
                    es.contains(x) == crate::entities::is_entity_of(content@, x));
            },
            None => {},
        }
        assert forall|e: Seq<u8>|
            #[trigger] crate::entities::is_entity_of(the_rec.content@, e) implies (
        crate::store::has_node(final(store).kg_nodes@, crate::store::NodeKind::Entity, e)
            && crate::store::has_edge(
            final(store).kg_edges@,
            crate::kg::node_key_of(crate::store::NodeKind::Memory, the_rec.id@),
            crate::kg::node_key_of(crate::store::NodeKind::Entity, e),
            crate::store::Relation::Mentions,
        )) by {
            assert(crate::order::views(ents@).contains(e));
        }
    }
    Ok((ret_id, layer))
}


// ---------------------------------------------------------------------------
// Searching memories
// ---------------------------------------------------------------------------

/// Does a record match a search: case-insensitive substring of the
/// content, plus the optional layer, episode and time-window filters.
#[verifier::opaque]
pub open spec fn search_matches(
    rec: MemoryRecord,
    q: Seq<u8>,
    layer_f: Option<crate::store::Layer>,
    episode_f: Option<Vec<u8>>,
    from: Option<i64>,
    to: Option<i64>,
) -> bool {
    &&& crate::bytes::contains_seq(
        crate::bytes::lower_seq(rec.content@),
        crate::bytes::lower_seq(q),
    )
    &&& (match layer_f {
        Some(l) => rec.layer == l,
        None => true,
    })
    &&& (match episode_f {
        Some(f) => match rec.episode_id {
            Some(re) => re@ == f@,
            None => false,
        },
        None => true,
    })
    &&& (match from {
        Some(f) => rec.created_at >= f,
        None => true,
    })
    &&& (match to {
        Some(t) => rec.created_at <= t,
        None => true,
    })
}

/// Importance after one access: long-term memories are scaled by the
/// strengthening factor, short-term memories gain the additive delta;
/// both stop at the top of the range.
pub open spec fn strengthened(imp: u64, layer: crate::store::Layer, p: crate::store::Params) -> u64 {
    if layer is Ltm {
        if imp * p.strengthen_mul_milli / 1000 > u64::MAX {
            u64::MAX
        } else {
            (imp * p.strengthen_mul_milli / 1000) as u64
        }
    } else {
        crate::vecindex::sat_add(imp, p.stm_delta_milli)
    }
}

/// A record after one access: the count goes up by one, the access time
/// is refreshed, and the importance is strengthened by layer.
pub open spec fn bumped(rec: MemoryRecord, now: i64, p: crate::store::Params) -> MemoryRecord {
    MemoryRecord {
        access_count: crate::kg::sat_add1(rec.access_count),
        last_access_ts: Some(now),
        importance_milli: strengthened(rec.importance_milli, rec.layer, p),
        ..rec
    }
}

/// Copy a reference list for a search hit.
fn copy_doc_refs(v: &Vec<crate::store::DocRefOut>) -> (r: Vec<crate::store::DocRefOut>)
    ensures
        r@.len() == v@.len(),
        forall|i: int|
            0 <= i < v@.len() ==> (#[trigger] r@[i]).doc_id@ == v@[i].doc_id@ && r@[i].score_milli
                == v@[i].score_milli && ((r@[i].chunk_id is Some) == (v@[i].chunk_id is Some)),
{
    let n: usize = v.len();
    let mut r: Vec<crate::store::DocRefOut> = Vec::new();
    let mut i: usize = 0;
    while i < n
        invariant
            n == v@.len(),
            i <= n,
            r@.len() == i,
            forall|j: int|
                0 <= j < i ==> (#[trigger] r@[j]).doc_id@ == v@[j].doc_id@ && r@[j].score_milli
                    == v@[j].score_milli && ((r@[j].chunk_id is Some) == (v@[j].chunk_id is Some)),
        decreases n - i,
    {
        let d = crate::bytes::copy_bytes(&v[i].doc_id);
        let c = opt_copy(&v[i].chunk_id);
        r.push(crate::store::DocRefOut { doc_id: d, chunk_id: c, score_milli: v[i].score_milli });
        i = i + 1;
    }
    r
}

/// Bumping preserves every field that the search predicate reads.
pub proof fn lemma_bump_preserves_match(
    rec: MemoryRecord,
    now: i64,
    p: crate::store::Params,
    q: Seq<u8>,
    layer_f: Option<crate::store::Layer>,
    episode_f: Option<Vec<u8>>,
    from: Option<i64>,
    to: Option<i64>,
)
    ensures
        search_matches(bumped(rec, now, p), q, layer_f, episode_f, from, to) == search_matches(
            rec,
            q,
            layer_f,
            episode_f,
            from,
            to,
        ),
        bumped(rec, now, p).id@ == rec.id@,
        bumped(rec, now, p).layer == rec.layer,
{
    reveal(search_matches);
}

/// The product of two values below 2^64 fits in 128 bits.
pub proof fn lemma_mul_fits_weights(a: int, b: int)
    requires
        0 <= a < 0x10000000000000000,
        0 <= b < 0x10000000000000000,
    ensures
        a * b <= 0xffffffffffffffffffffffffffffffff,
{
    assert(a * b <= 0xffffffffffffffff * 0xffffffffffffffff) by (nonlinear_arith)
        requires
            0 <= a <= 0xffffffffffffffff,
            0 <= b <= 0xffffffffffffffff,
    ;
}

/// Exec evaluation of the search predicate.
fn matches_search(
    rec: &MemoryRecord,
    q: &Vec<u8>,
    layer_filter: Option<crate::store::Layer>,
    episode_filter: &Option<Vec<u8>>,
    time_from: Option<i64>,
    time_to: Option<i64>,
) -> (r: bool)
    ensures
        r == search_matches(*rec, q@, layer_filter, *episode_filter, time_from, time_to),
{
    let c_ok = crate::bytes::contains_ci(&rec.content, q);
    let lay_ok = match layer_filter {
        None => true,
        Some(lf) => rec.layer == lf,
    };
    let ep_ok = match episode_filter {
        None => true,
        Some(f) => match &rec.episode_id {
            Some(re) => crate::bytes::bytes_eq(re, f),
            None => false,
        },
    };
    let from_ok = match time_from {
        None => true,
        Some(f) => rec.created_at >= f,
    };
    let to_ok = match time_to {
        None => true,
        Some(t) => rec.created_at <= t,
    };
    proof {
        reveal(search_matches);
    }
    c_ok && lay_ok && ep_ok && from_ok && to_ok
}

/// Bump the access statistics of every record matching the search.
fn bump_matching(
    memories: &mut Vec<MemoryRecord>,
    q: &Vec<u8>,
    layer_filter: Option<crate::store::Layer>,
    episode_filter: &Option<Vec<u8>>,
    time_from: Option<i64>,
    time_to: Option<i64>,
    p: &crate::store::Params,
    now_ms: i64,
)
    requires
        uniq_mems(old(memories)@),
    ensures
        uniq_mems(final(memories)@),
        final(memories)@.len() == old(memories)@.len(),
        forall|j: int|
            0 <= j < old(memories)@.len() ==> final(memories)@[j] == (
            if search_matches(
                #[trigger] old(memories)@[j],
                q@,
                layer_filter,
                *episode_filter,
                time_from,
                time_to,
            ) {
                bumped(old(memories)@[j], now_ms, *p)
            } else {
                old(memories)@[j]
            }),
{
    let ghost mems0 = old(memories)@;
    let n: usize = memories.len();
    let mut i: usize = 0;
    while i < n
        invariant
            n == mems0.len(),
            n == memories@.len(),
            i <= n,
            uniq_mems(memories@),
            forall|j: int|
                0 <= j < i ==> memories@[j] == (if search_matches(
                    #[trigger] mems0[j],
                    q@,
                    layer_filter,
                    *episode_filter,
                    time_from,
                    time_to,
                ) {
                    bumped(mems0[j], now_ms, *p)
                } else {
                    mems0[j]
                }),
            forall|j: int| i <= j < n ==> memories@[j] == #[trigger] mems0[j],
        decreases n - i,
    {
        let matched = matches_search(
            &memories[i],
            q,
            layer_filter,
            episode_filter,
            time_from,
            time_to,
        );
        if matched {
            let ghost pre = memories@;
            let o = memories.remove(i);
            proof {
                lemma_mul_fits_weights(o.importance_milli as int, p.strengthen_mul_milli as int);
            }
            let new_imp: u64 = match o.layer {
                crate::store::Layer::Ltm => {
                    let v: u128 = o.importance_milli as u128 * p.strengthen_mul_milli as u128
                        / 1000;
                    if v > u64::MAX as u128 {
                        u64::MAX
                    } else {
                        v as u64
                    }
                },
                crate::store::Layer::Stm => {
                    if o.importance_milli > u64::MAX - p.stm_delta_milli {
                        u64::MAX
                    } else {
                        o.importance_milli + p.stm_delta_milli
                    }
                },
            };
            let new_acc: u64 = if o.access_count == u64::MAX {
                o.access_count
            } else {
                o.access_count + 1
            };
            let updated = MemoryRecord {
                access_count: new_acc,
                last_access_ts: Some(now_ms),
                importance_milli: new_imp,
                ..o
            };
            proof {
                assert(updated == bumped(pre[i as int], now_ms, *p));
            }
            memories.insert(i, updated);
            proof {
                assert(memories@ =~= pre.update(i as int, updated));
                assert(uniq_mems(memories@)) by {
                    assert forall|a: int, b: int| 0 <= a < b < memories@.len() implies
                        memories@[a].id@ != memories@[b].id@ by {
                        assert(memories@[a].id@ == pre[a].id@);
                        assert(memories@[b].id@ == pre[b].id@);
                    }
                }
            }
        }
        i = i + 1;
    }
}

/// The (id, layer) pairs of the records matching a search, in tree order.
pub open spec fn record_hits_of(
    mems: Seq<MemoryRecord>,
    q: Seq<u8>,
    layer_f: Option<crate::store::Layer>,
    episode_f: Option<Vec<u8>>,
    from: Option<i64>,
    to: Option<i64>,
) -> Seq<(Seq<u8>, crate::store::Layer)>
    decreases mems.len(),
{
    if mems.len() == 0 {
        Seq::empty()
    } else {
        record_hits_of(mems.drop_last(), q, layer_f, episode_f, from, to) + if search_matches(
            mems.last(),
            q,
            layer_f,
            episode_f,
            from,
            to,
        ) {
            seq![(mems.last().id@, mems.last().layer)]
        } else {
            Seq::empty()
        }
    }
}

/// Bumping matching records leaves the matching hits unchanged.
pub proof fn lemma_record_hits_congruent(
    a: Seq<MemoryRecord>,
    b: Seq<MemoryRecord>,
    now: i64,
    p: crate::store::Params,
    q: Seq<u8>,
    layer_f: Option<crate::store::Layer>,
    episode_f: Option<Vec<u8>>,
    from: Option<i64>,
    to: Option<i64>,
)
    requires
        a.len() == b.len(),
        forall|j: int|
            0 <= j < a.len() ==> b[j] == (if search_matches(
                #[trigger] a[j],
                q,
                layer_f,
                episode_f,
                from,
                to,
            ) {
                bumped(a[j], now, p)
            } else {
                a[j]
            }),
    ensures
        record_hits_of(b, q, layer_f, episode_f, from, to) == record_hits_of(
            a,
            q,
            layer_f,
            episode_f,
            from,
            to,
        ),
    decreases a.len(),
{
    if a.len() > 0 {
        let ad = a.drop_last();
        let bd = b.drop_last();
        assert forall|j: int|
            0 <= j < ad.len() implies bd[j] == (if search_matches(
                #[trigger] ad[j],
                q,
                layer_f,
                episode_f,
                from,
                to,
            ) {
                bumped(ad[j], now, p)
            } else {
                ad[j]
            }) by {
            assert(ad[j] == a[j]);
            assert(bd[j] == b[j]);
        }
        lemma_record_hits_congruent(ad, bd, now, p, q, layer_f, episode_f, from, to);
        let la = a.last();
        let lb = b.last();
        assert(la == a[a.len() - 1]);
        assert(lb == b[b.len() - 1]);
        if search_matches(la, q, layer_f, episode_f, from, to) {
            lemma_bump_preserves_match(la, now, p, q, layer_f, episode_f, from, to);
            assert(lb == bumped(la, now, p));
            assert(search_matches(lb, q, layer_f, episode_f, from, to));
            assert(lb.id@ == la.id@ && lb.layer == la.layer);
            assert(record_hits_of(b, q, layer_f, episode_f, from, to) =~= record_hits_of(
                a,
                q,
                layer_f,
                episode_f,
                from,
                to,
            ));
        } else {
            assert(lb == la);
            assert(record_hits_of(b, q, layer_f, episode_f, from, to) =~= record_hits_of(
                a,
                q,
                layer_f,
                episode_f,
                from,
                to,
            ));
        }
    }
}

/// Collect one full-score hit for every record matching the search, in
/// tree order.
pub fn collect_record_hits(
    memories: &Vec<MemoryRecord>,
    q: &Vec<u8>,
    layer_filter: Option<crate::store::Layer>,
    episode_filter: &Option<Vec<u8>>,
    time_from: Option<i64>,
    time_to: Option<i64>,
) -> (r: Vec<crate::store::SearchHit>)
    requires
        uniq_mems(memories@),
    ensures
        ({
            let rh = record_hits_of(
                memories@,
                q@,
                layer_filter,
                *episode_filter,
                time_from,
                time_to,
            );
            &&& r@.len() == rh.len()
            &&& forall|h: int|
                0 <= h < r@.len() ==> (#[trigger] r@[h]).id@ == rh[h].0 && r@[h].layer == Some(
                    rh[h].1,
                ) && r@[h].score_milli == 1000 && r@[h].source == crate::store::HitSource::Record
        }),
        forall|h: int|
            0 <= h < r@.len() ==> exists|j: int|
                0 <= j < memories@.len() && (#[trigger] memories@[j]).id@ == (#[trigger] r@[h]).id@,
        forall|h: int, h2: int| 0 <= h < h2 < r@.len() ==> r@[h].id@ != r@[h2].id@,
{
    let n: usize = memories.len();
    let mut hits: Vec<crate::store::SearchHit> = Vec::new();
    let mut i: usize = 0;
    proof {
        assert(memories@.take(0) =~= Seq::<MemoryRecord>::empty());
    }
    while i < n
        invariant
            n == memories@.len(),
            i <= n,
            uniq_mems(memories@),
            ({
                let rh = record_hits_of(
                    memories@.take(i as int),
                    q@,
                    layer_filter,
                    *episode_filter,
                    time_from,
                    time_to,
                );
                &&& hits@.len() == rh.len()
                &&& forall|h: int|
                    0 <= h < hits@.len() ==> (#[trigger] hits@[h]).id@ == rh[h].0 && hits@[h].layer
                        == Some(rh[h].1) && hits@[h].score_milli == 1000 && hits@[h].source
                        == crate::store::HitSource::Record
            }),
            forall|h: int|
                0 <= h < hits@.len() ==> exists|j: int|
                    0 <= j < i && (#[trigger] memories@[j]).id@ == (#[trigger] hits@[h]).id@,
            forall|h: int, h2: int| 0 <= h < h2 < hits@.len() ==> hits@[h].id@ != hits@[h2].id@,
        decreases n - i,
    {
        let matched = matches_search(
            &memories[i],
            q,
            layer_filter,
            episode_filter,
            time_from,
            time_to,
        );
        proof {
            assert(memories@.take(i + 1).drop_last() =~= memories@.take(i as int));
            assert(memories@.take(i + 1).last() == memories@[i as int]);
        }
        if matched {
            let ghost ph = hits@;
            let hit_id = crate::bytes::copy_bytes(&memories[i].id);
            let hit_refs = copy_doc_refs(&memories[i].doc_refs);
            hits.push(
                crate::store::SearchHit {
                    id: hit_id,
                    score_milli: 1000,
                    layer: Some(memories[i].layer),
                    doc_refs: Some(hit_refs),
                    source: crate::store::HitSource::Record,
                    vector_score_milli: None,
                },
            );
            proof {
                let nh = hits@.len() - 1;
                assert(hits@[nh].id@ == memories@[i as int].id@);
                assert forall|h: int, h2: int| 0 <= h < h2 < hits@.len() implies hits@[h].id@
                    != hits@[h2].id@ by {
                    if h2 == nh {
                        assert(hits@[h] == ph[h]);
                        let j = choose|j: int|
                            0 <= j < i && (#[trigger] memories@[j]).id@ == ph[h].id@;
                        assert(memories@[j].id@ != memories@[i as int].id@);
                    } else {
                        assert(hits@[h] == ph[h]);
                        assert(hits@[h2] == ph[h2]);
                    }
                }
            }
        }
        i = i + 1;
    }
    proof {
        assert(memories@.take(n as int) =~= memories@);
    }
    hits
}

/// Every candidate id occurs among the hits.
pub open spec fn covers_ids(r: Seq<crate::store::SearchHit>, vh: Seq<crate::hits::ScoredId>) -> bool {
    forall|k: int|
        0 <= k < vh.len() ==> (exists|h: int|
            0 <= h < r.len() && (#[trigger] r[h]).id@ == (#[trigger] vh[k]).id@)
}

/// Append scored vector candidates whose ids are not already present:
/// every candidate id ends up in the list, and the ones that were new
/// arrive in the tail with their score.
pub fn append_vector_hits(
    hits: &mut Vec<crate::store::SearchHit>,
    vector_hits: &Vec<crate::hits::ScoredId>,
)
    ensures
        old(hits)@.len() <= final(hits)@.len(),
        forall|h: int| 0 <= h < old(hits)@.len() ==> final(hits)@[h] == old(hits)@[h],
        forall|h: int|
            old(hits)@.len() <= h < final(hits)@.len() ==> (#[trigger] final(hits)@[h]).source
                == crate::store::HitSource::Vector && (exists|k: int|
                0 <= k < vector_hits@.len() && (#[trigger] vector_hits@[k]).id@
                    == final(hits)@[h].id@ && vector_hits@[k].score_milli
                    == final(hits)@[h].score_milli) && final(hits)@[h].vector_score_milli == Some(
                final(hits)@[h].score_milli,
            ),
        // The tail never repeats an id: not one of the prefix, nor its own.
        forall|h: int, h0: int|
            old(hits)@.len() <= h < final(hits)@.len() && 0 <= h0 < old(hits)@.len() ==> (
            #[trigger] final(hits)@[h]).id@ != (#[trigger] final(hits)@[h0]).id@,
        forall|h: int, h2: int|
            old(hits)@.len() <= h < h2 < final(hits)@.len() ==> (#[trigger] final(hits)@[h]).id@
                != (#[trigger] final(hits)@[h2]).id@,
        // Completeness: every candidate id appears in the final list (in
        // the prefix when it was already there, in the tail otherwise).
        covers_ids(final(hits)@, vector_hits@),
        (forall|h: int, h2: int|
            0 <= h < h2 < old(hits)@.len() ==> old(hits)@[h].id@ != old(hits)@[h2].id@) ==> (
        forall|h: int, h2: int|
            0 <= h < h2 < final(hits)@.len() ==> final(hits)@[h].id@ != final(hits)@[h2].id@),
{
    let ghost base = old(hits)@;
    let ghost base_distinct = forall|h: int, h2: int|
        0 <= h < h2 < base.len() ==> base[h].id@ != base[h2].id@;
    let vn: usize = vector_hits.len();
    let mut k: usize = 0;
    while k < vn
        invariant
            vn == vector_hits@.len(),
            k <= vn,
            base.len() <= hits@.len(),
            forall|h: int| 0 <= h < base.len() ==> hits@[h] == base[h],
            forall|h: int|
                base.len() <= h < hits@.len() ==> (#[trigger] hits@[h]).source
                    == crate::store::HitSource::Vector && (exists|k2: int|
                    0 <= k2 < vector_hits@.len() && (#[trigger] vector_hits@[k2]).id@
                        == hits@[h].id@ && vector_hits@[k2].score_milli == hits@[h].score_milli)
                    && hits@[h].vector_score_milli == Some(hits@[h].score_milli),
            forall|h: int, h0: int|
                base.len() <= h < hits@.len() && 0 <= h0 < base.len() ==> (
                #[trigger] hits@[h]).id@ != (#[trigger] hits@[h0]).id@,
            forall|h: int, h2: int|
                base.len() <= h < h2 < hits@.len() ==> (#[trigger] hits@[h]).id@ != (
                #[trigger] hits@[h2]).id@,
            forall|k2: int|
                0 <= k2 < k ==> (exists|h: int|
                    0 <= h < hits@.len() && (#[trigger] hits@[h]).id@ == (
                    #[trigger] vector_hits@[k2]).id@),
            base_distinct == (forall|h: int, h2: int|
                0 <= h < h2 < base.len() ==> base[h].id@ != base[h2].id@),
            base_distinct ==> (forall|h: int, h2: int|
                0 <= h < h2 < hits@.len() ==> hits@[h].id@ != hits@[h2].id@),
        decreases vn - k,
    {
        let hn: usize = hits.len();
        let mut seen = false;
        let mut h: usize = 0;
        while h < hn
            invariant
                hn == hits@.len(),
                h <= hn,
                vn == vector_hits@.len(),
                k < vn,
                seen ==> exists|a: int|
                    0 <= a < hits@.len() && (#[trigger] hits@[a]).id@ == vector_hits@[k as int].id@,
                !seen ==> forall|a: int|
                    0 <= a < h ==> (#[trigger] hits@[a]).id@ != vector_hits@[k as int].id@,
            decreases hn - h,
        {
            if crate::bytes::bytes_eq(&hits[h].id, &vector_hits[k].id) {
                proof {
                    assert(hits@[h as int].id@ == vector_hits@[k as int].id@);
                }
                seen = true;
                h = hn;
            } else {
                h = h + 1;
            }
        }
        if !seen {
            let ghost ph = hits@;
            let sc = vector_hits[k].score_milli;
            let idc = crate::bytes::copy_bytes(&vector_hits[k].id);
            hits.push(
                crate::store::SearchHit {
                    id: idc,
                    score_milli: sc,
                    layer: Some(crate::store::Layer::Ltm),
                    doc_refs: None,
                    source: crate::store::HitSource::Vector,
                    vector_score_milli: Some(sc),
                },
            );
            proof {
                let nh = hits@.len() - 1;
                assert(hits@[nh].id@ == vector_hits@[k as int].id@ && hits@[nh].score_milli
                    == vector_hits@[k as int].score_milli);
                assert forall|k2: int|
                    0 <= k2 < k + 1 implies (exists|h2: int|
                        0 <= h2 < hits@.len() && (#[trigger] hits@[h2]).id@ == (
                        #[trigger] vector_hits@[k2]).id@) by {
                    if k2 < k {
                        let h2 = choose|h2: int|
                            0 <= h2 < ph.len() && (#[trigger] ph[h2]).id@ == vector_hits@[k2].id@;
                        assert(hits@[h2] == ph[h2]);
                    } else {
                        assert(hits@[nh].id@ == vector_hits@[k2].id@);
                    }
                }
                if base_distinct {
                    assert forall|h2: int, h3: int| 0 <= h2 < h3 < hits@.len() implies
                        hits@[h2].id@ != hits@[h3].id@ by {
                        if h3 == nh {
                            assert(hits@[h2] == ph[h2]);
                        } else {
                            assert(hits@[h2] == ph[h2]);
                            assert(hits@[h3] == ph[h3]);
                        }
                    }
                }
            }
        }
        k = k + 1;
    }
    proof {
        assert forall|k2: int|
            0 <= k2 < vector_hits@.len() implies (exists|h: int|
                0 <= h < hits@.len() && (#[trigger] hits@[h]).id@ == (
                #[trigger] vector_hits@[k2]).id@) by {}
        assert(covers_ids(hits@, vector_hits@));
    }
}

/// Search memories by case-insensitive substring, with optional layer,
/// episode and time filters. Every matching record is returned with the
/// full text score, in tree order, and has its access statistics bumped;
/// scored vector candidates whose ids are not already present are
/// appended after the record hits.
#[verifier::rlimit(100)]
#[verifier::spinoff_prover]
pub fn memory_search(
    memories: &mut Vec<MemoryRecord>,
    q: &Vec<u8>,
    layer_filter: Option<crate::store::Layer>,
    episode_filter: Option<Vec<u8>>,
    time_from: Option<i64>,
    time_to: Option<i64>,
    vector_hits: Vec<crate::hits::ScoredId>,
    p: &crate::store::Params,
    now_ms: i64,
) -> (r: Vec<crate::store::SearchHit>)
    requires
        uniq_mems(old(memories)@),
    ensures
        uniq_mems(final(memories)@),
        final(memories)@.len() == old(memories)@.len(),
        forall|j: int|
            0 <= j < old(memories)@.len() ==> final(memories)@[j] == (
            if search_matches(
                #[trigger] old(memories)@[j],
                q@,
                layer_filter,
                episode_filter,
                time_from,
                time_to,
            ) {
                bumped(old(memories)@[j], now_ms, *p)
            } else {
                old(memories)@[j]
            }),
        ({
            let rh = record_hits_of(
                old(memories)@,
                q@,
                layer_filter,
                episode_filter,
                time_from,
                time_to,
            );
            &&& rh.len() <= r@.len()
            &&& forall|h: int|
                0 <= h < rh.len() ==> (#[trigger] r@[h]).id@ == rh[h].0 && r@[h].layer == Some(
                    rh[h].1,
                ) && r@[h].score_milli == 1000 && r@[h].source == crate::store::HitSource::Record
            &&& forall|h: int|
                rh.len() <= h < r@.len() ==> (#[trigger] r@[h]).source
                    == crate::store::HitSource::Vector && (exists|k: int|
                    0 <= k < vector_hits@.len() && (#[trigger] vector_hits@[k]).id@ == r@[h].id@
                        && vector_hits@[k].score_milli == r@[h].score_milli)
        }),
        covers_ids(r@, vector_hits@),
        forall|i: int, i2: int| 0 <= i < i2 < r@.len() ==> r@[i].id@ != r@[i2].id@,
{
    let ghost mems0 = old(memories)@;
    bump_matching(memories, q, layer_filter, &episode_filter, time_from, time_to, p, now_ms);
    proof {
        lemma_record_hits_congruent(
            mems0,
            memories@,
            now_ms,
            *p,
            q@,
            layer_filter,
            episode_filter,
            time_from,
            time_to,
        );
    }
    let mut hits = collect_record_hits(
        memories,
        q,
        layer_filter,
        &episode_filter,
        time_from,
        time_to,
    );
    append_vector_hits(&mut hits, &vector_hits);
    hits
}

// ---------------------------------------------------------------------------
// Updating a memory
// ---------------------------------------------------------------------------

/// Patch a memory: replace its content and metadata when given, bump the
/// version, and refresh the text index and the embedding when the content
/// changed. A missing memory is reported as not found.
pub fn memory_update(
    memories: &mut Vec<MemoryRecord>,
    text_index: &mut Vec<TextRow>,
    mem_embeddings: &mut Vec<MemEmbRow>,
    id: &Vec<u8>,
    content: Option<Vec<u8>>,
    metadata: Option<Vec<u8>>,
    new_embedding: Option<Vec<u8>>,
) -> (r: Result<u64, crate::store::StoreError>)
    requires
        uniq_mems(old(memories)@),
        uniq_texts(old(text_index)@),
        uniq_mem_embs(old(mem_embeddings)@),
        (content is Some) == (new_embedding is Some),
    ensures
        uniq_mems(final(memories)@),
        uniq_texts(final(text_index)@),
        uniq_mem_embs(final(mem_embeddings)@),
        (r is Err) == !has_mem(old(memories)@, id@),
        r is Err ==> r == Err::<u64, crate::store::StoreError>(crate::store::StoreError::NotFound)
            && *final(memories) == *old(memories) && *final(text_index) == *old(text_index)
            && *final(mem_embeddings) == *old(mem_embeddings),
        r matches Ok(v) ==> (mem_at(old(memories)@, id@) matches Some(o) && {
            &&& v == crate::kg::sat_add1(o.version)
            &&& mem_at(final(memories)@, id@) == Some(
                (MemoryRecord {
                    content: (match content {
                        Some(c) => c,
                        None => o.content,
                    }),
                    metadata: (match metadata {
                        Some(m) => Some(m),
                        None => o.metadata,
                    }),
                    version: crate::kg::sat_add1(o.version),
                    ..o
                }),
            )
            &&& forall|id2: Seq<u8>|
                id2 != id@ ==> mem_at(final(memories)@, id2) == mem_at(old(memories)@, id2)
            &&& (content matches Some(c) ==> mem_text_of(final(text_index)@, id@) == Some(c@))
            &&& (new_embedding matches Some(b) ==> mem_emb_of(final(mem_embeddings)@, id@) == Some(
                b@,
            ))
            &&& (content is None ==> *final(text_index) == *old(text_index)
                && *final(mem_embeddings) == *old(mem_embeddings))
            &&& forall|id2: Seq<u8>|
                id2 != id@ ==> mem_text_of(final(text_index)@, id2) == mem_text_of(
                    old(text_index)@,
                    id2,
                )
            &&& forall|id2: Seq<u8>|
                id2 != id@ ==> mem_emb_of(final(mem_embeddings)@, id2) == mem_emb_of(
                    old(mem_embeddings)@,
                    id2,
                )
        }),
{
    let found = find_mem(memories, id);
    match found {
        None => Err(crate::store::StoreError::NotFound),
        Some(i) => {
            let ghost pre = memories@;
            proof {
                lemma_mem_at(pre, i as int);
            }
            let o = memories.remove(i);
            let ghost o_ghost = o;
            let new_version: u64 = if o.version == u64::MAX {
                o.version
            } else {
                o.version + 1
            };
            let MemoryRecord {
                id: oid,
                content: ocont,
                metadata: ometa,
                layer,
                session_id,
                episode_id,
                created_at,
                expires_at,
                doc_refs,
                importance_milli,
                access_count,
                last_access_ts,
                version: _,
                promoted_at,
            } = o;
            let (new_content, refreshed) = match content {
                Some(c) => {
                    upsert_mem_text(text_index, id, &c);
                    (c, true)
                },
                None => (ocont, false),
            };
            if refreshed {
                match new_embedding {
                    Some(b) => {
                        upsert_mem_emb(mem_embeddings, id, b);
                    },
                    None => {
                        proof {
                            assert(false);
                        }
                    },
                }
            }
            let new_metadata = match metadata {
                Some(m) => Some(m),
                None => ometa,
            };
            let updated = MemoryRecord {
                id: oid,
                content: new_content,
                metadata: new_metadata,
                layer,
                session_id,
                episode_id,
                created_at,
                expires_at,
                doc_refs,
                importance_milli,
                access_count,
                last_access_ts,
                version: new_version,
                promoted_at,
            };
            memories.insert(i, updated);
            proof {
                assert(memories@ =~= pre.update(i as int, updated));
                assert(uniq_mems(memories@)) by {
                    assert forall|a: int, b: int| 0 <= a < b < memories@.len() implies
                        memories@[a].id@ != memories@[b].id@ by {
                        assert(memories@[a].id@ == pre[a].id@);
                        assert(memories@[b].id@ == pre[b].id@);
                    }
                }
                lemma_mem_at(memories@, i as int);
                assert forall|id2: Seq<u8>| id2 != id@ implies mem_at(memories@, id2) == mem_at(
                    pre,
                    id2,
                ) by {
                    if has_mem(memories@, id2) {
                        let k = choose|k: int| 0 <= k < memories@.len() && memories@[k].id@ == id2;
                        assert(k != i as int);
                        assert(memories@[k] == pre[k]);
                        lemma_mem_at(memories@, k);
                        lemma_mem_at(pre, k);
                    } else {
                        if has_mem(pre, id2) {
                            let k = choose|k: int| 0 <= k < pre.len() && pre[k].id@ == id2;
                            assert(k != i as int);
                            assert(memories@[k].id@ == id2);
                            assert(false);
                        }
                    }
                }
            }
            Ok(new_version)
        },
    }
}

// ---------------------------------------------------------------------------
// Deleting a memory
// ---------------------------------------------------------------------------

/// Drop every reference row of the memory `m`.
pub fn retain_refs_not_mem(refs: &mut Vec<RefRow>, m: &Vec<u8>)
    requires
        uniq_refs(old(refs)@),
    ensures
        uniq_refs(final(refs)@),
        !has_ref_for_mem(final(refs)@, m@),
        forall|m2: Seq<u8>, d2: Seq<u8>, c2: Seq<u8>|
            has_ref(final(refs)@, m2, d2, c2) == (has_ref(old(refs)@, m2, d2, c2) && m2 != m@),
{
    let ghost total = refs@;
    let n0: usize = refs.len();
    let mut kept: Vec<RefRow> = Vec::new();
    proof {
        assert(total.skip(0) =~= refs@);
    }
    while refs.len() > 0
        invariant
            uniq_refs(total),
            total.len() == n0,
            n0 <= usize::MAX,
            refs@.len() <= n0,
            refs@ == total.skip(n0 - refs@.len()),
            forall|e: RefRow| #[trigger]
                kept@.contains(e) == (exists|k: int|
                    0 <= k < n0 - refs@.len() && total[k] == e && e.mem_id@ != m@),
            forall|a: int, b: int| 0 <= a < b < kept@.len() ==> kept@[a] != kept@[b],
        decreases refs@.len(),
    {
        let ghost p = n0 - refs@.len();
        let x = refs.remove(0);
        proof {
            assert(x == total[p]);
            assert(refs@ =~= total.skip(p + 1));
        }
        let keep = !crate::bytes::bytes_eq(&x.mem_id, m);
        let ghost pk = kept@;
        if keep {
            kept.push(x);
            proof {
                assert forall|e: RefRow| #[trigger]
                    kept@.contains(e) == (exists|k: int|
                        0 <= k < p + 1 && total[k] == e && e.mem_id@ != m@) by {
                    if kept@.contains(e) {
                        let a = choose|a: int| 0 <= a < kept@.len() && kept@[a] == e;
                        if a < pk.len() {
                            assert(pk.contains(e));
                            let k = choose|k: int| 0 <= k < p && total[k] == e && e.mem_id@ != m@;
                            assert(0 <= k < p + 1 && total[k] == e);
                        } else {
                            assert(e == x);
                            assert(total[p] == e);
                        }
                    }
                    if exists|k: int| 0 <= k < p + 1 && total[k] == e && e.mem_id@ != m@ {
                        let k = choose|k: int| 0 <= k < p + 1 && total[k] == e && e.mem_id@ != m@;
                        if k == p {
                            assert(kept@[pk.len() as int] == x);
                            assert(kept@.contains(e));
                        } else {
                            assert(pk.contains(e));
                            let a = choose|a: int| 0 <= a < pk.len() && pk[a] == e;
                            assert(kept@[a] == e);
                            assert(kept@.contains(e));
                        }
                    }
                }
                assert forall|a: int, b: int| 0 <= a < b < kept@.len() implies kept@[a]
                    != kept@[b] by {
                    if b == pk.len() {
                        assert(kept@[b] == x);
                        assert(pk.contains(pk[a]));
                        let k = choose|k: int|
                            0 <= k < p && total[k] == pk[a] && pk[a].mem_id@ != m@;
                        if pk[a] == x {
                            assert(total[k].mem_id@ == total[p].mem_id@ && total[k].doc_id@
                                == total[p].doc_id@ && total[k].chunk_id@ == total[p].chunk_id@);
                            assert(false);
                        }
                        assert(kept@[a] == pk[a]);
                    } else {
                        assert(kept@[a] == pk[a]);
                        assert(kept@[b] == pk[b]);
                    }
                }
            }
        } else {
            proof {
                assert forall|e: RefRow| #[trigger]
                    kept@.contains(e) == (exists|k: int|
                        0 <= k < p + 1 && total[k] == e && e.mem_id@ != m@) by {
                    if kept@.contains(e) {
                        let k = choose|k: int| 0 <= k < p && total[k] == e && e.mem_id@ != m@;
                        assert(0 <= k < p + 1 && total[k] == e);
                    }
                    if exists|k: int| 0 <= k < p + 1 && total[k] == e && e.mem_id@ != m@ {
                        let k = choose|k: int| 0 <= k < p + 1 && total[k] == e && e.mem_id@ != m@;
                        if k == p {
                            assert(e == x);
                            assert(false);
                        } else {
                            assert(kept@.contains(e));
                        }
                    }
                }
            }
        }
    }
    proof {
        assert(uniq_refs(kept@)) by {
            assert forall|a: int, b: int| 0 <= a < b < kept@.len() implies !(kept@[a].mem_id@
                == kept@[b].mem_id@ && kept@[a].doc_id@ == kept@[b].doc_id@ && kept@[a].chunk_id@
                == kept@[b].chunk_id@) by {
                assert(kept@.contains(kept@[a]));
                assert(kept@.contains(kept@[b]));
                let ka = choose|k: int|
                    0 <= k < n0 && total[k] == kept@[a] && kept@[a].mem_id@ != m@;
                let kb = choose|k: int|
                    0 <= k < n0 && total[k] == kept@[b] && kept@[b].mem_id@ != m@;
                if ka == kb {
                    assert(kept@[a] == kept@[b]);
                    assert(false);
                } else if ka < kb {
                    assert(!(total[ka].mem_id@ == total[kb].mem_id@ && total[ka].doc_id@
                        == total[kb].doc_id@ && total[ka].chunk_id@ == total[kb].chunk_id@));
                } else {
                    assert(!(total[kb].mem_id@ == total[ka].mem_id@ && total[kb].doc_id@
                        == total[ka].doc_id@ && total[kb].chunk_id@ == total[ka].chunk_id@));
                }
            }
        }
    }
    let out = kept;
    *refs = out;
    proof {
        assert forall|m2: Seq<u8>, d2: Seq<u8>, c2: Seq<u8>|
            has_ref(final(refs)@, m2, d2, c2) == (has_ref(total, m2, d2, c2) && m2 != m@) by {
            if has_ref(final(refs)@, m2, d2, c2) {
                let a = choose|a: int|
                    0 <= a < final(refs)@.len() && final(refs)@[a].mem_id@ == m2
                        && final(refs)@[a].doc_id@ == d2 && final(refs)@[a].chunk_id@ == c2;
                assert(final(refs)@.contains(final(refs)@[a]));
                let k = choose|k: int|
                    0 <= k < n0 && total[k] == final(refs)@[a] && final(refs)@[a].mem_id@ != m@;
                assert(total[k].mem_id@ == m2 && total[k].doc_id@ == d2 && total[k].chunk_id@
                    == c2);
                assert(has_ref(total, m2, d2, c2));
            }
            if has_ref(total, m2, d2, c2) && m2 != m@ {
                let k = choose|k: int|
                    0 <= k < total.len() && total[k].mem_id@ == m2 && total[k].doc_id@ == d2
                        && total[k].chunk_id@ == c2;
                assert(total.contains(total[k]));
                assert(final(refs)@.contains(total[k]));
                let a = choose|a: int| 0 <= a < final(refs)@.len() && final(refs)@[a] == total[k];
                assert(final(refs)@[a].mem_id@ == m2 && final(refs)@[a].doc_id@ == d2
                    && final(refs)@[a].chunk_id@ == c2);
                assert(has_ref(final(refs)@, m2, d2, c2));
            }
        }
        assert(!has_ref_for_mem(final(refs)@, m@)) by {
            if has_ref_for_mem(final(refs)@, m@) {
                let a = choose|a: int|
                    0 <= a < final(refs)@.len() && final(refs)@[a].mem_id@ == m@;
                assert(final(refs)@.contains(final(refs)@[a]));
            }
        }
    }
}

/// Remove the text posting of a memory when present.
pub fn remove_mem_text(rows: &mut Vec<TextRow>, id: &Vec<u8>)
    requires
        uniq_texts(old(rows)@),
    ensures
        uniq_texts(final(rows)@),
        !has_mem_text(final(rows)@, id@),
        forall|id2: Seq<u8>|
            id2 != id@ ==> mem_text_of(final(rows)@, id2) == mem_text_of(old(rows)@, id2),
        forall|r: TextRow|
            final(rows)@.contains(r) == (old(rows)@.contains(r) && text_key_view(r.key) != (
                1int,
                id@,
                0int,
            )),
{
    let found = find_mem_text(rows, id);
    let ghost pre = rows@;
    match found {
        None => {
            proof {
                assert forall|r: TextRow|
                    pre.contains(r) == (pre.contains(r) && text_key_view(r.key) != (
                        1int,
                        id@,
                        0int,
                    )) by {
                    if pre.contains(r) && text_key_view(r.key) == (1int, id@, 0int) {
                        let k = choose|k: int| 0 <= k < pre.len() && pre[k] == r;
                        assert(has_mem_text(pre, id@));
                    }
                }
            }
        },
        Some(i) => {
            let ghost xi = i as int;
            rows.remove(i);
            proof {
                let post = rows@;
                assert forall|r: TextRow|
                    post.contains(r) == (pre.contains(r) && text_key_view(r.key) != (
                        1int,
                        id@,
                        0int,
                    )) by {
                    if post.contains(r) {
                        let k = choose|k: int| 0 <= k < post.len() && post[k] == r;
                        let k0 = if k < xi {
                            k
                        } else {
                            k + 1
                        };
                        assert(pre[k0] == r);
                        assert(pre.contains(r));
                        if text_key_view(r.key) == (1int, id@, 0int) {
                            if k0 < xi {
                                assert(text_key_view(pre[k0].key) != text_key_view(pre[xi].key));
                            } else {
                                assert(text_key_view(pre[xi].key) != text_key_view(pre[k0].key));
                            }
                            assert(false);
                        }
                    }
                    if pre.contains(r) && text_key_view(r.key) != (1int, id@, 0int) {
                        let k = choose|k: int| 0 <= k < pre.len() && pre[k] == r;
                        assert(k != xi);
                        if k < xi {
                            assert(post[k] == r);
                        } else {
                            assert(post[k - 1] == r);
                        }
                        assert(post.contains(r));
                    }
                }
                assert(uniq_texts(post)) by {
                    assert forall|a: int, b: int| 0 <= a < b < post.len() implies text_key_view(
                        post[a].key,
                    ) != text_key_view(post[b].key) by {
                        let a0 = if a < xi {
                            a
                        } else {
                            a + 1
                        };
                        let b0 = if b < xi {
                            b
                        } else {
                            b + 1
                        };
                        assert(post[a] == pre[a0]);
                        assert(post[b] == pre[b0]);
                    }
                }
                assert(!has_mem_text(post, id@)) by {
                    if has_mem_text(post, id@) {
                        let k = choose|k: int|
                            0 <= k < post.len() && text_key_view(post[k].key) == (1int, id@, 0int);
                        assert(post.contains(post[k]));
                    }
                }
                assert forall|id2: Seq<u8>| id2 != id@ implies mem_text_of(post, id2)
                    == mem_text_of(pre, id2) by {
                    if has_mem_text(post, id2) {
                        let k = choose|k: int|
                            0 <= k < post.len() && text_key_view(post[k].key) == (1int, id2, 0int);
                        lemma_mem_text_at(post, k, id2);
                        let k0 = if k < xi {
                            k
                        } else {
                            k + 1
                        };
                        assert(pre[k0] == post[k]);
                        lemma_mem_text_at(pre, k0, id2);
                    } else {
                        if has_mem_text(pre, id2) {
                            let k = choose|k: int|
                                0 <= k < pre.len() && text_key_view(pre[k].key) == (
                                    1int,
                                    id2,
                                    0int,
                                );
                            assert(k != xi);
                            if k < xi {
                                assert(text_key_view(post[k].key) == (1int, id2, 0int));
                            } else {
                                assert(text_key_view(post[k - 1].key) == (1int, id2, 0int));
                            }
                            assert(false);
                        }
                    }
                }
            }
        },
    }
}

/// Remove the embedding row of a memory when present.
pub fn remove_mem_emb(rows: &mut Vec<MemEmbRow>, id: &Vec<u8>)
    requires
        uniq_mem_embs(old(rows)@),
    ensures
        uniq_mem_embs(final(rows)@),
        !has_mem_emb(final(rows)@, id@),
        forall|id2: Seq<u8>|
            id2 != id@ ==> mem_emb_of(final(rows)@, id2) == mem_emb_of(old(rows)@, id2),
{
    let found = find_mem_emb(rows, id);
    let ghost pre = rows@;
    match found {
        None => {
        },
        Some(i) => {
            let ghost xi = i as int;
            rows.remove(i);
            proof {
                let post = rows@;
                assert(uniq_mem_embs(post)) by {
                    assert forall|a: int, b: int| 0 <= a < b < post.len() implies post[a].mem_id@
                        != post[b].mem_id@ by {
                        let a0 = if a < xi {
                            a
                        } else {
                            a + 1
                        };
                        let b0 = if b < xi {
                            b
                        } else {
                            b + 1
                        };
                        assert(post[a] == pre[a0]);
                        assert(post[b] == pre[b0]);
                    }
                }
                assert(!has_mem_emb(post, id@)) by {
                    if has_mem_emb(post, id@) {
                        let k = choose|k: int| 0 <= k < post.len() && post[k].mem_id@ == id@;
                        let k0 = if k < xi {
                            k
                        } else {
                            k + 1
                        };
                        assert(pre[k0].mem_id@ == id@);
                        assert(pre[xi].mem_id@ == id@);
                        if k0 < xi {
                            assert(pre[k0].mem_id@ != pre[xi].mem_id@);
                        } else {
                            assert(pre[xi].mem_id@ != pre[k0].mem_id@);
                        }
                        assert(false);
                    }
                }
                assert forall|id2: Seq<u8>| id2 != id@ implies mem_emb_of(post, id2) == mem_emb_of(
                    pre,
                    id2,
                ) by {
                    if has_mem_emb(post, id2) {
                        let k = choose|k: int| 0 <= k < post.len() && post[k].mem_id@ == id2;
                        lemma_mem_emb_at(post, k);
                        let k0 = if k < xi {
                            k
                        } else {
                            k + 1
                        };
                        assert(pre[k0] == post[k]);
                        lemma_mem_emb_at(pre, k0);
                    } else {
                        if has_mem_emb(pre, id2) {
                            let k = choose|k: int| 0 <= k < pre.len() && pre[k].mem_id@ == id2;
                            assert(k != xi);
                            if k < xi {
                                assert(post[k].mem_id@ == id2);
                            } else {
                                assert(post[k - 1].mem_id@ == id2);
                            }
                            assert(false);
                        }
                    }
                }
            }
        },
    }
}

/// Remove the memory record keyed by `id`, returning it when it existed.
pub fn remove_mem_rec(rows: &mut Vec<MemoryRecord>, id: &Vec<u8>) -> (r: Option<MemoryRecord>)
    requires
        uniq_mems(old(rows)@),
    ensures
        uniq_mems(final(rows)@),
        !has_mem(final(rows)@, id@),
        (r is Some) == has_mem(old(rows)@, id@),
        r matches Some(rec) ==> mem_at(old(rows)@, id@) == Some(rec) && rec.id@ == id@,
        r is None ==> *final(rows) == *old(rows),
        forall|id2: Seq<u8>| id2 != id@ ==> mem_at(final(rows)@, id2) == mem_at(old(rows)@, id2),
{
    let found = find_mem(rows, id);
    let ghost pre = rows@;
    match found {
        None => None,
        Some(i) => {
            let ghost xi = i as int;
            proof {
                lemma_mem_at(pre, xi);
            }
            let rec = rows.remove(i);
            proof {
                let post = rows@;
                assert(uniq_mems(post)) by {
                    assert forall|a: int, b: int| 0 <= a < b < post.len() implies post[a].id@
                        != post[b].id@ by {
                        let a0 = if a < xi {
                            a
                        } else {
                            a + 1
                        };
                        let b0 = if b < xi {
                            b
                        } else {
                            b + 1
                        };
                        assert(post[a] == pre[a0]);
                        assert(post[b] == pre[b0]);
                    }
                }
                assert(!has_mem(post, id@)) by {
                    if has_mem(post, id@) {
                        let k = choose|k: int| 0 <= k < post.len() && post[k].id@ == id@;
                        let k0 = if k < xi {
                            k
                        } else {
                            k + 1
                        };
                        assert(pre[k0].id@ == id@);
                        assert(pre[xi].id@ == id@);
                        if k0 < xi {
                            assert(pre[k0].id@ != pre[xi].id@);
                        } else {
                            assert(pre[xi].id@ != pre[k0].id@);
                        }
                        assert(false);
                    }
                }
                assert forall|id2: Seq<u8>| id2 != id@ implies mem_at(post, id2) == mem_at(
                    pre,
                    id2,
                ) by {
                    if has_mem(post, id2) {
                        let k = choose|k: int| 0 <= k < post.len() && post[k].id@ == id2;
                        lemma_mem_at(post, k);
                        let k0 = if k < xi {
                            k
                        } else {
                            k + 1
                        };
                        assert(pre[k0] == post[k]);
                        lemma_mem_at(pre, k0);
                    } else {
                        if has_mem(pre, id2) {
                            let k = choose|k: int| 0 <= k < pre.len() && pre[k].id@ == id2;
                            assert(k != xi);
                            if k < xi {
                                assert(post[k].id@ == id2);
                            } else {
                                assert(post[k - 1].id@ == id2);
                            }
                            assert(false);
                        }
                    }
                }
            }
            Some(rec)
        },
    }
}

/// Delete a memory and cascade: its outgoing edges, its text posting, its
/// embedding and its reference rows all go with it. With `backup` set,
/// the record is snapshotted into the backup tree first.
pub fn memory_delete(
    store: &mut crate::store::Store,
    id: &Vec<u8>,
    backup: bool,
    now_ms: i64,
) -> (r: Result<(), crate::store::StoreError>)
    requires
        old(store).wf(),
    ensures
        final(store).wf(),
        (r is Ok) == has_mem(old(store).memories@, id@),
        r is Err ==> r == Err::<(), crate::store::StoreError>(crate::store::StoreError::NotFound),
        !has_mem(final(store).memories@, id@),
        forall|id2: Seq<u8>|
            id2 != id@ ==> mem_at(final(store).memories@, id2) == mem_at(
                old(store).memories@,
                id2,
            ),
        !has_mem_text(final(store).text_index@, id@),
        forall|id2: Seq<u8>|
            id2 != id@ ==> mem_text_of(final(store).text_index@, id2) == mem_text_of(
                old(store).text_index@,
                id2,
            ),
        !has_mem_emb(final(store).mem_embeddings@, id@),
        forall|id2: Seq<u8>|
            id2 != id@ ==> mem_emb_of(final(store).mem_embeddings@, id2) == mem_emb_of(
                old(store).mem_embeddings@,
                id2,
            ),
        !has_ref_for_mem(final(store).doc_refs@, id@),
        forall|m2: Seq<u8>, d2: Seq<u8>, c2: Seq<u8>|
            has_ref(final(store).doc_refs@, m2, d2, c2) == (has_ref(
                old(store).doc_refs@,
                m2,
                d2,
                c2,
            ) && m2 != id@),
        forall|e: crate::store::EdgeRow| #[trigger]
            final(store).kg_edges@.contains(e) == (old(store).kg_edges@.contains(e) && e.src@
                != crate::kg::node_key_of(crate::store::NodeKind::Memory, id@)),
        (backup && has_mem(old(store).memories@, id@)) ==> (final(store).backups@.len() == old(
            store,
        ).backups@.len() + 1 && final(store).backups@.last().ts == now_ms && mem_at(
            old(store).memories@,
            id@,
        ) == Some(final(store).backups@.last().rec)),
        !(backup && has_mem(old(store).memories@, id@)) ==> final(store).backups == old(
            store,
        ).backups,
        final(store).docs == old(store).docs,
        final(store).docs_info == old(store).docs_info,
        final(store).docs_meta == old(store).docs_meta,
        final(store).path_latest == old(store).path_latest,
        final(store).versions == old(store).versions,
        final(store).chunks == old(store).chunks,
        final(store).embeddings == old(store).embeddings,
        final(store).kg_nodes == old(store).kg_nodes,
        final(store).kg_entities == old(store).kg_entities,
        final(store).kg_links == old(store).kg_links,
        final(store).neighbors == old(store).neighbors,
        final(store).vec_meta == old(store).vec_meta,
        final(store).consolidation_log == old(store).consolidation_log,
{
    let src = crate::kg::node_key(crate::store::NodeKind::Memory, id);
    crate::kg::retain_edges_not_src(&mut store.kg_edges, &src);
    remove_mem_text(&mut store.text_index, id);
    remove_mem_emb(&mut store.mem_embeddings, id);
    retain_refs_not_mem(&mut store.doc_refs, id);
    let removed = remove_mem_rec(&mut store.memories, id);
    match removed {
        Some(rec) => {
            if backup {
                store.backups.push(crate::store::BackupRow { ts: now_ms, rec });
            }
            Ok(())
        },
        None => Err(crate::store::StoreError::NotFound),
    }
}


/// Every edge out of a memory key belongs to a live memory.
pub open spec fn mem_edges_consistent(
    edges: Seq<crate::store::EdgeRow>,
    mems: Seq<MemoryRecord>,
) -> bool {
    forall|e: crate::store::EdgeRow, m: Seq<u8>|
        #![trigger edges.contains(e), crate::kg::node_key_of(crate::store::NodeKind::Memory, m)]
        edges.contains(e) && e.src@ == crate::kg::node_key_of(crate::store::NodeKind::Memory, m)
            ==> has_mem(mems, m)
}

/// Node keys of one kind are injective in the name.
pub proof fn lemma_node_key_injective(k: crate::store::NodeKind, a: Seq<u8>, b: Seq<u8>)
    requires
        crate::kg::node_key_of(k, a) == crate::kg::node_key_of(k, b),
    ensures
        a == b,
{
    let ka = crate::kg::node_key_of(k, a);
    let kb = crate::kg::node_key_of(k, b);
    let tl = crate::kg::kind_tag(k).len() + 2;
    assert(ka.len() == tl + a.len());
    assert(kb.len() == tl + b.len());
    assert(a =~= ka.subrange(tl as int, ka.len() as int));
    assert(b =~= kb.subrange(tl as int, kb.len() as int));
}

/// Deleting a memory keeps the edge tree consistent with the memory
/// tree: the cascade removes exactly the edges sourced at the deleted
/// memory's key, and every other memory survives. The hypotheses are
/// what `memory_delete` ensures of the edge and memory trees.
pub proof fn lemma_delete_preserves_mem_edges(
    edges0: Seq<crate::store::EdgeRow>,
    mems0: Seq<MemoryRecord>,
    edges1: Seq<crate::store::EdgeRow>,
    mems1: Seq<MemoryRecord>,
    id: Seq<u8>,
)
    requires
        mem_edges_consistent(edges0, mems0),
        forall|e: crate::store::EdgeRow| #[trigger]
            edges1.contains(e) == (edges0.contains(e) && e.src@ != crate::kg::node_key_of(
                crate::store::NodeKind::Memory,
                id,
            )),
        forall|m2: Seq<u8>| m2 != id ==> has_mem(mems1, m2) == #[trigger] has_mem(mems0, m2),
    ensures
        mem_edges_consistent(edges1, mems1),
{
    assert forall|e: crate::store::EdgeRow, m: Seq<u8>|
        #![trigger edges1.contains(e), crate::kg::node_key_of(crate::store::NodeKind::Memory, m)]
        edges1.contains(e) && e.src@ == crate::kg::node_key_of(
            crate::store::NodeKind::Memory,
            m,
        ) implies has_mem(mems1, m) by {
        assert(edges0.contains(e));
        assert(has_mem(mems0, m));
        if m == id {
            assert(e.src@ == crate::kg::node_key_of(crate::store::NodeKind::Memory, id));
            assert(false);
        }
    }
}

} // verus!
