//! The document pipeline: hashing, deduplication by content, versioning
//! by path, fixed-window chunking, embedding storage, text postings, and
//! entity linking into the knowledge graph.

use vstd::prelude::*;
use crate::digest::content_hash_of;
use crate::store::{
    ChunkRow, DocHashRow, DocInfoRow, DocMetaRow, EmbRow, PathRow, Store, StoreError, TextKey,
    TextRow, VersionRow, has_doc_hash, has_info, has_path, uniq_chunks, uniq_docs, uniq_embs,
    uniq_infos, uniq_metas, uniq_paths, uniq_texts, uniq_versions, has_chunk,
};

verus! {

/// How many fixed windows of a thousand bytes cover a text.
pub open spec fn chunk_count(len: int) -> int {
    (len + 999) / 1000
}

/// The `k`-th window of a document of `len` bytes has its chunk row:
/// start at the window offset, end at the window end or the text end.
pub open spec fn chunk_span_at(s: Seq<ChunkRow>, doc: Seq<u8>, k: int, len: int) -> bool {
    exists|i: int|
        0 <= i < s.len() && (#[trigger] s[i]).doc_id@ == doc && s[i].start == (k * 1000) as u64
            && s[i].end == (if k * 1000 + 1000 <= len {
            (k * 1000 + 1000) as u64
        } else {
            len as u64
        })
}

/// The document id mapped by a content hash, when present.
pub open spec fn doc_id_of(s: Seq<DocHashRow>, h: Seq<u8>) -> Option<Seq<u8>> {
    if has_doc_hash(s, h) {
        Some(s[choose|i: int| 0 <= i < s.len() && s[i].hash_hex@ == h].doc_id@)
    } else {
        None
    }
}

/// With unique hashes, `doc_id_of` reads the row at any matching index.
pub proof fn lemma_doc_id_at(s: Seq<DocHashRow>, i: int)
    requires
        uniq_docs(s),
        0 <= i < s.len(),
    ensures
        doc_id_of(s, s[i].hash_hex@) == Some(s[i].doc_id@),
{
    let h = s[i].hash_hex@;
    assert(has_doc_hash(s, h)) by {
        assert(s[i].hash_hex@ == h);
    }
    let k = choose|k: int| 0 <= k < s.len() && s[k].hash_hex@ == h;
    if k < i {
        assert(s[k].hash_hex@ != s[i].hash_hex@);
        assert(false);
    } else if i < k {
        assert(s[i].hash_hex@ != s[k].hash_hex@);
        assert(false);
    }
}

/// The latest document id at a path, when present.
pub open spec fn path_at(s: Seq<PathRow>, path: Seq<u8>) -> Option<Seq<u8>> {
    if has_path(s, path) {
        Some(s[choose|i: int| 0 <= i < s.len() && s[i].path@ == path].doc_id@)
    } else {
        None
    }
}

/// With unique paths, `path_at` reads the row at any matching index.
pub proof fn lemma_path_at(s: Seq<PathRow>, i: int)
    requires
        uniq_paths(s),
        0 <= i < s.len(),
    ensures
        path_at(s, s[i].path@) == Some(s[i].doc_id@),
{
    let p = s[i].path@;
    assert(has_path(s, p)) by {
        assert(s[i].path@ == p);
    }
    let k = choose|k: int| 0 <= k < s.len() && s[k].path@ == p;
    if k < i {
        assert(s[k].path@ != s[i].path@);
        assert(false);
    } else if i < k {
        assert(s[i].path@ != s[k].path@);
        assert(false);
    }
}

/// The descriptor of a document id, when present.
pub open spec fn info_at(s: Seq<DocInfoRow>, id: Seq<u8>) -> Option<DocInfoRow> {
    if has_info(s, id) {
        Some(s[choose|i: int| 0 <= i < s.len() && s[i].doc_id@ == id])
    } else {
        None
    }
}

/// With unique ids, `info_at` reads the row at any matching index.
pub proof fn lemma_info_at(s: Seq<DocInfoRow>, i: int)
    requires
        uniq_infos(s),
        0 <= i < s.len(),
    ensures
        info_at(s, s[i].doc_id@) == Some(s[i]),
{
    let id = s[i].doc_id@;
    assert(has_info(s, id)) by {
        assert(s[i].doc_id@ == id);
    }
    let k = choose|k: int| 0 <= k < s.len() && s[k].doc_id@ == id;
    if k < i {
        assert(s[k].doc_id@ != s[i].doc_id@);
        assert(false);
    } else if i < k {
        assert(s[i].doc_id@ != s[k].doc_id@);
        assert(false);
    }
}

/// Set the latest document id of a path.
pub fn upsert_path(rows: &mut Vec<PathRow>, path: &Vec<u8>, doc_id: &Vec<u8>)
    requires
        uniq_paths(old(rows)@),
    ensures
        uniq_paths(final(rows)@),
        path_at(final(rows)@, path@) == Some(doc_id@),
        forall|p2: Seq<u8>| p2 != path@ ==> path_at(final(rows)@, p2) == path_at(old(rows)@, p2),
{
    let n: usize = rows.len();
    let mut i: usize = 0;
    while i < n
        invariant
            n == rows@.len(),
            i <= n,
            *rows == *old(rows),
            uniq_paths(rows@),
            forall|j: int| 0 <= j < i ==> rows@[j].path@ != path@,
        decreases n - i,
    {
        if crate::bytes::bytes_eq(&rows[i].path, path) {
            let ghost pre = rows@;
            let ghost xi = i as int;
            let row = PathRow {
                path: crate::bytes::copy_bytes(path),
                doc_id: crate::bytes::copy_bytes(doc_id),
            };
            rows.set(i, row);
            proof {
                let post = rows@;
                assert(uniq_paths(post)) by {
                    assert forall|a: int, b: int| 0 <= a < b < post.len() implies post[a].path@
                        != post[b].path@ by {
                        assert(post[a].path@ == pre[a].path@);
                        assert(post[b].path@ == pre[b].path@);
                    }
                }
                lemma_path_at(post, xi);
                assert forall|p2: Seq<u8>| p2 != path@ implies path_at(post, p2) == path_at(
                    pre,
                    p2,
                ) by {
                    if has_path(post, p2) {
                        let k = choose|k: int| 0 <= k < post.len() && post[k].path@ == p2;
                        assert(k != xi);
                        assert(post[k] == pre[k]);
                        lemma_path_at(post, k);
                        lemma_path_at(pre, k);
                    } else {
                        if has_path(pre, p2) {
                            let k = choose|k: int| 0 <= k < pre.len() && pre[k].path@ == p2;
                            assert(k != xi);
                            assert(post[k].path@ == p2);
                            assert(false);
                        }
                    }
                }
            }
            return;
        }
        i = i + 1;
    }
    let ghost pre = rows@;
    let row = PathRow {
        path: crate::bytes::copy_bytes(path),
        doc_id: crate::bytes::copy_bytes(doc_id),
    };
    rows.push(row);
    proof {
        let post = rows@;
        let xi = pre.len() as int;
        assert(post[xi].path@ == path@);
        assert(uniq_paths(post)) by {
            assert forall|a: int, b: int| 0 <= a < b < post.len() implies post[a].path@
                != post[b].path@ by {
                if b == xi {
                    assert(post[a] == pre[a]);
                } else {
                    assert(post[a] == pre[a]);
                    assert(post[b] == pre[b]);
                }
            }
        }
        lemma_path_at(post, xi);
        assert forall|p2: Seq<u8>| p2 != path@ implies path_at(post, p2) == path_at(pre, p2) by {
            if has_path(post, p2) {
                let k = choose|k: int| 0 <= k < post.len() && post[k].path@ == p2;
                assert(k != xi);
                assert(post[k] == pre[k]);
                lemma_path_at(post, k);
                lemma_path_at(pre, k);
            } else {
                if has_path(pre, p2) {
                    let k = choose|k: int| 0 <= k < pre.len() && pre[k].path@ == p2;
                    assert(post[k].path@ == p2);
                    assert(false);
                }
            }
        }
    }
}

/// Set the descriptor of a document id.
pub fn upsert_info(rows: &mut Vec<DocInfoRow>, row: DocInfoRow)
    requires
        uniq_infos(old(rows)@),
    ensures
        uniq_infos(final(rows)@),
        info_at(final(rows)@, row.doc_id@) == Some(row),
        forall|id2: Seq<u8>|
            id2 != row.doc_id@ ==> info_at(final(rows)@, id2) == info_at(old(rows)@, id2),
{
    let n: usize = rows.len();
    let mut i: usize = 0;
    let ghost the_row = row;
    while i < n
        invariant
            n == rows@.len(),
            i <= n,
            *rows == *old(rows),
            uniq_infos(rows@),
            forall|j: int| 0 <= j < i ==> rows@[j].doc_id@ != the_row.doc_id@,
            row == the_row,
        decreases n - i,
    {
        if crate::bytes::bytes_eq(&rows[i].doc_id, &row.doc_id) {
            let ghost pre = rows@;
            let ghost xi = i as int;
            rows.set(i, row);
            proof {
                let post = rows@;
                assert(uniq_infos(post)) by {
                    assert forall|a: int, b: int| 0 <= a < b < post.len() implies post[a].doc_id@
                        != post[b].doc_id@ by {
                        assert(post[a].doc_id@ == pre[a].doc_id@);
                        assert(post[b].doc_id@ == pre[b].doc_id@);
                    }
                }
                lemma_info_at(post, xi);
                assert forall|id2: Seq<u8>| id2 != the_row.doc_id@ implies info_at(post, id2)
                    == info_at(pre, id2) by {
                    if has_info(post, id2) {
                        let k = choose|k: int| 0 <= k < post.len() && post[k].doc_id@ == id2;
                        assert(k != xi);
                        assert(post[k] == pre[k]);
                        lemma_info_at(post, k);
                        lemma_info_at(pre, k);
                    } else {
                        if has_info(pre, id2) {
                            let k = choose|k: int| 0 <= k < pre.len() && pre[k].doc_id@ == id2;
                            assert(k != xi);
                            assert(post[k].doc_id@ == id2);
                            assert(false);
                        }
                    }
                }
            }
            return;
        }
        i = i + 1;
    }
    let ghost pre = rows@;
    rows.push(row);
    proof {
        let post = rows@;
        let xi = pre.len() as int;
        assert(post[xi] == the_row);
        assert(uniq_infos(post)) by {
            assert forall|a: int, b: int| 0 <= a < b < post.len() implies post[a].doc_id@
                != post[b].doc_id@ by {
                if b == xi {
                    assert(post[a] == pre[a]);
                } else {
                    assert(post[a] == pre[a]);
                    assert(post[b] == pre[b]);
                }
            }
        }
        lemma_info_at(post, xi);
        assert forall|id2: Seq<u8>| id2 != the_row.doc_id@ implies info_at(post, id2) == info_at(
            pre,
            id2,
        ) by {
            if has_info(post, id2) {
                let k = choose|k: int| 0 <= k < post.len() && post[k].doc_id@ == id2;
                assert(k != xi);
                assert(post[k] == pre[k]);
                lemma_info_at(post, k);
                lemma_info_at(pre, k);
            } else {
                if has_info(pre, id2) {
                    let k = choose|k: int| 0 <= k < pre.len() && pre[k].doc_id@ == id2;
                    assert(post[k].doc_id@ == id2);
                    assert(false);
                }
            }
        }
    }
}

/// Set the document id at a (path, version) key.
pub fn upsert_version(rows: &mut Vec<VersionRow>, path: &Vec<u8>, version: u64, doc_id: &Vec<u8>)
    requires
        uniq_versions(old(rows)@),
    ensures
        uniq_versions(final(rows)@),
        exists|i: int|
            0 <= i < final(rows)@.len() && (#[trigger] final(rows)@[i]).path@ == path@
                && final(rows)@[i].version == version && final(rows)@[i].doc_id@ == doc_id@,
{
    let n: usize = rows.len();
    let mut i: usize = 0;
    while i < n
        invariant
            n == rows@.len(),
            i <= n,
            *rows == *old(rows),
            uniq_versions(rows@),
            forall|j: int|
                0 <= j < i ==> !(rows@[j].path@ == path@ && rows@[j].version == version),
        decreases n - i,
    {
        if rows[i].version == version && crate::bytes::bytes_eq(&rows[i].path, path) {
            let ghost pre = rows@;
            let ghost xi = i as int;
            let row = VersionRow {
                path: crate::bytes::copy_bytes(path),
                version,
                doc_id: crate::bytes::copy_bytes(doc_id),
            };
            rows.set(i, row);
            proof {
                let post = rows@;
                assert(post[xi].path@ == path@ && post[xi].version == version && post[xi].doc_id@
                    == doc_id@);
                assert(uniq_versions(post)) by {
                    assert forall|a: int, b: int| 0 <= a < b < post.len() implies !(post[a].path@
                        == post[b].path@ && post[a].version == post[b].version) by {
                        assert(post[a].path@ == pre[a].path@ && post[a].version == pre[a].version);
                        assert(post[b].path@ == pre[b].path@ && post[b].version == pre[b].version);
                    }
                }
            }
            return;
        }
        i = i + 1;
    }
    let ghost pre = rows@;
    let row = VersionRow {
        path: crate::bytes::copy_bytes(path),
        version,
        doc_id: crate::bytes::copy_bytes(doc_id),
    };
    rows.push(row);
    proof {
        let post = rows@;
        let xi = pre.len() as int;
        assert(post[xi].path@ == path@ && post[xi].version == version && post[xi].doc_id@
            == doc_id@);
        assert(uniq_versions(post)) by {
            assert forall|a: int, b: int| 0 <= a < b < post.len() implies !(post[a].path@
                == post[b].path@ && post[a].version == post[b].version) by {
                if b == xi {
                    assert(post[a] == pre[a]);
                } else {
                    assert(post[a] == pre[a]);
                    assert(post[b] == pre[b]);
                }
            }
        }
    }
}


/// Strictly sorted byte strings are pairwise distinct.
pub proof fn lemma_sorted_distinct(s: Seq<Vec<u8>>)
    requires
        crate::order::strictly_sorted(crate::order::views(s)),
    ensures
        crate::kg::distinct_views(s),
{
    assert forall|i: int, j: int| 0 <= i < j < s.len() implies s[i]@ != s[j]@ by {
        assert(crate::order::lex_lt(crate::order::views(s)[i], crate::order::views(s)[j]));
        if s[i]@ == s[j]@ {
            crate::order::lemma_lex_irrefl(s[i]@);
        }
    }
}

/// Store or replace caller metadata for a document.
fn upsert_meta(rows: &mut Vec<DocMetaRow>, doc_id: &Vec<u8>, meta: Vec<u8>)
    requires
        uniq_metas(old(rows)@),
    ensures
        uniq_metas(final(rows)@),
{
    let n: usize = rows.len();
    let mut i: usize = 0;
    while i < n
        invariant
            n == rows@.len(),
            i <= n,
            *rows == *old(rows),
            uniq_metas(rows@),
            forall|j: int| 0 <= j < i ==> rows@[j].doc_id@ != doc_id@,
        decreases n - i,
    {
        if crate::bytes::bytes_eq(&rows[i].doc_id, doc_id) {
            let ghost pre = rows@;
            rows.set(i, DocMetaRow { doc_id: crate::bytes::copy_bytes(doc_id), meta });
            proof {
                assert forall|a: int, b: int| 0 <= a < b < rows@.len() implies rows@[a].doc_id@
                    != rows@[b].doc_id@ by {
                    assert(rows@[a].doc_id@ == pre[a].doc_id@);
                    assert(rows@[b].doc_id@ == pre[b].doc_id@);
                }
            }
            return;
        }
        i = i + 1;
    }
    let ghost pre = rows@;
    rows.push(DocMetaRow { doc_id: crate::bytes::copy_bytes(doc_id), meta });
    proof {
        let post = rows@;
        let xi = pre.len() as int;
        assert forall|a: int, b: int| 0 <= a < b < post.len() implies post[a].doc_id@
            != post[b].doc_id@ by {
            if b == xi {
                assert(post[a] == pre[a]);
            } else {
                assert(post[a] == pre[a]);
                assert(post[b] == pre[b]);
            }
        }
    }
}

/// Store or replace the chunk row keyed `(doc, start)`.
fn upsert_chunk(rows: &mut Vec<ChunkRow>, doc_id: &Vec<u8>, start: u64, end: u64, chunk_id: Vec<u8>)
    requires
        uniq_chunks(old(rows)@),
    ensures
        uniq_chunks(final(rows)@),
        has_chunk(final(rows)@, doc_id@, start),
        exists|i: int|
            0 <= i < final(rows)@.len() && (#[trigger] final(rows)@[i]).doc_id@ == doc_id@
                && final(rows)@[i].start == start && final(rows)@[i].end == end,
        forall|d2: Seq<u8>, s2: u64|
            has_chunk(old(rows)@, d2, s2) ==> has_chunk(final(rows)@, d2, s2),
        forall|r: ChunkRow|
            old(rows)@.contains(r) && !(r.doc_id@ == doc_id@ && r.start == start) ==> final(rows)@.contains(r),
{
    let n: usize = rows.len();
    let mut i: usize = 0;
    while i < n
        invariant
            n == rows@.len(),
            i <= n,
            *rows == *old(rows),
            uniq_chunks(rows@),
            forall|j: int| 0 <= j < i ==> !(rows@[j].doc_id@ == doc_id@ && rows@[j].start == start),
        decreases n - i,
    {
        if rows[i].start == start && crate::bytes::bytes_eq(&rows[i].doc_id, doc_id) {
            let ghost pre = rows@;
            let ghost xi = i as int;
            rows.set(
                i,
                ChunkRow { doc_id: crate::bytes::copy_bytes(doc_id), start, end, chunk_id },
            );
            proof {
                let post = rows@;
                assert(post[xi].doc_id@ == doc_id@ && post[xi].start == start && post[xi].end
                    == end);
                assert forall|a: int, b: int| 0 <= a < b < post.len() implies !(post[a].doc_id@
                    == post[b].doc_id@ && post[a].start == post[b].start) by {
                    assert(post[a].doc_id@ == pre[a].doc_id@ && post[a].start == pre[a].start);
                    assert(post[b].doc_id@ == pre[b].doc_id@ && post[b].start == pre[b].start);
                }
                assert forall|d2: Seq<u8>, s2: u64|
                    has_chunk(pre, d2, s2) implies has_chunk(post, d2, s2) by {
                    let k = choose|k: int|
                        0 <= k < pre.len() && pre[k].doc_id@ == d2 && pre[k].start == s2;
                    if k == xi {
                        assert(post[xi].doc_id@ == d2 && post[xi].start == s2);
                    } else {
                        assert(post[k] == pre[k]);
                    }
                }
                assert forall|r: ChunkRow|
                    pre.contains(r) && !(r.doc_id@ == doc_id@ && r.start == start) implies
                    post.contains(r) by {
                    let k = choose|k: int| 0 <= k < pre.len() && pre[k] == r;
                    assert(k != xi);
                    assert(post[k] == r);
                }
            }
            return;
        }
        i = i + 1;
    }
    let ghost pre = rows@;
    rows.push(ChunkRow { doc_id: crate::bytes::copy_bytes(doc_id), start, end, chunk_id });
    proof {
        let post = rows@;
        let xi = pre.len() as int;
        assert(post[xi].doc_id@ == doc_id@ && post[xi].start == start && post[xi].end == end);
        assert forall|a: int, b: int| 0 <= a < b < post.len() implies !(post[a].doc_id@
            == post[b].doc_id@ && post[a].start == post[b].start) by {
            if b == xi {
                assert(post[a] == pre[a]);
            } else {
                assert(post[a] == pre[a]);
                assert(post[b] == pre[b]);
            }
        }
        assert forall|d2: Seq<u8>, s2: u64| has_chunk(pre, d2, s2) implies has_chunk(
            post,
            d2,
            s2,
        ) by {
            let k = choose|k: int| 0 <= k < pre.len() && pre[k].doc_id@ == d2 && pre[k].start == s2;
            assert(post[k] == pre[k]);
        }
        assert forall|r: ChunkRow|
            pre.contains(r) && !(r.doc_id@ == doc_id@ && r.start == start) implies post.contains(
            r,
        ) by {
            let k = choose|k: int| 0 <= k < pre.len() && pre[k] == r;
            assert(post[k] == r);
        }
    }
}

/// Store or replace the packed chunk embedding keyed `(doc, start)`.
fn upsert_emb_row(rows: &mut Vec<EmbRow>, doc_id: &Vec<u8>, start: u64, bytes: Vec<u8>)
    requires
        uniq_embs(old(rows)@),
    ensures
        uniq_embs(final(rows)@),
        exists|i: int|
            0 <= i < final(rows)@.len() && (#[trigger] final(rows)@[i]).doc_id@ == doc_id@
                && final(rows)@[i].start == start && final(rows)@[i].bytes@ == bytes@,
        forall|r: EmbRow|
            final(rows)@.contains(r) ==> (old(rows)@.contains(r) || (r.doc_id@ == doc_id@
                && r.start == start && r.bytes@ == bytes@)),
        forall|r: EmbRow|
            old(rows)@.contains(r) && !(r.doc_id@ == doc_id@ && r.start == start) ==> final(rows)@.contains(r),
{
    let ghost bv = bytes@;
    let n: usize = rows.len();
    let mut i: usize = 0;
    while i < n
        invariant
            n == rows@.len(),
            i <= n,
            *rows == *old(rows),
            bv == bytes@,
            uniq_embs(rows@),
            forall|j: int| 0 <= j < i ==> !(rows@[j].doc_id@ == doc_id@ && rows@[j].start == start),
        decreases n - i,
    {
        if rows[i].start == start && crate::bytes::bytes_eq(&rows[i].doc_id, doc_id) {
            let ghost pre = rows@;
            let ghost xi = i as int;
            rows.set(i, EmbRow { doc_id: crate::bytes::copy_bytes(doc_id), start, bytes });
            proof {
                let post = rows@;
                assert(post[xi].doc_id@ == doc_id@ && post[xi].start == start && post[xi].bytes@
                    == bv);
                assert forall|a: int, b: int| 0 <= a < b < post.len() implies !(post[a].doc_id@
                    == post[b].doc_id@ && post[a].start == post[b].start) by {
                    assert(post[a].doc_id@ == pre[a].doc_id@ && post[a].start == pre[a].start);
                    assert(post[b].doc_id@ == pre[b].doc_id@ && post[b].start == pre[b].start);
                }
                assert forall|r: EmbRow|
                    post.contains(r) implies (pre.contains(r) || (r.doc_id@ == doc_id@ && r.start
                        == start && r.bytes@ == bv)) by {
                    let k = choose|k: int| 0 <= k < post.len() && post[k] == r;
                    if k != xi {
                        assert(pre[k] == r);
                    }
                }
                assert forall|r: EmbRow|
                    pre.contains(r) && !(r.doc_id@ == doc_id@ && r.start == start) implies
                    post.contains(r) by {
                    let k = choose|k: int| 0 <= k < pre.len() && pre[k] == r;
                    assert(k != xi);
                    assert(post[k] == r);
                }
            }
            return;
        }
        i = i + 1;
    }
    let ghost pre = rows@;
    rows.push(EmbRow { doc_id: crate::bytes::copy_bytes(doc_id), start, bytes });
    proof {
        let post = rows@;
        let xi = pre.len() as int;
        assert(post[xi].doc_id@ == doc_id@ && post[xi].start == start && post[xi].bytes@ == bv);
        assert forall|a: int, b: int| 0 <= a < b < post.len() implies !(post[a].doc_id@
            == post[b].doc_id@ && post[a].start == post[b].start) by {
            if b == xi {
                assert(post[a] == pre[a]);
            } else {
                assert(post[a] == pre[a]);
                assert(post[b] == pre[b]);
            }
        }
        assert forall|r: EmbRow|
            post.contains(r) implies (pre.contains(r) || (r.doc_id@ == doc_id@ && r.start == start
                && r.bytes@ == bv)) by {
            let k = choose|k: int| 0 <= k < post.len() && post[k] == r;
            if k != xi {
                assert(pre[k] == r);
            }
        }
        assert forall|r: EmbRow|
            pre.contains(r) && !(r.doc_id@ == doc_id@ && r.start == start) implies post.contains(
            r,
        ) by {
            let k = choose|k: int| 0 <= k < pre.len() && pre[k] == r;
            assert(post[k] == r);
        }
    }
}

/// Store or replace the text posting of a chunk. Memory postings keep
/// their keys, so every memory text lookup is unchanged.
fn upsert_chunk_text(rows: &mut Vec<TextRow>, doc_id: &Vec<u8>, start: u64, slice: Vec<u8>)
    requires
        uniq_texts(old(rows)@),
    ensures
        uniq_texts(final(rows)@),
        forall|id2: Seq<u8>|
            crate::memory::mem_text_of(final(rows)@, id2) == crate::memory::mem_text_of(
                old(rows)@,
                id2,
            ),
{
    let ghost key_v = (0int, doc_id@, start as int);
    let n: usize = rows.len();
    let mut i: usize = 0;
    while i < n
        invariant
            n == rows@.len(),
            i <= n,
            *rows == *old(rows),
            uniq_texts(rows@),
            key_v == (0int, doc_id@, start as int),
            forall|j: int| 0 <= j < i ==> crate::store::text_key_view(rows@[j].key) != key_v,
        decreases n - i,
    {
        let hit = match &rows[i].key {
            TextKey::Chunk { doc_id: d, start: s } => *s == start && crate::bytes::bytes_eq(
                d,
                doc_id,
            ),
            TextKey::Mem { .. } => false,
        };
        if hit {
            let ghost pre = rows@;
            let ghost xi = i as int;
            let row = TextRow {
                key: TextKey::Chunk { doc_id: crate::bytes::copy_bytes(doc_id), start },
                text: slice,
            };
            proof {
                assert(crate::store::text_key_view(row.key) == key_v);
                assert(crate::store::text_key_view(pre[xi].key) == key_v);
            }
            rows.set(i, row);
            proof {
                let post = rows@;
                assert forall|a: int, b: int| 0 <= a < b < post.len() implies
                    crate::store::text_key_view(post[a].key) != crate::store::text_key_view(
                    post[b].key,
                ) by {
                    if a != xi && b != xi {
                        assert(post[a] == pre[a]);
                        assert(post[b] == pre[b]);
                    } else if a == xi {
                        assert(post[b] == pre[b]);
                        assert(crate::store::text_key_view(post[a].key)
                            == crate::store::text_key_view(pre[xi].key));
                    } else {
                        assert(post[a] == pre[a]);
                        assert(crate::store::text_key_view(post[b].key)
                            == crate::store::text_key_view(pre[xi].key));
                    }
                }
                assert forall|id2: Seq<u8>|
                    crate::memory::mem_text_of(post, id2) == crate::memory::mem_text_of(
                        pre,
                        id2,
                    ) by {
                    if crate::store::has_mem_text(post, id2) {
                        let k = choose|k: int|
                            0 <= k < post.len() && crate::store::text_key_view(post[k].key) == (
                                1int,
                                id2,
                                0int,
                            );
                        assert(k != xi);
                        assert(post[k] == pre[k]);
                        crate::memory::lemma_mem_text_at(post, k, id2);
                        crate::memory::lemma_mem_text_at(pre, k, id2);
                    } else {
                        if crate::store::has_mem_text(pre, id2) {
                            let k = choose|k: int|
                                0 <= k < pre.len() && crate::store::text_key_view(pre[k].key) == (
                                    1int,
                                    id2,
                                    0int,
                                );
                            assert(k != xi);
                            assert(crate::store::text_key_view(post[k].key) == (1int, id2, 0int));
                            assert(false);
                        }
                    }
                }
            }
            return;
        }
        i = i + 1;
    }
    let ghost pre = rows@;
    let row = TextRow {
        key: TextKey::Chunk { doc_id: crate::bytes::copy_bytes(doc_id), start },
        text: slice,
    };
    proof {
        assert(crate::store::text_key_view(row.key) == key_v);
    }
    rows.push(row);
    proof {
        let post = rows@;
        let xi = pre.len() as int;
        assert forall|a: int, b: int| 0 <= a < b < post.len() implies crate::store::text_key_view(
            post[a].key,
        ) != crate::store::text_key_view(post[b].key) by {
            if b == xi {
                assert(post[a] == pre[a]);
            } else {
                assert(post[a] == pre[a]);
                assert(post[b] == pre[b]);
            }
        }
        assert forall|id2: Seq<u8>|
            crate::memory::mem_text_of(post, id2) == crate::memory::mem_text_of(pre, id2) by {
            if crate::store::has_mem_text(post, id2) {
                let k = choose|k: int|
                    0 <= k < post.len() && crate::store::text_key_view(post[k].key) == (
                        1int,
                        id2,
                        0int,
                    );
                assert(k != xi);
                assert(post[k] == pre[k]);
                crate::memory::lemma_mem_text_at(post, k, id2);
                crate::memory::lemma_mem_text_at(pre, k, id2);
            } else {
                if crate::store::has_mem_text(pre, id2) {
                    let k = choose|k: int|
                        0 <= k < pre.len() && crate::store::text_key_view(pre[k].key) == (
                            1int,
                            id2,
                            0int,
                        );
                    assert(crate::store::text_key_view(post[k].key) == (1int, id2, 0int));
                    assert(false);
                }
            }
        }
    }
}

/// Ensure an `Entity` node and a `Mentions` edge from each entity to the
/// document.
fn link_doc_entities(
    nodes: &mut Vec<crate::store::NodeRow>,
    edges: &mut Vec<crate::store::EdgeRow>,
    doc_id: &Vec<u8>,
    ents: &Vec<Vec<u8>>,
    now_ms: i64,
)
    requires
        crate::store::uniq_nodes(old(nodes)@),
        crate::store::uniq_edges(old(edges)@),
    ensures
        crate::store::uniq_nodes(final(nodes)@),
        crate::store::uniq_edges(final(edges)@),
        forall|e: Seq<u8>| #[trigger] crate::order::views(ents@).contains(e) ==> {
            &&& crate::store::has_node(final(nodes)@, crate::store::NodeKind::Entity, e)
            &&& crate::store::has_edge(
                final(edges)@,
                crate::kg::node_key_of(crate::store::NodeKind::Entity, e),
                crate::kg::node_key_of(crate::store::NodeKind::Document, doc_id@),
                crate::store::Relation::Mentions,
            )
        },
        forall|k2: crate::store::NodeKind, n2: Seq<u8>|
            crate::store::has_node(old(nodes)@, k2, n2) ==> crate::store::has_node(
                final(nodes)@,
                k2,
                n2,
            ),
{
    let n: usize = ents.len();
    let mut i: usize = 0;
    while i < n
        invariant
            n == ents@.len(),
            i <= n,
            crate::store::uniq_nodes(nodes@),
            crate::store::uniq_edges(edges@),
            forall|j: int| 0 <= j < i ==> {
                &&& crate::store::has_node(
                    nodes@,
                    crate::store::NodeKind::Entity,
                    #[trigger] ents@[j]@,
                )
                &&& crate::store::has_edge(
                    edges@,
                    crate::kg::node_key_of(crate::store::NodeKind::Entity, ents@[j]@),
                    crate::kg::node_key_of(crate::store::NodeKind::Document, doc_id@),
                    crate::store::Relation::Mentions,
                )
            },
            forall|k2: crate::store::NodeKind, n2: Seq<u8>|
                crate::store::has_node(old(nodes)@, k2, n2) ==> crate::store::has_node(
                    nodes@,
                    k2,
                    n2,
                ),
        decreases n - i,
    {
        let e = crate::bytes::copy_bytes(&ents[i]);
        crate::kg::ensure_node(nodes, crate::store::NodeKind::Entity, e, now_ms, None);
        crate::kg::add_edge(edges, &ents[i], doc_id, crate::store::Relation::Mentions, now_ms);
        i = i + 1;
    }
    proof {
        assert forall|e: Seq<u8>| #[trigger] crate::order::views(ents@).contains(e) implies {
            &&& crate::store::has_node(nodes@, crate::store::NodeKind::Entity, e)
            &&& crate::store::has_edge(
                edges@,
                crate::kg::node_key_of(crate::store::NodeKind::Entity, e),
                crate::kg::node_key_of(crate::store::NodeKind::Document, doc_id@),
                crate::store::Relation::Mentions,
            )
        } by {
            let j = choose|j: int|
                0 <= j < crate::order::views(ents@).len() && crate::order::views(ents@)[j] == e;
            assert(ents@[j]@ == e);
        }
    }
}

/// Relate the current document to each of the given peers by entity
/// overlap.
fn relate_all(
    links: &Vec<crate::store::LinkRow>,
    edges: &mut Vec<crate::store::EdgeRow>,
    cur: &Vec<u8>,
    others: &Vec<Vec<u8>>,
    now_ms: i64,
)
    requires
        crate::store::uniq_edges(old(edges)@),
    ensures
        crate::store::uniq_edges(final(edges)@),
        forall|s2: Seq<u8>, d2: Seq<u8>, r2: crate::store::Relation|
            crate::store::has_edge(old(edges)@, s2, d2, r2) ==> crate::store::has_edge(
                final(edges)@,
                s2,
                d2,
                r2,
            ),
{
    let n: usize = others.len();
    let mut i: usize = 0;
    while i < n
        invariant
            n == others@.len(),
            i <= n,
            crate::store::uniq_edges(edges@),
            forall|s2: Seq<u8>, d2: Seq<u8>, r2: crate::store::Relation|
                crate::store::has_edge(old(edges)@, s2, d2, r2) ==> crate::store::has_edge(
                    edges@,
                    s2,
                    d2,
                    r2,
                ),
        decreases n - i,
    {
        crate::kg::relate_documents_by_entities(links, edges, cur, &others[i], now_ms);
        i = i + 1;
    }
}

/// Apply path versioning: the new latest id, the descriptor row with the
/// computed version, and the `(path, version)` row. The version stays
/// when the path already points at this id, and advances by one
/// otherwise.
fn apply_versioning(
    paths: &mut Vec<PathRow>,
    infos: &mut Vec<DocInfoRow>,
    vers: &mut Vec<VersionRow>,
    pth: &Vec<u8>,
    id: &Vec<u8>,
    h: &Vec<u8>,
    now_ms: i64,
) -> (ver: u64)
    requires
        uniq_paths(old(paths)@),
        uniq_infos(old(infos)@),
        uniq_versions(old(vers)@),
    ensures
        uniq_paths(final(paths)@),
        uniq_infos(final(infos)@),
        uniq_versions(final(vers)@),
        ({
            let prev = path_at(old(paths)@, pth@);
            let prev_ver = (match prev {
                Some(pid) => (match info_at(old(infos)@, pid) {
                    Some(inf) => inf.version,
                    None => 0,
                }),
                None => 0,
            });
            ver == if prev == Some(id@) {
                prev_ver
            } else {
                crate::kg::sat_add1(prev_ver)
            }
        }),
        path_at(final(paths)@, pth@) == Some(id@),
        forall|p2: Seq<u8>| p2 != pth@ ==> path_at(final(paths)@, p2) == path_at(old(paths)@, p2),
        (info_at(final(infos)@, id@) matches Some(inf) && inf.path@ == pth@ && inf.version == ver
            && inf.hash_hex@ == h@ && inf.created_at == now_ms && (match path_at(old(paths)@, pth@) {
            Some(pid) => inf.prev_id matches Some(pv) && pv@ == pid,
            None => inf.prev_id is None,
        })),
        forall|id2: Seq<u8>| id2 != id@ ==> info_at(final(infos)@, id2) == info_at(old(infos)@, id2),
        exists|i: int|
            0 <= i < final(vers)@.len() && (#[trigger] final(vers)@[i]).path@ == pth@
                && final(vers)@[i].version == ver && final(vers)@[i].doc_id@ == id@,
{
    let prev_idx = crate::store::find_path(paths, pth);
    let (prev_ver, same): (u64, bool) = match prev_idx {
        None => (0, false),
        Some(pi) => {
            proof {
                lemma_path_at(paths@, pi as int);
            }
            let same = crate::bytes::bytes_eq(&paths[pi].doc_id, id);
            let pv = match crate::store::find_info(infos, &paths[pi].doc_id) {
                Some(ii) => {
                    proof {
                        lemma_info_at(infos@, ii as int);
                    }
                    infos[ii].version
                },
                None => 0,
            };
            (pv, same)
        },
    };
    let ver: u64 = if same {
        prev_ver
    } else {
        if prev_ver == u64::MAX {
            prev_ver
        } else {
            prev_ver + 1
        }
    };
    let prev_id: Option<Vec<u8>> = match prev_idx {
        None => None,
        Some(pi) => Some(crate::bytes::copy_bytes(&paths[pi].doc_id)),
    };
    upsert_info(
        infos,
        DocInfoRow {
            doc_id: crate::bytes::copy_bytes(id),
            path: crate::bytes::copy_bytes(pth),
            hash_hex: crate::bytes::copy_bytes(h),
            version: ver,
            prev_id,
            created_at: now_ms,
        },
    );
    upsert_path(paths, pth, id);
    upsert_version(vers, pth, ver, id);
    ver
}

/// The result of storing a document.
pub struct StoreDocOutcome {
    pub id: Vec<u8>,
    pub hash_hex: Vec<u8>,
    pub chunks: usize,
}

/// Ingest a document: hash the content, reuse the existing id when the
/// hash is known (reporting zero chunks), otherwise assign a fresh id,
/// chunk by fixed thousand-byte windows, store embeddings and text
/// postings, link entities into the graph, and relate the document to
/// its peers. A path, when given, advances the version chain either way.
pub fn document_store(
    store: &mut Store,
    path: Option<Vec<u8>>,
    content: Option<Vec<u8>>,
    metadata: Option<Vec<u8>>,
    chunk_embeddings: Vec<Vec<u8>>,
    now_ms: i64,
) -> (r: Result<StoreDocOutcome, StoreError>)
    requires
        old(store).wf(),
        (match content {
            Some(c) => c@.len() <= usize::MAX - 999,
            None => true,
        }),
    ensures
        final(store).wf(),
        (r is Err) == (content is None),
        r is Err ==> r == Err::<StoreDocOutcome, StoreError>(StoreError::InvalidInput) && *final(store) == *old(store),
        r matches Ok(out) ==> (content matches Some(c) && ({
            let h = content_hash_of(c@);
            &&& out.hash_hex@ == h
            &&& doc_id_of(final(store).docs@, h) == Some(out.id@)
            &&& (has_doc_hash(old(store).docs@, h) ==> out.chunks == 0 && doc_id_of(
                old(store).docs@,
                h,
            ) == Some(out.id@) && final(store).docs == old(store).docs && final(store).chunks
                == old(store).chunks && final(store).embeddings == old(store).embeddings && final(store).text_index == old(store).text_index && final(store).kg_nodes == old(store).kg_nodes
                && final(store).kg_edges == old(store).kg_edges && final(store).kg_entities == old(store).kg_entities && final(store).kg_links == old(store).kg_links && final(store).docs_meta
                == old(store).docs_meta && final(store).vec_meta == old(store).vec_meta)
            &&& (!has_doc_hash(old(store).docs@, h) ==> {
                &&& out.chunks == chunk_count(c@.len() as int)
                &&& forall|k: int|
                    0 <= k < chunk_count(c@.len() as int) ==> #[trigger] has_chunk(
                        final(store).chunks@,
                        out.id@,
                        (k * 1000) as u64,
                    )
                // Each window's chunk row carries the exact end offset.
                &&& forall|k: int|
                    0 <= k < chunk_count(c@.len() as int) ==> #[trigger] chunk_span_at(
                        final(store).chunks@,
                        out.id@,
                        k,
                        c@.len() as int,
                    )
                // Each valid supplied embedding lands under its window.
                &&& forall|k: int|
                    0 <= k < chunk_count(c@.len() as int) && k < chunk_embeddings@.len()
                        && crate::vecindex::emb_ok((#[trigger] chunk_embeddings@[k])@) ==> (
                    exists|i: int|
                        0 <= i < final(store).embeddings@.len() && (#[trigger] final(store).embeddings@[i]).doc_id@ == out.id@ && final(store).embeddings@[i].start
                            == (k * 1000) as u64 && final(store).embeddings@[i].bytes@
                            == chunk_embeddings@[k]@)
                // Every embedding row added by this ingest has the packed
                // width.
                &&& forall|r: crate::store::EmbRow|
                    final(store).embeddings@.contains(r) ==> (old(store).embeddings@.contains(r)
                        || (r.doc_id@ == out.id@ && crate::vecindex::emb_ok(r.bytes@)))
                &&& forall|e: Seq<u8>|
                    #[trigger] crate::entities::is_entity_of(c@, e) ==> (crate::store::has_node(
                        final(store).kg_nodes@,
                        crate::store::NodeKind::Entity,
                        e,
                    ) && crate::store::has_edge(
                        final(store).kg_edges@,
                        crate::kg::node_key_of(crate::store::NodeKind::Entity, e),
                        crate::kg::node_key_of(crate::store::NodeKind::Document, out.id@),
                        crate::store::Relation::Mentions,
                    ))
            })
            &&& (path matches Some(pth) ==> ({
                let prev = path_at(old(store).path_latest@, pth@);
                let prev_ver = (match prev {
                    Some(pid) => (match info_at(old(store).docs_info@, pid) {
                        Some(inf) => inf.version,
                        None => 0,
                    }),
                    None => 0,
                });
                let ver = if prev == Some(out.id@) {
                    prev_ver
                } else {
                    crate::kg::sat_add1(prev_ver)
                };
                &&& path_at(final(store).path_latest@, pth@) == Some(out.id@)
                &&& (info_at(final(store).docs_info@, out.id@) matches Some(inf) && inf.path@
                    == pth@ && inf.version == ver && inf.hash_hex@ == h && (match prev {
                    Some(pid) => inf.prev_id matches Some(pv) && pv@ == pid,
                    None => inf.prev_id is None,
                }))
                &&& forall|p2: Seq<u8>|
                    p2 != pth@ ==> path_at(final(store).path_latest@, p2) == path_at(
                        old(store).path_latest@,
                        p2,
                    )
                &&& forall|id2: Seq<u8>|
                    id2 != out.id@ ==> info_at(final(store).docs_info@, id2) == info_at(
                        old(store).docs_info@,
                        id2,
                    )
            }))
            &&& (path is None ==> final(store).path_latest == old(store).path_latest && final(store).docs_info == old(store).docs_info && final(store).versions == old(store).versions)
        })),
        final(store).memories == old(store).memories,
        final(store).mem_embeddings == old(store).mem_embeddings,
        final(store).doc_refs == old(store).doc_refs,
        final(store).neighbors == old(store).neighbors,
        final(store).consolidation_log == old(store).consolidation_log,
        final(store).backups == old(store).backups,
        forall|id2: Seq<u8>|
            crate::memory::mem_text_of(final(store).text_index@, id2)
                == crate::memory::mem_text_of(old(store).text_index@, id2),
{
    let c = match content {
        Some(c) => c,
        None => {
            return Err(StoreError::InvalidInput);
        },
    };
    let hash = crate::digest::content_hash_hex(&c);
    let found = crate::store::find_doc_hash(&store.docs, &hash);
    match found {
        Some(di) => {
            proof {
                lemma_doc_id_at(store.docs@, di as int);
            }
            let id = crate::bytes::copy_bytes(&store.docs[di].doc_id);
            match &path {
                Some(pth) => {
                    apply_versioning(
                        &mut store.path_latest,
                        &mut store.docs_info,
                        &mut store.versions,
                        pth,
                        &id,
                        &hash,
                        now_ms,
                    );
                },
                None => {},
            }
            Ok(StoreDocOutcome { id, hash_hex: hash, chunks: 0 })
        },
        None => {
            let id = crate::idgen::fresh_id();
            // Fixed thousand-byte windows, written before the row trees so
            // that the loop below touches only the chunk-shaped trees.
            let len: usize = c.len();
            let count: usize = (len + 999) / 1000;
            proof {
                assert(count * 1000 <= len + 999);
            }
            let mut starts: Vec<u64> = Vec::new();
            let mut start_pos: usize = 0;
            let mut k: usize = 0;
            while k < count
                invariant
                    starts@.len() == k,
                    count == chunk_count(c@.len() as int),
                    count * 1000 <= len + 999,
                    len == c@.len(),
                    len <= usize::MAX - 999,
                    k <= count,
                    start_pos == k * 1000,
                    store.wf(),
                    forall|k2: int|
                        0 <= k2 < k ==> #[trigger] has_chunk(store.chunks@, id@, ((k2 * 1000)) as u64),
                    forall|k2: int|
                        0 <= k2 < k ==> #[trigger] chunk_span_at(
                            store.chunks@,
                            id@,
                            k2,
                            c@.len() as int,
                        ),
                    forall|k2: int|
                        0 <= k2 < k && k2 < chunk_embeddings@.len() && crate::vecindex::emb_ok(
                            (#[trigger] chunk_embeddings@[k2])@,
                        ) ==> (exists|i2: int|
                            0 <= i2 < store.embeddings@.len() && (
                            #[trigger] store.embeddings@[i2]).doc_id@ == id@
                                && store.embeddings@[i2].start == (k2 * 1000) as u64
                                && store.embeddings@[i2].bytes@ == chunk_embeddings@[k2]@),
                    forall|r: crate::store::EmbRow|
                        store.embeddings@.contains(r) ==> (old(store).embeddings@.contains(r) || (
                        r.doc_id@ == id@ && crate::vecindex::emb_ok(r.bytes@))),
                    forall|id2: Seq<u8>|
                        crate::memory::mem_text_of(store.text_index@, id2)
                            == crate::memory::mem_text_of(old(store).text_index@, id2),
                    store.docs == old(store).docs,
                    store.docs_info == old(store).docs_info,
                    store.docs_meta == old(store).docs_meta,
                    store.path_latest == old(store).path_latest,
                    store.versions == old(store).versions,
                    store.memories == old(store).memories,
                    store.mem_embeddings == old(store).mem_embeddings,
                    store.doc_refs == old(store).doc_refs,
                    store.kg_nodes == old(store).kg_nodes,
                    store.kg_edges == old(store).kg_edges,
                    store.kg_entities == old(store).kg_entities,
                    store.kg_links == old(store).kg_links,
                    store.neighbors == old(store).neighbors,
                    store.vec_meta == old(store).vec_meta,
                    store.consolidation_log == old(store).consolidation_log,
                    store.backups == old(store).backups,
                decreases count - k,
            {
                proof {
                    assert(start_pos <= len + 999 - 1000);
                }
                let start: usize = start_pos;
                let end: usize = if start + 1000 < len {
                    start + 1000
                } else {
                    len
                };
                let chunk_id = crate::idgen::fresh_id();
                let ghost pre_chunks = store.chunks@;
                upsert_chunk(&mut store.chunks, &id, start as u64, end as u64, chunk_id);
                proof {
                    assert(chunk_span_at(store.chunks@, id@, k as int, c@.len() as int));
                    assert forall|k2: int|
                        0 <= k2 < k implies #[trigger] chunk_span_at(
                        store.chunks@,
                        id@,
                        k2,
                        c@.len() as int,
                    ) by {
                        assert(chunk_span_at(pre_chunks, id@, k2, c@.len() as int));
                        let i2 = choose|i2: int|
                            0 <= i2 < pre_chunks.len() && (#[trigger] pre_chunks[i2]).doc_id@
                                == id@ && pre_chunks[i2].start == (k2 * 1000) as u64
                                && pre_chunks[i2].end == (if k2 * 1000 + 1000 <= c@.len() {
                                (k2 * 1000 + 1000) as u64
                            } else {
                                c@.len() as u64
                            });
                        assert(pre_chunks.contains(pre_chunks[i2]));
                        assert(store.chunks@.contains(pre_chunks[i2]));
                        let i3 = choose|i3: int|
                            0 <= i3 < store.chunks@.len() && store.chunks@[i3] == pre_chunks[i2];
                        assert((#[trigger] store.chunks@[i3]).doc_id@ == id@);
                    }
                }
                let slice = crate::entities::copy_range(&c, start, end);
                upsert_chunk_text(&mut store.text_index, &id, start as u64, slice);
                if k < chunk_embeddings.len() {
                    if chunk_embeddings[k].len() == crate::EMBED_BYTES {
                        let b = crate::bytes::copy_bytes(&chunk_embeddings[k]);
                        let ghost bv2 = b@;
                        let ghost pre_embs = store.embeddings@;
                        upsert_emb_row(&mut store.embeddings, &id, start as u64, b);
                        proof {
                            assert forall|k2: int|
                                0 <= k2 < k + 1 && k2 < chunk_embeddings@.len()
                                    && crate::vecindex::emb_ok(
                                    (#[trigger] chunk_embeddings@[k2])@,
                                ) implies (exists|i2: int|
                                    0 <= i2 < store.embeddings@.len() && (
                                    #[trigger] store.embeddings@[i2]).doc_id@ == id@
                                        && store.embeddings@[i2].start == (k2 * 1000) as u64
                                        && store.embeddings@[i2].bytes@
                                        == chunk_embeddings@[k2]@) by {
                                if k2 == k {
                                    let iw = choose|iw: int|
                                        0 <= iw < store.embeddings@.len() && (
                                        #[trigger] store.embeddings@[iw]).doc_id@ == id@
                                            && store.embeddings@[iw].start == start as u64
                                            && store.embeddings@[iw].bytes@ == bv2;
                                    assert(store.embeddings@[iw].start == (k2 * 1000) as u64);
                                    assert(store.embeddings@[iw].bytes@
                                        == chunk_embeddings@[k2]@);
                                } else if k2 < k {
                                    let i2 = choose|i2: int|
                                        0 <= i2 < pre_embs.len() && (
                                        #[trigger] pre_embs[i2]).doc_id@ == id@
                                            && pre_embs[i2].start == (k2 * 1000) as u64
                                            && pre_embs[i2].bytes@ == chunk_embeddings@[k2]@;
                                    assert(pre_embs.contains(pre_embs[i2]));
                                    assert(store.embeddings@.contains(pre_embs[i2]));
                                    let i3 = choose|i3: int|
                                        0 <= i3 < store.embeddings@.len() && store.embeddings@[i3]
                                            == pre_embs[i2];
                                    assert((#[trigger] store.embeddings@[i3]).doc_id@ == id@);
                                }
                            }
                        }
                    }
                }
                starts.push(start as u64);
                start_pos = start_pos + 1000;
                k = k + 1;
            }
            crate::vecindex::record_vectors(
                &mut store.vec_meta,
                &id,
                &starts,
                crate::EMBED_DIM as u64,
            );
            // The hash row, metadata, and versioning.
            let ghost pre_docs = store.docs@;
            store.docs.push(
                DocHashRow {
                    hash_hex: crate::bytes::copy_bytes(&hash),
                    doc_id: crate::bytes::copy_bytes(&id),
                },
            );
            proof {
                let post = store.docs@;
                let xi = pre_docs.len() as int;
                assert(post[xi].hash_hex@ == hash@);
                assert(uniq_docs(post)) by {
                    assert forall|a: int, b: int| 0 <= a < b < post.len() implies post[a].hash_hex@
                        != post[b].hash_hex@ by {
                        if b == xi {
                            assert(post[a] == pre_docs[a]);
                        } else {
                            assert(post[a] == pre_docs[a]);
                            assert(post[b] == pre_docs[b]);
                        }
                    }
                }
                lemma_doc_id_at(post, xi);
            }
            match metadata {
                Some(m) => {
                    upsert_meta(&mut store.docs_meta, &id, m);
                },
                None => {},
            }
            match &path {
                Some(pth) => {
                    apply_versioning(
                        &mut store.path_latest,
                        &mut store.docs_info,
                        &mut store.versions,
                        pth,
                        &id,
                        &hash,
                        now_ms,
                    );
                },
                None => {},
            }
            // Entities and the knowledge graph.
            let ents = crate::entities::extract_entities(&c);
            proof {
                lemma_sorted_distinct(ents@);
            }
            crate::kg::link_entities(&mut store.kg_entities, &mut store.kg_links, &id, &ents);
            crate::kg::ensure_node(
                &mut store.kg_nodes,
                crate::store::NodeKind::Document,
                crate::bytes::copy_bytes(&id),
                now_ms,
                None,
            );
            link_doc_entities(&mut store.kg_nodes, &mut store.kg_edges, &id, &ents, now_ms);
            // Relate to the latest document at every other path.
            let mut others: Vec<Vec<u8>> = Vec::new();
            let pn: usize = store.path_latest.len();
            let mut pi: usize = 0;
            while pi < pn
                invariant
                    pn == store.path_latest@.len(),
                    pi <= pn,
                decreases pn - pi,
            {
                if !crate::bytes::bytes_eq(&store.path_latest[pi].doc_id, &id) {
                    others.push(crate::bytes::copy_bytes(&store.path_latest[pi].doc_id));
                }
                pi = pi + 1;
            }
            relate_all(&store.kg_links, &mut store.kg_edges, &id, &others, now_ms);
            proof {
                assert forall|e: Seq<u8>|
                    #[trigger] crate::entities::is_entity_of(c@, e) implies (
                crate::store::has_node(store.kg_nodes@, crate::store::NodeKind::Entity, e)
                    && crate::store::has_edge(
                    store.kg_edges@,
                    crate::kg::node_key_of(crate::store::NodeKind::Entity, e),
                    crate::kg::node_key_of(crate::store::NodeKind::Document, id@),
                    crate::store::Relation::Mentions,
                )) by {
                    assert(crate::order::views(ents@).contains(e));
                }
            }
            Ok(StoreDocOutcome { id, hash_hex: hash, chunks: count })
        },
    }
}

} // verus!
