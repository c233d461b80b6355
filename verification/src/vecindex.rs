//! The vector index: packed-embedding bookkeeping, dimension validation,
//! brute-force top-K search over scored candidates, the persisted neighbor
//! graph, and the greedy approximate search over it.
//!
//! Similarity scoring over the packed float lanes happens outside this
//! crate; callers hand in candidate lists of `ScoredId` values carrying
//! the cosine score in thousandths, and everything from dimension
//! filtering to ranking and traversal is verified here.

use vstd::prelude::*;
use crate::EMBED_BYTES;
use crate::hits::{ScoredId, sorted_desc, top_k_desc};
use crate::store::{
    CountRow, MemEmbRow, MemoryRecord, NeighborRow, VecMeta, find_count, find_mem, find_mem_emb,
    find_neighbor_row, has_mem, has_mem_emb, uniq_counts, uniq_mem_embs, uniq_mems,
    uniq_neighbors,
};
use crate::kg::{count_of, lemma_count_at};

verus! {

/// A packed embedding value has exactly four bytes per lane.
pub open spec fn emb_ok(b: Seq<u8>) -> bool {
    b.len() == EMBED_BYTES
}

/// A counter bump that stops at the top of the range.
pub open spec fn sat_add(a: u64, b: u64) -> u64 {
    if a + b > u64::MAX {
        u64::MAX
    } else {
        (a + b) as u64
    }
}

/// Set the counter row of `name` to `value`, inserting it when absent.
pub fn upsert_count(rows: &mut Vec<CountRow>, name: &Vec<u8>, value: u64)
    requires
        uniq_counts(old(rows)@),
    ensures
        uniq_counts(final(rows)@),
        count_of(final(rows)@, name@) == value,
        forall|m: Seq<u8>| m != name@ ==> count_of(final(rows)@, m) == count_of(old(rows)@, m),
{
    let found = find_count(rows, name);
    let ghost pre = rows@;
    let name2 = crate::bytes::copy_bytes(name);
    match found {
        Some(i) => {
            let ghost xi = i as int;
            rows.set(i, CountRow { name: name2, count: value });
            proof {
                let post = rows@;
                assert(uniq_counts(post)) by {
                    assert forall|a: int, b: int| 0 <= a < b < post.len() implies post[a].name@
                        != post[b].name@ by {
                        assert(post[a].name@ == pre[a].name@);
                        assert(post[b].name@ == pre[b].name@);
                    }
                }
                lemma_count_at(post, xi);
                assert forall|m: Seq<u8>| m != name@ implies count_of(post, m) == count_of(
                    pre,
                    m,
                ) by {
                    if exists|k: int| 0 <= k < post.len() && post[k].name@ == m {
                        let k = choose|k: int| 0 <= k < post.len() && post[k].name@ == m;
                        lemma_count_at(post, k);
                        assert(k != xi);
                        assert(pre[k].name@ == m);
                        lemma_count_at(pre, k);
                    } else {
                        if exists|k: int| 0 <= k < pre.len() && pre[k].name@ == m {
                            let k = choose|k: int| 0 <= k < pre.len() && pre[k].name@ == m;
                            assert(post[k].name@ == m);
                            assert(false);
                        }
                    }
                }
            }
        },
        None => {
            rows.push(CountRow { name: name2, count: value });
            proof {
                let post = rows@;
                let xi = pre.len() as int;
                assert(post[xi].name@ == name@);
                assert(uniq_counts(post)) by {
                    assert forall|a: int, b: int| 0 <= a < b < post.len() implies post[a].name@
                        != post[b].name@ by {
                        if b == xi {
                            assert(post[a] == pre[a]);
                        } else {
                            assert(post[a] == pre[a]);
                            assert(post[b] == pre[b]);
                        }
                    }
                }
                lemma_count_at(post, xi);
                assert forall|m: Seq<u8>| m != name@ implies count_of(post, m) == count_of(
                    pre,
                    m,
                ) by {
                    if exists|k: int| 0 <= k < post.len() && post[k].name@ == m {
                        let k = choose|k: int| 0 <= k < post.len() && post[k].name@ == m;
                        lemma_count_at(post, k);
                        assert(k != xi);
                        assert(pre[k].name@ == m);
                        lemma_count_at(pre, k);
                    } else {
                        if exists|k: int| 0 <= k < pre.len() && pre[k].name@ == m {
                            let k = choose|k: int| 0 <= k < pre.len() && pre[k].name@ == m;
                            assert(post[k].name@ == m);
                            assert(false);
                        }
                    }
                }
            }
        },
    }
}

/// Record that a document contributed one vector per chunk: bump the item
/// total, set the dimension, and remember the per-document count.
pub fn record_vectors(
    meta: &mut VecMeta,
    doc_id: &Vec<u8>,
    chunk_starts: &Vec<u64>,
    vector_dim: u64,
)
    requires
        uniq_counts(old(meta).per_doc@),
        chunk_starts@.len() <= u64::MAX,
    ensures
        uniq_counts(final(meta).per_doc@),
        final(meta).items == sat_add(old(meta).items, chunk_starts@.len() as u64),
        final(meta).dim == vector_dim,
        count_of(final(meta).per_doc@, doc_id@) == chunk_starts@.len(),
        forall|m: Seq<u8>|
            m != doc_id@ ==> count_of(final(meta).per_doc@, m) == count_of(
                old(meta).per_doc@,
                m,
            ),
{
    let n: u64 = chunk_starts.len() as u64;
    let prev = meta.items;
    meta.items = if prev > u64::MAX - n {
        u64::MAX
    } else {
        prev + n
    };
    meta.dim = vector_dim;
    upsert_count(&mut meta.per_doc, doc_id, n);
}

/// Fetch the packed embedding bytes of a memory, when present and of the
/// right length.
pub fn get_mem_embedding(emb: &Vec<MemEmbRow>, id: &Vec<u8>) -> (r: Option<Vec<u8>>)
    requires
        uniq_mem_embs(emb@),
    ensures
        match r {
            Some(b) => exists|i: int|
                0 <= i < emb@.len() && emb@[i].mem_id@ == id@ && emb@[i].bytes@ == b@ && emb_ok(
                    b@,
                ),
            None => forall|i: int|
                0 <= i < emb@.len() && emb@[i].mem_id@ == id@ ==> !emb_ok(emb@[i].bytes@),
        },
{
    let found = find_mem_emb(emb, id);
    match found {
        None => None,
        Some(i) => {
            if emb[i].bytes.len() == EMBED_BYTES {
                let b = crate::bytes::copy_bytes(&emb[i].bytes);
                proof {
                    assert(emb@[i as int].mem_id@ == id@ && emb@[i as int].bytes@ == b@);
                }
                Some(b)
            } else {
                proof {
                    assert forall|k: int|
                        0 <= k < emb@.len() && emb@[k].mem_id@ == id@ implies !emb_ok(
                        emb@[k].bytes@,
                    ) by {
                        if k < i as int {
                            assert(emb@[k].mem_id@ != emb@[i as int].mem_id@);
                        } else if k > i as int {
                            assert(emb@[i as int].mem_id@ != emb@[k].mem_id@);
                        }
                    }
                }
                None
            }
        },
    }
}

/// How many rows hold a value of the wrong length.
pub open spec fn invalid_count(s: Seq<MemEmbRow>) -> int
    decreases s.len(),
{
    if s.len() == 0 {
        0int
    } else {
        (if emb_ok(s.first().bytes@) {
            0int
        } else {
            1int
        }) + invalid_count(s.drop_first())
    }
}

/// Validate every memory embedding: report the total row count and how
/// many rows hold a value of the wrong length.
pub fn validate_mem_embeddings(emb: &Vec<MemEmbRow>) -> (r: (u64, u64))
    requires
        emb@.len() <= u64::MAX,
    ensures
        r.0 == emb@.len(),
        r.1 == invalid_count(emb@),
{
    let n: usize = emb.len();
    let mut invalid: u64 = 0;
    let mut i: usize = 0;
    proof {
        assert(emb@.skip(0) =~= emb@);
        lemma_invalid_count_bounds(emb@);
    }
    while i < n
        invariant
            n == emb@.len(),
            n <= u64::MAX,
            i <= n,
            invalid + invalid_count(emb@.skip(i as int)) == invalid_count(emb@),
            invalid <= i,
        decreases n - i,
    {
        proof {
            let sk = emb@.skip(i as int);
            assert(sk.first() == emb@[i as int]);
            assert(sk.drop_first() =~= emb@.skip(i + 1));
            lemma_invalid_count_bounds(emb@.skip(i + 1));
        }
        if emb[i].bytes.len() != EMBED_BYTES {
            invalid = invalid + 1;
        }
        i = i + 1;
    }
    proof {
        assert(emb@.skip(n as int).len() == 0);
    }
    (n as u64, invalid)
}

/// The invalid count is between zero and the row count.
pub proof fn lemma_invalid_count_bounds(s: Seq<MemEmbRow>)
    ensures
        0 <= invalid_count(s) <= s.len(),
    decreases s.len(),
{
    if s.len() > 0 {
        lemma_invalid_count_bounds(s.drop_first());
    }
}

/// Drop every embedding row whose memory record no longer exists; report
/// how many rows were dropped.
pub fn cleanup_orphan_mem_embeddings(
    emb: &mut Vec<MemEmbRow>,
    mems: &Vec<MemoryRecord>,
) -> (removed: u64)
    requires
        uniq_mem_embs(old(emb)@),
        uniq_mems(mems@),
    ensures
        uniq_mem_embs(final(emb)@),
        forall|i: int| 0 <= i < final(emb)@.len() ==> has_mem(mems@, #[trigger] final(emb)@[i].mem_id@),
        forall|e: MemEmbRow| #[trigger]
            final(emb)@.contains(e) == (old(emb)@.contains(e) && has_mem(mems@, e.mem_id@)),
        final(emb)@.len() + removed == old(emb)@.len(),
{
    let ghost total = emb@;
    let n0: usize = emb.len();
    let mut kept: Vec<MemEmbRow> = Vec::new();
    let mut removed: u64 = 0;
    proof {
        assert(total.skip(0) =~= emb@);
    }
    while emb.len() > 0
        invariant
            uniq_mem_embs(total),
            uniq_mems(mems@),
            total.len() == n0,
            n0 <= usize::MAX,
            emb@ == total.skip(n0 - emb@.len()),
            kept@.len() + removed + emb@.len() == n0,
            forall|e: MemEmbRow| #[trigger]
                kept@.contains(e) == (exists|k: int|
                    0 <= k < n0 - emb@.len() && total[k] == e && has_mem(mems@, e.mem_id@)),
            forall|a: int, b: int| 0 <= a < b < kept@.len() ==> kept@[a].mem_id@ != kept@[b].mem_id@,
        decreases emb@.len(),
    {
        let ghost p = n0 - emb@.len();
        let x = emb.remove(0);
        proof {
            assert(x == total[p]);
            assert(emb@ =~= total.skip(p + 1));
        }
        let alive = match find_mem(mems, &x.mem_id) {
            Some(_) => true,
            None => false,
        };
        let ghost pk = kept@;
        if alive {
            proof {
                assert(has_mem(mems@, x.mem_id@));
            }
            kept.push(x);
            proof {
                assert forall|e: MemEmbRow| #[trigger]
                    kept@.contains(e) == (exists|k: int|
                        0 <= k < p + 1 && total[k] == e && has_mem(mems@, e.mem_id@)) by {
                    if kept@.contains(e) {
                        let a = choose|a: int| 0 <= a < kept@.len() && kept@[a] == e;
                        if a < pk.len() {
                            assert(pk.contains(e));
                            let k = choose|k: int|
                                0 <= k < p && total[k] == e && has_mem(mems@, e.mem_id@);
                            assert(0 <= k < p + 1 && total[k] == e);
                        } else {
                            assert(e == x);
                            assert(total[p] == e);
                        }
                    }
                    if exists|k: int| 0 <= k < p + 1 && total[k] == e && has_mem(mems@, e.mem_id@) {
                        let k = choose|k: int|
                            0 <= k < p + 1 && total[k] == e && has_mem(mems@, e.mem_id@);
                        if k == p {
                            assert(kept@[pk.len() as int] == x);
                            assert(kept@.contains(e));
                        } else {
                            assert(pk.contains(e));
                            let a = choose|a: int| 0 <= a < pk.len() && pk[a] == e;
                            assert(kept@[a] == e);
                            assert(kept@.contains(e));
                        }
                    }
                }
                assert forall|a: int, b: int| 0 <= a < b < kept@.len() implies kept@[a].mem_id@
                    != kept@[b].mem_id@ by {
                    if b == pk.len() {
                        assert(kept@[b] == x);
                        assert(pk.contains(pk[a]));
                        let k = choose|k: int|
                            0 <= k < p && total[k] == pk[a] && has_mem(mems@, pk[a].mem_id@);
                        assert(total[k].mem_id@ != total[p].mem_id@);
                        assert(kept@[a] == pk[a]);
                    } else {
                        assert(kept@[a] == pk[a]);
                        assert(kept@[b] == pk[b]);
                    }
                }
            }
        } else {
            removed = removed + 1;
            proof {
                assert(!has_mem(mems@, x.mem_id@));
                assert forall|e: MemEmbRow| #[trigger]
                    kept@.contains(e) == (exists|k: int|
                        0 <= k < p + 1 && total[k] == e && has_mem(mems@, e.mem_id@)) by {
                    if kept@.contains(e) {
                        let k = choose|k: int|
                            0 <= k < p && total[k] == e && has_mem(mems@, e.mem_id@);
                        assert(0 <= k < p + 1 && total[k] == e);
                    }
                    if exists|k: int| 0 <= k < p + 1 && total[k] == e && has_mem(mems@, e.mem_id@) {
                        let k = choose|k: int|
                            0 <= k < p + 1 && total[k] == e && has_mem(mems@, e.mem_id@);
                        if k == p {
                            assert(e == x);
                            assert(false);
                        } else {
                            assert(kept@.contains(e));
                        }
                    }
                }
            }
        }
    }
    proof {
        assert forall|a: int, b: int| 0 <= a < b < kept@.len() implies kept@[a].mem_id@
            != kept@[b].mem_id@ by {}
    }
    let out = kept;
    *emb = out;
    proof {
        assert forall|e: MemEmbRow| #[trigger]
            final(emb)@.contains(e) == (total.contains(e) && has_mem(mems@, e.mem_id@)) by {
            if total.contains(e) && has_mem(mems@, e.mem_id@) {
                let k = choose|k: int| 0 <= k < total.len() && total[k] == e;
                assert(final(emb)@.contains(e));
            }
        }
        assert forall|i: int| 0 <= i < final(emb)@.len() implies has_mem(
            mems@,
            #[trigger] final(emb)@[i].mem_id@,
        ) by {
            assert(final(emb)@.contains(final(emb)@[i]));
        }
    }
    removed
}


// ---------------------------------------------------------------------------
// Brute-force search, the neighbor graph, and the greedy traversal
// ---------------------------------------------------------------------------

/// Some candidate of the list carries the same id bytes and score.
pub open spec fn scored_match(s: Seq<ScoredId>, h: ScoredId) -> bool {
    exists|j: int| 0 <= j < s.len() && s[j].id@ == h.id@ && s[j].score_milli == h.score_milli
}

/// A candidate whose memory has an embedding row of the right length.
pub open spec fn is_valid_hit(emb: Seq<MemEmbRow>, h: ScoredId) -> bool {
    exists|i: int| 0 <= i < emb.len() && emb[i].mem_id@ == h.id@ && emb_ok(emb[i].bytes@)
}

/// How many candidates of the list are valid.
pub open spec fn valid_count(emb: Seq<MemEmbRow>, s: Seq<ScoredId>) -> int
    decreases s.len(),
{
    if s.len() == 0 {
        0int
    } else {
        (if is_valid_hit(emb, s.first()) {
            1int
        } else {
            0int
        }) + valid_count(emb, s.drop_first())
    }
}

/// The valid candidates of the list, in their order.
pub open spec fn valid_filter(emb: Seq<MemEmbRow>, s: Seq<ScoredId>) -> Seq<ScoredId>
    decreases s.len(),
{
    if s.len() == 0 {
        s
    } else if is_valid_hit(emb, s.first()) {
        seq![s.first()] + valid_filter(emb, s.drop_first())
    } else {
        valid_filter(emb, s.drop_first())
    }
}

/// The filtered list is as long as the valid count.
pub proof fn lemma_valid_filter_len(emb: Seq<MemEmbRow>, s: Seq<ScoredId>)
    ensures
        valid_filter(emb, s).len() == valid_count(emb, s),
    decreases s.len(),
{
    if s.len() > 0 {
        lemma_valid_filter_len(emb, s.drop_first());
    }
}

/// The valid count is between zero and the candidate count.
pub proof fn lemma_valid_count_bounds(emb: Seq<MemEmbRow>, s: Seq<ScoredId>)
    ensures
        0 <= valid_count(emb, s) <= s.len(),
    decreases s.len(),
{
    if s.len() > 0 {
        lemma_valid_count_bounds(emb, s.drop_first());
    }
}

/// Keep only the candidates whose embedding row exists and has the right
/// length.
fn filter_valid(emb: &Vec<MemEmbRow>, scored: Vec<ScoredId>) -> (r: Vec<ScoredId>)
    requires
        uniq_mem_embs(emb@),
    ensures
        r@ == valid_filter(emb@, scored@),
        r@.len() == valid_count(emb@, scored@),
        forall|i: int|
            0 <= i < r@.len() ==> is_valid_hit(emb@, #[trigger] r@[i]) && scored@.to_multiset()
                .contains(r@[i]),
        forall|h: ScoredId|
            scored@.contains(h) && is_valid_hit(emb@, h) ==> #[trigger] r@.contains(h),
{
    let ghost total = scored@;
    let n0: usize = scored.len();
    let mut rest = scored;
    let mut out: Vec<ScoredId> = Vec::new();
    proof {
        assert(total.skip(0) =~= rest@);
        total.to_multiset_ensures();
    }
    while rest.len() > 0
        invariant
            uniq_mem_embs(emb@),
            total.len() == n0,
            n0 <= usize::MAX,
            rest@.len() <= n0,
            rest@ == total.skip(n0 - rest@.len()),
            out@.len() + valid_count(emb@, rest@) == valid_count(emb@, total),
            valid_filter(emb@, total) == out@ + valid_filter(emb@, rest@),
            forall|i: int|
                0 <= i < out@.len() ==> is_valid_hit(emb@, #[trigger] out@[i])
                    && total.to_multiset().contains(out@[i]),
            forall|h: ScoredId|
                (exists|k: int| 0 <= k < n0 - rest@.len() && total[k] == h) && is_valid_hit(
                    emb@,
                    h,
                ) ==> #[trigger] out@.contains(h),
        decreases rest@.len(),
    {
        let ghost p = n0 - rest@.len();
        let ghost pre_rest = rest@;
        proof {
            lemma_valid_count_bounds(emb@, pre_rest.drop_first());
            assert(total.skip(p)[0] == total[p]);
            assert(pre_rest.first() == total[p]);
            assert(pre_rest.drop_first() =~= total.skip(p + 1));
        }
        let x = rest.remove(0);
        proof {
            assert(x == total[p]);
            assert(rest@ =~= total.skip(p + 1));
            total.to_multiset_ensures();
            assert(total.to_multiset().contains(x)) by {
                assert(total.contains(x));
            }
        }
        let found = find_mem_emb(emb, &x.id);
        let valid = match found {
            Some(i) => emb[i].bytes.len() == EMBED_BYTES,
            None => false,
        };
        let ghost po = out@;
        if valid {
            proof {
                assert(is_valid_hit(emb@, x));
            }
            out.push(x);
            proof {
                assert forall|h: ScoredId|
                    (exists|k: int| 0 <= k < p + 1 && total[k] == h) && is_valid_hit(
                        emb@,
                        h,
                    ) implies #[trigger] out@.contains(h) by {
                    let k = choose|k: int| 0 <= k < p + 1 && total[k] == h;
                    if k == p {
                        assert(out@[po.len() as int] == x);
                        assert(out@.contains(h));
                    } else {
                        assert(po.contains(h));
                        let a = choose|a: int| 0 <= a < po.len() && po[a] == h;
                        assert(out@[a] == h);
                        assert(out@.contains(h));
                    }
                }
            }
        } else {
            proof {
                assert(!is_valid_hit(emb@, x)) by {
                    if is_valid_hit(emb@, x) {
                        let ii = choose|ii: int|
                            0 <= ii < emb@.len() && emb@[ii].mem_id@ == x.id@ && emb_ok(
                                emb@[ii].bytes@,
                            );
                        match found {
                            None => {
                                assert(has_mem_emb(emb@, x.id@));
                                assert(false);
                            },
                            Some(fi) => {
                                lemma_invalid_unique(emb@, x.id@, fi as int);
                                assert(false);
                            },
                        }
                    }
                }
                assert forall|h: ScoredId|
                    (exists|k: int| 0 <= k < p + 1 && total[k] == h) && is_valid_hit(
                        emb@,
                        h,
                    ) implies #[trigger] out@.contains(h) by {
                    let k = choose|k: int| 0 <= k < p + 1 && total[k] == h;
                    if k == p {
                        assert(h == x);
                        assert(false);
                    } else {
                        assert(out@.contains(h));
                    }
                }
            }
        }
    }
    proof {
        assert(rest@.len() == 0);
        assert(valid_count(emb@, rest@) == 0);
        assert(valid_filter(emb@, rest@) =~= Seq::<ScoredId>::empty());
        assert(out@ =~= out@ + valid_filter(emb@, rest@));
        assert forall|h: ScoredId|
            total.contains(h) && is_valid_hit(emb@, h) implies #[trigger] out@.contains(h) by {
            let k = choose|k: int| 0 <= k < total.len() && total[k] == h;
        }
    }
    out
}

/// Wrong-length candidates are a subtlety of `find_mem_emb`: when the row
/// exists but fails the length check, the id has no valid row at all.
/// (The finder returns the unique row of the id.)
proof fn lemma_invalid_unique(emb: Seq<MemEmbRow>, id: Seq<u8>, i: int)
    requires
        uniq_mem_embs(emb),
        0 <= i < emb.len(),
        emb[i].mem_id@ == id,
        !emb_ok(emb[i].bytes@),
    ensures
        forall|k: int| 0 <= k < emb.len() && emb[k].mem_id@ == id ==> !emb_ok(emb[k].bytes@),
{
    assert forall|k: int| 0 <= k < emb.len() && emb[k].mem_id@ == id implies !emb_ok(
        emb[k].bytes@,
    ) by {
        if k < i {
            assert(emb[k].mem_id@ != emb[i].mem_id@);
        } else if k > i {
            assert(emb[i].mem_id@ != emb[k].mem_id@);
        }
    }
}

/// Brute-force vector search: among the scored candidates, keep those
/// whose embedding row exists with the right length, and return the best
/// `top_k` by descending score.
pub fn search_memories_by_vector(
    emb: &Vec<MemEmbRow>,
    scored: Vec<ScoredId>,
    top_k: usize,
) -> (r: Vec<ScoredId>)
    requires
        uniq_mem_embs(emb@),
    ensures
        sorted_desc(r@),
        r@.len() == if top_k <= valid_count(emb@, scored@) {
            top_k as int
        } else {
            valid_count(emb@, scored@)
        },
        // Top-K: the result is the best prefix of a descending reordering
        // of exactly the valid candidates.
        exists|s: Seq<ScoredId>|
            {
                &&& s.to_multiset() == valid_filter(emb@, scored@).to_multiset()
                &&& sorted_desc(s)
                &&& r@ == s.subrange(
                    0,
                    if top_k <= valid_count(emb@, scored@) {
                        top_k as int
                    } else {
                        valid_count(emb@, scored@)
                    },
                )
            },
        forall|i: int|
            0 <= i < r@.len() ==> is_valid_hit(emb@, #[trigger] r@[i]) && scored@.to_multiset()
                .contains(r@[i]),
        top_k >= valid_count(emb@, scored@) ==> (forall|h: ScoredId|
            scored@.contains(h) && is_valid_hit(emb@, h) ==> #[trigger] r@.contains(h)),
{
    let ghost scored_view = scored@;
    let filtered = filter_valid(emb, scored);
    let ghost fv = filtered@;
    let r = top_k_desc(filtered, top_k);
    proof {
        lemma_valid_filter_len(emb@, scored_view);
        fv.to_multiset_ensures();
        assert forall|i: int| 0 <= i < r@.len() implies is_valid_hit(emb@, #[trigger] r@[i])
            && scored_view.to_multiset().contains(r@[i]) by {
            assert(fv.to_multiset().contains(r@[i]));
            assert(fv.contains(r@[i]));
            let a = choose|a: int| 0 <= a < fv.len() && fv[a] == r@[i];
        }
        if top_k >= valid_count(emb@, scored_view) {
            let s = choose|s: Seq<ScoredId>|
                {
                    &&& s.to_multiset() == fv.to_multiset()
                    &&& sorted_desc(s)
                    &&& r@ == s.subrange(
                        0,
                        if top_k <= fv.len() {
                            top_k as int
                        } else {
                            fv.len() as int
                        },
                    )
                };
            s.to_multiset_ensures();
            assert(s.len() == fv.len());
            assert(r@ =~= s);
            assert forall|h: ScoredId|
                scored_view.contains(h) && is_valid_hit(emb@, h) implies #[trigger] r@.contains(
                h,
            ) by {
                assert(fv.contains(h));
                assert(fv.to_multiset().contains(h));
                assert(s.to_multiset().contains(h));
                assert(s.contains(h));
                let a = choose|a: int| 0 <= a < s.len() && s[a] == h;
                assert(r@[a] == h);
            }
        }
    }
    r
}

/// Replace the whole neighbor graph: one row per input memory, holding
/// the best `m` of its scored candidates by descending similarity.
#[verifier::rlimit(100)]
#[verifier::spinoff_prover]
pub fn build_mem_neighbor_graph(
    neigh: &mut Vec<NeighborRow>,
    rows: Vec<(Vec<u8>, Vec<ScoredId>)>,
    m: usize,
) -> (written: u64)
    requires
        forall|i: int, j: int| 0 <= i < j < rows@.len() ==> rows@[i].0@ != rows@[j].0@,
        rows@.len() <= u64::MAX,
    ensures
        uniq_neighbors(final(neigh)@),
        written == rows@.len(),
        final(neigh)@.len() == rows@.len(),
        forall|i: int|
            0 <= i < rows@.len() ==> {
                &&& (#[trigger] final(neigh)@[i]).mem_id@ == rows@[i].0@
                &&& sorted_desc(final(neigh)@[i].neighbors@)
                &&& final(neigh)@[i].neighbors@.len() == (if m <= rows@[i].1@.len() {
                    m as int
                } else {
                    rows@[i].1@.len() as int
                })
                &&& forall|k: int|
                    0 <= k < final(neigh)@[i].neighbors@.len() ==> rows@[i].1@.to_multiset()
                        .contains(#[trigger] final(neigh)@[i].neighbors@[k])
            },
{
    let ghost total = rows@;
    let n0: usize = rows.len();
    let mut rest = rows;
    let mut out: Vec<NeighborRow> = Vec::new();
    proof {
        assert(total.skip(0) =~= rest@);
    }
    while rest.len() > 0
        invariant
            total.len() == n0,
            n0 <= usize::MAX,
            rest@ == total.skip(n0 - rest@.len()),
            out@.len() == n0 - rest@.len(),
            forall|i: int|
                0 <= i < out@.len() ==> {
                    &&& (#[trigger] out@[i]).mem_id@ == total[i].0@
                    &&& sorted_desc(out@[i].neighbors@)
                    &&& out@[i].neighbors@.len() == (if m <= total[i].1@.len() {
                        m as int
                    } else {
                        total[i].1@.len() as int
                    })
                    &&& forall|k: int|
                        0 <= k < out@[i].neighbors@.len() ==> total[i].1@.to_multiset().contains(
                            #[trigger] out@[i].neighbors@[k],
                        )
                },
        decreases rest@.len(),
    {
        let ghost p = n0 - rest@.len();
        let x = rest.remove(0);
        proof {
            assert(x == total[p]);
            assert(rest@ =~= total.skip(p + 1));
        }
        let (id, cands) = x;
        let best = top_k_desc(cands, m);
        out.push(NeighborRow { mem_id: id, neighbors: best });
    }
    let ghost outv = out@;
    proof {
        assert(uniq_neighbors(outv)) by {
            assert forall|a: int, b: int| 0 <= a < b < outv.len() implies outv[a].mem_id@
                != outv[b].mem_id@ by {
                assert(outv[a].mem_id@ == total[a].0@);
                assert(outv[b].mem_id@ == total[b].0@);
            }
        }
    }
    let written: u64 = out.len() as u64;
    *neigh = out;
    written
}

/// Greedy approximate search over the neighbor graph. Starting from the
/// best-scoring of the first sixteen valid embedding rows, walk stored
/// neighbor lists (at most eight per node, at most 1024 nodes), and
/// return the best `top_k` scored nodes seen. With no neighbor rows at
/// all, fall back to the brute-force search over every candidate.
pub fn ann_search_memories(
    emb: &Vec<MemEmbRow>,
    neigh: &Vec<NeighborRow>,
    scored: Vec<ScoredId>,
    top_k: usize,
) -> (r: Vec<ScoredId>)
    requires
        uniq_mem_embs(emb@),
    ensures
        sorted_desc(r@),
        r@.len() <= top_k,
        forall|i: int|
            0 <= i < r@.len() ==> is_valid_hit(emb@, #[trigger] r@[i]) && scored_match(
                scored@,
                r@[i],
            ),
        neigh@.len() > 0 ==> (forall|i: int, j: int|
            0 <= i < j < r@.len() ==> r@[i].id@ != r@[j].id@),
        neigh@.len() == 0 ==> r@.len() == if top_k <= valid_count(emb@, scored@) {
            top_k as int
        } else {
            valid_count(emb@, scored@)
        },
        // With no seed among the first sixteen rows - no valid row whose
        // id carries a score - the walk cannot start and nothing is found.
        (neigh@.len() > 0 && (forall|i: int|
            0 <= i < emb@.len() && i < 16 ==> !(emb_ok((#[trigger] emb@[i]).bytes@) && (
            exists|j: int|
                0 <= j < scored@.len() && (#[trigger] scored@[j]).id@ == emb@[i].mem_id@))))
            ==> r@.len() == 0,
{
    if neigh.len() == 0 {
        let ghost scored_pre = scored@;
        let r = search_memories_by_vector(emb, scored, top_k);
        proof {
            scored_pre.to_multiset_ensures();
            assert forall|i: int| 0 <= i < r@.len() implies is_valid_hit(emb@, #[trigger] r@[i])
                && scored_match(scored_pre, r@[i]) by {
                assert(scored_pre.to_multiset().contains(r@[i]));
                assert(scored_pre.contains(r@[i]));
                let j = choose|j: int| 0 <= j < scored_pre.len() && scored_pre[j] == r@[i];
                assert(scored_pre[j].id@ == r@[i].id@ && scored_pre[j].score_milli
                    == r@[i].score_milli);
            }
        }
        return r;
    }
    let ghost scored_view = scored@;
    // Seed: the best-scoring candidate among the first sixteen valid rows.
    let mut entry: Option<Vec<u8>> = None;
    let mut best_seed: i64 = 0;
    let mut idx: usize = 0;
    let scan: usize = if emb.len() < 16 {
        emb.len()
    } else {
        16
    };
    while idx < scan
        invariant
            scan <= emb@.len(),
            scan <= 16,
            scan == (if emb@.len() < 16 {
                emb@.len() as int
            } else {
                16int
            }),
            idx <= scan,
            uniq_mem_embs(emb@),
            match entry {
                Some(e) => exists|i: int|
                    0 <= i < emb@.len() && i < 16 && emb@[i].mem_id@ == e@ && emb_ok(
                        emb@[i].bytes@,
                    ) && (exists|j: int|
                        0 <= j < scored@.len() && (#[trigger] scored@[j]).id@ == emb@[i].mem_id@),
                None => forall|i2: int|
                    0 <= i2 < idx ==> !(emb_ok((#[trigger] emb@[i2]).bytes@) && (exists|j: int|
                        0 <= j < scored@.len() && (#[trigger] scored@[j]).id@
                            == emb@[i2].mem_id@)),
            },
        decreases scan - idx,
    {
        if emb[idx].bytes.len() == EMBED_BYTES {
            let sc = lookup_score(&scored, &emb[idx].mem_id);
            match sc {
                Some(v) => {
                    let better = match &entry {
                        None => true,
                        Some(_) => v > best_seed,
                    };
                    if better {
                        let e = crate::bytes::copy_bytes(&emb[idx].mem_id);
                        proof {
                            assert(emb@[idx as int].mem_id@ == e@ && emb_ok(
                                emb@[idx as int].bytes@,
                            ));
                        }
                        entry = Some(e);
                        best_seed = v;
                    }
                },
                None => {},
            }
        }
        idx = idx + 1;
    }
    let seed = match entry {
        Some(e) => e,
        None => {
            let empty: Vec<ScoredId> = Vec::new();
            return empty;
        },
    };
    proof {
        assert(!(forall|i: int|
            0 <= i < emb@.len() && i < 16 ==> !(emb_ok((#[trigger] emb@[i]).bytes@) && (
            exists|j: int|
                0 <= j < scored@.len() && (#[trigger] scored@[j]).id@ == emb@[i].mem_id@))))
            by {
            let i = choose|i: int|
                0 <= i < emb@.len() && i < 16 && emb@[i].mem_id@ == seed@ && emb_ok(
                    emb@[i].bytes@,
                ) && (exists|j: int|
                    0 <= j < scored@.len() && (#[trigger] scored@[j]).id@ == emb@[i].mem_id@);
        }
    }
    // Greedy walk with a visited set and a frontier stack.
    let mut visited: Vec<Vec<u8>> = Vec::new();
    let mut frontier: Vec<Vec<u8>> = Vec::new();
    let mut found: Vec<ScoredId> = Vec::new();
    frontier.push(seed);
    loop
        invariant_except_break
            visited@.len() <= 1024,
        invariant
            uniq_mem_embs(emb@),
            scored_view == scored@,
            visited@.len() <= 1025,
            forall|i: int|
                0 <= i < found@.len() ==> is_valid_hit(emb@, #[trigger] found@[i])
                    && scored_match(scored_view, found@[i]),
            forall|a: int|
                0 <= a < found@.len() ==> (exists|v: int|
                    0 <= v < visited@.len() && (#[trigger] visited@[v])@ == (
                    #[trigger] found@[a]).id@),
            forall|a: int, b: int| 0 <= a < b < found@.len() ==> found@[a].id@ != found@[b].id@,
        ensures
            forall|i: int|
                0 <= i < found@.len() ==> is_valid_hit(emb@, #[trigger] found@[i])
                    && scored_match(scored_view, found@[i]),
            forall|a: int, b: int| 0 <= a < b < found@.len() ==> found@[a].id@ != found@[b].id@,
        decreases 1025 - visited@.len(), frontier@.len(),
    {
        let cur = match frontier.pop() {
            None => {
                break;
            },
            Some(c) => c,
        };
        let mut seen = false;
        let vn: usize = visited.len();
        let mut vi: usize = 0;
        while vi < vn
            invariant
                vn == visited@.len(),
                vi <= vn,
                seen ==> exists|v: int|
                    0 <= v < visited@.len() && (#[trigger] visited@[v])@ == cur@,
                !seen ==> forall|v: int| 0 <= v < vi ==> (#[trigger] visited@[v])@ != cur@,
            decreases vn - vi,
        {
            if crate::bytes::bytes_eq(&visited[vi], &cur) {
                proof {
                    assert(visited@[vi as int]@ == cur@);
                }
                seen = true;
                vi = vn;
            } else {
                vi = vi + 1;
            }
        }
        if seen {
            continue;
        }
        let ghost pre_visited = visited@;
        visited.push(cur);
        proof {
            assert forall|a: int|
                0 <= a < found@.len() implies (exists|v: int|
                    0 <= v < visited@.len() && (#[trigger] visited@[v])@ == (
                    #[trigger] found@[a]).id@) by {
                let v = choose|v: int|
                    0 <= v < pre_visited.len() && (#[trigger] pre_visited[v])@ == found@[a].id@;
                assert(visited@[v] == pre_visited[v]);
            }
        }
        let curref = &visited[visited.len() - 1];
        let e = get_mem_embedding(emb, curref);
        match e {
            Some(_) => {
                let sc = lookup_score(&scored, curref);
                match sc {
                    Some(v) => {
                        let idc = crate::bytes::copy_bytes(curref);
                        let hit = ScoredId { id: idc, score_milli: v };
                        proof {
                            assert(is_valid_hit(emb@, hit));
                            assert(scored_match(scored_view, hit));
                        }
                        let ghost pf = found@;
                        found.push(hit);
                        proof {
                            let nf = found@.len() - 1;
                            assert(found@[nf].id@ == pre_visited.push(cur)[pre_visited.len() as int]@);
                            assert forall|a: int, b: int| 0 <= a < b < found@.len() implies
                                found@[a].id@ != found@[b].id@ by {
                                if b == nf {
                                    assert(found@[a] == pf[a]);
                                    let w = choose|w: int|
                                        0 <= w < pre_visited.len() && (
                                        #[trigger] pre_visited[w])@ == pf[a].id@;
                                    assert(pre_visited[w]@ != cur@);
                                } else {
                                    assert(found@[a] == pf[a]);
                                    assert(found@[b] == pf[b]);
                                }
                            }
                            assert forall|a: int|
                                0 <= a < found@.len() implies (exists|v2: int|
                                    0 <= v2 < visited@.len() && (#[trigger] visited@[v2])@ == (
                                    #[trigger] found@[a]).id@) by {
                                if a == nf {
                                    assert(visited@[pre_visited.len() as int]@ == found@[nf].id@);
                                } else {
                                    assert(found@[a] == pf[a]);
                                }
                            }
                        }
                    },
                    None => {},
                }
            },
            None => {},
        }
        let nrow = find_neighbor_row(neigh, curref);
        match nrow {
            Some(ni) => {
                let lim: usize = if neigh[ni].neighbors.len() < 8 {
                    neigh[ni].neighbors.len()
                } else {
                    8
                };
                let mut t: usize = 0;
                while t < lim
                    invariant
                        ni < neigh@.len(),
                        lim <= neigh@[ni as int].neighbors@.len(),
                        t <= lim,
                    decreases lim - t,
                {
                    let nid = crate::bytes::copy_bytes(&neigh[ni].neighbors[t].id);
                    frontier.push(nid);
                    t = t + 1;
                }
            },
            None => {},
        }
        if visited.len() > 1024 {
            break;
        }
    }
    let ghost fv = found@;
    let r = top_k_desc(found, top_k);
    proof {
        fv.to_multiset_ensures();
        assert forall|i: int| 0 <= i < r@.len() implies is_valid_hit(emb@, #[trigger] r@[i])
            && scored_match(scored_view, r@[i]) by {
            assert(fv.to_multiset().contains(r@[i]));
            assert(fv.contains(r@[i]));
            let a = choose|a: int| 0 <= a < fv.len() && fv[a] == r@[i];
        }
    }
    r
}

/// Look up the score of an id in a scored candidate list. When present,
/// the returned pair is one of the candidates.
fn lookup_score(scored: &Vec<ScoredId>, id: &Vec<u8>) -> (r: Option<i64>)
    ensures
        match r {
            Some(v) => exists|i: int|
                0 <= i < scored@.len() && scored@[i].id@ == id@ && scored@[i].score_milli == v,
            None => forall|i: int| 0 <= i < scored@.len() ==> (#[trigger] scored@[i]).id@ != id@,
        },
{
    let n: usize = scored.len();
    let mut i: usize = 0;
    while i < n
        invariant
            n == scored@.len(),
            i <= n,
            forall|j: int| 0 <= j < i ==> (#[trigger] scored@[j]).id@ != id@,
        decreases n - i,
    {
        if crate::bytes::bytes_eq(&scored[i].id, id) {
            proof {
                assert(scored@[i as int].id@ == id@);
            }
            return Some(scored[i].score_milli);
        }
        i = i + 1;
    }
    None
}

/// Every hit of the approximate search appears in the brute-force result
/// when the brute force is asked for at least every valid candidate:
/// the approximate result set is a subset of the exhaustive one, which
/// stays authoritative.
pub proof fn lemma_ann_subset_of_brute_force(
    ann: Seq<ScoredId>,
    brute: Seq<ScoredId>,
    emb: Seq<MemEmbRow>,
    scored: Seq<ScoredId>,
)
    requires
        forall|i: int|
            0 <= i < ann.len() ==> is_valid_hit(emb, #[trigger] ann[i]) && scored_match(
                scored,
                ann[i],
            ),
        forall|h: ScoredId|
            scored.contains(h) && is_valid_hit(emb, h) ==> #[trigger] brute.contains(h),
    ensures
        forall|i: int| 0 <= i < ann.len() ==> scored_match(brute, #[trigger] ann[i]),
{
    assert forall|i: int| 0 <= i < ann.len() implies scored_match(brute, #[trigger] ann[i]) by {
        let j = choose|j: int|
            0 <= j < scored.len() && scored[j].id@ == ann[i].id@ && scored[j].score_milli
                == ann[i].score_milli;
        assert(is_valid_hit(emb, scored[j]));
        assert(scored.contains(scored[j]));
        assert(brute.contains(scored[j]));
        let b = choose|b: int| 0 <= b < brute.len() && brute[b] == scored[j];
        assert(brute[b].id@ == ann[i].id@ && brute[b].score_milli == ann[i].score_milli);
    }
}



/// The bytes of the last pair naming `id`, when one does.
pub open spec fn last_pair_bytes(pairs: Seq<(Vec<u8>, Vec<u8>)>, id: Seq<u8>) -> Option<Seq<u8>>
    decreases pairs.len(),
{
    if pairs.len() == 0 {
        None
    } else if pairs.last().0@ == id {
        Some(pairs.last().1@)
    } else {
        last_pair_bytes(pairs.drop_last(), id)
    }
}

/// Write a fresh packed embedding for each (memory id, bytes) pair,
/// replacing any previous value; a later pair wins on a repeated id and
/// every other stored embedding is untouched. Returns how many pairs
/// were written.
pub fn reembed_all_memories(
    emb: &mut Vec<MemEmbRow>,
    pairs: &Vec<(Vec<u8>, Vec<u8>)>,
) -> (written: u64)
    requires
        uniq_mem_embs(old(emb)@),
        pairs@.len() <= u64::MAX,
        forall|k: int| 0 <= k < pairs@.len() ==> emb_ok((#[trigger] pairs@[k]).1@),
    ensures
        uniq_mem_embs(final(emb)@),
        written == pairs@.len(),
        forall|id: Seq<u8>|
            #[trigger] crate::memory::mem_emb_of(final(emb)@, id) == (match last_pair_bytes(
                pairs@,
                id,
            ) {
                Some(b) => Some(b),
                None => crate::memory::mem_emb_of(old(emb)@, id),
            }),
{
    let n: usize = pairs.len();
    let mut i: usize = 0;
    proof {
        assert forall|id: Seq<u8>|
            #[trigger] crate::memory::mem_emb_of(emb@, id) == (match last_pair_bytes(
                pairs@.take(0),
                id,
            ) {
                Some(b) => Some(b),
                None => crate::memory::mem_emb_of(old(emb)@, id),
            }) by {
            assert(pairs@.take(0).len() == 0);
        }
    }
    while i < n
        invariant
            n == pairs@.len(),
            i <= n,
            uniq_mem_embs(emb@),
            forall|id: Seq<u8>|
                #[trigger] crate::memory::mem_emb_of(emb@, id) == (match last_pair_bytes(
                    pairs@.take(i as int),
                    id,
                ) {
                    Some(b) => Some(b),
                    None => crate::memory::mem_emb_of(old(emb)@, id),
                }),
        decreases n - i,
    {
        let bytes = crate::bytes::copy_bytes(&pairs[i].1);
        let ghost pre = emb@;
        crate::memory::upsert_mem_emb(emb, &pairs[i].0, bytes);
        proof {
            assert forall|id: Seq<u8>|
                #[trigger] crate::memory::mem_emb_of(emb@, id) == (match last_pair_bytes(
                    pairs@.take(i + 1),
                    id,
                ) {
                    Some(b) => Some(b),
                    None => crate::memory::mem_emb_of(old(emb)@, id),
                }) by {
                assert(pairs@.take(i + 1).drop_last() =~= pairs@.take(i as int));
                assert(pairs@.take(i + 1).last() == pairs@[i as int]);
                if id == pairs@[i as int].0@ {
                    assert(crate::memory::mem_emb_of(emb@, id) == Some(pairs@[i as int].1@));
                } else {
                    assert(crate::memory::mem_emb_of(emb@, id) == crate::memory::mem_emb_of(
                        pre,
                        id,
                    ));
                }
            }
        }
        i = i + 1;
    }
    proof {
        assert(pairs@.take(n as int) =~= pairs@);
    }
    n as u64
}

} // verus!
