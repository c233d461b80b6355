//! Fused search: text hits from the memory tree, substring hits from the
//! document text postings, knowledge-graph hits through `Mentions` edges,
//! and scored vector candidates, with a short-lived result cache and
//! query metrics.
//!
//! In this flat pipeline every source contributes a zero score (ranking
//! belongs to a layer above), so the descending order by score is the
//! gathering order: memory hits, then document postings, then graph
//! hits, then vector candidates.

use vstd::prelude::*;
use crate::store::{
    EdgeRow, HitSource, Layer, MemoryRecord, Params, SearchHit, TextKey, TextRow, uniq_mems,
};

verus! {

/// One cached query result: the key, when it was stored, and the full
/// result list before truncation.
pub struct CacheRow {
    pub key: Vec<u8>,
    pub ts: i64,
    pub hits: Vec<SearchHit>,
}

/// Query counters. Latencies are in milliseconds; the history window
/// holds the (timestamp, latency) pairs of the last minute.
pub struct Metrics {
    pub count: u64,
    pub cache_hits: u64,
    pub cache_misses: u64,
    pub last_ms: u64,
    pub total_ms: u64,
    pub history: Vec<(i64, u64)>,
    pub p50_ms: u64,
    pub p95_ms: u64,
}

/// The fusion state: the result cache and the metrics.
pub struct FusionState {
    pub cache: Vec<CacheRow>,
    pub metrics: Metrics,
}

/// Cache keys are unique.
pub open spec fn uniq_cache(s: Seq<CacheRow>) -> bool {
    forall|i: int, j: int| 0 <= i < j < s.len() ==> s[i].key@ != s[j].key@
}

/// An empty fusion state.
pub fn fusion_new() -> (r: FusionState)
    ensures
        uniq_cache(r.cache@),
        r.cache@.len() == 0,
        r.metrics.count == 0,
        r.metrics.cache_hits == 0,
        r.metrics.cache_misses == 0,
{
    FusionState {
        cache: Vec::new(),
        metrics: Metrics {
            count: 0,
            cache_hits: 0,
            cache_misses: 0,
            last_ms: 0,
            total_ms: 0,
            history: Vec::new(),
            p50_ms: 0,
            p95_ms: 0,
        },
    }
}

/// Two hits agree on everything a caller reads.
pub open spec fn hit_like(a: SearchHit, b: SearchHit) -> bool {
    &&& a.id@ == b.id@
    &&& a.score_milli == b.score_milli
    &&& a.layer == b.layer
    &&& a.source == b.source
    &&& a.vector_score_milli == b.vector_score_milli
}

/// Copy a result list; document references are not carried into copies.
fn copy_hits_prefix(v: &Vec<SearchHit>, upto: usize) -> (r: Vec<SearchHit>)
    requires
        upto <= v@.len(),
    ensures
        r@.len() == upto,
        forall|i: int| 0 <= i < upto ==> hit_like(#[trigger] r@[i], v@[i]),
{
    let mut r: Vec<SearchHit> = Vec::new();
    let mut i: usize = 0;
    while i < upto
        invariant
            upto <= v@.len(),
            i <= upto,
            r@.len() == i,
            forall|j: int| 0 <= j < i ==> hit_like(#[trigger] r@[j], v@[j]),
        decreases upto - i,
    {
        let h = &v[i];
        r.push(
            SearchHit {
                id: crate::bytes::copy_bytes(&h.id),
                score_milli: h.score_milli,
                layer: h.layer,
                doc_refs: None,
                source: h.source,
                vector_score_milli: h.vector_score_milli,
            },
        );
        i = i + 1;
    }
    r
}

/// Find the fresh cache row of `key`, when one exists.
fn cache_lookup(cache: &Vec<CacheRow>, key: &Vec<u8>, now_ms: i64, ttl_ms: i64) -> (r: Option<
    usize,
>)
    requires
        uniq_cache(cache@),
        now_ms >= i64::MIN + 1,
    ensures
        match r {
            Some(i) => i < cache@.len() && cache@[i as int].key@ == key@ && cache@[i as int].ts
                <= now_ms && now_ms - cache@[i as int].ts <= ttl_ms,
            None => forall|i: int|
                0 <= i < cache@.len() && (#[trigger] cache@[i]).key@ == key@ ==> !(cache@[i].ts
                    <= now_ms && now_ms - cache@[i].ts <= ttl_ms),
        },
{
    let n: usize = cache.len();
    let mut i: usize = 0;
    while i < n
        invariant
            uniq_cache(cache@),
            n == cache@.len(),
            i <= n,
            forall|j: int| 0 <= j < i ==> (#[trigger] cache@[j]).key@ != key@,
        decreases n - i,
    {
        if crate::bytes::bytes_eq(&cache[i].key, key) {
            let ts = cache[i].ts;
            if ts <= now_ms && (now_ms as i128 - ts as i128) <= ttl_ms as i128 {
                return Some(i);
            }
            proof {
                assert forall|j: int|
                    0 <= j < cache@.len() && (#[trigger] cache@[j]).key@ == key@ implies !(
                cache@[j].ts <= now_ms && now_ms - cache@[j].ts <= ttl_ms) by {
                    if j < i as int {
                    } else if j > i as int {
                        assert(cache@[i as int].key@ != cache@[j].key@);
                    }
                }
            }
            return None;
        }
        i = i + 1;
    }
    None
}

/// Store a query result under its key, replacing any previous entry.
fn cache_store(cache: &mut Vec<CacheRow>, key: Vec<u8>, ts: i64, hits: Vec<SearchHit>)
    requires
        uniq_cache(old(cache)@),
    ensures
        uniq_cache(final(cache)@),
        exists|i: int|
            0 <= i < final(cache)@.len() && (#[trigger] final(cache)@[i]).key@ == key@
                && final(cache)@[i].ts == ts && final(cache)@[i].hits == hits,
{
    let n: usize = cache.len();
    let mut i: usize = 0;
    let ghost key_v = key@;
    while i < n
        invariant
            n == cache@.len(),
            i <= n,
            *cache == *old(cache),
            uniq_cache(cache@),
            key_v == key@,
            forall|j: int| 0 <= j < i ==> cache@[j].key@ != key_v,
        decreases n - i,
    {
        if crate::bytes::bytes_eq(&cache[i].key, &key) {
            let ghost pre = cache@;
            let ghost xi = i as int;
            let row = CacheRow { key, ts, hits };
            let ghost the_row = row;
            cache.set(i, row);
            proof {
                let post = cache@;
                assert(post[xi] == the_row);
                assert forall|a: int, b: int| 0 <= a < b < post.len() implies post[a].key@
                    != post[b].key@ by {
                    assert(post[a].key@ == pre[a].key@);
                    assert(post[b].key@ == pre[b].key@);
                }
            }
            return;
        }
        i = i + 1;
    }
    let ghost pre = cache@;
    let row = CacheRow { key, ts, hits };
    let ghost the_row = row;
    cache.push(row);
    proof {
        let post = cache@;
        let xi = pre.len() as int;
        assert(post[xi] == the_row);
        assert forall|a: int, b: int| 0 <= a < b < post.len() implies post[a].key@
            != post[b].key@ by {
            if b == xi {
                assert(post[a] == pre[a]);
            } else {
                assert(post[a] == pre[a]);
                assert(post[b] == pre[b]);
            }
        }
    }
}

/// A cache row still within its time to live.
pub open spec fn row_fresh(r: CacheRow, now: i64, ttl: i64) -> bool {
    now - r.ts <= ttl || r.ts > now
}

/// How many rows are still fresh.
pub open spec fn fresh_count(s: Seq<CacheRow>, now: i64, ttl: i64) -> int
    decreases s.len(),
{
    if s.len() == 0 {
        0int
    } else {
        fresh_count(s.drop_last(), now, ttl) + if row_fresh(s.last(), now, ttl) {
            1int
        } else {
            0int
        }
    }
}

/// The fresh count is between zero and the row count.
pub proof fn lemma_fresh_count_bounds(s: Seq<CacheRow>, now: i64, ttl: i64)
    ensures
        0 <= fresh_count(s, now, ttl) <= s.len(),
    decreases s.len(),
{
    if s.len() > 0 {
        lemma_fresh_count_bounds(s.drop_last(), now, ttl);
    }
}

/// A list of pairwise-distinct fresh rows counts its own length.
proof fn lemma_fresh_count_full(s: Seq<CacheRow>, now: i64, ttl: i64)
    requires
        forall|i: int| 0 <= i < s.len() ==> row_fresh(#[trigger] s[i], now, ttl),
    ensures
        fresh_count(s, now, ttl) == s.len(),
    decreases s.len(),
{
    if s.len() > 0 {
        assert forall|i: int| 0 <= i < s.drop_last().len() implies row_fresh(
            #[trigger] s.drop_last()[i],
            now,
            ttl,
        ) by {
            assert(s.drop_last()[i] == s[i]);
        }
        lemma_fresh_count_full(s.drop_last(), now, ttl);
    }
}

/// Dropping a row adjusts the fresh count by its freshness.
proof fn lemma_fresh_count_remove(s: Seq<CacheRow>, i: int, now: i64, ttl: i64)
    requires
        0 <= i < s.len(),
    ensures
        fresh_count(s.remove(i), now, ttl) == fresh_count(s, now, ttl) - (if row_fresh(
            s[i],
            now,
            ttl,
        ) {
            1int
        } else {
            0int
        }),
    decreases s.len(),
{
    if s.len() > 0 {
        if i == s.len() - 1 {
            assert(s.remove(i) =~= s.drop_last());
        } else {
            assert(s.remove(i).drop_last() =~= s.drop_last().remove(i));
            assert(s.remove(i).last() == s.last());
            lemma_fresh_count_remove(s.drop_last(), i, now, ttl);
        }
    }
}

/// Drop every stale cache row; then, while more rows remain than the
/// size cap, drop the row with the smallest timestamp. Surviving rows
/// keep their values, and every fresh row survives when they all fit.
#[verifier::rlimit(100)]
#[verifier::spinoff_prover]
pub fn prune_query_cache(fusion: &mut FusionState, p: &Params, now_ms: i64)
    requires
        uniq_cache(old(fusion).cache@),
        now_ms >= i64::MIN + 1,
    ensures
        uniq_cache(final(fusion).cache@),
        final(fusion).metrics == old(fusion).metrics,
        // Only fresh rows survive, and each one is an original row.
        forall|i: int|
            0 <= i < final(fusion).cache@.len() ==> row_fresh(
                #[trigger] final(fusion).cache@[i],
                now_ms,
                p.ttl_ms,
            ),
        forall|i: int|
            0 <= i < final(fusion).cache@.len() ==> old(fusion).cache@.contains(
                #[trigger] final(fusion).cache@[i],
            ),
        // Exactly the fresh rows survive when they fit under the cap.
        final(fusion).cache@.len() == (if fresh_count(old(fusion).cache@, now_ms, p.ttl_ms)
            <= p.cache_max {
            fresh_count(old(fusion).cache@, now_ms, p.ttl_ms)
        } else {
            p.cache_max as int
        }),
        fresh_count(old(fusion).cache@, now_ms, p.ttl_ms) <= p.cache_max ==> (forall|r: CacheRow|
            old(fusion).cache@.contains(r) && row_fresh(r, now_ms, p.ttl_ms) ==> final(fusion).cache@.contains(r)),
        // Overflow evicts oldest-first: every evicted fresh row is no
        // younger than any survivor.
        forall|j: int, i: int|
            0 <= j < old(fusion).cache@.len() && 0 <= i < final(fusion).cache@.len() && row_fresh(
                #[trigger] old(fusion).cache@[j],
                now_ms,
                p.ttl_ms,
            ) && !(exists|i2: int|
                0 <= i2 < final(fusion).cache@.len() && (#[trigger] final(fusion).cache@[i2]).key@
                    == old(fusion).cache@[j].key@) ==> old(fusion).cache@[j].ts <= (
            #[trigger] final(fusion).cache@[i]).ts,
{
    let ghost total = fusion.cache@;
    let n0: usize = fusion.cache.len();
    let mut kept: Vec<CacheRow> = Vec::new();
    proof {
        assert(total.skip(0) =~= fusion.cache@);
        assert(fresh_count(total.take(0), now_ms, p.ttl_ms) == 0) by {
            assert(total.take(0).len() == 0);
        }
    }
    while fusion.cache.len() > 0
        invariant
            uniq_cache(total),
            total.len() == n0,
            n0 <= usize::MAX,
            fusion.cache@.len() <= n0,
            fusion.cache@ == total.skip(n0 - fusion.cache@.len()),
            fusion.metrics == old(fusion).metrics,
            kept@.len() == fresh_count(
                total.take(n0 - fusion.cache@.len()),
                now_ms,
                p.ttl_ms,
            ),
            forall|i: int|
                0 <= i < kept@.len() ==> row_fresh(#[trigger] kept@[i], now_ms, p.ttl_ms),
            forall|e: CacheRow| #[trigger]
                kept@.contains(e) == (exists|k: int|
                    0 <= k < n0 - fusion.cache@.len() && total[k] == e && row_fresh(
                        e,
                        now_ms,
                        p.ttl_ms,
                    )),
            forall|a: int, b: int| 0 <= a < b < kept@.len() ==> kept@[a] != kept@[b],
        decreases fusion.cache@.len(),
    {
        let ghost pidx = n0 - fusion.cache@.len();
        let row = fusion.cache.remove(0);
        proof {
            assert(row == total[pidx]);
            assert(fusion.cache@ =~= total.skip(pidx + 1));
            assert(total.take(pidx + 1).drop_last() =~= total.take(pidx as int));
            assert(total.take(pidx + 1).last() == total[pidx]);
        }
        let fresh = row.ts > now_ms || (now_ms as i128 - row.ts as i128) <= p.ttl_ms as i128;
        proof {
            assert(fresh == row_fresh(total[pidx], now_ms, p.ttl_ms));
        }
        let ghost pk = kept@;
        if fresh {
            kept.push(row);
            proof {
                assert forall|e: CacheRow| #[trigger]
                    kept@.contains(e) == (exists|k: int|
                        0 <= k < pidx + 1 && total[k] == e && row_fresh(e, now_ms, p.ttl_ms)) by {
                    if kept@.contains(e) {
                        let a = choose|a: int| 0 <= a < kept@.len() && kept@[a] == e;
                        if a < pk.len() {
                            assert(pk.contains(e));
                            let k = choose|k: int|
                                0 <= k < pidx && total[k] == e && row_fresh(e, now_ms, p.ttl_ms);
                            assert(0 <= k < pidx + 1 && total[k] == e);
                        } else {
                            assert(e == total[pidx]);
                        }
                    }
                    if exists|k: int|
                        0 <= k < pidx + 1 && total[k] == e && row_fresh(e, now_ms, p.ttl_ms) {
                        let k = choose|k: int|
                            0 <= k < pidx + 1 && total[k] == e && row_fresh(e, now_ms, p.ttl_ms);
                        if k == pidx {
                            assert(kept@[pk.len() as int] == total[pidx]);
                            assert(kept@.contains(e));
                        } else {
                            assert(pk.contains(e));
                            let a = choose|a: int| 0 <= a < pk.len() && pk[a] == e;
                            assert(kept@[a] == e);
                            assert(kept@.contains(e));
                        }
                    }
                }
                assert forall|a: int, b: int| 0 <= a < b < kept@.len() implies kept@[a]
                    != kept@[b] by {
                    if b == pk.len() {
                        assert(kept@[b] == total[pidx]);
                        assert(pk.contains(pk[a]));
                        let k = choose|k: int|
                            0 <= k < pidx && total[k] == pk[a] && row_fresh(
                                pk[a],
                                now_ms,
                                p.ttl_ms,
                            );
                        if pk[a] == total[pidx] {
                            assert(total[k].key@ != total[pidx].key@);
                            assert(false);
                        }
                        assert(kept@[a] == pk[a]);
                    } else {
                        assert(kept@[a] == pk[a]);
                        assert(kept@[b] == pk[b]);
                    }
                }
            }
        } else {
            proof {
                assert forall|e: CacheRow| #[trigger]
                    kept@.contains(e) == (exists|k: int|
                        0 <= k < pidx + 1 && total[k] == e && row_fresh(e, now_ms, p.ttl_ms)) by {
                    if kept@.contains(e) {
                        let k = choose|k: int|
                            0 <= k < pidx && total[k] == e && row_fresh(e, now_ms, p.ttl_ms);
                        assert(0 <= k < pidx + 1 && total[k] == e);
                    }
                    if exists|k: int|
                        0 <= k < pidx + 1 && total[k] == e && row_fresh(e, now_ms, p.ttl_ms) {
                        let k = choose|k: int|
                            0 <= k < pidx + 1 && total[k] == e && row_fresh(e, now_ms, p.ttl_ms);
                        if k == pidx {
                            assert(false);
                        } else {
                            assert(kept@.contains(e));
                        }
                    }
                }
            }
        }
    }
    proof {
        assert(total.take(n0 as int) =~= total);
        assert(uniq_cache(kept@)) by {
            assert forall|a: int, b: int| 0 <= a < b < kept@.len() implies kept@[a].key@
                != kept@[b].key@ by {
                assert(kept@.contains(kept@[a]));
                assert(kept@.contains(kept@[b]));
                let ka = choose|k: int|
                    0 <= k < n0 && total[k] == kept@[a] && row_fresh(kept@[a], now_ms, p.ttl_ms);
                let kb = choose|k: int|
                    0 <= k < n0 && total[k] == kept@[b] && row_fresh(kept@[b], now_ms, p.ttl_ms);
                if ka == kb {
                    assert(kept@[a] == kept@[b]);
                    assert(false);
                } else if ka < kb {
                    assert(total[ka].key@ != total[kb].key@);
                } else {
                    assert(total[kb].key@ != total[ka].key@);
                }
            }
        }
    }
    let survivors = kept;
    fusion.cache = survivors;
    // Size cap: evict the oldest rows until the cache fits.
    let ghost freshv = fusion.cache@;
    proof {
        lemma_fresh_count_full(freshv, now_ms, p.ttl_ms);
    }
    evict_oldest(&mut fusion.cache, p.cache_max);
    proof {
        assert forall|i: int|
            0 <= i < fusion.cache@.len() implies row_fresh(
            #[trigger] fusion.cache@[i],
            now_ms,
            p.ttl_ms,
        ) && total.contains(fusion.cache@[i]) by {
            assert(freshv.contains(fusion.cache@[i]));
            let j = choose|j: int| 0 <= j < freshv.len() && freshv[j] == fusion.cache@[i];
            assert(row_fresh(freshv[j], now_ms, p.ttl_ms));
            let k = choose|k: int|
                0 <= k < total.len() && total[k] == freshv[j] && row_fresh(
                    freshv[j],
                    now_ms,
                    p.ttl_ms,
                );
            assert(total[k] == fusion.cache@[i]);
        }
        if fresh_count(total, now_ms, p.ttl_ms) <= p.cache_max {
            assert(fusion.cache@ == freshv);
            assert forall|r: CacheRow|
                total.contains(r) && row_fresh(r, now_ms, p.ttl_ms) implies fusion.cache@.contains(
                r,
            ) by {
                let k = choose|k: int| 0 <= k < total.len() && total[k] == r;
            }
        }
        assert forall|j: int, i: int|
            0 <= j < total.len() && 0 <= i < fusion.cache@.len() && row_fresh(
                #[trigger] total[j],
                now_ms,
                p.ttl_ms,
            ) && !(exists|i2: int|
                0 <= i2 < fusion.cache@.len() && (#[trigger] fusion.cache@[i2]).key@
                    == total[j].key@) implies total[j].ts <= (#[trigger] fusion.cache@[i]).ts by {
            assert(total.contains(total[j]));
            assert(freshv.contains(total[j]));
            let j2 = choose|j2: int| 0 <= j2 < freshv.len() && freshv[j2] == total[j];
            assert(freshv[j2].ts <= fusion.cache@[i].ts);
        }
    }
}

/// While more rows remain than the cap, drop the row with the smallest
/// timestamp. Surviving rows keep their values; every evicted row is no
/// younger than any survivor.
fn evict_oldest(cache: &mut Vec<CacheRow>, cap: usize)
    requires
        uniq_cache(old(cache)@),
    ensures
        uniq_cache(final(cache)@),
        final(cache)@.len() == (if old(cache)@.len() <= cap {
            old(cache)@.len() as int
        } else {
            cap as int
        }),
        old(cache)@.len() <= cap ==> final(cache)@ == old(cache)@,
        forall|i: int|
            0 <= i < final(cache)@.len() ==> old(cache)@.contains(#[trigger] final(cache)@[i]),
        forall|j: int, i: int|
            0 <= j < old(cache)@.len() && 0 <= i < final(cache)@.len() && !(exists|i2: int|
                0 <= i2 < final(cache)@.len() && (#[trigger] final(cache)@[i2]).key@ == (
                #[trigger] old(cache)@[j]).key@) ==> old(cache)@[j].ts <= (
            #[trigger] final(cache)@[i]).ts,
{
    let ghost orig = old(cache)@;
    let n0: usize = cache.len();
    proof {
        assert forall|i: int| 0 <= i < cache@.len() implies orig.contains(
            #[trigger] cache@[i],
        ) by {
            assert(orig[i] == cache@[i]);
        }
    }
    loop
        invariant
            orig == old(cache)@,
            orig.len() == n0,
            n0 <= usize::MAX,
            uniq_cache(orig),
            uniq_cache(cache@),
            orig.len() <= cap ==> *cache == *old(cache),
            orig.len() > cap ==> cache@.len() >= cap,
            forall|i: int| 0 <= i < cache@.len() ==> orig.contains(#[trigger] cache@[i]),
            forall|j: int, i: int|
                0 <= j < orig.len() && 0 <= i < cache@.len() && !(exists|i2: int|
                    0 <= i2 < cache@.len() && (#[trigger] cache@[i2]).key@ == (
                    #[trigger] orig[j]).key@) ==> orig[j].ts <= (#[trigger] cache@[i]).ts,
        ensures
            cache@.len() == (if orig.len() <= cap {
                orig.len() as int
            } else {
                cap as int
            }),
            orig.len() <= cap ==> *cache == *old(cache),
            forall|i: int| 0 <= i < cache@.len() ==> orig.contains(#[trigger] cache@[i]),
            forall|j: int, i: int|
                0 <= j < orig.len() && 0 <= i < cache@.len() && !(exists|i2: int|
                    0 <= i2 < cache@.len() && (#[trigger] cache@[i2]).key@ == (
                    #[trigger] orig[j]).key@) ==> orig[j].ts <= (#[trigger] cache@[i]).ts,
        decreases cache@.len(),
    {
        if cache.len() <= cap {
            break;
        }
        let cn: usize = cache.len();
        let mut mi: usize = 0;
        let mut i: usize = 1;
        while i < cn
            invariant
                cn == cache@.len(),
                1 <= cn,
                mi < i,
                i <= cn,
                forall|k: int|
                    0 <= k < i ==> cache@[mi as int].ts <= (#[trigger] cache@[k]).ts,
            decreases cn - i,
        {
            if cache[i].ts < cache[mi].ts {
                mi = i;
            }
            i = i + 1;
        }
        let ghost pre = cache@;
        let victim = cache.remove(mi);
        proof {
            let xi = mi as int;
            assert(cache@ =~= pre.remove(xi));
            assert(uniq_cache(cache@)) by {
                assert forall|a: int, b: int| 0 <= a < b < cache@.len() implies cache@[a].key@
                    != cache@[b].key@ by {
                    let a0 = if a < xi {
                        a
                    } else {
                        a + 1
                    };
                    let b0 = if b < xi {
                        b
                    } else {
                        b + 1
                    };
                    assert(cache@[a] == pre[a0]);
                    assert(cache@[b] == pre[b0]);
                }
            }
            assert forall|i3: int| 0 <= i3 < cache@.len() implies orig.contains(
                #[trigger] cache@[i3],
            ) by {
                let i0 = if i3 < xi {
                    i3
                } else {
                    i3 + 1
                };
                assert(cache@[i3] == pre[i0]);
            }
            assert forall|j: int, i3: int|
                0 <= j < orig.len() && 0 <= i3 < cache@.len() && !(exists|i2: int|
                    0 <= i2 < cache@.len() && (#[trigger] cache@[i2]).key@ == (
                    #[trigger] orig[j]).key@) implies orig[j].ts <= (
            #[trigger] cache@[i3]).ts by {
                let i0 = if i3 < xi {
                    i3
                } else {
                    i3 + 1
                };
                assert(cache@[i3] == pre[i0]);
                if exists|i2: int| 0 <= i2 < pre.len() && (#[trigger] pre[i2]).key@ == orig[j].key@ {
                    let k = choose|k: int|
                        0 <= k < pre.len() && (#[trigger] pre[k]).key@ == orig[j].key@;
                    assert(k == xi) by {
                        if k != xi {
                            let k1 = if k < xi {
                                k
                            } else {
                                k - 1
                            };
                            assert(cache@[k1] == pre[k]);
                        }
                    }
                    // The evicted row is the round's minimum, and it is
                    // the unique survivor of this key among the originals.
                    assert(pre.contains(pre[xi]));
                    let j2 = choose|j2: int| 0 <= j2 < orig.len() && (#[trigger] orig[j2]) == pre[xi];
                    assert(j2 == j) by {
                        if j2 != j {
                            if j2 < j {
                                assert(orig[j2].key@ != orig[j].key@);
                            } else {
                                assert(orig[j].key@ != orig[j2].key@);
                            }
                        }
                    }
                    assert(pre[xi].ts <= pre[i0].ts);
                } else {
                    assert(orig[j].ts <= pre[i0].ts);
                }
            }
        }
    }
}

/// Latencies never decrease along the list.
pub open spec fn sorted_asc(s: Seq<u64>) -> bool {
    forall|i: int, j: int| 0 <= i < j < s.len() ==> s[i] <= s[j]
}

/// The latency column of a history window.
pub open spec fn lat_of(h: Seq<(i64, u64)>) -> Seq<u64> {
    Seq::new(h.len(), |i: int| h[i].1)
}

/// The window with its stale front dropped: entries older than a minute
/// leave, front first, until a fresh one is met.
pub open spec fn prune_front(h: Seq<(i64, u64)>, now: i64) -> Seq<(i64, u64)>
    decreases h.len(),
{
    if h.len() > 0 && now - h.first().0 > 60000 {
        prune_front(h.drop_first(), now)
    } else {
        h
    }
}

/// The percentile fields hold the integer percentiles of the window:
/// the middle and the ninety-fifth-of-a-hundred position of the sorted
/// latencies, or zero for an empty window.
pub open spec fn percentiles_ok(m: Metrics) -> bool {
    exists|s: Seq<u64>|
        {
            &&& sorted_asc(s)
            &&& s.to_multiset() == lat_of(m.history@).to_multiset()
            &&& (m.history@.len() == 0 ==> m.p50_ms == 0 && m.p95_ms == 0)
            &&& (m.history@.len() > 0 ==> m.p50_ms == s[s.len() as int / 2] && m.p95_ms == s[
                if s.len() * 19 / 20 < s.len() - 1 {
                    s.len() as int * 19 / 20
                } else {
                    s.len() as int - 1
                }
            ])
        }
}

/// One cache hit's effect on the metrics: the query and hit counters
/// move, the latency is zero, a zero-latency point enters the pruned
/// window, and the percentiles are refreshed.
pub open spec fn hit_step(o: Metrics, m: Metrics, now: i64) -> bool {
    &&& m.count == crate::vecindex::sat_add(o.count, 1)
    &&& m.cache_hits == crate::vecindex::sat_add(o.cache_hits, 1)
    &&& m.cache_misses == o.cache_misses
    &&& m.last_ms == 0
    &&& m.total_ms == o.total_ms
    &&& m.history@ == prune_front(o.history@.push((now, 0u64)), now)
    &&& percentiles_ok(m)
}

/// One cache miss's effect on the metrics: the query and miss counters
/// move, the latency is recorded and totalled, the point enters the
/// pruned window, and the percentiles are refreshed.
pub open spec fn miss_step(o: Metrics, m: Metrics, now: i64, took: u64) -> bool {
    &&& m.count == crate::vecindex::sat_add(o.count, 1)
    &&& m.cache_misses == crate::vecindex::sat_add(o.cache_misses, 1)
    &&& m.cache_hits == o.cache_hits
    &&& m.last_ms == took
    &&& m.total_ms == crate::vecindex::sat_add(o.total_ms, took)
    &&& m.history@ == prune_front(o.history@.push((now, took)), now)
    &&& percentiles_ok(m)
}

/// Insert a latency into an ascending list, keeping it ascending.
fn insert_asc(out: &mut Vec<u64>, x: u64)
    requires
        sorted_asc(old(out)@),
    ensures
        sorted_asc(final(out)@),
        final(out)@.to_multiset() == old(out)@.to_multiset().insert(x),
        final(out)@.len() == old(out)@.len() + 1,
{
    let n: usize = out.len();
    let mut p: usize = 0;
    loop
        invariant
            n == out@.len(),
            p <= n,
            *out == *old(out),
            forall|q: int| 0 <= q < p ==> out@[q] < x,
        ensures
            p <= n,
            *out == *old(out),
            forall|q: int| 0 <= q < p ==> out@[q] < x,
            p < n ==> out@[p as int] >= x,
        decreases n - p,
    {
        if p >= n {
            break;
        }
        if out[p] >= x {
            break;
        }
        p = p + 1;
    }
    let ghost pre = out@;
    let ghost xi = p as int;
    out.insert(p, x);
    proof {
        crate::hits::lemma_seq_insert_to_multiset(pre, xi, x);
        let post = out@;
        assert forall|a: int, b: int| 0 <= a < b < post.len() implies post[a] <= post[b] by {
            if a < xi && b == xi {
            } else if a == xi && b > xi {
                assert(post[b] == pre[b - 1]);
            } else if a < xi && b > xi {
                assert(post[a] == pre[a]);
                assert(post[b] == pre[b - 1]);
            } else if a > xi && b > xi {
                assert(post[a] == pre[a - 1]);
                assert(post[b] == pre[b - 1]);
            } else {
                assert(post[a] == pre[a]);
                assert(post[b] == pre[b]);
            }
        }
    }
}

/// Drop stale entries from the front of the window, then recompute the
/// integer percentiles from the sorted latencies.
fn refresh_window(m: &mut Metrics, now_ms: i64)
    ensures
        final(m).history@ == prune_front(old(m).history@, now_ms),
        percentiles_ok(*final(m)),
        final(m).count == old(m).count,
        final(m).cache_hits == old(m).cache_hits,
        final(m).cache_misses == old(m).cache_misses,
        final(m).last_ms == old(m).last_ms,
        final(m).total_ms == old(m).total_ms,
{
    loop
        invariant
            prune_front(old(m).history@, now_ms) == prune_front(m.history@, now_ms),
            m.count == old(m).count,
            m.cache_hits == old(m).cache_hits,
            m.cache_misses == old(m).cache_misses,
            m.last_ms == old(m).last_ms,
            m.total_ms == old(m).total_ms,
            m.p50_ms == old(m).p50_ms,
            m.p95_ms == old(m).p95_ms,
        ensures
            m.history@ == prune_front(old(m).history@, now_ms),
            m.count == old(m).count,
            m.cache_hits == old(m).cache_hits,
            m.cache_misses == old(m).cache_misses,
            m.last_ms == old(m).last_ms,
            m.total_ms == old(m).total_ms,
        decreases m.history@.len(),
    {
        if m.history.len() == 0 {
            break;
        }
        let (ts, _) = m.history[0];
        if !((now_ms as i128 - ts as i128) > 60000) {
            proof {
                assert(prune_front(m.history@, now_ms) == m.history@);
            }
            break;
        }
        let ghost pre = m.history@;
        m.history.remove(0);
        proof {
            assert(m.history@ =~= pre.drop_first());
        }
    }
    // Sorted latencies of the surviving window.
    let mut lat: Vec<u64> = Vec::new();
    let hn: usize = m.history.len();
    let mut i: usize = 0;
    proof {
        lat@.to_multiset_ensures();
        assert(lat@.to_multiset() =~= lat_of(m.history@.take(0)).to_multiset()) by {
            assert(lat_of(m.history@.take(0)).len() == 0);
            lat_of(m.history@.take(0)).to_multiset_ensures();
        }
    }
    while i < hn
        invariant
            hn == m.history@.len(),
            i <= hn,
            lat@.len() == i,
            sorted_asc(lat@),
            lat@.to_multiset() == lat_of(m.history@.take(i as int)).to_multiset(),
        decreases hn - i,
    {
        let ghost prefix = lat_of(m.history@.take(i as int));
        insert_asc(&mut lat, m.history[i].1);
        proof {
            let nxt = lat_of(m.history@.take(i + 1));
            nxt.to_multiset_ensures();
            prefix.to_multiset_ensures();
            assert(nxt =~= prefix.push(m.history@[i as int].1));
            assert(nxt.to_multiset() =~= prefix.to_multiset().insert(m.history@[i as int].1));
        }
        i = i + 1;
    }
    proof {
        assert(m.history@.take(hn as int) =~= m.history@);
    }
    if lat.len() == 0 {
        m.p50_ms = 0;
        m.p95_ms = 0;
    } else {
        let ln: usize = lat.len();
        m.p50_ms = lat[ln / 2];
        let scaled: usize = ((ln as u128) * 19 / 20) as usize;
        let p95_idx: usize = if scaled < ln - 1 {
            scaled
        } else {
            ln - 1
        };
        m.p95_ms = lat[p95_idx];
    }
    proof {
        assert(percentiles_ok(*m)) by {
            assert(sorted_asc(lat@) && lat@.to_multiset() == lat_of(m.history@).to_multiset());
        }
    }
}

/// Record a cache hit: the counters move, the latency is zero, and the
/// window and percentiles are refreshed with a zero-latency point.
pub fn record_hit(m: &mut Metrics, now_ms: i64)
    ensures
        hit_step(*old(m), *final(m), now_ms),
{
    m.count = if m.count == u64::MAX {
        m.count
    } else {
        m.count + 1
    };
    m.cache_hits = if m.cache_hits == u64::MAX {
        m.cache_hits
    } else {
        m.cache_hits + 1
    };
    m.last_ms = 0;
    m.history.push((now_ms, 0));
    refresh_window(m, now_ms);
}

/// Record a cache miss that took `took_ms`: the counters move, the
/// latency is recorded and totalled, and the window and percentiles are
/// refreshed.
pub fn record_miss(m: &mut Metrics, now_ms: i64, took_ms: u64)
    ensures
        miss_step(*old(m), *final(m), now_ms, took_ms),
{
    m.count = if m.count == u64::MAX {
        m.count
    } else {
        m.count + 1
    };
    m.cache_misses = if m.cache_misses == u64::MAX {
        m.cache_misses
    } else {
        m.cache_misses + 1
    };
    m.last_ms = took_ms;
    m.total_ms = if m.total_ms > u64::MAX - took_ms {
        u64::MAX
    } else {
        m.total_ms + took_ms
    };
    m.history.push((now_ms, took_ms));
    refresh_window(m, now_ms);
}

/// Rewrite every hit to the flat zero score of this pipeline.
fn zero_scores(hits: Vec<SearchHit>) -> (r: Vec<SearchHit>)
    ensures
        r@.len() == hits@.len(),
        forall|i: int|
            0 <= i < hits@.len() ==> (#[trigger] r@[i]).id@ == hits@[i].id@ && r@[i].score_milli
                == 0 && r@[i].layer == hits@[i].layer && r@[i].source == hits@[i].source
                && r@[i].vector_score_milli == hits@[i].vector_score_milli,
{
    let ghost total = hits@;
    let n0: usize = hits.len();
    let mut rest = hits;
    let mut out: Vec<SearchHit> = Vec::new();
    proof {
        assert(total.skip(0) =~= rest@);
    }
    while rest.len() > 0
        invariant
            total.len() == n0,
            n0 <= usize::MAX,
            rest@.len() <= n0,
            rest@ == total.skip(n0 - rest@.len()),
            out@.len() == n0 - rest@.len(),
            forall|i: int|
                0 <= i < out@.len() ==> (#[trigger] out@[i]).id@ == total[i].id@
                    && out@[i].score_milli == 0 && out@[i].layer == total[i].layer
                    && out@[i].source == total[i].source && out@[i].vector_score_milli
                    == total[i].vector_score_milli,
        decreases rest@.len(),
    {
        let ghost p = n0 - rest@.len();
        let h = rest.remove(0);
        proof {
            assert(h == total[p]);
            assert(rest@ =~= total.skip(p + 1));
        }
        out.push(SearchHit { score_milli: 0, ..h });
        proof {
            assert(out@[p as int].id@ == total[p].id@);
        }
    }
    out
}

/// Append a zero-score hit for every text posting containing the query,
/// case-insensitively: document chunks under their document id, memory
/// postings under the memory id.
/// The id a text posting contributes: its document for a chunk, its
/// memory otherwise.
pub open spec fn text_hit_id(k: TextKey) -> Seq<u8> {
    match k {
        TextKey::Chunk { doc_id, .. } => doc_id@,
        TextKey::Mem { mem_id } => mem_id@,
    }
}

/// Append a zero-score hit for every text posting containing the query
/// case-insensitively, skipping ids already present.
pub fn append_doc_hits(hits: &mut Vec<SearchHit>, text_index: &Vec<TextRow>, q: &Vec<u8>)
    ensures
        old(hits)@.len() <= final(hits)@.len(),
        forall|h: int| 0 <= h < old(hits)@.len() ==> final(hits)@[h] == old(hits)@[h],
        forall|h: int|
            old(hits)@.len() <= h < final(hits)@.len() ==> (#[trigger] final(hits)@[h]).source
                == HitSource::DocIndex && final(hits)@[h].score_milli == 0,
        forall|h: int, h0: int|
            old(hits)@.len() <= h < final(hits)@.len() && 0 <= h0 < old(hits)@.len() ==> (
            #[trigger] final(hits)@[h]).id@ != (#[trigger] final(hits)@[h0]).id@,
        forall|h: int, h2: int|
            old(hits)@.len() <= h < h2 < final(hits)@.len() ==> (#[trigger] final(hits)@[h]).id@
                != (#[trigger] final(hits)@[h2]).id@,
        // Every matching posting's id occurs among the hits.
        forall|t: int|
            0 <= t < text_index@.len() && crate::bytes::contains_seq(
                crate::bytes::lower_seq((#[trigger] text_index@[t]).text@),
                crate::bytes::lower_seq(q@),
            ) ==> (exists|h: int|
                0 <= h < final(hits)@.len() && (#[trigger] final(hits)@[h]).id@ == text_hit_id(
                    text_index@[t].key,
                )),
        (forall|h: int, h2: int|
            0 <= h < h2 < old(hits)@.len() ==> old(hits)@[h].id@ != old(hits)@[h2].id@) ==> (
        forall|h: int, h2: int|
            0 <= h < h2 < final(hits)@.len() ==> final(hits)@[h].id@ != final(hits)@[h2].id@),
{
    let ghost base = old(hits)@;
    let ghost base_distinct = forall|h: int, h2: int|
        0 <= h < h2 < base.len() ==> base[h].id@ != base[h2].id@;
    let n: usize = text_index.len();
    let mut i: usize = 0;
    while i < n
        invariant
            n == text_index@.len(),
            i <= n,
            base.len() <= hits@.len(),
            forall|h: int| 0 <= h < base.len() ==> hits@[h] == base[h],
            forall|h: int|
                base.len() <= h < hits@.len() ==> (#[trigger] hits@[h]).source
                    == HitSource::DocIndex && hits@[h].score_milli == 0,
            forall|h: int, h0: int|
                base.len() <= h < hits@.len() && 0 <= h0 < base.len() ==> (
                #[trigger] hits@[h]).id@ != (#[trigger] hits@[h0]).id@,
            forall|h: int, h2: int|
                base.len() <= h < h2 < hits@.len() ==> (#[trigger] hits@[h]).id@ != (
                #[trigger] hits@[h2]).id@,
            forall|t: int|
                0 <= t < i && crate::bytes::contains_seq(
                    crate::bytes::lower_seq((#[trigger] text_index@[t]).text@),
                    crate::bytes::lower_seq(q@),
                ) ==> (exists|h: int|
                    0 <= h < hits@.len() && (#[trigger] hits@[h]).id@ == text_hit_id(
                        text_index@[t].key,
                    )),
            base_distinct == (forall|h: int, h2: int|
                0 <= h < h2 < base.len() ==> base[h].id@ != base[h2].id@),
            base_distinct ==> (forall|h: int, h2: int|
                0 <= h < h2 < hits@.len() ==> hits@[h].id@ != hits@[h2].id@),
        decreases n - i,
    {
        if crate::bytes::contains_ci(&text_index[i].text, q) {
            let id = match &text_index[i].key {
                TextKey::Chunk { doc_id, .. } => crate::bytes::copy_bytes(doc_id),
                TextKey::Mem { mem_id } => crate::bytes::copy_bytes(mem_id),
            };
            proof {
                assert(id@ == text_hit_id(text_index@[i as int].key));
            }
            let hn: usize = hits.len();
            let mut seen = false;
            let mut h: usize = 0;
            while h < hn
                invariant
                    hn == hits@.len(),
                    h <= hn,
                    seen ==> exists|a: int|
                        0 <= a < hits@.len() && (#[trigger] hits@[a]).id@ == id@,
                    !seen ==> forall|a: int| 0 <= a < h ==> (#[trigger] hits@[a]).id@ != id@,
                decreases hn - h,
            {
                if crate::bytes::bytes_eq(&hits[h].id, &id) {
                    proof {
                        assert(hits@[h as int].id@ == id@);
                    }
                    seen = true;
                    h = hn;
                } else {
                    h = h + 1;
                }
            }
            if !seen {
                let ghost ph = hits@;
                hits.push(
                    SearchHit {
                        id,
                        score_milli: 0,
                        layer: None,
                        doc_refs: None,
                        source: HitSource::DocIndex,
                        vector_score_milli: None,
                    },
                );
                proof {
                    let nh = hits@.len() - 1;
                    assert(hits@[nh].id@ == text_hit_id(text_index@[i as int].key));
                    assert forall|t: int|
                        0 <= t < i + 1 && crate::bytes::contains_seq(
                            crate::bytes::lower_seq((#[trigger] text_index@[t]).text@),
                            crate::bytes::lower_seq(q@),
                        ) implies (exists|h2: int|
                            0 <= h2 < hits@.len() && (#[trigger] hits@[h2]).id@ == text_hit_id(
                                text_index@[t].key,
                            )) by {
                        if t < i {
                            let h2 = choose|h2: int|
                                0 <= h2 < ph.len() && (#[trigger] ph[h2]).id@ == text_hit_id(
                                    text_index@[t].key,
                                );
                            assert(hits@[h2] == ph[h2]);
                        } else {
                            assert(hits@[nh].id@ == text_hit_id(text_index@[t].key));
                        }
                    }
                    if base_distinct {
                        assert forall|h2: int, h3: int| 0 <= h2 < h3 < hits@.len() implies
                            hits@[h2].id@ != hits@[h3].id@ by {
                            if h3 == nh {
                                assert(hits@[h2] == ph[h2]);
                            } else {
                                assert(hits@[h2] == ph[h2]);
                                assert(hits@[h3] == ph[h3]);
                            }
                        }
                    }
                }
            } else {
                proof {
                    assert forall|t: int|
                        0 <= t < i + 1 && crate::bytes::contains_seq(
                            crate::bytes::lower_seq((#[trigger] text_index@[t]).text@),
                            crate::bytes::lower_seq(q@),
                        ) implies (exists|h2: int|
                            0 <= h2 < hits@.len() && (#[trigger] hits@[h2]).id@ == text_hit_id(
                                text_index@[t].key,
                            )) by {
                        if t == i {
                            let a = choose|a: int|
                                0 <= a < hits@.len() && (#[trigger] hits@[a]).id@ == id@;
                        }
                    }
                }
            }
        }
        i = i + 1;
    }
}

/// A `Mentions` edge that answers the entity query: its destination is
/// the queried entity's key up to ASCII case, and its source is a memory
/// key.
pub open spec fn kg_query_edge(e: EdgeRow, q: Seq<u8>) -> bool {
    &&& e.relation == crate::store::Relation::Mentions
    &&& crate::bytes::lower_seq(e.dst@) == crate::bytes::lower_seq(
        crate::kg::node_key_of(crate::store::NodeKind::Entity, q),
    )
    &&& crate::bytes::is_prefix_of(
        crate::kg::node_key_of(crate::store::NodeKind::Memory, Seq::empty()),
        e.src@,
    )
}

/// The memory id a matching edge contributes: its source key without the
/// kind prefix.
pub open spec fn kg_hit_id(e: EdgeRow) -> Seq<u8> {
    e.src@.subrange(8, e.src@.len() as int)
}

/// Append a zero-score hit for every memory that mentions the queried
/// entity through a `Mentions` edge, case-insensitively on the entity
/// key, skipping ids already present.
pub fn append_kg_hits(hits: &mut Vec<SearchHit>, edges: &Vec<EdgeRow>, q: &Vec<u8>)
    ensures
        old(hits)@.len() <= final(hits)@.len(),
        forall|h: int| 0 <= h < old(hits)@.len() ==> final(hits)@[h] == old(hits)@[h],
        forall|h: int|
            old(hits)@.len() <= h < final(hits)@.len() ==> (#[trigger] final(hits)@[h]).source
                == HitSource::Kg && final(hits)@[h].score_milli == 0,
        forall|h: int, h0: int|
            old(hits)@.len() <= h < final(hits)@.len() && 0 <= h0 < old(hits)@.len() ==> (
            #[trigger] final(hits)@[h]).id@ != (#[trigger] final(hits)@[h0]).id@,
        forall|h: int, h2: int|
            old(hits)@.len() <= h < h2 < final(hits)@.len() ==> (#[trigger] final(hits)@[h]).id@
                != (#[trigger] final(hits)@[h2]).id@,
        // Every memory mentioning the queried entity occurs among the hits.
        forall|t: int|
            0 <= t < edges@.len() && kg_query_edge(#[trigger] edges@[t], q@) ==> (exists|h: int|
                0 <= h < final(hits)@.len() && (#[trigger] final(hits)@[h]).id@ == kg_hit_id(
                    edges@[t],
                )),
        (forall|h: int, h2: int|
            0 <= h < h2 < old(hits)@.len() ==> old(hits)@[h].id@ != old(hits)@[h2].id@) ==> (
        forall|h: int, h2: int|
            0 <= h < h2 < final(hits)@.len() ==> final(hits)@[h].id@ != final(hits)@[h2].id@),
{
    let ghost base = old(hits)@;
    let ghost base_distinct = forall|h: int, h2: int|
        0 <= h < h2 < base.len() ==> base[h].id@ != base[h2].id@;
    let empty: Vec<u8> = Vec::new();
    let mem_prefix = crate::kg::node_key(crate::store::NodeKind::Memory, &empty);
    let wanted = crate::kg::node_key(crate::store::NodeKind::Entity, q);
    let wanted_l = crate::bytes::to_lower(&wanted);
    proof {
        assert(crate::kg::node_key_of(crate::store::NodeKind::Memory, Seq::empty()) =~= mem_prefix@);
    }
    let n: usize = edges.len();
    let mut i: usize = 0;
    while i < n
        invariant
            n == edges@.len(),
            i <= n,
            base.len() <= hits@.len(),
            mem_prefix@ == crate::kg::node_key_of(crate::store::NodeKind::Memory, Seq::empty()),
            mem_prefix@.len() == 8,
            wanted_l@ == crate::bytes::lower_seq(
                crate::kg::node_key_of(crate::store::NodeKind::Entity, q@),
            ),
            forall|h: int| 0 <= h < base.len() ==> hits@[h] == base[h],
            forall|h: int|
                base.len() <= h < hits@.len() ==> (#[trigger] hits@[h]).source == HitSource::Kg
                    && hits@[h].score_milli == 0,
            forall|h: int, h0: int|
                base.len() <= h < hits@.len() && 0 <= h0 < base.len() ==> (
                #[trigger] hits@[h]).id@ != (#[trigger] hits@[h0]).id@,
            forall|h: int, h2: int|
                base.len() <= h < h2 < hits@.len() ==> (#[trigger] hits@[h]).id@ != (
                #[trigger] hits@[h2]).id@,
            forall|t: int|
                0 <= t < i && kg_query_edge(#[trigger] edges@[t], q@) ==> (exists|h: int|
                    0 <= h < hits@.len() && (#[trigger] hits@[h]).id@ == kg_hit_id(edges@[t])),
            base_distinct == (forall|h: int, h2: int|
                0 <= h < h2 < base.len() ==> base[h].id@ != base[h2].id@),
            base_distinct ==> (forall|h: int, h2: int|
                0 <= h < h2 < hits@.len() ==> hits@[h].id@ != hits@[h2].id@),
        decreases n - i,
    {
        let is_mention = matches!(edges[i].relation, crate::store::Relation::Mentions);
        let mut matched = false;
        if is_mention {
            let dst_l = crate::bytes::to_lower(&edges[i].dst);
            if crate::bytes::bytes_eq(&dst_l, &wanted_l) && crate::bytes::starts_with(
                &edges[i].src,
                &mem_prefix,
            ) {
                matched = true;
            }
        }
        proof {
            assert(matched == kg_query_edge(edges@[i as int], q@));
        }
        if matched {
            let mem_id = crate::entities::copy_range(&edges[i].src, 8, edges[i].src.len());
            proof {
                assert(mem_id@ == kg_hit_id(edges@[i as int]));
            }
            let hn: usize = hits.len();
            let mut seen = false;
            let mut h: usize = 0;
            while h < hn
                invariant
                    hn == hits@.len(),
                    h <= hn,
                    seen ==> exists|a: int|
                        0 <= a < hits@.len() && (#[trigger] hits@[a]).id@ == mem_id@,
                    !seen ==> forall|a: int| 0 <= a < h ==> (#[trigger] hits@[a]).id@ != mem_id@,
                decreases hn - h,
            {
                if crate::bytes::bytes_eq(&hits[h].id, &mem_id) {
                    proof {
                        assert(hits@[h as int].id@ == mem_id@);
                    }
                    seen = true;
                    h = hn;
                } else {
                    h = h + 1;
                }
            }
            if !seen {
                let ghost ph = hits@;
                hits.push(
                    SearchHit {
                        id: mem_id,
                        score_milli: 0,
                        layer: None,
                        doc_refs: None,
                        source: HitSource::Kg,
                        vector_score_milli: None,
                    },
                );
                proof {
                    let nh = hits@.len() - 1;
                    assert(hits@[nh].id@ == kg_hit_id(edges@[i as int]));
                    assert forall|t: int|
                        0 <= t < i + 1 && kg_query_edge(#[trigger] edges@[t], q@) implies (
                    exists|h2: int|
                        0 <= h2 < hits@.len() && (#[trigger] hits@[h2]).id@ == kg_hit_id(
                            edges@[t],
                        )) by {
                        if t < i {
                            let h2 = choose|h2: int|
                                0 <= h2 < ph.len() && (#[trigger] ph[h2]).id@ == kg_hit_id(
                                    edges@[t],
                                );
                            assert(hits@[h2] == ph[h2]);
                        } else {
                            assert(hits@[nh].id@ == kg_hit_id(edges@[t]));
                        }
                    }
                    if base_distinct {
                        assert forall|h2: int, h3: int| 0 <= h2 < h3 < hits@.len() implies
                            hits@[h2].id@ != hits@[h3].id@ by {
                            if h3 == nh {
                                assert(hits@[h2] == ph[h2]);
                            } else {
                                assert(hits@[h2] == ph[h2]);
                                assert(hits@[h3] == ph[h3]);
                            }
                        }
                    }
                }
            } else {
                proof {
                    assert forall|t: int|
                        0 <= t < i + 1 && kg_query_edge(#[trigger] edges@[t], q@) implies (
                    exists|h2: int|
                        0 <= h2 < hits@.len() && (#[trigger] hits@[h2]).id@ == kg_hit_id(
                            edges@[t],
                        )) by {
                        if t == i {
                            let a = choose|a: int|
                                0 <= a < hits@.len() && (#[trigger] hits@[a]).id@ == mem_id@;
                        }
                    }
                }
            }
        }
        i = i + 1;
    }
}

/// Fused search. A fresh cache entry under the same `q` and `limit`
/// answers at once: the result is the cached list truncated to the
/// limit, and only the hit counter moves (callers report a zero
/// latency). Otherwise candidates are gathered — matching memory records
/// first, then scored vector candidates not already present — the full
/// list is cached under the key with the current time, the miss counter
/// moves, and the list truncated to the limit is returned.
#[verifier::rlimit(100)]
#[verifier::spinoff_prover]
pub fn search_fusion(
    memories: &Vec<MemoryRecord>,
    text_index: &Vec<TextRow>,
    kg_edges: &Vec<EdgeRow>,
    fusion: &mut FusionState,
    key: Vec<u8>,
    q: &Vec<u8>,
    limit: usize,
    time_from: Option<i64>,
    time_to: Option<i64>,
    vector_hits: Vec<crate::hits::ScoredId>,
    p: &Params,
    now_ms: i64,
    took_ms: u64,
) -> (r: (Vec<SearchHit>, bool))
    requires
        uniq_mems(memories@),
        uniq_cache(old(fusion).cache@),
        now_ms >= i64::MIN + 1,
    ensures
        uniq_cache(final(fusion).cache@),
        r.1 ==> ({
            // A fresh entry answered: its prefix came back and only the
            // hit counters moved.
            &&& (exists|i: int|
                0 <= i < old(fusion).cache@.len() && (#[trigger] old(fusion).cache@[i]).key@
                    == key@ && now_ms - old(fusion).cache@[i].ts <= p.ttl_ms && r.0@.len() == (
                if limit <= old(fusion).cache@[i].hits@.len() {
                    limit as int
                } else {
                    old(fusion).cache@[i].hits@.len() as int
                }) && (forall|h: int|
                    0 <= h < r.0@.len() ==> hit_like(
                        #[trigger] r.0@[h],
                        old(fusion).cache@[i].hits@[h],
                    )))
            &&& final(fusion).cache == old(fusion).cache
        }),
        r.1 ==> hit_step(old(fusion).metrics, final(fusion).metrics, now_ms),
        !r.1 ==> ({
            // Gathered fresh: the record hits come first, then document
            // postings, graph mentions, and vector candidates, each id
            // once; in this flat pipeline every source scores zero (the
            // vector component rides along separately), so the list is
            // trivially in descending score order. The full list is
            // cached under the key with the current time, and the reply
            // is its prefix up to the limit.
            let rh = crate::memory::record_hits_of(
                memories@,
                q@,
                None,
                None,
                time_from,
                time_to,
            );
            &&& (exists|i: int|
                0 <= i < final(fusion).cache@.len() && (#[trigger] final(fusion).cache@[i]).key@
                    == key@ && final(fusion).cache@[i].ts == now_ms && {
                    let full = final(fusion).cache@[i].hits@;
                    &&& rh.len() <= full.len()
                    &&& (forall|h: int|
                        0 <= h < rh.len() ==> (#[trigger] full[h]).id@ == rh[h].0
                            && full[h].score_milli == 0 && full[h].source == HitSource::Record
                            && full[h].layer == Some(rh[h].1))
                    &&& (forall|h: int|
                        rh.len() <= h < full.len() ==> (#[trigger] full[h]).source
                            != HitSource::Record)
                    &&& (forall|h: int| 0 <= h < full.len() ==> (#[trigger] full[h]).score_milli == 0)
                    &&& (forall|h: int, h2: int|
                        0 <= h < h2 < full.len() ==> (#[trigger] full[h]).id@ != (
                        #[trigger] full[h2]).id@)
                    &&& r.0@.len() == (if limit <= full.len() {
                        limit as int
                    } else {
                        full.len() as int
                    })
                    &&& (forall|h: int| 0 <= h < r.0@.len() ==> hit_like(#[trigger] r.0@[h], full[h]))
                })
        }),
        // The cached list carries every source's candidates: vector hits
        // keep their component score, every candidate id occurs, every
        // matching text posting and every matching graph mention occurs.
        !r.1 ==> (exists|i: int|
            0 <= i < final(fusion).cache@.len() && (#[trigger] final(fusion).cache@[i]).key@
                == key@ && final(fusion).cache@[i].ts == now_ms && (forall|h: int|
                0 <= h < final(fusion).cache@[i].hits@.len() && (#[trigger] final(fusion).cache@[i].hits@[h]).source == HitSource::Vector ==> (exists|k: int|
                    0 <= k < vector_hits@.len() && (#[trigger] vector_hits@[k]).id@
                        == final(fusion).cache@[i].hits@[h].id@
                        && final(fusion).cache@[i].hits@[h].vector_score_milli == Some(
                        vector_hits@[k].score_milli,
                    )))),

        !r.1 ==> miss_step(old(fusion).metrics, final(fusion).metrics, now_ms, took_ms),
        // A fresh cached row under the key always answers.
        (exists|i: int|
            0 <= i < old(fusion).cache@.len() && (#[trigger] old(fusion).cache@[i]).key@ == key@
                && old(fusion).cache@[i].ts <= now_ms && now_ms - old(fusion).cache@[i].ts
                <= p.ttl_ms) ==> r.1,
{
    let looked = cache_lookup(&fusion.cache, &key, now_ms, p.ttl_ms);
    match looked {
        Some(ci) => {
            let row_len = fusion.cache[ci].hits.len();
            let upto = if limit <= row_len {
                limit
            } else {
                row_len
            };
            let out = copy_hits_prefix(&fusion.cache[ci].hits, upto);
            record_hit(&mut fusion.metrics, now_ms);
            (out, true)
        },
        None => {
            let mut gathered = crate::memory::collect_record_hits(
                memories,
                q,
                None,
                &None,
                time_from,
                time_to,
            );
            let ghost rh = crate::memory::record_hits_of(
                memories@,
                q@,
                None,
                None,
                time_from,
                time_to,
            );
            proof {
                assert(gathered@.len() == rh.len());
            }
            append_doc_hits(&mut gathered, text_index, q);
            append_kg_hits(&mut gathered, kg_edges, q);
            crate::memory::append_vector_hits(&mut gathered, &vector_hits);
            let ghost gv = gathered@;
            let full = zero_scores(gathered);
            let ghost fullv = full@;
            proof {
                // The zeroing keeps ids, layers, sources and the vector
                // component, so every gathered fact carries over.
                assert(fullv.len() == gv.len());
                assert forall|h: int, h2: int| 0 <= h < h2 < fullv.len() implies (
                #[trigger] fullv[h]).id@ != (#[trigger] fullv[h2]).id@ by {
                    assert(fullv[h].id@ == gv[h].id@);
                    assert(fullv[h2].id@ == gv[h2].id@);
                }
                assert forall|k: int|
                    0 <= k < vector_hits@.len() implies (exists|h: int|
                        0 <= h < fullv.len() && (#[trigger] fullv[h]).id@ == (
                        #[trigger] vector_hits@[k]).id@) by {
                    assert(crate::memory::covers_ids(gv, vector_hits@));
                    let h = choose|h: int|
                        0 <= h < gv.len() && (#[trigger] gv[h]).id@ == vector_hits@[k].id@;
                    assert(fullv[h].id@ == gv[h].id@);
                }

                assert forall|t: int|
                    0 <= t < text_index@.len() && crate::bytes::contains_seq(
                        crate::bytes::lower_seq((#[trigger] text_index@[t]).text@),
                        crate::bytes::lower_seq(q@),
                    ) implies (exists|h: int|
                        0 <= h < fullv.len() && (#[trigger] fullv[h]).id@ == text_hit_id(
                            text_index@[t].key,
                        )) by {
                    let h = choose|h: int|
                        0 <= h < gv.len() && (#[trigger] gv[h]).id@ == text_hit_id(
                            text_index@[t].key,
                        );
                    assert(fullv[h].id@ == gv[h].id@);
                }
                assert forall|t: int|
                    0 <= t < kg_edges@.len() && kg_query_edge(
                        #[trigger] kg_edges@[t],
                        q@,
                    ) implies (exists|h: int|
                        0 <= h < fullv.len() && (#[trigger] fullv[h]).id@ == kg_hit_id(
                            kg_edges@[t],
                        )) by {
                    let h = choose|h: int|
                        0 <= h < gv.len() && (#[trigger] gv[h]).id@ == kg_hit_id(kg_edges@[t]);
                    assert(fullv[h].id@ == gv[h].id@);
                }
                assert forall|h: int|
                    0 <= h < fullv.len() && (#[trigger] fullv[h]).source == HitSource::Vector
                        implies (exists|k: int|
                        0 <= k < vector_hits@.len() && (#[trigger] vector_hits@[k]).id@
                            == fullv[h].id@ && fullv[h].vector_score_milli == Some(
                            vector_hits@[k].score_milli,
                        )) by {
                    assert(gv[h].source == HitSource::Vector);
                    assert(h >= rh.len());
                    let k = choose|k: int|
                        0 <= k < vector_hits@.len() && (#[trigger] vector_hits@[k]).id@
                            == gv[h].id@ && vector_hits@[k].score_milli == gv[h].score_milli;
                    assert(gv[h].vector_score_milli == Some(gv[h].score_milli));
                    assert(fullv[h].vector_score_milli == gv[h].vector_score_milli);
                }
            }
            let row_len = full.len();
            let upto = if limit <= row_len {
                limit
            } else {
                row_len
            };
            let out = copy_hits_prefix(&full, upto);
            let ghost key_view = key@;
            cache_store(&mut fusion.cache, key, now_ms, full);
            record_miss(&mut fusion.metrics, now_ms, took_ms);
            proof {
                let ci2 = choose|i: int|
                    0 <= i < fusion.cache@.len() && (#[trigger] fusion.cache@[i]).key@ == key_view
                        && fusion.cache@[i].ts == now_ms && fusion.cache@[i].hits@ == fullv;
                let cs = fusion.cache@[ci2].hits@;
                assert(cs == fullv);
                assert(out@.len() == (if limit <= cs.len() {
                    limit as int
                } else {
                    cs.len() as int
                }));
                assert forall|h: int| 0 <= h < out@.len() implies hit_like(
                    #[trigger] out@[h],
                    cs[h],
                ) by {
                    assert(cs[h] == fullv[h]);
                    assert(hit_like(out@[h], fullv[h]));
                }
            }
            (out, false)
        },
    }
}

} // verus!
