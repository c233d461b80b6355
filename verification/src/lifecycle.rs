//! The lifecycle sweep: short-term expiry, long-term decay, and
//! promotion of short-term memories that earned their keep, with an
//! audit row for every promotion.

use vstd::prelude::*;
use crate::store::{Layer, LogRow, MemoryRecord, Params, Reason, uniq_mems};

verus! {

/// Does a record satisfy the promotion predicate: importance at or above
/// the threshold, or accessed often enough.
pub open spec fn promotes(rec: MemoryRecord, p: Params) -> bool {
    rec.importance_milli >= p.importance_min_milli || rec.access_count >= p.access_min
}

/// Why a record is promoted: importance wins over access.
pub open spec fn reason_of(rec: MemoryRecord, p: Params) -> Reason {
    if rec.importance_milli >= p.importance_min_milli {
        Reason::Importance
    } else {
        Reason::Access
    }
}

/// Importance after one decay step, capped at the top of the range.
pub open spec fn decayed(imp: u64, p: Params) -> u64 {
    if imp * p.decay_milli / 1000 > u64::MAX {
        u64::MAX
    } else {
        (imp * p.decay_milli / 1000) as u64
    }
}

/// What one sweep does to one record: a short-term record that earns
/// promotion becomes long-term (and is kept even when expired); an
/// expired short-term record is dropped; a long-term record decays.
pub open spec fn tick_outcome(rec: MemoryRecord, now: i64, p: Params) -> Option<MemoryRecord> {
    if rec.layer is Stm {
        if promotes(rec, p) {
            Some(MemoryRecord { layer: Layer::Ltm, promoted_at: Some(now), ..rec })
        } else if (rec.expires_at matches Some(e) && e <= now) {
            None
        } else {
            Some(rec)
        }
    } else {
        Some(MemoryRecord { importance_milli: decayed(rec.importance_milli, p), ..rec })
    }
}

/// The whole tree after one sweep, in order.
pub open spec fn tick_all(mems: Seq<MemoryRecord>, now: i64, p: Params) -> Seq<MemoryRecord>
    decreases mems.len(),
{
    if mems.len() == 0 {
        Seq::empty()
    } else {
        tick_all(mems.drop_last(), now, p) + match tick_outcome(mems.last(), now, p) {
            Some(rec) => seq![rec],
            None => Seq::empty(),
        }
    }
}

/// The (id, reason) pairs of the records promoted by one sweep, in order.
pub open spec fn promoted_pairs(mems: Seq<MemoryRecord>, p: Params) -> Seq<(Seq<u8>, Reason)>
    decreases mems.len(),
{
    if mems.len() == 0 {
        Seq::empty()
    } else {
        promoted_pairs(mems.drop_last(), p) + if mems.last().layer is Stm && promotes(
            mems.last(),
            p,
        ) {
            seq![(mems.last().id@, reason_of(mems.last(), p))]
        } else {
            Seq::empty()
        }
    }
}

/// Every record surviving a sweep keeps the id of a source record.
pub proof fn lemma_tick_all_ids(mems: Seq<MemoryRecord>, now: i64, p: Params, k: int)
    requires
        0 <= k < tick_all(mems, now, p).len(),
    ensures
        exists|j: int| 0 <= j < mems.len() && (#[trigger] mems[j]).id@ == tick_all(mems, now, p)[k].id@,
    decreases mems.len(),
{
    if mems.len() > 0 {
        let td = tick_all(mems.drop_last(), now, p);
        if k < td.len() {
            lemma_tick_all_ids(mems.drop_last(), now, p, k);
            let j = choose|j: int|
                0 <= j < mems.drop_last().len() && (#[trigger] mems.drop_last()[j]).id@ == td[k].id@;
            assert(mems[j].id@ == td[k].id@);
        } else {
            assert(tick_all(mems, now, p)[k].id@ == mems.last().id@);
            assert(mems[mems.len() - 1].id@ == mems.last().id@);
        }
    }
}

/// A sweep keeps ids unique.
pub proof fn lemma_tick_all_uniq(mems: Seq<MemoryRecord>, now: i64, p: Params)
    requires
        uniq_mems(mems),
    ensures
        uniq_mems(tick_all(mems, now, p)),
    decreases mems.len(),
{
    if mems.len() > 0 {
        let dl = mems.drop_last();
        assert forall|a: int, b: int| 0 <= a < b < dl.len() implies dl[a].id@ != dl[b].id@ by {
            assert(dl[a] == mems[a]);
            assert(dl[b] == mems[b]);
        }
        lemma_tick_all_uniq(dl, now, p);
        let t = tick_all(mems, now, p);
        let td = tick_all(dl, now, p);
        assert forall|a: int, b: int| 0 <= a < b < t.len() implies t[a].id@ != t[b].id@ by {
            if b < td.len() {
                assert(t[a] == td[a]);
                assert(t[b] == td[b]);
            } else {
                assert(t[a] == td[a]);
                assert(t[b].id@ == mems.last().id@);
                lemma_tick_all_ids(dl, now, p, a);
                let j = choose|j: int| 0 <= j < dl.len() && (#[trigger] dl[j]).id@ == td[a].id@;
                assert(mems[j].id@ == td[a].id@);
                assert(mems[j].id@ != mems[mems.len() - 1].id@);
            }
        }
    }
}

/// One maintenance sweep over the memory tree: expire, decay, promote,
/// append one audit row per promotion, and — when a short-term cap is
/// configured — drop the oldest short-term records beyond it. Returns
/// how many records were removed and how many were promoted.
pub fn run_maintenance(
    memories: &mut Vec<MemoryRecord>,
    log: &mut Vec<LogRow>,
    p: &Params,
    now_ms: i64,
) -> (r: (usize, usize))
    requires
        uniq_mems(old(memories)@),
    ensures
        uniq_mems(final(memories)@),
        p.stm_max_items == 0 ==> final(memories)@ == tick_all(old(memories)@, now_ms, *p),
        p.stm_max_items > 0 ==> ({
            let ticked = tick_all(old(memories)@, now_ms, *p);
            &&& stm_count(final(memories)@) == if stm_count(ticked) <= p.stm_max_items {
                stm_count(ticked)
            } else {
                p.stm_max_items as int
            }
            &&& forall|i: int|
                0 <= i < final(memories)@.len() ==> (exists|j: int|
                    0 <= j < ticked.len() && (#[trigger] ticked[j]) == (
                    #[trigger] final(memories)@[i]))
            &&& forall|j: int|
                0 <= j < ticked.len() && !((#[trigger] ticked[j]).layer is Stm) ==> final(memories)@.contains(ticked[j])
            &&& forall|j: int, i: int|
                0 <= j < ticked.len() && 0 <= i < final(memories)@.len() && (
                #[trigger] ticked[j]).layer is Stm && (#[trigger] final(memories)@[i]).layer
                    is Stm && !crate::store::has_mem(final(memories)@, ticked[j].id@) ==> ts_key(
                    ticked[j],
                ) <= ts_key(final(memories)@[i])
        }),
        r.0 + final(memories)@.len() == old(memories)@.len(),
        ({
            let pp = promoted_pairs(old(memories)@, *p);
            &&& r.1 == pp.len()
            &&& final(log)@.len() == old(log)@.len() + pp.len()
            &&& forall|k: int| 0 <= k < old(log)@.len() ==> final(log)@[k] == old(log)@[k]
            &&& forall|k: int|
                0 <= k < pp.len() ==> (#[trigger] final(log)@[old(log)@.len() + k]).mem_id@
                    == pp[k].0 && final(log)@[old(log)@.len() + k].reason == pp[k].1
                    && final(log)@[old(log)@.len() + k].ts == now_ms
        }),
{
    let ghost total = memories@;
    let ghost log0 = log@;
    let n0: usize = memories.len();
    let mut out: Vec<MemoryRecord> = Vec::new();
    let mut removed: usize = 0;
    let mut promoted: usize = 0;
    proof {
        assert(total.skip(0) =~= memories@);
        assert(total.take(0) =~= Seq::<MemoryRecord>::empty());
    }
    while memories.len() > 0
        invariant
            total.len() == n0,
            n0 <= usize::MAX,
            memories@.len() <= n0,
            memories@ == total.skip(n0 - memories@.len()),
            out@ == tick_all(total.take(n0 - memories@.len()), now_ms, *p),
            removed + out@.len() == n0 - memories@.len(),
            promoted <= n0 - memories@.len(),
            ({
                let pp = promoted_pairs(total.take(n0 - memories@.len()), *p);
                &&& promoted == pp.len()
                &&& log@.len() == log0.len() + pp.len()
                &&& forall|k: int| 0 <= k < log0.len() ==> log@[k] == log0[k]
                &&& forall|k: int|
                    0 <= k < pp.len() ==> (#[trigger] log@[log0.len() + k]).mem_id@ == pp[k].0
                        && log@[log0.len() + k].reason == pp[k].1 && log@[log0.len() + k].ts
                        == now_ms
            }),
        decreases memories@.len(),
    {
        let ghost pi = n0 - memories@.len();
        let rec = memories.remove(0);
        proof {
            assert(rec == total[pi]);
            assert(memories@ =~= total.skip(pi + 1));
            assert(total.take(pi + 1).drop_last() =~= total.take(pi as int));
            assert(total.take(pi + 1).last() == total[pi]);
        }
        let is_stm = matches!(rec.layer, Layer::Stm);
        if is_stm {
            let promo = rec.importance_milli >= p.importance_min_milli || rec.access_count
                >= p.access_min;
            if promo {
                let reason = if rec.importance_milli >= p.importance_min_milli {
                    Reason::Importance
                } else {
                    Reason::Access
                };
                let idc = crate::bytes::copy_bytes(&rec.id);
                let ghost plog = log@;
                log.push(LogRow { ts: now_ms, mem_id: idc, reason });
                promoted = promoted + 1;
                let up = MemoryRecord { layer: Layer::Ltm, promoted_at: Some(now_ms), ..rec };
                out.push(up);
                proof {
                    assert(out@ =~= tick_all(total.take(pi + 1), now_ms, *p));
                    let pp1 = promoted_pairs(total.take(pi + 1), *p);
                    let pp0 = promoted_pairs(total.take(pi as int), *p);
                    assert(pp1 =~= pp0 + seq![(total[pi].id@, reason_of(total[pi], *p))]);
                    assert(log@[log0.len() + pp0.len() as int].mem_id@ == total[pi].id@);
                }
            } else {
                let expired = match rec.expires_at {
                    Some(e) => e <= now_ms,
                    None => false,
                };
                if expired {
                    removed = removed + 1;
                    proof {
                        assert(tick_outcome(total[pi], now_ms, *p) is None);
                        assert(out@ =~= tick_all(total.take(pi + 1), now_ms, *p));
                        assert(promoted_pairs(total.take(pi + 1), *p) =~= promoted_pairs(
                            total.take(pi as int),
                            *p,
                        ));
                    }
                } else {
                    out.push(rec);
                    proof {
                        assert(out@ =~= tick_all(total.take(pi + 1), now_ms, *p));
                        assert(promoted_pairs(total.take(pi + 1), *p) =~= promoted_pairs(
                            total.take(pi as int),
                            *p,
                        ));
                    }
                }
            }
        } else {
            proof {
                crate::memory::lemma_mul_fits_weights(
                    rec.importance_milli as int,
                    p.decay_milli as int,
                );
            }
            let v: u128 = rec.importance_milli as u128 * p.decay_milli as u128 / 1000;
            let new_imp: u64 = if v > u64::MAX as u128 {
                u64::MAX
            } else {
                v as u64
            };
            let up = MemoryRecord { importance_milli: new_imp, ..rec };
            out.push(up);
            proof {
                assert(up == tick_outcome(total[pi], now_ms, *p).unwrap());
                assert(out@ =~= tick_all(total.take(pi + 1), now_ms, *p));
                assert(promoted_pairs(total.take(pi + 1), *p) =~= promoted_pairs(
                    total.take(pi as int),
                    *p,
                ));
            }
        }
    }
    proof {
        assert(total.take(n0 as int) =~= total);
        lemma_tick_all_uniq(total, now_ms, *p);
    }
    let fin = out;
    *memories = fin;
    let mut total_removed = removed;
    if p.stm_max_items > 0 {
        proof {
            lemma_stm_count_bounds(memories@);
        }
        let lru_dropped = enforce_stm_cap(memories, p.stm_max_items);
        total_removed = total_removed + lru_dropped;
    }
    (total_removed, promoted)
}


// ---------------------------------------------------------------------------
// The short-term capacity cap
// ---------------------------------------------------------------------------

/// The recency key of a record: its last access time, or its creation
/// time when it was never accessed.
pub open spec fn ts_key(rec: MemoryRecord) -> i64 {
    match rec.last_access_ts {
        Some(t) => t,
        None => rec.created_at,
    }
}

/// How many records sit in the short-term layer.
pub open spec fn stm_count(s: Seq<MemoryRecord>) -> int
    decreases s.len(),
{
    if s.len() == 0 {
        0int
    } else {
        stm_count(s.drop_last()) + if s.last().layer is Stm {
            1int
        } else {
            0int
        }
    }
}

/// The short-term count is between zero and the record count.
pub proof fn lemma_stm_count_bounds(s: Seq<MemoryRecord>)
    ensures
        0 <= stm_count(s) <= s.len(),
    decreases s.len(),
{
    if s.len() > 0 {
        lemma_stm_count_bounds(s.drop_last());
    }
}

/// Removing one short-term record lowers the count by one; removing any
/// other record keeps it.
proof fn lemma_stm_count_remove(s: Seq<MemoryRecord>, i: int)
    requires
        0 <= i < s.len(),
    ensures
        stm_count(s.remove(i)) == stm_count(s) - (if s[i].layer is Stm {
            1int
        } else {
            0int
        }),
    decreases s.len(),
{
    if s.len() > 0 {
        if i == s.len() - 1 {
            assert(s.remove(i) =~= s.drop_last());
        } else {
            assert(s.remove(i).drop_last() =~= s.drop_last().remove(i));
            assert(s.remove(i).last() == s.last());
            lemma_stm_count_remove(s.drop_last(), i);
        }
    }
}

/// Count the short-term records.
fn count_stm(memories: &Vec<MemoryRecord>) -> (r: usize)
    ensures
        r == stm_count(memories@),
{
    proof {
        lemma_stm_count_bounds(memories@);
    }
    let n: usize = memories.len();
    let mut c: usize = 0;
    let mut i: usize = 0;
    proof {
        assert(memories@.take(0) =~= Seq::<MemoryRecord>::empty());
    }
    while i < n
        invariant
            n == memories@.len(),
            i <= n,
            c == stm_count(memories@.take(i as int)),
            c <= i,
        decreases n - i,
    {
        proof {
            assert(memories@.take(i + 1).drop_last() =~= memories@.take(i as int));
            assert(memories@.take(i + 1).last() == memories@[i as int]);
            lemma_stm_count_bounds(memories@.take(i as int));
        }
        if matches!(memories[i].layer, Layer::Stm) {
            c = c + 1;
        }
        i = i + 1;
    }
    proof {
        assert(memories@.take(n as int) =~= memories@);
    }
    c
}

/// Find a short-term record with the smallest recency key.
fn min_stm_index(memories: &Vec<MemoryRecord>) -> (r: Option<usize>)
    ensures
        match r {
            Some(mi) => mi < memories@.len() && memories@[mi as int].layer is Stm && (forall|
                k: int,
            |
                0 <= k < memories@.len() && (#[trigger] memories@[k]).layer is Stm ==> ts_key(
                    memories@[mi as int],
                ) <= ts_key(memories@[k])),
            None => forall|k: int|
                0 <= k < memories@.len() ==> !((#[trigger] memories@[k]).layer is Stm),
        },
{
    let n: usize = memories.len();
    let mut best: Option<usize> = None;
    let mut i: usize = 0;
    while i < n
        invariant
            n == memories@.len(),
            i <= n,
            match best {
                Some(mi) => mi < i && memories@[mi as int].layer is Stm && (forall|k: int|
                    0 <= k < i && (#[trigger] memories@[k]).layer is Stm ==> ts_key(
                        memories@[mi as int],
                    ) <= ts_key(memories@[k])),
                None => forall|k: int| 0 <= k < i ==> !((#[trigger] memories@[k]).layer is Stm),
            },
        decreases n - i,
    {
        if matches!(memories[i].layer, Layer::Stm) {
            let key_i = match memories[i].last_access_ts {
                Some(t) => t,
                None => memories[i].created_at,
            };
            proof {
                assert(key_i == ts_key(memories@[i as int]));
            }
            let better = match best {
                None => true,
                Some(mi) => {
                    let key_m = match memories[mi].last_access_ts {
                        Some(t) => t,
                        None => memories[mi].created_at,
                    };
                    key_i < key_m
                },
            };
            if better {
                best = Some(i);
            }
        }
        i = i + 1;
    }
    best
}

/// Enforce the short-term capacity: while more than `cap` records sit in
/// the short-term layer, drop the one with the smallest recency key.
/// Long-term records and the surviving short-term records keep their
/// values, and every dropped record is at least as old as every survivor
/// of its layer.
pub fn enforce_stm_cap(memories: &mut Vec<MemoryRecord>, cap: usize) -> (dropped: usize)
    requires
        uniq_mems(old(memories)@),
    ensures
        uniq_mems(final(memories)@),
        dropped + final(memories)@.len() == old(memories)@.len(),
        stm_count(final(memories)@) == if stm_count(old(memories)@) <= cap {
            stm_count(old(memories)@)
        } else {
            cap as int
        },
        forall|i: int|
            0 <= i < final(memories)@.len() ==> (exists|j: int|
                0 <= j < old(memories)@.len() && (#[trigger] old(memories)@[j]) == (
                #[trigger] final(memories)@[i])),
        forall|j: int|
            0 <= j < old(memories)@.len() && !((#[trigger] old(memories)@[j]).layer is Stm)
                ==> final(memories)@.contains(old(memories)@[j]),
        forall|j: int, i: int|
            0 <= j < old(memories)@.len() && 0 <= i < final(memories)@.len() && (#[trigger] old(memories)@[j]).layer is Stm && (#[trigger] final(memories)@[i]).layer is Stm && !crate::store::has_mem(
                final(memories)@,
                old(memories)@[j].id@,
            ) ==> ts_key(old(memories)@[j]) <= ts_key(final(memories)@[i]),
{
    let ghost orig = old(memories)@;
    let n0: usize = memories.len();
    proof {
        assert(orig.len() == n0);
    }
    let mut dropped: usize = 0;
    loop
        invariant
            orig == old(memories)@,
            orig.len() <= usize::MAX,
            uniq_mems(orig),
            uniq_mems(memories@),
            dropped + memories@.len() == orig.len(),
            stm_count(orig) <= cap ==> *memories == *old(memories),
            stm_count(orig) > cap ==> stm_count(memories@) >= cap,
            forall|i: int|
                0 <= i < memories@.len() ==> (exists|j: int|
                    0 <= j < orig.len() && (#[trigger] orig[j]) == (#[trigger] memories@[i])),
            forall|j: int|
                0 <= j < orig.len() && !((#[trigger] orig[j]).layer is Stm) ==> memories@.contains(
                    orig[j],
                ),
            forall|j: int, i: int|
                0 <= j < orig.len() && 0 <= i < memories@.len() && (#[trigger] orig[j]).layer
                    is Stm && (#[trigger] memories@[i]).layer is Stm && !crate::store::has_mem(
                    memories@,
                    orig[j].id@,
                ) ==> ts_key(orig[j]) <= ts_key(memories@[i]),
        ensures
            uniq_mems(memories@),
            dropped + memories@.len() == orig.len(),
            stm_count(memories@) == if stm_count(orig) <= cap {
                stm_count(orig)
            } else {
                cap as int
            },
            forall|i: int|
                0 <= i < memories@.len() ==> (exists|j: int|
                    0 <= j < orig.len() && (#[trigger] orig[j]) == (#[trigger] memories@[i])),
            forall|j: int|
                0 <= j < orig.len() && !((#[trigger] orig[j]).layer is Stm) ==> memories@.contains(
                    orig[j],
                ),
            forall|j: int, i: int|
                0 <= j < orig.len() && 0 <= i < memories@.len() && (#[trigger] orig[j]).layer
                    is Stm && (#[trigger] memories@[i]).layer is Stm && !crate::store::has_mem(
                    memories@,
                    orig[j].id@,
                ) ==> ts_key(orig[j]) <= ts_key(memories@[i]),
        decreases memories@.len(),
    {
        let c = count_stm(memories);
        if c <= cap {
            proof {
                if stm_count(orig) > cap {
                    assert(stm_count(memories@) == cap);
                }
            }
            break;
        }
        let mi = match min_stm_index(memories) {
            Some(mi) => mi,
            None => {
                proof {
                    lemma_stm_count_empty_when_none(memories@);
                    assert(false);
                }
                break;
            },
        };
        let ghost pre = memories@;
        let victim = memories.remove(mi);
        dropped = dropped + 1;
        proof {
            let xi = mi as int;
            lemma_stm_count_remove(pre, xi);
            assert(memories@ =~= pre.remove(xi));
            assert(uniq_mems(memories@)) by {
                assert forall|a: int, b: int| 0 <= a < b < memories@.len() implies
                    memories@[a].id@ != memories@[b].id@ by {
                    let a0 = if a < xi {
                        a
                    } else {
                        a + 1
                    };
                    let b0 = if b < xi {
                        b
                    } else {
                        b + 1
                    };
                    assert(memories@[a] == pre[a0]);
                    assert(memories@[b] == pre[b0]);
                }
            }
            assert forall|i: int|
                0 <= i < memories@.len() implies (exists|j: int|
                    0 <= j < orig.len() && (#[trigger] orig[j]) == (#[trigger] memories@[i])) by {
                let i0 = if i < xi {
                    i
                } else {
                    i + 1
                };
                assert(memories@[i] == pre[i0]);
                let j = choose|j: int| 0 <= j < orig.len() && (#[trigger] orig[j]) == pre[i0];
            }
            assert forall|j: int|
                0 <= j < orig.len() && !((#[trigger] orig[j]).layer is Stm) implies
                memories@.contains(orig[j]) by {
                assert(pre.contains(orig[j]));
                let k = choose|k: int| 0 <= k < pre.len() && pre[k] == orig[j];
                assert(k != xi);
                if k < xi {
                    assert(memories@[k] == orig[j]);
                } else {
                    assert(memories@[k - 1] == orig[j]);
                }
            }
            assert forall|j: int, i: int|
                0 <= j < orig.len() && 0 <= i < memories@.len() && (#[trigger] orig[j]).layer
                    is Stm && (#[trigger] memories@[i]).layer is Stm && !crate::store::has_mem(
                    memories@,
                    orig[j].id@,
                ) implies ts_key(orig[j]) <= ts_key(memories@[i]) by {
                let i0 = if i < xi {
                    i
                } else {
                    i + 1
                };
                assert(memories@[i] == pre[i0]);
                if crate::store::has_mem(pre, orig[j].id@) {
                    // The record survived until this step, so it is the
                    // one removed now: it carries the minimal key.
                    let k = choose|k: int| 0 <= k < pre.len() && (#[trigger] pre[k]).id@ == orig[j].id@;
                    assert(k == xi) by {
                        if k != xi {
                            let k1 = if k < xi {
                                k
                            } else {
                                k - 1
                            };
                            assert(memories@[k1] == pre[k]);
                            assert(crate::store::has_mem(memories@, orig[j].id@));
                        }
                    }
                    assert(orig[j] == pre[xi]) by {
                        let j2 = choose|j2: int|
                            0 <= j2 < orig.len() && (#[trigger] orig[j2]) == pre[xi];
                        if j2 != j {
                            assert(orig[j2].id@ != orig[j].id@);
                        }
                    }
                    assert(ts_key(pre[xi]) <= ts_key(pre[i0]));
                } else {
                    assert(!crate::store::has_mem(pre, orig[j].id@)) by {
                        if crate::store::has_mem(pre, orig[j].id@) {
                            assert(false);
                        }
                    }
                    assert(ts_key(orig[j]) <= ts_key(pre[i0]));
                }
            }
        }
    }
    dropped
}

/// A tree with no short-term record has a zero short-term count.
proof fn lemma_stm_count_empty_when_none(s: Seq<MemoryRecord>)
    requires
        forall|k: int| 0 <= k < s.len() ==> !((#[trigger] s[k]).layer is Stm),
    ensures
        stm_count(s) == 0,
    decreases s.len(),
{
    if s.len() > 0 {
        assert forall|k: int| 0 <= k < s.drop_last().len() implies !((#[trigger] s.drop_last()[k]).layer
            is Stm) by {
            assert(s.drop_last()[k] == s[k]);
        }
        lemma_stm_count_empty_when_none(s.drop_last());
    }
}


// ---------------------------------------------------------------------------
// On-demand consolidation
// ---------------------------------------------------------------------------

/// The tree after an on-demand consolidation scan: the first qualifying
/// short-term records are promoted until the budget runs out; a dry run
/// promotes nothing. Scanning stops when the budget is spent.
pub open spec fn consolidate_all(
    s: Seq<MemoryRecord>,
    p: Params,
    budget: int,
    dry: bool,
    now: i64,
) -> Seq<MemoryRecord>
    decreases s.len(),
{
    if s.len() == 0 {
        s
    } else if !dry && budget <= 0 {
        s
    } else if s.first().layer is Stm && promotes(s.first(), p) {
        if dry {
            seq![s.first()] + consolidate_all(s.drop_first(), p, budget, dry, now)
        } else {
            seq![
                MemoryRecord { layer: Layer::Ltm, promoted_at: Some(now), ..s.first() },
            ] + consolidate_all(s.drop_first(), p, budget - 1, dry, now)
        }
    } else {
        seq![s.first()] + consolidate_all(s.drop_first(), p, budget, dry, now)
    }
}

/// How many records the scan promotes.
pub open spec fn consolidate_promoted(
    s: Seq<MemoryRecord>,
    p: Params,
    budget: int,
    dry: bool,
) -> int
    decreases s.len(),
{
    if s.len() == 0 {
        0int
    } else if !dry && budget <= 0 {
        0int
    } else if s.first().layer is Stm && promotes(s.first(), p) {
        if dry {
            consolidate_promoted(s.drop_first(), p, budget, dry)
        } else {
            1 + consolidate_promoted(s.drop_first(), p, budget - 1, dry)
        }
    } else {
        consolidate_promoted(s.drop_first(), p, budget, dry)
    }
}

/// How many qualifying short-term records the scan sees.
pub open spec fn consolidate_candidates(
    s: Seq<MemoryRecord>,
    p: Params,
    budget: int,
    dry: bool,
) -> int
    decreases s.len(),
{
    if s.len() == 0 {
        0int
    } else if !dry && budget <= 0 {
        0int
    } else if s.first().layer is Stm && promotes(s.first(), p) {
        if dry {
            1 + consolidate_candidates(s.drop_first(), p, budget, dry)
        } else {
            1 + consolidate_candidates(s.drop_first(), p, budget - 1, dry)
        }
    } else {
        consolidate_candidates(s.drop_first(), p, budget, dry)
    }
}

/// A dry scan changes nothing.
pub proof fn lemma_consolidate_dry(s: Seq<MemoryRecord>, p: Params, budget: int, now: i64)
    ensures
        consolidate_all(s, p, budget, true, now) == s,
        consolidate_promoted(s, p, budget, true) == 0,
    decreases s.len(),
{
    if s.len() > 0 {
        lemma_consolidate_dry(s.drop_first(), p, budget, now);
        assert(consolidate_all(s, p, budget, true, now) =~= s);
    }
}

/// Every record keeps its position and id across a scan.
pub proof fn lemma_consolidate_ids(
    s: Seq<MemoryRecord>,
    p: Params,
    budget: int,
    dry: bool,
    now: i64,
)
    ensures
        consolidate_all(s, p, budget, dry, now).len() == s.len(),
        forall|j: int|
            0 <= j < s.len() ==> (#[trigger] consolidate_all(s, p, budget, dry, now)[j]).id@
                == s[j].id@,
    decreases s.len(),
{
    if s.len() > 0 && !(!dry && budget <= 0) {
        let tail_budget = if !dry && s.first().layer is Stm && promotes(s.first(), p) {
            budget - 1
        } else {
            budget
        };
        lemma_consolidate_ids(s.drop_first(), p, tail_budget, dry, now);
        assert forall|j: int|
            0 <= j < s.len() implies (#[trigger] consolidate_all(s, p, budget, dry, now)[j]).id@
                == s[j].id@ by {
            if j > 0 {
                assert(consolidate_all(s, p, budget, dry, now)[j] == consolidate_all(
                    s.drop_first(),
                    p,
                    tail_budget,
                    dry,
                    now,
                )[j - 1]);
                assert(s.drop_first()[j - 1] == s[j]);
            }
        }
    }
}

/// Promote up to `limit` qualifying short-term records, front of the
/// tree first; report how many were promoted and how many qualifying
/// records the scan saw. A dry run reports without changing anything.
pub fn consolidate(
    memories: &mut Vec<MemoryRecord>,
    p: &Params,
    limit: usize,
    dry_run: bool,
    now_ms: i64,
) -> (r: (usize, usize))
    requires
        uniq_mems(old(memories)@),
    ensures
        uniq_mems(final(memories)@),
        final(memories)@ == consolidate_all(old(memories)@, *p, limit as int, dry_run, now_ms),
        r.0 == consolidate_promoted(old(memories)@, *p, limit as int, dry_run),
        r.1 == consolidate_candidates(old(memories)@, *p, limit as int, dry_run),
        dry_run ==> *final(memories) == *old(memories) && r.0 == 0,
        r.0 <= limit,
{
    let ghost orig = old(memories)@;
    let n: usize = memories.len();
    let mut promoted: usize = 0;
    let mut candidates: usize = 0;
    let mut i: usize = 0;
    proof {
        assert(orig.skip(0) =~= orig);
    }
    while i < n
        invariant
            orig == old(memories)@,
            n == orig.len(),
            n == memories@.len(),
            i <= n,
            uniq_mems(orig),
            uniq_mems(memories@),
            promoted <= i,
            promoted <= limit,
            candidates <= i,
            dry_run ==> *memories == *old(memories) && promoted == 0,
            forall|j: int| i <= j < n ==> memories@[j] == #[trigger] orig[j],
            consolidate_all(orig, *p, limit as int, dry_run, now_ms) == memories@.take(i as int)
                + consolidate_all(
                orig.skip(i as int),
                *p,
                limit as int - promoted,
                dry_run,
                now_ms,
            ),
            consolidate_promoted(orig, *p, limit as int, dry_run) == promoted
                + consolidate_promoted(
                orig.skip(i as int),
                *p,
                limit as int - promoted,
                dry_run,
            ),
            consolidate_candidates(orig, *p, limit as int, dry_run) == candidates
                + consolidate_candidates(
                orig.skip(i as int),
                *p,
                limit as int - promoted,
                dry_run,
            ),
        decreases n - i,
    {
        let ghost rest = orig.skip(i as int);
        proof {
            assert(rest.first() == orig[i as int]);
            assert(rest.drop_first() =~= orig.skip(i + 1));
            assert(memories@[i as int] == orig[i as int]);
        }
        let qualifies = matches!(memories[i].layer, Layer::Stm) && (memories[i].importance_milli
            >= p.importance_min_milli || memories[i].access_count >= p.access_min);
        let under = promoted < limit;
        if qualifies && !dry_run && under {
            let ghost pre = memories@;
            let o = memories.remove(i);
            let up = MemoryRecord { layer: Layer::Ltm, promoted_at: Some(now_ms), ..o };
            memories.insert(i, up);
            proof {
                assert(memories@ =~= pre.update(i as int, up));
                assert(uniq_mems(memories@)) by {
                    assert forall|a: int, b: int| 0 <= a < b < memories@.len() implies
                        memories@[a].id@ != memories@[b].id@ by {
                        assert(memories@[a].id@ == pre[a].id@);
                        assert(memories@[b].id@ == pre[b].id@);
                    }
                }
                assert(memories@.take(i + 1) =~= pre.take(i as int).push(up));
            }
            promoted = promoted + 1;
            candidates = candidates + 1;
        } else {
            proof {
                assert(memories@.take(i + 1) =~= memories@.take(i as int).push(
                    memories@[i as int],
                ));
            }
            if qualifies && (dry_run || under) {
                candidates = candidates + 1;
            }
        }
        i = i + 1;
    }
    proof {
        assert(orig.skip(n as int).len() == 0);
        assert(memories@.take(n as int) =~= memories@);
        if dry_run {
            lemma_consolidate_dry(orig, *p, limit as int, now_ms);
        }
    }
    (promoted, candidates)
}

} // verus!
