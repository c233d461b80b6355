//! Scored identifiers and top-K selection by descending score.
//!
//! Scores are fixed-point values in thousandths, so a cosine similarity of
//! 0.333 is carried as 333. The vector index and the fusion search sort
//! candidate lists with the routines here.

use vstd::prelude::*;

verus! {

use vstd::multiset::Multiset;

/// An identifier with a fixed-point score in thousandths.
pub struct ScoredId {
    pub id: Vec<u8>,
    pub score_milli: i64,
}

/// Scores never increase along the list.
pub open spec fn sorted_desc(s: Seq<ScoredId>) -> bool {
    forall|i: int, j: int| 0 <= i < j < s.len() ==> s[i].score_milli >= s[j].score_milli
}

/// Inserting into a sequence inserts into its multiset.
pub proof fn lemma_seq_insert_to_multiset<A>(s: Seq<A>, i: int, x: A)
    requires
        0 <= i <= s.len(),
    ensures
        s.insert(i, x).to_multiset() == s.to_multiset().insert(x),
{
    let s2 = s.insert(i, x);
    s2.to_multiset_ensures();
    assert(s2.remove(i) =~= s);
    assert(s2[i] == x);
    assert(s.to_multiset() =~= s2.to_multiset().remove(x));
    assert(s2.to_multiset().contains(x)) by {
        assert(s2.contains(x)) by {
            assert(s2[i] == x);
        }
    }
    assert(s2.to_multiset() =~= s2.to_multiset().remove(x).insert(x)) by {
        let m = s2.to_multiset();
        assert forall|y: A| m.count(y) == m.remove(x).insert(x).count(y) by {}
    }
}

/// Insert a hit into a list sorted by descending score, before any hit of
/// an equal score, keeping the list sorted.
pub fn insert_desc(out: &mut Vec<ScoredId>, x: ScoredId)
    requires
        sorted_desc(old(out)@),
    ensures
        sorted_desc(final(out)@),
        final(out)@.to_multiset() == old(out)@.to_multiset().insert(x),
        final(out)@.len() == old(out)@.len() + 1,
{
    let n: usize = out.len();
    let mut p: usize = 0;
    loop
        invariant
            n == out@.len(),
            p <= n,
            *out == *old(out),
            forall|q: int| 0 <= q < p ==> out@[q].score_milli > x.score_milli,
        ensures
            p <= n,
            *out == *old(out),
            forall|q: int| 0 <= q < p ==> out@[q].score_milli > x.score_milli,
            p < n ==> out@[p as int].score_milli <= x.score_milli,
        decreases n - p,
    {
        if p >= n {
            break;
        }
        if out[p].score_milli <= x.score_milli {
            break;
        }
        p = p + 1;
    }
    let ghost pre = out@;
    let ghost xi = p as int;
    out.insert(p, x);
    proof {
        lemma_seq_insert_to_multiset(pre, xi, x);
        let post = out@;
        assert forall|a: int, b: int| 0 <= a < b < post.len() implies post[a].score_milli
            >= post[b].score_milli by {
            if a < xi && b == xi {
            } else if a == xi && b > xi {
                assert(post[b] == pre[b - 1]);
                if b - 1 > xi - 1 && xi <= b - 1 < pre.len() {
                    if xi < pre.len() {
                        assert(pre[xi].score_milli <= x.score_milli);
                    }
                }
            } else if a < xi && b > xi {
                assert(post[a] == pre[a]);
                assert(post[b] == pre[b - 1]);
            } else if a > xi && b > xi {
                assert(post[a] == pre[a - 1]);
                assert(post[b] == pre[b - 1]);
            } else {
                assert(post[a] == pre[a]);
                assert(post[b] == pre[b]);
            }
        }
    }
}

/// Sort a list of hits by descending score. The result holds exactly the
/// hits given, as a multiset.
pub fn sort_hits_desc(input: Vec<ScoredId>) -> (r: Vec<ScoredId>)
    ensures
        sorted_desc(r@),
        r@.to_multiset() == input@.to_multiset(),
        r@.len() == input@.len(),
{
    let mut rest = input;
    let mut out: Vec<ScoredId> = Vec::new();
    proof {
        rest@.to_multiset_ensures();
        out@.to_multiset_ensures();
        assert(out@.to_multiset() =~= Multiset::empty());
    }
    loop
        invariant
            sorted_desc(out@),
            out@.to_multiset().add(rest@.to_multiset()) == input@.to_multiset(),
            out@.len() + rest@.len() == input@.len(),
        ensures
            rest@.len() == 0,
            sorted_desc(out@),
            out@.to_multiset() == input@.to_multiset(),
            out@.len() == input@.len(),
        decreases rest@.len(),
    {
        let ghost pre_rest = rest@;
        let popped = rest.pop();
        match popped {
            None => {
                proof {
                    rest@.to_multiset_ensures();
                    assert forall|y: ScoredId| rest@.to_multiset().count(y) == 0 by {
                        if rest@.to_multiset().count(y) > 0 {
                            assert(rest@.contains(y));
                        }
                    }
                    assert(out@.to_multiset().add(rest@.to_multiset()) =~= out@.to_multiset());
                }
                break;
            },
            Some(x) => {
                proof {
                    pre_rest.to_multiset_ensures();
                    assert(rest@ =~= pre_rest.drop_last());
                    assert(pre_rest =~= rest@.push(x));
                    rest@.to_multiset_ensures();
                    assert(pre_rest.to_multiset() =~= rest@.to_multiset().insert(x));
                }
                let ghost pre_out = out@;
                insert_desc(&mut out, x);
                proof {
                    assert(out@.to_multiset().add(rest@.to_multiset()) =~= pre_out.to_multiset()
                        .insert(x).add(rest@.to_multiset()));
                    assert(pre_out.to_multiset().insert(x).add(rest@.to_multiset())
                        =~= pre_out.to_multiset().add(rest@.to_multiset().insert(x)));
                }
            },
        }
    }
    out
}

/// A permutation of a list with pairwise-distinct ids keeps the ids
/// pairwise distinct.
proof fn lemma_distinct_ids_through_permutation(fv: Seq<ScoredId>, s: Seq<ScoredId>)
    requires
        s.to_multiset() == fv.to_multiset(),
        forall|a: int, b: int| 0 <= a < b < fv.len() ==> fv[a].id@ != fv[b].id@,
    ensures
        forall|i: int, j: int| 0 <= i < j < s.len() ==> s[i].id@ != s[j].id@,
{
    fv.to_multiset_ensures();
    s.to_multiset_ensures();
    assert forall|i: int, j: int| 0 <= i < j < s.len() implies s[i].id@ != s[j].id@ by {
        if s[i].id@ == s[j].id@ {
            if s[i] == s[j] {
                // The shared value would be counted at least twice, but a
                // list with pairwise-distinct ids counts it at most once.
                let s2 = s.remove(j);
                s2.to_multiset_ensures();
                assert(s2[i] == s[i]);
                assert(s2.contains(s[i]));
                assert(s2.to_multiset().count(s[i]) >= 1);
                assert(s.to_multiset().count(s[i]) >= 2) by {
                    assert(s.to_multiset().remove(s[j]) =~= s2.to_multiset());
                }
                assert(fv.to_multiset().count(s[i]) >= 2);
                assert(fv.contains(s[i]));
                let a = choose|a: int| 0 <= a < fv.len() && fv[a] == s[i];
                let f2 = fv.remove(a);
                f2.to_multiset_ensures();
                assert(f2.to_multiset() =~= fv.to_multiset().remove(s[i]));
                assert(f2.to_multiset().count(s[i]) >= 1);
                assert(f2.contains(s[i]));
                let a2 = choose|a2: int| 0 <= a2 < f2.len() && f2[a2] == s[i];
                let a3 = if a2 < a {
                    a2
                } else {
                    a2 + 1
                };
                assert(fv[a3] == s[i]);
                if a3 < a {
                    assert(fv[a3].id@ != fv[a].id@);
                } else {
                    assert(fv[a].id@ != fv[a3].id@);
                }
                assert(false);
            } else {
                // Two different values sharing an id would both come from
                // the id-distinct list.
                assert(s.contains(s[i]));
                assert(s.contains(s[j]));
                assert(fv.to_multiset().count(s[i]) >= 1) by {
                    assert(s.to_multiset().count(s[i]) >= 1);
                }
                assert(fv.to_multiset().count(s[j]) >= 1) by {
                    assert(s.to_multiset().count(s[j]) >= 1);
                }
                assert(fv.contains(s[i]));
                assert(fv.contains(s[j]));
                let a = choose|a: int| 0 <= a < fv.len() && fv[a] == s[i];
                let b = choose|b: int| 0 <= b < fv.len() && fv[b] == s[j];
                if a < b {
                    assert(fv[a].id@ != fv[b].id@);
                } else if b < a {
                    assert(fv[b].id@ != fv[a].id@);
                }
                assert(false);
            }
        }
    }
}

/// Sort by descending score and keep the best `k`: the returned list is a
/// prefix of a descending reordering of the input.
pub fn top_k_desc(input: Vec<ScoredId>, k: usize) -> (r: Vec<ScoredId>)
    ensures
        sorted_desc(r@),
        (forall|a: int, b: int| 0 <= a < b < input@.len() ==> input@[a].id@ != input@[b].id@)
            ==> (forall|i: int, j: int| 0 <= i < j < r@.len() ==> r@[i].id@ != r@[j].id@),
        r@.len() == if k <= input@.len() {
            k as int
        } else {
            input@.len() as int
        },
        exists|s: Seq<ScoredId>|
            {
                &&& s.to_multiset() == input@.to_multiset()
                &&& sorted_desc(s)
                &&& r@ == s.subrange(
                    0,
                    if k <= input@.len() {
                        k as int
                    } else {
                        input@.len() as int
                    },
                )
            },
        forall|i: int| 0 <= i < r@.len() ==> input@.to_multiset().contains(r@[i]),
{
    let ghost input_view = input@;
    let mut sorted = sort_hits_desc(input);
    let ghost full = sorted@;
    proof {
        full.to_multiset_ensures();
    }
    sorted.truncate(k);
    proof {
        if k > full.len() {
            assert(sorted@ =~= full.subrange(0, full.len() as int));
        }
        if forall|a: int, b: int| 0 <= a < b < input_view.len() ==> input_view[a].id@
            != input_view[b].id@ {
            lemma_distinct_ids_through_permutation(input_view, full);
            assert forall|i: int, j: int| 0 <= i < j < sorted@.len() implies sorted@[i].id@
                != sorted@[j].id@ by {
                assert(sorted@[i] == full[i]);
                assert(sorted@[j] == full[j]);
            }
        }
        assert forall|i: int| 0 <= i < sorted@.len() implies input_view.to_multiset().contains(
            sorted@[i],
        ) by {
            assert(sorted@[i] == full[i]);
            assert(full.contains(full[i]));
        }
    }
    sorted
}

} // verus!
