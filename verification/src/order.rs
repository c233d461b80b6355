//! Lexicographic order on byte strings, and insertion into a strictly
//! sorted, duplicate-free list. The entity extractor and the tag queries
//! keep their outputs in this order so that results are canonical.

use vstd::prelude::*;

verus! {

/// Strict lexicographic order on byte strings.
pub open spec fn lex_lt(a: Seq<u8>, b: Seq<u8>) -> bool
    decreases a.len(),
{
    if b.len() == 0 {
        false
    } else if a.len() == 0 {
        true
    } else if a[0] < b[0] {
        true
    } else if a[0] > b[0] {
        false
    } else {
        lex_lt(a.drop_first(), b.drop_first())
    }
}

/// The order is irreflexive.
pub proof fn lemma_lex_irrefl(a: Seq<u8>)
    ensures
        !lex_lt(a, a),
    decreases a.len(),
{
    if a.len() > 0 {
        lemma_lex_irrefl(a.drop_first());
    }
}

/// Any two byte strings are ordered one way, the other way, or equal.
pub proof fn lemma_lex_total(a: Seq<u8>, b: Seq<u8>)
    ensures
        lex_lt(a, b) || lex_lt(b, a) || a == b,
    decreases a.len(),
{
    if a.len() == 0 {
        if b.len() == 0 {
            assert(a =~= b);
        }
    } else if b.len() == 0 {
    } else if a[0] == b[0] {
        let ta = a.drop_first();
        let tb = b.drop_first();
        lemma_lex_total(ta, tb);
        if ta == tb {
            assert(a =~= b) by {
                assert(a.len() == ta.len() + 1);
                assert(b.len() == tb.len() + 1);
                assert forall|k: int| 0 <= k < a.len() implies a[k] == b[k] by {
                    if k > 0 {
                        assert(a[k] == ta[k - 1]);
                        assert(b[k] == tb[k - 1]);
                    }
                }
            }
        }
    }
}

/// The order is transitive.
pub proof fn lemma_lex_trans(a: Seq<u8>, b: Seq<u8>, c: Seq<u8>)
    ensures
        lex_lt(a, b) && lex_lt(b, c) ==> lex_lt(a, c),
    decreases a.len(),
{
    if a.len() > 0 && b.len() > 0 && c.len() > 0 {
        lemma_lex_trans(a.drop_first(), b.drop_first(), c.drop_first());
    }
}

/// Compare two byte strings in lexicographic order.
pub fn lex_lt_bytes(a: &Vec<u8>, b: &Vec<u8>) -> (r: bool)
    ensures
        r == lex_lt(a@, b@),
{
    let an: usize = a.len();
    let bn: usize = b.len();
    let mut i: usize = 0;
    proof {
        assert(a@.skip(0) =~= a@);
        assert(b@.skip(0) =~= b@);
    }
    while i < an && i < bn
        invariant
            an == a@.len(),
            bn == b@.len(),
            i <= an,
            i <= bn,
            lex_lt(a@, b@) == lex_lt(a@.skip(i as int), b@.skip(i as int)),
        decreases an - i,
    {
        proof {
            let sa = a@.skip(i as int);
            let sb = b@.skip(i as int);
            assert(sa[0] == a@[i as int]);
            assert(sb[0] == b@[i as int]);
            assert(sa.drop_first() =~= a@.skip(i + 1));
            assert(sb.drop_first() =~= b@.skip(i + 1));
        }
        if a[i] < b[i] {
            return true;
        }
        if a[i] > b[i] {
            return false;
        }
        i = i + 1;
    }
    proof {
        assert(a@.skip(i as int).len() == an - i);
        assert(b@.skip(i as int).len() == bn - i);
    }
    an < bn
}

/// A list of byte strings in strictly increasing lexicographic order
/// (hence also free of duplicates).
pub open spec fn strictly_sorted(s: Seq<Seq<u8>>) -> bool {
    forall|i: int, j: int| 0 <= i < j < s.len() ==> lex_lt(s[i], s[j])
}

/// The byte strings of a list of vectors, element by element.
pub open spec fn views(s: Seq<Vec<u8>>) -> Seq<Seq<u8>> {
    Seq::new(s.len(), |i: int| s[i]@)
}

/// Everything at or past the insertion point lies above `x`.
proof fn lemma_above_insertion_point(x: Seq<u8>, s: Seq<Seq<u8>>, i: int, j: int)
    requires
        strictly_sorted(s),
        0 <= i <= j < s.len(),
        !lex_lt(s[i], x),
        s[i] != x,
    ensures
        lex_lt(x, s[j]),
{
    lemma_lex_total(s[i], x);
    if i < j {
        lemma_lex_trans(x, s[i], s[j]);
    }
}

/// Insert `x` into a strictly sorted list, keeping it strictly sorted;
/// a value already present is not inserted twice.
pub fn insert_sorted_unique(list: &mut Vec<Vec<u8>>, x: Vec<u8>)
    requires
        strictly_sorted(views(old(list)@)),
    ensures
        strictly_sorted(views(final(list)@)),
        forall|y: Seq<u8>|
            views(final(list)@).contains(y) == (views(old(list)@).contains(y) || y == x@),
{
    let n: usize = list.len();
    let mut i: usize = 0;
    loop
        invariant
            n == list@.len(),
            i <= n,
            *list == *old(list),
            strictly_sorted(views(list@)),
            forall|j: int| 0 <= j < i ==> lex_lt(views(list@)[j], x@),
        ensures
            i <= n,
            *list == *old(list),
            forall|j: int| 0 <= j < i ==> lex_lt(views(list@)[j], x@),
            i < n ==> !lex_lt(views(list@)[i as int], x@),
        decreases n - i,
    {
        if i >= n {
            break;
        }
        if !lex_lt_bytes(&list[i], &x) {
            break;
        }
        i = i + 1;
    }
    if i < n {
        let same = crate::bytes::bytes_eq(&list[i], &x);
        if same {
            proof {
                assert(views(list@)[i as int] == x@);
                assert(views(list@).contains(x@));
            }
            return;
        }
    }
    assert forall|j: int| i <= j < views(list@).len() implies lex_lt(
        x@,
        #[trigger] views(list@)[j],
    ) by {
        lemma_above_insertion_point(x@, views(list@), i as int, j);
    }
    let ghost pre = views(list@);
    list.insert(i, x);
    proof {
        let post = views(list@);
        let xi = i as int;
        assert(post =~= pre.insert(xi, x@)) by {
            assert forall|k: int| 0 <= k < post.len() implies post[k] == pre.insert(xi, x@)[k] by {
                if k < xi {
                    assert(list@[k] == old(list)@[k]);
                } else if k > xi {
                    assert(list@[k] == old(list)@[k - 1]);
                }
            }
        }
        assert forall|p: int, q: int| 0 <= p < q < post.len() implies lex_lt(post[p], post[q]) by {
            if p < xi && q == xi {
            } else if p == xi && q > xi {
            } else if p < xi && q > xi {
                lemma_lex_trans(post[p], x@, post[q]);
            }
        }
        assert forall|y: Seq<u8>| post.contains(y) == (pre.contains(y) || y == x@) by {
            if post.contains(y) {
                let k = choose|k: int| 0 <= k < post.len() && post[k] == y;
                if k < xi {
                    assert(pre[k] == y);
                    assert(pre.contains(y));
                } else if k > xi {
                    assert(pre[k - 1] == y);
                    assert(pre.contains(y));
                } else {
                    assert(y == x@);
                }
            }
            if pre.contains(y) {
                let k = choose|k: int| 0 <= k < pre.len() && pre[k] == y;
                if k < xi {
                    assert(post[k] == y);
                } else {
                    assert(post[k + 1] == y);
                }
                assert(post.contains(y));
            }
            if y == x@ {
                assert(post[xi] == y);
                assert(post.contains(y));
            }
        }
    }
}

} // verus!
