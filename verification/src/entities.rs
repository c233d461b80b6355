//! Entity extraction: capitalized words of at least three ASCII letters,
//! taken as whole tokens, deduplicated and sorted lexicographically.
//!
//! A token is a maximal run of word bytes, where a word byte is an ASCII
//! letter, digit, underscore, or any byte of a multi-byte UTF-8 character.
//! A token qualifies as an entity when it consists of ASCII letters only,
//! starts with an upper-case letter, and is at least three bytes long.

use vstd::prelude::*;
use crate::order::{insert_sorted_unique, strictly_sorted, views};

verus! {

/// Bytes that can be part of a token.
pub open spec fn is_word_byte(b: u8) -> bool {
    (48 <= b <= 57) || (65 <= b <= 90) || (97 <= b <= 122) || b == 95 || b >= 128
}

/// ASCII letters.
pub open spec fn is_alpha(b: u8) -> bool {
    (65 <= b <= 90) || (97 <= b <= 122)
}

/// Upper-case ASCII letters.
pub open spec fn is_upper(b: u8) -> bool {
    65 <= b <= 90
}

/// `[i, j)` is a maximal run of word bytes in `t`.
pub open spec fn token_span(t: Seq<u8>, i: int, j: int) -> bool {
    &&& 0 <= i < j <= t.len()
    &&& forall|k: int| i <= k < j ==> is_word_byte(t[k])
    &&& (i == 0 || !is_word_byte(t[i - 1]))
    &&& (j == t.len() || !is_word_byte(t[j]))
}

/// A byte string qualifies as an entity name: three or more bytes, all
/// ASCII letters, the first upper case.
pub open spec fn qualifies(s: Seq<u8>) -> bool {
    &&& s.len() >= 3
    &&& is_upper(s[0])
    &&& forall|k: int| 0 <= k < s.len() ==> is_alpha(s[k])
}

/// `x` is one of the entities of `t`: a qualifying whole token.
pub open spec fn is_entity_of(t: Seq<u8>, x: Seq<u8>) -> bool {
    exists|i: int, j: int| token_span(t, i, j) && x == t.subrange(i, j) && qualifies(x)
}

/// `x` is a qualifying whole token of `t` that ends at or before `hi`.
pub open spec fn is_entity_upto(t: Seq<u8>, x: Seq<u8>, hi: int) -> bool {
    exists|i: int, j: int|
        j <= hi && token_span(t, i, j) && x == t.subrange(i, j) && qualifies(x)
}

/// Exec test for a word byte.
fn is_word(b: u8) -> (r: bool)
    ensures
        r == is_word_byte(b),
{
    (48 <= b && b <= 57) || (65 <= b && b <= 90) || (97 <= b && b <= 122) || b == 95 || b >= 128
}

/// Are all bytes of `t[s..e)` ASCII letters?
fn all_alpha_in(t: &Vec<u8>, s: usize, e: usize) -> (r: bool)
    requires
        s <= e <= t@.len(),
    ensures
        r == (forall|k: int| s <= k < e ==> is_alpha(t@[k])),
{
    let tn: usize = t.len();
    let mut k: usize = s;
    while k < e
        invariant
            tn == t@.len(),
            s <= k <= e <= t@.len(),
            forall|m: int| s <= m < k ==> is_alpha(t@[m]),
        decreases e - k,
    {
        let c = t[k];
        if !((65 <= c && c <= 90) || (97 <= c && c <= 122)) {
            assert(!is_alpha(t@[k as int]));
            return false;
        }
        k = k + 1;
    }
    true
}

/// Copy `t[s..e)` into a fresh vector.
pub fn copy_range(t: &Vec<u8>, s: usize, e: usize) -> (r: Vec<u8>)
    requires
        s <= e <= t@.len(),
    ensures
        r@ == t@.subrange(s as int, e as int),
{
    let mut r: Vec<u8> = Vec::new();
    let tn: usize = t.len();
    let mut k: usize = s;
    while k < e
        invariant
            tn == t@.len(),
            s <= k <= e <= t@.len(),
            r@ =~= t@.subrange(s as int, k as int),
        decreases e - k,
    {
        r.push(t[k]);
        proof {
            assert(t@.subrange(s as int, k + 1) =~= t@.subrange(s as int, k as int).push(
                t@[k as int],
            ));
        }
        k = k + 1;
    }
    assert(r@ =~= t@.subrange(s as int, e as int));
    r
}

/// Extract the entities of a text: every qualifying token, each exactly
/// once, in strictly increasing lexicographic order. The output is a
/// function of the set of tokens alone, so it is deterministic and does
/// not depend on the order in which occurrences appear.
#[verifier::loop_isolation(false)]
pub fn extract_entities(text: &Vec<u8>) -> (r: Vec<Vec<u8>>)
    ensures
        strictly_sorted(views(r@)),
        forall|x: Seq<u8>| views(r@).contains(x) == is_entity_of(text@, x),
{
    let n: usize = text.len();
    let mut out: Vec<Vec<u8>> = Vec::new();
    let mut i: usize = 0;
    while i < n
        invariant
            i <= n,
            i == n || !is_word_byte(text@[i as int]) || i == 0 || !is_word_byte(
                text@[i as int - 1],
            ),
            strictly_sorted(views(out@)),
            forall|x: Seq<u8>| views(out@).contains(x) == is_entity_upto(text@, x, i as int),
        decreases n - i,
    {
        if !is_word(text[i]) {
            proof {
                assert forall|x: Seq<u8>|
                    views(out@).contains(x) == is_entity_upto(text@, x, i + 1) by {
                    if is_entity_upto(text@, x, i + 1) {
                        let (p, q): (int, int) = choose|p: int, q: int|
                            q <= i + 1 && token_span(text@, p, q) && x == text@.subrange(p, q)
                                && qualifies(x);
                        if q == i + 1 {
                            assert(is_word_byte(text@[q - 1]));
                            assert(false);
                        }
                        assert(is_entity_upto(text@, x, i as int));
                    }
                    if is_entity_upto(text@, x, i as int) {
                        let (p, q): (int, int) = choose|p: int, q: int|
                            q <= i && token_span(text@, p, q) && x == text@.subrange(p, q)
                                && qualifies(x);
                        assert(q <= i + 1 && token_span(text@, p, q) && x == text@.subrange(p, q)
                            && qualifies(x));
                        assert(is_entity_upto(text@, x, i + 1));
                    }
                }
            }
            i = i + 1;
        } else {
            let start: usize = i;
            let mut j: usize = i + 1;
            #[verifier::loop_isolation(true)]
            loop
                invariant
                    n == text@.len(),
                    start < j <= n,
                    forall|k: int| start <= k < j ==> is_word_byte(text@[k]),
                ensures
                    start < j <= n,
                    forall|k: int| start <= k < j ==> is_word_byte(text@[k]),
                    j == n || !is_word_byte(text@[j as int]),
                decreases n - j,
            {
                if j >= n {
                    break;
                }
                if !is_word(text[j]) {
                    break;
                }
                j = j + 1;
            }
            proof {
                assert(token_span(text@, start as int, j as int));
            }
            let first = text[start];
            let qualifying = (j - start >= 3) && (65 <= first && first <= 90) && all_alpha_in(
                text,
                start,
                j,
            );
            let ghost tok = text@.subrange(start as int, j as int);
            proof {
                assert forall|k: int| 0 <= k < tok.len() implies tok[k] == text@[start + k] by {}
                if qualifying {
                    assert(is_upper(tok[0]));
                    assert forall|k: int| 0 <= k < tok.len() implies is_alpha(tok[k]) by {
                        assert(tok[k] == text@[start + k]);
                    }
                    assert(qualifies(tok));
                } else {
                    if qualifies(tok) {
                        assert(tok.len() >= 3);
                        assert(is_upper(text@[start as int]));
                        assert forall|k: int| start <= k < j implies is_alpha(text@[k]) by {
                            assert(tok[k - start] == text@[k]);
                        }
                        assert(false);
                    }
                }
                // Any qualifying token ending in (start, j] is exactly [start, j).
                assert forall|x: Seq<u8>|
                    is_entity_upto(text@, x, j as int) implies (is_entity_upto(
                    text@,
                    x,
                    start as int,
                ) || (x == tok && qualifies(tok))) by {
                    let (p, q): (int, int) = choose|p: int, q: int|
                        q <= j && token_span(text@, p, q) && x == text@.subrange(p, q)
                            && qualifies(x);
                    if q > start {
                        if q < j {
                            assert(is_word_byte(text@[q]));
                            assert(false);
                        }
                        if p < start {
                            assert(is_word_byte(text@[start as int - 1]));
                            assert(false);
                        }
                        if p > start {
                            assert(is_word_byte(text@[p - 1]));
                            assert(false);
                        }
                        assert(x == tok);
                    } else {
                        assert(is_entity_upto(text@, x, start as int));
                    }
                }
                assert forall|x: Seq<u8>|
                    is_entity_upto(text@, x, start as int) implies is_entity_upto(
                    text@,
                    x,
                    j as int,
                ) by {
                    let (p, q): (int, int) = choose|p: int, q: int|
                        q <= start && token_span(text@, p, q) && x == text@.subrange(p, q)
                            && qualifies(x);
                    assert(q <= j && token_span(text@, p, q) && x == text@.subrange(p, q)
                        && qualifies(x));
                }
                if qualifies(tok) {
                    assert(is_entity_upto(text@, tok, j as int));
                }
            }
            if qualifying {
                let tokv = copy_range(text, start, j);
                assert(tokv@ == tok);
                insert_sorted_unique(&mut out, tokv);
            }
            proof {
                assert forall|x: Seq<u8>|
                    views(out@).contains(x) == is_entity_upto(text@, x, j as int) by {}
            }
            i = j;
        }
    }
    proof {
        assert forall|x: Seq<u8>| views(out@).contains(x) == is_entity_of(text@, x) by {
            if is_entity_of(text@, x) {
                let (p, q): (int, int) = choose|p: int, q: int|
                    token_span(text@, p, q) && x == text@.subrange(p, q) && qualifies(x);
                assert(q <= n && token_span(text@, p, q) && x == text@.subrange(p, q)
                    && qualifies(x));
                assert(is_entity_upto(text@, x, n as int));
            }
            if is_entity_upto(text@, x, n as int) {
                let (p, q): (int, int) = choose|p: int, q: int|
                    q <= n && token_span(text@, p, q) && x == text@.subrange(p, q) && qualifies(
                        x,
                    );
                assert(is_entity_of(text@, x));
            }
        }
    }
    out
}

} // verus!
