//! Byte-string helpers shared by the text index, the knowledge graph and the
//! fusion search: ASCII case folding, substring search, and prefix tests.
//!
//! All text in the store is kept as UTF-8 bytes; matching is defined over
//! those bytes, with case folding applied to the ASCII letters only.

use vstd::prelude::*;

verus! {

/// ASCII case folding of a single byte: upper-case letters map to lower case,
/// every other byte is unchanged.
pub open spec fn lower_byte(b: u8) -> u8 {
    if 65 <= b <= 90 {
        (b + 32) as u8
    } else {
        b
    }
}

/// ASCII case folding of a byte string.
pub open spec fn lower_seq(s: Seq<u8>) -> Seq<u8> {
    s.map_values(|b: u8| lower_byte(b))
}

/// Fold a byte string to ASCII lower case.
pub fn to_lower(s: &Vec<u8>) -> (r: Vec<u8>)
    ensures
        r@ == lower_seq(s@),
{
    let mut r: Vec<u8> = Vec::new();
    let mut i: usize = 0;
    while i < s.len()
        invariant
            i <= s.len(),
            r@ =~= lower_seq(s@).subrange(0, i as int),
        decreases s.len() - i,
    {
        let b = s[i];
        if 65 <= b && b <= 90 {
            r.push(b + 32);
        } else {
            r.push(b);
        }
        i = i + 1;
    }
    assert(r@ =~= lower_seq(s@));
    r
}

/// True when `n` occurs in `h` starting at position `i`.
pub open spec fn matches_at(h: Seq<u8>, n: Seq<u8>, i: int) -> bool {
    0 <= i && i + n.len() <= h.len() && h.subrange(i, i + n.len() as int) == n
}

/// True when `n` occurs somewhere in `h`.
pub open spec fn contains_seq(h: Seq<u8>, n: Seq<u8>) -> bool {
    exists|i: int| matches_at(h, n, i)
}

/// True when `p` is a prefix of `s`.
pub open spec fn is_prefix_of(p: Seq<u8>, s: Seq<u8>) -> bool {
    p.len() <= s.len() && s.subrange(0, p.len() as int) == p
}

/// True when `p` is a suffix of `s`.
pub open spec fn is_suffix_of(p: Seq<u8>, s: Seq<u8>) -> bool {
    p.len() <= s.len() && s.subrange(s.len() - p.len(), s.len() as int) == p
}

/// Copy a byte string.
pub fn copy_bytes(v: &Vec<u8>) -> (r: Vec<u8>)
    ensures
        r@ == v@,
{
    let n: usize = v.len();
    let mut r: Vec<u8> = Vec::new();
    let mut i: usize = 0;
    while i < n
        invariant
            n == v@.len(),
            i <= n,
            r@ =~= v@.take(i as int),
        decreases n - i,
    {
        r.push(v[i]);
        proof {
            assert(v@.take(i + 1) =~= v@.take(i as int).push(v@[i as int]));
        }
        i = i + 1;
    }
    assert(r@ =~= v@);
    r
}

/// Byte-for-byte equality of two byte strings.
pub fn bytes_eq(a: &Vec<u8>, b: &Vec<u8>) -> (r: bool)
    ensures
        r == (a@ == b@),
{
    let r = a == b;
    proof {
        if a@ =~= b@ {
            assert(a@ == b@);
        }
    }
    r
}

/// Does `s` start with `p`?
pub fn starts_with(s: &Vec<u8>, p: &Vec<u8>) -> (r: bool)
    ensures
        r == is_prefix_of(p@, s@),
{
    if p.len() > s.len() {
        return false;
    }
    let mut i: usize = 0;
    while i < p.len()
        invariant
            p.len() <= s.len(),
            i <= p.len(),
            forall|j: int| 0 <= j < i ==> s@[j] == p@[j],
        decreases p.len() - i,
    {
        if s[i] != p[i] {
            assert(s@.subrange(0, p@.len() as int)[i as int] != p@[i as int]);
            return false;
        }
        i = i + 1;
    }
    assert(s@.subrange(0, p@.len() as int) =~= p@);
    true
}

/// Does `s` end with `p`?
pub fn ends_with(s: &Vec<u8>, p: &Vec<u8>) -> (r: bool)
    ensures
        r == is_suffix_of(p@, s@),
{
    if p.len() > s.len() {
        return false;
    }
    let off: usize = s.len() - p.len();
    let mut i: usize = 0;
    while i < p.len()
        invariant
            p.len() <= s.len(),
            off == s.len() - p.len(),
            i <= p.len(),
            forall|j: int| 0 <= j < i ==> s@[off + j] == p@[j],
        decreases p.len() - i,
    {
        if s[off + i] != p[i] {
            assert(s@.subrange(s@.len() - p@.len(), s@.len() as int)[i as int] != p@[i as int]);
            return false;
        }
        i = i + 1;
    }
    assert(s@.subrange(s@.len() - p@.len(), s@.len() as int) =~= p@);
    true
}

/// Does `n` occur in `h` at position `i`? (exec form of `matches_at`)
fn check_match_at(h: &Vec<u8>, n: &Vec<u8>, i: usize) -> (r: bool)
    requires
        i + n@.len() <= h@.len(),
    ensures
        r == matches_at(h@, n@, i as int),
{
    let hn: usize = h.len();
    let nn: usize = n.len();
    let mut j: usize = 0;
    while j < nn
        invariant
            hn == h@.len(),
            nn == n@.len(),
            i + nn <= hn,
            j <= nn,
            forall|k: int| 0 <= k < j ==> h@[i + k] == n@[k],
        decreases nn - j,
    {
        if h[i + j] != n[j] {
            assert(h@.subrange(i as int, i + n@.len() as int)[j as int] != n@[j as int]);
            return false;
        }
        j = j + 1;
    }
    assert(h@.subrange(i as int, i + n@.len() as int) =~= n@);
    true
}

/// Substring search: does `n` occur anywhere in `h`?
pub fn contains_sub(h: &Vec<u8>, n: &Vec<u8>) -> (r: bool)
    ensures
        r == contains_seq(h@, n@),
{
    if n.len() > h.len() {
        assert(forall|i: int| !matches_at(h@, n@, i));
        return false;
    }
    if n.len() == 0 {
        assert(h@.subrange(0, 0) =~= n@);
        assert(matches_at(h@, n@, 0));
        return true;
    }
    let last: usize = h.len() - n.len();
    let mut i: usize = 0;
    while i <= last
        invariant
            1 <= n@.len() <= h@.len(),
            h@.len() <= usize::MAX,
            last == h@.len() - n@.len(),
            i <= last + 1,
            forall|k: int| 0 <= k < i ==> !matches_at(h@, n@, k),
        decreases last - i + 1,
    {
        if check_match_at(h, n, i) {
            assert(matches_at(h@, n@, i as int));
            return true;
        }
        i = i + 1;
    }
    assert(forall|k: int| matches_at(h@, n@, k) ==> 0 <= k <= last);
    false
}

/// Case-insensitive substring search over the ASCII fold of both strings.
pub fn contains_ci(h: &Vec<u8>, n: &Vec<u8>) -> (r: bool)
    ensures
        r == contains_seq(lower_seq(h@), lower_seq(n@)),
{
    let hl = to_lower(h);
    let nl = to_lower(n);
    contains_sub(&hl, &nl)
}

} // verus!
