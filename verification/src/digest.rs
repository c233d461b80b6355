//! Content hashing: SHA-256 through the `sha2` crate, with a verified
//! lower-case hex encoding on top. Document identity is decided by the hex
//! digest of the content bytes, so identical content always maps to the
//! same key.

use vstd::prelude::*;
use sha2::Digest;

verus! {

/// The SHA-256 digest of a byte string. The digest is a pure function of
/// the input bytes alone; its definition lives in the `sha2` crate.
pub uninterp spec fn sha256_of(data: Seq<u8>) -> Seq<u8>;

/// Relies on `sha2::Sha256::digest`: a pure function of the input bytes
/// producing a 32-byte digest.
#[verifier::external_body]
fn sha256(data: &Vec<u8>) -> (r: Vec<u8>)
    ensures
        r@ == sha256_of(data@),
        r@.len() == 32,
{
    sha2::Sha256::digest(data.as_slice()).to_vec()
}

/// The sixteen lower-case hex digits, as ASCII bytes.
pub open spec fn hex_digit(v: u8) -> u8
    recommends
        v < 16,
{
    if v < 10 {
        (48 + v) as u8
    } else {
        (87 + v) as u8
    }
}

/// Lower-case hex encoding of a byte string: two digits per byte, high
/// nibble first.
pub open spec fn hex_of(data: Seq<u8>) -> Seq<u8>
    decreases data.len(),
{
    if data.len() == 0 {
        Seq::empty()
    } else {
        seq![hex_digit(data.first() / 16), hex_digit(data.first() % 16)] + hex_of(
            data.drop_first(),
        )
    }
}

/// Each byte contributes exactly two digits.
pub proof fn lemma_hex_of_len(data: Seq<u8>)
    ensures
        hex_of(data).len() == 2 * data.len(),
    decreases data.len(),
{
    if data.len() > 0 {
        lemma_hex_of_len(data.drop_first());
    }
}

/// Hex digits of the prefix are a prefix of the digits.
proof fn lemma_hex_of_step(data: Seq<u8>, i: int)
    requires
        0 <= i < data.len(),
    ensures
        hex_of(data.take(i + 1)) == hex_of(data.take(i)) + seq![
            hex_digit(data[i] / 16),
            hex_digit(data[i] % 16),
        ],
    decreases i,
{
    let a = data.take(i + 1);
    let b = data.take(i);
    if i == 0 {
        assert(a.drop_first() =~= Seq::<u8>::empty());
        assert(b =~= Seq::<u8>::empty());
        assert(hex_of(a) =~= hex_of(b) + seq![hex_digit(data[0] / 16), hex_digit(data[0] % 16)]);
    } else {
        lemma_hex_of_step(data.drop_first(), i - 1);
        assert(a.drop_first() =~= data.drop_first().take(i));
        assert(b.drop_first() =~= data.drop_first().take(i - 1));
        assert(a.first() == b.first());
        assert(hex_of(a) =~= seq![hex_digit(a.first() / 16), hex_digit(a.first() % 16)] + hex_of(
            a.drop_first(),
        ));
        assert(hex_of(a) =~= hex_of(b) + seq![hex_digit(data[i] / 16), hex_digit(data[i] % 16)]);
    }
}

/// Encode a byte string as lower-case hex, two digits per byte.
pub fn to_hex_lower(data: &Vec<u8>) -> (r: Vec<u8>)
    ensures
        r@ == hex_of(data@),
        r@.len() == 2 * data@.len(),
{
    let n: usize = data.len();
    proof {
        lemma_hex_of_len(data@);
    }
    let mut r: Vec<u8> = Vec::new();
    let mut i: usize = 0;
    proof {
        assert(data@.take(0) =~= Seq::<u8>::empty());
    }
    while i < n
        invariant
            n == data@.len(),
            i <= n,
            r@ == hex_of(data@.take(i as int)),
            r@.len() == 2 * i,
        decreases n - i,
    {
        let b = data[i];
        let hi = b / 16;
        let lo = b % 16;
        let hd: u8 = if hi < 10 {
            48 + hi
        } else {
            87 + hi
        };
        let ld: u8 = if lo < 10 {
            48 + lo
        } else {
            87 + lo
        };
        proof {
            lemma_hex_of_step(data@, i as int);
            lemma_hex_of_len(data@.take(i + 1));
        }
        r.push(hd);
        r.push(ld);
        proof {
            assert(r@ =~= hex_of(data@.take(i as int)) + seq![
                hex_digit(data@[i as int] / 16),
                hex_digit(data@[i as int] % 16),
            ]);
        }
        i = i + 1;
    }
    proof {
        assert(data@.take(n as int) =~= data@);
    }
    r
}

/// Lower-case hex SHA-256 digest of a byte string.
pub open spec fn content_hash_of(data: Seq<u8>) -> Seq<u8> {
    hex_of(sha256_of(data))
}

/// Hash content to its 64-digit lower-case hex SHA-256 digest, the key
/// under which documents are deduplicated.
pub fn content_hash_hex(data: &Vec<u8>) -> (r: Vec<u8>)
    ensures
        r@ == content_hash_of(data@),
        r@.len() == 64,
{
    let d = sha256(data);
    to_hex_lower(&d)
}

} // verus!
