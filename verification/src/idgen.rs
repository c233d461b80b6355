//! Fresh identifiers for documents, chunks and memories: hyphenated
//! UUIDv4 text, kept as bytes.

use vstd::prelude::*;

verus! {

/// Relies on `uuid::Uuid::new_v4` and its hyphenated `Display` form: a
/// random version-4 UUID printed as 36 ASCII characters. The value is
/// random, so nothing beyond its length is promised.
#[verifier::external_body]
pub fn fresh_id() -> (r: Vec<u8>)
    ensures
        r@.len() == 36,
{
    uuid::Uuid::new_v4().to_string().into_bytes()
}

} // verus!
