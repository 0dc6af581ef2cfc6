//! Canonical reason phrases for status codes.

use vstd::prelude::*;

verus! {

/// The canonical reason phrase of a status code, if the code has one.  The
/// phrase table lives in an outside crate; this name stands for its result.
pub uninterp spec fn reason_of(code: u16) -> Option<Seq<u8>>;

/// Relies on `http::StatusCode::canonical_reason`: the canonical reason
/// phrase of a status code, a table lookup depending on the code alone.
/// Every phrase in that table consists of visible ASCII words separated by
/// single spaces, and `from_u16` accepts exactly the codes 100 through 999.
#[verifier::external_body]
pub fn reason_phrase(code: u16) -> (r: Option<Vec<u8>>)
    ensures
        r is Some <==> reason_of(code) is Some,
        r matches Some(v) ==> reason_of(code) == Some(v@) && v@.len() >= 1 && (forall|i: int|
            0 <= i < v@.len() ==> 32 <= #[trigger] v@[i] <= 126),
{
    match http::StatusCode::from_u16(code) {
        Ok(c) => c.canonical_reason().map(|r| r.as_bytes().to_vec()),
        Err(_) => None,
    }
}

} // verus!
