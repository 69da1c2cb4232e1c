//! Fresh note identifiers, behind a trusted wrapper.

use vstd::prelude::*;

verus! {

/// Relies on `ulid::Ulid::generate` and `Ulid::to_string`: a fresh
/// time-sortable identifier. The crate's source encodes every ULID as
/// exactly 26 Crockford base32 characters; the value itself depends on the
/// clock and a random source, so nothing more is promised.
#[verifier::external_body]
pub fn new_note_id() -> (r: String)
    ensures
        r@.len() == 26,
{
    ulid::Ulid::generate().to_string()
}

} // verus!
