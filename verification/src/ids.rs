//! Fresh identifiers for documents and layers.
use vstd::prelude::*;

verus! {

/// A new random identifier from `uuid::Uuid::new_v4`, as its 128-bit value.
/// The value is random; what every outcome has in common is the version 4
/// and RFC 9562 variant bits that `new_v4` sets.
#[verifier::external_body]
pub(crate) fn new_id() -> (id: u128)
    ensures
        id & 0x0000_0000_0000_F000_C000_0000_0000_0000u128 == 0x0000_0000_0000_4000_8000_0000_0000_0000u128,
{
    uuid::Uuid::new_v4().as_u128()
}

} // verus!
