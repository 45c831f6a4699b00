//! Where order ids come from.

use uuid::Uuid;
use vstd::prelude::*;

verus! {

/// Whether `id` has the shape of a random (version 4) UUID: the version
/// digit is 4 and the two variant bits are `10`.
pub open spec fn is_random_uuid(id: u128) -> bool {
    id & 0x0000_0000_0000_f000_c000_0000_0000_0000 == 0x0000_0000_0000_4000_8000_0000_0000_0000
}

/// Whether `id` has the shape of a random (version 4) UUID.
pub fn is_random_uuid_value(id: u128) -> (r: bool)
    ensures
        r == is_random_uuid(id),
{
    id & 0x0000_0000_0000_f000_c000_0000_0000_0000 == 0x0000_0000_0000_4000_8000_0000_0000_0000
}

/// A new order id: the 128 bits of `uuid::Uuid::new_v4()`, read by
/// `Uuid::as_u128`.
///
/// Trusted, not proved: that the version digit and the variant bits are set
/// as `new_v4` sets them. Nothing is claimed of the other 122 bits; they
/// are random, and two calls may return the same id.
#[verifier::external_body]
pub(crate) fn fresh_order_id() -> (id: u128)
    ensures
        is_random_uuid(id),
{
    Uuid::new_v4().as_u128()
}

} // verus!
