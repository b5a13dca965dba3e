//! Order identifiers: 128-bit UUID values, zero being the nil UUID.

use vstd::prelude::*;

verus! {

/// The bits of an identifier that hold a UUID's version and variant.
pub const ID_KIND_MASK: u128 = 0x0000_0000_0000_F000_C000_0000_0000_0000;

/// Those bits in a random (version 4) UUID of the RFC variant.
pub const ID_KIND_RANDOM: u128 = 0x0000_0000_0000_4000_8000_0000_0000_0000;

/// Whether `id` has the version and variant of a randomly drawn UUID.
pub open spec fn is_random_id(id: u128) -> bool {
    id & ID_KIND_MASK == ID_KIND_RANDOM
}

/// A randomly drawn identifier is never the nil identifier.
pub proof fn lemma_random_id_is_set(id: u128)
    requires
        is_random_id(id),
    ensures
        id != 0,
{
    assert(id & 0x0000_0000_0000_F000_C000_0000_0000_0000u128
        == 0x0000_0000_0000_4000_8000_0000_0000_0000u128 ==> id != 0) by (bit_vector);
}

/// Draws an identifier with `uuid::Uuid::new_v4` and returns its 128-bit
/// value, as `uuid::Uuid::as_u128` gives it.
///
/// Trusted, not proved: `new_v4` overwrites the version bits of its random
/// draw with 4 and the variant bits with binary 10, and `as_u128` packs the
/// sixteen bytes unchanged, so the result carries those bits. Nothing is
/// claimed of the other 122 bits. `new_v4` aborts if the operating system
/// cannot supply random bytes.
#[verifier::external_body]
pub(crate) fn fresh_id() -> (id: u128)
    ensures
        is_random_id(id),
{
    uuid::Uuid::new_v4().as_u128()
}

} // verus!
