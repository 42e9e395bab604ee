use vstd::prelude::*;

verus! {

/// Draws a new identifier from `uuid::Uuid::now_v7()`, taken as its 128-bit
/// (big-endian) value.
///
/// The value depends on the clock and on a random source. What is claimed
/// is only what every version 7 UUID shows: its version field (bits 76 to
/// 79) holds 7.
#[verifier::external_body]
pub(crate) fn fresh_id() -> (id: u128)
    ensures
        (id >> 76u128) & 0xfu128 == 7,
{
    uuid::Uuid::now_v7().as_u128()
}

/// A drawn identifier is never 0.
pub(crate) proof fn lemma_fresh_id_nonzero(id: u128)
    requires
        (id >> 76u128) & 0xfu128 == 7,
    ensures
        id != 0,
{
    assert((id >> 76u128) & 0xfu128 == 7 ==> id != 0) by (bit_vector);
}

} // verus!
