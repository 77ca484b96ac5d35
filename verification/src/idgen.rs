use vstd::prelude::*;

verus! {

/// Relies on `uuid::Uuid::new_v4`: a freshly generated random version-4
/// identifier, handed back as its 128-bit value. The result is random,
/// so nothing is promised of it; callers must check for themselves that
/// a drawn identifier is not already in use.
#[verifier::external_body]
pub(crate) fn fresh_id_bits() -> u128 {
    uuid::Uuid::new_v4().as_u128()
}

} // verus!
