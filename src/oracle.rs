//! The seeded random source behind the height draws.
use mt19937::MT19937;
use vstd::prelude::*;

verus! {

/// The Mersenne Twister generator of the `mt19937` crate, carried opaquely.
#[verifier::external_type_specification]
#[verifier::external_body]
pub struct ExMT19937(MT19937);

/// Relies on `mt19937::MT19937::new_with_slice_seed`: a generator seeded
/// with the single word `seed`. Nothing is stated of its state.
#[verifier::external_body]
pub(crate) fn seeded_generator(seed: u32) -> (r: MT19937) {
    MT19937::new_with_slice_seed(&[seed])
}

/// Relies on `rand_core::Rng::next_u32` as `MT19937` implements it: the next
/// 32-bit word of the sequence, any value; the generator's state advances.
#[verifier::external_body]
pub(crate) fn next_word(rng: &mut MT19937) -> (r: u32) {
    rand_core::Rng::next_u32(rng)
}

} // verus!
