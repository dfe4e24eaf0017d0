//! Random streams.
//!
//! A stream is known by the state that its generator starts from. The states of two
//! streams are unrelated, so what one process draws does not move what another does.

use rand::RngCore;
use rand_pcg::Pcg64Mcg;
use vstd::arithmetic::power2::pow2;
use vstd::prelude::*;

verus! {

/// The multiplier of the generator.
pub const MULTIPLIER: u128 = 0x2360_ed05_1fc6_5da4_4385_df64_9fcc_f645;

/// The state of the generator after its first step: the starting state, made odd, times the
/// multiplier, in 128 bits.
pub open spec fn stepped_state(state: u128) -> int {
    ((state | 1) * MULTIPLIER) % (pow2(128) as int)
}

/// `x` turned right by `r` of its 64 bits.
pub open spec fn turned_right(x: u64, r: nat) -> int {
    x as int / pow2(r) as int + (x as int % pow2(r) as int) * pow2((64 - r) as nat)
}

/// The first word of the stream that starts from `state`: the two halves of the stepped state,
/// folded by exclusive or, and turned right by what its highest six bits say.
pub open spec fn first_word(state: u128) -> u64 {
    let s = stepped_state(state);
    let high = (s / pow2(64) as int) as u64;
    let low = (s % pow2(64) as int) as u64;
    turned_right(high ^ low, (s / pow2(122) as int) as nat) as u64
}

/// `rand_pcg::Pcg64Mcg::next_u64` on a generator that `Pcg64Mcg::new` made from `state`: the
/// state is made odd and multiplied, and the word is its two halves folded and turned.
#[verifier::external_body]
pub(crate) fn draw_first(state: u128) -> (word: u64)
    ensures
        word == first_word(state),
{
    Pcg64Mcg::new(state).next_u64()
}

/// The seed of a noise field: the first word of the stream set aside for it.
pub fn noise_seed(state: u128) -> (seed: u64)
    ensures
        seed == first_word(state),
{
    draw_first(state)
}

} // verus!
