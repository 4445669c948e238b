//! A small deterministic pseudo-random number generator (PCG XSH RR).
use vstd::prelude::*;

verus! {

/// The state that follows `state` in the PCG sequence.
pub open spec fn rng_next_state(state: u64) -> u64 {
    vstd::wrapping::u64_specs::wrapping_add(
        vstd::wrapping::u64_specs::wrapping_mul(state, 6364136223846793005u64),
        1u64,
    )
}

/// The rotation PCG XSH RR applies: the top five bits of the state.
pub open spec fn rng_rot(state: u64) -> u32 {
    (state >> 59u64) as u32
}

/// The xorshifted word the rotation is applied to.
pub open spec fn rng_xorshifted(state: u64) -> u32 {
    (((state >> 18u64) ^ state) >> 27u64) as u32
}

/// The output word PCG XSH RR derives from `state`: `rng_xorshifted`
/// rotated right by `rng_rot` bits.
pub open spec fn rng_output(state: u64) -> u32 {
    let xorshifted = rng_xorshifted(state);
    let rot = rng_rot(state);
    if rot == 0 {
        xorshifted
    } else {
        (xorshifted >> rot) | (xorshifted << (32u32 - rot) as u32)
    }
}

/// Pseudo-random number generator with a 64-bit state; every draw is a
/// pure function of the state, so streams are reproducible.
pub struct Rng {
    pub state: u64,
}

impl Rng {
    pub fn new(seed: u64) -> (r: Rng)
        ensures
            r.state == seed,
    {
        Rng { state: seed }
    }

    /// Draw the next 32-bit word and advance the state.
    pub fn get_u32(&mut self) -> (r: u32)
        ensures
            r == rng_output(old(self).state),
            final(self).state == rng_next_state(old(self).state),
    {
        let oldstate = self.state;
        self.state = oldstate.wrapping_mul(6364136223846793005u64).wrapping_add(1u64);
        let xorshifted: u32 = (((oldstate >> 18u64) ^ oldstate) >> 27u64) as u32;
        let rot: u32 = (oldstate >> 59u64) as u32;
        proof {
            assert((oldstate >> 59u64) < 32u64) by (bit_vector);
        }
        if rot == 0 {
            xorshifted
        } else {
            (xorshifted >> rot) | (xorshifted << (32u32 - rot))
        }
    }
}

} // verus!
