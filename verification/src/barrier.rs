//! The arrival bookkeeping of an N-party reusable barrier.
//!
//! This type holds the counter and generation of a generational barrier and
//! performs one thread's arrival as a single transition. The blocking side
//! of the rendezvous — waiting until the generation advances — is the
//! host's concern; the contract here fixes who is elected leader and how
//! the counter and generation move.
use vstd::prelude::*;

verus! {

/// N-party, generational, reusable barrier state.
///
/// Well-formedness: fewer threads have arrived than the barrier holds; the
/// arrival that completes the party resets the count and advances the
/// generation in the same transition, so `count` never reaches
/// `num_threads`.
pub struct Barrier {
    pub num_threads: usize,
    pub generation_id: u32,
    pub count: usize,
}

/// The generation that follows `g`, wrapping around.
pub open spec fn next_generation(g: u32) -> u32 {
    vstd::wrapping::u32_specs::wrapping_add(g, 1u32)
}

impl Barrier {
    pub open spec fn wf(&self) -> bool {
        &&& self.num_threads >= 1
        &&& self.count < self.num_threads
    }

    pub fn new(num_threads: usize) -> (r: Barrier)
        requires
            num_threads >= 1,
        ensures
            r.wf(),
            r.num_threads == num_threads,
            r.generation_id == 0,
            r.count == 0,
    {
        Barrier { num_threads, generation_id: 0, count: 0 }
    }

    /// One thread arrives at the rendezvous.
    ///
    /// Returns `true` exactly for the last arriver of the generation — the
    /// leader. The leader resets the counter and advances the generation;
    /// every other arriver only raises the counter and then waits (in the
    /// host) for the generation to move past the value it observed here.
    pub fn wait(&mut self) -> (leader: bool)
        requires
            old(self).wf(),
        ensures
            final(self).wf(),
            final(self).num_threads == old(self).num_threads,
            leader == (old(self).count == old(self).num_threads - 1),
            leader ==> final(self).count == 0
                && final(self).generation_id == next_generation(old(self).generation_id),
            !leader ==> final(self).count == old(self).count + 1
                && final(self).generation_id == old(self).generation_id,
    {
        if self.count == self.num_threads - 1 {
            self.count = 0;
            self.generation_id = self.generation_id.wrapping_add(1u32);
            true
        } else {
            self.count = self.count + 1;
            false
        }
    }
}

} // verus!
