//! A fixed-size block of `QUANTUM_SIZE` samples.
use vstd::prelude::*;
use crate::QUANTUM_SIZE;
use crate::sample::{in_range, sat};

verus! {

/// One quantum's worth of samples. Well-formed buffers always hold exactly
/// `QUANTUM_SIZE` samples, each within the saturation range.
pub struct AudioBuffer {
    samples: Vec<i64>,
}

/// A sequence that is one quantum long with every sample in range.
pub open spec fn buffer_wf(s: Seq<i64>) -> bool {
    &&& s.len() == QUANTUM_SIZE
    &&& forall|i: int| 0 <= i < s.len() ==> in_range(#[trigger] s[i] as int)
}

/// The all-zero quantum, what a silent source produces.
pub open spec fn zero_buffer() -> Seq<i64> {
    Seq::new(QUANTUM_SIZE as nat, |i: int| 0i64)
}

impl View for AudioBuffer {
    type V = Seq<i64>;

    closed spec fn view(&self) -> Seq<i64> {
        self.samples@
    }
}

impl AudioBuffer {
    pub open spec fn wf(&self) -> bool {
        buffer_wf(self@)
    }

    /// A freshly allocated buffer holds silence.
    pub fn new() -> (r: AudioBuffer)
        ensures
            r.wf(),
            r@ == zero_buffer(),
    {
        let mut samples: Vec<i64> = Vec::new();
        let mut i: usize = 0;
        while i < QUANTUM_SIZE
            invariant
                i <= QUANTUM_SIZE,
                samples@.len() == i,
                forall|j: int| 0 <= j < i ==> samples@[j] == 0i64,
            decreases QUANTUM_SIZE - i,
        {
            samples.push(0i64);
            i = i + 1;
        }
        let r = AudioBuffer { samples };
        proof {
            assert(r@ =~= zero_buffer());
        }
        r
    }

    pub fn at(&self, sample: usize) -> (r: i64)
        requires
            self.wf(),
            sample < QUANTUM_SIZE,
        ensures
            r == self@[sample as int],
    {
        self.samples[sample]
    }

    pub fn set(&mut self, sample: usize, value: i64)
        requires
            old(self).wf(),
            sample < QUANTUM_SIZE,
            in_range(value as int),
        ensures
            final(self).wf(),
            final(self)@ == old(self)@.update(sample as int, value),
    {
        self.samples.set(sample, value);
    }

    /// An owned copy with the same samples.
    pub fn duplicate(&self) -> (r: AudioBuffer)
        requires
            self.wf(),
        ensures
            r.wf(),
            r@ == self@,
    {
        let mut out = AudioBuffer::new();
        let mut i: usize = 0;
        while i < QUANTUM_SIZE
            invariant
                i <= QUANTUM_SIZE,
                self.wf(),
                out.wf(),
                forall|j: int| 0 <= j < i ==> out@[j] == self@[j],
            decreases QUANTUM_SIZE - i,
        {
            let v = self.at(i);
            out.set(i, v);
            i = i + 1;
        }
        proof {
            assert(out@ =~= self@);
        }
        out
    }

    /// Overwrite every sample with silence.
    pub fn clear(&mut self)
        requires
            old(self).wf(),
        ensures
            final(self).wf(),
            final(self)@ == zero_buffer(),
    {
        let mut i: usize = 0;
        while i < QUANTUM_SIZE
            invariant
                i <= QUANTUM_SIZE,
                self.wf(),
                forall|j: int| 0 <= j < i ==> self@[j] == 0i64,
            decreases QUANTUM_SIZE - i,
        {
            self.set(i, 0i64);
            i = i + 1;
        }
        proof {
            assert(self@ =~= zero_buffer());
        }
    }
}

} // verus!
