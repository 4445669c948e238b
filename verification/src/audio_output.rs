//! A module-owned, double-buffered output port.
use vstd::prelude::*;
use crate::AUDIO_OUTPUT_NUM_BUFFERS;
use crate::audio_buffer::{buffer_wf, zero_buffer, AudioBuffer};
use crate::sample::in_range;

verus! {

/// Mathematical image of an [`AudioOutput`]: the buffer pair and the index
/// of the buffer being written this quantum.
#[verifier::ext_equal]
pub struct AudioOutputView {
    pub bufs: Seq<Seq<i64>>,
    pub current: int,
}

impl AudioOutputView {
    pub open spec fn wf(self) -> bool {
        &&& self.bufs.len() == AUDIO_OUTPUT_NUM_BUFFERS
        &&& 0 <= self.current < AUDIO_OUTPUT_NUM_BUFFERS
        &&& forall|i: int| 0 <= i < self.bufs.len() ==> buffer_wf(#[trigger] self.bufs[i])
    }

    /// The buffer written during the present quantum.
    pub open spec fn write_view(self) -> Seq<i64> {
        self.bufs[self.current]
    }

    /// The index of the buffer readers observe.
    pub open spec fn read_index(self) -> int {
        (self.current + AUDIO_OUTPUT_NUM_BUFFERS - 1) % (AUDIO_OUTPUT_NUM_BUFFERS as int)
    }

    /// The buffer readers observe: the one finished in the previous quantum.
    pub open spec fn read_view(self) -> Seq<i64> {
        self.bufs[self.read_index()]
    }

    /// The image of an output after `swap`: writing moves to the other
    /// buffer, so the quantum just written becomes the one readers observe.
    pub open spec fn swapped(self) -> AudioOutputView {
        AudioOutputView {
            bufs: self.bufs,
            current: (self.current + 1) % (AUDIO_OUTPUT_NUM_BUFFERS as int),
        }
    }

    /// The image of an output whose write buffer was replaced wholesale.
    pub open spec fn with_write(self, b: Seq<i64>) -> AudioOutputView {
        AudioOutputView { bufs: self.bufs.update(self.current, b), current: self.current }
    }
}

/// Double-buffer isolation, the port's side: the buffer readers observe
/// right after a swap is exactly the buffer that was being written before
/// it — the previous quantum's finished samples.
pub proof fn lemma_swap_exposes_written(o: AudioOutputView)
    requires
        o.wf(),
    ensures
        o.swapped().read_view() == o.write_view(),
        o.swapped().write_view() == o.read_view(),
{
}

/// A module's write port. Holds two buffers and the index of the one being
/// written; readers see the other one, so writes in the present quantum
/// never show until the next swap.
pub struct AudioOutput {
    buffer_a: AudioBuffer,
    buffer_b: AudioBuffer,
    current: usize,
}

impl View for AudioOutput {
    type V = AudioOutputView;

    closed spec fn view(&self) -> AudioOutputView {
        AudioOutputView {
            bufs: seq![self.buffer_a@, self.buffer_b@],
            current: self.current as int,
        }
    }
}

impl AudioOutput {
    pub open spec fn wf(&self) -> bool {
        self@.wf()
    }

    /// A fresh output: both buffers silent, writing at index 0.
    pub fn new() -> (r: AudioOutput)
        ensures
            r.wf(),
            r@.current == 0,
            forall|i: int| 0 <= i < AUDIO_OUTPUT_NUM_BUFFERS ==> r@.bufs[i] == zero_buffer(),
    {
        AudioOutput { buffer_a: AudioBuffer::new(), buffer_b: AudioBuffer::new(), current: 0 }
    }

    /// Advance the write index: called exactly once per quantum, before any
    /// module processes, so readers then observe the quantum just finished.
    pub fn swap(&mut self)
        requires
            old(self).wf(),
        ensures
            final(self).wf(),
            final(self)@ == old(self)@.swapped(),
    {
        self.current = (self.current + 1) % AUDIO_OUTPUT_NUM_BUFFERS;
        proof {
            assert(final(self)@ =~= old(self)@.swapped());
        }
    }

    /// The buffer readers observe.
    pub fn read_buffer(&self) -> (r: &AudioBuffer)
        requires
            self.wf(),
        ensures
            r@ == self@.read_view(),
    {
        if self.current == 0 {
            &self.buffer_b
        } else {
            &self.buffer_a
        }
    }

    /// Read one sample of the buffer readers observe.
    pub fn read_at(&self, sample: usize) -> (r: i64)
        requires
            self.wf(),
            sample < crate::QUANTUM_SIZE,
        ensures
            r == self@.read_view()[sample as int],
    {
        self.read_buffer().at(sample)
    }

    /// Replace the whole buffer being produced this quantum.
    pub fn set_write(&mut self, buf: AudioBuffer)
        requires
            old(self).wf(),
            buf.wf(),
        ensures
            final(self).wf(),
            final(self)@ == old(self)@.with_write(buf@),
    {
        if self.current == 0 {
            self.buffer_a = buf;
        } else {
            self.buffer_b = buf;
        }
        proof {
            assert(final(self)@ =~= old(self)@.with_write(buf@));
        }
    }

    /// Write one sample of the quantum being produced.
    pub fn write_at(&mut self, sample: usize, value: i64)
        requires
            old(self).wf(),
            sample < crate::QUANTUM_SIZE,
            in_range(value as int),
        ensures
            final(self).wf(),
            final(self)@ == old(self)@.with_write(
                old(self)@.write_view().update(sample as int, value),
            ),
    {
        if self.current == 0 {
            self.buffer_a.set(sample, value);
        } else {
            self.buffer_b.set(sample, value);
        }
        proof {
            assert(final(self)@ =~= old(self)@.with_write(
                old(self)@.write_view().update(sample as int, value),
            ));
        }
    }
}

} // verus!
