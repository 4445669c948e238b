//! The double-ended ring of finished stereo quanta.
//!
//! Workers (through the elected leader) write quanta ahead of the audio
//! consumer; the consumer drains them in FIFO order. `worker_position`
//! counts quanta produced and `consumer_position` quanta drained; both
//! only ever grow, by exactly one per quantum on their side, and their
//! difference stays within the ring's depth — the producer blocks at a
//! full ring, the consumer at an empty one.
use vstd::prelude::*;
use crate::NUM_OUTPUT_BUFFERS;
use crate::audio_buffer::{buffer_wf, zero_buffer, AudioBuffer};

verus! {

/// Mathematical image of the ring.
#[verifier::ext_equal]
pub struct OutputRingView {
    pub left: Seq<Seq<i64>>,
    pub right: Seq<Seq<i64>>,
    pub worker_position: u64,
    pub consumer_position: u64,
}

impl OutputRingView {
    pub open spec fn wf(self) -> bool {
        &&& self.left.len() == NUM_OUTPUT_BUFFERS
        &&& self.right.len() == NUM_OUTPUT_BUFFERS
        &&& forall|i: int| 0 <= i < self.left.len() ==> buffer_wf(#[trigger] self.left[i])
        &&& forall|i: int| 0 <= i < self.right.len() ==> buffer_wf(#[trigger] self.right[i])
        &&& self.consumer_position <= self.worker_position
        &&& self.worker_position - self.consumer_position <= NUM_OUTPUT_BUFFERS
    }

    /// The ring has room: the producer is less than a full ring ahead.
    pub open spec fn can_produce(self) -> bool {
        self.worker_position - self.consumer_position < NUM_OUTPUT_BUFFERS
    }

    /// A quantum is waiting: the consumer is behind the producer.
    pub open spec fn can_consume(self) -> bool {
        self.consumer_position < self.worker_position
    }
}

/// No lost quanta: in every reachable ring state the producer leads the
/// consumer by at most the ring's depth, and each side advances by exactly
/// one per quantum (the ensures of `produce` and `consume`), so both
/// positions grow monotonically and their difference stays in `[0, R]`.
pub proof fn lemma_no_lost_quanta(r: OutputRingView)
    requires
        r.wf(),
    ensures
        r.consumer_position <= r.worker_position,
        r.worker_position - r.consumer_position <= NUM_OUTPUT_BUFFERS,
        r.can_produce() ==> r.worker_position - r.consumer_position < NUM_OUTPUT_BUFFERS,
        r.can_consume() ==> r.consumer_position < r.worker_position,
{
}

/// Ring of `NUM_OUTPUT_BUFFERS` stereo quanta shared with the consumer.
pub struct OutputRing {
    pub left: Vec<AudioBuffer>,
    pub right: Vec<AudioBuffer>,
    pub worker_position: u64,
    pub consumer_position: u64,
}

impl View for OutputRing {
    type V = OutputRingView;

    open spec fn view(&self) -> OutputRingView {
        OutputRingView {
            left: Seq::new(self.left@.len(), |i: int| self.left@[i]@),
            right: Seq::new(self.right@.len(), |i: int| self.right@[i]@),
            worker_position: self.worker_position,
            consumer_position: self.consumer_position,
        }
    }
}

impl OutputRing {
    pub open spec fn wf(&self) -> bool {
        self@.wf()
    }

    /// A fresh ring: all slots silent, both positions at zero.
    pub fn new() -> (r: OutputRing)
        ensures
            r.wf(),
            r@.worker_position == 0,
            r@.consumer_position == 0,
            forall|i: int| 0 <= i < NUM_OUTPUT_BUFFERS ==> r@.left[i] == zero_buffer(),
            forall|i: int| 0 <= i < NUM_OUTPUT_BUFFERS ==> r@.right[i] == zero_buffer(),
    {
        let mut left: Vec<AudioBuffer> = Vec::new();
        let mut right: Vec<AudioBuffer> = Vec::new();
        let mut i: usize = 0;
        while i < NUM_OUTPUT_BUFFERS
            invariant
                i <= NUM_OUTPUT_BUFFERS,
                left@.len() == i,
                right@.len() == i,
                forall|j: int| 0 <= j < i ==> (#[trigger] left@[j])@ == zero_buffer(),
                forall|j: int| 0 <= j < i ==> (#[trigger] right@[j])@ == zero_buffer(),
                forall|j: int| 0 <= j < i ==> (#[trigger] left@[j]).wf(),
                forall|j: int| 0 <= j < i ==> (#[trigger] right@[j]).wf(),
            decreases NUM_OUTPUT_BUFFERS - i,
        {
            left.push(AudioBuffer::new());
            right.push(AudioBuffer::new());
            i = i + 1;
        }
        OutputRing { left, right, worker_position: 0, consumer_position: 0 }
    }

    /// Write the next quantum into slot `worker_position mod R` and
    /// advance the producer by exactly one. Only legal while the ring has
    /// room; the worker loop blocks on the consumer's position until it
    /// does.
    pub fn produce(&mut self, left: AudioBuffer, right: AudioBuffer)
        requires
            old(self).wf(),
            old(self)@.can_produce(),
            old(self)@.worker_position < u64::MAX,
            left.wf(),
            right.wf(),
        ensures
            final(self).wf(),
            final(self)@ == (OutputRingView {
                left: old(self)@.left.update(
                    (old(self)@.worker_position % (NUM_OUTPUT_BUFFERS as u64)) as int,
                    left@,
                ),
                right: old(self)@.right.update(
                    (old(self)@.worker_position % (NUM_OUTPUT_BUFFERS as u64)) as int,
                    right@,
                ),
                worker_position: (old(self)@.worker_position + 1) as u64,
                consumer_position: old(self)@.consumer_position,
            }),
    {
        let slot = (self.worker_position % (NUM_OUTPUT_BUFFERS as u64)) as usize;
        let ghost prev_left = self.left@;
        let ghost prev_right = self.right@;
        let _ = self.left.remove(slot);
        self.left.insert(slot, left);
        let _ = self.right.remove(slot);
        self.right.insert(slot, right);
        self.worker_position = self.worker_position + 1;
        proof {
            assert(self.left@ =~= prev_left.update(slot as int, left));
            assert(self.right@ =~= prev_right.update(slot as int, right));
            assert(final(self)@ =~= (OutputRingView {
                left: old(self)@.left.update(slot as int, left@),
                right: old(self)@.right.update(slot as int, right@),
                worker_position: (old(self)@.worker_position + 1) as u64,
                consumer_position: old(self)@.consumer_position,
            }));
        }
    }

    /// Drain slot `consumer_position mod R` and advance the consumer by
    /// exactly one; `None` while nothing is waiting. The consumer never
    /// skips a slot.
    pub fn consume(&mut self) -> (r: Option<(AudioBuffer, AudioBuffer)>)
        requires
            old(self).wf(),
        ensures
            final(self).wf(),
            r is Some <==> old(self)@.can_consume(),
            !old(self)@.can_consume() ==> final(self)@ == old(self)@,
            old(self)@.can_consume() ==> {
                let slot = (old(self)@.consumer_position % (NUM_OUTPUT_BUFFERS as u64)) as int;
                &&& r.unwrap().0@ == old(self)@.left[slot]
                &&& r.unwrap().1@ == old(self)@.right[slot]
                &&& final(self)@ == (OutputRingView {
                    consumer_position: (old(self)@.consumer_position + 1) as u64,
                    ..old(self)@
                })
            },
    {
        if self.consumer_position < self.worker_position {
            let slot = (self.consumer_position % (NUM_OUTPUT_BUFFERS as u64)) as usize;
            proof {
                assert(buffer_wf(self@.left[slot as int]));
                assert(self@.left[slot as int] == self.left@[slot as int]@);
                assert(buffer_wf(self@.right[slot as int]));
                assert(self@.right[slot as int] == self.right@[slot as int]@);
            }
            let l = self.left[slot].duplicate();
            let rbuf = self.right[slot].duplicate();
            self.consumer_position = self.consumer_position + 1;
            proof {
                assert(final(self)@ =~= (OutputRingView {
                    consumer_position: (old(self)@.consumer_position + 1) as u64,
                    ..old(self)@
                }));
            }
            Some((l, rbuf))
        } else {
            proof {
                assert(final(self)@ =~= old(self)@);
            }
            None
        }
    }
}

} // verus!
