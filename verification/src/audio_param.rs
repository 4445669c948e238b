//! A smoothed scalar parameter with optional audio-rate modulation.
//!
//! A parameter moves from its previous value to its target along a linear
//! ramp of `PARAMETER_SMOOTHING_SAMPLES` samples, indexed by the quantum in
//! which the target was set. Each quantum the owning module's worker calls
//! `process`, which refreshes the ramp and combines it with the modulation
//! input's read buffer; the module's DSP then reads the combined buffer.
//!
//! A disconnected modulation input leaves the ramp untouched for both
//! kinds: silence is the additive identity, and rather than multiply by
//! the silent sentinel — which would zero the parameter — a disconnected
//! multiplicative modulation reads as the multiplicative identity.
use vstd::prelude::*;
use crate::{PARAMETER_SMOOTHING_SAMPLES, QUANTUM_SIZE};
use crate::audio_buffer::{buffer_wf, zero_buffer, AudioBuffer};
use crate::audio_input::AudioInput;
use crate::sample::{
    clamp_time, in_range, lemma_ramp_in_range, mul_unit, ramp_sample, ramp_value, sat, sat_add,
    sat_mul_unit,
};

verus! {

/// How a modulation signal combines with the smoothed scalar.
#[derive(Clone, Copy, PartialEq, Eq, Structural)]
pub enum AudioParamModulationType {
    Multiplicative,
    Additive,
}

/// Mathematical image of an [`AudioParam`].
#[verifier::ext_equal]
pub struct AudioParamView {
    pub modulation_type: AudioParamModulationType,
    pub target: i64,
    pub previous: i64,
    pub buffer: Seq<i64>,
    pub modulated_buffer: Seq<i64>,
    pub target_set_at_quantum: u64,
    pub modulation: AudioInput,
}

impl AudioParamView {
    pub open spec fn wf(self) -> bool {
        &&& buffer_wf(self.buffer)
        &&& buffer_wf(self.modulated_buffer)
        &&& in_range(self.target as int)
        &&& in_range(self.previous as int)
    }
}

/// Samples elapsed at sample `k` of quantum `quantum` since the target was
/// set at the start of quantum `set_at`; negative when the target quantum
/// has not begun.
pub open spec fn elapsed_samples(quantum: u64, set_at: u64, k: int) -> int {
    (quantum - set_at) * (QUANTUM_SIZE as int) + k
}

/// The ramp buffer `process` computes in the given quantum.
pub open spec fn ramp_of(previous: i64, target: i64, set_at: u64, quantum: u64) -> Seq<i64> {
    Seq::new(
        QUANTUM_SIZE as nat,
        |k: int| ramp_value(previous as int, target as int, elapsed_samples(quantum, set_at, k)) as i64,
    )
}

/// The combined buffer: the ramp joined with a modulation read buffer, or
/// the ramp alone when the modulation is disconnected.
pub open spec fn combined_of(
    ramp: Seq<i64>,
    kind: AudioParamModulationType,
    modulation: Option<Seq<i64>>,
) -> Seq<i64> {
    match modulation {
        None => ramp,
        Some(m) => match kind {
            AudioParamModulationType::Additive => Seq::new(
                QUANTUM_SIZE as nat,
                |k: int| sat(ramp[k] + m[k]) as i64,
            ),
            AudioParamModulationType::Multiplicative => Seq::new(
                QUANTUM_SIZE as nat,
                |k: int| mul_unit(ramp[k] as int, m[k] as int) as i64,
            ),
        },
    }
}

/// The image of a parameter after `process` ran in `quantum` with the given
/// resolved modulation buffer.
pub open spec fn param_processed(
    p: AudioParamView,
    quantum: u64,
    modulation: Option<Seq<i64>>,
) -> AudioParamView {
    let ramp = ramp_of(p.previous, p.target, p.target_set_at_quantum, quantum);
    AudioParamView {
        buffer: ramp,
        modulated_buffer: combined_of(ramp, p.modulation_type, modulation),
        ..p
    }
}

/// A smoothed scalar with optional additive or multiplicative modulation.
pub struct AudioParam {
    pub modulation_type: AudioParamModulationType,
    pub target: i64,
    pub previous: i64,
    pub buffer: AudioBuffer,
    pub modulated_buffer: AudioBuffer,
    pub target_set_at_quantum: u64,
    pub modulation: AudioInput,
}

impl View for AudioParam {
    type V = AudioParamView;

    open spec fn view(&self) -> AudioParamView {
        AudioParamView {
            modulation_type: self.modulation_type,
            target: self.target,
            previous: self.previous,
            buffer: self.buffer@,
            modulated_buffer: self.modulated_buffer@,
            target_set_at_quantum: self.target_set_at_quantum,
            modulation: self.modulation,
        }
    }
}

impl AudioParam {
    pub open spec fn wf(&self) -> bool {
        self@.wf()
    }

    /// A fresh parameter: target and previous value zero, disconnected
    /// modulation of the given kind.
    pub fn new(modulation_type: AudioParamModulationType) -> (r: AudioParam)
        ensures
            r.wf(),
            r@.modulation_type == modulation_type,
            r@.target == 0,
            r@.previous == 0,
            r@.target_set_at_quantum == 0,
            r@.buffer == zero_buffer(),
            r@.modulated_buffer == zero_buffer(),
            r@.modulation.source is None,
    {
        AudioParam {
            modulation_type,
            target: 0,
            previous: 0,
            buffer: AudioBuffer::new(),
            modulated_buffer: AudioBuffer::new(),
            target_set_at_quantum: 0,
            modulation: AudioInput::new(),
        }
    }

    /// Enqueue a new target, sample-accurately: the ramp restarts at the
    /// given quantum from the last sample of the current ramp, so repeated
    /// changes stay continuous.
    pub fn set_target(&mut self, target: i64, target_set_at_quantum: u64)
        requires
            old(self).wf(),
            in_range(target as int),
        ensures
            final(self).wf(),
            final(self)@ == (AudioParamView {
                target: target,
                target_set_at_quantum: target_set_at_quantum,
                previous: old(self)@.buffer[QUANTUM_SIZE - 1],
                ..old(self)@
            }),
    {
        self.target = target;
        self.target_set_at_quantum = target_set_at_quantum;
        self.previous = self.buffer.at(QUANTUM_SIZE - 1);
        proof {
            assert(final(self)@ =~= (AudioParamView {
                target: target,
                target_set_at_quantum: target_set_at_quantum,
                previous: old(self)@.buffer[QUANTUM_SIZE - 1],
                ..old(self)@
            }));
        }
    }

    /// Refresh the ramp for `quantum` and combine it with the resolved
    /// modulation read buffer; `None` stands for a disconnected modulation
    /// and leaves the ramp as the combined value.
    pub fn process(&mut self, quantum: u64, modulation: Option<&AudioBuffer>)
        requires
            old(self).wf(),
            modulation is Some ==> modulation.unwrap().wf(),
        ensures
            final(self).wf(),
            final(self)@ == param_processed(
                old(self)@,
                quantum,
                match modulation {
                    Some(b) => Some(b@),
                    None => None,
                },
            ),
    {
        let ghost old_view = self@;
        // Refresh the ramp.
        let mut k: usize = 0;
        while k < QUANTUM_SIZE
            invariant
                k <= QUANTUM_SIZE,
                self@.wf(),
                self@ == (AudioParamView { buffer: self@.buffer, ..old_view }),
                self@.buffer.len() == QUANTUM_SIZE,
                forall|j: int| 0 <= j < k ==> self@.buffer[j]
                    == ramp_of(old_view.previous, old_view.target,
                        old_view.target_set_at_quantum, quantum)[j],
            decreases QUANTUM_SIZE - k,
        {
            let e: i64 = if quantum < self.target_set_at_quantum {
                // The target lies in a later quantum: the ramp has not begun.
                -1
            } else {
                let dq: u64 = quantum - self.target_set_at_quantum;
                if dq >= 4 {
                    PARAMETER_SMOOTHING_SAMPLES
                } else {
                    (dq as i64) * (QUANTUM_SIZE as i64) + (k as i64)
                }
            };
            proof {
                let real_e = elapsed_samples(quantum, old_view.target_set_at_quantum, k as int);
                assert(clamp_time(e as int) == clamp_time(real_e));
            }
            let v = ramp_sample(self.previous, self.target, e);
            self.buffer.set(k, v);
            k = k + 1;
        }
        proof {
            assert(self@.buffer =~= ramp_of(old_view.previous, old_view.target,
                old_view.target_set_at_quantum, quantum));
        }
        // Combine with the modulation.
        let ghost ramp = self@.buffer;
        match modulation {
            None => {
                let mut k: usize = 0;
                while k < QUANTUM_SIZE
                    invariant
                        k <= QUANTUM_SIZE,
                        self@.wf(),
                        self@ == (AudioParamView {
                            buffer: ramp,
                            modulated_buffer: self@.modulated_buffer,
                            ..old_view
                        }),
                        forall|j: int| 0 <= j < k ==> self@.modulated_buffer[j] == ramp[j],
                    decreases QUANTUM_SIZE - k,
                {
                    let v = self.buffer.at(k);
                    self.modulated_buffer.set(k, v);
                    k = k + 1;
                }
                proof {
                    assert(self@.modulated_buffer =~= ramp);
                }
            },
            Some(m) => {
                let additive = match self.modulation_type {
                    AudioParamModulationType::Additive => true,
                    AudioParamModulationType::Multiplicative => false,
                };
                let ghost combined = combined_of(ramp, old_view.modulation_type, Some(m@));
                let mut k: usize = 0;
                while k < QUANTUM_SIZE
                    invariant
                        k <= QUANTUM_SIZE,
                        self@.wf(),
                        m.wf(),
                        additive == (old_view.modulation_type is Additive),
                        combined == combined_of(ramp, old_view.modulation_type, Some(m@)),
                        self@ == (AudioParamView {
                            buffer: ramp,
                            modulated_buffer: self@.modulated_buffer,
                            ..old_view
                        }),
                        forall|j: int| 0 <= j < k ==> self@.modulated_buffer[j] == combined[j],
                    decreases QUANTUM_SIZE - k,
                {
                    let r = self.buffer.at(k);
                    let mv = m.at(k);
                    let v = if additive {
                        sat_add(r, mv)
                    } else {
                        sat_mul_unit(r, mv)
                    };
                    self.modulated_buffer.set(k, v);
                    k = k + 1;
                }
                proof {
                    assert(self@.modulated_buffer =~= combined);
                }
            },
        }
        proof {
            assert(self@ =~= param_processed(old_view, quantum, match modulation {
                Some(b) => Some(b@),
                None => None,
            }));
        }
    }

    /// Read one sample of the combined (modulated) buffer.
    pub fn at(&self, sample: usize) -> (r: i64)
        requires
            self.wf(),
            sample < QUANTUM_SIZE,
        ensures
            r == self@.modulated_buffer[sample as int],
    {
        self.modulated_buffer.at(sample)
    }
}

/// The parameter smoothing law: after `set_target(v, q0)` with no further
/// target change and a disconnected modulation, sample `k` of any quantum
/// `q` reads exactly
/// `previous + clamp((q - q0)·Q + k) · (v - previous) / PARAMETER_SMOOTHING_SAMPLES`,
/// with the elapsed time clamped to the ramp's length and the quotient
/// truncated toward zero.
pub proof fn lemma_parameter_smoothing_law(p: AudioParamView, quantum: u64, k: int)
    requires
        p.wf(),
        0 <= k < QUANTUM_SIZE,
    ensures
        param_processed(p, quantum, None).modulated_buffer[k] as int == ramp_value(
            p.previous as int,
            p.target as int,
            elapsed_samples(quantum, p.target_set_at_quantum, k),
        ),
        in_range(param_processed(p, quantum, None).modulated_buffer[k] as int),
{
    lemma_ramp_in_range(
        p.previous as int,
        p.target as int,
        elapsed_samples(quantum, p.target_set_at_quantum, k),
    );
}

/// Once a ramp has run its full length, the parameter reads exactly its
/// target, whatever the elapsed time beyond it.
pub proof fn lemma_ramp_reaches_target(previous: i64, target: i64, e: int)
    requires
        in_range(previous as int),
        in_range(target as int),
        e >= PARAMETER_SMOOTHING_SAMPLES as int,
    ensures
        ramp_value(previous as int, target as int, e) == target as int,
{
    let n = PARAMETER_SMOOTHING_SAMPLES as int;
    let d = target - previous;
    assert(clamp_time(e) == n);
    vstd::arithmetic::div_mod::lemma_div_multiples_vanish(d, n);
    if d >= 0 {
        assert((n * d) / n == d);
    } else {
        vstd::arithmetic::div_mod::lemma_div_multiples_vanish(-d, n);
        assert((n * (-d)) / n == -d);
        assert(-(n * d) == n * (-d)) by (nonlinear_arith);
    }
}

} // verus!
