//! Signal-processing modules: the polymorphic processing unit.
//!
//! A module owns its output ports and holds non-owning references to other
//! modules' outputs through its inputs and parameter modulations. The
//! concrete DSP of the richer module menagerie is out of the core's scope;
//! the kinds here are the ones the engine's own behavior is stated over.
//! Each kind's per-quantum effect is a spec function of the module's state
//! and the resolved read buffers alone, which is what makes the engine's
//! scheduling order-independent.
use vstd::prelude::*;
use crate::{QUANTUM_SIZE, SAMPLE_UNIT};
use crate::audio_buffer::{buffer_wf, zero_buffer, AudioBuffer};
use crate::audio_input::AudioInput;
use crate::audio_output::{AudioOutput, AudioOutputView};
use crate::audio_param::{
    param_processed, AudioParam, AudioParamModulationType, AudioParamView,
};
use crate::edge_detector::{edge_of, Edge, EdgeDetector};
use crate::sample::{div_trunc, in_range, mul_unit, sat_mul_unit};

verus! {

pub type ModuleId = u32;

pub type ConnectionId = u32;

pub type OutputId = usize;

pub type InputId = usize;

pub type ParameterId = usize;

/// How many steps a sequencer holds.
pub const SEQUENCER_NUM_STEPS: usize = 32;

/// The oscillator phase lives in `[0, PHASE_MODULUS)`: one cycle.
pub const PHASE_MODULUS: u64 = 0x1_0000_0000;

/// The phase value a sync edge resets to: half a cycle.
pub const PHASE_HALF: u64 = 0x8000_0000;

/// The module kinds the core carries.
#[derive(Clone, Copy, PartialEq, Eq, Structural)]
pub enum ModuleKind {
    AudioOut,
    Gain,
    Oscillator,
    Sequencer,
}

/// An out-of-band notification a module leaves for the control thread.
#[derive(Clone, Copy, PartialEq, Eq, Structural)]
pub enum ModuleEvent {
    SequencerAdvance { position: usize },
}

/// An event paired with the module that emitted it.
#[derive(Clone, Copy, PartialEq, Eq, Structural)]
pub struct ModuleEventWithId {
    pub id: ModuleId,
    pub event: ModuleEvent,
}

/// One step of a sequence: a pitch voltage, and whether this step lets
/// the incoming trigger signal through.
#[derive(Clone, Copy, PartialEq, Eq, Structural)]
pub struct Note {
    pub voltage: i64,
    pub gate: bool,
}

/// An in-band control message delivered to one module.
pub enum ModuleMessage {
    SequencerSetNotes { notes: Vec<Note> },
}

/// Which message variants a module kind handles.
pub open spec fn handles_message(kind: ModuleKind, msg: &ModuleMessage) -> bool {
    match msg {
        ModuleMessage::SequencerSetNotes { .. } => kind == ModuleKind::Sequencer,
    }
}

/// Kind-specific mutable state of an oscillator.
#[derive(Clone, Copy)]
pub struct OscillatorState {
    pub phase: u64,
    pub sync_detector: EdgeDetector,
}

/// Kind-specific mutable state of a sequencer.
pub struct SequencerState {
    pub notes: Vec<Note>,
    pub current_step: usize,
    pub gate_detector: EdgeDetector,
}

/// Kind-specific state.
pub enum ModuleState {
    AudioOut,
    Gain,
    Oscillator(OscillatorState),
    Sequencer(SequencerState),
}

/// Mathematical image of a sequencer's state.
#[verifier::ext_equal]
pub struct SequencerStateView {
    pub notes: Seq<Note>,
    pub current_step: usize,
    pub gate_detector: EdgeDetector,
}

/// Mathematical image of kind-specific state.
#[verifier::ext_equal]
pub enum ModuleStateView {
    AudioOut,
    Gain,
    Oscillator(OscillatorState),
    Sequencer(SequencerStateView),
}

impl View for ModuleState {
    type V = ModuleStateView;

    closed spec fn view(&self) -> ModuleStateView {
        match self {
            ModuleState::AudioOut => ModuleStateView::AudioOut,
            ModuleState::Gain => ModuleStateView::Gain,
            ModuleState::Oscillator(o) => ModuleStateView::Oscillator(*o),
            ModuleState::Sequencer(q) => ModuleStateView::Sequencer(SequencerStateView {
                notes: q.notes@,
                current_step: q.current_step,
                gate_detector: q.gate_detector,
            }),
        }
    }
}

/// How many inputs each kind owns.
pub open spec fn input_count(kind: ModuleKind) -> int {
    match kind {
        ModuleKind::AudioOut => 2,
        ModuleKind::Gain => 1,
        ModuleKind::Oscillator => 1,
        ModuleKind::Sequencer => 1,
    }
}

/// How many outputs each kind owns.
pub open spec fn output_count(kind: ModuleKind) -> int {
    match kind {
        ModuleKind::AudioOut => 2,
        ModuleKind::Gain => 1,
        ModuleKind::Oscillator => 2,
        ModuleKind::Sequencer => 2,
    }
}

/// How many parameters each kind owns.
pub open spec fn param_count(kind: ModuleKind) -> int {
    match kind {
        ModuleKind::AudioOut => 1,
        ModuleKind::Gain => 1,
        ModuleKind::Oscillator => 3,
        ModuleKind::Sequencer => 1,
    }
}

/// The state shape each kind requires.
pub open spec fn state_wf(kind: ModuleKind, st: ModuleStateView) -> bool {
    match kind {
        ModuleKind::AudioOut => st == ModuleStateView::AudioOut,
        ModuleKind::Gain => st == ModuleStateView::Gain,
        ModuleKind::Oscillator => match st {
            ModuleStateView::Oscillator(o) => o.phase < PHASE_MODULUS,
            _ => false,
        },
        ModuleKind::Sequencer => match st {
            ModuleStateView::Sequencer(q) => {
                &&& q.notes.len() == SEQUENCER_NUM_STEPS
                &&& q.current_step < SEQUENCER_NUM_STEPS
                &&& forall|i: int| 0 <= i < q.notes.len()
                    ==> in_range(#[trigger] q.notes[i].voltage as int)
            },
            _ => false,
        },
    }
}

/// Mathematical image of a [`Module`].
#[verifier::ext_equal]
pub struct ModuleView {
    pub id: ModuleId,
    pub kind: ModuleKind,
    pub inputs: Seq<AudioInput>,
    pub outputs: Seq<AudioOutputView>,
    pub params: Seq<AudioParamView>,
    pub events: Seq<ModuleEvent>,
    pub state: ModuleStateView,
}

impl ModuleView {
    pub open spec fn wf(self) -> bool {
        &&& self.inputs.len() == input_count(self.kind)
        &&& self.outputs.len() == output_count(self.kind)
        &&& self.params.len() == param_count(self.kind)
        &&& forall|i: int| 0 <= i < self.outputs.len() ==> (#[trigger] self.outputs[i]).wf()
        &&& forall|i: int| 0 <= i < self.params.len() ==> (#[trigger] self.params[i]).wf()
        &&& state_wf(self.kind, self.state)
    }
}

/// A signal-processing unit: owned output ports, non-owning inputs,
/// smoothed parameters, pending events, and kind-specific state.
pub struct Module {
    pub id: ModuleId,
    pub kind: ModuleKind,
    pub inputs: Vec<AudioInput>,
    pub outputs: Vec<AudioOutput>,
    pub params: Vec<AudioParam>,
    pub events: Vec<ModuleEvent>,
    pub state: ModuleState,
}

impl View for Module {
    type V = ModuleView;

    open spec fn view(&self) -> ModuleView {
        ModuleView {
            id: self.id,
            kind: self.kind,
            inputs: self.inputs@,
            outputs: Seq::new(self.outputs@.len(), |i: int| self.outputs@[i]@),
            params: Seq::new(self.params@.len(), |i: int| self.params@[i]@),
            events: self.events@,
            state: self.state@,
        }
    }
}

// ------------------------------------------------------------------
// Per-kind quantum behavior, as spec functions over resolved buffers.
// ------------------------------------------------------------------

/// The view of a vector of resolved input buffers.
pub open spec fn bufs_view(v: Seq<AudioBuffer>) -> Seq<Seq<i64>> {
    Seq::new(v.len(), |i: int| v[i]@)
}

/// The view of a vector of resolved parameter modulation buffers.
pub open spec fn mods_view(v: Seq<Option<AudioBuffer>>) -> Seq<Option<Seq<i64>>> {
    Seq::new(
        v.len(),
        |i: int| match v[i] {
            Some(b) => Some(b@),
            None => None,
        },
    )
}

/// Pointwise fixed-point product of an input buffer and a parameter's
/// combined buffer: what a gain stage writes.
pub open spec fn scaled_buffer(input: Seq<i64>, scale: Seq<i64>) -> Seq<i64> {
    Seq::new(QUANTUM_SIZE as nat, |s: int| mul_unit(input[s] as int, scale[s] as int) as i64)
}

/// The module with its params refreshed for `quantum` against the given
/// resolved modulation buffers.
pub open spec fn with_params_processed(
    m: ModuleView,
    quantum: u64,
    mods: Seq<Option<Seq<i64>>>,
) -> ModuleView {
    ModuleView {
        params: Seq::new(
            m.params.len(),
            |p: int| param_processed(m.params[p], quantum, mods[p]),
        ),
        ..m
    }
}

/// The oscillator phase the waveforms read at one sample: a rising sync
/// edge snaps it to half a cycle.
pub open spec fn osc_phase_at(st: OscillatorState, sync_s: i64) -> u64 {
    if edge_of(st.sync_detector.previous_sample, sync_s, st.sync_detector.threshold)
        == Edge::Rose {
        PHASE_HALF
    } else {
        st.phase
    }
}

/// The per-sample phase increment an oscillator derives from its frequency
/// parameter: the parameter value clamped into one cycle.
pub open spec fn osc_increment(cv_s: i64) -> u64 {
    if cv_s < 0 {
        0u64
    } else if cv_s >= PHASE_MODULUS as i64 {
        (PHASE_MODULUS - 1) as u64
    } else {
        cv_s as u64
    }
}

/// The oscillator state after one sample.
pub open spec fn osc_next(st: OscillatorState, sync_s: i64, cv_s: i64) -> OscillatorState {
    OscillatorState {
        phase: ((osc_phase_at(st, sync_s) + osc_increment(cv_s)) % (PHASE_MODULUS as int)) as u64,
        sync_detector: EdgeDetector {
            threshold: st.sync_detector.threshold,
            previous_sample: sync_s,
        },
    }
}

/// The raw sawtooth at a phase: a line from minus one up to one over the
/// cycle, in fixed point.
pub open spec fn osc_saw_raw(phase: u64) -> int {
    div_trunc(phase * 2 * (SAMPLE_UNIT as int), PHASE_MODULUS as int) - SAMPLE_UNIT
}

/// The raw square at a phase: one while the phase lies within the pulse
/// width, minus one after.
pub open spec fn osc_sqr_raw(phase: u64, pw_s: i64) -> int {
    if phase > pw_phase(pw_s) {
        -(SAMPLE_UNIT as int)
    } else {
        SAMPLE_UNIT as int
    }
}

/// The pulse-width parameter, clamped to one cycle's worth of phase.
pub open spec fn pw_phase(pw_s: i64) -> u64 {
    if pw_s < 0 {
        0u64
    } else if pw_s > SAMPLE_UNIT {
        (SAMPLE_UNIT * SAMPLE_UNIT) as u64
    } else {
        (pw_s * SAMPLE_UNIT) as u64
    }
}

/// The oscillator's state and its first `n` saw and square samples.
pub open spec fn osc_run(
    st: OscillatorState,
    sync: Seq<i64>,
    cv: Seq<i64>,
    pw: Seq<i64>,
    level: Seq<i64>,
    n: int,
) -> (OscillatorState, Seq<i64>, Seq<i64>)
    decreases n,
{
    if n <= 0 {
        (st, Seq::empty(), Seq::empty())
    } else {
        let prev = osc_run(st, sync, cv, pw, level, n - 1);
        let s = n - 1;
        let p0 = osc_phase_at(prev.0, sync[s]);
        (
            osc_next(prev.0, sync[s], cv[s]),
            prev.1.push(mul_unit(osc_saw_raw(p0), level[s] as int) as i64),
            prev.2.push(mul_unit(osc_sqr_raw(p0, pw[s]), level[s] as int) as i64),
        )
    }
}

/// How many steps a sequencer cycles through for a given parameter value.
pub open spec fn seq_len_of(v: i64) -> int {
    let l = div_trunc(v as int, SAMPLE_UNIT as int);
    if l < 1 {
        1
    } else if l > SEQUENCER_NUM_STEPS as int {
        SEQUENCER_NUM_STEPS as int
    } else {
        l
    }
}

/// The sequencer state after one sample.
pub open spec fn seq_next(st: SequencerStateView, gate_s: i64, len_s: i64) -> SequencerStateView {
    let det = EdgeDetector {
        threshold: st.gate_detector.threshold,
        previous_sample: gate_s,
    };
    if edge_of(st.gate_detector.previous_sample, gate_s, st.gate_detector.threshold)
        == Edge::Rose {
        SequencerStateView {
            notes: st.notes,
            current_step: if st.current_step + 1 >= seq_len_of(len_s) {
                0usize
            } else {
                (st.current_step + 1) as usize
            },
            gate_detector: det,
        }
    } else {
        SequencerStateView { notes: st.notes, current_step: st.current_step, gate_detector: det }
    }
}

/// The sequencer's state, cv and gate outputs, and emitted events over its
/// first `n` samples.
pub open spec fn seq_run(
    st: SequencerStateView,
    gate: Seq<i64>,
    lenp: Seq<i64>,
    n: int,
) -> (SequencerStateView, Seq<i64>, Seq<i64>, Seq<ModuleEvent>)
    decreases n,
{
    if n <= 0 {
        (st, Seq::empty(), Seq::empty(), Seq::empty())
    } else {
        let prev = seq_run(st, gate, lenp, n - 1);
        let s = n - 1;
        let cur = prev.0;
        let note = cur.notes[cur.current_step as int];
        let next = seq_next(cur, gate[s], lenp[s]);
        let rose = edge_of(
            cur.gate_detector.previous_sample,
            gate[s],
            cur.gate_detector.threshold,
        ) == Edge::Rose;
        (
            next,
            prev.1.push(note.voltage),
            prev.2.push(if note.gate { gate[s] } else { 0i64 }),
            if rose {
                prev.3.push(ModuleEvent::SequencerAdvance { position: next.current_step })
            } else {
                prev.3
            },
        )
    }
}

/// The module after its kind's DSP ran for one quantum, given its resolved
/// input read buffers. Parameters are assumed already refreshed.
pub open spec fn kind_stepped(m: ModuleView, ins: Seq<Seq<i64>>) -> ModuleView {
    match m.kind {
        ModuleKind::AudioOut => {
            let l = ins[0];
            let r = if m.inputs[1].source is None {
                ins[0]
            } else {
                ins[1]
            };
            let vol = m.params[0].modulated_buffer;
            ModuleView {
                outputs: m.outputs
                    .update(0, m.outputs[0].with_write(scaled_buffer(l, vol)))
                    .update(1, m.outputs[1].with_write(scaled_buffer(r, vol))),
                ..m
            }
        },
        ModuleKind::Gain => ModuleView {
            outputs: m.outputs.update(
                0,
                m.outputs[0].with_write(scaled_buffer(ins[0], m.params[0].modulated_buffer)),
            ),
            ..m
        },
        ModuleKind::Oscillator => match m.state {
            ModuleStateView::Oscillator(o) => {
                let r = osc_run(
                    o,
                    ins[0],
                    m.params[0].modulated_buffer,
                    m.params[1].modulated_buffer,
                    m.params[2].modulated_buffer,
                    QUANTUM_SIZE as int,
                );
                ModuleView {
                    outputs: m.outputs
                        .update(0, m.outputs[0].with_write(r.1))
                        .update(1, m.outputs[1].with_write(r.2)),
                    state: ModuleStateView::Oscillator(r.0),
                    ..m
                }
            },
            _ => m,
        },
        ModuleKind::Sequencer => match m.state {
            ModuleStateView::Sequencer(q) => {
                let r = seq_run(q, ins[0], m.params[0].modulated_buffer, QUANTUM_SIZE as int);
                ModuleView {
                    outputs: m.outputs
                        .update(0, m.outputs[0].with_write(r.1))
                        .update(1, m.outputs[1].with_write(r.2)),
                    state: ModuleStateView::Sequencer(r.0),
                    events: m.events + r.3,
                    ..m
                }
            },
            _ => m,
        },
    }
}

/// The module after one full quantum: parameters refreshed against the
/// resolved modulation buffers, then the kind's DSP run against the
/// resolved input buffers.
pub open spec fn module_processed(
    m: ModuleView,
    quantum: u64,
    ins: Seq<Seq<i64>>,
    mods: Seq<Option<Seq<i64>>>,
) -> ModuleView {
    kind_stepped(with_params_processed(m, quantum, mods), ins)
}

/// The module with every output's buffer pair swapped: the leader's first
/// act each quantum.
pub open spec fn swap_module(m: ModuleView) -> ModuleView {
    ModuleView { outputs: Seq::new(m.outputs.len(), |i: int| m.outputs[i].swapped()), ..m }
}

/// A fresh output port.
pub open spec fn fresh_output() -> AudioOutputView {
    AudioOutputView { bufs: seq![zero_buffer(), zero_buffer()], current: 0 }
}

/// A fresh parameter.
pub open spec fn fresh_param(kind: AudioParamModulationType) -> AudioParamView {
    AudioParamView {
        modulation_type: kind,
        target: 0,
        previous: 0,
        buffer: zero_buffer(),
        modulated_buffer: zero_buffer(),
        target_set_at_quantum: 0,
        modulation: AudioInput { source: None },
    }
}

/// The kind-specific state a fresh module starts in.
pub open spec fn fresh_state(kind: ModuleKind) -> ModuleStateView {
    match kind {
        ModuleKind::AudioOut => ModuleStateView::AudioOut,
        ModuleKind::Gain => ModuleStateView::Gain,
        ModuleKind::Oscillator => ModuleStateView::Oscillator(OscillatorState {
            phase: 0,
            sync_detector: EdgeDetector { threshold: 0, previous_sample: 0 },
        }),
        ModuleKind::Sequencer => ModuleStateView::Sequencer(SequencerStateView {
            notes: Seq::new(SEQUENCER_NUM_STEPS as nat, |i: int| Note { voltage: 0, gate: true }),
            current_step: 0,
            gate_detector: EdgeDetector {
                threshold: (SAMPLE_UNIT / 2) as i64,
                previous_sample: 0,
            },
        }),
    }
}

/// A freshly created module of the given kind.
pub open spec fn fresh_module(kind: ModuleKind, id: ModuleId) -> ModuleView {
    ModuleView {
        id: id,
        kind: kind,
        inputs: Seq::new(input_count(kind) as nat, |i: int| AudioInput { source: None }),
        outputs: Seq::new(output_count(kind) as nat, |i: int| fresh_output()),
        params: Seq::new(
            param_count(kind) as nat,
            |i: int| fresh_param(AudioParamModulationType::Additive),
        ),
        events: Seq::empty(),
        state: fresh_state(kind),
    }
}

/// The saw and square sequences of `osc_run` are as long as the run.
pub proof fn lemma_osc_run_len(
    st: OscillatorState,
    sync: Seq<i64>,
    cv: Seq<i64>,
    pw: Seq<i64>,
    level: Seq<i64>,
    n: int,
)
    requires
        n >= 0,
    ensures
        osc_run(st, sync, cv, pw, level, n).1.len() == n,
        osc_run(st, sync, cv, pw, level, n).2.len() == n,
    decreases n,
{
    if n > 0 {
        lemma_osc_run_len(st, sync, cv, pw, level, n - 1);
    }
}

/// The cv and gate sequences of `seq_run` are as long as the run.
pub proof fn lemma_seq_run_len(st: SequencerStateView, gate: Seq<i64>, lenp: Seq<i64>, n: int)
    requires
        n >= 0,
    ensures
        seq_run(st, gate, lenp, n).1.len() == n,
        seq_run(st, gate, lenp, n).2.len() == n,
    decreases n,
{
    if n > 0 {
        lemma_seq_run_len(st, gate, lenp, n - 1);
    }
}

fn make_inputs(n: usize) -> (r: Vec<AudioInput>)
    ensures
        r@.len() == n,
        forall|i: int| 0 <= i < n ==> (#[trigger] r@[i]) == (AudioInput { source: None }),
{
    let mut v: Vec<AudioInput> = Vec::new();
    let mut i: usize = 0;
    while i < n
        invariant
            i <= n,
            v@.len() == i,
            forall|j: int| 0 <= j < i ==> (#[trigger] v@[j]) == (AudioInput { source: None }),
        decreases n - i,
    {
        v.push(AudioInput::new());
        i = i + 1;
    }
    v
}

fn make_outputs(n: usize) -> (r: Vec<AudioOutput>)
    ensures
        r@.len() == n,
        forall|i: int| 0 <= i < n ==> (#[trigger] r@[i]@) == fresh_output(),
{
    let mut v: Vec<AudioOutput> = Vec::new();
    let mut i: usize = 0;
    while i < n
        invariant
            i <= n,
            v@.len() == i,
            forall|j: int| 0 <= j < i ==> (#[trigger] v@[j]@) == fresh_output(),
        decreases n - i,
    {
        let o = AudioOutput::new();
        proof {
            assert(o@ =~= fresh_output());
        }
        v.push(o);
        i = i + 1;
    }
    v
}

fn make_params(n: usize) -> (r: Vec<AudioParam>)
    ensures
        r@.len() == n,
        forall|i: int| 0 <= i < n
            ==> (#[trigger] r@[i]@) == fresh_param(AudioParamModulationType::Additive),
{
    let mut v: Vec<AudioParam> = Vec::new();
    let mut i: usize = 0;
    while i < n
        invariant
            i <= n,
            v@.len() == i,
            forall|j: int| 0 <= j < i
                ==> (#[trigger] v@[j]@) == fresh_param(AudioParamModulationType::Additive),
        decreases n - i,
    {
        let p = AudioParam::new(AudioParamModulationType::Additive);
        proof {
            assert(p@ =~= fresh_param(AudioParamModulationType::Additive));
        }
        v.push(p);
        i = i + 1;
    }
    v
}

/// Pointwise fixed-point product of an input buffer with a parameter's
/// combined buffer.
fn scale_buffer(input: &AudioBuffer, param: &AudioParam) -> (r: AudioBuffer)
    requires
        input.wf(),
        param.wf(),
    ensures
        r.wf(),
        r@ == scaled_buffer(input@, param@.modulated_buffer),
{
    let mut out = AudioBuffer::new();
    let mut s: usize = 0;
    while s < QUANTUM_SIZE
        invariant
            s <= QUANTUM_SIZE,
            out.wf(),
            input.wf(),
            param.wf(),
            forall|j: int| 0 <= j < s
                ==> out@[j] == scaled_buffer(input@, param@.modulated_buffer)[j],
        decreases QUANTUM_SIZE - s,
    {
        let v = sat_mul_unit(input.at(s), param.at(s));
        out.set(s, v);
        s = s + 1;
    }
    proof {
        assert(out@ =~= scaled_buffer(input@, param@.modulated_buffer));
    }
    out
}

impl Module {
    pub open spec fn wf(&self) -> bool {
        self@.wf()
    }

    /// Create a fresh module of the given kind, carrying the given id.
    pub fn new(kind: ModuleKind, id: ModuleId) -> (r: Module)
        ensures
            r.wf(),
            r@ == fresh_module(kind, id),
    {
        let n_in: usize = match kind {
            ModuleKind::AudioOut => 2,
            ModuleKind::Gain => 1,
            ModuleKind::Oscillator => 1,
            ModuleKind::Sequencer => 1,
        };
        let n_out: usize = match kind {
            ModuleKind::AudioOut => 2,
            ModuleKind::Gain => 1,
            ModuleKind::Oscillator => 2,
            ModuleKind::Sequencer => 2,
        };
        let n_par: usize = match kind {
            ModuleKind::AudioOut => 1,
            ModuleKind::Gain => 1,
            ModuleKind::Oscillator => 3,
            ModuleKind::Sequencer => 1,
        };
        let state: ModuleState = match kind {
            ModuleKind::AudioOut => ModuleState::AudioOut,
            ModuleKind::Gain => ModuleState::Gain,
            ModuleKind::Oscillator => ModuleState::Oscillator(OscillatorState {
                phase: 0,
                sync_detector: EdgeDetector::new(0),
            }),
            ModuleKind::Sequencer => {
                let mut notes: Vec<Note> = Vec::new();
                let mut i: usize = 0;
                while i < SEQUENCER_NUM_STEPS
                    invariant
                        i <= SEQUENCER_NUM_STEPS,
                        notes@.len() == i,
                        forall|j: int| 0 <= j < i
                            ==> (#[trigger] notes@[j]) == (Note { voltage: 0, gate: true }),
                    decreases SEQUENCER_NUM_STEPS - i,
                {
                    notes.push(Note { voltage: 0, gate: true });
                    i = i + 1;
                }
                ModuleState::Sequencer(SequencerState {
                    notes,
                    current_step: 0,
                    gate_detector: EdgeDetector::new_default(),
                })
            },
        };
        let r = Module {
            id,
            kind,
            inputs: make_inputs(n_in),
            outputs: make_outputs(n_out),
            params: make_params(n_par),
            events: Vec::new(),
            state,
        };
        proof {
            assert(r@.inputs =~= fresh_module(kind, id).inputs);
            assert(r@.outputs =~= fresh_module(kind, id).outputs);
            assert(r@.params =~= fresh_module(kind, id).params);
            assert(r@.state =~= fresh_module(kind, id).state);
            assert(r@ =~= fresh_module(kind, id));
        }
        r
    }

    /// Swap every owned output's buffer pair; the leader calls this once
    /// per quantum before any module processes.
    pub fn swap_output_buffers(&mut self)
        requires
            old(self).wf(),
        ensures
            final(self).wf(),
            final(self)@ == swap_module(old(self)@),
    {
        let n = self.outputs.len();
        let mut o: usize = 0;
        while o < n
            invariant
                o <= n,
                self.outputs@.len() == n,
                old(self).outputs@.len() == n,
                self.id == old(self).id,
                self.kind == old(self).kind,
                self.inputs == old(self).inputs,
                self.params == old(self).params,
                self.events == old(self).events,
                self.state == old(self).state,
                old(self).wf(),
                forall|j: int| o <= j < n
                    ==> (#[trigger] self.outputs@[j]) == old(self).outputs@[j],
                forall|j: int| 0 <= j < o
                    ==> (#[trigger] self.outputs@[j]@) == old(self)@.outputs[j].swapped(),
            decreases n - o,
        {
            let ghost prev = self.outputs@;
            let mut out = self.outputs.remove(o);
            proof {
                assert(old(self)@.outputs[o as int].wf());
            }
            out.swap();
            self.outputs.insert(o, out);
            proof {
                assert(self.outputs@ =~= prev.update(o as int, self.outputs@[o as int]));
            }
            o = o + 1;
        }
        proof {
            assert(final(self)@.outputs =~= swap_module(old(self)@).outputs);
            assert(final(self)@ =~= swap_module(old(self)@));
        }
    }

    /// Replace one output's write buffer wholesale.
    fn set_output_write(&mut self, o: usize, buf: AudioBuffer)
        requires
            o < old(self).outputs@.len(),
            old(self)@.outputs[o as int].wf(),
            buf.wf(),
        ensures
            final(self).outputs@.len() == old(self).outputs@.len(),
            final(self)@ == (ModuleView {
                outputs: old(self)@.outputs.update(
                    o as int,
                    old(self)@.outputs[o as int].with_write(buf@),
                ),
                ..old(self)@
            }),
    {
        let mut out = self.outputs.remove(o);
        out.set_write(buf);
        self.outputs.insert(o, out);
        proof {
            assert(self.outputs@ =~= old(self).outputs@.update(o as int, self.outputs@[o as int]));
            assert(final(self)@.outputs =~= old(self)@.outputs.update(
                o as int,
                old(self)@.outputs[o as int].with_write(buf@),
            ));
            assert(final(self)@ =~= (ModuleView {
                outputs: old(self)@.outputs.update(
                    o as int,
                    old(self)@.outputs[o as int].with_write(buf@),
                ),
                ..old(self)@
            }));
        }
    }

    /// Take the oldest pending event, if any.
    pub fn pop_event(&mut self) -> (r: Option<ModuleEvent>)
        requires
            old(self).wf(),
        ensures
            final(self).wf(),
            old(self)@.events.len() == 0 ==> r is None && final(self)@ == old(self)@,
            old(self)@.events.len() > 0 ==> r == Some(old(self)@.events[0])
                && final(self)@ == (ModuleView {
                    events: old(self)@.events.remove(0),
                    ..old(self)@
                }),
    {
        if self.events.len() > 0 {
            let e = self.events.remove(0);
            proof {
                assert(final(self)@ =~= (ModuleView {
                    events: old(self)@.events.remove(0),
                    ..old(self)@
                }));
            }
            Some(e)
        } else {
            proof {
                assert(final(self)@ =~= old(self)@);
            }
            None
        }
    }

    /// Deliver an in-band control message. The graph builder must only
    /// address messages to a module kind that handles them; the engine
    /// holds the write lock while this runs.
    pub fn on_message(&mut self, message: ModuleMessage)
        requires
            old(self).wf(),
            handles_message(old(self)@.kind, &message),
            message_wf(&message),
        ensures
            final(self).wf(),
            final(self)@ == module_with_message(old(self)@, &message),
    {
        match message {
            ModuleMessage::SequencerSetNotes { notes } => {
                let mut st = ModuleState::Gain;
                core::mem::swap(&mut st, &mut self.state);
                let mut qst = match st {
                    ModuleState::Sequencer(q) => q,
                    _ => {
                        proof {
                            assert(false);
                        }
                        vstd::pervasive::unreached()
                    },
                };
                let ghost old_notes = qst.notes@;
                let ghost old_step = qst.current_step;
                let ghost old_det = qst.gate_detector;
                let n = notes.len();
                let mut i: usize = 0;
                while i < n
                    invariant
                        i <= n,
                        n == notes@.len(),
                        n <= SEQUENCER_NUM_STEPS,
                        qst.notes@.len() == SEQUENCER_NUM_STEPS,
                        qst.current_step == old_step,
                        qst.gate_detector == old_det,
                        forall|j: int| 0 <= j < i ==> (#[trigger] qst.notes@[j]) == notes@[j],
                        forall|j: int| i <= j < SEQUENCER_NUM_STEPS
                            ==> (#[trigger] qst.notes@[j]) == old_notes[j],
                    decreases n - i,
                {
                    let note = notes[i];
                    qst.notes.set(i, note);
                    i = i + 1;
                }
                self.state = ModuleState::Sequencer(qst);
                proof {
                    assert(final(self)@.state =~~= module_with_message(
                        old(self)@,
                        &ModuleMessage::SequencerSetNotes { notes },
                    ).state);
                    assert(final(self)@ =~~= module_with_message(
                        old(self)@,
                        &ModuleMessage::SequencerSetNotes { notes },
                    ));
                }
            },
        }
    }
}

/// The view of a bare sequencer state.
pub open spec fn sequencer_view(q: &SequencerState) -> SequencerStateView {
    SequencerStateView {
        notes: q.notes@,
        current_step: q.current_step,
        gate_detector: q.gate_detector,
    }
}

impl Module {
    /// Refresh every parameter against its resolved modulation buffer, then
    /// run the kind's DSP against the resolved input read buffers. The
    /// caller resolves the handles; because every buffer read here was
    /// fixed at the quantum's buffer swap, the result depends only on the
    /// module itself and those buffers.
    pub fn process(
        &mut self,
        quantum: u64,
        inputs: &Vec<AudioBuffer>,
        mods: &Vec<Option<AudioBuffer>>,
    )
        requires
            old(self).wf(),
            inputs@.len() == old(self)@.inputs.len(),
            forall|i: int| 0 <= i < inputs@.len() ==> (#[trigger] inputs@[i]).wf(),
            mods@.len() == old(self)@.params.len(),
            forall|i: int| 0 <= i < mods@.len()
                ==> (#[trigger] mods@[i]) is Some ==> mods@[i].unwrap().wf(),
        ensures
            final(self).wf(),
            final(self)@ == module_processed(
                old(self)@,
                quantum,
                bufs_view(inputs@),
                mods_view(mods@),
            ),
    {
        let n = self.params.len();
        let mut p: usize = 0;
        while p < n
            invariant
                p <= n,
                n == param_count(old(self)@.kind),
                self.params@.len() == n,
                old(self).params@.len() == n,
                mods@.len() == n,
                forall|i: int| 0 <= i < mods@.len()
                    ==> (#[trigger] mods@[i]) is Some ==> mods@[i].unwrap().wf(),
                old(self).wf(),
                self.id == old(self).id,
                self.kind == old(self).kind,
                self.inputs == old(self).inputs,
                self.outputs == old(self).outputs,
                self.events == old(self).events,
                self.state == old(self).state,
                forall|j: int| 0 <= j < p ==> (#[trigger] self.params@[j]@)
                    == param_processed(old(self).params@[j]@, quantum, mods_view(mods@)[j]),
                forall|j: int| 0 <= j < p ==> (#[trigger] self.params@[j]@).wf(),
                forall|j: int| p <= j < n
                    ==> (#[trigger] self.params@[j]) == old(self).params@[j],
            decreases n - p,
        {
            let ghost prev = self.params@;
            let mut param = self.params.remove(p);
            proof {
                assert(param == old(self).params@[p as int]);
                assert(old(self)@.params[p as int].wf());
                assert(mods@[p as int] is Some ==> mods@[p as int].unwrap().wf());
            }
            param.process(quantum, mods[p].as_ref());
            self.params.insert(p, param);
            proof {
                assert(self.params@ =~= prev.update(p as int, self.params@[p as int]));
            }
            p = p + 1;
        }
        proof {
            assert(self@.params =~= with_params_processed(
                old(self)@,
                quantum,
                mods_view(mods@),
            ).params);
            assert(self@ =~= with_params_processed(old(self)@, quantum, mods_view(mods@)));
            assert(self@.wf());
        }
        let kind = self.kind;
        match kind {
            ModuleKind::AudioOut => self.process_audio_out(inputs),
            ModuleKind::Gain => self.process_gain(inputs),
            ModuleKind::Oscillator => self.process_oscillator(inputs),
            ModuleKind::Sequencer => self.process_sequencer(inputs),
        }
    }

    /// Scale each input channel by the volume parameter into the stereo
    /// outputs; a disconnected right input mirrors the left channel.
    fn process_audio_out(&mut self, inputs: &Vec<AudioBuffer>)
        requires
            old(self).wf(),
            old(self)@.kind == ModuleKind::AudioOut,
            inputs@.len() == 2,
            forall|i: int| 0 <= i < inputs@.len() ==> (#[trigger] inputs@[i]).wf(),
        ensures
            final(self).wf(),
            final(self)@ == kind_stepped(old(self)@, bufs_view(inputs@)),
    {
        let mono = !self.inputs[1].is_connected();
        let b0 = scale_buffer(&inputs[0], &self.params[0]);
        let b1 = if mono {
            scale_buffer(&inputs[0], &self.params[0])
        } else {
            scale_buffer(&inputs[1], &self.params[0])
        };
        self.set_output_write(0, b0);
        self.set_output_write(1, b1);
        proof {
            assert(final(self)@ =~= kind_stepped(old(self)@, bufs_view(inputs@)));
        }
    }

    /// Scale the input by the gain parameter into the single output.
    fn process_gain(&mut self, inputs: &Vec<AudioBuffer>)
        requires
            old(self).wf(),
            old(self)@.kind == ModuleKind::Gain,
            inputs@.len() == 1,
            forall|i: int| 0 <= i < inputs@.len() ==> (#[trigger] inputs@[i]).wf(),
        ensures
            final(self).wf(),
            final(self)@ == kind_stepped(old(self)@, bufs_view(inputs@)),
    {
        let b = scale_buffer(&inputs[0], &self.params[0]);
        self.set_output_write(0, b);
        proof {
            assert(final(self)@ =~= kind_stepped(old(self)@, bufs_view(inputs@)));
        }
    }

    /// Advance the phase accumulator sample by sample, resetting on rising
    /// sync edges, and write the level-scaled saw and square waveforms.
    fn process_oscillator(&mut self, inputs: &Vec<AudioBuffer>)
        requires
            old(self).wf(),
            old(self)@.kind == ModuleKind::Oscillator,
            inputs@.len() == 1,
            forall|i: int| 0 <= i < inputs@.len() ==> (#[trigger] inputs@[i]).wf(),
        ensures
            final(self).wf(),
            final(self)@ == kind_stepped(old(self)@, bufs_view(inputs@)),
    {
        let mut st: OscillatorState = match &self.state {
            ModuleState::Oscillator(o) => *o,
            _ => {
                proof {
                    assert(false);
                }
                vstd::pervasive::unreached()
            },
        };
        let ghost st0 = st;
        let ghost gsync = inputs@[0]@;
        let ghost cv = self@.params[0].modulated_buffer;
        let ghost pw = self@.params[1].modulated_buffer;
        let ghost level = self@.params[2].modulated_buffer;
        let sync = &inputs[0];
        let mut saw = AudioBuffer::new();
        let mut sqr = AudioBuffer::new();
        let mut s: usize = 0;
        while s < QUANTUM_SIZE
            invariant
                s <= QUANTUM_SIZE,
                *self == *old(self),
                old(self).wf(),
                old(self)@.kind == ModuleKind::Oscillator,
                old(self)@.state == ModuleStateView::Oscillator(st0),
                inputs@.len() == 1,
                inputs@[0].wf(),
                gsync == inputs@[0]@,
                cv == self@.params[0].modulated_buffer,
                pw == self@.params[1].modulated_buffer,
                level == self@.params[2].modulated_buffer,
                sync == &inputs[0],
                saw.wf(),
                sqr.wf(),
                st == osc_run(st0, gsync, cv, pw, level, s as int).0,
                st.phase < PHASE_MODULUS,
                forall|j: int| 0 <= j < s ==> (#[trigger] saw@[j])
                    == osc_run(st0, gsync, cv, pw, level, s as int).1[j],
                forall|j: int| 0 <= j < s ==> (#[trigger] sqr@[j])
                    == osc_run(st0, gsync, cv, pw, level, s as int).2[j],
            decreases QUANTUM_SIZE - s,
        {
            proof {
                lemma_osc_run_len(st0, gsync, cv, pw, level, s as int);
            }
            let ghost prev_st = st;
            let sync_s = sync.at(s);
            let e = st.sync_detector.step(sync_s);
            let p0: u64 = if e.rose() {
                PHASE_HALF
            } else {
                st.phase
            };
            proof {
                assert(p0 == osc_phase_at(prev_st, sync_s));
            }
            let cv_s = self.params[0].at(s);
            let pw_s = self.params[1].at(s);
            let level_s = self.params[2].at(s);
            // Sawtooth: a line over the cycle, shifted to be symmetric.
            let saw_num: u64 = p0 * 2 * (SAMPLE_UNIT as u64);
            let saw_raw: i64 = (saw_num / PHASE_MODULUS) as i64 - SAMPLE_UNIT;
            proof {
                assert(saw_raw == osc_saw_raw(p0));
                assert(in_range(saw_raw as int));
            }
            let saw_v = sat_mul_unit(saw_raw, level_s);
            // Square: high while the phase lies within the pulse width.
            let thr: u64 = if pw_s < 0 {
                0
            } else if pw_s > SAMPLE_UNIT {
                PHASE_MODULUS
            } else {
                (pw_s as u64) * (SAMPLE_UNIT as u64)
            };
            proof {
                assert(thr == pw_phase(pw_s));
            }
            let sqr_raw: i64 = if p0 > thr {
                -SAMPLE_UNIT
            } else {
                SAMPLE_UNIT
            };
            let sqr_v = sat_mul_unit(sqr_raw, level_s);
            saw.set(s, saw_v);
            sqr.set(s, sqr_v);
            // Advance the phase by the frequency parameter, one cycle max.
            let inc: u64 = if cv_s < 0 {
                0
            } else if cv_s >= PHASE_MODULUS as i64 {
                PHASE_MODULUS - 1
            } else {
                cv_s as u64
            };
            st.phase = (p0 + inc) % PHASE_MODULUS;
            proof {
                assert(st == osc_next(prev_st, sync_s, cv_s));
                assert(st == osc_run(st0, gsync, cv, pw, level, s + 1).0);
                assert(saw@[s as int] == osc_run(st0, gsync, cv, pw, level, s + 1).1[s as int]);
                assert(sqr@[s as int] == osc_run(st0, gsync, cv, pw, level, s + 1).2[s as int]);
            }
            s = s + 1;
        }
        proof {
            lemma_osc_run_len(st0, gsync, cv, pw, level, QUANTUM_SIZE as int);
            assert(saw@ =~= osc_run(st0, gsync, cv, pw, level, QUANTUM_SIZE as int).1);
            assert(sqr@ =~= osc_run(st0, gsync, cv, pw, level, QUANTUM_SIZE as int).2);
        }
        self.set_output_write(0, saw);
        self.set_output_write(1, sqr);
        self.state = ModuleState::Oscillator(st);
        proof {
            assert(final(self)@ =~= kind_stepped(old(self)@, bufs_view(inputs@)));
        }
    }

    /// Step through the note sequence on rising gate edges, writing the
    /// current note's voltage and the gated input, and emitting an advance
    /// event at each step.
    fn process_sequencer(&mut self, inputs: &Vec<AudioBuffer>)
        requires
            old(self).wf(),
            old(self)@.kind == ModuleKind::Sequencer,
            inputs@.len() == 1,
            forall|i: int| 0 <= i < inputs@.len() ==> (#[trigger] inputs@[i]).wf(),
        ensures
            final(self).wf(),
            final(self)@ == kind_stepped(old(self)@, bufs_view(inputs@)),
    {
        let mut taken = ModuleState::Gain;
        core::mem::swap(&mut taken, &mut self.state);
        let mut qst: SequencerState = match taken {
            ModuleState::Sequencer(q) => q,
            _ => {
                proof {
                    assert(false);
                }
                vstd::pervasive::unreached()
            },
        };
        let ghost q0 = sequencer_view(&qst);
        let ghost ggate = inputs@[0]@;
        let ghost lenp = self@.params[0].modulated_buffer;
        let gate = &inputs[0];
        let mut cv = AudioBuffer::new();
        let mut gout = AudioBuffer::new();
        let mut evs: Vec<ModuleEvent> = Vec::new();
        let mut s: usize = 0;
        while s < QUANTUM_SIZE
            invariant
                s <= QUANTUM_SIZE,
                old(self).wf(),
                old(self)@.kind == ModuleKind::Sequencer,
                old(self)@.state == ModuleStateView::Sequencer(q0),
                self.id == old(self).id,
                self.kind == old(self).kind,
                self.inputs == old(self).inputs,
                self.outputs == old(self).outputs,
                self.params == old(self).params,
                self.events == old(self).events,
                inputs@.len() == 1,
                inputs@[0].wf(),
                ggate == inputs@[0]@,
                lenp == self@.params[0].modulated_buffer,
                gate == &inputs[0],
                cv.wf(),
                gout.wf(),
                sequencer_view(&qst) == seq_run(q0, ggate, lenp, s as int).0,
                qst.notes@ == q0.notes,
                qst.notes@.len() == SEQUENCER_NUM_STEPS,
                qst.current_step < SEQUENCER_NUM_STEPS,
                forall|i: int| 0 <= i < qst.notes@.len()
                    ==> in_range(#[trigger] qst.notes@[i].voltage as int),
                evs@ == seq_run(q0, ggate, lenp, s as int).3,
                forall|j: int| 0 <= j < s ==> (#[trigger] cv@[j])
                    == seq_run(q0, ggate, lenp, s as int).1[j],
                forall|j: int| 0 <= j < s ==> (#[trigger] gout@[j])
                    == seq_run(q0, ggate, lenp, s as int).2[j],
            decreases QUANTUM_SIZE - s,
        {
            proof {
                lemma_seq_run_len(q0, ggate, lenp, s as int);
            }
            let ghost prev_q = sequencer_view(&qst);
            let gate_s = gate.at(s);
            let note = qst.notes[qst.current_step];
            let e = qst.gate_detector.step(gate_s);
            cv.set(s, note.voltage);
            gout.set(s, if note.gate { gate_s } else { 0 });
            if e.rose() {
                let len_s = self.params[0].at(s);
                let dl: i64 = if len_s >= 0 {
                    len_s / SAMPLE_UNIT
                } else {
                    -((-len_s) / SAMPLE_UNIT)
                };
                let len: i64 = if dl < 1 {
                    1
                } else if dl > SEQUENCER_NUM_STEPS as i64 {
                    SEQUENCER_NUM_STEPS as i64
                } else {
                    dl
                };
                proof {
                    assert(len == seq_len_of(len_s));
                }
                let next_step: usize = if qst.current_step + 1 >= len as usize {
                    0
                } else {
                    qst.current_step + 1
                };
                qst.current_step = next_step;
                evs.push(ModuleEvent::SequencerAdvance { position: next_step });
            }
            proof {
                assert(sequencer_view(&qst) =~= seq_next(
                    prev_q,
                    gate_s,
                    lenp[s as int],
                ));
                assert(sequencer_view(&qst) =~= seq_run(q0, ggate, lenp, s + 1).0);
                assert(evs@ =~= seq_run(q0, ggate, lenp, s + 1).3);
            }
            s = s + 1;
        }
        proof {
            lemma_seq_run_len(q0, ggate, lenp, QUANTUM_SIZE as int);
            assert(cv@ =~= seq_run(q0, ggate, lenp, QUANTUM_SIZE as int).1);
            assert(gout@ =~= seq_run(q0, ggate, lenp, QUANTUM_SIZE as int).2);
        }
        let ghost pre_events = self.events@;
        let mut j: usize = 0;
        let n_ev = evs.len();
        while j < n_ev
            invariant
                j <= n_ev,
                n_ev == evs@.len(),
                self.events@ == pre_events + evs@.subrange(0, j as int),
                self.id == old(self).id,
                self.kind == old(self).kind,
                self.inputs == old(self).inputs,
                self.outputs == old(self).outputs,
                self.params == old(self).params,
            decreases n_ev - j,
        {
            let ev = evs[j];
            self.events.push(ev);
            proof {
                assert(self.events@ =~= pre_events + evs@.subrange(0, j + 1));
            }
            j = j + 1;
        }
        proof {
            assert(evs@.subrange(0, n_ev as int) =~= evs@);
        }
        self.set_output_write(0, cv);
        self.set_output_write(1, gout);
        self.state = ModuleState::Sequencer(qst);
        proof {
            assert(final(self)@ =~~= kind_stepped(old(self)@, bufs_view(inputs@)));
        }
    }
}

/// What a message is allowed to carry: note lists fit the sequencer and
/// hold in-range voltages.
pub open spec fn message_wf(msg: &ModuleMessage) -> bool {
    match msg {
        ModuleMessage::SequencerSetNotes { notes } => {
            &&& notes@.len() <= SEQUENCER_NUM_STEPS
            &&& forall|i: int| 0 <= i < notes@.len()
                ==> in_range(#[trigger] notes@[i].voltage as int)
        },
    }
}

/// The module after a message: a note list overwrites the leading steps of
/// a sequencer's sequence.
pub open spec fn module_with_message(m: ModuleView, msg: &ModuleMessage) -> ModuleView {
    match msg {
        ModuleMessage::SequencerSetNotes { notes } => match m.state {
            ModuleStateView::Sequencer(q) => ModuleView {
                state: ModuleStateView::Sequencer(SequencerStateView {
                    notes: Seq::new(
                        q.notes.len(),
                        |i: int| if i < notes@.len() {
                            notes@[i]
                        } else {
                            q.notes[i]
                        },
                    ),
                    ..q
                }),
                ..m
            },
            _ => m,
        },
    }
}

} // verus!
