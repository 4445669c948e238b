//! The engine control plane and the per-quantum drive.
//!
//! The engine owns the module store, the connection table, the audio-output
//! set and the stereo output ring. A control thread mutates the graph
//! through the calls here, under the store's write lock; workers jointly
//! process one quantum at a time. `process_quantum` is the joint effect of
//! one pass of the worker loop: back-pressure check, the leader's buffer
//! swap, the work phase, and the leader's mix into the ring. The work
//! phase's claim order cannot matter — see
//! [`ModuleStore::process_modules_in_order`] — which is what makes the
//! produced stream deterministic across runs and worker counts.
use vstd::prelude::*;
use crate::{NUM_OUTPUT_BUFFERS, QUANTUM_SIZE};
use crate::audio_buffer::{zero_buffer, AudioBuffer};
use crate::barrier::Barrier;
use crate::module::{
    fresh_module, handles_message, message_wf, module_with_message, ConnectionId, InputId, Module,
    ModuleEventWithId, ModuleId, ModuleKind, ModuleMessage, ModuleView, OutputId, ParameterId,
};
use crate::module_store::{
    find_index, lemma_find_index, lemma_find_index_same_ids, quantum_result, store_wf,
    swap_all, ModuleStore,
};
use crate::ring::OutputRing;
use crate::sample::in_range;

verus! {

/// Why a control-plane call failed. Failures leave the engine unchanged.
#[derive(Clone, Copy, PartialEq, Eq, Structural, Debug)]
pub enum EngineError {
    /// A module or connection id is not present.
    NotFound,
    /// An output, input or parameter index is out of range for its module.
    InvalidEndpoint,
}

/// Where a connection delivers its signal.
#[derive(Clone, Copy, PartialEq, Eq, Structural)]
pub enum ConnectionTarget {
    Input(ModuleId, InputId),
    Parameter(ModuleId, ParameterId),
}

/// One routing edge: the source output and the sink it feeds.
#[derive(Clone, Copy, PartialEq, Eq, Structural)]
pub struct ModuleConnection {
    pub id: ConnectionId,
    pub from_module: ModuleId,
    pub from_output: OutputId,
    pub to: ConnectionTarget,
}

/// The module a target lives on.
pub open spec fn to_module_of(t: ConnectionTarget) -> ModuleId {
    match t {
        ConnectionTarget::Input(m, _) => m,
        ConnectionTarget::Parameter(m, _) => m,
    }
}

/// A connection's endpoints are live and in range.
pub open spec fn conn_wf(ms: Seq<ModuleView>, c: ModuleConnection) -> bool {
    let fi = find_index(ms, c.from_module);
    &&& fi >= 0
    &&& (c.from_output as int) < ms[fi].outputs.len()
    &&& match c.to {
        ConnectionTarget::Input(m, i) => {
            let ti = find_index(ms, m);
            &&& ti >= 0
            &&& (i as int) < ms[ti].inputs.len()
        },
        ConnectionTarget::Parameter(m, p) => {
            let ti = find_index(ms, m);
            &&& ti >= 0
            &&& (p as int) < ms[ti].params.len()
        },
    }
}

/// The connection table is sound: unique ids, valid endpoints.
pub open spec fn conns_wf(ms: Seq<ModuleView>, cs: Seq<ModuleConnection>) -> bool {
    &&& forall|k1: int, k2: int| 0 <= k1 < k2 < cs.len() ==> cs[k1].id != cs[k2].id
    &&& forall|k: int| 0 <= k < cs.len() ==> conn_wf(ms, #[trigger] cs[k])
}

/// Every id the engine ever handed out lies below its counter.
pub open spec fn module_ids_below(ms: Seq<ModuleView>, next: u32) -> bool {
    forall|i: int| 0 <= i < ms.len() ==> (#[trigger] ms[i]).id < next
}

pub open spec fn conn_ids_below(cs: Seq<ModuleConnection>, next: u32) -> bool {
    forall|k: int| 0 <= k < cs.len() ==> (#[trigger] cs[k]).id < next
}

/// A connected input handle is always the trace of a live connection: the
/// table is the source of truth for the wiring.
pub open spec fn input_backed(
    ms: Seq<ModuleView>,
    cs: Seq<ModuleConnection>,
    i: int,
    j: int,
) -> bool {
    match ms[i].inputs[j].source {
        None => true,
        Some((sm, so)) => exists|k: int| 0 <= k < cs.len()
            && (#[trigger] cs[k]).to == ConnectionTarget::Input(ms[i].id, j as InputId)
            && cs[k].from_module == sm
            && cs[k].from_output == so,
    }
}

pub open spec fn modulation_backed(
    ms: Seq<ModuleView>,
    cs: Seq<ModuleConnection>,
    i: int,
    p: int,
) -> bool {
    match ms[i].params[p].modulation.source {
        None => true,
        Some((sm, so)) => exists|k: int| 0 <= k < cs.len()
            && (#[trigger] cs[k]).to == ConnectionTarget::Parameter(ms[i].id, p as ParameterId)
            && cs[k].from_module == sm
            && cs[k].from_output == so,
    }
}

pub open spec fn pointers_backed(ms: Seq<ModuleView>, cs: Seq<ModuleConnection>) -> bool {
    &&& forall|i: int, j: int| 0 <= i < ms.len() && 0 <= j < ms[i].inputs.len()
        ==> #[trigger] input_backed(ms, cs, i, j)
    &&& forall|i: int, p: int| 0 <= i < ms.len() && 0 <= p < ms[i].params.len()
        ==> #[trigger] modulation_backed(ms, cs, i, p)
}

/// The audio-output set: exactly the ids of the live modules whose first
/// two outputs the leader sums into the ring.
pub open spec fn audio_outs_wf(ms: Seq<ModuleView>, aos: Seq<ModuleId>) -> bool {
    &&& forall|a1: int, a2: int| 0 <= a1 < a2 < aos.len() ==> aos[a1] != aos[a2]
    &&& forall|a: int| 0 <= a < aos.len() ==> find_index(ms, #[trigger] aos[a]) >= 0
    &&& forall|a: int| 0 <= a < aos.len()
        ==> ms[find_index(ms, #[trigger] aos[a])].kind == ModuleKind::AudioOut
    &&& forall|i: int| 0 <= i < ms.len() && (#[trigger] ms[i]).kind == ModuleKind::AudioOut
        ==> aos.contains(ms[i].id)
}

/// The synthesis engine: module store, connection table, audio-output
/// set, worker barrier, and the ring shared with the audio consumer.
pub struct ModulateEngine {
    pub modules: ModuleStore,
    pub connections: Vec<ModuleConnection>,
    pub next_id: u32,
    pub audio_outputs: Vec<ModuleId>,
    pub barrier: Barrier,
    pub ring: OutputRing,
}

impl ModulateEngine {
    /// The engine at rest between calls: graph sound, lock idle.
    pub open spec fn wf(&self) -> bool {
        &&& self.modules.wf()
        &&& self.modules.rw_lock.idle()
        &&& self.ring.wf()
        &&& self.barrier.wf()
        &&& module_ids_below(self.modules@, self.next_id)
        &&& conns_wf(self.modules@, self.connections@)
        &&& conn_ids_below(self.connections@, self.next_id)
        &&& pointers_backed(self.modules@, self.connections@)
        &&& audio_outs_wf(self.modules@, self.audio_outputs@)
    }

    /// An empty engine driving `num_threads` workers.
    pub fn new(num_threads: usize) -> (r: ModulateEngine)
        requires
            num_threads >= 1,
        ensures
            r.wf(),
            r.modules@ == Seq::<ModuleView>::empty(),
            r.connections@ == Seq::<ModuleConnection>::empty(),
            r.audio_outputs@ == Seq::<ModuleId>::empty(),
            r.next_id == 0,
            r.barrier.num_threads == num_threads,
            r.ring@.worker_position == 0,
            r.ring@.consumer_position == 0,
    {
        ModulateEngine {
            modules: ModuleStore::new(),
            connections: Vec::new(),
            next_id: 0,
            audio_outputs: Vec::new(),
            barrier: Barrier::new(num_threads),
            ring: OutputRing::new(),
        }
    }

    /// Create a module of the given kind and return its fresh id.
    pub fn create_module(&mut self, kind: ModuleKind) -> (r: ModuleId)
        requires
            old(self).wf(),
            old(self).next_id < u32::MAX,
        ensures
            final(self).wf(),
            r == old(self).next_id,
            final(self).next_id == old(self).next_id + 1,
            final(self).modules@ == old(self).modules@.push(fresh_module(kind, r)),
            final(self).connections == old(self).connections,
            final(self).ring == old(self).ring,
            final(self).audio_outputs@ == if kind == ModuleKind::AudioOut {
                old(self).audio_outputs@.push(r)
            } else {
                old(self).audio_outputs@
            },
    {
        let id = self.next_id;
        self.next_id = self.next_id + 1;
        let m = Module::new(kind, id);
        self.modules.rw_lock.lock_write();
        proof {
            assert forall|i: int| 0 <= i < self.modules@.len()
                implies self.modules@[i].id != m@.id by {
                assert(self.modules@[i].id < id);
            }
        }
        self.modules.insert(m);
        let is_audio_out = match kind {
            ModuleKind::AudioOut => true,
            _ => false,
        };
        if is_audio_out {
            self.audio_outputs.push(id);
        }
        self.modules.rw_lock.unlock_write();
        proof {
            assert forall|a: int| 0 <= a < old(self).audio_outputs@.len()
                implies (#[trigger] old(self).audio_outputs@[a]) < old(self).next_id by {
                lemma_find_index(old(self).modules@, old(self).audio_outputs@[a]);
            }
            lemma_wf_after_module_push(
                old(self).modules@,
                old(self).connections@,
                old(self).audio_outputs@,
                fresh_module(kind, id),
                self.audio_outputs@,
                old(self).next_id,
            );
        }
        id
    }

    /// Wire an output into an input: record the edge in the table and
    /// install the handle on the sink. Fails with `NotFound` when either
    /// module id is dead, with `InvalidEndpoint` when an index is out of
    /// range; failures change nothing.
    pub fn connect_to_input(
        &mut self,
        from: (ModuleId, OutputId),
        to: (ModuleId, InputId),
    ) -> (r: Result<ConnectionId, EngineError>)
        requires
            old(self).wf(),
            old(self).next_id < u32::MAX,
        ensures
            final(self).wf(),
            match r {
                Ok(cid) => {
                    let ms = old(self).modules@;
                    let fi = find_index(ms, from.0);
                    let ti = find_index(ms, to.0);
                    &&& fi >= 0 && ti >= 0
                    &&& (from.1 as int) < ms[fi].outputs.len()
                    &&& (to.1 as int) < ms[ti].inputs.len()
                    &&& cid == old(self).next_id
                    &&& final(self).next_id == old(self).next_id + 1
                    &&& final(self).connections@ == old(self).connections@.push(
                        ModuleConnection {
                            id: cid,
                            from_module: from.0,
                            from_output: from.1,
                            to: ConnectionTarget::Input(to.0, to.1),
                        },
                    )
                    &&& final(self).modules@ == ms.update(ti, ModuleView {
                        inputs: ms[ti].inputs.update(
                            to.1 as int,
                            crate::audio_input::AudioInput { source: Some((from.0, from.1)) },
                        ),
                        ..ms[ti]
                    })
                    &&& final(self).audio_outputs == old(self).audio_outputs
                    &&& final(self).ring == old(self).ring
                },
                Err(e) => {
                    let ms = old(self).modules@;
                    let fi = find_index(ms, from.0);
                    let ti = find_index(ms, to.0);
                    &&& *final(self) == *old(self)
                    &&& (e == EngineError::NotFound <==> (fi < 0 || ti < 0))
                    &&& (e == EngineError::InvalidEndpoint <==> (fi >= 0 && ti >= 0
                        && !((from.1 as int) < ms[fi].outputs.len()
                            && (to.1 as int) < ms[ti].inputs.len())))
                },
            },
    {
        let (from_module, from_output) = from;
        let (to_module, to_input) = to;
        let pos_f = match self.modules.position_of(from_module) {
            Some(p) => p,
            None => {
                return Err(EngineError::NotFound);
            },
        };
        let pos_t = match self.modules.position_of(to_module) {
            Some(p) => p,
            None => {
                return Err(EngineError::NotFound);
            },
        };
        if !(from_output < self.modules.modules[pos_f].outputs.len()
            && to_input < self.modules.modules[pos_t].inputs.len()) {
            return Err(EngineError::InvalidEndpoint);
        }
        let id = self.next_id;
        self.next_id = self.next_id + 1;
        let conn = ModuleConnection {
            id,
            from_module,
            from_output,
            to: ConnectionTarget::Input(to_module, to_input),
        };
        self.modules.rw_lock.lock_write();
        self.connections.push(conn);
        self.modules.set_input_source(pos_t, to_input, Some((from_module, from_output)));
        self.modules.rw_lock.unlock_write();
        proof {
            lemma_wf_after_connect(
                old(self).modules@,
                old(self).connections@,
                old(self).audio_outputs@,
                self.modules@,
                conn,
                pos_t as int,
                old(self).next_id,
            );
        }
        Ok(id)
    }

    /// Wire an output into a parameter's modulation port.
    pub fn connect_to_parameter(
        &mut self,
        from: (ModuleId, OutputId),
        to: (ModuleId, ParameterId),
    ) -> (r: Result<ConnectionId, EngineError>)
        requires
            old(self).wf(),
            old(self).next_id < u32::MAX,
        ensures
            final(self).wf(),
            match r {
                Ok(cid) => {
                    let ms = old(self).modules@;
                    let fi = find_index(ms, from.0);
                    let ti = find_index(ms, to.0);
                    &&& fi >= 0 && ti >= 0
                    &&& (from.1 as int) < ms[fi].outputs.len()
                    &&& (to.1 as int) < ms[ti].params.len()
                    &&& cid == old(self).next_id
                    &&& final(self).next_id == old(self).next_id + 1
                    &&& final(self).connections@ == old(self).connections@.push(
                        ModuleConnection {
                            id: cid,
                            from_module: from.0,
                            from_output: from.1,
                            to: ConnectionTarget::Parameter(to.0, to.1),
                        },
                    )
                    &&& final(self).modules@ == ms.update(ti, ModuleView {
                        params: ms[ti].params.update(to.1 as int,
                            crate::audio_param::AudioParamView {
                                modulation: crate::audio_input::AudioInput {
                                    source: Some((from.0, from.1)),
                                },
                                ..ms[ti].params[to.1 as int]
                            },
                        ),
                        ..ms[ti]
                    })
                    &&& final(self).audio_outputs == old(self).audio_outputs
                    &&& final(self).ring == old(self).ring
                },
                Err(e) => {
                    let ms = old(self).modules@;
                    let fi = find_index(ms, from.0);
                    let ti = find_index(ms, to.0);
                    &&& *final(self) == *old(self)
                    &&& (e == EngineError::NotFound <==> (fi < 0 || ti < 0))
                    &&& (e == EngineError::InvalidEndpoint <==> (fi >= 0 && ti >= 0
                        && !((from.1 as int) < ms[fi].outputs.len()
                            && (to.1 as int) < ms[ti].params.len())))
                },
            },
    {
        let (from_module, from_output) = from;
        let (to_module, to_param) = to;
        let pos_f = match self.modules.position_of(from_module) {
            Some(p) => p,
            None => {
                return Err(EngineError::NotFound);
            },
        };
        let pos_t = match self.modules.position_of(to_module) {
            Some(p) => p,
            None => {
                return Err(EngineError::NotFound);
            },
        };
        if !(from_output < self.modules.modules[pos_f].outputs.len()
            && to_param < self.modules.modules[pos_t].params.len()) {
            return Err(EngineError::InvalidEndpoint);
        }
        let id = self.next_id;
        self.next_id = self.next_id + 1;
        let conn = ModuleConnection {
            id,
            from_module,
            from_output,
            to: ConnectionTarget::Parameter(to_module, to_param),
        };
        self.modules.rw_lock.lock_write();
        self.connections.push(conn);
        self.modules.set_param_modulation_source(
            pos_t,
            to_param,
            Some((from_module, from_output)),
        );
        self.modules.rw_lock.unlock_write();
        proof {
            lemma_wf_after_connect(
                old(self).modules@,
                old(self).connections@,
                old(self).audio_outputs@,
                self.modules@,
                conn,
                pos_t as int,
                old(self).next_id,
            );
        }
        Ok(id)
    }
}

/// The position of the connection carrying `cid` in the table, or `-1`.
pub open spec fn find_conn(cs: Seq<ModuleConnection>, cid: ConnectionId) -> int
    decreases cs.len(),
{
    if cs.len() == 0 {
        -1
    } else if cs[0].id == cid {
        0
    } else {
        let r = find_conn(cs.subrange(1, cs.len() as int), cid);
        if r < 0 {
            -1
        } else {
            r + 1
        }
    }
}

/// `find_conn` finds the first occurrence, or reports absence.
pub proof fn lemma_find_conn(cs: Seq<ModuleConnection>, cid: ConnectionId)
    ensures
        -1 <= find_conn(cs, cid) < cs.len(),
        find_conn(cs, cid) >= 0 ==> cs[find_conn(cs, cid)].id == cid,
        find_conn(cs, cid) >= 0
            ==> forall|j: int| 0 <= j < find_conn(cs, cid) ==> cs[j].id != cid,
        find_conn(cs, cid) == -1 ==> forall|j: int| 0 <= j < cs.len() ==> cs[j].id != cid,
    decreases cs.len(),
{
    if cs.len() > 0 && cs[0].id != cid {
        let tail = cs.subrange(1, cs.len() as int);
        lemma_find_conn(tail, cid);
        let rt = find_conn(tail, cid);
        if rt >= 0 {
            let r = find_conn(cs, cid);
            assert(cs[r] == tail[rt]);
            assert forall|j: int| 0 <= j < r implies cs[j].id != cid by {
                if j >= 1 {
                    assert(cs[j] == tail[j - 1]);
                }
            }
        } else {
            assert forall|j: int| 0 <= j < cs.len() implies cs[j].id != cid by {
                if j >= 1 {
                    assert(cs[j] == tail[j - 1]);
                }
            }
        }
    }
}

/// Idempotent disconnection: once the entry carrying an id has left the
/// table, no entry carries it, so a second `remove_connection` of the same
/// id answers `NotFound` and — by that call's contract — changes nothing,
/// leaving the sink at the silent sentinel.
pub proof fn lemma_removed_connection_stays_removed(cs: Seq<ModuleConnection>, cid: ConnectionId)
    requires
        forall|k1: int, k2: int| 0 <= k1 < k2 < cs.len() ==> cs[k1].id != cs[k2].id,
        find_conn(cs, cid) >= 0,
    ensures
        find_conn(cs.remove(find_conn(cs, cid)), cid) == -1,
{
    lemma_find_conn(cs, cid);
    let k = find_conn(cs, cid);
    let cs2 = cs.remove(k);
    assert forall|x: int| 0 <= x < cs2.len() implies cs2[x].id != cid by {
        let xold: int = if x < k {
            x
        } else {
            x + 1
        };
        assert(cs2[x] == cs[xold]);
    }
    lemma_find_conn(cs2, cid);
    if find_conn(cs2, cid) >= 0 {
        assert(false);
    }
}

/// Two stores with the same ids and port counts in the same positions:
/// what the connection table and the audio-output set care about.
pub open spec fn same_shape(ms1: Seq<ModuleView>, ms2: Seq<ModuleView>) -> bool {
    &&& ms1.len() == ms2.len()
    &&& forall|i: int| 0 <= i < ms1.len() ==> ms1[i].id == (#[trigger] ms2[i]).id
    &&& forall|i: int| 0 <= i < ms1.len() ==> ms1[i].kind == (#[trigger] ms2[i]).kind
    &&& forall|i: int| 0 <= i < ms1.len()
        ==> ms1[i].outputs.len() == (#[trigger] ms2[i]).outputs.len()
    &&& forall|i: int| 0 <= i < ms1.len()
        ==> ms1[i].inputs.len() == (#[trigger] ms2[i]).inputs.len()
    &&& forall|i: int| 0 <= i < ms1.len()
        ==> ms1[i].params.len() == (#[trigger] ms2[i]).params.len()
}

/// Connection-table soundness transfers along shape.
pub proof fn lemma_conns_wf_same_shape(
    ms1: Seq<ModuleView>,
    ms2: Seq<ModuleView>,
    cs: Seq<ModuleConnection>,
)
    requires
        same_shape(ms1, ms2),
        conns_wf(ms1, cs),
    ensures
        conns_wf(ms2, cs),
{
    assert forall|k: int| 0 <= k < cs.len() implies conn_wf(ms2, #[trigger] cs[k]) by {
        let c = cs[k];
        assert(conn_wf(ms1, c));
        lemma_find_index_same_ids(ms1, ms2, c.from_module);
        lemma_find_index(ms1, c.from_module);
        match c.to {
            ConnectionTarget::Input(tm, _) => {
                lemma_find_index_same_ids(ms1, ms2, tm);
                lemma_find_index(ms1, tm);
            },
            ConnectionTarget::Parameter(tm, _) => {
                lemma_find_index_same_ids(ms1, ms2, tm);
                lemma_find_index(ms1, tm);
            },
        }
    }
}

/// Audio-output-set soundness transfers along shape.
pub proof fn lemma_audio_outs_same_shape(
    ms1: Seq<ModuleView>,
    ms2: Seq<ModuleView>,
    aos: Seq<ModuleId>,
)
    requires
        same_shape(ms1, ms2),
        audio_outs_wf(ms1, aos),
    ensures
        audio_outs_wf(ms2, aos),
{
    assert forall|a: int| 0 <= a < aos.len()
        implies find_index(ms2, #[trigger] aos[a]) >= 0
            && ms2[find_index(ms2, aos[a])].kind == ModuleKind::AudioOut by {
        lemma_find_index_same_ids(ms1, ms2, aos[a]);
        lemma_find_index(ms1, aos[a]);
    }
    assert forall|i: int| 0 <= i < ms2.len()
        && (#[trigger] ms2[i]).kind == ModuleKind::AudioOut
        implies aos.contains(ms2[i].id) by {
        assert(ms1[i].kind == ms2[i].kind);
        assert(aos.contains(ms1[i].id));
    }
}

/// Pointer backing transfers when ids and every handle stay put.
pub proof fn lemma_backed_same_handles(
    ms1: Seq<ModuleView>,
    ms2: Seq<ModuleView>,
    cs: Seq<ModuleConnection>,
)
    requires
        ms1.len() == ms2.len(),
        forall|i: int| 0 <= i < ms1.len() ==> ms1[i].id == (#[trigger] ms2[i]).id,
        forall|i: int| 0 <= i < ms1.len()
            ==> ms1[i].inputs == (#[trigger] ms2[i]).inputs,
        forall|i: int| 0 <= i < ms1.len()
            ==> ms1[i].params.len() == (#[trigger] ms2[i]).params.len(),
        forall|i: int, p: int| 0 <= i < ms1.len() && 0 <= p < ms1[i].params.len()
            ==> ms1[i].params[p].modulation == (#[trigger] ms2[i].params[p]).modulation,
        pointers_backed(ms1, cs),
    ensures
        pointers_backed(ms2, cs),
{
    assert forall|i: int, j: int| 0 <= i < ms2.len() && 0 <= j < ms2[i].inputs.len()
        implies #[trigger] input_backed(ms2, cs, i, j) by {
        assert(input_backed(ms1, cs, i, j));
        assert(ms2[i].inputs[j] == ms1[i].inputs[j]);
    }
    assert forall|i: int, p: int| 0 <= i < ms2.len() && 0 <= p < ms2[i].params.len()
        implies #[trigger] modulation_backed(ms2, cs, i, p) by {
        assert(modulation_backed(ms1, cs, i, p));
        assert(ms2[i].params[p].modulation == ms1[i].params[p].modulation);
    }
}

impl ModulateEngine {
    /// Tear a connection down: reset the sink's handle to the silent
    /// sentinel and drop the edge from the table. A second removal of the
    /// same id finds nothing, answers `NotFound`, and changes nothing —
    /// the sink stays silent.
    pub fn remove_connection(&mut self, connection_id: ConnectionId) -> (r: Result<
        (),
        EngineError,
    >)
        requires
            old(self).wf(),
        ensures
            final(self).wf(),
            match r {
                Ok(_) => {
                    let cs = old(self).connections@;
                    let ms = old(self).modules@;
                    let k = find_conn(cs, connection_id);
                    &&& k >= 0
                    &&& final(self).connections@ == cs.remove(k)
                    &&& final(self).modules@ == (match cs[k].to {
                        ConnectionTarget::Input(tm, ti) => {
                            let pos = find_index(ms, tm);
                            ms.update(pos, ModuleView {
                                inputs: ms[pos].inputs.update(
                                    ti as int,
                                    crate::audio_input::AudioInput { source: None },
                                ),
                                ..ms[pos]
                            })
                        },
                        ConnectionTarget::Parameter(tm, tp) => {
                            let pos = find_index(ms, tm);
                            ms.update(pos, ModuleView {
                                params: ms[pos].params.update(
                                    tp as int,
                                    crate::audio_param::AudioParamView {
                                        modulation: crate::audio_input::AudioInput {
                                            source: None,
                                        },
                                        ..ms[pos].params[tp as int]
                                    },
                                ),
                                ..ms[pos]
                            })
                        },
                    })
                    &&& final(self).next_id == old(self).next_id
                    &&& final(self).audio_outputs == old(self).audio_outputs
                    &&& final(self).ring == old(self).ring
                },
                Err(e) => {
                    &&& e == EngineError::NotFound
                    &&& find_conn(old(self).connections@, connection_id) == -1
                    &&& *final(self) == *old(self)
                },
            },
    {
        let ghost ms = self.modules@;
        let ghost cs = self.connections@;
        let n = self.connections.len();
        let mut k: usize = 0;
        while k < n
            invariant
                k <= n,
                n == cs.len(),
                *self == *old(self),
                old(self).wf(),
                ms == old(self).modules@,
                cs == old(self).connections@,
                cs == self.connections@,
                forall|j: int| 0 <= j < k ==> cs[j].id != connection_id,
            decreases n - k,
        {
            if self.connections[k].id == connection_id {
                proof {
                    lemma_find_conn(cs, connection_id);
                    assert(find_conn(cs, connection_id) == k) by {
                        lemma_find_conn(cs, connection_id);
                        assert(cs[k as int].id == connection_id);
                    }
                }
                let c = self.connections[k];
                proof {
                    assert(conn_wf(ms, c));
                }
                self.modules.rw_lock.lock_write();
                match c.to {
                    ConnectionTarget::Input(tm, ti) => {
                        let pos = match self.modules.position_of(tm) {
                            Some(p) => p,
                            None => {
                                proof {
                                    assert(false);
                                }
                                vstd::pervasive::unreached()
                            },
                        };
                        self.modules.set_input_source(pos, ti, None);
                    },
                    ConnectionTarget::Parameter(tm, tp) => {
                        let pos = match self.modules.position_of(tm) {
                            Some(p) => p,
                            None => {
                                proof {
                                    assert(false);
                                }
                                vstd::pervasive::unreached()
                            },
                        };
                        self.modules.set_param_modulation_source(pos, tp, None);
                    },
                }
                let _ = self.connections.remove(k);
                self.modules.rw_lock.unlock_write();
                proof {
                    lemma_wf_after_disconnect(ms, cs, old(self).audio_outputs@, self.modules@,
                        k as int, old(self).next_id);
                }
                return Ok(());
            }
            k = k + 1;
        }
        proof {
            lemma_find_conn(cs, connection_id);
        }
        Err(EngineError::NotFound)
    }

    /// Enqueue a new target on one module parameter. Takes no lock: only
    /// the parameter's scalars move, and the worker reads them at its next
    /// parameter pass, so a change becomes audible within one quantum.
    pub fn set_parameter_value(
        &mut self,
        module_id: ModuleId,
        parameter: ParameterId,
        value: i64,
    ) -> (r: Result<(), EngineError>)
        requires
            old(self).wf(),
            in_range(value as int),
        ensures
            final(self).wf(),
            match r {
                Ok(_) => {
                    let ms = old(self).modules@;
                    let pos = find_index(ms, module_id);
                    &&& pos >= 0
                    &&& (parameter as int) < ms[pos].params.len()
                    &&& final(self).modules@ == ms.update(pos, ModuleView {
                        params: ms[pos].params.update(
                            parameter as int,
                            crate::audio_param::AudioParamView {
                                target: value,
                                target_set_at_quantum: old(self).ring@.worker_position,
                                previous: ms[pos].params[parameter as int]
                                    .buffer[QUANTUM_SIZE - 1],
                                ..ms[pos].params[parameter as int]
                            },
                        ),
                        ..ms[pos]
                    })
                    &&& final(self).connections == old(self).connections
                    &&& final(self).next_id == old(self).next_id
                    &&& final(self).audio_outputs == old(self).audio_outputs
                    &&& final(self).ring == old(self).ring
                },
                Err(e) => {
                    let pos = find_index(old(self).modules@, module_id);
                    &&& *final(self) == *old(self)
                    &&& (e == EngineError::NotFound <==> pos < 0)
                    &&& (e == EngineError::InvalidEndpoint <==> pos >= 0
                        && (parameter as int) >= old(self).modules@[pos].params.len())
                },
            },
    {
        let pos = match self.modules.position_of(module_id) {
            Some(p) => p,
            None => {
                return Err(EngineError::NotFound);
            },
        };
        if parameter >= self.modules.modules[pos].params.len() {
            return Err(EngineError::InvalidEndpoint);
        }
        let quantum = self.ring.worker_position;
        self.modules.set_param_target(pos, parameter, value, quantum);
        proof {
            assert(same_shape(old(self).modules@, self.modules@));
            lemma_conns_wf_same_shape(old(self).modules@, self.modules@, self.connections@);
            lemma_audio_outs_same_shape(
                old(self).modules@,
                self.modules@,
                self.audio_outputs@,
            );
            lemma_backed_same_handles(old(self).modules@, self.modules@, self.connections@);
        }
        Ok(())
    }

    /// Deliver an in-band control message to one module, under the write
    /// lock. The graph builder only addresses messages to kinds that
    /// handle them; an unknown module id answers `NotFound`.
    pub fn send_message_to_module(
        &mut self,
        module_id: ModuleId,
        message: ModuleMessage,
    ) -> (r: Result<(), EngineError>)
        requires
            old(self).wf(),
            message_wf(&message),
            find_index(old(self).modules@, module_id) >= 0 ==> handles_message(
                old(self).modules@[find_index(old(self).modules@, module_id)].kind,
                &message,
            ),
        ensures
            final(self).wf(),
            match r {
                Ok(_) => {
                    let ms = old(self).modules@;
                    let pos = find_index(ms, module_id);
                    &&& pos >= 0
                    &&& final(self).modules@ == ms.update(
                        pos,
                        module_with_message(ms[pos], &message),
                    )
                    &&& final(self).connections == old(self).connections
                    &&& final(self).next_id == old(self).next_id
                    &&& final(self).audio_outputs == old(self).audio_outputs
                    &&& final(self).ring == old(self).ring
                },
                Err(e) => {
                    &&& e == EngineError::NotFound
                    &&& find_index(old(self).modules@, module_id) < 0
                    &&& *final(self) == *old(self)
                },
            },
    {
        let pos = match self.modules.position_of(module_id) {
            Some(p) => p,
            None => {
                return Err(EngineError::NotFound);
            },
        };
        self.modules.rw_lock.lock_write();
        self.modules.deliver_message(pos, message);
        self.modules.rw_lock.unlock_write();
        proof {
            lemma_message_keeps_shape(old(self).modules@, self.modules@, pos as int);
            lemma_conns_wf_same_shape(old(self).modules@, self.modules@, self.connections@);
            lemma_audio_outs_same_shape(
                old(self).modules@,
                self.modules@,
                self.audio_outputs@,
            );
            lemma_backed_same_handles(old(self).modules@, self.modules@, self.connections@);
        }
        Ok(())
    }

    /// Drain every module's event queue, oldest first, in store order.
    /// Only the thread that issues control calls runs this, so no lock is
    /// needed.
    pub fn collect_module_events(&mut self) -> (r: Vec<ModuleEventWithId>)
        requires
            old(self).wf(),
        ensures
            final(self).wf(),
            r@ == crate::module_store::all_events(old(self).modules@),
            final(self).modules@ == Seq::new(
                old(self).modules@.len(),
                |i: int| ModuleView { events: Seq::empty(), ..old(self).modules@[i] },
            ),
            final(self).connections == old(self).connections,
            final(self).next_id == old(self).next_id,
            final(self).audio_outputs == old(self).audio_outputs,
            final(self).ring == old(self).ring,
    {
        let r = self.modules.drain_events();
        proof {
            assert(same_shape(old(self).modules@, self.modules@));
            lemma_conns_wf_same_shape(old(self).modules@, self.modules@, self.connections@);
            lemma_audio_outs_same_shape(
                old(self).modules@,
                self.modules@,
                self.audio_outputs@,
            );
            lemma_backed_same_handles(old(self).modules@, self.modules@, self.connections@);
        }
        r
    }
}

/// A connection touches the given module, as source or as sink.
pub open spec fn incident(c: ModuleConnection, id: ModuleId) -> bool {
    c.from_module == id || to_module_of(c.to) == id
}

/// Some connection among the first `n` that touches `id` targets input
/// `j` of the module carrying `sink`.
pub open spec fn input_killed_upto(
    cs: Seq<ModuleConnection>,
    id: ModuleId,
    sink: ModuleId,
    j: int,
    n: int,
) -> bool {
    exists|w: int| 0 <= w < n && incident(#[trigger] cs[w], id)
        && cs[w].to == ConnectionTarget::Input(sink, j as InputId)
}

pub open spec fn modulation_killed_upto(
    cs: Seq<ModuleConnection>,
    id: ModuleId,
    sink: ModuleId,
    p: int,
    n: int,
) -> bool {
    exists|w: int| 0 <= w < n && incident(#[trigger] cs[w], id)
        && cs[w].to == ConnectionTarget::Parameter(sink, p as ParameterId)
}

/// One module as `delete_module` leaves it: every handle that an incident
/// connection had installed is back at the silent sentinel.
pub open spec fn module_after_delete(
    m: ModuleView,
    cs: Seq<ModuleConnection>,
    id: ModuleId,
) -> ModuleView {
    ModuleView {
        inputs: Seq::new(
            m.inputs.len(),
            |j: int| if input_killed_upto(cs, id, m.id, j, cs.len() as int) {
                crate::audio_input::AudioInput { source: None }
            } else {
                m.inputs[j]
            },
        ),
        params: Seq::new(
            m.params.len(),
            |p: int| if modulation_killed_upto(cs, id, m.id, p, cs.len() as int) {
                crate::audio_param::AudioParamView {
                    modulation: crate::audio_input::AudioInput { source: None },
                    ..m.params[p]
                }
            } else {
                m.params[p]
            },
        ),
        ..m
    }
}

pub open spec fn modules_after_delete(
    ms: Seq<ModuleView>,
    cs: Seq<ModuleConnection>,
    id: ModuleId,
) -> Seq<ModuleView> {
    Seq::new(ms.len(), |i: int| module_after_delete(ms[i], cs, id))
}

/// The connection table without the entries that touch `id`.
pub open spec fn conns_keep(cs: Seq<ModuleConnection>, id: ModuleId) -> Seq<ModuleConnection>
    decreases cs.len(),
{
    if cs.len() == 0 {
        Seq::empty()
    } else {
        let p = conns_keep(cs.drop_last(), id);
        if incident(cs.last(), id) {
            p
        } else {
            p.push(cs.last())
        }
    }
}

/// The audio-output set without one id.
pub open spec fn seq_without(aos: Seq<ModuleId>, id: ModuleId) -> Seq<ModuleId>
    decreases aos.len(),
{
    if aos.len() == 0 {
        Seq::empty()
    } else {
        let p = seq_without(aos.drop_last(), id);
        if aos.last() == id {
            p
        } else {
            p.push(aos.last())
        }
    }
}

/// Every kept entry is one of the original entries, none touches `id`,
/// and ids stay pairwise distinct.
pub proof fn lemma_conns_keep(cs: Seq<ModuleConnection>, id: ModuleId)
    requires
        forall|k1: int, k2: int| 0 <= k1 < k2 < cs.len() ==> cs[k1].id != cs[k2].id,
    ensures
        forall|x: int| 0 <= x < conns_keep(cs, id).len()
            ==> exists|w: int| 0 <= w < cs.len() && (#[trigger] conns_keep(cs, id)[x]) == cs[w],
        forall|x: int| 0 <= x < conns_keep(cs, id).len()
            ==> !incident(#[trigger] conns_keep(cs, id)[x], id),
        forall|x1: int, x2: int| 0 <= x1 < x2 < conns_keep(cs, id).len()
            ==> conns_keep(cs, id)[x1].id != conns_keep(cs, id)[x2].id,
        forall|w: int| 0 <= w < cs.len() && !incident(#[trigger] cs[w], id)
            ==> exists|x: int| 0 <= x < conns_keep(cs, id).len() && conns_keep(cs, id)[x] == cs[w],
    decreases cs.len(),
{
    if cs.len() > 0 {
        let dl = cs.drop_last();
        assert(forall|k1: int, k2: int| 0 <= k1 < k2 < dl.len()
            ==> dl[k1] == cs[k1] && dl[k2] == cs[k2]);
        lemma_conns_keep(dl, id);
        let p = conns_keep(dl, id);
        let kept = conns_keep(cs, id);
        // Each previously kept entry maps into the longer table.
        assert forall|x: int| 0 <= x < kept.len()
            implies (exists|w: int| 0 <= w < cs.len() && (#[trigger] kept[x]) == cs[w])
                && !incident(kept[x], id) by {
            if x < p.len() {
                assert(kept[x] == p[x]);
                let w = choose|w: int| 0 <= w < dl.len() && p[x] == dl[w];
                assert(cs[w] == dl[w]);
            } else {
                assert(kept[x] == cs.last());
            }
        }
        // Distinct ids: a fresh last entry has an id unseen in the prefix.
        assert forall|x1: int, x2: int| 0 <= x1 < x2 < kept.len()
            implies kept[x1].id != kept[x2].id by {
            if x2 == p.len() && !incident(cs.last(), id) {
                let w = choose|w: int| 0 <= w < dl.len() && p[x1] == dl[w];
                assert(cs[w].id != cs.last().id);
            }
        }
        // Completeness.
        assert forall|w: int| 0 <= w < cs.len() && !incident(#[trigger] cs[w], id)
            implies exists|x: int| 0 <= x < kept.len() && kept[x] == cs[w] by {
            if w < dl.len() {
                assert(dl[w] == cs[w]);
                let x = choose|x: int| 0 <= x < p.len() && p[x] == dl[w];
                assert(kept[x] == p[x]);
            } else {
                assert(cs[w] == cs.last());
                assert(kept[p.len() as int] == cs.last());
            }
        }
    }
}

/// Everything `seq_without` keeps comes from the original set and is not
/// the removed id; distinctness and coverage carry over.
pub proof fn lemma_seq_without(aos: Seq<ModuleId>, id: ModuleId)
    requires
        forall|a1: int, a2: int| 0 <= a1 < a2 < aos.len() ==> aos[a1] != aos[a2],
    ensures
        forall|x: int| 0 <= x < seq_without(aos, id).len()
            ==> (#[trigger] seq_without(aos, id)[x]) != id
                && aos.contains(seq_without(aos, id)[x]),
        forall|x1: int, x2: int| 0 <= x1 < x2 < seq_without(aos, id).len()
            ==> seq_without(aos, id)[x1] != seq_without(aos, id)[x2],
        forall|a: int| 0 <= a < aos.len() && (#[trigger] aos[a]) != id
            ==> seq_without(aos, id).contains(aos[a]),
    decreases aos.len(),
{
    if aos.len() > 0 {
        let dl = aos.drop_last();
        assert(forall|a: int| 0 <= a < dl.len() ==> dl[a] == aos[a]);
        lemma_seq_without(dl, id);
        let p = seq_without(dl, id);
        let kept = seq_without(aos, id);
        assert forall|x: int| 0 <= x < kept.len()
            implies (#[trigger] kept[x]) != id && aos.contains(kept[x]) by {
            if x < p.len() {
                assert(kept[x] == p[x]);
                assert(dl.contains(p[x]));
                let w = choose|w: int| 0 <= w < dl.len() && dl[w] == p[x];
                assert(aos[w] == p[x]);
            } else {
                assert(kept[x] == aos.last());
                assert(aos[aos.len() - 1] == aos.last());
            }
        }
        assert forall|x1: int, x2: int| 0 <= x1 < x2 < kept.len()
            implies kept[x1] != kept[x2] by {
            if x2 == p.len() && aos.last() != id {
                assert(dl.contains(p[x1]));
                let w = choose|w: int| 0 <= w < dl.len() && dl[w] == p[x1];
                assert(aos[w] != aos.last());
            }
        }
        assert forall|a: int| 0 <= a < aos.len() && (#[trigger] aos[a]) != id
            implies kept.contains(aos[a]) by {
            if a < dl.len() {
                assert(p.contains(dl[a]));
                let x = choose|x: int| 0 <= x < p.len() && p[x] == dl[a];
                assert(kept[x] == p[x]);
            } else {
                if aos.last() != id {
                    assert(kept[p.len() as int] == aos.last());
                }
            }
        }
    }
}

/// A connection that touches neither the removed module keeps both its
/// endpoints after the removal.
pub proof fn lemma_conn_wf_remove(ms: Seq<ModuleView>, pos: int, c: ModuleConnection)
    requires
        crate::module_store::ids_unique(ms),
        0 <= pos < ms.len(),
        conn_wf(ms, c),
        c.from_module != ms[pos].id,
        to_module_of(c.to) != ms[pos].id,
    ensures
        conn_wf(ms.remove(pos), c),
{
    lemma_endpoint_survives(ms, pos, c.from_module);
    match c.to {
        ConnectionTarget::Input(tm, _) => {
            lemma_endpoint_survives(ms, pos, tm);
        },
        ConnectionTarget::Parameter(tm, _) => {
            lemma_endpoint_survives(ms, pos, tm);
        },
    }
}

/// A live id other than the removed one is still found, at the same
/// module, after the removal.
pub proof fn lemma_endpoint_survives(ms: Seq<ModuleView>, pos: int, id: ModuleId)
    requires
        crate::module_store::ids_unique(ms),
        0 <= pos < ms.len(),
        find_index(ms, id) >= 0,
        id != ms[pos].id,
    ensures
        find_index(ms.remove(pos), id) >= 0,
        ms.remove(pos)[find_index(ms.remove(pos), id)] == ms[find_index(ms, id)],
{
    lemma_find_index(ms, id);
    let i = find_index(ms, id);
    assert(i != pos);
    let ms2 = ms.remove(pos);
    let i2: int = if i < pos {
        i
    } else {
        i - 1
    };
    assert(ms2[i2] == ms[i]);
    assert forall|j: int| 0 <= j < i2 implies ms2[j].id != id by {
        let jold: int = if j < pos {
            j
        } else {
            j + 1
        };
        assert(ms2[j] == ms[jold]);
    }
    crate::module_store::lemma_find_index_first(ms2, id, i2);
}

/// Pointwise saturating sum of two quanta.
pub open spec fn add_sat_buf(a: Seq<i64>, b: Seq<i64>) -> Seq<i64> {
    Seq::new(QUANTUM_SIZE as nat, |s: int| crate::sample::sat(a[s] + b[s]) as i64)
}

/// The saturating sum of one channel over the first `n` registered
/// audio-output modules: channel 0 is left, channel 1 right.
pub open spec fn mix_prefix(
    ms: Seq<ModuleView>,
    aos: Seq<ModuleId>,
    chan: int,
    n: int,
) -> Seq<i64>
    decreases n,
{
    if n <= 0 {
        zero_buffer()
    } else {
        add_sat_buf(
            mix_prefix(ms, aos, chan, n - 1),
            ms[find_index(ms, aos[n - 1])].outputs[chan].read_view(),
        )
    }
}

/// What the leader writes into one ring channel: the saturating sum of
/// every audio-output module's read buffer on that channel.
pub open spec fn mix_channel(ms: Seq<ModuleView>, aos: Seq<ModuleId>, chan: int) -> Seq<i64> {
    mix_prefix(ms, aos, chan, aos.len() as int)
}

/// Saturating pointwise sum of two buffers.
fn add_buffers(a: &AudioBuffer, b: &AudioBuffer) -> (r: AudioBuffer)
    requires
        a.wf(),
        b.wf(),
    ensures
        r.wf(),
        r@ == add_sat_buf(a@, b@),
{
    let mut out = AudioBuffer::new();
    let mut s: usize = 0;
    while s < QUANTUM_SIZE
        invariant
            s <= QUANTUM_SIZE,
            a.wf(),
            b.wf(),
            out.wf(),
            forall|j: int| 0 <= j < s ==> out@[j] == add_sat_buf(a@, b@)[j],
        decreases QUANTUM_SIZE - s,
    {
        let v = crate::sample::sat_add(a.at(s), b.at(s));
        out.set(s, v);
        s = s + 1;
    }
    proof {
        assert(out@ =~= add_sat_buf(a@, b@));
    }
    out
}

impl ModulateEngine {
    /// The leader's mix: the saturating sum of every audio-output
    /// module's stereo read buffers.
    fn mix_outputs(&self) -> (r: (AudioBuffer, AudioBuffer))
        requires
            store_wf(self.modules@),
            audio_outs_wf(self.modules@, self.audio_outputs@),
        ensures
            r.0.wf(),
            r.1.wf(),
            r.0@ == mix_channel(self.modules@, self.audio_outputs@, 0),
            r.1@ == mix_channel(self.modules@, self.audio_outputs@, 1),
    {
        let ghost ms = self.modules@;
        let ghost aos = self.audio_outputs@;
        let mut left = AudioBuffer::new();
        let mut right = AudioBuffer::new();
        let n = self.audio_outputs.len();
        let mut a: usize = 0;
        while a < n
            invariant
                a <= n,
                n == aos.len(),
                ms == self.modules@,
                aos == self.audio_outputs@,
                store_wf(ms),
                audio_outs_wf(ms, aos),
                left.wf(),
                right.wf(),
                left@ == mix_prefix(ms, aos, 0, a as int),
                right@ == mix_prefix(ms, aos, 1, a as int),
            decreases n - a,
        {
            let id = self.audio_outputs[a];
            let pos = match self.modules.position_of(id) {
                Some(p) => p,
                None => {
                    proof {
                        assert(find_index(ms, aos[a as int]) >= 0);
                        assert(false);
                    }
                    vstd::pervasive::unreached()
                },
            };
            proof {
                assert(find_index(ms, aos[a as int]) == pos);
                assert(ms[pos as int].kind == ModuleKind::AudioOut);
                assert(ms[pos as int].wf());
                assert(ms[pos as int].outputs.len() == 2);
                assert(ms[pos as int].outputs[0].wf());
                assert(ms[pos as int].outputs[1].wf());
                assert(ms[pos as int].outputs[0]
                    == self.modules.modules@[pos as int].outputs@[0]@);
                assert(ms[pos as int].outputs[1]
                    == self.modules.modules@[pos as int].outputs@[1]@);
            }
            let l2 = add_buffers(&left, self.modules.modules[pos].outputs[0].read_buffer());
            let r2 = add_buffers(&right, self.modules.modules[pos].outputs[1].read_buffer());
            left = l2;
            right = r2;
            a = a + 1;
        }
        (left, right)
    }

    /// Drive one quantum, as the worker pool jointly would: block (report
    /// `false`) while the ring is full; otherwise swap every double
    /// buffer, process every module against the previous quantum's read
    /// buffers, sum the audio-output modules into the next ring slot, and
    /// advance the producer by one. Which worker claims which module
    /// cannot change any of this — the work phase equals `quantum_result`
    /// for every claim order.
    pub fn process_quantum(&mut self) -> (produced: bool)
        requires
            old(self).wf(),
            old(self).ring@.worker_position < u64::MAX,
        ensures
            final(self).wf(),
            produced == old(self).ring@.can_produce(),
            !produced ==> *final(self) == *old(self),
            produced ==> ({
                let processed = quantum_result(
                    swap_all(old(self).modules@),
                    old(self).ring@.worker_position,
                );
                &&& final(self).modules@ == processed
                &&& final(self).connections == old(self).connections
                &&& final(self).next_id == old(self).next_id
                &&& final(self).audio_outputs == old(self).audio_outputs
                &&& final(self).barrier == old(self).barrier
                &&& final(self).ring@ == (crate::ring::OutputRingView {
                    left: old(self).ring@.left.update(
                        (old(self).ring@.worker_position % (NUM_OUTPUT_BUFFERS as u64)) as int,
                        mix_channel(processed, old(self).audio_outputs@, 0),
                    ),
                    right: old(self).ring@.right.update(
                        (old(self).ring@.worker_position % (NUM_OUTPUT_BUFFERS as u64)) as int,
                        mix_channel(processed, old(self).audio_outputs@, 1),
                    ),
                    worker_position: (old(self).ring@.worker_position + 1) as u64,
                    consumer_position: old(self).ring@.consumer_position,
                })
            }),
    {
        if !(self.ring.worker_position - self.ring.consumer_position
            < NUM_OUTPUT_BUFFERS as u64) {
            // Back-pressure: the consumer is a full ring behind; the real
            // workers wait on its position until it advances.
            return false;
        }
        let quantum = self.ring.worker_position;
        self.modules.rw_lock.lock_read();
        // Leader phase one: swap every module's double buffer and reset
        // the claim cursor.
        self.modules.swap_buffers();
        let ghost swapped = self.modules@;
        // Work phase: claim modules in some order; here the canonical one.
        let n = self.modules.len();
        let mut order: Vec<usize> = Vec::new();
        let mut k: usize = 0;
        while k < n
            invariant
                k <= n,
                order@.len() == k,
                forall|j: int| 0 <= j < k ==> (#[trigger] order@[j]) == j,
            decreases n - k,
        {
            order.push(k);
            k = k + 1;
        }
        proof {
            assert forall|i: int| 0 <= i < n
                implies #[trigger] crate::module_store::order_contains(order@, i) by {
                assert(order@[i] == i);
            }
        }
        self.modules.process_modules_in_order(&order, quantum);
        self.modules.rw_lock.unlock_read();
        // Leader phase two: mix the audio-output modules into the ring.
        self.modules.rw_lock.lock_read();
        proof {
            lemma_quantum_keeps_shape(swapped, self.modules@, quantum);
            lemma_swap_keeps_shape(old(self).modules@);
            lemma_audio_outs_same_shape(old(self).modules@, swapped, self.audio_outputs@);
            lemma_audio_outs_same_shape(swapped, self.modules@, self.audio_outputs@);
        }
        let (left, right) = self.mix_outputs();
        self.modules.rw_lock.unlock_read();
        self.ring.produce(left, right);
        proof {
            lemma_conns_wf_same_shape(old(self).modules@, swapped, self.connections@);
            lemma_conns_wf_same_shape(swapped, self.modules@, self.connections@);
            lemma_backed_same_handles(old(self).modules@, swapped, self.connections@);
            lemma_backed_same_handles(swapped, self.modules@, self.connections@);
        }
        true
    }

    /// Drain the next finished quantum for the platform sink; `None`
    /// while the workers have not produced one. Advances the consumer by
    /// exactly one per drained quantum and wakes blocked workers.
    pub fn consume_quantum(&mut self) -> (r: Option<(AudioBuffer, AudioBuffer)>)
        requires
            old(self).wf(),
        ensures
            final(self).wf(),
            final(self).modules == old(self).modules,
            final(self).connections == old(self).connections,
            final(self).next_id == old(self).next_id,
            final(self).audio_outputs == old(self).audio_outputs,
            final(self).barrier == old(self).barrier,
            r is Some <==> old(self).ring@.can_consume(),
            !old(self).ring@.can_consume() ==> final(self).ring@ == old(self).ring@,
            old(self).ring@.can_consume() ==> ({
                let slot = (old(self).ring@.consumer_position
                    % (NUM_OUTPUT_BUFFERS as u64)) as int;
                &&& r.unwrap().0@ == old(self).ring@.left[slot]
                &&& r.unwrap().1@ == old(self).ring@.right[slot]
                &&& final(self).ring@ == (crate::ring::OutputRingView {
                    consumer_position: (old(self).ring@.consumer_position + 1) as u64,
                    ..old(self).ring@
                })
            }),
    {
        self.ring.consume()
    }
}

impl ModulateEngine {
    /// Destroy a module: tear down every connection that touches it —
    /// silencing each connection's sink — drop it from the audio-output
    /// set, and compact it out of the store. `NotFound` when the id is
    /// dead; failures change nothing.
    #[verifier::rlimit(100)]
    pub fn delete_module(&mut self, module_id: ModuleId) -> (r: Result<(), EngineError>)
        requires
            old(self).wf(),
        ensures
            final(self).wf(),
            match r {
                Ok(_) => {
                    let ms = old(self).modules@;
                    let cs = old(self).connections@;
                    let pos = find_index(ms, module_id);
                    &&& pos >= 0
                    &&& final(self).modules@ == modules_after_delete(ms, cs, module_id).remove(
                        pos,
                    )
                    &&& final(self).connections@ == conns_keep(cs, module_id)
                    &&& final(self).audio_outputs@ == seq_without(
                        old(self).audio_outputs@,
                        module_id,
                    )
                    &&& final(self).next_id == old(self).next_id
                    &&& final(self).ring == old(self).ring
                },
                Err(e) => {
                    &&& e == EngineError::NotFound
                    &&& find_index(old(self).modules@, module_id) < 0
                    &&& *final(self) == *old(self)
                },
            },
    {
        let ghost ms = self.modules@;
        let ghost cs = self.connections@;
        let pos = match self.modules.position_of(module_id) {
            Some(p) => p,
            None => {
                return Err(EngineError::NotFound);
            },
        };
        proof {
            lemma_find_index(ms, module_id);
            assert(ms[pos as int].id == module_id);
        }
        self.modules.rw_lock.lock_write();
        // Phase one: silence the sink of every connection touching the
        // module, exactly what removing each incident connection does.
        let n = self.connections.len();
        let mut k: usize = 0;
        while k < n
            invariant
                k <= n,
                n == cs.len(),
                old(self).wf(),
                ms == old(self).modules@,
                cs == old(self).connections@,
                pos < ms.len(),
                ms[pos as int].id == module_id,
                self.connections == old(self).connections,
                self.audio_outputs == old(self).audio_outputs,
                self.next_id == old(self).next_id,
                self.ring == old(self).ring,
                self.barrier == old(self).barrier,
                self.modules.rw_lock.state == -1,
                store_wf(self.modules@),
                self.modules@.len() == ms.len(),
                forall|i: int| 0 <= i < ms.len() ==> (#[trigger] self.modules@[i]).id == ms[i].id
                    && self.modules@[i].kind == ms[i].kind
                    && self.modules@[i].outputs == ms[i].outputs
                    && self.modules@[i].inputs.len() == ms[i].inputs.len()
                    && self.modules@[i].params.len() == ms[i].params.len()
                    && self.modules@[i].events == ms[i].events
                    && self.modules@[i].state == ms[i].state,
                forall|i: int, j: int| 0 <= i < ms.len() && 0 <= j < ms[i].inputs.len()
                    && input_killed_upto(cs, module_id, ms[i].id, j, k as int)
                    ==> (#[trigger] self.modules@[i].inputs[j]).source is None,
                forall|i: int, j: int| 0 <= i < ms.len() && 0 <= j < ms[i].inputs.len()
                    ==> (#[trigger] self.modules@[i].inputs[j]) == ms[i].inputs[j]
                        || (self.modules@[i].inputs[j].source is None
                            && input_killed_upto(cs, module_id, ms[i].id, j, k as int)),
                forall|i: int, p: int| 0 <= i < ms.len() && 0 <= p < ms[i].params.len()
                    && modulation_killed_upto(cs, module_id, ms[i].id, p, k as int)
                    ==> (#[trigger] self.modules@[i].params[p]).modulation.source is None,
                forall|i: int, p: int| 0 <= i < ms.len() && 0 <= p < ms[i].params.len()
                    ==> (#[trigger] self.modules@[i].params[p]) == ms[i].params[p]
                        || (self.modules@[i].params[p] == (crate::audio_param::AudioParamView {
                            modulation: crate::audio_input::AudioInput { source: None },
                            ..ms[i].params[p]
                        }) && modulation_killed_upto(cs, module_id, ms[i].id, p, k as int)),
            decreases n - k,
        {
            let c = self.connections[k];
            proof {
                assert(conn_wf(ms, c));
            }
            let to_mod = match c.to {
                ConnectionTarget::Input(tm, _) => tm,
                ConnectionTarget::Parameter(tm, _) => tm,
            };
            let inc = c.from_module == module_id || to_mod == module_id;
            proof {
                assert(inc == incident(c, module_id));
            }
            if inc {
                match c.to {
                    ConnectionTarget::Input(tm, ti) => {
                        let pos_s = match self.modules.position_of(tm) {
                            Some(p) => p,
                            None => {
                                proof {
                                    lemma_find_index_same_ids(ms, self.modules@, tm);
                                    lemma_find_index(ms, tm);
                                    assert(false);
                                }
                                vstd::pervasive::unreached()
                            },
                        };
                        proof {
                            lemma_find_index_same_ids(ms, self.modules@, tm);
                            lemma_find_index(ms, tm);
                            assert(pos_s == find_index(ms, tm));
                            assert(ms[pos_s as int].id == tm);
                        }
                        self.modules.set_input_source(pos_s, ti, None);
                        proof {
                            assert forall|i: int, j: int| 0 <= i < ms.len()
                                && 0 <= j < ms[i].inputs.len()
                                && input_killed_upto(cs, module_id, ms[i].id, j, k + 1)
                                implies (#[trigger] self.modules@[i].inputs[j]).source
                                    is None by {
                                let w = choose|w: int| 0 <= w < k + 1
                                    && incident(#[trigger] cs[w], module_id)
                                    && cs[w].to == ConnectionTarget::Input(
                                        ms[i].id,
                                        j as InputId,
                                    );
                                if w == k {
                                    assert(ms[i].id == tm);
                                    crate::module_store::lemma_find_index_of_position(ms, i);
                                    assert(i == pos_s as int && j == ti as int);
                                } else {
                                    assert(input_killed_upto(
                                        cs,
                                        module_id,
                                        ms[i].id,
                                        j,
                                        k as int,
                                    ));
                                }
                            }
                        }
                    },
                    ConnectionTarget::Parameter(tm, tp) => {
                        let pos_s = match self.modules.position_of(tm) {
                            Some(p) => p,
                            None => {
                                proof {
                                    lemma_find_index_same_ids(ms, self.modules@, tm);
                                    lemma_find_index(ms, tm);
                                    assert(false);
                                }
                                vstd::pervasive::unreached()
                            },
                        };
                        proof {
                            lemma_find_index_same_ids(ms, self.modules@, tm);
                            lemma_find_index(ms, tm);
                            assert(pos_s == find_index(ms, tm));
                            assert(ms[pos_s as int].id == tm);
                        }
                        self.modules.set_param_modulation_source(pos_s, tp, None);
                        proof {
                            assert forall|i: int, p: int| 0 <= i < ms.len()
                                && 0 <= p < ms[i].params.len()
                                && modulation_killed_upto(cs, module_id, ms[i].id, p, k + 1)
                                implies (#[trigger] self.modules@[i].params[p]).modulation.source
                                    is None by {
                                let w = choose|w: int| 0 <= w < k + 1
                                    && incident(#[trigger] cs[w], module_id)
                                    && cs[w].to == ConnectionTarget::Parameter(
                                        ms[i].id,
                                        p as ParameterId,
                                    );
                                if w == k {
                                    assert(ms[i].id == tm);
                                    crate::module_store::lemma_find_index_of_position(ms, i);
                                    assert(i == pos_s as int && p == tp as int);
                                } else {
                                    assert(modulation_killed_upto(
                                        cs,
                                        module_id,
                                        ms[i].id,
                                        p,
                                        k as int,
                                    ));
                                }
                            }
                        }
                    },
                }
            } else {
                proof {
                    assert forall|i: int, j: int| 0 <= i < ms.len()
                        && 0 <= j < ms[i].inputs.len()
                        && input_killed_upto(cs, module_id, ms[i].id, j, k + 1)
                        implies input_killed_upto(cs, module_id, ms[i].id, j, k as int) by {
                        let w = choose|w: int| 0 <= w < k + 1
                            && incident(#[trigger] cs[w], module_id)
                            && cs[w].to == ConnectionTarget::Input(ms[i].id, j as InputId);
                        assert(w != k);
                    }
                    assert forall|i: int, p: int| 0 <= i < ms.len()
                        && 0 <= p < ms[i].params.len()
                        && modulation_killed_upto(cs, module_id, ms[i].id, p, k + 1)
                        implies modulation_killed_upto(cs, module_id, ms[i].id, p, k as int) by {
                        let w = choose|w: int| 0 <= w < k + 1
                            && incident(#[trigger] cs[w], module_id)
                            && cs[w].to == ConnectionTarget::Parameter(
                                ms[i].id,
                                p as ParameterId,
                            );
                        assert(w != k);
                    }
                }
            }
            k = k + 1;
        }
        let ghost cur = self.modules@;
        proof {
            // The store now reads exactly as the declarative description.
            assert forall|i: int| 0 <= i < ms.len()
                implies cur[i] =~~= modules_after_delete(ms, cs, module_id)[i] by {
                assert forall|j: int| 0 <= j < ms[i].inputs.len()
                    implies cur[i].inputs[j] == module_after_delete(ms[i], cs, module_id)
                        .inputs[j] by {}
                assert forall|p: int| 0 <= p < ms[i].params.len()
                    implies cur[i].params[p] == module_after_delete(ms[i], cs, module_id)
                        .params[p] by {
                    if modulation_killed_upto(cs, module_id, ms[i].id, p, cs.len() as int) {
                        assert(cur[i].params[p].modulation.source is None);
                        if cur[i].params[p] == ms[i].params[p] {
                            assert(cur[i].params[p] =~= (crate::audio_param::AudioParamView {
                                modulation: crate::audio_input::AudioInput { source: None },
                                ..ms[i].params[p]
                            }));
                        }
                    }
                }
                assert(cur[i].inputs =~= module_after_delete(ms[i], cs, module_id).inputs);
                assert(cur[i].params =~= module_after_delete(ms[i], cs, module_id).params);
            }
            assert(cur =~~= modules_after_delete(ms, cs, module_id));
        }
        // Phase two: drop the incident entries from the table.
        let mut kept: Vec<ModuleConnection> = Vec::new();
        let mut x: usize = 0;
        while x < n
            invariant
                x <= n,
                n == cs.len(),
                cs == self.connections@,
                kept@ == conns_keep(cs.subrange(0, x as int), module_id),
            decreases n - x,
        {
            let c = self.connections[x];
            let to_mod = match c.to {
                ConnectionTarget::Input(tm, _) => tm,
                ConnectionTarget::Parameter(tm, _) => tm,
            };
            let inc = c.from_module == module_id || to_mod == module_id;
            if !inc {
                kept.push(c);
            }
            proof {
                assert(cs.subrange(0, x + 1).drop_last() =~= cs.subrange(0, x as int));
                assert(cs.subrange(0, x + 1).last() == cs[x as int]);
            }
            x = x + 1;
        }
        proof {
            assert(cs.subrange(0, n as int) =~= cs);
        }
        self.connections = kept;
        // Drop the module from the audio-output set.
        let ghost aos = self.audio_outputs@;
        let mut kept_aos: Vec<ModuleId> = Vec::new();
        let n_a = self.audio_outputs.len();
        let mut y: usize = 0;
        while y < n_a
            invariant
                y <= n_a,
                n_a == aos.len(),
                aos == self.audio_outputs@,
                kept_aos@ == seq_without(aos.subrange(0, y as int), module_id),
            decreases n_a - y,
        {
            let a = self.audio_outputs[y];
            if a != module_id {
                kept_aos.push(a);
            }
            proof {
                assert(aos.subrange(0, y + 1).drop_last() =~= aos.subrange(0, y as int));
                assert(aos.subrange(0, y + 1).last() == aos[y as int]);
            }
            y = y + 1;
        }
        proof {
            assert(aos.subrange(0, n_a as int) =~= aos);
        }
        self.audio_outputs = kept_aos;
        // Compact the store: nothing points at the module any more.
        proof {
            assert(cur[pos as int].id == module_id);
            assert forall|i: int, j: int| 0 <= i < cur.len() && 0 <= j < cur[i].inputs.len()
                implies (#[trigger] cur[i].inputs[j]).source != Some((
                    cur[pos as int].id,
                    cur[i].inputs[j].source->Some_0.1,
                )) by {
                if cur[i].inputs[j].source is Some {
                    assert(cur[i].inputs[j] == ms[i].inputs[j]);
                    let so = cur[i].inputs[j].source->Some_0.1;
                    if cur[i].inputs[j].source == Some((module_id, so)) {
                        assert(input_backed(ms, cs, i, j));
                        let w = choose|w: int| 0 <= w < cs.len()
                            && (#[trigger] cs[w]).to == ConnectionTarget::Input(
                                ms[i].id,
                                j as InputId,
                            )
                            && cs[w].from_module == module_id
                            && cs[w].from_output == so;
                        assert(incident(cs[w], module_id));
                        assert(input_killed_upto(cs, module_id, ms[i].id, j, cs.len() as int));
                        assert(false);
                    }
                }
            }
            assert forall|i: int, p: int| 0 <= i < cur.len() && 0 <= p < cur[i].params.len()
                implies (#[trigger] cur[i].params[p]).modulation.source != Some((
                    cur[pos as int].id,
                    cur[i].params[p].modulation.source->Some_0.1,
                )) by {
                if cur[i].params[p].modulation.source is Some {
                    assert(cur[i].params[p] == ms[i].params[p]);
                    let so = cur[i].params[p].modulation.source->Some_0.1;
                    if cur[i].params[p].modulation.source == Some((module_id, so)) {
                        assert(modulation_backed(ms, cs, i, p));
                        let w = choose|w: int| 0 <= w < cs.len()
                            && (#[trigger] cs[w]).to == ConnectionTarget::Parameter(
                                ms[i].id,
                                p as ParameterId,
                            )
                            && cs[w].from_module == module_id
                            && cs[w].from_output == so;
                        assert(incident(cs[w], module_id));
                        assert(modulation_killed_upto(
                            cs,
                            module_id,
                            ms[i].id,
                            p,
                            cs.len() as int,
                        ));
                        assert(false);
                    }
                }
            }
        }
        self.modules.remove_at(pos);
        self.modules.rw_lock.unlock_write();
        proof {
            lemma_wf_after_delete(ms, cs, aos, cur, pos as int, module_id, self.next_id);
        }
        Ok(())
    }
}

/// After the teardown — sinks silenced, incident entries dropped, the
/// module compacted away — the engine invariant holds again.
#[verifier::rlimit(100)]
proof fn lemma_wf_after_delete(
    ms: Seq<ModuleView>,
    cs: Seq<ModuleConnection>,
    aos: Seq<ModuleId>,
    cur: Seq<ModuleView>,
    pos: int,
    module_id: ModuleId,
    next: u32,
)
    requires
        store_wf(ms),
        conns_wf(ms, cs),
        pointers_backed(ms, cs),
        audio_outs_wf(ms, aos),
        module_ids_below(ms, next),
        conn_ids_below(cs, next),
        0 <= pos < ms.len(),
        ms[pos].id == module_id,
        cur == modules_after_delete(ms, cs, module_id),
        store_wf(cur),
    ensures
        conns_wf(cur.remove(pos), conns_keep(cs, module_id)),
        conn_ids_below(conns_keep(cs, module_id), next),
        module_ids_below(cur.remove(pos), next),
        pointers_backed(cur.remove(pos), conns_keep(cs, module_id)),
        audio_outs_wf(cur.remove(pos), seq_without(aos, module_id)),
{
    let kept = conns_keep(cs, module_id);
    let without = seq_without(aos, module_id);
    let cur2 = cur.remove(pos);
    lemma_conns_keep(cs, module_id);
    lemma_seq_without(aos, module_id);
    assert(same_shape(ms, cur));
    assert(crate::module_store::ids_unique(cur));
    // The compacted store's elements, by original position.
    assert forall|i2: int| 0 <= i2 < cur2.len()
        implies cur2[i2] == cur[if i2 < pos {
            i2
        } else {
            i2 + 1
        }] by {}
    // Connection table.
    assert forall|x: int| 0 <= x < kept.len() implies conn_wf(cur2, #[trigger] kept[x]) by {
        let w = choose|w: int| 0 <= w < cs.len() && kept[x] == cs[w];
        assert(conn_wf(ms, cs[w]));
        lemma_conns_wf_same_shape_one(ms, cur, cs[w]);
        assert(!incident(cs[w], module_id));
        lemma_conn_wf_remove(cur, pos, cs[w]);
    }
    assert forall|x: int| 0 <= x < kept.len() implies (#[trigger] kept[x]).id < next by {
        let w = choose|w: int| 0 <= w < cs.len() && kept[x] == cs[w];
    }
    // Module ids.
    assert forall|i2: int| 0 <= i2 < cur2.len() implies (#[trigger] cur2[i2]).id < next by {
        let iold: int = if i2 < pos {
            i2
        } else {
            i2 + 1
        };
        assert(ms[iold].id < next);
    }
    // Pointer backing.
    assert forall|i2: int, j: int| 0 <= i2 < cur2.len() && 0 <= j < cur2[i2].inputs.len()
        implies #[trigger] input_backed(cur2, kept, i2, j) by {
        let iold: int = if i2 < pos {
            i2
        } else {
            i2 + 1
        };
        match cur2[i2].inputs[j].source {
            None => {},
            Some((sm, so)) => {
                assert(cur[iold].inputs[j].source == Some((sm, so)));
                assert(!input_killed_upto(cs, module_id, ms[iold].id, j, cs.len() as int));
                assert(cur[iold].inputs[j] == ms[iold].inputs[j]);
                assert(input_backed(ms, cs, iold, j));
                let w = choose|w: int| 0 <= w < cs.len()
                    && (#[trigger] cs[w]).to == ConnectionTarget::Input(
                        ms[iold].id,
                        j as InputId,
                    )
                    && cs[w].from_module == sm
                    && cs[w].from_output == so;
                assert(!incident(cs[w], module_id));
                let x = choose|x: int| 0 <= x < kept.len() && kept[x] == cs[w];
                assert(cur2[i2].id == ms[iold].id);
            },
        }
    }
    assert forall|i2: int, p: int| 0 <= i2 < cur2.len() && 0 <= p < cur2[i2].params.len()
        implies #[trigger] modulation_backed(cur2, kept, i2, p) by {
        let iold: int = if i2 < pos {
            i2
        } else {
            i2 + 1
        };
        match cur2[i2].params[p].modulation.source {
            None => {},
            Some((sm, so)) => {
                assert(cur[iold].params[p].modulation.source == Some((sm, so)));
                assert(!modulation_killed_upto(cs, module_id, ms[iold].id, p, cs.len() as int));
                assert(cur[iold].params[p] == ms[iold].params[p]);
                assert(modulation_backed(ms, cs, iold, p));
                let w = choose|w: int| 0 <= w < cs.len()
                    && (#[trigger] cs[w]).to == ConnectionTarget::Parameter(
                        ms[iold].id,
                        p as ParameterId,
                    )
                    && cs[w].from_module == sm
                    && cs[w].from_output == so;
                assert(!incident(cs[w], module_id));
                let x = choose|x: int| 0 <= x < kept.len() && kept[x] == cs[w];
                assert(cur2[i2].id == ms[iold].id);
            },
        }
    }
    // Audio-output set.
    assert forall|a: int| 0 <= a < without.len()
        implies find_index(cur2, #[trigger] without[a]) >= 0
            && cur2[find_index(cur2, without[a])].kind == ModuleKind::AudioOut by {
        assert(aos.contains(without[a]));
        let w = choose|w: int| 0 <= w < aos.len() && aos[w] == without[a];
        lemma_find_index(ms, aos[w]);
        lemma_find_index_same_ids(ms, cur, aos[w]);
        assert(find_index(cur, without[a]) >= 0);
        assert(cur[find_index(cur, without[a])].kind == ModuleKind::AudioOut);
        assert(without[a] != cur[pos].id);
        lemma_endpoint_survives(cur, pos, without[a]);
    }
    assert forall|i2: int| 0 <= i2 < cur2.len()
        && (#[trigger] cur2[i2]).kind == ModuleKind::AudioOut
        implies without.contains(cur2[i2].id) by {
        let iold: int = if i2 < pos {
            i2
        } else {
            i2 + 1
        };
        assert(ms[iold].kind == ModuleKind::AudioOut);
        assert(aos.contains(ms[iold].id));
        let w = choose|w: int| 0 <= w < aos.len() && aos[w] == ms[iold].id;
        assert(ms[iold].id != module_id);
        assert(without.contains(aos[w]));
    }
}

/// One connection's endpoints transfer along shape.
proof fn lemma_conns_wf_same_shape_one(
    ms1: Seq<ModuleView>,
    ms2: Seq<ModuleView>,
    c: ModuleConnection,
)
    requires
        same_shape(ms1, ms2),
        conn_wf(ms1, c),
    ensures
        conn_wf(ms2, c),
{
    lemma_find_index_same_ids(ms1, ms2, c.from_module);
    lemma_find_index(ms1, c.from_module);
    match c.to {
        ConnectionTarget::Input(tm, _) => {
            lemma_find_index_same_ids(ms1, ms2, tm);
            lemma_find_index(ms1, tm);
        },
        ConnectionTarget::Parameter(tm, _) => {
            lemma_find_index_same_ids(ms1, ms2, tm);
            lemma_find_index(ms1, tm);
        },
    }
}

/// A swap changes no id, kind, handle, or port count.
proof fn lemma_swap_keeps_shape(ms: Seq<ModuleView>)
    ensures
        same_shape(ms, swap_all(ms)),
        forall|i: int| 0 <= i < ms.len() ==> ms[i].inputs == (#[trigger] swap_all(ms)[i]).inputs,
        forall|i: int, p: int| 0 <= i < ms.len() && 0 <= p < ms[i].params.len()
            ==> ms[i].params[p].modulation
                == (#[trigger] swap_all(ms)[i].params[p]).modulation,
{
}

/// The work phase changes no id, kind, handle, or port count.
proof fn lemma_quantum_keeps_shape(ms: Seq<ModuleView>, ms2: Seq<ModuleView>, quantum: u64)
    requires
        store_wf(ms),
        ms2 == quantum_result(ms, quantum),
    ensures
        same_shape(ms, ms2),
        forall|i: int| 0 <= i < ms.len() ==> ms[i].inputs == (#[trigger] ms2[i]).inputs,
        forall|i: int, p: int| 0 <= i < ms.len() && 0 <= p < ms[i].params.len()
            ==> ms[i].params[p].modulation == (#[trigger] ms2[i].params[p]).modulation,
{
    assert forall|i: int| 0 <= i < ms.len() implies ms[i].id == (#[trigger] ms2[i]).id
        && ms[i].kind == ms2[i].kind
        && ms[i].outputs.len() == ms2[i].outputs.len()
        && ms[i].inputs == ms2[i].inputs
        && ms[i].inputs.len() == ms2[i].inputs.len()
        && ms[i].params.len() == ms2[i].params.len() by {
        crate::module_store::lemma_processed_preserves_readers(
            ms[i],
            quantum,
            crate::module_store::resolved_inputs(ms, ms[i]),
            crate::module_store::resolved_mods(ms, ms[i]),
        );
    }
    assert forall|i: int, p: int| 0 <= i < ms.len() && 0 <= p < ms[i].params.len()
        implies ms[i].params[p].modulation
            == (#[trigger] ms2[i].params[p]).modulation by {
        crate::module_store::lemma_processed_keeps_modulations(ms, i, quantum, p);
    }
}

/// A delivered message changes no id, port count, handle, or kind.
proof fn lemma_message_keeps_shape(ms1: Seq<ModuleView>, ms2: Seq<ModuleView>, pos: int)
    requires
        ms2.len() == ms1.len(),
        0 <= pos < ms1.len(),
        forall|i: int| 0 <= i < ms1.len() && i != pos ==> ms2[i] == ms1[i],
        ms2[pos].id == ms1[pos].id,
        ms2[pos].kind == ms1[pos].kind,
        ms2[pos].inputs == ms1[pos].inputs,
        ms2[pos].outputs == ms1[pos].outputs,
        ms2[pos].params == ms1[pos].params,
    ensures
        same_shape(ms1, ms2),
        forall|i: int| 0 <= i < ms1.len() ==> ms1[i].inputs == (#[trigger] ms2[i]).inputs,
        forall|i: int, p: int| 0 <= i < ms1.len() && 0 <= p < ms1[i].params.len()
            ==> ms1[i].params[p].modulation == (#[trigger] ms2[i].params[p]).modulation,
{
}

/// Dropping one table entry after silencing its sink preserves the engine
/// invariant.
proof fn lemma_wf_after_disconnect(
    ms: Seq<ModuleView>,
    cs: Seq<ModuleConnection>,
    aos: Seq<ModuleId>,
    ms2: Seq<ModuleView>,
    k: int,
    next: u32,
)
    requires
        store_wf(ms),
        conns_wf(ms, cs),
        pointers_backed(ms, cs),
        audio_outs_wf(ms, aos),
        module_ids_below(ms, next),
        conn_ids_below(cs, next),
        0 <= k < cs.len(),
        ms2 == (match cs[k].to {
            ConnectionTarget::Input(tm, ti) => {
                let pos = find_index(ms, tm);
                ms.update(pos, ModuleView {
                    inputs: ms[pos].inputs.update(
                        ti as int,
                        crate::audio_input::AudioInput { source: None },
                    ),
                    ..ms[pos]
                })
            },
            ConnectionTarget::Parameter(tm, tp) => {
                let pos = find_index(ms, tm);
                ms.update(pos, ModuleView {
                    params: ms[pos].params.update(
                        tp as int,
                        crate::audio_param::AudioParamView {
                            modulation: crate::audio_input::AudioInput { source: None },
                            ..ms[pos].params[tp as int]
                        },
                    ),
                    ..ms[pos]
                })
            },
        }),
    ensures
        conns_wf(ms2, cs.remove(k)),
        conn_ids_below(cs.remove(k), next),
        module_ids_below(ms2, next),
        pointers_backed(ms2, cs.remove(k)),
        audio_outs_wf(ms2, aos),
{
    let cs2 = cs.remove(k);
    let c = cs[k];
    assert(conn_wf(ms, c));
    let tmod = to_module_of(c.to);
    let pos = find_index(ms, tmod);
    proof_conn_target_found(ms, c);
    lemma_find_index(ms, tmod);
    assert(0 <= pos < ms.len());
    match c.to {
        ConnectionTarget::Input(tm, ti) => {
            assert(tmod == tm);
            assert(ms2 == ms.update(pos, ModuleView {
                inputs: ms[pos].inputs.update(
                    ti as int,
                    crate::audio_input::AudioInput { source: None },
                ),
                ..ms[pos]
            }));
            assert(ms2.len() == ms.len());
            assert(forall|i: int| 0 <= i < ms.len() && i != pos ==> ms2[i] == ms[i]);
            assert(ms2[pos].id == ms[pos].id && ms2[pos].kind == ms[pos].kind);
            assert(ms2[pos].outputs == ms[pos].outputs);
            assert(ms2[pos].inputs.len() == ms[pos].inputs.len());
            assert(ms2[pos].params.len() == ms[pos].params.len());
            assert forall|i: int, j: int| 0 <= i < ms.len() && 0 <= j < ms[i].inputs.len()
                implies ms2[i].inputs[j] == ms[i].inputs[j]
                    || (#[trigger] ms2[i].inputs[j]).source is None by {}
            assert forall|i: int, p: int| 0 <= i < ms.len() && 0 <= p < ms[i].params.len()
                implies (#[trigger] ms2[i].params[p]).modulation
                    == ms[i].params[p].modulation
                    || ms2[i].params[p].modulation.source is None by {}
            assert forall|x: int| 0 <= x < ms.len() && ms[x].id == tmod
                implies x == pos by {
                crate::module_store::lemma_find_index_of_position(ms, x);
            }
            assert forall|i2: int, j2: int| 0 <= i2 < ms2.len() && 0 <= j2 < ms2[i2].inputs.len()
                implies #[trigger] input_backed(ms2, cs.remove(k), i2, j2) by {
                lemma_input_backed_after_disconnect(ms, cs, ms2, k, i2, j2);
            }
            assert forall|i2: int, p2: int| 0 <= i2 < ms2.len() && 0 <= p2 < ms2[i2].params.len()
                implies #[trigger] modulation_backed(ms2, cs.remove(k), i2, p2) by {
                lemma_modulation_backed_after_disconnect(ms, cs, ms2, k, i2, p2);
            }
        },
        ConnectionTarget::Parameter(tm, tp) => {
            assert(tmod == tm);
            assert(ms2 == ms.update(pos, ModuleView {
                params: ms[pos].params.update(
                    tp as int,
                    crate::audio_param::AudioParamView {
                        modulation: crate::audio_input::AudioInput { source: None },
                        ..ms[pos].params[tp as int]
                    },
                ),
                ..ms[pos]
            }));
            assert(ms2.len() == ms.len());
            assert(forall|i: int| 0 <= i < ms.len() && i != pos ==> ms2[i] == ms[i]);
            assert(ms2[pos].id == ms[pos].id && ms2[pos].kind == ms[pos].kind);
            assert(ms2[pos].outputs == ms[pos].outputs);
            assert(ms2[pos].inputs.len() == ms[pos].inputs.len());
            assert(ms2[pos].params.len() == ms[pos].params.len());
            assert forall|i: int, j: int| 0 <= i < ms.len() && 0 <= j < ms[i].inputs.len()
                implies ms2[i].inputs[j] == ms[i].inputs[j]
                    || (#[trigger] ms2[i].inputs[j]).source is None by {}
            assert forall|i: int, p: int| 0 <= i < ms.len() && 0 <= p < ms[i].params.len()
                implies (#[trigger] ms2[i].params[p]).modulation
                    == ms[i].params[p].modulation
                    || ms2[i].params[p].modulation.source is None by {}
            assert forall|x: int| 0 <= x < ms.len() && ms[x].id == tmod
                implies x == pos by {
                crate::module_store::lemma_find_index_of_position(ms, x);
            }
            assert forall|i2: int, j2: int| 0 <= i2 < ms2.len() && 0 <= j2 < ms2[i2].inputs.len()
                implies #[trigger] input_backed(ms2, cs.remove(k), i2, j2) by {
                lemma_input_backed_after_disconnect(ms, cs, ms2, k, i2, j2);
            }
            assert forall|i2: int, p2: int| 0 <= i2 < ms2.len() && 0 <= p2 < ms2[i2].params.len()
                implies #[trigger] modulation_backed(ms2, cs.remove(k), i2, p2) by {
                lemma_modulation_backed_after_disconnect(ms, cs, ms2, k, i2, p2);
            }
        },
    }
    assert(same_shape(ms, ms2));
    // Entry index mapping across the removal.
    assert forall|x: int| 0 <= x < cs2.len()
        implies cs2[x] == (if x < k {
            cs[x]
        } else {
            cs[x + 1]
        }) by {}
    // Table soundness.
    assert forall|k1: int, k2: int| 0 <= k1 < k2 < cs2.len()
        implies cs2[k1].id != cs2[k2].id by {}
    lemma_conns_wf_same_shape(ms, ms2, cs);
    assert forall|x: int| 0 <= x < cs2.len() implies conn_wf(ms2, #[trigger] cs2[x]) by {}
    assert forall|x: int| 0 <= x < cs2.len() implies (#[trigger] cs2[x]).id < next by {}
    assert(pointers_backed(ms2, cs2));
    lemma_audio_outs_same_shape(ms, ms2, aos);
}

/// The target module of a well-formed connection is live.
proof fn proof_conn_target_found(ms: Seq<ModuleView>, c: ModuleConnection)
    requires
        conn_wf(ms, c),
    ensures
        find_index(ms, to_module_of(c.to)) >= 0,
        ms[find_index(ms, to_module_of(c.to))].id == to_module_of(c.to),
{
    lemma_find_index(ms, to_module_of(c.to));
    match c.to {
        ConnectionTarget::Input(..) => {},
        ConnectionTarget::Parameter(..) => {},
    }
}

proof fn lemma_input_backed_after_disconnect(
    ms: Seq<ModuleView>,
    cs: Seq<ModuleConnection>,
    ms2: Seq<ModuleView>,
    k: int,
    i: int,
    j: int,
)
    requires
        store_wf(ms),
        conns_wf(ms, cs),
        pointers_backed(ms, cs),
        0 <= k < cs.len(),
        0 <= i < ms2.len(),
        0 <= j < ms2[i].inputs.len(),
        ms2.len() == ms.len(),
        forall|x: int| 0 <= x < ms.len() ==> ms[x].id == (#[trigger] ms2[x]).id,
        forall|x: int| 0 <= x < ms.len()
            ==> ms[x].inputs.len() == (#[trigger] ms2[x]).inputs.len(),
        ms2[i].inputs[j] == ms[i].inputs[j] || ms2[i].inputs[j].source is None,
        forall|x: int| 0 <= x < ms.len() && ms[x].id == to_module_of(cs[k].to) ==> (match cs[k].to {
            ConnectionTarget::Input(tm, ti) => 0 <= ti < ms2[x].inputs.len()
                ==> (#[trigger] ms2[x]).inputs[ti as int].source is None,
            ConnectionTarget::Parameter(..) => true,
        }),
    ensures
        input_backed(ms2, cs.remove(k), i, j),
{
    let cs2 = cs.remove(k);
    match ms2[i].inputs[j].source {
        None => {},
        Some((sm, so)) => {
            assert(ms2[i].inputs[j] == ms[i].inputs[j]);
            assert(input_backed(ms, cs, i, j));
            let w = choose|w: int| 0 <= w < cs.len()
                && (#[trigger] cs[w]).to == ConnectionTarget::Input(ms[i].id, j as InputId)
                && cs[w].from_module == sm
                && cs[w].from_output == so;
            if w == k {
                // Entry k targets this very input, which the disconnect
                // silenced — contradicting the handle still being set.
                assert(to_module_of(cs[k].to) == ms[i].id);
                assert(ms2[i].inputs[j].source is None);
                assert(false);
            } else {
                let w2: int = if w < k {
                    w
                } else {
                    w - 1
                };
                assert(cs2[w2] == cs[w]);
                assert(ms2[i].id == ms[i].id);
            }
        },
    }
}

proof fn lemma_modulation_backed_after_disconnect(
    ms: Seq<ModuleView>,
    cs: Seq<ModuleConnection>,
    ms2: Seq<ModuleView>,
    k: int,
    i: int,
    p: int,
)
    requires
        store_wf(ms),
        conns_wf(ms, cs),
        pointers_backed(ms, cs),
        0 <= k < cs.len(),
        0 <= i < ms2.len(),
        0 <= p < ms2[i].params.len(),
        ms2.len() == ms.len(),
        forall|x: int| 0 <= x < ms.len() ==> ms[x].id == (#[trigger] ms2[x]).id,
        forall|x: int| 0 <= x < ms.len()
            ==> ms[x].params.len() == (#[trigger] ms2[x]).params.len(),
        ms2[i].params[p].modulation == ms[i].params[p].modulation
            || ms2[i].params[p].modulation.source is None,
        forall|x: int| 0 <= x < ms.len() && ms[x].id == to_module_of(cs[k].to) ==> (match cs[k].to {
            ConnectionTarget::Parameter(tm, tp) => 0 <= tp < ms2[x].params.len()
                ==> (#[trigger] ms2[x]).params[tp as int].modulation.source is None,
            ConnectionTarget::Input(..) => true,
        }),
    ensures
        modulation_backed(ms2, cs.remove(k), i, p),
{
    let cs2 = cs.remove(k);
    match ms2[i].params[p].modulation.source {
        None => {},
        Some((sm, so)) => {
            assert(ms2[i].params[p].modulation == ms[i].params[p].modulation);
            assert(modulation_backed(ms, cs, i, p));
            let w = choose|w: int| 0 <= w < cs.len()
                && (#[trigger] cs[w]).to == ConnectionTarget::Parameter(
                    ms[i].id,
                    p as ParameterId,
                )
                && cs[w].from_module == sm
                && cs[w].from_output == so;
            if w == k {
                assert(to_module_of(cs[k].to) == ms[i].id);
                assert(ms2[i].params[p].modulation.source is None);
                assert(false);
            } else {
                let w2: int = if w < k {
                    w
                } else {
                    w - 1
                };
                assert(cs2[w2] == cs[w]);
                assert(ms2[i].id == ms[i].id);
            }
        },
    }
}

/// Appending a fresh module preserves the engine invariant.
pub proof fn lemma_wf_after_module_push(
    ms: Seq<ModuleView>,
    cs: Seq<ModuleConnection>,
    aos: Seq<ModuleId>,
    m: ModuleView,
    aos2: Seq<ModuleId>,
    id: u32,
)
    requires
        store_wf(ms),
        conns_wf(ms, cs),
        pointers_backed(ms, cs),
        audio_outs_wf(ms, aos),
        module_ids_below(ms, id),
        forall|a: int| 0 <= a < aos.len() ==> (#[trigger] aos[a]) < id,
        m.id == id,
        m.kind == ModuleKind::AudioOut ==> aos2 == aos.push(id),
        m.kind != ModuleKind::AudioOut ==> aos2 == aos,
        forall|j: int| 0 <= j < m.inputs.len() ==> (#[trigger] m.inputs[j]).source is None,
        forall|p: int| 0 <= p < m.params.len()
            ==> (#[trigger] m.params[p]).modulation.source is None,
    ensures
        conns_wf(ms.push(m), cs),
        pointers_backed(ms.push(m), cs),
        audio_outs_wf(ms.push(m), aos2),
{
    let ms2 = ms.push(m);
    assert forall|k: int| 0 <= k < cs.len() implies conn_wf(ms2, #[trigger] cs[k]) by {
        lemma_conn_wf_push(ms, m, cs[k]);
    }
    assert forall|i: int, j: int| 0 <= i < ms2.len() && 0 <= j < ms2[i].inputs.len()
        implies #[trigger] input_backed(ms2, cs, i, j) by {
        if i < ms.len() {
            assert(ms2[i] == ms[i]);
            assert(input_backed(ms, cs, i, j));
        }
    }
    assert forall|i: int, p: int| 0 <= i < ms2.len() && 0 <= p < ms2[i].params.len()
        implies #[trigger] modulation_backed(ms2, cs, i, p) by {
        if i < ms.len() {
            assert(ms2[i] == ms[i]);
            assert(modulation_backed(ms, cs, i, p));
        }
    }
    assert forall|a: int| 0 <= a < aos2.len()
        implies find_index(ms2, #[trigger] aos2[a]) >= 0
            && ms2[find_index(ms2, aos2[a])].kind == ModuleKind::AudioOut by {
        if a < aos.len() {
            lemma_find_index(ms, aos[a]);
            crate::module_store::lemma_find_index_push(ms, m, aos[a]);
        } else {
            lemma_find_index(ms2, id);
            lemma_find_index(ms, id);
            assert(find_index(ms, id) == -1);
            lemma_find_index_absent_push(ms, m, id);
        }
    }
    assert forall|i: int| 0 <= i < ms2.len()
        && (#[trigger] ms2[i]).kind == ModuleKind::AudioOut
        implies aos2.contains(ms2[i].id) by {
        if i < ms.len() {
            assert(aos.contains(ms[i].id));
            let w = choose|w: int| 0 <= w < aos.len() && aos[w] == ms[i].id;
            assert(aos2[w] == ms[i].id);
        } else {
            assert(ms2[i] == m);
            assert(aos2[aos.len() as int] == id);
        }
    }
}

/// An id absent from a store is found at the end once pushed there.
pub proof fn lemma_find_index_absent_push(ms: Seq<ModuleView>, m: ModuleView, id: ModuleId)
    requires
        find_index(ms, id) == -1,
        m.id == id,
    ensures
        find_index(ms.push(m), id) == ms.len(),
{
    lemma_find_index(ms, id);
    assert(ms.push(m)[ms.len() as int] == m);
    assert(forall|j: int| 0 <= j < ms.len() ==> ms.push(m)[j] == ms[j]);
    crate::module_store::lemma_find_index_first(ms.push(m), id, ms.len() as int);
}

/// A connection's endpoints survive a push.
proof fn lemma_conn_wf_push(ms: Seq<ModuleView>, m: ModuleView, c: ModuleConnection)
    requires
        conn_wf(ms, c),
    ensures
        conn_wf(ms.push(m), c),
{
    lemma_find_index(ms, c.from_module);
    crate::module_store::lemma_find_index_push(ms, m, c.from_module);
    match c.to {
        ConnectionTarget::Input(tm, _) => {
            lemma_find_index(ms, tm);
            crate::module_store::lemma_find_index_push(ms, m, tm);
        },
        ConnectionTarget::Parameter(tm, _) => {
            lemma_find_index(ms, tm);
            crate::module_store::lemma_find_index_push(ms, m, tm);
        },
    }
}

/// Installing a handle recorded by a fresh table entry preserves the
/// engine invariant.
pub proof fn lemma_wf_after_connect(
    ms: Seq<ModuleView>,
    cs: Seq<ModuleConnection>,
    aos: Seq<ModuleId>,
    ms2: Seq<ModuleView>,
    conn: ModuleConnection,
    pos_t: int,
    next: u32,
)
    requires
        store_wf(ms),
        conns_wf(ms, cs),
        pointers_backed(ms, cs),
        audio_outs_wf(ms, aos),
        module_ids_below(ms, next),
        conn_ids_below(cs, next),
        conn.id == next,
        next < u32::MAX,
        conn_wf(ms, conn),
        0 <= pos_t < ms.len(),
        ms2.len() == ms.len(),
        forall|i: int| 0 <= i < ms.len() && i != pos_t ==> ms2[i] == ms[i],
        ms2[pos_t].id == ms[pos_t].id,
        ms2[pos_t].kind == ms[pos_t].kind,
        ms2[pos_t].outputs == ms[pos_t].outputs,
        ms2[pos_t].inputs.len() == ms[pos_t].inputs.len(),
        ms2[pos_t].params.len() == ms[pos_t].params.len(),
        find_index(ms, to_module_of(conn.to)) == pos_t,
        match conn.to {
            ConnectionTarget::Input(tm, ti) => {
                &&& ms2[pos_t].params == ms[pos_t].params
                &&& ms2[pos_t].inputs == ms[pos_t].inputs.update(
                    ti as int,
                    crate::audio_input::AudioInput {
                        source: Some((conn.from_module, conn.from_output)),
                    },
                )
            },
            ConnectionTarget::Parameter(tm, tp) => {
                &&& ms2[pos_t].inputs == ms[pos_t].inputs
                &&& (tp as int) < ms[pos_t].params.len()
                &&& forall|p: int| 0 <= p < ms[pos_t].params.len() && p != tp
                    ==> ms2[pos_t].params[p] == ms[pos_t].params[p]
                &&& ms2[pos_t].params[tp as int].modulation.source
                    == Some((conn.from_module, conn.from_output))
            },
        },
    ensures
        conns_wf(ms2, cs.push(conn)),
        conn_ids_below(cs.push(conn), (next + 1) as u32),
        module_ids_below(ms2, (next + 1) as u32),
        pointers_backed(ms2, cs.push(conn)),
        audio_outs_wf(ms2, aos),
{
    let cs2 = cs.push(conn);
    assert forall|i: int| 0 <= i < ms.len() implies ms[i].id == ms2[i].id by {}
    // Connection table soundness.
    assert forall|k1: int, k2: int| 0 <= k1 < k2 < cs2.len()
        implies cs2[k1].id != cs2[k2].id by {
        if k2 == cs.len() {
            assert(cs2[k1].id < next);
        }
    }
    assert forall|k: int| 0 <= k < cs2.len() implies conn_wf(ms2, #[trigger] cs2[k]) by {
        let c = cs2[k];
        assert(conn_wf(ms, c));
        lemma_find_index_same_ids(ms, ms2, c.from_module);
        match c.to {
            ConnectionTarget::Input(tm, _) => {
                lemma_find_index_same_ids(ms, ms2, tm);
                lemma_find_index(ms, tm);
            },
            ConnectionTarget::Parameter(tm, _) => {
                lemma_find_index_same_ids(ms, ms2, tm);
                lemma_find_index(ms, tm);
            },
        }
        lemma_find_index(ms, c.from_module);
    }
    // Pointer backing.
    assert forall|i: int, j: int| 0 <= i < ms2.len() && 0 <= j < ms2[i].inputs.len()
        implies #[trigger] input_backed(ms2, cs2, i, j) by {
        match conn.to {
            ConnectionTarget::Input(tm, ti) => {
                if i == pos_t && j == ti as int {
                    assert(cs2[cs.len() as int] == conn);
                    assert(ms2[i].id == to_module_of(conn.to)) by {
                        lemma_find_index(ms, tm);
                    }
                } else {
                    assert(ms2[i].inputs[j] == ms[i].inputs[j]);
                    assert(input_backed(ms, cs, i, j));
                    lemma_input_backed_push(ms, cs, conn, i, j, ms2);
                }
            },
            ConnectionTarget::Parameter(..) => {
                assert(ms2[i].inputs[j] == ms[i].inputs[j]);
                assert(input_backed(ms, cs, i, j));
                lemma_input_backed_push(ms, cs, conn, i, j, ms2);
            },
        }
    }
    assert forall|i: int, p: int| 0 <= i < ms2.len() && 0 <= p < ms2[i].params.len()
        implies #[trigger] modulation_backed(ms2, cs2, i, p) by {
        match conn.to {
            ConnectionTarget::Parameter(tm, tp) => {
                if i == pos_t && p == tp as int {
                    assert(cs2[cs.len() as int] == conn);
                    assert(ms2[i].id == to_module_of(conn.to)) by {
                        lemma_find_index(ms, tm);
                    }
                } else {
                    assert(ms2[i].params[p].modulation == ms[i].params[p].modulation);
                    assert(modulation_backed(ms, cs, i, p));
                    lemma_modulation_backed_push(ms, cs, conn, i, p, ms2);
                }
            },
            ConnectionTarget::Input(..) => {
                assert(ms2[i].params[p].modulation == ms[i].params[p].modulation);
                assert(modulation_backed(ms, cs, i, p));
                lemma_modulation_backed_push(ms, cs, conn, i, p, ms2);
            },
        }
    }
    // Audio-output set.
    assert forall|a: int| 0 <= a < aos.len()
        implies find_index(ms2, #[trigger] aos[a]) >= 0
            && ms2[find_index(ms2, aos[a])].kind == ModuleKind::AudioOut by {
        lemma_find_index_same_ids(ms, ms2, aos[a]);
        lemma_find_index(ms, aos[a]);
        let fi = find_index(ms, aos[a]);
        assert(ms2[fi].kind == ms[fi].kind);
    }
    assert forall|i: int| 0 <= i < ms2.len()
        && (#[trigger] ms2[i]).kind == ModuleKind::AudioOut
        implies aos.contains(ms2[i].id) by {
        assert(ms[i].kind == ms2[i].kind);
        assert(aos.contains(ms[i].id));
    }
}

/// A pointer backed in the old table is backed once an entry is appended
/// and an unrelated handle changed.
proof fn lemma_input_backed_push(
    ms: Seq<ModuleView>,
    cs: Seq<ModuleConnection>,
    conn: ModuleConnection,
    i: int,
    j: int,
    ms2: Seq<ModuleView>,
)
    requires
        0 <= i < ms.len(),
        ms2.len() == ms.len(),
        0 <= j < ms[i].inputs.len(),
        j < ms2[i].inputs.len(),
        input_backed(ms, cs, i, j),
        ms2[i].inputs[j] == ms[i].inputs[j],
        ms2[i].id == ms[i].id,
    ensures
        input_backed(ms2, cs.push(conn), i, j),
{
    match ms[i].inputs[j].source {
        None => {},
        Some((sm, so)) => {
            let k = choose|k: int| 0 <= k < cs.len()
                && (#[trigger] cs[k]).to == ConnectionTarget::Input(ms[i].id, j as InputId)
                && cs[k].from_module == sm
                && cs[k].from_output == so;
            assert(cs.push(conn)[k] == cs[k]);
        },
    }
}

proof fn lemma_modulation_backed_push(
    ms: Seq<ModuleView>,
    cs: Seq<ModuleConnection>,
    conn: ModuleConnection,
    i: int,
    p: int,
    ms2: Seq<ModuleView>,
)
    requires
        0 <= i < ms.len(),
        ms2.len() == ms.len(),
        0 <= p < ms[i].params.len(),
        p < ms2[i].params.len(),
        modulation_backed(ms, cs, i, p),
        ms2[i].params[p].modulation == ms[i].params[p].modulation,
        ms2[i].id == ms[i].id,
    ensures
        modulation_backed(ms2, cs.push(conn), i, p),
{
    match ms[i].params[p].modulation.source {
        None => {},
        Some((sm, so)) => {
            let k = choose|k: int| 0 <= k < cs.len()
                && (#[trigger] cs[k]).to == ConnectionTarget::Parameter(ms[i].id, p as ParameterId)
                && cs[k].from_module == sm
                && cs[k].from_output == so;
            assert(cs.push(conn)[k] == cs[k]);
        },
    }
}

} // verus!
