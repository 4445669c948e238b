//! The dense module store and the per-quantum processing step.
//!
//! Modules live in a dense array; a module id resolves to its position by
//! `find_index`. Processing one module reads only its own state and the
//! read buffers of the outputs its handles point at — buffers that no
//! processing step writes — so the result of a quantum is independent of
//! the order in which workers claim modules.
use vstd::prelude::*;
use crate::QUANTUM_SIZE;
use crate::audio_buffer::{zero_buffer, AudioBuffer};
use crate::audio_input::AudioInput;
use crate::audio_output::AudioOutputView;
use crate::module::{
    bufs_view, module_processed, mods_view, swap_module, Module, ModuleId, ModuleView,
};
use crate::rw_lock::RwLock;
use crate::audio_param::AudioParamView;

verus! {

/// The position of the module carrying `id`, or `-1` when absent.
pub open spec fn find_index(ms: Seq<ModuleView>, id: ModuleId) -> int
    decreases ms.len(),
{
    if ms.len() == 0 {
        -1
    } else if ms[0].id == id {
        0
    } else {
        let r = find_index(ms.subrange(1, ms.len() as int), id);
        if r < 0 {
            -1
        } else {
            r + 1
        }
    }
}

/// `find_index` finds the first occurrence, within bounds, or reports
/// that no module carries the id.
pub proof fn lemma_find_index(ms: Seq<ModuleView>, id: ModuleId)
    ensures
        -1 <= find_index(ms, id) < ms.len(),
        find_index(ms, id) >= 0 ==> ms[find_index(ms, id)].id == id,
        find_index(ms, id) >= 0
            ==> forall|j: int| 0 <= j < find_index(ms, id) ==> ms[j].id != id,
        find_index(ms, id) == -1 ==> forall|j: int| 0 <= j < ms.len() ==> ms[j].id != id,
    decreases ms.len(),
{
    if ms.len() > 0 && ms[0].id != id {
        let tail = ms.subrange(1, ms.len() as int);
        lemma_find_index(tail, id);
        let rt = find_index(tail, id);
        if rt >= 0 {
            let r = find_index(ms, id);
            assert(r == rt + 1);
            assert(ms[r] == tail[rt]);
            assert forall|j: int| 0 <= j < r implies ms[j].id != id by {
                if j >= 1 {
                    assert(ms[j] == tail[j - 1]);
                }
            }
        } else {
            assert forall|j: int| 0 <= j < ms.len() implies ms[j].id != id by {
                if j >= 1 {
                    assert(ms[j] == tail[j - 1]);
                }
            }
        }
    }
}

/// A module whose id occurs nowhere earlier is the one `find_index` finds.
pub proof fn lemma_find_index_first(ms: Seq<ModuleView>, id: ModuleId, i: int)
    requires
        0 <= i < ms.len(),
        ms[i].id == id,
        forall|j: int| 0 <= j < i ==> ms[j].id != id,
    ensures
        find_index(ms, id) == i,
{
    lemma_find_index(ms, id);
}

/// `find_index` reads the ids alone: two stores with the same ids in the
/// same positions resolve every id alike.
pub proof fn lemma_find_index_same_ids(ms1: Seq<ModuleView>, ms2: Seq<ModuleView>, id: ModuleId)
    requires
        ms1.len() == ms2.len(),
        forall|i: int| 0 <= i < ms1.len() ==> ms1[i].id == ms2[i].id,
    ensures
        find_index(ms1, id) == find_index(ms2, id),
    decreases ms1.len(),
{
    if ms1.len() > 0 {
        assert(ms1[0].id == ms2[0].id);
        if ms1[0].id != id {
            let t1 = ms1.subrange(1, ms1.len() as int);
            let t2 = ms2.subrange(1, ms2.len() as int);
            assert(forall|i: int| 0 <= i < t1.len() ==> t1[i] == ms1[i + 1]);
            assert(forall|i: int| 0 <= i < t2.len() ==> t2[i] == ms2[i + 1]);
            lemma_find_index_same_ids(t1, t2, id);
        }
    }
}

/// No two modules carry the same id.
pub open spec fn ids_unique(ms: Seq<ModuleView>) -> bool {
    forall|i: int, j: int| 0 <= i < j < ms.len() ==> ms[i].id != ms[j].id
}

/// Under unique ids, each module's own id resolves to its position.
pub proof fn lemma_find_index_of_position(ms: Seq<ModuleView>, i: int)
    requires
        ids_unique(ms),
        0 <= i < ms.len(),
    ensures
        find_index(ms, ms[i].id) == i,
{
    assert(forall|j: int| 0 <= j < i ==> ms[j].id != ms[i].id);
    lemma_find_index_first(ms, ms[i].id, i);
}

/// A handle either hangs loose or points at a live module output.
pub open spec fn handle_ok(ms: Seq<ModuleView>, inp: AudioInput) -> bool {
    match inp.source {
        None => true,
        Some((mid, oidx)) => {
            let i = find_index(ms, mid);
            &&& i >= 0
            &&& (oidx as int) < ms[i].outputs.len()
        },
    }
}

/// Every handle a module holds — inputs and parameter modulations.
pub open spec fn module_handles_ok(ms: Seq<ModuleView>, m: ModuleView) -> bool {
    &&& forall|j: int| 0 <= j < m.inputs.len() ==> handle_ok(ms, #[trigger] m.inputs[j])
    &&& forall|p: int| 0 <= p < m.params.len()
        ==> handle_ok(ms, (#[trigger] m.params[p]).modulation)
}

/// Store well-formedness: unique ids, well-formed modules, and no handle
/// dangling.
pub open spec fn store_wf(ms: Seq<ModuleView>) -> bool {
    &&& ids_unique(ms)
    &&& forall|i: int| 0 <= i < ms.len() ==> (#[trigger] ms[i]).wf()
    &&& forall|i: int| 0 <= i < ms.len() ==> module_handles_ok(ms, #[trigger] ms[i])
}

/// What a handle reads: the read buffer of the output it points at, or
/// the silent sentinel when disconnected.
pub open spec fn resolve_input(ms: Seq<ModuleView>, inp: AudioInput) -> Seq<i64> {
    match inp.source {
        None => zero_buffer(),
        Some((mid, oidx)) => ms[find_index(ms, mid)].outputs[oidx as int].read_view(),
    }
}

/// The read buffers a module's inputs see.
pub open spec fn resolved_inputs(ms: Seq<ModuleView>, m: ModuleView) -> Seq<Seq<i64>> {
    Seq::new(m.inputs.len(), |j: int| resolve_input(ms, m.inputs[j]))
}

/// The read buffers a module's parameter modulations see; a disconnected
/// modulation resolves to nothing and reads as its kind's identity.
pub open spec fn resolved_mods(ms: Seq<ModuleView>, m: ModuleView) -> Seq<Option<Seq<i64>>> {
    Seq::new(
        m.params.len(),
        |p: int| if m.params[p].modulation.source is None {
            None
        } else {
            Some(resolve_input(ms, m.params[p].modulation))
        },
    )
}

/// One module's state after the quantum, as a function of the store at
/// the quantum's start (after the leader's buffer swap).
pub open spec fn step_module(ms: Seq<ModuleView>, i: int, quantum: u64) -> ModuleView {
    module_processed(ms[i], quantum, resolved_inputs(ms, ms[i]), resolved_mods(ms, ms[i]))
}

/// The whole store after the quantum's work phase.
pub open spec fn quantum_result(ms: Seq<ModuleView>, quantum: u64) -> Seq<ModuleView> {
    Seq::new(ms.len(), |i: int| step_module(ms, i, quantum))
}

/// The whole store with every output's buffer pair swapped.
pub open spec fn swap_all(ms: Seq<ModuleView>) -> Seq<ModuleView> {
    Seq::new(ms.len(), |i: int| swap_module(ms[i]))
}

/// What resolution reads of a store: positions of ids, output counts, and
/// the read buffer of every output. Two stores with the same frame resolve
/// every handle to the same samples.
pub open spec fn same_frame(ms1: Seq<ModuleView>, ms2: Seq<ModuleView>) -> bool {
    &&& ms1.len() == ms2.len()
    &&& forall|i: int| 0 <= i < ms1.len() ==> ms1[i].id == (#[trigger] ms2[i]).id
    &&& forall|i: int| 0 <= i < ms1.len()
        ==> ms1[i].outputs.len() == (#[trigger] ms2[i]).outputs.len()
    &&& forall|i: int, o: int| 0 <= i < ms1.len() && 0 <= o < ms1[i].outputs.len()
        ==> ms1[i].outputs[o].read_view() == (#[trigger] ms2[i].outputs[o]).read_view()
}

/// Resolution sees only the frame.
pub proof fn lemma_resolve_same_frame(ms1: Seq<ModuleView>, ms2: Seq<ModuleView>, inp: AudioInput)
    requires
        same_frame(ms1, ms2),
        handle_ok(ms1, inp),
    ensures
        resolve_input(ms1, inp) == resolve_input(ms2, inp),
{
    match inp.source {
        None => {},
        Some((mid, oidx)) => {
            lemma_find_index_same_ids(ms1, ms2, mid);
            lemma_find_index(ms1, mid);
        },
    }
}

/// A module's step sees only the module itself and the frame.
pub proof fn lemma_step_same_frame(ms1: Seq<ModuleView>, ms2: Seq<ModuleView>, i: int, quantum: u64)
    requires
        same_frame(ms1, ms2),
        0 <= i < ms1.len(),
        ms1[i] == ms2[i],
        module_handles_ok(ms1, ms1[i]),
    ensures
        step_module(ms1, i, quantum) == step_module(ms2, i, quantum),
{
    let m = ms1[i];
    assert forall|j: int| 0 <= j < m.inputs.len()
        implies resolve_input(ms1, #[trigger] m.inputs[j]) == resolve_input(ms2, m.inputs[j]) by {
        lemma_resolve_same_frame(ms1, ms2, m.inputs[j]);
    }
    assert forall|p: int| 0 <= p < m.params.len()
        implies resolve_input(ms1, (#[trigger] m.params[p]).modulation)
            == resolve_input(ms2, m.params[p].modulation) by {
        lemma_resolve_same_frame(ms1, ms2, m.params[p].modulation);
    }
    assert(resolved_inputs(ms1, m) =~= resolved_inputs(ms2, m));
    assert(resolved_mods(ms1, m) =~= resolved_mods(ms2, m));
}

/// Processing a module leaves its identity, its handle targets, and every
/// reader-visible buffer untouched: it writes only its write buffers and
/// its own state.
pub proof fn lemma_processed_preserves_readers(
    m: ModuleView,
    quantum: u64,
    ins: Seq<Seq<i64>>,
    mods: Seq<Option<Seq<i64>>>,
)
    requires
        m.wf(),
    ensures
        module_processed(m, quantum, ins, mods).id == m.id,
        module_processed(m, quantum, ins, mods).kind == m.kind,
        module_processed(m, quantum, ins, mods).inputs == m.inputs,
        module_processed(m, quantum, ins, mods).outputs.len() == m.outputs.len(),
        forall|o: int| 0 <= o < m.outputs.len()
            ==> (#[trigger] module_processed(m, quantum, ins, mods).outputs[o]).read_view()
                == m.outputs[o].read_view(),
{
    let mp = crate::module::with_params_processed(m, quantum, mods);
    let m2 = crate::module::kind_stepped(mp, ins);
    assert(mp.outputs == m.outputs);
    assert forall|o: int| 0 <= o < m.outputs.len()
        implies (#[trigger] m2.outputs[o]).read_view() == m.outputs[o].read_view() by {
        assert(m.outputs[o].wf());
        if m2.outputs[o] != m.outputs[o] {
            // The step replaced this output's write buffer; the read index
            // differs from the write index, so the read buffer is the same.
            assert(m.outputs[o].read_index() != m.outputs[o].current);
        }
    }
}

/// Processing one module keeps the whole store's frame.
pub proof fn lemma_step_preserves_frame(ms: Seq<ModuleView>, i: int, quantum: u64)
    requires
        0 <= i < ms.len(),
        ms[i].wf(),
    ensures
        same_frame(ms, ms.update(i, step_module(ms, i, quantum))),
{
    lemma_processed_preserves_readers(
        ms[i],
        quantum,
        resolved_inputs(ms, ms[i]),
        resolved_mods(ms, ms[i]),
    );
}

/// A handle that resolves in one frame resolves in any store sharing it.
pub proof fn lemma_handle_ok_same_frame(
    ms1: Seq<ModuleView>,
    ms2: Seq<ModuleView>,
    inp: AudioInput,
)
    requires
        same_frame(ms1, ms2),
        handle_ok(ms1, inp),
    ensures
        handle_ok(ms2, inp),
{
    match inp.source {
        None => {},
        Some((mid, oidx)) => {
            lemma_find_index_same_ids(ms1, ms2, mid);
            lemma_find_index(ms1, mid);
        },
    }
}

/// Dense array of modules guarded by the reader/writer lock.
pub struct ModuleStore {
    pub modules: Vec<Module>,
    pub rw_lock: RwLock,
}

impl View for ModuleStore {
    type V = Seq<ModuleView>;

    open spec fn view(&self) -> Seq<ModuleView> {
        Seq::new(self.modules@.len(), |i: int| self.modules@[i]@)
    }
}

impl ModuleStore {
    pub open spec fn wf(&self) -> bool {
        store_wf(self@)
    }

    pub fn new() -> (r: ModuleStore)
        ensures
            r.wf(),
            r@ == Seq::<ModuleView>::empty(),
            r.rw_lock.idle(),
    {
        let r = ModuleStore { modules: Vec::new(), rw_lock: RwLock::new() };
        proof {
            assert(r@ =~= Seq::<ModuleView>::empty());
        }
        r
    }

    pub fn len(&self) -> (r: usize)
        ensures
            r == self@.len(),
    {
        self.modules.len()
    }

    /// The position of the module carrying `id`, if any.
    pub fn position_of(&self, id: ModuleId) -> (r: Option<usize>)
        ensures
            match r {
                Some(p) => p < self@.len() && find_index(self@, id) == p,
                None => find_index(self@, id) == -1,
            },
    {
        let n = self.modules.len();
        let mut i: usize = 0;
        while i < n
            invariant
                i <= n,
                n == self@.len(),
                self@.len() == self.modules@.len(),
                forall|j: int| 0 <= j < i ==> self@[j].id != id,
            decreases n - i,
        {
            if self.modules[i].id == id {
                proof {
                    lemma_find_index_first(self@, id, i as int);
                }
                return Some(i);
            }
            i = i + 1;
        }
        proof {
            lemma_find_index(self@, id);
        }
        None
    }

    /// Append a freshly created module. Its handles must all hang loose
    /// and its id must be new, which is how the engine creates modules.
    pub fn insert(&mut self, m: Module)
        requires
            old(self).wf(),
            m.wf(),
            forall|j: int| 0 <= j < m@.inputs.len()
                ==> (#[trigger] m@.inputs[j]).source is None,
            forall|p: int| 0 <= p < m@.params.len()
                ==> (#[trigger] m@.params[p]).modulation.source is None,
            forall|i: int| 0 <= i < old(self)@.len() ==> old(self)@[i].id != m@.id,
        ensures
            final(self).wf(),
            final(self)@ == old(self)@.push(m@),
            final(self).rw_lock == old(self).rw_lock,
    {
        self.modules.push(m);
        proof {
            assert(self@ =~= old(self)@.push(m@));
            let ms = self@;
            let ms0 = old(self)@;
            assert forall|i: int| 0 <= i < ms.len() implies module_handles_ok(ms, #[trigger] ms[i]) by {
                if i < ms0.len() {
                    assert(module_handles_ok(ms0, ms0[i]));
                    assert forall|j: int| 0 <= j < ms[i].inputs.len()
                        implies handle_ok(ms, #[trigger] ms[i].inputs[j]) by {
                        lemma_handle_extends(ms0, m@, ms[i].inputs[j]);
                    }
                    assert forall|p: int| 0 <= p < ms[i].params.len()
                        implies handle_ok(ms, (#[trigger] ms[i].params[p]).modulation) by {
                        lemma_handle_extends(ms0, m@, ms[i].params[p].modulation);
                    }
                }
            }
        }
    }

    /// Remove the module at `pos`, compacting the array. Every incident
    /// connection must already be torn down: nothing may still point at
    /// the departing module.
    pub fn remove_at(&mut self, pos: usize)
        requires
            old(self).wf(),
            pos < old(self)@.len(),
            forall|i: int, j: int| 0 <= i < old(self)@.len()
                && 0 <= j < old(self)@[i].inputs.len()
                ==> (#[trigger] old(self)@[i].inputs[j]).source
                    != Some((old(self)@[pos as int].id, old(self)@[i].inputs[j].source->Some_0.1)),
            forall|i: int, p: int| 0 <= i < old(self)@.len()
                && 0 <= p < old(self)@[i].params.len()
                ==> (#[trigger] old(self)@[i].params[p]).modulation.source
                    != Some((
                        old(self)@[pos as int].id,
                        old(self)@[i].params[p].modulation.source->Some_0.1,
                    )),
        ensures
            final(self).wf(),
            final(self)@ == old(self)@.remove(pos as int),
            final(self).rw_lock == old(self).rw_lock,
    {
        let _removed = self.modules.remove(pos);
        proof {
            assert(self@ =~= old(self)@.remove(pos as int));
            let ms = self@;
            let ms0 = old(self)@;
            let removed_id = ms0[pos as int].id;
            assert forall|i: int| 0 <= i < ms.len() implies module_handles_ok(ms, #[trigger] ms[i]) by {
                let iold: int = if i < pos { i } else { i + 1 };
                assert(ms[i] == ms0[iold]);
                assert(module_handles_ok(ms0, ms0[iold]));
                assert forall|j: int| 0 <= j < ms[i].inputs.len()
                    implies handle_ok(ms, #[trigger] ms[i].inputs[j]) by {
                    assert(handle_ok(ms0, ms0[iold].inputs[j]));
                    lemma_handle_shrinks(ms0, pos as int, ms[i].inputs[j]);
                }
                assert forall|p: int| 0 <= p < ms[i].params.len()
                    implies handle_ok(ms, (#[trigger] ms[i].params[p]).modulation) by {
                    assert(handle_ok(ms0, ms0[iold].params[p].modulation));
                    lemma_handle_shrinks(ms0, pos as int, ms[i].params[p].modulation);
                }
            }
        }
    }
}

impl ModuleStore {
    /// Copy the samples a handle reads: the read buffer of the output it
    /// points at, or silence when disconnected.
    fn resolve_input_exec(&self, inp: AudioInput) -> (r: AudioBuffer)
        requires
            handle_ok(self@, inp),
            forall|i: int| 0 <= i < self@.len() ==> (#[trigger] self@[i]).wf(),
        ensures
            r.wf(),
            r@ == resolve_input(self@, inp),
    {
        match inp.source {
            None => AudioBuffer::new(),
            Some((mid, oidx)) => {
                let pos = match self.position_of(mid) {
                    Some(p) => p,
                    None => {
                        proof {
                            assert(false);
                        }
                        vstd::pervasive::unreached()
                    },
                };
                proof {
                    assert(find_index(self@, mid) == pos);
                    assert((oidx as int) < self@[pos as int].outputs.len());
                    assert(self@[pos as int].wf());
                    assert(self@[pos as int].outputs[oidx as int]
                        == self.modules@[pos as int].outputs@[oidx as int]@);
                    assert(self.modules@[pos as int].outputs@[oidx as int].wf());
                }
                self.modules[pos].outputs[oidx].read_buffer().duplicate()
            },
        }
    }

    /// Process the module at `pos` for one quantum: resolve what its
    /// handles read, refresh its parameters, run its DSP. Everything the
    /// resolution reads is a read buffer, which processing never writes,
    /// so the result is `step_module` of the store as it stood when the
    /// leader swapped the buffers — whatever has been processed since.
    pub fn process_module_at(&mut self, pos: usize, quantum: u64)
        requires
            old(self).wf(),
            pos < old(self)@.len(),
        ensures
            final(self).wf(),
            final(self)@ == old(self)@.update(pos as int, step_module(old(self)@, pos as int, quantum)),
            final(self).rw_lock == old(self).rw_lock,
    {
        let ghost ms0 = self@;
        let ghost m0 = self@[pos as int];
        // Resolve the input read buffers.
        let n_in = self.modules[pos].inputs.len();
        let mut rins: Vec<AudioBuffer> = Vec::new();
        let mut j: usize = 0;
        while j < n_in
            invariant
                j <= n_in,
                *self == *old(self),
                self@ == ms0,
                old(self).wf(),
                pos < self@.len(),
                m0 == self@[pos as int],
                n_in == m0.inputs.len(),
                rins@.len() == j,
                forall|k: int| 0 <= k < j ==> (#[trigger] rins@[k]).wf(),
                forall|k: int| 0 <= k < j
                    ==> (#[trigger] rins@[k])@ == resolve_input(ms0, m0.inputs[k]),
            decreases n_in - j,
        {
            let inp = self.modules[pos].inputs[j];
            proof {
                assert(module_handles_ok(ms0, m0));
                assert(handle_ok(ms0, m0.inputs[j as int]));
            }
            let buf = self.resolve_input_exec(inp);
            rins.push(buf);
            j = j + 1;
        }
        // Resolve the parameter modulation read buffers.
        let n_par = self.modules[pos].params.len();
        let mut rmods: Vec<Option<AudioBuffer>> = Vec::new();
        let mut p: usize = 0;
        while p < n_par
            invariant
                p <= n_par,
                *self == *old(self),
                self@ == ms0,
                old(self).wf(),
                pos < self@.len(),
                m0 == self@[pos as int],
                n_par == m0.params.len(),
                rmods@.len() == p,
                forall|k: int| 0 <= k < p
                    ==> (#[trigger] rmods@[k]) is Some ==> rmods@[k].unwrap().wf(),
                forall|k: int| 0 <= k < p ==> (match #[trigger] rmods@[k] {
                    Some(b) => Some(b@),
                    None => None,
                }) == resolved_mods(ms0, m0)[k],
            decreases n_par - p,
        {
            let modulation = self.modules[pos].params[p].modulation;
            proof {
                assert(module_handles_ok(ms0, m0));
                assert(handle_ok(ms0, m0.params[p as int].modulation));
                assert(m0.params[p as int].modulation == modulation);
            }
            if modulation.is_connected() {
                let buf = self.resolve_input_exec(modulation);
                rmods.push(Some(buf));
            } else {
                rmods.push(None);
            }
            p = p + 1;
        }
        // Step the module.
        proof {
            assert(bufs_view(rins@) =~= resolved_inputs(ms0, m0));
            assert(mods_view(rmods@) =~= resolved_mods(ms0, m0));
            assert(m0.wf());
        }
        let mut m = self.modules.remove(pos);
        m.process(quantum, &rins, &rmods);
        self.modules.insert(pos, m);
        proof {
            assert(self@ =~= ms0.update(pos as int, step_module(ms0, pos as int, quantum)));
            lemma_step_preserves_frame(ms0, pos as int, quantum);
            lemma_store_wf_after_step(ms0, pos as int, quantum);
        }
    }

    /// Swap every module's output buffer pair: the leader's first act of
    /// each quantum. Afterwards every read buffer holds exactly what its
    /// module wrote during the previous quantum.
    pub fn swap_buffers(&mut self)
        requires
            old(self).wf(),
        ensures
            final(self).wf(),
            final(self)@ == swap_all(old(self)@),
            final(self).rw_lock == old(self).rw_lock,
    {
        let n = self.modules.len();
        let mut i: usize = 0;
        while i < n
            invariant
                i <= n,
                self.modules@.len() == n,
                old(self).modules@.len() == n,
                old(self).wf(),
                self.rw_lock == old(self).rw_lock,
                forall|j: int| i <= j < n
                    ==> (#[trigger] self.modules@[j]) == old(self).modules@[j],
                forall|j: int| 0 <= j < i
                    ==> (#[trigger] self.modules@[j]@) == swap_module(old(self)@[j]),
            decreases n - i,
        {
            let ghost prev = self.modules@;
            let mut m = self.modules.remove(i);
            proof {
                assert(old(self)@[i as int].wf());
            }
            m.swap_output_buffers();
            self.modules.insert(i, m);
            proof {
                assert(self.modules@ =~= prev.update(i as int, self.modules@[i as int]));
            }
            i = i + 1;
        }
        proof {
            assert(self@ =~= swap_all(old(self)@));
            lemma_store_wf_after_swap(old(self)@);
        }
    }

    /// Process every module once, in the order given — the order in which
    /// workers happened to claim them. The result is the same whatever
    /// that order: each module's new state is a function of the store as
    /// the leader left it after the swap, because processing writes no
    /// buffer that any resolution reads.
    #[verifier::rlimit(100)]
    pub fn process_modules_in_order(&mut self, order: &Vec<usize>, quantum: u64)
        requires
            old(self).wf(),
            order@.len() == old(self)@.len(),
            forall|k: int| 0 <= k < order@.len() ==> (#[trigger] order@[k]) < old(self)@.len(),
            forall|k1: int, k2: int| 0 <= k1 < k2 < order@.len()
                ==> order@[k1] != order@[k2],
            forall|i: int| 0 <= i < old(self)@.len() ==> #[trigger] order_contains(order@, i),
        ensures
            final(self).wf(),
            final(self)@ == quantum_result(old(self)@, quantum),
            final(self).rw_lock == old(self).rw_lock,
    {
        let ghost ms0 = self@;
        let n = order.len();
        let mut k: usize = 0;
        while k < n
            invariant
                k <= n,
                n == order@.len(),
                n == ms0.len(),
                self@.len() == ms0.len(),
                store_wf(ms0),
                store_wf(self@),
                self.rw_lock == old(self).rw_lock,
                forall|k2: int| 0 <= k2 < order@.len()
                    ==> (#[trigger] order@[k2]) < ms0.len(),
                forall|k1: int, k2: int| 0 <= k1 < k2 < order@.len()
                    ==> order@[k1] != order@[k2],
                same_frame(ms0, self@),
                forall|j: int| 0 <= j < k
                    ==> self@[order@[j] as int] == step_module(ms0, order@[j] as int, quantum),
                forall|i: int| 0 <= i < ms0.len()
                    && (forall|j: int| 0 <= j < k ==> order@[j] != i)
                    ==> self@[i] == ms0[i],
            decreases n - k,
        {
            let i = order[k];
            proof {
                assert(forall|j: int| 0 <= j < k ==> order@[j] != i as int);
                assert(self@[i as int] == ms0[i as int]);
                assert(module_handles_ok(ms0, ms0[i as int]));
                lemma_step_same_frame(ms0, self@, i as int, quantum);
            }
            let ghost before = self@;
            self.process_module_at(i, quantum);
            proof {
                assert(self@ == before.update(i as int, step_module(before, i as int, quantum)));
                assert(step_module(before, i as int, quantum)
                    == step_module(ms0, i as int, quantum));
                lemma_step_preserves_frame(before, i as int, quantum);
                lemma_same_frame_trans(ms0, before, self@);
            }
            k = k + 1;
        }
        proof {
            assert forall|i: int| 0 <= i < ms0.len()
                implies self@[i] == step_module(ms0, i, quantum) by {
                assert(order_contains(order@, i));
                let w = choose|k2: int| 0 <= k2 < order@.len() && (#[trigger] order@[k2]) == i;
                assert(self@[order@[w] as int] == step_module(ms0, order@[w] as int, quantum));
            }
            assert(self@ =~= quantum_result(ms0, quantum));
        }
    }
}

/// The claim order reaches index `i`: part of being a permutation.
pub open spec fn order_contains(order: Seq<usize>, i: int) -> bool {
    exists|k: int| 0 <= k < order.len() && (#[trigger] order[k]) == i
}

impl ModuleStore {
    /// Install or reset one input handle. A handle being installed must
    /// point at a live output.
    pub fn set_input_source(&mut self, pos: usize, j: usize, source: Option<(ModuleId, usize)>)
        requires
            old(self).wf(),
            pos < old(self)@.len(),
            j < old(self)@[pos as int].inputs.len(),
            handle_ok(old(self)@, AudioInput { source }),
        ensures
            final(self).wf(),
            final(self)@ == old(self)@.update(pos as int, ModuleView {
                inputs: old(self)@[pos as int].inputs.update(j as int, AudioInput { source }),
                ..old(self)@[pos as int]
            }),
            final(self).rw_lock == old(self).rw_lock,
    {
        let ghost prev = self.modules@;
        let mut m = self.modules.remove(pos);
        m.inputs.set(j, AudioInput { source });
        self.modules.insert(pos, m);
        proof {
            assert(self.modules@ =~= prev.update(pos as int, self.modules@[pos as int]));
            let target = old(self)@.update(pos as int, ModuleView {
                inputs: old(self)@[pos as int].inputs.update(j as int, AudioInput { source }),
                ..old(self)@[pos as int]
            });
            assert(self@[pos as int] =~= target[pos as int]);
            assert(self@ =~= target);
            lemma_store_wf_after_handle_change(old(self)@, self@, pos as int);
        }
    }

    /// Install or reset one parameter's modulation handle.
    pub fn set_param_modulation_source(
        &mut self,
        pos: usize,
        pid: usize,
        source: Option<(ModuleId, usize)>,
    )
        requires
            old(self).wf(),
            pos < old(self)@.len(),
            pid < old(self)@[pos as int].params.len(),
            handle_ok(old(self)@, AudioInput { source }),
        ensures
            final(self).wf(),
            final(self)@ == old(self)@.update(pos as int, ModuleView {
                params: old(self)@[pos as int].params.update(pid as int, AudioParamView {
                    modulation: AudioInput { source },
                    ..old(self)@[pos as int].params[pid as int]
                }),
                ..old(self)@[pos as int]
            }),
            final(self).rw_lock == old(self).rw_lock,
    {
        let ghost prev = self.modules@;
        let mut m = self.modules.remove(pos);
        let ghost prev_params = m.params@;
        let mut p = m.params.remove(pid);
        p.modulation = AudioInput { source };
        m.params.insert(pid, p);
        self.modules.insert(pos, m);
        proof {
            assert(self.modules@ =~= prev.update(pos as int, self.modules@[pos as int]));
            let target = old(self)@.update(pos as int, ModuleView {
                params: old(self)@[pos as int].params.update(pid as int, AudioParamView {
                    modulation: AudioInput { source },
                    ..old(self)@[pos as int].params[pid as int]
                }),
                ..old(self)@[pos as int]
            });
            assert(self@[pos as int].params =~= target[pos as int].params);
            assert(self@[pos as int] =~= target[pos as int]);
            assert(self@ =~= target);
            lemma_store_wf_after_handle_change(old(self)@, self@, pos as int);
        }
    }

    /// Enqueue a new target on one parameter, rebasing its ramp at the
    /// given quantum.
    pub fn set_param_target(&mut self, pos: usize, pid: usize, value: i64, quantum: u64)
        requires
            old(self).wf(),
            pos < old(self)@.len(),
            pid < old(self)@[pos as int].params.len(),
            crate::sample::in_range(value as int),
        ensures
            final(self).wf(),
            final(self)@ == old(self)@.update(pos as int, ModuleView {
                params: old(self)@[pos as int].params.update(pid as int, AudioParamView {
                    target: value,
                    target_set_at_quantum: quantum,
                    previous: old(self)@[pos as int].params[pid as int]
                        .buffer[crate::QUANTUM_SIZE - 1],
                    ..old(self)@[pos as int].params[pid as int]
                }),
                ..old(self)@[pos as int]
            }),
            final(self).rw_lock == old(self).rw_lock,
    {
        let ghost prev = self.modules@;
        let mut m = self.modules.remove(pos);
        let mut p = m.params.remove(pid);
        proof {
            assert(old(self)@[pos as int].params[pid as int].wf());
            assert(p@ == old(self)@[pos as int].params[pid as int]);
        }
        p.set_target(value, quantum);
        m.params.insert(pid, p);
        self.modules.insert(pos, m);
        proof {
            assert(self.modules@ =~= prev.update(pos as int, self.modules@[pos as int]));
            let target = old(self)@.update(pos as int, ModuleView {
                params: old(self)@[pos as int].params.update(pid as int, AudioParamView {
                    target: value,
                    target_set_at_quantum: quantum,
                    previous: old(self)@[pos as int].params[pid as int]
                        .buffer[crate::QUANTUM_SIZE - 1],
                    ..old(self)@[pos as int].params[pid as int]
                }),
                ..old(self)@[pos as int]
            });
            assert(self@[pos as int].params =~= target[pos as int].params);
            assert(self@[pos as int] =~= target[pos as int]);
            assert(self@ =~= target);
            lemma_store_wf_after_handle_change(old(self)@, self@, pos as int);
        }
    }

    /// Deliver an in-band message to the module at `pos`.
    pub fn deliver_message(&mut self, pos: usize, message: crate::module::ModuleMessage)
        requires
            old(self).wf(),
            pos < old(self)@.len(),
            crate::module::handles_message(old(self)@[pos as int].kind, &message),
            crate::module::message_wf(&message),
        ensures
            final(self).wf(),
            final(self)@ == old(self)@.update(
                pos as int,
                crate::module::module_with_message(old(self)@[pos as int], &message),
            ),
            final(self).rw_lock == old(self).rw_lock,
    {
        let ghost prev = self.modules@;
        let mut m = self.modules.remove(pos);
        proof {
            assert(m@ == old(self)@[pos as int]);
            assert(old(self)@[pos as int].wf());
        }
        m.on_message(message);
        self.modules.insert(pos, m);
        proof {
            assert(self.modules@ =~= prev.update(pos as int, self.modules@[pos as int]));
            assert(self@ =~= old(self)@.update(
                pos as int,
                crate::module::module_with_message(old(self)@[pos as int], &message),
            ));
            lemma_store_wf_after_handle_change(old(self)@, self@, pos as int);
        }
    }
}

/// One module's pending events, each tagged with its id, oldest first.
pub open spec fn tagged_events(m: ModuleView) -> Seq<crate::module::ModuleEventWithId> {
    Seq::new(
        m.events.len(),
        |e: int| crate::module::ModuleEventWithId { id: m.id, event: m.events[e] },
    )
}

/// The events of the first `n` modules, in store order.
pub open spec fn all_events_prefix(ms: Seq<ModuleView>, n: int) -> Seq<
    crate::module::ModuleEventWithId,
>
    decreases n,
{
    if n <= 0 {
        Seq::empty()
    } else {
        all_events_prefix(ms, n - 1) + tagged_events(ms[n - 1])
    }
}

/// Every pending event in the store, in store order, oldest first within
/// each module.
pub open spec fn all_events(ms: Seq<ModuleView>) -> Seq<crate::module::ModuleEventWithId> {
    all_events_prefix(ms, ms.len() as int)
}

impl ModuleStore {
    /// Drain every module's event queue, oldest first, in store order.
    pub fn drain_events(&mut self) -> (r: Vec<crate::module::ModuleEventWithId>)
        requires
            old(self).wf(),
        ensures
            final(self).wf(),
            r@ == all_events(old(self)@),
            final(self)@ == Seq::new(
                old(self)@.len(),
                |i: int| ModuleView { events: Seq::empty(), ..old(self)@[i] },
            ),
            final(self).rw_lock == old(self).rw_lock,
    {
        let ghost ms0 = self@;
        let mut result: Vec<crate::module::ModuleEventWithId> = Vec::new();
        let n = self.modules.len();
        let mut i: usize = 0;
        while i < n
            invariant
                i <= n,
                n == ms0.len(),
                self@.len() == ms0.len(),
                old(self).wf(),
                self.rw_lock == old(self).rw_lock,
                ms0 == old(self)@,
                result@ == all_events_prefix(ms0, i as int),
                forall|j: int| 0 <= j < i
                    ==> self@[j] == (ModuleView { events: Seq::empty(), ..ms0[j] }),
                forall|j: int| i <= j < n ==> (#[trigger] self.modules@[j])
                    == old(self).modules@[j],
            decreases n - i,
        {
            let ghost prev = self.modules@;
            let ghost views0 = self@;
            let mut m = self.modules.remove(i);
            let ghost base = result@;
            let n_ev = m.events.len();
            let mut e: usize = 0;
            while e < n_ev
                invariant
                    e <= n_ev,
                    n_ev == m.events@.len(),
                    m == old(self).modules@[i as int],
                    i < ms0.len(),
                    ms0 == old(self)@,
                    ms0[i as int] == old(self).modules@[i as int]@,
                    result@ == base + tagged_events(ms0[i as int]).subrange(0, e as int),
                decreases n_ev - e,
            {
                let ev = m.events[e];
                result.push(crate::module::ModuleEventWithId { id: m.id, event: ev });
                proof {
                    assert(result@ =~= base + tagged_events(ms0[i as int]).subrange(
                        0,
                        e + 1,
                    ));
                }
                e = e + 1;
            }
            m.events.clear();
            self.modules.insert(i, m);
            proof {
                assert(tagged_events(ms0[i as int]).subrange(
                    0,
                    n_ev as int,
                ) =~= tagged_events(ms0[i as int]));
                assert(result@ =~= all_events_prefix(ms0, i + 1));
                assert(self.modules@ =~= prev.update(i as int, self.modules@[i as int]));
                assert(self@[i as int] =~= (ModuleView { events: Seq::empty(), ..ms0[i as int] }));
                assert forall|j: int| 0 <= j < i implies self@[j] == (ModuleView {
                    events: Seq::empty(),
                    ..ms0[j]
                }) by {
                    assert(views0[j] == (ModuleView { events: Seq::empty(), ..ms0[j] }));
                    assert(self.modules@[j] == prev[j]);
                    assert(self@[j] == prev[j]@);
                    assert(views0[j] == prev[j]@);
                }
            }
            i = i + 1;
        }
        proof {
            assert(self@ =~= Seq::new(
                ms0.len(),
                |j: int| ModuleView { events: Seq::empty(), ..ms0[j] },
            ));
            lemma_store_wf_events_cleared(ms0, self@);
        }
        result
    }
}

/// Clearing event queues touches nothing well-formedness speaks of.
pub proof fn lemma_store_wf_events_cleared(ms0: Seq<ModuleView>, ms: Seq<ModuleView>)
    requires
        store_wf(ms0),
        ms.len() == ms0.len(),
        forall|i: int| 0 <= i < ms.len()
            ==> ms[i] == (ModuleView { events: Seq::empty(), ..ms0[i] }),
    ensures
        store_wf(ms),
{
    assert forall|i: int| 0 <= i < ms.len() implies (#[trigger] ms[i]).wf() by {
        assert(ms0[i].wf());
    }
    assert forall|i: int| 0 <= i < ms.len() implies ms0[i].id == ms[i].id by {}
    assert forall|i: int| 0 <= i < ms.len() implies module_handles_ok(ms, #[trigger] ms[i]) by {
        assert(module_handles_ok(ms0, ms0[i]));
        assert forall|x: int| 0 <= x < ms[i].inputs.len()
            implies handle_ok(ms, #[trigger] ms[i].inputs[x]) by {
            assert(handle_ok(ms0, ms0[i].inputs[x]));
            lemma_handle_ok_ids(ms0, ms, ms[i].inputs[x]);
        }
        assert forall|x: int| 0 <= x < ms[i].params.len()
            implies handle_ok(ms, (#[trigger] ms[i].params[x]).modulation) by {
            assert(handle_ok(ms0, ms0[i].params[x].modulation));
            lemma_handle_ok_ids(ms0, ms, ms[i].params[x].modulation);
        }
    }
}

/// Validity of a handle depends only on ids and output counts.
pub proof fn lemma_handle_ok_ids(ms1: Seq<ModuleView>, ms2: Seq<ModuleView>, inp: AudioInput)
    requires
        ms1.len() == ms2.len(),
        forall|i: int| 0 <= i < ms1.len() ==> ms1[i].id == (#[trigger] ms2[i]).id,
        forall|i: int| 0 <= i < ms1.len()
            ==> ms1[i].outputs.len() == (#[trigger] ms2[i]).outputs.len(),
        handle_ok(ms1, inp),
    ensures
        handle_ok(ms2, inp),
{
    match inp.source {
        None => {},
        Some((mid, oidx)) => {
            lemma_find_index_same_ids(ms1, ms2, mid);
            lemma_find_index(ms1, mid);
        },
    }
}

/// A store stays well-formed when one module changes without touching its
/// id, its kind, its output shapes, or any other module — the shape every
/// control-plane mutation has.
pub proof fn lemma_store_wf_after_handle_change(
    ms0: Seq<ModuleView>,
    ms: Seq<ModuleView>,
    pos: int,
)
    requires
        store_wf(ms0),
        0 <= pos < ms0.len(),
        ms.len() == ms0.len(),
        forall|i: int| 0 <= i < ms.len() && i != pos ==> ms[i] == ms0[i],
        ms[pos].id == ms0[pos].id,
        ms[pos].wf(),
        module_handles_ok(ms0, ms[pos]),
        ms[pos].outputs == ms0[pos].outputs,
    ensures
        store_wf(ms),
{
    assert forall|i: int| 0 <= i < ms.len() implies ms0[i].id == ms[i].id by {}
    assert(same_frame(ms0, ms));
    assert forall|i: int| 0 <= i < ms.len() implies module_handles_ok(ms, #[trigger] ms[i]) by {
        assert(module_handles_ok(ms0, ms[i]));
        assert forall|x: int| 0 <= x < ms[i].inputs.len()
            implies handle_ok(ms, #[trigger] ms[i].inputs[x]) by {
            lemma_handle_ok_same_frame(ms0, ms, ms[i].inputs[x]);
        }
        assert forall|x: int| 0 <= x < ms[i].params.len()
            implies handle_ok(ms, (#[trigger] ms[i].params[x]).modulation) by {
            lemma_handle_ok_same_frame(ms0, ms, ms[i].params[x].modulation);
        }
    }
}

/// Double-buffer isolation, the store's side: after the leader's swap,
/// every read buffer holds what its module wrote during the previous
/// quantum, and the whole work phase leaves every read buffer untouched —
/// so no reader ever observes a partially written quantum.
pub proof fn lemma_double_buffer_isolation(ms: Seq<ModuleView>, i: int, quantum: u64)
    requires
        store_wf(ms),
        0 <= i < ms.len(),
    ensures
        forall|x: int, o: int| 0 <= x < ms.len() && 0 <= o < ms[x].outputs.len()
            ==> (#[trigger] swap_all(ms)[x].outputs[o]).read_view()
                == ms[x].outputs[o].write_view(),
        forall|x: int, o: int| 0 <= x < ms.len() && 0 <= o < ms[x].outputs.len()
            ==> (#[trigger] ms.update(i, step_module(ms, i, quantum))[x].outputs[o]).read_view()
                == ms[x].outputs[o].read_view(),
{
    assert forall|x: int, o: int| 0 <= x < ms.len() && 0 <= o < ms[x].outputs.len()
        implies (#[trigger] swap_all(ms)[x].outputs[o]).read_view()
            == ms[x].outputs[o].write_view() by {
        assert(ms[x].outputs[o].wf());
        crate::audio_output::lemma_swap_exposes_written(ms[x].outputs[o]);
    }
    lemma_step_preserves_frame(ms, i, quantum);
}

/// Frames compose.
pub proof fn lemma_same_frame_trans(
    ms1: Seq<ModuleView>,
    ms2: Seq<ModuleView>,
    ms3: Seq<ModuleView>,
)
    requires
        same_frame(ms1, ms2),
        same_frame(ms2, ms3),
    ensures
        same_frame(ms1, ms3),
{
}

/// Processing one module in a well-formed store leaves it well-formed:
/// the stepped module is well-formed by its own contract, and every
/// handle still points where it pointed, at a module whose shape did not
/// change.
pub proof fn lemma_store_wf_after_step(ms: Seq<ModuleView>, i: int, quantum: u64)
    requires
        store_wf(ms),
        0 <= i < ms.len(),
        step_module(ms, i, quantum).wf(),
    ensures
        store_wf(ms.update(i, step_module(ms, i, quantum))),
{
    let stepped = step_module(ms, i, quantum);
    let ms2 = ms.update(i, stepped);
    lemma_processed_preserves_readers(
        ms[i],
        quantum,
        resolved_inputs(ms, ms[i]),
        resolved_mods(ms, ms[i]),
    );
    assert(stepped.inputs == ms[i].inputs);
    assert forall|p: int| 0 <= p < stepped.params.len()
        implies (#[trigger] stepped.params[p]).modulation == ms[i].params[p].modulation by {
        lemma_processed_keeps_modulations(ms, i, quantum, p);
    }
    assert(same_frame(ms, ms2));
    assert forall|j: int| 0 <= j < ms2.len() implies module_handles_ok(ms2, #[trigger] ms2[j]) by {
        assert(module_handles_ok(ms, ms[j]));
        assert forall|x: int| 0 <= x < ms2[j].inputs.len()
            implies handle_ok(ms2, #[trigger] ms2[j].inputs[x]) by {
            assert(handle_ok(ms, ms2[j].inputs[x]));
            lemma_handle_ok_same_frame(ms, ms2, ms2[j].inputs[x]);
        }
        assert forall|x: int| 0 <= x < ms2[j].params.len()
            implies handle_ok(ms2, (#[trigger] ms2[j].params[x]).modulation) by {
            assert(handle_ok(ms, ms2[j].params[x].modulation));
            lemma_handle_ok_same_frame(ms, ms2, ms2[j].params[x].modulation);
        }
    }
}

/// A processed parameter keeps its modulation handle.
pub proof fn lemma_processed_keeps_modulations(ms: Seq<ModuleView>, i: int, quantum: u64, p: int)
    requires
        store_wf(ms),
        0 <= i < ms.len(),
        0 <= p < step_module(ms, i, quantum).params.len(),
        p < ms[i].params.len(),
    ensures
        step_module(ms, i, quantum).params[p].modulation == ms[i].params[p].modulation,
{
}

/// Swapping buffer pairs leaves the store well-formed: ids, shapes, and
/// handles are untouched, and each output keeps both its buffers.
pub proof fn lemma_store_wf_after_swap(ms: Seq<ModuleView>)
    requires
        store_wf(ms),
    ensures
        store_wf(swap_all(ms)),
{
    let ms2 = swap_all(ms);
    assert forall|i: int| 0 <= i < ms2.len() implies (#[trigger] ms2[i]).wf() by {
        assert(ms[i].wf());
        assert forall|o: int| 0 <= o < ms2[i].outputs.len()
            implies (#[trigger] ms2[i].outputs[o]).wf() by {
            assert(ms[i].outputs[o].wf());
        }
    }
    assert forall|i: int| 0 <= i < ms2.len() implies module_handles_ok(ms2, #[trigger] ms2[i]) by {
        assert(module_handles_ok(ms, ms[i]));
        assert forall|x: int| 0 <= x < ms2[i].inputs.len()
            implies handle_ok(ms2, #[trigger] ms2[i].inputs[x]) by {
            lemma_handle_ok_swap(ms, ms2[i].inputs[x]);
        }
        assert forall|x: int| 0 <= x < ms2[i].params.len()
            implies handle_ok(ms2, (#[trigger] ms2[i].params[x]).modulation) by {
            lemma_handle_ok_swap(ms, ms2[i].params[x].modulation);
        }
    }
}

/// Swapping changes no id and no output count, so handles stay valid.
proof fn lemma_handle_ok_swap(ms: Seq<ModuleView>, inp: AudioInput)
    requires
        handle_ok(ms, inp),
    ensures
        handle_ok(swap_all(ms), inp),
{
    match inp.source {
        None => {},
        Some((mid, oidx)) => {
            let ms2 = swap_all(ms);
            lemma_find_index_same_ids(ms, ms2, mid);
            lemma_find_index(ms, mid);
        },
    }
}

/// Appending a module keeps every previously valid handle valid.
proof fn lemma_handle_extends(ms: Seq<ModuleView>, m: ModuleView, inp: AudioInput)
    requires
        handle_ok(ms, inp),
    ensures
        handle_ok(ms.push(m), inp),
{
    match inp.source {
        None => {},
        Some((mid, oidx)) => {
            lemma_find_index(ms, mid);
            lemma_find_index_push(ms, m, mid);
        },
    }
}

/// `find_index` on a pushed store: an id found before is found at the
/// same place.
pub proof fn lemma_find_index_push(ms: Seq<ModuleView>, m: ModuleView, id: ModuleId)
    requires
        find_index(ms, id) >= 0,
    ensures
        find_index(ms.push(m), id) == find_index(ms, id),
        ms.push(m)[find_index(ms, id)] == ms[find_index(ms, id)],
{
    lemma_find_index(ms, id);
    let i = find_index(ms, id);
    assert(ms.push(m)[i] == ms[i]);
    assert(forall|j: int| 0 <= j < i ==> ms.push(m)[j] == ms[j]);
    lemma_find_index_first(ms.push(m), id, i);
}

/// A handle that does not point at the removed module stays valid after
/// the removal, whichever way positions shifted.
proof fn lemma_handle_shrinks(ms: Seq<ModuleView>, pos: int, inp: AudioInput)
    requires
        0 <= pos < ms.len(),
        ids_unique(ms),
        handle_ok(ms, inp),
        match inp.source {
            None => true,
            Some((mid, oidx)) => mid != ms[pos].id,
        },
    ensures
        handle_ok(ms.remove(pos), inp),
        match inp.source {
            None => true,
            Some((mid, oidx)) => resolve_input(ms.remove(pos), inp) == resolve_input(ms, inp),
        },
{
    match inp.source {
        None => {},
        Some((mid, oidx)) => {
            lemma_find_index(ms, mid);
            let i = find_index(ms, mid);
            assert(i != pos);
            let ms2 = ms.remove(pos);
            let i2: int = if i < pos { i } else { i - 1 };
            assert(ms2[i2] == ms[i]);
            assert forall|j: int| 0 <= j < i2 implies ms2[j].id != mid by {
                let jold: int = if j < pos { j } else { j + 1 };
                assert(ms2[j] == ms[jold]);
            }
            lemma_find_index_first(ms2, mid, i2);
        },
    }
}

} // verus!
