//! End-to-end audio scenarios: quantum processing, the stereo ring, the
//! smoothing law, back-pressure and feedback.
use modulate::engine::ModulateEngine;
use modulate::module::ModuleKind;
use modulate::{NUM_OUTPUT_BUFFERS, QUANTUM_SIZE, SAMPLE_UNIT};

/// Drive `n` quanta, draining the ring as the audio consumer would.
fn run_quanta(e: &mut ModulateEngine, n: usize) {
    for _ in 0..n {
        assert!(e.process_quantum());
        assert!(e.consume_quantum().is_some());
    }
}

/// A constant-one source: a square oscillator whose pulse width spans the
/// whole cycle and whose level is one.
fn constant_one_source(e: &mut ModulateEngine) -> u32 {
    let osc = e.create_module(ModuleKind::Oscillator);
    e.set_parameter_value(osc, 1, SAMPLE_UNIT).unwrap(); // pulse width: full
    e.set_parameter_value(osc, 2, SAMPLE_UNIT).unwrap(); // level: one
    osc
}

#[test]
fn single_silent_output() {
    // One audio-output module with volume target zero: every sample of
    // every produced quantum is zero.
    let mut e = ModulateEngine::new(1);
    let out = e.create_module(ModuleKind::AudioOut);
    e.set_parameter_value(out, 0, 0).unwrap();
    for _ in 0..4 {
        assert!(e.process_quantum());
        let (l, r) = e.consume_quantum().unwrap();
        for s in 0..QUANTUM_SIZE {
            assert_eq!(l.at(s), 0);
            assert_eq!(r.at(s), 0);
        }
    }
}

#[test]
fn silence_on_disconnect() {
    let mut e = ModulateEngine::new(1);
    let osc = constant_one_source(&mut e);
    e.set_parameter_value(osc, 0, 1 << 24).unwrap(); // let the phase move
    let out = e.create_module(ModuleKind::AudioOut);
    e.set_parameter_value(out, 0, SAMPLE_UNIT).unwrap();
    let c = e.connect_to_input((osc, 1), (out, 0)).unwrap();
    // With the oscillator wired in, sound comes out.
    let mut sum_abs: i64 = 0;
    for _ in 0..10 {
        assert!(e.process_quantum());
        let (l, _r) = e.consume_quantum().unwrap();
        for s in 0..QUANTUM_SIZE {
            sum_abs += l.at(s).abs();
        }
    }
    assert!(sum_abs > 0);
    // Tear the connection down: after a two-quantum grace (the output's
    // double buffer and the ring each lag one quantum), pure silence.
    e.remove_connection(c).unwrap();
    let mut quanta: Vec<Vec<i64>> = Vec::new();
    for _ in 0..10 {
        assert!(e.process_quantum());
        let (l, r) = e.consume_quantum().unwrap();
        let mut q: Vec<i64> = Vec::new();
        for s in 0..QUANTUM_SIZE {
            q.push(l.at(s));
            q.push(r.at(s));
        }
        quanta.push(q);
    }
    for q in quanta[2..].iter() {
        for v in q.iter() {
            assert_eq!(*v, 0);
        }
    }
}

#[test]
fn smoothing_law_on_a_gain_stage() {
    // A gain module fed by a constant-one source: the gain's output is
    // exactly the parameter ramp.
    let mut e = ModulateEngine::new(1);
    let src = constant_one_source(&mut e);
    let gain = e.create_module(ModuleKind::Gain);
    e.connect_to_input((src, 1), (gain, 0)).unwrap();
    // Let the source's own parameter ramps finish (441 samples), then
    // some more, up to quantum 100.
    run_quanta(&mut e, 100);
    assert_eq!(e.ring.worker_position, 100);
    // Set the gain to one half at quantum 100.
    e.set_parameter_value(gain, 0, SAMPLE_UNIT / 2).unwrap();
    run_quanta(&mut e, 2);
    // The gain module sits at store position 1; after processing quantum
    // 101, its read buffer holds quantum 100's samples.
    let g = &e.modules.modules[1];
    // Sample 0 of quantum 100 reads the old value: zero.
    assert_eq!(g.outputs[0].read_at(0), 0);
    // Mid-ramp samples follow the linear law exactly.
    assert_eq!(g.outputs[0].read_at(10), 743);
    assert_eq!(g.outputs[0].read_at(100), 7430);
    run_quanta(&mut e, 3);
    // Quantum 103 holds ramp samples 384..511; sample 441 and beyond read
    // exactly the target.
    let g = &e.modules.modules[1];
    assert_eq!(g.outputs[0].read_at(56), 32693); // ramp sample 440
    assert_eq!(g.outputs[0].read_at(57), 32768); // ramp sample 441
    assert_eq!(g.outputs[0].read_at(127), 32768);
}

#[test]
fn work_claim_order_does_not_change_samples() {
    // Two identical graphs, processed with opposite claim orders, write
    // identical buffers: the quantum reads only the previous quantum.
    let mut orders: Vec<Vec<usize>> = Vec::new();
    orders.push(vec![0, 1, 2]);
    orders.push(vec![2, 1, 0]);
    let mut results: Vec<Vec<i64>> = Vec::new();
    for order in orders.iter() {
        let mut e = ModulateEngine::new(1);
        let src = constant_one_source(&mut e);
        let gain = e.create_module(ModuleKind::Gain);
        let out = e.create_module(ModuleKind::AudioOut);
        e.connect_to_input((src, 1), (gain, 0)).unwrap();
        e.connect_to_input((gain, 0), (out, 0)).unwrap();
        e.set_parameter_value(gain, 0, SAMPLE_UNIT).unwrap();
        e.set_parameter_value(out, 0, SAMPLE_UNIT).unwrap();
        // A few quanta through the engine first.
        run_quanta(&mut e, 5);
        // Then one work phase by hand, claiming in the given order.
        e.modules.rw_lock.lock_read();
        e.modules.swap_buffers();
        e.modules.process_modules_in_order(order, 5);
        e.modules.rw_lock.unlock_read();
        let mut all: Vec<i64> = Vec::new();
        for m in 0..3 {
            // Swap once more so the quantum just written becomes readable.
            e.modules.modules[m].swap_output_buffers();
            let n_out = e.modules.modules[m].outputs.len();
            for o in 0..n_out {
                for s in 0..QUANTUM_SIZE {
                    all.push(e.modules.modules[m].outputs[o].read_at(s));
                }
            }
        }
        results.push(all);
    }
    assert_eq!(results[0], results[1]);
}

#[test]
fn ring_positions_advance_by_one() {
    let mut e = ModulateEngine::new(1);
    let _out = e.create_module(ModuleKind::AudioOut);
    assert_eq!(e.ring.worker_position, 0);
    assert_eq!(e.ring.consumer_position, 0);
    assert!(e.process_quantum());
    assert_eq!(e.ring.worker_position, 1);
    assert_eq!(e.ring.consumer_position, 0);
    assert!(e.consume_quantum().is_some());
    assert_eq!(e.ring.consumer_position, 1);
    // The consumer never overtakes the producer.
    assert!(e.consume_quantum().is_none());
    assert_eq!(e.ring.consumer_position, 1);
}

#[test]
fn back_pressure_blocks_after_a_full_ring() {
    let mut e = ModulateEngine::new(1);
    let _out = e.create_module(ModuleKind::AudioOut);
    // Without the consumer advancing, exactly R quanta fit.
    for _ in 0..NUM_OUTPUT_BUFFERS {
        assert!(e.process_quantum());
    }
    assert!(!e.process_quantum());
    assert!(!e.process_quantum());
    // One consumed quantum frees exactly one slot.
    assert!(e.consume_quantum().is_some());
    assert!(e.process_quantum());
    assert!(!e.process_quantum());
}

#[test]
fn feedback_cycle_runs_and_delays_by_one_quantum() {
    let mut e = ModulateEngine::new(1);
    let osc = constant_one_source(&mut e);
    // A varying waveform: the saw output with a moving phase.
    e.set_parameter_value(osc, 0, 1 << 22).unwrap();
    let a = e.create_module(ModuleKind::Gain);
    let b = e.create_module(ModuleKind::Gain);
    e.set_parameter_value(a, 0, SAMPLE_UNIT).unwrap();
    e.set_parameter_value(b, 0, SAMPLE_UNIT).unwrap();
    // osc -> a -> b -> osc's sync input: a cycle through the graph.
    e.connect_to_input((osc, 0), (a, 0)).unwrap();
    e.connect_to_input((a, 0), (b, 0)).unwrap();
    e.connect_to_input((b, 0), (osc, 0)).unwrap();
    // No deadlock: quanta keep coming.
    run_quanta(&mut e, 8);
    // Unit delay: what the gain writes in quantum t is what the
    // oscillator's read buffer held during quantum t — its t-1 output.
    let mut osc_prev: Vec<i64> = Vec::new();
    for s in 0..QUANTUM_SIZE {
        osc_prev.push(e.modules.modules[0].outputs[0].read_at(s));
    }
    // After one more quantum, the gain's read buffer holds its newest
    // finished quantum: the oscillator samples captured above, scaled by
    // a unit gain.
    run_quanta(&mut e, 1);
    for s in 0..QUANTUM_SIZE {
        assert_eq!(e.modules.modules[1].outputs[0].read_at(s), osc_prev[s]);
    }
}
