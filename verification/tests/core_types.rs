//! Tests of the leaf components: buffers, double-buffered outputs,
//! parameters, edge detection, the generator, the barrier and the lock.
use modulate::audio_buffer::AudioBuffer;
use modulate::audio_output::AudioOutput;
use modulate::audio_input::AudioInput;
use modulate::audio_param::{AudioParam, AudioParamModulationType};
use modulate::barrier::Barrier;
use modulate::edge_detector::{Edge, EdgeDetector};
use modulate::rng::Rng;
use modulate::rw_lock::RwLock;
use modulate::sample::{ramp_sample, sat_add, sat_mul_unit};
use modulate::{PARAMETER_SMOOTHING_SAMPLES, QUANTUM_SIZE, SAMPLE_MAX, SAMPLE_UNIT};

#[test]
fn buffer_starts_silent_and_stores_samples() {
    let mut b = AudioBuffer::new();
    for s in 0..QUANTUM_SIZE {
        assert_eq!(b.at(s), 0);
    }
    b.set(3, 12345);
    assert_eq!(b.at(3), 12345);
    b.clear();
    assert_eq!(b.at(3), 0);
}

#[test]
fn sat_add_saturates_at_the_rails() {
    assert_eq!(sat_add(1, 2), 3);
    assert_eq!(sat_add(SAMPLE_MAX, SAMPLE_MAX), SAMPLE_MAX);
    assert_eq!(sat_add(-SAMPLE_MAX, -SAMPLE_MAX), -SAMPLE_MAX);
    assert_eq!(sat_add(SAMPLE_MAX, -SAMPLE_MAX), 0);
}

#[test]
fn sat_mul_unit_is_fixed_point_product() {
    // 0.5 * 0.5 == 0.25 in fixed point.
    assert_eq!(sat_mul_unit(SAMPLE_UNIT / 2, SAMPLE_UNIT / 2), SAMPLE_UNIT / 4);
    assert_eq!(sat_mul_unit(SAMPLE_UNIT, -SAMPLE_UNIT), -SAMPLE_UNIT);
    assert_eq!(sat_mul_unit(SAMPLE_MAX, SAMPLE_MAX), SAMPLE_MAX);
}

#[test]
fn ramp_sample_is_linear_and_clamped() {
    // From 0 toward 0.5 over the smoothing window.
    assert_eq!(ramp_sample(0, 32768, 0), 0);
    assert_eq!(ramp_sample(0, 32768, 10), 743);
    assert_eq!(ramp_sample(0, 32768, 440), 32693);
    assert_eq!(ramp_sample(0, 32768, PARAMETER_SMOOTHING_SAMPLES), 32768);
    assert_eq!(ramp_sample(0, 32768, 100000), 32768);
    assert_eq!(ramp_sample(0, 32768, -5), 0);
    // Downward ramps stay between the endpoints too.
    assert_eq!(ramp_sample(32768, 0, PARAMETER_SMOOTHING_SAMPLES), 0);
}

#[test]
fn output_swap_exposes_what_was_written() {
    let mut o = AudioOutput::new();
    o.write_at(0, 777);
    // Readers still see the silent previous buffer.
    assert_eq!(o.read_at(0), 0);
    o.swap();
    // The finished quantum is now the read buffer.
    assert_eq!(o.read_at(0), 777);
    // And the new write buffer does not leak into readers.
    o.write_at(0, -5);
    assert_eq!(o.read_at(0), 777);
    o.swap();
    assert_eq!(o.read_at(0), -5);
}

#[test]
fn input_connection_state() {
    let mut i = AudioInput::new();
    assert!(!i.is_connected());
    i.set(7, 1);
    assert!(i.is_connected());
    i.reset();
    assert!(!i.is_connected());
    // Re-resetting is idempotent.
    i.reset();
    assert!(!i.is_connected());
}

#[test]
fn param_ramps_toward_target() {
    let mut p = AudioParam::new(AudioParamModulationType::Additive);
    p.set_target(32768, 0);
    p.process(0, None);
    assert_eq!(p.at(0), 0);
    assert_eq!(p.at(10), 743);
    assert_eq!(p.at(100), 7430);
    // Quantum 3 holds sample 441 of the ramp: exactly the target.
    p.process(3, None);
    assert_eq!(p.at(56), 32693); // sample 440 overall
    assert_eq!(p.at(57), 32768); // sample 441: the ramp is done
    assert_eq!(p.at(127), 32768);
    // Once the ramp is done the value is constant.
    p.process(1000, None);
    assert_eq!(p.at(0), 32768);
}

#[test]
fn param_retarget_rebases_from_the_ramp_end() {
    let mut p = AudioParam::new(AudioParamModulationType::Additive);
    p.set_target(32768, 0);
    p.process(10, None); // ramp long done: buffer all 32768
    p.set_target(0, 11);
    p.process(11, None);
    // The new ramp starts from the previous ramp's last sample.
    assert_eq!(p.at(0), 32768);
    p.process(15, None);
    assert_eq!(p.at(127), 0);
}

#[test]
fn param_additive_modulation_adds() {
    let mut p = AudioParam::new(AudioParamModulationType::Additive);
    p.set_target(100, 0);
    let mut m = AudioBuffer::new();
    for s in 0..QUANTUM_SIZE {
        m.set(s, 1000);
    }
    p.process(50, None); // settle the ramp at 100
    p.process(50, Some(&m));
    assert_eq!(p.at(0), 1100);
}

#[test]
fn param_multiplicative_modulation_scales() {
    let mut p = AudioParam::new(AudioParamModulationType::Multiplicative);
    p.set_target(SAMPLE_UNIT, 0);
    let mut m = AudioBuffer::new();
    for s in 0..QUANTUM_SIZE {
        m.set(s, SAMPLE_UNIT / 4);
    }
    p.process(50, Some(&m));
    assert_eq!(p.at(0), SAMPLE_UNIT / 4);
    // Disconnected multiplicative modulation reads as identity, not zero.
    p.process(51, None);
    assert_eq!(p.at(0), SAMPLE_UNIT);
}

#[test]
fn edge_classification() {
    assert!(Edge::Rose.is_edge());
    assert!(Edge::Fell.is_edge());
    assert!(!Edge::High.is_edge());
    assert!(!Edge::Low.is_edge());
    assert!(Edge::Rose.is_high());
    assert!(Edge::High.is_high());
    assert!(Edge::Fell.is_low());
    assert!(Edge::Low.is_low());
    assert!(Edge::Rose.rose());
    assert!(!Edge::Fell.rose());
    assert!(Edge::Fell.fell());
    assert!(!Edge::Rose.fell());
}

#[test]
fn edge_detector_finds_crossings() {
    let mut d = EdgeDetector::new_default();
    assert!(d.step(0).is_low());
    assert!(d.step(SAMPLE_UNIT).rose());
    assert!(d.step(SAMPLE_UNIT).is_high());
    assert!(d.step(0).fell());
    assert!(d.step(0).is_low());
}

#[test]
fn rng_is_reproducible() {
    let mut a = Rng::new(42);
    assert_eq!(a.get_u32(), 0);
    assert_eq!(a.get_u32(), 210066564);
    assert_eq!(a.get_u32(), 812384312);
    let mut b = Rng::new(42);
    assert_eq!(b.get_u32(), 0);
    assert_eq!(b.get_u32(), 210066564);
}

#[test]
fn barrier_elects_the_last_arriver() {
    let mut b = Barrier::new(4);
    // Four workers arrive in a rotated order each generation; the last
    // arriver is elected, so every worker leads at least once.
    let mut led = [false; 4];
    for generation in 0..4usize {
        // This generation's arrival order: generation's worker arrives last.
        let order = [
            (generation + 1) % 4,
            (generation + 2) % 4,
            (generation + 3) % 4,
            generation,
        ];
        for (step, worker) in order.iter().enumerate() {
            let leader = b.wait();
            assert_eq!(leader, step == 3);
            if leader {
                led[*worker] = true;
            }
        }
    }
    assert!(led.iter().all(|l| *l));
}

#[test]
fn rw_lock_state_machine() {
    let mut l = RwLock::new();
    l.lock_read();
    l.lock_read();
    assert_eq!(l.state, 2);
    l.unlock_read();
    l.unlock_read();
    assert_eq!(l.state, 0);
    l.lock_write();
    assert_eq!(l.state, -1);
    l.unlock_write();
    assert_eq!(l.state, 0);
}
