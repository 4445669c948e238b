//! Control-plane tests: creating, wiring, rewiring and destroying modules,
//! message delivery and event collection.
use modulate::engine::{EngineError, ModulateEngine};
use modulate::module::{ModuleEvent, ModuleKind, ModuleMessage, Note};
use modulate::SAMPLE_UNIT;

#[test]
fn module_ids_are_fresh_and_shared_with_connections() {
    let mut e = ModulateEngine::new(1);
    let a = e.create_module(ModuleKind::Oscillator);
    let b = e.create_module(ModuleKind::Gain);
    assert_eq!(a, 0);
    assert_eq!(b, 1);
    let c = e.connect_to_input((a, 1), (b, 0)).unwrap();
    assert_eq!(c, 2);
    let d = e.create_module(ModuleKind::AudioOut);
    assert_eq!(d, 3);
}

#[test]
fn connect_rejects_dead_ids_and_bad_indices() {
    let mut e = ModulateEngine::new(1);
    let a = e.create_module(ModuleKind::Oscillator);
    let b = e.create_module(ModuleKind::Gain);
    assert_eq!(e.connect_to_input((99, 0), (b, 0)), Err(EngineError::NotFound));
    assert_eq!(e.connect_to_input((a, 0), (99, 0)), Err(EngineError::NotFound));
    // The oscillator has two outputs and the gain one input.
    assert_eq!(e.connect_to_input((a, 2), (b, 0)), Err(EngineError::InvalidEndpoint));
    assert_eq!(e.connect_to_input((a, 0), (b, 1)), Err(EngineError::InvalidEndpoint));
    assert!(e.connect_to_input((a, 0), (b, 0)).is_ok());
    // Parameter wiring checks the parameter index instead.
    assert_eq!(e.connect_to_parameter((a, 0), (b, 1)), Err(EngineError::InvalidEndpoint));
    assert!(e.connect_to_parameter((a, 0), (b, 0)).is_ok());
}

#[test]
fn disconnection_is_idempotent() {
    let mut e = ModulateEngine::new(1);
    let a = e.create_module(ModuleKind::Oscillator);
    let b = e.create_module(ModuleKind::Gain);
    let c = e.connect_to_input((a, 1), (b, 0)).unwrap();
    assert!(e.modules.modules[1].inputs[0].is_connected());
    assert_eq!(e.remove_connection(c), Ok(()));
    // The sink's input is back at the silent sentinel.
    assert!(!e.modules.modules[1].inputs[0].is_connected());
    // Removing the same id again finds nothing and changes nothing.
    assert_eq!(e.remove_connection(c), Err(EngineError::NotFound));
    assert!(!e.modules.modules[1].inputs[0].is_connected());
}

#[test]
fn set_parameter_value_reports_errors_exactly() {
    let mut e = ModulateEngine::new(1);
    let g = e.create_module(ModuleKind::Gain);
    assert_eq!(e.set_parameter_value(99, 0, 1), Err(EngineError::NotFound));
    assert_eq!(e.set_parameter_value(g, 1, 1), Err(EngineError::InvalidEndpoint));
    assert_eq!(e.set_parameter_value(g, 0, SAMPLE_UNIT), Ok(()));
}

#[test]
fn delete_module_tears_down_incident_connections() {
    let mut e = ModulateEngine::new(1);
    let osc = e.create_module(ModuleKind::Oscillator);
    let g1 = e.create_module(ModuleKind::Gain);
    let g2 = e.create_module(ModuleKind::Gain);
    let c1 = e.connect_to_input((osc, 1), (g1, 0)).unwrap();
    let c2 = e.connect_to_input((osc, 1), (g2, 0)).unwrap();
    let c3 = e.connect_to_parameter((g1, 0), (g2, 0)).unwrap();
    // Deleting the oscillator silences both gains' inputs and drops the
    // two connections out of it; the gain-to-gain edge survives.
    assert_eq!(e.delete_module(osc), Ok(()));
    assert_eq!(e.modules.len(), 2);
    assert!(!e.modules.modules[0].inputs[0].is_connected());
    assert!(!e.modules.modules[1].inputs[0].is_connected());
    assert!(e.modules.modules[1].params[0].modulation.is_connected());
    assert_eq!(e.remove_connection(c1), Err(EngineError::NotFound));
    assert_eq!(e.remove_connection(c2), Err(EngineError::NotFound));
    assert_eq!(e.remove_connection(c3), Ok(()));
    // Deleting a dead id reports `NotFound`.
    assert_eq!(e.delete_module(osc), Err(EngineError::NotFound));
}

#[test]
fn delete_module_resets_stale_sinks_too() {
    // A second connection into the same input overwrites the handle; the
    // stale table entry remains. Deleting the stale entry's source still
    // resets the sink, as removing that connection would.
    let mut e = ModulateEngine::new(1);
    let o1 = e.create_module(ModuleKind::Oscillator);
    let o2 = e.create_module(ModuleKind::Oscillator);
    let g = e.create_module(ModuleKind::Gain);
    let _stale = e.connect_to_input((o1, 0), (g, 0)).unwrap();
    let _live = e.connect_to_input((o2, 0), (g, 0)).unwrap();
    assert!(e.modules.modules[2].inputs[0].is_connected());
    assert_eq!(e.delete_module(o1), Ok(()));
    assert!(!e.modules.modules[1].inputs[0].is_connected());
}

#[test]
fn sequencer_messages_and_events() {
    let mut e = ModulateEngine::new(1);
    let seq = e.create_module(ModuleKind::Sequencer);
    let clk = e.create_module(ModuleKind::Oscillator);
    // A square at full level clocks the sequencer's gate input.
    e.set_parameter_value(clk, 2, SAMPLE_UNIT).unwrap(); // level
    e.set_parameter_value(clk, 1, SAMPLE_UNIT / 2).unwrap(); // pulse width
    e.set_parameter_value(clk, 0, 1 << 26).unwrap(); // fast phase increment
    e.connect_to_input((clk, 1), (seq, 0)).unwrap();
    let notes = vec![
        Note { voltage: SAMPLE_UNIT, gate: true },
        Note { voltage: 2 * SAMPLE_UNIT, gate: false },
    ];
    assert_eq!(e.send_message_to_module(seq, ModuleMessage::SequencerSetNotes { notes }), Ok(()));
    assert_eq!(
        e.send_message_to_module(99, ModuleMessage::SequencerSetNotes { notes: vec![] }),
        Err(EngineError::NotFound),
    );
    // Run enough quanta for the oscillator's level ramp and some edges.
    for _ in 0..8 {
        assert!(e.process_quantum());
        e.consume_quantum();
    }
    let events = e.collect_module_events();
    assert!(events.len() > 0);
    for ev in events.iter() {
        assert_eq!(ev.id, seq);
        let ModuleEvent::SequencerAdvance { position } = ev.event;
        assert!(position < 32);
    }
    // Draining leaves the queues empty.
    assert_eq!(e.collect_module_events().len(), 0);
}

#[test]
fn graph_edits_interleave_safely_with_processing() {
    let mut e = ModulateEngine::new(2);
    let out = e.create_module(ModuleKind::AudioOut);
    let mut last_gain = e.create_module(ModuleKind::Gain);
    e.connect_to_input((last_gain, 0), (out, 0)).unwrap();
    for round in 0..12u32 {
        assert!(e.process_quantum());
        let g = e.create_module(ModuleKind::Gain);
        let c = e.connect_to_input((g, 0), (last_gain, 0)).unwrap();
        assert!(e.process_quantum());
        if round % 3 == 0 {
            assert_eq!(e.remove_connection(c), Ok(()));
            assert_eq!(e.delete_module(g), Ok(()));
        } else if round % 3 == 1 {
            assert_eq!(e.delete_module(g), Ok(()));
        } else {
            last_gain = g;
        }
        e.consume_quantum();
        e.consume_quantum();
    }
    // The engine still produces and the wiring still answers correctly.
    assert!(e.process_quantum());
    assert!(e.consume_quantum().is_some());
    assert_eq!(e.delete_module(9999), Err(EngineError::NotFound));
}
