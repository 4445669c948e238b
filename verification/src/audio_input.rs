//! A non-owning, nullable reference to another module's output.
use vstd::prelude::*;

verus! {

/// A handle to the output port of another module: the module's id and the
/// index of the output on that module. A disconnected input holds no handle
/// and reads as the silent sentinel (all zeros).
///
/// During a quantum no input handle is mutated; handles change only under
/// the store's write lock, between quanta.
#[derive(Clone, Copy)]
pub struct AudioInput {
    pub source: Option<(u32, usize)>,
}

impl AudioInput {
    /// A disconnected input: reads silence.
    pub fn new() -> (r: AudioInput)
        ensures
            r.source is None,
    {
        AudioInput { source: None }
    }

    /// Point this input at the given module output.
    pub fn set(&mut self, module: u32, output: usize)
        ensures
            final(self).source == Some((module, output)),
    {
        self.source = Some((module, output));
    }

    /// Rebind this input to the silent sentinel.
    pub fn reset(&mut self)
        ensures
            final(self).source is None,
    {
        self.source = None;
    }

    pub fn is_connected(&self) -> (r: bool)
        ensures
            r == (self.source is Some),
    {
        self.source.is_some()
    }
}

} // verus!
