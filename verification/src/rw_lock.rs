//! The state machine of a multi-reader / single-writer lock.
//!
//! The lock's state is one integer: `0` is idle, `n > 0` counts the readers
//! holding it, `-1` is a writer holding it. Each method here performs the
//! transition its name says; its `requires` states the condition the real
//! lock would block on until it holds. This design is not fair — a steady
//! stream of readers can starve a writer — and the engine tolerates that
//! because all readers release at each quantum boundary, leaving an idle
//! window for the writer.
use vstd::prelude::*;

verus! {

/// Multi-reader / single-writer lock state.
pub struct RwLock {
    pub state: i32,
}

impl RwLock {
    /// No writer holds the lock and the reader count is sound.
    pub open spec fn wf(&self) -> bool {
        self.state >= -1
    }

    /// Nobody holds the lock.
    pub open spec fn idle(&self) -> bool {
        self.state == 0
    }

    pub fn new() -> (r: RwLock)
        ensures
            r.wf(),
            r.idle(),
    {
        RwLock { state: 0 }
    }

    /// Take a read lock. A reader may enter whenever no writer holds the
    /// lock; the real lock waits on the state address until that holds.
    pub fn lock_read(&mut self)
        requires
            old(self).wf(),
            old(self).state >= 0,
            old(self).state < i32::MAX,
        ensures
            final(self).wf(),
            final(self).state == old(self).state + 1,
    {
        self.state = self.state + 1;
    }

    /// Release a read lock.
    pub fn unlock_read(&mut self)
        requires
            old(self).wf(),
            old(self).state >= 1,
        ensures
            final(self).wf(),
            final(self).state == old(self).state - 1,
    {
        self.state = self.state - 1;
    }

    /// Take the write lock. A writer may enter only when the lock is idle;
    /// the real lock waits on the state address until that holds.
    pub fn lock_write(&mut self)
        requires
            old(self).wf(),
            old(self).idle(),
        ensures
            final(self).wf(),
            final(self).state == -1,
    {
        self.state = -1;
    }

    /// Release the write lock.
    pub fn unlock_write(&mut self)
        requires
            old(self).wf(),
            old(self).state == -1,
        ensures
            final(self).wf(),
            final(self).idle(),
    {
        self.state = 0;
    }
}

} // verus!
