//! A stop flag that one thread raises and others poll.

use std::sync::atomic::{AtomicBool, Ordering};
use vstd::prelude::*;

verus! {

/// A flag that starts lowered and, once raised, stays raised. Other threads may raise
/// it at any moment, so nothing is promised about what a poll returns.
pub struct ThreadStop {
    stopped: AtomicBool,
}

impl ThreadStop {
    pub fn new() -> Self {
        Self { stopped: AtomicBool::new(false) }
    }

    /// Raises the flag.
    pub fn stop(&self) {
        self.stopped.store(true, Ordering::SeqCst);
    }

    /// Whether the flag has been seen raised.
    pub fn is_stopped(&self) -> bool {
        self.stopped.load(Ordering::SeqCst)
    }
}

} // verus!
