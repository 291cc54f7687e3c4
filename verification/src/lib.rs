//! Core of a user-space cooperative task runtime: an event loop that couples
//! a readiness selector with a scheduler of named computations, a process-wide
//! pool of such loops with round-robin dispatch, and a join handle that drives
//! a loop until a named computation's result is available or a deadline
//! elapses.

use vstd::prelude::*;

pub mod selector;
pub mod scheduler;
pub mod event_loop;
pub mod join;
pub mod pool;

verus! {

/// Errors surfaced by the runtime's public operations.
#[derive(Clone, Copy, Debug, PartialEq, Eq, Structural)]
pub enum RuntimeError {
    /// A deadline elapsed before a join or selector wait completed.
    TimedOut,
}

} // verus!
