//! Message-routing and resource-lifecycle engine of a per-machine dataflow
//! daemon.
//!
//! The engine owns all mutable dataflow state: the registry of running
//! dataflows, the routing tables, the table of prepared output messages, and
//! the drop-token accounting over shared-memory segments. Every state change
//! is a plain function from the old state (plus an event) to the new state
//! and a list of actions; the surrounding process performs the I/O (socket
//! reads, channel sends with timeouts, node spawning) and feeds the outcomes
//! back in.

use vstd::prelude::*;

pub mod assoc;
pub mod engine;
pub mod laws;
pub mod shm;
pub mod types;

verus! {

/// Whether the event loop should keep running after an event was handled.
#[derive(Clone, Copy, PartialEq, Eq, Structural, Debug)]
pub enum RunStatus {
    Continue,
    Exit,
}

} // verus!
