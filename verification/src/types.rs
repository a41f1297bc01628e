//! Events, replies, plans and errors exchanged between the engine and the
//! process around it.
//!
//! Identifiers follow the wire protocol: node and data identifiers are opaque
//! strings, a dataflow identifier is a 128-bit value, and a drop token is an
//! engine-minted integer that is released exactly once. Subscriber queues are
//! named by integer channel handles; the process around the engine owns the
//! actual send halves and performs every timed send.

use vstd::prelude::*;

verus! {

/// Milliseconds a data-message delivery may block before the tick is dropped.
pub const SEND_TIMEOUT_MILLIS: u64 = 10;

/// Milliseconds a timer-tick delivery may block before the tick is dropped.
pub const TIMER_TIMEOUT_MILLIS: u64 = 1;

/// Seconds between two watchdog probes to the coordinator.
pub const WATCHDOG_INTERVAL_SECS: u64 = 5;

/// Timestamped message metadata, stamped by a hybrid logical clock outside
/// the engine and carried through unchanged.
#[derive(Clone, Copy, PartialEq, Eq, Structural, Debug)]
pub struct Metadata {
    pub timestamp: u64,
}

/// How one configured input of a node is fed.
#[derive(Debug)]
pub enum InputMapping {
    /// Fed by the named output of another node of the same dataflow.
    User { source: String, output: String, operator: Option<String> },
    /// Fed by a periodic timer tick.
    Timer { interval_nanos: u64 },
}

/// Parameters of one node of a dataflow to spawn: its identifier and its
/// configured inputs (input data id paired with its mapping).
#[derive(Debug)]
pub struct NodeConfig {
    pub node_id: String,
    pub inputs: Vec<(String, InputMapping)>,
}

/// Errors the engine reports; routing errors go back to the request
/// originator, the two fatal kinds end the event loop.
#[derive(Debug, Clone, PartialEq, Eq)]
pub enum EngineError {
    /// No running dataflow has the given identifier.
    NoSuchDataflow { dataflow_id: u128 },
    /// A running dataflow already has the given identifier.
    DuplicateDataflow { dataflow_id: u128 },
    /// An input mapping names a sub-operator, which is not supported.
    OperatorsNotSupported,
    /// A send referenced a prepare handle that is not in the prepared table.
    UnknownSharedMemoryId,
    /// The shared-memory segment for a prepared message could not be allocated.
    SharedMemoryAllocation,
    /// A watchdog probe to the coordinator failed; fatal.
    LostCoordinatorConnection,
    /// A node of a dataflow failed while the engine runs in standalone mode; fatal.
    NodeFailed { dataflow_id: u128, node_id: String },
}

impl EngineError {
    /// A fixed description of the error kind.
    pub fn message(&self) -> (r: &'static str)
        ensures
            (self matches EngineError::NoSuchDataflow { .. }) ==> r@
                == "no running dataflow with this ID"@,
            (self matches EngineError::DuplicateDataflow { .. }) ==> r@
                == "there is already a running dataflow with this ID"@,
            (self matches EngineError::OperatorsNotSupported) ==> r@
                == "operators are not supported"@,
            (self matches EngineError::UnknownSharedMemoryId) ==> r@ == "invalid shared memory id"@,
            (self matches EngineError::SharedMemoryAllocation) ==> r@
                == "failed to allocate shared memory"@,
            (self matches EngineError::LostCoordinatorConnection) ==> r@
                == "lost connection to coordinator"@,
            (self matches EngineError::NodeFailed { .. }) ==> r@ == "error in node"@,
    {
        match self {
            EngineError::NoSuchDataflow { .. } => "no running dataflow with this ID",
            EngineError::DuplicateDataflow { .. } => (
            "there is already a running dataflow with this ID"),
            EngineError::OperatorsNotSupported => "operators are not supported",
            EngineError::UnknownSharedMemoryId => "invalid shared memory id",
            EngineError::SharedMemoryAllocation => "failed to allocate shared memory",
            EngineError::LostCoordinatorConnection => "lost connection to coordinator",
            EngineError::NodeFailed { .. } => "error in node",
        }
    }
}

/// Result of handing a drop token back to the engine.
#[derive(Clone, Copy, PartialEq, Eq, Structural, Debug)]
pub enum DropOutcome {
    /// The token was the last reference; its segment was freed.
    Freed,
    /// The token was released; other tokens still reference its segment.
    Released,
    /// The token is not in the accounting table; ignored, never fatal.
    UnknownToken,
}

/// What the process around the engine observed for one planned delivery.
#[derive(Clone, Copy, PartialEq, Eq, Structural, Debug)]
pub enum DeliveryOutcome {
    /// The subscriber queue accepted the event within the timeout.
    Delivered,
    /// The subscriber queue is closed; the receiver is pruned.
    Closed,
    /// The send timed out; the event is dropped, nothing is recorded.
    TimedOut,
}

/// One planned delivery of an output message to a local subscriber.
#[derive(Debug)]
pub struct SendPlanEntry {
    pub receiver: String,
    pub input: String,
    pub channel: u64,
    pub drop_token: u64,
}

/// The shared-memory reference handed to each receiver of a fan-out.
#[derive(Debug)]
pub struct SendPlanData {
    pub segment: u64,
    pub shared_memory_id: String,
    pub len: usize,
}

/// Fan-out plan for one sent output message: the process performs one send
/// per entry, each bounded by `SEND_TIMEOUT_MILLIS`, and reports the outcomes.
#[derive(Debug)]
pub struct SendPlan {
    pub dataflow_id: u128,
    pub metadata: Metadata,
    pub data: Option<SendPlanData>,
    pub entries: Vec<SendPlanEntry>,
}

/// One planned timer-tick delivery (data is always absent for ticks).
#[derive(Debug)]
pub struct TimerPlanEntry {
    pub receiver: String,
    pub input: String,
    pub channel: u64,
}

/// Fan-out plan for one timer tick, each send bounded by `TIMER_TIMEOUT_MILLIS`.
#[derive(Debug)]
pub struct TimerPlan {
    pub metadata: Metadata,
    pub entries: Vec<TimerPlanEntry>,
}

/// State changes a `Stopped` event produced, for the process to act on after
/// it has acknowledged the stop to the node.
#[derive(Debug)]
pub struct StoppedEffects {
    /// Input-closed notifications: channel handle and the closed input id,
    /// sent best-effort without a timeout.
    pub notifications: Vec<(u64, String)>,
    /// The stopped node was the last running one: the dataflow was removed
    /// and the coordinator is to be told that all of its nodes finished.
    pub all_nodes_finished: bool,
}

/// Work a freshly installed dataflow asks of the process: spawn one child
/// process per node, then start one tick task per distinct timer interval.
#[derive(Debug)]
pub struct SpawnActions {
    pub spawn_nodes: Vec<String>,
    pub timer_intervals: Vec<u64>,
}

/// A command from the coordinator.
#[derive(Debug)]
pub enum CoordinatorEvent {
    Spawn { dataflow_id: u128, nodes: Vec<NodeConfig> },
    StopDataflow { dataflow_id: u128 },
    Destroy,
    Watchdog,
}

/// The reply sent back to the coordinator for one command.
#[derive(Debug)]
pub enum CoordinatorReply {
    /// Reply to both `Spawn` and `StopDataflow` (kept so for wire compatibility).
    SpawnResult(Result<(), EngineError>),
    DestroyResult(Result<(), EngineError>),
    WatchdogAck,
}

/// I/O the process performs after a coordinator command was handled.
#[derive(Debug)]
pub enum CoordinatorEffects {
    /// Spawn the nodes and start the timers of a new dataflow.
    SpawnDataflow(SpawnActions),
    /// Send a stop event on each of these drained subscriber channels.
    StopChannels(Vec<u64>),
    /// Nothing to do.
    NoEffect,
}

} // verus!
