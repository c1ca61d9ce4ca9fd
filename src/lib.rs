//! Supervision of script runs: a registry of tasks, the state machine each
//! task moves through, the permission-prompt rendezvous between a running
//! script and an outside decision-maker, and the cancellation protocol.
//!
//! Everything here is a pure state machine: the host performs the actions
//! (spawning workers, blocking on channels, emitting notifications) and
//! reports what happened back through these functions.

pub mod permission;
pub mod task;
pub mod supervisor;
