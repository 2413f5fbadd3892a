//! Core of a real-time state-synchronization server: the wire codec for
//! client/server messages, the per-connection protocol state machine, the
//! intent-coalescing aggregator, and the snapshot assembly — all verified.
//! Transport, timers and the simulation itself live outside this crate and
//! talk to it through plain values.

pub mod aggregator;
pub mod codec;
pub mod handler;
pub mod schema;
pub mod snapshot;
