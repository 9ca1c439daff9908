//! Deadlock avoidance for a ring of workers sharing exclusive resources.
//!
//! `lock` models the bounded, polling acquisition primitive; `worker` models a
//! single participant of the ring; `table` wires workers and resources into a
//! ring and verifies the acquire/hold/release protocol as a state machine.

pub mod lock;
pub mod table;
pub mod worker;
