//! The replicated state machine host: one ordered log, many state machines.

pub mod configs;
pub mod master;
pub mod snapshot;
pub mod sub;
pub mod wire;
