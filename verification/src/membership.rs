//! The membership state machine: members, groups and elected group leaders,
//! advanced only by commands applied in log order.

pub mod audit;
pub mod client;
pub mod command;
pub mod laws;
pub mod lemmas;
pub mod model;
pub mod replay;
pub mod snapshot;
pub mod soundness;
pub mod state;
pub mod trace;
pub mod types;
pub mod wire;

pub use crate::membership::command::DEFAULT_SERVICE_ID;
