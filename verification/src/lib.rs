//! A replicated membership service.
//!
//! One ordered log drives several state machines. The host ([`raft`]) routes
//! each entry to the state machine that it names, keeps the registry of those
//! state machines and gathers their snapshots. The membership state machine
//! ([`membership`]) holds the members of a cluster, their groups and each
//! group's elected leader, and tells of every change. Liveness comes from
//! heartbeats ([`heartbeat`]), which never enter the log one by one; what the
//! state machines tell reaches subscribers over a bus ([`bus`]).
//!
//! Everything here is a function of its arguments: no clock is read, nothing
//! is sent. Time comes in as a number, and what is to be sent comes out as
//! bytes.

pub mod bus;
pub mod client;
pub mod codec;
pub mod hash;
pub mod heartbeat;
pub mod membership;
pub mod raft;
