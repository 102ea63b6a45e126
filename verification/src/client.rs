//! What a client decides: whether to try a failed call again, and what a
//! member does with its heartbeat.

use crate::raft::master::{ExecError, ExecResult};
use vstd::prelude::*;

verus! {

/// What to do about the outcome of a call.
#[derive(Clone, Copy, Debug, PartialEq, Eq, Structural)]
pub enum Decision {
    /// Hand the outcome to the caller.
    Return,
    /// Try again.
    Retry,
    /// Find the new leader, and try again there.
    Redirect,
    /// Stop trying: the caller gets `TooManyRetry`.
    GiveUp,
}

/// A failure of the transport: worth another try.
pub open spec fn is_transport(e: ExecError) -> bool {
    e == ExecError::ServersUnreachable || e == ExecError::CannotConstructClient
}

/// A failure of routing: the state machine or its function does not exist,
/// and will not for the asking.
pub open spec fn is_routing(e: ExecError) -> bool {
    e == ExecError::SmNotFound || e == ExecError::FnNotFound
}

/// What to do about an outcome after `attempts` tries, where no more than
/// `max_retry` further tries are allowed: a success and a failure of routing
/// go to the caller at once; a failure of the transport is tried again, and a
/// command that was not committed is tried at the new leader, until the tries
/// run out; anything else is final.
pub open spec fn decision_of(max_retry: u32, attempts: u32, error: Option<ExecError>) -> Decision {
    match error {
        None => Decision::Return,
        Some(e) => if is_transport(e) {
            if attempts < max_retry {
                Decision::Retry
            } else {
                Decision::GiveUp
            }
        } else if e == ExecError::NotCommitted {
            if attempts < max_retry {
                Decision::Redirect
            } else {
                Decision::GiveUp
            }
        } else {
            Decision::Return
        },
    }
}

/// The error of an outcome, if it is one.
pub open spec fn error_of(outcome: ExecResult) -> Option<ExecError> {
    match outcome {
        Ok(_) => None,
        Err(e) => Some(e),
    }
}

/// Decides what to do about the outcome of a call.
pub fn decide(max_retry: u32, attempts: u32, outcome: &ExecResult) -> (r: Decision)
    ensures
        r == decision_of(max_retry, attempts, error_of(*outcome)),
{
    match outcome {
        Ok(_) => Decision::Return,
        Err(ExecError::ServersUnreachable) | Err(ExecError::CannotConstructClient) => {
            if attempts < max_retry {
                Decision::Retry
            } else {
                Decision::GiveUp
            }
        },
        Err(ExecError::NotCommitted) => {
            if attempts < max_retry {
                Decision::Redirect
            } else {
                Decision::GiveUp
            }
        },
        Err(_) => Decision::Return,
    }
}

/// What the caller is handed in the end: on the outside the failures of
/// transport and consensus, on the inside those of the state machine.
pub fn settle(outcome: ExecResult) -> (r: Result<ExecResult, ExecError>)
    ensures
        match outcome {
            Ok(d) => r == Ok::<ExecResult, ExecError>(Ok(d)),
            Err(e) => if is_routing(e) {
                r == Ok::<ExecResult, ExecError>(Err(e))
            } else if is_transport(e) || e == ExecError::NotCommitted {
                r == Err::<ExecResult, ExecError>(ExecError::TooManyRetry)
            } else {
                r == Err::<ExecResult, ExecError>(e)
            },
        },
{
    match outcome {
        Ok(d) => Ok(Ok(d)),
        Err(ExecError::SmNotFound) => Ok(Err(ExecError::SmNotFound)),
        Err(ExecError::FnNotFound) => Ok(Err(ExecError::FnNotFound)),
        Err(ExecError::ServersUnreachable) => Err(ExecError::TooManyRetry),
        Err(ExecError::CannotConstructClient) => Err(ExecError::TooManyRetry),
        Err(ExecError::NotCommitted) => Err(ExecError::TooManyRetry),
        Err(ExecError::Unknown) => Err(ExecError::Unknown),
        Err(ExecError::TooManyRetry) => Err(ExecError::TooManyRetry),
    }
}

/// Where a member stands.
#[derive(Clone, Copy, Debug, PartialEq, Eq, Structural)]
pub enum MemberPhase {
    /// Registered, and sending heartbeats.
    Active,
    /// Registered still, and silent: it will be seen to go offline.
    Closed,
    /// Gone from the cluster.
    Left,
}

/// What happens to a member.
#[derive(Clone, Copy, Debug, PartialEq, Eq, Structural)]
pub enum MemberEvent {
    /// The heartbeat timer fired.
    Tick,
    /// The member was closed.
    Close,
    /// The member was told to leave.
    Leave,
}

/// What a member does next.
#[derive(Clone, Copy, Debug, PartialEq, Eq, Structural)]
pub enum MemberAction {
    Idle,
    /// Send a heartbeat under this id.
    Ping(u64),
    /// Submit the command that removes the member of this id.
    SubmitLeave(u64),
}

/// What a member of the given id does about an event, and where it stands
/// afterwards: it sends a heartbeat at each tick while it is active; closing
/// it stops the heartbeats and nothing else; leaving submits the command,
/// once, and stops everything.
pub open spec fn member_step(phase: MemberPhase, id: u64, event: MemberEvent) -> (
    MemberPhase,
    MemberAction,
) {
    match (phase, event) {
        (MemberPhase::Left, _) => (MemberPhase::Left, MemberAction::Idle),
        (_, MemberEvent::Leave) => (MemberPhase::Left, MemberAction::SubmitLeave(id)),
        (MemberPhase::Active, MemberEvent::Tick) => (MemberPhase::Active, MemberAction::Ping(id)),
        (_, MemberEvent::Close) => (MemberPhase::Closed, MemberAction::Idle),
        (MemberPhase::Closed, MemberEvent::Tick) => (MemberPhase::Closed, MemberAction::Idle),
    }
}

/// Decides what a member does about an event.
pub fn member_next(
    phase: MemberPhase,
    id: u64,
    event: MemberEvent,
) -> (r: (MemberPhase, MemberAction))
    ensures
        r == member_step(phase, id, event),
{
    match phase {
        MemberPhase::Left => (MemberPhase::Left, MemberAction::Idle),
        MemberPhase::Active => match event {
            MemberEvent::Leave => (MemberPhase::Left, MemberAction::SubmitLeave(id)),
            MemberEvent::Tick => (MemberPhase::Active, MemberAction::Ping(id)),
            MemberEvent::Close => (MemberPhase::Closed, MemberAction::Idle),
        },
        MemberPhase::Closed => match event {
            MemberEvent::Leave => (MemberPhase::Left, MemberAction::SubmitLeave(id)),
            MemberEvent::Tick => (MemberPhase::Closed, MemberAction::Idle),
            MemberEvent::Close => (MemberPhase::Closed, MemberAction::Idle),
        },
    }
}

} // verus!
