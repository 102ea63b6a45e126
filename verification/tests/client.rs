use bifrost::client::{
    decide, member_next, settle, Decision, MemberAction, MemberEvent, MemberPhase,
};
use bifrost::raft::master::ExecError;

#[test]
fn a_success_goes_to_the_caller() {
    assert_eq!(decide(3, 0, &Ok(vec![1])), Decision::Return);
    assert_eq!(settle(Ok(vec![1])), Ok(Ok(vec![1])));
}

#[test]
fn routing_errors_are_never_tried_again() {
    for e in [ExecError::SmNotFound, ExecError::FnNotFound] {
        assert_eq!(decide(3, 0, &Err(e)), Decision::Return);
        assert_eq!(settle(Err(e)), Ok(Err(e)));
    }
}

#[test]
fn transport_errors_are_tried_again_until_the_tries_run_out() {
    for e in [ExecError::ServersUnreachable, ExecError::CannotConstructClient] {
        assert_eq!(decide(3, 0, &Err(e)), Decision::Retry);
        assert_eq!(decide(3, 2, &Err(e)), Decision::Retry);
        assert_eq!(decide(3, 3, &Err(e)), Decision::GiveUp);
        assert_eq!(decide(0, 0, &Err(e)), Decision::GiveUp);
        assert_eq!(settle(Err(e)), Err(ExecError::TooManyRetry));
    }
}

#[test]
fn a_command_that_was_not_committed_goes_to_the_new_leader() {
    assert_eq!(decide(3, 1, &Err(ExecError::NotCommitted)), Decision::Redirect);
    assert_eq!(decide(3, 3, &Err(ExecError::NotCommitted)), Decision::GiveUp);
    assert_eq!(settle(Err(ExecError::NotCommitted)), Err(ExecError::TooManyRetry));
}

#[test]
fn the_rest_is_final() {
    for e in [ExecError::TooManyRetry, ExecError::Unknown] {
        assert_eq!(decide(3, 0, &Err(e)), Decision::Return);
        assert_eq!(settle(Err(e)), Err(e));
    }
}

#[test]
fn errors_have_their_names() {
    assert_eq!(ExecError::SmNotFound.to_string(), "SmNotFound");
    assert_eq!(ExecError::FnNotFound.to_string(), "FnNotFound");
    assert_eq!(ExecError::ServersUnreachable.to_string(), "ServersUnreachable");
    assert_eq!(ExecError::CannotConstructClient.to_string(), "CannotConstructClient");
    assert_eq!(ExecError::NotCommitted.to_string(), "NotCommitted");
    assert_eq!(ExecError::Unknown.to_string(), "Unknown");
    assert_eq!(ExecError::TooManyRetry.to_string(), "TooManyRetry");
}

#[test]
fn an_active_member_pings_at_each_tick() {
    assert_eq!(
        member_next(MemberPhase::Active, 7, MemberEvent::Tick),
        (MemberPhase::Active, MemberAction::Ping(7))
    );
}

#[test]
fn a_closed_member_stays_registered_and_silent() {
    assert_eq!(
        member_next(MemberPhase::Active, 7, MemberEvent::Close),
        (MemberPhase::Closed, MemberAction::Idle)
    );
    assert_eq!(
        member_next(MemberPhase::Closed, 7, MemberEvent::Tick),
        (MemberPhase::Closed, MemberAction::Idle)
    );
    assert_eq!(
        member_next(MemberPhase::Closed, 7, MemberEvent::Close),
        (MemberPhase::Closed, MemberAction::Idle)
    );
}

#[test]
fn leaving_submits_the_command_once() {
    assert_eq!(
        member_next(MemberPhase::Active, 7, MemberEvent::Leave),
        (MemberPhase::Left, MemberAction::SubmitLeave(7))
    );
    assert_eq!(
        member_next(MemberPhase::Closed, 7, MemberEvent::Leave),
        (MemberPhase::Left, MemberAction::SubmitLeave(7))
    );
    for e in [MemberEvent::Tick, MemberEvent::Close, MemberEvent::Leave] {
        assert_eq!(member_next(MemberPhase::Left, 7, e), (MemberPhase::Left, MemberAction::Idle));
    }
}
