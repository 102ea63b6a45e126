//! The state machines that the host multiplexes onto its log.

use crate::membership::command::{
    answer_of, dec_command, dec_query, enc_reply, reply_of, DEFAULT_SERVICE_ID,
};
use crate::membership::model::{apply, State};
use crate::membership::snapshot::{dec_state, enc_state};
use crate::membership::state::Membership;
use crate::membership::types::{events_view, Event};
use crate::membership::wire::{encode_events, notices_of, notices_view, Notice, NoticeView};
use vstd::prelude::*;

verus! {

/// A state machine that can be registered with the host.
pub enum SubStateMachine {
    /// A membership state machine under the given id.
    Membership { id: u64, state: Membership },
}

/// A registered state machine as the model sees it.
pub struct SubView {
    pub id: u64,
    pub state: State,
}

impl View for SubStateMachine {
    type V = SubView;

    open spec fn view(&self) -> SubView {
        match *self {
            SubStateMachine::Membership { id, state } => SubView { id, state: state@ },
        }
    }
}

/// What applying a command does to a state machine.
pub struct SubStep {
    pub next: SubView,
    /// The reply, or nothing where the state machine knows no such command.
    pub reply: Option<Seq<u8>>,
    pub notices: Seq<NoticeView>,
}

/// What a command does to a registered state machine: where its function id
/// and payload spell a command, that command's effect, reply and notices, and
/// nothing otherwise.
pub open spec fn sub_cmd(sub: SubView, fn_id: u64, data: Seq<u8>) -> SubStep {
    match dec_command(fn_id, data) {
        Some(c) => SubStep {
            next: SubView { id: sub.id, state: apply(sub.state, c).state },
            reply: Some(enc_reply(reply_of(sub.state, c))),
            notices: notices_of(apply(sub.state, c).events),
        },
        None => SubStep { next: sub, reply: None, notices: Seq::empty() },
    }
}

/// What a query of a registered state machine answers.
pub open spec fn sub_qry(sub: SubView, fn_id: u64, data: Seq<u8>) -> Option<Seq<u8>> {
    match dec_query(fn_id, data) {
        Some(q) => Some(answer_of(sub.state, q)),
        None => None,
    }
}

/// What recovering a snapshot does to a registered state machine: it takes
/// the snapshot's state, or stays as it is where the bytes are no snapshot.
pub open spec fn sub_recover(sub: SubView, data: Seq<u8>) -> SubView {
    match dec_state(data) {
        Some(s) => SubView { id: sub.id, state: s },
        None => sub,
    }
}

/// Whether the clock of a state machine has room for a command with a
/// payload of `len` bytes.
pub open spec fn sub_has_room(sub: SubView, len: nat) -> bool {
    sub.state.term + len + 1 <= u64::MAX
}

impl SubStateMachine {
    /// A membership state machine without members or groups, under the
    /// well-known id.
    pub fn membership() -> (r: SubStateMachine)
        ensures
            r.wf(),
            r@ == (SubView { id: DEFAULT_SERVICE_ID, state: State::initial() }),
    {
        SubStateMachine::Membership { id: DEFAULT_SERVICE_ID, state: Membership::new() }
    }

    /// A membership state machine without members or groups, under an id of
    /// the caller's choice.
    pub fn membership_under(id: u64) -> (r: SubStateMachine)
        ensures
            r.wf(),
            r@ == (SubView { id, state: State::initial() }),
    {
        SubStateMachine::Membership { id, state: Membership::new() }
    }

    /// The invariant of the state machine inside.
    pub open spec fn wf(&self) -> bool {
        self@.state.wf()
    }

    /// The id under which the state machine is registered.
    pub fn id(&self) -> (r: u64)
        ensures
            r == self@.id,
    {
        match self {
            SubStateMachine::Membership { id, .. } => *id,
        }
    }

    /// A snapshot of the state machine.
    pub fn snapshot(&self) -> (r: Option<Vec<u8>>)
        ensures
            r is Some,
            r.unwrap()@ == enc_state(self@.state),
    {
        match self {
            SubStateMachine::Membership { state, .. } => Some(state.snapshot()),
        }
    }

    /// Takes the state of a snapshot. Where the bytes are no snapshot, nothing
    /// changes and the answer is `false`.
    pub fn recover(&mut self, data: &[u8]) -> (r: bool)
        requires
            old(self).wf(),
        ensures
            final(self).wf(),
            final(self)@ == sub_recover(old(self)@, data@),
            r == dec_state(data@) is Some,
    {
        match self {
            SubStateMachine::Membership { state, .. } => state.recover(data),
        }
    }

    /// Whether the clock has room for a command with a payload of `len`
    /// bytes.
    pub fn can_take(&self, len: usize) -> (r: bool)
        ensures
            r == sub_has_room(self@, len as nat),
    {
        match self {
            SubStateMachine::Membership { state, .. } => state.can_take(len),
        }
    }

    /// Takes a command as it stands in the log, and appends the notices of
    /// what it did.
    pub fn fn_dispatch_cmd(&mut self, fn_id: u64, data: &[u8], notices: &mut Vec<Notice>) -> (r:
        Option<Vec<u8>>)
        requires
            old(self).wf(),
            sub_has_room(old(self)@, data@.len()),
        ensures
            final(self).wf(),
            final(self)@ == sub_cmd(old(self)@, fn_id, data@).next,
            notices_view(final(notices)@) == notices_view(old(notices)@) + sub_cmd(
                old(self)@,
                fn_id,
                data@,
            ).notices,
            match r {
                Some(reply) => sub_cmd(old(self)@, fn_id, data@).reply == Some(reply@),
                None => sub_cmd(old(self)@, fn_id, data@).reply is None,
            },
    {
        match self {
            SubStateMachine::Membership { state, .. } => {
                let mut events: Vec<Event> = Vec::new();
                let r = state.fn_dispatch_cmd(fn_id, data, &mut events);
                proof {
                    assert(events_view(Seq::<Event>::empty()) + events_view(events@) =~= events_view(
                        events@,
                    ));
                    if dec_command(fn_id, data@) is None {
                        assert(notices_of(events_view(events@)) =~= Seq::<NoticeView>::empty());
                    }
                }
                encode_events(&events, notices);
                r
            },
        }
    }

    /// Takes a query as it was sent.
    pub fn fn_dispatch_qry(&self, fn_id: u64, data: &[u8]) -> (r: Option<Vec<u8>>)
        requires
            self.wf(),
        ensures
            match r {
                Some(answer) => sub_qry(self@, fn_id, data@) == Some(answer@),
                None => sub_qry(self@, fn_id, data@) is None,
            },
    {
        match self {
            SubStateMachine::Membership { state, .. } => state.fn_dispatch_qry(fn_id, data),
        }
    }
}

} // verus!
