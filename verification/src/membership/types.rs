//! The data that the membership state machine holds and hands out.

use crate::membership::model::{EventView, GroupView, MemberView, Topic};
use vstd::prelude::*;

verus! {

/// A member of the cluster, as queries and events show it.
#[derive(Debug, PartialEq, Eq)]
pub struct Member {
    pub id: u64,
    pub address: String,
    pub online: bool,
}

impl View for Member {
    type V = MemberView;

    open spec fn view(&self) -> MemberView {
        MemberView { id: self.id, address: self.address@, online: self.online }
    }
}

impl Clone for Member {
    fn clone(&self) -> (r: Member)
        ensures
            r@ == self@,
    {
        Member { id: self.id, address: self.address.clone(), online: self.online }
    }
}

/// A named set of members with its elected leader.
#[derive(Debug, PartialEq, Eq)]
pub struct Group {
    pub id: u64,
    pub name: String,
    pub members: Vec<u64>,
    pub leader: Option<u64>,
    pub term: u64,
}

impl View for Group {
    type V = GroupView;

    open spec fn view(&self) -> GroupView {
        GroupView {
            id: self.id,
            name: self.name@,
            members: self.members@,
            leader: self.leader,
            term: self.term as nat,
        }
    }
}

/// What the state machine tells its subscribers.
#[derive(Debug, PartialEq, Eq)]
#[allow(inconsistent_fields)]
pub enum Event {
    /// Something happened to a member: in the cluster as a whole where `group`
    /// is `None`, else within that group.
    Member { topic: Topic, group: Option<u64>, member: Member, term: u64 },
    /// The leader of a group changed.
    LeaderChanged { group: u64, old: Option<Member>, new: Option<Member>, term: u64 },
}

/// The model of a member that may be missing.
pub open spec fn option_member_view(m: Option<Member>) -> Option<MemberView> {
    match m {
        Some(m) => Some(m@),
        None => None,
    }
}

impl View for Event {
    type V = EventView;

    open spec fn view(&self) -> EventView {
        match *self {
            Event::Member { topic, group, member, term } => EventView::Member {
                topic,
                group,
                member: member@,
                term: term as nat,
            },
            Event::LeaderChanged { group, old, new, term } => EventView::LeaderChanged {
                group,
                old: option_member_view(old),
                new: option_member_view(new),
                term: term as nat,
            },
        }
    }
}

/// The model of a list of members.
pub open spec fn members_view(v: Seq<Member>) -> Seq<MemberView> {
    Seq::new(v.len(), |i: int| v[i]@)
}

/// The model of a list of groups.
pub open spec fn groups_view(v: Seq<Group>) -> Seq<GroupView> {
    Seq::new(v.len(), |i: int| v[i]@)
}

/// The model of a list of events.
pub open spec fn events_view(v: Seq<Event>) -> Seq<EventView> {
    Seq::new(v.len(), |i: int| v[i]@)
}

} // verus!
