//! The mathematical model of the membership state machine.
//!
//! A state is a list of members, a list of groups and a logical clock. Every
//! command is a function from a state to a next state and the events that the
//! transition emits.

use crate::hash::hash_str_spec;
use vstd::prelude::*;

verus! {

/// A member as the model sees it.
pub struct MemberView {
    pub id: u64,
    pub address: Seq<char>,
    pub online: bool,
}

/// A group as the model sees it.
pub struct GroupView {
    pub id: u64,
    pub name: Seq<char>,
    pub members: Seq<u64>,
    pub leader: Option<u64>,
    /// The value of the clock at the group's last mutation.
    pub term: nat,
}

/// What happened to a member.
#[derive(Clone, Copy, Debug, PartialEq, Eq, Structural)]
pub enum Topic {
    Joined,
    Left,
    Online,
    Offline,
}

/// An event as the model sees it.
#[allow(inconsistent_fields)]
pub enum EventView {
    /// Something happened to a member: in the cluster as a whole where `group`
    /// is `None`, else within that group.
    Member { topic: Topic, group: Option<u64>, member: MemberView, term: nat },
    /// The leader of a group changed.
    LeaderChanged { group: u64, old: Option<MemberView>, new: Option<MemberView>, term: nat },
}

/// The replicated state.
pub struct State {
    pub members: Seq<MemberView>,
    pub groups: Seq<GroupView>,
    /// The logical clock: it advances by one on every mutation.
    pub term: nat,
}

/// A transition: the next state and the events emitted on the way, in order.
pub struct Step {
    pub state: State,
    pub events: Seq<EventView>,
}

/// Whether there is a member of the given id.
pub open spec fn has_member(members: Seq<MemberView>, id: u64) -> bool {
    exists|i: int| 0 <= i < members.len() && (#[trigger] members[i]).id == id
}

/// The place of the member of the given id.
pub open spec fn member_pos(members: Seq<MemberView>, id: u64) -> int {
    choose|i: int| 0 <= i < members.len() && (#[trigger] members[i]).id == id
}

/// The member with the given id, if there is one.
pub open spec fn find_member(members: Seq<MemberView>, id: u64) -> Option<MemberView> {
    if has_member(members, id) {
        Some(members[member_pos(members, id)])
    } else {
        None
    }
}

/// The member that leads, if anybody does.
pub open spec fn find_leader(members: Seq<MemberView>, leader: Option<u64>) -> Option<MemberView> {
    match leader {
        Some(id) => find_member(members, id),
        None => None,
    }
}

/// Whether there is a member of the given id, and it is online.
pub open spec fn is_online(members: Seq<MemberView>, id: u64) -> bool {
    exists|i: int|
        0 <= i < members.len() && (#[trigger] members[i]).id == id && members[i].online
}

/// Whether there is a group of the given id.
pub open spec fn has_group(groups: Seq<GroupView>, id: u64) -> bool {
    exists|i: int| 0 <= i < groups.len() && (#[trigger] groups[i]).id == id
}

/// The place of the group of the given id.
pub open spec fn group_pos(groups: Seq<GroupView>, id: u64) -> int {
    choose|i: int| 0 <= i < groups.len() && (#[trigger] groups[i]).id == id
}

/// The rank of a member within a group: the lower, the more it is preferred
/// as leader. For a fixed group no two members share a rank.
pub open spec fn rank(member: u64, group: u64) -> u64 {
    member ^ group
}

/// The preferred of two candidates.
pub open spec fn better(best: Option<u64>, candidate: u64, group: u64) -> Option<u64> {
    match best {
        None => Some(candidate),
        Some(b) => if rank(candidate, group) < rank(b, group) {
            Some(candidate)
        } else {
            Some(b)
        },
    }
}

/// The leader that a group with these member ids elects: among those that are
/// online, the one of least rank.
pub open spec fn elect(members: Seq<MemberView>, candidates: Seq<u64>, group: u64) -> Option<u64>
    decreases candidates.len(),
{
    if candidates.len() == 0 {
        None
    } else {
        let rest = elect(members, candidates.drop_last(), group);
        if is_online(members, candidates.last()) {
            better(rest, candidates.last(), group)
        } else {
            rest
        }
    }
}

/// No two members share an id.
pub open spec fn distinct_member_ids(members: Seq<MemberView>) -> bool {
    forall|i: int, j: int|
        0 <= i < j < members.len() ==> (#[trigger] members[i]).id != (#[trigger] members[j]).id
}

/// No two groups share an id.
pub open spec fn distinct_group_ids(groups: Seq<GroupView>) -> bool {
    forall|i: int, j: int|
        0 <= i < j < groups.len() ==> (#[trigger] groups[i]).id != (#[trigger] groups[j]).id
}

/// A group is sound within a list of members: its members are distinct and
/// exist, its leader is the one they elect, and its term is not ahead of the
/// clock.
pub open spec fn group_wf(members: Seq<MemberView>, g: GroupView, term: nat) -> bool {
    &&& g.members.no_duplicates()
    &&& forall|k: int| 0 <= k < g.members.len() ==> has_member(members, #[trigger] g.members[k])
    &&& g.leader == elect(members, g.members, g.id)
    &&& g.term <= term
}

impl State {
    /// The invariant of the state machine.
    pub open spec fn wf(self) -> bool {
        &&& distinct_member_ids(self.members)
        &&& distinct_group_ids(self.groups)
        &&& forall|i: int|
            0 <= i < self.groups.len() ==> group_wf(self.members, #[trigger] self.groups[i], self.term)
    }

    /// The state before anything was applied.
    pub open spec fn initial() -> State {
        State { members: Seq::empty(), groups: Seq::empty(), term: 0 }
    }
}

/// The event that tells of a member, cluster-wide or within a group.
pub open spec fn member_event(
    topic: Topic,
    group: Option<u64>,
    member: MemberView,
    term: nat,
) -> EventView {
    EventView::Member { topic, group, member, term }
}

/// The group `g` once its members are `ids`, at clock value `t`: the leader is
/// elected anew.
pub open spec fn regroup(
    members: Seq<MemberView>,
    g: GroupView,
    ids: Seq<u64>,
    t: nat,
) -> GroupView {
    GroupView { id: g.id, name: g.name, members: ids, leader: elect(members, ids, g.id), term: t }
}

/// The leader-changed event of a group whose leader becomes `leader`: none
/// where the leader stays.
pub open spec fn leader_events(
    members: Seq<MemberView>,
    g: GroupView,
    leader: Option<u64>,
    t: nat,
) -> Seq<EventView> {
    if leader == g.leader {
        Seq::empty()
    } else {
        seq![
            EventView::LeaderChanged {
                group: g.id,
                old: find_leader(members, g.leader),
                new: find_leader(members, leader),
                term: t,
            },
        ]
    }
}

/// What a group emits when something happens to one of its members and its
/// member ids become `ids`: the member's event, then the change of leader if
/// there is one.
pub open spec fn touch_events(
    members: Seq<MemberView>,
    g: GroupView,
    ids: Seq<u64>,
    topic: Topic,
    who: MemberView,
    t: nat,
) -> Seq<EventView> {
    seq![member_event(topic, Some(g.id), who, t)] + leader_events(
        members,
        g,
        elect(members, ids, g.id),
        t,
    )
}

/// The ids of a group without `id`.
pub open spec fn without(ids: Seq<u64>, id: u64) -> Seq<u64> {
    ids.remove(ids.index_of(id))
}

/// The member ids of `g` after the member `id` was touched: without it where
/// it leaves, unchanged otherwise.
pub open spec fn swept_ids(g: GroupView, id: u64, remove: bool) -> Seq<u64> {
    if remove {
        without(g.members, id)
    } else {
        g.members
    }
}

/// Every group that holds the member `id` elects anew, after dropping the
/// member where `remove` is set; the other groups stay as they are.
pub open spec fn sweep_groups(
    members: Seq<MemberView>,
    groups: Seq<GroupView>,
    id: u64,
    remove: bool,
    t: nat,
) -> Seq<GroupView> {
    Seq::new(
        groups.len(),
        |i: int|
            if groups[i].members.contains(id) {
                regroup(members, groups[i], swept_ids(groups[i], id, remove), t)
            } else {
                groups[i]
            },
    )
}

/// The events of such a sweep: group by group in the order of the groups.
pub open spec fn sweep_events(
    members: Seq<MemberView>,
    groups: Seq<GroupView>,
    topic: Topic,
    who: MemberView,
    remove: bool,
    t: nat,
) -> Seq<EventView>
    decreases groups.len(),
{
    if groups.len() == 0 {
        Seq::empty()
    } else {
        let g = groups.last();
        let before = sweep_events(members, groups.drop_last(), topic, who, remove, t);
        if g.members.contains(who.id) {
            before + touch_events(members, g, swept_ids(g, who.id, remove), topic, who, t)
        } else {
            before
        }
    }
}

/// `join(address)`: a new member, online and in no group, unless a member
/// with the address's id is there already.
pub open spec fn join_step(s: State, address: Seq<char>) -> Step {
    let id = hash_str_spec(address);
    if has_member(s.members, id) {
        Step { state: s, events: Seq::empty() }
    } else {
        let m = MemberView { id, address, online: true };
        let t = s.term + 1;
        Step {
            state: State { members: s.members.push(m), groups: s.groups, term: t },
            events: seq![member_event(Topic::Joined, None, m, t)],
        }
    }
}

/// `new_group(name)`: an empty group without a leader, unless the group is
/// there already.
pub open spec fn new_group_step(s: State, name: Seq<char>) -> State {
    let id = hash_str_spec(name);
    if has_group(s.groups, id) {
        s
    } else {
        let t = s.term + 1;
        let g = GroupView { id, name, members: Seq::empty(), leader: None, term: t };
        State { members: s.members, groups: s.groups.push(g), term: t }
    }
}

/// Whether the member `id` can join the group `group`: both exist and the
/// member is not in the group yet.
pub open spec fn can_join_group(s: State, group: u64, id: u64) -> bool {
    &&& has_group(s.groups, group)
    &&& has_member(s.members, id)
    &&& !s.groups[group_pos(s.groups, group)].members.contains(id)
}

/// Whether the member `id` can leave the group `group`: both exist and the
/// member is in the group.
pub open spec fn can_leave_group(s: State, group: u64, id: u64) -> bool {
    &&& has_group(s.groups, group)
    &&& has_member(s.members, id)
    &&& s.groups[group_pos(s.groups, group)].members.contains(id)
}

/// The state and events once the group `group` has the member ids `ids`, on
/// account of the member `id`.
pub open spec fn group_change(s: State, group: u64, id: u64, ids: Seq<u64>, topic: Topic) -> Step {
    let at = group_pos(s.groups, group);
    let g = s.groups[at];
    let who = s.members[member_pos(s.members, id)];
    let t = s.term + 1;
    Step {
        state: State {
            members: s.members,
            groups: s.groups.update(at, regroup(s.members, g, ids, t)),
            term: t,
        },
        events: touch_events(s.members, g, ids, topic, who, t),
    }
}

/// `join_group(name, id)`.
pub open spec fn join_group_step(s: State, name: Seq<char>, id: u64) -> Step {
    let group = hash_str_spec(name);
    if can_join_group(s, group, id) {
        let g = s.groups[group_pos(s.groups, group)];
        group_change(s, group, id, g.members.push(id), Topic::Joined)
    } else {
        Step { state: s, events: Seq::empty() }
    }
}

/// `leave_group(group, id)`.
pub open spec fn leave_group_step(s: State, group: u64, id: u64) -> Step {
    if can_leave_group(s, group, id) {
        let g = s.groups[group_pos(s.groups, group)];
        group_change(s, group, id, without(g.members, id), Topic::Left)
    } else {
        Step { state: s, events: Seq::empty() }
    }
}

/// `leave(id)`: the member leaves each of its groups, then the cluster.
pub open spec fn leave_step(s: State, id: u64) -> Step {
    if has_member(s.members, id) {
        let at = member_pos(s.members, id);
        let who = s.members[at];
        let t = s.term + 1;
        Step {
            state: State {
                members: s.members.remove(at),
                groups: sweep_groups(s.members, s.groups, id, true, t),
                term: t,
            },
            events: seq![member_event(Topic::Left, None, who, t)] + sweep_events(
                s.members,
                s.groups,
                Topic::Left,
                who,
                true,
                t,
            ),
        }
    } else {
        Step { state: s, events: Seq::empty() }
    }
}

/// The events of a group that is deleted: one for each of its members, in
/// their order.
pub open spec fn del_group_events(
    members: Seq<MemberView>,
    g: GroupView,
    t: nat,
) -> Seq<EventView> {
    Seq::new(
        g.members.len(),
        |k: int|
            member_event(
                Topic::Left,
                Some(g.id),
                members[member_pos(members, g.members[k])],
                t,
            ),
    )
}

/// `del_group(id)`.
pub open spec fn del_group_step(s: State, id: u64) -> Step {
    if has_group(s.groups, id) {
        let at = group_pos(s.groups, id);
        let t = s.term + 1;
        Step {
            state: State { members: s.members, groups: s.groups.remove(at), term: t },
            events: del_group_events(s.members, s.groups[at], t),
        }
    } else {
        Step { state: s, events: Seq::empty() }
    }
}

/// What a change of liveness is told as.
pub open spec fn liveness_topic(online: bool) -> Topic {
    if online {
        Topic::Online
    } else {
        Topic::Offline
    }
}

/// Whether setting the member `id` to `online` changes anything: the member
/// exists and is in the other state.
pub open spec fn flips(s: State, id: u64, online: bool) -> bool {
    has_member(s.members, id) && s.members[member_pos(s.members, id)].online != online
}

/// One member goes online or offline. An unknown id, or a member that is in
/// that state already, changes nothing.
pub open spec fn set_online_step(s: State, id: u64, online: bool) -> Step {
    if flips(s, id, online) {
        let at = member_pos(s.members, id);
        let who = MemberView { id, address: s.members[at].address, online };
        let members = s.members.update(at, who);
        let topic = liveness_topic(online);
        let t = s.term + 1;
        Step {
            state: State { members, groups: sweep_groups(members, s.groups, id, false, t), term: t },
            events: seq![member_event(topic, None, who, t)] + sweep_events(
                members,
                s.groups,
                topic,
                who,
                false,
                t,
            ),
        }
    } else {
        Step { state: s, events: Seq::empty() }
    }
}

/// The members `ids` go online or offline, one after the other.
pub open spec fn set_all_step(s: State, ids: Seq<u64>, online: bool) -> Step
    decreases ids.len(),
{
    if ids.len() == 0 {
        Step { state: s, events: Seq::empty() }
    } else {
        let before = set_all_step(s, ids.drop_last(), online);
        let last = set_online_step(before.state, ids.last(), online);
        Step { state: last.state, events: before.events + last.events }
    }
}

/// `hb_online_changed(online, offline)`: first the members that came online,
/// then those that went offline.
pub open spec fn hb_step(s: State, online: Seq<u64>, offline: Seq<u64>) -> Step {
    let up = set_all_step(s, online, true);
    let down = set_all_step(up.state, offline, false);
    Step { state: down.state, events: up.events + down.events }
}

/// The members that a query shows: all, or those online.
pub open spec fn shown(m: MemberView, online_only: bool) -> bool {
    !online_only || m.online
}

/// The members of the cluster that a query shows, in the order they joined.
pub open spec fn visible_members(members: Seq<MemberView>, online_only: bool) -> Seq<MemberView>
    decreases members.len(),
{
    if members.len() == 0 {
        Seq::empty()
    } else {
        let before = visible_members(members.drop_last(), online_only);
        if shown(members.last(), online_only) {
            before.push(members.last())
        } else {
            before
        }
    }
}

/// The members with the ids `ids` that a query shows, in the order of `ids`.
pub open spec fn visible_among(
    members: Seq<MemberView>,
    ids: Seq<u64>,
    online_only: bool,
) -> Seq<MemberView>
    decreases ids.len(),
{
    if ids.len() == 0 {
        Seq::empty()
    } else {
        let before = visible_among(members, ids.drop_last(), online_only);
        match find_member(members, ids.last()) {
            Some(m) => if shown(m, online_only) {
                before.push(m)
            } else {
                before
            },
            None => before,
        }
    }
}

/// A command of the membership state machine, as the model sees it.
pub enum CommandView {
    HbOnlineChanged { online: Seq<u64>, offline: Seq<u64> },
    Join { address: Seq<char> },
    Leave { id: u64 },
    JoinGroup { name: Seq<char>, id: u64 },
    LeaveGroup { group: u64, id: u64 },
    NewGroup { name: Seq<char> },
    DelGroup { id: u64 },
}

/// What a command does to a state.
pub open spec fn apply(s: State, c: CommandView) -> Step {
    match c {
        CommandView::HbOnlineChanged { online, offline } => hb_step(s, online, offline),
        CommandView::Join { address } => join_step(s, address),
        CommandView::Leave { id } => leave_step(s, id),
        CommandView::JoinGroup { name, id } => join_group_step(s, name, id),
        CommandView::LeaveGroup { group, id } => leave_group_step(s, group, id),
        CommandView::NewGroup { name } => Step {
            state: new_group_step(s, name),
            events: Seq::empty(),
        },
        CommandView::DelGroup { id } => del_group_step(s, id),
    }
}

/// What a log of commands does to a state, applied in order.
pub open spec fn replay(s: State, log: Seq<CommandView>) -> Step
    decreases log.len(),
{
    if log.len() == 0 {
        Step { state: s, events: Seq::empty() }
    } else {
        let before = replay(s, log.drop_last());
        let last = apply(before.state, log.last());
        Step { state: last.state, events: before.events + last.events }
    }
}

/// The group with the given id.
pub open spec fn group_of(s: State, group: u64) -> GroupView {
    s.groups[group_pos(s.groups, group)]
}

/// The ids of a group's members that are online.
pub open spec fn online_members(s: State, g: GroupView) -> Set<u64> {
    Set::new(|m: u64| g.members.contains(m) && is_online(s.members, m))
}

/// The id of the member that an event names as leader.
pub open spec fn leader_id(m: Option<MemberView>) -> Option<u64> {
    match m {
        Some(m) => Some(m.id),
        None => None,
    }
}

/// Whether an event tells of a change of leader in the given group.
pub open spec fn changes_leader_of(e: EventView, group: u64) -> bool {
    match e {
        EventView::LeaderChanged { group: g, .. } => g == group,
        EventView::Member { .. } => false,
    }
}

/// Whether the leader-changed events of one group, among `events`, tell the
/// story of its leader from `from` to `to`: each starts at the leader that the
/// one before ended with, each names a new leader other than the old, and
/// their terms go strictly up, from above `floor` to at most `ceil`.
pub open spec fn leader_trace(
    events: Seq<EventView>,
    group: u64,
    from: Option<u64>,
    floor: nat,
    to: Option<u64>,
    ceil: nat,
) -> bool
    decreases events.len(),
{
    if events.len() == 0 {
        from == to && floor <= ceil
    } else {
        match events.first() {
            EventView::LeaderChanged { group: g, old, new, term } => if g == group {
                &&& leader_id(old) == from
                &&& leader_id(new) != from
                &&& floor < term
                &&& leader_trace(events.drop_first(), group, leader_id(new), term, to, ceil)
            } else {
                leader_trace(events.drop_first(), group, from, floor, to, ceil)
            },
            EventView::Member { .. } => leader_trace(
                events.drop_first(),
                group,
                from,
                floor,
                to,
                ceil,
            ),
        }
    }
}

} // verus!
