//! The membership state machine itself: the state and its commands and
//! queries, each proved against the model.

use crate::hash::{hash_str, hash_str_spec};
use crate::membership::audit::state_sound;
use crate::membership::lemmas::{lemma_group_at, lemma_member_at};
use crate::membership::model::{
    can_join_group, can_leave_group, del_group_events, del_group_step, distinct_group_ids,
    distinct_member_ids, elect, find_leader, find_member, flips, group_pos, group_wf, has_group,
    has_member, hb_step, is_online, join_group_step, join_step, leave_group_step, leave_step,
    member_event, member_pos, new_group_step, regroup, set_all_step, set_online_step, shown,
    sweep_events, sweep_groups, swept_ids, touch_events, visible_among, visible_members, without,
    EventView, GroupView, MemberView, State, Topic,
};
use crate::membership::soundness::{
    lemma_del_group_keeps_wf, lemma_join_group_keeps_wf, lemma_join_keeps_wf,
    lemma_leave_group_keeps_wf, lemma_leave_keeps_wf, lemma_new_group_keeps_wf,
    lemma_set_all_keeps_wf, lemma_set_online_keeps_wf, lemma_update_member,
};
use crate::membership::types::{
    events_view, groups_view, members_view, option_member_view, Event, Group, Member,
};
use vstd::prelude::*;

verus! {

/// The replicated membership state: members in the order they joined, groups
/// in the order they were made, and the logical clock.
pub struct Membership {
    members: Vec<Member>,
    groups: Vec<Group>,
    term: u64,
}

impl View for Membership {
    type V = State;

    closed spec fn view(&self) -> State {
        State {
            members: members_view(self.members@),
            groups: groups_view(self.groups@),
            term: self.term as nat,
        }
    }
}

/// The position of the member `id` in `members`.
pub fn member_index(members: &Vec<Member>, id: u64) -> (r: Option<usize>)
    ensures
        match r {
            Some(i) => i < members.len() && members[i as int].id == id,
            None => !has_member(members_view(members@), id),
        },
        r is Some == has_member(members_view(members@), id),
        distinct_member_ids(members_view(members@)) && r is Some ==> r.unwrap() == member_pos(
            members_view(members@),
            id,
        ),
{
    let ghost view = members_view(members@);
    let mut i: usize = 0;
    while i < members.len()
        invariant
            i <= members.len(),
            view == members_view(members@),
            forall|k: int| 0 <= k < i ==> (#[trigger] view[k]).id != id,
        decreases members.len() - i,
    {
        if members[i].id == id {
            proof {
                assert(view[i as int].id == id);
                if distinct_member_ids(view) {
                    lemma_member_at(view, i as int);
                }
            }
            return Some(i);
        }
        i += 1;
    }
    None
}

/// The position of the group `id` in `groups`.
pub fn group_index(groups: &Vec<Group>, id: u64) -> (r: Option<usize>)
    ensures
        match r {
            Some(i) => i < groups.len() && groups[i as int].id == id,
            None => !has_group(groups_view(groups@), id),
        },
        r is Some == has_group(groups_view(groups@), id),
        distinct_group_ids(groups_view(groups@)) && r is Some
            ==> r.unwrap() == group_pos(groups_view(groups@), id),
{
    let ghost view = groups_view(groups@);
    let mut i: usize = 0;
    while i < groups.len()
        invariant
            i <= groups.len(),
            view == groups_view(groups@),
            forall|k: int| 0 <= k < i ==> (#[trigger] view[k]).id != id,
        decreases groups.len() - i,
    {
        if groups[i].id == id {
            proof {
                assert(view[i as int].id == id);
                if distinct_group_ids(view) {
                    lemma_group_at(view, i as int);
                }
            }
            return Some(i);
        }
        i += 1;
    }
    None
}

/// The position of `id` in a list of ids.
pub fn id_index(ids: &Vec<u64>, id: u64) -> (r: Option<usize>)
    ensures
        match r {
            Some(i) => i < ids.len() && ids[i as int] == id,
            None => !ids@.contains(id),
        },
        r is Some == ids@.contains(id),
        ids@.no_duplicates() && r is Some ==> r.unwrap() == ids@.index_of(id),
{
    let mut i: usize = 0;
    while i < ids.len()
        invariant
            i <= ids.len(),
            forall|k: int| 0 <= k < i ==> ids[k] != id,
        decreases ids.len() - i,
    {
        if ids[i] == id {
            proof {
                assert(ids@.contains(id));
            }
            return Some(i);
        }
        i += 1;
    }
    None
}

/// Whether the member `id` is online.
pub fn member_online(members: &Vec<Member>, id: u64) -> (r: bool)
    requires
        distinct_member_ids(members_view(members@)),
    ensures
        r == is_online(members_view(members@), id),
{
    match member_index(members, id) {
        Some(i) => {
            proof {
                lemma_member_at(members_view(members@), i as int);
            }
            members[i].online
        },
        None => false,
    }
}

/// Elects the leader of a group: the online member of least rank.
pub fn elect_leader(members: &Vec<Member>, ids: &Vec<u64>, group: u64) -> (r: Option<u64>)
    requires
        distinct_member_ids(members_view(members@)),
    ensures
        r == elect(members_view(members@), ids@, group),
{
    let mut best: Option<u64> = None;
    let mut i: usize = 0;
    while i < ids.len()
        invariant
            i <= ids.len(),
            distinct_member_ids(members_view(members@)),
            best == elect(members_view(members@), ids@.take(i as int), group),
        decreases ids.len() - i,
    {
        let id = ids[i];
        proof {
            assert(ids@.take(i + 1).drop_last() =~= ids@.take(i as int));
        }
        if member_online(members, id) {
            best = match best {
                None => Some(id),
                Some(b) => if (id ^ group) < (b ^ group) {
                    Some(id)
                } else {
                    Some(b)
                },
            };
        }
        i += 1;
    }
    proof {
        assert(ids@.take(i as int) =~= ids@);
    }
    best
}

/// A copy of the member `id`, if there is one.
pub fn lookup(members: &Vec<Member>, id: u64) -> (r: Option<Member>)
    requires
        distinct_member_ids(members_view(members@)),
    ensures
        option_member_view(r) == find_member(members_view(members@), id),
{
    match member_index(members, id) {
        Some(i) => {
            proof {
                lemma_member_at(members_view(members@), i as int);
            }
            Some(members[i].clone())
        },
        None => None,
    }
}

/// A copy of a group's leader, if it has one.
pub fn lookup_leader(members: &Vec<Member>, leader: Option<u64>) -> (r: Option<Member>)
    requires
        distinct_member_ids(members_view(members@)),
    ensures
        option_member_view(r) == find_leader(
            members_view(members@),
            leader,
        ),
{
    match leader {
        Some(id) => lookup(members, id),
        None => None,
    }
}

impl Membership {
    /// The invariant of the state machine, which every command keeps.
    pub open spec fn wf(&self) -> bool {
        self@.wf()
    }

    /// Whether the clock can advance `steps` more times.
    pub open spec fn has_room(&self, steps: nat) -> bool {
        self@.term + steps <= u64::MAX
    }

    /// A state machine without members or groups.
    pub fn new() -> (r: Membership)
        ensures
            r@ == State::initial(),
            r.wf(),
    {
        let r = Membership { members: Vec::new(), groups: Vec::new(), term: 0 };
        proof {
            assert(r@.members =~= Seq::empty());
            assert(r@.groups =~= Seq::empty());
        }
        r
    }

    /// The value of the logical clock.
    pub fn term(&self) -> (t: u64)
        ensures
            t == self@.term,
    {
        self.term
    }

    /// A member joins under the id of its address. Joining again changes
    /// nothing and returns the same id.
    pub fn join(&mut self, address: String, events: &mut Vec<Event>) -> (r: Option<u64>)
        requires
            old(self).wf(),
            old(self).has_room(1),
        ensures
            final(self).wf(),
            final(self)@ == join_step(old(self)@, address@).state,
            events_view(final(events)@) == events_view(old(events)@) + join_step(
                old(self)@,
                address@,
            ).events,
            r == Some(hash_str_spec(address@)),
    {
        let id = hash_str(address.as_str());
        match member_index(&self.members, id) {
            Some(_) => {
                proof {
                    assert(events_view(events@) + Seq::<EventView>::empty() =~= events_view(
                        events@,
                    ));
                }
            },
            None => {
                let ghost before = self@;
                let member = Member { id, address, online: true };
                let shown = member.clone();
                self.term = self.term + 1;
                self.members.push(member);
                events.push(
                    Event::Member {
                        topic: Topic::Joined,
                        group: None,
                        member: shown,
                        term: self.term,
                    },
                );
                proof {
                    let m = MemberView { id, address: address@, online: true };
                    assert(self@.members =~= before.members.push(m));
                    assert(events_view(events@) =~= events_view(old(events)@) + join_step(
                        before,
                        address@,
                    ).events);
                    lemma_join_keeps_wf(before, address@);
                }
            },
        }
        Some(id)
    }
}

/// Gives the group at `at` the member ids `ids` at the clock value `term`,
/// elects its leader anew, and emits the event of the member `who` and the
/// change of leader, if there is one.
fn retarget(
    members: &Vec<Member>,
    groups: &mut Vec<Group>,
    at: usize,
    ids: Vec<u64>,
    topic: Topic,
    who: &Member,
    term: u64,
    events: &mut Vec<Event>,
)
    requires
        distinct_member_ids(members_view(members@)),
        at < old(groups).len(),
    ensures
        final(groups).len() == old(groups).len(),
        groups_view(final(groups)@) == groups_view(old(groups)@).update(
            at as int,
            regroup(members_view(members@), old(groups)[at as int]@, ids@, term as nat),
        ),
        events_view(final(events)@) == events_view(old(events)@) + touch_events(
            members_view(members@),
            old(groups)[at as int]@,
            ids@,
            topic,
            who@,
            term as nat,
        ),
{
    let group = groups[at].id;
    let was = groups[at].leader;
    let leader = elect_leader(members, &ids, group);
    let name = groups[at].name.clone();
    events.push(Event::Member { topic, group: Some(group), member: who.clone(), term });
    let changed = match (was, leader) {
        (Some(a), Some(b)) => a != b,
        (None, None) => false,
        _ => true,
    };
    if changed {
        let old_leader = lookup_leader(members, was);
        let new_leader = lookup_leader(members, leader);
        events.push(Event::LeaderChanged { group, old: old_leader, new: new_leader, term });
    }
    groups.set(at, Group { id: group, name, members: ids, leader, term });
    proof {
        assert(groups_view(groups@) =~= groups_view(old(groups)@).update(
            at as int,
            regroup(members_view(members@), old(groups)[at as int]@, ids@, term as nat),
        ));
        assert(events_view(events@) =~= events_view(old(events)@) + touch_events(
            members_view(members@),
            old(groups)[at as int]@,
            ids@,
            topic,
            who@,
            term as nat,
        ));
    }
}

impl Membership {
    /// Makes an empty group under the id of its name: `Ok` with the id, or
    /// `Err` with the id where the group is there already.
    pub fn new_group(&mut self, name: String) -> (r: Result<u64, u64>)
        requires
            old(self).wf(),
            old(self).has_room(1),
        ensures
            final(self).wf(),
            final(self)@ == new_group_step(old(self)@, name@),
            r == if has_group(old(self)@.groups, hash_str_spec(name@)) {
                Err::<u64, u64>(hash_str_spec(name@))
            } else {
                Ok::<u64, u64>(hash_str_spec(name@))
            },
    {
        let id = hash_str(name.as_str());
        match group_index(&self.groups, id) {
            Some(_) => Err(id),
            None => {
                let ghost before = self@;
                self.term = self.term + 1;
                self.groups.push(
                    Group { id, name, members: Vec::new(), leader: None, term: self.term },
                );
                proof {
                    let g = GroupView {
                        id,
                        name: name@,
                        members: Seq::empty(),
                        leader: None,
                        term: before.term + 1,
                    };
                    assert(self.groups@.last()@.members =~= Seq::<u64>::empty());
                    assert(self@.groups =~= before.groups.push(g));
                    lemma_new_group_keeps_wf(before, name@);
                }
                Ok(id)
            },
        }
    }

    /// A member joins the group of the given name. Nothing changes, and the
    /// answer is `false`, where the group or the member is missing or the
    /// member is in the group already.
    pub fn join_group(&mut self, name: String, id: u64, events: &mut Vec<Event>) -> (r: bool)
        requires
            old(self).wf(),
            old(self).has_room(1),
        ensures
            final(self).wf(),
            final(self)@ == join_group_step(old(self)@, name@, id).state,
            events_view(final(events)@) == events_view(old(events)@) + join_group_step(
                old(self)@,
                name@,
                id,
            ).events,
            r == can_join_group(old(self)@, hash_str_spec(name@), id),
    {
        let group = hash_str(name.as_str());
        proof {
            assert(events_view(events@) + Seq::<EventView>::empty() =~= events_view(events@));
        }
        let gi = match group_index(&self.groups, group) {
            Some(i) => i,
            None => {
                return false;
            },
        };
        let mi = match member_index(&self.members, id) {
            Some(i) => i,
            None => {
                return false;
            },
        };
        if id_index(&self.groups[gi].members, id).is_some() {
            return false;
        }
        let who = self.members[mi].clone();
        let mut ids = self.groups[gi].members.clone();
        ids.push(id);
        self.term = self.term + 1;
        retarget(&self.members, &mut self.groups, gi, ids, Topic::Joined, &who, self.term, events);
        proof {
            lemma_join_group_keeps_wf(old(self)@, name@, id);
        }
        true
    }

    /// A member leaves a group. Nothing changes, and the answer is `false`,
    /// where the group or the member is missing or the member is not in the
    /// group.
    pub fn leave_group(&mut self, group: u64, id: u64, events: &mut Vec<Event>) -> (r: bool)
        requires
            old(self).wf(),
            old(self).has_room(1),
        ensures
            final(self).wf(),
            final(self)@ == leave_group_step(old(self)@, group, id).state,
            events_view(final(events)@) == events_view(old(events)@) + leave_group_step(
                old(self)@,
                group,
                id,
            ).events,
            r == can_leave_group(old(self)@, group, id),
    {
        proof {
            assert(events_view(events@) + Seq::<EventView>::empty() =~= events_view(events@));
        }
        let gi = match group_index(&self.groups, group) {
            Some(i) => i,
            None => {
                return false;
            },
        };
        let mi = match member_index(&self.members, id) {
            Some(i) => i,
            None => {
                return false;
            },
        };
        let at = match id_index(&self.groups[gi].members, id) {
            Some(k) => k,
            None => {
                return false;
            },
        };
        proof {
            assert(group_wf(
                old(self)@.members,
                old(self)@.groups[gi as int],
                old(self)@.term,
            ));
        }
        let who = self.members[mi].clone();
        let mut ids = self.groups[gi].members.clone();
        ids.remove(at);
        self.term = self.term + 1;
        retarget(&self.members, &mut self.groups, gi, ids, Topic::Left, &who, self.term, events);
        proof {
            lemma_leave_group_keeps_wf(old(self)@, group, id);
        }
        true
    }
}

/// Something happened to the member `who`: every group that holds it emits
/// the member's event and elects anew, after dropping the member where
/// `remove` is set.
fn sweep(
    members: &Vec<Member>,
    groups: &mut Vec<Group>,
    topic: Topic,
    who: &Member,
    remove: bool,
    term: u64,
    events: &mut Vec<Event>,
)
    requires
        distinct_member_ids(members_view(members@)),
        forall|i: int| 0 <= i < old(groups).len() ==> (#[trigger] old(groups)[i]).members@.no_duplicates(),
    ensures
        groups_view(final(groups)@) == sweep_groups(
            members_view(members@),
            groups_view(old(groups)@),
            who.id,
            remove,
            term as nat,
        ),
        events_view(final(events)@) == events_view(old(events)@) + sweep_events(
            members_view(members@),
            groups_view(old(groups)@),
            topic,
            who@,
            remove,
            term as nat,
        ),
{
    let ghost mv = members_view(members@);
    let ghost gv = groups_view(groups@);
    let ghost ev = events_view(events@);
    let ghost goal = sweep_groups(mv, gv, who.id, remove, term as nat);
    let n = groups.len();
    let mut i: usize = 0;
    proof {
        assert(ev + sweep_events(mv, gv.take(0), topic, who@, remove, term as nat) =~= ev);
    }
    while i < n
        invariant
            i <= n,
            n == groups.len(),
            n == gv.len(),
            mv == members_view(members@),
            distinct_member_ids(mv),
            goal == sweep_groups(mv, gv, who.id, remove, term as nat),
            forall|k: int| 0 <= k < i ==> (#[trigger] groups[k])@ == goal[k],
            forall|k: int| i <= k < n ==> (#[trigger] groups[k])@ == gv[k],
            forall|k: int| i <= k < n ==> (#[trigger] groups[k]).members@.no_duplicates(),
            events_view(events@) == ev + sweep_events(
                mv,
                gv.take(i as int),
                topic,
                who@,
                remove,
                term as nat,
            ),
        decreases n - i,
    {
        let ghost groups_before = groups@;
        let ghost done = sweep_events(mv, gv.take(i as int), topic, who@, remove, term as nat);
        proof {
            assert(gv.take(i + 1).drop_last() =~= gv.take(i as int));
            assert(gv.take(i + 1).last() == gv[i as int]);
            assert(groups[i as int]@ == gv[i as int]);
        }
        match id_index(&groups[i].members, who.id) {
            Some(k) => {
                let mut ids = groups[i].members.clone();
                if remove {
                    ids.remove(k);
                }
                proof {
                    assert(ids@ == swept_ids(gv[i as int], who.id, remove));
                }
                retarget(members, groups, i, ids, topic, who, term, events);
                proof {
                    let touched = touch_events(
                        mv,
                        gv[i as int],
                        swept_ids(gv[i as int], who.id, remove),
                        topic,
                        who@,
                        term as nat,
                    );
                    assert((ev + done) + touched =~= ev + (done + touched));
                    assert(groups_view(groups@)[i as int] == goal[i as int]);
                    assert forall|k: int| 0 <= k < n && k != i implies (#[trigger] groups[k])@
                        == groups_before[k]@ by {
                        assert(groups_view(groups@)[k] == groups_view(groups_before)[k]);
                    }
                    assert forall|k: int| i < k < n implies (#[trigger] groups[k]).members@.no_duplicates() by {
                        assert(groups[k]@ == groups_before[k]@);
                    }
                }
            },
            None => {},
        }
        i += 1;
    }
    proof {
        assert(gv.take(n as int) =~= gv);
        assert(groups_view(groups@) =~= goal);
    }
}

impl Membership {
    /// One member goes online or offline. Nothing changes, and the answer is
    /// `false`, where the id is unknown or the member is in that state
    /// already.
    pub fn set_online(&mut self, id: u64, online: bool, events: &mut Vec<Event>) -> (r: bool)
        requires
            old(self).wf(),
            old(self).has_room(1),
        ensures
            final(self).wf(),
            final(self)@ == set_online_step(old(self)@, id, online).state,
            events_view(final(events)@) == events_view(old(events)@) + set_online_step(
                old(self)@,
                id,
                online,
            ).events,
            r == flips(old(self)@, id, online),
    {
        proof {
            assert(events_view(events@) + Seq::<EventView>::empty() =~= events_view(events@));
        }
        let mi = match member_index(&self.members, id) {
            Some(i) => i,
            None => {
                return false;
            },
        };
        if self.members[mi].online == online {
            return false;
        }
        let ghost before = self@;
        let ghost ev = events_view(events@);
        let who = Member { id, address: self.members[mi].address.clone(), online };
        let topic = if online {
            Topic::Online
        } else {
            Topic::Offline
        };
        self.members.set(mi, who.clone());
        self.term = self.term + 1;
        events.push(Event::Member { topic, group: None, member: who.clone(), term: self.term });
        proof {
            lemma_update_member(before.members, mi as int, who@);
            assert(members_view(self.members@) =~= before.members.update(mi as int, who@));
            assert(groups_view(self.groups@) == before.groups);
            assert forall|i: int| 0 <= i < self.groups.len() implies (
            #[trigger] self.groups[i]).members@.no_duplicates() by {
                assert(group_wf(before.members, before.groups[i], before.term));
            }
        }
        let ghost first = events_view(events@);
        sweep(&self.members, &mut self.groups, topic, &who, false, self.term, events);
        proof {
            let t = before.term + 1;
            let swept = sweep_events(
                before.members.update(mi as int, who@),
                before.groups,
                topic,
                who@,
                false,
                t as nat,
            );
            assert(first =~= ev + seq![member_event(topic, None, who@, t as nat)]);
            assert((ev + seq![member_event(topic, None, who@, t as nat)]) + swept =~= ev + (
            seq![member_event(topic, None, who@, t as nat)] + swept));
            lemma_set_online_keeps_wf(before, id, online);
        }
        true
    }

    /// A member leaves each of its groups, then the cluster. The answer is
    /// whether the member existed.
    pub fn leave(&mut self, id: u64, events: &mut Vec<Event>) -> (r: bool)
        requires
            old(self).wf(),
            old(self).has_room(1),
        ensures
            final(self).wf(),
            final(self)@ == leave_step(old(self)@, id).state,
            events_view(final(events)@) == events_view(old(events)@) + leave_step(
                old(self)@,
                id,
            ).events,
            r == has_member(old(self)@.members, id),
    {
        proof {
            assert(events_view(events@) + Seq::<EventView>::empty() =~= events_view(events@));
        }
        let mi = match member_index(&self.members, id) {
            Some(i) => i,
            None => {
                return false;
            },
        };
        let ghost before = self@;
        let ghost ev = events_view(events@);
        let who = self.members[mi].clone();
        self.term = self.term + 1;
        events.push(
            Event::Member { topic: Topic::Left, group: None, member: who.clone(), term: self.term },
        );
        proof {
            assert forall|i: int| 0 <= i < self.groups.len() implies (
            #[trigger] self.groups[i]).members@.no_duplicates() by {
                assert(group_wf(before.members, before.groups[i], before.term));
            }
        }
        let ghost first = events_view(events@);
        sweep(&self.members, &mut self.groups, Topic::Left, &who, true, self.term, events);
        self.members.remove(mi);
        proof {
            let t = before.term + 1;
            let swept = sweep_events(before.members, before.groups, Topic::Left, who@, true, t as nat);
            assert(first =~= ev + seq![member_event(Topic::Left, None, who@, t as nat)]);
            assert((ev + seq![member_event(Topic::Left, None, who@, t as nat)]) + swept =~= ev + (
            seq![member_event(Topic::Left, None, who@, t as nat)] + swept));
            assert(members_view(self.members@) =~= before.members.remove(mi as int));
            lemma_leave_keeps_wf(before, id);
        }
        true
    }

    /// Deletes a group, telling of each of its members that it left. The
    /// answer is whether the group existed.
    pub fn del_group(&mut self, id: u64, events: &mut Vec<Event>) -> (r: bool)
        requires
            old(self).wf(),
            old(self).has_room(1),
        ensures
            final(self).wf(),
            final(self)@ == del_group_step(old(self)@, id).state,
            events_view(final(events)@) == events_view(old(events)@) + del_group_step(
                old(self)@,
                id,
            ).events,
            r == has_group(old(self)@.groups, id),
    {
        proof {
            assert(events_view(events@) + Seq::<EventView>::empty() =~= events_view(events@));
        }
        let gi = match group_index(&self.groups, id) {
            Some(i) => i,
            None => {
                return false;
            },
        };
        let ghost before = self@;
        let ghost ev = events_view(events@);
        let ghost goal = del_group_events(before.members, before.groups[gi as int], before.term + 1);
        self.term = self.term + 1;
        let n = self.groups[gi].members.len();
        let mut k: usize = 0;
        proof {
            assert(group_wf(before.members, before.groups[gi as int], before.term));
        }
        while k < n
            invariant
                k <= n,
                gi < self.groups.len(),
                n == self.groups[gi as int].members.len(),
                self@.members == before.members,
                self@.groups == before.groups,
                self.term == before.term + 1,
                before.wf(),
                before.groups[gi as int].id == id,
                group_wf(before.members, before.groups[gi as int], before.term),
                goal == del_group_events(before.members, before.groups[gi as int], before.term + 1),
                events_view(events@) == ev + goal.take(k as int),
            decreases n - k,
        {
            let member = self.groups[gi].members[k];
            proof {
                assert(self.groups[gi as int]@ == before.groups[gi as int]);
                assert(has_member(before.members, before.groups[gi as int].members[k as int]));
            }
            let mi = member_index(&self.members, member);
            let who = self.members[mi.unwrap()].clone();
            let ghost listed = events_view(events@);
            events.push(
                Event::Member { topic: Topic::Left, group: Some(id), member: who, term: self.term },
            );
            proof {
                assert(who@ == before.members[member_pos(before.members, member)]);
                assert(goal[k as int] == member_event(Topic::Left, Some(id), who@, before.term + 1));
                assert(events_view(events@) =~= listed.push(goal[k as int]));
                assert(goal.take(k + 1) =~= goal.take(k as int).push(goal[k as int]));
                assert(events_view(events@) =~= ev + goal.take(k + 1));
            }
            k += 1;
        }
        self.groups.remove(gi);
        proof {
            assert(goal.take(n as int) =~= goal);
            assert(groups_view(self.groups@) =~= before.groups.remove(gi as int));
            lemma_del_group_keeps_wf(before, id);
        }
        true
    }

    /// The members `ids` go online or offline, one after the other.
    pub fn set_all(&mut self, ids: &Vec<u64>, online: bool, events: &mut Vec<Event>)
        requires
            old(self).wf(),
            old(self).has_room(ids@.len()),
        ensures
            final(self).wf(),
            final(self)@ == set_all_step(old(self)@, ids@, online).state,
            events_view(final(events)@) == events_view(old(events)@) + set_all_step(
                old(self)@,
                ids@,
                online,
            ).events,
    {
        let ghost before = self@;
        let ghost ev = events_view(events@);
        let mut i: usize = 0;
        proof {
            assert(ev + set_all_step(before, ids@.take(0), online).events =~= ev);
        }
        while i < ids.len()
            invariant
                i <= ids.len(),
                before.wf(),
                before.term + ids@.len() <= u64::MAX,
                self.wf(),
                self@ == set_all_step(before, ids@.take(i as int), online).state,
                events_view(events@) == ev + set_all_step(before, ids@.take(i as int), online).events,
            decreases ids.len() - i,
        {
            proof {
                assert(ids@.take(i + 1).drop_last() =~= ids@.take(i as int));
                lemma_set_all_keeps_wf(before, ids@.take(i as int), online);
                let done = set_all_step(before, ids@.take(i as int), online);
                let last = set_online_step(done.state, ids@[i as int], online);
                assert((ev + done.events) + last.events =~= ev + (done.events + last.events));
            }
            self.set_online(ids[i], online, events);
            i += 1;
        }
        proof {
            assert(ids@.take(i as int) =~= ids@);
        }
    }

    /// Applies a change of liveness that the heartbeat tracker found: first
    /// the members that came online, then those that went offline. Unknown
    /// ids, and members that are in that state already, are passed over.
    pub fn hb_online_changed(
        &mut self,
        online: &Vec<u64>,
        offline: &Vec<u64>,
        events: &mut Vec<Event>,
    )
        requires
            old(self).wf(),
            old(self).has_room(online@.len() + offline@.len()),
        ensures
            final(self).wf(),
            final(self)@ == hb_step(old(self)@, online@, offline@).state,
            events_view(final(events)@) == events_view(old(events)@) + hb_step(
                old(self)@,
                online@,
                offline@,
            ).events,
    {
        let ghost before = self@;
        let ghost ev = events_view(events@);
        proof {
            lemma_set_all_keeps_wf(before, online@, true);
        }
        self.set_all(online, true, events);
        self.set_all(offline, false, events);
        proof {
            let up = set_all_step(before, online@, true);
            let down = set_all_step(up.state, offline@, false);
            assert((ev + up.events) + down.events =~= ev + (up.events + down.events));
        }
    }

    /// The leader of a group and the group's term: `None` where there is no
    /// such group.
    pub fn group_leader(&self, group: u64) -> (r: Option<(Option<Member>, u64)>)
        requires
            self.wf(),
        ensures
            r is Some == has_group(self@.groups, group),
            r is Some ==> {
                let g = self@.groups[group_pos(self@.groups, group)];
                &&& option_member_view(r.unwrap().0) == find_leader(self@.members, g.leader)
                &&& r.unwrap().1 == g.term
            },
    {
        match group_index(&self.groups, group) {
            Some(gi) => {
                let leader = lookup_leader(&self.members, self.groups[gi].leader);
                Some((leader, self.groups[gi].term))
            },
            None => None,
        }
    }

    /// The members of a group in the order they joined it, all or those
    /// online, and the group's term: `None` where there is no such group.
    pub fn group_members(&self, group: u64, online_only: bool) -> (r: Option<(Vec<Member>, u64)>)
        requires
            self.wf(),
        ensures
            r is Some == has_group(self@.groups, group),
            r is Some ==> {
                let g = self@.groups[group_pos(self@.groups, group)];
                &&& members_view(r.unwrap().0@) == visible_among(self@.members, g.members, online_only)
                &&& r.unwrap().1 == g.term
            },
    {
        match group_index(&self.groups, group) {
            Some(gi) => {
                let mut out: Vec<Member> = Vec::new();
                let n = self.groups[gi].members.len();
                let ghost ids = self.groups[gi as int].members@;
                let mut k: usize = 0;
                proof {
                    assert(members_view(out@) =~= visible_among(
                        self@.members,
                        ids.take(0),
                        online_only,
                    ));
                }
                while k < n
                    invariant
                        k <= n,
                        gi < self.groups.len(),
                        n == ids.len(),
                        ids == self.groups[gi as int].members@,
                        self.wf(),
                        members_view(out@) == visible_among(
                            self@.members,
                            ids.take(k as int),
                            online_only,
                        ),
                    decreases n - k,
                {
                    let id = self.groups[gi].members[k];
                    proof {
                        assert(ids.take(k + 1).drop_last() =~= ids.take(k as int));
                    }
                    let ghost shown_before = members_view(out@);
                    match lookup(&self.members, id) {
                        Some(m) => {
                            if !online_only || m.online {
                                out.push(m);
                                proof {
                                    assert(members_view(out@) =~= shown_before.push(m@));
                                }
                            }
                        },
                        None => {},
                    }
                    k += 1;
                }
                proof {
                    assert(ids.take(n as int) =~= ids);
                }
                Some((out, self.groups[gi].term))
            },
            None => None,
        }
    }

    /// The members of the cluster in the order they joined, all or those
    /// online, and the value of the clock.
    pub fn all_members(&self, online_only: bool) -> (r: (Vec<Member>, u64))
        ensures
            members_view(r.0@) == visible_members(self@.members, online_only),
            r.1 == self@.term,
    {
        let mut out: Vec<Member> = Vec::new();
        let ghost all = self@.members;
        let mut k: usize = 0;
        proof {
            assert(members_view(out@) =~= visible_members(all.take(0), online_only));
        }
        while k < self.members.len()
            invariant
                k <= self.members.len(),
                all == self@.members,
                all.len() == self.members.len(),
                members_view(out@) == visible_members(all.take(k as int), online_only),
            decreases self.members.len() - k,
        {
            proof {
                assert(all.take(k + 1).drop_last() =~= all.take(k as int));
                assert(all.take(k + 1).last() == self.members[k as int]@);
            }
            let ghost shown_before = members_view(out@);
            if !online_only || self.members[k].online {
                out.push(self.members[k].clone());
                proof {
                    assert(members_view(out@) =~= shown_before.push(self.members[k as int]@));
                }
            }
            k += 1;
        }
        proof {
            assert(all.take(k as int) =~= all);
        }
        (out, self.term)
    }
}

impl Membership {
    /// The members, in the order they joined.
    pub fn members(&self) -> (r: &Vec<Member>)
        ensures
            members_view(r@) == self@.members,
    {
        &self.members
    }

    /// The groups, in the order they were made.
    pub fn groups(&self) -> (r: &Vec<Group>)
        ensures
            groups_view(r@) == self@.groups,
    {
        &self.groups
    }

    /// A state machine of the given members, groups and clock value, where
    /// they make a sound state.
    pub fn from_parts(
        members: Vec<Member>,
        groups: Vec<Group>,
        term: u64,
    ) -> (r: Option<Membership>)
        ensures
            match r {
                Some(m) => m.wf() && m@ == (State {
                    members: members_view(members@),
                    groups: groups_view(groups@),
                    term: term as nat,
                }),
                None => !(State {
                    members: members_view(members@),
                    groups: groups_view(groups@),
                    term: term as nat,
                }).wf(),
            },
    {
        if state_sound(&members, &groups, term) {
            Some(Membership { members, groups, term })
        } else {
            None
        }
    }
}

/// The ids of the groups that hold the member `id`, in the order of the
/// groups.
pub open spec fn groups_holding(groups: Seq<GroupView>, id: u64) -> Seq<u64>
    decreases groups.len(),
{
    if groups.len() == 0 {
        Seq::empty()
    } else {
        let before = groups_holding(groups.drop_last(), id);
        if groups.last().members.contains(id) {
            before.push(groups.last().id)
        } else {
            before
        }
    }
}

impl Membership {
    /// The groups that a member belongs to.
    pub fn groups_of(&self, id: u64) -> (r: Vec<u64>)
        ensures
            r@ == groups_holding(self@.groups, id),
    {
        let ghost all = self@.groups;
        let mut out: Vec<u64> = Vec::new();
        let mut i: usize = 0;
        while i < self.groups.len()
            invariant
                i <= self.groups.len(),
                all == self@.groups,
                all.len() == self.groups.len(),
                out@ == groups_holding(all.take(i as int), id),
            decreases self.groups.len() - i,
        {
            proof {
                assert(all.take(i + 1).drop_last() =~= all.take(i as int));
                assert(all.take(i + 1).last() == self.groups[i as int]@);
            }
            if id_index(&self.groups[i].members, id).is_some() {
                out.push(self.groups[i].id);
            }
            i += 1;
        }
        proof {
            assert(all.take(i as int) =~= all);
        }
        out
    }
}

} // verus!
