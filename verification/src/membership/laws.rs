//! What holds of the membership state machine whatever is applied to it.

use crate::hash::hash_str_spec;
use crate::membership::command::reply_of;
use crate::membership::lemmas::{
    lemma_elect_sound, lemma_elect_unique, lemma_group_at, lemma_group_found, lemma_member_at,
    lemma_member_found,
};
use crate::membership::model::{
    apply, elect, flips, group_of, group_pos, group_wf, has_group, has_member, is_online, join_step,
    member_event, member_pos, online_members, rank, replay, set_all_step, set_online_step,
    CommandView, EventView, MemberView, State, Topic,
};
use crate::membership::snapshot::{at_rest, lemma_at_rest_wf};
use crate::membership::soundness::{
    lemma_del_group_keeps_wf, lemma_hb_keeps_wf, lemma_join_group_keeps_wf, lemma_join_keeps_wf,
    lemma_leave_group_keeps_wf, lemma_leave_keeps_wf, lemma_new_group_keeps_wf,
};
use vstd::prelude::*;

verus! {

/// The leader of a group is one of its online members, and a group is
/// without a leader exactly when none of its members is online.
pub proof fn law_leader_is_online(s: State, group: u64)
    requires
        s.wf(),
        has_group(s.groups, group),
    ensures
        match group_of(s, group).leader {
            Some(l) => online_members(s, group_of(s, group)).contains(l),
            None => online_members(s, group_of(s, group)) == Set::<u64>::empty(),
        },
        group_of(s, group).leader is None <==> online_members(s, group_of(s, group))
            == Set::<u64>::empty(),
{
    lemma_group_found(s.groups, group);
    let g = group_of(s, group);
    assert(group_wf(s.members, g, s.term));
    lemma_elect_sound(s.members, g.members, g.id);
    match g.leader {
        Some(l) => {
            assert(online_members(s, g).contains(l));
        },
        None => {
            assert forall|m: u64| !online_members(s, g).contains(m) by {
                if g.members.contains(m) {
                    let k = choose|k: int| 0 <= k < g.members.len() && g.members[k] == m;
                    assert(!is_online(s.members, g.members[k]));
                }
            }
            assert(online_members(s, g) =~= Set::<u64>::empty());
        },
    }
}

/// Every member of a group is a member of the cluster.
pub proof fn law_group_members_exist(s: State, group: u64, id: u64)
    requires
        s.wf(),
        has_group(s.groups, group),
        group_of(s, group).members.contains(id),
    ensures
        has_member(s.members, id),
{
    lemma_group_found(s.groups, group);
    let g = group_of(s, group);
    assert(group_wf(s.members, g, s.term));
    let k = choose|k: int| 0 <= k < g.members.len() && g.members[k] == id;
    assert(has_member(s.members, g.members[k]));
}

/// Joining twice under one address leaves exactly one member of that id: the
/// second join changes nothing and emits nothing, and the two together emit
/// one joined event where the member was new and none where it was there.
pub proof fn law_join_twice(s: State, address: Seq<char>)
    requires
        s.wf(),
    ensures
        ({
            let once = join_step(s, address);
            let twice = join_step(once.state, address);
            let id = hash_str_spec(address);
            &&& twice.state == once.state
            &&& twice.events == Seq::<EventView>::empty()
            &&& has_member(once.state.members, id)
            &&& forall|i: int, j: int|
                0 <= i < once.state.members.len() && 0 <= j < once.state.members.len()
                    && once.state.members[i].id == id && once.state.members[j].id == id ==> i == j
            &&& once.events + twice.events == if has_member(s.members, id) {
                Seq::<EventView>::empty()
            } else {
                seq![
                    member_event(
                        Topic::Joined,
                        None,
                        MemberView { id, address, online: true },
                        s.term + 1,
                    ),
                ]
            }
        }),
{
    let once = join_step(s, address);
    let id = hash_str_spec(address);
    lemma_join_keeps_wf(s, address);
    if !has_member(s.members, id) {
        assert(once.state.members[s.members.len() as int].id == id);
    }
    assert(has_member(once.state.members, id));
    assert forall|i: int, j: int|
        0 <= i < once.state.members.len() && 0 <= j < once.state.members.len()
            && once.state.members[i].id == id && once.state.members[j].id == id implies i == j by {
        if i < j {
            assert(once.state.members[i].id != once.state.members[j].id);
        } else if j < i {
            assert(once.state.members[j].id != once.state.members[i].id);
        }
    }
    assert(once.events + Seq::<EventView>::empty() =~= once.events);
}

/// Every command keeps the invariant of the state machine.
pub proof fn law_apply_keeps_wf(s: State, c: CommandView)
    requires
        s.wf(),
    ensures
        apply(s, c).state.wf(),
{
    match c {
        CommandView::HbOnlineChanged { online, offline } => lemma_hb_keeps_wf(s, online, offline),
        CommandView::Join { address } => lemma_join_keeps_wf(s, address),
        CommandView::Leave { id } => lemma_leave_keeps_wf(s, id),
        CommandView::JoinGroup { name, id } => lemma_join_group_keeps_wf(s, name, id),
        CommandView::LeaveGroup { group, id } => lemma_leave_group_keeps_wf(s, group, id),
        CommandView::NewGroup { name } => lemma_new_group_keeps_wf(s, name),
        CommandView::DelGroup { id } => lemma_del_group_keeps_wf(s, id),
    }
}

/// The invariant holds after every prefix of every log: at every index the
/// members of each group exist, and each group's leader is the one that its
/// online members elect.
pub proof fn law_replay_keeps_wf(s: State, log: Seq<CommandView>)
    requires
        s.wf(),
    ensures
        replay(s, log).state.wf(),
    decreases log.len(),
{
    if log.len() > 0 {
        law_replay_keeps_wf(s, log.drop_last());
        law_apply_keeps_wf(replay(s, log.drop_last()).state, log.last());
    }
}

/// Replicas agree: two replicas that start from the same state and apply the
/// same log are in the same state at every index, and have emitted the same
/// events.
pub proof fn law_replicas_agree(a: State, b: State, log: Seq<CommandView>, i: int)
    requires
        a == b,
        0 <= i <= log.len(),
    ensures
        replay(a, log.take(i)) == replay(b, log.take(i)),
{
}

/// Two states hold the same members and groups, whatever they know of
/// liveness, leaders and terms.
pub open spec fn same_durable(a: State, b: State) -> bool {
    &&& a.members.len() == b.members.len()
    &&& a.groups.len() == b.groups.len()
    &&& forall|i: int|
        0 <= i < a.members.len() ==> (#[trigger] a.members[i]).id == b.members[i].id
            && a.members[i].address == b.members[i].address
    &&& forall|i: int|
        0 <= i < a.groups.len() ==> (#[trigger] a.groups[i]).id == b.groups[i].id
            && a.groups[i].name == b.groups[i].name && a.groups[i].members == b.groups[i].members
}

/// States that hold the same members and groups find them at the same
/// places.
pub proof fn lemma_same_places(a: State, b: State)
    requires
        a.wf(),
        b.wf(),
        same_durable(a, b),
    ensures
        forall|id: u64| has_member(a.members, id) == has_member(b.members, id),
        forall|id: u64|
            has_member(a.members, id) ==> member_pos(a.members, id) == member_pos(b.members, id),
        forall|id: u64| has_group(a.groups, id) == has_group(b.groups, id),
        forall|id: u64| has_group(a.groups, id) ==> group_pos(a.groups, id) == group_pos(b.groups, id),
{
    assert forall|id: u64| has_member(a.members, id) == has_member(b.members, id) && (has_member(
        a.members,
        id,
    ) ==> member_pos(a.members, id) == member_pos(b.members, id)) by {
        if has_member(a.members, id) {
            let p = member_pos(a.members, id);
            assert(b.members[p].id == a.members[p].id);
            lemma_member_at(b.members, p);
        }
        if has_member(b.members, id) {
            let p = member_pos(b.members, id);
            assert(a.members[p].id == b.members[p].id);
            lemma_member_at(a.members, p);
        }
    }
    assert forall|id: u64| has_group(a.groups, id) == has_group(b.groups, id) && (has_group(
        a.groups,
        id,
    ) ==> group_pos(a.groups, id) == group_pos(b.groups, id)) by {
        if has_group(a.groups, id) {
            let p = group_pos(a.groups, id);
            assert(b.groups[p].id == a.groups[p].id);
            lemma_group_at(b.groups, p);
        }
        if has_group(b.groups, id) {
            let p = group_pos(b.groups, id);
            assert(a.groups[p].id == b.groups[p].id);
            lemma_group_at(a.groups, p);
        }
    }
}

/// A change of liveness changes neither the members nor the groups.
pub proof fn lemma_set_all_durable(s: State, ids: Seq<u64>, online: bool)
    ensures
        same_durable(set_all_step(s, ids, online).state, s),
    decreases ids.len(),
{
    if ids.len() > 0 {
        lemma_set_all_durable(s, ids.drop_last(), online);
        let mid = set_all_step(s, ids.drop_last(), online).state;
        let next = set_online_step(mid, ids.last(), online).state;
        if flips(mid, ids.last(), online) {
            let at = member_pos(mid.members, ids.last());
            assert(0 <= at < mid.members.len() && mid.members[at].id == ids.last());
        }
        assert(same_durable(next, mid));
    }
}

/// What a command does to the members and groups, and what it answers, does
/// not depend on liveness, leaders or terms.
pub proof fn lemma_apply_durable(a: State, b: State, c: CommandView)
    requires
        a.wf(),
        b.wf(),
        same_durable(a, b),
    ensures
        same_durable(apply(a, c).state, apply(b, c).state),
        reply_of(a, c) == reply_of(b, c),
{
    lemma_same_places(a, b);
    match c {
        CommandView::HbOnlineChanged { online, offline } => {
            lemma_set_all_durable(a, online, true);
            lemma_set_all_durable(set_all_step(a, online, true).state, offline, false);
            lemma_set_all_durable(b, online, true);
            lemma_set_all_durable(set_all_step(b, online, true).state, offline, false);
        },
        CommandView::Join { address } => {},
        CommandView::Leave { id } => {
            if has_member(a.members, id) {
                lemma_member_found(a.members, id);
            }
        },
        CommandView::JoinGroup { name, id } => {
            let group = hash_str_spec(name);
            if has_group(a.groups, group) {
                lemma_group_found(a.groups, group);
            }
        },
        CommandView::LeaveGroup { group, id } => {
            if has_group(a.groups, group) {
                lemma_group_found(a.groups, group);
            }
        },
        CommandView::NewGroup { name } => {},
        CommandView::DelGroup { id } => {
            if has_group(a.groups, id) {
                lemma_group_found(a.groups, id);
            }
        },
    }
}

/// A replica that recovers a snapshot and replays the log from there holds
/// the same members and groups, and has given the same answers, as one that
/// applied the whole log. What the snapshot does not hold, liveness and with
/// it the leaders, comes back with the heartbeats.
pub proof fn law_recovered_replica_catches_up(s: State, log: Seq<CommandView>)
    requires
        s.wf(),
    ensures
        same_durable(replay(at_rest(s), log).state, replay(s, log).state),
        log.len() > 0 ==> reply_of(replay(at_rest(s), log.drop_last()).state, log.last())
            == reply_of(replay(s, log.drop_last()).state, log.last()),
    decreases log.len(),
{
    lemma_at_rest_wf(s);
    if log.len() > 0 {
        let front = log.drop_last();
        law_recovered_replica_catches_up(s, front);
        law_replay_keeps_wf(s, front);
        law_replay_keeps_wf(at_rest(s), front);
        lemma_apply_durable(replay(at_rest(s), front).state, replay(s, front).state, log.last());
    }
}

/// A replica that recovers a snapshot taken while nobody was online and
/// replays the log from there is in the very state of one that applied the
/// whole log, and has emitted the same events.
pub proof fn law_recovered_replica_is_identical(s: State, log: Seq<CommandView>)
    requires
        s.wf(),
        forall|i: int| 0 <= i < s.members.len() ==> !(#[trigger] s.members[i]).online,
    ensures
        at_rest(s) == s,
        replay(at_rest(s), log) == replay(s, log),
{
    let r = at_rest(s);
    assert(r.members =~= s.members);
    assert forall|c: u64| !is_online(s.members, c) by {}
    assert forall|i: int| 0 <= i < s.groups.len() implies r.groups[i] == s.groups[i] by {
        let g = s.groups[i];
        assert(group_wf(s.members, g, s.term));
        lemma_elect_sound(s.members, g.members, g.id);
    }
    assert(r.groups =~= s.groups);
}

/// The leader of a group is a function of the set of its online members and
/// of the group's id, and of nothing else: neither the order in which the
/// members are listed nor the members that are offline have a say.
pub proof fn law_leader_goes_by_online_set(
    members_a: Seq<MemberView>,
    ids_a: Seq<u64>,
    members_b: Seq<MemberView>,
    ids_b: Seq<u64>,
    group: u64,
)
    requires
        forall|x: u64|
            (ids_a.contains(x) && is_online(members_a, x)) <==> (ids_b.contains(x) && is_online(
                members_b,
                x,
            )),
    ensures
        elect(members_a, ids_a, group) == elect(members_b, ids_b, group),
{
    lemma_elect_sound(members_a, ids_a, group);
    lemma_elect_sound(members_b, ids_b, group);
    match elect(members_a, ids_a, group) {
        Some(l) => {
            assert(ids_b.contains(l) && is_online(members_b, l));
            assert forall|k: int|
                0 <= k < ids_b.len() && is_online(members_b, #[trigger] ids_b[k]) implies rank(
                l,
                group,
            ) <= rank(ids_b[k], group) by {
                assert(ids_b.contains(ids_b[k]));
                assert(ids_a.contains(ids_b[k]) && is_online(members_a, ids_b[k]));
                let w = choose|w: int| 0 <= w < ids_a.len() && ids_a[w] == ids_b[k];
                assert(is_online(members_a, ids_a[w]));
            }
            lemma_elect_unique(members_b, ids_b, group, l);
        },
        None => {
            match elect(members_b, ids_b, group) {
                Some(l) => {
                    assert(ids_a.contains(l) && is_online(members_a, l));
                    let w = choose|w: int| 0 <= w < ids_a.len() && ids_a[w] == l;
                    assert(!is_online(members_a, ids_a[w]));
                },
                None => {},
            }
        },
    }
}

/// Members going online or offline one after the other either change
/// nothing or advance the clock.
pub proof fn lemma_set_all_clock(s: State, ids: Seq<u64>, online: bool)
    ensures
        set_all_step(s, ids, online).state == s || set_all_step(s, ids, online).state.term
            > s.term,
        set_all_step(s, ids, online).state == s ==> set_all_step(s, ids, online).events
            == Seq::<EventView>::empty(),
    decreases ids.len(),
{
    if ids.len() > 0 {
        lemma_set_all_clock(s, ids.drop_last(), online);
        let mid = set_all_step(s, ids.drop_last(), online);
        if !flips(mid.state, ids.last(), online) {
            assert(mid.events + Seq::<EventView>::empty() =~= mid.events);
        }
    }
}

/// The clock advances on every mutation and on nothing else: a command that
/// changes anything leaves the clock ahead of where it was, and a command
/// that changes nothing emits nothing.
pub proof fn law_clock_advances(s: State, c: CommandView)
    ensures
        apply(s, c).state == s || apply(s, c).state.term > s.term,
        apply(s, c).state == s ==> apply(s, c).events == Seq::<EventView>::empty(),
{
    match c {
        CommandView::HbOnlineChanged { online, offline } => {
            let up = set_all_step(s, online, true);
            let down = set_all_step(up.state, offline, false);
            lemma_set_all_clock(s, online, true);
            lemma_set_all_clock(up.state, offline, false);
            if up.state == s && down.state == s {
                assert(up.events + down.events =~= Seq::<EventView>::empty());
            }
        },
        _ => {},
    }
}

} // verus!
