//! The story that the leader-changed events of a command tell of each group.

use crate::hash::hash_str_spec;
use crate::membership::laws::law_replay_keeps_wf;
use crate::membership::lemmas::{
    lemma_elect_sound, lemma_group_at, lemma_group_found, lemma_member_found,
};
use crate::membership::model::{
    apply, can_join_group, can_leave_group, changes_leader_of, distinct_group_ids, elect, flips,
    group_change, group_of, group_pos, group_wf, has_group, has_member, leader_id, leader_trace,
    leave_step, liveness_topic, member_pos, replay, set_all_step, set_online_step, sweep_events,
    sweep_groups, swept_ids, touch_events, without, CommandView, EventView, GroupView, MemberView,
    State, Topic,
};
use crate::membership::soundness::{
    lemma_del_group_keeps_wf, lemma_group_change_keeps_wf, lemma_leave_keeps_wf,
    lemma_new_group_keeps_wf, lemma_set_all_keeps_wf, lemma_set_online_keeps_wf,
    lemma_update_member, lemma_without,
};
use vstd::prelude::*;

verus! {

/// No event among `events` tells of a change of leader in the group.
pub open spec fn quiet(events: Seq<EventView>, group: u64) -> bool {
    forall|i: int| 0 <= i < events.len() ==> !changes_leader_of(#[trigger] events[i], group)
}

/// Events that are quiet about a group leave its leader where it was.
pub proof fn lemma_trace_quiet(
    events: Seq<EventView>,
    group: u64,
    from: Option<u64>,
    floor: nat,
    ceil: nat,
)
    requires
        quiet(events, group),
        floor <= ceil,
    ensures
        leader_trace(events, group, from, floor, from, ceil),
    decreases events.len(),
{
    if events.len() > 0 {
        let rest = events.drop_first();
        assert(!changes_leader_of(events[0], group));
        assert forall|i: int| 0 <= i < rest.len() implies !changes_leader_of(
            #[trigger] rest[i],
            group,
        ) by {
            assert(rest[i] == events[i + 1]);
        }
        lemma_trace_quiet(rest, group, from, floor, ceil);
    }
}

/// A story that starts above a floor starts above every lower floor.
pub proof fn lemma_trace_lower_floor(
    events: Seq<EventView>,
    group: u64,
    from: Option<u64>,
    floor: nat,
    lower: nat,
    to: Option<u64>,
    ceil: nat,
)
    requires
        leader_trace(events, group, from, floor, to, ceil),
        lower <= floor,
    ensures
        leader_trace(events, group, from, lower, to, ceil),
    decreases events.len(),
{
    if events.len() > 0 {
        match events.first() {
            EventView::LeaderChanged { group: g, old, new, term } => {
                if g != group {
                    lemma_trace_lower_floor(events.drop_first(), group, from, floor, lower, to, ceil);
                }
            },
            EventView::Member { .. } => {
                lemma_trace_lower_floor(events.drop_first(), group, from, floor, lower, to, ceil);
            },
        }
    }
}

/// Two stories, the second starting where the first ends, make one.
pub proof fn lemma_trace_concat(
    a: Seq<EventView>,
    b: Seq<EventView>,
    group: u64,
    from: Option<u64>,
    floor: nat,
    mid: Option<u64>,
    middle: nat,
    to: Option<u64>,
    ceil: nat,
)
    requires
        leader_trace(a, group, from, floor, mid, middle),
        leader_trace(b, group, mid, middle, to, ceil),
    ensures
        leader_trace(a + b, group, from, floor, to, ceil),
    decreases a.len(),
{
    if a.len() == 0 {
        assert(a + b =~= b);
        lemma_trace_lower_floor(b, group, mid, middle, floor, to, ceil);
    } else {
        assert((a + b).first() == a.first());
        assert((a + b).drop_first() =~= a.drop_first() + b);
        match a.first() {
            EventView::LeaderChanged { group: g, old, new, term } => {
                if g == group {
                    lemma_trace_concat(
                        a.drop_first(),
                        b,
                        group,
                        leader_id(new),
                        term,
                        mid,
                        middle,
                        to,
                        ceil,
                    );
                } else {
                    lemma_trace_concat(a.drop_first(), b, group, from, floor, mid, middle, to, ceil);
                }
            },
            EventView::Member { .. } => {
                lemma_trace_concat(a.drop_first(), b, group, from, floor, mid, middle, to, ceil);
            },
        }
    }
}

/// A group that the clock has passed, whose leader and members exist.
pub open spec fn sweepable(members: Seq<MemberView>, g: GroupView, t: nat) -> bool {
    &&& g.term < t
    &&& g.members.no_duplicates()
    &&& g.leader is Some ==> has_member(members, g.leader.unwrap())
    &&& forall|k: int| 0 <= k < g.members.len() ==> has_member(members, #[trigger] g.members[k])
}

/// What one group emits says nothing of the leaders of the others.
pub proof fn lemma_touch_quiet(
    members: Seq<MemberView>,
    g: GroupView,
    ids: Seq<u64>,
    topic: Topic,
    who: MemberView,
    t: nat,
    group: u64,
)
    requires
        group != g.id,
    ensures
        quiet(touch_events(members, g, ids, topic, who, t), group),
{
}

/// What one group emits tells the story of its own leader: from the old
/// leader to the one elected, in one event where they differ and none where
/// they are the same.
pub proof fn lemma_touch_trace(
    members: Seq<MemberView>,
    g: GroupView,
    ids: Seq<u64>,
    topic: Topic,
    who: MemberView,
    t: nat,
)
    requires
        g.term < t,
        g.leader is Some ==> has_member(members, g.leader.unwrap()),
        forall|k: int| 0 <= k < ids.len() ==> has_member(members, #[trigger] ids[k]),
    ensures
        leader_trace(
            touch_events(members, g, ids, topic, who, t),
            g.id,
            g.leader,
            g.term,
            elect(members, ids, g.id),
            t,
        ),
{
    let events = touch_events(members, g, ids, topic, who, t);
    let leader = elect(members, ids, g.id);
    lemma_elect_sound(members, ids, g.id);
    if leader is Some {
        let l = leader.unwrap();
        let k = choose|k: int| 0 <= k < ids.len() && ids[k] == l;
        assert(has_member(members, ids[k]));
        lemma_member_found(members, l);
    }
    if g.leader is Some {
        lemma_member_found(members, g.leader.unwrap());
    }
    reveal_with_fuel(leader_trace, 3);
    if leader == g.leader {
        assert(events.drop_first() =~= Seq::<EventView>::empty());
    } else {
        assert(events.len() == 2);
        assert(events.drop_first().len() == 1);
        assert(events.drop_first().first() == events[1]);
        assert(events.drop_first().drop_first() =~= Seq::<EventView>::empty());
    }
}

/// A sweep over groups says nothing of the leader of a group that is not
/// among them.
pub proof fn lemma_sweep_quiet(
    members: Seq<MemberView>,
    groups: Seq<GroupView>,
    topic: Topic,
    who: MemberView,
    remove: bool,
    t: nat,
    group: u64,
)
    requires
        forall|i: int| 0 <= i < groups.len() ==> (#[trigger] groups[i]).id != group,
    ensures
        quiet(sweep_events(members, groups, topic, who, remove, t), group),
    decreases groups.len(),
{
    if groups.len() > 0 {
        let front = groups.drop_last();
        let g = groups.last();
        assert forall|i: int| 0 <= i < front.len() implies (#[trigger] front[i]).id != group by {
            assert(front[i] == groups[i]);
        }
        lemma_sweep_quiet(members, front, topic, who, remove, t, group);
        assert(g == groups[groups.len() - 1]);
        lemma_touch_quiet(members, g, swept_ids(g, who.id, remove), topic, who, t, group);
    }
}

/// A sweep tells the story of the leader of each group that it passes.
pub proof fn lemma_sweep_trace(
    members: Seq<MemberView>,
    groups: Seq<GroupView>,
    topic: Topic,
    who: MemberView,
    remove: bool,
    t: nat,
    p: int,
)
    requires
        distinct_group_ids(groups),
        0 <= p < groups.len(),
        forall|i: int| 0 <= i < groups.len() ==> sweepable(members, #[trigger] groups[i], t),
    ensures
        leader_trace(
            sweep_events(members, groups, topic, who, remove, t),
            groups[p].id,
            groups[p].leader,
            groups[p].term,
            sweep_groups(members, groups, who.id, remove, t)[p].leader,
            sweep_groups(members, groups, who.id, remove, t)[p].term,
        ),
    decreases groups.len(),
{
    let n = groups.len() - 1;
    let front = groups.drop_last();
    let g = groups[n];
    let target = groups[p];
    let swept = sweep_groups(members, groups, who.id, remove, t)[p];
    let ids = swept_ids(g, who.id, remove);
    let before = sweep_events(members, front, topic, who, remove, t);
    let last = if g.members.contains(who.id) {
        touch_events(members, g, ids, topic, who, t)
    } else {
        Seq::<EventView>::empty()
    };
    assert(groups.last() == g);
    assert(sweep_events(members, groups, topic, who, remove, t) =~= before + last);
    assert(sweepable(members, g, t));
    assert(sweepable(members, target, t));
    if p == n {
        assert forall|i: int| 0 <= i < front.len() implies (#[trigger] front[i]).id != g.id by {
            assert(front[i] == groups[i]);
            assert(groups[i].id != groups[n].id);
        }
        lemma_sweep_quiet(members, front, topic, who, remove, t, g.id);
        lemma_trace_quiet(before, g.id, g.leader, g.term, g.term);
        if g.members.contains(who.id) {
            if remove {
                lemma_without(g.members, who.id);
                assert forall|k: int| 0 <= k < ids.len() implies has_member(
                    members,
                    #[trigger] ids[k],
                ) by {
                    assert(g.members.contains(ids[k]));
                    let w = choose|w: int| 0 <= w < g.members.len() && g.members[w] == ids[k];
                    assert(has_member(members, g.members[w]));
                }
            }
            lemma_touch_trace(members, g, ids, topic, who, t);
        }
        lemma_trace_concat(
            before,
            last,
            g.id,
            g.leader,
            g.term,
            g.leader,
            g.term,
            swept.leader,
            swept.term,
        );
    } else {
        assert(front[p] == target);
        assert forall|i: int, j: int| 0 <= i < j < front.len() implies (#[trigger] front[i]).id != (
        #[trigger] front[j]).id by {
            assert(groups[i].id != groups[j].id);
        }
        assert forall|i: int| 0 <= i < front.len() implies sweepable(
            members,
            #[trigger] front[i],
            t,
        ) by {
            assert(front[i] == groups[i]);
        }
        lemma_sweep_trace(members, front, topic, who, remove, t, p);
        assert(sweep_groups(members, front, who.id, remove, t)[p] == swept);
        assert(groups[p].id != groups[n].id);
        if g.members.contains(who.id) {
            lemma_touch_quiet(members, g, ids, topic, who, t, target.id);
        }
        assert(target.term <= swept.term);
        lemma_trace_quiet(last, target.id, swept.leader, swept.term, swept.term);
        lemma_trace_concat(
            before,
            last,
            target.id,
            target.leader,
            target.term,
            swept.leader,
            swept.term,
            swept.leader,
            swept.term,
        );
    }
}

/// In a sound state every group can be swept at the next clock value, over
/// any list of members that holds the same ids.
pub proof fn lemma_wf_sweepable(s: State, members: Seq<MemberView>)
    requires
        s.wf(),
        forall|c: u64| has_member(members, c) == has_member(s.members, c),
    ensures
        forall|i: int|
            0 <= i < s.groups.len() ==> sweepable(members, #[trigger] s.groups[i], s.term + 1),
{
    assert forall|i: int| 0 <= i < s.groups.len() implies sweepable(
        members,
        #[trigger] s.groups[i],
        s.term + 1,
    ) by {
        lemma_group_leader_exists(s, i);
        let g = s.groups[i];
        assert(group_wf(s.members, g, s.term));
        assert forall|k: int| 0 <= k < g.members.len() implies has_member(
            members,
            #[trigger] g.members[k],
        ) by {
            assert(has_member(s.members, g.members[k]));
        }
    }
}

/// In a sound state the leader of a group is a member of the cluster.
pub proof fn lemma_group_leader_exists(s: State, i: int)
    requires
        s.wf(),
        0 <= i < s.groups.len(),
    ensures
        s.groups[i].leader is Some ==> has_member(s.members, s.groups[i].leader.unwrap()),
{
    let g = s.groups[i];
    assert(group_wf(s.members, g, s.term));
    lemma_elect_sound(s.members, g.members, g.id);
    if g.leader is Some {
        let l = g.leader.unwrap();
        let k = choose|k: int| 0 <= k < g.members.len() && g.members[k] == l;
        assert(has_member(s.members, g.members[k]));
    }
}

/// A group keeps its place where the groups after a step are as many as
/// before and bear the same ids.
pub proof fn lemma_same_place(before: Seq<GroupView>, after: Seq<GroupView>, group: u64)
    requires
        distinct_group_ids(before),
        distinct_group_ids(after),
        has_group(before, group),
        before.len() == after.len(),
        forall|i: int| 0 <= i < before.len() ==> (#[trigger] after[i]).id == before[i].id,
    ensures
        has_group(after, group),
        group_pos(after, group) == group_pos(before, group),
{
    lemma_group_found(before, group);
    let p = group_pos(before, group);
    assert(after[p].id == group);
    lemma_group_at(after, p);
}

/// A member going online or offline: the story of each group's leader.
pub proof fn lemma_set_online_trace(s: State, id: u64, online: bool, group: u64)
    requires
        s.wf(),
        has_group(s.groups, group),
    ensures
        has_group(set_online_step(s, id, online).state.groups, group),
        leader_trace(
            set_online_step(s, id, online).events,
            group,
            group_of(s, group).leader,
            group_of(s, group).term,
            group_of(set_online_step(s, id, online).state, group).leader,
            group_of(set_online_step(s, id, online).state, group).term,
        ),
{
    let step = set_online_step(s, id, online);
    if flips(s, id, online) {
        let at = member_pos(s.members, id);
        lemma_member_found(s.members, id);
        let who = MemberView { id, address: s.members[at].address, online };
        let members = s.members.update(at, who);
        let topic = liveness_topic(online);
        let t = s.term + 1;
        lemma_update_member(s.members, at, who);
        lemma_set_online_keeps_wf(s, id, online);
        lemma_same_place(s.groups, step.state.groups, group);
        lemma_group_found(s.groups, group);
        lemma_wf_sweepable(s, members);
        let p = group_pos(s.groups, group);
        lemma_sweep_trace(members, s.groups, topic, who, false, t, p);
        let swept = sweep_events(members, s.groups, topic, who, false, t);
        assert(step.events.drop_first() =~= swept);
    }
}

/// A member leaving the cluster: the story of each group's leader.
pub proof fn lemma_leave_trace(s: State, id: u64, group: u64)
    requires
        s.wf(),
        has_group(s.groups, group),
    ensures
        has_group(leave_step(s, id).state.groups, group),
        leader_trace(
            leave_step(s, id).events,
            group,
            group_of(s, group).leader,
            group_of(s, group).term,
            group_of(leave_step(s, id).state, group).leader,
            group_of(leave_step(s, id).state, group).term,
        ),
{
    let step = leave_step(s, id);
    if has_member(s.members, id) {
        let at = member_pos(s.members, id);
        lemma_member_found(s.members, id);
        let who = s.members[at];
        let t = s.term + 1;
        lemma_leave_keeps_wf(s, id);
        lemma_same_place(s.groups, step.state.groups, group);
        lemma_group_found(s.groups, group);
        lemma_wf_sweepable(s, s.members);
        let p = group_pos(s.groups, group);
        lemma_sweep_trace(s.members, s.groups, Topic::Left, who, true, t, p);
        let swept = sweep_events(s.members, s.groups, Topic::Left, who, true, t);
        assert(step.events.drop_first() =~= swept);
    }
}

/// A change to the members of one group: the story of each group's leader.
pub proof fn lemma_group_change_trace(
    s: State,
    target: u64,
    id: u64,
    ids: Seq<u64>,
    topic: Topic,
    group: u64,
)
    requires
        s.wf(),
        has_group(s.groups, target),
        has_group(s.groups, group),
        ids.no_duplicates(),
        forall|k: int| 0 <= k < ids.len() ==> has_member(s.members, #[trigger] ids[k]),
    ensures
        has_group(group_change(s, target, id, ids, topic).state.groups, group),
        leader_trace(
            group_change(s, target, id, ids, topic).events,
            group,
            group_of(s, group).leader,
            group_of(s, group).term,
            group_of(
                group_change(s, target, id, ids, topic).state,
                group,
            ).leader,
            group_of(
                group_change(s, target, id, ids, topic).state,
                group,
            ).term,
        ),
{
    let step = group_change(s, target, id, ids, topic);
    let at = group_pos(s.groups, target);
    let g = s.groups[at];
    let who = s.members[member_pos(s.members, id)];
    let t = s.term + 1;
    lemma_group_found(s.groups, target);
    lemma_group_found(s.groups, group);
    lemma_group_change_keeps_wf(s, target, id, ids, topic);
    lemma_same_place(s.groups, step.state.groups, group);
    lemma_group_leader_exists(s, at);
    assert(group_wf(s.members, g, s.term));
    if group == target {
        lemma_touch_trace(s.members, g, ids, topic, who, t);
    } else {
        let p = group_pos(s.groups, group);
        assert(group_wf(s.members, s.groups[p], s.term));
        lemma_touch_quiet(s.members, g, ids, topic, who, t, group);
        lemma_trace_quiet(step.events, group, s.groups[p].leader, s.groups[p].term, s.groups[p].term);
    }
}

/// Members going online or offline one after the other: the story of each
/// group's leader.
pub proof fn lemma_set_all_trace(s: State, ids: Seq<u64>, online: bool, group: u64)
    requires
        s.wf(),
        has_group(s.groups, group),
    ensures
        has_group(set_all_step(s, ids, online).state.groups, group),
        leader_trace(
            set_all_step(s, ids, online).events,
            group,
            group_of(s, group).leader,
            group_of(s, group).term,
            group_of(set_all_step(s, ids, online).state, group).leader,
            group_of(set_all_step(s, ids, online).state, group).term,
        ),
    decreases ids.len(),
{
    if ids.len() == 0 {
        lemma_group_found(s.groups, group);
    } else {
        let before = set_all_step(s, ids.drop_last(), online);
        lemma_set_all_trace(s, ids.drop_last(), online, group);
        lemma_set_all_keeps_wf(s, ids.drop_last(), online);
        lemma_set_online_trace(before.state, ids.last(), online, group);
        let last = set_online_step(before.state, ids.last(), online);
        lemma_trace_concat(
            before.events,
            last.events,
            group,
            group_of(s, group).leader,
            group_of(s, group).term,
            group_of(before.state, group).leader,
            group_of(before.state, group).term,
            group_of(last.state, group).leader,
            group_of(last.state, group).term,
        );
    }
}

/// Every change of a group's leader is told exactly once. Whatever the
/// command, the leader-changed events that it emits for a group that is there
/// before and after tell the story of that group's leader in order: the first
/// starts at the leader before the command, each next one at the leader that
/// the one before named, the last names the leader after the command, none
/// names the leader that it starts from, and their terms go strictly up from
/// above the group's term before the command to at most its term after.
pub proof fn law_leader_changes(s: State, c: CommandView, group: u64)
    requires
        s.wf(),
        has_group(s.groups, group),
        has_group(apply(s, c).state.groups, group),
    ensures
        leader_trace(
            apply(s, c).events,
            group,
            group_of(s, group).leader,
            group_of(s, group).term,
            group_of(apply(s, c).state, group).leader,
            group_of(apply(s, c).state, group).term,
        ),
{
    let step = apply(s, c);
    lemma_group_found(s.groups, group);
    let p = group_pos(s.groups, group);
    let g = s.groups[p];
    assert(group_wf(s.members, g, s.term));
    match c {
        CommandView::HbOnlineChanged { online, offline } => {
            let up = set_all_step(s, online, true);
            let down = set_all_step(up.state, offline, false);
            lemma_set_all_trace(s, online, true, group);
            lemma_set_all_keeps_wf(s, online, true);
            lemma_set_all_trace(up.state, offline, false, group);
            lemma_trace_concat(
                up.events,
                down.events,
                group,
                g.leader,
                g.term,
                group_of(up.state, group).leader,
                group_of(up.state, group).term,
                group_of(down.state, group).leader,
                group_of(down.state, group).term,
            );
        },
        CommandView::Join { address } => {
            lemma_trace_quiet(step.events, group, g.leader, g.term, g.term);
        },
        CommandView::Leave { id } => {
            lemma_leave_trace(s, id, group);
        },
        CommandView::JoinGroup { name, id } => {
            let target = hash_str_spec(name);
            if can_join_group(s, target, id) {
                lemma_group_found(s.groups, target);
                let tg = s.groups[group_pos(s.groups, target)];
                assert(group_wf(s.members, tg, s.term));
                let ids = tg.members.push(id);
                assert forall|i: int, j: int|
                    0 <= i < ids.len() && 0 <= j < ids.len() && i != j implies ids[i] != ids[j] by {
                    if i < tg.members.len() {
                        assert(tg.members.contains(ids[i]));
                    }
                    if j < tg.members.len() {
                        assert(tg.members.contains(ids[j]));
                    }
                }
                assert forall|k: int| 0 <= k < ids.len() implies has_member(
                    s.members,
                    #[trigger] ids[k],
                ) by {
                    if k < tg.members.len() {
                        assert(has_member(s.members, tg.members[k]));
                    }
                }
                lemma_group_change_trace(s, target, id, ids, Topic::Joined, group);
            }
        },
        CommandView::LeaveGroup { group: target, id } => {
            if can_leave_group(s, target, id) {
                lemma_group_found(s.groups, target);
                let tg = s.groups[group_pos(s.groups, target)];
                assert(group_wf(s.members, tg, s.term));
                let ids = without(tg.members, id);
                lemma_without(tg.members, id);
                assert forall|k: int| 0 <= k < ids.len() implies has_member(
                    s.members,
                    #[trigger] ids[k],
                ) by {
                    assert(tg.members.contains(ids[k]));
                    let w = choose|w: int| 0 <= w < tg.members.len() && tg.members[w] == ids[k];
                    assert(has_member(s.members, tg.members[w]));
                }
                lemma_group_change_trace(s, target, id, ids, Topic::Left, group);
            }
        },
        CommandView::NewGroup { name } => {
            if !has_group(s.groups, hash_str_spec(name)) {
                lemma_new_group_keeps_wf(s, name);
                assert(step.state.groups[p] == g);
                lemma_group_at(step.state.groups, p);
            }
        },
        CommandView::DelGroup { id } => {
            if has_group(s.groups, id) {
                lemma_del_group_keeps_wf(s, id);
                lemma_group_found(s.groups, id);
                lemma_group_found(step.state.groups, group);
                let at = group_pos(s.groups, id);
                let q = group_pos(step.state.groups, group);
                let a = if q < at { q } else { q + 1 };
                assert(step.state.groups[q] == s.groups[a]);
                lemma_group_at(s.groups, a);
                assert(a == p);
                lemma_trace_quiet(step.events, group, g.leader, g.term, g.term);
            }
        },
    }
}

/// The group is there at every index of the log.
pub open spec fn group_persists(s: State, log: Seq<CommandView>, group: u64) -> bool {
    forall|i: int|
        0 <= i <= log.len() ==> has_group(#[trigger] replay(s, log.take(i)).state.groups, group)
}

/// Over any log, for as long as a group lives, the leader-changed events
/// emitted for it tell the whole story of its leader, each change once, in
/// order and with terms that go strictly up.
pub proof fn law_leader_story(s: State, log: Seq<CommandView>, group: u64)
    requires
        s.wf(),
        group_persists(s, log, group),
    ensures
        leader_trace(
            replay(s, log).events,
            group,
            group_of(s, group).leader,
            group_of(s, group).term,
            group_of(replay(s, log).state, group).leader,
            group_of(replay(s, log).state, group).term,
        ),
    decreases log.len(),
{
    assert(log.take(0) =~= Seq::<CommandView>::empty());
    assert(has_group(replay(s, log.take(0)).state.groups, group));
    if log.len() > 0 {
        let front = log.drop_last();
        assert forall|i: int| 0 <= i <= front.len() implies has_group(
            #[trigger] replay(s, front.take(i)).state.groups,
            group,
        ) by {
            assert(front.take(i) =~= log.take(i));
            assert(has_group(replay(s, log.take(i)).state.groups, group));
        }
        law_leader_story(s, front, group);
        let mid = replay(s, front);
        law_replay_keeps_wf(s, front);
        assert(log.take(log.len() - 1) =~= front);
        assert(has_group(replay(s, log.take(log.len() - 1)).state.groups, group));
        assert(log.take(log.len() as int) =~= log);
        assert(has_group(replay(s, log.take(log.len() as int)).state.groups, group));
        law_leader_changes(mid.state, log.last(), group);
        let last = apply(mid.state, log.last());
        lemma_trace_concat(
            mid.events,
            last.events,
            group,
            group_of(s, group).leader,
            group_of(s, group).term,
            group_of(mid.state, group).leader,
            group_of(mid.state, group).term,
            group_of(last.state, group).leader,
            group_of(last.state, group).term,
        );
    } else {
        lemma_group_found(s.groups, group);
        assert(group_wf(s.members, group_of(s, group), s.term));
    }
}

} // verus!
