//! The invariant of the membership state machine, and that each command keeps it.

use crate::hash::hash_str_spec;
use crate::membership::lemmas::{
    lemma_elect_frame, lemma_group_found, lemma_member_at, lemma_member_found,
};
use crate::membership::model::{
    can_join_group, can_leave_group, del_group_step, distinct_member_ids, flips, group_change,
    group_pos, group_wf, has_group, has_member, hb_step, is_online, join_group_step, join_step,
    leave_group_step, leave_step, member_pos, new_group_step, regroup, set_all_step,
    set_online_step, without, GroupView, MemberView, State, Topic,
};
use vstd::prelude::*;

verus! {

/// A member that no group lists can be added or changed without any group
/// electing another leader.
pub proof fn lemma_group_wf_frame(
    before: Seq<MemberView>,
    after: Seq<MemberView>,
    g: GroupView,
    t0: nat,
    t1: nat,
)
    requires
        group_wf(before, g, t0),
        t0 <= t1,
        forall|k: int|
            0 <= k < g.members.len() ==> has_member(after, #[trigger] g.members[k]) && is_online(
                before,
                g.members[k],
            ) == is_online(after, g.members[k]),
    ensures
        group_wf(after, g, t1),
{
    lemma_elect_frame(before, after, g.members, g.id);
}

/// Joining keeps the invariant.
pub proof fn lemma_join_keeps_wf(s: State, address: Seq<char>)
    requires
        s.wf(),
    ensures
        join_step(s, address).state.wf(),
{
    let next = join_step(s, address).state;
    let id = hash_str_spec(address);
    if !has_member(s.members, id) {
        assert forall|i: int| 0 <= i < next.groups.len() implies group_wf(
            next.members,
            #[trigger] next.groups[i],
            next.term,
        ) by {
            let g = s.groups[i];
            assert(group_wf(s.members, g, s.term));
            assert forall|k: int| 0 <= k < g.members.len() implies has_member(
                next.members,
                #[trigger] g.members[k],
            ) && is_online(s.members, g.members[k]) == is_online(next.members, g.members[k]) by {
                let c = g.members[k];
                assert(has_member(s.members, c));
                let p = choose|p: int| 0 <= p < s.members.len() && (#[trigger] s.members[p]).id == c;
                assert(next.members[p].id == c);
                if is_online(s.members, c) {
                    let q = choose|q: int|
                        0 <= q < s.members.len() && (#[trigger] s.members[q]).id == c
                            && s.members[q].online;
                    assert(next.members[q].id == c && next.members[q].online);
                }
                if is_online(next.members, c) {
                    let q = choose|q: int|
                        0 <= q < next.members.len() && (#[trigger] next.members[q]).id == c
                            && next.members[q].online;
                    assert(q < s.members.len());
                    assert(s.members[q].id == c && s.members[q].online);
                }
            }
            lemma_group_wf_frame(s.members, next.members, g, s.term, next.term);
        }
    }
}

/// Making a group keeps the invariant.
pub proof fn lemma_new_group_keeps_wf(s: State, name: Seq<char>)
    requires
        s.wf(),
    ensures
        new_group_step(s, name).wf(),
{
    let next = new_group_step(s, name);
    let id = hash_str_spec(name);
    if !has_group(s.groups, id) {
        assert forall|i: int| 0 <= i < next.groups.len() implies group_wf(
            next.members,
            #[trigger] next.groups[i],
            next.term,
        ) by {
            if i < s.groups.len() {
                assert(group_wf(s.members, s.groups[i], s.term));
            }
        }
        assert forall|i: int, j: int| 0 <= i < j < next.groups.len() implies (
        #[trigger] next.groups[i]).id != (#[trigger] next.groups[j]).id by {
            if j < s.groups.len() {
                assert(s.groups[i].id != s.groups[j].id);
            } else {
                assert(s.groups[i].id != id);
            }
        }
    }
}

/// The ids of a group without one of them: still distinct, each of them one
/// of the old, and none of them the one that left.
pub proof fn lemma_without(ids: Seq<u64>, id: u64)
    requires
        ids.no_duplicates(),
        ids.contains(id),
    ensures
        without(ids, id).no_duplicates(),
        without(ids, id).len() == ids.len() - 1,
        !without(ids, id).contains(id),
        forall|k: int|
            0 <= k < without(ids, id).len() ==> ids.contains(#[trigger] without(ids, id)[k]),
        forall|c: u64| c != id && ids.contains(c) ==> without(ids, id).contains(c),
{
    let at = ids.index_of(id);
    let rest = without(ids, id);
    assert(0 <= at < ids.len() && ids[at] == id);
    assert forall|k: int| 0 <= k < rest.len() implies ids.contains(#[trigger] rest[k]) && rest[k]
        != id by {
        if k < at {
            assert(rest[k] == ids[k]);
        } else {
            assert(rest[k] == ids[k + 1]);
        }
    }
    assert forall|i: int, j: int| 0 <= i < rest.len() && 0 <= j < rest.len() && i != j implies rest[i]
        != rest[j] by {
        let a = if i < at { i } else { i + 1 };
        let b = if j < at { j } else { j + 1 };
        assert(rest[i] == ids[a] && rest[j] == ids[b]);
    }
    assert forall|c: u64| c != id && ids.contains(c) implies rest.contains(c) by {
        let w = choose|w: int| 0 <= w < ids.len() && ids[w] == c;
        if w < at {
            assert(rest[w] == c);
        } else {
            assert(rest[w - 1] == c);
        }
    }
}

/// A change to the members of one group keeps the invariant, where the new
/// member ids are distinct and exist.
pub proof fn lemma_group_change_keeps_wf(s: State, group: u64, id: u64, ids: Seq<u64>, topic: Topic)
    requires
        s.wf(),
        has_group(s.groups, group),
        ids.no_duplicates(),
        forall|k: int| 0 <= k < ids.len() ==> has_member(s.members, #[trigger] ids[k]),
    ensures
        group_change(s, group, id, ids, topic).state.wf(),
{
    let next = group_change(s, group, id, ids, topic).state;
    let at = group_pos(s.groups, group);
    lemma_group_found(s.groups, group);
    assert forall|i: int| 0 <= i < next.groups.len() implies group_wf(
        next.members,
        #[trigger] next.groups[i],
        next.term,
    ) by {
        if i != at {
            assert(group_wf(s.members, s.groups[i], s.term));
        }
    }
    assert forall|i: int, j: int| 0 <= i < j < next.groups.len() implies (#[trigger] next.groups[i]).id
        != (#[trigger] next.groups[j]).id by {
        assert(s.groups[i].id != s.groups[j].id);
    }
}

/// Joining a group keeps the invariant.
pub proof fn lemma_join_group_keeps_wf(s: State, name: Seq<char>, id: u64)
    requires
        s.wf(),
    ensures
        join_group_step(s, name, id).state.wf(),
{
    let group = hash_str_spec(name);
    if can_join_group(s, group, id) {
        lemma_group_found(s.groups, group);
        let g = s.groups[group_pos(s.groups, group)];
        assert(group_wf(s.members, g, s.term));
        let ids = g.members.push(id);
        assert forall|i: int, j: int| 0 <= i < ids.len() && 0 <= j < ids.len() && i != j implies ids[i]
            != ids[j] by {
            if i < g.members.len() {
                assert(g.members.contains(ids[i]));
            }
            if j < g.members.len() {
                assert(g.members.contains(ids[j]));
            }
        }
        assert forall|k: int| 0 <= k < ids.len() implies has_member(s.members, #[trigger] ids[k]) by {
            if k < g.members.len() {
                assert(has_member(s.members, g.members[k]));
            }
        }
        lemma_group_change_keeps_wf(s, group, id, ids, Topic::Joined);
    }
}

/// Leaving a group keeps the invariant.
pub proof fn lemma_leave_group_keeps_wf(s: State, group: u64, id: u64)
    requires
        s.wf(),
    ensures
        leave_group_step(s, group, id).state.wf(),
{
    if can_leave_group(s, group, id) {
        lemma_group_found(s.groups, group);
        let g = s.groups[group_pos(s.groups, group)];
        assert(group_wf(s.members, g, s.term));
        let ids = without(g.members, id);
        lemma_without(g.members, id);
        assert forall|k: int| 0 <= k < ids.len() implies has_member(s.members, #[trigger] ids[k]) by {
            assert(g.members.contains(ids[k]));
            let w = choose|w: int| 0 <= w < g.members.len() && g.members[w] == ids[k];
            assert(has_member(s.members, g.members[w]));
        }
        lemma_group_change_keeps_wf(s, group, id, ids, Topic::Left);
    }
}

/// Changing what is known of one member, under the same id, changes nothing
/// for the others.
pub proof fn lemma_update_member(members: Seq<MemberView>, at: int, who: MemberView)
    requires
        distinct_member_ids(members),
        0 <= at < members.len(),
        who.id == members[at].id,
    ensures
        distinct_member_ids(members.update(at, who)),
        forall|c: u64| has_member(members.update(at, who), c) == has_member(members, c),
        forall|c: u64|
            c != who.id ==> is_online(members.update(at, who), c) == is_online(members, c),
        member_pos(members.update(at, who), who.id) == at,
{
    let next = members.update(at, who);
    assert forall|i: int, j: int| 0 <= i < j < next.len() implies (#[trigger] next[i]).id != (
    #[trigger] next[j]).id by {
        assert(members[i].id != members[j].id);
    }
    assert forall|c: u64| has_member(next, c) == has_member(members, c) by {
        if has_member(next, c) {
            let p = choose|p: int| 0 <= p < next.len() && (#[trigger] next[p]).id == c;
            assert(members[p].id == c);
        }
        if has_member(members, c) {
            let p = choose|p: int| 0 <= p < members.len() && (#[trigger] members[p]).id == c;
            assert(next[p].id == c);
        }
    }
    assert forall|c: u64| c != who.id implies is_online(next, c) == is_online(members, c) by {
        if is_online(next, c) {
            let p = choose|p: int|
                0 <= p < next.len() && (#[trigger] next[p]).id == c && next[p].online;
            assert(members[p].id == c && members[p].online);
        }
        if is_online(members, c) {
            let p = choose|p: int|
                0 <= p < members.len() && (#[trigger] members[p]).id == c && members[p].online;
            assert(next[p].id == c && next[p].online);
        }
    }
    lemma_member_at(next, at);
}

/// Removing one member changes nothing for the others.
pub proof fn lemma_remove_member(members: Seq<MemberView>, at: int)
    requires
        distinct_member_ids(members),
        0 <= at < members.len(),
    ensures
        distinct_member_ids(members.remove(at)),
        !has_member(members.remove(at), members[at].id),
        forall|c: u64|
            c != members[at].id ==> has_member(members.remove(at), c) == has_member(members, c),
        forall|c: u64|
            c != members[at].id ==> is_online(members.remove(at), c) == is_online(members, c),
{
    let next = members.remove(at);
    let gone = members[at].id;
    assert forall|i: int| 0 <= i < next.len() implies #[trigger] next[i] == members[if i < at {
        i
    } else {
        i + 1
    }] by {}
    assert forall|i: int, j: int| 0 <= i < j < next.len() implies (#[trigger] next[i]).id != (
    #[trigger] next[j]).id by {
        let a = if i < at { i } else { i + 1 };
        let b = if j < at { j } else { j + 1 };
        assert(members[a].id != members[b].id);
    }
    if has_member(next, gone) {
        let p = choose|p: int| 0 <= p < next.len() && (#[trigger] next[p]).id == gone;
        let a = if p < at { p } else { p + 1 };
        assert(next[p] == members[a]);
        if a < at {
            assert(members[a].id != members[at].id);
        } else {
            assert(members[at].id != members[a].id);
        }
    }
    assert forall|c: u64| c != gone implies has_member(next, c) == has_member(members, c)
        && is_online(next, c) == is_online(members, c) by {
        if has_member(next, c) {
            let p = choose|p: int| 0 <= p < next.len() && (#[trigger] next[p]).id == c;
            let a = if p < at { p } else { p + 1 };
            assert(members[a].id == c);
        }
        if has_member(members, c) {
            let p = choose|p: int| 0 <= p < members.len() && (#[trigger] members[p]).id == c;
            let a = if p < at { p } else { p - 1 };
            assert(next[a].id == c);
        }
        if is_online(next, c) {
            let p = choose|p: int|
                0 <= p < next.len() && (#[trigger] next[p]).id == c && next[p].online;
            let a = if p < at { p } else { p + 1 };
            assert(members[a].id == c && members[a].online);
        }
        if is_online(members, c) {
            let p = choose|p: int|
                0 <= p < members.len() && (#[trigger] members[p]).id == c && members[p].online;
            let a = if p < at { p } else { p - 1 };
            assert(next[a].id == c && next[a].online);
        }
    }
}

/// A member going online or offline keeps the invariant.
pub proof fn lemma_set_online_keeps_wf(s: State, id: u64, online: bool)
    requires
        s.wf(),
    ensures
        set_online_step(s, id, online).state.wf(),
        set_online_step(s, id, online).state.term <= s.term + 1,
        set_online_step(s, id, online).state.term >= s.term,
{
    if flips(s, id, online) {
        let next = set_online_step(s, id, online).state;
        let at = member_pos(s.members, id);
        lemma_member_found(s.members, id);
        let who = MemberView { id, address: s.members[at].address, online };
        lemma_update_member(s.members, at, who);
        assert(next.members == s.members.update(at, who));
        assert forall|i: int| 0 <= i < next.groups.len() implies group_wf(
            next.members,
            #[trigger] next.groups[i],
            next.term,
        ) by {
            let g = s.groups[i];
            assert(group_wf(s.members, g, s.term));
            if g.members.contains(id) {
                assert(next.groups[i] == regroup(next.members, g, g.members, next.term));
            } else {
                assert(next.groups[i] == g);
                assert forall|k: int| 0 <= k < g.members.len() implies has_member(
                    next.members,
                    #[trigger] g.members[k],
                ) && is_online(s.members, g.members[k]) == is_online(
                    next.members,
                    g.members[k],
                ) by {
                    assert(g.members.contains(g.members[k]));
                    assert(has_member(s.members, g.members[k]));
                }
                lemma_group_wf_frame(s.members, next.members, g, s.term, next.term);
            }
        }
        assert forall|i: int, j: int| 0 <= i < j < next.groups.len() implies (
        #[trigger] next.groups[i]).id != (#[trigger] next.groups[j]).id by {
            assert(s.groups[i].id != s.groups[j].id);
        }
    }
}

/// A member leaving the cluster keeps the invariant.
pub proof fn lemma_leave_keeps_wf(s: State, id: u64)
    requires
        s.wf(),
    ensures
        leave_step(s, id).state.wf(),
{
    if has_member(s.members, id) {
        let next = leave_step(s, id).state;
        let at = member_pos(s.members, id);
        lemma_member_found(s.members, id);
        lemma_remove_member(s.members, at);
        assert forall|i: int| 0 <= i < next.groups.len() implies group_wf(
            next.members,
            #[trigger] next.groups[i],
            next.term,
        ) by {
            let g = s.groups[i];
            let h = next.groups[i];
            assert(group_wf(s.members, g, s.term));
            if g.members.contains(id) {
                lemma_without(g.members, id);
                assert(h == regroup(s.members, g, without(g.members, id), next.term));
            } else {
                assert(h == g);
            }
            assert(!h.members.contains(id));
            assert(group_wf(s.members, h, next.term)) by {
                assert forall|k: int| 0 <= k < h.members.len() implies has_member(
                    s.members,
                    #[trigger] h.members[k],
                ) by {
                    assert(g.members.contains(h.members[k]));
                    let w = choose|w: int| 0 <= w < g.members.len() && g.members[w] == h.members[k];
                    assert(has_member(s.members, g.members[w]));
                }
            }
            assert forall|k: int| 0 <= k < h.members.len() implies has_member(
                next.members,
                #[trigger] h.members[k],
            ) && is_online(s.members, h.members[k]) == is_online(next.members, h.members[k]) by {
                assert(h.members.contains(h.members[k]));
                assert(h.members[k] != id);
                assert(has_member(s.members, h.members[k]));
            }
            lemma_group_wf_frame(s.members, next.members, h, next.term, next.term);
        }
        assert forall|i: int, j: int| 0 <= i < j < next.groups.len() implies (
        #[trigger] next.groups[i]).id != (#[trigger] next.groups[j]).id by {
            assert(s.groups[i].id != s.groups[j].id);
        }
    }
}

/// Deleting a group keeps the invariant.
pub proof fn lemma_del_group_keeps_wf(s: State, id: u64)
    requires
        s.wf(),
    ensures
        del_group_step(s, id).state.wf(),
{
    if has_group(s.groups, id) {
        let next = del_group_step(s, id).state;
        let at = group_pos(s.groups, id);
        lemma_group_found(s.groups, id);
        assert forall|i: int| 0 <= i < next.groups.len() implies group_wf(
            next.members,
            #[trigger] next.groups[i],
            next.term,
        ) by {
            let a = if i < at { i } else { i + 1 };
            assert(next.groups[i] == s.groups[a]);
            assert(group_wf(s.members, s.groups[a], s.term));
        }
        assert forall|i: int, j: int| 0 <= i < j < next.groups.len() implies (
        #[trigger] next.groups[i]).id != (#[trigger] next.groups[j]).id by {
            let a = if i < at { i } else { i + 1 };
            let b = if j < at { j } else { j + 1 };
            assert(s.groups[a].id != s.groups[b].id);
        }
    }
}

/// Members going online or offline one after the other keep the invariant,
/// and the clock advances at most once for each of them.
pub proof fn lemma_set_all_keeps_wf(s: State, ids: Seq<u64>, online: bool)
    requires
        s.wf(),
    ensures
        set_all_step(s, ids, online).state.wf(),
        s.term <= set_all_step(s, ids, online).state.term <= s.term + ids.len(),
    decreases ids.len(),
{
    if ids.len() > 0 {
        lemma_set_all_keeps_wf(s, ids.drop_last(), online);
        lemma_set_online_keeps_wf(set_all_step(s, ids.drop_last(), online).state, ids.last(), online);
    }
}

/// A change of liveness keeps the invariant.
pub proof fn lemma_hb_keeps_wf(s: State, online: Seq<u64>, offline: Seq<u64>)
    requires
        s.wf(),
    ensures
        hb_step(s, online, offline).state.wf(),
        s.term <= hb_step(s, online, offline).state.term <= s.term + online.len() + offline.len(),
{
    lemma_set_all_keeps_wf(s, online, true);
    lemma_set_all_keeps_wf(set_all_step(s, online, true).state, offline, false);
}

} // verus!
