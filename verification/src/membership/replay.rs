//! Commands may be applied again: a command that was applied changes nothing
//! when it is applied once more.

use crate::hash::hash_str_spec;
use crate::membership::laws::{law_apply_keeps_wf, law_join_twice};
use crate::membership::lemmas::{
    lemma_group_at, lemma_group_found, lemma_member_at, lemma_member_found,
};
use crate::membership::model::{
    apply, can_join_group, can_leave_group, flips, group_pos, group_wf, has_group, has_member,
    member_pos, set_all_step, set_online_step, CommandView, EventView, MemberView, State, Step,
};
use crate::membership::soundness::{
    lemma_remove_member, lemma_set_all_keeps_wf, lemma_update_member, lemma_without,
};
use vstd::prelude::*;

verus! {

/// What a state knows of a member's liveness: nothing where there is no such
/// member.
pub open spec fn status(s: State, id: u64) -> Option<bool> {
    if has_member(s.members, id) {
        Some(s.members[member_pos(s.members, id)].online)
    } else {
        None
    }
}

/// One member going online or offline changes what is known of that member,
/// and of no other.
pub proof fn lemma_set_online_status(s: State, id: u64, online: bool, x: u64)
    requires
        s.wf(),
    ensures
        status(set_online_step(s, id, online).state, x) == if x == id && has_member(s.members, id) {
            Some(online)
        } else {
            status(s, x)
        },
{
    if flips(s, id, online) {
        let at = member_pos(s.members, id);
        lemma_member_found(s.members, id);
        let who = MemberView {
            id,
            address: s.members[at].address,
            online,
        };
        let next = s.members.update(at, who);
        lemma_update_member(s.members, at, who);
        if has_member(s.members, x) {
            let p = member_pos(s.members, x);
            lemma_member_found(s.members, x);
            assert(next[p].id == x);
            lemma_member_at(next, p);
            if x != id {
                assert(p != at);
            } else {
                lemma_member_at(s.members, p);
            }
        }
    } else if x == id && has_member(s.members, id) {
    }
}

/// Members going online or offline one after the other change what is known
/// of them, and of no other.
pub proof fn lemma_set_all_status(s: State, ids: Seq<u64>, online: bool, x: u64)
    requires
        s.wf(),
    ensures
        status(set_all_step(s, ids, online).state, x) == if ids.contains(x) && has_member(
            s.members,
            x,
        ) {
            Some(online)
        } else {
            status(s, x)
        },
        has_member(set_all_step(s, ids, online).state.members, x) == has_member(s.members, x),
    decreases ids.len(),
{
    if ids.len() > 0 {
        let front = ids.drop_last();
        let mid = set_all_step(s, front, online).state;
        lemma_set_all_status(s, front, online, x);
        lemma_set_all_status(s, front, online, ids.last());
        lemma_set_all_keeps_wf(s, front, online);
        lemma_set_online_status(mid, ids.last(), online, x);
        assert(ids.last() == ids[ids.len() - 1]);
        if ids.contains(x) && x != ids.last() {
            let w = choose|w: int| 0 <= w < ids.len() && ids[w] == x;
            assert(front[w] == x);
        }
        if front.contains(x) {
            let w = choose|w: int| 0 <= w < front.len() && front[w] == x;
            assert(ids[w] == x);
        }
        lemma_set_online_members(mid, ids.last(), online, x);
    }
}

/// A change of liveness neither adds nor removes a member.
pub proof fn lemma_set_online_members(s: State, id: u64, online: bool, x: u64)
    requires
        s.wf(),
    ensures
        has_member(set_online_step(s, id, online).state.members, x) == has_member(s.members, x),
{
    if flips(s, id, online) {
        let at = member_pos(s.members, id);
        lemma_member_found(s.members, id);
        let who = MemberView {
            id,
            address: s.members[at].address,
            online,
        };
        lemma_update_member(s.members, at, who);
    }
}

/// Telling the state machine what it knows already changes nothing.
pub proof fn lemma_set_all_noop(s: State, ids: Seq<u64>, online: bool)
    requires
        forall|k: int| 0 <= k < ids.len() ==> !flips(s, #[trigger] ids[k], online),
    ensures
        set_all_step(s, ids, online) == (Step { state: s, events: Seq::empty() }),
    decreases ids.len(),
{
    if ids.len() > 0 {
        let front = ids.drop_last();
        assert forall|k: int| 0 <= k < front.len() implies !flips(s, #[trigger] front[k], online) by {
            assert(front[k] == ids[k]);
        }
        lemma_set_all_noop(s, front, online);
        assert(!flips(s, ids[ids.len() - 1], online));
        assert(Seq::<EventView>::empty() + Seq::<EventView>::empty() =~= Seq::<EventView>::empty());
    }
}

/// A command that was applied changes nothing, and emits nothing, when it is
/// applied once more. Of a change of liveness this holds where no member is
/// named both as online and as offline.
pub proof fn law_command_idempotent(s: State, c: CommandView)
    requires
        s.wf(),
        match c {
            CommandView::HbOnlineChanged { online, offline } => forall|i: int, j: int|
                0 <= i < online.len() && 0 <= j < offline.len() ==> online[i] != offline[j],
            _ => true,
        },
    ensures
        apply(apply(s, c).state, c) == (Step { state: apply(s, c).state, events: Seq::empty() }),
{
    let once = apply(s, c).state;
    law_apply_keeps_wf(s, c);
    match c {
        CommandView::HbOnlineChanged { online, offline } => {
            let up = set_all_step(s, online, true).state;
            lemma_set_all_keeps_wf(s, online, true);
            assert forall|k: int| 0 <= k < online.len() implies !flips(
                once,
                #[trigger] online[k],
                true,
            ) by {
                let x = online[k];
                lemma_set_all_status(s, online, true, x);
                lemma_set_all_status(up, offline, false, x);
                if offline.contains(x) {
                    let j = choose|j: int| 0 <= j < offline.len() && offline[j] == x;
                    assert(online[k] != offline[j]);
                }
            }
            lemma_set_all_noop(once, online, true);
            assert forall|k: int| 0 <= k < offline.len() implies !flips(
                once,
                #[trigger] offline[k],
                false,
            ) by {
                lemma_set_all_status(up, offline, false, offline[k]);
            }
            lemma_set_all_noop(once, offline, false);
            assert(Seq::<EventView>::empty() + Seq::<EventView>::empty() =~= Seq::<EventView>::empty());
        },
        CommandView::Join { address } => {
            law_join_twice(s, address);
        },
        CommandView::Leave { id } => {
            if has_member(s.members, id) {
                lemma_member_found(s.members, id);
                lemma_remove_member(s.members, member_pos(s.members, id));
            }
        },
        CommandView::JoinGroup { name, id } => {
            let group = hash_str_spec(name);
            if can_join_group(s, group, id) {
                lemma_group_found(s.groups, group);
                let at = group_pos(s.groups, group);
                assert(once.groups[at].id == group);
                lemma_group_at(once.groups, at);
                let ids = s.groups[at].members.push(id);
                assert(ids[ids.len() - 1] == id);
                assert(once.groups[at].members.contains(id));
            }
        },
        CommandView::LeaveGroup { group, id } => {
            if can_leave_group(s, group, id) {
                lemma_group_found(s.groups, group);
                let at = group_pos(s.groups, group);
                assert(group_wf(s.members, s.groups[at], s.term));
                lemma_without(s.groups[at].members, id);
                assert(once.groups[at].id == group);
                lemma_group_at(once.groups, at);
            }
        },
        CommandView::NewGroup { name } => {
            let id = hash_str_spec(name);
            if !has_group(s.groups, id) {
                assert(once.groups[s.groups.len() as int].id == id);
            }
        },
        CommandView::DelGroup { id } => {
            if has_group(s.groups, id) {
                lemma_group_found(s.groups, id);
                let at = group_pos(s.groups, id);
                if has_group(once.groups, id) {
                    let q = group_pos(once.groups, id);
                    let a = if q < at { q } else { q + 1 };
                    assert(once.groups[q] == s.groups[a]);
                    if a < at {
                        assert(s.groups[a].id != s.groups[at].id);
                    } else {
                        assert(s.groups[at].id != s.groups[a].id);
                    }
                }
            }
        },
    }
}

} // verus!
