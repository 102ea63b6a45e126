//! Checking the invariant of a state at run time, for a state that comes
//! from outside.

use crate::membership::model::{
    distinct_group_ids, distinct_member_ids, group_wf, has_member, State,
};
use crate::membership::state::{elect_leader, member_index};
use crate::membership::types::{groups_view, members_view, Group, Member};
use vstd::prelude::*;

verus! {

/// Whether two leaders are the same.
pub fn same_leader(a: Option<u64>, b: Option<u64>) -> (r: bool)
    ensures
        r == (a == b),
{
    match (a, b) {
        (Some(x), Some(y)) => x == y,
        (None, None) => true,
        _ => false,
    }
}

/// Whether no id occurs twice.
pub fn distinct_ids(ids: &Vec<u64>) -> (r: bool)
    ensures
        r == ids@.no_duplicates(),
{
    let mut j: usize = 0;
    while j < ids.len()
        invariant
            j <= ids.len(),
            forall|a: int, b: int| 0 <= a < b < j ==> ids[a] != ids[b],
        decreases ids.len() - j,
    {
        let mut i: usize = 0;
        while i < j
            invariant
                i <= j,
                j < ids.len(),
                forall|a: int| 0 <= a < i ==> ids[a] != ids[j as int],
            decreases j - i,
        {
            if ids[i] == ids[j] {
                return false;
            }
            i += 1;
        }
        j += 1;
    }
    proof {
        assert forall|a: int, b: int| 0 <= a < ids.len() && 0 <= b < ids.len() && a != b implies ids[a]
            != ids[b] by {
            if a < b {
                assert(ids[a] != ids[b]);
            } else {
                assert(ids[b] != ids[a]);
            }
        }
    }
    true
}

/// Whether no two members share an id.
pub fn distinct_members(members: &Vec<Member>) -> (r: bool)
    ensures
        r == distinct_member_ids(members_view(members@)),
{
    let ghost view = members_view(members@);
    let mut j: usize = 0;
    while j < members.len()
        invariant
            j <= members.len(),
            view == members_view(members@),
            forall|a: int, b: int| 0 <= a < b < j ==> (#[trigger] view[a]).id != (#[trigger] view[b]).id,
        decreases members.len() - j,
    {
        let mut i: usize = 0;
        while i < j
            invariant
                i <= j,
                j < members.len(),
                view == members_view(members@),
                forall|a: int| 0 <= a < i ==> (#[trigger] view[a]).id != view[j as int].id,
            decreases j - i,
        {
            if members[i].id == members[j].id {
                proof {
                    assert(view[i as int].id == view[j as int].id);
                }
                return false;
            }
            i += 1;
        }
        j += 1;
    }
    true
}

/// Whether no two groups share an id.
pub fn distinct_groups(groups: &Vec<Group>) -> (r: bool)
    ensures
        r == distinct_group_ids(groups_view(groups@)),
{
    let ghost view = groups_view(groups@);
    let mut j: usize = 0;
    while j < groups.len()
        invariant
            j <= groups.len(),
            view == groups_view(groups@),
            forall|a: int, b: int| 0 <= a < b < j ==> (#[trigger] view[a]).id != (#[trigger] view[b]).id,
        decreases groups.len() - j,
    {
        let mut i: usize = 0;
        while i < j
            invariant
                i <= j,
                j < groups.len(),
                view == groups_view(groups@),
                forall|a: int| 0 <= a < i ==> (#[trigger] view[a]).id != view[j as int].id,
            decreases j - i,
        {
            if groups[i].id == groups[j].id {
                proof {
                    assert(view[i as int].id == view[j as int].id);
                }
                return false;
            }
            i += 1;
        }
        j += 1;
    }
    true
}

/// Whether every id is that of a member.
pub fn all_exist(members: &Vec<Member>, ids: &Vec<u64>) -> (r: bool)
    ensures
        r == (forall|k: int| 0 <= k < ids.len() ==> has_member(members_view(members@), #[trigger] ids[k])),
{
    let mut k: usize = 0;
    while k < ids.len()
        invariant
            k <= ids.len(),
            forall|a: int| 0 <= a < k ==> has_member(members_view(members@), #[trigger] ids[a]),
        decreases ids.len() - k,
    {
        if member_index(members, ids[k]).is_none() {
            return false;
        }
        k += 1;
    }
    true
}

/// Whether a group is sound within a list of members.
pub fn group_sound(members: &Vec<Member>, g: &Group, term: u64) -> (r: bool)
    requires
        distinct_member_ids(members_view(members@)),
    ensures
        r == group_wf(members_view(members@), g@, term as nat),
{
    if !distinct_ids(&g.members) {
        return false;
    }
    if !all_exist(members, &g.members) {
        return false;
    }
    if !same_leader(g.leader, elect_leader(members, &g.members, g.id)) {
        return false;
    }
    g.term <= term
}

/// Whether members, groups and a clock value make a sound state.
pub fn state_sound(members: &Vec<Member>, groups: &Vec<Group>, term: u64) -> (r: bool)
    ensures
        r == (State {
            members: members_view(members@),
            groups: groups_view(groups@),
            term: term as nat,
        }).wf(),
{
    if !distinct_members(members) {
        return false;
    }
    if !distinct_groups(groups) {
        return false;
    }
    let ghost gv = groups_view(groups@);
    let mut i: usize = 0;
    while i < groups.len()
        invariant
            i <= groups.len(),
            gv == groups_view(groups@),
            distinct_member_ids(members_view(members@)),
            forall|k: int| 0 <= k < i ==> group_wf(members_view(members@), #[trigger] gv[k], term as nat),
        decreases groups.len() - i,
    {
        if !group_sound(members, &groups[i], term) {
            proof {
                assert(gv[i as int] == groups[i as int]@);
            }
            return false;
        }
        proof {
            assert(gv[i as int] == groups[i as int]@);
        }
        i += 1;
    }
    true
}

} // verus!
