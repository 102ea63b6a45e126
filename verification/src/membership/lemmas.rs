//! Facts about the model that the commands and the laws rest on.

use crate::membership::model::{
    distinct_group_ids, distinct_member_ids, elect, find_member, group_pos, has_group, has_member,
    is_online, member_pos, rank, GroupView, MemberView,
};
use vstd::prelude::*;

verus! {

/// Where ids are distinct, the member at a position is the one that its id
/// finds.
pub proof fn lemma_member_at(members: Seq<MemberView>, i: int)
    requires
        distinct_member_ids(members),
        0 <= i < members.len(),
    ensures
        has_member(members, members[i].id),
        member_pos(members, members[i].id) == i,
        find_member(members, members[i].id) == Some(members[i]),
        is_online(members, members[i].id) == members[i].online,
{
    let id = members[i].id;
    let p = member_pos(members, id);
    assert(0 <= p < members.len() && members[p].id == id);
    if p < i {
        assert(members[p].id != members[i].id);
    } else if i < p {
        assert(members[i].id != members[p].id);
    }
    if is_online(members, id) {
        let j = choose|j: int|
            0 <= j < members.len() && (#[trigger] members[j]).id == id && members[j].online;
        if j < i {
            assert(members[j].id != members[i].id);
        } else if i < j {
            assert(members[i].id != members[j].id);
        }
    }
}

/// A member that exists sits at the position that its id finds.
pub proof fn lemma_member_found(members: Seq<MemberView>, id: u64)
    requires
        has_member(members, id),
    ensures
        0 <= member_pos(members, id) < members.len(),
        members[member_pos(members, id)].id == id,
{
}

/// Where ids are distinct, the group at a position is the one that its id
/// finds.
pub proof fn lemma_group_at(groups: Seq<GroupView>, i: int)
    requires
        distinct_group_ids(groups),
        0 <= i < groups.len(),
    ensures
        has_group(groups, groups[i].id),
        group_pos(groups, groups[i].id) == i,
{
    let id = groups[i].id;
    let p = group_pos(groups, id);
    assert(0 <= p < groups.len() && groups[p].id == id);
    if p < i {
        assert(groups[p].id != groups[i].id);
    } else if i < p {
        assert(groups[i].id != groups[p].id);
    }
}

/// A group that exists sits at the position that its id finds.
pub proof fn lemma_group_found(groups: Seq<GroupView>, id: u64)
    requires
        has_group(groups, id),
    ensures
        0 <= group_pos(groups, id) < groups.len(),
        groups[group_pos(groups, id)].id == id,
{
}

/// Within one group, two members of the same rank are the same member.
pub proof fn lemma_rank_injective(a: u64, b: u64, group: u64)
    requires
        rank(a, group) == rank(b, group),
    ensures
        a == b,
{
    assert((a ^ group) == (b ^ group) ==> a == b) by (bit_vector);
}

/// What an election returns: an online candidate of least rank, and nobody
/// exactly where no candidate is online.
pub proof fn lemma_elect_sound(members: Seq<MemberView>, candidates: Seq<u64>, group: u64)
    ensures
        match elect(members, candidates, group) {
            Some(l) => {
                &&& candidates.contains(l)
                &&& is_online(members, l)
                &&& forall|k: int|
                    0 <= k < candidates.len() && is_online(members, #[trigger] candidates[k])
                        ==> rank(l, group) <= rank(candidates[k], group)
            },
            None => forall|k: int|
                0 <= k < candidates.len() ==> !is_online(members, #[trigger] candidates[k]),
        },
    decreases candidates.len(),
{
    if candidates.len() > 0 {
        let front = candidates.drop_last();
        lemma_elect_sound(members, front, group);
        let rest = elect(members, front, group);
        let n = candidates.len() - 1;
        assert(forall|k: int| 0 <= k < n ==> front[k] == candidates[k]);
        match elect(members, candidates, group) {
            Some(l) => {
                if rest == Some(l) {
                    let w = choose|w: int| 0 <= w < front.len() && front[w] == l;
                    assert(candidates[w] == l);
                } else {
                    assert(candidates[n] == l);
                }
                assert forall|k: int|
                    0 <= k < candidates.len() && is_online(
                        members,
                        #[trigger] candidates[k],
                    ) implies rank(l, group) <= rank(candidates[k], group) by {
                    if k < n {
                        assert(front[k] == candidates[k]);
                    }
                }
            },
            None => {
                assert forall|k: int| 0 <= k < candidates.len() implies !is_online(
                    members,
                    #[trigger] candidates[k],
                ) by {
                    if k < n {
                        assert(front[k] == candidates[k]);
                    }
                }
            },
        }
    }
}

/// An election looks at nothing but which candidates are online.
pub proof fn lemma_elect_frame(
    before: Seq<MemberView>,
    after: Seq<MemberView>,
    candidates: Seq<u64>,
    group: u64,
)
    requires
        forall|k: int|
            0 <= k < candidates.len() ==> is_online(before, #[trigger] candidates[k]) == is_online(
                after,
                candidates[k],
            ),
    ensures
        elect(before, candidates, group) == elect(after, candidates, group),
    decreases candidates.len(),
{
    if candidates.len() > 0 {
        let front = candidates.drop_last();
        assert(forall|k: int| 0 <= k < front.len() ==> front[k] == candidates[k]);
        lemma_elect_frame(before, after, front, group);
        assert(candidates.last() == candidates[candidates.len() - 1]);
    }
}

/// Any online candidate of least rank is the one elected.
pub proof fn lemma_elect_unique(members: Seq<MemberView>, candidates: Seq<u64>, group: u64, l: u64)
    requires
        candidates.contains(l),
        is_online(members, l),
        forall|k: int|
            0 <= k < candidates.len() && is_online(members, #[trigger] candidates[k]) ==> rank(
                l,
                group,
            ) <= rank(candidates[k], group),
    ensures
        elect(members, candidates, group) == Some(l),
{
    lemma_elect_sound(members, candidates, group);
    let w = choose|w: int| 0 <= w < candidates.len() && candidates[w] == l;
    assert(is_online(members, candidates[w]));
    match elect(members, candidates, group) {
        Some(e) => {
            let v = choose|v: int| 0 <= v < candidates.len() && candidates[v] == e;
            assert(is_online(members, candidates[v]));
            assert(rank(l, group) <= rank(e, group));
            assert(rank(e, group) <= rank(l, group));
            lemma_rank_injective(e, l, group);
        },
        None => {},
    }
}

} // verus!
