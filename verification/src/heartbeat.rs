//! The heartbeat tracker: when each member was last heard of, on this
//! replica alone, and which members have crossed the line between online and
//! offline since the state machine was last told.

use crate::membership::command::Command;
use crate::membership::laws::lemma_set_all_durable;
use crate::membership::lemmas::lemma_member_at;
use crate::membership::model::{apply, set_all_step, CommandView, MemberView, State};
use crate::membership::replay::lemma_set_all_status;
use crate::membership::soundness::lemma_set_all_keeps_wf;
use crate::membership::types::{members_view, Member};
use std::collections::HashMap;
use vstd::prelude::*;

verus! {

/// How long a member may stay silent before it counts as offline, in
/// milliseconds.
pub const DEFAULT_OFFLINE_THRESHOLD: u64 = 5000;

/// How often the leader looks for members that crossed the line, in
/// milliseconds.
pub const DEFAULT_REAP_INTERVAL: u64 = 1000;

/// How often a member sends a heartbeat, in milliseconds.
pub const DEFAULT_HEARTBEAT_INTERVAL: u64 = 1000;

/// Whether a member was heard of no longer than `threshold` before `now`.
pub open spec fn is_fresh(seen: Map<u64, u64>, id: u64, now: u64, threshold: u64) -> bool {
    seen.contains_key(id) && now - seen[id] <= threshold
}

/// The members that the state machine holds online and that have fallen
/// silent, in the order of `members`.
pub open spec fn going_offline(
    members: Seq<MemberView>,
    seen: Map<u64, u64>,
    now: u64,
    threshold: u64,
) -> Seq<u64>
    decreases members.len(),
{
    if members.len() == 0 {
        Seq::empty()
    } else {
        let before = going_offline(members.drop_last(), seen, now, threshold);
        let m = members.last();
        if m.online && !is_fresh(seen, m.id, now, threshold) {
            before.push(m.id)
        } else {
            before
        }
    }
}

/// The members that the state machine holds offline and that were heard of
/// lately, in the order of `members`.
pub open spec fn coming_online(
    members: Seq<MemberView>,
    seen: Map<u64, u64>,
    now: u64,
    threshold: u64,
) -> Seq<u64>
    decreases members.len(),
{
    if members.len() == 0 {
        Seq::empty()
    } else {
        let before = coming_online(members.drop_last(), seen, now, threshold);
        let m = members.last();
        if !m.online && is_fresh(seen, m.id, now, threshold) {
            before.push(m.id)
        } else {
            before
        }
    }
}

/// The command that tells the state machine who crossed the line: none where
/// nobody did.
pub open spec fn digest_of(
    members: Seq<MemberView>,
    seen: Map<u64, u64>,
    now: u64,
    threshold: u64,
) -> Option<CommandView> {
    let online = coming_online(members, seen, now, threshold);
    let offline = going_offline(members, seen, now, threshold);
    if online.len() == 0 && offline.len() == 0 {
        None
    } else {
        Some(CommandView::HbOnlineChanged { online, offline })
    }
}

/// When each member was last heard of.
pub struct HeartbeatTracker {
    last_seen: HashMap<u64, u64>,
    offline_threshold: u64,
}

impl HeartbeatTracker {
    /// The time at which each member was last heard of.
    pub closed spec fn seen(&self) -> Map<u64, u64> {
        self.last_seen@
    }

    /// How long a member may stay silent.
    pub closed spec fn threshold(&self) -> u64 {
        self.offline_threshold
    }

    /// A tracker that has heard of nobody.
    pub fn new(offline_threshold: u64) -> (r: HeartbeatTracker)
        ensures
            r.seen() == Map::<u64, u64>::empty(),
            r.threshold() == offline_threshold,
    {
        HeartbeatTracker { last_seen: HashMap::new(), offline_threshold }
    }

    /// A heartbeat of the member `id` arrived at `now`.
    pub fn ping(&mut self, id: u64, now: u64)
        ensures
            final(self).seen() == old(self).seen().insert(id, now),
            final(self).threshold() == old(self).threshold(),
    {
        broadcast use vstd::std_specs::hash::group_hash_axioms;

        self.last_seen.insert(id, now);
    }

    /// Forgets a member that left.
    pub fn forget(&mut self, id: u64)
        ensures
            final(self).seen() == old(self).seen().remove(id),
            final(self).threshold() == old(self).threshold(),
    {
        broadcast use vstd::std_specs::hash::group_hash_axioms;

        self.last_seen.remove(&id);
    }

    /// When the member `id` was last heard of.
    pub fn last_seen(&self, id: u64) -> (r: Option<u64>)
        ensures
            r == if self.seen().contains_key(id) {
                Some(self.seen()[id])
            } else {
                None
            },
    {
        broadcast use vstd::std_specs::hash::group_hash_axioms;

        match self.last_seen.get(&id) {
            Some(t) => Some(*t),
            None => None,
        }
    }

    /// Whether the member `id` was heard of lately, as seen at `now`.
    pub fn fresh(&self, id: u64, now: u64) -> (r: bool)
        ensures
            r == is_fresh(self.seen(), id, now, self.threshold()),
    {
        match self.last_seen(id) {
            Some(t) => t >= now || now - t <= self.offline_threshold,
            None => false,
        }
    }

    /// Looks for the members that crossed the line, as seen at `now`: first
    /// those that came online, then those that went offline.
    pub fn reap(&self, members: &Vec<Member>, now: u64) -> (r: (Vec<u64>, Vec<u64>))
        ensures
            r.0@ == coming_online(members_view(members@), self.seen(), now, self.threshold()),
            r.1@ == going_offline(members_view(members@), self.seen(), now, self.threshold()),
    {
        let ghost all = members_view(members@);
        let mut online: Vec<u64> = Vec::new();
        let mut offline: Vec<u64> = Vec::new();
        let mut i: usize = 0;
        while i < members.len()
            invariant
                i <= members.len(),
                all == members_view(members@),
                online@ == coming_online(all.take(i as int), self.seen(), now, self.threshold()),
                offline@ == going_offline(all.take(i as int), self.seen(), now, self.threshold()),
            decreases members.len() - i,
        {
            proof {
                assert(all.take(i + 1).drop_last() =~= all.take(i as int));
                assert(all.take(i + 1).last() == members[i as int]@);
            }
            let fresh = self.fresh(members[i].id, now);
            if members[i].online && !fresh {
                offline.push(members[i].id);
            } else if !members[i].online && fresh {
                online.push(members[i].id);
            }
            i += 1;
        }
        proof {
            assert(all.take(i as int) =~= all);
        }
        (online, offline)
    }

    /// What a replica proposes at `now`: the digest where it leads, and
    /// nothing where it follows, for followers do not reap.
    pub fn propose(&self, is_leader: bool, members: &Vec<Member>, now: u64) -> (r: Option<Command>)
        ensures
            match r {
                Some(c) => is_leader && digest_of(
                    members_view(members@),
                    self.seen(),
                    now,
                    self.threshold(),
                ) == Some(c@),
                None => !is_leader || digest_of(
                    members_view(members@),
                    self.seen(),
                    now,
                    self.threshold(),
                ) is None,
            },
    {
        if is_leader {
            self.digest(members, now)
        } else {
            None
        }
    }

    /// The command that tells the state machine who crossed the line, as
    /// seen at `now`: `None` where nobody did.
    pub fn digest(&self, members: &Vec<Member>, now: u64) -> (r: Option<Command>)
        ensures
            match r {
                Some(c) => digest_of(members_view(members@), self.seen(), now, self.threshold())
                    == Some(c@),
                None => digest_of(members_view(members@), self.seen(), now, self.threshold())
                    is None,
            },
    {
        let (online, offline) = self.reap(members, now);
        if online.len() == 0 && offline.len() == 0 {
            None
        } else {
            Some(Command::HbOnlineChanged { online, offline })
        }
    }
}

/// Who is listed as coming online is a member that is offline and was heard
/// of lately, and every such member is listed.
pub proof fn lemma_coming_online(
    members: Seq<MemberView>,
    seen: Map<u64, u64>,
    now: u64,
    threshold: u64,
)
    ensures
        forall|id: u64|
            coming_online(members, seen, now, threshold).contains(id) <==> exists|k: int|
                0 <= k < members.len() && (#[trigger] members[k]).id == id && !members[k].online
                    && is_fresh(seen, id, now, threshold),
    decreases members.len(),
{
    let list = coming_online(members, seen, now, threshold);
    if members.len() > 0 {
        let front = members.drop_last();
        let m = members.last();
        let before = coming_online(front, seen, now, threshold);
        lemma_coming_online(front, seen, now, threshold);
        assert forall|id: u64| list.contains(id) <==> exists|k: int|
            0 <= k < members.len() && (#[trigger] members[k]).id == id && !members[k].online
                && is_fresh(seen, id, now, threshold) by {
            if list.contains(id) {
                let w = choose|w: int| 0 <= w < list.len() && list[w] == id;
                if w < before.len() {
                    assert(before[w] == id);
                    assert(before.contains(id));
                    let k = choose|k: int|
                        0 <= k < front.len() && (#[trigger] front[k]).id == id && !front[k].online
                            && is_fresh(seen, id, now, threshold);
                    assert(members[k] == front[k]);
                } else {
                    assert(members[members.len() - 1] == m);
                }
            }
            if exists|k: int|
                0 <= k < members.len() && (#[trigger] members[k]).id == id && !members[k].online
                    && is_fresh(seen, id, now, threshold) {
                let k = choose|k: int|
                    0 <= k < members.len() && (#[trigger] members[k]).id == id
                        && !members[k].online && is_fresh(seen, id, now, threshold);
                if k < front.len() {
                    assert(front[k] == members[k]);
                    assert(before.contains(id));
                    let w = choose|w: int| 0 <= w < before.len() && before[w] == id;
                    assert(list[w] == id);
                } else {
                    assert(list[list.len() - 1] == id);
                }
            }
        }
    }
}

/// Who is listed as going offline is a member that is online and has fallen
/// silent, and every such member is listed.
pub proof fn lemma_going_offline(
    members: Seq<MemberView>,
    seen: Map<u64, u64>,
    now: u64,
    threshold: u64,
)
    ensures
        forall|id: u64|
            going_offline(members, seen, now, threshold).contains(id) <==> exists|k: int|
                0 <= k < members.len() && (#[trigger] members[k]).id == id && members[k].online
                    && !is_fresh(seen, id, now, threshold),
    decreases members.len(),
{
    let list = going_offline(members, seen, now, threshold);
    if members.len() > 0 {
        let front = members.drop_last();
        let m = members.last();
        let before = going_offline(front, seen, now, threshold);
        lemma_going_offline(front, seen, now, threshold);
        assert forall|id: u64| list.contains(id) <==> exists|k: int|
            0 <= k < members.len() && (#[trigger] members[k]).id == id && members[k].online
                && !is_fresh(seen, id, now, threshold) by {
            if list.contains(id) {
                let w = choose|w: int| 0 <= w < list.len() && list[w] == id;
                if w < before.len() {
                    assert(before[w] == id);
                    assert(before.contains(id));
                    let k = choose|k: int|
                        0 <= k < front.len() && (#[trigger] front[k]).id == id && front[k].online
                            && !is_fresh(seen, id, now, threshold);
                    assert(members[k] == front[k]);
                } else {
                    assert(members[members.len() - 1] == m);
                }
            }
            if exists|k: int|
                0 <= k < members.len() && (#[trigger] members[k]).id == id && members[k].online
                    && !is_fresh(seen, id, now, threshold) {
                let k = choose|k: int|
                    0 <= k < members.len() && (#[trigger] members[k]).id == id
                        && members[k].online && !is_fresh(seen, id, now, threshold);
                if k < front.len() {
                    assert(front[k] == members[k]);
                    assert(before.contains(id));
                    let w = choose|w: int| 0 <= w < before.len() && before[w] == id;
                    assert(list[w] == id);
                } else {
                    assert(list[list.len() - 1] == id);
                }
            }
        }
    }
}

/// Nobody is reported both as coming online and as going offline.
pub proof fn law_digest_is_disjoint(
    members: Seq<MemberView>,
    seen: Map<u64, u64>,
    now: u64,
    threshold: u64,
)
    ensures
        forall|i: int, j: int|
            0 <= i < coming_online(members, seen, now, threshold).len() && 0 <= j < going_offline(
                members,
                seen,
                now,
                threshold,
            ).len() ==> coming_online(members, seen, now, threshold)[i] != going_offline(
                members,
                seen,
                now,
                threshold,
            )[j],
{
    let on = coming_online(members, seen, now, threshold);
    let off = going_offline(members, seen, now, threshold);
    lemma_coming_online(members, seen, now, threshold);
    lemma_going_offline(members, seen, now, threshold);
    assert forall|i: int, j: int| 0 <= i < on.len() && 0 <= j < off.len() implies on[i] != off[j] by {
        assert(on.contains(on[i]));
        assert(off.contains(off[j]));
    }
}

/// Once the state machine has applied what the tracker reported, the tracker
/// has nothing more to report until time moves on or a heartbeat arrives.
pub proof fn law_digest_settles(s: State, seen: Map<u64, u64>, now: u64, threshold: u64)
    requires
        s.wf(),
        digest_of(s.members, seen, now, threshold) is Some,
    ensures
        digest_of(
            apply(s, digest_of(s.members, seen, now, threshold).unwrap()).state.members,
            seen,
            now,
            threshold,
        ) is None,
{
    let on = coming_online(s.members, seen, now, threshold);
    let off = going_offline(s.members, seen, now, threshold);
    let up = set_all_step(s, on, true).state;
    let next = set_all_step(up, off, false).state;
    lemma_coming_online(s.members, seen, now, threshold);
    lemma_going_offline(s.members, seen, now, threshold);
    lemma_set_all_keeps_wf(s, on, true);
    lemma_set_all_keeps_wf(up, off, false);
    lemma_set_all_durable(s, on, true);
    lemma_set_all_durable(up, off, false);
    lemma_coming_online(next.members, seen, now, threshold);
    lemma_going_offline(next.members, seen, now, threshold);
    assert forall|k: int| 0 <= k < next.members.len() implies (#[trigger] next.members[k]).online
        == is_fresh(seen, next.members[k].id, now, threshold) by {
        let id = s.members[k].id;
        assert(up.members[k].id == id && next.members[k].id == id);
        lemma_member_at(s.members, k);
        lemma_member_at(up.members, k);
        lemma_member_at(next.members, k);
        lemma_set_all_status(s, on, true, id);
        lemma_set_all_status(up, off, false, id);
        if on.contains(id) {
            let w = choose|w: int|
                0 <= w < s.members.len() && (#[trigger] s.members[w]).id == id
                    && !s.members[w].online && is_fresh(seen, id, now, threshold);
            if off.contains(id) {
                let v = choose|v: int|
                    0 <= v < s.members.len() && (#[trigger] s.members[v]).id == id
                        && s.members[v].online && !is_fresh(seen, id, now, threshold);
            }
        }
    }
    let on2 = coming_online(next.members, seen, now, threshold);
    let off2 = going_offline(next.members, seen, now, threshold);
    if on2.len() > 0 {
        assert(on2.contains(on2[0]));
    }
    if off2.len() > 0 {
        assert(off2.contains(off2[0]));
    }
}

} // verus!
