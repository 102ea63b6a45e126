//! Snapshots of the membership state: what is written, and what comes back.
//!
//! Liveness is not written. Whoever recovers a snapshot starts with every
//! member offline and every group without a leader, until heartbeats say
//! otherwise.

use crate::codec::{
    dec_ids, dec_str, dec_u64, enc_ids, enc_str, enc_u64, get_ids, get_str, get_u64, holds,
    lemma_holds_split, lemma_holds_whole, lemma_ids_round, lemma_str_round, lemma_u64_len,
    lemma_u64_round, put_ids, put_len, put_str, put_u64,
};
use crate::membership::lemmas::lemma_elect_sound;
use crate::membership::model::{group_wf, has_member, is_online, GroupView, MemberView, State};
use crate::membership::state::Membership;
use crate::membership::types::{groups_view, members_view, Group, Member};
use vstd::prelude::*;
use vstd::utf8::encode_utf8;

verus! {

/// A member as a snapshot holds it: offline.
pub open spec fn resting_member(m: MemberView) -> MemberView {
    MemberView { id: m.id, address: m.address, online: false }
}

/// A group as a snapshot holds it: without a leader.
pub open spec fn resting_group(g: GroupView) -> GroupView {
    GroupView { id: g.id, name: g.name, members: g.members, leader: None, term: g.term }
}

/// Members as a snapshot holds them.
pub open spec fn resting_members(ms: Seq<MemberView>) -> Seq<MemberView> {
    Seq::new(ms.len(), |i: int| resting_member(ms[i]))
}

/// Groups as a snapshot holds them.
pub open spec fn resting_groups(gs: Seq<GroupView>) -> Seq<GroupView> {
    Seq::new(gs.len(), |i: int| resting_group(gs[i]))
}

/// The state that a snapshot of `s` brings back: the same members, groups
/// and terms, with every member offline and every group without a leader.
pub open spec fn at_rest(s: State) -> State {
    State { members: resting_members(s.members), groups: resting_groups(s.groups), term: s.term }
}

/// A member in a snapshot: its id and its address.
pub open spec fn enc_record(m: MemberView) -> Seq<u8> {
    enc_u64(m.id) + enc_str(m.address)
}

/// The members of a snapshot, one after the other.
pub open spec fn enc_record_each(ms: Seq<MemberView>) -> Seq<u8>
    decreases ms.len(),
{
    if ms.len() == 0 {
        Seq::empty()
    } else {
        enc_record_each(ms.drop_last()) + enc_record(ms.last())
    }
}

/// A group in a snapshot: its id, its name, its term and its members' ids.
pub open spec fn enc_group(g: GroupView) -> Seq<u8> {
    enc_u64(g.id) + enc_str(g.name) + enc_u64(g.term as u64) + enc_ids(g.members)
}

/// The groups of a snapshot, one after the other.
pub open spec fn enc_group_each(gs: Seq<GroupView>) -> Seq<u8>
    decreases gs.len(),
{
    if gs.len() == 0 {
        Seq::empty()
    } else {
        enc_group_each(gs.drop_last()) + enc_group(gs.last())
    }
}

/// A snapshot: the clock, the members behind their number, the groups behind
/// theirs.
pub open spec fn enc_state(s: State) -> Seq<u8> {
    enc_u64(s.term as u64) + enc_u64(s.members.len() as u64) + enc_record_each(s.members)
        + enc_u64(s.groups.len() as u64) + enc_group_each(s.groups)
}

/// Reads a member of a snapshot at `pos`.
pub open spec fn dec_record(data: Seq<u8>, pos: int) -> Option<(MemberView, int)> {
    match dec_u64(data, pos) {
        Some((id, p)) => match dec_str(data, p) {
            Some((address, q)) => Some((MemberView { id, address, online: false }, q)),
            None => None,
        },
        None => None,
    }
}

/// Reads `n` members of a snapshot from `pos` on.
pub open spec fn dec_record_each(data: Seq<u8>, pos: int, n: nat) -> Option<(Seq<MemberView>, int)>
    decreases n,
{
    if n == 0 {
        Some((Seq::empty(), pos))
    } else {
        match dec_record_each(data, pos, (n - 1) as nat) {
            Some((ms, p)) => match dec_record(data, p) {
                Some((m, q)) => Some((ms.push(m), q)),
                None => None,
            },
            None => None,
        }
    }
}

/// Reads a group of a snapshot at `pos`.
pub open spec fn dec_group(data: Seq<u8>, pos: int) -> Option<(GroupView, int)> {
    match dec_u64(data, pos) {
        Some((id, p)) => match dec_str(data, p) {
            Some((name, q)) => match dec_u64(data, q) {
                Some((term, r)) => match dec_ids(data, r) {
                    Some((members, end)) => Some(
                        (GroupView { id, name, members, leader: None, term: term as nat }, end),
                    ),
                    None => None,
                },
                None => None,
            },
            None => None,
        },
        None => None,
    }
}

/// Reads `n` groups of a snapshot from `pos` on.
pub open spec fn dec_group_each(data: Seq<u8>, pos: int, n: nat) -> Option<(Seq<GroupView>, int)>
    decreases n,
{
    if n == 0 {
        Some((Seq::empty(), pos))
    } else {
        match dec_group_each(data, pos, (n - 1) as nat) {
            Some((gs, p)) => match dec_group(data, p) {
                Some((g, q)) => Some((gs.push(g), q)),
                None => None,
            },
            None => None,
        }
    }
}

/// What the bytes of a snapshot spell, sound or not.
pub open spec fn dec_raw_state(data: Seq<u8>) -> Option<State> {
    match dec_u64(data, 0) {
        Some((term, a)) => match dec_u64(data, a) {
            Some((nm, b)) => match dec_record_each(data, b, nm as nat) {
                Some((members, c)) => match dec_u64(data, c) {
                    Some((ng, d)) => match dec_group_each(data, d, ng as nat) {
                        Some((groups, e)) => if e == data.len() {
                            Some(State { members, groups, term: term as nat })
                        } else {
                            None
                        },
                        None => None,
                    },
                    None => None,
                },
                None => None,
            },
            None => None,
        },
        None => None,
    }
}

/// The state that a snapshot brings back: what its bytes spell, where that
/// is a sound state.
pub open spec fn dec_state(data: Seq<u8>) -> Option<State> {
    match dec_raw_state(data) {
        Some(s) => if s.wf() {
            Some(s)
        } else {
            None
        },
        None => None,
    }
}

/// Whether a state fits the wire: no clock value, string or list is beyond
/// what eight bytes can say.
pub open spec fn state_fits(s: State) -> bool {
    &&& s.term <= u64::MAX
    &&& s.members.len() <= u64::MAX
    &&& s.groups.len() <= u64::MAX
    &&& forall|i: int|
        0 <= i < s.members.len() ==> encode_utf8((#[trigger] s.members[i]).address).len()
            <= u64::MAX
    &&& forall|i: int|
        0 <= i < s.groups.len() ==> {
            &&& encode_utf8((#[trigger] s.groups[i]).name).len() <= u64::MAX
            &&& s.groups[i].term <= u64::MAX
            &&& s.groups[i].members.len() <= u64::MAX
        }
}

/// Writes the members of a snapshot.
pub fn put_records(out: &mut Vec<u8>, members: &Vec<Member>)
    ensures
        final(out)@ == old(out)@ + enc_record_each(members_view(members@)),
{
    let ghost all = members_view(members@);
    let ghost start = out@;
    let mut i: usize = 0;
    proof {
        assert(start + enc_record_each(all.take(0)) =~= start);
    }
    while i < members.len()
        invariant
            i <= members.len(),
            all == members_view(members@),
            out@ == start + enc_record_each(all.take(i as int)),
        decreases members.len() - i,
    {
        put_u64(out, members[i].id);
        put_str(out, members[i].address.as_str());
        proof {
            let m = members[i as int]@;
            assert(all.take(i + 1).drop_last() =~= all.take(i as int));
            assert(all.take(i + 1).last() == m);
            assert(out@ =~= start + (enc_record_each(all.take(i as int)) + enc_record(m)));
        }
        i += 1;
    }
    proof {
        assert(all.take(i as int) =~= all);
    }
}

/// Writes the groups of a snapshot.
pub fn put_groups(out: &mut Vec<u8>, groups: &Vec<Group>)
    ensures
        final(out)@ == old(out)@ + enc_group_each(groups_view(groups@)),
{
    let ghost all = groups_view(groups@);
    let ghost start = out@;
    let mut i: usize = 0;
    proof {
        assert(start + enc_group_each(all.take(0)) =~= start);
    }
    while i < groups.len()
        invariant
            i <= groups.len(),
            all == groups_view(groups@),
            out@ == start + enc_group_each(all.take(i as int)),
        decreases groups.len() - i,
    {
        put_u64(out, groups[i].id);
        put_str(out, groups[i].name.as_str());
        put_u64(out, groups[i].term);
        put_ids(out, &groups[i].members);
        proof {
            let g = groups[i as int]@;
            assert(all.take(i + 1).drop_last() =~= all.take(i as int));
            assert(all.take(i + 1).last() == g);
            assert(out@ =~= start + (enc_group_each(all.take(i as int)) + enc_group(g)));
        }
        i += 1;
    }
    proof {
        assert(all.take(i as int) =~= all);
    }
}

/// Reads the `n` members of a snapshot from `pos` on.
pub fn get_records(data: &[u8], pos: usize, n: u64) -> (r: Option<(Vec<Member>, usize)>)
    ensures
        match r {
            Some((v, p)) => dec_record_each(data@, pos as int, n as nat) == Some(
                (members_view(v@), p as int),
            ),
            None => dec_record_each(data@, pos as int, n as nat) is None,
        },
{
    let mut out: Vec<Member> = Vec::new();
    let mut p: usize = pos;
    let mut i: u64 = 0;
    proof {
        assert(members_view(out@) =~= Seq::<MemberView>::empty());
    }
    while i < n
        invariant
            i <= n,
            dec_record_each(data@, pos as int, i as nat) == Some((members_view(out@), p as int)),
        decreases n - i,
    {
        let ghost listed = members_view(out@);
        proof {
            assert(dec_record_each(data@, pos as int, ((i + 1) - 1) as nat) == Some(
                (listed, p as int),
            ));
        }
        let (id, a) = match get_u64(data, p) {
            Some(r) => r,
            None => {
                proof {
                    lemma_records_stuck(data@, pos as int, (i + 1) as nat, n as nat);
                }
                return None;
            },
        };
        let (address, b) = match get_str(data, a) {
            Some(r) => r,
            None => {
                proof {
                    lemma_records_stuck(data@, pos as int, (i + 1) as nat, n as nat);
                }
                return None;
            },
        };
        let m = Member { id, address, online: false };
        out.push(m);
        proof {
            assert(members_view(out@) =~= listed.push(m@));
        }
        p = b;
        i += 1;
    }
    Some((out, p))
}

/// Reads the `n` groups of a snapshot from `pos` on.
pub fn get_groups(data: &[u8], pos: usize, n: u64) -> (r: Option<(Vec<Group>, usize)>)
    ensures
        match r {
            Some((v, p)) => dec_group_each(data@, pos as int, n as nat) == Some(
                (groups_view(v@), p as int),
            ),
            None => dec_group_each(data@, pos as int, n as nat) is None,
        },
{
    let mut out: Vec<Group> = Vec::new();
    let mut p: usize = pos;
    let mut i: u64 = 0;
    proof {
        assert(groups_view(out@) =~= Seq::<GroupView>::empty());
    }
    while i < n
        invariant
            i <= n,
            dec_group_each(data@, pos as int, i as nat) == Some((groups_view(out@), p as int)),
        decreases n - i,
    {
        let ghost listed = groups_view(out@);
        proof {
            assert(dec_group_each(data@, pos as int, ((i + 1) - 1) as nat) == Some(
                (listed, p as int),
            ));
        }
        let (id, a) = match get_u64(data, p) {
            Some(r) => r,
            None => {
                proof {
                    lemma_groups_stuck(data@, pos as int, (i + 1) as nat, n as nat);
                }
                return None;
            },
        };
        let (name, b) = match get_str(data, a) {
            Some(r) => r,
            None => {
                proof {
                    lemma_groups_stuck(data@, pos as int, (i + 1) as nat, n as nat);
                }
                return None;
            },
        };
        let (term, c) = match get_u64(data, b) {
            Some(r) => r,
            None => {
                proof {
                    lemma_groups_stuck(data@, pos as int, (i + 1) as nat, n as nat);
                }
                return None;
            },
        };
        let (members, d) = match get_ids(data, c) {
            Some(r) => r,
            None => {
                proof {
                    lemma_groups_stuck(data@, pos as int, (i + 1) as nat, n as nat);
                }
                return None;
            },
        };
        let g = Group { id, name, members, leader: None, term };
        out.push(g);
        proof {
            assert(groups_view(out@) =~= listed.push(g@));
        }
        p = d;
        i += 1;
    }
    Some((out, p))
}

/// Where the first members cannot be read, more cannot either.
pub proof fn lemma_records_stuck(data: Seq<u8>, pos: int, k: nat, n: nat)
    requires
        dec_record_each(data, pos, k) is None,
        k <= n,
    ensures
        dec_record_each(data, pos, n) is None,
    decreases n,
{
    if k < n {
        lemma_records_stuck(data, pos, k, (n - 1) as nat);
    }
}

/// Where the first groups cannot be read, more cannot either.
pub proof fn lemma_groups_stuck(data: Seq<u8>, pos: int, k: nat, n: nat)
    requires
        dec_group_each(data, pos, k) is None,
        k <= n,
    ensures
        dec_group_each(data, pos, n) is None,
    decreases n,
{
    if k < n {
        lemma_groups_stuck(data, pos, k, (n - 1) as nat);
    }
}

impl Membership {
    /// Writes a snapshot of the state: its members, groups and terms, without
    /// their liveness.
    pub fn snapshot(&self) -> (r: Vec<u8>)
        ensures
            r@ == enc_state(self@),
    {
        let mut out: Vec<u8> = Vec::new();
        put_u64(&mut out, self.term());
        put_len(&mut out, self.members().len());
        put_records(&mut out, self.members());
        put_len(&mut out, self.groups().len());
        put_groups(&mut out, self.groups());
        proof {
            assert(out@ =~= enc_state(self@));
        }
        out
    }

    /// Brings back the state of a snapshot. Bytes that are no snapshot of a
    /// sound state give `None`.
    pub fn restore(data: &[u8]) -> (r: Option<Membership>)
        ensures
            match r {
                Some(m) => m.wf() && dec_state(data@) == Some(m@),
                None => dec_state(data@) is None,
            },
    {
        let (term, a) = match get_u64(data, 0) {
            Some(r) => r,
            None => {
                return None;
            },
        };
        let (nm, b) = match get_u64(data, a) {
            Some(r) => r,
            None => {
                return None;
            },
        };
        let (members, c) = match get_records(data, b, nm) {
            Some(r) => r,
            None => {
                return None;
            },
        };
        let (ng, d) = match get_u64(data, c) {
            Some(r) => r,
            None => {
                return None;
            },
        };
        let (groups, e) = match get_groups(data, d, ng) {
            Some(r) => r,
            None => {
                return None;
            },
        };
        if e != data.len() {
            return None;
        }
        Membership::from_parts(members, groups, term)
    }

    /// Replaces the state by that of a snapshot. Where the bytes are no
    /// snapshot of a sound state, nothing changes and the answer is `false`.
    pub fn recover(&mut self, data: &[u8]) -> (r: bool)
        ensures
            match dec_state(data@) {
                Some(s) => r && final(self)@ == s && final(self).wf(),
                None => !r && *final(self) == *old(self),
            },
    {
        match Membership::restore(data) {
            Some(m) => {
                *self = m;
                true
            },
            None => false,
        }
    }
}

/// A member that was written is read back, offline.
pub proof fn lemma_record_round(data: Seq<u8>, pos: int, m: MemberView)
    requires
        encode_utf8(m.address).len() <= u64::MAX,
        holds(data, pos, enc_record(m)),
    ensures
        dec_record(data, pos) == Some((resting_member(m), pos + enc_record(m).len())),
{
    lemma_holds_split(data, pos, enc_u64(m.id), enc_str(m.address));
    lemma_u64_len(m.id);
    lemma_u64_round(data, pos, m.id);
    lemma_str_round(data, pos + 8, m.address);
}

/// Members that were written are read back, offline.
pub proof fn lemma_records_round(data: Seq<u8>, pos: int, ms: Seq<MemberView>)
    requires
        forall|i: int| 0 <= i < ms.len() ==> encode_utf8((#[trigger] ms[i]).address).len() <= u64::MAX,
        holds(data, pos, enc_record_each(ms)),
    ensures
        dec_record_each(data, pos, ms.len()) == Some(
            (resting_members(ms), pos + enc_record_each(ms).len()),
        ),
    decreases ms.len(),
{
    if ms.len() == 0 {
        assert(resting_members(ms) =~= Seq::<MemberView>::empty());
    } else {
        let front = ms.drop_last();
        lemma_holds_split(data, pos, enc_record_each(front), enc_record(ms.last()));
        assert forall|i: int| 0 <= i < front.len() implies encode_utf8(
            (#[trigger] front[i]).address,
        ).len() <= u64::MAX by {
            assert(front[i] == ms[i]);
        }
        lemma_records_round(data, pos, front);
        assert(ms.last() == ms[ms.len() - 1]);
        lemma_record_round(data, pos + enc_record_each(front).len(), ms.last());
        assert(resting_members(front).push(resting_member(ms.last())) =~= resting_members(ms));
    }
}

/// A group that was written is read back, without a leader.
pub proof fn lemma_group_round(data: Seq<u8>, pos: int, g: GroupView)
    requires
        encode_utf8(g.name).len() <= u64::MAX,
        g.term <= u64::MAX,
        g.members.len() <= u64::MAX,
        holds(data, pos, enc_group(g)),
    ensures
        dec_group(data, pos) == Some((resting_group(g), pos + enc_group(g).len())),
{
    let a = enc_u64(g.id);
    let b = enc_str(g.name);
    let c = enc_u64(g.term as u64);
    let d = enc_ids(g.members);
    lemma_holds_split(data, pos, a + b + c, d);
    lemma_holds_split(data, pos, a + b, c);
    lemma_holds_split(data, pos, a, b);
    lemma_u64_len(g.id);
    lemma_u64_len(g.term as u64);
    lemma_u64_round(data, pos, g.id);
    lemma_str_round(data, pos + 8, g.name);
    lemma_u64_round(data, pos + 8 + b.len(), g.term as u64);
    lemma_ids_round(data, pos + 8 + b.len() + 8, g.members);
}

/// Groups that were written are read back, without their leaders.
pub proof fn lemma_groups_round(data: Seq<u8>, pos: int, gs: Seq<GroupView>)
    requires
        forall|i: int|
            0 <= i < gs.len() ==> {
                &&& encode_utf8((#[trigger] gs[i]).name).len() <= u64::MAX
                &&& gs[i].term <= u64::MAX
                &&& gs[i].members.len() <= u64::MAX
            },
        holds(data, pos, enc_group_each(gs)),
    ensures
        dec_group_each(data, pos, gs.len()) == Some(
            (resting_groups(gs), pos + enc_group_each(gs).len()),
        ),
    decreases gs.len(),
{
    if gs.len() == 0 {
        assert(resting_groups(gs) =~= Seq::<GroupView>::empty());
    } else {
        let front = gs.drop_last();
        lemma_holds_split(data, pos, enc_group_each(front), enc_group(gs.last()));
        assert forall|i: int| 0 <= i < front.len() implies {
            &&& encode_utf8((#[trigger] front[i]).name).len() <= u64::MAX
            &&& front[i].term <= u64::MAX
            &&& front[i].members.len() <= u64::MAX
        } by {
            assert(front[i] == gs[i]);
        }
        lemma_groups_round(data, pos, front);
        assert(gs.last() == gs[gs.len() - 1]);
        lemma_group_round(data, pos + enc_group_each(front).len(), gs.last());
        assert(resting_groups(front).push(resting_group(gs.last())) =~= resting_groups(gs));
    }
}

/// A sound state at rest is sound.
pub proof fn lemma_at_rest_wf(s: State)
    requires
        s.wf(),
    ensures
        at_rest(s).wf(),
{
    let r = at_rest(s);
    assert forall|i: int, j: int| 0 <= i < j < r.members.len() implies (#[trigger] r.members[i]).id
        != (#[trigger] r.members[j]).id by {
        assert(s.members[i].id != s.members[j].id);
    }
    assert forall|i: int, j: int| 0 <= i < j < r.groups.len() implies (#[trigger] r.groups[i]).id != (
    #[trigger] r.groups[j]).id by {
        assert(s.groups[i].id != s.groups[j].id);
    }
    assert forall|c: u64| !is_online(r.members, c) by {}
    assert forall|i: int| 0 <= i < r.groups.len() implies group_wf(
        r.members,
        #[trigger] r.groups[i],
        r.term,
    ) by {
        let g = s.groups[i];
        assert(group_wf(s.members, g, s.term));
        assert forall|k: int| 0 <= k < g.members.len() implies has_member(
            r.members,
            #[trigger] g.members[k],
        ) by {
            assert(has_member(s.members, g.members[k]));
            let p = choose|p: int| 0 <= p < s.members.len() && (#[trigger] s.members[p]).id == g.members[k];
            assert(r.members[p].id == g.members[k]);
        }
        lemma_elect_sound(r.members, g.members, g.id);
    }
}

/// A snapshot brings back the state that it was taken of, at rest: the same
/// members, groups and terms, with every member offline and every group
/// without a leader.
pub proof fn law_snapshot_round(s: State)
    requires
        s.wf(),
        state_fits(s),
    ensures
        dec_state(enc_state(s)) == Some(at_rest(s)),
        at_rest(s).wf(),
{
    let data = enc_state(s);
    let a = enc_u64(s.term as u64);
    let b = enc_u64(s.members.len() as u64);
    let c = enc_record_each(s.members);
    let d = enc_u64(s.groups.len() as u64);
    let e = enc_group_each(s.groups);
    lemma_holds_whole(data);
    lemma_holds_split(data, 0, a + b + c + d, e);
    lemma_holds_split(data, 0, a + b + c, d);
    lemma_holds_split(data, 0, a + b, c);
    lemma_holds_split(data, 0, a, b);
    lemma_u64_len(s.term as u64);
    lemma_u64_len(s.members.len() as u64);
    lemma_u64_len(s.groups.len() as u64);
    lemma_u64_round(data, 0, s.term as u64);
    lemma_u64_round(data, 8, s.members.len() as u64);
    lemma_records_round(data, 16, s.members);
    lemma_u64_round(data, 16 + c.len() as int, s.groups.len() as u64);
    lemma_groups_round(data, 16 + c.len() as int + 8, s.groups);
    lemma_at_rest_wf(s);
}

/// A state in which nobody is online is the state that its snapshot brings
/// back: whatever is applied to the one and to the other from then on gives
/// the same states and the same events.
pub proof fn law_snapshot_of_resting_state(s: State)
    requires
        s.wf(),
        state_fits(s),
        forall|i: int| 0 <= i < s.members.len() ==> !(#[trigger] s.members[i]).online,
    ensures
        dec_state(enc_state(s)) == Some(s),
{
    law_snapshot_round(s);
    let r = at_rest(s);
    assert(r.members =~= s.members);
    assert forall|c: u64| !is_online(s.members, c) by {}
    assert forall|i: int| 0 <= i < s.groups.len() implies r.groups[i] == s.groups[i] by {
        let g = s.groups[i];
        assert(group_wf(s.members, g, s.term));
        lemma_elect_sound(s.members, g.members, g.id);
    }
    assert(r.groups =~= s.groups);
}

} // verus!
