//! The client's side of the wire: reading the replies, answers and notices
//! that the state machine wrote, and deciding what to do about a call that
//! failed.

use crate::codec::{
    dec_bool, dec_str, dec_u64, enc_bool, enc_str, enc_u64, get_bool, get_str, get_u64, holds,
    lemma_bool_round, lemma_holds_split, lemma_holds_whole, lemma_str_round, lemma_u64_len,
    lemma_u64_round,
};
use crate::membership::command::{
    answer_of, command_fn, enc_reply, query_fn, reply_of, Query, Reply, FN_ALL_MEMBERS,
    FN_DEL_GROUP, FN_GROUP_LEADER, FN_GROUP_MEMBERS, FN_HB_ONLINE_CHANGED, FN_JOIN, FN_JOIN_GROUP,
    FN_LEAVE, FN_LEAVE_GROUP, FN_NEW_GROUP,
};
use crate::membership::model::{
    find_leader, group_of, group_pos, has_group, member_pos, visible_among, visible_members,
    CommandView, EventView, MemberView, State, Topic,
};
use crate::membership::types::{members_view, option_member_view, Event, Member};
use crate::membership::wire::{
    enc_member, enc_member_each, enc_members, enc_opt_member, notice_of, Notice, NoticeView,
    FN_ON_ANY_MEMBER_JOINED, FN_ON_ANY_MEMBER_LEFT, FN_ON_ANY_MEMBER_OFFLINE,
    FN_ON_ANY_MEMBER_ONLINE, FN_ON_GROUP_LEADER_CHANGED, FN_ON_GROUP_MEMBER_JOINED,
    FN_ON_GROUP_MEMBER_LEFT, FN_ON_GROUP_MEMBER_OFFLINE, FN_ON_GROUP_MEMBER_ONLINE,
};
use vstd::prelude::*;
use vstd::utf8::encode_utf8;

verus! {

/// The reply that the bytes spell, for the command of the given function id.
pub open spec fn dec_reply(fn_id: u64, data: Seq<u8>) -> Option<Reply> {
    if fn_id == FN_HB_ONLINE_CHANGED {
        if data.len() == 0 {
            Some(Reply::Done)
        } else {
            None
        }
    } else if fn_id == FN_JOIN {
        match dec_bool(data, 0) {
            Some((true, p)) => match dec_u64(data, p) {
                Some((id, q)) => if q == data.len() {
                    Some(Reply::Id(Some(id)))
                } else {
                    None
                },
                None => None,
            },
            Some((false, p)) => if p == data.len() {
                Some(Reply::Id(None))
            } else {
                None
            },
            None => None,
        }
    } else if fn_id == FN_NEW_GROUP {
        match dec_bool(data, 0) {
            Some((fresh, p)) => match dec_u64(data, p) {
                Some((id, q)) => if q == data.len() {
                    Some(Reply::Group(if fresh { Ok(id) } else { Err(id) }))
                } else {
                    None
                },
                None => None,
            },
            None => None,
        }
    } else if fn_id == FN_LEAVE || fn_id == FN_JOIN_GROUP || fn_id == FN_LEAVE_GROUP || fn_id
        == FN_DEL_GROUP {
        match dec_bool(data, 0) {
            Some((b, p)) => if p == data.len() {
                Some(Reply::Flag(b))
            } else {
                None
            },
            None => None,
        }
    } else {
        None
    }
}

/// Reads the reply to the command of the given function id.
pub fn decode_reply(fn_id: u64, data: &[u8]) -> (r: Option<Reply>)
    ensures
        r == dec_reply(fn_id, data@),
{
    if fn_id == FN_HB_ONLINE_CHANGED {
        if data.len() == 0 {
            Some(Reply::Done)
        } else {
            None
        }
    } else if fn_id == FN_JOIN {
        let (some, p) = match get_bool(data, 0) {
            Some(r) => r,
            None => {
                return None;
            },
        };
        if some {
            let (id, q) = match get_u64(data, p) {
                Some(r) => r,
                None => {
                    return None;
                },
            };
            if q != data.len() {
                return None;
            }
            Some(Reply::Id(Some(id)))
        } else {
            if p != data.len() {
                return None;
            }
            Some(Reply::Id(None))
        }
    } else if fn_id == FN_NEW_GROUP {
        let (fresh, p) = match get_bool(data, 0) {
            Some(r) => r,
            None => {
                return None;
            },
        };
        let (id, q) = match get_u64(data, p) {
            Some(r) => r,
            None => {
                return None;
            },
        };
        if q != data.len() {
            return None;
        }
        if fresh {
            Some(Reply::Group(Ok(id)))
        } else {
            Some(Reply::Group(Err(id)))
        }
    } else if fn_id == FN_LEAVE || fn_id == FN_JOIN_GROUP || fn_id == FN_LEAVE_GROUP || fn_id
        == FN_DEL_GROUP {
        let (b, p) = match get_bool(data, 0) {
            Some(r) => r,
            None => {
                return None;
            },
        };
        if p != data.len() {
            return None;
        }
        Some(Reply::Flag(b))
    } else {
        None
    }
}

/// The reply that the state machine wrote is the reply that the client
/// reads.
pub proof fn law_reply_round(s: State, c: CommandView)
    ensures
        dec_reply(command_fn(c), enc_reply(reply_of(s, c))) == Some(reply_of(s, c)),
{
    let r = reply_of(s, c);
    let data = enc_reply(r);
    lemma_holds_whole(data);
    match r {
        Reply::Done => {},
        Reply::Id(Some(id)) => {
            lemma_holds_split(data, 0, enc_bool(true), enc_u64(id));
            lemma_bool_round(data, 0, true);
            lemma_u64_round(data, 1, id);
            lemma_u64_len(id);
        },
        Reply::Id(None) => {
            lemma_bool_round(data, 0, false);
        },
        Reply::Flag(b) => {
            lemma_bool_round(data, 0, b);
        },
        Reply::Group(Ok(id)) => {
            lemma_holds_split(data, 0, enc_bool(true), enc_u64(id));
            lemma_bool_round(data, 0, true);
            lemma_u64_round(data, 1, id);
            lemma_u64_len(id);
        },
        Reply::Group(Err(id)) => {
            lemma_holds_split(data, 0, enc_bool(false), enc_u64(id));
            lemma_bool_round(data, 0, false);
            lemma_u64_round(data, 1, id);
            lemma_u64_len(id);
        },
    }
}

/// Reads a member at `pos`.
pub open spec fn dec_member(data: Seq<u8>, pos: int) -> Option<(MemberView, int)> {
    match dec_u64(data, pos) {
        Some((id, p)) => match dec_str(data, p) {
            Some((address, q)) => match dec_bool(data, q) {
                Some((online, r)) => Some((MemberView { id, address, online }, r)),
                None => None,
            },
            None => None,
        },
        None => None,
    }
}

/// Reads a member that may be missing at `pos`.
pub open spec fn dec_opt_member(data: Seq<u8>, pos: int) -> Option<(Option<MemberView>, int)> {
    match dec_bool(data, pos) {
        Some((true, p)) => match dec_member(data, p) {
            Some((m, q)) => Some((Some(m), q)),
            None => None,
        },
        Some((false, p)) => Some((None, p)),
        None => None,
    }
}

/// Reads `n` members from `pos` on.
pub open spec fn dec_member_each(data: Seq<u8>, pos: int, n: nat) -> Option<(Seq<MemberView>, int)>
    decreases n,
{
    if n == 0 {
        Some((Seq::empty(), pos))
    } else {
        match dec_member_each(data, pos, (n - 1) as nat) {
            Some((ms, p)) => match dec_member(data, p) {
                Some((m, q)) => Some((ms.push(m), q)),
                None => None,
            },
            None => None,
        }
    }
}

/// Reads a list of members at `pos`.
pub open spec fn dec_members(data: Seq<u8>, pos: int) -> Option<(Seq<MemberView>, int)> {
    match dec_u64(data, pos) {
        Some((n, p)) => dec_member_each(data, p, n as nat),
        None => None,
    }
}

/// Reads a member at `pos`.
pub fn get_member(data: &[u8], pos: usize) -> (r: Option<(Member, usize)>)
    ensures
        match r {
            Some((m, p)) => dec_member(data@, pos as int) == Some((m@, p as int)),
            None => dec_member(data@, pos as int) is None,
        },
{
    let (id, a) = match get_u64(data, pos) {
        Some(r) => r,
        None => {
            return None;
        },
    };
    let (address, b) = match get_str(data, a) {
        Some(r) => r,
        None => {
            return None;
        },
    };
    let (online, c) = match get_bool(data, b) {
        Some(r) => r,
        None => {
            return None;
        },
    };
    Some((Member { id, address, online }, c))
}

/// Reads a member that may be missing at `pos`.
pub fn get_opt_member(data: &[u8], pos: usize) -> (r: Option<(Option<Member>, usize)>)
    ensures
        match r {
            Some((m, p)) => dec_opt_member(data@, pos as int) == Some(
                (option_member_view(m), p as int),
            ),
            None => dec_opt_member(data@, pos as int) is None,
        },
{
    let (some, a) = match get_bool(data, pos) {
        Some(r) => r,
        None => {
            return None;
        },
    };
    if some {
        match get_member(data, a) {
            Some((m, b)) => Some((Some(m), b)),
            None => None,
        }
    } else {
        Some((None, a))
    }
}

/// Where the first members cannot be read, more cannot either.
pub proof fn lemma_members_stuck(data: Seq<u8>, pos: int, k: nat, n: nat)
    requires
        dec_member_each(data, pos, k) is None,
        k <= n,
    ensures
        dec_member_each(data, pos, n) is None,
    decreases n,
{
    if k < n {
        lemma_members_stuck(data, pos, k, (n - 1) as nat);
    }
}

/// Reads a list of members at `pos`.
pub fn get_members(data: &[u8], pos: usize) -> (r: Option<(Vec<Member>, usize)>)
    ensures
        match r {
            Some((v, p)) => dec_members(data@, pos as int) == Some((members_view(v@), p as int)),
            None => dec_members(data@, pos as int) is None,
        },
{
    let (n, start) = match get_u64(data, pos) {
        Some(r) => r,
        None => {
            return None;
        },
    };
    let mut out: Vec<Member> = Vec::new();
    let mut p: usize = start;
    let mut i: u64 = 0;
    proof {
        assert(members_view(out@) =~= Seq::<MemberView>::empty());
    }
    while i < n
        invariant
            i <= n,
            dec_u64(data@, pos as int) == Some((n, start as int)),
            dec_member_each(data@, start as int, i as nat) == Some((members_view(out@), p as int)),
        decreases n - i,
    {
        let ghost listed = members_view(out@);
        proof {
            assert(dec_member_each(data@, start as int, ((i + 1) - 1) as nat) == Some(
                (listed, p as int),
            ));
        }
        let (m, q) = match get_member(data, p) {
            Some(r) => r,
            None => {
                proof {
                    lemma_members_stuck(data@, start as int, (i + 1) as nat, n as nat);
                }
                return None;
            },
        };
        proof {
            assert(members_view(out@.push(m)) =~= listed.push(m@));
        }
        out.push(m);
        p = q;
        i += 1;
    }
    Some((out, p))
}

/// What a query answers.
#[derive(Debug, PartialEq, Eq)]
pub enum Answer {
    /// The leader of a group and the group's term: `None` where there is no
    /// such group.
    Leader(Option<(Option<Member>, u64)>),
    /// The members of a group and the group's term: `None` where there is no
    /// such group.
    Members(Option<(Vec<Member>, u64)>),
    /// The members of the cluster and the value of the clock.
    All(Vec<Member>, u64),
}

/// An answer as the model sees it.
pub enum AnswerView {
    Leader(Option<(Option<MemberView>, u64)>),
    Members(Option<(Seq<MemberView>, u64)>),
    All(Seq<MemberView>, u64),
}

impl View for Answer {
    type V = AnswerView;

    open spec fn view(&self) -> AnswerView {
        match *self {
            Answer::Leader(Some((m, t))) => AnswerView::Leader(Some((option_member_view(m), t))),
            Answer::Leader(None) => AnswerView::Leader(None),
            Answer::Members(Some((ms, t))) => AnswerView::Members(Some((members_view(ms@), t))),
            Answer::Members(None) => AnswerView::Members(None),
            Answer::All(ms, t) => AnswerView::All(members_view(ms@), t),
        }
    }
}

/// The answer that the bytes spell, for the query of the given function id.
pub open spec fn dec_answer(fn_id: u64, data: Seq<u8>) -> Option<AnswerView> {
    if fn_id == FN_GROUP_LEADER {
        match dec_bool(data, 0) {
            Some((true, a)) => match dec_opt_member(data, a) {
                Some((m, b)) => match dec_u64(data, b) {
                    Some((t, c)) => if c == data.len() {
                        Some(AnswerView::Leader(Some((m, t))))
                    } else {
                        None
                    },
                    None => None,
                },
                None => None,
            },
            Some((false, a)) => if a == data.len() {
                Some(AnswerView::Leader(None))
            } else {
                None
            },
            None => None,
        }
    } else if fn_id == FN_GROUP_MEMBERS {
        match dec_bool(data, 0) {
            Some((true, a)) => match dec_members(data, a) {
                Some((ms, b)) => match dec_u64(data, b) {
                    Some((t, c)) => if c == data.len() {
                        Some(AnswerView::Members(Some((ms, t))))
                    } else {
                        None
                    },
                    None => None,
                },
                None => None,
            },
            Some((false, a)) => if a == data.len() {
                Some(AnswerView::Members(None))
            } else {
                None
            },
            None => None,
        }
    } else if fn_id == FN_ALL_MEMBERS {
        match dec_members(data, 0) {
            Some((ms, b)) => match dec_u64(data, b) {
                Some((t, c)) => if c == data.len() {
                    Some(AnswerView::All(ms, t))
                } else {
                    None
                },
                None => None,
            },
            None => None,
        }
    } else {
        None
    }
}

/// Reads the answer to the query of the given function id.
pub fn decode_answer(fn_id: u64, data: &[u8]) -> (r: Option<Answer>)
    ensures
        match r {
            Some(a) => dec_answer(fn_id, data@) == Some(a@),
            None => dec_answer(fn_id, data@) is None,
        },
{
    if fn_id == FN_GROUP_LEADER {
        let (some, a) = match get_bool(data, 0) {
            Some(r) => r,
            None => {
                return None;
            },
        };
        if !some {
            if a != data.len() {
                return None;
            }
            return Some(Answer::Leader(None));
        }
        let (m, b) = match get_opt_member(data, a) {
            Some(r) => r,
            None => {
                return None;
            },
        };
        let (t, c) = match get_u64(data, b) {
            Some(r) => r,
            None => {
                return None;
            },
        };
        if c != data.len() {
            return None;
        }
        Some(Answer::Leader(Some((m, t))))
    } else if fn_id == FN_GROUP_MEMBERS {
        let (some, a) = match get_bool(data, 0) {
            Some(r) => r,
            None => {
                return None;
            },
        };
        if !some {
            if a != data.len() {
                return None;
            }
            return Some(Answer::Members(None));
        }
        let (ms, b) = match get_members(data, a) {
            Some(r) => r,
            None => {
                return None;
            },
        };
        let (t, c) = match get_u64(data, b) {
            Some(r) => r,
            None => {
                return None;
            },
        };
        if c != data.len() {
            return None;
        }
        Some(Answer::Members(Some((ms, t))))
    } else if fn_id == FN_ALL_MEMBERS {
        let (ms, b) = match get_members(data, 0) {
            Some(r) => r,
            None => {
                return None;
            },
        };
        let (t, c) = match get_u64(data, b) {
            Some(r) => r,
            None => {
                return None;
            },
        };
        if c != data.len() {
            return None;
        }
        Some(Answer::All(ms, t))
    } else {
        None
    }
}

/// Whether a member fits the wire.
pub open spec fn member_fits(m: MemberView) -> bool {
    encode_utf8(m.address).len() <= u64::MAX
}

/// A member that was written is read back.
pub proof fn lemma_member_round(data: Seq<u8>, pos: int, m: MemberView)
    requires
        member_fits(m),
        holds(data, pos, enc_member(m)),
    ensures
        dec_member(data, pos) == Some((m, pos + enc_member(m).len())),
{
    let a = enc_u64(m.id);
    let b = enc_str(m.address);
    let c = enc_bool(m.online);
    lemma_holds_split(data, pos, a + b, c);
    lemma_holds_split(data, pos, a, b);
    lemma_u64_len(m.id);
    lemma_u64_round(data, pos, m.id);
    lemma_str_round(data, pos + 8, m.address);
    lemma_bool_round(data, pos + 8 + b.len(), m.online);
}

/// A member that may be missing, once written, is read back.
pub proof fn lemma_opt_member_round(data: Seq<u8>, pos: int, m: Option<MemberView>)
    requires
        m is Some ==> member_fits(m.unwrap()),
        holds(data, pos, enc_opt_member(m)),
    ensures
        dec_opt_member(data, pos) == Some((m, pos + enc_opt_member(m).len())),
{
    match m {
        Some(x) => {
            lemma_holds_split(data, pos, enc_bool(true), enc_member(x));
            lemma_bool_round(data, pos, true);
            lemma_member_round(data, pos + 1, x);
        },
        None => {
            lemma_bool_round(data, pos, false);
        },
    }
}

/// Members that were written one after the other are read back.
pub proof fn lemma_member_each_round(data: Seq<u8>, pos: int, ms: Seq<MemberView>)
    requires
        forall|i: int| 0 <= i < ms.len() ==> member_fits(#[trigger] ms[i]),
        holds(data, pos, enc_member_each(ms)),
    ensures
        dec_member_each(data, pos, ms.len()) == Some((ms, pos + enc_member_each(ms).len())),
    decreases ms.len(),
{
    if ms.len() == 0 {
        assert(ms =~= Seq::<MemberView>::empty());
    } else {
        let front = ms.drop_last();
        lemma_holds_split(data, pos, enc_member_each(front), enc_member(ms.last()));
        assert forall|i: int| 0 <= i < front.len() implies member_fits(#[trigger] front[i]) by {
            assert(front[i] == ms[i]);
        }
        lemma_member_each_round(data, pos, front);
        assert(ms.last() == ms[ms.len() - 1]);
        lemma_member_round(data, pos + enc_member_each(front).len(), ms.last());
        assert(front.push(ms.last()) =~= ms);
    }
}

/// A list of members that was written is read back.
pub proof fn lemma_members_round(data: Seq<u8>, pos: int, ms: Seq<MemberView>)
    requires
        ms.len() <= u64::MAX,
        forall|i: int| 0 <= i < ms.len() ==> member_fits(#[trigger] ms[i]),
        holds(data, pos, enc_members(ms)),
    ensures
        dec_members(data, pos) == Some((ms, pos + enc_members(ms).len())),
{
    lemma_holds_split(data, pos, enc_u64(ms.len() as u64), enc_member_each(ms));
    lemma_u64_len(ms.len() as u64);
    lemma_u64_round(data, pos, ms.len() as u64);
    lemma_member_each_round(data, pos + 8, ms);
}

/// What a query answers in a given state.
pub open spec fn answer_view_of(s: State, q: Query) -> AnswerView {
    match q {
        Query::GroupLeader { group } => AnswerView::Leader(
            if has_group(s.groups, group) {
                Some(
                    (
                        find_leader(s.members, group_of(s, group).leader),
                        group_of(s, group).term as u64,
                    ),
                )
            } else {
                None
            },
        ),
        Query::GroupMembers { group, online_only } => AnswerView::Members(
            if has_group(s.groups, group) {
                Some(
                    (
                        visible_among(s.members, group_of(s, group).members, online_only),
                        group_of(s, group).term as u64,
                    ),
                )
            } else {
                None
            },
        ),
        Query::AllMembers { online_only } => AnswerView::All(
            visible_members(s.members, online_only),
            s.term as u64,
        ),
    }
}

/// The members that a query shows are members of the state, and no more of
/// them than there are.
pub proof fn lemma_visible_members(members: Seq<MemberView>, online_only: bool)
    ensures
        visible_members(members, online_only).len() <= members.len(),
        forall|i: int|
            0 <= i < visible_members(members, online_only).len() ==> members.contains(
                #[trigger] visible_members(members, online_only)[i],
            ),
    decreases members.len(),
{
    if members.len() > 0 {
        let front = members.drop_last();
        lemma_visible_members(front, online_only);
        let shown = visible_members(members, online_only);
        assert forall|i: int| 0 <= i < shown.len() implies members.contains(#[trigger] shown[i]) by {
            if i < visible_members(front, online_only).len() {
                let x = visible_members(front, online_only)[i];
                assert(front.contains(x));
                let w = choose|w: int| 0 <= w < front.len() && front[w] == x;
                assert(members[w] == x);
            } else {
                assert(members[members.len() - 1] == shown[i]);
            }
        }
    }
}

/// The members of a group that a query shows are members of the state, and
/// no more of them than the group lists.
pub proof fn lemma_visible_among(members: Seq<MemberView>, ids: Seq<u64>, online_only: bool)
    ensures
        visible_among(members, ids, online_only).len() <= ids.len(),
        forall|i: int|
            0 <= i < visible_among(members, ids, online_only).len() ==> members.contains(
                #[trigger] visible_among(members, ids, online_only)[i],
            ),
    decreases ids.len(),
{
    if ids.len() > 0 {
        let front = ids.drop_last();
        lemma_visible_among(members, front, online_only);
        let shown = visible_among(members, ids, online_only);
        assert forall|i: int| 0 <= i < shown.len() implies members.contains(#[trigger] shown[i]) by {
            if i >= visible_among(members, front, online_only).len() {
                let p = member_pos(members, ids.last());
                assert(members[p] == shown[i]);
            }
        }
    }
}

/// The answer that the state machine wrote is the answer that the client
/// reads.
pub proof fn law_answer_round(s: State, q: Query)
    requires
        s.term <= u64::MAX,
        s.members.len() <= u64::MAX,
        forall|i: int| 0 <= i < s.members.len() ==> member_fits(#[trigger] s.members[i]),
        forall|i: int| 0 <= i < s.groups.len() ==> (#[trigger] s.groups[i]).members.len() <= u64::MAX,
    ensures
        dec_answer(query_fn(q), answer_of(s, q)) == Some(
            answer_view_of(s, q),
        ),
{
    let data = answer_of(s, q);
    lemma_holds_whole(data);
    match q {
        Query::GroupLeader { group } => {
            if has_group(s.groups, group) {
                let g = group_of(s, group);
                let m = find_leader(s.members, g.leader);
                let a = enc_bool(true);
                let b = enc_opt_member(m);
                let c = enc_u64(g.term as u64);
                if m is Some {
                    let l = g.leader.unwrap();
                    let p = member_pos(s.members, l);
                    assert(member_fits(s.members[p]));
                }
                lemma_holds_split(data, 0, a + b, c);
                lemma_holds_split(data, 0, a, b);
                lemma_bool_round(data, 0, true);
                lemma_opt_member_round(data, 1, m);
                lemma_u64_round(data, 1 + b.len() as int, g.term as u64);
                lemma_u64_len(g.term as u64);
            } else {
                lemma_bool_round(data, 0, false);
            }
        },
        Query::GroupMembers { group, online_only } => {
            if has_group(s.groups, group) {
                let g = group_of(s, group);
                let ms = visible_among(s.members, g.members, online_only);
                let a = enc_bool(true);
                let b = enc_members(ms);
                let c = enc_u64(g.term as u64);
                lemma_visible_among(s.members, g.members, online_only);
                let at = group_pos(s.groups, group);
                assert(0 <= at < s.groups.len() && s.groups[at].id == group);
                assert(s.groups[at].members.len() <= u64::MAX);
                assert forall|i: int| 0 <= i < ms.len() implies member_fits(#[trigger] ms[i]) by {
                    assert(s.members.contains(ms[i]));
                    let w = choose|w: int| 0 <= w < s.members.len() && s.members[w] == ms[i];
                    assert(member_fits(s.members[w]));
                }
                lemma_holds_split(data, 0, a + b, c);
                lemma_holds_split(data, 0, a, b);
                lemma_bool_round(data, 0, true);
                lemma_members_round(data, 1, ms);
                lemma_u64_round(data, 1 + b.len() as int, g.term as u64);
                lemma_u64_len(g.term as u64);
            } else {
                lemma_bool_round(data, 0, false);
            }
        },
        Query::AllMembers { online_only } => {
            let ms = visible_members(s.members, online_only);
            let b = enc_members(ms);
            let c = enc_u64(s.term as u64);
            lemma_visible_members(s.members, online_only);
            assert forall|i: int| 0 <= i < ms.len() implies member_fits(#[trigger] ms[i]) by {
                assert(s.members.contains(ms[i]));
                let w = choose|w: int| 0 <= w < s.members.len() && s.members[w] == ms[i];
                assert(member_fits(s.members[w]));
            }
            lemma_holds_split(data, 0, b, c);
            lemma_members_round(data, 0, ms);
            lemma_u64_round(data, b.len() as int, s.term as u64);
            lemma_u64_len(s.term as u64);
        },
    }
}

/// What a function id says of a member's event: what happened, and whether
/// within a group. `None` for the id of any other function.
pub open spec fn topic_of(fn_id: u64) -> Option<(Topic, bool)> {
    if fn_id == FN_ON_GROUP_MEMBER_JOINED {
        Some((Topic::Joined, true))
    } else if fn_id == FN_ON_ANY_MEMBER_JOINED {
        Some((Topic::Joined, false))
    } else if fn_id == FN_ON_GROUP_MEMBER_LEFT {
        Some((Topic::Left, true))
    } else if fn_id == FN_ON_ANY_MEMBER_LEFT {
        Some((Topic::Left, false))
    } else if fn_id == FN_ON_GROUP_MEMBER_ONLINE {
        Some((Topic::Online, true))
    } else if fn_id == FN_ON_ANY_MEMBER_ONLINE {
        Some((Topic::Online, false))
    } else if fn_id == FN_ON_GROUP_MEMBER_OFFLINE {
        Some((Topic::Offline, true))
    } else if fn_id == FN_ON_ANY_MEMBER_OFFLINE {
        Some((Topic::Offline, false))
    } else {
        None
    }
}

/// The event that a notice tells of.
pub open spec fn dec_notice(n: NoticeView) -> Option<EventView> {
    if n.fn_id == FN_ON_GROUP_LEADER_CHANGED {
        match n.key {
            Some(group) => match dec_opt_member(n.payload, 0) {
                Some((old, a)) => match dec_opt_member(n.payload, a) {
                    Some((new, b)) => match dec_u64(n.payload, b) {
                        Some((term, c)) => if c == n.payload.len() {
                            Some(EventView::LeaderChanged { group, old, new, term: term as nat })
                        } else {
                            None
                        },
                        None => None,
                    },
                    None => None,
                },
                None => None,
            },
            None => None,
        }
    } else {
        match topic_of(n.fn_id) {
            Some((topic, grouped)) => if grouped == n.key is Some {
                match dec_member(n.payload, 0) {
                    Some((member, a)) => match dec_u64(n.payload, a) {
                        Some((term, b)) => if b == n.payload.len() {
                            Some(
                                EventView::Member { topic, group: n.key, member, term: term as nat },
                            )
                        } else {
                            None
                        },
                        None => None,
                    },
                    None => None,
                }
            } else {
                None
            },
            None => None,
        }
    }
}

/// What a function id says of a member's event.
pub fn topic_of_fn(fn_id: u64) -> (r: Option<(Topic, bool)>)
    ensures
        r == topic_of(fn_id),
{
    if fn_id == FN_ON_GROUP_MEMBER_JOINED {
        Some((Topic::Joined, true))
    } else if fn_id == FN_ON_ANY_MEMBER_JOINED {
        Some((Topic::Joined, false))
    } else if fn_id == FN_ON_GROUP_MEMBER_LEFT {
        Some((Topic::Left, true))
    } else if fn_id == FN_ON_ANY_MEMBER_LEFT {
        Some((Topic::Left, false))
    } else if fn_id == FN_ON_GROUP_MEMBER_ONLINE {
        Some((Topic::Online, true))
    } else if fn_id == FN_ON_ANY_MEMBER_ONLINE {
        Some((Topic::Online, false))
    } else if fn_id == FN_ON_GROUP_MEMBER_OFFLINE {
        Some((Topic::Offline, true))
    } else if fn_id == FN_ON_ANY_MEMBER_OFFLINE {
        Some((Topic::Offline, false))
    } else {
        None
    }
}

/// Reads the event that a notice tells of.
pub fn decode_notice(n: &Notice) -> (r: Option<Event>)
    ensures
        match r {
            Some(e) => dec_notice(n@) == Some(e@),
            None => dec_notice(n@) is None,
        },
{
    let data = n.payload.as_slice();
    if n.fn_id == FN_ON_GROUP_LEADER_CHANGED {
        let group = match n.key {
            Some(g) => g,
            None => {
                return None;
            },
        };
        let (old, a) = match get_opt_member(data, 0) {
            Some(r) => r,
            None => {
                return None;
            },
        };
        let (new, b) = match get_opt_member(data, a) {
            Some(r) => r,
            None => {
                return None;
            },
        };
        let (term, c) = match get_u64(data, b) {
            Some(r) => r,
            None => {
                return None;
            },
        };
        if c != data.len() {
            return None;
        }
        Some(Event::LeaderChanged { group, old, new, term })
    } else {
        let (topic, grouped) = match topic_of_fn(n.fn_id) {
            Some(r) => r,
            None => {
                return None;
            },
        };
        if grouped != n.key.is_some() {
            return None;
        }
        let (member, a) = match get_member(data, 0) {
            Some(r) => r,
            None => {
                return None;
            },
        };
        let (term, b) = match get_u64(data, a) {
            Some(r) => r,
            None => {
                return None;
            },
        };
        if b != data.len() {
            return None;
        }
        Some(Event::Member { topic, group: n.key, member, term })
    }
}

/// Whether an event fits the wire.
pub open spec fn event_fits(e: EventView) -> bool {
    match e {
        EventView::Member { member, term, .. } => member_fits(member) && term <= u64::MAX,
        EventView::LeaderChanged { old, new, term, .. } => {
            &&& old is Some ==> member_fits(old.unwrap())
            &&& new is Some ==> member_fits(new.unwrap())
            &&& term <= u64::MAX
        },
    }
}

/// The event that the state machine published is the event that the
/// subscriber reads.
pub proof fn law_notice_round(e: EventView)
    requires
        event_fits(e),
    ensures
        dec_notice(notice_of(e)) == Some(e),
{
    let n = notice_of(e);
    let data = n.payload;
    lemma_holds_whole(data);
    match e {
        EventView::Member { topic, group, member, term } => {
            let a = enc_member(member);
            let b = enc_u64(term as u64);
            lemma_holds_split(data, 0, a, b);
            lemma_member_round(data, 0, member);
            lemma_u64_round(data, a.len() as int, term as u64);
            lemma_u64_len(term as u64);
        },
        EventView::LeaderChanged { group, old, new, term } => {
            let a = enc_opt_member(old);
            let b = enc_opt_member(new);
            let c = enc_u64(term as u64);
            lemma_holds_split(data, 0, a + b, c);
            lemma_holds_split(data, 0, a, b);
            lemma_opt_member_round(data, 0, old);
            lemma_opt_member_round(data, a.len() as int, new);
            lemma_u64_round(data, a.len() as int + b.len() as int, term as u64);
            lemma_u64_len(term as u64);
        },
    }
}

} // verus!
