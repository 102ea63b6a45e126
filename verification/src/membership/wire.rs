//! How members, replies and events are written as bytes.

use crate::codec::{enc_bool, enc_str, enc_u64, put_bool, put_len, put_str, put_u64};
use crate::membership::model::{EventView, MemberView, Topic};
use crate::membership::types::{events_view, members_view, option_member_view, Event, Member};
use vstd::prelude::*;

verus! {

/// The function ids under which events are published: each is the hash of
/// the function's name.
pub const FN_ON_GROUP_MEMBER_OFFLINE: u64 = 0x6b02fdb07355d7e7;

pub const FN_ON_ANY_MEMBER_OFFLINE: u64 = 0x95c711a380ddbe18;

pub const FN_ON_GROUP_MEMBER_ONLINE: u64 = 0x66c2df91e36ff5b3;

pub const FN_ON_ANY_MEMBER_ONLINE: u64 = 0x226b409d69e3d79a;

pub const FN_ON_GROUP_MEMBER_JOINED: u64 = 0x2222c5b3b8880451;

pub const FN_ON_ANY_MEMBER_JOINED: u64 = 0x3b171b18ee6a48c0;

pub const FN_ON_GROUP_MEMBER_LEFT: u64 = 0x10b7f87bedd78081;

pub const FN_ON_ANY_MEMBER_LEFT: u64 = 0x55cb8a39f70a12c0;

pub const FN_ON_GROUP_LEADER_CHANGED: u64 = 0x5dad1a70d4c07b13;

/// A member: its id, its address, whether it is online.
pub open spec fn enc_member(m: MemberView) -> Seq<u8> {
    enc_u64(m.id) + enc_str(m.address) + enc_bool(m.online)
}

/// A member that may be missing: whether it is there, then the member.
pub open spec fn enc_opt_member(m: Option<MemberView>) -> Seq<u8> {
    match m {
        Some(m) => enc_bool(true) + enc_member(m),
        None => enc_bool(false),
    }
}

/// Members one after the other.
pub open spec fn enc_member_each(ms: Seq<MemberView>) -> Seq<u8>
    decreases ms.len(),
{
    if ms.len() == 0 {
        Seq::empty()
    } else {
        enc_member_each(ms.drop_last()) + enc_member(ms.last())
    }
}

/// A list of members: how many, then each.
pub open spec fn enc_members(ms: Seq<MemberView>) -> Seq<u8> {
    enc_u64(ms.len() as u64) + enc_member_each(ms)
}

/// Writes a member.
pub fn put_member(out: &mut Vec<u8>, m: &Member)
    ensures
        final(out)@ == old(out)@ + enc_member(m@),
{
    put_u64(out, m.id);
    put_str(out, m.address.as_str());
    put_bool(out, m.online);
    proof {
        assert(out@ =~= old(out)@ + enc_member(m@));
    }
}

/// Writes a member that may be missing.
pub fn put_opt_member(out: &mut Vec<u8>, m: &Option<Member>)
    ensures
        final(out)@ == old(out)@ + enc_opt_member(option_member_view(*m)),
{
    match m {
        Some(m) => {
            put_bool(out, true);
            put_member(out, m);
            proof {
                assert(out@ =~= old(out)@ + (enc_bool(true) + enc_member(m@)));
            }
        },
        None => {
            put_bool(out, false);
        },
    }
}

/// Writes a list of members.
pub fn put_members(out: &mut Vec<u8>, ms: &Vec<Member>)
    ensures
        final(out)@ == old(out)@ + enc_members(members_view(ms@)),
{
    let ghost all = members_view(ms@);
    put_len(out, ms.len());
    let ghost start = out@;
    let mut i: usize = 0;
    proof {
        assert(start + enc_member_each(all.take(0)) =~= start);
    }
    while i < ms.len()
        invariant
            i <= ms.len(),
            all == members_view(ms@),
            out@ == start + enc_member_each(all.take(i as int)),
        decreases ms.len() - i,
    {
        proof {
            assert(all.take(i + 1).drop_last() =~= all.take(i as int));
            assert(all.take(i + 1).last() == ms[i as int]@);
            assert((start + enc_member_each(all.take(i as int))) + enc_member(ms[i as int]@)
                =~= start + (enc_member_each(all.take(i as int)) + enc_member(ms[i as int]@)));
        }
        put_member(out, &ms[i]);
        i += 1;
    }
    proof {
        assert(all.take(i as int) =~= all);
        assert(out@ =~= old(out)@ + enc_members(all));
    }
}

/// What the bus is handed for an event: the function that subscribers name,
/// the key that they filter by (`None` where the event is for all), and the
/// payload.
#[derive(Debug, PartialEq, Eq)]
pub struct Notice {
    pub fn_id: u64,
    pub key: Option<u64>,
    pub payload: Vec<u8>,
}

/// A notice as the model sees it.
pub struct NoticeView {
    pub fn_id: u64,
    pub key: Option<u64>,
    pub payload: Seq<u8>,
}

impl View for Notice {
    type V = NoticeView;

    open spec fn view(&self) -> NoticeView {
        NoticeView { fn_id: self.fn_id, key: self.key, payload: self.payload@ }
    }
}

impl Clone for Notice {
    fn clone(&self) -> (r: Notice)
        ensures
            r@ == self@,
    {
        Notice { fn_id: self.fn_id, key: self.key, payload: self.payload.clone() }
    }
}

/// The function under which a member's event is published.
pub open spec fn topic_fn(topic: Topic, grouped: bool) -> u64 {
    match topic {
        Topic::Joined => if grouped {
            FN_ON_GROUP_MEMBER_JOINED
        } else {
            FN_ON_ANY_MEMBER_JOINED
        },
        Topic::Left => if grouped {
            FN_ON_GROUP_MEMBER_LEFT
        } else {
            FN_ON_ANY_MEMBER_LEFT
        },
        Topic::Online => if grouped {
            FN_ON_GROUP_MEMBER_ONLINE
        } else {
            FN_ON_ANY_MEMBER_ONLINE
        },
        Topic::Offline => if grouped {
            FN_ON_GROUP_MEMBER_OFFLINE
        } else {
            FN_ON_ANY_MEMBER_OFFLINE
        },
    }
}

/// The notice that publishes an event.
pub open spec fn notice_of(e: EventView) -> NoticeView {
    match e {
        EventView::Member { topic, group, member, term } => NoticeView {
            fn_id: topic_fn(topic, group is Some),
            key: group,
            payload: enc_member(member) + enc_u64(term as u64),
        },
        EventView::LeaderChanged { group, old, new, term } => NoticeView {
            fn_id: FN_ON_GROUP_LEADER_CHANGED,
            key: Some(group),
            payload: enc_opt_member(old) + enc_opt_member(new) + enc_u64(term as u64),
        },
    }
}

/// The notices that publish a list of events, in their order.
pub open spec fn notices_of(events: Seq<EventView>) -> Seq<NoticeView> {
    Seq::new(events.len(), |i: int| notice_of(events[i]))
}

/// The model of a list of notices.
pub open spec fn notices_view(v: Seq<Notice>) -> Seq<NoticeView> {
    Seq::new(v.len(), |i: int| v[i]@)
}

/// The function under which a member's event is published.
pub fn topic_fn_id(topic: Topic, grouped: bool) -> (r: u64)
    ensures
        r == topic_fn(topic, grouped),
{
    match topic {
        Topic::Joined => if grouped {
            FN_ON_GROUP_MEMBER_JOINED
        } else {
            FN_ON_ANY_MEMBER_JOINED
        },
        Topic::Left => if grouped {
            FN_ON_GROUP_MEMBER_LEFT
        } else {
            FN_ON_ANY_MEMBER_LEFT
        },
        Topic::Online => if grouped {
            FN_ON_GROUP_MEMBER_ONLINE
        } else {
            FN_ON_ANY_MEMBER_ONLINE
        },
        Topic::Offline => if grouped {
            FN_ON_GROUP_MEMBER_OFFLINE
        } else {
            FN_ON_ANY_MEMBER_OFFLINE
        },
    }
}

/// Makes the notice that publishes an event.
pub fn encode_event(e: &Event) -> (r: Notice)
    ensures
        r@ == notice_of(e@),
{
    let mut payload: Vec<u8> = Vec::new();
    match e {
        Event::Member { topic, group, member, term } => {
            put_member(&mut payload, member);
            put_u64(&mut payload, *term);
            proof {
                assert(payload@ =~= enc_member(member@) + enc_u64(*term));
            }
            Notice { fn_id: topic_fn_id(*topic, group.is_some()), key: *group, payload }
        },
        Event::LeaderChanged { group, old, new, term } => {
            put_opt_member(&mut payload, old);
            put_opt_member(&mut payload, new);
            put_u64(&mut payload, *term);
            proof {
                assert(payload@ =~= enc_opt_member(option_member_view(*old)) + enc_opt_member(
                    option_member_view(*new),
                ) + enc_u64(*term));
            }
            Notice { fn_id: FN_ON_GROUP_LEADER_CHANGED, key: Some(*group), payload }
        },
    }
}

/// Makes the notices that publish a list of events, and appends them.
pub fn encode_events(events: &Vec<Event>, out: &mut Vec<Notice>)
    ensures
        notices_view(final(out)@) == notices_view(old(out)@) + notices_of(events_view(events@)),
{
    let ghost start = notices_view(out@);
    let ghost all = notices_of(events_view(events@));
    let mut i: usize = 0;
    proof {
        assert(start + all.take(0) =~= start);
    }
    while i < events.len()
        invariant
            i <= events.len(),
            all == notices_of(events_view(events@)),
            notices_view(out@) == start + all.take(i as int),
        decreases events.len() - i,
    {
        let n = encode_event(&events[i]);
        let ghost listed = notices_view(out@);
        out.push(n);
        proof {
            assert(events_view(events@)[i as int] == events[i as int]@);
            assert(all[i as int] == n@);
            assert(notices_view(out@) =~= listed.push(n@));
            assert(all.take(i + 1) =~= all.take(i as int).push(all[i as int]));
            assert(notices_view(out@) =~= start + all.take(i + 1));
        }
        i += 1;
    }
    proof {
        assert(all.take(i as int) =~= all);
    }
}

} // verus!
