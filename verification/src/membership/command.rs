//! Commands and queries of the membership state machine: what they are on
//! the wire, and how the state machine takes them.

use crate::codec::{
    dec_bool, dec_ids, dec_str, dec_u64, enc_bool, enc_ids, enc_str, enc_u64, get_bool, get_ids,
    get_str, get_u64, lemma_bool_round, lemma_holds_split, lemma_holds_whole, lemma_ids_round,
    lemma_str_round, lemma_u64_len, lemma_u64_round, put_bool, put_ids, put_str, put_u64,
};
use crate::hash::hash_str_spec;
use crate::membership::model::{
    apply, can_join_group, can_leave_group, find_leader, group_of, has_group, has_member,
    visible_among, visible_members, CommandView, EventView, State,
};
use crate::membership::state::Membership;
use crate::membership::types::{events_view, Event};
use crate::membership::wire::{enc_members, enc_opt_member, put_members, put_opt_member};
use vstd::prelude::*;

verus! {

/// The id under which the membership state machine is registered: the hash
/// of the name `BIFROST_MEMBERSHIP_SERVICE`.
pub const DEFAULT_SERVICE_ID: u64 = 0x85bf05067e8097ff;

/// The function ids of the commands and queries: each is the hash of the
/// function's name.
pub const FN_HB_ONLINE_CHANGED: u64 = 0x217f9b1377ef6bc0;

pub const FN_JOIN: u64 = 0x41def2de29651139;

pub const FN_LEAVE: u64 = 0x54ab030a4946fd40;

pub const FN_JOIN_GROUP: u64 = 0xec63276b39f1c325;

pub const FN_LEAVE_GROUP: u64 = 0xffbf4574dccfab74;

pub const FN_NEW_GROUP: u64 = 0xdd05b5061a2fd45d;

pub const FN_DEL_GROUP: u64 = 0x526aaae532320576;

pub const FN_GROUP_LEADER: u64 = 0x28281a473730c1f8;

pub const FN_GROUP_MEMBERS: u64 = 0xf49a31e8bf9f547c;

pub const FN_ALL_MEMBERS: u64 = 0x34f504f0fea54144;

/// A command: it changes the state, and is applied in log order.
#[derive(Debug, PartialEq, Eq)]
pub enum Command {
    HbOnlineChanged { online: Vec<u64>, offline: Vec<u64> },
    Join { address: String },
    Leave { id: u64 },
    JoinGroup { name: String, id: u64 },
    LeaveGroup { group: u64, id: u64 },
    NewGroup { name: String },
    DelGroup { id: u64 },
}

impl View for Command {
    type V = CommandView;

    open spec fn view(&self) -> CommandView {
        match *self {
            Command::HbOnlineChanged { online, offline } => CommandView::HbOnlineChanged {
                online: online@,
                offline: offline@,
            },
            Command::Join { address } => CommandView::Join { address: address@ },
            Command::Leave { id } => CommandView::Leave { id },
            Command::JoinGroup { name, id } => CommandView::JoinGroup { name: name@, id },
            Command::LeaveGroup { group, id } => CommandView::LeaveGroup { group, id },
            Command::NewGroup { name } => CommandView::NewGroup { name: name@ },
            Command::DelGroup { id } => CommandView::DelGroup { id },
        }
    }
}

/// A query: it reads the state and changes nothing.
#[derive(Clone, Copy, Debug, PartialEq, Eq, Structural)]
pub enum Query {
    GroupLeader { group: u64 },
    GroupMembers { group: u64, online_only: bool },
    AllMembers { online_only: bool },
}

/// What a command answers.
#[derive(Clone, Copy, Debug, PartialEq, Eq)]
pub enum Reply {
    /// `hb_online_changed` answers nothing.
    Done,
    /// `join` answers the member's id.
    Id(Option<u64>),
    /// `leave`, `join_group`, `leave_group` and `del_group` answer whether
    /// they changed anything.
    Flag(bool),
    /// `new_group` answers the group's id: `Err` where it was there already.
    Group(Result<u64, u64>),
}

/// The function id of a command.
pub open spec fn command_fn(c: CommandView) -> u64 {
    match c {
        CommandView::HbOnlineChanged { .. } => FN_HB_ONLINE_CHANGED,
        CommandView::Join { .. } => FN_JOIN,
        CommandView::Leave { .. } => FN_LEAVE,
        CommandView::JoinGroup { .. } => FN_JOIN_GROUP,
        CommandView::LeaveGroup { .. } => FN_LEAVE_GROUP,
        CommandView::NewGroup { .. } => FN_NEW_GROUP,
        CommandView::DelGroup { .. } => FN_DEL_GROUP,
    }
}

/// The payload of a command: its arguments one after the other.
pub open spec fn command_payload(c: CommandView) -> Seq<u8> {
    match c {
        CommandView::HbOnlineChanged { online, offline } => enc_ids(online) + enc_ids(offline),
        CommandView::Join { address } => enc_str(address),
        CommandView::Leave { id } => enc_u64(id),
        CommandView::JoinGroup { name, id } => enc_str(name) + enc_u64(id),
        CommandView::LeaveGroup { group, id } => enc_u64(group) + enc_u64(id),
        CommandView::NewGroup { name } => enc_str(name),
        CommandView::DelGroup { id } => enc_u64(id),
    }
}

/// The command that a function id and a payload spell. The payload must hold
/// the arguments and nothing behind them.
pub open spec fn dec_command(fn_id: u64, data: Seq<u8>) -> Option<CommandView> {
    if fn_id == FN_HB_ONLINE_CHANGED {
        match dec_ids(data, 0) {
            Some((online, p)) => match dec_ids(data, p) {
                Some((offline, q)) => if q == data.len() {
                    Some(CommandView::HbOnlineChanged { online, offline })
                } else {
                    None
                },
                None => None,
            },
            None => None,
        }
    } else if fn_id == FN_JOIN {
        match dec_str(data, 0) {
            Some((address, p)) => if p == data.len() {
                Some(CommandView::Join { address })
            } else {
                None
            },
            None => None,
        }
    } else if fn_id == FN_LEAVE {
        match dec_u64(data, 0) {
            Some((id, p)) => if p == data.len() {
                Some(CommandView::Leave { id })
            } else {
                None
            },
            None => None,
        }
    } else if fn_id == FN_JOIN_GROUP {
        match dec_str(data, 0) {
            Some((name, p)) => match dec_u64(data, p) {
                Some((id, q)) => if q == data.len() {
                    Some(CommandView::JoinGroup { name, id })
                } else {
                    None
                },
                None => None,
            },
            None => None,
        }
    } else if fn_id == FN_LEAVE_GROUP {
        match dec_u64(data, 0) {
            Some((group, p)) => match dec_u64(data, p) {
                Some((id, q)) => if q == data.len() {
                    Some(CommandView::LeaveGroup { group, id })
                } else {
                    None
                },
                None => None,
            },
            None => None,
        }
    } else if fn_id == FN_NEW_GROUP {
        match dec_str(data, 0) {
            Some((name, p)) => if p == data.len() {
                Some(CommandView::NewGroup { name })
            } else {
                None
            },
            None => None,
        }
    } else if fn_id == FN_DEL_GROUP {
        match dec_u64(data, 0) {
            Some((id, p)) => if p == data.len() {
                Some(CommandView::DelGroup { id })
            } else {
                None
            },
            None => None,
        }
    } else {
        None
    }
}

/// The function id of a query.
pub open spec fn query_fn(q: Query) -> u64 {
    match q {
        Query::GroupLeader { .. } => FN_GROUP_LEADER,
        Query::GroupMembers { .. } => FN_GROUP_MEMBERS,
        Query::AllMembers { .. } => FN_ALL_MEMBERS,
    }
}

/// The payload of a query.
pub open spec fn query_payload(q: Query) -> Seq<u8> {
    match q {
        Query::GroupLeader { group } => enc_u64(group),
        Query::GroupMembers { group, online_only } => enc_u64(group) + enc_bool(online_only),
        Query::AllMembers { online_only } => enc_bool(online_only),
    }
}

/// The query that a function id and a payload spell.
pub open spec fn dec_query(fn_id: u64, data: Seq<u8>) -> Option<Query> {
    if fn_id == FN_GROUP_LEADER {
        match dec_u64(data, 0) {
            Some((group, p)) => if p == data.len() {
                Some(Query::GroupLeader { group })
            } else {
                None
            },
            None => None,
        }
    } else if fn_id == FN_GROUP_MEMBERS {
        match dec_u64(data, 0) {
            Some((group, p)) => match dec_bool(data, p) {
                Some((online_only, q)) => if q == data.len() {
                    Some(Query::GroupMembers { group, online_only })
                } else {
                    None
                },
                None => None,
            },
            None => None,
        }
    } else if fn_id == FN_ALL_MEMBERS {
        match dec_bool(data, 0) {
            Some((online_only, p)) => if p == data.len() {
                Some(Query::AllMembers { online_only })
            } else {
                None
            },
            None => None,
        }
    } else {
        None
    }
}

/// How often the clock may advance while a command is applied.
pub open spec fn command_cost(c: CommandView) -> nat {
    match c {
        CommandView::HbOnlineChanged { online, offline } => online.len() + offline.len(),
        _ => 1,
    }
}

/// What a command answers in a given state.
pub open spec fn reply_of(s: State, c: CommandView) -> Reply {
    match c {
        CommandView::HbOnlineChanged { .. } => Reply::Done,
        CommandView::Join { address } => Reply::Id(Some(hash_str_spec(address))),
        CommandView::Leave { id } => Reply::Flag(has_member(s.members, id)),
        CommandView::JoinGroup { name, id } => Reply::Flag(
            can_join_group(s, hash_str_spec(name), id),
        ),
        CommandView::LeaveGroup { group, id } => Reply::Flag(can_leave_group(s, group, id)),
        CommandView::NewGroup { name } => Reply::Group(
            if has_group(s.groups, hash_str_spec(name)) {
                Err(hash_str_spec(name))
            } else {
                Ok(hash_str_spec(name))
            },
        ),
        CommandView::DelGroup { id } => Reply::Flag(has_group(s.groups, id)),
    }
}

/// A reply as bytes.
pub open spec fn enc_reply(r: Reply) -> Seq<u8> {
    match r {
        Reply::Done => Seq::empty(),
        Reply::Id(Some(id)) => enc_bool(true) + enc_u64(id),
        Reply::Id(None) => enc_bool(false),
        Reply::Flag(b) => enc_bool(b),
        Reply::Group(Ok(id)) => enc_bool(true) + enc_u64(id),
        Reply::Group(Err(id)) => enc_bool(false) + enc_u64(id),
    }
}

/// What a query answers in a given state, as bytes: for a group that is
/// missing a single 0; else a 1 where the query names a group, then what was
/// asked for, then the term.
pub open spec fn answer_of(s: State, q: Query) -> Seq<u8> {
    match q {
        Query::GroupLeader { group } => if has_group(s.groups, group) {
            enc_bool(true) + enc_opt_member(find_leader(s.members, group_of(s, group).leader))
                + enc_u64(group_of(s, group).term as u64)
        } else {
            enc_bool(false)
        },
        Query::GroupMembers { group, online_only } => if has_group(s.groups, group) {
            enc_bool(true) + enc_members(
                visible_among(s.members, group_of(s, group).members, online_only),
            ) + enc_u64(group_of(s, group).term as u64)
        } else {
            enc_bool(false)
        },
        Query::AllMembers { online_only } => enc_members(visible_members(s.members, online_only))
            + enc_u64(s.term as u64),
    }
}

/// Writes a command's payload, and gives its function id.
pub fn encode_command(c: &Command) -> (r: (u64, Vec<u8>))
    ensures
        r.0 == command_fn(c@),
        r.1@ == command_payload(c@),
{
    let mut out: Vec<u8> = Vec::new();
    match c {
        Command::HbOnlineChanged { online, offline } => {
            put_ids(&mut out, online);
            put_ids(&mut out, offline);
            proof {
                assert(out@ =~= enc_ids(online@) + enc_ids(offline@));
            }
            (FN_HB_ONLINE_CHANGED, out)
        },
        Command::Join { address } => {
            put_str(&mut out, address.as_str());
            proof {
                assert(out@ =~= enc_str(address@));
            }
            (FN_JOIN, out)
        },
        Command::Leave { id } => {
            put_u64(&mut out, *id);
            proof {
                assert(out@ =~= enc_u64(*id));
            }
            (FN_LEAVE, out)
        },
        Command::JoinGroup { name, id } => {
            put_str(&mut out, name.as_str());
            put_u64(&mut out, *id);
            proof {
                assert(out@ =~= enc_str(name@) + enc_u64(*id));
            }
            (FN_JOIN_GROUP, out)
        },
        Command::LeaveGroup { group, id } => {
            put_u64(&mut out, *group);
            put_u64(&mut out, *id);
            proof {
                assert(out@ =~= enc_u64(*group) + enc_u64(*id));
            }
            (FN_LEAVE_GROUP, out)
        },
        Command::NewGroup { name } => {
            put_str(&mut out, name.as_str());
            proof {
                assert(out@ =~= enc_str(name@));
            }
            (FN_NEW_GROUP, out)
        },
        Command::DelGroup { id } => {
            put_u64(&mut out, *id);
            proof {
                assert(out@ =~= enc_u64(*id));
            }
            (FN_DEL_GROUP, out)
        },
    }
}

/// Writes a query's payload, and gives its function id.
pub fn encode_query(q: &Query) -> (r: (u64, Vec<u8>))
    ensures
        r.0 == query_fn(*q),
        r.1@ == query_payload(*q),
{
    let mut out: Vec<u8> = Vec::new();
    match q {
        Query::GroupLeader { group } => {
            put_u64(&mut out, *group);
            proof {
                assert(out@ =~= enc_u64(*group));
            }
            (FN_GROUP_LEADER, out)
        },
        Query::GroupMembers { group, online_only } => {
            put_u64(&mut out, *group);
            put_bool(&mut out, *online_only);
            proof {
                assert(out@ =~= enc_u64(*group) + enc_bool(*online_only));
            }
            (FN_GROUP_MEMBERS, out)
        },
        Query::AllMembers { online_only } => {
            put_bool(&mut out, *online_only);
            proof {
                assert(out@ =~= enc_bool(*online_only));
            }
            (FN_ALL_MEMBERS, out)
        },
    }
}

/// Reads a command. A function id that is not a command's, and a payload
/// that does not hold exactly the command's arguments, give `None`.
pub fn decode_command(fn_id: u64, data: &[u8]) -> (r: Option<Command>)
    ensures
        match r {
            Some(c) => dec_command(fn_id, data@) == Some(c@),
            None => dec_command(fn_id, data@) is None,
        },
        r is Some ==> command_cost(r.unwrap()@) <= data@.len() + 1,
{
    if fn_id == FN_HB_ONLINE_CHANGED {
        let (online, p) = match get_ids(data, 0) {
            Some(r) => r,
            None => {
                return None;
            },
        };
        let (offline, q) = match get_ids(data, p) {
            Some(r) => r,
            None => {
                return None;
            },
        };
        if q != data.len() {
            return None;
        }
        Some(Command::HbOnlineChanged { online, offline })
    } else if fn_id == FN_JOIN {
        let (address, p) = match get_str(data, 0) {
            Some(r) => r,
            None => {
                return None;
            },
        };
        if p != data.len() {
            return None;
        }
        Some(Command::Join { address })
    } else if fn_id == FN_LEAVE {
        let (id, p) = match get_u64(data, 0) {
            Some(r) => r,
            None => {
                return None;
            },
        };
        if p != data.len() {
            return None;
        }
        Some(Command::Leave { id })
    } else if fn_id == FN_JOIN_GROUP {
        let (name, p) = match get_str(data, 0) {
            Some(r) => r,
            None => {
                return None;
            },
        };
        let (id, q) = match get_u64(data, p) {
            Some(r) => r,
            None => {
                return None;
            },
        };
        if q != data.len() {
            return None;
        }
        Some(Command::JoinGroup { name, id })
    } else if fn_id == FN_LEAVE_GROUP {
        let (group, p) = match get_u64(data, 0) {
            Some(r) => r,
            None => {
                return None;
            },
        };
        let (id, q) = match get_u64(data, p) {
            Some(r) => r,
            None => {
                return None;
            },
        };
        if q != data.len() {
            return None;
        }
        Some(Command::LeaveGroup { group, id })
    } else if fn_id == FN_NEW_GROUP {
        let (name, p) = match get_str(data, 0) {
            Some(r) => r,
            None => {
                return None;
            },
        };
        if p != data.len() {
            return None;
        }
        Some(Command::NewGroup { name })
    } else if fn_id == FN_DEL_GROUP {
        let (id, p) = match get_u64(data, 0) {
            Some(r) => r,
            None => {
                return None;
            },
        };
        if p != data.len() {
            return None;
        }
        Some(Command::DelGroup { id })
    } else {
        None
    }
}

/// Reads a query.
pub fn decode_query(fn_id: u64, data: &[u8]) -> (r: Option<Query>)
    ensures
        r == dec_query(fn_id, data@),
{
    if fn_id == FN_GROUP_LEADER {
        let (group, p) = match get_u64(data, 0) {
            Some(r) => r,
            None => {
                return None;
            },
        };
        if p != data.len() {
            return None;
        }
        Some(Query::GroupLeader { group })
    } else if fn_id == FN_GROUP_MEMBERS {
        let (group, p) = match get_u64(data, 0) {
            Some(r) => r,
            None => {
                return None;
            },
        };
        let (online_only, q) = match get_bool(data, p) {
            Some(r) => r,
            None => {
                return None;
            },
        };
        if q != data.len() {
            return None;
        }
        Some(Query::GroupMembers { group, online_only })
    } else if fn_id == FN_ALL_MEMBERS {
        let (online_only, p) = match get_bool(data, 0) {
            Some(r) => r,
            None => {
                return None;
            },
        };
        if p != data.len() {
            return None;
        }
        Some(Query::AllMembers { online_only })
    } else {
        None
    }
}

/// Writes a reply.
pub fn encode_reply(r: Reply) -> (out: Vec<u8>)
    ensures
        out@ == enc_reply(r),
{
    let mut out: Vec<u8> = Vec::new();
    match r {
        Reply::Done => {},
        Reply::Id(Some(id)) => {
            put_bool(&mut out, true);
            put_u64(&mut out, id);
        },
        Reply::Id(None) => {
            put_bool(&mut out, false);
        },
        Reply::Flag(b) => {
            put_bool(&mut out, b);
        },
        Reply::Group(Ok(id)) => {
            put_bool(&mut out, true);
            put_u64(&mut out, id);
        },
        Reply::Group(Err(id)) => {
            put_bool(&mut out, false);
            put_u64(&mut out, id);
        },
    }
    proof {
        assert(out@ =~= enc_reply(r));
    }
    out
}

impl Membership {
    /// Applies a command: the next state, the events appended to `events`,
    /// and the command's reply.
    pub fn apply(&mut self, c: Command, events: &mut Vec<Event>) -> (r: Reply)
        requires
            old(self).wf(),
            old(self).has_room(command_cost(c@)),
        ensures
            final(self).wf(),
            final(self)@ == apply(old(self)@, c@).state,
            events_view(final(events)@) == events_view(old(events)@) + apply(old(self)@, c@).events,
            r == reply_of(old(self)@, c@),
    {
        match c {
            Command::HbOnlineChanged { online, offline } => {
                self.hb_online_changed(&online, &offline, events);
                Reply::Done
            },
            Command::Join { address } => Reply::Id(self.join(address, events)),
            Command::Leave { id } => Reply::Flag(self.leave(id, events)),
            Command::JoinGroup { name, id } => Reply::Flag(self.join_group(name, id, events)),
            Command::LeaveGroup { group, id } => Reply::Flag(self.leave_group(group, id, events)),
            Command::NewGroup { name } => {
                proof {
                    assert(events_view(events@) + Seq::<EventView>::empty() =~= events_view(
                        events@,
                    ));
                }
                Reply::Group(self.new_group(name))
            },
            Command::DelGroup { id } => Reply::Flag(self.del_group(id, events)),
        }
    }

    /// Whether the clock has room for a command with a payload of `len`
    /// bytes.
    pub fn can_take(&self, len: usize) -> (r: bool)
        ensures
            r == self.has_room((len + 1) as nat),
    {
        let room: u64 = u64::MAX - self.term();
        room > 0 && len as u64 <= room - 1
    }

    /// Takes a command as it stands in the log: reads it, applies it, and
    /// writes the reply. What is not a command of this state machine changes
    /// nothing and gives `None`.
    pub fn fn_dispatch_cmd(
        &mut self,
        fn_id: u64,
        data: &[u8],
        events: &mut Vec<Event>,
    ) -> (r: Option<
        Vec<u8>,
    >)
        requires
            old(self).wf(),
            old(self).has_room(data@.len() + 1),
        ensures
            final(self).wf(),
            match dec_command(fn_id, data@) {
                Some(c) => {
                    &&& final(self)@ == apply(old(self)@, c).state
                    &&& events_view(final(events)@) == events_view(old(events)@) + apply(
                        old(self)@,
                        c,
                    ).events
                    &&& r is Some
                    &&& r.unwrap()@ == enc_reply(reply_of(old(self)@, c))
                },
                None => {
                    &&& final(self)@ == old(self)@
                    &&& final(events)@ == old(events)@
                    &&& r is None
                },
            },
    {
        match decode_command(fn_id, data) {
            Some(c) => {
                let reply = self.apply(c, events);
                Some(encode_reply(reply))
            },
            None => None,
        }
    }

    /// Answers a query, as bytes.
    pub fn answer(&self, q: Query) -> (r: Vec<u8>)
        requires
            self.wf(),
        ensures
            r@ == answer_of(self@, q),
    {
        let mut out: Vec<u8> = Vec::new();
        match q {
            Query::GroupLeader { group } => match self.group_leader(group) {
                Some((leader, term)) => {
                    put_bool(&mut out, true);
                    put_opt_member(&mut out, &leader);
                    put_u64(&mut out, term);
                },
                None => {
                    put_bool(&mut out, false);
                },
            },
            Query::GroupMembers { group, online_only } => match self.group_members(
                group,
                online_only,
            ) {
                Some((members, term)) => {
                    put_bool(&mut out, true);
                    put_members(&mut out, &members);
                    put_u64(&mut out, term);
                },
                None => {
                    put_bool(&mut out, false);
                },
            },
            Query::AllMembers { online_only } => {
                let (members, term) = self.all_members(online_only);
                put_members(&mut out, &members);
                put_u64(&mut out, term);
            },
        }
        proof {
            assert(out@ =~= answer_of(self@, q));
        }
        out
    }

    /// Takes a query as it was sent: reads it and writes the answer. What is
    /// not a query of this state machine gives `None`.
    pub fn fn_dispatch_qry(&self, fn_id: u64, data: &[u8]) -> (r: Option<Vec<u8>>)
        requires
            self.wf(),
        ensures
            match dec_query(fn_id, data@) {
                Some(q) => r is Some && r.unwrap()@ == answer_of(self@, q),
                None => r is None,
            },
    {
        match decode_query(fn_id, data) {
            Some(q) => Some(self.answer(q)),
            None => None,
        }
    }
}

/// Whether a command's arguments fit the wire: no string and no list is
/// longer than a length can say.
pub open spec fn fits(c: CommandView) -> bool {
    match c {
        CommandView::HbOnlineChanged { online, offline } => online.len() <= u64::MAX
            && offline.len() <= u64::MAX,
        CommandView::Join { address } => vstd::utf8::encode_utf8(address).len() <= u64::MAX,
        CommandView::JoinGroup { name, .. } => vstd::utf8::encode_utf8(name).len() <= u64::MAX,
        CommandView::NewGroup { name } => vstd::utf8::encode_utf8(name).len() <= u64::MAX,
        _ => true,
    }
}

/// A command that was written is read back as it was.
pub proof fn law_command_round(c: CommandView)
    requires
        fits(c),
    ensures
        dec_command(command_fn(c), command_payload(c)) == Some(c),
{
    let data = command_payload(c);
    lemma_holds_whole(data);
    match c {
        CommandView::HbOnlineChanged { online, offline } => {
            lemma_holds_split(data, 0, enc_ids(online), enc_ids(offline));
            lemma_ids_round(data, 0, online);
            lemma_ids_round(data, enc_ids(online).len() as int, offline);
        },
        CommandView::Join { address } => {
            lemma_str_round(data, 0, address);
        },
        CommandView::Leave { id } => {
            lemma_u64_round(data, 0, id);
            lemma_u64_len(id);
        },
        CommandView::JoinGroup { name, id } => {
            lemma_holds_split(data, 0, enc_str(name), enc_u64(id));
            lemma_str_round(data, 0, name);
            lemma_u64_round(data, enc_str(name).len() as int, id);
            lemma_u64_len(id);
        },
        CommandView::LeaveGroup { group, id } => {
            lemma_holds_split(data, 0, enc_u64(group), enc_u64(id));
            lemma_u64_round(data, 0, group);
            lemma_u64_len(group);
            lemma_u64_round(data, 8, id);
            lemma_u64_len(id);
        },
        CommandView::NewGroup { name } => {
            lemma_str_round(data, 0, name);
        },
        CommandView::DelGroup { id } => {
            lemma_u64_round(data, 0, id);
            lemma_u64_len(id);
        },
    }
}

/// A query that was written is read back as it was.
pub proof fn law_query_round(q: Query)
    ensures
        dec_query(query_fn(q), query_payload(q)) == Some(q),
{
    let data = query_payload(q);
    lemma_holds_whole(data);
    match q {
        Query::GroupLeader { group } => {
            lemma_u64_round(data, 0, group);
            lemma_u64_len(group);
        },
        Query::GroupMembers { group, online_only } => {
            lemma_holds_split(data, 0, enc_u64(group), enc_bool(online_only));
            lemma_u64_round(data, 0, group);
            lemma_u64_len(group);
            lemma_bool_round(data, 8, online_only);
        },
        Query::AllMembers { online_only } => {
            lemma_bool_round(data, 0, online_only);
        },
    }
}

} // verus!
