use bifrost::membership::client::{
    decode_answer, decode_notice, decode_reply, get_member, get_members, get_opt_member, Answer,
};
use bifrost::membership::command::{
    decode_command, decode_query, encode_command, encode_query, encode_reply, Command, Query,
    Reply, FN_ALL_MEMBERS, FN_DEL_GROUP, FN_GROUP_LEADER, FN_GROUP_MEMBERS, FN_HB_ONLINE_CHANGED,
    FN_JOIN, FN_JOIN_GROUP, FN_LEAVE, FN_LEAVE_GROUP, FN_NEW_GROUP,
};
use bifrost::membership::model::Topic;
use bifrost::membership::state::Membership;
use bifrost::membership::types::{Event, Member};
use bifrost::membership::wire::{
    encode_event, encode_events, put_member, put_members, put_opt_member, topic_fn_id, Notice,
    FN_ON_ANY_MEMBER_JOINED, FN_ON_ANY_MEMBER_OFFLINE, FN_ON_GROUP_LEADER_CHANGED,
    FN_ON_GROUP_MEMBER_JOINED, FN_ON_GROUP_MEMBER_LEFT, FN_ON_GROUP_MEMBER_ONLINE,
};

fn member(id: u64, address: &str, online: bool) -> Member {
    Member { id, address: String::from(address), online }
}

fn all_commands() -> Vec<Command> {
    vec![
        Command::HbOnlineChanged { online: vec![1, 2], offline: vec![3] },
        Command::HbOnlineChanged { online: vec![], offline: vec![] },
        Command::Join { address: String::from("127.0.0.1:2100") },
        Command::Leave { id: 9 },
        Command::JoinGroup { name: String::from("test_group_1"), id: 9 },
        Command::LeaveGroup { group: 4, id: 9 },
        Command::NewGroup { name: String::from("") },
        Command::DelGroup { id: u64::MAX },
    ]
}

#[test]
fn commands_come_back_as_they_were_written() {
    for (c, same) in all_commands().into_iter().zip(all_commands().into_iter()) {
        let (fn_id, payload) = encode_command(&c);
        assert_eq!(decode_command(fn_id, &payload), Some(same));
    }
}

#[test]
fn command_payloads_are_the_arguments_in_order() {
    let (fn_id, payload) = encode_command(&Command::LeaveGroup { group: 1, id: 2 });
    assert_eq!(fn_id, FN_LEAVE_GROUP);
    assert_eq!(payload, vec![1, 0, 0, 0, 0, 0, 0, 0, 2, 0, 0, 0, 0, 0, 0, 0]);
    let (fn_id, payload) = encode_command(&Command::Join { address: String::from("ab") });
    assert_eq!(fn_id, FN_JOIN);
    assert_eq!(payload, vec![2, 0, 0, 0, 0, 0, 0, 0, b'a', b'b']);
    let (fn_id, payload) =
        encode_command(&Command::HbOnlineChanged { online: vec![7], offline: vec![] });
    assert_eq!(fn_id, FN_HB_ONLINE_CHANGED);
    assert_eq!(
        payload,
        vec![1, 0, 0, 0, 0, 0, 0, 0, 7, 0, 0, 0, 0, 0, 0, 0, 0, 0, 0, 0, 0, 0, 0, 0]
    );
}

#[test]
fn a_command_with_bytes_behind_it_is_refused() {
    for c in all_commands() {
        let (fn_id, mut payload) = encode_command(&c);
        payload.push(0);
        assert_eq!(decode_command(fn_id, &payload), None);
    }
}

#[test]
fn a_command_that_is_cut_short_is_refused() {
    for c in all_commands() {
        let (fn_id, mut payload) = encode_command(&c);
        payload.pop();
        assert_eq!(decode_command(fn_id, &payload), None);
    }
}

#[test]
fn an_unknown_function_is_no_command() {
    assert_eq!(decode_command(12345, &[]), None);
    assert_eq!(decode_command(FN_GROUP_LEADER, &[0; 8]), None);
    assert_eq!(decode_query(FN_LEAVE, &[0; 8]), None);
}

#[test]
fn queries_come_back_as_they_were_written() {
    let queries = [
        Query::GroupLeader { group: 5 },
        Query::GroupMembers { group: 5, online_only: true },
        Query::GroupMembers { group: 5, online_only: false },
        Query::AllMembers { online_only: true },
    ];
    for q in queries {
        let (fn_id, payload) = encode_query(&q);
        assert_eq!(decode_query(fn_id, &payload), Some(q));
        let mut longer = payload.clone();
        longer.push(1);
        assert_eq!(decode_query(fn_id, &longer), None);
    }
    assert_eq!(encode_query(&Query::AllMembers { online_only: true }), (FN_ALL_MEMBERS, vec![1]));
    assert_eq!(decode_query(FN_GROUP_MEMBERS, &[5, 0, 0, 0, 0, 0, 0, 0, 2]), None);
}

#[test]
fn replies_come_back_as_they_were_written() {
    let cases = [
        (FN_HB_ONLINE_CHANGED, Reply::Done),
        (FN_JOIN, Reply::Id(Some(7))),
        (FN_JOIN, Reply::Id(None)),
        (FN_LEAVE, Reply::Flag(true)),
        (FN_JOIN_GROUP, Reply::Flag(false)),
        (FN_LEAVE_GROUP, Reply::Flag(true)),
        (FN_DEL_GROUP, Reply::Flag(false)),
        (FN_NEW_GROUP, Reply::Group(Ok(3))),
        (FN_NEW_GROUP, Reply::Group(Err(3))),
    ];
    for (fn_id, reply) in cases {
        let bytes = encode_reply(reply);
        assert_eq!(decode_reply(fn_id, &bytes), Some(reply));
    }
    assert_eq!(encode_reply(Reply::Done), Vec::<u8>::new());
    assert_eq!(encode_reply(Reply::Flag(true)), vec![1]);
    assert_eq!(encode_reply(Reply::Group(Err(3))), vec![0, 3, 0, 0, 0, 0, 0, 0, 0]);
    assert_eq!(decode_reply(FN_LEAVE, &[2]), None);
    assert_eq!(decode_reply(FN_HB_ONLINE_CHANGED, &[0]), None);
    assert_eq!(decode_reply(FN_GROUP_LEADER, &[1]), None);
}

#[test]
fn members_come_back_as_they_were_written() {
    let m = member(7, "server1", true);
    let mut out = Vec::new();
    put_member(&mut out, &m);
    assert_eq!(
        out,
        vec![
            7, 0, 0, 0, 0, 0, 0, 0, 7, 0, 0, 0, 0, 0, 0, 0, b's', b'e', b'r', b'v', b'e', b'r',
            b'1', 1
        ]
    );
    assert_eq!(get_member(&out, 0), Some((member(7, "server1", true), out.len())));
    let mut some = Vec::new();
    put_opt_member(&mut some, &Some(member(7, "server1", false)));
    assert_eq!(get_opt_member(&some, 0), Some((Some(member(7, "server1", false)), some.len())));
    let mut none = Vec::new();
    put_opt_member(&mut none, &None);
    assert_eq!(none, vec![0]);
    assert_eq!(get_opt_member(&none, 0), Some((None, 1)));
    let list = vec![member(1, "a", true), member(2, "", false)];
    let mut many = Vec::new();
    put_members(&mut many, &list);
    assert_eq!(get_members(&many, 0), Some((list, many.len())));
    many.pop();
    assert_eq!(get_members(&many, 0), None);
}

#[test]
fn answers_come_back_as_they_were_written() {
    let mut m = Membership::new();
    let mut events = Vec::new();
    let g = m.new_group(String::from("test_group_1")).unwrap();
    let s1 = m.join(String::from("server1"), &mut events).unwrap();
    let s2 = m.join(String::from("server2"), &mut events).unwrap();
    m.join_group(String::from("test_group_1"), s1, &mut events);
    m.join_group(String::from("test_group_1"), s2, &mut events);
    m.hb_online_changed(&vec![], &vec![s2], &mut events);
    let term = m.term();
    assert_eq!(
        decode_answer(FN_GROUP_LEADER, &m.answer(Query::GroupLeader { group: g })),
        Some(Answer::Leader(Some((Some(member(s1, "server1", true)), term))))
    );
    assert_eq!(
        decode_answer(FN_GROUP_LEADER, &m.answer(Query::GroupLeader { group: 1 })),
        Some(Answer::Leader(None))
    );
    assert_eq!(
        decode_answer(
            FN_GROUP_MEMBERS,
            &m.answer(Query::GroupMembers { group: g, online_only: false })
        ),
        Some(Answer::Members(Some((
            vec![member(s1, "server1", true), member(s2, "server2", false)],
            term
        ))))
    );
    assert_eq!(
        decode_answer(
            FN_GROUP_MEMBERS,
            &m.answer(Query::GroupMembers { group: g, online_only: true })
        ),
        Some(Answer::Members(Some((vec![member(s1, "server1", true)], term))))
    );
    assert_eq!(
        decode_answer(FN_GROUP_MEMBERS, &m.answer(Query::GroupMembers { group: 1, online_only: true })),
        Some(Answer::Members(None))
    );
    assert_eq!(
        decode_answer(FN_ALL_MEMBERS, &m.answer(Query::AllMembers { online_only: true })),
        Some(Answer::All(vec![member(s1, "server1", true)], term))
    );
    assert_eq!(m.answer(Query::GroupLeader { group: 1 }), vec![0]);
    assert_eq!(decode_answer(FN_JOIN, &[0]), None);
    assert_eq!(decode_answer(FN_GROUP_LEADER, &[0, 0]), None);
}

#[test]
fn dispatch_reads_applies_and_answers() {
    let mut m = Membership::new();
    let mut events = Vec::new();
    let (fn_id, payload) = encode_command(&Command::Join { address: String::from("server1") });
    let reply = m.fn_dispatch_cmd(fn_id, &payload, &mut events).unwrap();
    assert_eq!(decode_reply(fn_id, &reply), Some(Reply::Id(Some(0x34c9_0d94_9fad_bbb9))));
    assert_eq!(events.len(), 1);
    assert_eq!(m.fn_dispatch_cmd(77, &payload, &mut events), None);
    assert_eq!(m.fn_dispatch_cmd(fn_id, &[1, 2], &mut events), None);
    assert_eq!(events.len(), 1);
    assert_eq!(m.term(), 1);
    let (fn_id, payload) = encode_query(&Query::AllMembers { online_only: false });
    let answer = m.fn_dispatch_qry(fn_id, &payload).unwrap();
    assert_eq!(
        decode_answer(fn_id, &answer),
        Some(Answer::All(vec![member(0x34c9_0d94_9fad_bbb9, "server1", true)], 1))
    );
    assert_eq!(m.fn_dispatch_qry(FN_JOIN, &payload), None);
    assert!(m.can_take(1000));
    assert!(!m.can_take(usize::MAX));
}

#[test]
fn events_are_published_under_the_function_of_their_kind() {
    assert_eq!(topic_fn_id(Topic::Joined, false), FN_ON_ANY_MEMBER_JOINED);
    assert_eq!(topic_fn_id(Topic::Joined, true), FN_ON_GROUP_MEMBER_JOINED);
    assert_eq!(topic_fn_id(Topic::Left, true), FN_ON_GROUP_MEMBER_LEFT);
    assert_eq!(topic_fn_id(Topic::Online, true), FN_ON_GROUP_MEMBER_ONLINE);
    assert_eq!(topic_fn_id(Topic::Offline, false), FN_ON_ANY_MEMBER_OFFLINE);
    let e = Event::Member {
        topic: Topic::Offline,
        group: None,
        member: member(7, "a", false),
        term: 3,
    };
    let n = encode_event(&e);
    assert_eq!(n.fn_id, FN_ON_ANY_MEMBER_OFFLINE);
    assert_eq!(n.key, None);
    assert_eq!(
        n.payload,
        vec![7, 0, 0, 0, 0, 0, 0, 0, 1, 0, 0, 0, 0, 0, 0, 0, b'a', 0, 3, 0, 0, 0, 0, 0, 0, 0]
    );
    let e = Event::LeaderChanged { group: 5, old: None, new: Some(member(7, "a", true)), term: 4 };
    let n = encode_event(&e);
    assert_eq!(n.fn_id, FN_ON_GROUP_LEADER_CHANGED);
    assert_eq!(n.key, Some(5));
}

#[test]
fn notices_come_back_as_the_events_they_tell_of() {
    let events = vec![
        Event::Member { topic: Topic::Joined, group: None, member: member(7, "a", true), term: 1 },
        Event::Member {
            topic: Topic::Left,
            group: Some(5),
            member: member(7, "a", false),
            term: 2,
        },
        Event::LeaderChanged {
            group: 5,
            old: Some(member(7, "a", true)),
            new: None,
            term: u64::MAX,
        },
        Event::LeaderChanged { group: 5, old: None, new: Some(member(8, "b", true)), term: 0 },
    ];
    let mut notices = Vec::new();
    encode_events(&events, &mut notices);
    assert_eq!(notices.len(), 4);
    for (n, e) in notices.iter().zip(events.iter()) {
        assert_eq!(decode_notice(n).as_ref(), Some(e));
    }
    let odd = Notice { fn_id: FN_ON_ANY_MEMBER_JOINED, key: Some(1), payload: notices[0].payload.clone() };
    assert_eq!(decode_notice(&odd), None);
    let unknown = Notice { fn_id: 1, key: None, payload: notices[0].payload.clone() };
    assert_eq!(decode_notice(&unknown), None);
    let keyless = Notice { fn_id: FN_ON_GROUP_LEADER_CHANGED, key: None, payload: notices[2].payload.clone() };
    assert_eq!(decode_notice(&keyless), None);
}
