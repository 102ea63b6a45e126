use bifrost::codec::{put_bytes, put_str, put_u64};
use bifrost::hash::hash_str;
use bifrost::membership::client::{decode_answer, decode_reply, Answer};
use bifrost::membership::command::{encode_command, encode_query, Command, Query, Reply};
use bifrost::membership::state::Membership;
use bifrost::membership::types::Member;
use bifrost::membership::wire::{Notice, FN_ON_ANY_MEMBER_JOINED};
use bifrost::raft::configs::{
    Configures, CONFIG_SM_ID, FN_DEL_MEMBER, FN_MEMBER_ADDRESS, FN_NEW_MEMBER,
};
use bifrost::raft::master::{
    parse_output, ExecError, LogEntry, MasterStateMachine, RegisterResult,
};
use bifrost::raft::snapshot::get_items;
use bifrost::membership::DEFAULT_SERVICE_ID;
use bifrost::raft::sub::SubStateMachine;

fn command(index: u64, sm_id: u64, c: &Command) -> LogEntry {
    let (fn_id, data) = encode_command(c);
    LogEntry { index, term: 1, sm_id, fn_id, data }
}

fn query(sm_id: u64, q: &Query) -> LogEntry {
    let (fn_id, data) = encode_query(q);
    LogEntry { index: 0, term: 0, sm_id, fn_id, data }
}

fn address(s: &str) -> Vec<u8> {
    let mut out = Vec::new();
    put_str(&mut out, s);
    out
}

fn all_members(master: &MasterStateMachine, sm_id: u64) -> (Vec<Member>, u64) {
    let q = query(sm_id, &Query::AllMembers { online_only: false });
    match decode_answer(q.fn_id, &master.exec_qry(&q).unwrap()) {
        Some(Answer::All(members, term)) => (members, term),
        other => panic!("{:?}", other),
    }
}

#[test]
fn parse_output_keeps_the_output_or_says_fn_not_found() {
    assert_eq!(parse_output(Some(vec![1, 2])), Ok(vec![1, 2]));
    assert_eq!(parse_output(Some(Vec::new())), Ok(Vec::new()));
    assert_eq!(parse_output(None), Err(ExecError::FnNotFound));
}

#[test]
fn a_new_master_holds_nothing() {
    let master = MasterStateMachine::new(7);
    assert_eq!(master.id(), 0);
    assert!(master.members().is_empty());
    assert!(!master.has_sub(&DEFAULT_SERVICE_ID));
    assert_eq!(master.configs.service_id(), 7);
    assert_eq!(master.configs.id(), CONFIG_SM_ID);
}

#[test]
fn register_rejects_reserved_ids() {
    let mut master = MasterStateMachine::new(7);
    assert_eq!(master.register(SubStateMachine::membership_under(0)), RegisterResult::RESERVED);
    assert_eq!(master.register(SubStateMachine::membership_under(1)), RegisterResult::RESERVED);
    assert!(!master.has_sub(&0));
    assert!(!master.has_sub(&1));
}

#[test]
fn register_once_then_existed() {
    let mut master = MasterStateMachine::new(7);
    assert_eq!(master.register(SubStateMachine::membership_under(2)), RegisterResult::OK);
    assert!(master.has_sub(&2));
    assert_eq!(master.register(SubStateMachine::membership_under(2)), RegisterResult::EXISTED);
    assert_eq!(master.register(SubStateMachine::membership()), RegisterResult::OK);
    assert!(master.has_sub(&DEFAULT_SERVICE_ID));
    master.clear_subs();
    assert!(!master.has_sub(&2));
    assert!(!master.has_sub(&DEFAULT_SERVICE_ID));
    assert_eq!(master.register(SubStateMachine::membership_under(2)), RegisterResult::OK);
}

#[test]
fn unknown_state_machine_is_not_found() {
    let mut master = MasterStateMachine::new(7);
    let entry = LogEntry { index: 1, term: 1, sm_id: 9, fn_id: 1, data: Vec::new() };
    let mut notices = Vec::new();
    assert_eq!(master.commit_cmd(&entry, &mut notices), Err(ExecError::SmNotFound));
    assert_eq!(master.exec_qry(&entry), Err(ExecError::SmNotFound));
    let reserved = LogEntry { index: 1, term: 1, sm_id: 1, fn_id: 1, data: Vec::new() };
    assert_eq!(master.commit_cmd(&reserved, &mut notices), Err(ExecError::SmNotFound));
    assert!(notices.is_empty());
}

#[test]
fn unknown_function_is_not_found() {
    let mut master = MasterStateMachine::new(7);
    master.register(SubStateMachine::membership());
    let mut notices = Vec::new();
    let entry = LogEntry { index: 1, term: 1, sm_id: DEFAULT_SERVICE_ID, fn_id: 1, data: Vec::new() };
    assert_eq!(master.commit_cmd(&entry, &mut notices), Err(ExecError::FnNotFound));
    assert_eq!(master.exec_qry(&entry), Err(ExecError::FnNotFound));
    let config = LogEntry { index: 1, term: 1, sm_id: CONFIG_SM_ID, fn_id: 1, data: Vec::new() };
    assert_eq!(master.commit_cmd(&config, &mut notices), Err(ExecError::FnNotFound));
    assert_eq!(master.exec_qry(&config), Err(ExecError::FnNotFound));
    let mut join = command(2, DEFAULT_SERVICE_ID, &Command::Join { address: String::from("a") });
    join.data.push(0);
    assert_eq!(master.commit_cmd(&join, &mut notices), Err(ExecError::FnNotFound));
    assert!(notices.is_empty());
    assert_eq!(all_members(&master, DEFAULT_SERVICE_ID), (Vec::new(), 0));
}

#[test]
fn commands_reach_the_state_machine_they_name() {
    let mut master = MasterStateMachine::new(7);
    master.register(SubStateMachine::membership_under(2));
    master.register(SubStateMachine::membership_under(3));
    let mut notices = Vec::new();
    let join = command(1, 2, &Command::Join { address: String::from("server1") });
    let reply = master.commit_cmd(&join, &mut notices).unwrap();
    assert_eq!(decode_reply(join.fn_id, &reply), Some(Reply::Id(Some(hash_str("server1")))));
    assert_eq!(notices.len(), 1);
    assert_eq!(notices[0].fn_id, FN_ON_ANY_MEMBER_JOINED);
    assert_eq!(notices[0].key, None);
    assert_eq!(all_members(&master, 2).0.len(), 1);
    assert_eq!(all_members(&master, 3).0.len(), 0);
    assert_eq!(all_members(&master, 2).1, 1);
}

#[test]
fn the_configuration_takes_the_entries_under_its_id() {
    let mut master = MasterStateMachine::new(7);
    let mut notices: Vec<Notice> = Vec::new();
    let add = |a: &str| LogEntry { index: 1, term: 1, sm_id: CONFIG_SM_ID, fn_id: FN_NEW_MEMBER, data: address(a) };
    assert_eq!(master.commit_cmd(&add("127.0.0.1:2001"), &mut notices), Ok(vec![1]));
    assert_eq!(master.commit_cmd(&add("127.0.0.1:2002"), &mut notices), Ok(vec![1]));
    assert_eq!(master.commit_cmd(&add("127.0.0.1:2001"), &mut notices), Ok(vec![0]));
    assert_eq!(master.members().len(), 2);
    let id = hash_str("127.0.0.1:2002");
    assert_eq!(master.members().get(&id).unwrap().address, "127.0.0.1:2002");
    assert_eq!(master.members().get(&id).unwrap().id, id);
    let ask = LogEntry { index: 0, term: 0, sm_id: CONFIG_SM_ID, fn_id: FN_MEMBER_ADDRESS, data: Vec::new() };
    let mut expected = Vec::new();
    put_u64(&mut expected, 2);
    put_str(&mut expected, "127.0.0.1:2001");
    put_str(&mut expected, "127.0.0.1:2002");
    assert_eq!(master.exec_qry(&ask), Ok(expected));
    let del = LogEntry { index: 2, term: 1, sm_id: CONFIG_SM_ID, fn_id: FN_DEL_MEMBER, data: address("127.0.0.1:2001") };
    assert_eq!(master.commit_cmd(&del, &mut notices), Ok(Vec::new()));
    assert_eq!(master.commit_cmd(&del, &mut notices), Ok(Vec::new()));
    assert_eq!(master.members().len(), 1);
    assert_eq!(master.configs.member_address(), vec![String::from("127.0.0.1:2002")]);
    assert!(notices.is_empty());
}

#[test]
fn configuration_on_its_own() {
    let mut c = Configures::new(7);
    assert!(c.new_member(String::from("a")));
    assert!(c.new_member(String::from("b")));
    assert!(!c.new_member(String::from("a")));
    c.del_member("c");
    assert_eq!(c.member_address(), vec![String::from("a"), String::from("b")]);
    let snapshot = c.snapshot().unwrap();
    let mut d = Configures::new(8);
    d.new_member(String::from("z"));
    assert!(d.recover(&snapshot));
    assert_eq!(d.member_address(), vec![String::from("a"), String::from("b")]);
    assert_eq!(d.service_id(), 8);
    assert!(!d.recover(&[1, 2, 3]));
    assert_eq!(d.member_address(), vec![String::from("a"), String::from("b")]);
    let mut twice = Vec::new();
    put_u64(&mut twice, 2);
    put_str(&mut twice, "a");
    put_str(&mut twice, "a");
    assert!(!d.recover(&twice));
    assert_eq!(d.fn_dispatch_qry(FN_MEMBER_ADDRESS, &[]), Some(snapshot));
    assert_eq!(d.fn_dispatch_qry(FN_MEMBER_ADDRESS, &[0]), None);
    assert_eq!(d.fn_dispatch_cmd(FN_MEMBER_ADDRESS, &[]), None);
}

#[test]
fn a_command_too_large_for_the_clock_is_refused() {
    let mut state = Membership::new();
    let mut events = Vec::new();
    state.join(String::from("server1"), &mut events);
    let mut blob = state.snapshot();
    for b in blob.iter_mut().take(8) {
        *b = 0xff;
    }
    let mut late = SubStateMachine::membership_under(2);
    assert!(late.recover(&blob));
    assert!(!late.can_take(0));
    let mut master = MasterStateMachine::new(7);
    master.register(late);
    let mut notices = Vec::new();
    let join = command(1, 2, &Command::Join { address: String::from("server2") });
    assert_eq!(master.commit_cmd(&join, &mut notices), Err(ExecError::Unknown));
    assert!(notices.is_empty());
    assert_eq!(all_members(&master, 2).0.len(), 1);
    assert_eq!(all_members(&master, 2).1, u64::MAX);
}

#[test]
fn the_snapshot_lists_every_state_machine_and_the_configuration() {
    let mut master = MasterStateMachine::new(7);
    master.register(SubStateMachine::membership_under(5));
    master.register(SubStateMachine::membership_under(3));
    let mut notices = Vec::new();
    master.commit_cmd(&command(1, 3, &Command::Join { address: String::from("server1") }), &mut notices).unwrap();
    master.configs.new_member(String::from("127.0.0.1:2001"));
    let blob = master.snapshot().unwrap();
    let items = get_items(&blob).unwrap();
    assert_eq!(items.len(), 3);
    assert_eq!(items[0].0, 5);
    assert_eq!(items[1].0, 3);
    assert_eq!(items[2].0, CONFIG_SM_ID);
    assert_eq!(items[0].1, Membership::new().snapshot());
    assert_eq!(items[2].1, master.configs.snapshot().unwrap());
    let mut by_hand = Vec::new();
    put_u64(&mut by_hand, 3);
    for (id, part) in &items {
        put_u64(&mut by_hand, *id);
        put_bytes(&mut by_hand, part);
    }
    assert_eq!(blob, by_hand);
}

#[test]
fn recover_hands_each_part_to_its_state_machine_or_holds_it_back() {
    let mut origin = MasterStateMachine::new(7);
    origin.register(SubStateMachine::membership_under(2));
    origin.register(SubStateMachine::membership_under(3));
    let mut notices = Vec::new();
    origin.commit_cmd(&command(1, 2, &Command::Join { address: String::from("server1") }), &mut notices).unwrap();
    origin.commit_cmd(&command(2, 3, &Command::Join { address: String::from("server2") }), &mut notices).unwrap();
    origin.commit_cmd(&command(3, 3, &Command::Join { address: String::from("server3") }), &mut notices).unwrap();
    origin.configs.new_member(String::from("127.0.0.1:2001"));
    let blob = origin.snapshot().unwrap();

    let mut fresh = MasterStateMachine::new(7);
    fresh.register(SubStateMachine::membership_under(2));
    assert!(fresh.recover(&blob));
    assert_eq!(fresh.members().len(), 1);
    let (members, term) = all_members(&fresh, 2);
    assert_eq!(term, 1);
    assert_eq!(members, vec![Member { id: hash_str("server1"), address: String::from("server1"), online: false }]);
    assert!(!fresh.has_sub(&3));
    assert_eq!(fresh.register(SubStateMachine::membership_under(3)), RegisterResult::OK);
    let (members, term) = all_members(&fresh, 3);
    assert_eq!(term, 2);
    assert_eq!(members.len(), 2);
    fresh.clear_subs();
    assert_eq!(fresh.register(SubStateMachine::membership_under(3)), RegisterResult::OK);
    assert_eq!(all_members(&fresh, 3), (Vec::new(), 0));
}

#[test]
fn bytes_that_are_no_snapshot_change_nothing() {
    let mut master = MasterStateMachine::new(7);
    master.register(SubStateMachine::membership_under(2));
    let mut notices = Vec::new();
    master.commit_cmd(&command(1, 2, &Command::Join { address: String::from("server1") }), &mut notices).unwrap();
    let before = master.snapshot().unwrap();
    assert!(!master.recover(&[1, 2, 3]));
    assert!(!master.recover(&[]));
    let mut longer = before.clone();
    longer.push(0);
    assert!(!master.recover(&longer));
    assert_eq!(master.snapshot().unwrap(), before);
    let mut odd = Vec::new();
    put_u64(&mut odd, 1);
    put_u64(&mut odd, 2);
    put_bytes(&mut odd, &[9, 9, 9]);
    assert!(master.recover(&odd));
    assert_eq!(all_members(&master, 2).0.len(), 1);
}

#[test]
fn a_stretch_of_the_log_is_committed_in_order() {
    let log = vec![
        command(1, 2, &Command::NewGroup { name: String::from("test_group_1") }),
        command(2, 2, &Command::Join { address: String::from("server1") }),
        command(3, 9, &Command::Join { address: String::from("server1") }),
        command(4, 2, &Command::JoinGroup { name: String::from("test_group_1"), id: hash_str("server1") }),
        LogEntry { index: 5, term: 1, sm_id: 2, fn_id: 1, data: Vec::new() },
        command(6, 2, &Command::Leave { id: hash_str("server1") }),
    ];
    let mut at_once = MasterStateMachine::new(7);
    at_once.register(SubStateMachine::membership_under(2));
    let mut notices = Vec::new();
    let outcomes = at_once.commit_all(&log, &mut notices);
    assert_eq!(outcomes.len(), 6);
    assert_eq!(decode_reply(log[0].fn_id, outcomes[0].as_ref().unwrap()), Some(Reply::Group(Ok(hash_str("test_group_1")))));
    assert_eq!(decode_reply(log[1].fn_id, outcomes[1].as_ref().unwrap()), Some(Reply::Id(Some(hash_str("server1")))));
    assert_eq!(outcomes[2], Err(ExecError::SmNotFound));
    assert_eq!(decode_reply(log[3].fn_id, outcomes[3].as_ref().unwrap()), Some(Reply::Flag(true)));
    assert_eq!(outcomes[4], Err(ExecError::FnNotFound));
    assert_eq!(decode_reply(log[5].fn_id, outcomes[5].as_ref().unwrap()), Some(Reply::Flag(true)));

    let mut one_by_one = MasterStateMachine::new(7);
    one_by_one.register(SubStateMachine::membership_under(2));
    let mut told = Vec::new();
    for (entry, outcome) in log.iter().zip(outcomes.iter()) {
        assert_eq!(&one_by_one.commit_cmd(entry, &mut told), outcome);
    }
    assert_eq!(told, notices);
    assert_eq!(one_by_one.snapshot(), at_once.snapshot());
    assert_eq!(notices.len(), 6);
    assert_eq!(at_once.commit_all(&Vec::new(), &mut notices), Vec::new());
    assert_eq!(notices.len(), 6);
}
