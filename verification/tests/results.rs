use bifrost::heartbeat::HeartbeatTracker;
use bifrost::membership::command::Command;
use bifrost::membership::state::{
    elect_leader, group_index, id_index, lookup, lookup_leader, member_index, member_online,
    Membership,
};
use bifrost::membership::types::{Group, Member};
use bifrost::raft::master::ExecError;
use bifrost::raft::wire::{code_of, decode_result, encode_result, error_from_code};

fn member(id: u64, online: bool) -> Member {
    Member { id, address: format!("m{}", id), online }
}

#[test]
fn errors_have_fixed_wire_values() {
    let all = [
        (ExecError::SmNotFound, 0u8),
        (ExecError::FnNotFound, 1),
        (ExecError::ServersUnreachable, 2),
        (ExecError::CannotConstructClient, 3),
        (ExecError::NotCommitted, 4),
        (ExecError::Unknown, 5),
        (ExecError::TooManyRetry, 6),
    ];
    for (e, code) in all {
        assert_eq!(code_of(e), code);
        assert_eq!(error_from_code(code), Some(e));
    }
    assert_eq!(error_from_code(7), None);
    assert_eq!(error_from_code(255), None);
}

#[test]
fn outcomes_come_back_as_they_were_written() {
    assert_eq!(encode_result(&Ok(vec![9, 8])), vec![1, 2, 0, 0, 0, 0, 0, 0, 0, 9, 8]);
    assert_eq!(encode_result(&Err(ExecError::NotCommitted)), vec![0, 4]);
    for r in [Ok(Vec::new()), Ok(vec![1, 2, 3]), Err(ExecError::SmNotFound), Err(ExecError::TooManyRetry)] {
        assert_eq!(decode_result(&encode_result(&r)), Some(r));
    }
    assert_eq!(decode_result(&[]), None);
    assert_eq!(decode_result(&[0]), None);
    assert_eq!(decode_result(&[0, 7]), None);
    assert_eq!(decode_result(&[0, 1, 0]), None);
    assert_eq!(decode_result(&[2, 1]), None);
    assert_eq!(decode_result(&[1, 1, 0, 0, 0, 0, 0, 0, 0]), None);
    assert_eq!(decode_result(&[1, 0, 0, 0, 0, 0, 0, 0, 0, 5]), None);
}

#[test]
fn followers_do_not_reap() {
    let mut t = HeartbeatTracker::new(5000);
    t.ping(1, 0);
    let members = vec![member(1, true)];
    assert_eq!(t.propose(false, &members, 9000), None);
    assert_eq!(
        t.propose(true, &members, 9000),
        Some(Command::HbOnlineChanged { online: vec![], offline: vec![1] })
    );
    assert_eq!(t.propose(true, &members, 1000), None);
}

#[test]
fn groups_of_a_member_are_listed_in_the_order_of_the_groups() {
    let mut m = Membership::new();
    let mut events = Vec::new();
    let g1 = m.new_group(String::from("test_group_1")).unwrap();
    let g2 = m.new_group(String::from("test_group_2")).unwrap();
    let g3 = m.new_group(String::from("test_group_3")).unwrap();
    let s1 = m.join(String::from("server1"), &mut events).unwrap();
    let s2 = m.join(String::from("server2"), &mut events).unwrap();
    m.join_group(String::from("test_group_3"), s1, &mut events);
    m.join_group(String::from("test_group_1"), s1, &mut events);
    m.join_group(String::from("test_group_2"), s2, &mut events);
    assert_eq!(m.groups_of(s1), vec![g1, g3]);
    assert_eq!(m.groups_of(s2), vec![g2]);
    assert_eq!(m.groups_of(77), Vec::<u64>::new());
    m.leave(s1, &mut events);
    assert_eq!(m.groups_of(s1), Vec::<u64>::new());
}

#[test]
fn lookups_find_by_id() {
    let members = vec![member(5, true), member(3, false), member(9, true)];
    assert_eq!(member_index(&members, 3), Some(1));
    assert_eq!(member_index(&members, 4), None);
    assert!(member_online(&members, 5));
    assert!(!member_online(&members, 3));
    assert!(!member_online(&members, 4));
    assert_eq!(lookup(&members, 9), Some(member(9, true)));
    assert_eq!(lookup(&members, 4), None);
    assert_eq!(lookup_leader(&members, Some(3)), Some(member(3, false)));
    assert_eq!(lookup_leader(&members, None), None);
    assert_eq!(id_index(&vec![4, 5, 6], 6), Some(2));
    assert_eq!(id_index(&vec![4, 5, 6], 7), None);
    let groups = vec![Group { id: 8, name: String::new(), members: vec![], leader: None, term: 0 }];
    assert_eq!(group_index(&groups, 8), Some(0));
    assert_eq!(group_index(&groups, 9), None);
}

#[test]
fn the_elected_is_the_online_member_of_least_rank() {
    let members = vec![member(0b1000, true), member(0b0100, true), member(0b0010, false), member(0b0001, true)];
    let ids = vec![0b1000, 0b0100, 0b0010];
    // Under group 0 the rank is the id itself; the least, 0b0010, is offline,
    // and 0b0001 is no candidate.
    assert_eq!(elect_leader(&members, &ids, 0), Some(0b0100));
    // Under group 0b1100 the ranks are 0b0100, 0b1000 and 0b1110.
    assert_eq!(elect_leader(&members, &ids, 0b1100), Some(0b1000));
    let reversed = vec![0b0010, 0b0100, 0b1000];
    assert_eq!(elect_leader(&members, &reversed, 0), Some(0b0100));
    assert_eq!(elect_leader(&members, &reversed, 0b1100), Some(0b1000));
    assert_eq!(elect_leader(&members, &vec![0b0010], 0), None);
    assert_eq!(elect_leader(&members, &vec![], 0), None);
    assert_eq!(elect_leader(&members, &vec![77], 0), None);
}
