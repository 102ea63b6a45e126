use bifrost::hash::hash_str;
use bifrost::membership::command::{Command, Reply};
use bifrost::membership::model::Topic;
use bifrost::membership::state::Membership;
use bifrost::membership::types::{Event, Member};

const S1: u64 = 0x34c9_0d94_9fad_bbb9;
const S2: u64 = 0x34c9_0a94_9fad_b6a0;
const S3: u64 = 0x34c9_0b94_9fad_b853;
const G1: u64 = 0x5854_a4d7_3a54_9b31;
const G2: u64 = 0x5854_a1d7_3a54_9618;
const G3: u64 = 0x5854_a2d7_3a54_97cb;

fn member(id: u64, address: &str, online: bool) -> Member {
    Member { id, address: String::from(address), online }
}

fn count_member_events(events: &Vec<Event>, what: Topic, within: Option<u64>) -> usize {
    let mut n = 0;
    for e in events {
        if let Event::Member { topic, group, .. } = e {
            if *topic == what && *group == within {
                n += 1;
            }
        }
    }
    n
}

fn count_leader_events(events: &Vec<Event>, within: u64) -> usize {
    let mut n = 0;
    for e in events {
        if let Event::LeaderChanged { group, .. } = e {
            if *group == within {
                n += 1;
            }
        }
    }
    n
}

/// Three groups; three members; all of them in the first group, the first
/// two in the second, the first in the third.
fn three_members_three_groups(events: &mut Vec<Event>) -> Membership {
    let mut m = Membership::new();
    assert_eq!(m.new_group(String::from("test_group_1")), Ok(G1));
    assert_eq!(m.new_group(String::from("test_group_2")), Ok(G2));
    assert_eq!(m.new_group(String::from("test_group_3")), Ok(G3));
    assert_eq!(m.join(String::from("server1"), events), Some(S1));
    assert_eq!(m.join(String::from("server2"), events), Some(S2));
    assert_eq!(m.join(String::from("server3"), events), Some(S3));
    assert!(m.join_group(String::from("test_group_1"), S1, events));
    assert!(m.join_group(String::from("test_group_1"), S2, events));
    assert!(m.join_group(String::from("test_group_1"), S3, events));
    assert!(m.join_group(String::from("test_group_2"), S1, events));
    assert!(m.join_group(String::from("test_group_2"), S2, events));
    assert!(m.join_group(String::from("test_group_3"), S1, events));
    m
}

#[test]
fn ids_are_hashes() {
    assert_eq!(hash_str("server1"), S1);
    assert_eq!(hash_str("server2"), S2);
    assert_eq!(hash_str("server3"), S3);
    assert_eq!(hash_str("test_group_1"), G1);
    assert_eq!(hash_str("test_group_2"), G2);
    assert_eq!(hash_str("test_group_3"), G3);
}

#[test]
fn scenario_three_members_three_groups() {
    let mut events = Vec::new();
    let m = three_members_three_groups(&mut events);
    assert_eq!(m.all_members(false).0.len(), 3);
    assert_eq!(m.all_members(true).0.len(), 3);
    assert_eq!(m.group_members(G1, false).unwrap().0.len(), 3);
    assert_eq!(m.group_members(G1, true).unwrap().0.len(), 3);
    assert_eq!(m.group_members(G2, false).unwrap().0.len(), 2);
    assert_eq!(m.group_members(G2, true).unwrap().0.len(), 2);
    assert_eq!(m.group_members(G3, false).unwrap().0.len(), 1);
    assert_eq!(m.group_members(G3, true).unwrap().0.len(), 1);
    assert_eq!(count_member_events(&events, Topic::Joined, None), 3);
    assert_eq!(count_member_events(&events, Topic::Joined, Some(G1)), 3);
    assert_eq!(count_member_events(&events, Topic::Joined, Some(G2)), 2);
    assert_eq!(count_member_events(&events, Topic::Joined, Some(G3)), 1);
}

#[test]
fn scenario_heartbeat_timeout() {
    let mut events = Vec::new();
    let mut m = three_members_three_groups(&mut events);
    events.clear();
    m.hb_online_changed(&Vec::new(), &vec![S1], &mut events);
    assert_eq!(m.all_members(false).0.len(), 3);
    assert_eq!(m.all_members(true).0.len(), 2);
    assert_eq!(m.group_members(G1, false).unwrap().0.len(), 3);
    assert_eq!(m.group_members(G1, true).unwrap().0.len(), 2);
    assert_eq!(m.group_members(G2, false).unwrap().0.len(), 2);
    assert_eq!(m.group_members(G2, true).unwrap().0.len(), 1);
    assert_eq!(m.group_members(G3, false).unwrap().0.len(), 1);
    assert_eq!(m.group_members(G3, true).unwrap().0.len(), 0);
    assert_eq!(count_member_events(&events, Topic::Offline, None), 1);
    assert_eq!(count_member_events(&events, Topic::Offline, Some(G1)), 1);
    assert_eq!(count_member_events(&events, Topic::Online, None), 0);
    assert_eq!(m.group_leader(G3).unwrap().0, None);
}

#[test]
fn scenario_explicit_leave() {
    let mut events = Vec::new();
    let mut m = three_members_three_groups(&mut events);
    m.hb_online_changed(&Vec::new(), &vec![S1], &mut events);
    events.clear();
    assert!(m.leave(S2, &mut events));
    assert_eq!(m.all_members(false).0.len(), 2);
    assert_eq!(m.all_members(true).0.len(), 1);
    assert_eq!(m.group_members(G1, false).unwrap().0.len(), 2);
    assert_eq!(m.group_members(G1, true).unwrap().0.len(), 1);
    assert_eq!(m.group_members(G2, false).unwrap().0.len(), 1);
    assert_eq!(m.group_members(G2, true).unwrap().0.len(), 0);
    assert_eq!(m.group_members(G3, false).unwrap().0.len(), 1);
    assert_eq!(m.group_members(G3, true).unwrap().0.len(), 0);
    assert_eq!(count_member_events(&events, Topic::Left, None), 1);
    assert_eq!(count_member_events(&events, Topic::Left, Some(G1)), 1);
    assert_eq!(count_member_events(&events, Topic::Left, Some(G2)), 1);
    assert_eq!(count_member_events(&events, Topic::Left, Some(G3)), 0);
}

#[test]
fn join_emits_the_member_with_the_new_term() {
    let mut m = Membership::new();
    let mut events = Vec::new();
    assert_eq!(m.term(), 0);
    assert_eq!(m.join(String::from("server1"), &mut events), Some(S1));
    assert_eq!(m.term(), 1);
    assert_eq!(
        events,
        vec![Event::Member {
            topic: Topic::Joined,
            group: None,
            member: member(S1, "server1", true),
            term: 1
        }]
    );
}

#[test]
fn join_twice_is_one_member_and_one_event() {
    let mut m = Membership::new();
    let mut events = Vec::new();
    assert_eq!(m.join(String::from("server1"), &mut events), Some(S1));
    assert_eq!(m.join(String::from("server1"), &mut events), Some(S1));
    assert_eq!(m.all_members(false).0, vec![member(S1, "server1", true)]);
    assert_eq!(count_member_events(&events, Topic::Joined, None), 1);
    assert_eq!(events.len(), 1);
    assert_eq!(m.term(), 1);
}

#[test]
fn new_group_twice_is_an_error_with_the_id() {
    let mut m = Membership::new();
    assert_eq!(m.new_group(String::from("test_group_1")), Ok(G1));
    assert_eq!(m.term(), 1);
    assert_eq!(m.new_group(String::from("test_group_1")), Err(G1));
    assert_eq!(m.term(), 1);
    assert_eq!(m.group_members(G1, false), Some((Vec::new(), 1)));
    assert_eq!(m.group_leader(G1), Some((None, 1)));
}

#[test]
fn join_group_refuses_what_is_missing_or_there() {
    let mut m = Membership::new();
    let mut events = Vec::new();
    m.join(String::from("server1"), &mut events);
    events.clear();
    assert!(!m.join_group(String::from("test_group_1"), S1, &mut events));
    m.new_group(String::from("test_group_1")).unwrap();
    assert!(!m.join_group(String::from("test_group_1"), S2, &mut events));
    assert!(events.is_empty());
    let term = m.term();
    assert!(m.join_group(String::from("test_group_1"), S1, &mut events));
    assert_eq!(m.term(), term + 1);
    assert!(!m.join_group(String::from("test_group_1"), S1, &mut events));
    assert_eq!(m.term(), term + 1);
    assert_eq!(m.group_members(G1, false).unwrap().0, vec![member(S1, "server1", true)]);
}

#[test]
fn first_member_of_a_group_becomes_its_leader() {
    let mut m = Membership::new();
    let mut events = Vec::new();
    m.new_group(String::from("test_group_1")).unwrap();
    m.join(String::from("server2"), &mut events);
    events.clear();
    assert!(m.join_group(String::from("test_group_1"), S2, &mut events));
    assert_eq!(
        events,
        vec![
            Event::Member {
                topic: Topic::Joined,
                group: Some(G1),
                member: member(S2, "server2", true),
                term: 3
            },
            Event::LeaderChanged {
                group: G1,
                old: None,
                new: Some(member(S2, "server2", true)),
                term: 3
            },
        ]
    );
    assert_eq!(m.group_leader(G1), Some((Some(member(S2, "server2", true)), 3)));
}

#[test]
fn leader_is_the_online_member_of_least_rank() {
    let mut events = Vec::new();
    let m = three_members_three_groups(&mut events);
    // By rank within each group: the first group prefers server1; the second
    // server3, then server2, then server1; the third server2.
    assert_eq!(m.group_leader(G1).unwrap().0.unwrap().id, S1);
    assert_eq!(m.group_leader(G2).unwrap().0.unwrap().id, S2);
    assert_eq!(m.group_leader(G3).unwrap().0.unwrap().id, S1);
    assert!((S2 ^ G2) < (S1 ^ G2));
    assert!((S3 ^ G2) < (S2 ^ G2));
}

#[test]
fn a_better_ranked_member_takes_over_when_it_joins() {
    let mut events = Vec::new();
    let mut m = three_members_three_groups(&mut events);
    events.clear();
    assert!(m.join_group(String::from("test_group_2"), S3, &mut events));
    let term = m.term();
    assert_eq!(
        events,
        vec![
            Event::Member {
                topic: Topic::Joined,
                group: Some(G2),
                member: member(S3, "server3", true),
                term
            },
            Event::LeaderChanged {
                group: G2,
                old: Some(member(S2, "server2", true)),
                new: Some(member(S3, "server3", true)),
                term
            },
        ]
    );
}

#[test]
fn leader_changes_are_told_once_each_with_rising_terms() {
    let mut events = Vec::new();
    let mut m = three_members_three_groups(&mut events);
    m.hb_online_changed(&Vec::new(), &vec![S1], &mut events);
    m.leave(S2, &mut events);
    let mut last: Option<u64> = None;
    let mut last_term = 0;
    let mut seen = 0;
    for e in &events {
        if let Event::LeaderChanged { group, old, new, term } = e {
            if *group == G1 {
                let old_id = old.as_ref().map(|m| m.id);
                let new_id = new.as_ref().map(|m| m.id);
                assert_eq!(old_id, last);
                assert_ne!(old_id, new_id);
                assert!(*term > last_term);
                last = new_id;
                last_term = *term;
                seen += 1;
            }
        }
    }
    assert_eq!(seen, 3);
    assert_eq!(last, Some(S3));
    assert_eq!(m.group_leader(G1).unwrap().0.unwrap().id, S3);
    assert_eq!(count_leader_events(&events, G1), 3);
}

#[test]
fn offline_member_hands_over_its_groups() {
    let mut events = Vec::new();
    let mut m = three_members_three_groups(&mut events);
    events.clear();
    let term = m.term() + 1;
    m.hb_online_changed(&Vec::new(), &vec![S1], &mut events);
    let gone = member(S1, "server1", false);
    assert_eq!(
        events,
        vec![
            Event::Member { topic: Topic::Offline, group: None, member: gone.clone(), term },
            Event::Member { topic: Topic::Offline, group: Some(G1), member: gone.clone(), term },
            Event::LeaderChanged {
                group: G1,
                old: Some(gone.clone()),
                new: Some(member(S2, "server2", true)),
                term
            },
            Event::Member { topic: Topic::Offline, group: Some(G2), member: gone.clone(), term },
            Event::Member { topic: Topic::Offline, group: Some(G3), member: gone.clone(), term },
            Event::LeaderChanged { group: G3, old: Some(gone.clone()), new: None, term },
        ]
    );
    assert_eq!(m.term(), term);
    assert_eq!(m.group_leader(G1).unwrap().1, term);
    assert_eq!(m.group_leader(G2).unwrap().1, term);
}

#[test]
fn coming_back_online_is_told_and_elects() {
    let mut events = Vec::new();
    let mut m = three_members_three_groups(&mut events);
    m.hb_online_changed(&Vec::new(), &vec![S1], &mut events);
    events.clear();
    m.hb_online_changed(&vec![S1], &Vec::new(), &mut events);
    assert_eq!(count_member_events(&events, Topic::Online, None), 1);
    assert_eq!(count_member_events(&events, Topic::Online, Some(G1)), 1);
    assert_eq!(m.group_leader(G1).unwrap().0.unwrap().id, S1);
    assert_eq!(m.group_leader(G3).unwrap().0.unwrap().id, S1);
    assert_eq!(m.all_members(true).0.len(), 3);
}

#[test]
fn telling_what_is_known_changes_nothing() {
    let mut events = Vec::new();
    let mut m = three_members_three_groups(&mut events);
    m.hb_online_changed(&Vec::new(), &vec![S1], &mut events);
    let term = m.term();
    events.clear();
    m.hb_online_changed(&Vec::new(), &vec![S1], &mut events);
    m.hb_online_changed(&vec![S2, S3], &Vec::new(), &mut events);
    assert!(events.is_empty());
    assert_eq!(m.term(), term);
}

#[test]
fn unknown_ids_are_passed_over() {
    let mut events = Vec::new();
    let mut m = three_members_three_groups(&mut events);
    let term = m.term();
    events.clear();
    m.hb_online_changed(&vec![42], &vec![43], &mut events);
    assert!(events.is_empty());
    assert_eq!(m.term(), term);
    assert!(!m.set_online(42, false, &mut events));
    assert!(!m.leave(42, &mut events));
    assert!(!m.leave_group(G1, 42, &mut events));
    assert!(!m.leave_group(42, S1, &mut events));
    assert!(!m.del_group(42, &mut events));
    assert!(events.is_empty());
    assert_eq!(m.group_leader(42), None);
    assert_eq!(m.group_members(42, false), None);
}

#[test]
fn leave_group_removes_and_elects() {
    let mut events = Vec::new();
    let mut m = three_members_three_groups(&mut events);
    events.clear();
    assert!(m.leave_group(G1, S1, &mut events));
    let term = m.term();
    assert_eq!(
        events,
        vec![
            Event::Member {
                topic: Topic::Left,
                group: Some(G1),
                member: member(S1, "server1", true),
                term
            },
            Event::LeaderChanged {
                group: G1,
                old: Some(member(S1, "server1", true)),
                new: Some(member(S2, "server2", true)),
                term
            },
        ]
    );
    assert!(!m.leave_group(G1, S1, &mut events));
    assert_eq!(
        m.group_members(G1, false).unwrap().0,
        vec![member(S2, "server2", true), member(S3, "server3", true)]
    );
    assert_eq!(m.all_members(false).0.len(), 3);
}

#[test]
fn del_group_tells_of_every_member() {
    let mut events = Vec::new();
    let mut m = three_members_three_groups(&mut events);
    events.clear();
    assert!(m.del_group(G2, &mut events));
    let term = m.term();
    assert_eq!(
        events,
        vec![
            Event::Member {
                topic: Topic::Left,
                group: Some(G2),
                member: member(S1, "server1", true),
                term
            },
            Event::Member {
                topic: Topic::Left,
                group: Some(G2),
                member: member(S2, "server2", true),
                term
            },
        ]
    );
    assert_eq!(m.group_members(G2, false), None);
    assert!(!m.del_group(G2, &mut events));
    assert_eq!(m.group_members(G1, false).unwrap().0.len(), 3);
}

#[test]
fn leave_removes_the_member_from_every_group() {
    let mut events = Vec::new();
    let mut m = three_members_three_groups(&mut events);
    events.clear();
    assert!(m.leave(S1, &mut events));
    assert_eq!(count_member_events(&events, Topic::Left, None), 1);
    assert_eq!(count_member_events(&events, Topic::Left, Some(G1)), 1);
    assert_eq!(count_member_events(&events, Topic::Left, Some(G2)), 1);
    assert_eq!(count_member_events(&events, Topic::Left, Some(G3)), 1);
    assert_eq!(m.group_members(G3, false), Some((Vec::new(), m.term())));
    assert_eq!(m.group_leader(G3), Some((None, m.term())));
    assert_eq!(
        m.all_members(false).0,
        vec![member(S2, "server2", true), member(S3, "server3", true)]
    );
    for g in [G1, G2, G3] {
        for shown in m.group_members(g, false).unwrap().0 {
            assert!(m.all_members(false).0.contains(&shown));
        }
    }
}

#[test]
fn leader_is_online_or_nobody_is() {
    let mut events = Vec::new();
    let mut m = three_members_three_groups(&mut events);
    let steps: Vec<(Vec<u64>, Vec<u64>)> = vec![
        (vec![], vec![S1]),
        (vec![], vec![S2, S3]),
        (vec![S3], vec![]),
        (vec![S1, S2], vec![S3]),
    ];
    for (online, offline) in steps {
        m.hb_online_changed(&online, &offline, &mut events);
        for g in [G1, G2, G3] {
            let up = m.group_members(g, true).unwrap().0;
            match m.group_leader(g).unwrap().0 {
                Some(leader) => {
                    assert!(leader.online);
                    assert!(up.contains(&leader));
                    for other in &up {
                        assert!((leader.id ^ g) <= (other.id ^ g));
                    }
                }
                None => assert!(up.is_empty()),
            }
        }
    }
}

#[test]
fn replicas_that_apply_the_same_log_agree() {
    let log = || {
        vec![
            Command::NewGroup { name: String::from("test_group_1") },
            Command::Join { address: String::from("server1") },
            Command::Join { address: String::from("server2") },
            Command::JoinGroup { name: String::from("test_group_1"), id: S1 },
            Command::JoinGroup { name: String::from("test_group_1"), id: S2 },
            Command::HbOnlineChanged { online: vec![], offline: vec![S1] },
            Command::LeaveGroup { group: G1, id: S2 },
            Command::Leave { id: S1 },
            Command::DelGroup { id: G1 },
        ]
    };
    let mut a = Membership::new();
    let mut b = Membership::new();
    let mut events_a = Vec::new();
    let mut events_b = Vec::new();
    for (x, y) in log().into_iter().zip(log().into_iter()) {
        let ra = a.apply(x, &mut events_a);
        let rb = b.apply(y, &mut events_b);
        assert_eq!(ra, rb);
        assert_eq!(a.snapshot(), b.snapshot());
        assert_eq!(a.all_members(false), b.all_members(false));
        assert_eq!(a.group_leader(G1), b.group_leader(G1));
    }
    assert_eq!(events_a, events_b);
}

#[test]
fn apply_answers_each_command() {
    let mut m = Membership::new();
    let mut events = Vec::new();
    assert_eq!(
        m.apply(Command::NewGroup { name: String::from("test_group_1") }, &mut events),
        Reply::Group(Ok(G1))
    );
    assert_eq!(
        m.apply(Command::NewGroup { name: String::from("test_group_1") }, &mut events),
        Reply::Group(Err(G1))
    );
    assert_eq!(
        m.apply(Command::Join { address: String::from("server1") }, &mut events),
        Reply::Id(Some(S1))
    );
    assert_eq!(
        m.apply(Command::JoinGroup { name: String::from("test_group_1"), id: S1 }, &mut events),
        Reply::Flag(true)
    );
    assert_eq!(
        m.apply(Command::HbOnlineChanged { online: vec![], offline: vec![S1] }, &mut events),
        Reply::Done
    );
    assert_eq!(m.apply(Command::LeaveGroup { group: G1, id: S1 }, &mut events), Reply::Flag(true));
    assert_eq!(m.apply(Command::LeaveGroup { group: G1, id: S1 }, &mut events), Reply::Flag(false));
    assert_eq!(m.apply(Command::Leave { id: S1 }, &mut events), Reply::Flag(true));
    assert_eq!(m.apply(Command::Leave { id: S1 }, &mut events), Reply::Flag(false));
    assert_eq!(m.apply(Command::DelGroup { id: G1 }, &mut events), Reply::Flag(true));
    assert_eq!(m.apply(Command::DelGroup { id: G1 }, &mut events), Reply::Flag(false));
}

#[test]
fn applying_a_command_again_changes_nothing() {
    let commands = || {
        vec![
            Command::NewGroup { name: String::from("test_group_1") },
            Command::Join { address: String::from("server1") },
            Command::JoinGroup { name: String::from("test_group_1"), id: S1 },
            Command::HbOnlineChanged { online: vec![], offline: vec![S1] },
            Command::LeaveGroup { group: G1, id: S1 },
            Command::Leave { id: S1 },
            Command::DelGroup { id: G1 },
        ]
    };
    let mut m = Membership::new();
    let mut events = Vec::new();
    for (first, second) in commands().into_iter().zip(commands().into_iter()) {
        m.apply(first, &mut events);
        let before = m.snapshot();
        let term = m.term();
        let told = events.len();
        m.apply(second, &mut events);
        assert_eq!(m.snapshot(), before);
        assert_eq!(m.term(), term);
        assert_eq!(events.len(), told);
    }
}
