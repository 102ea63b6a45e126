use bifrost::bus::{Bus, SubKey};
use bifrost::client::{member_next, MemberAction, MemberEvent, MemberPhase};
use bifrost::hash::hash_str;
use bifrost::heartbeat::{HeartbeatTracker, DEFAULT_HEARTBEAT_INTERVAL, DEFAULT_OFFLINE_THRESHOLD};
use bifrost::membership::client::{decode_answer, decode_notice, decode_reply, Answer};
use bifrost::membership::command::{encode_command, encode_query, Command, Query, Reply};
use bifrost::membership::types::{Event, Member};
use bifrost::membership::wire::{
    FN_ON_ANY_MEMBER_JOINED, FN_ON_ANY_MEMBER_LEFT, FN_ON_ANY_MEMBER_OFFLINE,
    FN_ON_ANY_MEMBER_ONLINE, FN_ON_GROUP_LEADER_CHANGED, FN_ON_GROUP_MEMBER_JOINED,
    FN_ON_GROUP_MEMBER_LEFT, FN_ON_GROUP_MEMBER_OFFLINE, FN_ON_GROUP_MEMBER_ONLINE,
};
use bifrost::raft::master::{LogEntry, MasterStateMachine, RegisterResult};
use bifrost::membership::DEFAULT_SERVICE_ID;
use bifrost::raft::sub::SubStateMachine;

/// One replica: the host, the bus that its notices go to, and its own record
/// of heartbeats.
struct Replica {
    master: MasterStateMachine,
    bus: Bus,
    tracker: HeartbeatTracker,
    index: u64,
}

impl Replica {
    fn new(address: &str) -> Replica {
        let mut master = MasterStateMachine::new(DEFAULT_SERVICE_ID);
        assert!(master.configs.new_member(String::from(address)));
        assert_eq!(master.register(SubStateMachine::membership()), RegisterResult::OK);
        Replica {
            master,
            bus: Bus::new(64),
            tracker: HeartbeatTracker::new(DEFAULT_OFFLINE_THRESHOLD),
            index: 0,
        }
    }

    fn commit(&mut self, c: Command) -> Reply {
        let (fn_id, data) = encode_command(&c);
        self.index += 1;
        let entry = LogEntry { index: self.index, term: 1, sm_id: DEFAULT_SERVICE_ID, fn_id, data };
        let mut notices = Vec::new();
        let reply = self.master.commit_cmd(&entry, &mut notices).unwrap();
        self.bus.publish_all(DEFAULT_SERVICE_ID, &notices);
        decode_reply(fn_id, &reply).unwrap()
    }

    fn ask(&self, q: Query) -> Answer {
        let (fn_id, data) = encode_query(&q);
        let entry = LogEntry { index: 0, term: 0, sm_id: DEFAULT_SERVICE_ID, fn_id, data };
        decode_answer(fn_id, &self.master.exec_qry(&entry).unwrap()).unwrap()
    }

    fn all_members(&self, online_only: bool) -> Vec<Member> {
        match self.ask(Query::AllMembers { online_only }) {
            Answer::All(members, _) => members,
            other => panic!("{:?}", other),
        }
    }

    fn group_members(&self, name: &str, online_only: bool) -> Option<Vec<Member>> {
        match self.ask(Query::GroupMembers { group: hash_str(name), online_only }) {
            Answer::Members(found) => found.map(|f| f.0),
            other => panic!("{:?}", other),
        }
    }

    fn group_leader(&self, name: &str) -> Option<Option<Member>> {
        match self.ask(Query::GroupLeader { group: hash_str(name) }) {
            Answer::Leader(found) => found.map(|f| f.0),
            other => panic!("{:?}", other),
        }
    }

    fn subscribe(&mut self, fn_id: u64, group: Option<&str>) -> u64 {
        let key = group.map(hash_str);
        self.bus.subscribe(SubKey { sm_id: DEFAULT_SERVICE_ID, fn_id, key }).unwrap()
    }

    /// What the reaper does at `now`: one command where somebody crossed the
    /// line, none otherwise.
    fn reap(&mut self, now: u64) {
        let members = self.all_members(false);
        if let Some(c) = self.tracker.digest(&members, now) {
            assert_eq!(self.commit(c), Reply::Done);
        }
    }
}

/// A member's client: its identity, and whether it still sends heartbeats.
struct MemberService {
    id: u64,
    phase: MemberPhase,
}

impl MemberService {
    fn new(address: &str, replica: &mut Replica, now: u64) -> MemberService {
        let reply = replica.commit(Command::Join { address: String::from(address) });
        assert_eq!(reply, Reply::Id(Some(hash_str(address))));
        replica.tracker.ping(hash_str(address), now);
        MemberService { id: hash_str(address), phase: MemberPhase::Active }
    }

    fn join_group(&self, name: &str, replica: &mut Replica) {
        let c = Command::JoinGroup { name: String::from(name), id: self.id };
        assert_eq!(replica.commit(c), Reply::Flag(true));
    }

    fn handle(&mut self, event: MemberEvent, replica: &mut Replica, now: u64) {
        let (phase, action) = member_next(self.phase, self.id, event);
        self.phase = phase;
        match action {
            MemberAction::Idle => {}
            MemberAction::Ping(id) => replica.tracker.ping(id, now),
            MemberAction::SubmitLeave(id) => {
                assert_eq!(replica.commit(Command::Leave { id }), Reply::Flag(true));
                replica.tracker.forget(id);
            }
        }
    }
}

#[test]
fn primary() {
    let addr = String::from("127.0.0.1:2100");
    let mut replica = Replica::new(&addr);

    let group_1 = String::from("test_group_1");
    let group_2 = String::from("test_group_2");
    let group_3 = String::from("test_group_3");

    assert_eq!(replica.commit(Command::NewGroup { name: group_1.clone() }), Reply::Group(Ok(hash_str(&group_1))));
    assert_eq!(replica.commit(Command::NewGroup { name: group_2.clone() }), Reply::Group(Ok(hash_str(&group_2))));
    assert_eq!(replica.commit(Command::NewGroup { name: group_3.clone() }), Reply::Group(Ok(hash_str(&group_3))));

    let any_member_joined = replica.subscribe(FN_ON_ANY_MEMBER_JOINED, None);
    let any_member_left = replica.subscribe(FN_ON_ANY_MEMBER_LEFT, None);
    let any_member_offline = replica.subscribe(FN_ON_ANY_MEMBER_OFFLINE, None);
    let any_member_online = replica.subscribe(FN_ON_ANY_MEMBER_ONLINE, None);
    let group_leader_changed = replica.subscribe(FN_ON_GROUP_LEADER_CHANGED, Some(&group_1));
    let group_member_joined = replica.subscribe(FN_ON_GROUP_MEMBER_JOINED, Some(&group_1));
    let group_member_left = replica.subscribe(FN_ON_GROUP_MEMBER_LEFT, Some(&group_1));
    let group_member_online = replica.subscribe(FN_ON_GROUP_MEMBER_ONLINE, Some(&group_1));
    let group_member_offline = replica.subscribe(FN_ON_GROUP_MEMBER_OFFLINE, Some(&group_1));

    let mut now = 0;
    let mut member1_svr = MemberService::new("server1", &mut replica, now);
    let mut member2_svr = MemberService::new("server2", &mut replica, now);
    let mut member3_svr = MemberService::new("server3", &mut replica, now);

    member1_svr.join_group(&group_1, &mut replica);
    member2_svr.join_group(&group_1, &mut replica);
    member3_svr.join_group(&group_1, &mut replica);

    member1_svr.join_group(&group_2, &mut replica);
    member2_svr.join_group(&group_2, &mut replica);

    member1_svr.join_group(&group_3, &mut replica);

    assert_eq!(replica.all_members(false).len(), 3);
    assert_eq!(replica.all_members(true).len(), 3);

    assert_eq!(replica.group_members(&group_1, false).unwrap().len(), 3);
    assert_eq!(replica.group_members(&group_1, true).unwrap().len(), 3);

    assert_eq!(replica.group_members(&group_2, false).unwrap().len(), 2);
    assert_eq!(replica.group_members(&group_2, true).unwrap().len(), 2);

    assert_eq!(replica.group_members(&group_3, false).unwrap().len(), 1);
    assert_eq!(replica.group_members(&group_3, true).unwrap().len(), 1);

    member1_svr.handle(MemberEvent::Close, &mut replica, now);

    // Waiting for membership changes
    while now <= DEFAULT_OFFLINE_THRESHOLD {
        now += DEFAULT_HEARTBEAT_INTERVAL;
        member1_svr.handle(MemberEvent::Tick, &mut replica, now);
        member2_svr.handle(MemberEvent::Tick, &mut replica, now);
        member3_svr.handle(MemberEvent::Tick, &mut replica, now);
        replica.reap(now);
    }
    // Checking members

    assert_eq!(replica.all_members(false).len(), 3);
    assert_eq!(replica.all_members(true).len(), 2);

    assert_eq!(replica.group_members(&group_1, false).unwrap().len(), 3);
    assert_eq!(replica.group_members(&group_1, true).unwrap().len(), 2);

    assert_eq!(replica.group_members(&group_2, false).unwrap().len(), 2);
    assert_eq!(replica.group_members(&group_2, true).unwrap().len(), 1);

    assert_eq!(replica.group_members(&group_3, false).unwrap().len(), 1);
    assert_eq!(replica.group_members(&group_3, true).unwrap().len(), 0);
    assert_eq!(replica.group_leader(&group_3), Some(None));

    member2_svr.handle(MemberEvent::Leave, &mut replica, now);
    assert_eq!(replica.all_members(false).len(), 2);
    assert_eq!(replica.all_members(true).len(), 1);

    assert_eq!(replica.group_members(&group_1, false).unwrap().len(), 2);
    assert_eq!(replica.group_members(&group_1, true).unwrap().len(), 1);

    assert_eq!(replica.group_members(&group_2, false).unwrap().len(), 1);
    assert_eq!(replica.group_members(&group_2, true).unwrap().len(), 0);

    assert_eq!(replica.group_members(&group_3, false).unwrap().len(), 1);
    assert_eq!(replica.group_members(&group_3, true).unwrap().len(), 0);

    // Checking event trigger
    assert_eq!(replica.bus.take(any_member_joined).unwrap().len(), 3);
    assert_eq!(replica.bus.take(any_member_left).unwrap().len(), 1);
    assert_eq!(replica.bus.take(any_member_offline).unwrap().len(), 1);
    assert_eq!(replica.bus.take(any_member_online).unwrap().len(), 0);
    let leader_changes = replica.bus.take(group_leader_changed).unwrap();
    assert!(leader_changes.len() > 0);
    assert_eq!(leader_changes.len(), 3);
    assert_eq!(replica.bus.take(group_member_joined).unwrap().len(), 3);
    assert_eq!(replica.bus.take(group_member_left).unwrap().len(), 1);
    assert_eq!(replica.bus.take(group_member_online).unwrap().len(), 0);
    assert_eq!(replica.bus.take(group_member_offline).unwrap().len(), 1);
    assert_eq!(replica.bus.dropped(group_leader_changed), Some(0));
    assert_eq!(member3_svr.phase, MemberPhase::Active);
}

#[test]
fn leader_changes_reach_the_subscriber_in_order() {
    let mut replica = Replica::new("127.0.0.1:2100");
    let group = String::from("test_group_1");
    replica.commit(Command::NewGroup { name: group.clone() });
    let sub = replica.subscribe(FN_ON_GROUP_LEADER_CHANGED, Some(&group));
    let s1 = MemberService::new("server1", &mut replica, 0);
    let s2 = MemberService::new("server2", &mut replica, 0);
    s2.join_group(&group, &mut replica);
    s1.join_group(&group, &mut replica);
    replica.commit(Command::HbOnlineChanged { online: vec![], offline: vec![s1.id, s2.id] });
    let told: Vec<Event> = replica
        .bus
        .take(sub)
        .unwrap()
        .into_iter()
        .map(|payload| {
            decode_notice(&bifrost::membership::wire::Notice {
                fn_id: FN_ON_GROUP_LEADER_CHANGED,
                key: Some(hash_str(&group)),
                payload,
            })
            .unwrap()
        })
        .collect();
    let chain: Vec<(Option<u64>, Option<u64>)> = told
        .iter()
        .map(|e| match e {
            Event::LeaderChanged { old, new, .. } => {
                (old.as_ref().map(|m| m.id), new.as_ref().map(|m| m.id))
            }
            other => panic!("{:?}", other),
        })
        .collect();
    assert_eq!(
        chain,
        vec![
            (None, Some(s2.id)),
            (Some(s2.id), Some(s1.id)),
            (Some(s1.id), Some(s2.id)),
            (Some(s2.id), None),
        ]
    );
    assert_eq!(replica.group_leader(&group), Some(None));
}

#[test]
fn snapshot_round_trip() {
    let mut origin = Replica::new("127.0.0.1:2100");
    for g in ["test_group_1", "test_group_2", "test_group_3"] {
        origin.commit(Command::NewGroup { name: String::from(g) });
    }
    let s1 = MemberService::new("server1", &mut origin, 0);
    let s2 = MemberService::new("server2", &mut origin, 0);
    let s3 = MemberService::new("server3", &mut origin, 0);
    for s in [&s1, &s2, &s3] {
        s.join_group("test_group_1", &mut origin);
    }
    s1.join_group("test_group_2", &mut origin);
    s2.join_group("test_group_2", &mut origin);
    s1.join_group("test_group_3", &mut origin);
    origin.commit(Command::HbOnlineChanged { online: vec![], offline: vec![s1.id, s2.id, s3.id] });
    let blob = origin.master.snapshot().unwrap();

    let mut fresh = Replica::new("127.0.0.1:2101");
    assert!(fresh.master.recover(&blob));
    assert_eq!(fresh.master.snapshot().unwrap(), blob);

    let later = || {
        vec![
            Command::HbOnlineChanged { online: vec![s2.id, s3.id], offline: vec![] },
            Command::Leave { id: s2.id },
            Command::Join { address: String::from("server4") },
            Command::JoinGroup { name: String::from("test_group_3"), id: hash_str("server4") },
            Command::DelGroup { id: hash_str("test_group_2") },
        ]
    };
    for (a, b) in later().into_iter().zip(later().into_iter()) {
        assert_eq!(origin.commit(a), fresh.commit(b));
    }
    for online_only in [false, true] {
        assert_eq!(origin.all_members(online_only), fresh.all_members(online_only));
        for g in ["test_group_1", "test_group_2", "test_group_3"] {
            assert_eq!(origin.group_members(g, online_only), fresh.group_members(g, online_only));
            assert_eq!(origin.group_leader(g), fresh.group_leader(g));
        }
    }
    assert_eq!(origin.master.snapshot(), fresh.master.snapshot());
    assert_eq!(fresh.master.members().len(), 1);
    assert!(fresh.master.members().contains_key(&hash_str("127.0.0.1:2100")));
}

#[test]
fn a_recovered_replica_starts_with_everybody_offline() {
    let mut origin = Replica::new("127.0.0.1:2100");
    origin.commit(Command::NewGroup { name: String::from("test_group_1") });
    let s1 = MemberService::new("server1", &mut origin, 0);
    s1.join_group("test_group_1", &mut origin);
    assert_eq!(origin.group_leader("test_group_1").unwrap().unwrap().id, s1.id);
    let blob = origin.master.snapshot().unwrap();
    let mut fresh = Replica::new("127.0.0.1:2100");
    assert!(fresh.master.recover(&blob));
    assert_eq!(fresh.all_members(false).len(), 1);
    assert_eq!(fresh.all_members(true).len(), 0);
    assert_eq!(fresh.group_leader("test_group_1"), Some(None));
    fresh.tracker.ping(s1.id, 100);
    fresh.reap(200);
    assert_eq!(fresh.all_members(true).len(), 1);
    assert_eq!(fresh.group_leader("test_group_1").unwrap().unwrap().id, s1.id);
    assert_eq!(fresh.group_members("test_group_1", false), origin.group_members("test_group_1", false));
}
