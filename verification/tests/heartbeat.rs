use bifrost::heartbeat::{
    HeartbeatTracker, DEFAULT_HEARTBEAT_INTERVAL, DEFAULT_OFFLINE_THRESHOLD, DEFAULT_REAP_INTERVAL,
};
use bifrost::membership::command::Command;
use bifrost::membership::state::Membership;
use bifrost::membership::types::Member;

fn member(id: u64, online: bool) -> Member {
    Member { id, address: String::new(), online }
}

#[test]
fn defaults() {
    assert_eq!(DEFAULT_OFFLINE_THRESHOLD, 5000);
    assert_eq!(DEFAULT_REAP_INTERVAL, 1000);
    assert_eq!(DEFAULT_HEARTBEAT_INTERVAL, 1000);
}

#[test]
fn ping_records_the_time() {
    let mut t = HeartbeatTracker::new(5000);
    assert_eq!(t.last_seen(1), None);
    t.ping(1, 10);
    assert_eq!(t.last_seen(1), Some(10));
    t.ping(1, 20);
    assert_eq!(t.last_seen(1), Some(20));
    t.forget(1);
    assert_eq!(t.last_seen(1), None);
}

#[test]
fn silence_up_to_the_threshold_is_fresh() {
    let mut t = HeartbeatTracker::new(5000);
    t.ping(1, 1000);
    assert!(t.fresh(1, 1000));
    assert!(t.fresh(1, 6000));
    assert!(!t.fresh(1, 6001));
    assert!(t.fresh(1, 500));
    assert!(!t.fresh(2, 1000));
}

#[test]
fn reap_finds_who_crossed_the_line() {
    let mut t = HeartbeatTracker::new(5000);
    t.ping(1, 0);
    t.ping(2, 4000);
    t.ping(3, 4000);
    t.ping(9, 4000);
    let members = vec![member(1, true), member(2, true), member(3, false), member(4, true), member(5, false)];
    let (online, offline) = t.reap(&members, 5001);
    assert_eq!(online, vec![3]);
    assert_eq!(offline, vec![1, 4]);
    let (online, offline) = t.reap(&members, 5000);
    assert_eq!(online, vec![3]);
    assert_eq!(offline, vec![4]);
}

#[test]
fn digest_is_one_command_or_none() {
    let mut t = HeartbeatTracker::new(5000);
    t.ping(1, 0);
    let members = vec![member(1, true)];
    assert_eq!(t.digest(&members, 5000), None);
    assert_eq!(
        t.digest(&members, 5001),
        Some(Command::HbOnlineChanged { online: vec![], offline: vec![1] })
    );
    assert_eq!(t.digest(&Vec::new(), 5001), None);
}

#[test]
fn digest_applied_leaves_nothing_to_tell() {
    let mut m = Membership::new();
    let mut events = Vec::new();
    let s1 = m.join(String::from("server1"), &mut events).unwrap();
    let s2 = m.join(String::from("server2"), &mut events).unwrap();
    let mut t = HeartbeatTracker::new(DEFAULT_OFFLINE_THRESHOLD);
    t.ping(s1, 0);
    t.ping(s2, 0);
    t.ping(s2, 3000);
    let c = t.digest(m.members(), 6000).unwrap();
    assert_eq!(c, Command::HbOnlineChanged { online: vec![], offline: vec![s1] });
    m.apply(c, &mut events);
    assert_eq!(t.digest(m.members(), 6000), None);
    t.ping(s1, 6500);
    assert_eq!(
        t.digest(m.members(), 7000),
        Some(Command::HbOnlineChanged { online: vec![s1], offline: vec![] })
    );
}
