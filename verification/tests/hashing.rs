use bifrost::hash::{hash_bytes, hash_str, FNV_OFFSET, FNV_PRIME};
use bifrost::membership::command::{
    FN_ALL_MEMBERS, FN_DEL_GROUP, FN_GROUP_LEADER, FN_GROUP_MEMBERS, FN_HB_ONLINE_CHANGED, FN_JOIN,
    FN_JOIN_GROUP, FN_LEAVE, FN_LEAVE_GROUP, FN_NEW_GROUP,
};
use bifrost::membership::wire::{
    FN_ON_ANY_MEMBER_JOINED, FN_ON_ANY_MEMBER_LEFT, FN_ON_ANY_MEMBER_OFFLINE,
    FN_ON_ANY_MEMBER_ONLINE, FN_ON_GROUP_LEADER_CHANGED, FN_ON_GROUP_MEMBER_JOINED,
    FN_ON_GROUP_MEMBER_LEFT, FN_ON_GROUP_MEMBER_OFFLINE, FN_ON_GROUP_MEMBER_ONLINE,
};
use bifrost::raft::configs::{FN_DEL_MEMBER, FN_MEMBER_ADDRESS, FN_NEW_MEMBER};
use bifrost::membership::DEFAULT_SERVICE_ID;

#[test]
fn hash_of_nothing_is_the_offset_basis() {
    assert_eq!(hash_bytes(&[]), FNV_OFFSET);
    assert_eq!(hash_str(""), 0xcbf2_9ce4_8422_2325);
}

#[test]
fn hash_of_one_byte() {
    assert_eq!(hash_str("a"), 0xaf63_dc4c_8601_ec8c);
    assert_eq!(hash_bytes(&[0x61]), (FNV_OFFSET ^ 0x61).wrapping_mul(FNV_PRIME));
}

#[test]
fn hash_of_addresses() {
    assert_eq!(hash_str("server1"), 0x34c9_0d94_9fad_bbb9);
    assert_eq!(hash_str("server2"), 0x34c9_0a94_9fad_b6a0);
    assert_eq!(hash_str("server3"), 0x34c9_0b94_9fad_b853);
    assert_eq!(hash_str("127.0.0.1:2100"), 7268051142888825465);
}

#[test]
fn hash_goes_by_utf8_bytes() {
    assert_eq!(hash_str("héllo"), 11772399666002542816);
    assert_eq!(hash_str("héllo"), hash_bytes("héllo".as_bytes()));
}

#[test]
fn hash_is_stable_across_calls() {
    assert_eq!(hash_str("test_group_1"), hash_str("test_group_1"));
    assert_ne!(hash_str("test_group_1"), hash_str("test_group_2"));
}

#[test]
fn service_id_is_the_hash_of_its_name() {
    assert_eq!(DEFAULT_SERVICE_ID, hash_str("BIFROST_MEMBERSHIP_SERVICE"));
    assert!(DEFAULT_SERVICE_ID >= 2);
}

#[test]
fn command_ids_are_the_hashes_of_their_names() {
    assert_eq!(FN_HB_ONLINE_CHANGED, hash_str("hb_online_changed"));
    assert_eq!(FN_JOIN, hash_str("join"));
    assert_eq!(FN_LEAVE, hash_str("leave"));
    assert_eq!(FN_JOIN_GROUP, hash_str("join_group"));
    assert_eq!(FN_LEAVE_GROUP, hash_str("leave_group"));
    assert_eq!(FN_NEW_GROUP, hash_str("new_group"));
    assert_eq!(FN_DEL_GROUP, hash_str("del_group"));
}

#[test]
fn query_ids_are_the_hashes_of_their_names() {
    assert_eq!(FN_GROUP_LEADER, hash_str("group_leader"));
    assert_eq!(FN_GROUP_MEMBERS, hash_str("group_members"));
    assert_eq!(FN_ALL_MEMBERS, hash_str("all_members"));
}

#[test]
fn subscription_ids_are_the_hashes_of_their_names() {
    assert_eq!(FN_ON_GROUP_MEMBER_OFFLINE, hash_str("on_group_member_offline"));
    assert_eq!(FN_ON_ANY_MEMBER_OFFLINE, hash_str("on_any_member_offline"));
    assert_eq!(FN_ON_GROUP_MEMBER_ONLINE, hash_str("on_group_member_online"));
    assert_eq!(FN_ON_ANY_MEMBER_ONLINE, hash_str("on_any_member_online"));
    assert_eq!(FN_ON_GROUP_MEMBER_JOINED, hash_str("on_group_member_joined"));
    assert_eq!(FN_ON_ANY_MEMBER_JOINED, hash_str("on_any_member_joined"));
    assert_eq!(FN_ON_GROUP_MEMBER_LEFT, hash_str("on_group_member_left"));
    assert_eq!(FN_ON_ANY_MEMBER_LEFT, hash_str("on_any_member_left"));
    assert_eq!(FN_ON_GROUP_LEADER_CHANGED, hash_str("on_group_leader_changed"));
}

#[test]
fn configuration_ids_are_the_hashes_of_their_names() {
    assert_eq!(FN_NEW_MEMBER, hash_str("new_member_"));
    assert_eq!(FN_DEL_MEMBER, hash_str("del_member_"));
    assert_eq!(FN_MEMBER_ADDRESS, hash_str("member_address"));
}
