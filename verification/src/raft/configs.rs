//! The configuration state machine: the peers of the consensus layer, each
//! under the id of its address.

use crate::codec::{
    dec_str, dec_u64, enc_bool, enc_str, enc_u64, get_str, get_u64, holds, lemma_holds_split,
    lemma_holds_whole, lemma_str_round, lemma_u64_len, lemma_u64_round, put_bool, put_len, put_str,
};
use crate::hash::{hash_str, hash_str_spec};
use std::collections::HashMap;
use vstd::prelude::*;

verus! {

/// The id under which the configuration state machine takes log entries.
pub const CONFIG_SM_ID: u64 = 0;

/// The function ids of the configuration: each is the hash of the
/// function's name.
pub const FN_NEW_MEMBER: u64 = 0xc3198fbd3d5e2fc1;

pub const FN_DEL_MEMBER: u64 = 0x85250d0f36df4396;

pub const FN_MEMBER_ADDRESS: u64 = 0xba00c42cb9e5d594;

/// A peer of the consensus layer.
#[derive(Debug, PartialEq, Eq)]
pub struct RaftMember {
    pub id: u64,
    pub address: String,
}

/// The configuration as the model sees it: the addresses of the peers, in the
/// order they were added.
pub struct ConfigView {
    pub service_id: u64,
    pub peers: Seq<Seq<char>>,
}

/// Whether there is a peer of the given id.
pub open spec fn has_peer(peers: Seq<Seq<char>>, id: u64) -> bool {
    exists|i: int| 0 <= i < peers.len() && hash_str_spec(#[trigger] peers[i]) == id
}

/// The place of the peer of the given id.
pub open spec fn peer_pos(peers: Seq<Seq<char>>, id: u64) -> int {
    choose|i: int| 0 <= i < peers.len() && hash_str_spec(#[trigger] peers[i]) == id
}

/// No two peers share an id.
pub open spec fn distinct_peers(peers: Seq<Seq<char>>) -> bool {
    forall|i: int, j: int|
        0 <= i < j < peers.len() ==> hash_str_spec(#[trigger] peers[i]) != hash_str_spec(
            #[trigger] peers[j],
        )
}

/// The peers after `new_member_(address)`: one more, unless a peer of that id
/// is there already.
pub open spec fn add_peer(peers: Seq<Seq<char>>, address: Seq<char>) -> Seq<Seq<char>> {
    if has_peer(peers, hash_str_spec(address)) {
        peers
    } else {
        peers.push(address)
    }
}

/// The peers after `del_member_(address)`: without the peer of that id.
pub open spec fn drop_peer(peers: Seq<Seq<char>>, address: Seq<char>) -> Seq<Seq<char>> {
    if has_peer(peers, hash_str_spec(address)) {
        peers.remove(peer_pos(peers, hash_str_spec(address)))
    } else {
        peers
    }
}

/// The configuration state machine.
pub struct Configures {
    members: HashMap<u64, RaftMember>,
    order: Vec<u64>,
    service_id: u64,
}

impl View for Configures {
    type V = ConfigView;

    closed spec fn view(&self) -> ConfigView {
        ConfigView {
            service_id: self.service_id,
            peers: Seq::new(self.order@.len(), |i: int| self.members@[self.order@[i]].address@),
        }
    }
}

impl Configures {
    /// The invariant: the peers are listed once each, under the ids of their
    /// addresses.
    pub closed spec fn wf(&self) -> bool {
        &&& self.order@.no_duplicates()
        &&& forall|k: u64|
            #![trigger self.members@.contains_key(k)]
            #![trigger self.order@.contains(k)]
            self.members@.contains_key(k) <==> self.order@.contains(k)
        &&& forall|k: u64| #[trigger]
            self.members@.contains_key(k) ==> self.members@[k].id == k && k == hash_str_spec(
                self.members@[k].address@,
            )
    }

    /// The peers by id.
    pub closed spec fn member_map(&self) -> Map<u64, RaftMember> {
        self.members@
    }

    /// The peers by id are the peers of the model: each under the id of its
    /// address, and no two under one id.
    pub proof fn lemma_member_map(&self)
        requires
            self.wf(),
        ensures
            distinct_peers(self@.peers),
            forall|k: u64| self.member_map().contains_key(k) <==> has_peer(self@.peers, k),
            forall|i: int|
                0 <= i < self@.peers.len() ==> {
                    let k = hash_str_spec(#[trigger] self@.peers[i]);
                    &&& self.member_map().contains_key(k)
                    &&& self.member_map()[k].id == k
                    &&& self.member_map()[k].address@ == self@.peers[i]
                },
    {
        let peers = self@.peers;
        assert forall|i: int| 0 <= i < peers.len() implies hash_str_spec(#[trigger] peers[i])
            == self.order@[i] && self.members@.contains_key(self.order@[i]) by {
            assert(self.order@.contains(self.order@[i]));
        }
        assert forall|k: u64| self.member_map().contains_key(k) implies has_peer(peers, k) by {
            assert(self.order@.contains(k));
            let i = choose|i: int| 0 <= i < self.order@.len() && self.order@[i] == k;
            assert(hash_str_spec(peers[i]) == k);
        }
    }

    /// A configuration without peers.
    pub fn new(service_id: u64) -> (r: Configures)
        ensures
            r.wf(),
            r@ == (ConfigView { service_id, peers: Seq::empty() }),
    {
        let r = Configures { members: HashMap::new(), order: Vec::new(), service_id };
        proof {
            assert(r@.peers =~= Seq::<Seq<char>>::empty());
        }
        r
    }

    /// The id of this state machine.
    pub fn id(&self) -> (r: u64)
        ensures
            r == CONFIG_SM_ID,
    {
        CONFIG_SM_ID
    }

    /// The id of the service that this configuration belongs to.
    pub fn service_id(&self) -> (r: u64)
        ensures
            r == self@.service_id,
    {
        self.service_id
    }

    /// The peers by id.
    pub fn members(&self) -> (r: &HashMap<u64, RaftMember>)
        ensures
            r@ == self.member_map(),
    {
        &self.members
    }

    /// Adds a peer. The answer is `false`, and nothing changes, where a peer
    /// of that id is there already.
    pub fn new_member(&mut self, address: String) -> (r: bool)
        requires
            old(self).wf(),
        ensures
            final(self).wf(),
            final(self)@.service_id == old(self)@.service_id,
            final(self)@.peers == add_peer(old(self)@.peers, address@),
            r == !has_peer(old(self)@.peers, hash_str_spec(address@)),
    {
        broadcast use vstd::std_specs::hash::group_hash_axioms;

        let id = hash_str(address.as_str());
        proof {
            self.lemma_member_map();
        }
        if self.members.contains_key(&id) {
            return false;
        }
        let ghost before = self@.peers;
        let ghost old_order = self.order@;
        self.members.insert(id, RaftMember { id, address });
        self.order.push(id);
        proof {
            assert forall|i: int| 0 <= i < old_order.len() implies old_order[i] != id by {
                assert(old_order.contains(old_order[i]));
            }
            assert(self@.peers =~= before.push(address@));
            assert forall|k: u64| self.members@.contains_key(k) <==> self.order@.contains(k) by {
                if self.order@.contains(k) {
                    let i = choose|i: int| 0 <= i < self.order@.len() && self.order@[i] == k;
                    if i < old_order.len() {
                        assert(old_order.contains(k));
                    }
                }
                if self.members@.contains_key(k) {
                    if k == id {
                        assert(self.order@[old_order.len() as int] == id);
                    } else {
                        assert(old_order.contains(k));
                        let i = choose|i: int| 0 <= i < old_order.len() && old_order[i] == k;
                        assert(self.order@[i] == k);
                    }
                }
            }
        }
        true
    }

    /// Removes the peer under the id of `address`, if there is one.
    pub fn del_member(&mut self, address: &str)
        requires
            old(self).wf(),
        ensures
            final(self).wf(),
            final(self)@.service_id == old(self)@.service_id,
            final(self)@.peers == drop_peer(old(self)@.peers, address@),
    {
        broadcast use vstd::std_specs::hash::group_hash_axioms;

        let id = hash_str(address);
        proof {
            self.lemma_member_map();
        }
        if !self.members.contains_key(&id) {
            return ;
        }
        let ghost before = self@.peers;
        let ghost old_order = self.order@;
        let mut at: usize = 0;
        while at < self.order.len() && self.order[at] != id
            invariant
                at <= self.order.len(),
                self.order@ == old_order,
                old_order.contains(id),
                forall|k: int| 0 <= k < at ==> old_order[k] != id,
            decreases self.order.len() - at,
        {
            at += 1;
        }
        proof {
            let w = choose|w: int| 0 <= w < old_order.len() && old_order[w] == id;
            assert(at < old_order.len());
            assert(hash_str_spec(before[at as int]) == id);
            let p = peer_pos(before, id);
            assert(hash_str_spec(before[p]) == old_order[p]);
            assert(old_order[p] == old_order[at as int]);
            assert(p == at);
        }
        self.order.remove(at);
        self.members.remove(&id);
        proof {
            let order = self.order@;
            assert forall|i: int| 0 <= i < order.len() implies #[trigger] order[i] == old_order[if i
                < at {
                i
            } else {
                i + 1
            }] && order[i] != id by {}
            assert forall|i: int, j: int| 0 <= i < order.len() && 0 <= j < order.len() && i
                != j implies order[i] != order[j] by {
                let a = if i < at { i } else { i + 1 };
                let b = if j < at { j } else { j + 1 };
                assert(order[i] == old_order[a] && order[j] == old_order[b]);
            }
            assert forall|k: u64| self.members@.contains_key(k) <==> order.contains(k) by {
                if order.contains(k) {
                    let i = choose|i: int| 0 <= i < order.len() && order[i] == k;
                    let a = if i < at { i } else { i + 1 };
                    assert(old_order[a] == k);
                    assert(old_order.contains(k));
                }
                if self.members@.contains_key(k) {
                    assert(old_order.contains(k));
                    let i = choose|i: int| 0 <= i < old_order.len() && old_order[i] == k;
                    let a = if i < at { i } else { i - 1 };
                    assert(order[a] == k);
                }
            }
            assert(self@.peers =~= before.remove(at as int));
        }
    }

    /// The addresses of the peers, in the order they were added.
    pub fn member_address(&self) -> (r: Vec<String>)
        requires
            self.wf(),
        ensures
            r@.len() == self@.peers.len(),
            forall|i: int| 0 <= i < r@.len() ==> (#[trigger] r@[i])@ == self@.peers[i],
    {
        broadcast use vstd::std_specs::hash::group_hash_axioms;

        let mut out: Vec<String> = Vec::new();
        let mut i: usize = 0;
        while i < self.order.len()
            invariant
                i <= self.order.len(),
                self.wf(),
                out@.len() == i,
                forall|k: int| 0 <= k < i ==> (#[trigger] out@[k])@ == self@.peers[k],
            decreases self.order.len() - i,
        {
            proof {
                assert(self.order@.contains(self.order@[i as int]));
            }
            let m = self.members.get(&self.order[i]);
            out.push(m.unwrap().address.clone());
            i += 1;
        }
        out
    }
}

/// Strings one after the other.
pub open spec fn enc_str_each(items: Seq<Seq<char>>) -> Seq<u8>
    decreases items.len(),
{
    if items.len() == 0 {
        Seq::empty()
    } else {
        enc_str_each(items.drop_last()) + enc_str(items.last())
    }
}

/// The peers as bytes: how many, then the address of each.
pub open spec fn enc_peers(peers: Seq<Seq<char>>) -> Seq<u8> {
    enc_u64(peers.len() as u64) + enc_str_each(peers)
}

/// Reads `n` strings from `pos` on.
pub open spec fn dec_str_each(data: Seq<u8>, pos: int, n: nat) -> Option<(Seq<Seq<char>>, int)>
    decreases n,
{
    if n == 0 {
        Some((Seq::empty(), pos))
    } else {
        match dec_str_each(data, pos, (n - 1) as nat) {
            Some((items, p)) => match dec_str(data, p) {
                Some((s, q)) => Some((items.push(s), q)),
                None => None,
            },
            None => None,
        }
    }
}

/// The peers that a snapshot spells: the addresses that its bytes hold, where
/// nothing follows them and no two of them share an id.
pub open spec fn dec_peers(data: Seq<u8>) -> Option<Seq<Seq<char>>> {
    match dec_u64(data, 0) {
        Some((n, p)) => match dec_str_each(data, p, n as nat) {
            Some((peers, end)) => if end == data.len() && distinct_peers(peers) {
                Some(peers)
            } else {
                None
            },
            None => None,
        },
        None => None,
    }
}

/// What a command does to the configuration, and what it answers: `None`
/// where the function id or the payload is not that of a command.
pub open spec fn config_cmd(peers: Seq<Seq<char>>, fn_id: u64, data: Seq<u8>) -> Option<
    (Seq<Seq<char>>, Seq<u8>),
> {
    if fn_id == FN_NEW_MEMBER {
        match dec_str(data, 0) {
            Some((address, p)) => if p == data.len() {
                Some(
                    (
                        add_peer(peers, address),
                        enc_bool(!has_peer(peers, hash_str_spec(address))),
                    ),
                )
            } else {
                None
            },
            None => None,
        }
    } else if fn_id == FN_DEL_MEMBER {
        match dec_str(data, 0) {
            Some((address, p)) => if p == data.len() {
                Some((drop_peer(peers, address), Seq::empty()))
            } else {
                None
            },
            None => None,
        }
    } else {
        None
    }
}

/// What a query of the configuration answers: the peers, to the one query
/// there is.
pub open spec fn config_qry(peers: Seq<Seq<char>>, fn_id: u64, data: Seq<u8>) -> Option<Seq<u8>> {
    if fn_id == FN_MEMBER_ADDRESS && data.len() == 0 {
        Some(enc_peers(peers))
    } else {
        None
    }
}

/// Where the first strings cannot be read, more cannot either.
pub proof fn lemma_strs_stuck(data: Seq<u8>, pos: int, k: nat, n: nat)
    requires
        dec_str_each(data, pos, k) is None,
        k <= n,
    ensures
        dec_str_each(data, pos, n) is None,
    decreases n,
{
    if k < n {
        lemma_strs_stuck(data, pos, k, (n - 1) as nat);
    }
}

impl Configures {
    /// Writes the peers.
    pub fn snapshot(&self) -> (r: Option<Vec<u8>>)
        requires
            self.wf(),
        ensures
            r is Some,
            r.unwrap()@ == enc_peers(self@.peers),
    {
        broadcast use vstd::std_specs::hash::group_hash_axioms;

        let mut out: Vec<u8> = Vec::new();
        put_len(&mut out, self.order.len());
        let ghost start = out@;
        let ghost peers = self@.peers;
        let mut i: usize = 0;
        proof {
            assert(start + enc_str_each(peers.take(0)) =~= start);
        }
        while i < self.order.len()
            invariant
                i <= self.order.len(),
                self.wf(),
                peers == self@.peers,
                out@ == start + enc_str_each(peers.take(i as int)),
            decreases self.order.len() - i,
        {
            proof {
                assert(self.order@.contains(self.order@[i as int]));
                assert(peers.take(i + 1).drop_last() =~= peers.take(i as int));
                assert((start + enc_str_each(peers.take(i as int))) + enc_str(peers[i as int])
                    =~= start + (enc_str_each(peers.take(i as int)) + enc_str(peers[i as int])));
            }
            let m = self.members.get(&self.order[i]);
            put_str(&mut out, m.unwrap().address.as_str());
            i += 1;
        }
        proof {
            assert(peers.take(i as int) =~= peers);
        }
        Some(out)
    }

    /// Replaces the peers by those of a snapshot. Where the bytes are no
    /// snapshot, nothing changes and the answer is `false`.
    pub fn recover(&mut self, data: &[u8]) -> (r: bool)
        requires
            old(self).wf(),
        ensures
            final(self).wf(),
            final(self)@.service_id == old(self)@.service_id,
            match dec_peers(data@) {
                Some(peers) => r && final(self)@.peers == peers,
                None => !r && final(self)@ == old(self)@,
            },
    {
        let (n, start) = match get_u64(data, 0) {
            Some(r) => r,
            None => {
                return false;
            },
        };
        let mut next = Configures::new(self.service_id);
        let ghost mut read: Seq<Seq<char>> = Seq::empty();
        let mut p: usize = start;
        let mut i: u64 = 0;
        while i < n
            invariant
                i <= n,
                self.wf(),
                *self == *old(self),
                next.wf(),
                next@.service_id == self@.service_id,
                next@.peers == read,
                distinct_peers(read),
                dec_u64(data@, 0) == Some((n, start as int)),
                dec_str_each(data@, start as int, i as nat) == Some((read, p as int)),
            decreases n - i,
        {
            proof {
                assert(dec_str_each(data@, start as int, ((i + 1) - 1) as nat) == Some(
                    (read, p as int),
                ));
            }
            let (address, q) = match get_str(data, p) {
                Some(r) => r,
                None => {
                    proof {
                        lemma_strs_stuck(data@, start as int, (i + 1) as nat, n as nat);
                    }
                    return false;
                },
            };
            let ghost a = address@;
            let fresh = next.new_member(address);
            if !fresh {
                proof {
                    lemma_clash_stays(data@, start as int, read, p as int, a, q as int, (i + 1) as nat, n as nat);
                }
                return false;
            }
            proof {
                assert forall|x: int, y: int| 0 <= x < y < read.push(a).len() implies hash_str_spec(
                    #[trigger] read.push(a)[x],
                ) != hash_str_spec(#[trigger] read.push(a)[y]) by {
                    if y < read.len() {
                        assert(hash_str_spec(read[x]) != hash_str_spec(read[y]));
                    } else {
                        assert(read.push(a)[x] == read[x]);
                    }
                }
                read = read.push(a);
            }
            p = q;
            i += 1;
        }
        if p != data.len() {
            return false;
        }
        *self = next;
        true
    }

    /// Takes a command as it stands in the log. What is not a command of this
    /// state machine changes nothing and gives `None`.
    pub fn fn_dispatch_cmd(&mut self, fn_id: u64, data: &[u8]) -> (r: Option<Vec<u8>>)
        requires
            old(self).wf(),
        ensures
            final(self).wf(),
            final(self)@.service_id == old(self)@.service_id,
            match config_cmd(old(self)@.peers, fn_id, data@) {
                Some((peers, reply)) => final(self)@.peers == peers && r is Some && r.unwrap()@
                    == reply,
                None => final(self)@ == old(self)@ && r is None,
            },
    {
        if fn_id == FN_NEW_MEMBER {
            match get_str(data, 0) {
                Some((address, p)) => {
                    if p != data.len() {
                        return None;
                    }
                    let fresh = self.new_member(address);
                    let mut out: Vec<u8> = Vec::new();
                    put_bool(&mut out, fresh);
                    proof {
                        assert(out@ =~= enc_bool(fresh));
                    }
                    Some(out)
                },
                None => None,
            }
        } else if fn_id == FN_DEL_MEMBER {
            match get_str(data, 0) {
                Some((address, p)) => {
                    if p != data.len() {
                        return None;
                    }
                    self.del_member(address.as_str());
                    Some(Vec::new())
                },
                None => None,
            }
        } else {
            None
        }
    }

    /// Takes a query as it was sent. What is not a query of this state
    /// machine gives `None`.
    pub fn fn_dispatch_qry(&self, fn_id: u64, data: &[u8]) -> (r: Option<Vec<u8>>)
        requires
            self.wf(),
        ensures
            match config_qry(self@.peers, fn_id, data@) {
                Some(answer) => r is Some && r.unwrap()@ == answer,
                None => r is None,
            },
    {
        if fn_id == FN_MEMBER_ADDRESS && data.len() == 0 {
            self.snapshot()
        } else {
            None
        }
    }
}

/// Where two of the first strings share an id, the strings are no peers,
/// however many follow.
pub proof fn lemma_clash_stays(
    data: Seq<u8>,
    start: int,
    read: Seq<Seq<char>>,
    p: int,
    a: Seq<char>,
    q: int,
    k: nat,
    n: nat,
)
    requires
        1 <= k <= n,
        dec_str_each(data, start, (k - 1) as nat) == Some((read, p)),
        dec_str(data, p) == Some((a, q)),
        has_peer(read, hash_str_spec(a)),
    ensures
        match dec_str_each(data, start, n) {
            Some((peers, _)) => !distinct_peers(peers),
            None => true,
        },
    decreases n,
{
    if k == n {
        let peers = read.push(a);
        let i = choose|i: int| 0 <= i < read.len() && hash_str_spec(#[trigger] read[i]) == hash_str_spec(a);
        assert(peers[i] == read[i]);
        assert(peers[read.len() as int] == a);
        assert(hash_str_spec(peers[i]) == hash_str_spec(peers[read.len() as int]));
    } else {
        lemma_clash_stays(data, start, read, p, a, q, k, (n - 1) as nat);
        match dec_str_each(data, start, n) {
            Some((peers, _)) => {
                let front = dec_str_each(data, start, (n - 1) as nat).unwrap().0;
                assert(peers.drop_last() =~= front);
                if distinct_peers(peers) {
                    assert forall|x: int, y: int| 0 <= x < y < front.len() implies hash_str_spec(
                        #[trigger] front[x],
                    ) != hash_str_spec(#[trigger] front[y]) by {
                        assert(front[x] == peers[x] && front[y] == peers[y]);
                    }
                }
            },
            None => {},
        }
    }
}

/// Strings that were written one after the other are read back.
pub proof fn lemma_str_each_round(data: Seq<u8>, pos: int, items: Seq<Seq<char>>)
    requires
        forall|i: int|
            0 <= i < items.len() ==> vstd::utf8::encode_utf8(#[trigger] items[i]).len() <= u64::MAX,
        holds(data, pos, enc_str_each(items)),
    ensures
        dec_str_each(data, pos, items.len()) == Some((items, pos + enc_str_each(items).len())),
    decreases items.len(),
{
    if items.len() == 0 {
        assert(items =~= Seq::<Seq<char>>::empty());
    } else {
        let front = items.drop_last();
        lemma_holds_split(data, pos, enc_str_each(front), enc_str(items.last()));
        assert forall|i: int| 0 <= i < front.len() implies vstd::utf8::encode_utf8(
            #[trigger] front[i],
        ).len() <= u64::MAX by {
            assert(front[i] == items[i]);
        }
        lemma_str_each_round(data, pos, front);
        assert(items.last() == items[items.len() - 1]);
        lemma_str_round(data, pos + enc_str_each(front).len(), items.last());
        assert(front.push(items.last()) =~= items);
    }
}

/// Whether the peers fit the wire.
pub open spec fn peers_fit(peers: Seq<Seq<char>>) -> bool {
    &&& peers.len() <= u64::MAX
    &&& forall|i: int|
        0 <= i < peers.len() ==> vstd::utf8::encode_utf8(#[trigger] peers[i]).len() <= u64::MAX
}

/// The peers of a snapshot are the peers that it was taken of.
pub proof fn law_peers_round(peers: Seq<Seq<char>>)
    requires
        distinct_peers(peers),
        peers_fit(peers),
    ensures
        dec_peers(enc_peers(peers)) == Some(peers),
{
    let data = enc_peers(peers);
    lemma_holds_whole(data);
    lemma_holds_split(data, 0, enc_u64(peers.len() as u64), enc_str_each(peers));
    lemma_u64_len(peers.len() as u64);
    lemma_u64_round(data, 0, peers.len() as u64);
    lemma_str_each_round(data, 8, peers);
}

} // verus!
