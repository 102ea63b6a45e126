//! The snapshot of the host: the snapshots of its state machines, each under
//! its id, as one block of bytes.

use crate::codec::{
    dec_bytes, dec_u64, enc_bytes, enc_u64, get_bytes, get_u64, holds, lemma_bytes_round,
    lemma_holds_split, lemma_holds_whole, lemma_u64_len, lemma_u64_round,
};
use crate::membership::snapshot::{at_rest, enc_state, law_snapshot_round, state_fits};
use crate::raft::configs::{
    dec_peers, distinct_peers, enc_peers, law_peers_round, peers_fit, ConfigView, CONFIG_SM_ID,
};
use crate::raft::master::MasterView;
use crate::raft::sub::{sub_recover, SubView};
use vstd::prelude::*;
use vstd::slice::slice_to_vec;

verus! {

/// One snapshot under the id of its state machine.
pub open spec fn enc_item(item: (u64, Seq<u8>)) -> Seq<u8> {
    enc_u64(item.0) + enc_bytes(item.1)
}

/// Snapshots one after the other.
pub open spec fn enc_item_each(items: Seq<(u64, Seq<u8>)>) -> Seq<u8>
    decreases items.len(),
{
    if items.len() == 0 {
        Seq::empty()
    } else {
        enc_item_each(items.drop_last()) + enc_item(items.last())
    }
}

/// The snapshots as bytes: how many, then each under its id.
pub open spec fn enc_items(items: Seq<(u64, Seq<u8>)>) -> Seq<u8> {
    enc_u64(items.len() as u64) + enc_item_each(items)
}

/// Reads one snapshot at `pos`.
pub open spec fn dec_item(data: Seq<u8>, pos: int) -> Option<((u64, Seq<u8>), int)> {
    match dec_u64(data, pos) {
        Some((id, p)) => match dec_bytes(data, p) {
            Some((blob, q)) => Some(((id, blob), q)),
            None => None,
        },
        None => None,
    }
}

/// Reads `n` snapshots from `pos` on.
pub open spec fn dec_item_each(data: Seq<u8>, pos: int, n: nat) -> Option<
    (Seq<(u64, Seq<u8>)>, int),
>
    decreases n,
{
    if n == 0 {
        Some((Seq::empty(), pos))
    } else {
        match dec_item_each(data, pos, (n - 1) as nat) {
            Some((items, p)) => match dec_item(data, p) {
                Some((item, q)) => Some((items.push(item), q)),
                None => None,
            },
            None => None,
        }
    }
}

/// The snapshots that a block of bytes holds, where it holds nothing else.
pub open spec fn dec_items(data: Seq<u8>) -> Option<Seq<(u64, Seq<u8>)>> {
    match dec_u64(data, 0) {
        Some((n, p)) => match dec_item_each(data, p, n as nat) {
            Some((items, end)) => if end == data.len() {
                Some(items)
            } else {
                None
            },
            None => None,
        },
        None => None,
    }
}

/// The snapshots of the registered state machines, in the order of `order`.
pub open spec fn sub_items(subs: Map<u64, SubView>, order: Seq<u64>) -> Seq<(u64, Seq<u8>)>
    decreases order.len(),
{
    if order.len() == 0 {
        Seq::empty()
    } else {
        sub_items(subs, order.drop_last()).push(
            (order.last(), enc_state(subs[order.last()].state)),
        )
    }
}

/// What the host's snapshot holds: the snapshots of the registered state
/// machines in the order they were registered, then that of the
/// configuration.
pub open spec fn snapshot_items(m: MasterView) -> Seq<(u64, Seq<u8>)> {
    sub_items(m.subs, m.order).push((CONFIG_SM_ID, enc_peers(m.configs.peers)))
}

/// What one snapshot does to the host: the state machine that it names
/// recovers it at once; where none is registered under its id, it is held
/// back for the one that will be.
pub open spec fn restore_one(m: MasterView, item: (u64, Seq<u8>)) -> MasterView {
    if item.0 == CONFIG_SM_ID {
        match dec_peers(item.1) {
            Some(peers) => MasterView {
                configs: ConfigView { service_id: m.configs.service_id, peers },
                ..m
            },
            None => m,
        }
    } else if m.subs.contains_key(item.0) {
        MasterView { subs: m.subs.insert(item.0, sub_recover(m.subs[item.0], item.1)), ..m }
    } else {
        MasterView { snapshots: m.snapshots.insert(item.0, item.1), ..m }
    }
}

/// What a list of snapshots does to the host, one after the other.
pub open spec fn restore_each(m: MasterView, items: Seq<(u64, Seq<u8>)>) -> MasterView
    decreases items.len(),
{
    if items.len() == 0 {
        m
    } else {
        restore_one(restore_each(m, items.drop_last()), items.last())
    }
}

/// The model of a list of snapshots.
pub open spec fn items_view(v: Seq<(u64, Vec<u8>)>) -> Seq<(u64, Seq<u8>)> {
    Seq::new(v.len(), |i: int| (v[i].0, v[i].1@))
}

/// Where the first snapshots cannot be read, more cannot either.
pub proof fn lemma_items_stuck(data: Seq<u8>, pos: int, k: nat, n: nat)
    requires
        dec_item_each(data, pos, k) is None,
        k <= n,
    ensures
        dec_item_each(data, pos, n) is None,
    decreases n,
{
    if k < n {
        lemma_items_stuck(data, pos, k, (n - 1) as nat);
    }
}

/// Reads the snapshots that a block of bytes holds.
pub fn get_items(data: &[u8]) -> (r: Option<Vec<(u64, Vec<u8>)>>)
    ensures
        match r {
            Some(v) => dec_items(data@) == Some(items_view(v@)),
            None => dec_items(data@) is None,
        },
{
    let (n, start) = match get_u64(data, 0) {
        Some(r) => r,
        None => {
            return None;
        },
    };
    let mut out: Vec<(u64, Vec<u8>)> = Vec::new();
    let mut p: usize = start;
    let mut i: u64 = 0;
    proof {
        assert(items_view(out@) =~= Seq::<(u64, Seq<u8>)>::empty());
    }
    while i < n
        invariant
            i <= n,
            dec_u64(data@, 0) == Some((n, start as int)),
            dec_item_each(data@, start as int, i as nat) == Some((items_view(out@), p as int)),
        decreases n - i,
    {
        let ghost listed = items_view(out@);
        proof {
            assert(dec_item_each(data@, start as int, ((i + 1) - 1) as nat) == Some(
                (listed, p as int),
            ));
        }
        let (id, a) = match get_u64(data, p) {
            Some(r) => r,
            None => {
                proof {
                    lemma_items_stuck(data@, start as int, (i + 1) as nat, n as nat);
                }
                return None;
            },
        };
        let (blob, b) = match get_bytes(data, a) {
            Some(r) => r,
            None => {
                proof {
                    lemma_items_stuck(data@, start as int, (i + 1) as nat, n as nat);
                }
                return None;
            },
        };
        let item = (id, slice_to_vec(blob));
        proof {
            assert(items_view(out@.push(item)) =~= listed.push((id, blob@)));
        }
        out.push(item);
        p = b;
        i += 1;
    }
    if p != data.len() {
        return None;
    }
    Some(out)
}

/// A snapshot that was written is read back.
pub proof fn lemma_item_round(data: Seq<u8>, pos: int, item: (u64, Seq<u8>))
    requires
        item.1.len() <= u64::MAX,
        holds(data, pos, enc_item(item)),
    ensures
        dec_item(data, pos) == Some((item, pos + enc_item(item).len())),
{
    lemma_holds_split(data, pos, enc_u64(item.0), enc_bytes(item.1));
    lemma_u64_len(item.0);
    lemma_u64_round(data, pos, item.0);
    lemma_bytes_round(data, pos + 8, item.1);
}

/// Snapshots that were written one after the other are read back.
pub proof fn lemma_item_each_round(data: Seq<u8>, pos: int, items: Seq<(u64, Seq<u8>)>)
    requires
        forall|i: int| 0 <= i < items.len() ==> (#[trigger] items[i]).1.len() <= u64::MAX,
        holds(data, pos, enc_item_each(items)),
    ensures
        dec_item_each(data, pos, items.len()) == Some((items, pos + enc_item_each(items).len())),
    decreases items.len(),
{
    if items.len() == 0 {
        assert(items =~= Seq::<(u64, Seq<u8>)>::empty());
    } else {
        let front = items.drop_last();
        lemma_holds_split(data, pos, enc_item_each(front), enc_item(items.last()));
        assert forall|i: int| 0 <= i < front.len() implies (#[trigger] front[i]).1.len()
            <= u64::MAX by {
            assert(front[i] == items[i]);
        }
        lemma_item_each_round(data, pos, front);
        assert(items.last() == items[items.len() - 1]);
        lemma_item_round(data, pos + enc_item_each(front).len(), items.last());
        assert(front.push(items.last()) =~= items);
    }
}

/// The host's snapshots, once written, are read back as they were.
pub proof fn law_items_round(items: Seq<(u64, Seq<u8>)>)
    requires
        items.len() <= u64::MAX,
        forall|i: int| 0 <= i < items.len() ==> (#[trigger] items[i]).1.len() <= u64::MAX,
    ensures
        dec_items(enc_items(items)) == Some(items),
{
    let data = enc_items(items);
    lemma_holds_whole(data);
    lemma_holds_split(data, 0, enc_u64(items.len() as u64), enc_item_each(items));
    lemma_u64_len(items.len() as u64);
    lemma_u64_round(data, 0, items.len() as u64);
    lemma_item_each_round(data, 8, items);
}

/// Restoring the snapshots of registered state machines touches nothing but
/// those state machines: each is at rest in the state that its snapshot was
/// taken of.
pub proof fn lemma_restore_subs(m: MasterView, f: MasterView, n: int)
    requires
        m.wf(),
        f.wf(),
        f.order == m.order,
        0 <= n <= m.order.len(),
        forall|k: u64| #[trigger] m.subs.contains_key(k) ==> state_fits(m.subs[k].state),
    ensures
        ({
            let r = restore_each(f, sub_items(m.subs, m.order.take(n)));
            &&& r.order == f.order
            &&& r.snapshots == f.snapshots
            &&& r.configs == f.configs
            &&& r.subs.dom() == f.subs.dom()
            &&& forall|k: u64| #[trigger]
                r.subs.contains_key(k) ==> r.subs[k] == if m.order.take(n).contains(k) {
                    (SubView { id: k, state: at_rest(m.subs[k].state) })
                } else {
                    f.subs[k]
                }
        }),
    decreases n,
{
    let order = m.order.take(n);
    if n == 0 {
        assert(sub_items(m.subs, order) =~= Seq::<(u64, Seq<u8>)>::empty());
    } else {
        let front = m.order.take(n - 1);
        let id = m.order[n - 1];
        assert(order.drop_last() =~= front);
        assert(order.last() == id);
        lemma_restore_subs(m, f, n - 1);
        let items = sub_items(m.subs, order);
        let item = (id, enc_state(m.subs[id].state));
        assert(items == sub_items(m.subs, front).push(item));
        assert(items.drop_last() =~= sub_items(m.subs, front));
        assert(items.last() == item);
        let mid = restore_each(f, sub_items(m.subs, front));
        let r = restore_one(mid, item);
        assert(restore_each(f, items) == r);
        assert(m.order.contains(id));
        assert(m.subs.contains_key(id));
        assert(f.order.contains(id));
        assert(f.subs.contains_key(id));
        assert(mid.subs.dom().contains(id));
        law_snapshot_round(m.subs[id].state);
        assert(!front.contains(id)) by {
            if front.contains(id) {
                let w = choose|w: int| 0 <= w < front.len() && front[w] == id;
                assert(m.order[w] == m.order[n - 1]);
            }
        }
        assert(r.subs.dom() =~= f.subs.dom());
        assert forall|k: u64| #[trigger] r.subs.contains_key(k) implies r.subs[k] == if order.contains(
            k,
        ) {
            SubView { id: k, state: at_rest(m.subs[k].state) }
        } else {
            f.subs[k]
        } by {
            assert(mid.subs.contains_key(k));
            if k == id {
                assert(order[n - 1] == id);
            } else {
                if order.contains(k) {
                    let w = choose|w: int| 0 <= w < order.len() && order[w] == k;
                    assert(front[w] == k);
                }
                if front.contains(k) {
                    let w = choose|w: int| 0 <= w < front.len() && front[w] == k;
                    assert(order[w] == k);
                }
            }
        }
    }
}

/// A replica that has the same state machines registered and recovers the
/// host's snapshot holds what the snapshot was taken of: every state machine
/// at rest in the state that it had, and the same peers.
pub proof fn law_host_snapshot_round(m: MasterView, f: MasterView)
    requires
        m.wf(),
        f.wf(),
        f.order == m.order,
        distinct_peers(m.configs.peers),
        peers_fit(m.configs.peers),
        forall|k: u64| #[trigger] m.subs.contains_key(k) ==> state_fits(m.subs[k].state),
    ensures
        ({
            let r = restore_each(f, snapshot_items(m));
            &&& r.order == m.order
            &&& r.subs.dom() == m.subs.dom()
            &&& forall|k: u64| #[trigger]
                m.subs.contains_key(k) ==> r.subs[k] == (SubView {
                    id: k,
                    state: at_rest(m.subs[k].state),
                })
            &&& r.configs.peers == m.configs.peers
            &&& r.configs.service_id == f.configs.service_id
            &&& r.snapshots == f.snapshots
        }),
{
    let subs = sub_items(m.subs, m.order);
    let item = (CONFIG_SM_ID, enc_peers(m.configs.peers));
    let items = snapshot_items(m);
    assert(m.order.take(m.order.len() as int) =~= m.order);
    lemma_restore_subs(m, f, m.order.len() as int);
    assert(items.drop_last() =~= subs);
    assert(items.last() == item);
    law_peers_round(m.configs.peers);
    let mid = restore_each(f, subs);
    let r = restore_each(f, items);
    assert(r == restore_one(mid, item));
    assert(f.subs.dom() =~= m.subs.dom()) by {
        assert forall|k: u64| f.subs.contains_key(k) <==> m.subs.contains_key(k) by {
            assert(f.subs.contains_key(k) <==> f.order.contains(k));
            assert(m.subs.contains_key(k) <==> m.order.contains(k));
        }
    }
    assert forall|k: u64| #[trigger] m.subs.contains_key(k) implies r.subs[k] == (SubView {
        id: k,
        state: at_rest(m.subs[k].state),
    }) by {
        assert(m.order.contains(k));
        assert(mid.subs.contains_key(k));
    }
}

} // verus!
