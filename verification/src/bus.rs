//! The subscription bus: what the state machines publish while the log is
//! applied is queued for each subscriber that asked for it, in the order it
//! was published. A subscriber that falls behind loses its oldest notices,
//! and never holds up the log.

use crate::membership::wire::{notices_view, Notice, NoticeView};
use std::collections::VecDeque;
use vstd::prelude::*;

verus! {

/// What a subscriber asks for: the notices of one function of one state
/// machine, under one key, or under every key where `key` is `None`.
#[derive(Clone, Copy, Debug, PartialEq, Eq)]
pub struct SubKey {
    pub sm_id: u64,
    pub fn_id: u64,
    pub key: Option<u64>,
}

/// Whether a notice is one that the subscriber asked for.
pub open spec fn wanted(filter: SubKey, sm_id: u64, notice: NoticeView) -> bool {
    &&& filter.sm_id == sm_id
    &&& filter.fn_id == notice.fn_id
    &&& (filter.key is None || filter.key == notice.key)
}

/// A subscription as the model sees it.
pub struct SubscriptionView {
    pub id: u64,
    pub filter: SubKey,
    /// The payloads that wait for the subscriber, the oldest first.
    pub queue: Seq<Seq<u8>>,
    /// How many payloads the subscriber lost.
    pub dropped: u64,
}

/// The bus as the model sees it.
pub struct BusView {
    pub subs: Seq<SubscriptionView>,
    pub next_id: u64,
    pub capacity: nat,
}

/// The count of lost payloads after one more: it stops at the largest value
/// that it can hold.
pub open spec fn bumped(dropped: u64) -> u64 {
    if dropped < u64::MAX {
        (dropped + 1) as u64
    } else {
        dropped
    }
}

/// A payload is queued for a subscriber. Where the queue is then longer than
/// the bus allows, the oldest payload is dropped and counted.
pub open spec fn enqueue(s: SubscriptionView, payload: Seq<u8>, capacity: nat) -> SubscriptionView {
    let queue = s.queue.push(payload);
    if queue.len() > capacity {
        SubscriptionView { queue: queue.drop_first(), dropped: bumped(s.dropped), ..s }
    } else {
        SubscriptionView { queue, ..s }
    }
}

/// What a notice does to a subscription: it is queued where the subscriber
/// asked for it, and passed over otherwise.
pub open spec fn deliver(
    s: SubscriptionView,
    sm_id: u64,
    notice: NoticeView,
    capacity: nat,
) -> SubscriptionView {
    if wanted(s.filter, sm_id, notice) {
        enqueue(s, notice.payload, capacity)
    } else {
        s
    }
}

/// What publishing a notice does to the bus.
pub open spec fn publish_step(b: BusView, sm_id: u64, notice: NoticeView) -> BusView {
    BusView {
        subs: Seq::new(b.subs.len(), |i: int| deliver(b.subs[i], sm_id, notice, b.capacity)),
        ..b
    }
}

/// What publishing notices one after the other does to the bus.
pub open spec fn publish_each(b: BusView, sm_id: u64, notices: Seq<NoticeView>) -> BusView
    decreases notices.len(),
{
    if notices.len() == 0 {
        b
    } else {
        publish_step(publish_each(b, sm_id, notices.drop_last()), sm_id, notices.last())
    }
}

/// Whether there is a subscription of the given id.
pub open spec fn has_subscription(subs: Seq<SubscriptionView>, id: u64) -> bool {
    exists|i: int| 0 <= i < subs.len() && (#[trigger] subs[i]).id == id
}

/// The place of the subscription of the given id.
pub open spec fn subscription_pos(subs: Seq<SubscriptionView>, id: u64) -> int {
    choose|i: int| 0 <= i < subs.len() && (#[trigger] subs[i]).id == id
}

impl BusView {
    /// The invariant of the bus: every subscription has an id of its own,
    /// below the next to be given out, and no queue is longer than allowed.
    pub open spec fn wf(self) -> bool {
        &&& forall|i: int, j: int|
            0 <= i < j < self.subs.len() ==> (#[trigger] self.subs[i]).id != (
            #[trigger] self.subs[j]).id
        &&& forall|i: int|
            0 <= i < self.subs.len() ==> (#[trigger] self.subs[i]).id < self.next_id
                && self.subs[i].queue.len() <= self.capacity
    }
}

/// A subscription and what waits for its subscriber.
pub struct Subscription {
    id: u64,
    filter: SubKey,
    queue: VecDeque<Vec<u8>>,
    dropped: u64,
}

/// The model of a queue of payloads.
pub open spec fn payloads_view(v: Seq<Vec<u8>>) -> Seq<Seq<u8>> {
    Seq::new(v.len(), |i: int| v[i]@)
}

impl View for Subscription {
    type V = SubscriptionView;

    closed spec fn view(&self) -> SubscriptionView {
        SubscriptionView {
            id: self.id,
            filter: self.filter,
            queue: payloads_view(self.queue@),
            dropped: self.dropped,
        }
    }
}

/// The subscription bus.
pub struct Bus {
    subs: Vec<Subscription>,
    next_id: u64,
    capacity: usize,
}

impl View for Bus {
    type V = BusView;

    closed spec fn view(&self) -> BusView {
        BusView {
            subs: Seq::new(self.subs@.len(), |i: int| self.subs@[i]@),
            next_id: self.next_id,
            capacity: self.capacity as nat,
        }
    }
}

/// Whether a notice is one that the subscriber asked for.
pub fn is_wanted(filter: &SubKey, sm_id: u64, notice: &Notice) -> (r: bool)
    ensures
        r == wanted(*filter, sm_id, notice@),
{
    if filter.sm_id != sm_id || filter.fn_id != notice.fn_id {
        return false;
    }
    match (filter.key, notice.key) {
        (None, _) => true,
        (Some(a), Some(b)) => a == b,
        (Some(_), None) => false,
    }
}

impl Subscription {
    /// Queues a payload, dropping the oldest where the queue is then longer
    /// than `capacity`.
    fn push(&mut self, payload: Vec<u8>, capacity: usize)
        ensures
            final(self)@ == enqueue(old(self)@, payload@, capacity as nat),
    {
        let ghost before = self@;
        self.queue.push_back(payload);
        proof {
            assert(payloads_view(self.queue@) =~= before.queue.push(payload@));
        }
        if self.queue.len() > capacity {
            let ghost full = payloads_view(self.queue@);
            self.queue.pop_front();
            if self.dropped < u64::MAX {
                self.dropped = self.dropped + 1;
            }
            proof {
                assert(payloads_view(self.queue@) =~= full.drop_first());
            }
        }
    }
}

impl Bus {
    /// The invariant of the bus.
    pub open spec fn wf(&self) -> bool {
        self@.wf()
    }

    /// A bus without subscribers, on which no more than `capacity` payloads
    /// wait for any one subscriber.
    pub fn new(capacity: usize) -> (r: Bus)
        ensures
            r.wf(),
            r@ == (BusView { subs: Seq::empty(), next_id: 0, capacity: capacity as nat }),
    {
        let r = Bus { subs: Vec::new(), next_id: 0, capacity };
        proof {
            assert(r@.subs =~= Seq::<SubscriptionView>::empty());
        }
        r
    }

    /// The position of the subscription `id`.
    fn index_of(&self, id: u64) -> (r: Option<usize>)
        requires
            self.wf(),
        ensures
            match r {
                Some(i) => i < self@.subs.len() && self@.subs[i as int].id == id && i
                    == subscription_pos(self@.subs, id),
                None => !has_subscription(self@.subs, id),
            },
            r is Some == has_subscription(self@.subs, id),
    {
        let mut i: usize = 0;
        while i < self.subs.len()
            invariant
                i <= self.subs.len(),
                self.wf(),
                forall|k: int| 0 <= k < i ==> (#[trigger] self@.subs[k]).id != id,
            decreases self.subs.len() - i,
        {
            if self.subs[i].id == id {
                proof {
                    assert(self@.subs[i as int].id == id);
                    let p = subscription_pos(self@.subs, id);
                    if p < i {
                        assert(self@.subs[p].id != self@.subs[i as int].id);
                    } else if i < p {
                        assert(self@.subs[i as int].id != self@.subs[p].id);
                    }
                }
                return Some(i);
            }
            i += 1;
        }
        None
    }

    /// Adds a subscription and gives its id: `None`, and no subscription,
    /// where the ids have run out.
    pub fn subscribe(&mut self, filter: SubKey) -> (r: Option<u64>)
        requires
            old(self).wf(),
        ensures
            final(self).wf(),
            match r {
                Some(id) => id == old(self)@.next_id && final(self)@ == (BusView {
                    subs: old(self)@.subs.push(
                        SubscriptionView { id, filter, queue: Seq::empty(), dropped: 0 },
                    ),
                    next_id: (id + 1) as u64,
                    capacity: old(self)@.capacity,
                }),
                None => old(self)@.next_id == u64::MAX && final(self)@ == old(self)@,
            },
    {
        if self.next_id == u64::MAX {
            return None;
        }
        let id = self.next_id;
        let ghost before = self@;
        let s = Subscription { id, filter, queue: VecDeque::new(), dropped: 0 };
        proof {
            assert(s@.queue =~= Seq::<Seq<u8>>::empty());
        }
        self.subs.push(s);
        self.next_id = id + 1;
        proof {
            assert(self@.subs =~= before.subs.push(
                SubscriptionView { id, filter, queue: Seq::empty(), dropped: 0 },
            ));
            assert forall|i: int, j: int| 0 <= i < j < self@.subs.len() implies (
            #[trigger] self@.subs[i]).id != (#[trigger] self@.subs[j]).id by {
                if j < before.subs.len() {
                    assert(before.subs[i].id != before.subs[j].id);
                } else {
                    assert(before.subs[i].id < before.next_id);
                }
            }
            assert forall|i: int| 0 <= i < self@.subs.len() implies (#[trigger] self@.subs[i]).id
                < self@.next_id && self@.subs[i].queue.len() <= self@.capacity by {
                if i < before.subs.len() {
                    assert(before.subs[i].id < before.next_id);
                }
            }
        }
        Some(id)
    }

    /// Removes a subscription, with what waits for it. The answer is whether
    /// there was one.
    pub fn unsubscribe(&mut self, id: u64) -> (r: bool)
        requires
            old(self).wf(),
        ensures
            final(self).wf(),
            r == has_subscription(old(self)@.subs, id),
            r ==> final(self)@ == (BusView {
                subs: old(self)@.subs.remove(subscription_pos(old(self)@.subs, id)),
                ..old(self)@
            }),
            !r ==> final(self)@ == old(self)@,
    {
        match self.index_of(id) {
            Some(at) => {
                let ghost before = self@;
                self.subs.remove(at);
                proof {
                    assert(self@.subs =~= before.subs.remove(at as int));
                    assert forall|i: int| 0 <= i < self@.subs.len() implies #[trigger] self@.subs[i]
                        == before.subs[if i < at {
                        i
                    } else {
                        i + 1
                    }] by {}
                    assert forall|i: int, j: int| 0 <= i < j < self@.subs.len() implies (
                    #[trigger] self@.subs[i]).id != (#[trigger] self@.subs[j]).id by {
                        let a = if i < at { i } else { i + 1 };
                        let b = if j < at { j } else { j + 1 };
                        assert(before.subs[a].id != before.subs[b].id);
                    }
                    assert forall|i: int| 0 <= i < self@.subs.len() implies (
                    #[trigger] self@.subs[i]).id < self@.next_id && self@.subs[i].queue.len()
                        <= self@.capacity by {
                        let a = if i < at { i } else { i + 1 };
                        assert(before.subs[a].id < before.next_id);
                    }
                }
                true
            },
            None => false,
        }
    }

    /// Publishes a notice of the state machine `sm_id`: it is queued for
    /// every subscriber that asked for it.
    pub fn publish(&mut self, sm_id: u64, notice: &Notice)
        requires
            old(self).wf(),
        ensures
            final(self).wf(),
            final(self)@ == publish_step(old(self)@, sm_id, notice@),
    {
        let ghost before = self@;
        let ghost goal = publish_step(before, sm_id, notice@);
        let n = self.subs.len();
        let mut i: usize = 0;
        while i < n
            invariant
                i <= n,
                n == self.subs.len(),
                n == before.subs.len(),
                before.wf(),
                before == old(self)@,
                goal == publish_step(before, sm_id, notice@),
                self@.next_id == before.next_id,
                self@.capacity == before.capacity,
                forall|k: int| 0 <= k < i ==> (#[trigger] self@.subs[k]) == goal.subs[k],
                forall|k: int| i <= k < n ==> (#[trigger] self@.subs[k]) == before.subs[k],
            decreases n - i,
        {
            let ghost cur = self@;
            proof {
                assert(cur.subs[i as int] == before.subs[i as int]);
                assert(self.subs[i as int]@ == cur.subs[i as int]);
            }
            if is_wanted(&self.subs[i].filter, sm_id, notice) {
                let capacity = self.capacity;
                self.subs[i].push(notice.payload.clone(), capacity);
            }
            proof {
                assert(self@.subs[i as int] == goal.subs[i as int]);
                assert forall|k: int| 0 <= k < n && k != i implies (#[trigger] self@.subs[k])
                    == cur.subs[k] by {}
            }
            i += 1;
        }
        proof {
            assert(self@.subs =~= goal.subs);
            assert forall|k: int| 0 <= k < goal.subs.len() implies (#[trigger] goal.subs[k]).id
                == before.subs[k].id && goal.subs[k].queue.len() <= before.capacity by {
                assert(before.subs[k].id < before.next_id);
            }
            assert forall|a: int, b: int| 0 <= a < b < goal.subs.len() implies (
            #[trigger] goal.subs[a]).id != (#[trigger] goal.subs[b]).id by {
                assert(before.subs[a].id != before.subs[b].id);
            }
            assert forall|k: int| 0 <= k < goal.subs.len() implies (#[trigger] goal.subs[k]).id
                < goal.next_id && goal.subs[k].queue.len() <= goal.capacity by {
                assert(before.subs[k].id < before.next_id);
            }
        }
    }

    /// Publishes notices of the state machine `sm_id`, one after the other.
    pub fn publish_all(&mut self, sm_id: u64, notices: &Vec<Notice>)
        requires
            old(self).wf(),
        ensures
            final(self).wf(),
            final(self)@ == publish_each(old(self)@, sm_id, notices_view(notices@)),
    {
        let ghost before = self@;
        let ghost all = notices_view(notices@);
        let mut i: usize = 0;
        while i < notices.len()
            invariant
                i <= notices.len(),
                self.wf(),
                all == notices_view(notices@),
                self@ == publish_each(before, sm_id, all.take(i as int)),
            decreases notices.len() - i,
        {
            proof {
                assert(all.take(i + 1).drop_last() =~= all.take(i as int));
                assert(all.take(i + 1).last() == notices[i as int]@);
            }
            self.publish(sm_id, &notices[i]);
            i += 1;
        }
        proof {
            assert(all.take(i as int) =~= all);
        }
    }

    /// Hands out what waits for a subscriber, the oldest first, and empties
    /// its queue: `None` where there is no such subscription.
    pub fn take(&mut self, id: u64) -> (r: Option<Vec<Vec<u8>>>)
        requires
            old(self).wf(),
        ensures
            final(self).wf(),
            r is Some == has_subscription(old(self)@.subs, id),
            match r {
                Some(v) => {
                    let at = subscription_pos(old(self)@.subs, id);
                    &&& payloads_view(v@) == old(self)@.subs[at].queue
                    &&& final(self)@ == (BusView {
                        subs: old(self)@.subs.update(
                            at,
                            SubscriptionView { queue: Seq::empty(), ..old(self)@.subs[at] },
                        ),
                        ..old(self)@
                    })
                },
                None => final(self)@ == old(self)@,
            },
    {
        let at = match self.index_of(id) {
            Some(i) => i,
            None => {
                return None;
            },
        };
        let ghost before = self@;
        let ghost waiting = before.subs[at as int].queue;
        let mut out: Vec<Vec<u8>> = Vec::new();
        proof {
            assert(payloads_view(out@) + waiting =~= waiting);
        }
        while self.subs[at].queue.len() > 0
            invariant
                at < self.subs.len(),
                self.subs.len() == before.subs.len(),
                self@.next_id == before.next_id,
                self@.capacity == before.capacity,
                forall|k: int| 0 <= k < self.subs.len() && k != at ==> (#[trigger] self@.subs[k])
                    == before.subs[k],
                self@.subs[at as int].id == before.subs[at as int].id,
                self@.subs[at as int].filter == before.subs[at as int].filter,
                self@.subs[at as int].dropped == before.subs[at as int].dropped,
                payloads_view(out@) + self@.subs[at as int].queue == waiting,
            decreases self.subs[at as int].queue@.len(),
        {
            let ghost cur = self@;
            let ghost handed = payloads_view(out@);
            let ghost left = self@.subs[at as int].queue;
            let item = self.subs[at].queue.pop_front();
            let payload = item.unwrap();
            out.push(payload);
            proof {
                assert(self@.subs[at as int].queue =~= left.drop_first());
                assert(payloads_view(out@) =~= handed.push(left[0]));
                assert(handed.push(left[0]) + left.drop_first() =~= handed + left);
                assert forall|k: int| 0 <= k < self.subs.len() && k != at implies (
                #[trigger] self@.subs[k]) == cur.subs[k] by {}
            }
        }
        proof {
            assert(self@.subs[at as int].queue =~= Seq::<Seq<u8>>::empty());
            assert(payloads_view(out@) + Seq::<Seq<u8>>::empty() =~= payloads_view(out@));
            let emptied = SubscriptionView { queue: Seq::empty(), ..before.subs[at as int] };
            assert(self@.subs[at as int] == emptied);
            assert(self@.subs =~= before.subs.update(at as int, emptied));
            assert forall|i: int, j: int| 0 <= i < j < self@.subs.len() implies (
            #[trigger] self@.subs[i]).id != (#[trigger] self@.subs[j]).id by {
                assert(before.subs[i].id != before.subs[j].id);
            }
            assert forall|i: int| 0 <= i < self@.subs.len() implies (#[trigger] self@.subs[i]).id
                < self@.next_id && self@.subs[i].queue.len() <= self@.capacity by {
                assert(before.subs[i].id < before.next_id);
            }
        }
        Some(out)
    }

    /// How many payloads a subscriber lost: `None` where there is no such
    /// subscription.
    pub fn dropped(&self, id: u64) -> (r: Option<u64>)
        requires
            self.wf(),
        ensures
            r == if has_subscription(self@.subs, id) {
                Some(self@.subs[subscription_pos(self@.subs, id)].dropped)
            } else {
                None
            },
    {
        match self.index_of(id) {
            Some(at) => Some(self.subs[at].dropped),
            None => None,
        }
    }

    /// How many payloads wait for a subscriber: `None` where there is no such
    /// subscription.
    pub fn pending(&self, id: u64) -> (r: Option<usize>)
        requires
            self.wf(),
        ensures
            match r {
                Some(n) => has_subscription(self@.subs, id) && n == self@.subs[subscription_pos(
                    self@.subs,
                    id,
                )].queue.len(),
                None => !has_subscription(self@.subs, id),
            },
    {
        match self.index_of(id) {
            Some(at) => Some(self.subs[at].queue.len()),
            None => None,
        }
    }
}

/// The payloads, among those of `notices`, that a subscriber asked for, in
/// the order they were published.
pub open spec fn wanted_payloads(
    filter: SubKey,
    sm_id: u64,
    notices: Seq<NoticeView>,
) -> Seq<Seq<u8>>
    decreases notices.len(),
{
    if notices.len() == 0 {
        Seq::empty()
    } else {
        let before = wanted_payloads(filter, sm_id, notices.drop_last());
        if wanted(filter, sm_id, notices.last()) {
            before.push(notices.last().payload)
        } else {
            before
        }
    }
}

/// The newest `capacity` of the payloads that were queued.
pub open spec fn newest(all: Seq<Seq<u8>>, capacity: nat) -> Seq<Seq<u8>> {
    if all.len() <= capacity {
        all
    } else {
        all.skip(all.len() - capacity)
    }
}

/// Publishing changes no subscription but for its queue and its count of
/// losses.
pub proof fn lemma_publish_keeps_subscribers(b: BusView, sm_id: u64, notices: Seq<NoticeView>)
    ensures
        publish_each(b, sm_id, notices).subs.len() == b.subs.len(),
        publish_each(b, sm_id, notices).capacity == b.capacity,
        publish_each(b, sm_id, notices).next_id == b.next_id,
        forall|i: int|
            0 <= i < b.subs.len() ==> (#[trigger] publish_each(b, sm_id, notices).subs[i]).id
                == b.subs[i].id && publish_each(b, sm_id, notices).subs[i].filter
                == b.subs[i].filter,
    decreases notices.len(),
{
    if notices.len() > 0 {
        lemma_publish_keeps_subscribers(b, sm_id, notices.drop_last());
    }
}

/// Every notice reaches every subscriber that asked for it exactly once, in
/// the order of publication: after any run of notices a subscriber's queue
/// holds what waited before and, behind it, each payload that it asked for,
/// in order. Where that is more than the bus allows, the queue holds the
/// newest of them: the oldest were dropped.
pub proof fn law_delivery_in_order(b: BusView, sm_id: u64, notices: Seq<NoticeView>, i: int)
    requires
        0 <= i < b.subs.len(),
        b.subs[i].queue.len() <= b.capacity,
    ensures
        publish_each(b, sm_id, notices).subs.len() == b.subs.len(),
        publish_each(b, sm_id, notices).subs[i].queue == newest(
            b.subs[i].queue + wanted_payloads(b.subs[i].filter, sm_id, notices),
            b.capacity,
        ),
        b.subs[i].queue.len() + wanted_payloads(b.subs[i].filter, sm_id, notices).len()
            <= b.capacity ==> publish_each(b, sm_id, notices).subs[i].dropped
            == b.subs[i].dropped,
    decreases notices.len(),
{
    let filter = b.subs[i].filter;
    let cap = b.capacity;
    if notices.len() == 0 {
        assert(b.subs[i].queue + wanted_payloads(filter, sm_id, notices) =~= b.subs[i].queue);
    } else {
        let front = notices.drop_last();
        let last = notices.last();
        let mid = publish_each(b, sm_id, front);
        law_delivery_in_order(b, sm_id, front, i);
        lemma_publish_keeps_subscribers(b, sm_id, front);
        let total = b.subs[i].queue + wanted_payloads(filter, sm_id, front);
        let s = mid.subs[i];
        assert(s.queue == newest(total, cap));
        let next = publish_each(b, sm_id, notices).subs[i];
        assert(next == deliver(s, sm_id, last, cap));
        if wanted(filter, sm_id, last) {
            let grown = total.push(last.payload);
            assert(b.subs[i].queue + wanted_payloads(filter, sm_id, notices) =~= grown);
            let q = s.queue.push(last.payload);
            if q.len() > cap {
                assert(q.drop_first() =~= newest(grown, cap));
            } else {
                assert(q =~= newest(grown, cap));
            }
        }
    }
}

} // verus!
