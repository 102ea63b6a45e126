//! The master state machine: it routes every log entry to the state machine
//! that the entry names, keeps the registry of those state machines, and
//! gathers and hands out their snapshots.

use crate::codec::{put_bytes, put_len, put_u64};
use crate::membership::wire::{notices_view, Notice, NoticeView};
use crate::raft::configs::{
    config_cmd, config_qry, ConfigView, Configures, RaftMember, CONFIG_SM_ID,
};
use crate::raft::snapshot::{
    dec_items, enc_item, enc_item_each, enc_items, get_items, items_view, restore_each, restore_one,
    snapshot_items, sub_items,
};
use crate::raft::sub::{sub_cmd, sub_has_room, sub_qry, sub_recover, SubStateMachine, SubView};
use std::collections::HashMap;
use vstd::prelude::*;

verus! {

/// Why a command or a query was not carried out.
#[derive(Clone, Copy, Debug, PartialEq, Eq, Structural)]
pub enum ExecError {
    SmNotFound,
    FnNotFound,
    ServersUnreachable,
    CannotConstructClient,
    NotCommitted,
    Unknown,
    TooManyRetry,
}

/// What became of a registration.
#[derive(Clone, Copy, Debug, PartialEq, Eq, Structural)]
pub enum RegisterResult {
    OK,
    EXISTED,
    RESERVED,
}

/// The output of a call that was carried out.
pub type ExecOk = Vec<u8>;

/// The outcome of a call.
pub type ExecResult = Result<ExecOk, ExecError>;

/// The snapshot of one state machine, under its id.
pub type SnapshotDataItem = (u64, Vec<u8>);

/// The snapshots of all state machines.
pub type SnapshotDataItems = Vec<SnapshotDataItem>;

/// An entry of the replicated log.
#[derive(Debug, PartialEq, Eq)]
pub struct LogEntry {
    pub index: u64,
    pub term: u64,
    pub sm_id: u64,
    pub fn_id: u64,
    pub data: Vec<u8>,
}

/// What an entry asks for, as the model sees it: the state machine, its
/// function, and the payload.
pub struct EntryView {
    pub sm_id: u64,
    pub fn_id: u64,
    pub data: Seq<u8>,
}

impl View for LogEntry {
    type V = EntryView;

    open spec fn view(&self) -> EntryView {
        EntryView { sm_id: self.sm_id, fn_id: self.fn_id, data: self.data@ }
    }
}

/// The model of a stretch of the log.
pub open spec fn entries_view(v: Seq<LogEntry>) -> Seq<EntryView> {
    Seq::new(v.len(), |i: int| v[i]@)
}

/// The model of the outcomes of a stretch of the log.
pub open spec fn results_view(v: Seq<ExecResult>) -> Seq<Result<Seq<u8>, ExecError>> {
    Seq::new(v.len(), |i: int| result_view(v[i]))
}

impl ExecError {
    /// The name of the error.
    pub fn to_string(&self) -> (r: String)
        ensures
            r@ == error_name(*self)@,
    {
        match self {
            ExecError::SmNotFound => "SmNotFound".to_owned(),
            ExecError::FnNotFound => "FnNotFound".to_owned(),
            ExecError::ServersUnreachable => "ServersUnreachable".to_owned(),
            ExecError::CannotConstructClient => "CannotConstructClient".to_owned(),
            ExecError::NotCommitted => "NotCommitted".to_owned(),
            ExecError::Unknown => "Unknown".to_owned(),
            ExecError::TooManyRetry => "TooManyRetry".to_owned(),
        }
    }
}

/// The name of an error.
pub open spec fn error_name(e: ExecError) -> &'static str {
    match e {
        ExecError::SmNotFound => "SmNotFound",
        ExecError::FnNotFound => "FnNotFound",
        ExecError::ServersUnreachable => "ServersUnreachable",
        ExecError::CannotConstructClient => "CannotConstructClient",
        ExecError::NotCommitted => "NotCommitted",
        ExecError::Unknown => "Unknown",
        ExecError::TooManyRetry => "TooManyRetry",
    }
}

/// The master state machine as the model sees it.
pub struct MasterView {
    /// The registered state machines by id.
    pub subs: Map<u64, SubView>,
    /// Their ids in the order they were registered.
    pub order: Seq<u64>,
    /// The snapshots held back for state machines that are not registered
    /// yet.
    pub snapshots: Map<u64, Seq<u8>>,
    pub configs: ConfigView,
}

impl MasterView {
    /// The invariant of the registry: every registered state machine is
    /// listed once, under its own id, which is not a reserved one, and is
    /// sound.
    pub open spec fn wf(self) -> bool {
        &&& self.order.no_duplicates()
        &&& forall|k: u64|
            #![trigger self.subs.contains_key(k)]
            #![trigger self.order.contains(k)]
            self.subs.contains_key(k) <==> self.order.contains(k)
        &&& forall|k: u64| #[trigger]
            self.subs.contains_key(k) ==> self.subs[k].id == k && k >= 2 && self.subs[k].state.wf()
    }
}

/// The outcome of a state machine's own dispatch as the outcome of the call:
/// its output, or `FnNotFound` where it knew no such function.
pub open spec fn output_of(r: Option<Seq<u8>>) -> Result<Seq<u8>, ExecError> {
    match r {
        Some(d) => Ok(d),
        None => Err(ExecError::FnNotFound),
    }
}

/// What committing a command does.
pub struct Commit {
    pub next: MasterView,
    pub result: Result<Seq<u8>, ExecError>,
    pub notices: Seq<NoticeView>,
}

/// A command is routed by the id of its state machine: to the configuration,
/// to a registered state machine, or to nobody (`SmNotFound`). A state
/// machine whose clock has no room left for the command refuses it
/// (`Unknown`); one that knows no such function changes nothing
/// (`FnNotFound`).
pub open spec fn commit_step(m: MasterView, sm_id: u64, fn_id: u64, data: Seq<u8>) -> Commit {
    if sm_id == CONFIG_SM_ID {
        match config_cmd(m.configs.peers, fn_id, data) {
            Some((peers, reply)) => Commit {
                next: MasterView {
                    configs: ConfigView { service_id: m.configs.service_id, peers },
                    ..m
                },
                result: Ok(reply),
                notices: Seq::empty(),
            },
            None => Commit { next: m, result: Err(ExecError::FnNotFound), notices: Seq::empty() },
        }
    } else if m.subs.contains_key(sm_id) {
        let sub = m.subs[sm_id];
        if sub_has_room(sub, data.len()) {
            let step = sub_cmd(sub, fn_id, data);
            Commit {
                next: MasterView { subs: m.subs.insert(sm_id, step.next), ..m },
                result: output_of(step.reply),
                notices: step.notices,
            }
        } else {
            Commit { next: m, result: Err(ExecError::Unknown), notices: Seq::empty() }
        }
    } else {
        Commit { next: m, result: Err(ExecError::SmNotFound), notices: Seq::empty() }
    }
}

/// A query is routed as a command is, and changes nothing.
pub open spec fn query_step(m: MasterView, sm_id: u64, fn_id: u64, data: Seq<u8>) -> Result<
    Seq<u8>,
    ExecError,
> {
    if sm_id == CONFIG_SM_ID {
        output_of(config_qry(m.configs.peers, fn_id, data))
    } else if m.subs.contains_key(sm_id) {
        output_of(sub_qry(m.subs[sm_id], fn_id, data))
    } else {
        Err(ExecError::SmNotFound)
    }
}

/// What a registration does: nothing under a reserved id or one that is
/// taken; else the state machine goes live, after recovering the snapshot
/// that was held back for its id, if there is one.
pub open spec fn register_step(m: MasterView, sub: SubView) -> (RegisterResult, MasterView) {
    if sub.id < 2 {
        (RegisterResult::RESERVED, m)
    } else if m.subs.contains_key(sub.id) {
        (RegisterResult::EXISTED, m)
    } else {
        let live = if m.snapshots.contains_key(sub.id) {
            sub_recover(sub, m.snapshots[sub.id])
        } else {
            sub
        };
        (
            RegisterResult::OK,
            MasterView {
                subs: m.subs.insert(sub.id, live),
                order: m.order.push(sub.id),
                snapshots: m.snapshots.remove(sub.id),
                configs: m.configs,
            },
        )
    }
}

/// The result of a call as the model sees it.
pub open spec fn result_view(r: ExecResult) -> Result<Seq<u8>, ExecError> {
    match r {
        Ok(d) => Ok(d@),
        Err(e) => Err(e),
    }
}

/// The master state machine.
pub struct MasterStateMachine {
    subs: HashMap<u64, SubStateMachine>,
    order: Vec<u64>,
    snapshots: HashMap<u64, Vec<u8>>,
    pub configs: Configures,
}

impl View for MasterStateMachine {
    type V = MasterView;

    closed spec fn view(&self) -> MasterView {
        MasterView {
            subs: Map::new(|k: u64| self.subs@.contains_key(k), |k: u64| self.subs@[k]@),
            order: self.order@,
            snapshots: Map::new(
                |k: u64| self.snapshots@.contains_key(k),
                |k: u64| self.snapshots@[k]@,
            ),
            configs: self.configs@,
        }
    }
}

/// The outcome of a state machine's own dispatch as the outcome of the call.
pub fn parse_output(r: Option<Vec<u8>>) -> (out: ExecResult)
    ensures
        match r {
            Some(d) => out == Ok::<Vec<u8>, ExecError>(d),
            None => out == Err::<Vec<u8>, ExecError>(ExecError::FnNotFound),
        },
{
    if let Some(d) = r {
        Ok(d)
    } else {
        Err(ExecError::FnNotFound)
    }
}

impl MasterStateMachine {
    /// The invariant: that of the registry, and that of the configuration.
    pub open spec fn wf(&self) -> bool {
        self@.wf() && self.config().wf()
    }

    /// The configuration state machine.
    pub closed spec fn config(&self) -> Configures {
        self.configs
    }

    /// A master state machine without registered state machines, held-back
    /// snapshots or peers.
    pub fn new(service_id: u64) -> (msm: MasterStateMachine)
        ensures
            msm.wf(),
            msm@ == (MasterView {
                subs: Map::empty(),
                order: Seq::empty(),
                snapshots: Map::empty(),
                configs: ConfigView { service_id, peers: Seq::empty() },
            }),
    {
        let msm = MasterStateMachine {
            subs: HashMap::new(),
            order: Vec::new(),
            snapshots: HashMap::new(),
            configs: Configures::new(service_id),
        };
        proof {
            assert(msm@.subs =~= Map::<u64, SubView>::empty());
            assert(msm@.snapshots =~= Map::<u64, Seq<u8>>::empty());
        }
        msm
    }

    /// The id of the master state machine itself.
    pub fn id(&self) -> (r: u64)
        ensures
            r == 0,
    {
        0
    }

    /// Registers a state machine.
    pub fn register(&mut self, smc: SubStateMachine) -> (r: RegisterResult)
        requires
            old(self).wf(),
            smc.wf(),
        ensures
            final(self).wf(),
            (r, final(self)@) == register_step(old(self)@, smc@),
    {
        broadcast use vstd::std_specs::hash::group_hash_axioms;

        let ghost given = smc@;
        let mut smc = smc;
        let id = smc.id();
        if id < 2 {
            return RegisterResult::RESERVED;
        }
        if self.subs.contains_key(&id) {
            return RegisterResult::EXISTED;
        }
        let ghost before = self@;
        if let Some(snapshot) = self.snapshots.remove(&id) {
            smc.recover(snapshot.as_slice());
        }
        self.subs.insert(id, smc);
        self.order.push(id);
        proof {
            let goal = register_step(before, given).1;
            assert(self@.subs =~= goal.subs);
            assert(self@.snapshots =~= goal.snapshots);
            assert forall|i: int| 0 <= i < before.order.len() implies before.order[i] != id by {
                assert(before.order.contains(before.order[i]));
            }
            assert forall|k: u64| self@.subs.contains_key(k) <==> self@.order.contains(k) by {
                if self@.order.contains(k) {
                    let i = choose|i: int| 0 <= i < self@.order.len() && self@.order[i] == k;
                    if i < before.order.len() {
                        assert(before.order.contains(k));
                    }
                }
                if self@.subs.contains_key(k) {
                    if k == id {
                        assert(self@.order[before.order.len() as int] == id);
                    } else {
                        assert(before.order.contains(k));
                        let i = choose|i: int| 0 <= i < before.order.len() && before.order[i] == k;
                        assert(self@.order[i] == k);
                    }
                }
            }
        }
        RegisterResult::OK
    }

    /// The peers of the consensus layer, by id.
    pub fn members(&self) -> (r: &HashMap<u64, RaftMember>)
        ensures
            r@ == self.config().member_map(),
    {
        self.configs.members()
    }

    /// Commits a command of the log, and appends the notices of what it did.
    pub fn commit_cmd(&mut self, entry: &LogEntry, notices: &mut Vec<Notice>) -> (r: ExecResult)
        requires
            old(self).wf(),
        ensures
            final(self).wf(),
            final(self)@ == commit_step(old(self)@, entry.sm_id, entry.fn_id, entry.data@).next,
            result_view(r) == commit_step(old(self)@, entry.sm_id, entry.fn_id, entry.data@).result,
            notices_view(final(notices)@) == notices_view(old(notices)@) + commit_step(
                old(self)@,
                entry.sm_id,
                entry.fn_id,
                entry.data@,
            ).notices,
    {
        broadcast use vstd::std_specs::hash::group_hash_axioms;

        let ghost before = self@;
        let ghost goal = commit_step(before, entry.sm_id, entry.fn_id, entry.data@);
        proof {
            assert(notices_view(notices@) + Seq::<NoticeView>::empty() =~= notices_view(notices@));
        }
        if entry.sm_id == CONFIG_SM_ID {
            let r = parse_output(self.configs.fn_dispatch_cmd(entry.fn_id, entry.data.as_slice()));
            proof {
                assert(self@.subs =~= before.subs);
                assert(self@.snapshots =~= before.snapshots);
                assert(self@.configs == goal.next.configs);
            }
            r
        } else if self.subs.contains_key(&entry.sm_id) {
            let mut sub = self.subs.remove(&entry.sm_id).unwrap();
            proof {
                assert(before.subs.contains_key(entry.sm_id));
                assert(sub@ == before.subs[entry.sm_id]);
            }
            let r = if sub.can_take(entry.data.len()) {
                parse_output(sub.fn_dispatch_cmd(entry.fn_id, entry.data.as_slice(), notices))
            } else {
                Err(ExecError::Unknown)
            };
            self.subs.insert(entry.sm_id, sub);
            proof {
                assert(self@.subs =~= goal.next.subs);
                assert(self@.snapshots =~= before.snapshots);
                assert forall|k: u64| self@.subs.contains_key(k) <==> self@.order.contains(k) by {
                    assert(before.subs.contains_key(k) <==> before.order.contains(k));
                }
            }
            r
        } else {
            Err(ExecError::SmNotFound)
        }
    }

    /// Answers a query against the state as it stands. Nothing changes.
    pub fn exec_qry(&self, entry: &LogEntry) -> (r: ExecResult)
        requires
            self.wf(),
        ensures
            result_view(r) == query_step(self@, entry.sm_id, entry.fn_id, entry.data@),
    {
        broadcast use vstd::std_specs::hash::group_hash_axioms;

        if entry.sm_id == CONFIG_SM_ID {
            parse_output(self.configs.fn_dispatch_qry(entry.fn_id, entry.data.as_slice()))
        } else {
            match self.subs.get(&entry.sm_id) {
                Some(sm) => {
                    proof {
                        assert(self@.subs.contains_key(entry.sm_id));
                    }
                    parse_output(sm.fn_dispatch_qry(entry.fn_id, entry.data.as_slice()))
                },
                None => Err(ExecError::SmNotFound),
            }
        }
    }

    /// Forgets every registered state machine.
    pub fn clear_subs(&mut self)
        requires
            old(self).wf(),
        ensures
            final(self).wf(),
            final(self)@ == (MasterView { subs: Map::empty(), order: Seq::empty(), ..old(self)@ }),
    {
        self.subs.clear();
        self.order.clear();
        proof {
            assert(self@.subs =~= Map::<u64, SubView>::empty());
            assert(self@.snapshots =~= old(self)@.snapshots);
        }
    }

    /// Whether a state machine is registered under the id.
    pub fn has_sub(&self, id: &u64) -> (r: bool)
        ensures
            r == self@.subs.contains_key(*id),
    {
        broadcast use vstd::std_specs::hash::group_hash_axioms;

        self.subs.contains_key(id)
    }
}

impl MasterStateMachine {
    /// The snapshot of the host: the snapshots of the registered state
    /// machines in the order they were registered, then that of the
    /// configuration, each under its id. There is none where the state
    /// machines are as many as the machine can count.
    pub fn snapshot(&self) -> (r: Option<Vec<u8>>)
        requires
            self.wf(),
        ensures
            r is Some == (self@.order.len() < usize::MAX),
            r is Some ==> r.unwrap()@ == enc_items(snapshot_items(self@)),
    {
        broadcast use vstd::std_specs::hash::group_hash_axioms;

        if self.order.len() == usize::MAX {
            return None;
        }
        let mut out: Vec<u8> = Vec::new();
        put_len(&mut out, self.order.len() + 1);
        let ghost start = out@;
        let ghost order = self@.order;
        let ghost subs = self@.subs;
        let mut i: usize = 0;
        proof {
            assert(start + enc_item_each(sub_items(subs, order.take(0))) =~= start);
        }
        while i < self.order.len()
            invariant
                i <= self.order.len(),
                self.wf(),
                order == self@.order,
                subs == self@.subs,
                out@ == start + enc_item_each(sub_items(subs, order.take(i as int))),
            decreases self.order.len() - i,
        {
            let id = self.order[i];
            proof {
                assert(order.contains(order[i as int]));
                assert(subs.contains_key(id));
                assert(order.take(i + 1).drop_last() =~= order.take(i as int));
            }
            let sub = self.subs.get(&id).unwrap();
            let snapshot = sub.snapshot().unwrap();
            put_u64(&mut out, id);
            put_bytes(&mut out, snapshot.as_slice());
            proof {
                let done = sub_items(subs, order.take(i as int));
                let item = (id, snapshot@);
                assert(sub_items(subs, order.take(i + 1)) == done.push(item));
                assert(done.push(item).drop_last() =~= done);
                assert(out@ =~= start + (enc_item_each(done) + enc_item(item)));
            }
            i += 1;
        }
        let configs = self.configs.snapshot().unwrap();
        put_u64(&mut out, CONFIG_SM_ID);
        put_bytes(&mut out, configs.as_slice());
        proof {
            assert(order.take(i as int) =~= order);
            let done = sub_items(subs, order);
            let item = (CONFIG_SM_ID, configs@);
            assert(snapshot_items(self@) == done.push(item));
            assert(done.push(item).drop_last() =~= done);
            lemma_sub_items_len(subs, order);
            assert(out@ =~= enc_items(snapshot_items(self@)));
        }
        Some(out)
    }

    /// Hands one snapshot to the state machine that it names, or holds it
    /// back where none is registered under its id.
    pub fn restore_item(&mut self, id: u64, blob: Vec<u8>)
        requires
            old(self).wf(),
        ensures
            final(self).wf(),
            final(self)@ == restore_one(old(self)@, (id, blob@)),
    {
        broadcast use vstd::std_specs::hash::group_hash_axioms;

        let ghost before = self@;
        let ghost goal = restore_one(before, (id, blob@));
        if id == CONFIG_SM_ID {
            self.configs.recover(blob.as_slice());
            proof {
                assert(self@.subs =~= before.subs);
                assert(self@.snapshots =~= before.snapshots);
                assert(self@.configs == goal.configs);
            }
        } else if self.subs.contains_key(&id) {
            let mut sub = self.subs.remove(&id).unwrap();
            proof {
                assert(before.subs.contains_key(id));
            }
            sub.recover(blob.as_slice());
            self.subs.insert(id, sub);
            proof {
                assert(self@.subs =~= goal.subs);
                assert(self@.snapshots =~= before.snapshots);
                assert forall|k: u64| self@.subs.contains_key(k) <==> self@.order.contains(k) by {
                    assert(before.subs.contains_key(k) <==> before.order.contains(k));
                }
            }
        } else {
            self.snapshots.insert(id, blob);
            proof {
                assert(self@.subs =~= before.subs);
                assert(self@.snapshots =~= goal.snapshots);
            }
        }
    }

    /// Takes a snapshot of the host apart: each state machine that is
    /// registered recovers its part at once, and the parts of those that are
    /// not are held back until they register. Where the bytes are no
    /// snapshot, nothing changes and the answer is `false`.
    pub fn recover(&mut self, data: &[u8]) -> (r: bool)
        requires
            old(self).wf(),
        ensures
            final(self).wf(),
            match dec_items(data@) {
                Some(items) => r && final(self)@ == restore_each(old(self)@, items),
                None => !r && final(self)@ == old(self)@,
            },
    {
        let mut sms = match get_items(data) {
            Some(v) => v,
            None => {
                return false;
            },
        };
        let ghost items = items_view(sms@);
        let ghost before = self@;
        let n = sms.len();
        let mut i: usize = 0;
        while i < n
            invariant
                i <= n,
                n == sms.len(),
                n == items.len(),
                self.wf(),
                forall|k: int| i <= k < n ==> (#[trigger] sms[k].0, sms[k].1@) == items[k],
                self@ == restore_each(before, items.take(i as int)),
            decreases n - i,
        {
            let id = sms[i].0;
            let mut blob: Vec<u8> = Vec::new();
            let ghost rest = sms@;
            std::mem::swap(&mut sms[i].1, &mut blob);
            proof {
                assert(items.take(i + 1).drop_last() =~= items.take(i as int));
                assert(items.take(i + 1).last() == items[i as int]);
                assert((rest[i as int].0, rest[i as int].1@) == items[i as int]);
            }
            self.restore_item(id, blob);
            i += 1;
        }
        proof {
            assert(items.take(n as int) =~= items);
        }
        true
    }
}

/// The registered state machines have as many snapshots as there are ids.
pub proof fn lemma_sub_items_len(subs: Map<u64, SubView>, order: Seq<u64>)
    ensures
        sub_items(subs, order).len() == order.len(),
    decreases order.len(),
{
    if order.len() > 0 {
        lemma_sub_items_len(subs, order.drop_last());
    }
}

/// What committing a stretch of the log does.
pub struct Replay {
    pub next: MasterView,
    pub results: Seq<Result<Seq<u8>, ExecError>>,
    pub notices: Seq<NoticeView>,
}

/// The entries of a stretch of the log are committed one at a time, in
/// order.
pub open spec fn commit_each(m: MasterView, log: Seq<EntryView>) -> Replay
    decreases log.len(),
{
    if log.len() == 0 {
        Replay { next: m, results: Seq::empty(), notices: Seq::empty() }
    } else {
        let before = commit_each(m, log.drop_last());
        let e = log.last();
        let last = commit_step(before.next, e.sm_id, e.fn_id, e.data);
        Replay {
            next: last.next,
            results: before.results.push(last.result),
            notices: before.notices + last.notices,
        }
    }
}

impl MasterStateMachine {
    /// Commits a stretch of the log, entry by entry, and appends the notices
    /// of what it did. The outcomes come back in the order of the entries.
    pub fn commit_all(&mut self, entries: &Vec<LogEntry>, notices: &mut Vec<Notice>) -> (r: Vec<
        ExecResult,
    >)
        requires
            old(self).wf(),
        ensures
            final(self).wf(),
            final(self)@ == commit_each(old(self)@, entries_view(entries@)).next,
            results_view(r@) == commit_each(old(self)@, entries_view(entries@)).results,
            notices_view(final(notices)@) == notices_view(old(notices)@) + commit_each(
                old(self)@,
                entries_view(entries@),
            ).notices,
    {
        let ghost before = self@;
        let ghost told = notices_view(notices@);
        let ghost log = entries_view(entries@);
        let mut out: Vec<ExecResult> = Vec::new();
        let mut i: usize = 0;
        proof {
            assert(results_view(out@) =~= Seq::<Result<Seq<u8>, ExecError>>::empty());
            assert(told + Seq::<NoticeView>::empty() =~= told);
        }
        while i < entries.len()
            invariant
                i <= entries.len(),
                self.wf(),
                log == entries_view(entries@),
                self@ == commit_each(before, log.take(i as int)).next,
                results_view(out@) == commit_each(before, log.take(i as int)).results,
                notices_view(notices@) == told + commit_each(before, log.take(i as int)).notices,
            decreases entries.len() - i,
        {
            let ghost done = commit_each(before, log.take(i as int));
            let ghost listed = results_view(out@);
            proof {
                assert(log.take(i + 1).drop_last() =~= log.take(i as int));
                assert(log.take(i + 1).last() == entries[i as int]@);
            }
            let r = self.commit_cmd(&entries[i], notices);
            proof {
                let e = entries[i as int]@;
                let last = commit_step(done.next, e.sm_id, e.fn_id, e.data);
                assert((told + done.notices) + last.notices =~= told + (done.notices
                    + last.notices));
                assert(results_view(out@.push(r)) =~= listed.push(result_view(r)));
            }
            out.push(r);
            i += 1;
        }
        proof {
            assert(log.take(i as int) =~= log);
        }
        out
    }
}

/// Replicas agree: hosts that start alike and commit the same log are alike
/// at every index, and have given the same outcomes and the same notices.
pub proof fn law_hosts_agree(a: MasterView, b: MasterView, log: Seq<EntryView>, i: int)
    requires
        a == b,
        0 <= i <= log.len(),
    ensures
        commit_each(a, log.take(i)) == commit_each(b, log.take(i)),
{
}

/// A query changes nothing, and a command that names no state machine, or
/// a function that its state machine does not know, changes nothing either.
pub proof fn law_misses_change_nothing(m: MasterView, sm_id: u64, fn_id: u64, data: Seq<u8>)
    ensures
        commit_step(m, sm_id, fn_id, data).result is Err ==> commit_step(m, sm_id, fn_id, data).next
            == m && commit_step(m, sm_id, fn_id, data).notices == Seq::<NoticeView>::empty(),
        query_step(m, sm_id, fn_id, data) == Err::<Seq<u8>, ExecError>(ExecError::SmNotFound)
            <==> sm_id != CONFIG_SM_ID && !m.subs.contains_key(sm_id),
        commit_step(m, sm_id, fn_id, data).result == Err::<Seq<u8>, ExecError>(
            ExecError::SmNotFound,
        ) <==> sm_id != CONFIG_SM_ID && !m.subs.contains_key(sm_id),
{
    if sm_id != CONFIG_SM_ID && m.subs.contains_key(sm_id) {
        let sub = m.subs[sm_id];
        if sub_has_room(sub, data.len()) {
            let step = sub_cmd(sub, fn_id, data);
            if step.reply is None {
                assert(m.subs.insert(sm_id, sub) =~= m.subs);
            }
        }
    }
}

} // verus!
