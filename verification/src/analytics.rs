//! What the monitor does around the anomaly-scoring service: picking the
//! flows to export, orienting each flow from its client, holding back
//! repeated anomaly alerts per host, queueing alerts for the caller, and
//! the reconnection schedule of the link to the service.
use vstd::prelude::*;

use std::collections::VecDeque;

use crate::alert::{Alert, AlertModel};
use crate::rules::alert_views;
use crate::engine::{processed, Engine};
use crate::error::ParseError;
use crate::flow::{Endpoint, FlowKey, FlowStats};
use crate::packet::{Frame, Packet};
use crate::lru_cache::{has_key, key_index, lookup};
use crate::text::{ip_text, ip_text_spec, same_text};

verus! {

broadcast use vstd::std_specs::vecdeque::group_vec_dequeue_axioms;

/// Anomaly alerts for one host are held back for this long.
pub const ANOMALY_COOLDOWN_US: u64 = 15_000_000;
/// The most hosts remembered; when full, all are forgotten.
pub const MAX_COOLDOWN_HOSTS: usize = 10_000;
pub const ANOMALY_RULE_ID: &'static str = "ml-anomaly";
/// The most flows in one exported batch.
pub const MAX_FLOWS_PER_BATCH: usize = 20_000;
/// The most alerts waiting for the caller; a new one pushes the oldest out.
pub const ALERT_QUEUE_CAPACITY: usize = 1024;

/// When each host last had an anomaly alert let through.
pub struct Cooldown {
    hosts: Vec<(String, u64)>,
}

pub open spec fn host_views(v: Seq<(String, u64)>) -> Seq<(Seq<char>, u64)> {
    v.map_values(|e: (String, u64)| (e.0@, e.1))
}

/// No host twice.
pub open spec fn distinct_hosts(s: Seq<(Seq<char>, u64)>) -> bool {
    forall|i: int, j: int| 0 <= i < s.len() && 0 <= j < s.len() && i != j ==> s[i].0 != s[j].0
}

/// A host whose last alert let through was less than the cooldown ago (and not
/// in the future: time going backwards means a new capture) is held back.
pub open spec fn held_back(last: Option<u64>, ts_us: u64) -> bool {
    last matches Some(l) && ts_us >= l && ts_us - l < ANOMALY_COOLDOWN_US
}

impl Cooldown {
    /// The hosts and their times, in the order first seen.
    pub closed spec fn entries(&self) -> Seq<(Seq<char>, u64)> {
        host_views(self.hosts@)
    }

    pub closed spec fn wf(&self) -> bool {
        &&& distinct_hosts(self.entries())
        &&& self.hosts@.len() <= MAX_COOLDOWN_HOSTS
    }

    pub fn new() -> (c: Self)
        ensures
            c.wf(),
            c.entries() == Seq::<(Seq<char>, u64)>::empty(),
    {
        let c = Cooldown { hosts: Vec::new() };
        assert(c.entries() =~= Seq::<(Seq<char>, u64)>::empty());
        c
    }

    /// Whether an anomaly alert for `host` at `ts_us` is let through. When it
    /// does, its time is remembered for the host (after forgetting every
    /// host when `MAX_COOLDOWN_HOSTS` are remembered).
    pub fn allow(&mut self, host: &str, ts_us: u64) -> (r: bool)
        requires
            old(self).wf(),
        ensures
            final(self).wf(),
            r == !held_back(lookup(old(self).entries(), host@), ts_us),
            !r ==> final(self).entries() == old(self).entries(),
            r ==> lookup(final(self).entries(), host@) == Some(ts_us),
            r && old(self).entries().len() >= MAX_COOLDOWN_HOSTS ==> final(self).entries().len() == 1,
            r && old(self).entries().len() < MAX_COOLDOWN_HOSTS ==> forall|k: Seq<char>|
                k != host@ ==> #[trigger] lookup(final(self).entries(), k) == lookup(old(self).entries(), k),
    {
        let ghost e0 = self.entries();
        let mut i: usize = 0;
        let n = self.hosts.len();
        while i < n
            invariant
                n == self.hosts@.len(),
                i <= n,
                e0 == self.entries(),
                forall|j: int| 0 <= j < i ==> self.entries()[j].0 != host@,
            ensures
                i <= n,
                e0 == self.entries(),
                forall|j: int| 0 <= j < i ==> self.entries()[j].0 != host@,
                i < n ==> self.entries()[i as int].0 == host@,
            decreases n - i,
        {
            if same_text(self.hosts[i].0.as_str(), host) {
                break;
            }
            i += 1;
        }
        let found = i < n;
        proof {
            if found {
                assert(e0[i as int].0 == host@);
                crate::lru_cache::lemma_distinct_lookup(e0, MAX_COOLDOWN_HOSTS as nat, host@, i as int);
            } else {
                assert(!has_key(e0, host@));
            }
        }
        if found {
            let last = self.hosts[i].1;
            if ts_us >= last && ts_us - last < ANOMALY_COOLDOWN_US {
                return false;
            }
        }
        if self.hosts.len() >= MAX_COOLDOWN_HOSTS {
            self.hosts.clear();
            self.hosts.push((host.to_owned(), ts_us));
            proof {
                let e = self.entries();
                assert(e.len() == 1 && e[0].0 == host@);
                crate::lru_cache::lemma_distinct_lookup(e, MAX_COOLDOWN_HOSTS as nat, host@, 0);
            }
            return true;
        }
        if found {
            let ghost before = self.hosts@;
            self.hosts.set(i, (host.to_owned(), ts_us));
            proof {
                let e = self.entries();
                assert forall|j: int| 0 <= j < e.len() && j != i implies e[j] == e0[j] by {
                    assert(self.hosts@[j] == before[j]);
                }
                assert(distinct_hosts(e));
                crate::lru_cache::lemma_distinct_lookup(e, MAX_COOLDOWN_HOSTS as nat, host@, i as int);
                assert forall|k: Seq<char>| k != host@ implies #[trigger] lookup(e, k) == lookup(e0, k) by {
                    if has_key(e0, k) {
                        let j = key_index(e0, k);
                        crate::lru_cache::lemma_distinct_lookup(e, MAX_COOLDOWN_HOSTS as nat, k, j);
                    } else if has_key(e, k) {
                        let j = key_index(e, k);
                        assert(e0[j].0 == k);
                    }
                }
            }
        } else {
            self.hosts.push((host.to_owned(), ts_us));
            proof {
                let e = self.entries();
                assert forall|j: int| 0 <= j < e0.len() implies e[j] == e0[j] by {}
                assert(e[n as int].0 == host@);
                assert(distinct_hosts(e));
                crate::lru_cache::lemma_distinct_lookup(e, MAX_COOLDOWN_HOSTS as nat, host@, n as int);
                assert forall|k: Seq<char>| k != host@ implies #[trigger] lookup(e, k) == lookup(e0, k) by {
                    if has_key(e0, k) {
                        let j = key_index(e0, k);
                        crate::lru_cache::lemma_distinct_lookup(e, MAX_COOLDOWN_HOSTS as nat, k, j);
                    } else if has_key(e, k) {
                        let j = key_index(e, k);
                        assert(j < e0.len());
                        assert(e0[j].0 == k);
                    }
                }
            }
        }
        true
    }
}

/// Which side of a flow is the client: the endpoint with the higher port
/// (an ephemeral port), or for equal ports (as without ports) the side that
/// sent more packets, `a` when equal. Then which direction index is the
/// client's.
pub struct Orientation {
    pub client: Endpoint,
    pub server: Endpoint,
    pub fwd: usize,
    pub rev: usize,
}

pub open spec fn client_is_b(key: FlowKey, stats: FlowStats) -> bool {
    key.b.port > key.a.port || (key.b.port == key.a.port && stats.packets[1] > stats.packets[0])
}

pub fn orient(key: &FlowKey, stats: &FlowStats) -> (o: Orientation)
    ensures
        client_is_b(*key, *stats) ==> o.client == key.b && o.server == key.a && o.fwd == 1 && o.rev == 0,
        !client_is_b(*key, *stats) ==> o.client == key.a && o.server == key.b && o.fwd == 0 && o.rev == 1,
{
    let b_is_client = key.b.port > key.a.port || (key.b.port == key.a.port && stats.packets[1] > stats.packets[0]);
    if b_is_client {
        Orientation { client: key.b, server: key.a, fwd: 1, rev: 0 }
    } else {
        Orientation { client: key.a, server: key.b, fwd: 0, rev: 1 }
    }
}

/// A flow as the scoring service reads it: from the client's side.
#[derive(Debug, Clone, PartialEq, Eq)]
pub struct FlowFeatures {
    pub src: String,
    pub dst: String,
    pub src_port: u32,
    pub dst_port: u32,
    pub proto: u32,
    pub packets_fwd: u64,
    pub packets_rev: u64,
    pub bytes_fwd: u64,
    pub bytes_rev: u64,
    pub duration_us: u64,
    pub tcp_flags: u32,
    pub last_seen_us: u64,
}

/// `f` is the features of the flow `key` with statistics `stats`, seen from
/// its client (see `client_is_b`).
pub open spec fn features_of(key: FlowKey, stats: FlowStats, f: FlowFeatures) -> bool {
    let (c, s, fwd, rev) = if client_is_b(key, stats) {
        (key.b, key.a, 1int, 0int)
    } else {
        (key.a, key.b, 0int, 1int)
    };
    &&& f.src@ == ip_text_spec(c.addr)
    &&& f.dst@ == ip_text_spec(s.addr)
    &&& f.src_port == c.port
    &&& f.dst_port == s.port
    &&& f.proto == key.proto
    &&& f.packets_fwd == stats.packets[fwd]
    &&& f.packets_rev == stats.packets[rev]
    &&& f.bytes_fwd == stats.bytes[fwd]
    &&& f.bytes_rev == stats.bytes[rev]
    &&& f.duration_us == stats.last_seen_us - stats.first_seen_us
    &&& f.tcp_flags == stats.tcp_flags
    &&& f.last_seen_us == stats.last_seen_us
}

/// The features of a flow, oriented from its client (see `orient`).
pub fn features(key: &FlowKey, stats: &FlowStats) -> (f: FlowFeatures)
    requires
        stats.first_seen_us <= stats.last_seen_us,
    ensures
        features_of(*key, *stats, f),
{
    let o = orient(key, stats);
    FlowFeatures {
        src: ip_text(o.client.addr),
        dst: ip_text(o.server.addr),
        src_port: o.client.port as u32,
        dst_port: o.server.port as u32,
        proto: key.proto as u32,
        packets_fwd: stats.packets[o.fwd],
        packets_rev: stats.packets[o.rev],
        bytes_fwd: stats.bytes[o.fwd],
        bytes_rev: stats.bytes[o.rev],
        duration_us: stats.duration_us(),
        tcp_flags: stats.tcp_flags as u32,
        last_seen_us: stats.last_seen_us,
    }
}

/// Flows are exported once they were seen after the previous export; a
/// clock that went back before it (a new capture) starts over from zero.
pub open spec fn export_since_spec(last_export_us: u64, last_ts_us: u64) -> u64 {
    if last_ts_us < last_export_us { 0 } else { last_export_us }
}

pub fn export_since(last_export_us: u64, last_ts_us: u64) -> (s: u64)
    ensures
        s == export_since_spec(last_export_us, last_ts_us),
{
    if last_ts_us < last_export_us { 0 } else { last_export_us }
}

/// The flows of `s` last seen after `since`, in order.
pub open spec fn seen_after(s: Seq<(FlowKey, FlowStats)>, since: u64) -> Seq<(FlowKey, FlowStats)>
    decreases s.len(),
{
    if s.len() == 0 {
        s
    } else {
        seen_after(s.drop_last(), since) + if s.last().1.last_seen_us > since {
            seq![s.last()]
        } else {
            Seq::empty()
        }
    }
}

/// The first `max` flows of `flows` that were last seen after `since`.
pub fn select_for_export(flows: &Vec<(FlowKey, FlowStats)>, since: u64, max: usize) -> (v: Vec<(FlowKey, FlowStats)>)
    ensures
        v@ == if seen_after(flows@, since).len() <= max {
            seen_after(flows@, since)
        } else {
            seen_after(flows@, since).take(max as int)
        },
{
    let mut v: Vec<(FlowKey, FlowStats)> = Vec::new();
    let mut i: usize = 0;
    while i < flows.len() && v.len() < max
        invariant
            i <= flows@.len(),
            v@.len() <= max,
            v@.len() < max ==> v@ == seen_after(flows@.take(i as int), since),
            v@.len() == max ==> v@ == seen_after(flows@.take(i as int), since).take(max as int),
            v@.len() == max ==> seen_after(flows@.take(i as int), since).len() >= max,
        decreases flows@.len() - i,
    {
        let ghost before = v@;
        assert(flows@.take(i as int + 1).drop_last() =~= flows@.take(i as int));
        if flows[i].1.last_seen_us > since {
            v.push(flows[i]);
        }
        proof {
            let t = seen_after(flows@.take(i as int + 1), since);
            assert(v@ =~= t);
            if v@.len() == max {
                assert(t.take(max as int) =~= t);
            }
        }
        i += 1;
    }
    proof {
        lemma_seen_after_prefix(flows@, i as int, since);
        if v@.len() < max {
            assert(flows@.take(i as int) =~= flows@);
        } else {
            let all = seen_after(flows@, since);
            let part = seen_after(flows@.take(i as int), since);
            assert(all.take(max as int) =~= part.take(max as int));
        }
    }
    v
}

/// What was selected from a prefix is a prefix of what is selected from
/// the whole.
proof fn lemma_seen_after_prefix(s: Seq<(FlowKey, FlowStats)>, i: int, since: u64)
    requires
        0 <= i <= s.len(),
    ensures
        seen_after(s.take(i), since).len() <= seen_after(s, since).len(),
        seen_after(s.take(i), since) == seen_after(s, since).take(seen_after(s.take(i), since).len() as int),
    decreases s.len() - i,
{
    if i == s.len() {
        assert(s.take(i) =~= s);
        assert(seen_after(s, since).take(seen_after(s, since).len() as int) =~= seen_after(s, since));
    } else {
        lemma_seen_after_prefix(s, i + 1, since);
        assert(s.take(i + 1).drop_last() =~= s.take(i));
        let a = seen_after(s.take(i), since);
        let b = seen_after(s.take(i + 1), since);
        let c = seen_after(s, since);
        assert(b.take(a.len() as int) =~= a);
        assert(c.take(a.len() as int) =~= b.take(a.len() as int));
    }
}

/// A batch of flows for the scoring service.
#[derive(Debug, Clone, PartialEq, Eq)]
pub struct FlowBatch {
    pub batch_id: u64,
    pub window_end_us: u64,
    pub flows: Vec<FlowFeatures>,
}

/// The flows of `s` to export after `since`: at most `MAX_FLOWS_PER_BATCH`.
pub open spec fn export_selection(s: Seq<(FlowKey, FlowStats)>, since: u64) -> Seq<(FlowKey, FlowStats)> {
    if seen_after(s, since).len() <= MAX_FLOWS_PER_BATCH {
        seen_after(s, since)
    } else {
        seen_after(s, since).take(MAX_FLOWS_PER_BATCH as int)
    }
}

proof fn lemma_seen_after_from(s: Seq<(FlowKey, FlowStats)>, since: u64, i: int)
    requires
        0 <= i < seen_after(s, since).len(),
    ensures
        exists|j: int| 0 <= j < s.len() && #[trigger] s[j] == seen_after(s, since)[i],
    decreases s.len(),
{
    if s.len() > 0 {
        let rest = seen_after(s.drop_last(), since);
        if i < rest.len() {
            lemma_seen_after_from(s.drop_last(), since, i);
            let j = choose|j: int| 0 <= j < s.drop_last().len() && #[trigger] s.drop_last()[j] == rest[i];
            assert(s[j] == s.drop_last()[j]);
        } else {
            assert(s[s.len() - 1] == seen_after(s, since)[i]);
        }
    }
}

/// Where exporting stands: up to when flows were exported, and the last
/// batch's number.
pub struct ExportState {
    pub last_export_us: u64,
    pub batch_id: u64,
}

impl ExportState {
    pub fn new() -> (e: Self)
        ensures
            e.last_export_us == 0,
            e.batch_id == 0,
    {
        ExportState { last_export_us: 0, batch_id: 0 }
    }

    /// One export round over the engine's flows (most recently updated
    /// first) at the engine's time `last_ts_us`: nothing while the link is
    /// not connected; else the flows seen since the last export (from zero
    /// when the clock went back) are batched, up to `MAX_FLOWS_PER_BATCH`,
    /// and an empty round sends nothing.
    pub fn export(&mut self, connected: bool, flows: &Vec<(FlowKey, FlowStats)>, last_ts_us: u64) -> (b: Option<FlowBatch>)
        requires
            old(self).batch_id < u64::MAX,
            forall|i: int| 0 <= i < flows@.len() ==> (#[trigger] flows@[i]).1.first_seen_us <= flows@[i].1.last_seen_us,
        ensures
            !connected ==> b is None && *final(self) == *old(self),
            connected ==> ({
                let since = export_since_spec(old(self).last_export_us, last_ts_us);
                let sel = export_selection(flows@, since);
                if sel.len() == 0 {
                    &&& b is None
                    &&& final(self).last_export_us == since
                    &&& final(self).batch_id == old(self).batch_id
                } else {
                    &&& b matches Some(x) && x.batch_id == old(self).batch_id + 1 && x.window_end_us == last_ts_us
                        && x.flows@.len() == sel.len() && forall|i: int|
                        0 <= i < sel.len() ==> features_of(sel[i].0, sel[i].1, #[trigger] x.flows@[i])
                    &&& final(self).last_export_us == last_ts_us
                    &&& final(self).batch_id == old(self).batch_id + 1
                }
            }),
    {
        if !connected {
            return None;
        }
        let since = export_since(self.last_export_us, last_ts_us);
        self.last_export_us = since;
        let picked = select_for_export(flows, since, MAX_FLOWS_PER_BATCH);
        if picked.len() == 0 {
            return None;
        }
        let mut out: Vec<FlowFeatures> = Vec::new();
        let mut i: usize = 0;
        while i < picked.len()
            invariant
                i <= picked@.len(),
                picked@ == export_selection(flows@, since),
                forall|j: int| 0 <= j < flows@.len() ==> (#[trigger] flows@[j]).1.first_seen_us <= flows@[j].1.last_seen_us,
                out@.len() == i,
                forall|j: int| 0 <= j < i ==> features_of(picked@[j].0, picked@[j].1, #[trigger] out@[j]),
            decreases picked@.len() - i,
        {
            proof {
                lemma_seen_after_from(flows@, since, i as int);
                let k = choose|k: int| 0 <= k < flows@.len() && #[trigger] flows@[k] == seen_after(flows@, since)[i as int];
                assert(flows@[k].1.first_seen_us <= flows@[k].1.last_seen_us);
            }
            let f = features(&picked[i].0, &picked[i].1);
            out.push(f);
            i += 1;
        }
        self.last_export_us = last_ts_us;
        self.batch_id = self.batch_id + 1;
        Some(FlowBatch { batch_id: self.batch_id, window_end_us: last_ts_us, flows: out })
    }
}

/// Alerts waiting for the caller, oldest first, with counts of all alerts
/// pushed and of those pushed out unread (both wrap around at 2^64).
pub struct AlertQueue {
    queue: VecDeque<Alert>,
    total: u64,
    dropped: u64,
}

/// A queue's alerts and its counts of alerts pushed and dropped.
pub type QueueModel = (Seq<AlertModel>, u64, u64);

/// Pushing `a`: when full, the oldest alert leaves and counts as dropped.
pub open spec fn queue_push(q: QueueModel, a: AlertModel) -> QueueModel {
    if q.0.len() >= ALERT_QUEUE_CAPACITY {
        (q.0.drop_first().push(a), q.1.wrapping_add(1), q.2.wrapping_add(1))
    } else {
        (q.0.push(a), q.1.wrapping_add(1), q.2)
    }
}

/// Pushing the alerts of `s` in order.
pub open spec fn queue_push_all(q: QueueModel, s: Seq<AlertModel>) -> QueueModel
    decreases s.len(),
{
    if s.len() == 0 {
        q
    } else {
        queue_push(queue_push_all(q, s.drop_last()), s.last())
    }
}

impl AlertQueue {
    pub closed spec fn model(&self) -> QueueModel {
        (self.alerts(), self.total, self.dropped)
    }

    pub closed spec fn alerts(&self) -> Seq<AlertModel> {
        alert_views(self.queue@)
    }

    pub closed spec fn total_spec(&self) -> u64 {
        self.total
    }

    pub closed spec fn dropped_spec(&self) -> u64 {
        self.dropped
    }

    pub closed spec fn wf(&self) -> bool {
        self.queue@.len() <= ALERT_QUEUE_CAPACITY
    }

    pub fn new() -> (q: Self)
        ensures
            q.wf(),
            q.alerts() == Seq::<AlertModel>::empty(),
            q.alerts().len() <= ALERT_QUEUE_CAPACITY,
            q.total_spec() == 0,
            q.dropped_spec() == 0,
    {
        let q = AlertQueue { queue: VecDeque::new(), total: 0, dropped: 0 };
        assert(q.alerts() =~= Seq::<AlertModel>::empty());
        q
    }

    /// Queues `alert`; when the queue is full the oldest alert leaves
    /// first and counts as dropped.
    pub fn push(&mut self, alert: Alert)
        requires
            old(self).wf(),
        ensures
            final(self).wf(),
            final(self).alerts().len() <= ALERT_QUEUE_CAPACITY,
            final(self).total_spec() == old(self).total_spec().wrapping_add(1),
            old(self).alerts().len() == ALERT_QUEUE_CAPACITY ==> final(self).alerts() == old(self).alerts().drop_first().push(
                alert@,
            ) && final(self).dropped_spec() == old(self).dropped_spec().wrapping_add(1),
            old(self).alerts().len() < ALERT_QUEUE_CAPACITY ==> final(self).alerts() == old(self).alerts().push(alert@)
                && final(self).dropped_spec() == old(self).dropped_spec(),
            final(self).model() == queue_push(old(self).model(), alert@),
    {
        let ghost a0 = self.queue@;
        self.total = self.total.wrapping_add(1);
        if self.queue.len() == ALERT_QUEUE_CAPACITY {
            self.queue.pop_front();
            self.dropped = self.dropped.wrapping_add(1);
            assert(self.queue@ =~= a0.drop_first());
            assert(alert_views(a0.drop_first()) =~= alert_views(a0).drop_first());
        }
        let ghost a1 = self.queue@;
        self.queue.push_back(alert);
        assert(alert_views(self.queue@) =~= alert_views(a1).push(alert@));
    }

    /// The oldest waiting alert, if any.
    pub fn pop(&mut self) -> (a: Option<Alert>)
        requires
            old(self).wf(),
        ensures
            final(self).wf(),
            final(self).alerts().len() <= ALERT_QUEUE_CAPACITY,
            final(self).total_spec() == old(self).total_spec(),
            final(self).dropped_spec() == old(self).dropped_spec(),
            old(self).alerts().len() == 0 ==> a is None && final(self).alerts() == old(self).alerts(),
            old(self).alerts().len() > 0 ==> (a matches Some(x) && x@ == old(self).alerts()[0]) && final(self).alerts()
                == old(self).alerts().drop_first(),
    {
        let ghost a0 = self.queue@;
        let r = self.queue.pop_front();
        proof {
            if a0.len() > 0 {
                assert(self.queue@ =~= a0.drop_first());
                assert(alert_views(a0.drop_first()) =~= alert_views(a0).drop_first());
            }
        }
        r
    }

    pub fn len(&self) -> (n: usize)
        ensures
            n == self.alerts().len(),
    {
        self.queue.len()
    }

    pub fn total(&self) -> (n: u64)
        ensures
            n == self.total_spec(),
    {
        self.total
    }

    pub fn dropped(&self) -> (n: u64)
        ensures
            n == self.dropped_spec(),
    {
        self.dropped
    }
}

/// A frame into the engine, and the alerts it raised into the queue, in
/// order (see `Engine::process` and `AlertQueue::push`); a frame that fails
/// to decode is only counted.
pub fn ingest<F: Fn(&str, u64) -> bool>(engine: &mut Engine, queue: &mut AlertQueue, frame: &Frame<'_>, f: &F)
    requires
        old(engine).wf(),
        old(engine).has_room_for(*frame),
        old(queue).wf(),
        forall|l: &str, b: u64| call_requires(*f, (l, b)),
    ensures
        final(engine).wf(),
        final(queue).wf(),
        final(engine).pending() == Seq::<AlertModel>::empty(),
        exists|mid: Engine, r: Result<Packet, ParseError>|
            {
                &&& #[trigger] processed(*f, *old(engine), *frame, mid, r)
                &&& final(engine).table() == mid.table()
                &&& final(engine).counters_spec() == mid.counters_spec()
                &&& final(engine).rule_engine() == mid.rule_engine()
                &&& final(engine).last_ts() == mid.last_ts()
                &&& final(queue).model() == queue_push_all(old(queue).model(), mid.pending())
            },
{
    let r = engine.process(frame, f);
    let ghost mid = *engine;
    let mut rest = engine.drain_alerts();
    let ghost q0 = queue.model();
    let ghost all = mid.pending();
    let ghost mut done: int = 0;
    while rest.len() > 0
        invariant
            queue.wf(),
            0 <= done <= all.len(),
            alert_views(rest@) == all.subrange(done, all.len() as int),
            queue.model() == queue_push_all(q0, all.take(done)),
        decreases rest@.len(),
    {
        let ghost before = rest@;
        assert(alert_views(before).len() == all.len() - done);
        assert(alert_views(before)[0] == all.subrange(done, all.len() as int)[0]);
        assert(alert_views(before)[0] == all[done]);
        let a = rest.remove(0);
        proof {
            assert(rest@ =~= before.subrange(1, before.len() as int));
            assert(alert_views(rest@) =~= alert_views(before).subrange(1, before.len() as int));
            assert(alert_views(rest@) =~= all.subrange(done + 1, all.len() as int));
            assert(a@ == all[done]);
            assert(all.take(done + 1).drop_last() =~= all.take(done));
            assert(all.take(done + 1).last() == a@);
        }
        queue.push(a);
        proof {
            done = done + 1;
        }
    }
    assert(all.take(done) =~= all);
    assert(processed(*f, *old(engine), *frame, mid, r));
}

} // verus!
