use vstd::prelude::*;

use lru::LruCache;

use super::spec::{byte_len, RuleKind, RuleSpec};
use super::window::{carried, count_add_spec, window_add_spec, CountWindow, DistinctWindow};
use crate::addr::IpAddr;
use crate::alert::{Alert, AlertModel, AlertSource};
use crate::lru_cache::{
    lemma_map_vals, lookup, lru_wf, map_vals, push_spec, source_cache_new, source_cache_pop,
    source_cache_push, source_cap, source_entries, without_key,
};
use crate::packet::{App, AppModel, IpHeader, Packet, PacketModel, Transport};
use crate::text::{decimal_spec, ip_text_spec, push_decimal, push_ip, push_str};

verus! {

broadcast use vstd::std_specs::hash::group_hash_axioms;

/// The most source addresses a rule keeps state for; beyond that the least
/// recently seen source is forgotten.
pub const MAX_TRACKED_SOURCES: usize = 10_000;

/// What a rule counts for one source.
pub enum Tracker {
    Ports(DistinctWindow<u16>),
    /// Destination hosts by their 128 address bits (a source only reaches
    /// hosts of its own address family).
    Hosts(DistinctWindow<u128>),
    Count(CountWindow),
}

pub enum TrackerModel {
    Ports(Seq<(u64, u16)>),
    Hosts(Seq<(u64, u128)>),
    Count(Seq<u64>),
}

impl View for Tracker {
    type V = TrackerModel;

    open spec fn view(&self) -> TrackerModel {
        match self {
            Tracker::Ports(w) => TrackerModel::Ports(w.events()),
            Tracker::Hosts(w) => TrackerModel::Hosts(w.events()),
            Tracker::Count(w) => TrackerModel::Count(w.times()),
        }
    }
}

impl Tracker {
    /// The tracker is the one a rule of `kind` uses, and is well formed.
    pub open spec fn wf_for(&self, kind: RuleKind) -> bool {
        match self {
            Tracker::Ports(w) => kind == RuleKind::PortScan && w.wf(),
            Tracker::Hosts(w) => kind == RuleKind::HostSweep && w.wf(),
            Tracker::Count(w) => (kind == RuleKind::DnsTunnel || kind == RuleKind::PacketRate) && w.wf(),
        }
    }
}

/// What a rule remembers of one source address.
pub struct SourceState {
    pub tracker: Tracker,
    pub last_fired_us: Option<u64>,
}

pub struct SourceModel {
    pub tracker: TrackerModel,
    pub last_fired_us: Option<u64>,
}

impl View for SourceState {
    type V = SourceModel;

    open spec fn view(&self) -> SourceModel {
        SourceModel { tracker: self.tracker@, last_fired_us: self.last_fired_us }
    }
}

pub open spec fn state_view(s: SourceState) -> SourceModel {
    s@
}

/// What one packet adds to a source's tracker.
pub enum Event {
    Port(u16),
    Host(u128),
    Tick,
}

/// The event that a packet with IP header `ip` is for a rule of `kind`:
/// a SYN-only TCP segment's destination port, the destination host, a
/// packet, or (when `tunnel` says the packet is a tunnel-like DNS query) a
/// query.
pub open spec fn event_spec(kind: RuleKind, p: PacketModel, ip: IpHeader, tunnel: bool) -> Option<Event> {
    match kind {
        RuleKind::PortScan => match p.transport {
            Transport::Tcp(h) => if h.is_syn_only_spec() {
                Some(Event::Port(h.dst_port))
            } else {
                None
            },
            _ => None,
        },
        RuleKind::HostSweep => Some(Event::Host(ip.dst.key_spec().1)),
        RuleKind::PacketRate => Some(Event::Tick),
        RuleKind::DnsTunnel => if tunnel {
            Some(Event::Tick)
        } else {
            None
        },
    }
}

/// The tracker that a rule of `kind` starts a new source with.
pub open spec fn fresh_tracker(kind: RuleKind) -> TrackerModel {
    match kind {
        RuleKind::PortScan => TrackerModel::Ports(Seq::empty()),
        RuleKind::HostSweep => TrackerModel::Hosts(Seq::empty()),
        _ => TrackerModel::Count(Seq::empty()),
    }
}

pub open spec fn track(t: TrackerModel, e: Event, ts_us: u64, window_us: u64) -> TrackerModel {
    match (t, e) {
        (TrackerModel::Ports(s), Event::Port(p)) => TrackerModel::Ports(window_add_spec(s, ts_us, window_us, p)),
        (TrackerModel::Hosts(s), Event::Host(h)) => TrackerModel::Hosts(window_add_spec(s, ts_us, window_us, h)),
        (TrackerModel::Count(s), Event::Tick) => TrackerModel::Count(count_add_spec(s, ts_us, window_us)),
        _ => t,
    }
}

/// What a tracker counts: distinct ports or hosts, or events.
pub open spec fn observed_spec(t: TrackerModel) -> nat {
    match t {
        TrackerModel::Ports(s) => carried(s).len(),
        TrackerModel::Hosts(s) => carried(s).len(),
        TrackerModel::Count(s) => s.len(),
    }
}

/// A source that last fired at `last` may fire again at `ts_us`: it never
/// fired, or the cooldown has passed.
pub open spec fn cooled_down(last: Option<u64>, ts_us: u64, cooldown_us: u64) -> bool {
    match last {
        Some(l) => ts_us >= l.saturating_add(cooldown_us),
        None => true,
    }
}

/// One packet through a rule: its sources before, the packet, and whether
/// the packet is a tunnel-like DNS query give the sources after and, when
/// the rule fires, the observed count. A packet without an IP header, or
/// that is no event for the rule, changes nothing. Otherwise the source's
/// state (or a fresh one) takes the event and becomes the most recently
/// seen; the rule fires when the count reaches the threshold and the
/// source is out of its cooldown, and then the firing time is remembered.
pub open spec fn rule_step(r: RuleSpec, s: Seq<((bool, u128), SourceModel)>, p: PacketModel, tunnel: bool) -> (
    Seq<((bool, u128), SourceModel)>,
    Option<nat>,
) {
    match p.ip {
        None => (s, None),
        Some(ip) => match event_spec(r.kind, p, ip, tunnel) {
            None => (s, None),
            Some(e) => {
                let src = ip.src.key_spec();
                let before = match lookup(s, src) {
                    Some(st) => st,
                    None => SourceModel { tracker: fresh_tracker(r.kind), last_fired_us: None },
                };
                let t = track(before.tracker, e, p.ts_us, r.window_us);
                let n = observed_spec(t);
                let fire = n >= r.threshold && cooled_down(before.last_fired_us, p.ts_us, r.cooldown_us);
                let after = SourceModel {
                    tracker: t,
                    last_fired_us: if fire {
                        Some(p.ts_us)
                    } else {
                        before.last_fired_us
                    },
                };
                (
                    push_spec(without_key(s, src), MAX_TRACKED_SOURCES as nat, src, after).0,
                    if fire {
                        Some(n)
                    } else {
                        None
                    },
                )
            },
        },
    }
}

/// What the count of a rule of `kind` is.
pub open spec fn what_spec(kind: RuleKind) -> Seq<char> {
    match kind {
        RuleKind::PortScan => "distinct ports probed"@,
        RuleKind::HostSweep => "distinct hosts contacted"@,
        RuleKind::DnsTunnel => "high-entropy dns queries"@,
        RuleKind::PacketRate => "packets"@,
    }
}

/// `"<src>: <observed> <what> in <window>s"`.
pub open spec fn message_spec(r: RuleSpec, src: IpAddr, observed: nat) -> Seq<char> {
    ip_text_spec(src) + ": "@ + decimal_spec(observed) + " "@ + what_spec(r.kind) + " in "@ + r.window_text@
        + "s"@
}

pub open spec fn alert_spec(r: RuleSpec, ts_us: u64, src: IpAddr, observed: nat) -> AlertModel {
    AlertModel {
        ts_us,
        source: AlertSource::Rule,
        severity: r.severity,
        rule_id: r.id@,
        message: message_spec(r, src, observed),
        src: Some(src),
        observed: observed as u64,
        threshold: r.threshold,
    }
}

/// The alert that one packet makes a rule raise, if any.
pub open spec fn rule_alert(r: RuleSpec, s: Seq<((bool, u128), SourceModel)>, p: PacketModel, tunnel: bool) -> Option<
    AlertModel,
> {
    match rule_step(r, s, p, tunnel).1 {
        Some(n) => Some(alert_spec(r, p.ts_us, p.ip.unwrap().src, n)),
        None => None,
    }
}

/// `name[a..b]` is one of the labels that the dots of `name` separate.
pub open spec fn is_label(name: Seq<char>, a: int, b: int) -> bool {
    &&& 0 <= a <= b <= name.len()
    &&& a == 0 || name[a - 1] == '.'
    &&& b == name.len() || name[b] == '.'
    &&& forall|k: int| a <= k < b ==> name[k] != '.'
}

/// `f` may answer `verdict` for a label with the text `label` and the
/// entropy threshold `bits`.
pub open spec fn said<F: Fn(&str, u64) -> bool>(f: F, label: Seq<char>, bits: u64, verdict: bool) -> bool {
    exists|l: &str| l@ == label && call_ensures(f, (l, bits), verdict)
}

/// `t` is a possible verdict of `f` on whether `name` has a label of at
/// least `min_len` bytes that looks random: where `t` holds, `f` said so of
/// such a label; where it does not, `f` said no of each such label.
pub open spec fn label_verdict<F: Fn(&str, u64) -> bool>(f: F, name: Seq<char>, min_len: usize, bits: u64, t: bool) -> bool {
    &&& t ==> exists|a: int, b: int|
        is_label(name, a, b) && byte_len(name.subrange(a, b)) >= min_len && said(f, name.subrange(a, b), bits, true)
    &&& !t ==> forall|a: int, b: int|
        is_label(name, a, b) && byte_len(name.subrange(a, b)) >= min_len ==> said(f, name.subrange(a, b), bits, false)
}

/// `tunnel` is a possible verdict on whether `p` is a tunnel-like DNS query:
/// a query (not a response) whose question name has a label of at least
/// `min_len` bytes that `f` judges random-looking. Where `tunnel` holds, `f`
/// said so of such a label; where it does not, `f` said no of each such
/// label.
pub open spec fn tunnel_verdict<F: Fn(&str, u64) -> bool>(f: F, p: PacketModel, min_len: usize, bits: u64, tunnel: bool) -> bool {
    match p.app {
        AppModel::Dns(info) => if info.is_response {
            !tunnel
        } else {
            match info.question {
                None => !tunnel,
                Some(q) => label_verdict(f, q.0, min_len, bits, tunnel),
            }
        },
        _ => !tunnel,
    }
}

/// One packet through a rule whose sources were `s`, with `t` a possible
/// verdict of `f` on whether it is a tunnel-like query (asked only of DNS
/// tunnel rules), left the sources `s2` and raised the alert `r`.
pub open spec fn evaluated<F: Fn(&str, u64) -> bool>(
    f: F,
    rule: RuleSpec,
    s: Seq<((bool, u128), SourceModel)>,
    p: PacketModel,
    t: bool,
    s2: Seq<((bool, u128), SourceModel)>,
    r: Option<Alert>,
) -> bool {
    &&& rule.kind == RuleKind::DnsTunnel ==> tunnel_verdict(f, p, rule.min_label_len, rule.min_entropy_bits, t)
    &&& s2 == rule_step(rule, s, p, t).0
    &&& match rule_alert(rule, s, p, t) {
        Some(a) => r matches Some(x) && x@ == a,
        None => r is None,
    }
}

/// A rule with its per-source state.
pub struct CompiledRule {
    spec: RuleSpec,
    sources: LruCache<(bool, u128), SourceState>,
}

impl CompiledRule {
    pub closed spec fn rule(&self) -> RuleSpec {
        self.spec
    }

    /// The sources the rule tracks, most recently seen first.
    pub closed spec fn sources(&self) -> Seq<((bool, u128), SourceModel)> {
        map_vals(source_entries(self.sources), |st: SourceState| state_view(st))
    }

    pub closed spec fn wf(&self) -> bool {
        &&& lru_wf(source_entries(self.sources), source_cap(self.sources))
        &&& source_cap(self.sources) == MAX_TRACKED_SOURCES
        &&& trackers_wf(source_entries(self.sources), self.spec.kind)
    }

    /// A rule that tracks no source yet.
    pub fn new(spec: RuleSpec) -> (r: Self)
        ensures
            r.wf(),
            r.rule() == spec,
            r.sources() == Seq::<((bool, u128), SourceModel)>::empty(),
    {
        let sources = source_cache_new(MAX_TRACKED_SOURCES);
        let r = CompiledRule { spec, sources };
        assert(r.sources() =~= Seq::<((bool, u128), SourceModel)>::empty());
        r
    }

    pub fn spec(&self) -> (r: &RuleSpec)
        ensures
            *r == self.rule(),
    {
        &self.spec
    }

    /// Whether `packet` is a tunnel-like DNS query for this rule.
    pub fn is_tunnel_like<F: Fn(&str, u64) -> bool>(&self, packet: &Packet, f: &F) -> (t: bool)
        requires
            forall|l: &str, b: u64| call_requires(*f, (l, b)),
        ensures
            tunnel_verdict(*f, packet@, self.rule().min_label_len, self.rule().min_entropy_bits, t),
    {
        match &packet.app {
            App::Dns(info) => {
                if info.is_response {
                    return false;
                }
                match &info.question {
                    None => false,
                    Some(q) => {
                        let t = any_long_label(q.name.as_str(), self.spec.min_label_len, self.spec.min_entropy_bits, f);
                        assert(packet@.app == AppModel::Dns(info@));
                        assert(info@.question == Some(q@));
                        t
                    },
                }
            },
            _ => false,
        }
    }

    /// Feeds one packet to the rule, with `tunnel` as the verdict on
    /// whether it is a tunnel-like DNS query (see `rule_step`).
    pub fn evaluate_with(&mut self, packet: &Packet, tunnel: bool) -> (r: Option<Alert>)
        requires
            old(self).wf(),
        ensures
            final(self).wf(),
            final(self).rule() == old(self).rule(),
            final(self).sources() == rule_step(old(self).rule(), old(self).sources(), packet@, tunnel).0,
            match rule_alert(old(self).rule(), old(self).sources(), packet@, tunnel) {
                Some(a) => r matches Some(x) && x@ == a,
                None => r is None,
            },
    {
        let ip = match packet.ip {
            Some(ip) => ip,
            None => return None,
        };
        let kind = self.spec.kind;
        let event = match kind {
            RuleKind::PortScan => match packet.transport {
                Transport::Tcp(h) => {
                    if h.is_syn_only() {
                        Event::Port(h.dst_port)
                    } else {
                        return None;
                    }
                },
                _ => return None,
            },
            RuleKind::HostSweep => Event::Host(ip.dst.key().1),
            RuleKind::PacketRate => Event::Tick,
            RuleKind::DnsTunnel => {
                if tunnel {
                    Event::Tick
                } else {
                    return None;
                }
            },
        };
        let ghost s0 = source_entries(self.sources);
        let src = ip.src.key();
        let popped = source_cache_pop(&mut self.sources, &src);
        proof {
            lemma_map_vals(s0, MAX_TRACKED_SOURCES as nat, src, popped.unwrap(), |st: SourceState| state_view(st));
            if popped is Some {
                let i = choose|i: int| 0 <= i < s0.len() && s0[i].0 == src;
                assert(s0[i].1.tracker.wf_for(kind));
            }
        }
        let state = match popped {
            Some(s) => s,
            None => SourceState { tracker: new_tracker(kind), last_fired_us: None },
        };
        assert(state.tracker.wf_for(kind));
        let ts = packet.ts_us;
        let window = self.spec.window_us;
        let (tracker, observed) = match (state.tracker, event) {
            (Tracker::Ports(mut w), Event::Port(port)) => {
                let n = w.add(ts, port, window);
                (Tracker::Ports(w), n)
            },
            (Tracker::Hosts(mut w), Event::Host(host)) => {
                let n = w.add(ts, host, window);
                (Tracker::Hosts(w), n)
            },
            (Tracker::Count(mut w), Event::Tick) => {
                let n = w.add(ts, window);
                (Tracker::Count(w), n)
            },
            (t, _) => {
                assert(false);
                (t, 0)
            },
        };
        let mut last = state.last_fired_us;
        let mut alert = None;
        if observed as u64 >= self.spec.threshold as u64 {
            let cooled = match last {
                Some(l) => ts >= l.saturating_add(self.spec.cooldown_us),
                None => true,
            };
            if cooled {
                last = Some(ts);
                alert = Some(self.alert(ts, ip.src, observed as u64));
            }
        }
        let ghost s1 = source_entries(self.sources);
        let new_state = SourceState { tracker, last_fired_us: last };
        proof {
            lemma_map_vals(s1, MAX_TRACKED_SOURCES as nat, src, new_state, |st: SourceState| state_view(st));
            lemma_trackers_kept(s0, MAX_TRACKED_SOURCES as nat, src, new_state, kind);
            lemma_trackers_kept(s1, MAX_TRACKED_SOURCES as nat, src, new_state, kind);
        }
        source_cache_push(&mut self.sources, src, new_state);
        alert
    }

    fn alert(&self, ts_us: u64, src: IpAddr, observed: u64) -> (a: Alert)
        ensures
            a@ == alert_spec(self.rule(), ts_us, src, observed as nat),
    {
        let mut message = String::new();
        push_ip(&mut message, src);
        push_str(&mut message, ": ");
        push_decimal(&mut message, observed);
        push_str(&mut message, " ");
        let what = match self.spec.kind {
            RuleKind::PortScan => "distinct ports probed",
            RuleKind::HostSweep => "distinct hosts contacted",
            RuleKind::DnsTunnel => "high-entropy dns queries",
            RuleKind::PacketRate => "packets",
        };
        push_str(&mut message, what);
        push_str(&mut message, " in ");
        push_str(&mut message, self.spec.window_text.as_str());
        push_str(&mut message, "s");
        let a = Alert {
            ts_us,
            source: AlertSource::Rule,
            severity: self.spec.severity,
            rule_id: self.spec.id.clone(),
            message,
            src: Some(src),
            observed,
            threshold: self.spec.threshold,
        };
        assert(a@.message =~= message_spec(self.rule(), src, observed as nat));
        a
    }

    /// Feeds one packet to the rule; `f(label, bits)` judges whether a DNS
    /// label looks random, against the entropy threshold whose `f64` bits
    /// are `bits`.
    pub fn evaluate<F: Fn(&str, u64) -> bool>(&mut self, packet: &Packet, f: &F) -> (r: Option<Alert>)
        requires
            old(self).wf(),
            forall|l: &str, b: u64| call_requires(*f, (l, b)),
        ensures
            final(self).wf(),
            final(self).rule() == old(self).rule(),
            exists|t: bool| #[trigger]
                evaluated(*f, old(self).rule(), old(self).sources(), packet@, t, final(self).sources(), r),
    {
        let tunnel = if self.spec.kind == RuleKind::DnsTunnel {
            self.is_tunnel_like(packet, f)
        } else {
            false
        };
        let ghost s0 = self.sources();
        let r = self.evaluate_with(packet, tunnel);
        assert(evaluated(*f, self.rule(), s0, packet@, tunnel, self.sources(), r));
        r
    }
}

/// Every tracker in `s` is the one a rule of `kind` uses, well formed.
pub open spec fn trackers_wf(s: Seq<((bool, u128), SourceState)>, kind: RuleKind) -> bool {
    forall|i: int| 0 <= i < s.len() ==> (#[trigger] s[i]).1.tracker.wf_for(kind)
}

proof fn lemma_trackers_kept(s: Seq<((bool, u128), SourceState)>, cap: nat, k: (bool, u128), v: SourceState, kind: RuleKind)
    requires
        trackers_wf(s, kind),
        v.tracker.wf_for(kind),
        cap > 0,
    ensures
        trackers_wf(without_key(s, k), kind),
        trackers_wf(push_spec(s, cap, k, v).0, kind),
{
    let w = without_key(s, k);
    if crate::lru_cache::has_key(s, k) {
        let idx = crate::lru_cache::key_index(s, k);
        assert forall|i: int| 0 <= i < w.len() implies (#[trigger] w[i]).1.tracker.wf_for(kind) by {
            if i < idx {
                assert(w[i] == s[i]);
            } else {
                assert(w[i] == s[i + 1]);
            }
        }
    }
    let n = push_spec(s, cap, k, v).0;
    assert forall|i: int| 0 <= i < n.len() implies (#[trigger] n[i]).1.tracker.wf_for(kind) by {
        if i > 0 {
            if crate::lru_cache::has_key(s, k) {
                assert(n[i] == w[i - 1]);
            } else if s.len() == cap {
                assert(n[i] == s.drop_last()[i - 1]);
                assert(s.drop_last()[i - 1] == s[i - 1]);
            } else {
                assert(n[i] == s[i - 1]);
            }
        }
    }
}

fn new_tracker(kind: RuleKind) -> (t: Tracker)
    ensures
        t.wf_for(kind),
        t@ == fresh_tracker(kind),
{
    match kind {
        RuleKind::PortScan => Tracker::Ports(DistinctWindow::new()),
        RuleKind::HostSweep => Tracker::Hosts(DistinctWindow::new()),
        RuleKind::DnsTunnel => Tracker::Count(CountWindow::new()),
        RuleKind::PacketRate => Tracker::Count(CountWindow::new()),
    }
}

/// Whether some dot-separated label of `name` is at least `min_len` bytes
/// long and judged random by `f`; labels are tried left to right, and `f`
/// is not asked after it said yes.
fn any_long_label<F: Fn(&str, u64) -> bool>(name: &str, min_len: usize, bits: u64, f: &F) -> (t: bool)
    requires
        forall|l: &str, b: u64| call_requires(*f, (l, b)),
    ensures
        label_verdict(*f, name@, min_len, bits, t),
{
    let n = name.unicode_len();
    let mut start: usize = 0;
    let mut i: usize = 0;
    while i < n
        invariant
            n == name@.len(),
            start <= i <= n,
            start == 0 || name@[start - 1] == '.',
            forall|k: int| start <= k < i ==> name@[k] != '.',
            forall|l: &str, b: u64| call_requires(*f, (l, b)),
            forall|a: int, b: int|
                is_label(name@, a, b) && b < i && byte_len(name@.subrange(a, b)) >= min_len ==> said(
                    *f,
                    name@.subrange(a, b),
                    bits,
                    false,
                ),
        decreases n - i,
    {
        let c = name.get_char(i);
        if c == '.' {
            let label = name.substring_char(start, i);
            proof {
                lemma_label_at(name@, start as int, i as int);
            }
            if label.as_bytes().len() >= min_len {
                let yes = f(label, bits);
                if yes {
                    assert(said(*f, name@.subrange(start as int, i as int), bits, true));
                    return true;
                }
                assert(said(*f, name@.subrange(start as int, i as int), bits, false));
            }
            proof {
                assert forall|a: int, b: int|
                    is_label(name@, a, b) && b < i + 1 && byte_len(name@.subrange(a, b)) >= min_len implies said(
                    *f,
                    name@.subrange(a, b),
                    bits,
                    false,
                ) by {
                    if b == i {
                        lemma_label_start(name@, a, b, start as int);
                    }
                }
            }
            start = i + 1;
        }
        i += 1;
    }
    let label = name.substring_char(start, n);
    proof {
        lemma_label_at(name@, start as int, n as int);
    }
    if label.as_bytes().len() >= min_len {
        let yes = f(label, bits);
        if yes {
            assert(said(*f, name@.subrange(start as int, n as int), bits, true));
            return true;
        }
        assert(said(*f, name@.subrange(start as int, n as int), bits, false));
    }
    proof {
        assert forall|a: int, b: int|
            is_label(name@, a, b) && byte_len(name@.subrange(a, b)) >= min_len implies said(
            *f,
            name@.subrange(a, b),
            bits,
            false,
        ) by {
            if b == n {
                lemma_label_start(name@, a, b, start as int);
            }
        }
    }
    false
}

/// A run between `start` (after a dot or at the start) and a dot or the
/// end, with no dot in it, is a label.
proof fn lemma_label_at(name: Seq<char>, start: int, end: int)
    requires
        0 <= start <= end <= name.len(),
        start == 0 || name[start - 1] == '.',
        end == name.len() || name[end] == '.',
        forall|k: int| start <= k < end ==> name[k] != '.',
    ensures
        is_label(name, start, end),
{
}

/// A label that ends where a dot-free run from `start` ends starts at `start`.
proof fn lemma_label_start(name: Seq<char>, a: int, b: int, start: int)
    requires
        is_label(name, a, b),
        0 <= start <= b,
        start == 0 || name[start - 1] == '.',
        forall|k: int| start <= k < b ==> name[k] != '.',
    ensures
        a == start,
{
    if a < start {
        assert(name[start - 1] != '.');
    } else if a > start {
        assert(name[a - 1] != '.');
    }
}

/// A rule fires only when the count it observed reached its threshold, and
/// then remembers when.
pub proof fn lemma_fires_at_threshold(r: RuleSpec, s: Seq<((bool, u128), SourceModel)>, p: PacketModel, tunnel: bool)
    requires
        lru_wf(s, MAX_TRACKED_SOURCES as nat),
    ensures
        rule_step(r, s, p, tunnel).1 matches Some(n) ==> n >= r.threshold,
        rule_step(r, s, p, tunnel).1 is Some ==> p.ip is Some,
        rule_step(r, s, p, tunnel).1 is Some ==> (lookup(rule_step(r, s, p, tunnel).0, p.ip.unwrap().src.key_spec())
            matches Some(st) && st.last_fired_us == Some(p.ts_us)),
{
    if let Some(n) = rule_step(r, s, p, tunnel).1 {
        let ip = p.ip.unwrap();
        let src = ip.src.key_spec();
        let s2 = rule_step(r, s, p, tunnel).0;
        let w = without_key(s, src);
        crate::lru_cache::lemma_wf_after_push(s, MAX_TRACKED_SOURCES as nat, src, s[0].1);
        let after = s2[0].1;
        crate::lru_cache::lemma_push_entries(w, MAX_TRACKED_SOURCES as nat, src, after);
        crate::lru_cache::lemma_wf_after_push(w, MAX_TRACKED_SOURCES as nat, src, after);
        crate::lru_cache::lemma_distinct_lookup(s2, MAX_TRACKED_SOURCES as nat, src, 0);
    }
}

/// What a rule remembers of the source `src` before a packet: its state, or
/// a fresh one when it does not track that source.
pub open spec fn source_before(r: RuleSpec, s: Seq<((bool, u128), SourceModel)>, src: (bool, u128)) -> SourceModel {
    match lookup(s, src) {
        Some(st) => st,
        None => SourceModel { tracker: fresh_tracker(r.kind), last_fired_us: None },
    }
}

/// A packet that is an event for a rule and brings its source's count to
/// the threshold or above, from a source out of its cooldown (it never
/// fired, or the packet comes at least the cooldown after it last did, or
/// at the end of time when that sum passes it), makes the
/// rule raise an alert for that source at the packet's time, carrying the
/// count: not only the packet that first reaches the threshold, but every
/// one after the cooldown while the count stays at or above it.
pub proof fn lemma_fires_when_due(
    r: RuleSpec,
    s: Seq<((bool, u128), SourceModel)>,
    p: PacketModel,
    tunnel: bool,
    ip: IpHeader,
    e: Event,
)
    requires
        p.ip == Some(ip),
        event_spec(r.kind, p, ip, tunnel) == Some(e),
        observed_spec(track(source_before(r, s, ip.src.key_spec()).tracker, e, p.ts_us, r.window_us))
            >= r.threshold,
        source_before(r, s, ip.src.key_spec()).last_fired_us matches Some(l) ==> p.ts_us >= l + r.cooldown_us
            || p.ts_us == u64::MAX,
    ensures
        ({
            let n = observed_spec(track(source_before(r, s, ip.src.key_spec()).tracker, e, p.ts_us, r.window_us));
            &&& rule_step(r, s, p, tunnel).1 == Some(n)
            &&& rule_alert(r, s, p, tunnel) == Some(alert_spec(r, p.ts_us, ip.src, n))
        }),
{
}

/// One packet that is an event for a rule: the rule fires exactly when the
/// source's count after the packet is at or above the threshold and the
/// source is out of its cooldown (it never fired, or the packet comes at
/// least the cooldown after it last did, or at the end of time when that
/// sum passes it). Either way the source becomes the most
/// recently seen one, its tracker has taken the event, and its last firing
/// time moves to the packet's time when the rule fired and stays as it was
/// when it did not.
pub proof fn lemma_step_source(
    r: RuleSpec,
    s: Seq<((bool, u128), SourceModel)>,
    p: PacketModel,
    tunnel: bool,
    ip: IpHeader,
    e: Event,
)
    requires
        lru_wf(s, MAX_TRACKED_SOURCES as nat),
        p.ip == Some(ip),
        event_spec(r.kind, p, ip, tunnel) == Some(e),
    ensures
        ({
            let src = ip.src.key_spec();
            let before = source_before(r, s, src);
            let t = track(before.tracker, e, p.ts_us, r.window_us);
            let (s2, fired) = rule_step(r, s, p, tunnel);
            &&& fired is Some <==> observed_spec(t) >= r.threshold && (before.last_fired_us matches Some(l)
                ==> p.ts_us >= l + r.cooldown_us || p.ts_us == u64::MAX)
            &&& s2.len() > 0 && s2[0].0 == src
            &&& lookup(s2, src) == Some(
                SourceModel {
                    tracker: t,
                    last_fired_us: if fired is Some {
                        Some(p.ts_us)
                    } else {
                        before.last_fired_us
                    },
                },
            )
        }),
{
    let src = ip.src.key_spec();
    let s2 = rule_step(r, s, p, tunnel).0;
    let w = without_key(s, src);
    crate::lru_cache::lemma_wf_after_push(s, MAX_TRACKED_SOURCES as nat, src, source_before(r, s, src));
    let after = s2[0].1;
    crate::lru_cache::lemma_push_entries(w, MAX_TRACKED_SOURCES as nat, src, after);
    crate::lru_cache::lemma_wf_after_push(w, MAX_TRACKED_SOURCES as nat, src, after);
    crate::lru_cache::lemma_distinct_lookup(s2, MAX_TRACKED_SOURCES as nat, src, 0);
}

/// A packet without an IP header, or that is no event for a rule, leaves
/// the rule's sources as they were and raises no alert.
pub proof fn lemma_step_ignores(r: RuleSpec, s: Seq<((bool, u128), SourceModel)>, p: PacketModel, tunnel: bool)
    requires
        p.ip is None || event_spec(r.kind, p, p.ip.unwrap(), tunnel) is None,
    ensures
        rule_step(r, s, p, tunnel) == (s, None::<nat>),
        rule_alert(r, s, p, tunnel) is None,
{
}

/// After a rule fired for a source, a later packet from that source that
/// comes once the cooldown has passed and keeps the count at or above the
/// threshold makes the rule fire again: an ongoing attack is reported once
/// per cooldown, not only once.
pub proof fn lemma_fires_again_after_cooldown(
    r: RuleSpec,
    s: Seq<((bool, u128), SourceModel)>,
    p1: PacketModel,
    t1: bool,
    p2: PacketModel,
    t2: bool,
    ip: IpHeader,
    e: Event,
)
    requires
        lru_wf(s, MAX_TRACKED_SOURCES as nat),
        rule_step(r, s, p1, t1).1 is Some,
        p1.ip is Some && p1.ip.unwrap().src == ip.src,
        p2.ip == Some(ip),
        event_spec(r.kind, p2, ip, t2) == Some(e),
        p2.ts_us >= p1.ts_us.saturating_add(r.cooldown_us),
        observed_spec(
            track(source_before(r, rule_step(r, s, p1, t1).0, ip.src.key_spec()).tracker, e, p2.ts_us, r.window_us),
        ) >= r.threshold,
    ensures
        rule_step(r, rule_step(r, s, p1, t1).0, p2, t2).1 == Some(
            observed_spec(
                track(source_before(r, rule_step(r, s, p1, t1).0, ip.src.key_spec()).tracker, e, p2.ts_us, r.window_us),
            ),
        ),
{
    lemma_fires_at_threshold(r, s, p1, t1);
    lemma_fires_when_due(r, rule_step(r, s, p1, t1).0, p2, t2, ip, e);
}

/// Once a rule fired for a source, it does not fire for that source again
/// before the cooldown has passed: a packet from the same address that
/// makes it fire right after is at least `cooldown_us` later (or the
/// cooldown reaches past the end of time).
pub proof fn lemma_cooldown_between_alerts(
    r: RuleSpec,
    s: Seq<((bool, u128), SourceModel)>,
    p1: PacketModel,
    t1: bool,
    p2: PacketModel,
    t2: bool,
)
    requires
        lru_wf(s, MAX_TRACKED_SOURCES as nat),
        rule_step(r, s, p1, t1).1 is Some,
        rule_step(r, rule_step(r, s, p1, t1).0, p2, t2).1 is Some,
        p1.ip is Some && p2.ip is Some && p1.ip.unwrap().src == p2.ip.unwrap().src,
    ensures
        p2.ts_us >= p1.ts_us.saturating_add(r.cooldown_us),
{
    lemma_fires_at_threshold(r, s, p1, t1);
    let s1 = rule_step(r, s, p1, t1).0;
    let src = p1.ip.unwrap().src.key_spec();
    let st = lookup(s1, src).unwrap();
    assert(st.last_fired_us == Some(p1.ts_us));
}

} // verus!
