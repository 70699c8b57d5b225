use vstd::prelude::*;

use crate::alert::{Alert, AlertModel};
use crate::error::ParseError;
use crate::flow::{
    expire_spec, top_spec, updated_stats, Endpoint, FlowKey, FlowStats, FlowTable, FlowUpdate,
};
use crate::lru_cache::{has_key, key_index, lemma_push_entries, lookup, push_spec};
use crate::packet::{parse, packet_spec, App, AppModel, Frame, LinkType, Packet, PacketModel, Transport};
use crate::rules::{alert_views, all_evaluated, RuleEngine};

verus! {

pub const DEFAULT_MAX_FLOWS: usize = 100_000;
pub const DEFAULT_FLOW_IDLE_TIMEOUT_US: u64 = 120_000_000;
pub const DEFAULT_TOP_N: usize = 10;
/// Idle flows are looked for at most once per second of capture time.
pub const EXPIRY_INTERVAL_US: u64 = 1_000_000;

/// How an engine is set up: the link type of its frames, the most flows it
/// keeps, how long a flow may stay idle, and how many flows a snapshot
/// ranks.
#[derive(Debug, Clone, Copy, PartialEq, Eq, Structural)]
pub struct EngineConfig {
    pub link: LinkType,
    pub max_flows: usize,
    pub flow_idle_timeout_us: u64,
    pub top_n: usize,
}

impl Default for EngineConfig {
    fn default() -> (c: Self)
        ensures
            c == (EngineConfig {
                link: LinkType::Ethernet,
                max_flows: DEFAULT_MAX_FLOWS,
                flow_idle_timeout_us: DEFAULT_FLOW_IDLE_TIMEOUT_US,
                top_n: DEFAULT_TOP_N,
            }),
    {
        EngineConfig {
            link: LinkType::Ethernet,
            max_flows: DEFAULT_MAX_FLOWS,
            flow_idle_timeout_us: DEFAULT_FLOW_IDLE_TIMEOUT_US,
            top_n: DEFAULT_TOP_N,
        }
    }
}

/// Traffic counters: frames and their wire bytes, then what the decoded
/// packets were.
#[derive(Debug, Clone, Copy, PartialEq, Eq, Structural)]
pub struct Counters {
    pub packets: u64,
    pub bytes: u64,
    pub ipv4: u64,
    pub ipv6: u64,
    pub tcp: u64,
    pub udp: u64,
    pub icmp: u64,
    pub other_l4: u64,
    pub non_ip: u64,
    pub fragments: u64,
    pub dns: u64,
    pub dns_errors: u64,
    pub parse_errors: u64,
}

impl Default for Counters {
    fn default() -> (c: Self)
        ensures
            c == zero_counters(),
    {
        Counters {
            packets: 0,
            bytes: 0,
            ipv4: 0,
            ipv6: 0,
            tcp: 0,
            udp: 0,
            icmp: 0,
            other_l4: 0,
            non_ip: 0,
            fragments: 0,
            dns: 0,
            dns_errors: 0,
            parse_errors: 0,
        }
    }
}

pub open spec fn zero_counters() -> Counters {
    Counters {
        packets: 0,
        bytes: 0,
        ipv4: 0,
        ipv6: 0,
        tcp: 0,
        udp: 0,
        icmp: 0,
        other_l4: 0,
        non_ip: 0,
        fragments: 0,
        dns: 0,
        dns_errors: 0,
        parse_errors: 0,
    }
}

/// The counters after a frame of `wire_len` bytes arrived.
pub open spec fn arrived(c: Counters, wire_len: u32) -> Counters {
    Counters { packets: (c.packets + 1) as u64, bytes: (c.bytes + wire_len) as u64, ..c }
}

pub open spec fn inc(x: u64) -> u64 {
    (x + 1) as u64
}

/// The counters after a decoded packet: no IP header counts as non-IP;
/// else the address family, a fragment, the transport protocol (a later
/// fragment or no transport counts nowhere) and DNS or a DNS error.
pub open spec fn count_spec(c: Counters, p: PacketModel) -> Counters {
    match p.ip {
        None => Counters { non_ip: inc(c.non_ip), ..c },
        Some(ip) => {
            let c1 = if ip.src.is_ipv4_spec() {
                Counters { ipv4: inc(c.ipv4), ..c }
            } else {
                Counters { ipv6: inc(c.ipv6), ..c }
            };
            let c2 = if ip.is_fragment_spec() {
                Counters { fragments: inc(c1.fragments), ..c1 }
            } else {
                c1
            };
            let c3 = match p.transport {
                Transport::Tcp(_) => Counters { tcp: inc(c2.tcp), ..c2 },
                Transport::Udp(_) => Counters { udp: inc(c2.udp), ..c2 },
                Transport::Icmp(_) => Counters { icmp: inc(c2.icmp), ..c2 },
                Transport::Other(_) => Counters { other_l4: inc(c2.other_l4), ..c2 },
                _ => c2,
            };
            match p.app {
                AppModel::Dns(_) => Counters { dns: inc(c3.dns), ..c3 },
                AppModel::DnsError(_) => Counters { dns_errors: inc(c3.dns_errors), ..c3 },
                AppModel::Absent => c3,
            }
        },
    }
}

/// Every frame is counted exactly once as IPv4, IPv6, non-IP or a parse
/// error; transports, fragments and DNS are counted among IP packets only.
pub open spec fn counters_add_up(c: Counters) -> bool {
    &&& c.ipv4 + c.ipv6 + c.non_ip + c.parse_errors == c.packets
    &&& c.tcp + c.udp + c.icmp + c.other_l4 <= c.ipv4 + c.ipv6
    &&& c.fragments <= c.ipv4 + c.ipv6
    &&& c.dns + c.dns_errors <= c.ipv4 + c.ipv6
}

/// The flow update that a decoded packet makes, if any: packets with an IP
/// header, except fragments after the first, count in the flow of their
/// canonical key.
pub open spec fn flow_update_spec(p: PacketModel) -> Option<FlowUpdate> {
    match p.ip {
        None => None,
        Some(ip) => if p.transport == Transport::LaterFragment {
            None
        } else {
            let ports = p.transport.ports_spec();
            let (key, direction) = FlowKey::canonical_spec(
                Endpoint { addr: ip.src, port: ports.0 },
                Endpoint { addr: ip.dst, port: ports.1 },
                ip.proto,
            );
            Some(
                FlowUpdate {
                    key,
                    direction,
                    ts_us: p.ts_us,
                    bytes: p.wire_len,
                    tcp_flags: match p.transport {
                        Transport::Tcp(h) => h.flags,
                        _ => 0,
                    },
                },
            )
        },
    }
}

/// A snapshot of an engine's state.
#[derive(Debug, Clone)]
pub struct Snapshot {
    pub counters: Counters,
    pub active_flows: usize,
    pub evicted_flows: u64,
    pub expired_flows: u64,
    pub last_ts_us: u64,
    pub top_flows: Vec<(FlowKey, FlowStats)>,
}

/// Decodes frames, counts them, keeps the flow table and runs the rules.
pub struct Engine {
    config: EngineConfig,
    flows: FlowTable,
    counters: Counters,
    last_ts_us: u64,
    next_expiry_us: u64,
    rules: Option<RuleEngine>,
    alerts: Vec<Alert>,
}

impl Engine {
    pub closed spec fn config_spec(&self) -> EngineConfig {
        self.config
    }

    pub closed spec fn table(&self) -> FlowTable {
        self.flows
    }

    pub closed spec fn counters_spec(&self) -> Counters {
        self.counters
    }

    /// The latest capture time seen.
    pub closed spec fn last_ts(&self) -> u64 {
        self.last_ts_us
    }

    /// When idle flows are next looked for.
    pub closed spec fn next_expiry(&self) -> u64 {
        self.next_expiry_us
    }

    pub closed spec fn rule_engine(&self) -> Option<RuleEngine> {
        self.rules
    }

    /// The alerts raised and not yet drained, oldest first.
    pub closed spec fn pending(&self) -> Seq<AlertModel> {
        alert_views(self.alerts@)
    }

    pub closed spec fn wf(&self) -> bool {
        &&& self.flows.wf()
        &&& self.flows.entries().len() <= self.flows.capacity()
        &&& self.flows.capacity() == self.config.max_flows
        &&& self.flows.idle_timeout_spec() == self.config.flow_idle_timeout_us
        &&& self.rules matches Some(r) ==> r.wf()
        &&& counters_add_up(self.counters)
        &&& self.counters.packets > 0 ==> self.last_ts_us + self.config.flow_idle_timeout_us + EXPIRY_INTERVAL_US
            <= u64::MAX
        &&& self.counters.packets == 0 ==> self.last_ts_us == 0
        &&& self.flows.entries().len() + self.flows.evicted_spec() + self.flows.expired_spec()
            <= self.counters.packets
        &&& flows_bounded(self.flows.entries(), self.counters, self.last_ts_us)
    }

    /// Whether a frame can be taken without a counter or a clock
    /// overflowing: fewer than `u64::MAX` frames so far, room for its bytes,
    /// and a time far enough from the end of `u64`.
    pub open spec fn has_room_for(&self, frame: Frame) -> bool {
        &&& self.counters_spec().packets < u64::MAX
        &&& self.counters_spec().bytes + frame.wire_len <= u64::MAX
        &&& frame.ts_us + self.config_spec().flow_idle_timeout_us + EXPIRY_INTERVAL_US <= u64::MAX
        &&& frame.data@.len() + 0x1_0000 <= usize::MAX
    }

    /// An engine that has seen nothing and runs no rules.
    pub fn new(config: EngineConfig) -> (e: Self)
        requires
            config.max_flows > 0,
        ensures
            e.wf(),
            e.config_spec() == config,
            e.table().entries().len() == 0,
            e.table().evicted_spec() == 0,
            e.table().expired_spec() == 0,
            e.counters_spec() == zero_counters(),
            e.last_ts() == 0,
            e.next_expiry() == 0,
            e.rule_engine() is None,
            e.pending() == Seq::<AlertModel>::empty(),
    {
        let e = Engine {
            flows: FlowTable::new(config.max_flows, config.flow_idle_timeout_us),
            config,
            counters: Counters::default(),
            last_ts_us: 0,
            next_expiry_us: 0,
            rules: None,
            alerts: Vec::new(),
        };
        assert(e.pending() =~= Seq::<AlertModel>::empty());
        e
    }

    /// The engine, running `rules`.
    pub fn with_rules(self, rules: RuleEngine) -> (e: Self)
        requires
            self.wf(),
            rules.wf(),
        ensures
            e.wf(),
            e.rule_engine() == Some(rules),
            e.config_spec() == self.config_spec(),
            e.table() == self.table(),
            e.counters_spec() == self.counters_spec(),
            e.last_ts() == self.last_ts(),
            e.next_expiry() == self.next_expiry(),
            e.pending() == self.pending(),
    {
        let mut e = self;
        e.rules = Some(rules);
        e
    }

    /// Replaces the rules (`None`: run no rules).
    pub fn set_rules(&mut self, rules: Option<RuleEngine>)
        requires
            old(self).wf(),
            rules matches Some(r) ==> r.wf(),
        ensures
            final(self).wf(),
            final(self).rule_engine() == rules,
            final(self).config_spec() == old(self).config_spec(),
            final(self).table() == old(self).table(),
            final(self).counters_spec() == old(self).counters_spec(),
            final(self).last_ts() == old(self).last_ts(),
            final(self).next_expiry() == old(self).next_expiry(),
            final(self).pending() == old(self).pending(),
    {
        self.rules = rules;
    }

    pub fn rules(&self) -> (r: Option<&RuleEngine>)
        ensures
            match r {
                Some(x) => self.rule_engine() == Some(*x),
                None => self.rule_engine() is None,
            },
    {
        match &self.rules {
            Some(r) => Some(r),
            None => None,
        }
    }

    /// Hands out the pending alerts, oldest first, and forgets them.
    pub fn drain_alerts(&mut self) -> (v: Vec<Alert>)
        requires
            old(self).wf(),
        ensures
            final(self).wf(),
            alert_views(v@) == old(self).pending(),
            final(self).pending() == Seq::<AlertModel>::empty(),
            final(self).rule_engine() == old(self).rule_engine(),
            final(self).config_spec() == old(self).config_spec(),
            final(self).table() == old(self).table(),
            final(self).counters_spec() == old(self).counters_spec(),
            final(self).last_ts() == old(self).last_ts(),
            final(self).next_expiry() == old(self).next_expiry(),
    {
        let mut v: Vec<Alert> = Vec::new();
        std::mem::swap(&mut v, &mut self.alerts);
        assert(alert_views(self.alerts@) =~= Seq::<AlertModel>::empty());
        v
    }

    pub fn counters(&self) -> (c: &Counters)
        ensures
            *c == self.counters_spec(),
    {
        &self.counters
    }

    pub fn flows(&self) -> (t: &FlowTable)
        ensures
            *t == self.table(),
            self.wf() ==> t.wf(),
    {
        &self.flows
    }

    pub fn last_ts_us(&self) -> (t: u64)
        ensures
            t == self.last_ts(),
    {
        self.last_ts_us
    }

    pub fn config(&self) -> (c: EngineConfig)
        ensures
            c == self.config_spec(),
    {
        self.config
    }

    /// Counts, decodes, tracks and checks one frame. The frame is counted
    /// first and the clock advanced (looking for idle flows at most once per
    /// `EXPIRY_INTERVAL_US`); a frame that fails to decode counts as a
    /// parse error and its error comes back. A decoded packet is counted,
    /// updates its flow, and goes through the rules, whose alerts join the
    /// pending ones. `f(label, bits)` judges whether a DNS label looks
    /// random against the entropy threshold whose `f64` bits are `bits`.
    pub fn process<F: Fn(&str, u64) -> bool>(&mut self, frame: &Frame<'_>, f: &F) -> (r: Result<Packet, ParseError>)
        requires
            old(self).wf(),
            old(self).has_room_for(*frame),
            forall|l: &str, b: u64| call_requires(*f, (l, b)),
        ensures
            final(self).wf(),
            processed(*f, *old(self), *frame, *final(self), r),
    {
        let ghost e0 = *self;
        self.take_frame(frame);
        let packet = match parse(self.config.link, frame) {
            Ok(p) => p,
            Err(e) => {
                self.counters.parse_errors = self.counters.parse_errors + 1;
                proof {
                    lemma_flows_bounded_grow(self.flows.entries(), e0.counters, self.counters, self.last_ts_us);
                }
                return Err(e);
            },
        };
        self.track_packet(&packet, Ghost(e0.counters));
        let ghost mut tun: Seq<bool> = Seq::empty();
        let mut taken: Option<RuleEngine> = None;
        std::mem::swap(&mut taken, &mut self.rules);
        match taken {
            Some(mut rules) => {
                let ghost re = rules;
                let ghost out0 = alert_views(self.alerts@);
                rules.evaluate(&packet, f, &mut self.alerts);
                let ghost tunnels = choose|t: Seq<bool>| #[trigger]
                    all_evaluated(*f, re.specs(), re.states(), packet@, t, rules.states(), out0, alert_views(self.alerts@));
                self.rules = Some(rules);
                proof {
                    tun = tunnels;
                }
                assert(all_evaluated(*f, re.specs(), re.states(), packet@, tun, rules.states(), out0, self.pending()));
            },
            None => {},
        }
        proof {
            let m = packet@;
            assert(packet_spec(e0.config.link, frame.ts_us, frame.wire_len, frame.data@) == Ok::<PacketModel, ParseError>(m));
            assert(self.config_spec() == e0.config_spec());
            assert(self.counters_spec() == count_spec(arrived(e0.counters, frame.wire_len), m));
            match e0.rules {
                None => {
                    assert(self.rule_engine() is None);
                    assert(self.pending() == e0.pending());
                },
                Some(re) => {
                    let re2 = self.rule_engine().unwrap();
                    assert(re2.specs() == re.specs());
                    assert(all_evaluated(*f, re.specs(), re.states(), m, tun, re2.states(), e0.pending(), self.pending()));
                },
            }
        }
        Ok(packet)
    }

    /// Counts a frame's arrival and advances the clock to its time.
    fn take_frame(&mut self, frame: &Frame<'_>)
        requires
            old(self).wf(),
            old(self).has_room_for(*frame),
        ensures
            final(self).flows.wf(),
            final(self).flows.capacity() == old(self).config.max_flows,
            final(self).flows.idle_timeout_spec() == old(self).config.flow_idle_timeout_us,
            final(self).config == old(self).config,
            final(self).rules == old(self).rules,
            final(self).alerts == old(self).alerts,
            final(self).counters == arrived(old(self).counters, frame.wire_len),
            final(self).last_ts_us == if old(self).last_ts_us >= frame.ts_us {
                old(self).last_ts_us
            } else {
                frame.ts_us
            },
            final(self).next_expiry_us == if final(self).last_ts_us >= old(self).next_expiry_us {
                final(self).last_ts_us + EXPIRY_INTERVAL_US
            } else {
                old(self).next_expiry_us as int
            },
            final(self).flows.entries() == if final(self).last_ts_us >= old(self).next_expiry_us {
                expire_spec(old(self).flows.entries(), final(self).last_ts_us, old(self).config.flow_idle_timeout_us)
            } else {
                old(self).flows.entries()
            },
            final(self).flows.expired_spec() == old(self).flows.expired_spec() + old(self).flows.entries().len()
                - final(self).flows.entries().len(),
            final(self).flows.evicted_spec() == old(self).flows.evicted_spec(),
            flows_bounded(final(self).flows.entries(), old(self).counters, final(self).last_ts_us),
            final(self).flows.entries().len() + final(self).flows.evicted_spec() + final(self).flows.expired_spec()
                <= old(self).counters.packets,
            final(self).last_ts_us + final(self).config.flow_idle_timeout_us + EXPIRY_INTERVAL_US <= u64::MAX,
    {
        let ghost e0 = *self;
        let ghost last = if self.last_ts_us >= frame.ts_us { self.last_ts_us } else { frame.ts_us };
        proof {
            lemma_expire_prefix(self.flows.entries(), self.config.flow_idle_timeout_us, last);
        }
        self.advance_clock(frame.ts_us);
        proof {
            let s1 = self.flows.entries();
            assert forall|i: int| 0 <= i < s1.len() implies ({
                &&& (#[trigger] s1[i]).1.packets[0] + s1[i].1.packets[1] <= e0.counters.packets
                &&& s1[i].1.bytes[0] + s1[i].1.bytes[1] <= e0.counters.bytes
                &&& s1[i].1.last_seen_us <= last
            }) by {
                assert(s1[i] == e0.flows.entries()[i]);
            }
        }
        self.counters.packets = self.counters.packets + 1;
        self.counters.bytes = self.counters.bytes + frame.wire_len as u64;
    }

    /// Counts a decoded packet and its flow.
    fn track_packet(&mut self, packet: &Packet, Ghost(c_old): Ghost<Counters>)
        requires
            old(self).flows.wf(),
            old(self).flows.capacity() == old(self).config.max_flows,
            old(self).counters == arrived(c_old, packet.wire_len),
            counters_add_up(c_old),
            c_old.packets < u64::MAX,
            c_old.bytes + packet.wire_len <= u64::MAX,
            flows_bounded(old(self).flows.entries(), c_old, old(self).last_ts_us),
            old(self).flows.entries().len() + old(self).flows.evicted_spec() + old(self).flows.expired_spec()
                <= c_old.packets,
            packet.ts_us <= old(self).last_ts_us,
        ensures
            final(self).flows.wf(),
            final(self).flows.capacity() == old(self).flows.capacity(),
            final(self).flows.idle_timeout_spec() == old(self).flows.idle_timeout_spec(),
            final(self).flows.expired_spec() == old(self).flows.expired_spec(),
            final(self).counters == count_spec(old(self).counters, packet@),
            counters_add_up(final(self).counters),
            final(self).flows.entries() == match flow_update_spec(packet@) {
                None => old(self).flows.entries(),
                Some(u) => push_spec(
                    old(self).flows.entries(),
                    old(self).flows.capacity(),
                    u.key.bits_spec(),
                    updated_stats(old(self).flows.entries(), u),
                ).0,
            },
            final(self).flows.evicted_spec() == old(self).flows.evicted_spec() + match flow_update_spec(packet@) {
                Some(u) => if lookup(old(self).flows.entries(), u.key.bits_spec()) is None
                    && old(self).flows.entries().len() == old(self).flows.capacity() {
                    1int
                } else {
                    0int
                },
                None => 0int,
            },
            flows_bounded(final(self).flows.entries(), final(self).counters, final(self).last_ts_us),
            final(self).flows.entries().len() + final(self).flows.evicted_spec() + final(self).flows.expired_spec()
                <= final(self).counters.packets,
            final(self).config == old(self).config,
            final(self).last_ts_us == old(self).last_ts_us,
            final(self).next_expiry_us == old(self).next_expiry_us,
            final(self).rules == old(self).rules,
            final(self).alerts == old(self).alerts,
    {
        let ghost s1 = self.flows.entries();
        let ghost cap = self.flows.capacity();
        proof {
            lemma_count_adds_up(c_old, packet@, packet.wire_len);
        }
        count(&mut self.counters, packet);
        proof {
            if let Some(u) = flow_update_spec(packet@) {
                let key = u.key.bits_spec();
                if has_key(s1, key) {
                    let j = key_index(s1, key);
                    assert(s1[j].1.packets[0] + s1[j].1.packets[1] <= c_old.packets);
                }
            }
        }
        track_flow(&mut self.flows, packet);
        proof {
            let n = self.flows.entries();
            let c = self.counters;
            match flow_update_spec(packet@) {
                None => {
                    assert forall|i: int| 0 <= i < n.len() implies ({
                        &&& (#[trigger] n[i]).1.packets[0] + n[i].1.packets[1] <= c.packets
                        &&& n[i].1.bytes[0] + n[i].1.bytes[1] <= c.bytes
                        &&& n[i].1.last_seen_us <= self.last_ts_us
                    }) by {
                        assert(n[i] == s1[i]);
                    }
                },
                Some(u) => {
                    let key = u.key.bits_spec();
                    let v = updated_stats(s1, u);
                    lemma_push_entries(s1, cap, key, v);
                    if has_key(s1, key) {
                        let j = key_index(s1, key);
                        assert(s1[j].1.packets[0] + s1[j].1.packets[1] <= c_old.packets);
                        assert(s1[j].1.bytes[0] + s1[j].1.bytes[1] <= c_old.bytes);
                    }
                    assert forall|i: int| 0 <= i < n.len() implies ({
                        &&& (#[trigger] n[i]).1.packets[0] + n[i].1.packets[1] <= c.packets
                        &&& n[i].1.bytes[0] + n[i].1.bytes[1] <= c.bytes
                        &&& n[i].1.last_seen_us <= self.last_ts_us
                    }) by {
                        if i > 0 {
                            let j = choose|j: int| 0 <= j < s1.len() && s1[j] == n[i];
                            assert(s1[j].1.packets[0] + s1[j].1.packets[1] <= c_old.packets);
                        }
                    }
                },
            }
        }
    }

    /// Moves the clock to `ts_us` if that is later, and removes idle flows
    /// when the next expiry time has come.
    fn advance_clock(&mut self, ts_us: u64)
        requires
            old(self).flows.wf(),
            ts_us + old(self).config.flow_idle_timeout_us + EXPIRY_INTERVAL_US <= u64::MAX,
            old(self).last_ts_us <= ts_us || old(self).last_ts_us + old(self).config.flow_idle_timeout_us
                + EXPIRY_INTERVAL_US <= u64::MAX,
            old(self).flows.idle_timeout_spec() == old(self).config.flow_idle_timeout_us,
            flows_bounded(old(self).flows.entries(), old(self).counters, old(self).last_ts_us),
            old(self).flows.entries().len() + old(self).flows.evicted_spec() + old(self).flows.expired_spec()
                <= u64::MAX,
        ensures
            final(self).flows.wf(),
            final(self).last_ts_us == if old(self).last_ts_us >= ts_us {
                old(self).last_ts_us
            } else {
                ts_us
            },
            final(self).next_expiry_us == if final(self).last_ts_us >= old(self).next_expiry_us {
                final(self).last_ts_us + EXPIRY_INTERVAL_US
            } else {
                old(self).next_expiry_us as int
            },
            final(self).flows.entries() == if final(self).last_ts_us >= old(self).next_expiry_us {
                expire_spec(old(self).flows.entries(), final(self).last_ts_us, old(self).config.flow_idle_timeout_us)
            } else {
                old(self).flows.entries()
            },
            final(self).flows.expired_spec() == old(self).flows.expired_spec() + old(self).flows.entries().len()
                - final(self).flows.entries().len(),
            final(self).flows.evicted_spec() == old(self).flows.evicted_spec(),
            final(self).flows.capacity() == old(self).flows.capacity(),
            final(self).flows.idle_timeout_spec() == old(self).flows.idle_timeout_spec(),
            final(self).config == old(self).config,
            final(self).counters == old(self).counters,
            final(self).rules == old(self).rules,
            final(self).alerts == old(self).alerts,
    {
        if ts_us > self.last_ts_us {
            self.last_ts_us = ts_us;
        }
        if self.last_ts_us >= self.next_expiry_us {
            proof {
                assert forall|i: int| 0 <= i < self.flows.entries().len() implies #[trigger] self.flows.entries()[i].1.last_seen_us
                    + self.flows.idle_timeout_spec() <= u64::MAX by {
                    assert(self.flows.entries()[i].1.last_seen_us <= old(self).last_ts_us);
                }
            }
            self.flows.expire(self.last_ts_us);
            self.next_expiry_us = self.last_ts_us + EXPIRY_INTERVAL_US;
        }
    }

    /// A snapshot: the counters, the flow table's size and removals, the
    /// clock, and the `top_n` flows with the most bytes (see `top_spec`).
    pub fn snapshot(&self) -> (s: Snapshot)
        requires
            self.wf(),
        ensures
            s.counters == self.counters_spec(),
            s.active_flows == self.table().entries().len(),
            s.evicted_flows == self.table().evicted_spec(),
            s.expired_flows == self.table().expired_spec(),
            s.last_ts_us == self.last_ts(),
            top_spec(self.table().keyed(), self.config_spec().top_n as nat, s.top_flows@),
    {
        proof {
            assert forall|i: int| 0 <= i < self.flows.entries().len() implies (#[trigger] self.flows.entries()[i]).1.total_bytes_spec()
                <= u64::MAX by {
                assert(self.flows.entries()[i].1.bytes[0] + self.flows.entries()[i].1.bytes[1] <= self.counters.bytes);
            }
        }
        Snapshot {
            counters: self.counters,
            active_flows: self.flows.len(),
            evicted_flows: self.flows.evicted(),
            expired_flows: self.flows.expired(),
            last_ts_us: self.last_ts_us,
            top_flows: self.flows.top_by_bytes(self.config.top_n),
        }
    }
}

/// Every frame an engine took is counted exactly once as IPv4, IPv6,
/// non-IP or a parse error, and the engine never tracks more flows than
/// its configuration allows.
pub proof fn lemma_engine_invariants(e: Engine)
    requires
        e.wf(),
    ensures
        e.table().wf(),
        counters_add_up(e.counters_spec()),
        e.table().entries().len() <= e.config_spec().max_flows,
        e.table().entries().len() + e.table().evicted_spec() + e.table().expired_spec() <= e.counters_spec().packets,
{
}

/// A decoded packet adds one to the fragment counter exactly when it has an
/// IP header that says more fragments follow or that gives a fragment
/// offset other than zero, and otherwise leaves that counter as it was.
pub proof fn lemma_fragment_counted(c: Counters, p: PacketModel)
    requires
        c.fragments < u64::MAX,
    ensures
        count_spec(c, p).fragments == c.fragments + if p.ip matches Some(ip) && (ip.more_fragments
            || ip.fragment_offset != 0) {
            1int
        } else {
            0int
        },
{
}

/// One frame through an engine that was `e` left it as `e2` and returned
/// `r` (see `Engine::process`).
pub open spec fn processed<F: Fn(&str, u64) -> bool>(f: F, e: Engine, frame: Frame, e2: Engine, r: Result<Packet, ParseError>) -> bool {
    let last = if e.last_ts() >= frame.ts_us { e.last_ts() } else { frame.ts_us };
    let expiring = last >= e.next_expiry();
    let t1 = if expiring {
        expire_spec(e.table().entries(), last, e.config_spec().flow_idle_timeout_us)
    } else {
        e.table().entries()
    };
    let c = arrived(e.counters_spec(), frame.wire_len);
    &&& e2.config_spec() == e.config_spec()
    &&& e2.last_ts() == last
    &&& e2.next_expiry() == if expiring { (last + EXPIRY_INTERVAL_US) as u64 } else { e.next_expiry() }
    &&& e2.table().expired_spec() == e.table().expired_spec() + e.table().entries().len() - t1.len()
    &&& match packet_spec(e.config_spec().link, frame.ts_us, frame.wire_len, frame.data@) {
        Err(err) => {
            &&& r == Err::<Packet, ParseError>(err)
            &&& e2.counters_spec() == Counters { parse_errors: inc(c.parse_errors), ..c }
            &&& e2.table().entries() == t1
            &&& e2.table().evicted_spec() == e.table().evicted_spec()
            &&& e2.rule_engine() == e.rule_engine()
            &&& e2.pending() == e.pending()
        },
        Ok(m) => {
            &&& r matches Ok(p) && p@ == m
            &&& e2.counters_spec() == count_spec(c, m)
            &&& e2.table().entries() == match flow_update_spec(m) {
                None => t1,
                Some(u) => push_spec(t1, e.config_spec().max_flows as nat, u.key.bits_spec(), updated_stats(t1, u)).0,
            }
            &&& e2.table().evicted_spec() == e.table().evicted_spec() + match flow_update_spec(m) {
                Some(u) => if lookup(t1, u.key.bits_spec()) is None && t1.len() == e.config_spec().max_flows {
                    1int
                } else {
                    0int
                },
                None => 0int,
            }
            &&& match e.rule_engine() {
                None => e2.rule_engine() is None && e2.pending() == e.pending(),
                Some(re) => e2.rule_engine() matches Some(re2) && re2.specs() == re.specs() && exists|tunnels: Seq<bool>|
                    #[trigger] all_evaluated(f, re.specs(), re.states(), m, tunnels, re2.states(), e.pending(), e2.pending()),
            }
        },
    }
}

/// The counters after a decoded packet, counted in place (see
/// `count_spec`).
fn count(c: &mut Counters, p: &Packet)
    requires
        old(c).ipv4 + old(c).ipv6 + old(c).non_ip < u64::MAX,
        old(c).tcp + old(c).udp + old(c).icmp + old(c).other_l4 <= old(c).ipv4 + old(c).ipv6,
        old(c).fragments <= old(c).ipv4 + old(c).ipv6,
        old(c).dns + old(c).dns_errors <= old(c).ipv4 + old(c).ipv6,
    ensures
        *final(c) == count_spec(*old(c), p@),
{
    let ip = match p.ip {
        Some(ip) => ip,
        None => {
            c.non_ip = c.non_ip + 1;
            return;
        },
    };
    if ip.src.is_ipv4() {
        c.ipv4 = c.ipv4 + 1;
    } else {
        c.ipv6 = c.ipv6 + 1;
    }
    if ip.is_fragment() {
        c.fragments = c.fragments + 1;
    }
    match p.transport {
        Transport::Tcp(_) => c.tcp = c.tcp + 1,
        Transport::Udp(_) => c.udp = c.udp + 1,
        Transport::Icmp(_) => c.icmp = c.icmp + 1,
        Transport::Other(_) => c.other_l4 = c.other_l4 + 1,
        _ => {},
    }
    match p.app {
        App::Dns(_) => c.dns = c.dns + 1,
        App::DnsError(_) => c.dns_errors = c.dns_errors + 1,
        App::Absent => {},
    }
}

/// Counts a decoded packet in its flow (see `flow_update_spec`).
fn track_flow(flows: &mut FlowTable, p: &Packet)
    requires
        old(flows).wf(),
        flow_update_spec(p@) matches Some(u) ==> {
            &&& old(flows).stats_of(u.key) matches Some(s) ==> crate::flow::can_bump(s, u)
            &&& old(flows).stats_of(u.key) is None && old(flows).entries().len() == old(flows).capacity()
                ==> old(flows).evicted_spec() < u64::MAX
        },
    ensures
        final(flows).wf(),
        final(flows).capacity() == old(flows).capacity(),
        final(flows).idle_timeout_spec() == old(flows).idle_timeout_spec(),
        final(flows).expired_spec() == old(flows).expired_spec(),
        final(flows).entries() == match flow_update_spec(p@) {
            None => old(flows).entries(),
            Some(u) => push_spec(old(flows).entries(), old(flows).capacity(), u.key.bits_spec(), updated_stats(old(flows).entries(), u)).0,
        },
        final(flows).evicted_spec() == old(flows).evicted_spec() + match flow_update_spec(p@) {
            Some(u) => if old(flows).stats_of(u.key) is None && old(flows).entries().len() == old(flows).capacity() {
                1int
            } else {
                0int
            },
            None => 0int,
        },
{
    let ip = match p.ip {
        Some(ip) => ip,
        None => return,
    };
    if let Transport::LaterFragment = p.transport {
        return;
    }
    let (sport, dport) = p.transport.ports();
    let tcp_flags = match p.transport {
        Transport::Tcp(h) => h.flags,
        _ => 0,
    };
    let (key, direction) = FlowKey::canonical(
        Endpoint { addr: ip.src, port: sport },
        Endpoint { addr: ip.dst, port: dport },
        ip.proto,
    );
    let u = FlowUpdate { key, direction, ts_us: p.ts_us, bytes: p.wire_len, tcp_flags };
    assert(flow_update_spec(p@) == Some(u));
    flows.update(&u);
}

/// Counting a decoded packet after its arrival keeps the counters adding up.
proof fn lemma_count_adds_up(c: Counters, m: PacketModel, w: u32)
    requires
        counters_add_up(c),
        c.packets < u64::MAX,
        c.bytes + w <= u64::MAX,
    ensures
        counters_add_up(count_spec(arrived(c, w), m)),
        arrived(c, w).ipv4 + arrived(c, w).ipv6 + arrived(c, w).non_ip < u64::MAX,
{
}

/// Flow bounds stay true when the counters only grow.
proof fn lemma_flows_bounded_grow(s: Seq<(crate::flow::FlowKeyBits, FlowStats)>, c: Counters, c2: Counters, last: u64)
    requires
        flows_bounded(s, c, last),
        c.packets <= c2.packets,
        c.bytes <= c2.bytes,
    ensures
        flows_bounded(s, c2, last),
{
}

/// Expiry keeps a prefix of the entries.
proof fn lemma_expire_prefix(s: Seq<(crate::flow::FlowKeyBits, FlowStats)>, timeout: u64, now: u64)
    ensures
        expire_spec(s, now, timeout).len() <= s.len(),
        expire_spec(s, now, timeout) == s.subrange(0, expire_spec(s, now, timeout).len() as int),
    decreases s.len(),
{
    if s.len() > 0 && s.last().1.last_seen_us + timeout <= now {
        lemma_expire_prefix(s.drop_last(), timeout, now);
        let k = expire_spec(s, now, timeout).len() as int;
        assert(s.drop_last().subrange(0, k) =~= s.subrange(0, k));
    } else {
        assert(s.subrange(0, s.len() as int) =~= s);
    }
}

/// Every flow has no more packets or bytes than all frames together, and
/// was last seen no later than `last_ts`.
pub open spec fn flows_bounded(s: Seq<(crate::flow::FlowKeyBits, FlowStats)>, c: Counters, last_ts: u64) -> bool {
    forall|i: int|
        0 <= i < s.len() ==> {
            &&& (#[trigger] s[i]).1.packets[0] + s[i].1.packets[1] <= c.packets
            &&& s[i].1.bytes[0] + s[i].1.bytes[1] <= c.bytes
            &&& s[i].1.last_seen_us <= last_ts
        }
}

} // verus!
