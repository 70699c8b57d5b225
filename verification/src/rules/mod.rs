pub mod engine;
pub mod spec;
pub mod window;

use vstd::prelude::*;

use crate::alert::{Alert, AlertModel, Severity};
use crate::packet::{Packet, PacketModel};
use engine::{rule_alert, rule_step, tunnel_verdict, CompiledRule, SourceModel};
use crate::text::decimal_spec;
use spec::{RuleKind, RuleSpec, DEFAULT_MIN_LABEL_LEN};

verus! {

/// The `f64` bits of the entropy threshold (3.5 bits per character) that a
/// DNS tunnel rule uses unless its file says otherwise.
pub const DEFAULT_MIN_ENTROPY_BITS: u64 = 0x400C_0000_0000_0000;

/// The rules of `specs` that are enabled, in order.
pub open spec fn enabled_specs(specs: Seq<RuleSpec>) -> Seq<RuleSpec>
    decreases specs.len(),
{
    if specs.len() == 0 {
        Seq::empty()
    } else {
        enabled_specs(specs.drop_last()) + if specs.last().enabled {
            seq![specs.last()]
        } else {
            Seq::empty()
        }
    }
}

/// The alerts that rules `0..n` raise for packet `p`, in rule order, when
/// their sources were `states` and `tunnels` are the verdicts on the packet.
pub open spec fn alerts_of(
    specs: Seq<RuleSpec>,
    states: Seq<Seq<((bool, u128), SourceModel)>>,
    p: PacketModel,
    tunnels: Seq<bool>,
    n: int,
) -> Seq<AlertModel>
    decreases n,
{
    if n <= 0 {
        Seq::empty()
    } else {
        alerts_of(specs, states, p, tunnels, n - 1) + match rule_alert(
            specs[n - 1],
            states[n - 1],
            p,
            tunnels[n - 1],
        ) {
            Some(a) => seq![a],
            None => Seq::empty(),
        }
    }
}

/// One packet through every rule: `tunnels[i]` is a possible verdict of `f`
/// for rule `i` (asked only of DNS tunnel rules), each rule's sources
/// stepped from `states` to `states2`, and the alerts the rules raised, in
/// rule order, were appended to `out` giving `out2`.
pub open spec fn all_evaluated<F: Fn(&str, u64) -> bool>(
    f: F,
    specs: Seq<RuleSpec>,
    states: Seq<Seq<((bool, u128), SourceModel)>>,
    p: PacketModel,
    tunnels: Seq<bool>,
    states2: Seq<Seq<((bool, u128), SourceModel)>>,
    out: Seq<AlertModel>,
    out2: Seq<AlertModel>,
) -> bool {
    &&& tunnels.len() == specs.len()
    &&& states2.len() == specs.len()
    &&& forall|i: int|
        0 <= i < specs.len() && specs[i].kind == RuleKind::DnsTunnel ==> tunnel_verdict(
            f,
            p,
            specs[i].min_label_len,
            specs[i].min_entropy_bits,
            #[trigger] tunnels[i],
        )
    &&& forall|i: int|
        0 <= i < specs.len() ==> #[trigger] states2[i] == rule_step(specs[i], states[i], p, tunnels[i]).0
    &&& out2 == out + alerts_of(specs, states, p, tunnels, specs.len() as int)
}

pub open spec fn alert_views(v: Seq<Alert>) -> Seq<AlertModel> {
    v.map_values(|a: Alert| a@)
}

/// The rules that packets are checked against, in order.
pub struct RuleEngine {
    rules: Vec<CompiledRule>,
}

impl RuleEngine {
    pub closed spec fn specs(&self) -> Seq<RuleSpec> {
        self.rules@.map_values(|r: CompiledRule| r.rule())
    }

    /// Each rule's sources, most recently seen first.
    pub closed spec fn states(&self) -> Seq<Seq<((bool, u128), SourceModel)>> {
        self.rules@.map_values(|r: CompiledRule| r.sources())
    }

    pub closed spec fn wf(&self) -> bool {
        forall|i: int| 0 <= i < self.rules@.len() ==> (#[trigger] self.rules@[i]).wf()
    }

    /// An engine of the enabled rules of `specs`, in their order, that has
    /// seen no packet.
    pub fn from_specs(specs: Vec<RuleSpec>) -> (e: Self)
        ensures
            e.wf(),
            e.specs() == enabled_specs(specs@),
            e.states().len() == e.specs().len(),
            forall|i: int| 0 <= i < e.states().len() ==> #[trigger] e.states()[i] == Seq::<((bool, u128), SourceModel)>::empty(),
    {
        let ghost all = specs@;
        let total = specs.len();
        let mut rest = specs;
        let mut rules: Vec<CompiledRule> = Vec::new();
        let mut i: usize = 0;
        while rest.len() > 0
            invariant
                all.len() == i + rest@.len(),
                all.len() == total,
                rest@ == all.subrange(i as int, all.len() as int),
                rules@.map_values(|r: CompiledRule| r.rule()) == enabled_specs(all.take(i as int)),
                forall|j: int| 0 <= j < rules@.len() ==> (#[trigger] rules@[j]).wf(),
                forall|j: int| 0 <= j < rules@.len() ==> #[trigger] rules@[j].sources() == Seq::<((bool, u128), SourceModel)>::empty(),
            decreases rest@.len(),
        {
            let spec = rest.remove(0);
            assert(all.take(i as int + 1).drop_last() =~= all.take(i as int));
            assert(spec == all[i as int]);
            if spec.enabled {
                let r = CompiledRule::new(spec);
                rules.push(r);
            }
            assert(rules@.map_values(|r: CompiledRule| r.rule()) =~= enabled_specs(all.take(i as int + 1)));
            i += 1;
        }
        assert(all.take(i as int) =~= all);
        RuleEngine { rules }
    }

    /// The bundled rules: a port scan (100 distinct ports in 10 s, high), a
    /// host sweep (100 distinct hosts in 10 s, medium), a DNS tunnel (10
    /// queries with a long random-looking label in 60 s, critical) and a
    /// packet flood (1000 packets in 1 s, high), each with a cooldown of
    /// 60 s.
    pub fn builtin() -> (e: Self)
        ensures
            e.wf(),
            builtin_specs_ok(e.specs()),
            e.states().len() == 4,
            forall|i: int| 0 <= i < 4 ==> #[trigger] e.states()[i] == Seq::<((bool, u128), SourceModel)>::empty(),
    {
        let mut specs: Vec<RuleSpec> = Vec::new();
        specs.push(builtin_rule("port-scan", RuleKind::PortScan, Severity::High, "TCP SYN probes to many ports", 10, 100));
        specs.push(builtin_rule("host-sweep", RuleKind::HostSweep, Severity::Medium, "one source contacting many hosts", 10, 100));
        specs.push(builtin_rule("dns-tunnel", RuleKind::DnsTunnel, Severity::Critical, "DNS queries with long random-looking labels", 60, 10));
        specs.push(builtin_rule("packet-flood", RuleKind::PacketRate, Severity::High, "one source sending packets at a high rate", 1, 1000));
        let ghost all = specs@;
        proof {
            reveal_with_fuel(enabled_specs, 5);
            assert(all.drop_last().drop_last().drop_last().drop_last() =~= Seq::<RuleSpec>::empty());
            assert(enabled_specs(all) =~= all);
        }
        Self::from_specs(specs)
    }

    /// The number of rules.
    pub fn len(&self) -> (n: usize)
        ensures
            n == self.specs().len(),
    {
        self.rules.len()
    }

    pub fn is_empty(&self) -> (b: bool)
        ensures
            b == (self.specs().len() == 0),
    {
        self.rules.len() == 0
    }

    /// The rules' ids, in order.
    pub fn rule_ids(&self) -> (ids: Vec<String>)
        ensures
            ids@.len() == self.specs().len(),
            forall|i: int| 0 <= i < ids@.len() ==> #[trigger] ids@[i]@ == self.specs()[i].id@,
    {
        let mut ids: Vec<String> = Vec::new();
        let mut i: usize = 0;
        while i < self.rules.len()
            invariant
                i <= self.rules@.len(),
                ids@.len() == i,
                forall|j: int| 0 <= j < i ==> #[trigger] ids@[j]@ == self.rules@[j].rule().id@,
            decreases self.rules@.len() - i,
        {
            let id = self.rules[i].spec().id.clone();
            ids.push(id);
            i += 1;
        }
        ids
    }

    /// Checks `packet` against every rule, in order, appending the alerts
    /// raised to `out`. `f(label, bits)` judges whether a DNS label looks
    /// random against the entropy threshold whose `f64` bits are `bits`.
    pub fn evaluate<F: Fn(&str, u64) -> bool>(&mut self, packet: &Packet, f: &F, out: &mut Vec<Alert>)
        requires
            old(self).wf(),
            forall|l: &str, b: u64| call_requires(*f, (l, b)),
        ensures
            final(self).wf(),
            final(self).specs() == old(self).specs(),
            exists|tunnels: Seq<bool>| #[trigger]
                all_evaluated(
                    *f,
                    old(self).specs(),
                    old(self).states(),
                    packet@,
                    tunnels,
                    final(self).states(),
                    alert_views(old(out)@),
                    alert_views(final(out)@),
                ),
    {
        let ghost specs0 = self.specs();
        let ghost states0 = self.states();
        let ghost out0 = alert_views(out@);
        let ghost mut tunnels: Seq<bool> = Seq::empty();
        let mut i: usize = 0;
        while i < self.rules.len()
            invariant
                self.wf(),
                i <= self.rules@.len(),
                self.specs() == specs0,
                self.states().len() == states0.len(),
                specs0.len() == states0.len(),
                tunnels.len() == i,
                forall|l: &str, b: u64| call_requires(*f, (l, b)),
                forall|j: int|
                    0 <= j < i && specs0[j].kind == RuleKind::DnsTunnel ==> tunnel_verdict(
                        *f,
                        packet@,
                        specs0[j].min_label_len,
                        specs0[j].min_entropy_bits,
                        #[trigger] tunnels[j],
                    ),
                forall|j: int| 0 <= j < i ==> #[trigger] self.states()[j] == rule_step(specs0[j], states0[j], packet@, tunnels[j]).0,
                forall|j: int| i <= j < self.rules@.len() ==> #[trigger] self.states()[j] == states0[j],
                alert_views(out@) == out0 + alerts_of(specs0, states0, packet@, tunnels, i as int),
            decreases self.rules@.len() - i,
        {
            let ghost before = self.rules@;
            let ghost st_before = self.states();
            let ghost tun_before = tunnels;
            let ghost out_before = out@;
            assert(before[i as int].wf());
            assert(st_before[i as int] == states0[i as int]);
            assert(st_before[i as int] == before[i as int].sources());
            assert(forall|j: int| i <= j < before.len() ==> #[trigger] st_before[j] == before[j].sources());
            let mut rule = self.rules.remove(i);
            let r = rule.evaluate(packet, f);
            let ghost t = choose|t: bool| #[trigger]
                engine::evaluated(*f, before[i as int].rule(), before[i as int].sources(), packet@, t, rule.sources(), r);
            self.rules.insert(i, rule);
            proof {
                assert(self.rules@ =~= before.update(i as int, rule));
                assert(before[i as int].rule() == specs0[i as int]);
                assert(before[i as int].sources() == states0[i as int]);
                tunnels = tunnels.push(t);
                lemma_alerts_of_prefix(specs0, states0, packet@, tun_before, tunnels, i as int);
            }
            match r {
                Some(a) => {
                    out.push(a);
                    assert(alert_views(out@) =~= alert_views(out_before).push(a@));
                },
                None => {},
            }
            proof {
                assert forall|j: int| 0 <= j < self.rules@.len() implies (#[trigger] self.rules@[j]).wf() by {
                    if j != i {
                        assert(self.rules@[j] == before[j]);
                    }
                }
                assert(self.specs() =~= specs0) by {
                    assert forall|j: int| 0 <= j < self.rules@.len() implies self.rules@[j].rule() == specs0[j] by {
                        if j != i {
                            assert(self.rules@[j] == before[j]);
                        }
                    }
                }
                assert forall|j: int| 0 <= j <= i implies #[trigger] self.states()[j] == rule_step(
                    specs0[j],
                    states0[j],
                    packet@,
                    tunnels[j],
                ).0 by {
                    if j < i {
                        assert(self.rules@[j] == before[j]);
                        assert(st_before[j] == rule_step(specs0[j], states0[j], packet@, tun_before[j]).0);
                        assert(tunnels[j] == tun_before[j]);
                    } else {
                        assert(self.rules@[j] == rule);
                        assert(tunnels[j] == t);
                    }
                }
                assert forall|j: int| i < j < self.rules@.len() implies #[trigger] self.states()[j] == states0[j] by {
                    assert(self.rules@[j] == before[j]);
                    assert(st_before[j] == states0[j]);
                }
                assert(tunnels[i as int] == t);
                assert(alerts_of(specs0, states0, packet@, tunnels, i as int + 1) == alerts_of(
                    specs0,
                    states0,
                    packet@,
                    tunnels,
                    i as int,
                ) + match rule_alert(specs0[i as int], states0[i as int], packet@, t) {
                    Some(a) => seq![a],
                    None => Seq::<AlertModel>::empty(),
                });
                assert(alert_views(out_before) == out0 + alerts_of(specs0, states0, packet@, tun_before, i as int));
                match rule_alert(specs0[i as int], states0[i as int], packet@, t) {
                    Some(a) => {
                        assert(alert_views(out@) == alert_views(out_before).push(a));
                        assert(alert_views(out@) =~= out0 + alerts_of(specs0, states0, packet@, tunnels, i as int + 1));
                    },
                    None => {
                        assert(out@ == out_before);
                        assert(alert_views(out@) =~= out0 + alerts_of(specs0, states0, packet@, tunnels, i as int + 1));
                    },
                }
            }
            i += 1;
        }
        proof {
            assert(self.states() =~= self.states());
        }
        assert(all_evaluated(
            *f,
            specs0,
            states0,
            packet@,
            tunnels,
            self.states(),
            out0,
            alert_views(out@),
        ));
    }
}

/// A bundled rule: `window_secs` and `threshold` as given, a cooldown of
/// 60 s, the default DNS label length and entropy threshold, enabled.
pub open spec fn builtin_rule_ok(
    r: RuleSpec,
    id: Seq<char>,
    kind: RuleKind,
    severity: Severity,
    window_secs: u64,
    threshold: u32,
) -> bool {
    &&& r.id@ == id
    &&& r.kind == kind
    &&& r.severity == severity
    &&& r.window_us == window_secs * 1_000_000
    &&& r.window_text@ == decimal_spec(window_secs as nat)
    &&& r.threshold == threshold
    &&& r.cooldown_us == 60_000_000
    &&& r.enabled
    &&& r.min_label_len == DEFAULT_MIN_LABEL_LEN
    &&& r.min_entropy_bits == DEFAULT_MIN_ENTROPY_BITS
}

/// The bundled rules, in order.
pub open spec fn builtin_specs_ok(s: Seq<RuleSpec>) -> bool {
    &&& s.len() == 4
    &&& builtin_rule_ok(s[0], "port-scan"@, RuleKind::PortScan, Severity::High, 10, 100)
    &&& builtin_rule_ok(s[1], "host-sweep"@, RuleKind::HostSweep, Severity::Medium, 10, 100)
    &&& builtin_rule_ok(s[2], "dns-tunnel"@, RuleKind::DnsTunnel, Severity::Critical, 60, 10)
    &&& builtin_rule_ok(s[3], "packet-flood"@, RuleKind::PacketRate, Severity::High, 1, 1000)
}

proof fn lemma_alerts_of_prefix(
    specs: Seq<RuleSpec>,
    states: Seq<Seq<((bool, u128), SourceModel)>>,
    p: PacketModel,
    t1: Seq<bool>,
    t2: Seq<bool>,
    n: int,
)
    requires
        0 <= n <= t1.len() <= t2.len(),
        forall|j: int| 0 <= j < n ==> t1[j] == t2[j],
    ensures
        alerts_of(specs, states, p, t1, n) == alerts_of(specs, states, p, t2, n),
    decreases n,
{
    if n > 0 {
        lemma_alerts_of_prefix(specs, states, p, t1, t2, n - 1);
    }
}

/// A bundled rule: cooldown 60 s, the default DNS label length and entropy
/// threshold, enabled.
fn builtin_rule(id: &str, kind: RuleKind, severity: Severity, description: &str, window_secs: u64, threshold: u32) -> (r: RuleSpec)
    requires
        window_secs <= 1000,
    ensures
        builtin_rule_ok(r, id@, kind, severity, window_secs, threshold),
{
    RuleSpec {
        id: id.to_owned(),
        kind,
        severity,
        description: description.to_owned(),
        window_us: window_secs * 1_000_000,
        window_text: crate::text::decimal(window_secs),
        threshold,
        cooldown_us: 60_000_000,
        enabled: true,
        min_label_len: DEFAULT_MIN_LABEL_LEN,
        min_entropy_bits: DEFAULT_MIN_ENTROPY_BITS,
    }
}

} // verus!
