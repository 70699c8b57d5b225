use std::collections::HashMap;

use netcore_engine::rules::spec::{check_rules, FloatChecks, RuleError, RuleKind, RuleSpec, SUPPORTED_VERSION};
use netcore_engine::rules::{RuleEngine, DEFAULT_MIN_ENTROPY_BITS};
use netcore_engine::synth::{self, Scenario};
use netcore_engine::{Alert, Engine, EngineConfig, Frame, IpAddr, Severity};

const SEED: u64 = 42;

fn entropy(text: &str) -> f64 {
    if text.is_empty() {
        return 0.0;
    }
    let mut freq = [0u32; 256];
    for &b in text.as_bytes() {
        freq[usize::from(b)] += 1;
    }
    let len = text.len() as f64;
    freq.iter()
        .filter(|&&n| n > 0)
        .map(|&n| {
            let p = f64::from(n) / len;
            -p * p.log2()
        })
        .sum()
}

fn judge(label: &str, bits: u64) -> bool {
    entropy(label) >= f64::from_bits(bits)
}

fn run(scenario: Scenario, packets: usize, rules: RuleEngine) -> Vec<Alert> {
    let mut engine = Engine::new(EngineConfig::default()).with_rules(rules);
    let mut alerts = Vec::new();
    for (ts, data) in synth::generate(scenario, packets, SEED) {
        let frame = Frame { ts_us: ts, wire_len: data.len() as u32, data: &data };
        engine.process(&frame, &judge).expect("synthetic traffic parses");
        alerts.extend(engine.drain_alerts());
    }
    alerts
}

fn by_rule(alerts: &[Alert]) -> HashMap<&str, usize> {
    let mut map = HashMap::new();
    for a in alerts {
        *map.entry(a.rule_id.as_str()).or_insert(0) += 1;
    }
    map
}

fn score(a: &Alert) -> f64 {
    a.observed as f64 / f64::from(a.threshold)
}

fn rule(id: &str, kind: RuleKind, window_secs: u64, threshold: u32, cooldown_secs: u64) -> RuleSpec {
    RuleSpec {
        id: id.to_string(),
        kind,
        severity: Severity::Low,
        description: String::new(),
        window_us: window_secs * 1_000_000,
        window_text: window_secs.to_string(),
        threshold,
        cooldown_us: cooldown_secs * 1_000_000,
        enabled: true,
        min_label_len: 30,
        min_entropy_bits: DEFAULT_MIN_ENTROPY_BITS,
    }
}

fn ok_checks(n: usize) -> Vec<FloatChecks> {
    vec![FloatChecks { window_positive: true, cooldown_non_negative: true, entropy_non_negative: true }; n]
}

#[test]
fn builtin_rules_load() {
    let rules = RuleEngine::builtin();
    let ids: Vec<_> = rules.rule_ids();
    assert_eq!(ids, ["port-scan", "host-sweep", "dns-tunnel", "packet-flood"]);
}

#[test]
fn normal_traffic_raises_nothing() {
    let alerts = run(Scenario::Mixed, 50_000, RuleEngine::builtin());
    assert!(alerts.is_empty(), "false positives: {:?}", by_rule(&alerts));
}

#[test]
fn port_scan_is_detected_with_cooldown() {
    let alerts = run(Scenario::PortScan, 40_000, RuleEngine::builtin());
    let counts = by_rule(&alerts);
    assert_eq!(counts.keys().copied().collect::<Vec<_>>(), ["port-scan"]);

    let first = &alerts[0];
    assert_eq!(first.src, Some(IpAddr::v4(10, 0, 0, 66)));
    assert_eq!(first.severity, Severity::High);
    assert!(score(first) >= 1.0);
    assert!(first.message.contains("distinct ports"));
    for pair in alerts.windows(2) {
        assert!(pair[1].ts_us - pair[0].ts_us >= 15_000_000, "cooldown violated");
    }
}

#[test]
fn dns_tunnel_is_detected() {
    let alerts = run(Scenario::DnsTunnel, 20_000, RuleEngine::builtin());
    let counts = by_rule(&alerts);
    assert!(counts.get("dns-tunnel").copied().unwrap_or(0) >= 1, "{counts:?}");
    assert_eq!(counts.len(), 1);
    assert_eq!(alerts[0].severity, Severity::Critical);
    assert_eq!(alerts[0].src, Some(IpAddr::v4(10, 0, 0, 77)));
}

#[test]
fn threshold_is_respected_exactly() {
    let specs = check_rules(1, vec![rule("tiny", RuleKind::PortScan, 1000, 5, 100_000)], &ok_checks(1)).unwrap();
    let alerts = run(Scenario::PortScan, 4 * 5, RuleEngine::from_specs(specs));
    assert_eq!(alerts.len(), 1);
    assert_eq!(score(&alerts[0]), 1.0);
}

#[test]
fn disabled_rules_are_skipped() {
    let mut off = rule("off", RuleKind::PacketRate, 1, 1, 60);
    off.enabled = false;
    let specs = check_rules(1, vec![off], &ok_checks(1)).unwrap();
    let rules = RuleEngine::from_specs(specs);
    assert!(rules.is_empty());
}

#[test]
fn bad_rule_files_are_rejected_with_reason() {
    let err = check_rules(2, vec![], &vec![]).err().unwrap();
    assert!(err.describe().contains("version"), "{}", err.describe());
    assert_eq!(err, RuleError::Version(2));

    let mut bad_window = ok_checks(1);
    bad_window[0].window_positive = false;
    let err = check_rules(SUPPORTED_VERSION, vec![rule("x", RuleKind::PortScan, 0, 1, 60)], &bad_window).err().unwrap();
    assert!(err.describe().contains("window_secs"), "{}", err.describe());

    let err = check_rules(SUPPORTED_VERSION, vec![rule("x", RuleKind::PortScan, 1, 0, 60)], &ok_checks(1)).err().unwrap();
    assert!(err.describe().contains("threshold"), "{}", err.describe());

    let err = check_rules(
        SUPPORTED_VERSION,
        vec![rule("a", RuleKind::PortScan, 1, 1, 60), rule("a", RuleKind::HostSweep, 1, 1, 60)],
        &ok_checks(2),
    )
    .err()
    .unwrap();
    assert!(err.describe().contains("duplicate"), "{}", err.describe());
}

#[test]
fn alert_message_names_source_count_and_window() {
    let specs = check_rules(1, vec![rule("tiny", RuleKind::PortScan, 1000, 5, 100_000)], &ok_checks(1)).unwrap();
    let alerts = run(Scenario::PortScan, 4 * 5, RuleEngine::from_specs(specs));
    assert_eq!(alerts[0].message, "10.0.0.66: 5 distinct ports probed in 1000s");
    assert_eq!(alerts[0].rule_id, "tiny");
}

#[test]
fn packet_rate_fires_once_per_cooldown() {
    let specs = check_rules(1, vec![rule("rate", RuleKind::PacketRate, 1_000, 3, 1_000)], &ok_checks(1)).unwrap();
    let alerts = run(Scenario::PortScan, 400, RuleEngine::from_specs(specs));
    let scanner: Vec<_> = alerts.iter().filter(|a| a.src == Some(IpAddr::v4(10, 0, 0, 66))).collect();
    assert_eq!(scanner.len(), 1);
    assert_eq!(scanner[0].observed, 3);
}

#[test]
fn rule_errors_read_as_sentences() {
    assert_eq!(RuleError::Io("no such file".to_string()).describe(), "cannot read rules: no such file");
    assert_eq!(RuleError::Syntax("bad indent".to_string()).describe(), "rules yaml: bad indent");
    assert_eq!(
        RuleError::Invalid { rule: "x".to_string(), reason: "threshold must be > 0".to_string() }.describe(),
        "rule 'x': threshold must be > 0"
    );
    assert_eq!(RuleError::Version(3).describe(), "rules version 3 not supported (expected 1)");
}
