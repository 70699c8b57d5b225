use netcore_engine::pcap::{PcapError, PcapReader, PcapWriter};
use netcore_engine::replay::{replay, ReplayError};
use netcore_engine::rules::RuleEngine;
use netcore_engine::synth::{self, Scenario};
use netcore_engine::{Engine, EngineConfig, LinkType};

fn no_entropy(_label: &str, _bits: u64) -> bool {
    false
}

fn capture(scenario: Scenario, packets: usize, seed: u64) -> Vec<u8> {
    let mut w = PcapWriter::new(Vec::new(), LinkType::Ethernet, 65_535).unwrap();
    for (ts, frame) in synth::generate(scenario, packets, seed) {
        w.write_record(ts, &frame).unwrap();
    }
    w.into_inner()
}

fn engine_with_builtin_rules() -> Engine {
    let mut engine = Engine::new(EngineConfig::default());
    engine.set_rules(Some(RuleEngine::builtin()));
    engine
}

#[test]
fn replay_feeds_every_record_and_collects_alerts() {
    let bytes = capture(Scenario::PortScan, 1_000, 1);
    let mut reader = PcapReader::new(&bytes).unwrap();
    let mut engine = engine_with_builtin_rules();
    let alerts = replay(&mut engine, &mut reader, &no_entropy).ok().unwrap();
    assert_eq!(engine.counters().packets, 1_000);
    assert_eq!(engine.counters().parse_errors, 0);
    assert_eq!(alerts[0].rule_id, "port-scan");
    assert!(engine.drain_alerts().is_empty());
}

#[test]
fn replay_without_rules_raises_nothing() {
    let bytes = capture(Scenario::Mixed, 300, 7);
    let mut reader = PcapReader::new(&bytes).unwrap();
    let mut engine = Engine::new(EngineConfig::default());
    let alerts = replay(&mut engine, &mut reader, &no_entropy).ok().unwrap();
    assert!(alerts.is_empty());
    assert_eq!(engine.counters().packets, 300);
}

#[test]
fn replay_stops_at_a_truncated_record() {
    let mut bytes = capture(Scenario::Mixed, 10, 3);
    bytes.truncate(bytes.len() - 5);
    let mut reader = PcapReader::new(&bytes).unwrap();
    let mut engine = Engine::new(EngineConfig::default());
    match replay(&mut engine, &mut reader, &no_entropy) {
        Err(ReplayError::Capture(PcapError::TruncatedRecord)) => {}
        _ => panic!("expected a truncated record"),
    }
    assert_eq!(engine.counters().packets, 9);
    assert_eq!(ReplayError::Capture(PcapError::TruncatedRecord).describe(), PcapError::TruncatedRecord.describe());
    assert_eq!(ReplayError::Overflow.describe(), "capture exceeds the engine's counters");
}

#[test]
fn replay_of_an_empty_capture_changes_nothing() {
    let bytes = capture(Scenario::Mixed, 0, 3);
    let mut reader = PcapReader::new(&bytes).unwrap();
    let mut engine = Engine::new(EngineConfig::default());
    let alerts = replay(&mut engine, &mut reader, &no_entropy).ok().unwrap();
    assert!(alerts.is_empty());
    assert_eq!(engine.counters().packets, 0);
}
