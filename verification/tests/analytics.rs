use netcore_engine::analytics::{
    export_since, features, orient, select_for_export, AlertQueue, Cooldown, ALERT_QUEUE_CAPACITY, ANOMALY_COOLDOWN_US,
};
use netcore_engine::packet::PROTO_TCP;
use netcore_engine::text::ip_text;
use netcore_engine::{Alert, AlertSource, Endpoint, FlowKey, FlowStats, IpAddr, Severity};

fn ep(last: u8, port: u16) -> Endpoint {
    Endpoint { addr: IpAddr::v4(10, 0, 0, last), port }
}

fn stats(packets: [u64; 2], bytes: [u64; 2]) -> FlowStats {
    FlowStats { first_seen_us: 0, last_seen_us: 0, packets, bytes, tcp_flags: 0 }
}

#[test]
fn flow_is_oriented_from_the_ephemeral_side() {
    let (key, _) = FlowKey::canonical(ep(66, 49152), ep(5, 22), 6);
    assert_eq!(key.a.addr, ep(5, 22).addr);
    let mut s = stats([3, 1], [300, 60]);
    s.tcp_flags = 0x02;
    let f = features(&key, &s);
    assert_eq!((f.src.as_str(), f.src_port, f.dst.as_str(), f.dst_port), ("10.0.0.66", 49152, "10.0.0.5", 22));
    assert_eq!((f.packets_fwd, f.packets_rev, f.bytes_fwd, f.bytes_rev), (1, 3, 60, 300));
}

#[test]
fn portless_flow_is_oriented_from_the_sender() {
    let (key, dir) = FlowKey::canonical(ep(30, 0), ep(1, 0), 1);
    assert_eq!(key.a.addr, ep(1, 0).addr);
    let mut s = FlowStats::default();
    s.packets[dir as usize] = 4;
    let f = features(&key, &s);
    assert_eq!((f.src.as_str(), f.dst.as_str(), f.packets_fwd), ("10.0.0.30", "10.0.0.1", 4));
    let o = orient(&key, &s);
    assert_eq!(ip_text(o.client.addr), "10.0.0.30");
}

#[test]
fn cooldown_suppresses_repeats_per_host() {
    let mut c = Cooldown::new();
    assert!(c.allow("a", 0));
    assert!(!c.allow("a", ANOMALY_COOLDOWN_US - 1));
    assert!(c.allow("b", 1));
    assert!(c.allow("a", ANOMALY_COOLDOWN_US));
    assert!(c.allow("a", 5), "time going backwards means a new capture");
}

#[test]
fn cooldown_forgets_everything_when_full() {
    let mut c = Cooldown::new();
    for i in 0..10_000u64 {
        assert!(c.allow(&format!("h{i}"), 100));
    }
    assert!(!c.allow("h0", 101));
    assert!(c.allow("new", 102));
    assert!(c.allow("h0", 103));
}

fn alert(ts_us: u64) -> Alert {
    Alert {
        ts_us,
        source: AlertSource::Rule,
        severity: Severity::Low,
        rule_id: "r".to_string(),
        message: String::new(),
        src: None,
        observed: 1,
        threshold: 1,
    }
}

#[test]
fn alert_queue_drops_oldest_when_full() {
    let mut q = AlertQueue::new();
    for i in 0..(ALERT_QUEUE_CAPACITY as u64 + 3) {
        q.push(alert(i));
    }
    assert_eq!(q.len(), ALERT_QUEUE_CAPACITY);
    assert_eq!(q.total(), ALERT_QUEUE_CAPACITY as u64 + 3);
    assert_eq!(q.dropped(), 3);
    assert_eq!(q.pop().unwrap().ts_us, 3);
    assert_eq!(q.len(), ALERT_QUEUE_CAPACITY - 1);
}

#[test]
fn export_selects_recent_flows_in_order() {
    let mut flows = Vec::new();
    for i in 0..10u64 {
        let (k, _) = FlowKey::canonical(ep(i as u8, 1000), ep(200, 80), PROTO_TCP);
        let mut s = stats([1, 0], [10, 0]);
        s.last_seen_us = i * 10;
        flows.push((k, s));
    }
    let picked = select_for_export(&flows, 45, 100);
    let seen: Vec<u64> = picked.iter().map(|(_, s)| s.last_seen_us).collect();
    assert_eq!(seen, vec![50, 60, 70, 80, 90]);
    let capped = select_for_export(&flows, 0, 2);
    let seen: Vec<u64> = capped.iter().map(|(_, s)| s.last_seen_us).collect();
    assert_eq!(seen, vec![10, 20]);
    assert_eq!(export_since(500, 100), 0);
    assert_eq!(export_since(50, 100), 50);
}
