use netcore_engine::abi::{
    addr_bytes, capture_state, check_code, core_stats, engine_config, map_status, status_text, top_flows, write_cstr, CoreError,
    NcAlertFields, NcAlertSource, NcCaptureState, NcConfig, NcDevice, NcFlow, NcSeverity, NcStats, NcStatus, Sniffer,
    NC_FAMILY_IPV4, NC_FAMILY_IPV6,
};
use netcore_engine::analytics::{ingest, AlertQueue};
use netcore_engine::engine::Counters;
use netcore_engine::packet::{tcp, PROTO_TCP};
use netcore_engine::rules::RuleEngine;
use netcore_engine::synth::{self, Scenario, SocketV4};
use netcore_engine::{Endpoint, Engine, FlowKey, FlowStats, Frame, IpAddr, LinkType};

#[test]
fn status_strings_are_fixed() {
    assert_eq!(status_text(0), "ok");
    assert_eq!(status_text(-7), "permission denied");
    assert_eq!(status_text(12345), "unknown status");
    assert_eq!(NcStatus::Rules.code(), -9);
    assert_eq!(map_status(-2), NcStatus::NoLibrary);
    assert_eq!(map_status(-3), NcStatus::Capture);
}

#[test]
fn cstr_is_cut_at_a_char_boundary() {
    let mut buf = [0xFFu8; 6];
    write_cstr(&mut buf, "abécd");
    assert_eq!(&buf, b"ab\xc3\xa9c\0");
    let mut buf = [0xFFu8; 4];
    write_cstr(&mut buf, "aé");
    assert_eq!(&buf, b"a\xc3\xa9\0");
    let mut buf = [0xFFu8; 3];
    write_cstr(&mut buf, "aé");
    assert_eq!(&buf, b"a\0\0");
    let mut empty: [u8; 0] = [];
    write_cstr(&mut empty, "x");
}

#[test]
fn addresses_become_sixteen_bytes_and_a_family() {
    let (b, f) = addr_bytes(IpAddr::v4(10, 0, 0, 66));
    assert_eq!(f, NC_FAMILY_IPV4);
    assert_eq!(&b[..4], &[10, 0, 0, 66]);
    assert_eq!(&b[4..], &[0; 12]);
    let (b, f) = addr_bytes(IpAddr::V6(0x2001_0db8_0000_0000_0000_0000_0000_0001));
    assert_eq!(f, NC_FAMILY_IPV6);
    assert_eq!(b[0], 0x20);
    assert_eq!(b[1], 0x01);
    assert_eq!(b[15], 1);
}

#[test]
fn config_zeros_take_defaults() {
    let c = engine_config(&NcConfig::default()).unwrap();
    assert_eq!(c.max_flows, 100_000);
    assert_eq!(c.link, LinkType::Ethernet);
    let c = engine_config(&NcConfig { max_flows: 10, flow_idle_timeout_ms: 5, top_n: 3, snaplen: 0, link_type: 101 }).unwrap();
    assert_eq!((c.max_flows, c.flow_idle_timeout_us, c.top_n, c.link), (10, 5_000, 3, LinkType::Raw));
}

#[test]
fn invalid_config_is_refused() {
    let e = engine_config(&NcConfig { link_type: 9999, ..NcConfig::default() }).unwrap_err();
    assert_eq!(e.status, NcStatus::InvalidArg);
    assert_eq!(e.message, "unsupported link type 9999");
    assert_eq!(e.describe(), "InvalidArg: unsupported link type 9999");
    assert_eq!(CoreError::new(NcStatus::State, "x").message, "x");
}

#[test]
fn records_copy_what_they_describe() {
    let mut c = Counters::default();
    c.packets = 3;
    c.icmp = 2;
    let s = NcStats::from_counters(&c);
    assert_eq!((s.packets, s.icmp, s.alerts_total), (3, 2, 0));
    let (key, _) = FlowKey::canonical(
        Endpoint { addr: IpAddr::v4(10, 0, 0, 1), port: 40000 },
        Endpoint { addr: IpAddr::v4(10, 0, 0, 2), port: 443 },
        PROTO_TCP,
    );
    let stats = FlowStats { first_seen_us: 1, last_seen_us: 2, packets: [3, 4], bytes: [5, 6], tcp_flags: 0x12 };
    let f = NcFlow::new(&key, &stats);
    assert_eq!((f.a_port, f.b_port, f.packets_ba, f.bytes_ab, f.family), (40000, 443, 4, 5, NC_FAMILY_IPV4));
    let d = NcDevice::new("eth0", "wired", 7);
    assert_eq!(&d.name[..5], b"eth0\0");
    assert_eq!(d.flags, 7);
    assert_eq!(capture_state(false, Some(true)), NcCaptureState::Idle);
    assert_eq!(capture_state(true, None), NcCaptureState::Running);
    assert_eq!(capture_state(true, Some(false)), NcCaptureState::Failed);
}

fn no_entropy(_label: &str, _bits: u64) -> bool {
    false
}

/// An engine set up as the C interface sets one up from a zeroed config.
fn core_engine() -> Engine {
    let config = engine_config(&NcConfig::default()).unwrap();
    Engine::new(config).with_rules(RuleEngine::builtin())
}

fn feed(engine: &mut Engine, queue: &mut AlertQueue, ts_us: u64, data: &[u8]) {
    let frame = Frame { ts_us, wire_len: data.len() as u32, data };
    ingest(engine, queue, &frame, &no_entropy);
}

fn cstr(bytes: &[u8]) -> &str {
    let end = bytes.iter().position(|b| *b == 0).unwrap();
    std::str::from_utf8(&bytes[..end]).unwrap()
}

#[test]
fn status_strings_are_static() {
    assert_eq!(status_text(NcStatus::Permission.code()), "permission denied");
    assert_eq!(status_text(12345), "unknown status");
}

#[test]
fn feed_updates_stats_and_flows() {
    let mut engine = core_engine();
    let mut queue = AlertQueue::new();
    let client = SocketV4 { ip: [10, 0, 0, 1], port: 40000 };
    let server = SocketV4 { ip: [10, 0, 0, 2], port: 443 };
    let syn = synth::tcp_segment(client, server, tcp::FLAG_SYN, 0);
    let reply = synth::tcp_segment(server, client, tcp::FLAG_SYN | tcp::FLAG_ACK, 0);
    feed(&mut engine, &mut queue, 1_000, &syn);
    feed(&mut engine, &mut queue, 2_000, &reply);
    feed(&mut engine, &mut queue, 3_000, &[0xFF; 5]);

    let s = core_stats(&engine, &queue, None, None);
    assert_eq!((s.packets, s.tcp, s.parse_errors, s.active_flows), (3, 2, 1, 1));
    assert_eq!(s.last_ts_us, 3_000);

    let mut flows = vec![NcFlow::default(); 4];
    let written = top_flows(engine.flows(), &mut flows);
    assert_eq!(written, 1);
    let f = flows[0];
    assert_eq!(f.family, NC_FAMILY_IPV4);
    assert_eq!(&f.a_addr[..4], &[10, 0, 0, 1]);
    assert_eq!((f.a_port, f.b_port, f.proto), (40000, 443, 6));
    assert_eq!((f.packets_ab, f.packets_ba), (1, 1));
    assert_eq!(f.tcp_flags, tcp::FLAG_SYN | tcp::FLAG_ACK);
    assert_eq!(flows[1].packets_ab, 0);
}

#[test]
fn builtin_rules_raise_port_scan_alert() {
    let mut engine = core_engine();
    let mut queue = AlertQueue::new();
    assert_eq!(core_stats(&engine, &queue, None, None).rules_loaded, 4);
    assert!(queue.pop().is_none());

    for (ts, frame) in synth::generate(Scenario::PortScan, 1_000, 1) {
        feed(&mut engine, &mut queue, ts, &frame);
    }

    let alert = queue.pop().expect("port scan alert");
    let f = NcAlertFields::new(&alert);
    assert_eq!(cstr(&f.rule_id), "port-scan");
    assert!(cstr(&f.message).contains("10.0.0.66"));
    assert_eq!(f.severity, NcSeverity::High.value());
    assert_eq!(f.source, NcAlertSource::Rule.value());
    assert_eq!((f.family, &f.src_addr[..4]), (NC_FAMILY_IPV4, &[10, 0, 0, 66][..]));
    assert_eq!(core_stats(&engine, &queue, None, None).alerts_total, 1);
}

#[test]
fn top_flows_fill_only_what_they_have() {
    let mut engine = core_engine();
    let mut queue = AlertQueue::new();
    let a = SocketV4 { ip: [10, 0, 0, 1], port: 40000 };
    let b = SocketV4 { ip: [10, 0, 0, 2], port: 80 };
    let c = SocketV4 { ip: [10, 0, 0, 3], port: 80 };
    feed(&mut engine, &mut queue, 1, &synth::tcp_segment(a, b, tcp::FLAG_ACK, 10));
    feed(&mut engine, &mut queue, 2, &synth::tcp_segment(a, c, tcp::FLAG_ACK, 500));
    let mut one = vec![NcFlow::default(); 1];
    assert_eq!(top_flows(engine.flows(), &mut one), 1);
    assert_eq!(&one[0].b_addr[..4], &[10, 0, 0, 3]);
    let mut none: Vec<NcFlow> = Vec::new();
    assert_eq!(top_flows(engine.flows(), &mut none), 0);
}

#[test]
fn capture_codes_become_results() {
    assert!(check_code(0, "x").is_ok());
    let e = check_code(-4, "no rights").unwrap_err();
    assert_eq!((e.status, e.message.as_str()), (NcStatus::Permission, "no rights"));
    assert_eq!(check_code(-99, "?").unwrap_err().status, NcStatus::Capture);

    assert_eq!(Sniffer::opened(-7, false, "cannot open file").err().unwrap().status, NcStatus::Io);
    assert!(Sniffer::opened(0, false, "").is_err());
    let mut s = Sniffer::opened(0, true, "").ok().unwrap();
    assert!(!s.is_running());
    assert!(s.start(-5, "busy").is_err());
    assert!(!s.is_running());
    assert!(s.start(0, "").is_ok());
    assert!(s.is_running());
    assert_eq!(s.stop(-8, "bad").unwrap_err().status, NcStatus::Format);
    assert!(!s.is_running());

    assert!(Sniffer::finished(0, 0, "").is_none());
    assert!(Sniffer::finished(1, 0, "").unwrap().is_ok());
    assert_eq!(Sniffer::finished(1, -7, "eof").unwrap().unwrap_err().message, "eof");
}
