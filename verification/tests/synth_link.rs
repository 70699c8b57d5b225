use netcore_engine::link::{BatchCounts, LinkAction, LinkEvent, LinkMachine, LinkState, MAX_BACKOFF_MS};
use netcore_engine::synth::{self, Rng, Scenario, START_TS_US};

#[test]
fn generator_is_deterministic_and_moves_forward() {
    let a = synth::generate(Scenario::Mixed, 500, 9);
    let b = synth::generate(Scenario::Mixed, 500, 9);
    assert_eq!(a, b);
    let mut last = START_TS_US;
    for (ts, _) in &a {
        assert!(*ts > last && *ts <= last + 2_000);
        last = *ts;
    }
    let c = synth::generate(Scenario::Mixed, 500, 10);
    assert_ne!(a, c);
}

#[test]
fn rng_seed_zero_is_one() {
    let mut a = Rng::new(0);
    let mut b = Rng::new(1);
    assert_eq!(a.next_u64(), b.next_u64());
    let mut r = Rng::new(42);
    for _ in 0..1000 {
        assert!(r.below(7) < 7);
        assert_ne!(r.next_u64(), 0);
    }
}

#[test]
fn xorshift_first_value() {
    let mut r = Rng::new(1);
    let mut x: u64 = 1;
    x ^= x << 13;
    x ^= x >> 7;
    x ^= x << 17;
    assert_eq!(r.next_u64(), x);
}

#[test]
fn scenarios_by_name() {
    assert_eq!(Scenario::from_name("portscan"), Some(Scenario::PortScan));
    assert_eq!(Scenario::from_name("flood"), Some(Scenario::Flood));
    assert_eq!(Scenario::from_name("ddos"), None);
}

#[test]
fn dns_payload_encodes_labels() {
    let p = synth::dns_query_payload(0x1234, "a..bc.", synth::DNS_TYPE_A);
    assert_eq!(&p[..2], &[0x12, 0x34]);
    assert_eq!(&p[12..], &[1, b'a', 2, b'b', b'c', 0, 0, 1, 0, 1]);
}

#[test]
fn link_backs_off_and_recovers() {
    let (mut m, a) = LinkMachine::start();
    assert_eq!(a, LinkAction::Connect);
    let mut waits = Vec::new();
    for _ in 0..10 {
        let (m2, a) = m.step(LinkEvent::ConnectFailed);
        let LinkAction::Wait(ms) = a else { panic!() };
        waits.push(ms);
        let (m3, a) = m2.step(LinkEvent::WaitElapsed);
        assert_eq!(a, LinkAction::Connect);
        m = m3;
    }
    assert_eq!(&waits[..7], &[500, 1000, 2000, 4000, 8000, 16000, 30000]);
    assert_eq!(*waits.last().unwrap(), MAX_BACKOFF_MS);
    assert_eq!(m.reconnects, 10);
    let (m, a) = m.step(LinkEvent::ConnectSucceeded);
    assert_eq!((m.state, m.backoff_ms, a), (LinkState::Connected, 500, LinkAction::Stream));
    let (m, a) = m.step(LinkEvent::ShutDown);
    assert_eq!((m.state, a), (LinkState::Disconnected, LinkAction::Stop));
    assert_eq!(m.step(LinkEvent::ConnectSucceeded).1, LinkAction::Stop);
    assert_eq!(LinkState::from_u8(2), LinkState::Connected);
    assert_eq!(LinkState::from_u8(9), LinkState::Disconnected);
}

#[test]
fn offers_are_dropped_while_disconnected() {
    let (link, _) = LinkMachine::start();
    let mut counts = BatchCounts::new();
    assert!(!counts.offer(link.state, true));
    assert_eq!(counts.dropped, 1);
    assert_ne!(link.state, LinkState::Connected);
}

#[test]
fn batches_are_counted_as_sent_or_dropped() {
    let mut counts = BatchCounts::new();
    assert!(counts.offer(LinkState::Connected, true));
    counts.forwarded();
    assert!(!counts.offer(LinkState::Connected, false));
    counts.dropped_while_waiting();
    assert_eq!((counts.sent, counts.dropped), (1, 2));
}

#[test]
fn generated_times_step_forward_by_at_most_two_milliseconds() {
    let frames = netcore_engine::synth::generate(netcore_engine::synth::Scenario::PortScan, 500, 9);
    let mut prev = netcore_engine::synth::START_TS_US;
    for (ts, _) in &frames {
        assert!(*ts > prev && *ts - prev <= netcore_engine::synth::MAX_GAP_US);
        prev = *ts;
    }
}
