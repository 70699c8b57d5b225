//! Synthetic traffic: frame builders for Ethernet/IPv4 with TCP, UDP, ICMP
//! echo and DNS queries, a small xorshift generator, and scenarios of
//! background traffic with a port scan, a DNS tunnel or a SYN flood mixed in.
use vstd::prelude::*;

use crate::packet::tcp::{FLAG_ACK, FLAG_PSH, FLAG_SYN};
use crate::addr::IpAddr;
use crate::error::ParseError;
use crate::packet::ethernet::{ethernet_spec, ETHERTYPE_IPV4};
use crate::packet::ipv4::ipv4_spec;
use crate::packet::dns::{append_label, dns_spec, name_walk, shown_label, DnsModel, MAX_NAME_LEN, PORT as DNS_PORT};
use crate::packet::icmp::IcmpHeader;
use crate::packet::tcp::TcpHeader;
use crate::packet::udp::UdpHeader;
use crate::packet::{
    be16_spec, packet_spec, AppModel, IpHeader, LinkType, PacketModel, Transport, PROTO_ICMP, PROTO_TCP, PROTO_UDP,
};
use crate::text::{push_char, same_text};
use vstd::utf8::{encode_utf8, is_ascii_chars, is_ascii_chars_encode_utf8};
use vstd::string::StringSliceAdditionalSpecFns;

verus! {

pub const ETH_HEADER_LEN: usize = 14;
pub const IPV4_HEADER_LEN: usize = 20;
pub const TCP_HEADER_LEN: usize = 20;
pub const UDP_HEADER_LEN: usize = 8;
pub const ICMP_ECHO_LEN: usize = 8;
pub const DNS_HEADER_LEN: usize = 12;
pub const DEFAULT_TTL: u8 = 64;
pub const TCP_WINDOW: u16 = 64_240;
pub const ICMP_ECHO_REQUEST: u8 = 8;
pub const DNS_FLAG_RECURSION_DESIRED: u16 = 0x0100;
pub const DNS_CLASS_IN: u16 = 1;
pub const DNS_TYPE_A: u16 = 1;
pub const DNS_TYPE_TXT: u16 = 16;
/// The largest IPv4 datagram.
pub const MAX_DATAGRAM: usize = 65_535;

/// An IPv4 address and a port.
#[derive(Debug, Clone, Copy, PartialEq, Eq)]
pub struct SocketV4 {
    pub ip: [u8; 4],
    pub port: u16,
}

pub open spec fn be16_bytes(x: u16) -> Seq<u8> {
    seq![(x / 0x100) as u8, (x % 0x100) as u8]
}

pub open spec fn src_mac() -> Seq<u8> {
    seq![0x02u8, 0x00, 0x00, 0x00, 0x00, 0x01]
}

pub open spec fn dst_mac() -> Seq<u8> {
    seq![0x02u8, 0x00, 0x00, 0x00, 0x00, 0x02]
}

/// The 16-bit word of `s` at `k` (a missing second byte counts as zero).
pub open spec fn word_at(s: Seq<u8>, k: int) -> nat {
    (s[k] as nat * 256 + if k + 1 < s.len() { s[k + 1] as nat } else { 0 }) as nat
}

/// The sum of the words of `s` that start before `i` (`i` even).
pub open spec fn word_sum(s: Seq<u8>, i: int) -> nat
    decreases i,
{
    if i < 2 {
        0
    } else {
        word_sum(s, i - 2) + word_at(s, i - 2)
    }
}

/// Folds the carries of a sum back into 16 bits.
pub open spec fn fold16(n: nat) -> nat
    decreases n,
{
    if n <= 0xFFFF {
        n
    } else {
        fold16(n % 0x1_0000 + n / 0x1_0000)
    }
}

/// The Internet checksum of `s`: the complement of the ones'-complement sum
/// of its 16-bit words.
pub open spec fn checksum_spec(s: Seq<u8>) -> u16 {
    (0xFFFF - fold16(word_sum(s, (s.len() + s.len() % 2) as int))) as u16
}

/// The Internet checksum (RFC 1071) of `bytes`.
pub fn internet_checksum(bytes: &[u8]) -> (c: u16)
    requires
        bytes@.len() <= 0x1_0000,
    ensures
        c == checksum_spec(bytes@),
{
    let n = bytes.len();
    let mut sum: u32 = 0;
    let mut i: usize = 0;
    while i < n
        invariant
            n == bytes@.len(),
            n <= 0x1_0000,
            i % 2 == 0,
            i <= n + 1,
            sum == word_sum(bytes@, i as int),
            sum <= i * 0x8000,
        decreases n + 1 - i,
    {
        let hi = bytes[i] as u32;
        let lo = if i + 1 < n { bytes[i + 1] as u32 } else { 0 };
        sum = sum + hi * 256 + lo;
        i = i + 2;
    }
    assert(i == n + n % 2);
    let ghost total = sum as nat;
    while sum > 0xFFFF
        invariant
            fold16(sum as nat) == fold16(total),
        decreases sum,
    {
        sum = sum % 0x1_0000 + sum / 0x1_0000;
    }
    (0xFFFF - sum) as u16
}

/// The IPv4 header before its checksum is filled in: version 4, 20 bytes,
/// total length, TTL 64, protocol and addresses.
pub open spec fn ip_base(src: [u8; 4], dst: [u8; 4], proto: u8, total_len: u16) -> Seq<u8> {
    seq![0x45u8, 0, (total_len / 0x100) as u8, (total_len % 0x100) as u8, 0, 0, 0, 0, DEFAULT_TTL, proto, 0, 0]
        + src@ + dst@
}

/// `s` with its checksum written big-endian at `at` (the checksum of `s`
/// as given, whose bytes there are zero).
pub open spec fn with_checksum(s: Seq<u8>, at: int) -> Seq<u8> {
    let c = checksum_spec(s);
    s.update(at, (c / 0x100) as u8).update(at + 1, (c % 0x100) as u8)
}

pub open spec fn ip_header_spec(src: [u8; 4], dst: [u8; 4], proto: u8, total_len: u16) -> Seq<u8> {
    with_checksum(ip_base(src, dst, proto, total_len), 10)
}

fn fill_checksum(v: &mut Vec<u8>, at: usize)
    requires
        at + 2 <= old(v)@.len() <= 0x1_0000,
    ensures
        final(v)@ == with_checksum(old(v)@, at as int),
{
    let c = internet_checksum(v.as_slice());
    v.set(at, (c / 0x100) as u8);
    v.set(at + 1, (c % 0x100) as u8);
}

/// An Ethernet frame from `02:00:00:00:00:01` to `02:00:00:00:00:02` holding
/// an IPv4 datagram with payload `l4`.
pub open spec fn ethernet_ipv4_spec(src: [u8; 4], dst: [u8; 4], proto: u8, l4: Seq<u8>) -> Seq<u8> {
    dst_mac() + src_mac() + seq![0x08u8, 0x00] + ip_header_spec(src, dst, proto, (IPV4_HEADER_LEN + l4.len()) as u16)
        + l4
}

fn push_be16(v: &mut Vec<u8>, x: u16)
    ensures
        final(v)@ == old(v)@ + be16_bytes(x),
{
    v.push((x / 0x100) as u8);
    v.push((x % 0x100) as u8);
    assert(v@ =~= old(v)@ + be16_bytes(x));
}

fn push_all(v: &mut Vec<u8>, s: &[u8])
    ensures
        final(v)@ == old(v)@ + s@,
{
    let ghost start = v@;
    let mut i: usize = 0;
    while i < s.len()
        invariant
            i <= s@.len(),
            v@ == start + s@.take(i as int),
        decreases s@.len() - i,
    {
        v.push(s[i]);
        assert(s@.take(i as int + 1) =~= s@.take(i as int).push(s@[i as int]));
        i += 1;
    }
    assert(s@.take(i as int) =~= s@);
}

/// An Ethernet/IPv4 frame around `l4` (see `ethernet_ipv4_spec`).
pub fn ethernet_ipv4(src: [u8; 4], dst: [u8; 4], proto: u8, l4: &[u8]) -> (frame: Vec<u8>)
    requires
        IPV4_HEADER_LEN + l4@.len() <= MAX_DATAGRAM,
    ensures
        frame@ == ethernet_ipv4_spec(src, dst, proto, l4@),
{
    let total_len = (IPV4_HEADER_LEN + l4.len()) as u16;
    let mut frame: Vec<u8> = Vec::new();
    push_all(&mut frame, &[0x02, 0x00, 0x00, 0x00, 0x00, 0x02]);
    push_all(&mut frame, &[0x02, 0x00, 0x00, 0x00, 0x00, 0x01]);
    push_all(&mut frame, &[0x08, 0x00]);
    let ghost eth = frame@;
    let mut ip: Vec<u8> = Vec::new();
    push_all(&mut ip, &[0x45, 0]);
    push_be16(&mut ip, total_len);
    push_all(&mut ip, &[0, 0, 0, 0, DEFAULT_TTL, proto, 0, 0]);
    push_all(&mut ip, &src);
    push_all(&mut ip, &dst);
    assert(ip@ =~= ip_base(src, dst, proto, total_len));
    fill_checksum(&mut ip, 10);
    push_all(&mut frame, ip.as_slice());
    push_all(&mut frame, l4);
    assert(eth =~= dst_mac() + src_mac() + seq![0x08u8, 0x00]);
    assert(frame@ =~= ethernet_ipv4_spec(src, dst, proto, l4@));
    frame
}

/// A TCP header of 20 bytes with the given ports and flags and a window of
/// 64240, followed by `payload_len` zero bytes.
pub open spec fn tcp_segment_l4(src: SocketV4, dst: SocketV4, flags: u8, payload_len: nat) -> Seq<u8> {
    be16_bytes(src.port) + be16_bytes(dst.port) + seq![0u8, 0, 0, 0, 0, 0, 0, 0, 0x50, flags] + be16_bytes(TCP_WINDOW)
        + seq![0u8, 0, 0, 0] + Seq::new(payload_len, |i: int| 0u8)
}

pub open spec fn tcp_segment_spec(src: SocketV4, dst: SocketV4, flags: u8, payload_len: nat) -> Seq<u8> {
    ethernet_ipv4_spec(src.ip, dst.ip, PROTO_TCP, tcp_segment_l4(src, dst, flags, payload_len))
}

/// A frame with a TCP segment of `payload_len` zero bytes.
pub fn tcp_segment(src: SocketV4, dst: SocketV4, flags: u8, payload_len: usize) -> (frame: Vec<u8>)
    requires
        IPV4_HEADER_LEN + TCP_HEADER_LEN + payload_len <= MAX_DATAGRAM,
    ensures
        frame@ == tcp_segment_spec(src, dst, flags, payload_len as nat),
{
    let mut seg: Vec<u8> = Vec::new();
    push_be16(&mut seg, src.port);
    push_be16(&mut seg, dst.port);
    push_all(&mut seg, &[0, 0, 0, 0, 0, 0, 0, 0, 0x50, flags]);
    push_be16(&mut seg, TCP_WINDOW);
    push_all(&mut seg, &[0, 0, 0, 0]);
    let ghost head = seg@;
    let mut i: usize = 0;
    while i < payload_len
        invariant
            i <= payload_len,
            seg@ == head + Seq::new(i as nat, |k: int| 0u8),
        decreases payload_len - i,
    {
        seg.push(0);
        assert(Seq::new(i as nat + 1, |k: int| 0u8) =~= Seq::new(i as nat, |k: int| 0u8).push(0u8));
        i += 1;
    }
    assert(seg@ =~= tcp_segment_l4(src, dst, flags, payload_len as nat));
    ethernet_ipv4(src.ip, dst.ip, PROTO_TCP, seg.as_slice())
}

pub open spec fn udp_l4(src: SocketV4, dst: SocketV4, payload: Seq<u8>) -> Seq<u8> {
    be16_bytes(src.port) + be16_bytes(dst.port) + be16_bytes((UDP_HEADER_LEN + payload.len()) as u16) + seq![0u8, 0]
        + payload
}

pub open spec fn udp_datagram_spec(src: SocketV4, dst: SocketV4, payload: Seq<u8>) -> Seq<u8> {
    ethernet_ipv4_spec(src.ip, dst.ip, PROTO_UDP, udp_l4(src, dst, payload))
}

/// A frame with a UDP datagram (checksum zero) carrying `payload`.
pub fn udp_datagram(src: SocketV4, dst: SocketV4, payload: &[u8]) -> (frame: Vec<u8>)
    requires
        IPV4_HEADER_LEN + UDP_HEADER_LEN + payload@.len() <= MAX_DATAGRAM,
    ensures
        frame@ == udp_datagram_spec(src, dst, payload@),
{
    let len = (UDP_HEADER_LEN + payload.len()) as u16;
    let mut dgram: Vec<u8> = Vec::new();
    push_be16(&mut dgram, src.port);
    push_be16(&mut dgram, dst.port);
    push_be16(&mut dgram, len);
    push_all(&mut dgram, &[0, 0]);
    push_all(&mut dgram, payload);
    assert(dgram@ =~= udp_l4(src, dst, payload@));
    ethernet_ipv4(src.ip, dst.ip, PROTO_UDP, dgram.as_slice())
}

pub open spec fn icmp_base(seq_no: u16) -> Seq<u8> {
    seq![ICMP_ECHO_REQUEST, 0, 0, 0, 0, 0] + be16_bytes(seq_no)
}

/// An ICMP echo request (identifier zero) with its checksum.
pub open spec fn icmp_echo_l4(seq_no: u16) -> Seq<u8> {
    with_checksum(icmp_base(seq_no), 2)
}

pub open spec fn icmp_echo_spec(src: [u8; 4], dst: [u8; 4], seq_no: u16) -> Seq<u8> {
    ethernet_ipv4_spec(src, dst, PROTO_ICMP, icmp_echo_l4(seq_no))
}

/// A frame with an ICMP echo request of sequence number `seq_no`.
pub fn icmp_echo(src: [u8; 4], dst: [u8; 4], seq_no: u16) -> (frame: Vec<u8>)
    ensures
        frame@ == icmp_echo_spec(src, dst, seq_no),
{
    let mut msg: Vec<u8> = Vec::new();
    push_all(&mut msg, &[ICMP_ECHO_REQUEST, 0, 0, 0, 0, 0]);
    push_be16(&mut msg, seq_no);
    assert(msg@ =~= icmp_base(seq_no));
    fill_checksum(&mut msg, 2);
    ethernet_ipv4(src, dst, PROTO_ICMP, msg.as_slice())
}

pub const DOT: u8 = 0x2E;

/// The length of the run of bytes before the first dot (or the end).
pub open spec fn run_len(b: Seq<u8>) -> nat
    decreases b.len(),
{
    if b.len() == 0 || b[0] == DOT {
        0
    } else {
        1 + run_len(b.drop_first())
    }
}

/// The dot-separated labels of `b` in DNS wire form: each non-empty label
/// as its length and its bytes (empty labels are skipped).
pub open spec fn labels_enc(b: Seq<u8>) -> Seq<u8>
    decreases b.len(),
{
    if b.len() == 0 {
        Seq::empty()
    } else {
        let n = run_len(b);
        let head = if n > 0 { seq![n as u8] + b.subrange(0, n as int) } else { Seq::empty() };
        if n >= b.len() {
            head
        } else {
            head + labels_enc(b.subrange(n as int + 1, b.len() as int))
        }
    }
}

/// Every label of `b` is shorter than 256 bytes.
pub open spec fn labels_short(b: Seq<u8>) -> bool {
    forall|i: int| 0 <= i <= b.len() ==> #[trigger] run_len(b.subrange(i, b.len() as int)) < 256
}

/// A DNS query: id, recursion desired, one question for the name's labels
/// with type `qtype` and class IN.
pub open spec fn dns_query_payload_spec(id: u16, name: Seq<u8>, qtype: u16) -> Seq<u8> {
    be16_bytes(id) + be16_bytes(DNS_FLAG_RECURSION_DESIRED) + be16_bytes(1) + seq![0u8, 0, 0, 0, 0, 0] + labels_enc(
        name,
    ) + seq![0u8] + be16_bytes(qtype) + be16_bytes(DNS_CLASS_IN)
}

proof fn lemma_run_len(s: Seq<u8>, k: int)
    requires
        0 <= k <= s.len(),
        forall|j: int| 0 <= j < k ==> s[j] != DOT,
        k == s.len() || s[k] == DOT,
    ensures
        run_len(s) == k,
    decreases k,
{
    if k > 0 {
        lemma_run_len(s.drop_first(), k - 1);
    }
}

proof fn lemma_run_len_bound(s: Seq<u8>)
    ensures
        run_len(s) <= s.len(),
    decreases s.len(),
{
    if s.len() > 0 && s[0] != DOT {
        lemma_run_len_bound(s.drop_first());
    }
}

proof fn lemma_labels_enc_len(b: Seq<u8>)
    ensures
        labels_enc(b).len() <= b.len() + 1,
    decreases b.len(),
{
    if b.len() > 0 {
        let n = run_len(b);
        lemma_run_len_bound(b);
        if n < b.len() {
            lemma_labels_enc_len(b.subrange(n as int + 1, b.len() as int));
        }
    }
}

/// Names shorter than 256 bytes have only short labels.
pub proof fn lemma_short_name(b: Seq<u8>)
    requires
        b.len() < 256,
    ensures
        labels_short(b),
{
    assert forall|i: int| 0 <= i <= b.len() implies #[trigger] run_len(b.subrange(i, b.len() as int)) < 256 by {
        lemma_run_len_bound(b.subrange(i, b.len() as int));
    }
}

/// The payload of a DNS query for `name` (see `dns_query_payload_spec`).
pub fn dns_query_payload(id: u16, name: &str, qtype: u16) -> (msg: Vec<u8>)
    requires
        labels_short(name.spec_bytes()),
    ensures
        msg@ == dns_query_payload_spec(id, name.spec_bytes(), qtype),
        msg@.len() <= DNS_HEADER_LEN + name.spec_bytes().len() + 6,
{
    let b = name.as_bytes();
    let n = b.len();
    let mut msg: Vec<u8> = Vec::new();
    push_be16(&mut msg, id);
    push_be16(&mut msg, DNS_FLAG_RECURSION_DESIRED);
    push_be16(&mut msg, 1);
    push_all(&mut msg, &[0, 0, 0, 0, 0, 0]);
    let ghost head = msg@;
    let mut start: usize = 0;
    let mut i: usize = 0;
    assert(b@.subrange(0, n as int) =~= b@);
    loop
        invariant_except_break
            n == b@.len(),
            labels_short(b@),
            start <= i <= n,
            forall|j: int| start <= j < i ==> b@[j] != DOT,
            msg@ + labels_enc(b@.subrange(start as int, n as int)) == head + labels_enc(b@),
        ensures
            msg@ == head + labels_enc(b@),
        decreases n - i,
    {
        if i == n || b[i] == DOT {
            let ghost rest = b@.subrange(start as int, n as int);
            proof {
                lemma_run_len(rest, i - start);
                assert(run_len(b@.subrange(start as int, n as int)) < 256);
                if i < n {
                    assert(rest.subrange(i - start + 1, rest.len() as int) =~= b@.subrange(i + 1, n as int));
                }
                assert(rest.subrange(0, i - start) =~= b@.subrange(start as int, i as int));
            }
            if i > start {
                msg.push((i - start) as u8);
                let mut k = start;
                let ghost before = msg@;
                while k < i
                    invariant
                        start <= k <= i <= n,
                        n == b@.len(),
                        msg@ == before + b@.subrange(start as int, k as int),
                    decreases i - k,
                {
                    msg.push(b[k]);
                    assert(b@.subrange(start as int, k + 1) =~= b@.subrange(start as int, k as int).push(b@[k as int]));
                    k += 1;
                }
            }
            if i == n {
                assert(msg@ =~= head + labels_enc(b@));
                break;
            }
            start = i + 1;
        }
        i += 1;
    }
    msg.push(0);
    push_be16(&mut msg, qtype);
    push_be16(&mut msg, DNS_CLASS_IN);
    proof {
        lemma_labels_enc_len(b@);
    }
    assert(msg@ =~= dns_query_payload_spec(id, b@, qtype));
    msg
}

pub open spec fn dns_query_spec(src: SocketV4, dst: SocketV4, id: u16, name: Seq<u8>, qtype: u16) -> Seq<u8> {
    udp_datagram_spec(src, dst, dns_query_payload_spec(id, name, qtype))
}

/// A frame with a DNS query for `name`.
pub fn dns_query(src: SocketV4, dst: SocketV4, id: u16, name: &str, qtype: u16) -> (frame: Vec<u8>)
    requires
        labels_short(name.spec_bytes()),
        name.spec_bytes().len() <= 60_000,
    ensures
        frame@ == dns_query_spec(src, dst, id, name.spec_bytes(), qtype),
{
    let payload = dns_query_payload(id, name, qtype);
    udp_datagram(src, dst, payload.as_slice())
}

/// One step of the xorshift64 generator (shifts 13, 7, 17).
pub open spec fn xorshift_spec(x: u64) -> u64 {
    let a = x ^ (x << 13u64);
    let b = a ^ (a >> 7u64);
    b ^ (b << 17u64)
}

/// The generator never reaches zero from a state that is not zero, so it
/// never gets stuck.
pub proof fn lemma_xorshift_nonzero(x: u64)
    requires
        x != 0,
    ensures
        xorshift_spec(x) != 0,
{
    let a = x ^ (x << 13u64);
    assert(a != 0) by (bit_vector)
        requires
            x != 0,
            a == x ^ (x << 13u64),
    ;
    let b = a ^ (a >> 7u64);
    assert(b != 0) by (bit_vector)
        requires
            a != 0,
            b == a ^ (a >> 7u64),
    ;
    let c = b ^ (b << 17u64);
    assert(c != 0) by (bit_vector)
        requires
            b != 0,
            c == b ^ (b << 17u64),
    ;
}

/// A xorshift64 pseudo-random generator.
pub struct Rng(u64);

impl Rng {
    pub closed spec fn state(&self) -> u64 {
        self.0
    }

    /// A generator seeded with `seed` (zero, which would never move, is
    /// taken as one).
    pub fn new(seed: u64) -> (r: Self)
        ensures
            r.state() == if seed == 0 { 1 } else { seed },
    {
        Rng(if seed == 0 { 1 } else { seed })
    }

    pub fn next_u64(&mut self) -> (x: u64)
        ensures
            x == xorshift_spec(old(self).state()),
            final(self).state() == x,
    {
        let mut x = self.0;
        x = x ^ (x << 13u64);
        x = x ^ (x >> 7u64);
        x = x ^ (x << 17u64);
        self.0 = x;
        x
    }

    /// The next value modulo `bound`.
    pub fn below(&mut self, bound: u64) -> (r: u64)
        requires
            bound > 0,
        ensures
            r == xorshift_spec(old(self).state()) % bound,
            final(self).state() == xorshift_spec(old(self).state()),
    {
        self.next_u64() % bound
    }
}

/// A draw below `bound` from state `s`: the value and the next state.
pub open spec fn draw(s: u64, bound: u64) -> (u64, u64) {
    (xorshift_spec(s) % bound, xorshift_spec(s))
}

/// Which traffic to generate.
#[derive(Debug, Clone, Copy, PartialEq, Eq, Structural)]
pub enum Scenario {
    /// Background traffic only.
    Mixed,
    /// A port scan in every fourth packet.
    PortScan,
    /// A DNS tunnel in every fourth packet.
    DnsTunnel,
    /// Nothing but SYNs from random sources.
    Flood,
}

pub open spec fn scenario_named(name: Seq<char>) -> Option<Scenario> {
    if name == "mixed"@ {
        Some(Scenario::Mixed)
    } else if name == "portscan"@ {
        Some(Scenario::PortScan)
    } else if name == "dnstunnel"@ {
        Some(Scenario::DnsTunnel)
    } else if name == "flood"@ {
        Some(Scenario::Flood)
    } else {
        None
    }
}

impl Scenario {
    /// The scenario named `mixed`, `portscan`, `dnstunnel` or `flood`.
    pub fn from_name(name: &str) -> (r: Option<Scenario>)
        ensures
            r == scenario_named(name@),
    {
        if same_text(name, "mixed") {
            Some(Scenario::Mixed)
        } else if same_text(name, "portscan") {
            Some(Scenario::PortScan)
        } else if same_text(name, "dnstunnel") {
            Some(Scenario::DnsTunnel)
        } else if same_text(name, "flood") {
            Some(Scenario::Flood)
        } else {
            None
        }
    }
}

pub const START_TS_US: u64 = 1_700_000_000_000_000;
pub const MAX_GAP_US: u64 = 2_000;
pub const INJECT_EVERY: usize = 4;
pub const CLIENT_COUNT: u64 = 50;
pub const CLIENT_BASE: u8 = 10;
pub const MAX_TCP_PAYLOAD: u64 = 1_400;
pub const EPHEMERAL_BASE: u16 = 49_152;
pub const SCAN_FIRST_PORT: u16 = 1;
pub const TUNNEL_LABEL_LEN: usize = 48;
pub const FLOOD_NET: u8 = 172;

pub open spec fn resolver() -> SocketV4 {
    SocketV4 { ip: [10, 0, 0, 1], port: 53 }
}

pub open spec fn scanner_ip() -> [u8; 4] {
    [10, 0, 0, 66]
}

pub open spec fn scan_target_ip() -> [u8; 4] {
    [10, 0, 0, 5]
}

pub open spec fn tunnel_client() -> SocketV4 {
    SocketV4 { ip: [10, 0, 0, 77], port: 53_001 }
}

pub open spec fn flood_target() -> SocketV4 {
    SocketV4 { ip: [10, 0, 0, 5], port: 80 }
}

pub open spec fn server_spec(i: u64) -> SocketV4 {
    if i == 0 {
        SocketV4 { ip: [93, 184, 216, 34], port: 443 }
    } else if i == 1 {
        SocketV4 { ip: [140, 82, 121, 4], port: 443 }
    } else if i == 2 {
        SocketV4 { ip: [151, 101, 1, 69], port: 80 }
    } else {
        SocketV4 { ip: [198, 51, 100, 7], port: 22 }
    }
}

fn server(i: u64) -> (s: SocketV4)
    ensures
        s == server_spec(i),
{
    if i == 0 {
        SocketV4 { ip: [93, 184, 216, 34], port: 443 }
    } else if i == 1 {
        SocketV4 { ip: [140, 82, 121, 4], port: 443 }
    } else if i == 2 {
        SocketV4 { ip: [151, 101, 1, 69], port: 80 }
    } else {
        SocketV4 { ip: [198, 51, 100, 7], port: 22 }
    }
}

pub open spec fn domain_spec(i: u64) -> Seq<char> {
    if i == 0 {
        "example.com"@
    } else if i == 1 {
        "github.com"@
    } else if i == 2 {
        "api.github.com"@
    } else if i == 3 {
        "crates.io"@
    } else {
        "nuget.org"@
    }
}

fn domain(i: u64) -> (d: &'static str)
    ensures
        d@ == domain_spec(i),
        is_ascii_chars(d@),
        d@.len() < 20,
{
    proof {
        reveal_strlit("example.com");
        reveal_strlit("github.com");
        reveal_strlit("api.github.com");
        reveal_strlit("crates.io");
        reveal_strlit("nuget.org");
    }
    if i == 0 {
        "example.com"
    } else if i == 1 {
        "github.com"
    } else if i == 2 {
        "api.github.com"
    } else if i == 3 {
        "crates.io"
    } else {
        "nuget.org"
    }
}

/// The bytes of an ASCII text.
pub open spec fn ascii_bytes(c: Seq<char>) -> Seq<u8> {
    Seq::new(c.len(), |i: int| c[i] as u8)
}

proof fn lemma_ascii_bytes(s: &str)
    requires
        is_ascii_chars(s@),
    ensures
        s.spec_bytes() == ascii_bytes(s@),
{
    is_ascii_chars_encode_utf8(s@);
    assert(s.spec_bytes() =~= ascii_bytes(s@));
}

/// An echo request from `client_ip` to the resolver.
pub open spec fn ping_spec(client_ip: [u8; 4], seq_no: u16) -> Seq<u8> {
    icmp_echo_spec(client_ip, resolver().ip, seq_no)
}

fn ping(client_ip: [u8; 4], seq_no: u16) -> (frame: Vec<u8>)
    ensures
        frame@ == ping_spec(client_ip, seq_no),
{
    icmp_echo(client_ip, [10, 0, 0, 1], seq_no)
}

/// A background packet from state `s`, packet number `i`: a client
/// 10.0.0.10-59 sends (or receives) a TCP segment to one of four servers
/// (70 in 100), queries the resolver for one of five names (20 in 100), or
/// pings the resolver.
pub open spec fn background_spec(s: u64, i: u64) -> (Seq<u8>, u64) {
    let (ci, s1) = draw(s, CLIENT_COUNT);
    let client_ip: [u8; 4] = [10, 0, 0, (CLIENT_BASE + ci) as u8];
    let (k, s2) = draw(s1, 100);
    if k <= 69 {
        let (si, s3) = draw(s2, 4);
        let srv = server_spec(si);
        let client = SocketV4 { ip: client_ip, port: (EPHEMERAL_BASE + ci * 4 + si) as u16 };
        let (payload, s4) = draw(s3, MAX_TCP_PAYLOAD);
        let (dir, s5) = draw(s4, 2);
        let frame = if dir == 0 {
            tcp_segment_spec(client, srv, FLAG_ACK | FLAG_PSH, payload as nat)
        } else {
            tcp_segment_spec(srv, client, FLAG_ACK | FLAG_PSH, payload as nat)
        };
        (frame, s5)
    } else if k <= 89 {
        let (di, s3) = draw(s2, 5);
        let client = SocketV4 { ip: client_ip, port: (EPHEMERAL_BASE + ci) as u16 };
        (dns_query_spec(client, resolver(), i as u16, ascii_bytes(domain_spec(di)), DNS_TYPE_A), s3)
    } else {
        (ping_spec(client_ip, i as u16), s2)
    }
}

fn background_packet(rng: &mut Rng, i: usize) -> (frame: Vec<u8>)
    ensures
        (frame@, final(rng).state()) == background_spec(old(rng).state(), i as u64),
{
    let client_idx = rng.below(CLIENT_COUNT);
    let client_ip: [u8; 4] = [10, 0, 0, CLIENT_BASE + client_idx as u8];
    let k = rng.below(100);
    if k <= 69 {
        let server_idx = rng.below(4);
        let srv = server(server_idx);
        let port = (EPHEMERAL_BASE as u64 + client_idx * 4 + server_idx) as u16;
        let client = SocketV4 { ip: client_ip, port };
        let payload = rng.below(MAX_TCP_PAYLOAD) as usize;
        let flags = FLAG_ACK | FLAG_PSH;
        if rng.below(2) == 0 {
            tcp_segment(client, srv, flags, payload)
        } else {
            tcp_segment(srv, client, flags, payload)
        }
    } else if k <= 89 {
        let d = domain(rng.below(5));
        proof {
            lemma_ascii_bytes(d);
            lemma_short_name(d.spec_bytes());
        }
        let client = SocketV4 { ip: client_ip, port: EPHEMERAL_BASE + client_idx as u16 };
        dns_query(client, SocketV4 { ip: [10, 0, 0, 1], port: 53 }, i as u16, d, DNS_TYPE_A)
    } else {
        ping(client_ip, i as u16)
    }
}

pub open spec fn scan_probe_spec(port: u16) -> Seq<u8> {
    tcp_segment_spec(SocketV4 { ip: scanner_ip(), port: EPHEMERAL_BASE }, SocketV4 { ip: scan_target_ip(), port }, FLAG_SYN, 0)
}

fn scan_probe(port: u16) -> (frame: Vec<u8>)
    ensures
        frame@ == scan_probe_spec(port),
{
    tcp_segment(SocketV4 { ip: [10, 0, 0, 66], port: EPHEMERAL_BASE }, SocketV4 { ip: [10, 0, 0, 5], port }, FLAG_SYN, 0)
}

/// A SYN from 172.b.c.d (the low three bytes of the next value) and an
/// ephemeral port below 50176 to 10.0.0.5:80.
pub open spec fn flood_spec(s: u64) -> (Seq<u8>, u64) {
    let x = xorshift_spec(s);
    let v = x as u32;
    let (off, s2) = draw(x, 1024);
    let src = SocketV4 {
        ip: [FLOOD_NET, (v / 0x1_0000 % 0x100) as u8, (v / 0x100 % 0x100) as u8, (v % 0x100) as u8],
        port: (EPHEMERAL_BASE + off) as u16,
    };
    (tcp_segment_spec(src, flood_target(), FLAG_SYN, 0), s2)
}

fn flood_syn(rng: &mut Rng) -> (frame: Vec<u8>)
    ensures
        (frame@, final(rng).state()) == flood_spec(old(rng).state()),
{
    let v = rng.next_u64() as u32;
    let off = rng.below(1024);
    let src = SocketV4 {
        ip: [FLOOD_NET, (v / 0x1_0000 % 0x100) as u8, (v / 0x100 % 0x100) as u8, (v % 0x100) as u8],
        port: EPHEMERAL_BASE + off as u16,
    };
    tcp_segment(src, SocketV4 { ip: [10, 0, 0, 5], port: 80 }, FLAG_SYN, 0)
}

pub open spec fn base32_char(v: u64) -> char {
    if v < 26 { (v + 97) as char } else { (v - 26 + 50) as char }
}

/// `n` label characters drawn from state `s`, each one of
/// `a`-`z`, `2`-`7`.
pub open spec fn tunnel_label(s: u64, n: nat) -> (Seq<char>, u64)
    decreases n,
{
    if n == 0 {
        (Seq::empty(), s)
    } else {
        let (l, s1) = tunnel_label(s, (n - 1) as nat);
        let (v, s2) = draw(s1, 32);
        (l.push(base32_char(v)), s2)
    }
}

/// A TXT query from 10.0.0.77 for a random 48-character label under
/// `t.exfil-example.net`.
pub open spec fn tunnel_spec(s: u64, i: u64) -> (Seq<u8>, u64) {
    let (label, s1) = tunnel_label(s, TUNNEL_LABEL_LEN as nat);
    let name = label + "."@ + "t.exfil-example.net"@;
    (dns_query_spec(tunnel_client(), resolver(), i as u16, ascii_bytes(name), DNS_TYPE_TXT), s1)
}

proof fn lemma_tunnel_label_len(s: u64, n: nat)
    ensures
        tunnel_label(s, n).0.len() == n,
    decreases n,
{
    if n > 0 {
        lemma_tunnel_label_len(s, (n - 1) as nat);
    }
}

fn tunnel_query(rng: &mut Rng, i: usize) -> (frame: Vec<u8>)
    ensures
        (frame@, final(rng).state()) == tunnel_spec(old(rng).state(), i as u64),
{
    let ghost s0 = rng.state();
    let mut name = String::new();
    let mut k: usize = 0;
    while k < TUNNEL_LABEL_LEN
        invariant
            k <= TUNNEL_LABEL_LEN,
            (name@, rng.state()) == tunnel_label(s0, k as nat),
            is_ascii_chars(name@),
            name@.len() == k,
        decreases TUNNEL_LABEL_LEN - k,
    {
        let v = rng.below(32);
        let c = if v < 26 { ((v as u8) + 97) as char } else { ((v as u8) - 26 + 50) as char };
        push_char(&mut name, c);
        k += 1;
    }
    proof {
        reveal_strlit(".");
        reveal_strlit("t.exfil-example.net");
    }
    crate::text::push_str(&mut name, ".");
    crate::text::push_str(&mut name, "t.exfil-example.net");
    let n = name.as_str();
    proof {
        assert(n@.len() == 68);
        assert(is_ascii_chars(n@));
        lemma_ascii_bytes(n);
        lemma_short_name(n.spec_bytes());
    }
    dns_query(SocketV4 { ip: [10, 0, 0, 77], port: 53_001 }, SocketV4 { ip: [10, 0, 0, 1], port: 53 }, i as u16, n, DNS_TYPE_TXT)
}

/// Where generation stands: the generator state, the last time, and the
/// next port to probe.
pub struct GenState {
    pub rng: u64,
    pub ts_us: u64,
    pub scan_port: u16,
}

/// The frame of packet `i` and the state after it.
#[verifier::opaque]
pub open spec fn step_spec(scenario: Scenario, st: GenState, i: nat) -> ((u64, Seq<u8>), GenState) {
    let (gap, s1) = draw(st.rng, MAX_GAP_US);
    let ts = (st.ts_us + 1 + gap) as u64;
    let inject = scenario != Scenario::Mixed && i % 4 == 0;
    if scenario == Scenario::Flood {
        let (f, s2) = flood_spec(s1);
        ((ts, f), GenState { rng: s2, ts_us: ts, scan_port: st.scan_port })
    } else if !inject {
        let (f, s2) = background_spec(s1, i as u64);
        ((ts, f), GenState { rng: s2, ts_us: ts, scan_port: st.scan_port })
    } else if scenario == Scenario::PortScan {
        let next = if st.scan_port == u16::MAX { SCAN_FIRST_PORT } else { (st.scan_port + 1) as u16 };
        ((ts, scan_probe_spec(st.scan_port)), GenState { rng: s1, ts_us: ts, scan_port: next })
    } else {
        let (f, s2) = tunnel_spec(s1, i as u64);
        ((ts, f), GenState { rng: s2, ts_us: ts, scan_port: st.scan_port })
    }
}

/// The first `n` frames of a scenario with seed `seed`, and the state after
/// them. Times start from `START_TS_US` and grow by 1 to 2000 microseconds.
pub open spec fn frames_spec(scenario: Scenario, seed: u64, n: nat) -> (Seq<(u64, Seq<u8>)>, GenState)
    decreases n,
{
    if n == 0 {
        (Seq::empty(), GenState { rng: if seed == 0 { 1 } else { seed }, ts_us: START_TS_US, scan_port: SCAN_FIRST_PORT })
    } else {
        let (fs, st) = frames_spec(scenario, seed, (n - 1) as nat);
        let (f, st2) = step_spec(scenario, st, (n - 1) as nat);
        (fs.push(f), st2)
    }
}

proof fn lemma_step_ts(scenario: Scenario, st: GenState, i: nat)
    requires
        st.ts_us + MAX_GAP_US <= u64::MAX,
    ensures
        st.ts_us < step_spec(scenario, st, i).1.ts_us <= st.ts_us + MAX_GAP_US,
        step_spec(scenario, st, i).0.0 == step_spec(scenario, st, i).1.ts_us,
{
    reveal(step_spec);
}

/// The time before frame `i` of `fs`: the start time for the first frame,
/// else the time of the frame before.
pub open spec fn time_before(fs: Seq<(u64, Seq<u8>)>, i: int) -> u64 {
    if i == 0 {
        START_TS_US
    } else {
        fs[i - 1].0
    }
}

/// The first `n` frames are `n` frames; each comes 1 to `MAX_GAP_US`
/// microseconds after the one before (the first, after the start time),
/// so the last is at most `n * MAX_GAP_US` after the start, and the
/// generator's clock stands at the last frame's time.
pub proof fn lemma_frames_ts(scenario: Scenario, seed: u64, n: nat)
    requires
        START_TS_US + n * MAX_GAP_US <= u64::MAX,
    ensures
        frames_spec(scenario, seed, n).1.ts_us <= START_TS_US + n * MAX_GAP_US,
        frames_spec(scenario, seed, n).0.len() == n,
        frames_spec(scenario, seed, n).1.ts_us == time_before(frames_spec(scenario, seed, n).0, n as int),
        forall|i: int|
            0 <= i < n ==> time_before(frames_spec(scenario, seed, n).0, i) < (#[trigger] frames_spec(
                scenario,
                seed,
                n,
            ).0[i]).0 <= time_before(frames_spec(scenario, seed, n).0, i) + MAX_GAP_US,
    decreases n,
{
    if n > 0 {
        assert(START_TS_US + (n - 1) * MAX_GAP_US <= u64::MAX) by (nonlinear_arith)
            requires
                START_TS_US + n * MAX_GAP_US <= u64::MAX,
                n > 0,
        ;
        let m = (n - 1) as nat;
        lemma_frames_ts(scenario, seed, m);
        let prev = frames_spec(scenario, seed, m);
        lemma_step_ts(scenario, prev.1, m);
        let fs = frames_spec(scenario, seed, n).0;
        assert(fs == prev.0.push(step_spec(scenario, prev.1, m).0));
        assert forall|i: int| 0 <= i < n implies time_before(fs, i) < (#[trigger] fs[i]).0 <= time_before(fs, i)
            + MAX_GAP_US by {
            if i < m {
                assert(fs[i] == prev.0[i]);
                if i > 0 {
                    assert(fs[i - 1] == prev.0[i - 1]);
                }
                assert(time_before(fs, i) == time_before(prev.0, i));
            } else {
                if i > 0 {
                    assert(fs[i - 1] == prev.0[i - 1]);
                }
                assert(time_before(fs, i) == time_before(prev.0, m as int));
            }
        }
    }
}

/// Makes packet `i`'s frame, moving the state on (see `step_spec`).
fn step(scenario: Scenario, rng: &mut Rng, ts: &mut u64, scan_port: &mut u16, i: usize) -> (frame: Vec<u8>)
    requires
        *old(ts) + MAX_GAP_US <= u64::MAX,
    ensures
        step_spec(scenario, GenState { rng: old(rng).state(), ts_us: *old(ts), scan_port: *old(scan_port) }, i as nat)
            == ((*final(ts), frame@), GenState { rng: final(rng).state(), ts_us: *final(ts), scan_port: *final(scan_port) }),
{
    reveal(step_spec);
    *ts = *ts + 1 + rng.below(MAX_GAP_US);
    let inject = scenario != Scenario::Mixed && i % INJECT_EVERY == 0;
    match scenario {
        Scenario::Flood => flood_syn(rng),
        _ => {
            if !inject {
                background_packet(rng, i)
            } else if scenario == Scenario::PortScan {
                let f = scan_probe(*scan_port);
                *scan_port = if *scan_port == u16::MAX { SCAN_FIRST_PORT } else { *scan_port + 1 };
                f
            } else {
                tunnel_query(rng, i)
            }
        },
    }
}

/// The frames of `packets` packets of `scenario` from seed `seed`, each with
/// its time (see `frames_spec`).
pub fn generate(scenario: Scenario, packets: usize, seed: u64) -> (frames: Vec<(u64, Vec<u8>)>)
    requires
        START_TS_US + packets * MAX_GAP_US <= u64::MAX,
    ensures
        frames@.len() == packets,
        forall|i: int|
            0 <= i < packets ==> (#[trigger] frames@[i]).0 == frames_spec(scenario, seed, packets as nat).0[i].0
                && frames@[i].1@ == frames_spec(scenario, seed, packets as nat).0[i].1,
{
    let mut rng = Rng::new(seed);
    let mut ts = START_TS_US;
    let mut scan_port = SCAN_FIRST_PORT;
    let mut frames: Vec<(u64, Vec<u8>)> = Vec::new();
    let mut i: usize = 0;
    proof {
        lemma_frames_ts(scenario, seed, packets as nat);
    }
    while i < packets
        invariant
            i <= packets,
            START_TS_US + packets * MAX_GAP_US <= u64::MAX,
            frames@.len() == i,
            frames_spec(scenario, seed, i as nat).1 == (GenState { rng: rng.state(), ts_us: ts, scan_port }),
            forall|j: int|
                0 <= j < i ==> (#[trigger] frames@[j]).0 == frames_spec(scenario, seed, i as nat).0[j].0
                    && frames@[j].1@ == frames_spec(scenario, seed, i as nat).0[j].1,
        decreases packets - i,
    {
        proof {
            lemma_frames_ts(scenario, seed, i as nat);
            assert(ts + MAX_GAP_US <= START_TS_US + packets * MAX_GAP_US) by (nonlinear_arith)
                requires
                    ts <= START_TS_US + i * MAX_GAP_US,
                    i < packets,
            ;
        }
        let ghost before = frames_spec(scenario, seed, i as nat);
        let frame = step(scenario, &mut rng, &mut ts, &mut scan_port, i);
        let ghost pushed = frames@;
        frames.push((ts, frame));
        proof {
            lemma_frames_ts(scenario, seed, i as nat);
            lemma_frames_ts(scenario, seed, i as nat + 1);
            let after = frames_spec(scenario, seed, i as nat + 1);
            assert(after.0 == before.0.push(step_spec(scenario, before.1, i as nat).0));
            assert forall|j: int| 0 <= j < i + 1 implies (#[trigger] frames@[j]).0 == after.0[j].0 && frames@[j].1@
                == after.0[j].1 by {
                if j < i {
                    assert(frames@[j] == pushed[j]);
                }
            }
        }
        i += 1;
    }
    frames
}

/// The IPv4 address with the octets `ip`.
pub open spec fn v4_of(ip: [u8; 4]) -> IpAddr {
    IpAddr::V4((ip[0] as int * 0x100_0000 + ip[1] as int * 0x1_0000 + ip[2] as int * 0x100 + ip[3] as int) as u32)
}

proof fn lemma_be16_of(s: Seq<u8>, at: int, x: u16)
    requires
        0 <= at,
        at + 2 <= s.len(),
        s[at] == (x / 0x100) as u8,
        s[at + 1] == (x % 0x100) as u8,
    ensures
        be16_spec(s, at) == x,
{
}

/// The network layer of a frame that `ethernet_ipv4_spec` builds: an
/// Ethernet header with the IPv4 ethertype, then an IPv4 header that
/// decodes to the addresses, protocol and TTL it was built with, as a whole
/// datagram, whose payload is `l4`.
proof fn lemma_ethernet_ipv4_decodes(src: [u8; 4], dst: [u8; 4], proto: u8, l4: Seq<u8>)
    requires
        IPV4_HEADER_LEN + l4.len() <= MAX_DATAGRAM,
    ensures
        ({
            let d = ethernet_ipv4_spec(src, dst, proto, l4);
            let l3 = d.subrange(14, d.len() as int);
            &&& ethernet_spec(d) == Ok::<(u16, int, int), ParseError>((ETHERTYPE_IPV4, 14, 0))
            &&& ipv4_spec(l3) == Ok::<(IpHeader, int, int), ParseError>(
                (
                    IpHeader {
                        src: v4_of(src),
                        dst: v4_of(dst),
                        proto,
                        ttl: DEFAULT_TTL,
                        more_fragments: false,
                        fragment_offset: 0,
                    },
                    20,
                    l3.len() as int,
                ),
            )
            &&& l3.subrange(20, l3.len() as int) == l4
        }),
{
    let total = (IPV4_HEADER_LEN + l4.len()) as u16;
    let h = ip_header_spec(src, dst, proto, total);
    let d = ethernet_ipv4_spec(src, dst, proto, l4);
    let l3 = d.subrange(14, d.len() as int);
    assert(h.len() == 20);
    assert(l3 =~= h + l4);
    assert(d[12] == 0x08 && d[13] == 0x00);
    lemma_be16_of(d, 12, ETHERTYPE_IPV4);
    assert(l3[0] == 0x45);
    lemma_be16_of(l3, 2, total);
    assert(l3[6] == 0 && l3[7] == 0);
    lemma_be16_of(l3, 6, 0);
    assert(0u16 & 0x2000 == 0 && 0u16 & 0x1FFF == 0) by (bit_vector);
    lemma_be16_of(l3, 12, (src[0] as int * 0x100 + src[1] as int) as u16);
    lemma_be16_of(l3, 14, (src[2] as int * 0x100 + src[3] as int) as u16);
    lemma_be16_of(l3, 16, (dst[0] as int * 0x100 + dst[1] as int) as u16);
    lemma_be16_of(l3, 18, (dst[2] as int * 0x100 + dst[3] as int) as u16);
    assert(l3.subrange(20, l3.len() as int) =~= l4);
}

/// A frame that `tcp_segment` builds decodes to the segment it was built
/// from: an IPv4 packet between the two addresses with TTL 64, not a
/// fragment, carrying a TCP header with the two ports, the flags, zero
/// sequence and acknowledgment numbers and the window 64240.
pub proof fn lemma_tcp_segment_decodes(src: SocketV4, dst: SocketV4, flags: u8, payload_len: nat, ts_us: u64, wire_len: u32)
    requires
        IPV4_HEADER_LEN + TCP_HEADER_LEN + payload_len <= MAX_DATAGRAM,
    ensures
        packet_spec(LinkType::Ethernet, ts_us, wire_len, tcp_segment_spec(src, dst, flags, payload_len)) == Ok::<
            PacketModel,
            ParseError,
        >(
            PacketModel {
                ts_us,
                wire_len,
                ethertype: Some(ETHERTYPE_IPV4),
                ip: Some(
                    IpHeader {
                        src: v4_of(src.ip),
                        dst: v4_of(dst.ip),
                        proto: PROTO_TCP,
                        ttl: DEFAULT_TTL,
                        more_fragments: false,
                        fragment_offset: 0,
                    },
                ),
                transport: Transport::Tcp(
                    TcpHeader {
                        src_port: src.port,
                        dst_port: dst.port,
                        seq: 0,
                        ack: 0,
                        flags,
                        window: TCP_WINDOW,
                    },
                ),
                app: AppModel::Absent,
            },
        ),
{
    let l4 = tcp_segment_l4(src, dst, flags, payload_len);
    lemma_ethernet_ipv4_decodes(src.ip, dst.ip, PROTO_TCP, l4);
    lemma_be16_of(l4, 0, src.port);
    lemma_be16_of(l4, 2, dst.port);
    lemma_be16_of(l4, 4, 0);
    lemma_be16_of(l4, 6, 0);
    lemma_be16_of(l4, 8, 0);
    lemma_be16_of(l4, 10, 0);
    lemma_be16_of(l4, 14, TCP_WINDOW);
    assert(l4[12] == 0x50 && l4[13] == flags);
}

/// A frame that `icmp_echo` builds decodes to an IPv4 packet between the
/// two addresses carrying an ICMP echo request (type 8, code 0).
pub proof fn lemma_icmp_echo_decodes(src: [u8; 4], dst: [u8; 4], seq_no: u16, ts_us: u64, wire_len: u32)
    ensures
        packet_spec(LinkType::Ethernet, ts_us, wire_len, icmp_echo_spec(src, dst, seq_no)) == Ok::<
            PacketModel,
            ParseError,
        >(
            PacketModel {
                ts_us,
                wire_len,
                ethertype: Some(ETHERTYPE_IPV4),
                ip: Some(
                    IpHeader {
                        src: v4_of(src),
                        dst: v4_of(dst),
                        proto: PROTO_ICMP,
                        ttl: DEFAULT_TTL,
                        more_fragments: false,
                        fragment_offset: 0,
                    },
                ),
                transport: Transport::Icmp(IcmpHeader { icmp_type: ICMP_ECHO_REQUEST, code: 0, v6: false }),
                app: AppModel::Absent,
            },
        ),
{
    let l4 = icmp_echo_l4(seq_no);
    lemma_ethernet_ipv4_decodes(src, dst, PROTO_ICMP, l4);
    assert(l4.len() == 8);
    assert(l4[0] == ICMP_ECHO_REQUEST && l4[1] == 0);
}

/// What the payload of a UDP datagram between `src_port` and `dst_port`
/// decodes to: DNS on port 53 when there is a payload, else nothing.
pub open spec fn udp_payload_app(src_port: u16, dst_port: u16, payload: Seq<u8>) -> AppModel {
    if (src_port == DNS_PORT || dst_port == DNS_PORT) && payload.len() > 0 {
        match dns_spec(payload) {
            Ok(m) => AppModel::Dns(m),
            Err(e) => AppModel::DnsError(e),
        }
    } else {
        AppModel::Absent
    }
}

/// A frame that `udp_datagram` builds decodes to an IPv4 packet between the
/// two addresses carrying a UDP header with the two ports and the
/// datagram's length, and its payload read as DNS on port 53.
pub proof fn lemma_udp_datagram_decodes(src: SocketV4, dst: SocketV4, payload: Seq<u8>, ts_us: u64, wire_len: u32)
    requires
        IPV4_HEADER_LEN + UDP_HEADER_LEN + payload.len() <= MAX_DATAGRAM,
    ensures
        packet_spec(LinkType::Ethernet, ts_us, wire_len, udp_datagram_spec(src, dst, payload)) == Ok::<
            PacketModel,
            ParseError,
        >(
            PacketModel {
                ts_us,
                wire_len,
                ethertype: Some(ETHERTYPE_IPV4),
                ip: Some(
                    IpHeader {
                        src: v4_of(src.ip),
                        dst: v4_of(dst.ip),
                        proto: PROTO_UDP,
                        ttl: DEFAULT_TTL,
                        more_fragments: false,
                        fragment_offset: 0,
                    },
                ),
                transport: Transport::Udp(
                    UdpHeader {
                        src_port: src.port,
                        dst_port: dst.port,
                        length: (UDP_HEADER_LEN + payload.len()) as u16,
                    },
                ),
                app: udp_payload_app(src.port, dst.port, payload),
            },
        ),
{
    let l4 = udp_l4(src, dst, payload);
    let len = (UDP_HEADER_LEN + payload.len()) as u16;
    lemma_ethernet_ipv4_decodes(src.ip, dst.ip, PROTO_UDP, l4);
    lemma_be16_of(l4, 0, src.port);
    lemma_be16_of(l4, 2, dst.port);
    lemma_be16_of(l4, 4, len);
    assert(l4.len() == len);
    assert(l4.subrange(8, l4.len() as int) =~= payload);
}

/// A name that a query carries and a decoder reads back as it is, but for
/// case: printable ASCII bytes other than space, labels of 1 to 63 bytes
/// separated by single dots, at most 253 bytes in all.
pub open spec fn plain_name(b: Seq<u8>) -> bool {
    &&& 0 < b.len() <= MAX_NAME_LEN
    &&& forall|i: int| 0 <= i < b.len() ==> 0x21 <= #[trigger] b[i] <= 0x7E
    &&& b[0] != DOT
    &&& b[b.len() - 1] != DOT
    &&& forall|i: int| 0 <= i < b.len() - 1 && #[trigger] b[i] == DOT ==> b[i + 1] != DOT
    &&& forall|i: int| 0 <= i <= b.len() ==> #[trigger] run_len(b.subrange(i, b.len() as int)) < 64
}

/// `x` after the name `acc`, separated by a dot when `acc` is not empty.
pub open spec fn joined(acc: Seq<char>, x: Seq<char>) -> Seq<char> {
    if acc.len() == 0 {
        x
    } else {
        acc.push('.') + x
    }
}

proof fn lemma_plain_rest(b: Seq<u8>, n: int)
    requires
        plain_name(b),
        0 < n < b.len(),
        b[n] == DOT,
        forall|j: int| 0 <= j < n ==> b[j] != DOT,
    ensures
        plain_name(b.subrange(n + 1, b.len() as int)),
{
    let rest = b.subrange(n + 1, b.len() as int);
    assert(n + 1 < b.len());
    assert(rest[0] == b[n + 1]);
    assert(rest[rest.len() - 1] == b[b.len() - 1]);
    assert forall|i: int| 0 <= i < rest.len() implies 0x21 <= #[trigger] rest[i] <= 0x7E by {
        assert(rest[i] == b[n + 1 + i]);
    }
    assert forall|i: int| 0 <= i < rest.len() - 1 && #[trigger] rest[i] == DOT implies rest[i + 1] != DOT by {
        assert(rest[i] == b[n + 1 + i]);
        assert(rest[i + 1] == b[n + 2 + i]);
    }
    assert forall|i: int| 0 <= i <= rest.len() implies #[trigger] run_len(rest.subrange(i, rest.len() as int)) < 64 by {
        assert(rest.subrange(i, rest.len() as int) =~= b.subrange(n + 1 + i, b.len() as int));
    }
}

proof fn lemma_run_len_props(s: Seq<u8>)
    ensures
        run_len(s) <= s.len(),
        forall|j: int| 0 <= j < run_len(s) ==> s[j] != DOT,
        run_len(s) < s.len() ==> s[run_len(s) as int] == DOT,
    decreases s.len(),
{
    if s.len() > 0 && s[0] != DOT {
        lemma_run_len_props(s.drop_first());
        assert forall|j: int| 0 <= j < run_len(s) implies s[j] != DOT by {
            if j > 0 {
                assert(s[j] == s.drop_first()[j - 1]);
            }
        }
    }
}

/// Reading the labels that `labels_enc` wrote, followed by the root label,
/// gives the name back (in lower case), after the name `acc` read so far.
proof fn lemma_labels_read_back(msg: Seq<u8>, pos: int, b: Seq<u8>, acc: Seq<char>)
    requires
        plain_name(b),
        0 <= pos,
        pos + labels_enc(b).len() + 1 <= msg.len(),
        msg.subrange(pos, pos + labels_enc(b).len() + 1) == labels_enc(b) + seq![0u8],
        joined(acc, shown_label(b)).len() <= MAX_NAME_LEN,
    ensures
        name_walk(msg, pos, acc, None, 0) == Ok::<(Seq<char>, int), ParseError>(
            (joined(acc, shown_label(b)), pos + labels_enc(b).len() + 1),
        ),
    decreases b.len(),
{
    let n = run_len(b) as int;
    lemma_run_len_props(b);
    assert(run_len(b.subrange(0, b.len() as int)) < 64);
    assert(b.subrange(0, b.len() as int) =~= b);
    assert(n >= 1);
    let label = b.subrange(0, n);
    let enc = labels_enc(b);
    let head = seq![n as u8] + label;
    assert(n < 256);
    assert(enc.subrange(0, head.len() as int) =~= head);
    assert(enc[0] == head[0]);
    assert(msg.subrange(pos, pos + enc.len() + 1)[0] == msg[pos]);
    assert((enc + seq![0u8])[0] == enc[0]);
    assert(enc[0] == n as u8);
    assert(msg.subrange(pos + 1, pos + 1 + n) =~= label) by {
        assert forall|j: int| 0 <= j < n implies msg.subrange(pos + 1, pos + 1 + n)[j] == label[j] by {
            assert(msg.subrange(pos + 1, pos + 1 + n)[j] == msg[pos + 1 + j]);
            assert(msg[pos + 1 + j] == (enc + seq![0u8])[1 + j]);
            assert(enc[1 + j] == head[1 + j]);
        }
    }
    let name2 = append_label(acc, label);
    assert(name2 == joined(acc, shown_label(label)));
    if n == b.len() {
        assert(label =~= b);
        assert(enc =~= head);
        assert(msg[pos + 1 + n] == (enc + seq![0u8])[1 + n]);
        assert(name_walk(msg, pos + 1 + n, name2, None, 0) == Ok::<(Seq<char>, int), ParseError>((name2, pos + 1 + n + 1)));
    } else {
        let rest = b.subrange(n + 1, b.len() as int);
        lemma_plain_rest(b, n);
        assert(enc =~= head + labels_enc(rest));
        assert(shown_label(b) =~= shown_label(label).push('.') + shown_label(rest)) by {
            assert(crate::packet::dns::shown_char(DOT) == '.');
        }
        assert(joined(name2, shown_label(rest)) =~= joined(acc, shown_label(b)));
        assert(msg.subrange(pos + 1 + n, pos + 1 + n + labels_enc(rest).len() + 1) =~= labels_enc(rest) + seq![0u8]) by {
            assert forall|j: int| 0 <= j < labels_enc(rest).len() + 1 implies msg.subrange(
                pos + 1 + n,
                pos + 1 + n + labels_enc(rest).len() + 1,
            )[j] == (labels_enc(rest) + seq![0u8])[j] by {
                assert(msg[pos + 1 + n + j] == (enc + seq![0u8])[1 + n + j]);
            }
        }
        lemma_labels_read_back(msg, pos + 1 + n, rest, name2);
    }
}

/// A DNS query that `dns_query_payload` builds for a plain name decodes to
/// the query it was built as: its id, a query (not a response) with opcode
/// and response code 0, one question and no answers, and the name, in lower
/// case, with its type.
pub proof fn lemma_dns_query_decodes(id: u16, name: Seq<u8>, qtype: u16)
    requires
        plain_name(name),
    ensures
        dns_spec(dns_query_payload_spec(id, name, qtype)) == Ok::<DnsModel, ParseError>(
            DnsModel {
                id,
                is_response: false,
                opcode: 0,
                rcode: 0,
                question_count: 1,
                answer_count: 0,
                question: Some((shown_label(name), qtype)),
            },
        ),
{
    let msg = dns_query_payload_spec(id, name, qtype);
    let enc = labels_enc(name);
    let end = DNS_HEADER_LEN + enc.len() + 1;
    assert(msg.len() == end + 4);
    lemma_be16_of(msg, 0, id);
    lemma_be16_of(msg, 4, 1);
    lemma_be16_of(msg, 6, 0);
    assert(msg[2] == 1 && msg[3] == 0);
    assert(msg.subrange(12, 12 + enc.len() as int + 1) =~= enc + seq![0u8]);
    assert(joined(Seq::<char>::empty(), shown_label(name)) == shown_label(name));
    lemma_labels_read_back(msg, 12, name, Seq::<char>::empty());
    lemma_be16_of(msg, end as int, qtype);
}

/// A frame that `dns_query` builds for a plain name, to or from port 53,
/// decodes to a UDP datagram between the two addresses and ports whose
/// payload is the query it was built as (see `lemma_dns_query_decodes`).
pub proof fn lemma_dns_query_frame_decodes(
    src: SocketV4,
    dst: SocketV4,
    id: u16,
    name: Seq<u8>,
    qtype: u16,
    ts_us: u64,
    wire_len: u32,
)
    requires
        plain_name(name),
        src.port == DNS_PORT || dst.port == DNS_PORT,
    ensures
        ({
            let payload = dns_query_payload_spec(id, name, qtype);
            packet_spec(LinkType::Ethernet, ts_us, wire_len, dns_query_spec(src, dst, id, name, qtype)) == Ok::<
                PacketModel,
                ParseError,
            >(
                PacketModel {
                    ts_us,
                    wire_len,
                    ethertype: Some(ETHERTYPE_IPV4),
                    ip: Some(
                        IpHeader {
                            src: v4_of(src.ip),
                            dst: v4_of(dst.ip),
                            proto: PROTO_UDP,
                            ttl: DEFAULT_TTL,
                            more_fragments: false,
                            fragment_offset: 0,
                        },
                    ),
                    transport: Transport::Udp(
                        UdpHeader {
                            src_port: src.port,
                            dst_port: dst.port,
                            length: (UDP_HEADER_LEN + payload.len()) as u16,
                        },
                    ),
                    app: AppModel::Dns(
                        DnsModel {
                            id,
                            is_response: false,
                            opcode: 0,
                            rcode: 0,
                            question_count: 1,
                            answer_count: 0,
                            question: Some((shown_label(name), qtype)),
                        },
                    ),
                },
            )
        }),
{
    let payload = dns_query_payload_spec(id, name, qtype);
    lemma_labels_enc_len(name);
    assert(payload.len() > 0);
    lemma_udp_datagram_decodes(src, dst, payload, ts_us, wire_len);
    lemma_dns_query_decodes(id, name, qtype);
}

} // verus!
