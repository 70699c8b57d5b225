use vstd::prelude::*;

pub mod dns;
pub mod ethernet;
pub mod icmp;
pub mod ipv4;
pub mod ipv6;
pub mod tcp;
pub mod udp;

use crate::addr::IpAddr;
use dns::{DnsInfo, DnsModel};
use icmp::IcmpHeader;
use tcp::TcpHeader;
use udp::UdpHeader;
use crate::error::{Layer, ParseError};

verus! {

/// The fields of an IPv4 or IPv6 header that the monitor reads. For IPv6,
/// `proto` is the upper-layer protocol after the extension headers, and the
/// fragment fields come from a fragment extension header if there is one.
#[derive(Debug, Clone, Copy, PartialEq, Eq, Structural)]
pub struct IpHeader {
    pub src: IpAddr,
    pub dst: IpAddr,
    pub proto: u8,
    pub ttl: u8,
    pub more_fragments: bool,
    pub fragment_offset: u16,
}

impl IpHeader {
    pub open spec fn is_fragment_spec(&self) -> bool {
        self.more_fragments || self.fragment_offset != 0
    }

    /// A fragment of a larger datagram: more fragments follow, or this one
    /// does not start at offset 0.
    pub fn is_fragment(&self) -> (b: bool)
        ensures
            b == self.is_fragment_spec(),
    {
        self.more_fragments || self.fragment_offset != 0
    }
}

pub open spec fn be16_spec(s: Seq<u8>, at: int) -> u16 {
    (s[at] as int * 256 + s[at + 1] as int) as u16
}

pub open spec fn be32_spec(s: Seq<u8>, at: int) -> u32 {
    (be16_spec(s, at) as int * 0x1_0000 + be16_spec(s, at + 2) as int) as u32
}

pub open spec fn be64_spec(s: Seq<u8>, at: int) -> u64 {
    (be32_spec(s, at) as int * 0x1_0000_0000 + be32_spec(s, at + 4) as int) as u64
}

pub open spec fn be128_spec(s: Seq<u8>, at: int) -> u128 {
    (be64_spec(s, at) as int * 0x1_0000_0000_0000_0000 + be64_spec(s, at + 8) as int) as u128
}

pub open spec fn truncated_spec(layer: Layer, needed: int, available: int) -> ParseError {
    ParseError::Truncated { layer, needed: needed as usize, available: available as usize }
}

/// The truncation error for a buffer `buf` that needed `needed` bytes.
pub open spec fn short_spec(layer: Layer, needed: usize, buf: Seq<u8>) -> ParseError {
    truncated_spec(layer, needed as int, buf.len() as int)
}

/// `Ok` when `buf` holds at least `len` bytes, else the truncation error.
pub fn need(buf: &[u8], len: usize, layer: Layer) -> (r: Result<(), ParseError>)
    ensures
        r is Ok <==> buf@.len() >= len,
        r is Err ==> r == Err::<(), ParseError>(truncated_spec(layer, len as int, buf@.len() as int)),
{
    if buf.len() < len {
        return Err(ParseError::Truncated { layer, needed: len, available: buf.len() });
    }
    Ok(())
}

/// Big-endian 16-bit value at `at`.
pub fn be16(buf: &[u8], at: usize) -> (v: u16)
    requires
        at + 2 <= buf@.len(),
    ensures
        v == be16_spec(buf@, at as int),
{
    (buf[at] as u16) * 256 + (buf[at + 1] as u16)
}

/// Big-endian 32-bit value at `at`.
pub fn be32(buf: &[u8], at: usize) -> (v: u32)
    requires
        at + 4 <= buf.len(),
    ensures
        v == be32_spec(buf@, at as int),
{
    (be16(buf, at) as u32) * 0x1_0000 + (be16(buf, at + 2) as u32)
}

/// Big-endian 64-bit value at `at`.
pub fn be64(buf: &[u8], at: usize) -> (v: u64)
    requires
        at + 8 <= buf.len(),
    ensures
        v == be64_spec(buf@, at as int),
{
    (be32(buf, at) as u64) * 0x1_0000_0000 + (be32(buf, at + 4) as u64)
}

/// Big-endian 128-bit value at `at`.
pub fn be128(buf: &[u8], at: usize) -> (v: u128)
    requires
        at + 16 <= buf.len(),
    ensures
        v == be128_spec(buf@, at as int),
{
    (be64(buf, at) as u128) * 0x1_0000_0000_0000_0000 + (be64(buf, at + 8) as u128)
}


pub const PROTO_ICMP: u8 = 1;
pub const PROTO_TCP: u8 = 6;
pub const PROTO_UDP: u8 = 17;
pub const PROTO_ICMPV6: u8 = 58;

pub const NULL_HEADER_LEN: usize = 4;

/// The link layer that frames of a capture start with.
#[derive(Debug, Clone, Copy, PartialEq, Eq, Structural)]
pub enum LinkType {
    /// BSD loopback: a 4-byte address-family header, then an IP packet.
    Null,
    Ethernet,
    /// A bare IP packet.
    Raw,
}

impl LinkType {
    /// The pcap link-type number of this link type.
    pub open spec fn raw_spec(self) -> u32 {
        match self {
            LinkType::Null => 0,
            LinkType::Ethernet => 1,
            LinkType::Raw => 101,
        }
    }

    pub fn raw(&self) -> (v: u32)
        ensures
            v == self.raw_spec(),
    {
        match self {
            LinkType::Null => 0,
            LinkType::Ethernet => 1,
            LinkType::Raw => 101,
        }
    }

    pub open spec fn from_raw_spec(value: u32) -> Option<LinkType> {
        if value == 0 {
            Some(LinkType::Null)
        } else if value == 1 {
            Some(LinkType::Ethernet)
        } else if value == 12 || value == 14 || value == 101 {
            Some(LinkType::Raw)
        } else {
            None
        }
    }

    /// The link type a pcap link-type number stands for: 0 is BSD loopback,
    /// 1 Ethernet, and 12, 14 and 101 are raw IP.
    pub fn from_raw(value: u32) -> (r: Option<LinkType>)
        ensures
            r == Self::from_raw_spec(value),
    {
        match value {
            0 => Some(LinkType::Null),
            1 => Some(LinkType::Ethernet),
            12 | 14 | 101 => Some(LinkType::Raw),
            _ => None,
        }
    }
}

/// Every link type survives being written as its pcap number and read back.
pub proof fn lemma_link_raw_roundtrip(l: LinkType)
    ensures
        LinkType::from_raw_spec(l.raw_spec()) == Some(l),
{
}

/// A captured frame: when it was seen, its length on the wire, and the
/// bytes that were captured.
#[derive(Debug, Clone, Copy)]
pub struct Frame<'a> {
    pub ts_us: u64,
    pub wire_len: u32,
    pub data: &'a [u8],
}

/// What follows the IP header.
#[derive(Debug, Clone, Copy, PartialEq, Eq, Structural)]
pub enum Transport {
    Absent,
    Tcp(TcpHeader),
    Udp(UdpHeader),
    Icmp(IcmpHeader),
    /// A fragment after the first: its bytes do not start a transport header.
    LaterFragment,
    Other(u8),
}

impl Transport {
    pub open spec fn ports_spec(&self) -> (u16, u16) {
        match self {
            Transport::Tcp(h) => (h.src_port, h.dst_port),
            Transport::Udp(h) => (h.src_port, h.dst_port),
            _ => (0, 0),
        }
    }

    /// Source and destination port; (0, 0) where the transport has none.
    pub fn ports(&self) -> (r: (u16, u16))
        ensures
            r == self.ports_spec(),
    {
        match self {
            Transport::Tcp(h) => (h.src_port, h.dst_port),
            Transport::Udp(h) => (h.src_port, h.dst_port),
            _ => (0, 0),
        }
    }
}

/// What the payload of a UDP datagram to or from port 53 decodes to.
#[derive(Debug, Clone, PartialEq, Eq)]
pub enum App {
    Absent,
    Dns(DnsInfo),
    DnsError(ParseError),
}

pub enum AppModel {
    Absent,
    Dns(DnsModel),
    DnsError(ParseError),
}

impl View for App {
    type V = AppModel;

    open spec fn view(&self) -> AppModel {
        match self {
            App::Absent => AppModel::Absent,
            App::Dns(info) => AppModel::Dns(info@),
            App::DnsError(e) => AppModel::DnsError(*e),
        }
    }
}

/// A decoded frame.
#[derive(Debug, Clone, PartialEq, Eq)]
pub struct Packet {
    pub ts_us: u64,
    pub wire_len: u32,
    pub ethertype: Option<u16>,
    pub ip: Option<IpHeader>,
    pub transport: Transport,
    pub app: App,
}

pub struct PacketModel {
    pub ts_us: u64,
    pub wire_len: u32,
    pub ethertype: Option<u16>,
    pub ip: Option<IpHeader>,
    pub transport: Transport,
    pub app: AppModel,
}

impl View for Packet {
    type V = PacketModel;

    open spec fn view(&self) -> PacketModel {
        PacketModel {
            ts_us: self.ts_us,
            wire_len: self.wire_len,
            ethertype: self.ethertype,
            ip: self.ip,
            transport: self.transport,
            app: self.app@,
        }
    }
}

/// Where the network layer starts in a frame of link type `link`, and the
/// ethertype that an Ethernet header gives for it.
pub open spec fn l3_spec(link: LinkType, data: Seq<u8>) -> Result<(Option<u16>, int), ParseError> {
    match link {
        LinkType::Ethernet => match ethernet::ethernet_spec(data) {
            Ok((t, off, _)) => Ok((Some(t), off)),
            Err(e) => Err(e),
        },
        LinkType::Null => if data.len() < NULL_HEADER_LEN {
            Err(short_spec(Layer::Link, NULL_HEADER_LEN, data))
        } else {
            Ok((None, NULL_HEADER_LEN as int))
        },
        LinkType::Raw => Ok((None, 0)),
    }
}

/// The IP version of the network-layer bytes `l3`: fixed by the ethertype
/// where there is one, else read from the first nibble.
pub open spec fn ip_version_spec(ethertype: Option<u16>, l3: Seq<u8>) -> Result<u8, ParseError> {
    match ethertype {
        Some(t) => if t == ethernet::ETHERTYPE_IPV4 {
            Ok(4u8)
        } else {
            Ok(6u8)
        },
        None => if l3.len() < 1 {
            Err(truncated_spec(Layer::Link, 1, l3.len() as int))
        } else {
            Ok(l3[0] / 16)
        },
    }
}

/// The IP header of `l3` for IP version `version`, with its payload range.
pub open spec fn ip_spec(version: u8, l3: Seq<u8>) -> Result<(IpHeader, int, int), ParseError> {
    if version == 4 {
        ipv4::ipv4_spec(l3)
    } else if version == 6 {
        ipv6::ipv6_spec(l3)
    } else {
        Err(ParseError::Malformed { layer: Layer::Link, reason: "unknown ip version" })
    }
}

/// The UDP header and application payload that a datagram `l4` decodes to:
/// a datagram to or from port 53 with a non-empty payload is read as DNS.
pub open spec fn udp_app_spec(l4: Seq<u8>) -> Result<(UdpHeader, AppModel), ParseError> {
    match udp::udp_spec(l4) {
        Err(e) => Err(e),
        Ok((h, end)) => {
            let payload = l4.subrange(udp::HEADER_LEN as int, end);
            if (h.src_port == dns::PORT || h.dst_port == dns::PORT) && payload.len() > 0 {
                match dns::dns_spec(payload) {
                    Ok(m) => Ok((h, AppModel::Dns(m))),
                    Err(e) => Ok((h, AppModel::DnsError(e))),
                }
            } else {
                Ok((h, AppModel::Absent))
            }
        }
    }
}

/// The transport layer (and DNS payload) that the IP payload `l4` of a
/// packet with header `ip` decodes to.
pub open spec fn transport_spec(ip: IpHeader, l4: Seq<u8>) -> Result<(Transport, AppModel), ParseError> {
    if ip.fragment_offset != 0 {
        Ok((Transport::LaterFragment, AppModel::Absent))
    } else if ip.proto == PROTO_TCP {
        match tcp::tcp_spec(l4) {
            Ok((h, _)) => Ok((Transport::Tcp(h), AppModel::Absent)),
            Err(e) => Err(e),
        }
    } else if ip.proto == PROTO_UDP {
        match udp_app_spec(l4) {
            Ok((h, app)) => Ok((Transport::Udp(h), app)),
            Err(e) => Err(e),
        }
    } else if ip.proto == PROTO_ICMP || ip.proto == PROTO_ICMPV6 {
        match icmp::message_header_spec(l4, ip.proto == PROTO_ICMPV6) {
            Ok(h) => Ok((Transport::Icmp(h), AppModel::Absent)),
            Err(e) => Err(e),
        }
    } else {
        Ok((Transport::Other(ip.proto), AppModel::Absent))
    }
}

/// What a frame decodes to. A frame whose ethertype is neither IPv4 nor
/// IPv6 decodes to a packet with no IP header; a fragment other than the
/// first has no transport header; the first question of DNS traffic on
/// port 53 is read, and a DNS payload that fails to decode is recorded in
/// the packet rather than failing it.
pub open spec fn packet_spec(link: LinkType, ts_us: u64, wire_len: u32, data: Seq<u8>) -> Result<
    PacketModel,
    ParseError,
> {
    match l3_spec(link, data) {
        Err(e) => Err(e),
        Ok((ethertype, start)) => {
            let l3 = data.subrange(start, data.len() as int);
            let base = PacketModel {
                ts_us,
                wire_len,
                ethertype,
                ip: None,
                transport: Transport::Absent,
                app: AppModel::Absent,
            };
            if ethertype matches Some(t) && t != ethernet::ETHERTYPE_IPV4 && t
                != ethernet::ETHERTYPE_IPV6 {
                Ok(base)
            } else {
                match ip_version_spec(ethertype, l3) {
                    Err(e) => Err(e),
                    Ok(version) => match ip_spec(version, l3) {
                        Err(e) => Err(e),
                        Ok((ip, s, e)) => match transport_spec(ip, l3.subrange(s, e)) {
                            Err(err) => Err(err),
                            Ok((transport, app)) => Ok(
                                PacketModel { ip: Some(ip), transport, app, ..base },
                            ),
                        },
                    },
                }
            }
        }
    }
}

/// Splits off the link layer: the ethertype (Ethernet only) and the
/// network-layer bytes.
fn parse_link<'a>(link: LinkType, data: &'a [u8]) -> (r: Result<(Option<u16>, &'a [u8]), ParseError>)
    ensures
        match l3_spec(link, data@) {
            Ok((t, start)) => r matches Ok((t2, l3)) && t2 == t && 0 <= start <= data@.len()
                && l3@ == data@.subrange(start, data@.len() as int),
            Err(e) => r matches Err(e2) && e2 == e,
        },
{
    match link {
        LinkType::Ethernet => {
            let (eth, rest) = ethernet::parse(data)?;
            proof {
                ethernet::lemma_ethernet_bounds(data@);
            }
            Ok((Some(eth.ethertype), rest))
        },
        LinkType::Null => {
            need(data, NULL_HEADER_LEN, Layer::Link)?;
            Ok((None, &data[NULL_HEADER_LEN..data.len()]))
        },
        LinkType::Raw => {
            assert(data@.subrange(0, data@.len() as int) =~= data@);
            Ok((None, data))
        },
    }
}

/// The IP version of the network-layer bytes.
fn ip_version(ethertype: Option<u16>, l3: &[u8]) -> (r: Result<u8, ParseError>)
    ensures
        r == ip_version_spec(ethertype, l3@),
{
    match ethertype {
        Some(t) => if t == ethernet::ETHERTYPE_IPV4 {
            Ok(4)
        } else {
            Ok(6)
        },
        None => {
            need(l3, 1, Layer::Link)?;
            Ok(l3[0] / 16)
        },
    }
}

/// Decodes the IP header for IP version `version`.
fn parse_ip<'a>(version: u8, l3: &'a [u8]) -> (r: Result<(IpHeader, &'a [u8]), ParseError>)
    ensures
        match ip_spec(version, l3@) {
            Ok((h, s, e)) => r matches Ok((h2, l4)) && h2 == h && l4@ == l3@.subrange(s, e),
            Err(err) => r matches Err(e2) && e2 == err,
        },
        r matches Ok((_, l4)) ==> l4@.len() <= l3@.len(),
{
    if version == 4 {
        ipv4::parse(l3)
    } else if version == 6 {
        ipv6::parse(l3)
    } else {
        Err(ParseError::Malformed { layer: Layer::Link, reason: "unknown ip version" })
    }
}

/// Decodes a UDP header and, for traffic to or from port 53, its DNS payload.
fn parse_udp_app(l4: &[u8]) -> (r: Result<(UdpHeader, App), ParseError>)
    requires
        l4@.len() + 0x1_0000 <= usize::MAX,
    ensures
        match udp_app_spec(l4@) {
            Ok((h, app)) => r matches Ok((h2, app2)) && h2 == h && app2@ == app,
            Err(e) => r matches Err(e2) && e2 == e,
        },
{
    let (udp, payload) = udp::parse(l4)?;
    if (udp.src_port == dns::PORT || udp.dst_port == dns::PORT) && payload.len() > 0 {
        let app = match dns::parse(payload) {
            Ok(info) => App::Dns(info),
            Err(e) => App::DnsError(e),
        };
        Ok((udp, app))
    } else {
        Ok((udp, App::Absent))
    }
}

/// Decodes what follows the IP header.
fn parse_transport(ip: IpHeader, l4: &[u8]) -> (r: Result<(Transport, App), ParseError>)
    requires
        l4@.len() + 0x1_0000 <= usize::MAX,
    ensures
        match transport_spec(ip, l4@) {
            Ok((t, app)) => r matches Ok((t2, app2)) && t2 == t && app2@ == app,
            Err(e) => r matches Err(e2) && e2 == e,
        },
{
    if ip.fragment_offset != 0 {
        return Ok((Transport::LaterFragment, App::Absent));
    }
    if ip.proto == PROTO_TCP {
        let (h, _) = tcp::parse(l4)?;
        Ok((Transport::Tcp(h), App::Absent))
    } else if ip.proto == PROTO_UDP {
        let (h, app) = parse_udp_app(l4)?;
        Ok((Transport::Udp(h), app))
    } else if ip.proto == PROTO_ICMP || ip.proto == PROTO_ICMPV6 {
        let h = icmp::parse(l4, ip.proto == PROTO_ICMPV6)?;
        Ok((Transport::Icmp(h), App::Absent))
    } else {
        Ok((Transport::Other(ip.proto), App::Absent))
    }
}

/// Decodes a frame of link type `link` down to the transport layer and, on
/// port 53, the first DNS question. Never panics on any bytes: every read
/// is checked against the buffer's length first.
pub fn parse(link: LinkType, frame: &Frame<'_>) -> (r: Result<Packet, ParseError>)
    requires
        frame.data@.len() + 0x1_0000 <= usize::MAX,
    ensures
        match packet_spec(link, frame.ts_us, frame.wire_len, frame.data@) {
            Ok(m) => r matches Ok(p) && p@ == m,
            Err(e) => r matches Err(e2) && e2 == e,
        },
{
    let (ethertype, l3) = parse_link(link, frame.data)?;
    let mut packet = Packet {
        ts_us: frame.ts_us,
        wire_len: frame.wire_len,
        ethertype,
        ip: None,
        transport: Transport::Absent,
        app: App::Absent,
    };
    if let Some(t) = ethertype {
        if t != ethernet::ETHERTYPE_IPV4 && t != ethernet::ETHERTYPE_IPV6 {
            return Ok(packet);
        }
    }
    let version = ip_version(ethertype, l3)?;
    let (ip, l4) = parse_ip(version, l3)?;
    let (transport, app) = parse_transport(ip, l4)?;
    packet.ip = Some(ip);
    packet.transport = transport;
    packet.app = app;
    Ok(packet)
}

/// Ethernet padding after an IPv4 datagram does not change what a frame
/// decodes to: a frame whose Ethernet header gives IPv4 directly, with at
/// least 20 bytes of IPv4 header whose total length covers the rest of the
/// frame, decodes the same with any bytes appended, whether it decodes to a
/// packet or to an error. Left out are the frames whose version-4 header
/// announces a header longer than the frame: they fail as truncated, and
/// padding can turn that into another error.
pub proof fn lemma_padding_ignored(f: Seq<u8>, pad: Seq<u8>, ts_us: u64, wire_len: u32)
    requires
        f.len() >= ethernet::HEADER_LEN + ipv4::MIN_HEADER_LEN,
        be16_spec(f, 12) == ethernet::ETHERTYPE_IPV4,
        be16_spec(f.subrange(14, f.len() as int), 2) == f.len() - 14,
        f[14] / 16 != 4 || ipv4::ihl_len_spec(f.subrange(14, f.len() as int)) <= f.len() - 14,
    ensures
        packet_spec(LinkType::Ethernet, ts_us, wire_len, f + pad) == packet_spec(LinkType::Ethernet, ts_us, wire_len, f),
{
    let d = f + pad;
    let l3 = f.subrange(14, f.len() as int);
    let l3d = d.subrange(14, d.len() as int);
    assert(d[12] == f[12] && d[13] == f[13]);
    assert(be16_spec(d, 12) == be16_spec(f, 12));
    assert(ethernet::ethernet_spec(d) == Ok::<(u16, int, int), ParseError>((ethernet::ETHERTYPE_IPV4, 14, 0)));
    assert(ethernet::ethernet_spec(f) == Ok::<(u16, int, int), ParseError>((ethernet::ETHERTYPE_IPV4, 14, 0)));
    assert(l3d =~= l3 + pad);
    assert(l3.len() >= ipv4::MIN_HEADER_LEN);
    assert(l3[0] == f[14]);
    assert forall|i: int| 0 <= i < l3.len() implies l3d[i] == l3[i] by {}
    assert(be16_spec(l3d, 2) == be16_spec(l3, 2));
    assert(be16_spec(l3d, 6) == be16_spec(l3, 6));
    assert(ipv4::ihl_len_spec(l3d) == ipv4::ihl_len_spec(l3));
    assert(be32_spec(l3d, 12) == be32_spec(l3, 12));
    assert(be32_spec(l3d, 16) == be32_spec(l3, 16));
    let ihl = ipv4::ihl_len_spec(l3);
    if 0 <= ihl <= l3.len() {
        assert(l3d.subrange(ihl, l3.len() as int) =~= l3.subrange(ihl, l3.len() as int));
    }
    assert(ipv4::ipv4_spec(l3d) == ipv4::ipv4_spec(l3));
}

} // verus!
