use vstd::prelude::*;

use super::{be128, be128_spec, be16, be16_spec, need, truncated_spec, IpHeader};
use crate::addr::IpAddr;
use crate::error::{Layer, ParseError};

verus! {

pub const HEADER_LEN: usize = 40;
pub const MAX_EXTENSION_HEADERS: usize = 8;

pub const NH_HOP_BY_HOP: u8 = 0;
pub const NH_ROUTING: u8 = 43;
pub const NH_FRAGMENT: u8 = 44;
pub const NH_AUTH: u8 = 51;
pub const NH_DEST_OPTS: u8 = 60;

pub const FRAGMENT_HEADER_LEN: usize = 8;
pub const FRAGMENT_OFFSET_SHIFT: u16 = 3;
pub const FRAGMENT_MORE_BIT: u16 = 0x0001;

pub open spec fn malformed_v6(reason: &'static str) -> ParseError {
    ParseError::Malformed { layer: Layer::Ipv6, reason }
}

fn malformed(reason: &'static str) -> (e: ParseError)
    ensures
        e == malformed_v6(reason),
{
    ParseError::Malformed { layer: Layer::Ipv6, reason }
}

pub open spec fn is_extension(nh: u8) -> bool {
    nh == NH_HOP_BY_HOP || nh == NH_ROUTING || nh == NH_DEST_OPTS || nh == NH_AUTH
        || nh == NH_FRAGMENT
}

/// Length of the extension header at `offset` whose type is `nh`.
pub open spec fn ext_len_spec(p: Seq<u8>, nh: u8, offset: int) -> int {
    if nh == NH_AUTH {
        (p[offset + 1] as int + 2) * 4
    } else if nh == NH_FRAGMENT {
        FRAGMENT_HEADER_LEN as int
    } else {
        (p[offset + 1] as int + 1) * 8
    }
}

/// The bytes an extension header must have before its length is known.
pub open spec fn ext_min_spec(nh: u8) -> int {
    if nh == NH_FRAGMENT { FRAGMENT_HEADER_LEN as int } else { 2 }
}

/// Walks the extension-header chain of `p` from the header of type `h.proto`
/// at `offset`, `i` headers in; gives the header with the upper-layer
/// protocol and the offset where its payload starts.
pub open spec fn ext_walk(p: Seq<u8>, h: IpHeader, offset: int, i: int) -> Result<
    (IpHeader, int),
    ParseError,
>
    decreases MAX_EXTENSION_HEADERS - i,
{
    if i >= MAX_EXTENSION_HEADERS {
        Err(malformed_v6("too many extension headers"))
    } else if !is_extension(h.proto) {
        Ok((h, offset))
    } else if p.len() < offset + ext_min_spec(h.proto) {
        Err(truncated_spec(Layer::Ipv6, offset + ext_min_spec(h.proto), p.len() as int))
    } else {
        let h1 = if h.proto == NH_FRAGMENT {
            let field = be16_spec(p, offset + 2);
            IpHeader {
                fragment_offset: field >> FRAGMENT_OFFSET_SHIFT,
                more_fragments: field & FRAGMENT_MORE_BIT != 0,
                ..h
            }
        } else {
            h
        };
        let len = ext_len_spec(p, h.proto, offset);
        if p.len() < offset + len {
            Err(truncated_spec(Layer::Ipv6, offset + len, p.len() as int))
        } else {
            ext_walk(p, IpHeader { proto: p[offset], ..h1 }, offset + len, i + 1)
        }
    }
}

/// The bytes of an IPv6 packet that belong to it: the fixed header and the
/// payload length it declares, cut at the end of the buffer.
pub open spec fn ipv6_end_spec(buf: Seq<u8>) -> int {
    let declared = HEADER_LEN + be16_spec(buf, 4);
    if declared < buf.len() { declared } else { buf.len() as int }
}

/// What an IPv6 packet decodes to: its header with the upper-layer protocol
/// found after the extension headers (and any fragment fields), and the
/// range of the upper-layer payload.
pub open spec fn ipv6_spec(buf: Seq<u8>) -> Result<(IpHeader, int, int), ParseError> {
    if buf.len() < HEADER_LEN {
        Err(truncated_spec(Layer::Ipv6, HEADER_LEN as int, buf.len() as int))
    } else if buf[0] / 16 != 6 {
        Err(malformed_v6("version is not 6"))
    } else {
        let end = ipv6_end_spec(buf);
        let h = IpHeader {
            src: IpAddr::V6(be128_spec(buf, 8)),
            dst: IpAddr::V6(be128_spec(buf, 24)),
            proto: buf[6],
            ttl: buf[7],
            more_fragments: false,
            fragment_offset: 0,
        };
        match ext_walk(buf.subrange(0, end), h, HEADER_LEN as int, 0) {
            Ok((h2, off)) => Ok((h2, off, end)),
            Err(e) => Err(e),
        }
    }
}

proof fn lemma_ext_walk_bounds(p: Seq<u8>, h: IpHeader, offset: int, i: int)
    requires
        HEADER_LEN <= offset <= p.len(),
    ensures
        ext_walk(p, h, offset, i) matches Ok((h2, off)) ==> HEADER_LEN <= off <= p.len(),
    decreases MAX_EXTENSION_HEADERS - i,
{
    if i < MAX_EXTENSION_HEADERS && is_extension(h.proto) && p.len() >= offset + ext_min_spec(
        h.proto,
    ) {
        let h1 = if h.proto == NH_FRAGMENT {
            let field = be16_spec(p, offset + 2);
            IpHeader {
                fragment_offset: field >> FRAGMENT_OFFSET_SHIFT,
                more_fragments: field & FRAGMENT_MORE_BIT != 0,
                ..h
            }
        } else {
            h
        };
        let len = ext_len_spec(p, h.proto, offset);
        if p.len() >= offset + len {
            lemma_ext_walk_bounds(p, IpHeader { proto: p[offset], ..h1 }, offset + len, i + 1);
        }
    }
}

/// A packet of at least forty bytes with version 6 (the high four bits of
/// byte 0) whose next header (byte 6) is no extension header decodes: its
/// protocol is byte 6, its hop limit byte 7, it is no fragment, and its
/// payload runs from byte 40 to forty bytes past the payload length of
/// bytes 4-5, or to the end of the buffer if that comes first.
/// When byte 6 announces a fragment header that the payload length covers
/// and that is followed by no further extension header, the protocol is
/// the fragment header's next header (byte 40), the fragment offset is the
/// high thirteen bits of its bytes 42-43, more-fragments is the lowest bit
/// of byte 43, and the payload starts at byte 48.
pub proof fn lemma_header_fields(buf: Seq<u8>)
    ensures
        buf.len() >= HEADER_LEN && buf[0] >> 4 == 6 && !is_extension(buf[6]) ==> (ipv6_spec(buf) matches Ok(
            (h, start, end),
        ) && {
            &&& h.proto == buf[6]
            &&& h.ttl == buf[7]
            &&& !h.more_fragments && h.fragment_offset == 0
            &&& start == 40
            &&& end == if 40 + buf[4] as int * 256 + buf[5] as int <= buf.len() {
                40 + buf[4] as int * 256 + buf[5] as int
            } else {
                buf.len() as int
            }
        }),
        buf.len() >= 48 && buf[0] >> 4 == 6 && buf[6] == 44 && buf[4] as int * 256 + buf[5] as int >= 8
            && !is_extension(buf[40]) ==> (ipv6_spec(buf) matches Ok((h, start, _)) && {
            &&& h.proto == buf[40]
            &&& h.ttl == buf[7]
            &&& h.fragment_offset as int == buf[42] as int * 32 + buf[43] as int / 8
            &&& h.more_fragments == (buf[43] & 1 != 0)
            &&& start == 48
        }),
{
    if buf.len() >= HEADER_LEN {
        let b0 = buf[0];
        assert(b0 / 16 == b0 >> 4) by (bit_vector);
        if buf.len() >= 48 && buf[6] == 44 && buf[4] as int * 256 + buf[5] as int >= 8 {
            let end = ipv6_end_spec(buf);
            let p = buf.subrange(0, end);
            assert(p[40] == buf[40] && p[42] == buf[42] && p[43] == buf[43]);
            let hi = buf[42];
            let lo = buf[43];
            let field = be16_spec(p, 42);
            assert(field == ((hi as u16) * 256 + (lo as u16)) as u16);
            let off = field >> 3;
            assert(off == ((hi as u16) * 32 + (lo as u16) / 8) as u16 && (field & 1 != 0 <==> lo & 1 != 0))
                by (bit_vector)
                requires
                    field == ((hi as u16) * 256 + (lo as u16)) as u16,
                    off == field >> 3,
            ;
            assert(end >= 48);
            let h0 = IpHeader {
                src: IpAddr::V6(be128_spec(buf, 8)),
                dst: IpAddr::V6(be128_spec(buf, 24)),
                proto: buf[6],
                ttl: buf[7],
                more_fragments: false,
                fragment_offset: 0,
            };
            let h2 = IpHeader {
                proto: p[40],
                fragment_offset: field >> FRAGMENT_OFFSET_SHIFT,
                more_fragments: field & FRAGMENT_MORE_BIT != 0,
                ..h0
            };
            assert(ext_walk(p, h0, 40, 0) == ext_walk(p, h2, 48, 1));
            if !is_extension(buf[40]) {
                assert(ext_walk(p, h2, 48, 1) == Ok::<(IpHeader, int), ParseError>((h2, 48)));
            }
        }
    }
}

/// Decodes an IPv6 header, walks at most eight extension headers (taking
/// the fragment offset and more-fragments bit from a fragment header), and
/// returns the header with the upper-layer payload.
pub fn parse(buf: &[u8]) -> (r: Result<(IpHeader, &[u8]), ParseError>)
    ensures
        match ipv6_spec(buf@) {
            Ok((h, start, end)) => r matches Ok((h2, payload)) && h2 == h && payload@
                == buf@.subrange(start, end),
            Err(e) => r matches Err(e2) && e2 == e,
        },
        r matches Ok((_, payload)) ==> payload@.len() <= buf@.len(),
{
    need(buf, HEADER_LEN, Layer::Ipv6)?;
    if buf[0] / 16 != 6 {
        return Err(malformed("version is not 6"));
    }
    let payload_len = be16(buf, 4) as usize;
    let end = if HEADER_LEN + payload_len < buf.len() { HEADER_LEN + payload_len } else { buf.len() };
    let packet = &buf[0..end];
    let ghost p = buf@.subrange(0, end as int);
    assert(end as int == ipv6_end_spec(buf@));
    assert(packet@ == p);

    let mut header = IpHeader {
        src: IpAddr::V6(be128(buf, 8)),
        dst: IpAddr::V6(be128(buf, 24)),
        proto: buf[6],
        ttl: buf[7],
        more_fragments: false,
        fragment_offset: 0,
    };
    let mut offset = HEADER_LEN;
    let mut i: usize = 0;
    proof {
        lemma_ext_walk_bounds(p, header, offset as int, 0);
    }
    while i < MAX_EXTENSION_HEADERS
        invariant
            packet@ == p,
            p == buf@.subrange(0, end as int),
            end <= buf@.len(),
            end <= HEADER_LEN + 0xFFFF,
            end as int == ipv6_end_spec(buf@),
            HEADER_LEN <= offset <= p.len(),
            i <= MAX_EXTENSION_HEADERS,
            ext_walk(p, header, offset as int, i as int) == match ipv6_spec(buf@) {
                Ok((h, off, _)) => Ok::<(IpHeader, int), ParseError>((h, off)),
                Err(e) => Err(e),
            },
        decreases MAX_EXTENSION_HEADERS - i,
    {
        let nh = header.proto;
        let ext_len: usize;
        if nh == NH_HOP_BY_HOP || nh == NH_ROUTING || nh == NH_DEST_OPTS {
            need(packet, offset + 2, Layer::Ipv6)?;
            ext_len = (packet[offset + 1] as usize + 1) * 8;
        } else if nh == NH_AUTH {
            need(packet, offset + 2, Layer::Ipv6)?;
            ext_len = (packet[offset + 1] as usize + 2) * 4;
        } else if nh == NH_FRAGMENT {
            need(packet, offset + FRAGMENT_HEADER_LEN, Layer::Ipv6)?;
            let field = be16(packet, offset + 2);
            header.fragment_offset = field >> FRAGMENT_OFFSET_SHIFT;
            header.more_fragments = field & FRAGMENT_MORE_BIT != 0;
            ext_len = FRAGMENT_HEADER_LEN;
        } else {
            return Ok((header, &buf[offset..end]));
        }
        need(packet, offset + ext_len, Layer::Ipv6)?;
        header.proto = packet[offset];
        offset += ext_len;
        i += 1;
        proof {
            lemma_ext_walk_bounds(p, header, offset as int, i as int);
        }
    }
    Err(malformed("too many extension headers"))
}

} // verus!
