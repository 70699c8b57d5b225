use vstd::prelude::*;

use super::{be16, be16_spec, be32, be32_spec, need, truncated_spec, IpHeader};
use crate::addr::IpAddr;
use crate::error::{Layer, ParseError};

verus! {

pub const MIN_HEADER_LEN: usize = 20;
pub const FLAG_MORE_FRAGMENTS: u16 = 0x2000;
pub const FRAGMENT_OFFSET_MASK: u16 = 0x1FFF;

pub open spec fn malformed_v4(reason: &'static str) -> ParseError {
    ParseError::Malformed { layer: Layer::Ipv4, reason }
}

fn malformed(reason: &'static str) -> (e: ParseError)
    ensures
        e == malformed_v4(reason),
{
    ParseError::Malformed { layer: Layer::Ipv4, reason }
}

/// Header length in bytes that the IHL field gives.
pub open spec fn ihl_len_spec(buf: Seq<u8>) -> int {
    (buf[0] % 16) as int * 4
}

/// What an IPv4 packet decodes to: its header, and the range of its
/// payload: from the end of the header to the total length the header
/// declares, or to the end of the buffer if that comes first (Ethernet
/// padding past the total length is not payload).
pub open spec fn ipv4_spec(buf: Seq<u8>) -> Result<(IpHeader, int, int), ParseError> {
    if buf.len() < MIN_HEADER_LEN {
        Err(truncated_spec(Layer::Ipv4, MIN_HEADER_LEN as int, buf.len() as int))
    } else if buf[0] / 16 != 4 {
        Err(malformed_v4("version is not 4"))
    } else if ihl_len_spec(buf) < MIN_HEADER_LEN {
        Err(malformed_v4("header length below 20"))
    } else if buf.len() < ihl_len_spec(buf) {
        Err(truncated_spec(Layer::Ipv4, ihl_len_spec(buf), buf.len() as int))
    } else if (be16_spec(buf, 2) as int) < ihl_len_spec(buf) {
        Err(malformed_v4("total length smaller than header"))
    } else {
        let flags_offset = be16_spec(buf, 6);
        let header = IpHeader {
            src: IpAddr::V4(be32_spec(buf, 12)),
            dst: IpAddr::V4(be32_spec(buf, 16)),
            proto: buf[9],
            ttl: buf[8],
            more_fragments: flags_offset & FLAG_MORE_FRAGMENTS != 0,
            fragment_offset: flags_offset & FRAGMENT_OFFSET_MASK,
        };
        let total = be16_spec(buf, 2) as int;
        let end = if total < buf.len() { total } else { buf.len() as int };
        Ok((header, ihl_len_spec(buf), end))
    }
}

/// The fragment fields of a decoded header come from the 16-bit field at
/// bytes 6-7: more-fragments is its bit 0x2000 (bit 0x20 of byte 6), and
/// the fragment offset is its low thirteen bits (the low five bits of byte
/// 6, then byte 7). The other flag bits, don't-fragment (0x4000) among
/// them, play no part: a header whose field holds only don't-fragment is
/// no fragment.
pub proof fn lemma_fragment_fields(buf: Seq<u8>)
    ensures
        ipv4_spec(buf) matches Ok((h, _, _)) ==> {
            &&& h.more_fragments == (buf[6] & 0x20 != 0)
            &&& h.fragment_offset as int == (buf[6] & 0x1F) as int * 256 + buf[7] as int
        },
        buf.len() > 7 && buf[6] == 0x40 && buf[7] == 0 ==> (ipv4_spec(buf) matches Ok((h, _, _))
            ==> !h.more_fragments && h.fragment_offset == 0 && !h.is_fragment_spec()),
{
    if buf.len() >= MIN_HEADER_LEN {
        let hi = buf[6];
        let lo = buf[7];
        let fo = be16_spec(buf, 6);
        assert(fo == ((hi as u16) * 256 + (lo as u16)) as u16);
        assert(fo & 0x2000 != 0 <==> hi & 0x20 != 0) by (bit_vector)
            requires
                fo == ((hi as u16) * 256 + (lo as u16)) as u16,
        ;
        let low5 = hi & 0x1F;
        assert(fo & 0x1FFF == ((low5 as u16) * 256 + (lo as u16)) as u16 && low5 <= 0x1F) by (bit_vector)
            requires
                fo == ((hi as u16) * 256 + (lo as u16)) as u16,
                low5 == hi & 0x1F,
        ;
        assert(0x40u8 & 0x20 == 0 && 0x40u8 & 0x1F == 0) by (bit_vector);
    }
}

/// A buffer decodes as IPv4 exactly when it holds at least twenty bytes,
/// its version (the high four bits of byte 0) is 4, its header length (the
/// low four bits of byte 0, in 32-bit words) is at least twenty bytes and
/// fits in the buffer, and its total length (bytes 2-3, big-endian) is at
/// least the header length. The header then has the TTL of byte 8, the
/// protocol of byte 9, and the source and destination addresses of bytes
/// 12-15 and 16-19, most significant byte first; the payload starts right
/// after the header and ends at the total length, or at the end of the
/// buffer if that comes first.
pub proof fn lemma_header_fields(buf: Seq<u8>)
    ensures
        ipv4_spec(buf) is Ok <==> {
            &&& buf.len() >= 20
            &&& buf[0] >> 4 == 4
            &&& (buf[0] & 0x0F) as int * 4 >= 20
            &&& (buf[0] & 0x0F) as int * 4 <= buf.len()
            &&& buf[2] as int * 256 + buf[3] as int >= (buf[0] & 0x0F) as int * 4
        },
        ipv4_spec(buf) matches Ok((h, start, end)) ==> {
            &&& h.ttl == buf[8]
            &&& h.proto == buf[9]
            &&& h.src matches IpAddr::V4(a) && a as int == buf[12] as int * 0x100_0000 + buf[13] as int * 0x1_0000
                + buf[14] as int * 0x100 + buf[15] as int
            &&& h.dst matches IpAddr::V4(a) && a as int == buf[16] as int * 0x100_0000 + buf[17] as int * 0x1_0000
                + buf[18] as int * 0x100 + buf[19] as int
            &&& start == (buf[0] & 0x0F) as int * 4
            &&& end == if buf[2] as int * 256 + buf[3] as int <= buf.len() {
                buf[2] as int * 256 + buf[3] as int
            } else {
                buf.len() as int
            }
        },
{
    if buf.len() >= MIN_HEADER_LEN {
        let b0 = buf[0];
        assert(b0 / 16 == b0 >> 4 && b0 % 16 == b0 & 0x0F) by (bit_vector);
    }
}

/// Decodes an IPv4 header and returns it with the packet's payload.
pub fn parse(buf: &[u8]) -> (r: Result<(IpHeader, &[u8]), ParseError>)
    ensures
        match ipv4_spec(buf@) {
            Ok((h, start, end)) => r matches Ok((h2, payload)) && h2 == h && payload@
                == buf@.subrange(start, end),
            Err(e) => r matches Err(e2) && e2 == e,
        },
        r matches Ok((_, payload)) ==> payload@.len() <= buf@.len(),
{
    need(buf, MIN_HEADER_LEN, Layer::Ipv4)?;
    if buf[0] / 16 != 4 {
        return Err(malformed("version is not 4"));
    }
    let header_len = (buf[0] % 16) as usize * 4;
    if header_len < MIN_HEADER_LEN {
        return Err(malformed("header length below 20"));
    }
    need(buf, header_len, Layer::Ipv4)?;
    let total_len = be16(buf, 2) as usize;
    if total_len < header_len {
        return Err(
            malformed("total length smaller than header"),
        );
    }
    let payload_end = if total_len < buf.len() { total_len } else { buf.len() };
    let flags_offset = be16(buf, 6);
    let header = IpHeader {
        src: IpAddr::V4(be32(buf, 12)),
        dst: IpAddr::V4(be32(buf, 16)),
        proto: buf[9],
        ttl: buf[8],
        more_fragments: flags_offset & FLAG_MORE_FRAGMENTS != 0,
        fragment_offset: flags_offset & FRAGMENT_OFFSET_MASK,
    };
    Ok((header, &buf[header_len..payload_end]))
}

} // verus!
