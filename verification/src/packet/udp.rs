use vstd::prelude::*;

use super::{be16, be16_spec, need, truncated_spec};
use crate::error::{Layer, ParseError};

verus! {

pub const HEADER_LEN: usize = 8;

#[derive(Debug, Clone, Copy, PartialEq, Eq, Structural)]
pub struct UdpHeader {
    pub src_port: u16,
    pub dst_port: u16,
    pub length: u16,
}

/// What a UDP datagram decodes to: its header and where its payload ends.
/// A length field of 0 (an IPv6 jumbogram) takes the rest of the buffer;
/// otherwise the payload ends at the declared length or the buffer's end,
/// whichever comes first.
pub open spec fn udp_spec(buf: Seq<u8>) -> Result<(UdpHeader, int), ParseError> {
    if buf.len() < HEADER_LEN {
        Err(truncated_spec(Layer::Udp, HEADER_LEN as int, buf.len() as int))
    } else {
        let h = UdpHeader {
            src_port: be16_spec(buf, 0),
            dst_port: be16_spec(buf, 2),
            length: be16_spec(buf, 4),
        };
        if h.length != 0 && h.length < HEADER_LEN {
            Err(ParseError::Malformed { layer: Layer::Udp, reason: "length below header size" })
        } else if h.length == 0 {
            Ok((h, buf.len() as int))
        } else if (h.length as int) < buf.len() {
            Ok((h, h.length as int))
        } else {
            Ok((h, buf.len() as int))
        }
    }
}

/// A buffer decodes as UDP exactly when it holds the eight header bytes and
/// its length field (bytes 4-5) is zero or covers at least the header. The
/// ports are bytes 0-1 and 2-3, most significant first. The datagram ends
/// at its declared length or at the end of the buffer, whichever comes
/// first; a length of zero takes the whole buffer.
pub proof fn lemma_udp_fields(buf: Seq<u8>)
    ensures
        udp_spec(buf) is Ok <==> buf.len() >= HEADER_LEN && (buf[4] as int * 256 + buf[5] as int == 0 || buf[4] as int
            * 256 + buf[5] as int >= 8),
        udp_spec(buf) matches Ok((h, end)) ==> {
            let declared = buf[4] as int * 256 + buf[5] as int;
            &&& h.src_port as int == buf[0] as int * 256 + buf[1] as int
            &&& h.dst_port as int == buf[2] as int * 256 + buf[3] as int
            &&& h.length as int == declared
            &&& end <= buf.len()
            &&& declared != 0 ==> end <= declared
            &&& end == buf.len() || end == declared
        },
{
}

/// Decodes a UDP header and returns it with the datagram's payload.
pub fn parse(buf: &[u8]) -> (r: Result<(UdpHeader, &[u8]), ParseError>)
    ensures
        match udp_spec(buf@) {
            Ok((h, end)) => r matches Ok((h2, payload)) && h2 == h && payload@ == buf@.subrange(
                HEADER_LEN as int,
                end,
            ),
            Err(e) => r matches Err(e2) && e2 == e,
        },
{
    need(buf, HEADER_LEN, Layer::Udp)?;
    let header = UdpHeader { src_port: be16(buf, 0), dst_port: be16(buf, 2), length: be16(buf, 4) };
    let declared = header.length as usize;
    if declared != 0 && declared < HEADER_LEN {
        return Err(ParseError::Malformed { layer: Layer::Udp, reason: "length below header size" });
    }
    let end = if declared == 0 {
        buf.len()
    } else if declared < buf.len() {
        declared
    } else {
        buf.len()
    };
    Ok((header, &buf[HEADER_LEN..end]))
}

} // verus!
