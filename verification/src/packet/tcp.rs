use vstd::prelude::*;

use super::{be16, be16_spec, be32, be32_spec, need, truncated_spec};
use crate::error::{Layer, ParseError};

verus! {

pub const MIN_HEADER_LEN: usize = 20;

pub const FLAG_FIN: u8 = 0x01;
pub const FLAG_SYN: u8 = 0x02;
pub const FLAG_RST: u8 = 0x04;
pub const FLAG_PSH: u8 = 0x08;
pub const FLAG_ACK: u8 = 0x10;

/// The fields of a TCP header that the monitor reads.
#[derive(Debug, Clone, Copy, PartialEq, Eq, Structural)]
pub struct TcpHeader {
    pub src_port: u16,
    pub dst_port: u16,
    pub seq: u32,
    pub ack: u32,
    pub flags: u8,
    pub window: u16,
}

impl TcpHeader {
    pub open spec fn is_syn_only_spec(&self) -> bool {
        self.flags & (FLAG_SYN | FLAG_ACK) == FLAG_SYN
    }

    /// A connection attempt: SYN set and ACK clear.
    pub fn is_syn_only(&self) -> (b: bool)
        ensures
            b == self.is_syn_only_spec(),
    {
        self.flags & (FLAG_SYN | FLAG_ACK) == FLAG_SYN
    }
}

/// A segment is a connection attempt exactly when its SYN bit (0x02) is set
/// and its ACK bit (0x10) is clear; the other flags play no part.
pub proof fn lemma_syn_only_bits(h: TcpHeader)
    ensures
        h.is_syn_only_spec() <==> (h.flags & 0x02 != 0 && h.flags & 0x10 == 0),
{
    let f = h.flags;
    assert(FLAG_SYN | FLAG_ACK == 0x12u8) by (bit_vector);
    assert((f & 0x12u8 == 0x02u8) <==> (f & 0x02 != 0 && f & 0x10 == 0)) by (bit_vector);
}

/// The header length that the data-offset field gives.
pub open spec fn tcp_header_len_spec(buf: Seq<u8>) -> int {
    (buf[12] / 16) as int * 4
}

/// What a TCP segment decodes to: its header and the offset of its payload.
pub open spec fn tcp_spec(buf: Seq<u8>) -> Result<(TcpHeader, int), ParseError> {
    if buf.len() < MIN_HEADER_LEN {
        Err(truncated_spec(Layer::Tcp, MIN_HEADER_LEN as int, buf.len() as int))
    } else if tcp_header_len_spec(buf) < MIN_HEADER_LEN {
        Err(ParseError::Malformed { layer: Layer::Tcp, reason: "data offset below 5" })
    } else if buf.len() < tcp_header_len_spec(buf) {
        Err(truncated_spec(Layer::Tcp, tcp_header_len_spec(buf), buf.len() as int))
    } else {
        Ok((
            TcpHeader {
                src_port: be16_spec(buf, 0),
                dst_port: be16_spec(buf, 2),
                seq: be32_spec(buf, 4),
                ack: be32_spec(buf, 8),
                flags: buf[13],
                window: be16_spec(buf, 14),
            },
            tcp_header_len_spec(buf),
        ))
    }
}

/// Decodes a TCP header and returns it with the segment's payload.
pub fn parse(buf: &[u8]) -> (r: Result<(TcpHeader, &[u8]), ParseError>)
    ensures
        match tcp_spec(buf@) {
            Ok((h, off)) => r matches Ok((h2, rest)) && h2 == h && rest@ == buf@.subrange(
                off,
                buf@.len() as int,
            ),
            Err(e) => r matches Err(e2) && e2 == e,
        },
{
    need(buf, MIN_HEADER_LEN, Layer::Tcp)?;
    let header_len = (buf[12] / 16) as usize * 4;
    if header_len < MIN_HEADER_LEN {
        return Err(ParseError::Malformed { layer: Layer::Tcp, reason: "data offset below 5" });
    }
    need(buf, header_len, Layer::Tcp)?;
    let header = TcpHeader {
        src_port: be16(buf, 0),
        dst_port: be16(buf, 2),
        seq: be32(buf, 4),
        ack: be32(buf, 8),
        flags: buf[13],
        window: be16(buf, 14),
    };
    Ok((header, &buf[header_len..buf.len()]))
}

} // verus!
