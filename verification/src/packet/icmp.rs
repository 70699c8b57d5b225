use vstd::prelude::*;

use super::{need, short_spec};
use crate::error::{Layer, ParseError};

verus! {

pub const HEADER_LEN: usize = 4;

#[derive(Debug, Clone, Copy, PartialEq, Eq, Structural)]
pub struct IcmpHeader {
    pub icmp_type: u8,
    pub code: u8,
    pub v6: bool,
}

pub open spec fn message_header_spec(buf: Seq<u8>, v6: bool) -> Result<IcmpHeader, ParseError> {
    if buf.len() < HEADER_LEN {
        Err(short_spec(Layer::Icmp, HEADER_LEN, buf))
    } else {
        Ok(IcmpHeader { icmp_type: buf[0], code: buf[1], v6 })
    }
}

/// Decodes the type and code of an ICMP or ICMPv6 message.
pub fn parse(buf: &[u8], v6: bool) -> (r: Result<IcmpHeader, ParseError>)
    ensures
        r == message_header_spec(buf@, v6),
{
    need(buf, HEADER_LEN, Layer::Icmp)?;
    Ok(IcmpHeader { icmp_type: buf[0], code: buf[1], v6 })
}

} // verus!
