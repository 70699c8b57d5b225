use vstd::prelude::*;

use super::{be16, be16_spec, need, truncated_spec};
use crate::error::{Layer, ParseError};

verus! {

pub const ETHERTYPE_IPV4: u16 = 0x0800;
pub const ETHERTYPE_IPV6: u16 = 0x86DD;
pub const ETHERTYPE_ARP: u16 = 0x0806;
pub const ETHERTYPE_VLAN: u16 = 0x8100;
pub const ETHERTYPE_QINQ: u16 = 0x88A8;

pub const HEADER_LEN: usize = 14;
pub const VLAN_TAG_LEN: usize = 4;
pub const MAX_VLAN_TAGS: u8 = 2;
pub const MAC_LEN: usize = 6;

/// An Ethernet II header, with the 802.1Q / 802.1ad tags in front of the
/// payload's ethertype counted in `vlan_tags`.
#[derive(Debug, Clone, Copy, PartialEq, Eq)]
pub struct EthernetHeader {
    pub dst: [u8; 6],
    pub src: [u8; 6],
    pub ethertype: u16,
    pub vlan_tags: u8,
}

pub open spec fn is_vlan_ethertype(t: u16) -> bool {
    t == ETHERTYPE_VLAN || t == ETHERTYPE_QINQ
}

/// Skips VLAN tags: from the ethertype `ethertype` read at `offset - 2`,
/// with `tags` tags skipped so far, gives the payload's ethertype, the
/// payload's offset and the number of tags.
pub open spec fn vlan_walk(buf: Seq<u8>, ethertype: u16, offset: int, tags: int) -> Result<
    (u16, int, int),
    ParseError,
>
    decreases MAX_VLAN_TAGS - tags,
{
    if !is_vlan_ethertype(ethertype) {
        Ok((ethertype, offset, tags))
    } else if tags >= MAX_VLAN_TAGS {
        Err(ParseError::Malformed { layer: Layer::Link, reason: "too many vlan tags" })
    } else if buf.len() < offset + VLAN_TAG_LEN {
        Err(truncated_spec(Layer::Link, offset + VLAN_TAG_LEN, buf.len() as int))
    } else {
        vlan_walk(buf, be16_spec(buf, offset + 2), offset + VLAN_TAG_LEN, tags + 1)
    }
}

/// What an Ethernet frame decodes to: the payload's ethertype, where the
/// payload starts, and how many VLAN tags stood before it.
pub open spec fn ethernet_spec(buf: Seq<u8>) -> Result<(u16, int, int), ParseError> {
    if buf.len() < HEADER_LEN {
        Err(truncated_spec(Layer::Link, HEADER_LEN as int, buf.len() as int))
    } else {
        vlan_walk(buf, be16_spec(buf, 12), HEADER_LEN as int, 0)
    }
}

proof fn lemma_vlan_walk_bounds(buf: Seq<u8>, ethertype: u16, offset: int, tags: int)
    requires
        0 <= tags <= MAX_VLAN_TAGS,
        offset == HEADER_LEN + VLAN_TAG_LEN * tags,
        offset <= buf.len(),
    ensures
        vlan_walk(buf, ethertype, offset, tags) matches Ok((t, off, n)) ==> {
            &&& 0 <= n <= MAX_VLAN_TAGS
            &&& off == HEADER_LEN + VLAN_TAG_LEN * n
            &&& off <= buf.len()
        },
    decreases MAX_VLAN_TAGS - tags,
{
    if is_vlan_ethertype(ethertype) && tags < MAX_VLAN_TAGS && buf.len() >= offset + VLAN_TAG_LEN {
        lemma_vlan_walk_bounds(buf, be16_spec(buf, offset + 2), offset + VLAN_TAG_LEN, tags + 1);
    }
}

/// Where an Ethernet frame's payload starts lies within the frame.
pub proof fn lemma_ethernet_bounds(buf: Seq<u8>)
    ensures
        ethernet_spec(buf) matches Ok((_, off, _)) ==> HEADER_LEN <= off <= buf.len(),
{
    if buf.len() >= HEADER_LEN {
        lemma_vlan_walk_bounds(buf, be16_spec(buf, 12), HEADER_LEN as int, 0);
    }
}

/// The two bytes of `buf` at `at`, most significant first, are a VLAN tag's
/// type (81 00 or 88 A8).
pub open spec fn tag_type_at(buf: Seq<u8>, at: int) -> bool {
    (buf[at] == 0x81 && buf[at + 1] == 0x00) || (buf[at] == 0x88 && buf[at + 1] == 0xA8)
}

/// An untagged frame (bytes 12-13 no VLAN tag type) has the ethertype of
/// bytes 12-13 and its payload at byte 14. A frame with one tag has the
/// ethertype of bytes 16-17 and its payload at byte 18, and one with two
/// tags (QinQ) the ethertype of bytes 20-21 and its payload at byte 22. A
/// frame with a third tag is refused.
pub proof fn lemma_vlan_tags(buf: Seq<u8>)
    ensures
        buf.len() >= 14 && !tag_type_at(buf, 12) ==> ethernet_spec(buf) == Ok::<(u16, int, int), ParseError>(
            ((buf[12] as int * 256 + buf[13] as int) as u16, 14, 0),
        ),
        buf.len() >= 18 && tag_type_at(buf, 12) && !tag_type_at(buf, 16) ==> ethernet_spec(buf) == Ok::<
            (u16, int, int),
            ParseError,
        >(((buf[16] as int * 256 + buf[17] as int) as u16, 18, 1)),
        buf.len() >= 22 && tag_type_at(buf, 12) && tag_type_at(buf, 16) && !tag_type_at(buf, 20)
            ==> ethernet_spec(buf) == Ok::<(u16, int, int), ParseError>(
            ((buf[20] as int * 256 + buf[21] as int) as u16, 22, 2),
        ),
        buf.len() >= 22 && tag_type_at(buf, 12) && tag_type_at(buf, 16) && tag_type_at(buf, 20)
            ==> ethernet_spec(buf) is Err,
{
    if buf.len() >= 14 {
        let t0 = be16_spec(buf, 12);
        assert(is_vlan_ethertype(t0) <==> tag_type_at(buf, 12));
        if buf.len() >= 18 && tag_type_at(buf, 12) {
            let t1 = be16_spec(buf, 16);
            assert(is_vlan_ethertype(t1) <==> tag_type_at(buf, 16));
            assert(vlan_walk(buf, t0, 14, 0) == vlan_walk(buf, t1, 18, 1));
            if buf.len() >= 22 && tag_type_at(buf, 16) {
                let t2 = be16_spec(buf, 20);
                assert(is_vlan_ethertype(t2) <==> tag_type_at(buf, 20));
                assert(vlan_walk(buf, t1, 18, 1) == vlan_walk(buf, t2, 22, 2));
            }
        }
    }
}

/// Decodes an Ethernet header and returns it with the payload that follows
/// it (after any VLAN tags, at most two).
pub fn parse(buf: &[u8]) -> (r: Result<(EthernetHeader, &[u8]), ParseError>)
    ensures
        match ethernet_spec(buf@) {
            Ok((t, off, n)) => r matches Ok((h, rest)) && {
                &&& h.ethertype == t
                &&& h.vlan_tags == n
                &&& h.dst@ == buf@.subrange(0, 6)
                &&& h.src@ == buf@.subrange(6, 12)
                &&& rest@ == buf@.subrange(off, buf@.len() as int)
            },
            Err(e) => r matches Err(e2) && e2 == e,
        },
{
    need(buf, HEADER_LEN, Layer::Link)?;
    let dst: [u8; 6] = [buf[0], buf[1], buf[2], buf[3], buf[4], buf[5]];
    let src: [u8; 6] = [buf[6], buf[7], buf[8], buf[9], buf[10], buf[11]];
    assert(dst@ =~= buf@.subrange(0, 6));
    assert(src@ =~= buf@.subrange(6, 12));

    let mut ethertype = be16(buf, 12);
    let mut offset = HEADER_LEN;
    let mut vlan_tags = 0u8;
    proof {
        lemma_vlan_walk_bounds(buf@, ethertype, offset as int, 0);
    }
    while ethertype == ETHERTYPE_VLAN || ethertype == ETHERTYPE_QINQ
        invariant
            buf@.len() >= HEADER_LEN,
            0 <= vlan_tags <= MAX_VLAN_TAGS,
            offset == HEADER_LEN + VLAN_TAG_LEN * vlan_tags,
            offset <= buf@.len(),
            vlan_walk(buf@, ethertype, offset as int, vlan_tags as int) == ethernet_spec(buf@),
        decreases MAX_VLAN_TAGS - vlan_tags,
    {
        if vlan_tags == MAX_VLAN_TAGS {
            return Err(ParseError::Malformed { layer: Layer::Link, reason: "too many vlan tags" });
        }
        need(buf, offset + VLAN_TAG_LEN, Layer::Link)?;
        ethertype = be16(buf, offset + 2);
        offset += VLAN_TAG_LEN;
        vlan_tags += 1;
    }
    proof {
        lemma_vlan_walk_bounds(buf@, be16_spec(buf@, 12), HEADER_LEN as int, 0);
    }
    let header = EthernetHeader { dst, src, ethertype, vlan_tags };
    Ok((header, &buf[offset..buf.len()]))
}

} // verus!
