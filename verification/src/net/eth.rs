//! Ethernet II frames.

use vstd::prelude::*;
use vstd::slice::slice_subrange;
use crate::bytes::{be16, be16_at, copy_into, get_be16, lemma_be16_round, push_be16, splice};

verus! {

/// The type of a frame that carries IPv4.
pub const IPV4: u16 = 0x0800;

/// The type of a frame that carries ARP.
pub const ARP: u16 = 0x0806;

/// Bytes of the header.
pub const ETH_HDR_LEN: usize = 14;

/// A hardware address.
pub type Mac = [u8; 6];

/// The broadcast address.
pub open spec fn broadcast() -> Seq<u8> {
    seq![0xFFu8, 0xFF, 0xFF, 0xFF, 0xFF, 0xFF]
}

/// The broadcast address.
pub fn mac_broadcast() -> (m: Mac)
    ensures
        m@ == broadcast(),
{
    let m: Mac = [0xFF, 0xFF, 0xFF, 0xFF, 0xFF, 0xFF];
    assert(m@ =~= broadcast());
    m
}

/// A frame: the destination, the source, the type and the payload.
pub open spec fn frame_of(dst: Seq<u8>, src: Seq<u8>, ethertype: u16, payload: Seq<u8>) -> Seq<u8> {
    dst + src + be16(ethertype) + payload
}

/// Build a frame at the start of `buf`; the result is its length.
pub fn build(buf: &mut [u8], dst: &Mac, src: &Mac, ethertype: u16, payload: &[u8]) -> (n: usize)
    requires
        ETH_HDR_LEN + payload.len() <= old(buf).len(),
    ensures
        n == ETH_HDR_LEN + payload@.len(),
        final(buf)@ == splice(old(buf)@, 0, frame_of(dst@, src@, ethertype, payload@)),
{
    copy_into(buf, 0, dst.as_slice());
    copy_into(buf, 6, src.as_slice());
    buf[12] = (ethertype / 0x100) as u8;
    buf[13] = (ethertype % 0x100) as u8;
    copy_into(buf, ETH_HDR_LEN, payload);
    assert(buf@ =~= splice(old(buf)@, 0, frame_of(dst@, src@, ethertype, payload@)));
    ETH_HDR_LEN + payload.len()
}

/// A frame of its own.
pub fn frame(dst: &Mac, src: &Mac, ethertype: u16, payload: &[u8]) -> (v: Vec<u8>)
    requires
        ETH_HDR_LEN + payload.len() <= usize::MAX,
    ensures
        v@ == frame_of(dst@, src@, ethertype, payload@),
{
    let mut v: Vec<u8> = Vec::new();
    crate::bytes::push_bytes(&mut v, dst.as_slice(), 0, 6);
    crate::bytes::push_bytes(&mut v, src.as_slice(), 0, 6);
    push_be16(&mut v, ethertype);
    crate::bytes::push_bytes(&mut v, payload, 0, payload.len());
    assert(dst@.subrange(0, 6) =~= dst@);
    assert(src@.subrange(0, 6) =~= src@);
    assert(payload@.subrange(0, payload@.len() as int) =~= payload@);
    assert(v@ =~= frame_of(dst@, src@, ethertype, payload@));
    v
}

/// Six bytes of a packet.
pub(crate) fn mac_at(b: &[u8], o: usize) -> (m: Mac)
    requires
        o + 6 <= b.len(),
    ensures
        m@ == b@.subrange(o as int, o + 6),
{
    let m: Mac = [b[o], b[o + 1], b[o + 2], b[o + 3], b[o + 4], b[o + 5]];
    assert(m@ =~= b@.subrange(o as int, o + 6));
    m
}

/// The destination, the source, the type and the payload of a frame; `None`
/// where it is shorter than a header.
pub fn parse(frame: &[u8]) -> (r: Option<(Mac, Mac, u16, &[u8])>)
    ensures
        if frame@.len() < ETH_HDR_LEN {
            r is None
        } else {
            r matches Some((dst, src, etype, payload)) && dst@ == frame@.subrange(0, 6) && src@
                == frame@.subrange(6, 12) && etype == be16_at(frame@, 12) && payload@
                == frame@.subrange(14, frame@.len() as int)
        },
{
    if frame.len() < ETH_HDR_LEN {
        return None;
    }
    let dst: Mac = mac_at(frame, 0);
    let src: Mac = mac_at(frame, 6);
    let etype: u16 = get_be16(frame, 12);
    Some((dst, src, etype, slice_subrange(frame, ETH_HDR_LEN, frame.len())))
}

/// What is built is what is parsed.
pub proof fn law_frame_round_trip(dst: Seq<u8>, src: Seq<u8>, ethertype: u16, payload: Seq<u8>)
    requires
        dst.len() == 6,
        src.len() == 6,
    ensures
        ({
            let f = frame_of(dst, src, ethertype, payload);
            &&& f.len() == ETH_HDR_LEN + payload.len()
            &&& f.subrange(0, 6) == dst
            &&& f.subrange(6, 12) == src
            &&& be16_at(f, 12) == ethertype
            &&& f.subrange(14, f.len() as int) == payload
        }),
{
    let f = frame_of(dst, src, ethertype, payload);
    assert(f.subrange(0, 6) =~= dst);
    assert(f.subrange(6, 12) =~= src);
    assert(f.subrange(12, 14) =~= be16(ethertype));
    lemma_be16_round(f, 12, ethertype);
    assert(f.subrange(14, f.len() as int) =~= payload);
}

} // verus!
