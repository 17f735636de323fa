//! ICMP: answers to echo requests.

use vstd::prelude::*;
use crate::bytes::{be16, push_be16, push_bytes};
use crate::net::eth::{frame, frame_of, Mac, IPV4};
use crate::net::ip::{build, checksum, checksum_of, header_of, ICMP, IP_HDR_LEN};
use crate::net::MAX_FRAME;

verus! {

pub const ICMP_ECHO_REQUEST: u8 = 8;

pub const ICMP_ECHO_REPLY: u8 = 0;

/// An echo reply with a given checksum field: the rest of the request.
pub open spec fn reply_with(pkt: Seq<u8>, csum: u16) -> Seq<u8> {
    seq![ICMP_ECHO_REPLY, 0] + be16(csum) + pkt.subrange(4, pkt.len() as int)
}

/// The echo reply to a request.
pub open spec fn echo_reply(pkt: Seq<u8>) -> Seq<u8> {
    reply_with(pkt, checksum_of(reply_with(pkt, 0)))
}

/// The packet is an echo request that fits in a frame.
pub open spec fn is_echo_request(pkt: Seq<u8>) -> bool {
    4 <= pkt.len() && pkt.len() + IP_HDR_LEN <= MAX_FRAME && pkt[0] == ICMP_ECHO_REQUEST
}

/// The frame that answers an echo request.
pub open spec fn echo_frame(
    our_mac: Seq<u8>,
    our_ip: u32,
    src_mac: Seq<u8>,
    src_ip: u32,
    pkt: Seq<u8>,
) -> Seq<u8> {
    frame_of(
        src_mac,
        our_mac,
        IPV4,
        header_of(ICMP, our_ip, src_ip, pkt.len() as u16, 1) + echo_reply(pkt),
    )
}

fn lay_out(pkt: &[u8], csum: u16) -> (v: Vec<u8>)
    requires
        pkt.len() >= 4,
    ensures
        v@ == reply_with(pkt@, csum),
{
    let mut v: Vec<u8> = Vec::new();
    v.push(ICMP_ECHO_REPLY);
    v.push(0);
    push_be16(&mut v, csum);
    push_bytes(&mut v, pkt, 4, pkt.len());
    assert(v@ =~= reply_with(pkt@, csum));
    v
}

/// Take in a packet that was sent to us: the frame to answer an echo request
/// with, `None` for anything else.
pub fn handle(our_mac: &Mac, our_ip: u32, src_mac: &Mac, src_ip: u32, pkt: &[u8]) -> (r: Option<
    Vec<u8>,
>)
    ensures
        if is_echo_request(pkt@) {
            r matches Some(f) && f@ == echo_frame(our_mac@, our_ip, src_mac@, src_ip, pkt@)
        } else {
            r is None
        },
{
    if pkt.len() < 4 || pkt[0] != ICMP_ECHO_REQUEST || pkt.len() > MAX_FRAME - IP_HDR_LEN {
        return None;
    }
    let blank: Vec<u8> = lay_out(pkt, 0);
    let csum: u16 = checksum(blank.as_slice());
    let reply: Vec<u8> = lay_out(pkt, csum);
    let mut inner: Vec<u8> = build(ICMP, our_ip, src_ip, pkt.len() as u16, 1);
    push_bytes(&mut inner, reply.as_slice(), 0, reply.len());
    assert(reply@.subrange(0, reply@.len() as int) =~= reply@);
    Some(frame(src_mac, our_mac, IPV4, inner.as_slice()))
}

} // verus!
