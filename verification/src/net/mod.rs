//! The network stack.

use vstd::prelude::*;
use crate::bytes::{be16_at, be32_at};
use crate::net::arp::{learned, reply_of, ArpCache, Entry, ARP_LEN, CACHE_SIZE, OP_REQ};
use crate::net::eth::{broadcast, mac_broadcast, Mac, ARP, ETH_HDR_LEN, IPV4};
use crate::net::icmp::{echo_frame, is_echo_request};
use crate::net::ip::{header_len, packet_ok, ICMP, UDP};
use crate::net::udp::{delivered, DatagramView, SocketTable, TableView, UDP_HDR_LEN};
use crate::task::TaskId;
use crate::text::same_bytes;

pub mod arp;
pub mod eth;
pub mod icmp;
pub mod ip;
pub mod laws;
pub mod udp;

verus! {

/// Our address, 10.0.2.15.
pub const OUR_IP: u32 = 0x0A00_020F;

/// The most that a frame carries.
pub const MAX_FRAME: usize = 1514;

/// What the stack keeps: its hardware address, what it learned of others, and
/// the sockets.
pub struct NetState {
    pub mac: Mac,
    pub cache: ArpCache,
    pub sockets: SocketTable,
}

/// What a frame leads to: a frame to send, and a task to wake.
pub struct Outcome {
    pub send: Option<Vec<u8>>,
    pub wake: Option<TaskId>,
}

/// The payload of a frame.
pub open spec fn payload_of(f: Seq<u8>) -> Seq<u8> {
    f.subrange(14, f.len() as int)
}

/// The payload of an IP packet.
pub open spec fn ip_payload(p: Seq<u8>) -> Seq<u8> {
    p.subrange(header_len(p), be16_at(p, 2) as int)
}

/// A frame that is for us, by its hardware address.
pub open spec fn for_us(mac: Seq<u8>, f: Seq<u8>) -> bool {
    f.len() >= ETH_HDR_LEN && (f.subrange(0, 6) == mac || f.subrange(0, 6) == broadcast())
}

/// A frame that carries an ARP packet for us.
pub open spec fn carries_arp(mac: Seq<u8>, f: Seq<u8>) -> bool {
    for_us(mac, f) && be16_at(f, 12) == ARP && payload_of(f).len() >= ARP_LEN
}

/// A frame that carries an IP packet for us, by its hardware address.
pub open spec fn carries_ip(mac: Seq<u8>, f: Seq<u8>) -> bool {
    for_us(mac, f) && be16_at(f, 12) == IPV4 && packet_ok(payload_of(f))
}

/// The address pair that a frame teaches: its sender's.
pub open spec fn taught(mac: Seq<u8>, f: Seq<u8>) -> Option<(u32, Seq<u8>)> {
    let p = payload_of(f);
    if carries_arp(mac, f) {
        Some((be32_at(p, 14), p.subrange(8, 14)))
    } else if carries_ip(mac, f) {
        Some((be32_at(p, 12), f.subrange(6, 12)))
    } else {
        None
    }
}

/// A frame that carries an IP packet for our address.
pub open spec fn is_ours(mac: Seq<u8>, f: Seq<u8>, proto: u8) -> bool {
    carries_ip(mac, f) && be32_at(payload_of(f), 16) == OUR_IP && payload_of(f)[9] == proto
}

/// The frame that answers a frame.
pub open spec fn answer_to(mac: Seq<u8>, f: Seq<u8>) -> Option<Seq<u8>> {
    let p = payload_of(f);
    if carries_arp(mac, f) {
        if be16_at(p, 6) == OP_REQ && be32_at(p, 24) == OUR_IP {
            Some(reply_of(mac, OUR_IP, p.subrange(8, 14), be32_at(p, 14)))
        } else {
            None
        }
    } else if is_ours(mac, f, ICMP) && is_echo_request(ip_payload(p)) {
        Some(echo_frame(mac, OUR_IP, f.subrange(6, 12), be32_at(p, 12), ip_payload(p)))
    } else {
        None
    }
}

/// The sockets after a frame, and the task to wake.
pub open spec fn after_frame(mac: Seq<u8>, f: Seq<u8>, t: TableView) -> (TableView, Option<TaskId>) {
    let p = payload_of(f);
    let u = ip_payload(p);
    if is_ours(mac, f, UDP) && UDP_HDR_LEN <= u.len() && UDP_HDR_LEN <= be16_at(u, 4) <= u.len() {
        let d = DatagramView {
            src_ip: be32_at(p, 12),
            src_port: be16_at(u, 0),
            data: u.subrange(UDP_HDR_LEN as int, be16_at(u, 4) as int),
        };
        let (socks, waiter) = delivered(t.socks, be16_at(u, 2), d);
        (TableView { socks, ..t }, waiter)
    } else {
        (t, None)
    }
}

/// The cache has learned what a frame teaches.
pub open spec fn cache_learned(
    before: Seq<Option<Entry>>,
    after: Seq<Option<Entry>>,
    pair: Option<(u32, Seq<u8>)>,
) -> bool {
    match pair {
        None => after == before,
        Some((ip, mac)) => exists|m: Mac|
            #![trigger m@]
            m@ == mac && after == learned(before, Entry { ip, mac: m }),
    }
}

/// The stack with a hardware address, before anything was received.
pub fn init(mac: Mac) -> (n: NetState)
    ensures
        n.mac == mac,
        n.cache.wf(),
        n.cache@.len() == CACHE_SIZE,
        forall|i: int| 0 <= i < CACHE_SIZE ==> (#[trigger] n.cache@[i]) is None,
        n.sockets@ == (TableView { socks: seq![], next_id: 3 }),
{
    let n = NetState { mac, cache: ArpCache::new(), sockets: SocketTable::new() };
    proof {
        n.cache.lemma_len();
        assert(n.sockets@.socks =~= seq![]);
    }
    n
}

/// Our hardware address.
pub fn our_mac(n: &NetState) -> (m: Mac)
    ensures
        m == n.mac,
{
    n.mac
}

/// Take in a frame: learn its sender, and answer or deliver it where it is for
/// us.
pub fn process_frame(n: &mut NetState, frame: &[u8]) -> (o: Outcome)
    requires
        old(n).cache.wf(),
    ensures
        final(n).cache.wf(),
        final(n).mac == old(n).mac,
        cache_learned(old(n).cache@, final(n).cache@, taught(old(n).mac@, frame@)),
        match answer_to(old(n).mac@, frame@) {
            Some(f) => o.send matches Some(v) && v@ == f,
            None => o.send is None,
        },
        (final(n).sockets@, o.wake) == after_frame(old(n).mac@, frame@, old(n).sockets@),
{
    let (dst, src, etype, payload): (Mac, Mac, u16, &[u8]) = match eth::parse(frame) {
        Some(v) => v,
        None => {
            return Outcome { send: None, wake: None };
        },
    };
    let ours: Mac = n.mac;
    if !same_bytes(dst.as_slice(), ours.as_slice()) && !same_bytes(
        dst.as_slice(),
        mac_broadcast().as_slice(),
    ) {
        return Outcome { send: None, wake: None };
    }
    assert(payload@ == payload_of(frame@));
    if etype == ARP {
        let send: Option<Vec<u8>> = arp::handle(&mut n.cache, &ours, OUR_IP, payload);
        return Outcome { send, wake: None };
    }
    if etype == IPV4 {
        let (src_ip, dst_ip, proto, inner): (u32, u32, u8, &[u8]) = match ip::parse(payload) {
            Some(v) => v,
            None => {
                return Outcome { send: None, wake: None };
            },
        };
        n.cache.insert(src_ip, src);
        assert(src@ == frame@.subrange(6, 12));
        if dst_ip != OUR_IP {
            return Outcome { send: None, wake: None };
        }
        if proto == ICMP {
            let send: Option<Vec<u8>> = icmp::handle(&ours, OUR_IP, &src, src_ip, inner);
            return Outcome { send, wake: None };
        }
        if proto == UDP {
            let wake: Option<TaskId> = n.sockets.handle(src_ip, inner);
            return Outcome { send: None, wake };
        }
    }
    Outcome { send: None, wake: None }
}

/// A frame that is neither for us nor for everyone changes nothing and is not
/// answered.
pub proof fn law_other_frames_are_ignored(mac: Seq<u8>, f: Seq<u8>, t: TableView)
    requires
        !for_us(mac, f),
    ensures
        taught(mac, f) is None,
        answer_to(mac, f) is None,
        after_frame(mac, f, t) == (t, None::<TaskId>),
{
}

} // verus!
