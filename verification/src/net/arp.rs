//! ARP for IPv4 over Ethernet, with a cache of what was learned.

use vstd::prelude::*;
use crate::bytes::{
    be16, be16_at, be32, be32_at, get_be16, get_be32, lemma_be16_round, lemma_be32_round, push_be16,
    push_be32, push_bytes,
};
use crate::net::eth::{broadcast, frame, frame_of, mac_at, mac_broadcast, Mac, ARP};

verus! {

/// Bytes of a packet.
pub const ARP_LEN: usize = 28;

pub const HW_ETHER: u16 = 1;

pub const PTYPE_IP: u16 = 0x0800;

/// The operation of a request.
pub const OP_REQ: u16 = 1;

/// The operation of a reply.
pub const OP_REPLY: u16 = 2;

/// Entries of the cache.
pub const CACHE_SIZE: usize = 32;

// ── Cache ────────────────────────────────────────────────────────────────────

/// An address pair that was learned.
#[derive(Clone, Copy, Debug, PartialEq, Eq)]
pub struct Entry {
    pub ip: u32,
    pub mac: Mac,
}

pub struct ArpCache {
    slots: Vec<Option<Entry>>,
}

impl View for ArpCache {
    type V = Seq<Option<Entry>>;

    closed spec fn view(&self) -> Seq<Option<Entry>> {
        self.slots@
    }
}

/// The first slot from `k` on that holds an address, or the length.
pub open spec fn slot_of(c: Seq<Option<Entry>>, ip: u32, k: int) -> int
    decreases c.len() - k,
{
    if k >= c.len() {
        c.len() as int
    } else if c[k] is Some && c[k]->0.ip == ip {
        k
    } else {
        slot_of(c, ip, k + 1)
    }
}

/// The first empty slot from `k` on, or the length.
pub open spec fn empty_slot(c: Seq<Option<Entry>>, k: int) -> int
    decreases c.len() - k,
{
    if k >= c.len() {
        c.len() as int
    } else if c[k] is None {
        k
    } else {
        empty_slot(c, k + 1)
    }
}

/// What a cache knows of an address.
pub open spec fn known(c: Seq<Option<Entry>>, ip: u32) -> Option<Mac> {
    let i = slot_of(c, ip, 0);
    if i < c.len() {
        Some(c[i]->0.mac)
    } else {
        None
    }
}

/// No address stands in two slots.
pub open spec fn distinct(c: Seq<Option<Entry>>) -> bool {
    forall|i: int, j: int|
        0 <= i < j < c.len() && (#[trigger] c[i]) is Some && (#[trigger] c[j]) is Some
            ==> c[i]->0.ip != c[j]->0.ip
}

/// The cache with an address pair: in the slot of the address, else in the first
/// empty one, else in the first.
pub open spec fn learned(c: Seq<Option<Entry>>, e: Entry) -> Seq<Option<Entry>> {
    let i = slot_of(c, e.ip, 0);
    let j = empty_slot(c, 0);
    if i < c.len() {
        c.update(i, Some(e))
    } else if j < c.len() {
        c.update(j, Some(e))
    } else {
        c.update(0, Some(e))
    }
}

impl ArpCache {
    /// The cache has all its slots, and no address stands in two.
    pub closed spec fn wf(&self) -> bool {
        &&& self.slots@.len() == CACHE_SIZE
        &&& distinct(self.slots@)
    }

    /// The cache has all its slots, and no address stands in two.
    pub proof fn lemma_len(&self)
        requires
            self.wf(),
        ensures
            self@.len() == CACHE_SIZE,
            distinct(self@),
    {
    }

    pub fn new() -> (c: ArpCache)
        ensures
            c.wf(),
            forall|i: int| 0 <= i < CACHE_SIZE ==> (#[trigger] c@[i]) is None,
    {
        let mut slots: Vec<Option<Entry>> = Vec::new();
        let mut i: usize = 0;
        while i < CACHE_SIZE
            invariant
                i <= CACHE_SIZE,
                slots@.len() == i,
                forall|j: int| 0 <= j < i ==> (#[trigger] slots@[j]) is None,
            decreases CACHE_SIZE - i,
        {
            slots.push(None);
            i += 1;
        }
        ArpCache { slots }
    }

    fn find(&self, ip: u32) -> (r: Option<usize>)
        requires
            self.wf(),
        ensures
            match r {
                Some(i) => i < CACHE_SIZE && i == slot_of(self@, ip, 0) && self@[i as int] is Some,
                None => slot_of(self@, ip, 0) == CACHE_SIZE,
            },
    {
        let mut k: usize = 0;
        while k < CACHE_SIZE
            invariant
                self.wf(),
                k <= CACHE_SIZE,
                slot_of(self@, ip, 0) == slot_of(self@, ip, k as int),
            decreases CACHE_SIZE - k,
        {
            if let Some(e) = self.slots[k] {
                if e.ip == ip {
                    return Some(k);
                }
            }
            k += 1;
        }
        None
    }

    /// The hardware address of an address, where it was learned.
    pub fn lookup(&self, ip: u32) -> (r: Option<Mac>)
        requires
            self.wf(),
        ensures
            r == known(self@, ip),
    {
        match self.find(ip) {
            Some(i) => match self.slots[i] {
                Some(e) => Some(e.mac),
                None => None,
            },
            None => None,
        }
    }

    /// Learn an address pair.
    pub fn insert(&mut self, ip: u32, mac: Mac)
        requires
            old(self).wf(),
        ensures
            final(self).wf(),
            final(self)@ == learned(old(self)@, Entry { ip, mac }),
    {
        let e = Entry { ip, mac };
        proof {
            law_learned_is_found(self@, e, ip);
        }
        match self.find(ip) {
            Some(i) => {
                self.slots.set(i, Some(e));
            },
            None => {
                let mut k: usize = 0;
                while k < CACHE_SIZE && self.slots[k].is_some()
                    invariant
                        self.wf(),
                        *self == *old(self),
                        k <= CACHE_SIZE,
                        empty_slot(self@, 0) == empty_slot(self@, k as int),
                    decreases CACHE_SIZE - k,
                {
                    k += 1;
                }
                if k < CACHE_SIZE {
                    self.slots.set(k, Some(e));
                } else {
                    self.slots.set(0, Some(e));
                }
            },
        }
    }
}

/// The address that is forgotten for a new one: where the address is new and all
/// slots are taken, the one in the first slot.
pub open spec fn forgotten(c: Seq<Option<Entry>>, ip: u32) -> Option<u32> {
    if slot_of(c, ip, 0) < c.len() || empty_slot(c, 0) < c.len() {
        None
    } else {
        Some(c[0]->0.ip)
    }
}

/// What was just learned is found. What was known of every other address is
/// still known, but for the one that a full cache forgets. No address comes to
/// stand in two slots.
pub proof fn law_learned_is_found(c: Seq<Option<Entry>>, e: Entry, other: u32)
    requires
        c.len() == CACHE_SIZE,
        distinct(c),
    ensures
        known(learned(c, e), e.ip) == Some(e.mac),
        other != e.ip ==> known(learned(c, e), other) == if forgotten(c, e.ip) == Some(other) {
            None
        } else {
            known(c, other)
        },
        distinct(learned(c, e)),
{
    let after = learned(c, e);
    lemma_slot(c, e.ip, 0);
    lemma_slot(c, other, 0);
    lemma_empty(c, 0);
    let at = if slot_of(c, e.ip, 0) < c.len() {
        slot_of(c, e.ip, 0)
    } else if empty_slot(c, 0) < c.len() {
        empty_slot(c, 0)
    } else {
        0
    };
    assert(after == c.update(at, Some(e)));
    lemma_slot(after, e.ip, 0);
    lemma_slot(after, other, 0);
    let i = slot_of(after, e.ip, 0);
    assert(i <= at) by {
        if i > at {
            assert(after[at] == Some(e));
        }
    }
    if i < at {
        assert(after[i] == c[i]);
    }
    if other != e.ip {
        let a = slot_of(c, other, 0);
        let b = slot_of(after, other, 0);
        if forgotten(c, e.ip) == Some(other) {
            if b < c.len() {
                assert(b != 0);
                assert(after[b] == c[b]);
                assert(c[0] is Some);
            }
        } else if a < c.len() {
            assert(a != at);
            assert(after[a] == c[a]);
            if b < a {
                assert(b == at || after[b] == c[b]);
            }
        } else if b < c.len() {
            assert(b == at || after[b] == c[b]);
        }
    }
}

proof fn lemma_slot(c: Seq<Option<Entry>>, ip: u32, k: int)
    requires
        0 <= k <= c.len(),
    ensures
        k <= slot_of(c, ip, k) <= c.len(),
        slot_of(c, ip, k) < c.len() ==> c[slot_of(c, ip, k)] is Some && c[slot_of(c, ip, k)]->0.ip
            == ip,
        forall|j: int|
            k <= j < slot_of(c, ip, k) ==> !((#[trigger] c[j]) is Some && c[j]->0.ip == ip),
    decreases c.len() - k,
{
    if k < c.len() && !(c[k] is Some && c[k]->0.ip == ip) {
        lemma_slot(c, ip, k + 1);
    }
}

proof fn lemma_empty(c: Seq<Option<Entry>>, k: int)
    requires
        0 <= k <= c.len(),
    ensures
        k <= empty_slot(c, k) <= c.len(),
        empty_slot(c, k) < c.len() ==> c[empty_slot(c, k)] is None,
        forall|j: int| k <= j < empty_slot(c, k) ==> (#[trigger] c[j]) is Some,
    decreases c.len() - k,
{
    if k < c.len() && c[k] is Some {
        lemma_empty(c, k + 1);
    }
}

// ── Packets ──────────────────────────────────────────────────────────────────

/// A packet: hardware and protocol types and lengths, the operation, and both
/// address pairs.
pub open spec fn packet_of(op: u16, smac: Seq<u8>, sip: u32, tmac: Seq<u8>, tip: u32) -> Seq<u8> {
    be16(HW_ETHER) + be16(PTYPE_IP) + seq![6u8, 4] + be16(op) + smac + be32(sip) + tmac + be32(tip)
}

/// Build a packet.
pub fn build(op: u16, smac: &Mac, sip: u32, tmac: &Mac, tip: u32) -> (v: Vec<u8>)
    ensures
        v@ == packet_of(op, smac@, sip, tmac@, tip),
        v@.len() == ARP_LEN,
{
    let mut v: Vec<u8> = Vec::new();
    push_be16(&mut v, HW_ETHER);
    push_be16(&mut v, PTYPE_IP);
    v.push(6);
    v.push(4);
    push_be16(&mut v, op);
    push_bytes(&mut v, smac.as_slice(), 0, 6);
    push_be32(&mut v, sip);
    push_bytes(&mut v, tmac.as_slice(), 0, 6);
    push_be32(&mut v, tip);
    assert(smac@.subrange(0, 6) =~= smac@);
    assert(tmac@.subrange(0, 6) =~= tmac@);
    assert(v@ =~= packet_of(op, smac@, sip, tmac@, tip));
    v
}

/// The operation and both address pairs of a packet; `None` where it is too
/// short.
pub fn parse(pkt: &[u8]) -> (r: Option<(u16, Mac, u32, Mac, u32)>)
    ensures
        if pkt@.len() < ARP_LEN {
            r is None
        } else {
            r matches Some((op, smac, sip, tmac, tip)) && op == be16_at(pkt@, 6) && smac@
                == pkt@.subrange(8, 14) && sip == be32_at(pkt@, 14) && tmac@ == pkt@.subrange(18, 24)
                && tip == be32_at(pkt@, 24)
        },
{
    if pkt.len() < ARP_LEN {
        return None;
    }
    Some((get_be16(pkt, 6), mac_at(pkt, 8), get_be32(pkt, 14), mac_at(pkt, 18), get_be32(pkt, 24)))
}

/// What is built is what is parsed.
pub proof fn law_packet_round_trip(op: u16, smac: Seq<u8>, sip: u32, tmac: Seq<u8>, tip: u32)
    requires
        smac.len() == 6,
        tmac.len() == 6,
    ensures
        ({
            let p = packet_of(op, smac, sip, tmac, tip);
            &&& p.len() == ARP_LEN
            &&& be16_at(p, 6) == op
            &&& p.subrange(8, 14) == smac
            &&& be32_at(p, 14) == sip
            &&& p.subrange(18, 24) == tmac
            &&& be32_at(p, 24) == tip
        }),
{
    let p = packet_of(op, smac, sip, tmac, tip);
    assert(p.subrange(6, 8) =~= be16(op));
    lemma_be16_round(p, 6, op);
    assert(p.subrange(8, 14) =~= smac);
    assert(p.subrange(14, 18) =~= be32(sip));
    lemma_be32_round(p, 14, sip);
    assert(p.subrange(18, 24) =~= tmac);
    assert(p.subrange(24, 28) =~= be32(tip));
    lemma_be32_round(p, 24, tip);
}

/// The frame that asks everyone for an address.
pub open spec fn request_of(our_mac: Seq<u8>, our_ip: u32, target_ip: u32) -> Seq<u8> {
    frame_of(
        broadcast(),
        our_mac,
        ARP,
        packet_of(OP_REQ, our_mac, our_ip, seq![0u8, 0, 0, 0, 0, 0], target_ip),
    )
}

/// The frame to send to ask for an address.
pub fn send_request(our_mac: &Mac, our_ip: u32, target_ip: u32) -> (f: Vec<u8>)
    ensures
        f@ == request_of(our_mac@, our_ip, target_ip),
{
    let none: Mac = [0, 0, 0, 0, 0, 0];
    assert(none@ =~= seq![0u8, 0, 0, 0, 0, 0]);
    let arp: Vec<u8> = build(OP_REQ, our_mac, our_ip, &none, target_ip);
    frame(&mac_broadcast(), our_mac, ARP, arp.as_slice())
}

/// The frame that answers a request.
pub open spec fn reply_of(our_mac: Seq<u8>, our_ip: u32, req_mac: Seq<u8>, req_ip: u32) -> Seq<u8> {
    frame_of(req_mac, our_mac, ARP, packet_of(OP_REPLY, our_mac, our_ip, req_mac, req_ip))
}

/// The frame to send to answer a request.
pub fn send_reply(our_mac: &Mac, our_ip: u32, req_mac: &Mac, req_ip: u32) -> (f: Vec<u8>)
    ensures
        f@ == reply_of(our_mac@, our_ip, req_mac@, req_ip),
{
    let arp: Vec<u8> = build(OP_REPLY, our_mac, our_ip, req_mac, req_ip);
    frame(req_mac, our_mac, ARP, arp.as_slice())
}

/// Take in a packet: the sender is learned, and a request for our address is
/// answered with the frame that comes back.
pub fn handle(cache: &mut ArpCache, our_mac: &Mac, our_ip: u32, pkt: &[u8]) -> (r: Option<Vec<u8>>)
    requires
        old(cache).wf(),
    ensures
        final(cache).wf(),
        if pkt@.len() < ARP_LEN {
            r is None && final(cache)@ == old(cache)@
        } else {
            let sip = be32_at(pkt@, 14);
            &&& exists|smac: Mac|
                #![trigger smac@]
                smac@ == pkt@.subrange(8, 14) && final(cache)@ == learned(
                    old(cache)@,
                    Entry { ip: sip, mac: smac },
                )
            &&& if be16_at(pkt@, 6) == OP_REQ && be32_at(pkt@, 24) == our_ip {
                r matches Some(f) && f@ == reply_of(our_mac@, our_ip, pkt@.subrange(8, 14), sip)
            } else {
                r is None
            }
        },
{
    let (op, smac, sip, _tmac, tip): (u16, Mac, u32, Mac, u32) = match parse(pkt) {
        Some(v) => v,
        None => {
            return None;
        },
    };
    cache.insert(sip, smac);
    assert(smac@ == pkt@.subrange(8, 14));
    if op == OP_REQ && tip == our_ip {
        Some(send_reply(our_mac, our_ip, &smac, sip))
    } else {
        None
    }
}

} // verus!
