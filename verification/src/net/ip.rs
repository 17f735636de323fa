//! IPv4 headers and the Internet checksum.

use vstd::prelude::*;
use vstd::slice::slice_subrange;
use crate::bytes::{
    be16, be16_at, be32, be32_at, get_be16, get_be32, lemma_be16_round, lemma_be32_round, push_be16,
    push_be32,
};

verus! {

/// Bytes of a header without options.
pub const IP_HDR_LEN: usize = 20;

pub const ICMP: u8 = 1;

pub const TCP: u8 = 6;

pub const UDP: u8 = 17;

// ── Checksum ─────────────────────────────────────────────────────────────────

/// The sum of the big-endian words from `i` on; an odd byte at the end is the
/// high half of a word.
pub open spec fn word_sum(data: Seq<u8>, i: int) -> nat
    decreases data.len() - i,
{
    if i < 0 || i >= data.len() {
        0
    } else if i + 1 == data.len() {
        (0x100 * data[i]) as nat
    } else {
        be16_at(data, i) as nat + word_sum(data, i + 2)
    }
}

/// A sum with its carries folded back in.
pub open spec fn folded(s: nat) -> nat
    decreases s,
{
    if s < 0x1_0000 {
        s
    } else {
        folded((s % 0x1_0000 + s / 0x1_0000) as nat)
    }
}

/// The Internet checksum: the complement of the ones' complement sum.
pub open spec fn checksum_of(data: Seq<u8>) -> u16 {
    (0xFFFF - folded(word_sum(data, 0))) as u16
}

proof fn lemma_word_sum_bound(data: Seq<u8>, i: int)
    requires
        0 <= i,
    ensures
        word_sum(data, i) <= if i < data.len() {
            (data.len() - i) * 0x1_0000
        } else {
            0
        },
    decreases data.len() - i,
{
    if i < data.len() && i + 1 != data.len() {
        lemma_word_sum_bound(data, i + 2);
    }
}

pub(crate) proof fn lemma_folded(s: nat)
    ensures
        folded(s) < 0x1_0000,
        folded(s) % 0xFFFF == s % 0xFFFF,
        s > 0 ==> folded(s) > 0,
        s == 0 ==> folded(s) == 0,
    decreases s,
{
    if s >= 0x1_0000 {
        let t = (s % 0x1_0000 + s / 0x1_0000) as nat;
        lemma_folded(t);
        let q = (s / 0x1_0000) as int;
        assert(s == t + q * 0xFFFF);
        assert((t + q * 0xFFFF) % 0xFFFF == t % 0xFFFF) by (nonlinear_arith);
    }
}

/// The Internet checksum.
pub fn checksum(data: &[u8]) -> (c: u16)
    requires
        data.len() <= 0x1_0000_0000,
    ensures
        c == checksum_of(data@),
{
    let mut sum: u64 = 0;
    let mut i: usize = 0;
    proof {
        lemma_word_sum_bound(data@, 0);
    }
    let ghost whole = word_sum(data@, 0);
    while i < data.len() && i + 1 < data.len()
        invariant
            i <= data@.len() <= 0x1_0000_0000,
            whole == word_sum(data@, 0),
            whole <= 0x1_0000_0000_0000,
            sum + word_sum(data@, i as int) == whole,
        decreases data@.len() - i,
    {
        sum = sum + get_be16(data, i) as u64;
        i += 2;
    }
    if i < data.len() {
        sum = sum + data[i] as u64 * 0x100;
    }
    assert(sum == whole);
    while sum >= 0x1_0000
        invariant
            folded(sum as nat) == folded(whole),
        decreases sum,
    {
        sum = sum % 0x1_0000 + sum / 0x1_0000;
    }
    0xFFFF - sum as u16
}

/// A packet whose checksum field is filled in with the checksum of the rest
/// checks out as 0.
pub proof fn law_checksum_checks_out(s: nat)
    ensures
        folded((s + (0xFFFF - folded(s))) as nat) == 0xFFFF || s == 0,
{
    lemma_folded(s);
    let t = (s + (0xFFFF - folded(s))) as nat;
    lemma_folded(t);
    if s > 0 {
        assert(t % 0xFFFF == 0) by {
            assert((s - folded(s)) % 0xFFFF == 0);
            assert((s - folded(s) + 0xFFFF) % 0xFFFF == 0);
        }
    }
}

// ── Headers ──────────────────────────────────────────────────────────────────

/// Bytes of the header of a packet.
pub open spec fn header_len(pkt: Seq<u8>) -> int {
    pkt[0] as int % 16 * 4
}

/// The packet has a header of its length, and is as long as that says.
pub open spec fn packet_ok(pkt: Seq<u8>) -> bool {
    &&& pkt.len() >= IP_HDR_LEN
    &&& IP_HDR_LEN <= header_len(pkt) <= be16_at(pkt, 2)
    &&& be16_at(pkt, 2) <= pkt.len()
}

/// The source, the destination, the protocol and the payload of a packet;
/// `None` where its lengths do not fit.
pub fn parse(pkt: &[u8]) -> (r: Option<(u32, u32, u8, &[u8])>)
    ensures
        if packet_ok(pkt@) {
            r matches Some((src, dst, proto, payload)) && src == be32_at(pkt@, 12) && dst
                == be32_at(pkt@, 16) && proto == pkt@[9] && payload@ == pkt@.subrange(
                header_len(pkt@),
                be16_at(pkt@, 2) as int,
            )
        } else {
            r is None
        },
{
    if pkt.len() < IP_HDR_LEN {
        return None;
    }
    let ihl: usize = (pkt[0] % 16) as usize * 4;
    if ihl < IP_HDR_LEN || pkt.len() < ihl {
        return None;
    }
    let total: usize = get_be16(pkt, 2) as usize;
    if pkt.len() < total || total < ihl {
        return None;
    }
    Some((get_be32(pkt, 12), get_be32(pkt, 16), pkt[9], slice_subrange(pkt, ihl, total)))
}

/// A header with a given checksum field.
pub open spec fn header_with(
    proto: u8,
    src: u32,
    dst: u32,
    payload_len: u16,
    id: u16,
    csum: u16,
) -> Seq<u8> {
    seq![0x45u8, 0] + be16((payload_len + 20) as u16) + be16(id) + be16(0) + seq![64u8, proto]
        + be16(csum) + be32(src) + be32(dst)
}

/// A header without options: the checksum is that of the header with a zero in
/// its place.
pub open spec fn header_of(proto: u8, src: u32, dst: u32, payload_len: u16, id: u16) -> Seq<u8> {
    header_with(
        proto,
        src,
        dst,
        payload_len,
        id,
        checksum_of(header_with(proto, src, dst, payload_len, id, 0)),
    )
}

fn lay_out(proto: u8, src: u32, dst: u32, payload_len: u16, id: u16, csum: u16) -> (v: Vec<u8>)
    requires
        payload_len + 20 <= u16::MAX,
    ensures
        v@ == header_with(proto, src, dst, payload_len, id, csum),
        v@.len() == IP_HDR_LEN,
{
    let mut v: Vec<u8> = Vec::new();
    v.push(0x45);
    v.push(0);
    push_be16(&mut v, payload_len + 20);
    push_be16(&mut v, id);
    push_be16(&mut v, 0);
    v.push(64);
    v.push(proto);
    push_be16(&mut v, csum);
    push_be32(&mut v, src);
    push_be32(&mut v, dst);
    assert(v@ =~= header_with(proto, src, dst, payload_len, id, csum));
    v
}

/// Build a header without options for a payload of so many bytes.
pub fn build(proto: u8, src: u32, dst: u32, payload_len: u16, id: u16) -> (v: Vec<u8>)
    requires
        payload_len + 20 <= u16::MAX,
    ensures
        v@ == header_of(proto, src, dst, payload_len, id),
        v@.len() == IP_HDR_LEN,
{
    let blank: Vec<u8> = lay_out(proto, src, dst, payload_len, id, 0);
    let csum: u16 = checksum(blank.as_slice());
    lay_out(proto, src, dst, payload_len, id, csum)
}

/// What is built is what is parsed, and its checksum checks out.
pub proof fn law_header_round_trip(
    proto: u8,
    src: u32,
    dst: u32,
    id: u16,
    payload: Seq<u8>,
)
    requires
        payload.len() + 20 <= u16::MAX,
    ensures
        ({
            let h = header_of(proto, src, dst, payload.len() as u16, id);
            let p = h + payload;
            &&& packet_ok(p)
            &&& be32_at(p, 12) == src
            &&& be32_at(p, 16) == dst
            &&& p[9] == proto
            &&& p.subrange(header_len(p), be16_at(p, 2) as int) == payload
            &&& checksum_of(h) == 0
        }),
{
    let n = payload.len() as u16;
    let h = header_of(proto, src, dst, n, id);
    let p = h + payload;
    let z = header_with(proto, src, dst, n, id, 0);
    let c = checksum_of(z);
    assert(h.len() == 20 && z.len() == 20);
    assert(p.subrange(2, 4) =~= be16((n + 20) as u16));
    lemma_be16_round(p, 2, (n + 20) as u16);
    assert(p.subrange(12, 16) =~= be32(src));
    lemma_be32_round(p, 12, src);
    assert(p.subrange(16, 20) =~= be32(dst));
    lemma_be32_round(p, 16, dst);
    assert(p.subrange(20, (n + 20) as int) =~= payload);
    assert(h.subrange(10, 12) =~= be16(c));
    lemma_be16_round(h, 10, c);
    assert(z.subrange(10, 12) =~= be16(0));
    lemma_be16_round(z, 10, 0);
    assert forall|i: int| 0 <= i < 20 && i != 10 && i != 11 implies h[i] == z[i] by {}
    lemma_sum_apart(h, z);
    law_checksum_checks_out(word_sum(z, 0));
    assert(word_sum(z, 0) > 0) by {
        assert(be16_at(z, 0) > 0);
    }
    lemma_folded(word_sum(z, 0));
}

/// Headers that differ in the checksum field alone differ by it in their sum.
proof fn lemma_sum_apart(h: Seq<u8>, z: Seq<u8>)
    requires
        h.len() == 20,
        z.len() == 20,
        forall|i: int| 0 <= i < 20 && i != 10 && i != 11 ==> h[i] == z[i],
        be16_at(z, 10) == 0,
    ensures
        word_sum(h, 0) == word_sum(z, 0) + be16_at(h, 10),
{
    reveal_with_fuel(word_sum, 12);
}

} // verus!
