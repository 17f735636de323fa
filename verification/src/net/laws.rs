//! What holds of frames from end to end: what one side sends is what the other side
//! receives.

use vstd::prelude::*;
use crate::bytes::{be16, be16_at, be32_at, lemma_be16_round};
use crate::net::arp::{law_packet_round_trip, packet_of, reply_of, request_of, slot_of, Entry};
use crate::net::eth::{frame_of, law_frame_round_trip};
use crate::net::icmp::{echo_frame, echo_reply, reply_with};
use crate::net::ip::{
    checksum_of, folded, header_of, law_checksum_checks_out, law_header_round_trip, lemma_folded,
    packet_ok, word_sum,
};
use crate::net::udp::{
    awaited, bound, bound_to, datagram_frame, datagram_of, delivered, ids_apart, ports_apart,
    received, sending, sock_of, with_socket, without, DatagramView, SocketView, TableView,
};
use crate::net::{after_frame, answer_to, ip_payload, is_ours, payload_of, taught};
use crate::task::TaskId;

verus! {

// ── Checksums ────────────────────────────────────────────────────────────────

/// The sum behind a checksum is that of the pairs of bytes, each read as a number
/// with its first byte the higher, and an odd byte at the end as if a zero followed:
/// parts of even length add up.
pub proof fn law_a_sum_is_that_of_its_pairs(a: Seq<u8>, b: Seq<u8>, x: u8, y: u8)
    requires
        a.len() % 2 == 0,
    ensures
        word_sum(seq![], 0) == 0,
        word_sum(seq![x], 0) == 256 * x,
        word_sum(seq![x, y], 0) == 256 * x + y,
        word_sum(a + b, 0) == word_sum(a, 0) + word_sum(b, 0),
{
    let p = seq![x, y];
    assert(word_sum(p, 2) == 0);
    assert(be16_at(p, 0) == 256 * x + y);
    lemma_sum_joined(a, b, 0);
}

proof fn lemma_sum_joined(a: Seq<u8>, b: Seq<u8>, i: int)
    requires
        a.len() % 2 == 0,
        0 <= i <= a.len(),
        i % 2 == 0,
    ensures
        word_sum(a + b, i) == word_sum(a, i) + word_sum(b, 0),
    decreases a.len() - i,
{
    let c = a + b;
    if i < a.len() {
        assert(c[i] == a[i] && c[i + 1] == a[i + 1]);
        assert(be16_at(c, i) == be16_at(a, i));
        lemma_sum_joined(a, b, i + 2);
    } else {
        lemma_sum_behind(a, b, 0);
    }
}

proof fn lemma_sum_behind(a: Seq<u8>, b: Seq<u8>, j: int)
    requires
        0 <= j,
    ensures
        word_sum(a + b, a.len() + j) == word_sum(b, j),
    decreases b.len() - j,
{
    let c = a + b;
    let i = a.len() + j;
    if j < b.len() {
        assert(c[i] == b[j]);
        if j + 1 < b.len() {
            assert(c[i + 1] == b[j + 1]);
            assert(be16_at(c, i) == be16_at(b, j));
            lemma_sum_behind(a, b, j + 2);
        }
    }
}

/// A checksum is what is missing from the sum to a multiple of 65535: put behind the
/// data, in even length, it makes the whole check out as 0.
pub proof fn law_a_checksum_completes_the_sum(data: Seq<u8>)
    requires
        data.len() % 2 == 0,
    ensures
        (word_sum(data, 0) + checksum_of(data)) % 0xFFFF == 0,
        checksum_of(data + be16(checksum_of(data))) == 0,
{
    let s = word_sum(data, 0);
    lemma_folded(s);
    let c = checksum_of(data);
    let tail = be16(c);
    lemma_sum_joined(data, tail, 0);
    assert(tail.subrange(0, 2) =~= be16(c));
    lemma_be16_round(tail, 0, c);
    assert(word_sum(tail, 2) == 0);
    assert(word_sum(tail, 0) == c);
    law_checksum_checks_out(s);
}

// ── Datagrams ────────────────────────────────────────────────────────────────

/// What is found in a frame that carries a packet.
proof fn lemma_packet_in_frame(
    dst_mac: Seq<u8>,
    src_mac: Seq<u8>,
    proto: u8,
    src_ip: u32,
    dst_ip: u32,
    id: u16,
    body: Seq<u8>,
)
    requires
        dst_mac.len() == 6,
        src_mac.len() == 6,
        body.len() + 20 <= u16::MAX,
    ensures
        ({
            let h = header_of(proto, src_ip, dst_ip, body.len() as u16, id);
            let f = frame_of(dst_mac, src_mac, 0x0800, h + body);
            let p = payload_of(f);
            &&& f.len() >= 14
            &&& f.subrange(0, 6) == dst_mac
            &&& f.subrange(6, 12) == src_mac
            &&& be16_at(f, 12) == 0x0800
            &&& p == h + body
            &&& packet_ok(p)
            &&& be32_at(p, 12) == src_ip
            &&& be32_at(p, 16) == dst_ip
            &&& p[9] == proto
            &&& ip_payload(p) == body
            &&& checksum_of(p.subrange(0, 20)) == 0
        }),
{
    let h = header_of(proto, src_ip, dst_ip, body.len() as u16, id);
    law_header_round_trip(proto, src_ip, dst_ip, id, body);
    law_frame_round_trip(dst_mac, src_mac, 0x0800, h + body);
    assert((h + body).subrange(0, 20) =~= h);
}

/// What is found in a datagram.
proof fn lemma_datagram_fields(src_port: u16, dst_port: u16, data: Seq<u8>)
    requires
        data.len() <= 1472,
    ensures
        ({
            let u = datagram_of(src_port, dst_port, data);
            &&& u.len() == 8 + data.len()
            &&& be16_at(u, 0) == src_port
            &&& be16_at(u, 2) == dst_port
            &&& be16_at(u, 4) == 8 + data.len()
            &&& u.subrange(8, u.len() as int) == data
        }),
{
    let u = datagram_of(src_port, dst_port, data);
    assert(u.subrange(0, 2) =~= be16(src_port));
    lemma_be16_round(u, 0, src_port);
    assert(u.subrange(2, 4) =~= be16(dst_port));
    lemma_be16_round(u, 2, dst_port);
    assert(u.subrange(4, 6) =~= be16((8 + data.len()) as u16));
    lemma_be16_round(u, 4, (8 + data.len()) as u16);
    assert(u.subrange(8, u.len() as int) =~= data);
}

/// A datagram that someone sends us, whatever it holds, is put whole at the end of
/// the queue of the socket bound to its port, with the address and the port it came
/// from; a task that waits there is woken. Where the queue is full, the oldest makes
/// room. Nobody else gets it.
#[verifier::spinoff_prover]
pub proof fn law_a_datagram_arrives_whole(
    mac: Seq<u8>,
    src_mac: Seq<u8>,
    src_ip: u32,
    src_port: u16,
    dst_port: u16,
    data: Seq<u8>,
    t: TableView,
    i: int,
)
    requires
        mac.len() == 6,
        src_mac.len() == 6,
        data.len() <= 1472,
        ports_apart(t.socks),
        0 <= i < t.socks.len(),
        t.socks[i].local_port == dst_port,
        dst_port != 0,
    ensures
        ({
            let f = datagram_frame(mac, src_mac, src_ip, 0x0A00_020F, src_port, dst_port, data);
            let d = DatagramView { src_ip, src_port, data };
            let q = t.socks[i].recv_q;
            let kept = if q.len() < 32 {
                q
            } else {
                q.subrange(1, q.len() as int)
            };
            let (after, woken) = after_frame(mac, f, t);
            &&& woken == t.socks[i].waiter
            &&& after.next_id == t.next_id
            &&& after.socks == t.socks.update(
                i,
                SocketView { recv_q: kept.push(d), waiter: None, ..t.socks[i] },
            )
            &&& taught(mac, f) == Some((src_ip, src_mac))
            &&& answer_to(mac, f) is None
        }),
{
    let u = datagram_of(src_port, dst_port, data);
    let f = datagram_frame(mac, src_mac, src_ip, 0x0A00_020F, src_port, dst_port, data);
    lemma_datagram_fields(src_port, dst_port, data);
    lemma_packet_in_frame(mac, src_mac, 17, src_ip, 0x0A00_020F, 1, u);
    lemma_port_at(t.socks, dst_port, 0, i);
    let q = t.socks[i].recv_q;
    if q.len() >= 32 {
        assert(q.drop_first() =~= q.subrange(1, q.len() as int));
    }
    let d = DatagramView { src_ip, src_port, data };
    let p = payload_of(f);
    assert(is_ours(mac, f, 17));
    assert(ip_payload(p) == u);
    assert(after_frame(mac, f, t).0.socks == delivered(t.socks, dst_port, d).0);
}

proof fn lemma_port_at(t: Seq<SocketView>, port: u16, from: int, i: int)
    requires
        ports_apart(t),
        0 <= from <= i < t.len(),
        t[i].local_port == port,
        port != 0,
    ensures
        bound_to(t, port, from) == i,
    decreases i - from,
{
    if from < i {
        assert(t[from].local_port != port);
        lemma_port_at(t, port, from + 1, i);
    }
}

/// The socket with a descriptor is found under it.
proof fn lemma_sock_at(t: Seq<SocketView>, from: int, i: int)
    requires
        ids_apart(t),
        0 <= from <= i < t.len(),
    ensures
        sock_of(t, t[i].id, from) == i,
    decreases i - from,
{
    if from < i {
        assert(t[from].id != t[i].id);
        lemma_sock_at(t, from + 1, i);
    }
}

/// A datagram that is sent from a bound socket reaches whoever has its address, with
/// our address and the port of the socket, as it was given; where nobody's address is
/// known yet, it is asked for.
pub proof fn law_a_datagram_is_sent_whole(
    t: TableView,
    cache: Seq<Option<Entry>>,
    our_mac: Seq<u8>,
    our_ip: u32,
    i: int,
    dst_ip: u32,
    dst_port: u16,
    data: Seq<u8>,
    at: int,
)
    requires
        our_mac.len() == 6,
        ids_apart(t.socks),
        0 <= i < t.socks.len(),
        t.socks[i].local_port != 0,
        data.len() <= 1472,
    ensures
        0 <= at < cache.len() && cache[at] is Some && cache[at]->0.ip == dst_ip && (forall|j: int|
            0 <= j < at && (#[trigger] cache[j]) is Some ==> cache[j]->0.ip != dst_ip) ==> {
            let r = sending(t, cache, our_mac, our_ip, t.socks[i].id, dst_ip, dst_port, data);
            let f = (r->0).1;
            let p = payload_of(f);
            let u = ip_payload(p);
            &&& r is Some && (r->0).0
            &&& f.subrange(0, 6) == cache[at]->0.mac@
            &&& f.subrange(6, 12) == our_mac
            &&& be16_at(f, 12) == 0x0800
            &&& be32_at(p, 12) == our_ip
            &&& be32_at(p, 16) == dst_ip
            &&& p[9] == 17
            &&& checksum_of(p.subrange(0, 20)) == 0
            &&& be16_at(u, 0) == t.socks[i].local_port
            &&& be16_at(u, 2) == dst_port
            &&& be16_at(u, 4) == 8 + data.len()
            &&& u.subrange(8, u.len() as int) == data
        },
        (forall|j: int| 0 <= j < cache.len() && (#[trigger] cache[j]) is Some ==> cache[j]->0.ip
            != dst_ip) ==> sending(
            t,
            cache,
            our_mac,
            our_ip,
            t.socks[i].id,
            dst_ip,
            dst_port,
            data,
        ) == Some((false, request_of(our_mac, our_ip, dst_ip))),
{
    lemma_sock_at(t.socks, 0, i);
    if 0 <= at < cache.len() && cache[at] is Some && cache[at]->0.ip == dst_ip && (forall|j: int|
        0 <= j < at && (#[trigger] cache[j]) is Some ==> cache[j]->0.ip != dst_ip) {
        lemma_slot_at(cache, dst_ip, 0, at);
        let port = t.socks[i].local_port;
        lemma_datagram_fields(port, dst_port, data);
        lemma_packet_in_frame(
            cache[at]->0.mac@,
            our_mac,
            17,
            our_ip,
            dst_ip,
            1,
            datagram_of(port, dst_port, data),
        );
    }
    if forall|j: int|
        0 <= j < cache.len() && (#[trigger] cache[j]) is Some ==> cache[j]->0.ip != dst_ip {
        lemma_slot_none(cache, dst_ip, 0);
    }
}

proof fn lemma_slot_at(cache: Seq<Option<Entry>>, ip: u32, k: int, at: int)
    requires
        0 <= k <= at < cache.len(),
        cache[at] is Some,
        cache[at]->0.ip == ip,
        forall|j: int| k <= j < at && (#[trigger] cache[j]) is Some ==> cache[j]->0.ip != ip,
    ensures
        slot_of(cache, ip, k) == at,
    decreases at - k,
{
    if k < at {
        assert(cache[k] is Some ==> cache[k]->0.ip != ip);
        lemma_slot_at(cache, ip, k + 1, at);
    }
}

proof fn lemma_slot_none(cache: Seq<Option<Entry>>, ip: u32, k: int)
    requires
        0 <= k <= cache.len(),
        forall|j: int|
            k <= j < cache.len() && (#[trigger] cache[j]) is Some ==> cache[j]->0.ip != ip,
    ensures
        slot_of(cache, ip, k) == cache.len(),
    decreases cache.len() - k,
{
    if k < cache.len() {
        assert(cache[k] is Some ==> cache[k]->0.ip != ip);
        lemma_slot_none(cache, ip, k + 1);
    }
}

/// What is received through a socket is its oldest datagram, whole as far as there is
/// room, and the next one is received after it. No other socket changes, and an empty
/// queue gives nothing.
pub proof fn law_datagrams_come_out_in_order(t: TableView, i: int, room: int)
    requires
        ids_apart(t.socks),
        0 <= i < t.socks.len(),
        room >= 0,
    ensures
        ({
            let s = t.socks[i];
            let r = received(t, s.id, room);
            &&& s.recv_q.len() == 0 ==> r is None
            &&& s.recv_q.len() > 0 ==> {
                let (after, d, n) = r->0;
                &&& r is Some
                &&& d == s.recv_q[0]
                &&& 0 <= n <= d.data.len() && n <= room && (n == d.data.len() || n == room)
                &&& after.socks == t.socks.update(
                    i,
                    SocketView { recv_q: s.recv_q.subrange(1, s.recv_q.len() as int), ..s },
                )
                &&& after.next_id == t.next_id
            }
        }),
{
    lemma_sock_at(t.socks, 0, i);
    let s = t.socks[i];
    if s.recv_q.len() > 0 {
        assert(s.recv_q.drop_first() =~= s.recv_q.subrange(1, s.recv_q.len() as int));
    }
}

/// A socket is bound to a port exactly where it is there and no other has the port,
/// and nothing else changes.
pub proof fn law_a_port_is_bound_once(t: TableView, i: int, port: u16)
    requires
        ids_apart(t.socks),
        0 <= i < t.socks.len(),
    ensures
        ({
            let (after, ok) = bound(t, t.socks[i].id, port);
            let other = exists|j: int|
                0 <= j < t.socks.len() && j != i && (#[trigger] t.socks[j]).local_port == port;
            &&& ok == !other
            &&& ok ==> after.socks == t.socks.update(
                i,
                SocketView { local_port: port, ..t.socks[i] },
            ) && after.next_id == t.next_id
            &&& !ok ==> after == t
        }),
{
    lemma_sock_at(t.socks, 0, i);
    let fd = t.socks[i].id;
    if exists|j: int|
        0 <= j < t.socks.len() && j != i && (#[trigger] t.socks[j]).local_port == port {
        let j = choose|j: int|
            0 <= j < t.socks.len() && j != i && (#[trigger] t.socks[j]).local_port == port;
        assert(t.socks[j].id != fd) by {
            if j < i {
                assert(t.socks[j].id != t.socks[i].id);
            } else {
                assert(t.socks[i].id != t.socks[j].id);
            }
        }
    }
}

/// A socket that is closed is gone, and every other one is still there as it was.
pub proof fn law_a_closed_socket_is_gone(t: TableView, i: int, j: int)
    requires
        ids_apart(t.socks),
        0 <= i < t.socks.len(),
        0 <= j < t.socks.len(),
        j != i,
    ensures
        ({
            let after = without(t, t.socks[i].id);
            &&& after.socks.len() == t.socks.len() - 1
            &&& after.next_id == t.next_id
            &&& after.socks.contains(t.socks[j])
            &&& forall|m: int|
                0 <= m < after.socks.len() ==> (#[trigger] after.socks[m]).id != t.socks[i].id
        }),
{
    lemma_sock_at(t.socks, 0, i);
    let after = without(t, t.socks[i].id);
    let n = t.socks.len() - 1;
    if j == n {
        assert(after.socks[i] == t.socks[j]);
    } else {
        assert(after.socks[j] == t.socks[j]);
    }
    assert forall|m: int| 0 <= m < after.socks.len() implies (#[trigger] after.socks[m]).id
        != t.socks[i].id by {
        if m == i {
            assert(t.socks[i].id != t.socks[n].id);
        } else if m < i {
            assert(t.socks[m].id != t.socks[i].id);
        } else {
            assert(t.socks[i].id != t.socks[m].id);
        }
    }
}

// ── Echoes and addresses ─────────────────────────────────────────────────────

/// The answer to an echo request holds what came behind the checksum, and checks out.
proof fn lemma_echo_checks(csum: u16, body: Seq<u8>)
    ensures
        ({
            let e = echo_reply(seq![8u8, 0] + be16(csum) + body);
            &&& e.len() == 4 + body.len()
            &&& e[0] == 0 && e[1] == 0
            &&& e.subrange(4, e.len() as int) == body
            &&& checksum_of(e) == 0
        }),
{
    let ping = seq![8u8, 0] + be16(csum) + body;
    assert(ping.subrange(4, ping.len() as int) =~= body);
    let e = echo_reply(ping);
    let blank = reply_with(ping, 0);
    let c = checksum_of(blank);
    assert(e.subrange(4, e.len() as int) =~= body);
    let head = seq![0u8, 0] + be16(c);
    let none = seq![0u8, 0] + be16(0);
    assert(e =~= head + body);
    assert(blank =~= none + body);
    lemma_head_sum(c);
    lemma_head_sum(0);
    lemma_sum_joined(head, body, 0);
    lemma_sum_joined(none, body, 0);
    let s = word_sum(blank, 0);
    law_checksum_checks_out(s);
    lemma_folded(s);
    assert(word_sum(e, 0) == s + (0xFFFF - folded(s)));
}

/// An echo request that is sent to us is answered to its sender with an echo of all
/// that it carries behind its checksum; both checksums of the answer check out.
#[verifier::spinoff_prover]
pub proof fn law_an_echo_is_answered(
    mac: Seq<u8>,
    src_mac: Seq<u8>,
    src_ip: u32,
    id: u16,
    body: Seq<u8>,
    csum: u16,
)
    requires
        mac.len() == 6,
        src_mac.len() == 6,
        body.len() <= 1490,
    ensures
        ({
            let ping = seq![8u8, 0] + be16(csum) + body;
            let h = header_of(1, src_ip, 0x0A00_020F, ping.len() as u16, id);
            let f = frame_of(mac, src_mac, 0x0800, h + ping);
            let a = answer_to(mac, f)->0;
            let p = payload_of(a);
            let e = ip_payload(p);
            &&& answer_to(mac, f) is Some
            &&& a.subrange(0, 6) == src_mac
            &&& a.subrange(6, 12) == mac
            &&& be16_at(a, 12) == 0x0800
            &&& be32_at(p, 12) == 0x0A00_020F
            &&& be32_at(p, 16) == src_ip
            &&& p[9] == 1
            &&& e.len() == ping.len()
            &&& e[0] == 0 && e[1] == 0
            &&& e.subrange(4, e.len() as int) == body
            &&& checksum_of(e) == 0
            &&& checksum_of(p.subrange(0, 20)) == 0
        }),
{
    let ping = seq![8u8, 0] + be16(csum) + body;
    let h = header_of(1, src_ip, 0x0A00_020F, ping.len() as u16, id);
    let f = frame_of(mac, src_mac, 0x0800, h + ping);
    assert(ping.len() == 4 + body.len());
    lemma_packet_in_frame(mac, src_mac, 1, src_ip, 0x0A00_020F, id, ping);
    lemma_echo_checks(csum, body);
    let e = echo_reply(ping);
    lemma_packet_in_frame(src_mac, mac, 1, 0x0A00_020F, src_ip, 1, e);
    assert(is_ours(mac, f, 1));
    assert(ping[0] == 8);
    assert(answer_to(mac, f) == Some(echo_frame(mac, 0x0A00_020F, src_mac, src_ip, ping)));
}

proof fn lemma_head_sum(c: u16)
    ensures
        (seq![0u8, 0] + be16(c)).len() == 4,
        word_sum(seq![0u8, 0] + be16(c), 0) == c,
{
    let h = seq![0u8, 0] + be16(c);
    assert(h.subrange(2, 4) =~= be16(c));
    lemma_be16_round(h, 2, c);
    assert(be16_at(h, 0) == 0);
    assert(word_sum(h, 4) == 0);
    assert(word_sum(h, 2) == c);
}

/// Whoever asks for our address is answered with it, and whoever answers or asks is
/// learned. Questions for other addresses, and answers, are not answered.
pub proof fn law_questions_for_us_are_answered(
    mac: Seq<u8>,
    src_mac: Seq<u8>,
    src_ip: u32,
    asked: u32,
)
    requires
        mac.len() == 6,
        src_mac.len() == 6,
    ensures
        ({
            let q = request_of(src_mac, src_ip, asked);
            let a = answer_to(mac, q)->0;
            let p = payload_of(a);
            &&& taught(mac, q) == Some((src_ip, src_mac))
            &&& asked != 0x0A00_020F ==> answer_to(mac, q) is None
            &&& asked == 0x0A00_020F ==> {
                &&& answer_to(mac, q) is Some
                &&& a.subrange(0, 6) == src_mac
                &&& a.subrange(6, 12) == mac
                &&& be16_at(a, 12) == 0x0806
                &&& be16_at(p, 6) == 2
                &&& p.subrange(8, 14) == mac
                &&& be32_at(p, 14) == 0x0A00_020F
                &&& p.subrange(18, 24) == src_mac
                &&& be32_at(p, 24) == src_ip
            }
        }),
        ({
            let r = reply_of(src_mac, src_ip, mac, 0x0A00_020F);
            &&& taught(mac, r) == Some((src_ip, src_mac))
            &&& answer_to(mac, r) is None
        }),
{
    let zero = seq![0u8, 0, 0, 0, 0, 0];
    let all = seq![0xFFu8, 0xFF, 0xFF, 0xFF, 0xFF, 0xFF];
    let pq = packet_of(1, src_mac, src_ip, zero, asked);
    law_packet_round_trip(1, src_mac, src_ip, zero, asked);
    law_frame_round_trip(all, src_mac, 0x0806, pq);
    let q = request_of(src_mac, src_ip, asked);
    assert(q == frame_of(all, src_mac, 0x0806, pq));
    assert(payload_of(q) == pq);
    let pr = packet_of(2, src_mac, src_ip, mac, 0x0A00_020F);
    law_packet_round_trip(2, src_mac, src_ip, mac, 0x0A00_020F);
    law_frame_round_trip(mac, src_mac, 0x0806, pr);
    let r = reply_of(src_mac, src_ip, mac, 0x0A00_020F);
    assert(payload_of(r) == pr);
    let pa = packet_of(2, mac, 0x0A00_020F, src_mac, src_ip);
    law_packet_round_trip(2, mac, 0x0A00_020F, src_mac, src_ip);
    law_frame_round_trip(src_mac, mac, 0x0806, pa);
    assert(payload_of(reply_of(mac, 0x0A00_020F, src_mac, src_ip)) == pa);
}

/// A packet that is for another address is neither delivered nor answered, whatever it
/// carries.
pub proof fn law_packets_for_others_are_dropped(
    mac: Seq<u8>,
    src_mac: Seq<u8>,
    proto: u8,
    src_ip: u32,
    dst_ip: u32,
    id: u16,
    body: Seq<u8>,
    t: TableView,
)
    requires
        mac.len() == 6,
        src_mac.len() == 6,
        body.len() + 20 <= u16::MAX,
        dst_ip != 0x0A00_020F,
    ensures
        ({
            let h = header_of(proto, src_ip, dst_ip, body.len() as u16, id);
            let f = frame_of(mac, src_mac, 0x0800, h + body);
            &&& after_frame(mac, f, t) == (t, None::<TaskId>)
            &&& answer_to(mac, f) is None
        }),
{
    lemma_packet_in_frame(mac, src_mac, proto, src_ip, dst_ip, id, body);
}

/// The header of a packet says that it is one of the fourth version without options,
/// how long it is, its number, that it is not split, and how far it may go.
pub proof fn law_a_header_says_what_it_is(
    proto: u8,
    src: u32,
    dst: u32,
    payload_len: u16,
    id: u16,
)
    requires
        payload_len + 20 <= u16::MAX,
    ensures
        ({
            let h = header_of(proto, src, dst, payload_len, id);
            &&& h.len() == 20
            &&& h[0] == 0x45
            &&& h[1] == 0
            &&& be16_at(h, 2) == payload_len + 20
            &&& be16_at(h, 4) == id
            &&& h[6] == 0 && h[7] == 0
            &&& h[8] == 64
            &&& h[9] == proto
        }),
{
    let h = header_of(proto, src, dst, payload_len, id);
    assert(h.subrange(2, 4) =~= be16((payload_len + 20) as u16));
    lemma_be16_round(h, 2, (payload_len + 20) as u16);
    assert(h.subrange(4, 6) =~= be16(id));
    lemma_be16_round(h, 4, id);
}

/// A new socket is found under its descriptor, unbound and with nothing received; no
/// descriptor is given out twice, and all other sockets stay as they were.
pub proof fn law_a_new_socket_is_unbound(t: TableView, j: int)
    requires
        t.next_id < i64::MAX,
        forall|m: int| 0 <= m < t.socks.len() ==> (#[trigger] t.socks[m]).id < t.next_id,
    ensures
        ({
            let (after, fd) = with_socket(t);
            let n = t.socks.len() as int;
            &&& after.socks.len() == n + 1
            &&& after.socks[n].id == fd
            &&& after.socks[n].local_port == 0
            &&& after.socks[n].recv_q.len() == 0
            &&& after.socks[n].waiter is None
            &&& 0 <= j < n ==> after.socks[j] == t.socks[j] && after.socks[j].id != fd
            &&& with_socket(after).1 != fd
            &&& forall|m: int|
                0 <= m < after.socks.len() ==> (#[trigger] after.socks[m]).id < after.next_id
        }),
{
}

/// A task that finds nothing to receive is woken by the next datagram for its socket.
pub proof fn law_who_waits_for_a_datagram_is_woken(
    t: TableView,
    i: int,
    task: TaskId,
    d: DatagramView,
)
    requires
        ids_apart(t.socks),
        ports_apart(t.socks),
        0 <= i < t.socks.len(),
        t.socks[i].local_port != 0,
    ensures
        ({
            let waiting = awaited(t, t.socks[i].id, task);
            &&& waiting.next_id == t.next_id
            &&& waiting.socks == t.socks.update(
                i,
                SocketView { waiter: Some(task), ..t.socks[i] },
            )
            &&& delivered(waiting.socks, t.socks[i].local_port, d).1 == Some(task)
        }),
{
    lemma_sock_at(t.socks, 0, i);
    let waiting = awaited(t, t.socks[i].id, task);
    assert forall|a: int, b: int|
        0 <= a < b < waiting.socks.len() && (#[trigger] waiting.socks[a]).local_port
            != 0 implies waiting.socks[a].local_port != (#[trigger] waiting.socks[b]).local_port by {
        assert(t.socks[a].local_port != t.socks[b].local_port);
    }
    lemma_port_at(waiting.socks, t.socks[i].local_port, 0, i);
}

} // verus!
