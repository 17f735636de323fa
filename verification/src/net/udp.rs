//! UDP sockets and datagrams.

use vstd::prelude::*;
use vstd::slice::slice_subrange;
use crate::bytes::{be16, be16_at, copy_into, copy_range, get_be16, push_be16, push_bytes, splice};
use crate::net::arp::{request_of, send_request, slot_of, ArpCache, Entry};
use crate::net::eth::{frame, frame_of, Mac, IPV4};
use crate::net::ip::{build, header_of, IP_HDR_LEN, UDP};
use crate::net::MAX_FRAME;
use crate::task::TaskId;

verus! {

/// Bytes of the header.
pub const UDP_HDR_LEN: usize = 8;

/// Datagrams that a socket keeps.
pub const RECV_QUEUE_DEPTH: usize = 32;

/// A datagram that arrived.
pub struct Datagram {
    pub src_ip: u32,
    pub src_port: u16,
    pub data: Vec<u8>,
}

/// A datagram as a mathematical value.
#[verifier::ext_equal]
pub struct DatagramView {
    pub src_ip: u32,
    pub src_port: u16,
    pub data: Seq<u8>,
}

impl View for Datagram {
    type V = DatagramView;

    open spec fn view(&self) -> DatagramView {
        DatagramView { src_ip: self.src_ip, src_port: self.src_port, data: self.data@ }
    }
}

pub struct UdpSocket {
    pub id: i64,
    /// 0 until it is bound.
    pub local_port: u16,
    recv_q: Vec<Datagram>,
    /// The task that waits for a datagram.
    pub waiter: Option<TaskId>,
}

/// A socket as a mathematical value.
#[verifier::ext_equal]
pub struct SocketView {
    pub id: i64,
    pub local_port: u16,
    pub recv_q: Seq<DatagramView>,
    pub waiter: Option<TaskId>,
}

impl View for UdpSocket {
    type V = SocketView;

    closed spec fn view(&self) -> SocketView {
        SocketView {
            id: self.id,
            local_port: self.local_port,
            recv_q: Seq::new(self.recv_q@.len(), |i: int| self.recv_q@[i]@),
            waiter: self.waiter,
        }
    }
}

/// The sockets.
pub struct SocketTable {
    socks: Vec<UdpSocket>,
    next_id: i64,
}

/// The sockets as a mathematical value.
#[verifier::ext_equal]
pub struct TableView {
    pub socks: Seq<SocketView>,
    pub next_id: i64,
}

impl View for SocketTable {
    type V = TableView;

    closed spec fn view(&self) -> TableView {
        TableView {
            socks: Seq::new(self.socks@.len(), |i: int| self.socks@[i]@),
            next_id: self.next_id,
        }
    }
}

/// The first socket from `k` on with a descriptor, or the length.
pub open spec fn sock_of(t: Seq<SocketView>, fd: i64, k: int) -> int
    decreases t.len() - k,
{
    if k >= t.len() {
        t.len() as int
    } else if t[k].id == fd {
        k
    } else {
        sock_of(t, fd, k + 1)
    }
}

/// The first socket from `k` on that is bound to a port, or the length.
pub open spec fn bound_to(t: Seq<SocketView>, port: u16, k: int) -> int
    decreases t.len() - k,
{
    if k >= t.len() {
        t.len() as int
    } else if t[k].local_port == port {
        k
    } else {
        bound_to(t, port, k + 1)
    }
}

/// Another socket has the port.
pub open spec fn port_taken(t: Seq<SocketView>, fd: i64, port: u16) -> bool {
    exists|i: int| 0 <= i < t.len() && (#[trigger] t[i]).local_port == port && t[i].id != fd
}

/// The queue with a datagram behind it; the oldest goes where it is full.
pub open spec fn queued(q: Seq<DatagramView>, d: DatagramView) -> Seq<DatagramView> {
    if q.len() >= RECV_QUEUE_DEPTH {
        q.drop_first().push(d)
    } else {
        q.push(d)
    }
}

/// The sockets after a datagram arrived for a port, and the task to wake.
pub open spec fn delivered(t: Seq<SocketView>, dst_port: u16, d: DatagramView) -> (
    Seq<SocketView>,
    Option<TaskId>,
) {
    let i = bound_to(t, dst_port, 0);
    if i < t.len() {
        (
            t.update(i, SocketView { recv_q: queued(t[i].recv_q, d), waiter: None, ..t[i] }),
            t[i].waiter,
        )
    } else {
        (t, None)
    }
}

/// The sockets after the oldest datagram of one was taken.
pub open spec fn taken(t: Seq<SocketView>, i: int) -> Seq<SocketView> {
    t.update(i, SocketView { recv_q: t[i].recv_q.drop_first(), ..t[i] })
}

/// The sockets with a new one, and its descriptor.
pub open spec fn with_socket(v: TableView) -> (TableView, i64) {
    let id = v.next_id;
    (
        TableView {
            socks: v.socks.push(
                SocketView { id, local_port: 0, recv_q: Seq::empty(), waiter: None },
            ),
            next_id: (id + 1) as i64,
        },
        id,
    )
}

/// The sockets with a task noted as waiting for a datagram.
pub open spec fn awaited(v: TableView, fd: i64, task: TaskId) -> TableView {
    let t = v.socks;
    let i = sock_of(t, fd, 0);
    if i < t.len() {
        TableView { socks: t.update(i, SocketView { waiter: Some(task), ..t[i] }), ..v }
    } else {
        v
    }
}

/// A socket bound to a port, where no other is; tells whether it was.
pub open spec fn bound(v: TableView, fd: i64, port: u16) -> (TableView, bool) {
    let t = v.socks;
    let i = sock_of(t, fd, 0);
    if !port_taken(t, fd, port) && i < t.len() {
        (TableView { socks: t.update(i, SocketView { local_port: port, ..t[i] }), ..v }, true)
    } else {
        (v, false)
    }
}

/// The oldest datagram of a socket taken, and how much of it there is room for.
pub open spec fn received(v: TableView, fd: i64, room: int) -> Option<
    (TableView, DatagramView, int),
> {
    let t = v.socks;
    let i = sock_of(t, fd, 0);
    if i < t.len() && t[i].recv_q.len() > 0 {
        let d = t[i].recv_q[0];
        Some(
            (
                TableView { socks: taken(t, i), ..v },
                d,
                if d.data.len() <= room {
                    d.data.len() as int
                } else {
                    room
                },
            ),
        )
    } else {
        None
    }
}

/// The sockets without one; the last takes its place.
pub open spec fn without(v: TableView, fd: i64) -> TableView {
    let t = v.socks;
    let i = sock_of(t, fd, 0);
    if i < t.len() {
        TableView { socks: t.update(i, t.last()).drop_last(), ..v }
    } else {
        v
    }
}

impl SocketTable {
    /// No socket; the first gets descriptor 3.
    pub fn new() -> (t: SocketTable)
        ensures
            t@.socks.len() == 0,
            t@.next_id == 3,
    {
        SocketTable { socks: Vec::new(), next_id: 3 }
    }

    /// Create a socket; the result is its descriptor.
    pub fn create(&mut self) -> (fd: i64)
        requires
            old(self)@.next_id < i64::MAX,
        ensures
            (final(self)@, fd) == with_socket(old(self)@),
            fd == old(self)@.next_id,
            final(self)@ == (TableView {
                socks: old(self)@.socks.push(
                    SocketView { id: fd, local_port: 0, recv_q: Seq::empty(), waiter: None },
                ),
                next_id: (fd + 1) as i64,
            }),
    {
        let id: i64 = self.next_id;
        self.next_id = id + 1;
        let s = UdpSocket { id, local_port: 0, recv_q: Vec::new(), waiter: None };
        let ghost sv = s@;
        assert(sv.recv_q =~= Seq::empty());
        self.socks.push(s);
        assert(self@.socks =~= old(self)@.socks.push(sv));
        id
    }

    fn find(&self, fd: i64) -> (r: Option<usize>)
        ensures
            match r {
                Some(i) => i < self.socks@.len() && i == sock_of(self@.socks, fd, 0)
                    && self.socks@[i as int].id == fd,
                None => sock_of(self@.socks, fd, 0) == self.socks@.len(),
            },
    {
        let mut k: usize = 0;
        while k < self.socks.len()
            invariant
                k <= self.socks@.len(),
                sock_of(self@.socks, fd, 0) == sock_of(self@.socks, fd, k as int),
            decreases self.socks@.len() - k,
        {
            assert(self@.socks[k as int] == self.socks@[k as int]@);
            if self.socks[k].id == fd {
                return Some(k);
            }
            k += 1;
        }
        None
    }

    /// Bind a socket to a port that no other has; tells whether that was done.
    pub fn bind(&mut self, fd: i64, port: u16) -> (r: bool)
        ensures
            (final(self)@, r) == bound(old(self)@, fd, port),
            ({
                let t = old(self)@.socks;
                let i = sock_of(t, fd, 0);
                &&& r == (!port_taken(t, fd, port) && i < t.len())
                &&& final(self)@ == if r {
                    TableView {
                        socks: t.update(i, SocketView { local_port: port, ..t[i] }),
                        ..old(self)@
                    }
                } else {
                    old(self)@
                }
            }),
    {
        let ghost t = self@.socks;
        let mut k: usize = 0;
        while k < self.socks.len()
            invariant
                *self == *old(self),
                t == self@.socks,
                k <= self.socks@.len(),
                forall|j: int|
                    0 <= j < k ==> !((#[trigger] t[j]).local_port == port && t[j].id != fd),
            decreases self.socks@.len() - k,
        {
            assert(t[k as int] == self.socks@[k as int]@);
            if self.socks[k].local_port == port && self.socks[k].id != fd {
                return false;
            }
            k += 1;
        }
        match self.find(fd) {
            Some(i) => {
                assert(t[i as int] == self.socks@[i as int]@);
                self.socks[i].local_port = port;
                assert(self@.socks =~= t.update(
                    i as int,
                    SocketView { local_port: port, ..t[i as int] },
                ));
                true
            },
            None => false,
        }
    }

    /// Put a datagram into the queue of the socket that is bound to its port. The
    /// result is the task to wake.
    pub fn deliver(&mut self, src_ip: u32, dst_port: u16, src_port: u16, data: &[u8]) -> (r: Option<
        TaskId,
    >)
        ensures
            ({
                let d = DatagramView { src_ip, src_port, data: data@ };
                let (socks, waiter) = delivered(old(self)@.socks, dst_port, d);
                &&& final(self)@ == (TableView { socks, ..old(self)@ })
                &&& r == waiter
            }),
    {
        let ghost t = self@.socks;
        let mut k: usize = 0;
        while k < self.socks.len()
            invariant
                *self == *old(self),
                t == self@.socks,
                k <= self.socks@.len(),
                bound_to(t, dst_port, 0) == bound_to(t, dst_port, k as int),
            decreases self.socks@.len() - k,
        {
            assert(t[k as int] == self.socks@[k as int]@);
            if self.socks[k].local_port == dst_port {
                let copy: Vec<u8> = copy_range(data, 0, data.len());
                assert(copy@ =~= data@);
                let d = Datagram { src_ip, src_port, data: copy };
                let ghost dv = d@;
                let ghost q = t[k as int].recv_q;
                let waiter: Option<TaskId> = self.socks[k].waiter;
                if self.socks[k].recv_q.len() >= RECV_QUEUE_DEPTH {
                    let _oldest: Datagram = self.socks[k].recv_q.remove(0);
                }
                self.socks[k].recv_q.push(d);
                self.socks[k].waiter = None;
                proof {
                    assert(self.socks@[k as int]@.recv_q =~= queued(q, dv));
                    assert(self@.socks =~= delivered(t, dst_port, dv).0);
                }
                return waiter;
            }
            k += 1;
        }
        None
    }

    /// Take the oldest datagram of a socket, cut to the buffer: its sender and
    /// how much of it was copied; `None` where there is none.
    pub fn try_recv(&mut self, fd: i64, buf: &mut [u8]) -> (r: Option<(u32, u16, usize)>)
        ensures
            match received(old(self)@, fd, old(buf)@.len() as int) {
                Some((t, d, n)) => r == Some((d.src_ip, d.src_port, n as usize)) && final(self)@ == t
                    && final(buf)@ == splice(old(buf)@, 0, d.data.take(n)),
                None => r is None && final(self)@ == old(self)@ && final(buf)@ == old(buf)@,
            },
            ({
                let t = old(self)@.socks;
                let i = sock_of(t, fd, 0);
                if i < t.len() && t[i].recv_q.len() > 0 {
                    let d = t[i].recv_q[0];
                    let n = if d.data.len() <= old(buf)@.len() {
                        d.data.len() as int
                    } else {
                        old(buf)@.len() as int
                    };
                    &&& r == Some((d.src_ip, d.src_port, n as usize))
                    &&& final(buf)@ == splice(old(buf)@, 0, d.data.take(n))
                    &&& final(self)@ == (TableView { socks: taken(t, i), ..old(self)@ })
                } else {
                    &&& r is None
                    &&& final(buf)@ == old(buf)@
                    &&& final(self)@ == old(self)@
                }
            }),
    {
        let ghost t = self@.socks;
        match self.find(fd) {
            None => None,
            Some(i) => {
                assert(t[i as int] == self.socks@[i as int]@);
                if self.socks[i].recv_q.len() == 0 {
                    return None;
                }
                let ghost q = t[i as int].recv_q;
                assert(q[0] == self.socks@[i as int].recv_q@[0]@);
                let d: Datagram = self.socks[i].recv_q.remove(0);
                assert(self.socks@[i as int]@.recv_q =~= q.drop_first());
                assert(self@.socks =~= taken(t, i as int));
                let n: usize = if d.data.len() <= buf.len() {
                    d.data.len()
                } else {
                    buf.len()
                };
                let part: &[u8] = slice_subrange(d.data.as_slice(), 0, n);
                assert(part@ =~= d.data@.take(n as int));
                copy_into(buf, 0, part);
                Some((d.src_ip, d.src_port, n))
            },
        }
    }

    /// As [`SocketTable::try_recv`]; a task that finds nothing is noted as
    /// waiting, and blocks and asks again.
    pub fn recv_blocking(&mut self, fd: i64, buf: &mut [u8], task: TaskId) -> (r: Option<
        (u32, u16, usize),
    >)
        ensures
            match received(old(self)@, fd, old(buf)@.len() as int) {
                Some((t, d, n)) => r == Some((d.src_ip, d.src_port, n as usize)) && final(self)@ == t
                    && final(buf)@ == splice(old(buf)@, 0, d.data.take(n)),
                None => r is None && final(self)@ == awaited(old(self)@, fd, task) && final(buf)@
                    == old(buf)@,
            },
            ({
                let t = old(self)@.socks;
                let i = sock_of(t, fd, 0);
                if i < t.len() && t[i].recv_q.len() > 0 {
                    let d = t[i].recv_q[0];
                    let n = if d.data.len() <= old(buf)@.len() {
                        d.data.len() as int
                    } else {
                        old(buf)@.len() as int
                    };
                    &&& r == Some((d.src_ip, d.src_port, n as usize))
                    &&& final(buf)@ == splice(old(buf)@, 0, d.data.take(n))
                    &&& final(self)@ == (TableView { socks: taken(t, i), ..old(self)@ })
                } else {
                    &&& r is None
                    &&& final(buf)@ == old(buf)@
                    &&& final(self)@ == if i < t.len() {
                        TableView {
                            socks: t.update(i, SocketView { waiter: Some(task), ..t[i] }),
                            ..old(self)@
                        }
                    } else {
                        old(self)@
                    }
                }
            }),
    {
        match self.try_recv(fd, buf) {
            Some(r) => Some(r),
            None => {
                let ghost t = self@.socks;
                if let Some(i) = self.find(fd) {
                    assert(t[i as int] == self.socks@[i as int]@);
                    self.socks[i].waiter = Some(task);
                    assert(self.socks@[i as int]@.recv_q =~= t[i as int].recv_q);
                    assert(self@.socks =~= t.update(
                        i as int,
                        SocketView { waiter: Some(task), ..t[i as int] },
                    ));
                }
                None
            },
        }
    }

    /// Take in a packet. The result is the task to wake.
    pub fn handle(&mut self, src_ip: u32, pkt: &[u8]) -> (r: Option<TaskId>)
        ensures
            if UDP_HDR_LEN <= pkt@.len() && UDP_HDR_LEN <= be16_at(pkt@, 4) <= pkt@.len() {
                let d = DatagramView {
                    src_ip,
                    src_port: be16_at(pkt@, 0),
                    data: pkt@.subrange(UDP_HDR_LEN as int, be16_at(pkt@, 4) as int),
                };
                let (socks, waiter) = delivered(old(self)@.socks, be16_at(pkt@, 2), d);
                &&& final(self)@ == (TableView { socks, ..old(self)@ })
                &&& r == waiter
            } else {
                final(self)@ == old(self)@ && r is None
            },
    {
        if pkt.len() < UDP_HDR_LEN {
            return None;
        }
        let length: usize = get_be16(pkt, 4) as usize;
        if length < UDP_HDR_LEN || length > pkt.len() {
            return None;
        }
        self.deliver(
            src_ip,
            get_be16(pkt, 2),
            get_be16(pkt, 0),
            slice_subrange(pkt, UDP_HDR_LEN, length),
        )
    }

    /// Close a socket; the last one takes its place.
    pub fn close(&mut self, fd: i64)
        ensures
            final(self)@ == without(old(self)@, fd),
            ({
                let t = old(self)@.socks;
                let i = sock_of(t, fd, 0);
                final(self)@ == if i < t.len() {
                    TableView { socks: t.update(i, t.last()).drop_last(), ..old(self)@ }
                } else {
                    old(self)@
                }
            }),
    {
        let ghost t = self@.socks;
        if let Some(i) = self.find(fd) {
            let _closed: UdpSocket = self.socks.swap_remove(i);
            assert(self@.socks =~= t.update(i as int, t.last()).drop_last());
        }
    }

    /// What is sent: nothing from a socket that is not bound or for a datagram
    /// that is too long; a question where the receiver's hardware address is not
    /// known yet; else the datagram.
    pub fn send(
        &self,
        cache: &ArpCache,
        our_mac: &Mac,
        our_ip: u32,
        fd: i64,
        dst_ip: u32,
        dst_port: u16,
        data: &[u8],
    ) -> (r: Sending)
        requires
            cache.wf(),
        ensures
            match r {
                Sending::Refused => sending(
                    self@,
                    cache@,
                    our_mac@,
                    our_ip,
                    fd,
                    dst_ip,
                    dst_port,
                    data@,
                ) is None,
                Sending::Ask(f) => sending(
                    self@,
                    cache@,
                    our_mac@,
                    our_ip,
                    fd,
                    dst_ip,
                    dst_port,
                    data@,
                ) == Some((false, f@)),
                Sending::Frame(f) => sending(
                    self@,
                    cache@,
                    our_mac@,
                    our_ip,
                    fd,
                    dst_ip,
                    dst_port,
                    data@,
                ) == Some((true, f@)),
            },
            ({
                let t = self@.socks;
                let i = sock_of(t, fd, 0);
                let port = if i < t.len() {
                    t[i].local_port
                } else {
                    0
                };
                let a = slot_of(cache@, dst_ip, 0);
                if port == 0 {
                    r is Refused
                } else if a >= cache@.len() {
                    r matches Sending::Ask(f) && f@ == request_of(our_mac@, our_ip, dst_ip)
                } else if IP_HDR_LEN + UDP_HDR_LEN + data@.len() > MAX_FRAME {
                    r is Refused
                } else {
                    r matches Sending::Frame(f) && f@ == datagram_frame(
                        cache@[a]->0.mac@,
                        our_mac@,
                        our_ip,
                        dst_ip,
                        port,
                        dst_port,
                        data@,
                    )
                }
            }),
    {
        proof {
            cache.lemma_len();
        }
        let port: u16 = match self.find(fd) {
            Some(i) => {
                assert(self@.socks[i as int] == self.socks@[i as int]@);
                self.socks[i].local_port
            },
            None => 0,
        };
        if port == 0 {
            return Sending::Refused;
        }
        let dst_mac: Mac = match cache.lookup(dst_ip) {
            Some(m) => m,
            None => {
                return Sending::Ask(send_request(our_mac, our_ip, dst_ip));
            },
        };
        if data.len() > MAX_FRAME - IP_HDR_LEN - UDP_HDR_LEN {
            return Sending::Refused;
        }
        let len: u16 = UDP_HDR_LEN as u16 + data.len() as u16;
        let mut payload: Vec<u8> = build(UDP, our_ip, dst_ip, len, 1);
        push_be16(&mut payload, port);
        push_be16(&mut payload, dst_port);
        push_be16(&mut payload, len);
        push_be16(&mut payload, 0);
        push_bytes(&mut payload, data, 0, data.len());
        assert(data@.subrange(0, data@.len() as int) =~= data@);
        assert(payload@ =~= header_of(UDP, our_ip, dst_ip, len, 1) + datagram_of(
            port,
            dst_port,
            data@,
        ));
        Sending::Frame(frame(&dst_mac, our_mac, IPV4, payload.as_slice()))
    }
}

/// What comes of sending a datagram.
pub enum Sending {
    /// Nothing is sent.
    Refused,
    /// Send this question, and try again once it is answered.
    Ask(Vec<u8>),
    /// Send this frame.
    Frame(Vec<u8>),
}

/// What is sent for a datagram: the frame, where the address of its receiver is known,
/// and else a question for it. Which of the two it is stands in front.
pub open spec fn sending(
    v: TableView,
    cache: Seq<Option<Entry>>,
    our_mac: Seq<u8>,
    our_ip: u32,
    fd: i64,
    dst_ip: u32,
    dst_port: u16,
    data: Seq<u8>,
) -> Option<(bool, Seq<u8>)> {
    let i = sock_of(v.socks, fd, 0);
    let a = slot_of(cache, dst_ip, 0);
    if i >= v.socks.len() || v.socks[i].local_port == 0 {
        None
    } else if a >= cache.len() {
        Some((false, request_of(our_mac, our_ip, dst_ip)))
    } else if IP_HDR_LEN + UDP_HDR_LEN + data.len() > MAX_FRAME {
        None
    } else {
        Some(
            (
                true,
                datagram_frame(
                    cache[a]->0.mac@,
                    our_mac,
                    our_ip,
                    dst_ip,
                    v.socks[i].local_port,
                    dst_port,
                    data,
                ),
            ),
        )
    }
}

/// A datagram with its header; the checksum is left out.
pub open spec fn datagram_of(src_port: u16, dst_port: u16, data: Seq<u8>) -> Seq<u8> {
    be16(src_port) + be16(dst_port) + be16((UDP_HDR_LEN + data.len()) as u16) + be16(0) + data
}

/// The frame that carries a datagram.
pub open spec fn datagram_frame(
    dst_mac: Seq<u8>,
    our_mac: Seq<u8>,
    our_ip: u32,
    dst_ip: u32,
    src_port: u16,
    dst_port: u16,
    data: Seq<u8>,
) -> Seq<u8> {
    frame_of(
        dst_mac,
        our_mac,
        IPV4,
        header_of(UDP, our_ip, dst_ip, (UDP_HDR_LEN + data.len()) as u16, 1) + datagram_of(
            src_port,
            dst_port,
            data,
        ),
    )
}

// ── Laws ─────────────────────────────────────────────────────────────────────

/// No two sockets are bound to one port.
pub open spec fn ports_apart(t: Seq<SocketView>) -> bool {
    forall|i: int, j: int|
        0 <= i < j < t.len() && (#[trigger] t[i]).local_port != 0 ==> t[i].local_port != (
        #[trigger] t[j]).local_port
}

/// Descriptors are different.
pub open spec fn ids_apart(t: Seq<SocketView>) -> bool {
    forall|i: int, j: int| 0 <= i < j < t.len() ==> (#[trigger] t[i]).id != (#[trigger] t[j]).id
}

/// Binding never gives two sockets the same port.
pub proof fn law_ports_stay_apart(t: Seq<SocketView>, fd: i64, port: u16)
    requires
        ports_apart(t),
        ids_apart(t),
        !port_taken(t, fd, port),
        sock_of(t, fd, 0) < t.len(),
    ensures
        ports_apart(
            t.update(
                sock_of(t, fd, 0),
                SocketView { local_port: port, ..t[sock_of(t, fd, 0)] },
            ),
        ),
{
    lemma_sock(t, fd, 0);
    let k = sock_of(t, fd, 0);
    let u = t.update(k, SocketView { local_port: port, ..t[k] });
    assert forall|i: int, j: int|
        0 <= i < j < u.len() && (#[trigger] u[i]).local_port != 0 implies u[i].local_port != (
    #[trigger] u[j]).local_port by {
        if i == k {
            assert(t[j].id != fd);
            assert(!(t[j].local_port == port && t[j].id != fd));
        } else if j == k {
            assert(t[i].id != fd);
            assert(!(t[i].local_port == port && t[i].id != fd));
        } else {
            assert(t[i].local_port != t[j].local_port);
        }
    }
}

proof fn lemma_sock(t: Seq<SocketView>, fd: i64, k: int)
    requires
        0 <= k <= t.len(),
    ensures
        k <= sock_of(t, fd, k) <= t.len(),
        sock_of(t, fd, k) < t.len() ==> t[sock_of(t, fd, k)].id == fd,
    decreases t.len() - k,
{
    if k < t.len() && t[k].id != fd {
        lemma_sock(t, fd, k + 1);
    }
}

proof fn lemma_bound(t: Seq<SocketView>, port: u16, i: int, k: int)
    requires
        ports_apart(t),
        port != 0,
        0 <= k <= i < t.len(),
        t[i].local_port == port,
    ensures
        bound_to(t, port, k) == i,
    decreases i - k,
{
    if k < i {
        assert(t[k].local_port != port);
        lemma_bound(t, port, i, k + 1);
    }
}

/// A datagram for a bound port reaches its socket alone, behind those that wait
/// there; the oldest of them gives way where the queue is full.
pub proof fn law_datagrams_reach_their_socket(t: Seq<SocketView>, i: int, d: DatagramView)
    requires
        ports_apart(t),
        0 <= i < t.len(),
        t[i].local_port != 0,
    ensures
        ({
            let after = delivered(t, t[i].local_port, d).0;
            &&& after[i].recv_q.last() == d
            &&& t[i].recv_q.len() < RECV_QUEUE_DEPTH ==> after[i].recv_q == t[i].recv_q.push(d)
            &&& t[i].recv_q.len() <= RECV_QUEUE_DEPTH ==> after[i].recv_q.len()
                <= RECV_QUEUE_DEPTH
            &&& forall|j: int| 0 <= j < t.len() && j != i ==> after[j] == t[j]
        }),
{
    lemma_bound(t, t[i].local_port, i, 0);
}

} // verus!
