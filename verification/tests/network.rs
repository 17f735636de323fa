//! Frames, packets and sockets.

use lythos::net;
use lythos::net::arp;
use lythos::net::arp::ArpCache;
use lythos::net::eth;
use lythos::net::icmp;
use lythos::net::ip;
use lythos::net::udp;
use lythos::net::udp::{Sending, SocketTable};

const ME: [u8; 6] = [2, 0, 0, 0, 0, 1];
const YOU: [u8; 6] = [2, 0, 0, 0, 0, 2];
const MY_IP: u32 = 0x0A00_020F;
const YOUR_IP: u32 = 0x0A00_0202;

#[test]
fn frames_come_back_as_built() {
    let mut buf = [0u8; 64];
    let n = eth::build(&mut buf, &YOU, &ME, eth::IPV4, b"hello");
    assert_eq!(n, 19);
    assert_eq!(&buf[..14], &[2, 0, 0, 0, 0, 2, 2, 0, 0, 0, 0, 1, 8, 0]);
    let (dst, src, kind, payload) = eth::parse(&buf[..n]).unwrap();
    assert_eq!((dst, src, kind), (YOU, ME, 0x0800));
    assert_eq!(payload, b"hello");
    assert_eq!(eth::frame(&YOU, &ME, eth::IPV4, b"hello"), buf[..n].to_vec());
    assert!(eth::parse(&buf[..13]).is_none());
    assert_eq!(eth::mac_broadcast(), [0xFF; 6]);
}

#[test]
fn headers_check_out() {
    // A header from a textbook: its checksum is 0xB861.
    let h = [
        0x45u8, 0x00, 0x00, 0x73, 0x00, 0x00, 0x40, 0x00, 0x40, 0x11, 0x00, 0x00, 0xC0, 0xA8, 0x00,
        0x01, 0xC0, 0xA8, 0x00, 0xC7,
    ];
    assert_eq!(ip::checksum(&h), 0xB861);
    assert_eq!(ip::checksum(&[1]), 0xFEFF);
    assert_eq!(ip::checksum(&[]), 0xFFFF);
    let mut p = ip::build(ip::UDP, MY_IP, YOUR_IP, 3, 7);
    assert_eq!(p.len(), ip::IP_HDR_LEN);
    assert_eq!(ip::checksum(&p), 0);
    p.extend_from_slice(b"abcdef");
    let (src, dst, proto, payload) = ip::parse(&p).unwrap();
    assert_eq!((src, dst, proto), (MY_IP, YOUR_IP, ip::UDP));
    assert_eq!(payload, b"abc");
    assert!(ip::parse(&p[..19]).is_none());
    let mut short = p.clone();
    short[0] = 0x44;
    assert!(ip::parse(&short).is_none());
    let mut inside = p.clone();
    inside[3] = 19;
    assert!(ip::parse(&inside).is_none());
    let mut beyond = p.clone();
    beyond[3] = 27;
    assert!(ip::parse(&beyond).is_none());
}

#[test]
fn addresses_are_learned() {
    let mut c = ArpCache::new();
    assert_eq!(c.lookup(YOUR_IP), None);
    c.insert(YOUR_IP, YOU);
    assert_eq!(c.lookup(YOUR_IP), Some(YOU));
    c.insert(YOUR_IP, ME);
    assert_eq!(c.lookup(YOUR_IP), Some(ME));
    let p = arp::build(arp::OP_REQ, &YOU, YOUR_IP, &[0; 6], MY_IP);
    assert_eq!(p.len(), arp::ARP_LEN);
    assert_eq!(arp::parse(&p), Some((1, YOU, YOUR_IP, [0; 6], MY_IP)));
    assert_eq!(arp::parse(&p[..27]), None);
    let mut c = ArpCache::new();
    let reply = arp::handle(&mut c, &ME, MY_IP, &p).unwrap();
    assert_eq!(c.lookup(YOUR_IP), Some(YOU));
    assert_eq!(reply, arp::send_reply(&ME, MY_IP, &YOU, YOUR_IP));
    let (dst, src, kind, body) = eth::parse(&reply).unwrap();
    assert_eq!((dst, src, kind), (YOU, ME, eth::ARP));
    assert_eq!(arp::parse(body), Some((2, ME, MY_IP, YOU, YOUR_IP)));
    let other = arp::build(arp::OP_REQ, &YOU, YOUR_IP, &[0; 6], 5);
    assert!(arp::handle(&mut c, &ME, MY_IP, &other).is_none());
    let ask = arp::send_request(&ME, MY_IP, YOUR_IP);
    assert_eq!(&ask[..6], &[0xFF; 6]);
}

#[test]
fn pings_are_answered() {
    let mut ping = vec![8u8, 0, 0, 0, 0x12, 0x34, 0, 1, b'p', b'i', b'n', b'g'];
    let c = ip::checksum(&ping);
    ping[2] = (c >> 8) as u8;
    ping[3] = c as u8;
    let f = icmp::handle(&ME, MY_IP, &YOU, YOUR_IP, &ping).unwrap();
    let (dst, _, _, packet) = eth::parse(&f).unwrap();
    assert_eq!(dst, YOU);
    let (src, to, proto, echo) = ip::parse(packet).unwrap();
    assert_eq!((src, to, proto), (MY_IP, YOUR_IP, ip::ICMP));
    assert_eq!(echo[0], icmp::ICMP_ECHO_REPLY);
    assert_eq!(&echo[4..], &ping[4..]);
    assert_eq!(ip::checksum(echo), 0);
    assert!(icmp::handle(&ME, MY_IP, &YOU, YOUR_IP, &[0; 12]).is_none());
    assert!(icmp::handle(&ME, MY_IP, &YOU, YOUR_IP, &[8; 3]).is_none());
}

fn datagram(src_port: u16, dst_port: u16, data: &[u8]) -> Vec<u8> {
    let mut v: Vec<u8> = Vec::new();
    v.extend_from_slice(&src_port.to_be_bytes());
    v.extend_from_slice(&dst_port.to_be_bytes());
    v.extend_from_slice(&((8 + data.len()) as u16).to_be_bytes());
    v.extend_from_slice(&[0, 0]);
    v.extend_from_slice(data);
    v
}

#[test]
fn datagrams_reach_their_socket() {
    let mut t = SocketTable::new();
    let a = t.create();
    let b = t.create();
    assert!(a != b);
    assert!(t.bind(a, 53));
    assert!(!t.bind(99, 54));
    assert!(t.bind(b, 54));
    assert_eq!(t.handle(YOUR_IP, &datagram(1000, 53, b"hello")), None);
    let mut buf = [0u8; 3];
    assert_eq!(t.try_recv(b, &mut buf), None);
    assert_eq!(t.try_recv(a, &mut buf), Some((YOUR_IP, 1000, 3)));
    assert_eq!(&buf, b"hel");
    assert_eq!(t.try_recv(a, &mut buf), None);
    assert_eq!(t.recv_blocking(a, &mut buf, 7), None);
    assert_eq!(t.handle(YOUR_IP, &datagram(1000, 53, b"x")), Some(7));
    assert_eq!(t.recv_blocking(a, &mut buf, 7), Some((YOUR_IP, 1000, 1)));
    for i in 0..(udp::RECV_QUEUE_DEPTH + 5) {
        t.deliver(YOUR_IP, 53, i as u16, b"");
    }
    let mut seen = 0;
    while t.try_recv(a, &mut buf).is_some() {
        seen += 1;
    }
    assert_eq!(seen, udp::RECV_QUEUE_DEPTH);
    t.close(a);
    assert_eq!(t.handle(YOUR_IP, &datagram(1000, 53, b"x")), None);
    assert_eq!(t.try_recv(a, &mut buf), None);
    assert_eq!(t.handle(YOUR_IP, &[0; 7]), None);
}

#[test]
fn sending_needs_an_address() {
    let mut t = SocketTable::new();
    let fd = t.create();
    t.bind(fd, 68);
    let mut c = ArpCache::new();
    assert!(matches!(t.send(&c, &ME, MY_IP, 99, YOUR_IP, 67, b"x"), Sending::Refused));
    match t.send(&c, &ME, MY_IP, fd, YOUR_IP, 67, b"x") {
        Sending::Ask(f) => assert_eq!(f, arp::send_request(&ME, MY_IP, YOUR_IP)),
        _ => panic!("the address is not known"),
    }
    c.insert(YOUR_IP, YOU);
    match t.send(&c, &ME, MY_IP, fd, YOUR_IP, 67, b"data") {
        Sending::Frame(f) => {
            let (_, _, _, packet) = eth::parse(&f).unwrap();
            let (_, to, proto, body) = ip::parse(packet).unwrap();
            assert_eq!((to, proto), (YOUR_IP, ip::UDP));
            assert_eq!(body, datagram(68, 67, b"data").as_slice());
        }
        _ => panic!("the address is known"),
    }
    assert!(matches!(
        t.send(&c, &ME, MY_IP, fd, YOUR_IP, 67, &[0u8; 1500]),
        Sending::Refused
    ));
}

#[test]
fn frames_are_taken_apart() {
    let mut n = net::init(ME);
    assert_eq!(net::our_mac(&n), ME);
    let who = arp::build(arp::OP_REQ, &YOU, YOUR_IP, &[0; 6], net::OUR_IP);
    let o = net::process_frame(&mut n, &eth::frame(&[0xFF; 6], &YOU, eth::ARP, &who));
    assert!(o.send.is_some() && o.wake.is_none());
    assert_eq!(n.cache.lookup(YOUR_IP), Some(YOU));
    let fd = n.sockets.create();
    n.sockets.bind(fd, 53);
    let mut buf = [0u8; 8];
    assert_eq!(n.sockets.recv_blocking(fd, &mut buf, 3), None);
    let body = datagram(9, 53, b"ok");
    let mut packet = ip::build(ip::UDP, YOUR_IP, net::OUR_IP, body.len() as u16, 0);
    packet.extend_from_slice(&body);
    let o = net::process_frame(&mut n, &eth::frame(&ME, &YOU, eth::IPV4, &packet));
    assert!(o.send.is_none());
    assert_eq!(o.wake, Some(3));
    assert_eq!(n.sockets.try_recv(fd, &mut buf), Some((YOUR_IP, 9, 2)));
    // A frame of an unknown type, and one that is too short.
    let o = net::process_frame(&mut n, &eth::frame(&ME, &YOU, 0x86DD, &packet));
    assert!(o.send.is_none() && o.wake.is_none());
    let o = net::process_frame(&mut n, &[1, 2, 3]);
    assert!(o.send.is_none() && o.wake.is_none());
}

#[test]
fn a_full_cache_forgets_its_first_address() {
    let mut c = ArpCache::new();
    for k in 0..arp::CACHE_SIZE as u32 {
        c.insert(100 + k, [k as u8; 6]);
    }
    // An address that is known takes no other's place.
    c.insert(105, ME);
    assert_eq!(c.lookup(100), Some([0; 6]));
    c.insert(500, YOU);
    assert_eq!(c.lookup(500), Some(YOU));
    assert_eq!(c.lookup(100), None);
    assert_eq!(c.lookup(105), Some(ME));
    for k in 1..arp::CACHE_SIZE as u32 {
        if k != 5 {
            assert_eq!(c.lookup(100 + k), Some([k as u8; 6]));
        }
    }
}

#[test]
fn the_stack_starts_empty() {
    let mut n = net::init(ME);
    assert_eq!(n.cache.lookup(0), None);
    assert_eq!(n.cache.lookup(YOUR_IP), None);
    assert_eq!(n.sockets.create(), 3);
    assert_eq!(n.sockets.create(), 4);
}
