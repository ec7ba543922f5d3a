#![allow(dead_code)]

use pcap_engine::link::{
    link_preview, LINKTYPE_ETHERNET, LINKTYPE_IEEE802_11_RADIOTAP, LINKTYPE_NULL, LINKTYPE_RAW,
};

#[test]
fn ethernet_ipv4_preview() {
    let pkt = eth_ipv4_packet(b"data");
    let p = link_preview(&pkt, LINKTYPE_ETHERNET);
    assert_eq!(p.kind, "ethernet");
    assert_eq!(p.dst_mac.as_deref(), Some("aa:bb:cc:00:00:01"));
    assert_eq!(p.src_mac.as_deref(), Some("11:22:33:44:55:66"));
    assert_eq!(p.ethertype, Some(0x0800));
    let ip = p.ipv4.expect("ipv4 preview");
    assert_eq!((ip.src.as_str(), ip.dst.as_str()), ("10.0.0.1", "10.0.0.2"));
    assert_eq!((ip.protocol, ip.ttl, ip.total_len), (6, 64, 24));
    assert!(p.summary.contains("10.0.0.1"));
    assert!(p.header_hex.starts_with("aabbcc000001"));
}

#[test]
fn ethernet_vlan_tag_is_unwrapped() {
    let mut pkt = vec![0u8; 12];
    pkt.extend_from_slice(&[0x81, 0x00, 0x00, 0x2a, 0x08, 0x00]); // VLAN 42 -> IPv4
    pkt.extend_from_slice(&eth_ipv4_packet(b"")[14..]);
    let p = link_preview(&pkt, LINKTYPE_ETHERNET);
    assert_eq!(p.vlan_id, Some(42));
    assert_eq!(p.ethertype, Some(0x0800));
    assert!(p.ipv4.is_some());
}

#[test]
fn ethernet_arp_has_no_ipv4() {
    let mut pkt = vec![0xffu8; 6];
    pkt.extend_from_slice(&[1, 2, 3, 4, 5, 6, 0x08, 0x06]);
    pkt.extend_from_slice(&[0u8; 28]);
    let p = link_preview(&pkt, LINKTYPE_ETHERNET);
    assert_eq!(p.ethertype, Some(0x0806));
    assert!(p.ipv4.is_none());
    assert!(p.summary.contains("ARP"));
}

#[test]
fn radiotap_then_dot11_addresses() {
    // 8-byte radiotap header, then an 802.11 data frame header.
    let mut pkt = vec![0, 0, 8, 0, 0, 0, 0, 0];
    pkt.extend_from_slice(&[0x08, 0x01, 0, 0]); // frame control (data), duration
    pkt.extend_from_slice(&[1, 1, 1, 1, 1, 1]); // addr1 (receiver)
    pkt.extend_from_slice(&[2, 2, 2, 2, 2, 2]); // addr2 (transmitter)
    pkt.extend_from_slice(&[3, 3, 3, 3, 3, 3]);
    let p = link_preview(&pkt, LINKTYPE_IEEE802_11_RADIOTAP);
    assert_eq!(p.kind, "radiotap");
    assert_eq!(p.dst_mac.as_deref(), Some("01:01:01:01:01:01"));
    assert_eq!(p.src_mac.as_deref(), Some("02:02:02:02:02:02"));
    assert!(p.summary.contains("data"));
}

#[test]
fn radiotap_with_bad_length_is_reported_not_fatal() {
    let p = link_preview(&[0, 0, 0xff, 0xff, 0, 0, 0, 0], LINKTYPE_IEEE802_11_RADIOTAP);
    assert!(p.summary.contains("malformed"));
}

#[test]
fn raw_ipv4_and_loopback() {
    let eth = eth_ipv4_packet(b"z");
    let p = link_preview(&eth[14..], LINKTYPE_RAW);
    assert_eq!(p.kind, "ipv4");
    assert!(p.ipv4.is_some());

    let mut lo = vec![2, 0, 0, 0];
    lo.extend_from_slice(&eth[14..]);
    let p = link_preview(&lo, LINKTYPE_NULL);
    assert_eq!(p.kind, "loopback");
    assert!(p.ipv4.is_some());
}

#[test]
fn unknown_linktype_still_gives_hex() {
    let p = link_preview(&[1, 2, 3], 9999);
    assert_eq!(p.kind, "unknown");
    assert_eq!(p.header_hex, "010203");
}

#[test]
fn header_hex_is_capped() {
    let p = link_preview(&[0xabu8; 500], 9999);
    assert_eq!(p.header_hex.len(), 64);
}

#[test]
fn link_any_prefix_of_any_packet_under_any_linktype_never_panics() {
    let mut samples: Vec<Vec<u8>> = vec![
        eth_ipv4_packet(b"abc"),
        vec![0, 0, 8, 0, 0, 0, 0, 0, 0x08, 1, 0, 0, 1, 1, 1, 1, 1, 1, 2, 2, 2, 2, 2, 2],
        vec![0x81, 0, 0x81, 0, 0x81, 0, 0x81, 0],
        vec![0xffu8; 40],
        vec![],
    ];
    samples.push(eth_ipv4_packet(b"")[14..].to_vec());
    for s in &samples {
        for cut in 0..=s.len() {
            for lt in [0u16, 1, 101, 105, 113, 127, 228, 229, 9999, u16::MAX] {
                let _ = link_preview(&s[..cut], lt);
            }
        }
    }
}

// ---------------------------------------------------------------- fixtures
// Tiny in-test builders for pcap / pcapng bytes and packets, so fixtures
// are readable and there are no binary files to maintain.

#[derive(Clone, Copy)]
struct Endian {
    big: bool,
}

impl Endian {
    const LE: Endian = Endian { big: false };
    const BE: Endian = Endian { big: true };

    fn u16(self, out: &mut Vec<u8>, v: u16) {
        out.extend_from_slice(&if self.big { v.to_be_bytes() } else { v.to_le_bytes() });
    }
    fn u32(self, out: &mut Vec<u8>, v: u32) {
        out.extend_from_slice(&if self.big { v.to_be_bytes() } else { v.to_le_bytes() });
    }
    fn i64(self, out: &mut Vec<u8>, v: i64) {
        out.extend_from_slice(&if self.big { v.to_be_bytes() } else { v.to_le_bytes() });
    }
}

/// Ethernet + IPv4 (10.0.0.1 -> 10.0.0.2, TCP) + `payload` bytes.
fn eth_ipv4_packet(payload: &[u8]) -> Vec<u8> {
    let mut p = vec![
        0xaa, 0xbb, 0xcc, 0x00, 0x00, 0x01, // dst mac
        0x11, 0x22, 0x33, 0x44, 0x55, 0x66, // src mac
        0x08, 0x00, // ethertype IPv4
    ];
    let total = (20 + payload.len()) as u16;
    p.extend_from_slice(&[0x45, 0x00]);
    p.extend_from_slice(&total.to_be_bytes());
    p.extend_from_slice(&[0, 0, 0, 0, 64, 6, 0, 0]); // id, flags, ttl=64, proto=TCP, csum
    p.extend_from_slice(&[10, 0, 0, 1, 10, 0, 0, 2]);
    p.extend_from_slice(payload);
    p
}

/// Ethernet II frame: fixed MACs, the EtherType, then `payload`.
fn eth_frame(ethertype: u16, payload: &[u8]) -> Vec<u8> {
    let mut p = vec![0x02, 0x00, 0x00, 0x00, 0x00, 0x02, 0x02, 0x00, 0x00, 0x00, 0x00, 0x01];
    p.extend_from_slice(&ethertype.to_be_bytes());
    p.extend_from_slice(payload);
    p
}

/// IPv4 header (20 bytes, TTL 64) with protocol `proto`, addresses, the
/// flags/fragment-offset word `frag`, then `payload`.
fn ipv4_packet(proto: u8, src: [u8; 4], dst: [u8; 4], frag: u16, payload: &[u8]) -> Vec<u8> {
    let total = (20 + payload.len()) as u16;
    let mut p = vec![0x45, 0x00];
    p.extend_from_slice(&total.to_be_bytes());
    p.extend_from_slice(&[0, 0]);
    p.extend_from_slice(&frag.to_be_bytes());
    p.extend_from_slice(&[64, proto, 0, 0]);
    p.extend_from_slice(&src);
    p.extend_from_slice(&dst);
    p.extend_from_slice(payload);
    p
}

/// IPv6 header (40 bytes) with next header `next`, addresses, then `payload`.
fn ipv6_packet(next: u8, src: [u8; 16], dst: [u8; 16], payload: &[u8]) -> Vec<u8> {
    let mut p = vec![0x60, 0, 0, 0];
    p.extend_from_slice(&(payload.len() as u16).to_be_bytes());
    p.extend_from_slice(&[next, 64]);
    p.extend_from_slice(&src);
    p.extend_from_slice(&dst);
    p.extend_from_slice(payload);
    p
}

/// 20-byte TCP header with ports and flag bits.
fn tcp_segment(sport: u16, dport: u16, flags: u8) -> Vec<u8> {
    let mut t = Vec::new();
    t.extend_from_slice(&sport.to_be_bytes());
    t.extend_from_slice(&dport.to_be_bytes());
    t.extend_from_slice(&[0, 0, 0, 1, 0, 0, 0, 0]); // seq, ack
    t.extend_from_slice(&[0x50, flags, 0xff, 0xff, 0, 0, 0, 0]); // offset, flags, window, csum, urg
    t
}

/// 8-byte UDP header with ports and no payload.
fn udp_datagram(sport: u16, dport: u16) -> Vec<u8> {
    let mut u = Vec::new();
    u.extend_from_slice(&sport.to_be_bytes());
    u.extend_from_slice(&dport.to_be_bytes());
    u.extend_from_slice(&[0, 8, 0, 0]);
    u
}

/// 28-byte ARP packet for IPv4 over Ethernet.
fn arp_packet(op: u16, spa: [u8; 4], tpa: [u8; 4]) -> Vec<u8> {
    let mut a = vec![0, 1, 0x08, 0x00, 6, 4];
    a.extend_from_slice(&op.to_be_bytes());
    a.extend_from_slice(&[0x02, 0, 0, 0, 0, 0x01]);
    a.extend_from_slice(&spa);
    a.extend_from_slice(&[0, 0, 0, 0, 0, 0]);
    a.extend_from_slice(&tpa);
    a
}

struct Pkt<'a> {
    ts_sec: u32,
    /// Fraction in the file's own unit (micro or nano).
    ts_frac: u32,
    orig_len: u32,
    data: &'a [u8],
}

/// Legacy pcap file: magic 0xa1b2c3d4 (micro) or 0xa1b23c4d (nano) in the
/// given byte order.
fn pcap_file(e: Endian, nano: bool, linktype: u32, pkts: &[Pkt]) -> Vec<u8> {
    let mut f = Vec::new();
    e.u32(&mut f, if nano { 0xa1b2_3c4d } else { 0xa1b2_c3d4 });
    e.u16(&mut f, 2);
    e.u16(&mut f, 4);
    e.u32(&mut f, 0); // thiszone
    e.u32(&mut f, 0); // sigfigs
    e.u32(&mut f, 65535);
    e.u32(&mut f, linktype);
    for p in pkts {
        e.u32(&mut f, p.ts_sec);
        e.u32(&mut f, p.ts_frac);
        e.u32(&mut f, p.data.len() as u32);
        e.u32(&mut f, p.orig_len);
        f.extend_from_slice(p.data);
    }
    f
}

fn pad4(out: &mut Vec<u8>) {
    while out.len() % 4 != 0 {
        out.push(0);
    }
}

fn block(e: Endian, block_type: u32, body: &[u8]) -> Vec<u8> {
    let mut b = Vec::new();
    let mut padded = body.to_vec();
    pad4(&mut padded);
    let total = (padded.len() + 12) as u32;
    e.u32(&mut b, block_type);
    e.u32(&mut b, total);
    b.extend_from_slice(&padded);
    e.u32(&mut b, total);
    b
}

fn shb(e: Endian) -> Vec<u8> {
    let mut body = Vec::new();
    e.u32(&mut body, 0x1a2b_3c4d);
    e.u16(&mut body, 1);
    e.u16(&mut body, 0);
    e.i64(&mut body, -1);
    block(e, 0x0a0d_0d0a, &body)
}

/// Interface Description Block. `tsresol` adds an if_tsresol option when set.
fn idb(e: Endian, linktype: u16, tsresol: Option<u8>) -> Vec<u8> {
    let mut body = Vec::new();
    e.u16(&mut body, linktype);
    e.u16(&mut body, 0);
    e.u32(&mut body, 65535);
    if let Some(r) = tsresol {
        e.u16(&mut body, 9); // if_tsresol
        e.u16(&mut body, 1);
        body.push(r);
        pad4(&mut body);
        e.u16(&mut body, 0); // opt_endofopt
        e.u16(&mut body, 0);
    }
    block(e, 0x0000_0001, &body)
}

fn epb(e: Endian, if_id: u32, ticks: u64, orig_len: u32, data: &[u8]) -> Vec<u8> {
    let mut body = Vec::new();
    e.u32(&mut body, if_id);
    e.u32(&mut body, (ticks >> 32) as u32);
    e.u32(&mut body, ticks as u32);
    e.u32(&mut body, data.len() as u32);
    e.u32(&mut body, orig_len);
    body.extend_from_slice(data);
    block(e, 0x0000_0006, &body)
}

fn concat(parts: &[Vec<u8>]) -> Vec<u8> {
    parts.iter().flatten().copied().collect()
}
