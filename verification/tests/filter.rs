#![allow(dead_code)]

use pcap_engine::capture::parse_capture;
use pcap_engine::filter::filter;

const A: [u8; 4] = [10, 0, 0, 1];
const B: [u8; 4] = [10, 0, 0, 2];
const C: [u8; 4] = [10, 0, 0, 3];
const D: [u8; 4] = [10, 0, 0, 4];
const E: [u8; 4] = [10, 0, 0, 9];

fn v6(last: u8) -> [u8; 16] {
    let mut a = [0u8; 16];
    a[..4].copy_from_slice(&[0x20, 0x01, 0x0d, 0xb8]);
    a[15] = last;
    a
}

/// 0: TCP A->B :443 SYN,ACK; 1: DNS B->C; 2: ICMP C->D; 3: ARP A->E;
/// 4: IPv6 TCP ::1->::2 SYN; 5: LLDP (no addresses); 6: TCP A->C :80 SYN only, len 1400.
fn capture() -> Vec<u8> {
    let big_payload = vec![0u8; 1400 - 14 - 20 - 20];
    let mut last = ipv4_packet(6, A, C, 0, &tcp_segment(51235, 80, 0x02));
    last.extend_from_slice(&big_payload);
    let pkts: [Vec<u8>; 7] = [
        eth_frame(0x0800, &ipv4_packet(6, A, B, 0, &tcp_segment(443, 51234, 0x12))),
        eth_frame(0x0800, &ipv4_packet(17, B, C, 0, &udp_datagram(40000, 53))),
        eth_frame(0x0800, &ipv4_packet(1, C, D, 0, &[8, 0, 0, 0, 0, 1, 0, 1])),
        eth_frame(0x0806, &arp_packet(1, A, E)),
        eth_frame(0x86dd, &ipv6_packet(6, v6(1), v6(2), &tcp_segment(22, 60000, 0x02))),
        eth_frame(0x88cc, &[0u8; 30]),
        eth_frame(0x0800, &last),
    ];
    let secs: Vec<u32> = (100..100 + pkts.len() as u32).collect();
    let entries: Vec<Pkt> = pkts
        .iter()
        .zip(&secs)
        .map(|(d, s)| Pkt { ts_sec: *s, ts_frac: 0, orig_len: d.len() as u32, data: d })
        .collect();
    pcap_file(Endian::LE, false, 1, &entries)
}

fn matches(query: &str) -> Vec<u32> {
    let idx = parse_capture(&capture()).unwrap();
    filter(&idx, query).unwrap()
}

#[test]
fn empty_query_matches_everything() {
    assert_eq!(matches(""), vec![0, 1, 2, 3, 4, 5, 6]);
    assert_eq!(matches("   "), vec![0, 1, 2, 3, 4, 5, 6]);
}

#[test]
fn protocol_keywords() {
    assert_eq!(matches("tcp"), vec![0, 4, 6]);
    assert_eq!(matches("udp"), vec![1]); // DNS counts as udp too
    assert_eq!(matches("dns"), vec![1]);
    assert_eq!(matches("icmp"), vec![2]);
    assert_eq!(matches("arp"), vec![3]);
    assert_eq!(matches("other"), vec![5]);
    assert_eq!(matches("ipv6"), vec![4]);
    assert_eq!(matches("ipv4"), vec![0, 1, 2, 6]); // ARP is excluded even though it carries IPv4 addresses
}

#[test]
fn tcp_flags() {
    assert_eq!(matches("syn"), vec![0, 4, 6]);
    assert_eq!(matches("ack"), vec![0]);
    assert_eq!(matches("syn and ack"), vec![0]);
    assert_eq!(matches("syn and not ack"), vec![4, 6]);
}

#[test]
fn addresses_and_cidr() {
    assert_eq!(matches("10.0.0.1"), vec![0, 3, 6]); // src or dst
    assert_eq!(matches("src 10.0.0.1"), vec![0, 3, 6]);
    assert_eq!(matches("dst 10.0.0.1"), Vec::<u32>::new());
    assert_eq!(matches("host 10.0.0.2"), vec![0, 1]);
    assert_eq!(matches("10.0.0.0/24"), vec![0, 1, 2, 3, 6]);
    assert_eq!(matches("10.0.0.0/30"), vec![0, 1, 2, 3, 6]); // .1-.4 inclusive... check exact bits below
    assert_eq!(matches("2001:db8::1"), vec![4]);
    assert_eq!(matches("2001:db8::/32"), vec![4]);
    assert_eq!(matches("10.0.0.4"), vec![2]);
}

#[test]
fn cidr_boundary_is_exact() {
    // 10.0.0.0/30 covers .0-.3; packet 2 uses .3 and .4, so it matches on src=.3 only.
    assert_eq!(matches("src 10.0.0.0/30"), vec![0, 1, 2, 3, 6]);
    assert_eq!(matches("dst 10.0.0.0/30"), vec![0, 1, 6]); // dst=.2 (pkt0), .3 (pkt1), .3 (pkt6)
}

#[test]
fn ports() {
    assert_eq!(matches("port 443"), vec![0]);
    assert_eq!(matches("sport 443"), vec![0]);
    assert_eq!(matches("dport 443"), Vec::<u32>::new());
    assert_eq!(matches("port 80"), vec![6]);
    assert_eq!(matches("port 22"), vec![4]);
    assert_eq!(matches("port 9"), Vec::<u32>::new());
    // ICMP and ARP have no ports, even though their `detail` field could collide.
    assert_eq!(matches("port 1"), Vec::<u32>::new());
}

#[test]
fn length_comparisons() {
    assert_eq!(matches("len > 1000"), vec![6]);
    assert_eq!(matches("len >= 1400"), vec![6]);
    assert_eq!(matches("len < 50"), vec![1, 2, 3, 5]); // DNS, ICMP, ARP (42), LLDP (44)
    assert_eq!(matches("len <= 42"), vec![1, 2, 3]); // DNS, ICMP, ARP all 42 bytes (LLDP is 44)
    let exact_len = {
        let idx = parse_capture(&capture()).unwrap();
        idx.orig_len[0]
    };
    assert_eq!(matches(&format!("len = {exact_len}")), vec![0]);
    assert_eq!(matches(&format!("len == {exact_len}")), vec![0]);
}

#[test]
fn boolean_combinations_and_precedence() {
    assert_eq!(matches("tcp and port 443"), vec![0]);
    assert_eq!(matches("tcp or arp"), vec![0, 3, 4, 6]);
    assert_eq!(matches("not tcp"), vec![1, 2, 3, 5]);
    // 'not' binds tighter than 'and': (not tcp) and udp
    assert_eq!(matches("not tcp and udp"), vec![1]);
    // Parentheses override precedence.
    assert_eq!(matches("not (tcp and port 443)"), vec![1, 2, 3, 4, 5, 6]);
    assert_eq!(matches("(tcp or arp) and 10.0.0.1"), vec![0, 3, 6]);
    assert_eq!(matches("!tcp && udp"), vec![1]);
    assert_eq!(matches("icmp || arp"), vec![2, 3]);
}

#[test]
fn case_and_whitespace_are_flexible() {
    assert_eq!(matches("TCP AND PORT 443"), vec![0]);
    assert_eq!(matches("  tcp   and   port   443  "), vec![0]);
    assert_eq!(matches("tcp\tand\nport 443"), vec![0]);
}

#[test]
fn unknown_word_reports_position() {
    let idx = parse_capture(&capture()).unwrap();
    let e = filter(&idx, "bogus").unwrap_err();
    assert_eq!(e.position, 0);
    assert!(e.message.contains("bogus"));

    let e = filter(&idx, "tcp and bogus").unwrap_err();
    assert_eq!(e.position, 8);
}

#[test]
fn malformed_queries_report_a_position_and_never_panic() {
    let idx = parse_capture(&capture()).unwrap();
    for q in [
        "tcp and",
        "and tcp",
        "(tcp",
        "tcp)",
        "port",
        "port abc",
        "len",
        "len 5",
        "len > abc",
        "999.999.999.999",
        "10.0.0.1/99",
        "2001:db8::1/200",
        "tcp tcp",
        "()",
        "not",
        "src",
    ] {
        let r = filter(&idx, q);
        assert!(r.is_err(), "expected '{q}' to be rejected");
        let e = r.unwrap_err();
        assert!(e.position <= q.len(), "position out of range for '{q}'");
    }
}

#[test]
fn addr_expression_requires_matching_ip_version() {
    // An IPv4 CIDR should never match an IPv6 packet's slot, and vice versa.
    assert!(!matches("10.0.0.0/0").contains(&4));
    assert!(!matches("::/0").contains(&0));
}

#[test]
fn every_prefix_of_a_query_is_handled_without_panic() {
    let idx = parse_capture(&capture()).unwrap();
    let full = "(tcp and port 443) or (udp and not dns) or 10.0.0.0/24 and len > 100 and not (syn or ack)";
    for cut in 0..=full.len() {
        if !full.is_char_boundary(cut) {
            continue;
        }
        let _ = filter(&idx, &full[..cut]);
    }
}

// ---------------------------------------------------------------- fixtures
// Tiny in-test builders for pcap / pcapng bytes and packets, so fixtures
// are readable and there are no binary files to maintain.

#[derive(Clone, Copy)]
struct Endian {
    big: bool,
}

impl Endian {
    const LE: Endian = Endian { big: false };
    const BE: Endian = Endian { big: true };

    fn u16(self, out: &mut Vec<u8>, v: u16) {
        out.extend_from_slice(&if self.big { v.to_be_bytes() } else { v.to_le_bytes() });
    }
    fn u32(self, out: &mut Vec<u8>, v: u32) {
        out.extend_from_slice(&if self.big { v.to_be_bytes() } else { v.to_le_bytes() });
    }
    fn i64(self, out: &mut Vec<u8>, v: i64) {
        out.extend_from_slice(&if self.big { v.to_be_bytes() } else { v.to_le_bytes() });
    }
}

/// Ethernet + IPv4 (10.0.0.1 -> 10.0.0.2, TCP) + `payload` bytes.
fn eth_ipv4_packet(payload: &[u8]) -> Vec<u8> {
    let mut p = vec![
        0xaa, 0xbb, 0xcc, 0x00, 0x00, 0x01, // dst mac
        0x11, 0x22, 0x33, 0x44, 0x55, 0x66, // src mac
        0x08, 0x00, // ethertype IPv4
    ];
    let total = (20 + payload.len()) as u16;
    p.extend_from_slice(&[0x45, 0x00]);
    p.extend_from_slice(&total.to_be_bytes());
    p.extend_from_slice(&[0, 0, 0, 0, 64, 6, 0, 0]); // id, flags, ttl=64, proto=TCP, csum
    p.extend_from_slice(&[10, 0, 0, 1, 10, 0, 0, 2]);
    p.extend_from_slice(payload);
    p
}

/// Ethernet II frame: fixed MACs, the EtherType, then `payload`.
fn eth_frame(ethertype: u16, payload: &[u8]) -> Vec<u8> {
    let mut p = vec![0x02, 0x00, 0x00, 0x00, 0x00, 0x02, 0x02, 0x00, 0x00, 0x00, 0x00, 0x01];
    p.extend_from_slice(&ethertype.to_be_bytes());
    p.extend_from_slice(payload);
    p
}

/// IPv4 header (20 bytes, TTL 64) with protocol `proto`, addresses, the
/// flags/fragment-offset word `frag`, then `payload`.
fn ipv4_packet(proto: u8, src: [u8; 4], dst: [u8; 4], frag: u16, payload: &[u8]) -> Vec<u8> {
    let total = (20 + payload.len()) as u16;
    let mut p = vec![0x45, 0x00];
    p.extend_from_slice(&total.to_be_bytes());
    p.extend_from_slice(&[0, 0]);
    p.extend_from_slice(&frag.to_be_bytes());
    p.extend_from_slice(&[64, proto, 0, 0]);
    p.extend_from_slice(&src);
    p.extend_from_slice(&dst);
    p.extend_from_slice(payload);
    p
}

/// IPv6 header (40 bytes) with next header `next`, addresses, then `payload`.
fn ipv6_packet(next: u8, src: [u8; 16], dst: [u8; 16], payload: &[u8]) -> Vec<u8> {
    let mut p = vec![0x60, 0, 0, 0];
    p.extend_from_slice(&(payload.len() as u16).to_be_bytes());
    p.extend_from_slice(&[next, 64]);
    p.extend_from_slice(&src);
    p.extend_from_slice(&dst);
    p.extend_from_slice(payload);
    p
}

/// 20-byte TCP header with ports and flag bits.
fn tcp_segment(sport: u16, dport: u16, flags: u8) -> Vec<u8> {
    let mut t = Vec::new();
    t.extend_from_slice(&sport.to_be_bytes());
    t.extend_from_slice(&dport.to_be_bytes());
    t.extend_from_slice(&[0, 0, 0, 1, 0, 0, 0, 0]); // seq, ack
    t.extend_from_slice(&[0x50, flags, 0xff, 0xff, 0, 0, 0, 0]); // offset, flags, window, csum, urg
    t
}

/// 8-byte UDP header with ports and no payload.
fn udp_datagram(sport: u16, dport: u16) -> Vec<u8> {
    let mut u = Vec::new();
    u.extend_from_slice(&sport.to_be_bytes());
    u.extend_from_slice(&dport.to_be_bytes());
    u.extend_from_slice(&[0, 8, 0, 0]);
    u
}

/// 28-byte ARP packet for IPv4 over Ethernet.
fn arp_packet(op: u16, spa: [u8; 4], tpa: [u8; 4]) -> Vec<u8> {
    let mut a = vec![0, 1, 0x08, 0x00, 6, 4];
    a.extend_from_slice(&op.to_be_bytes());
    a.extend_from_slice(&[0x02, 0, 0, 0, 0, 0x01]);
    a.extend_from_slice(&spa);
    a.extend_from_slice(&[0, 0, 0, 0, 0, 0]);
    a.extend_from_slice(&tpa);
    a
}

struct Pkt<'a> {
    ts_sec: u32,
    /// Fraction in the file's own unit (micro or nano).
    ts_frac: u32,
    orig_len: u32,
    data: &'a [u8],
}

/// Legacy pcap file: magic 0xa1b2c3d4 (micro) or 0xa1b23c4d (nano) in the
/// given byte order.
fn pcap_file(e: Endian, nano: bool, linktype: u32, pkts: &[Pkt]) -> Vec<u8> {
    let mut f = Vec::new();
    e.u32(&mut f, if nano { 0xa1b2_3c4d } else { 0xa1b2_c3d4 });
    e.u16(&mut f, 2);
    e.u16(&mut f, 4);
    e.u32(&mut f, 0); // thiszone
    e.u32(&mut f, 0); // sigfigs
    e.u32(&mut f, 65535);
    e.u32(&mut f, linktype);
    for p in pkts {
        e.u32(&mut f, p.ts_sec);
        e.u32(&mut f, p.ts_frac);
        e.u32(&mut f, p.data.len() as u32);
        e.u32(&mut f, p.orig_len);
        f.extend_from_slice(p.data);
    }
    f
}

fn pad4(out: &mut Vec<u8>) {
    while out.len() % 4 != 0 {
        out.push(0);
    }
}

fn block(e: Endian, block_type: u32, body: &[u8]) -> Vec<u8> {
    let mut b = Vec::new();
    let mut padded = body.to_vec();
    pad4(&mut padded);
    let total = (padded.len() + 12) as u32;
    e.u32(&mut b, block_type);
    e.u32(&mut b, total);
    b.extend_from_slice(&padded);
    e.u32(&mut b, total);
    b
}

fn shb(e: Endian) -> Vec<u8> {
    let mut body = Vec::new();
    e.u32(&mut body, 0x1a2b_3c4d);
    e.u16(&mut body, 1);
    e.u16(&mut body, 0);
    e.i64(&mut body, -1);
    block(e, 0x0a0d_0d0a, &body)
}

/// Interface Description Block. `tsresol` adds an if_tsresol option when set.
fn idb(e: Endian, linktype: u16, tsresol: Option<u8>) -> Vec<u8> {
    let mut body = Vec::new();
    e.u16(&mut body, linktype);
    e.u16(&mut body, 0);
    e.u32(&mut body, 65535);
    if let Some(r) = tsresol {
        e.u16(&mut body, 9); // if_tsresol
        e.u16(&mut body, 1);
        body.push(r);
        pad4(&mut body);
        e.u16(&mut body, 0); // opt_endofopt
        e.u16(&mut body, 0);
    }
    block(e, 0x0000_0001, &body)
}

fn epb(e: Endian, if_id: u32, ticks: u64, orig_len: u32, data: &[u8]) -> Vec<u8> {
    let mut body = Vec::new();
    e.u32(&mut body, if_id);
    e.u32(&mut body, (ticks >> 32) as u32);
    e.u32(&mut body, ticks as u32);
    e.u32(&mut body, data.len() as u32);
    e.u32(&mut body, orig_len);
    body.extend_from_slice(data);
    block(e, 0x0000_0006, &body)
}

fn concat(parts: &[Vec<u8>]) -> Vec<u8> {
    parts.iter().flatten().copied().collect()
}
