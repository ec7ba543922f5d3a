#![allow(dead_code)]

use pcap_engine::capture::parse_capture;
use pcap_engine::dissect::{PROTO_ARP, PROTO_DNS, PROTO_ICMP, PROTO_OTHER, PROTO_TCP};
use pcap_engine::summary::{summarize, Summary, TOP_TALKERS};

const A: [u8; 4] = [10, 0, 0, 1];
const B: [u8; 4] = [10, 0, 0, 2];
const C: [u8; 4] = [10, 0, 0, 3];
const D: [u8; 4] = [10, 0, 0, 4];
const E: [u8; 4] = [10, 0, 0, 9];

fn v6(last: u8) -> [u8; 16] {
    let mut a = [0u8; 16];
    a[..4].copy_from_slice(&[0x20, 0x01, 0x0d, 0xb8]);
    a[15] = last;
    a
}

/// Six packets: TCP A->B (54 B), DNS B->C (42), ICMP C->D (42), ARP A->E (42),
/// IPv6 TCP ::1 -> ::2 (74), and an LLDP frame with no addresses (44).
fn sample() -> Vec<Vec<u8>> {
    vec![
        eth_frame(0x0800, &ipv4_packet(6, A, B, 0, &tcp_segment(443, 51234, 0x12))),
        eth_frame(0x0800, &ipv4_packet(17, B, C, 0, &udp_datagram(40000, 53))),
        eth_frame(0x0800, &ipv4_packet(1, C, D, 0, &[8, 0, 0, 0, 0, 1, 0, 1])),
        eth_frame(0x0806, &arp_packet(1, A, E)),
        eth_frame(0x86dd, &ipv6_packet(6, v6(1), v6(2), &tcp_segment(22, 60000, 0x02))),
        eth_frame(0x88cc, &[0u8; 30]),
    ]
}

fn file_from(packets: &[Vec<u8>], secs: &[u32]) -> Vec<u8> {
    let pkts: Vec<Pkt> = packets
        .iter()
        .zip(secs)
        .map(|(d, s)| Pkt { ts_sec: *s, ts_frac: 0, orig_len: d.len() as u32, data: d })
        .collect();
    pcap_file(Endian::LE, false, 1, &pkts)
}

/// The time span in seconds.
fn duration_secs(s: &Summary) -> f64 {
    s.duration_nanos() as f64 / 1e9
}

fn addr4(t: &pcap_engine::summary::Talker) -> [u8; 4] {
    [t.addr[0], t.addr[1], t.addr[2], t.addr[3]]
}

#[test]
fn totals_duration_and_protocol_breakdown() {
    let idx = parse_capture(&file_from(&sample(), &[100, 101, 102, 103, 104, 105])).unwrap();
    let s = summarize(&idx);
    assert_eq!(s.total_packets, 6);
    assert_eq!(s.total_bytes as f64, 298.0);
    assert_eq!(s.captured_bytes as f64, 298.0);
    assert_eq!((s.first_sec, s.last_sec), (100, 105));
    assert_eq!(duration_secs(&s), 5.0);

    let got: Vec<(u8, u32, f64)> = s.protocols.iter().map(|p| (p.proto, p.packets, p.bytes as f64)).collect();
    // Most packets first; ties broken by protocol id.
    let want = vec![
        (PROTO_TCP, 2, 128.0),
        (PROTO_OTHER, 1, 44.0),
        (PROTO_ICMP, 1, 42.0),
        (PROTO_ARP, 1, 42.0),
        (PROTO_DNS, 1, 42.0),
    ];
    assert_eq!(got, want);
}

#[test]
fn top_talkers_count_both_directions_and_rank_by_bytes() {
    let idx = parse_capture(&file_from(&sample(), &[100, 101, 102, 103, 104, 105])).unwrap();
    let s = summarize(&idx);
    // A: TCP 54 + ARP 42 = 96 (2 packets); B: TCP 54 + DNS 42 = 96 (2); C: DNS 42 + ICMP 42 = 84;
    // ::1 and ::2: 74 each; D and E: 42 each.
    assert_eq!(s.top_talkers.len(), 7);
    let t = &s.top_talkers;
    assert_eq!((addr4(&t[0]), t[0].bytes as f64, t[0].packets, t[0].ip_version), (A, 96.0, 2, 4));
    assert_eq!((addr4(&t[1]), t[1].bytes as f64), (B, 96.0));
    assert_eq!((addr4(&t[2]), t[2].bytes as f64, t[2].packets), (C, 84.0, 2));
    assert_eq!((t[3].addr, t[3].bytes as f64, t[3].ip_version), (v6(1), 74.0, 6));
    assert_eq!(t[4].addr, v6(2));
    assert_eq!((addr4(&t[5]), t[5].bytes as f64), (D, 42.0));
    assert_eq!(addr4(&t[6]), E);
}

#[test]
fn a_packet_to_itself_counts_once() {
    let pkt = eth_frame(0x0800, &ipv4_packet(1, A, A, 0, &[8, 0, 0, 0, 0, 1, 0, 1]));
    let idx = parse_capture(&file_from(&[pkt], &[1])).unwrap();
    let s = summarize(&idx);
    assert_eq!(s.top_talkers.len(), 1);
    assert_eq!((s.top_talkers[0].packets, s.top_talkers[0].bytes as f64), (1, 42.0));
}

#[test]
fn only_the_top_ten_talkers_are_kept() {
    let packets: Vec<Vec<u8>> = (1..=20u8)
        .map(|i| eth_frame(0x0800, &ipv4_packet(1, [10, 1, 0, i], [10, 2, 0, i], 0, &[8, 0, 0, 0, 0, 1, 0, 1])))
        .collect();
    let secs: Vec<u32> = (1..=20).collect();
    let idx = parse_capture(&file_from(&packets, &secs)).unwrap();
    assert_eq!(summarize(&idx).top_talkers.len(), TOP_TALKERS);
}

#[test]
fn timestamps_out_of_order_still_give_the_right_span() {
    let idx = parse_capture(&file_from(&sample(), &[105, 100, 103, 101, 104, 102])).unwrap();
    let s = summarize(&idx);
    assert_eq!((s.first_sec, s.last_sec, duration_secs(&s)), (100, 105, 5.0));
}

#[test]
fn nanosecond_precision_in_duration() {
    let pkts = sample();
    let a = Pkt { ts_sec: 10, ts_frac: 100_000_000, orig_len: pkts[0].len() as u32, data: &pkts[0] };
    let b = Pkt { ts_sec: 12, ts_frac: 350_000_000, orig_len: pkts[1].len() as u32, data: &pkts[1] };
    let file = pcap_file(Endian::LE, true, 1, &[a, b]);
    let s = summarize(&parse_capture(&file).unwrap());
    assert_eq!((s.first_nsec, s.last_nsec), (100_000_000, 350_000_000));
    assert!((duration_secs(&s) - 2.25).abs() < 1e-9);
}

#[test]
fn empty_capture_summarises_to_zeros() {
    let file = pcap_file(Endian::LE, false, 1, &[]);
    let s = summarize(&parse_capture(&file).unwrap());
    assert_eq!(s.total_packets, 0);
    assert_eq!((s.total_bytes as f64, duration_secs(&s)), (0.0, 0.0));
    assert!(s.protocols.is_empty() && s.top_talkers.is_empty());
}

#[test]
fn snaplen_truncated_packets_report_wire_and_captured_bytes_separately() {
    let pkts = sample();
    let p = Pkt { ts_sec: 1, ts_frac: 0, orig_len: 1500, data: &pkts[0] };
    let file = pcap_file(Endian::LE, false, 1, &[p]);
    let s = summarize(&parse_capture(&file).unwrap());
    assert_eq!((s.total_bytes as f64, s.captured_bytes as f64), (1500.0, 54.0));
}

// ---------------------------------------------------------------- fixtures
// Tiny in-test builders for pcap / pcapng bytes and packets, so fixtures
// are readable and there are no binary files to maintain.

#[derive(Clone, Copy)]
struct Endian {
    big: bool,
}

impl Endian {
    const LE: Endian = Endian { big: false };
    const BE: Endian = Endian { big: true };

    fn u16(self, out: &mut Vec<u8>, v: u16) {
        out.extend_from_slice(&if self.big { v.to_be_bytes() } else { v.to_le_bytes() });
    }
    fn u32(self, out: &mut Vec<u8>, v: u32) {
        out.extend_from_slice(&if self.big { v.to_be_bytes() } else { v.to_le_bytes() });
    }
    fn i64(self, out: &mut Vec<u8>, v: i64) {
        out.extend_from_slice(&if self.big { v.to_be_bytes() } else { v.to_le_bytes() });
    }
}

/// Ethernet + IPv4 (10.0.0.1 -> 10.0.0.2, TCP) + `payload` bytes.
fn eth_ipv4_packet(payload: &[u8]) -> Vec<u8> {
    let mut p = vec![
        0xaa, 0xbb, 0xcc, 0x00, 0x00, 0x01, // dst mac
        0x11, 0x22, 0x33, 0x44, 0x55, 0x66, // src mac
        0x08, 0x00, // ethertype IPv4
    ];
    let total = (20 + payload.len()) as u16;
    p.extend_from_slice(&[0x45, 0x00]);
    p.extend_from_slice(&total.to_be_bytes());
    p.extend_from_slice(&[0, 0, 0, 0, 64, 6, 0, 0]); // id, flags, ttl=64, proto=TCP, csum
    p.extend_from_slice(&[10, 0, 0, 1, 10, 0, 0, 2]);
    p.extend_from_slice(payload);
    p
}

/// Ethernet II frame: fixed MACs, the EtherType, then `payload`.
fn eth_frame(ethertype: u16, payload: &[u8]) -> Vec<u8> {
    let mut p = vec![0x02, 0x00, 0x00, 0x00, 0x00, 0x02, 0x02, 0x00, 0x00, 0x00, 0x00, 0x01];
    p.extend_from_slice(&ethertype.to_be_bytes());
    p.extend_from_slice(payload);
    p
}

/// IPv4 header (20 bytes, TTL 64) with protocol `proto`, addresses, the
/// flags/fragment-offset word `frag`, then `payload`.
fn ipv4_packet(proto: u8, src: [u8; 4], dst: [u8; 4], frag: u16, payload: &[u8]) -> Vec<u8> {
    let total = (20 + payload.len()) as u16;
    let mut p = vec![0x45, 0x00];
    p.extend_from_slice(&total.to_be_bytes());
    p.extend_from_slice(&[0, 0]);
    p.extend_from_slice(&frag.to_be_bytes());
    p.extend_from_slice(&[64, proto, 0, 0]);
    p.extend_from_slice(&src);
    p.extend_from_slice(&dst);
    p.extend_from_slice(payload);
    p
}

/// IPv6 header (40 bytes) with next header `next`, addresses, then `payload`.
fn ipv6_packet(next: u8, src: [u8; 16], dst: [u8; 16], payload: &[u8]) -> Vec<u8> {
    let mut p = vec![0x60, 0, 0, 0];
    p.extend_from_slice(&(payload.len() as u16).to_be_bytes());
    p.extend_from_slice(&[next, 64]);
    p.extend_from_slice(&src);
    p.extend_from_slice(&dst);
    p.extend_from_slice(payload);
    p
}

/// 20-byte TCP header with ports and flag bits.
fn tcp_segment(sport: u16, dport: u16, flags: u8) -> Vec<u8> {
    let mut t = Vec::new();
    t.extend_from_slice(&sport.to_be_bytes());
    t.extend_from_slice(&dport.to_be_bytes());
    t.extend_from_slice(&[0, 0, 0, 1, 0, 0, 0, 0]); // seq, ack
    t.extend_from_slice(&[0x50, flags, 0xff, 0xff, 0, 0, 0, 0]); // offset, flags, window, csum, urg
    t
}

/// 8-byte UDP header with ports and no payload.
fn udp_datagram(sport: u16, dport: u16) -> Vec<u8> {
    let mut u = Vec::new();
    u.extend_from_slice(&sport.to_be_bytes());
    u.extend_from_slice(&dport.to_be_bytes());
    u.extend_from_slice(&[0, 8, 0, 0]);
    u
}

/// 28-byte ARP packet for IPv4 over Ethernet.
fn arp_packet(op: u16, spa: [u8; 4], tpa: [u8; 4]) -> Vec<u8> {
    let mut a = vec![0, 1, 0x08, 0x00, 6, 4];
    a.extend_from_slice(&op.to_be_bytes());
    a.extend_from_slice(&[0x02, 0, 0, 0, 0, 0x01]);
    a.extend_from_slice(&spa);
    a.extend_from_slice(&[0, 0, 0, 0, 0, 0]);
    a.extend_from_slice(&tpa);
    a
}

struct Pkt<'a> {
    ts_sec: u32,
    /// Fraction in the file's own unit (micro or nano).
    ts_frac: u32,
    orig_len: u32,
    data: &'a [u8],
}

/// Legacy pcap file: magic 0xa1b2c3d4 (micro) or 0xa1b23c4d (nano) in the
/// given byte order.
fn pcap_file(e: Endian, nano: bool, linktype: u32, pkts: &[Pkt]) -> Vec<u8> {
    let mut f = Vec::new();
    e.u32(&mut f, if nano { 0xa1b2_3c4d } else { 0xa1b2_c3d4 });
    e.u16(&mut f, 2);
    e.u16(&mut f, 4);
    e.u32(&mut f, 0); // thiszone
    e.u32(&mut f, 0); // sigfigs
    e.u32(&mut f, 65535);
    e.u32(&mut f, linktype);
    for p in pkts {
        e.u32(&mut f, p.ts_sec);
        e.u32(&mut f, p.ts_frac);
        e.u32(&mut f, p.data.len() as u32);
        e.u32(&mut f, p.orig_len);
        f.extend_from_slice(p.data);
    }
    f
}

fn pad4(out: &mut Vec<u8>) {
    while out.len() % 4 != 0 {
        out.push(0);
    }
}

fn block(e: Endian, block_type: u32, body: &[u8]) -> Vec<u8> {
    let mut b = Vec::new();
    let mut padded = body.to_vec();
    pad4(&mut padded);
    let total = (padded.len() + 12) as u32;
    e.u32(&mut b, block_type);
    e.u32(&mut b, total);
    b.extend_from_slice(&padded);
    e.u32(&mut b, total);
    b
}

fn shb(e: Endian) -> Vec<u8> {
    let mut body = Vec::new();
    e.u32(&mut body, 0x1a2b_3c4d);
    e.u16(&mut body, 1);
    e.u16(&mut body, 0);
    e.i64(&mut body, -1);
    block(e, 0x0a0d_0d0a, &body)
}

/// Interface Description Block. `tsresol` adds an if_tsresol option when set.
fn idb(e: Endian, linktype: u16, tsresol: Option<u8>) -> Vec<u8> {
    let mut body = Vec::new();
    e.u16(&mut body, linktype);
    e.u16(&mut body, 0);
    e.u32(&mut body, 65535);
    if let Some(r) = tsresol {
        e.u16(&mut body, 9); // if_tsresol
        e.u16(&mut body, 1);
        body.push(r);
        pad4(&mut body);
        e.u16(&mut body, 0); // opt_endofopt
        e.u16(&mut body, 0);
    }
    block(e, 0x0000_0001, &body)
}

fn epb(e: Endian, if_id: u32, ticks: u64, orig_len: u32, data: &[u8]) -> Vec<u8> {
    let mut body = Vec::new();
    e.u32(&mut body, if_id);
    e.u32(&mut body, (ticks >> 32) as u32);
    e.u32(&mut body, ticks as u32);
    e.u32(&mut body, data.len() as u32);
    e.u32(&mut body, orig_len);
    body.extend_from_slice(data);
    block(e, 0x0000_0006, &body)
}

fn concat(parts: &[Vec<u8>]) -> Vec<u8> {
    parts.iter().flatten().copied().collect()
}
