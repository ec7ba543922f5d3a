#![allow(dead_code)]

use pcap_engine::capture::parse_capture;
use pcap_engine::dissect::{dissect, PROTO_DNS, PROTO_TCP, PROTO_UDP};
use pcap_engine::filter::filter;
use pcap_engine::link::link_preview;
use pcap_engine::summary::summarize;

const A: [u8; 4] = [10, 0, 0, 1];
const B: [u8; 4] = [10, 0, 0, 2];
const C: [u8; 4] = [10, 0, 0, 3];

fn v6(last: u8) -> [u8; 16] {
    let mut a = [0u8; 16];
    a[..4].copy_from_slice(&[0x20, 0x01, 0x0d, 0xb8]);
    a[15] = last;
    a
}

fn packets() -> Vec<Vec<u8>> {
    vec![
        eth_frame(0x0800, &ipv4_packet(6, A, B, 0, &tcp_segment(443, 51234, 0x12))),
        eth_frame(0x0800, &ipv4_packet(17, B, C, 0, &udp_datagram(40000, 53))),
        eth_frame(0x0806, &arp_packet(1, A, C)),
        eth_frame(0x86dd, &ipv6_packet(6, v6(1), v6(2), &tcp_segment(22, 60000, 0x02))),
        eth_frame(0x88cc, &[0u8; 30]),
        eth_frame(0x0800, &ipv4_packet(1, C, C, 0, &[8, 0, 0, 0])),
    ]
}

fn file(secs: &[u32]) -> Vec<u8> {
    let ps = packets();
    let pkts: Vec<Pkt> = ps
        .iter()
        .zip(secs)
        .map(|(d, s)| Pkt { ts_sec: *s, ts_frac: 0, orig_len: d.len() as u32, data: d })
        .collect();
    pcap_file(Endian::LE, false, 1, &pkts)
}

#[test]
fn filter_results_are_ordered_and_split_the_capture_with_not() {
    let idx = parse_capture(&file(&[1, 2, 3, 4, 5, 6])).unwrap();
    let n = idx.len() as u32;
    for q in ["tcp", "udp or arp", "10.0.0.3", "port 53", "len > 50", "syn", "ipv4 and not arp"] {
        let yes = filter(&idx, q).unwrap();
        let no = filter(&idx, &format!("not ({q})")).unwrap();
        assert!(yes.windows(2).all(|w| w[0] < w[1]), "{q}: increasing");
        assert!(yes.iter().all(|&i| i < n), "{q}: in range");
        let mut all: Vec<u32> = yes.iter().chain(no.iter()).copied().collect();
        all.sort();
        assert_eq!(all, (0..n).collect::<Vec<u32>>(), "{q}: not splits the capture");
    }
}

#[test]
fn blank_queries_select_every_packet() {
    let idx = parse_capture(&file(&[1, 2, 3, 4, 5, 6])).unwrap();
    assert_eq!(filter(&idx, " \t\n\r ").unwrap(), vec![0, 1, 2, 3, 4, 5]);
}

#[test]
fn address_terms_keep_their_ip_version() {
    let idx = parse_capture(&file(&[1, 2, 3, 4, 5, 6])).unwrap();
    assert_eq!(filter(&idx, "0.0.0.0/0").unwrap(), vec![0, 1, 2, 5]);
    assert_eq!(filter(&idx, "::/0").unwrap(), vec![3]);
}

#[test]
fn header_hex_is_the_first_bytes_under_every_link_type() {
    let data: Vec<u8> = (0u8..60).collect();
    for len in 0..=data.len() {
        for lt in [0u16, 1, 101, 105, 113, 127, 228, 229, 9999, u16::MAX] {
            let p = link_preview(&data[..len], lt);
            let shown = len.min(32);
            assert_eq!(p.header_hex.len(), 2 * shown);
            let want: String = data[..shown].iter().map(|b| format!("{b:02x}")).collect();
            assert_eq!(p.header_hex, want);
        }
    }
}

#[test]
fn preview_kinds_are_the_documented_ones() {
    let kinds = ["ethernet", "radiotap", "ieee802_11", "ipv4", "ipv6", "loopback", "linux_sll", "unknown"];
    for pkt in packets() {
        for cut in [0, 1, 4, 14, 20, pkt.len()] {
            let cut = cut.min(pkt.len());
            for lt in [0u16, 1, 101, 105, 113, 127, 228, 229, 9999] {
                let p = link_preview(&pkt[cut..], lt);
                assert!(kinds.contains(&p.kind.as_str()), "{}", p.kind);
            }
        }
    }
}

#[test]
fn protocol_rows_cover_every_packet() {
    let idx = parse_capture(&file(&[1, 2, 3, 4, 5, 6])).unwrap();
    let s = summarize(&idx);
    let rows: u32 = s.protocols.iter().map(|p| p.packets).sum();
    assert_eq!(rows, s.total_packets);
    let bytes: u64 = s.protocols.iter().map(|p| p.bytes).sum();
    assert_eq!(bytes, s.total_bytes);
}

#[test]
fn first_timestamp_is_not_after_the_last() {
    let idx = parse_capture(&file(&[9, 3, 0, 12, 5, 7])).unwrap();
    let s = summarize(&idx);
    assert_eq!((s.first_sec, s.last_sec), (3, 12));
    assert!(s.duration_nanos() >= 0);
    assert_eq!(s.duration_nanos(), 9_000_000_000);
}

#[test]
fn talker_counts_stay_within_the_totals() {
    let idx = parse_capture(&file(&[1, 2, 3, 4, 5, 6])).unwrap();
    let s = summarize(&idx);
    for t in &s.top_talkers {
        assert!(t.packets <= s.total_packets);
        assert!(t.bytes <= s.total_bytes);
    }
    // 10.0.0.3 talks to itself in the last packet: counted once there.
    let c = s.top_talkers.iter().find(|t| t.ip_version == 4 && t.addr[..4] == C).unwrap();
    assert_eq!(c.packets, 3);
}

#[test]
fn dissected_fields_stay_in_range() {
    for pkt in packets() {
        for cut in 0..=pkt.len() {
            for lt in [0u16, 1, 101, 113, 127, 228, 229, 9999] {
                let m = dissect(&pkt[..cut], lt);
                assert!(m.proto <= PROTO_DNS);
                assert!(matches!(m.ip_version, 0 | 4 | 6));
                if m.ip_version == 0 {
                    assert_eq!((m.src, m.dst), ([0u8; 16], [0u8; 16]));
                }
                if m.src_port != 0 || m.dst_port != 0 {
                    assert!(matches!(m.proto, PROTO_TCP | PROTO_UDP | PROTO_DNS));
                }
            }
        }
    }
}

#[test]
fn a_cut_legacy_file_keeps_the_packets_before_the_cut() {
    let f = file(&[1, 2, 3, 4, 5, 6]);
    let whole = parse_capture(&f).unwrap();
    for cut in 24..=f.len() {
        let part = parse_capture(&f[..cut]).unwrap();
        let k = part.len();
        assert!(k <= whole.len());
        assert_eq!(part.ts_sec[..], whole.ts_sec[..k]);
        assert_eq!(part.offset[..], whole.offset[..k]);
        assert_eq!(part.cap_len[..], whole.cap_len[..k]);
        assert_eq!(part.proto[..], whole.proto[..k]);
        assert_eq!(part.addr[..], whole.addr[..32 * k]);
    }
}

#[test]
fn and_or_of_parenthesised_queries_intersect_and_unite() {
    let idx = parse_capture(&file(&[1, 2, 3, 4, 5, 6])).unwrap();
    let queries = ["tcp", "10.0.0.3", "len > 50", "port 53 or arp", "not ipv4"];
    for a in queries {
        for b in queries {
            let ra = filter(&idx, a).unwrap();
            let rb = filter(&idx, b).unwrap();
            let both: Vec<u32> = ra.iter().copied().filter(|i| rb.contains(i)).collect();
            let mut either: Vec<u32> = ra.iter().chain(rb.iter()).copied().collect();
            either.sort();
            either.dedup();
            assert_eq!(filter(&idx, &format!("({a}) and ({b})")).unwrap(), both, "{a} / {b}");
            assert_eq!(filter(&idx, &format!("({a}) or ({b})")).unwrap(), either, "{a} / {b}");
        }
    }
}

#[test]
fn the_time_span_does_not_depend_on_packet_order() {
    let a = summarize(&parse_capture(&file(&[4, 9, 2, 7, 3, 8])).unwrap());
    let b = summarize(&parse_capture(&file(&[9, 8, 7, 4, 3, 2])).unwrap());
    assert_eq!((a.first_sec, a.last_sec), (2, 9));
    assert_eq!((b.first_sec, b.last_sec), (2, 9));
}

#[test]
fn dissected_udp_dns_and_ipv4_details() {
    for pkt in packets() {
        for cut in 0..=pkt.len() {
            let m = dissect(&pkt[..cut], 1);
            if m.ip_version == 4 {
                assert_eq!((&m.src[4..], &m.dst[4..]), (&[0u8; 12][..], &[0u8; 12][..]));
            }
            if m.proto == PROTO_DNS {
                assert!(m.src_port == 53 || m.dst_port == 53);
            }
            if m.proto == PROTO_UDP {
                assert!(m.src_port != 53 && m.dst_port != 53);
            }
            for lt in [2u16, 105, 127, 9999, u16::MAX] {
                assert_eq!(dissect(&pkt[..cut], lt), pcap_engine::dissect::Meta::default());
            }
        }
    }
}

#[test]
fn prefix_lengths_count_leading_bits() {
    let idx = parse_capture(&file(&[1, 2, 3, 4, 5, 6])).unwrap();
    // 10.0.0.2 = ...0000_0010, 10.0.0.3 = ...0000_0011
    assert_eq!(filter(&idx, "src 10.0.0.2/31").unwrap(), vec![1, 5]);
    assert_eq!(filter(&idx, "src 10.0.0.2/32").unwrap(), vec![1]);
    assert_eq!(filter(&idx, "src 0.0.0.0/0").unwrap(), vec![0, 1, 2, 5]);
    assert_eq!(filter(&idx, "dst 2001:db8::3/127").unwrap(), vec![3]);
    assert_eq!(filter(&idx, "dst 2001:db8::4/127").unwrap(), Vec::<u32>::new());
}

// ---------------------------------------------------------------- fixtures
// Tiny in-test builders for pcap / pcapng bytes and packets, so fixtures
// are readable and there are no binary files to maintain.

#[derive(Clone, Copy)]
struct Endian {
    big: bool,
}

impl Endian {
    const LE: Endian = Endian { big: false };
    const BE: Endian = Endian { big: true };

    fn u16(self, out: &mut Vec<u8>, v: u16) {
        out.extend_from_slice(&if self.big { v.to_be_bytes() } else { v.to_le_bytes() });
    }
    fn u32(self, out: &mut Vec<u8>, v: u32) {
        out.extend_from_slice(&if self.big { v.to_be_bytes() } else { v.to_le_bytes() });
    }
    fn i64(self, out: &mut Vec<u8>, v: i64) {
        out.extend_from_slice(&if self.big { v.to_be_bytes() } else { v.to_le_bytes() });
    }
}

/// Ethernet + IPv4 (10.0.0.1 -> 10.0.0.2, TCP) + `payload` bytes.
fn eth_ipv4_packet(payload: &[u8]) -> Vec<u8> {
    let mut p = vec![
        0xaa, 0xbb, 0xcc, 0x00, 0x00, 0x01, // dst mac
        0x11, 0x22, 0x33, 0x44, 0x55, 0x66, // src mac
        0x08, 0x00, // ethertype IPv4
    ];
    let total = (20 + payload.len()) as u16;
    p.extend_from_slice(&[0x45, 0x00]);
    p.extend_from_slice(&total.to_be_bytes());
    p.extend_from_slice(&[0, 0, 0, 0, 64, 6, 0, 0]); // id, flags, ttl=64, proto=TCP, csum
    p.extend_from_slice(&[10, 0, 0, 1, 10, 0, 0, 2]);
    p.extend_from_slice(payload);
    p
}

/// Ethernet II frame: fixed MACs, the EtherType, then `payload`.
fn eth_frame(ethertype: u16, payload: &[u8]) -> Vec<u8> {
    let mut p = vec![0x02, 0x00, 0x00, 0x00, 0x00, 0x02, 0x02, 0x00, 0x00, 0x00, 0x00, 0x01];
    p.extend_from_slice(&ethertype.to_be_bytes());
    p.extend_from_slice(payload);
    p
}

/// IPv4 header (20 bytes, TTL 64) with protocol `proto`, addresses, the
/// flags/fragment-offset word `frag`, then `payload`.
fn ipv4_packet(proto: u8, src: [u8; 4], dst: [u8; 4], frag: u16, payload: &[u8]) -> Vec<u8> {
    let total = (20 + payload.len()) as u16;
    let mut p = vec![0x45, 0x00];
    p.extend_from_slice(&total.to_be_bytes());
    p.extend_from_slice(&[0, 0]);
    p.extend_from_slice(&frag.to_be_bytes());
    p.extend_from_slice(&[64, proto, 0, 0]);
    p.extend_from_slice(&src);
    p.extend_from_slice(&dst);
    p.extend_from_slice(payload);
    p
}

/// IPv6 header (40 bytes) with next header `next`, addresses, then `payload`.
fn ipv6_packet(next: u8, src: [u8; 16], dst: [u8; 16], payload: &[u8]) -> Vec<u8> {
    let mut p = vec![0x60, 0, 0, 0];
    p.extend_from_slice(&(payload.len() as u16).to_be_bytes());
    p.extend_from_slice(&[next, 64]);
    p.extend_from_slice(&src);
    p.extend_from_slice(&dst);
    p.extend_from_slice(payload);
    p
}

/// 20-byte TCP header with ports and flag bits.
fn tcp_segment(sport: u16, dport: u16, flags: u8) -> Vec<u8> {
    let mut t = Vec::new();
    t.extend_from_slice(&sport.to_be_bytes());
    t.extend_from_slice(&dport.to_be_bytes());
    t.extend_from_slice(&[0, 0, 0, 1, 0, 0, 0, 0]); // seq, ack
    t.extend_from_slice(&[0x50, flags, 0xff, 0xff, 0, 0, 0, 0]); // offset, flags, window, csum, urg
    t
}

/// 8-byte UDP header with ports and no payload.
fn udp_datagram(sport: u16, dport: u16) -> Vec<u8> {
    let mut u = Vec::new();
    u.extend_from_slice(&sport.to_be_bytes());
    u.extend_from_slice(&dport.to_be_bytes());
    u.extend_from_slice(&[0, 8, 0, 0]);
    u
}

/// 28-byte ARP packet for IPv4 over Ethernet.
fn arp_packet(op: u16, spa: [u8; 4], tpa: [u8; 4]) -> Vec<u8> {
    let mut a = vec![0, 1, 0x08, 0x00, 6, 4];
    a.extend_from_slice(&op.to_be_bytes());
    a.extend_from_slice(&[0x02, 0, 0, 0, 0, 0x01]);
    a.extend_from_slice(&spa);
    a.extend_from_slice(&[0, 0, 0, 0, 0, 0]);
    a.extend_from_slice(&tpa);
    a
}

struct Pkt<'a> {
    ts_sec: u32,
    /// Fraction in the file's own unit (micro or nano).
    ts_frac: u32,
    orig_len: u32,
    data: &'a [u8],
}

/// Legacy pcap file: magic 0xa1b2c3d4 (micro) or 0xa1b23c4d (nano) in the
/// given byte order.
fn pcap_file(e: Endian, nano: bool, linktype: u32, pkts: &[Pkt]) -> Vec<u8> {
    let mut f = Vec::new();
    e.u32(&mut f, if nano { 0xa1b2_3c4d } else { 0xa1b2_c3d4 });
    e.u16(&mut f, 2);
    e.u16(&mut f, 4);
    e.u32(&mut f, 0); // thiszone
    e.u32(&mut f, 0); // sigfigs
    e.u32(&mut f, 65535);
    e.u32(&mut f, linktype);
    for p in pkts {
        e.u32(&mut f, p.ts_sec);
        e.u32(&mut f, p.ts_frac);
        e.u32(&mut f, p.data.len() as u32);
        e.u32(&mut f, p.orig_len);
        f.extend_from_slice(p.data);
    }
    f
}

fn pad4(out: &mut Vec<u8>) {
    while out.len() % 4 != 0 {
        out.push(0);
    }
}

fn block(e: Endian, block_type: u32, body: &[u8]) -> Vec<u8> {
    let mut b = Vec::new();
    let mut padded = body.to_vec();
    pad4(&mut padded);
    let total = (padded.len() + 12) as u32;
    e.u32(&mut b, block_type);
    e.u32(&mut b, total);
    b.extend_from_slice(&padded);
    e.u32(&mut b, total);
    b
}

fn shb(e: Endian) -> Vec<u8> {
    let mut body = Vec::new();
    e.u32(&mut body, 0x1a2b_3c4d);
    e.u16(&mut body, 1);
    e.u16(&mut body, 0);
    e.i64(&mut body, -1);
    block(e, 0x0a0d_0d0a, &body)
}

/// Interface Description Block. `tsresol` adds an if_tsresol option when set.
fn idb(e: Endian, linktype: u16, tsresol: Option<u8>) -> Vec<u8> {
    let mut body = Vec::new();
    e.u16(&mut body, linktype);
    e.u16(&mut body, 0);
    e.u32(&mut body, 65535);
    if let Some(r) = tsresol {
        e.u16(&mut body, 9); // if_tsresol
        e.u16(&mut body, 1);
        body.push(r);
        pad4(&mut body);
        e.u16(&mut body, 0); // opt_endofopt
        e.u16(&mut body, 0);
    }
    block(e, 0x0000_0001, &body)
}

fn epb(e: Endian, if_id: u32, ticks: u64, orig_len: u32, data: &[u8]) -> Vec<u8> {
    let mut body = Vec::new();
    e.u32(&mut body, if_id);
    e.u32(&mut body, (ticks >> 32) as u32);
    e.u32(&mut body, ticks as u32);
    e.u32(&mut body, data.len() as u32);
    e.u32(&mut body, orig_len);
    body.extend_from_slice(data);
    block(e, 0x0000_0006, &body)
}

fn concat(parts: &[Vec<u8>]) -> Vec<u8> {
    parts.iter().flatten().copied().collect()
}
