#![allow(dead_code)]

use pcap_engine::capture::{parse_capture, Format, ParseError};

const RES_MICRO: u32 = 1_700_000_000;

fn assert_data_at_offsets(file: &[u8], idx: &pcap_engine::capture::PacketIndex, expected: &[&[u8]]) {
    assert_eq!(idx.len(), expected.len());
    for (i, want) in expected.iter().enumerate() {
        let off = idx.offset[i] as usize;
        let cap = idx.cap_len[i] as usize;
        assert_eq!(&file[off..off + cap], *want, "packet {i} bytes at recorded offset");
    }
}

// ---------- legacy pcap ----------

#[test]
fn pcap_micro_little_endian() {
    let a = eth_ipv4_packet(b"hello");
    let b = eth_ipv4_packet(b"world!!");
    let file = pcap_file(
        Endian::LE,
        false,
        1,
        &[
            Pkt { ts_sec: RES_MICRO, ts_frac: 250_000, orig_len: a.len() as u32, data: &a },
            // captured shorter than original (snaplen-style truncation)
            Pkt { ts_sec: RES_MICRO + 1, ts_frac: 5, orig_len: 1500, data: &b },
        ],
    );
    let idx = parse_capture(&file).unwrap();
    assert_eq!(idx.format, Format::Pcap);
    assert!(idx.complete);
    assert_eq!(idx.ts_sec, vec![RES_MICRO, RES_MICRO + 1]);
    assert_eq!(idx.ts_nsec, vec![250_000_000, 5_000]);
    assert_eq!(idx.orig_len, vec![a.len() as u32, 1500]);
    assert_eq!(idx.cap_len, vec![a.len() as u32, b.len() as u32]);
    assert_eq!(idx.linktype, vec![1, 1]);
    assert_data_at_offsets(&file, &idx, &[&a, &b]);
}

#[test]
fn pcap_nano_little_endian() {
    let a = eth_ipv4_packet(b"x");
    let file = pcap_file(
        Endian::LE,
        true,
        1,
        &[Pkt { ts_sec: 10, ts_frac: 123_456_789, orig_len: a.len() as u32, data: &a }],
    );
    let idx = parse_capture(&file).unwrap();
    assert_eq!(idx.ts_sec, vec![10]);
    assert_eq!(idx.ts_nsec, vec![123_456_789]);
}

#[test]
fn pcap_micro_big_endian() {
    let a = eth_ipv4_packet(b"be");
    let file = pcap_file(
        Endian::BE,
        false,
        1,
        &[Pkt { ts_sec: 99, ts_frac: 999_999, orig_len: a.len() as u32, data: &a }],
    );
    let idx = parse_capture(&file).unwrap();
    assert_eq!(idx.ts_sec, vec![99]);
    assert_eq!(idx.ts_nsec, vec![999_999_000]);
    assert_data_at_offsets(&file, &idx, &[&a]);
}

#[test]
fn pcap_nano_big_endian() {
    let a = eth_ipv4_packet(b"be-nano");
    let file = pcap_file(
        Endian::BE,
        true,
        127,
        &[Pkt { ts_sec: 7, ts_frac: 42, orig_len: a.len() as u32, data: &a }],
    );
    let idx = parse_capture(&file).unwrap();
    assert_eq!(idx.ts_nsec, vec![42]);
    assert_eq!(idx.linktype, vec![127]);
}

#[test]
fn pcap_header_only_is_valid_and_empty() {
    let file = pcap_file(Endian::LE, false, 1, &[]);
    let idx = parse_capture(&file).unwrap();
    assert!(idx.is_empty());
    assert!(idx.complete);
}

#[test]
fn pcap_truncated_mid_packet_keeps_earlier_packets() {
    let a = eth_ipv4_packet(b"first");
    let b = eth_ipv4_packet(b"second-packet");
    let full = pcap_file(
        Endian::LE,
        false,
        1,
        &[
            Pkt { ts_sec: 1, ts_frac: 0, orig_len: a.len() as u32, data: &a },
            Pkt { ts_sec: 2, ts_frac: 0, orig_len: b.len() as u32, data: &b },
        ],
    );
    let cut = &full[..full.len() - 5];
    let idx = parse_capture(cut).unwrap();
    assert_eq!(idx.len(), 1);
    assert!(!idx.complete);
    assert!(!idx.issues.is_empty());
    assert_data_at_offsets(cut, &idx, &[&a]);
}

#[test]
fn pcap_truncated_in_record_header() {
    let a = eth_ipv4_packet(b"first");
    let full = pcap_file(
        Endian::LE,
        false,
        1,
        &[
            Pkt { ts_sec: 1, ts_frac: 0, orig_len: a.len() as u32, data: &a },
            Pkt { ts_sec: 2, ts_frac: 0, orig_len: a.len() as u32, data: &a },
        ],
    );
    // Leave only 6 bytes of the second record header.
    let first_end = 24 + 16 + a.len();
    let idx = parse_capture(&full[..first_end + 6]).unwrap();
    assert_eq!(idx.len(), 1);
    assert!(!idx.complete);
}

// ---------- pcapng ----------

#[test]
fn pcapng_multi_interface_with_different_resolutions() {
    let e = Endian::LE;
    let a = eth_ipv4_packet(b"iface0");
    let b = eth_ipv4_packet(b"iface1");
    // if 0: Ethernet, default (microsecond) resolution
    // if 1: RadioTap, nanosecond resolution (if_tsresol = 9)
    let file = concat(&[
        shb(e),
        idb(e, 1, None),
        idb(e, 127, Some(9)),
        epb(e, 0, 1_700_000_000u64 * 1_000_000 + 250_000, a.len() as u32, &a),
        epb(e, 1, 1_700_000_001u64 * 1_000_000_000 + 123_456_789, b.len() as u32, &b),
    ]);
    let idx = parse_capture(&file).unwrap();
    assert_eq!(idx.format, Format::PcapNg);
    assert!(idx.complete);
    assert_eq!(idx.linktype, vec![1, 127]);
    assert_eq!(idx.ts_sec, vec![1_700_000_000, 1_700_000_001]);
    assert_eq!(idx.ts_nsec, vec![250_000_000, 123_456_789]);
    assert_data_at_offsets(&file, &idx, &[&a, &b]);
}

#[test]
fn pcapng_millisecond_resolution() {
    let e = Endian::LE;
    let a = eth_ipv4_packet(b"ms");
    let file = concat(&[
        shb(e),
        idb(e, 1, Some(3)), // 10^3 ticks per second
        epb(e, 0, 5_500, a.len() as u32, &a), // 5.5 s
    ]);
    let idx = parse_capture(&file).unwrap();
    assert_eq!(idx.ts_sec, vec![5]);
    assert_eq!(idx.ts_nsec, vec![500_000_000]);
}

#[test]
fn pcapng_big_endian() {
    let e = Endian::BE;
    let a = eth_ipv4_packet(b"big");
    let file = concat(&[shb(e), idb(e, 1, Some(9)), epb(e, 0, 3_000_000_042, a.len() as u32, &a)]);
    let idx = parse_capture(&file).unwrap();
    assert_eq!(idx.ts_sec, vec![3]);
    assert_eq!(idx.ts_nsec, vec![42]);
    assert_data_at_offsets(&file, &idx, &[&a]);
}

#[test]
fn pcapng_unpadded_packet_length_uses_caplen() {
    // 5-byte packet forces 3 bytes of block padding.
    let e = Endian::LE;
    let data = [1u8, 2, 3, 4, 5];
    let file = concat(&[shb(e), idb(e, 1, None), epb(e, 0, 1_000_000, 5, &data)]);
    let idx = parse_capture(&file).unwrap();
    assert_eq!(idx.cap_len, vec![5]);
    assert_data_at_offsets(&file, &idx, &[&data]);
}

#[test]
fn pcapng_new_section_resets_interfaces() {
    let e = Endian::LE;
    let a = eth_ipv4_packet(b"s1");
    let b = eth_ipv4_packet(b"s2");
    let file = concat(&[
        shb(e),
        idb(e, 1, Some(9)),
        epb(e, 0, 1_000_000_000, a.len() as u32, &a),
        shb(e),
        idb(e, 127, None), // new section: interface 0 is now RadioTap, microseconds
        epb(e, 0, 2_000_000, b.len() as u32, &b),
    ]);
    let idx = parse_capture(&file).unwrap();
    assert_eq!(idx.linktype, vec![1, 127]);
    assert_eq!(idx.ts_sec, vec![1, 2]);
}

#[test]
fn pcapng_packet_for_undeclared_interface_is_kept_with_warning() {
    let e = Endian::LE;
    let a = eth_ipv4_packet(b"?");
    let file = concat(&[shb(e), epb(e, 3, 1_000_000, a.len() as u32, &a)]);
    let idx = parse_capture(&file).unwrap();
    assert_eq!(idx.len(), 1);
    assert!(idx.complete);
    assert!(!idx.issues.is_empty());
}

#[test]
fn pcapng_truncated_keeps_earlier_packets() {
    let e = Endian::LE;
    let a = eth_ipv4_packet(b"one");
    let b = eth_ipv4_packet(b"two-two");
    let full = concat(&[
        shb(e),
        idb(e, 1, None),
        epb(e, 0, 1_000_000, a.len() as u32, &a),
        epb(e, 0, 2_000_000, b.len() as u32, &b),
    ]);
    let cut = &full[..full.len() - 9];
    let idx = parse_capture(cut).unwrap();
    assert_eq!(idx.len(), 1);
    assert!(!idx.complete);
    assert!(!idx.issues.is_empty());
}

#[test]
fn pcapng_with_no_packets() {
    let e = Endian::LE;
    let file = concat(&[shb(e), idb(e, 1, None)]);
    let idx = parse_capture(&file).unwrap();
    assert!(idx.is_empty());
    assert!(idx.complete);
}

// ---------- rejection & robustness ----------

#[test]
fn empty_and_tiny_inputs_are_rejected() {
    assert_eq!(parse_capture(&[]).unwrap_err(), ParseError::TooShort);
    assert_eq!(parse_capture(&[0xd4, 0xc3, 0xb2, 0xa1]).unwrap_err(), ParseError::TooShort);
}

#[test]
fn garbage_is_rejected() {
    let junk = vec![0x42u8; 4096];
    assert_eq!(parse_capture(&junk).unwrap_err(), ParseError::NotACapture);
    let text = b"GET / HTTP/1.1\r\nHost: example.com\r\nUser-Agent: not-a-pcap\r\n\r\n";
    assert_eq!(parse_capture(text).unwrap_err(), ParseError::NotACapture);
}

#[test]
fn every_truncation_point_is_handled_without_panic() {
    let e = Endian::LE;
    let a = eth_ipv4_packet(b"payload-a");
    let b = eth_ipv4_packet(b"payload-bb");
    let ng = concat(&[
        shb(e),
        idb(e, 1, Some(9)),
        epb(e, 0, 1_000_000_000, a.len() as u32, &a),
        epb(e, 0, 2_000_000_000, b.len() as u32, &b),
    ]);
    let legacy = pcap_file(
        e,
        false,
        1,
        &[
            Pkt { ts_sec: 1, ts_frac: 0, orig_len: a.len() as u32, data: &a },
            Pkt { ts_sec: 2, ts_frac: 0, orig_len: b.len() as u32, data: &b },
        ],
    );
    for file in [&ng, &legacy] {
        for cut in 0..=file.len() {
            match parse_capture(&file[..cut]) {
                Ok(idx) => {
                    // Whatever was parsed must point at real bytes in the input.
                    for i in 0..idx.len() {
                        let end = idx.offset[i] as usize + idx.cap_len[i] as usize;
                        assert!(end <= cut, "packet {i} extends past truncated input");
                    }
                }
                Err(_) => {}
            }
        }
    }
}

#[test]
fn corrupted_bytes_never_panic() {
    let e = Endian::LE;
    let a = eth_ipv4_packet(b"payload");
    let base = concat(&[
        shb(e),
        idb(e, 1, None),
        epb(e, 0, 1_000_000, a.len() as u32, &a),
        epb(e, 0, 2_000_000, a.len() as u32, &a),
    ]);
    for i in 0..base.len() {
        for flip in [0x00u8, 0xff, 0x80] {
            let mut f = base.clone();
            f[i] = flip;
            if let Ok(idx) = parse_capture(&f) {
                for j in 0..idx.len() {
                    let end = idx.offset[j] as usize + idx.cap_len[j] as usize;
                    assert!(end <= f.len());
                }
            }
        }
    }
}

// ---------------------------------------------------------------- fixtures
// Tiny in-test builders for pcap / pcapng bytes and packets, so fixtures
// are readable and there are no binary files to maintain.

#[derive(Clone, Copy)]
struct Endian {
    big: bool,
}

impl Endian {
    const LE: Endian = Endian { big: false };
    const BE: Endian = Endian { big: true };

    fn u16(self, out: &mut Vec<u8>, v: u16) {
        out.extend_from_slice(&if self.big { v.to_be_bytes() } else { v.to_le_bytes() });
    }
    fn u32(self, out: &mut Vec<u8>, v: u32) {
        out.extend_from_slice(&if self.big { v.to_be_bytes() } else { v.to_le_bytes() });
    }
    fn i64(self, out: &mut Vec<u8>, v: i64) {
        out.extend_from_slice(&if self.big { v.to_be_bytes() } else { v.to_le_bytes() });
    }
}

/// Ethernet + IPv4 (10.0.0.1 -> 10.0.0.2, TCP) + `payload` bytes.
fn eth_ipv4_packet(payload: &[u8]) -> Vec<u8> {
    let mut p = vec![
        0xaa, 0xbb, 0xcc, 0x00, 0x00, 0x01, // dst mac
        0x11, 0x22, 0x33, 0x44, 0x55, 0x66, // src mac
        0x08, 0x00, // ethertype IPv4
    ];
    let total = (20 + payload.len()) as u16;
    p.extend_from_slice(&[0x45, 0x00]);
    p.extend_from_slice(&total.to_be_bytes());
    p.extend_from_slice(&[0, 0, 0, 0, 64, 6, 0, 0]); // id, flags, ttl=64, proto=TCP, csum
    p.extend_from_slice(&[10, 0, 0, 1, 10, 0, 0, 2]);
    p.extend_from_slice(payload);
    p
}

/// Ethernet II frame: fixed MACs, the EtherType, then `payload`.
fn eth_frame(ethertype: u16, payload: &[u8]) -> Vec<u8> {
    let mut p = vec![0x02, 0x00, 0x00, 0x00, 0x00, 0x02, 0x02, 0x00, 0x00, 0x00, 0x00, 0x01];
    p.extend_from_slice(&ethertype.to_be_bytes());
    p.extend_from_slice(payload);
    p
}

/// IPv4 header (20 bytes, TTL 64) with protocol `proto`, addresses, the
/// flags/fragment-offset word `frag`, then `payload`.
fn ipv4_packet(proto: u8, src: [u8; 4], dst: [u8; 4], frag: u16, payload: &[u8]) -> Vec<u8> {
    let total = (20 + payload.len()) as u16;
    let mut p = vec![0x45, 0x00];
    p.extend_from_slice(&total.to_be_bytes());
    p.extend_from_slice(&[0, 0]);
    p.extend_from_slice(&frag.to_be_bytes());
    p.extend_from_slice(&[64, proto, 0, 0]);
    p.extend_from_slice(&src);
    p.extend_from_slice(&dst);
    p.extend_from_slice(payload);
    p
}

/// IPv6 header (40 bytes) with next header `next`, addresses, then `payload`.
fn ipv6_packet(next: u8, src: [u8; 16], dst: [u8; 16], payload: &[u8]) -> Vec<u8> {
    let mut p = vec![0x60, 0, 0, 0];
    p.extend_from_slice(&(payload.len() as u16).to_be_bytes());
    p.extend_from_slice(&[next, 64]);
    p.extend_from_slice(&src);
    p.extend_from_slice(&dst);
    p.extend_from_slice(payload);
    p
}

/// 20-byte TCP header with ports and flag bits.
fn tcp_segment(sport: u16, dport: u16, flags: u8) -> Vec<u8> {
    let mut t = Vec::new();
    t.extend_from_slice(&sport.to_be_bytes());
    t.extend_from_slice(&dport.to_be_bytes());
    t.extend_from_slice(&[0, 0, 0, 1, 0, 0, 0, 0]); // seq, ack
    t.extend_from_slice(&[0x50, flags, 0xff, 0xff, 0, 0, 0, 0]); // offset, flags, window, csum, urg
    t
}

/// 8-byte UDP header with ports and no payload.
fn udp_datagram(sport: u16, dport: u16) -> Vec<u8> {
    let mut u = Vec::new();
    u.extend_from_slice(&sport.to_be_bytes());
    u.extend_from_slice(&dport.to_be_bytes());
    u.extend_from_slice(&[0, 8, 0, 0]);
    u
}

/// 28-byte ARP packet for IPv4 over Ethernet.
fn arp_packet(op: u16, spa: [u8; 4], tpa: [u8; 4]) -> Vec<u8> {
    let mut a = vec![0, 1, 0x08, 0x00, 6, 4];
    a.extend_from_slice(&op.to_be_bytes());
    a.extend_from_slice(&[0x02, 0, 0, 0, 0, 0x01]);
    a.extend_from_slice(&spa);
    a.extend_from_slice(&[0, 0, 0, 0, 0, 0]);
    a.extend_from_slice(&tpa);
    a
}

struct Pkt<'a> {
    ts_sec: u32,
    /// Fraction in the file's own unit (micro or nano).
    ts_frac: u32,
    orig_len: u32,
    data: &'a [u8],
}

/// Legacy pcap file: magic 0xa1b2c3d4 (micro) or 0xa1b23c4d (nano) in the
/// given byte order.
fn pcap_file(e: Endian, nano: bool, linktype: u32, pkts: &[Pkt]) -> Vec<u8> {
    let mut f = Vec::new();
    e.u32(&mut f, if nano { 0xa1b2_3c4d } else { 0xa1b2_c3d4 });
    e.u16(&mut f, 2);
    e.u16(&mut f, 4);
    e.u32(&mut f, 0); // thiszone
    e.u32(&mut f, 0); // sigfigs
    e.u32(&mut f, 65535);
    e.u32(&mut f, linktype);
    for p in pkts {
        e.u32(&mut f, p.ts_sec);
        e.u32(&mut f, p.ts_frac);
        e.u32(&mut f, p.data.len() as u32);
        e.u32(&mut f, p.orig_len);
        f.extend_from_slice(p.data);
    }
    f
}

fn pad4(out: &mut Vec<u8>) {
    while out.len() % 4 != 0 {
        out.push(0);
    }
}

fn block(e: Endian, block_type: u32, body: &[u8]) -> Vec<u8> {
    let mut b = Vec::new();
    let mut padded = body.to_vec();
    pad4(&mut padded);
    let total = (padded.len() + 12) as u32;
    e.u32(&mut b, block_type);
    e.u32(&mut b, total);
    b.extend_from_slice(&padded);
    e.u32(&mut b, total);
    b
}

fn shb(e: Endian) -> Vec<u8> {
    let mut body = Vec::new();
    e.u32(&mut body, 0x1a2b_3c4d);
    e.u16(&mut body, 1);
    e.u16(&mut body, 0);
    e.i64(&mut body, -1);
    block(e, 0x0a0d_0d0a, &body)
}

/// Interface Description Block. `tsresol` adds an if_tsresol option when set.
fn idb(e: Endian, linktype: u16, tsresol: Option<u8>) -> Vec<u8> {
    let mut body = Vec::new();
    e.u16(&mut body, linktype);
    e.u16(&mut body, 0);
    e.u32(&mut body, 65535);
    if let Some(r) = tsresol {
        e.u16(&mut body, 9); // if_tsresol
        e.u16(&mut body, 1);
        body.push(r);
        pad4(&mut body);
        e.u16(&mut body, 0); // opt_endofopt
        e.u16(&mut body, 0);
    }
    block(e, 0x0000_0001, &body)
}

fn epb(e: Endian, if_id: u32, ticks: u64, orig_len: u32, data: &[u8]) -> Vec<u8> {
    let mut body = Vec::new();
    e.u32(&mut body, if_id);
    e.u32(&mut body, (ticks >> 32) as u32);
    e.u32(&mut body, ticks as u32);
    e.u32(&mut body, data.len() as u32);
    e.u32(&mut body, orig_len);
    body.extend_from_slice(data);
    block(e, 0x0000_0006, &body)
}

fn concat(parts: &[Vec<u8>]) -> Vec<u8> {
    parts.iter().flatten().copied().collect()
}
