#![allow(dead_code)]

use pcap_engine::capture::{parse_capture, PacketIndex};
use pcap_engine::filter::{filter, FilterError};

fn empty_index() -> PacketIndex {
    parse_capture(&pcap_file(Endian::LE, false, 1, &[])).unwrap()
}

fn rejected(q: &str) -> FilterError {
    filter(&empty_index(), q).err().unwrap()
}

fn check(q: &str, message: &str, position: usize) {
    let e = rejected(q);
    assert_eq!((e.message.as_str(), e.position), (message, position), "query {q:?}");
}

#[test]
fn unexpected_character() {
    check("tcp $", "Unexpected character '$'", 4);
    check("a & b", "Unexpected character '&'", 2);
}

#[test]
fn query_ends_too_early() {
    check("tcp and", "The filter ends too early; expected a term", 7);
    check("not", "The filter ends too early; expected a term", 3);
    check("(", "The filter ends too early; expected a term", 1);
}

#[test]
fn parentheses_must_balance() {
    check("(tcp udp", "Expected ')'", 5);
    check("(tcp", "Missing closing ')'", 4);
    check(")", "Unexpected ')'", 0);
}

#[test]
fn operators_need_terms() {
    check("and tcp", "Expected a term before 'and' / 'or'", 0);
    check("|| tcp", "Expected a term before 'and' / 'or'", 0);
    check("> 5", "Unexpected comparison operator", 0);
}

#[test]
fn keywords_need_their_argument() {
    check("port", "Expected a port number after 'port'", 4);
    check("sport (", "Expected a port number after 'sport'", 6);
    check("dst", "Expected an address after 'dst'", 3);
    check("len >", "Expected a number after 'len'", 5);
    check("length", "Expected a comparison such as > or < after 'len'", 6);
    check("len 5", "Expected a comparison such as > or < after 'len'", 4);
}

#[test]
fn numbers_are_checked() {
    check("port abc", "'abc' is not a port number (0 to 65535)", 5);
    check("port 65536", "'65536' is not a port number (0 to 65535)", 5);
    check("len > abc", "'abc' is not a number", 6);
    check("len > 4294967296", "'4294967296' is not a number", 6);
}

#[test]
fn unknown_terms_list_the_choices() {
    check(
        "bogus",
        "Unknown term 'bogus'. Try tcp, udp, dns, icmp, arp, ipv4, ipv6, an address, port N, or len > N",
        0,
    );
}

#[test]
fn address_ranges_are_checked() {
    check("10.0.0.1/x", "'x' is not a valid prefix length", 0);
    check("10.0.0.1/33", "An IPv4 prefix length is at most 32", 0);
    check("host ::1/129", "An IPv6 prefix length is at most 128", 5);
    check("999.999.999.999", "'999.999.999.999' is not a valid IPv4 or IPv6 address", 0);
    check("src 1.2.3", "'1.2.3' is not a valid IPv4 or IPv6 address", 4);
}

#[test]
fn trailing_terms_need_a_connective() {
    check("tcp tcp", "Unexpected text; combine terms with 'and' or 'or'", 4);
}

#[test]
fn error_text_counts_characters_from_one() {
    let e = rejected("tcp and bogus");
    assert_eq!(e.position, 8);
    assert!(e.to_text().starts_with("Unknown term 'bogus'"));
    assert!(e.to_text().ends_with(" (at character 9)"));
}

#[test]
fn positions_are_byte_offsets() {
    // U+2003 EM SPACE is whitespace and three bytes long.
    check("tcp\u{2003}and\u{2003}bogus2", "Unknown term 'bogus2'. Try tcp, udp, dns, icmp, arp, ipv4, ipv6, an address, port N, or len > N", 12);
}

#[test]
fn letters_beyond_ascii_are_part_of_words() {
    check(
        "tcpé",
        "Unknown term 'tcpé'. Try tcp, udp, dns, icmp, arp, ipv4, ipv6, an address, port N, or len > N",
        0,
    );
}

#[test]
fn accepted_queries_on_an_empty_capture_match_nothing() {
    let idx = empty_index();
    for q in ["", "tcp", "not tcp", "10.0.0.0/8 or ::/0", "len >= 0", "PORT 53 || Dns"] {
        assert_eq!(filter(&idx, q).unwrap(), Vec::<u32>::new(), "query {q:?}");
    }
}

#[test]
fn unicode_whitespace_separates_and_other_marks_are_rejected() {
    let idx = empty_index();
    // U+00A0 NO-BREAK SPACE is White_Space.
    assert_eq!(filter(&idx, "tcp\u{a0}or\u{a0}udp").unwrap(), Vec::<u32>::new());
    // U+200B ZERO WIDTH SPACE is not.
    check("tcp\u{200b}", "Unexpected character '\u{200b}'", 3);
}

// ---------------------------------------------------------------- fixtures
// Tiny in-test builders for pcap / pcapng bytes and packets, so fixtures
// are readable and there are no binary files to maintain.

#[derive(Clone, Copy)]
struct Endian {
    big: bool,
}

impl Endian {
    const LE: Endian = Endian { big: false };
    const BE: Endian = Endian { big: true };

    fn u16(self, out: &mut Vec<u8>, v: u16) {
        out.extend_from_slice(&if self.big { v.to_be_bytes() } else { v.to_le_bytes() });
    }
    fn u32(self, out: &mut Vec<u8>, v: u32) {
        out.extend_from_slice(&if self.big { v.to_be_bytes() } else { v.to_le_bytes() });
    }
    fn i64(self, out: &mut Vec<u8>, v: i64) {
        out.extend_from_slice(&if self.big { v.to_be_bytes() } else { v.to_le_bytes() });
    }
}

/// Ethernet + IPv4 (10.0.0.1 -> 10.0.0.2, TCP) + `payload` bytes.
fn eth_ipv4_packet(payload: &[u8]) -> Vec<u8> {
    let mut p = vec![
        0xaa, 0xbb, 0xcc, 0x00, 0x00, 0x01, // dst mac
        0x11, 0x22, 0x33, 0x44, 0x55, 0x66, // src mac
        0x08, 0x00, // ethertype IPv4
    ];
    let total = (20 + payload.len()) as u16;
    p.extend_from_slice(&[0x45, 0x00]);
    p.extend_from_slice(&total.to_be_bytes());
    p.extend_from_slice(&[0, 0, 0, 0, 64, 6, 0, 0]); // id, flags, ttl=64, proto=TCP, csum
    p.extend_from_slice(&[10, 0, 0, 1, 10, 0, 0, 2]);
    p.extend_from_slice(payload);
    p
}

/// Ethernet II frame: fixed MACs, the EtherType, then `payload`.
fn eth_frame(ethertype: u16, payload: &[u8]) -> Vec<u8> {
    let mut p = vec![0x02, 0x00, 0x00, 0x00, 0x00, 0x02, 0x02, 0x00, 0x00, 0x00, 0x00, 0x01];
    p.extend_from_slice(&ethertype.to_be_bytes());
    p.extend_from_slice(payload);
    p
}

/// IPv4 header (20 bytes, TTL 64) with protocol `proto`, addresses, the
/// flags/fragment-offset word `frag`, then `payload`.
fn ipv4_packet(proto: u8, src: [u8; 4], dst: [u8; 4], frag: u16, payload: &[u8]) -> Vec<u8> {
    let total = (20 + payload.len()) as u16;
    let mut p = vec![0x45, 0x00];
    p.extend_from_slice(&total.to_be_bytes());
    p.extend_from_slice(&[0, 0]);
    p.extend_from_slice(&frag.to_be_bytes());
    p.extend_from_slice(&[64, proto, 0, 0]);
    p.extend_from_slice(&src);
    p.extend_from_slice(&dst);
    p.extend_from_slice(payload);
    p
}

/// IPv6 header (40 bytes) with next header `next`, addresses, then `payload`.
fn ipv6_packet(next: u8, src: [u8; 16], dst: [u8; 16], payload: &[u8]) -> Vec<u8> {
    let mut p = vec![0x60, 0, 0, 0];
    p.extend_from_slice(&(payload.len() as u16).to_be_bytes());
    p.extend_from_slice(&[next, 64]);
    p.extend_from_slice(&src);
    p.extend_from_slice(&dst);
    p.extend_from_slice(payload);
    p
}

/// 20-byte TCP header with ports and flag bits.
fn tcp_segment(sport: u16, dport: u16, flags: u8) -> Vec<u8> {
    let mut t = Vec::new();
    t.extend_from_slice(&sport.to_be_bytes());
    t.extend_from_slice(&dport.to_be_bytes());
    t.extend_from_slice(&[0, 0, 0, 1, 0, 0, 0, 0]); // seq, ack
    t.extend_from_slice(&[0x50, flags, 0xff, 0xff, 0, 0, 0, 0]); // offset, flags, window, csum, urg
    t
}

/// 8-byte UDP header with ports and no payload.
fn udp_datagram(sport: u16, dport: u16) -> Vec<u8> {
    let mut u = Vec::new();
    u.extend_from_slice(&sport.to_be_bytes());
    u.extend_from_slice(&dport.to_be_bytes());
    u.extend_from_slice(&[0, 8, 0, 0]);
    u
}

/// 28-byte ARP packet for IPv4 over Ethernet.
fn arp_packet(op: u16, spa: [u8; 4], tpa: [u8; 4]) -> Vec<u8> {
    let mut a = vec![0, 1, 0x08, 0x00, 6, 4];
    a.extend_from_slice(&op.to_be_bytes());
    a.extend_from_slice(&[0x02, 0, 0, 0, 0, 0x01]);
    a.extend_from_slice(&spa);
    a.extend_from_slice(&[0, 0, 0, 0, 0, 0]);
    a.extend_from_slice(&tpa);
    a
}

struct Pkt<'a> {
    ts_sec: u32,
    /// Fraction in the file's own unit (micro or nano).
    ts_frac: u32,
    orig_len: u32,
    data: &'a [u8],
}

/// Legacy pcap file: magic 0xa1b2c3d4 (micro) or 0xa1b23c4d (nano) in the
/// given byte order.
fn pcap_file(e: Endian, nano: bool, linktype: u32, pkts: &[Pkt]) -> Vec<u8> {
    let mut f = Vec::new();
    e.u32(&mut f, if nano { 0xa1b2_3c4d } else { 0xa1b2_c3d4 });
    e.u16(&mut f, 2);
    e.u16(&mut f, 4);
    e.u32(&mut f, 0); // thiszone
    e.u32(&mut f, 0); // sigfigs
    e.u32(&mut f, 65535);
    e.u32(&mut f, linktype);
    for p in pkts {
        e.u32(&mut f, p.ts_sec);
        e.u32(&mut f, p.ts_frac);
        e.u32(&mut f, p.data.len() as u32);
        e.u32(&mut f, p.orig_len);
        f.extend_from_slice(p.data);
    }
    f
}

fn pad4(out: &mut Vec<u8>) {
    while out.len() % 4 != 0 {
        out.push(0);
    }
}

fn block(e: Endian, block_type: u32, body: &[u8]) -> Vec<u8> {
    let mut b = Vec::new();
    let mut padded = body.to_vec();
    pad4(&mut padded);
    let total = (padded.len() + 12) as u32;
    e.u32(&mut b, block_type);
    e.u32(&mut b, total);
    b.extend_from_slice(&padded);
    e.u32(&mut b, total);
    b
}

fn shb(e: Endian) -> Vec<u8> {
    let mut body = Vec::new();
    e.u32(&mut body, 0x1a2b_3c4d);
    e.u16(&mut body, 1);
    e.u16(&mut body, 0);
    e.i64(&mut body, -1);
    block(e, 0x0a0d_0d0a, &body)
}

/// Interface Description Block. `tsresol` adds an if_tsresol option when set.
fn idb(e: Endian, linktype: u16, tsresol: Option<u8>) -> Vec<u8> {
    let mut body = Vec::new();
    e.u16(&mut body, linktype);
    e.u16(&mut body, 0);
    e.u32(&mut body, 65535);
    if let Some(r) = tsresol {
        e.u16(&mut body, 9); // if_tsresol
        e.u16(&mut body, 1);
        body.push(r);
        pad4(&mut body);
        e.u16(&mut body, 0); // opt_endofopt
        e.u16(&mut body, 0);
    }
    block(e, 0x0000_0001, &body)
}

fn epb(e: Endian, if_id: u32, ticks: u64, orig_len: u32, data: &[u8]) -> Vec<u8> {
    let mut body = Vec::new();
    e.u32(&mut body, if_id);
    e.u32(&mut body, (ticks >> 32) as u32);
    e.u32(&mut body, ticks as u32);
    e.u32(&mut body, data.len() as u32);
    e.u32(&mut body, orig_len);
    body.extend_from_slice(data);
    block(e, 0x0000_0006, &body)
}

fn concat(parts: &[Vec<u8>]) -> Vec<u8> {
    parts.iter().flatten().copied().collect()
}
