//! Per-packet summary for the packet list: protocol, addresses, ports, and a
//! small protocol-specific detail value. Bounds-checked everywhere; a short
//! or malformed packet gives a partial summary, never a failure.

use vstd::prelude::*;

use crate::bytes::{be16, byte_at, spec_be16, spec_byte, spec_tail, tail};
use crate::link::{
    LINKTYPE_ETHERNET, LINKTYPE_IPV4, LINKTYPE_IPV6, LINKTYPE_LINUX_SLL, LINKTYPE_NULL,
    LINKTYPE_RAW,
};

verus! {

pub const PROTO_OTHER: u8 = 0;
pub const PROTO_TCP: u8 = 1;
pub const PROTO_UDP: u8 = 2;
pub const PROTO_ICMP: u8 = 3;
pub const PROTO_ICMPV6: u8 = 4;
pub const PROTO_ARP: u8 = 5;
/// IPv4 carrying a protocol that is not decoded further.
pub const PROTO_IPV4: u8 = 6;
/// IPv6 carrying a protocol that is not decoded further.
pub const PROTO_IPV6: u8 = 7;
pub const PROTO_DNS: u8 = 8;

pub const ETHERTYPE_IPV4: u16 = 0x0800;
pub const ETHERTYPE_ARP: u16 = 0x0806;
pub const ETHERTYPE_IPV6: u16 = 0x86dd;
pub const ETHERTYPE_VLAN: u16 = 0x8100;
pub const ETHERTYPE_QINQ: u16 = 0x88a8;

pub const IPPROTO_ICMP: u8 = 1;
pub const IPPROTO_TCP: u8 = 6;
pub const IPPROTO_UDP: u8 = 17;
pub const IPPROTO_ICMPV6: u8 = 58;

pub const DNS_PORT: u16 = 53;

/// Fixed-size summary of one packet, stored column-wise in the index.
#[derive(Debug, Clone, Copy, PartialEq, Eq)]
pub struct Meta {
    /// One of the `PROTO_*` constants.
    pub proto: u8,
    /// 4, 6, or 0 when the packet has no IP (or ARP-over-IPv4) addresses.
    pub ip_version: u8,
    pub src_port: u16,
    pub dst_port: u16,
    /// Depends on `proto`:
    /// TCP: flag bits (FIN=1 SYN=2 RST=4 PSH=8 ACK=16 URG=32 ECE=64 CWR=128).
    /// ICMP / ICMPv6: `type << 8 | code`.
    /// ARP: operation (1 request, 2 reply).
    /// `PROTO_IPV4` / `PROTO_IPV6`: the IP protocol number.
    /// `PROTO_OTHER`: the EtherType, or 0 if unknown.
    pub detail: u16,
    /// IPv4 addresses use the first 4 bytes.
    pub src: [u8; 16],
    pub dst: [u8; 16],
}

/// The mathematical value of a [`Meta`]: its scalar fields and its two
/// 16-byte addresses as sequences.
pub struct MetaView {
    pub proto: u8,
    pub ip_version: u8,
    pub src_port: u16,
    pub dst_port: u16,
    pub detail: u16,
    pub src: Seq<u8>,
    pub dst: Seq<u8>,
}

impl View for Meta {
    type V = MetaView;

    open spec fn view(&self) -> MetaView {
        MetaView {
            proto: self.proto,
            ip_version: self.ip_version,
            src_port: self.src_port,
            dst_port: self.dst_port,
            detail: self.detail,
            src: self.src@,
            dst: self.dst@,
        }
    }
}

/// Sixteen zero bytes: an address that was not filled in.
pub open spec fn zero16() -> Seq<u8> {
    Seq::new(16, |i: int| 0u8)
}

/// A 4-byte IPv4 address in a 16-byte slot.
pub open spec fn v4_slot(a: Seq<u8>) -> Seq<u8> {
    a + Seq::new(12, |i: int| 0u8)
}

/// The summary of a packet nothing could be read from.
pub open spec fn spec_default() -> MetaView {
    MetaView {
        proto: PROTO_OTHER,
        ip_version: 0,
        src_port: 0,
        dst_port: 0,
        detail: 0,
        src: zero16(),
        dst: zero16(),
    }
}

/// Only the protocol is known.
pub open spec fn spec_proto_only(proto: u8) -> MetaView {
    MetaView { proto, ..spec_default() }
}

/// An unknown EtherType: kept in `detail`.
pub open spec fn spec_other(ethertype: u16) -> MetaView {
    MetaView { detail: ethertype, ..spec_default() }
}

pub open spec fn is_vlan_type(t: u16) -> bool {
    t == ETHERTYPE_VLAN || t == ETHERTYPE_QINQ
}

/// A VLAN or QinQ EtherType at `at`.
pub open spec fn vlan_at(d: Seq<u8>, at: int) -> bool {
    spec_be16(d, at) matches Some(t) && is_vlan_type(t)
}

/// Summary of one packet under a link type.
pub open spec fn spec_dissect(d: Seq<u8>, linktype: u16) -> MetaView {
    if linktype == LINKTYPE_ETHERNET {
        spec_ethernet(d)
    } else if linktype == LINKTYPE_LINUX_SLL {
        spec_linux_sll(d)
    } else if linktype == LINKTYPE_RAW || linktype == LINKTYPE_IPV4 || linktype == LINKTYPE_IPV6 {
        spec_ip_by_version(d)
    } else if linktype == LINKTYPE_NULL {
        // 4-byte address-family header, then an IP packet.
        spec_ip_by_version(spec_tail(d, 4))
    } else {
        spec_default()
    }
}

/// Ethernet II with up to two stacked VLAN tags.
pub open spec fn spec_ethernet(d: Seq<u8>) -> MetaView {
    match spec_be16(d, 12) {
        None => spec_default(),
        Some(t0) => if !is_vlan_type(t0) {
            spec_network(t0, spec_tail(d, 14))
        } else {
            match spec_be16(d, 16) {
                None => spec_other(t0),
                Some(t1) => if !is_vlan_type(t1) {
                    spec_network(t1, spec_tail(d, 18))
                } else {
                    match spec_be16(d, 20) {
                        None => spec_other(t1),
                        Some(t2) => spec_network(t2, spec_tail(d, 22)),
                    }
                },
            }
        },
    }
}

/// Linux cooked capture: the protocol sits at bytes 14..16, the payload at 16.
pub open spec fn spec_linux_sll(d: Seq<u8>) -> MetaView {
    match spec_be16(d, 14) {
        Some(p) => spec_network(p, spec_tail(d, 16)),
        None => spec_default(),
    }
}

pub open spec fn spec_network(ethertype: u16, p: Seq<u8>) -> MetaView {
    if ethertype == ETHERTYPE_IPV4 {
        spec_ipv4(p)
    } else if ethertype == ETHERTYPE_IPV6 {
        spec_ipv6(p)
    } else if ethertype == ETHERTYPE_ARP {
        spec_arp(p)
    } else {
        spec_other(ethertype)
    }
}

/// Dispatch on the IP version nibble of the first byte.
pub open spec fn spec_ip_by_version(d: Seq<u8>) -> MetaView {
    if d.len() == 0 {
        spec_default()
    } else if d[0] / 16 == 4 {
        spec_ipv4(d)
    } else if d[0] / 16 == 6 {
        spec_ipv6(d)
    } else {
        spec_default()
    }
}

/// ARP: addresses and operation only for the IPv4-over-Ethernet form.
pub open spec fn spec_arp(p: Seq<u8>) -> MetaView {
    let is_ipv4_eth = spec_be16(p, 2) == Some(ETHERTYPE_IPV4) && spec_byte(p, 4) == Some(6u8)
        && spec_byte(p, 5) == Some(4u8);
    if is_ipv4_eth && spec_be16(p, 6) is Some && p.len() >= 28 {
        MetaView {
            proto: PROTO_ARP,
            ip_version: 4,
            detail: spec_be16(p, 6)->0,
            src: v4_slot(p.subrange(14, 18)),
            dst: v4_slot(p.subrange(24, 28)),
            ..spec_default()
        }
    } else {
        spec_proto_only(PROTO_ARP)
    }
}

/// IPv4 header length in bytes (the IHL nibble times four).
pub open spec fn ipv4_header_len(p: Seq<u8>) -> int {
    (p[0] % 16) as int * 4
}

/// IPv4 fragment offset (13 bits).
pub open spec fn ipv4_fragment_offset(p: Seq<u8>) -> int {
    (p[6] % 32) as int * 256 + p[7] as int
}

/// IPv4: addresses and protocol; the transport header only for the first
/// fragment with a sane header length.
pub open spec fn spec_ipv4(p: Seq<u8>) -> MetaView {
    if p.len() < 20 {
        spec_proto_only(PROTO_IPV4)
    } else {
        let m = MetaView {
            proto: PROTO_IPV4,
            ip_version: 4,
            detail: p[9] as u16,
            src: v4_slot(p.subrange(12, 16)),
            dst: v4_slot(p.subrange(16, 20)),
            ..spec_default()
        };
        if ipv4_header_len(p) >= 20 && ipv4_fragment_offset(p) == 0 {
            spec_transport(m, p[9], spec_tail(p, ipv4_header_len(p)))
        } else {
            m
        }
    }
}

/// One step over an IPv6 extension header: the length of the header at `at`
/// when `next` names one that can be skipped, `None` when the walk stops.
pub open spec fn ipv6_ext_step(p: Seq<u8>, next: u8, at: int) -> Option<int> {
    if next == 0 || next == 43 || next == 60 {
        // hop-by-hop, routing, destination options
        match spec_byte(p, at + 1) {
            Some(len) => Some((len as int + 1) * 8),
            None => None,
        }
    } else if next == 51 {
        // authentication header
        match spec_byte(p, at + 1) {
            Some(len) => Some((len as int + 2) * 4),
            None => None,
        }
    } else if next == 44 {
        // fragment header: a non-zero offset means no transport header follows
        match spec_be16(p, at + 2) {
            Some(f) => if f / 8 != 0 {
                None
            } else {
                Some(8)
            },
            None => None,
        }
    } else {
        None
    }
}

/// Walk at most `fuel` extension headers from (`next`, `at`); the final
/// next-header value and transport offset.
pub open spec fn ipv6_walk(p: Seq<u8>, next: u8, at: int, fuel: nat) -> (u8, int)
    decreases fuel,
{
    if fuel == 0 {
        (next, at)
    } else {
        match (ipv6_ext_step(p, next, at), spec_byte(p, at)) {
            (Some(step), Some(n)) => ipv6_walk(p, n, at + step, (fuel - 1) as nat),
            _ => (next, at),
        }
    }
}

/// IPv6: addresses, the protocol after up to eight extension headers, and
/// the transport header.
pub open spec fn spec_ipv6(p: Seq<u8>) -> MetaView {
    if p.len() < 40 {
        spec_proto_only(PROTO_IPV6)
    } else {
        let (next, at) = ipv6_walk(p, p[6], 40, 8);
        let m = MetaView {
            proto: PROTO_IPV6,
            ip_version: 6,
            detail: next as u16,
            src: p.subrange(8, 24),
            dst: p.subrange(24, 40),
            ..spec_default()
        };
        spec_transport(m, next, spec_tail(p, at))
    }
}

pub open spec fn spec_port(l4: Seq<u8>, at: int) -> u16 {
    match spec_be16(l4, at) {
        Some(v) => v,
        None => 0,
    }
}

pub open spec fn spec_type_code(l4: Seq<u8>) -> u16 {
    if l4.len() >= 2 {
        (l4[0] as int * 256 + l4[1] as int) as u16
    } else {
        0
    }
}

/// Transport-layer fields; the summary is left as generic IP for protocols
/// that are not decoded.
pub open spec fn spec_transport(m: MetaView, protocol: u8, l4: Seq<u8>) -> MetaView {
    if protocol == IPPROTO_TCP {
        MetaView {
            proto: PROTO_TCP,
            src_port: spec_port(l4, 0),
            dst_port: spec_port(l4, 2),
            detail: match spec_byte(l4, 13) {
                Some(f) => f as u16,
                None => 0,
            },
            ..m
        }
    } else if protocol == IPPROTO_UDP {
        let sp = spec_port(l4, 0);
        let dp = spec_port(l4, 2);
        MetaView {
            proto: if sp == DNS_PORT || dp == DNS_PORT {
                PROTO_DNS
            } else {
                PROTO_UDP
            },
            src_port: sp,
            dst_port: dp,
            detail: 0,
            ..m
        }
    } else if protocol == IPPROTO_ICMP && m.ip_version == 4 {
        MetaView { proto: PROTO_ICMP, detail: spec_type_code(l4), ..m }
    } else if protocol == IPPROTO_ICMPV6 && m.ip_version == 6 {
        MetaView { proto: PROTO_ICMPV6, detail: spec_type_code(l4), ..m }
    } else {
        m
    }
}

impl Default for Meta {
    fn default() -> (m: Self)
        ensures
            m@ == spec_default(),
    {
        let m = Meta {
            proto: PROTO_OTHER,
            ip_version: 0,
            src_port: 0,
            dst_port: 0,
            detail: 0,
            src: [0u8; 16],
            dst: [0u8; 16],
        };
        assert(m.src@ =~= zero16());
        assert(m.dst@ =~= zero16());
        m
    }
}

fn proto_only(proto: u8) -> (m: Meta)
    ensures
        m@ == spec_proto_only(proto),
{
    let mut m = Meta::default();
    m.proto = proto;
    m
}

fn other(ethertype: u16) -> (m: Meta)
    ensures
        m@ == spec_other(ethertype),
{
    let mut m = Meta::default();
    m.detail = ethertype;
    m
}

/// Copy a 4-byte IPv4 address into the first bytes of a zeroed slot.
fn v4_address(p: &[u8], at: usize) -> (a: [u8; 16])
    requires
        at + 4 <= p@.len(),
    ensures
        a@ == v4_slot(p@.subrange(at as int, at + 4)),
{
    let mut a = [0u8; 16];
    a[0] = p[at];
    a[1] = p[at + 1];
    a[2] = p[at + 2];
    a[3] = p[at + 3];
    assert(a@ =~= v4_slot(p@.subrange(at as int, at + 4)));
    a
}

/// Copy a 16-byte IPv6 address.
fn v6_address(p: &[u8], at: usize) -> (a: [u8; 16])
    requires
        at + 16 <= p@.len(),
    ensures
        a@ == p@.subrange(at as int, at + 16),
{
    let mut a = [0u8; 16];
    let mut i: usize = 0;
    while i < 16
        invariant
            i <= 16,
            at + 16 <= p.len(),
            forall|j: int| 0 <= j < i ==> a@[j] == p@[at + j],
        decreases 16 - i,
    {
        a[i] = p[at + i];
        i = i + 1;
    }
    assert(a@ =~= p@.subrange(at as int, at + 16));
    a
}

/// Summarise one packet. `linktype` is the pcap LINKTYPE_* value.
pub fn dissect(data: &[u8], linktype: u16) -> (m: Meta)
    ensures
        m@ == spec_dissect(data@, linktype),
{
    if linktype == LINKTYPE_ETHERNET {
        ethernet(data)
    } else if linktype == LINKTYPE_LINUX_SLL {
        linux_sll(data)
    } else if linktype == LINKTYPE_RAW || linktype == LINKTYPE_IPV4 || linktype == LINKTYPE_IPV6 {
        ip_by_version(data)
    } else if linktype == LINKTYPE_NULL {
        ip_by_version(tail(data, 4))
    } else {
        Meta::default()
    }
}

fn ethernet(data: &[u8]) -> (m: Meta)
    ensures
        m@ == spec_ethernet(data@),
{
    let mut ethertype = match be16(data, 12) {
        Some(t) => t,
        None => return Meta::default(),
    };
    let mut at: usize = 14;
    // Up to two stacked VLAN tags.
    let mut tags: usize = 0;
    while tags < 2
        invariant_except_break
            tags <= 2,
            at == 14 + 4 * tags,
            tags == 0 ==> spec_be16(data@, 12) == Some(ethertype),
            tags == 1 ==> vlan_at(data@, 12) && spec_be16(data@, 16) == Some(ethertype),
            tags == 2 ==> vlan_at(data@, 12) && vlan_at(data@, 16) && spec_be16(data@, 20)
                == Some(ethertype),
        ensures
            at <= 22,
            spec_network(ethertype, spec_tail(data@, at as int)) == spec_ethernet(data@),
        decreases 2 - tags,
    {
        if ethertype != ETHERTYPE_VLAN && ethertype != ETHERTYPE_QINQ {
            break;
        }
        let inner = match be16(data, at + 2) {
            Some(t) => t,
            None => return other(ethertype),
        };
        ethertype = inner;
        at = at + 4;
        tags = tags + 1;
    }
    network(ethertype, tail(data, at))
}

fn linux_sll(data: &[u8]) -> (m: Meta)
    ensures
        m@ == spec_linux_sll(data@),
{
    match be16(data, 14) {
        Some(proto) => network(proto, tail(data, 16)),
        None => Meta::default(),
    }
}

fn network(ethertype: u16, payload: &[u8]) -> (m: Meta)
    ensures
        m@ == spec_network(ethertype, payload@),
{
    if ethertype == ETHERTYPE_IPV4 {
        ipv4(payload)
    } else if ethertype == ETHERTYPE_IPV6 {
        ipv6(payload)
    } else if ethertype == ETHERTYPE_ARP {
        arp(payload)
    } else {
        other(ethertype)
    }
}

fn ip_by_version(data: &[u8]) -> (m: Meta)
    ensures
        m@ == spec_ip_by_version(data@),
{
    if data.len() == 0 {
        Meta::default()
    } else if data[0] / 16 == 4 {
        ipv4(data)
    } else if data[0] / 16 == 6 {
        ipv6(data)
    } else {
        Meta::default()
    }
}

fn arp(p: &[u8]) -> (m: Meta)
    ensures
        m@ == spec_arp(p@),
{
    let mut m = proto_only(PROTO_ARP);
    // Only the common IPv4-over-Ethernet form carries addresses we can show.
    let is_ipv4_eth = be16(p, 2) == Some(ETHERTYPE_IPV4) && byte_at(p, 4) == Some(6u8)
        && byte_at(p, 5) == Some(4u8);
    if is_ipv4_eth && p.len() >= 28 {
        if let Some(op) = be16(p, 6) {
            m.ip_version = 4;
            m.detail = op;
            m.src = v4_address(p, 14);
            m.dst = v4_address(p, 24);
        }
    }
    m
}

fn ipv4(p: &[u8]) -> (m: Meta)
    ensures
        m@ == spec_ipv4(p@),
{
    if p.len() < 20 {
        return proto_only(PROTO_IPV4);
    }
    let protocol = p[9];
    let mut m = Meta::default();
    m.proto = PROTO_IPV4;
    m.ip_version = 4;
    m.detail = protocol as u16;
    m.src = v4_address(p, 12);
    m.dst = v4_address(p, 16);
    let header_len = ((p[0] % 16) as usize) * 4;
    let fragment_offset = ((p[6] % 32) as u16) * 256 + p[7] as u16;
    // Later fragments have no transport header.
    if header_len >= 20 && fragment_offset == 0 {
        transport(&mut m, protocol, tail(p, header_len));
    }
    m
}

fn ipv6(p: &[u8]) -> (m: Meta)
    ensures
        m@ == spec_ipv6(p@),
{
    if p.len() < 40 {
        return proto_only(PROTO_IPV6);
    }
    let mut m = Meta::default();
    m.proto = PROTO_IPV6;
    m.ip_version = 6;
    m.src = v6_address(p, 8);
    m.dst = v6_address(p, 24);

    // Walk past extension headers to the real next protocol.
    let mut next = p[6];
    let mut at: usize = 40;
    let mut fuel: usize = 8;
    while fuel > 0
        invariant_except_break
            fuel <= 8,
            40 <= at <= 40 + 2048 * (8 - fuel),
            p@.len() >= 40,
            ipv6_walk(p@, next, at as int, fuel as nat) == ipv6_walk(p@, p@[6], 40, 8),
        ensures
            (next, at as int) == ipv6_walk(p@, p@[6], 40, 8),
        decreases fuel,
    {
        let step: usize;
        if next == 0 || next == 43 || next == 60 {
            match byte_at(p, at + 1) {
                Some(len) => {
                    step = (len as usize + 1) * 8;
                },
                None => break,
            }
        } else if next == 51 {
            match byte_at(p, at + 1) {
                Some(len) => {
                    step = (len as usize + 2) * 4;
                },
                None => break,
            }
        } else if next == 44 {
            match be16(p, at + 2) {
                Some(f) => {
                    if f / 8 != 0 {
                        break;
                    }
                    step = 8;
                },
                None => break,
            }
        } else {
            break;
        }
        match byte_at(p, at) {
            Some(n) => {
                next = n;
                at = at + step;
            },
            None => break,
        }
        fuel = fuel - 1;
    }
    m.detail = next as u16;
    transport(&mut m, next, tail(p, at));
    m
}

/// Fill in transport-layer fields. Leaves `m` as generic IP if the protocol
/// is not one that is decoded.
fn transport(m: &mut Meta, protocol: u8, l4: &[u8])
    ensures
        final(m)@ == spec_transport(old(m)@, protocol, l4@),
{
    if protocol == IPPROTO_TCP {
        m.proto = PROTO_TCP;
        m.src_port = port(l4, 0);
        m.dst_port = port(l4, 2);
        m.detail = match byte_at(l4, 13) {
            Some(f) => f as u16,
            None => 0,
        };
    } else if protocol == IPPROTO_UDP {
        m.src_port = port(l4, 0);
        m.dst_port = port(l4, 2);
        m.detail = 0;
        m.proto = if m.src_port == DNS_PORT || m.dst_port == DNS_PORT {
            PROTO_DNS
        } else {
            PROTO_UDP
        };
    } else if protocol == IPPROTO_ICMP && m.ip_version == 4 {
        m.proto = PROTO_ICMP;
        m.detail = type_code(l4);
    } else if protocol == IPPROTO_ICMPV6 && m.ip_version == 6 {
        m.proto = PROTO_ICMPV6;
        m.detail = type_code(l4);
    }
}

fn port(l4: &[u8], at: usize) -> (v: u16)
    ensures
        v == spec_port(l4@, at as int),
{
    match be16(l4, at) {
        Some(v) => v,
        None => 0,
    }
}

fn type_code(l4: &[u8]) -> (v: u16)
    ensures
        v == spec_type_code(l4@),
{
    if l4.len() >= 2 {
        (l4[0] as u16) * 256 + l4[1] as u16
    } else {
        0
    }
}


// ------------------------------------------------------------------ laws

/// A well-formed summary: the protocol is one of the `PROTO_*` values, the
/// IP version is 4, 6 or 0, both address slots hold 16 bytes (zero when
/// there are no addresses, zero after the first four for IPv4), only TCP,
/// UDP and DNS packets carry ports, DNS is UDP with port 53 at one end and
/// plain UDP has it at neither.
pub open spec fn meta_ok(m: MetaView) -> bool {
    &&& m.proto <= PROTO_DNS
    &&& m.ip_version == 0 || m.ip_version == 4 || m.ip_version == 6
    &&& m.src.len() == 16 && m.dst.len() == 16
    &&& m.ip_version == 0 ==> m.src == zero16() && m.dst == zero16()
    &&& (m.src_port != 0 || m.dst_port != 0) ==> (m.proto == PROTO_TCP || m.proto == PROTO_UDP
        || m.proto == PROTO_DNS)
    &&& m.ip_version == 4 ==> forall|i: int| 4 <= i < 16 ==> m.src[i] == 0 && m.dst[i] == 0
    &&& m.proto == PROTO_DNS ==> (m.src_port == DNS_PORT || m.dst_port == DNS_PORT)
    &&& m.proto == PROTO_UDP ==> (m.src_port != DNS_PORT && m.dst_port != DNS_PORT)
}

proof fn lemma_transport_ok(m: MetaView, protocol: u8, l4: Seq<u8>)
    requires
        meta_ok(m),
        m.src_port == 0 && m.dst_port == 0,
    ensures
        meta_ok(spec_transport(m, protocol, l4)),
{
}

proof fn lemma_network_ok(ethertype: u16, p: Seq<u8>)
    ensures
        meta_ok(spec_network(ethertype, p)),
{
    if ethertype == ETHERTYPE_IPV4 && p.len() >= 20 {
        let m = MetaView {
            proto: PROTO_IPV4,
            ip_version: 4,
            detail: p[9] as u16,
            src: v4_slot(p.subrange(12, 16)),
            dst: v4_slot(p.subrange(16, 20)),
            ..spec_default()
        };
        lemma_transport_ok(m, p[9], spec_tail(p, ipv4_header_len(p)));
    } else if ethertype == ETHERTYPE_IPV6 && p.len() >= 40 {
        lemma_ip_ok(p);
    }
}

proof fn lemma_ip_ok(p: Seq<u8>)
    ensures
        meta_ok(spec_ipv4(p)),
        meta_ok(spec_ipv6(p)),
        meta_ok(spec_ip_by_version(p)),
{
    if p.len() >= 20 {
        let m = MetaView {
            proto: PROTO_IPV4,
            ip_version: 4,
            detail: p[9] as u16,
            src: v4_slot(p.subrange(12, 16)),
            dst: v4_slot(p.subrange(16, 20)),
            ..spec_default()
        };
        lemma_transport_ok(m, p[9], spec_tail(p, ipv4_header_len(p)));
    }
    if p.len() >= 40 {
        let (next, at) = ipv6_walk(p, p[6], 40, 8);
        let m = MetaView {
            proto: PROTO_IPV6,
            ip_version: 6,
            detail: next as u16,
            src: p.subrange(8, 24),
            dst: p.subrange(24, 40),
            ..spec_default()
        };
        lemma_transport_ok(m, next, spec_tail(p, at));
    }
}

/// Every summary the dissector gives is well-formed (see [`meta_ok`]), and
/// a link type it does not decode gives the default summary.
pub proof fn law_summary_fields_in_range(d: Seq<u8>, linktype: u16)
    ensures
        meta_ok(spec_dissect(d, linktype)),
        linktype != LINKTYPE_NULL && linktype != LINKTYPE_ETHERNET && linktype != LINKTYPE_RAW
            && linktype != LINKTYPE_LINUX_SLL && linktype != LINKTYPE_IPV4 && linktype
            != LINKTYPE_IPV6 ==> spec_dissect(d, linktype) == spec_default(),
{
    assert(meta_ok(spec_default()));
    lemma_ip_ok(d);
    lemma_ip_ok(spec_tail(d, 4));
    match spec_be16(d, 12) {
        Some(t0) => {
            lemma_network_ok(t0, spec_tail(d, 14));
            match spec_be16(d, 16) {
                Some(t1) => {
                    lemma_network_ok(t1, spec_tail(d, 18));
                    match spec_be16(d, 20) {
                        Some(t2) => lemma_network_ok(t2, spec_tail(d, 22)),
                        None => {},
                    }
                },
                None => {},
            }
        },
        None => {},
    }
    match spec_be16(d, 14) {
        Some(p) => lemma_network_ok(p, spec_tail(d, 16)),
        None => {},
    }
}

/// Ethernet II (EtherType 0x0800 at bytes 12..14) carrying an IPv4 header
/// whose length field says at least 20 bytes and whose 13-bit fragment
/// offset is zero (the low five bits of IP byte 6 and all of IP byte 7):
/// the packet is a first fragment, so its transport header is read whatever
/// the flag bits (Don't Fragment, More Fragments) are. With protocol 6 the
/// summary is TCP over IPv4, with the addresses of the IP header and the
/// ports and flags of the TCP header that follows it.
pub proof fn law_first_fragment_tcp_over_ethernet(d: Seq<u8>)
    requires
        d.len() >= 34,
        d[12] == 0x08 && d[13] == 0x00,
        d[14] % 16 >= 5,
        d[20] % 32 == 0 && d[21] == 0,
        d[23] == IPPROTO_TCP,
    ensures
        ({
            let m = spec_dissect(d, LINKTYPE_ETHERNET);
            let h = 14 + (d[14] % 16) as int * 4;
            &&& m.proto == PROTO_TCP
            &&& m.ip_version == 4
            &&& m.src == d.subrange(26, 30) + Seq::new(12, |i: int| 0u8)
            &&& m.dst == d.subrange(30, 34) + Seq::new(12, |i: int| 0u8)
            &&& h + 4 <= d.len() ==> m.src_port == d[h] as int * 256 + d[h + 1] as int
                && m.dst_port == d[h + 2] as int * 256 + d[h + 3] as int
            &&& h + 14 <= d.len() ==> m.detail == d[h + 13]
        }),
{
    let p = spec_tail(d, 14);
    assert(p =~= d.subrange(14, d.len() as int));
    let h = (p[0] % 16) as int * 4;
    assert(p.subrange(12, 16) =~= d.subrange(26, 30));
    assert(p.subrange(16, 20) =~= d.subrange(30, 34));
    if 14 + h <= d.len() {
        assert(spec_tail(p, h) =~= d.subrange(14 + h, d.len() as int));
    }
}

/// The flag bits of an IPv4 header (the top three bits of IP byte 6) do not
/// change the summary of an Ethernet II frame: only the fragment offset
/// decides whether the transport header is read.
pub proof fn law_ipv4_flags_do_not_change_the_summary(d: Seq<u8>, b: u8)
    requires
        d.len() > 20,
        d[12] == 0x08 && d[13] == 0x00,
        b % 32 == d[20] % 32,
    ensures
        spec_dissect(d.update(20, b), LINKTYPE_ETHERNET) == spec_dissect(d, LINKTYPE_ETHERNET),
{
    let e = d.update(20, b);
    let p = spec_tail(d, 14);
    let q = spec_tail(e, 14);
    assert(q =~= p.update(6, b));
    if p.len() >= 20 {
        assert(q.subrange(12, 16) =~= p.subrange(12, 16));
        assert(q.subrange(16, 20) =~= p.subrange(16, 20));
        let h = ipv4_header_len(p);
        assert(ipv4_header_len(q) == h);
        assert(ipv4_fragment_offset(q) == ipv4_fragment_offset(p));
        if h >= 20 {
            assert(spec_tail(q, h) =~= spec_tail(p, h));
        }
    }
}

/// ICMP over IPv4 in an Ethernet II frame (first fragment, header length at
/// least 20, protocol 1, two ICMP bytes present): the detail value is the
/// ICMP type in the high byte and the code in the low byte.
pub proof fn law_control_message_detail_is_type_and_code(d: Seq<u8>)
    requires
        d.len() >= 34,
        d[12] == 0x08 && d[13] == 0x00,
        d[14] % 16 >= 5,
        d[20] % 32 == 0 && d[21] == 0,
        d[23] == IPPROTO_ICMP,
        14 + (d[14] % 16) as int * 4 + 2 <= d.len(),
    ensures
        ({
            let m = spec_dissect(d, LINKTYPE_ETHERNET);
            let h = 14 + (d[14] % 16) as int * 4;
            &&& m.proto == PROTO_ICMP
            &&& m.detail == d[h] as int * 256 + d[h + 1] as int
            &&& m.detail / 256 == d[h] && m.detail % 256 == d[h + 1]
        }),
{
    let p = spec_tail(d, 14);
    assert(p =~= d.subrange(14, d.len() as int));
    let h = (p[0] % 16) as int * 4;
    let l4 = spec_tail(p, h);
    assert(l4 =~= d.subrange(14 + h, d.len() as int));
}

/// ICMPv6 directly after the IPv6 header in an Ethernet II frame
/// (EtherType 0x86dd, next header 58, two ICMPv6 bytes present): the detail
/// value is the ICMPv6 type in the high byte and the code in the low byte.
pub proof fn law_v6_control_message_detail_is_type_and_code(d: Seq<u8>)
    requires
        d.len() >= 56,
        d[12] == 0x86 && d[13] == 0xdd,
        d[20] == IPPROTO_ICMPV6,
    ensures
        ({
            let m = spec_dissect(d, LINKTYPE_ETHERNET);
            &&& m.proto == PROTO_ICMPV6
            &&& m.ip_version == 6
            &&& m.detail == d[54] as int * 256 + d[55] as int
            &&& m.detail / 256 == d[54] && m.detail % 256 == d[55]
        }),
{
    let p = spec_tail(d, 14);
    assert(p =~= d.subrange(14, d.len() as int));
    assert(ipv6_walk(p, p[6], 40, 8) == (IPPROTO_ICMPV6, 40int));
    let l4 = spec_tail(p, 40);
    assert(l4 =~= d.subrange(54, d.len() as int));
}

/// UDP over IPv4 in an Ethernet II frame (first fragment, header length at
/// least 20, protocol 17): the ports are read from the UDP header, and the
/// packet is DNS exactly when one of them is 53, plain UDP otherwise.
pub proof fn law_udp_ports_and_dns_over_ethernet(d: Seq<u8>)
    requires
        d.len() >= 34,
        d[12] == 0x08 && d[13] == 0x00,
        d[14] % 16 >= 5,
        d[20] % 32 == 0 && d[21] == 0,
        d[23] == IPPROTO_UDP,
        14 + (d[14] % 16) as int * 4 + 4 <= d.len(),
    ensures
        ({
            let m = spec_dissect(d, LINKTYPE_ETHERNET);
            let h = 14 + (d[14] % 16) as int * 4;
            let sp = d[h] as int * 256 + d[h + 1] as int;
            let dp = d[h + 2] as int * 256 + d[h + 3] as int;
            &&& m.src_port == sp && m.dst_port == dp
            &&& m.ip_version == 4
            &&& (sp == 53 || dp == 53) ==> m.proto == PROTO_DNS
            &&& (sp != 53 && dp != 53) ==> m.proto == PROTO_UDP
        }),
{
    let p = spec_tail(d, 14);
    assert(p =~= d.subrange(14, d.len() as int));
    let h = (p[0] % 16) as int * 4;
    assert(spec_tail(p, h) =~= d.subrange(14 + h, d.len() as int));
}

/// One 802.1Q tag in front of the EtherType does not change the summary:
/// the tagged frame (tag 0x8100 and any TCI inserted after the MAC
/// addresses) is summarised as the untagged one, when the EtherType it
/// wraps is not itself a VLAN tag.
pub proof fn law_vlan_tag_does_not_change_the_summary(d: Seq<u8>, tci_hi: u8, tci_lo: u8)
    requires
        d.len() >= 14,
        !(d[12] == 0x81 && d[13] == 0x00),
        !(d[12] == 0x88 && d[13] == 0xa8),
    ensures
        spec_dissect(d.take(12) + seq![0x81u8, 0x00u8, tci_hi, tci_lo] + d.skip(12), LINKTYPE_ETHERNET)
            == spec_dissect(d, LINKTYPE_ETHERNET),
{
    let t = d.take(12) + seq![0x81u8, 0x00u8, tci_hi, tci_lo] + d.skip(12);
    assert(t[12] == 0x81u8 && t[13] == 0x00u8);
    assert(t[16] == d[12] && t[17] == d[13]);
    assert(spec_be16(t, 16) == spec_be16(d, 12));
    assert(spec_tail(t, 18) =~= spec_tail(d, 14));
}

/// A raw IP packet (link type 101) is summarised as the same packet inside
/// an Ethernet II frame with the matching EtherType: 0x0800 for version 4,
/// 0x86dd for version 6, whatever the MAC addresses are.
pub proof fn law_raw_ip_reads_as_ethernet(p: Seq<u8>, macs: Seq<u8>)
    requires
        p.len() > 0,
        macs.len() == 12,
    ensures
        p[0] / 16 == 4 ==> spec_dissect(p, LINKTYPE_RAW) == spec_dissect(
            macs + seq![0x08u8, 0x00u8] + p,
            LINKTYPE_ETHERNET,
        ),
        p[0] / 16 == 6 ==> spec_dissect(p, LINKTYPE_RAW) == spec_dissect(
            macs + seq![0x86u8, 0xddu8] + p,
            LINKTYPE_ETHERNET,
        ),
{
    let a = macs + seq![0x08u8, 0x00u8] + p;
    let b = macs + seq![0x86u8, 0xddu8] + p;
    assert(a[12] == 0x08u8 && a[13] == 0x00u8);
    assert(b[12] == 0x86u8 && b[13] == 0xddu8);
    assert(spec_tail(a, 14) =~= p);
    assert(spec_tail(b, 14) =~= p);
}

} // verus!
