//! Link-layer preview: MAC header, RadioTap/802.11, or IPv4 preview.
//! Every read is bounds-checked; malformed or short packets never panic.

use vstd::prelude::*;

use crate::bytes::{be16, byte_at, le16, spec_be16, spec_byte, spec_le16, spec_tail, tail};
use crate::text::{push_char, push_decimal, push_str, spec_decimal, string_of};

verus! {

pub const LINKTYPE_NULL: u16 = 0;
pub const LINKTYPE_ETHERNET: u16 = 1;
pub const LINKTYPE_RAW: u16 = 101;
pub const LINKTYPE_IEEE802_11: u16 = 105;
pub const LINKTYPE_LINUX_SLL: u16 = 113;
pub const LINKTYPE_IEEE802_11_RADIOTAP: u16 = 127;
pub const LINKTYPE_IPV4: u16 = 228;
pub const LINKTYPE_IPV6: u16 = 229;

/// How many leading bytes are echoed back as hex.
pub const HEADER_HEX_BYTES: usize = 32;

#[derive(Debug, Clone, PartialEq, Eq)]
pub struct Ipv4Preview {
    pub src: String,
    pub dst: String,
    pub protocol: u8,
    pub ttl: u8,
    pub total_len: u16,
}

#[derive(Debug, Clone, PartialEq, Eq)]
pub struct LinkPreview {
    /// "ethernet", "radiotap", "ieee802_11", "ipv4", "ipv6", "loopback",
    /// "linux_sll", or "unknown".
    pub kind: String,
    pub summary: String,
    pub dst_mac: Option<String>,
    pub src_mac: Option<String>,
    pub ethertype: Option<u16>,
    pub vlan_id: Option<u16>,
    pub ipv4: Option<Ipv4Preview>,
    /// First bytes of the packet, hex encoded.
    pub header_hex: String,
}

/// The mathematical value of an [`Ipv4Preview`].
pub struct Ipv4PreviewV {
    pub src: Seq<char>,
    pub dst: Seq<char>,
    pub protocol: u8,
    pub ttl: u8,
    pub total_len: u16,
}

/// The mathematical value of a [`LinkPreview`].
pub struct LinkPreviewV {
    pub kind: Seq<char>,
    pub summary: Seq<char>,
    pub dst_mac: Option<Seq<char>>,
    pub src_mac: Option<Seq<char>>,
    pub ethertype: Option<u16>,
    pub vlan_id: Option<u16>,
    pub ipv4: Option<Ipv4PreviewV>,
    pub header_hex: Seq<char>,
}

impl View for Ipv4Preview {
    type V = Ipv4PreviewV;

    open spec fn view(&self) -> Ipv4PreviewV {
        Ipv4PreviewV {
            src: self.src@,
            dst: self.dst@,
            protocol: self.protocol,
            ttl: self.ttl,
            total_len: self.total_len,
        }
    }
}

pub open spec fn opt_text(o: Option<String>) -> Option<Seq<char>> {
    match o {
        Some(s) => Some(s@),
        None => None,
    }
}

pub open spec fn opt_ipv4(o: Option<Ipv4Preview>) -> Option<Ipv4PreviewV> {
    match o {
        Some(p) => Some(p@),
        None => None,
    }
}

impl View for LinkPreview {
    type V = LinkPreviewV;

    open spec fn view(&self) -> LinkPreviewV {
        LinkPreviewV {
            kind: self.kind@,
            summary: self.summary@,
            dst_mac: opt_text(self.dst_mac),
            src_mac: opt_text(self.src_mac),
            ethertype: self.ethertype,
            vlan_id: self.vlan_id,
            ipv4: opt_ipv4(self.ipv4),
            header_hex: self.header_hex@,
        }
    }
}

// ------------------------------------------------------------ formatting

/// Lower-case hex digit of `n < 16`.
pub open spec fn hex_digit(n: int) -> char {
    if n < 10 {
        ((48 + n) as u8) as char
    } else {
        ((87 + n) as u8) as char
    }
}

/// Two lower-case hex digits of a byte.
pub open spec fn hex_byte(b: u8) -> Seq<char> {
    seq![hex_digit(b as int / 16), hex_digit(b as int % 16)]
}

/// Two hex digits per byte.
pub open spec fn spec_hex(b: Seq<u8>) -> Seq<char>
    decreases b.len(),
{
    if b.len() == 0 {
        Seq::empty()
    } else {
        spec_hex(b.drop_last()) + hex_byte(b.last())
    }
}

/// `aa:bb:cc:dd:ee:ff` from the first six bytes, if there are six.
pub open spec fn spec_mac(b: Seq<u8>) -> Option<Seq<char>> {
    if b.len() < 6 {
        None
    } else {
        Some(
            hex_byte(b[0]) + ":"@ + hex_byte(b[1]) + ":"@ + hex_byte(b[2]) + ":"@ + hex_byte(b[3])
                + ":"@ + hex_byte(b[4]) + ":"@ + hex_byte(b[5]),
        )
    }
}

/// Dotted-decimal IPv4 address.
pub open spec fn dotted(a: u8, b: u8, c: u8, d: u8) -> Seq<char> {
    spec_decimal(a as nat) + "."@ + spec_decimal(b as nat) + "."@ + spec_decimal(c as nat) + "."@
        + spec_decimal(d as nat)
}

/// The hex of the first [`HEADER_HEX_BYTES`] bytes (or all, if fewer).
pub open spec fn header_hex_of(d: Seq<u8>) -> Seq<char> {
    spec_hex(
        d.take(
            if d.len() < HEADER_HEX_BYTES {
                d.len() as int
            } else {
                HEADER_HEX_BYTES as int
            },
        ),
    )
}

fn hex_digit_char(n: u8) -> (c: char)
    requires
        n < 16,
    ensures
        c == hex_digit(n as int),
{
    if n < 10 {
        (48u8 + n) as char
    } else {
        (87u8 + n) as char
    }
}

fn push_hex_byte(s: &mut String, b: u8)
    ensures
        final(s)@ == old(s)@ + hex_byte(b),
{
    push_char(s, hex_digit_char(b / 16));
    push_char(s, hex_digit_char(b % 16));
    assert(s@ =~= old(s)@ + hex_byte(b));
}

/// Two lower-case hex digits per byte.
pub fn hex(bytes: &[u8]) -> (s: String)
    ensures
        s@ == spec_hex(bytes@),
{
    let mut s = String::new();
    let mut i: usize = 0;
    while i < bytes.len()
        invariant
            i <= bytes@.len(),
            s@ == spec_hex(bytes@.take(i as int)),
        decreases bytes.len() - i,
    {
        push_hex_byte(&mut s, bytes[i]);
        assert(bytes@.take(i + 1).drop_last() =~= bytes@.take(i as int));
        i = i + 1;
    }
    assert(bytes@.take(i as int) =~= bytes@);
    s
}

/// `aa:bb:cc:dd:ee:ff` from the first six bytes, if there are six.
pub fn mac(bytes: &[u8]) -> (r: Option<String>)
    ensures
        opt_text(r) == spec_mac(bytes@),
{
    if bytes.len() < 6 {
        return None;
    }
    let mut s = String::new();
    push_hex_byte(&mut s, bytes[0]);
    let mut k: usize = 1;
    while k < 6
        invariant
            1 <= k <= 6,
            bytes@.len() >= 6,
            s@ == (if k == 1 {
                hex_byte(bytes@[0])
            } else if k == 2 {
                hex_byte(bytes@[0]) + ":"@ + hex_byte(bytes@[1])
            } else if k == 3 {
                hex_byte(bytes@[0]) + ":"@ + hex_byte(bytes@[1]) + ":"@ + hex_byte(bytes@[2])
            } else if k == 4 {
                hex_byte(bytes@[0]) + ":"@ + hex_byte(bytes@[1]) + ":"@ + hex_byte(bytes@[2]) + ":"@
                    + hex_byte(bytes@[3])
            } else if k == 5 {
                hex_byte(bytes@[0]) + ":"@ + hex_byte(bytes@[1]) + ":"@ + hex_byte(bytes@[2]) + ":"@
                    + hex_byte(bytes@[3]) + ":"@ + hex_byte(bytes@[4])
            } else {
                spec_mac(bytes@)->0
            }),
        decreases 6 - k,
    {
        let ghost before = s@;
        push_str(&mut s, ":");
        push_hex_byte(&mut s, bytes[k]);
        assert(s@ =~= before + ":"@ + hex_byte(bytes@[k as int]));
        k = k + 1;
    }
    Some(s)
}

fn push_dotted(s: &mut String, h: &[u8], at: usize)
    requires
        at + 4 <= h@.len(),
    ensures
        final(s)@ == old(s)@ + dotted(h@[at as int], h@[at + 1], h@[at + 2], h@[at + 3]),
{
    push_decimal(s, h[at] as u64);
    push_str(s, ".");
    push_decimal(s, h[at + 1] as u64);
    push_str(s, ".");
    push_decimal(s, h[at + 2] as u64);
    push_str(s, ".");
    push_decimal(s, h[at + 3] as u64);
    assert(s@ =~= old(s)@ + dotted(h@[at as int], h@[at + 1], h@[at + 2], h@[at + 3]));
}

// --------------------------------------------------------------- previews

/// The IPv4 header preview, when the bytes start with one.
pub open spec fn spec_ipv4_preview(d: Seq<u8>) -> Option<Ipv4PreviewV> {
    if d.len() < 20 || d[0] >> 4u8 != 4 {
        None
    } else {
        Some(
            Ipv4PreviewV {
                total_len: (d[2] as int * 256 + d[3] as int) as u16,
                ttl: d[8],
                protocol: d[9],
                src: dotted(d[12], d[13], d[14], d[15]),
                dst: dotted(d[16], d[17], d[18], d[19]),
            },
        )
    }
}

/// Source, destination, protocol, TTL and total length of an IPv4 header.
pub fn parse_ipv4(data: &[u8]) -> (r: Option<Ipv4Preview>)
    ensures
        opt_ipv4(r) == spec_ipv4_preview(data@),
{
    if data.len() < 20 {
        return None;
    }
    if data[0] >> 4u8 != 4 {
        return None;
    }
    let mut src = String::new();
    push_dotted(&mut src, data, 12);
    let mut dst = String::new();
    push_dotted(&mut dst, data, 16);
    assert(src@ =~= dotted(data@[12], data@[13], data@[14], data@[15]));
    assert(dst@ =~= dotted(data@[16], data@[17], data@[18], data@[19]));
    Some(
        Ipv4Preview {
            total_len: (data[2] as u16) * 256 + (data[3] as u16),
            ttl: data[8],
            protocol: data[9],
            src,
            dst,
        },
    )
}

/// A preview with only a kind, a summary and the header hex.
pub open spec fn spec_blank(kind: Seq<char>, summary: Seq<char>, d: Seq<u8>) -> LinkPreviewV {
    LinkPreviewV {
        kind,
        summary,
        dst_mac: None,
        src_mac: None,
        ethertype: None,
        vlan_id: None,
        ipv4: None,
        header_hex: header_hex_of(d),
    }
}

fn header_hex(data: &[u8]) -> (s: String)
    ensures
        s@ == header_hex_of(data@),
{
    let n = if data.len() < HEADER_HEX_BYTES {
        data.len()
    } else {
        HEADER_HEX_BYTES
    };
    let head = &data[0..n];
    assert(head@ =~= data@.take(n as int));
    hex(head)
}

fn blank(kind: &str, summary: String, data: &[u8]) -> (p: LinkPreview)
    ensures
        p@ == spec_blank(kind@, summary@, data@),
{
    LinkPreview {
        kind: string_of(kind),
        summary,
        dst_mac: None,
        src_mac: None,
        ethertype: None,
        vlan_id: None,
        ipv4: None,
        header_hex: header_hex(data),
    }
}

/// Display name of an EtherType.
pub open spec fn spec_ethertype_name(t: u16) -> Seq<char> {
    if t == 0x0800 {
        "IPv4"@
    } else if t == 0x0806 {
        "ARP"@
    } else if t == 0x86dd {
        "IPv6"@
    } else if t == 0x8100 {
        "VLAN"@
    } else if t == 0x88a8 {
        "QinQ"@
    } else if t == 0x88cc {
        "LLDP"@
    } else {
        "Other"@
    }
}

fn ethertype_name(t: u16) -> (s: &'static str)
    ensures
        s@ == spec_ethertype_name(t),
{
    if t == 0x0800 {
        "IPv4"
    } else if t == 0x0806 {
        "ARP"
    } else if t == 0x86dd {
        "IPv6"
    } else if t == 0x8100 {
        "VLAN"
    } else if t == 0x88a8 {
        "QinQ"
    } else if t == 0x88cc {
        "LLDP"
    } else {
        "Other"
    }
}

pub open spec fn is_vlan_type(t: u16) -> bool {
    t == 0x8100 || t == 0x88a8
}

/// Up to `n` stacked VLAN tags from `at` on, the EtherType `et` in front of
/// them: the inner EtherType, where the payload starts and the first VLAN
/// id; or, when a tag is cut short, the EtherType and VLAN id so far.
pub open spec fn vlan_rounds(d: Seq<u8>, et: u16, at: int, vlan: Option<u16>, n: nat) -> Result<
    (u16, int, Option<u16>),
    (u16, Option<u16>),
>
    decreases n,
{
    if n == 0 || !is_vlan_type(et) {
        Ok((et, at, vlan))
    } else {
        match (spec_be16(d, at), spec_be16(d, at + 2)) {
            (Some(tci), Some(inner)) => vlan_rounds(
                d,
                inner,
                at + 4,
                if vlan is Some {
                    vlan
                } else {
                    Some(tci & 0x0fff)
                },
                (n - 1) as nat,
            ),
            _ => Err((et, vlan)),
        }
    }
}

/// The summary line of an Ethernet frame.
pub open spec fn ethernet_summary(ip: Option<Ipv4PreviewV>, vlan: Option<u16>, et: u16) -> Seq<char> {
    match ip {
        Some(ip) => "Ethernet, IPv4 "@ + ip.src + " → "@ + ip.dst,
        None => match vlan {
            Some(v) => "Ethernet, VLAN "@ + spec_decimal(v as nat) + ", "@ + spec_ethertype_name(et),
            None => "Ethernet, "@ + spec_ethertype_name(et),
        },
    }
}

/// Ethernet: MAC addresses, up to two VLAN tags (802.1Q, or QinQ outer +
/// inner), the EtherType, and an IPv4 preview when it carries IPv4.
pub open spec fn spec_ethernet(d: Seq<u8>) -> LinkPreviewV {
    let p = spec_blank("ethernet"@, "Ethernet (truncated)"@, d);
    if d.len() < 12 {
        p
    } else {
        let p = LinkPreviewV {
            dst_mac: spec_mac(d.subrange(0, 6)),
            src_mac: spec_mac(d.subrange(6, 12)),
            ..p
        };
        match spec_be16(d, 12) {
            None => p,
            Some(et0) => match vlan_rounds(d, et0, 14, None, 2) {
                Err((et, vlan)) => LinkPreviewV {
                    ethertype: Some(et),
                    vlan_id: vlan,
                    summary: "Ethernet, VLAN tag (truncated)"@,
                    ..p
                },
                Ok((et, at, vlan)) => {
                    let ip = if et == 0x0800 {
                        spec_ipv4_preview(spec_tail(d, at))
                    } else {
                        None
                    };
                    LinkPreviewV {
                        ethertype: Some(et),
                        vlan_id: vlan,
                        ipv4: ip,
                        summary: ethernet_summary(ip, vlan, et),
                        ..p
                    }
                },
            },
        }
    }
}

fn ethernet(data: &[u8]) -> (p: LinkPreview)
    ensures
        p@ == spec_ethernet(data@),
{
    let mut p = blank("ethernet", string_of("Ethernet (truncated)"), data);
    if data.len() < 12 {
        return p;
    }
    let dst = mac(&data[0..6]);
    let src = mac(&data[6..12]);
    p.dst_mac = dst;
    p.src_mac = src;
    let ghost base = p@;
    assert(base == (LinkPreviewV {
        dst_mac: spec_mac(data@.subrange(0, 6)),
        src_mac: spec_mac(data@.subrange(6, 12)),
        ..spec_blank("ethernet"@, "Ethernet (truncated)"@, data@)
    }));
    let et0 = match be16(data, 12) {
        Some(t) => t,
        None => return p,
    };
    let mut ethertype = et0;
    let mut at: usize = 14;
    let mut round: usize = 0;
    while round < 2
        invariant_except_break
            data@.len() >= 12,
            spec_be16(data@, 12) == Some(et0),
            base == (LinkPreviewV {
                dst_mac: spec_mac(data@.subrange(0, 6)),
                src_mac: spec_mac(data@.subrange(6, 12)),
                ..spec_blank("ethernet"@, "Ethernet (truncated)"@, data@)
            }),
            round <= 2,
            at == 14 + 4 * round,
            p@ == (LinkPreviewV { vlan_id: p.vlan_id, ..base }),
            vlan_rounds(data@, et0, 14, None, 2) == vlan_rounds(
                data@,
                ethertype,
                at as int,
                p.vlan_id,
                (2 - round) as nat,
            ),
        ensures
            at <= 22,
            p@ == (LinkPreviewV { vlan_id: p.vlan_id, ..base }),
            vlan_rounds(data@, et0, 14, None, 2) == Ok::<(u16, int, Option<u16>), (u16, Option<u16>)>(
                (ethertype, at as int, p.vlan_id),
            ),
        decreases 2 - round,
    {
        if ethertype != 0x8100 && ethertype != 0x88a8 {
            break;
        }
        let tci = be16(data, at);
        let inner = be16(data, at + 2);
        if tci.is_none() || inner.is_none() {
            let ghost v = p.vlan_id;
            p.ethertype = Some(ethertype);
            p.summary = string_of("Ethernet, VLAN tag (truncated)");
            assert(p@ == LinkPreviewV {
                ethertype: Some(ethertype),
                vlan_id: v,
                summary: "Ethernet, VLAN tag (truncated)"@,
                ..base
            });
            return p;
        }
        let tci = tci.unwrap();
        if p.vlan_id.is_none() {
            p.vlan_id = Some(tci & 0x0fff);
        }
        ethertype = inner.unwrap();
        at = at + 4;
        round = round + 1;
    }
    p.ethertype = Some(ethertype);
    if ethertype == 0x0800 {
        p.ipv4 = parse_ipv4(tail(data, at));
    }
    let mut s = String::new();
    match &p.ipv4 {
        Some(ip) => {
            push_str(&mut s, "Ethernet, IPv4 ");
            push_str(&mut s, ip.src.as_str());
            push_str(&mut s, " → ");
            push_str(&mut s, ip.dst.as_str());
        },
        None => match p.vlan_id {
            Some(v) => {
                push_str(&mut s, "Ethernet, VLAN ");
                push_decimal(&mut s, v as u64);
                push_str(&mut s, ", ");
                push_str(&mut s, ethertype_name(ethertype));
            },
            None => {
                push_str(&mut s, "Ethernet, ");
                push_str(&mut s, ethertype_name(ethertype));
            },
        },
    }
    assert(s@ =~= ethernet_summary(opt_ipv4(p.ipv4), p.vlan_id, ethertype));
    p.summary = s;
    p
}

/// 802.11 frame type from the frame-control byte.
pub open spec fn spec_dot11_frame_kind(fc: u8) -> Seq<char> {
    let t = (fc >> 2u8) & 3u8;
    if t == 0 {
        "management"@
    } else if t == 1 {
        "control"@
    } else if t == 2 {
        "data"@
    } else {
        "extension"@
    }
}

fn dot11_frame_kind(fc: u8) -> (s: &'static str)
    ensures
        s@ == spec_dot11_frame_kind(fc),
{
    let t = (fc >> 2u8) & 3u8;
    if t == 0 {
        "management"
    } else if t == 1 {
        "control"
    } else if t == 2 {
        "data"
    } else {
        "extension"
    }
}

/// 802.11 MAC header starting at `d[at..]`. Address 1 is the receiver,
/// address 2 the transmitter; some control frames carry only address 1.
pub open spec fn spec_dot11(d: Seq<u8>, at: int, kind: Seq<char>, prefix: Seq<char>) -> LinkPreviewV {
    let p = spec_blank(kind, prefix + " (truncated)"@, d);
    match spec_byte(d, at) {
        None => p,
        Some(fc) => LinkPreviewV {
            summary: prefix + ", "@ + spec_dot11_frame_kind(fc) + " frame"@,
            dst_mac: spec_mac(spec_tail(d, at + 4)),
            src_mac: spec_mac(spec_tail(d, at + 10)),
            ..p
        },
    }
}

fn dot11(data: &[u8], at: usize, kind: &str, prefix: &str) -> (p: LinkPreview)
    requires
        at <= data.len(),
    ensures
        p@ == spec_dot11(data@, at as int, kind@, prefix@),
{
    let mut s = string_of(prefix);
    push_str(&mut s, " (truncated)");
    let mut p = blank(kind, s, data);
    let fc = match byte_at(data, at) {
        Some(b) => b,
        None => return p,
    };
    let mut s = string_of(prefix);
    push_str(&mut s, ", ");
    push_str(&mut s, dot11_frame_kind(fc));
    push_str(&mut s, " frame");
    p.summary = s;
    p.dst_mac = if data.len() - at >= 4 {
        mac(tail(data, at + 4))
    } else {
        None
    };
    p.src_mac = if data.len() - at >= 10 {
        mac(tail(data, at + 10))
    } else {
        None
    };
    p
}

/// RadioTap header, then an 802.11 frame.
pub open spec fn spec_radiotap(d: Seq<u8>) -> LinkPreviewV {
    match spec_le16(d, 2) {
        None => spec_blank("radiotap"@, "RadioTap (truncated)"@, d),
        Some(rt_len) => if d[0] != 0 || rt_len < 8 || rt_len > d.len() {
            spec_blank("radiotap"@, "RadioTap (malformed header)"@, d)
        } else {
            spec_dot11(d, rt_len as int, "radiotap"@, "RadioTap + 802.11"@)
        },
    }
}

fn radiotap(data: &[u8]) -> (p: LinkPreview)
    ensures
        p@ == spec_radiotap(data@),
{
    let rt_len = match le16(data, 2) {
        Some(n) => n as usize,
        None => return blank("radiotap", string_of("RadioTap (truncated)"), data),
    };
    if data[0] != 0 || rt_len < 8 || rt_len > data.len() {
        return blank("radiotap", string_of("RadioTap (malformed header)"), data);
    }
    dot11(data, rt_len, "radiotap", "RadioTap + 802.11")
}

/// A bare IP packet: IPv4 gets a header preview.
pub open spec fn spec_raw_ip(d: Seq<u8>, kind: Seq<char>) -> LinkPreviewV {
    let p = spec_blank(kind, "IP (truncated)"@, d);
    if d.len() > 0 && d[0] >> 4u8 == 4 {
        let ip = spec_ipv4_preview(d);
        LinkPreviewV {
            kind: "ipv4"@,
            ipv4: ip,
            summary: match ip {
                Some(ip) => "IPv4 "@ + ip.src + " → "@ + ip.dst,
                None => "IPv4 (truncated)"@,
            },
            ..p
        }
    } else if d.len() > 0 && d[0] >> 4u8 == 6 {
        LinkPreviewV { kind: "ipv6"@, summary: "IPv6"@, ..p }
    } else {
        LinkPreviewV { summary: "Unrecognised IP version"@, ..p }
    }
}

fn raw_ip(data: &[u8], kind: &str) -> (p: LinkPreview)
    ensures
        p@ == spec_raw_ip(data@, kind@),
{
    let mut p = blank(kind, string_of("IP (truncated)"), data);
    let version: u8 = if data.len() > 0 {
        data[0] >> 4u8
    } else {
        0
    };
    if data.len() > 0 && version == 4 {
        p.kind = string_of("ipv4");
        p.ipv4 = parse_ipv4(data);
        let s = match &p.ipv4 {
            Some(ip) => {
                let mut s = string_of("IPv4 ");
                push_str(&mut s, ip.src.as_str());
                push_str(&mut s, " → ");
                push_str(&mut s, ip.dst.as_str());
                s
            },
            None => string_of("IPv4 (truncated)"),
        };
        p.summary = s;
    } else if data.len() > 0 && version == 6 {
        p.kind = string_of("ipv6");
        p.summary = string_of("IPv6");
    } else {
        p.summary = string_of("Unrecognised IP version");
    }
    p
}

/// The preview of a packet under a link type.
pub open spec fn spec_link_preview(d: Seq<u8>, linktype: u16) -> LinkPreviewV {
    if linktype == LINKTYPE_ETHERNET {
        spec_ethernet(d)
    } else if linktype == LINKTYPE_IEEE802_11_RADIOTAP {
        spec_radiotap(d)
    } else if linktype == LINKTYPE_IEEE802_11 {
        spec_dot11(d, 0, "ieee802_11"@, "802.11"@)
    } else if linktype == LINKTYPE_RAW || linktype == LINKTYPE_IPV4 || linktype == LINKTYPE_IPV6 {
        spec_raw_ip(d, "ipv4"@)
    } else if linktype == LINKTYPE_NULL {
        // 4-byte address-family header, then an IP packet.
        LinkPreviewV {
            kind: "loopback"@,
            header_hex: header_hex_of(d),
            ..spec_raw_ip(spec_tail(d, 4), "loopback"@)
        }
    } else if linktype == LINKTYPE_LINUX_SLL {
        spec_blank("linux_sll"@, "Linux cooked capture"@, d)
    } else {
        spec_blank("unknown"@, "Link type "@ + spec_decimal(linktype as nat) + " (no preview)"@, d)
    }
}

/// Build a preview for one packet. `linktype` is the pcap LINKTYPE_* value.
pub fn link_preview(data: &[u8], linktype: u16) -> (p: LinkPreview)
    ensures
        p@ == spec_link_preview(data@, linktype),
{
    if linktype == LINKTYPE_ETHERNET {
        ethernet(data)
    } else if linktype == LINKTYPE_IEEE802_11_RADIOTAP {
        radiotap(data)
    } else if linktype == LINKTYPE_IEEE802_11 {
        dot11(data, 0, "ieee802_11", "802.11")
    } else if linktype == LINKTYPE_RAW || linktype == LINKTYPE_IPV4 || linktype == LINKTYPE_IPV6 {
        raw_ip(data, "ipv4")
    } else if linktype == LINKTYPE_NULL {
        let inner = tail(data, 4);
        let mut p = raw_ip(inner, "loopback");
        p.kind = string_of("loopback");
        p.header_hex = header_hex(data);
        p
    } else if linktype == LINKTYPE_LINUX_SLL {
        blank("linux_sll", string_of("Linux cooked capture"), data)
    } else {
        let mut s = string_of("Link type ");
        push_decimal(&mut s, linktype as u64);
        push_str(&mut s, " (no preview)");
        blank("unknown", s, data)
    }
}


// ------------------------------------------------------------------ laws

proof fn lemma_hex_len(b: Seq<u8>)
    ensures
        spec_hex(b).len() == 2 * b.len(),
    decreases b.len(),
{
    if b.len() > 0 {
        lemma_hex_len(b.drop_last());
    }
}

/// Whatever the link type, the header hex is the hex of the packet's first
/// bytes, at most [`HEADER_HEX_BYTES`] of them: two characters per byte.
pub proof fn law_header_hex_is_capped(d: Seq<u8>, linktype: u16)
    ensures
        spec_link_preview(d, linktype).header_hex == header_hex_of(d),
        spec_link_preview(d, linktype).header_hex.len() == 2 * (if d.len() < HEADER_HEX_BYTES {
            d.len() as int
        } else {
            HEADER_HEX_BYTES as int
        }),
{
    let n = if d.len() < HEADER_HEX_BYTES {
        d.len() as int
    } else {
        HEADER_HEX_BYTES as int
    };
    lemma_hex_len(d.take(n));
}

/// The kinds a preview can have.
pub open spec fn known_kind(k: Seq<char>) -> bool {
    ||| k == "ethernet"@
    ||| k == "radiotap"@
    ||| k == "ieee802_11"@
    ||| k == "ipv4"@
    ||| k == "ipv6"@
    ||| k == "loopback"@
    ||| k == "linux_sll"@
    ||| k == "unknown"@
}

/// Every preview's kind is one of the documented names.
pub proof fn law_kind_is_documented(d: Seq<u8>, linktype: u16)
    ensures
        known_kind(spec_link_preview(d, linktype).kind),
{
}

/// A preview names a VLAN only for an Ethernet frame whose EtherType at
/// bytes 12..14 is a VLAN tag (0x8100 or 0x88a8), and the VLAN id is the
/// low 12 bits of that first tag's TCI (bytes 14..16): the priority and
/// drop-eligible bits above them are not part of it, so it is below 4096.
pub proof fn law_vlan_id_is_the_first_tag_id(d: Seq<u8>, linktype: u16)
    ensures
        spec_link_preview(d, linktype).vlan_id matches Some(v) ==> {
            &&& linktype == LINKTYPE_ETHERNET
            &&& d.len() >= 16
            &&& (d[12] == 0x81 && d[13] == 0x00) || (d[12] == 0x88 && d[13] == 0xa8)
            &&& v < 4096
            &&& v == (d[14] as int * 256 + d[15] as int) % 4096
        },
{
    if linktype == LINKTYPE_ETHERNET && d.len() >= 12 {
        if let Some(et0) = spec_be16(d, 12) {
            if is_vlan_type(et0) {
                if let (Some(tci), Some(inner)) = (spec_be16(d, 14), spec_be16(d, 16)) {
                    assert(tci & 0x0fff == tci % 4096 && tci % 4096 < 4096) by (bit_vector);
                    let first = Some(tci & 0x0fff);
                    assert(vlan_rounds(d, et0, 14, None, 2) == vlan_rounds(d, inner, 18, first, 1));
                    if is_vlan_type(inner) {
                        match (spec_be16(d, 18), spec_be16(d, 20)) {
                            (Some(t2), Some(i2)) => {
                                assert(vlan_rounds(d, inner, 18, first, 1) == vlan_rounds(d, i2, 22, first, 0));
                            },
                            _ => {},
                        }
                    }
                }
            } else {
                assert(vlan_rounds(d, et0, 14, None, 2) == Ok::<(u16, int, Option<u16>), (u16, Option<u16>)>((et0, 14, None)));
            }
        }
    }
}

/// An untagged Ethernet II frame carrying IPv4 (EtherType 0x0800 at bytes
/// 12..14, version 4 in the first IP byte, a 20-byte header present) has
/// an IPv4 preview read from that header: total length from IP bytes 2..4,
/// TTL from byte 8, protocol from byte 9, and the addresses from bytes
/// 12..20 in dotted decimal; no VLAN, and the EtherType is 0x0800.
pub proof fn law_ethernet_ipv4_preview_fields(d: Seq<u8>)
    requires
        d.len() >= 34,
        d[12] == 0x08 && d[13] == 0x00,
        d[14] / 16 == 4,
    ensures
        ({
            let p = spec_link_preview(d, LINKTYPE_ETHERNET);
            &&& p.ethertype == Some(0x0800u16)
            &&& p.vlan_id is None
            &&& p.ipv4 matches Some(ip) && {
                &&& ip.total_len == d[16] as int * 256 + d[17] as int
                &&& ip.ttl == d[22]
                &&& ip.protocol == d[23]
                &&& ip.src == dotted(d[26], d[27], d[28], d[29])
                &&& ip.dst == dotted(d[30], d[31], d[32], d[33])
            }
        }),
{
    let q = spec_tail(d, 14);
    assert(q =~= d.subrange(14, d.len() as int));
    let b0 = q[0];
    assert(b0 >> 4u8 == b0 / 16) by (bit_vector);
    assert(vlan_rounds(d, 0x0800, 14, None, 2) == Ok::<(u16, int, Option<u16>), (u16, Option<u16>)>(
        (0x0800u16, 14int, None),
    ));
}

/// A MAC address is shown as six pairs of lower-case hex digits joined by
/// colons: 17 characters, the pair for byte `k` at `3k` (high nibble first,
/// `0`-`9` then `a`-`f`), a colon after each pair but the last.
pub proof fn law_mac_text_is_colon_separated_hex(b: Seq<u8>)
    requires
        b.len() >= 6,
    ensures
        spec_mac(b) matches Some(s) && {
            &&& s.len() == 17
            &&& forall|k: int|
                0 <= k < 6 ==> {
                    let hi = b[k] as int / 16;
                    let lo = b[k] as int % 16;
                    &&& (hi < 10 ==> #[trigger] s[3 * k] as int == 48 + hi)
                    &&& (hi >= 10 ==> s[3 * k] as int == 87 + hi)
                    &&& (lo < 10 ==> s[3 * k + 1] as int == 48 + lo)
                    &&& (lo >= 10 ==> s[3 * k + 1] as int == 87 + lo)
                    &&& (k < 5 ==> s[3 * k + 2] == ':')
                }
        },
{
    reveal_strlit(":");
    let s = spec_mac(b)->0;
    let c = ":"@;
    assert(s =~= hex_byte(b[0]) + c + hex_byte(b[1]) + c + hex_byte(b[2]) + c + hex_byte(b[3]) + c
        + hex_byte(b[4]) + c + hex_byte(b[5]));
    assert(s.len() == 17);
    assert forall|k: int| 0 <= k < 6 implies {
        let hi = b[k] as int / 16;
        let lo = b[k] as int % 16;
        &&& (hi < 10 ==> #[trigger] s[3 * k] as int == 48 + hi)
        &&& (hi >= 10 ==> s[3 * k] as int == 87 + hi)
        &&& (lo < 10 ==> s[3 * k + 1] as int == 48 + lo)
        &&& (lo >= 10 ==> s[3 * k + 1] as int == 87 + lo)
        &&& (k < 5 ==> s[3 * k + 2] == ':')
    } by {
        assert(s[3 * k] == hex_byte(b[k])[0]);
        assert(s[3 * k + 1] == hex_byte(b[k])[1]);
        if k < 5 {
            assert(s[3 * k + 2] == ':');
        }
    }
}

} // verus!
