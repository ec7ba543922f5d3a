//! pcap-engine: `.pcap` / `.pcapng` indexing, packet dissection, link-layer
//! previews, a display-filter language and capture summaries.
//!
//! The modules hold the verified logic; this file is the small surface the
//! browser layer calls: a parsed index with range getters over its columns,
//! and a link-layer preview of one packet.

pub mod addr;
pub mod bytes;
pub mod capture;
pub mod chars;
pub mod dissect;
pub mod filter;
pub mod link;
pub mod pcapfile;
pub mod summary;
pub mod text;

use vstd::prelude::*;

use crate::capture::{
    parse_capture, rows_sound, spec_parse_legacy, spec_parse_pcapng, Format, IndexView, PacketIndex,
    PacketRecord, ParseError,
};
use crate::link::{spec_link_preview, LinkPreview};
use crate::pcapfile::{pcapng_start_ok, spec_legacy_header};

verus! {

/// Result of parsing a capture. Holds only per-packet columns, not the file
/// bytes. The caller keeps the file and slices out packets on demand.
pub struct PcapIndex {
    inner: PacketIndex,
}

impl View for PcapIndex {
    type V = IndexView;

    closed spec fn view(&self) -> IndexView {
        self.inner@
    }
}

/// A JS-supplied `[start, end)` range clamped to `len` packets.
pub open spec fn clamp_range(len: int, start: u32, end: u32) -> (int, int) {
    let e = if end < len {
        end as int
    } else {
        len
    };
    let s = if start < e {
        start as int
    } else {
        e
    };
    (s, e)
}

/// One value per packet in the clamped range.
pub open spec fn window<A>(recs: Seq<PacketRecord>, start: u32, end: u32, f: spec_fn(PacketRecord) -> A) -> Seq<A> {
    let (s, e) = clamp_range(recs.len() as int, start, end);
    Seq::new((e - s) as nat, |k: int| f(recs[s + k]))
}

/// Clamp a JS-supplied `[start, end)` range to the packet count.
fn range(len: usize, start: u32, end: u32) -> (r: (usize, usize))
    ensures
        r.0 == clamp_range(len as int, start, end).0,
        r.1 == clamp_range(len as int, start, end).1,
        r.0 <= r.1 <= len,
{
    let e = if (end as usize) < len {
        end as usize
    } else {
        len
    };
    let s = if (start as usize) < e {
        start as usize
    } else {
        e
    };
    (s, e)
}

/// The values `v[from..to]`.
fn copy_range<T: Copy>(v: &Vec<T>, from: usize, to: usize) -> (r: Vec<T>)
    requires
        from <= to <= v@.len(),
    ensures
        r@ == v@.subrange(from as int, to as int),
{
    let mut r: Vec<T> = Vec::new();
    let mut i: usize = from;
    while i < to
        invariant
            from <= i <= to <= v@.len(),
            r@ == v@.subrange(from as int, i as int),
        decreases to - i,
    {
        r.push(v[i]);
        assert(v@.subrange(from as int, i + 1) =~= v@.subrange(from as int, i as int).push(v@[i as int]));
        i = i + 1;
    }
    r
}

impl PcapIndex {
    #[verifier::type_invariant]
    spec fn columns_agree(self) -> bool {
        self.inner.wf()
    }

    /// The number of packets (as JS sees it, in 32 bits).
    pub fn count(&self) -> (n: u32)
        ensures
            n == self@.records.len() as u32,
    {
        self.inner.len() as u32
    }

    /// "pcap" or "pcapng".
    pub fn format(&self) -> (s: String)
        ensures
            self@.format == Format::Pcap ==> s@ == "pcap"@,
            self@.format == Format::PcapNg ==> s@ == "pcapng"@,
    {
        crate::text::string_of(self.inner.format.as_str())
    }

    /// False if the file was truncated or corrupt; packets before the
    /// problem are still available.
    pub fn complete(&self) -> (b: bool)
        ensures
            b == self@.complete,
    {
        self.inner.complete
    }

    pub fn issues(&self) -> (v: Vec<String>)
        ensures
            v@.map_values(|s: String| s@) == self@.issues,
    {
        let mut v: Vec<String> = Vec::new();
        let mut i: usize = 0;
        while i < self.inner.issues.len()
            invariant
                i <= self.inner.issues@.len(),
                v@.len() == i,
                forall|k: int| 0 <= k < i ==> (#[trigger] v@[k])@ == self.inner.issues@[k]@,
            decreases self.inner.issues.len() - i,
        {
            v.push(self.inner.issues[i].clone());
            i = i + 1;
        }
        assert(v@.map_values(|s: String| s@) =~= self@.issues);
        v
    }

    pub fn ts_sec(&self, start: u32, end: u32) -> (v: Vec<u32>)
        ensures
            v@ == window(self@.records, start, end, |p: PacketRecord| p.ts_sec),
    {
        proof {
            use_type_invariant(self);
        }
        let (s, e) = range(self.inner.len(), start, end);
        let v = copy_range(&self.inner.ts_sec, s, e);
        assert(v@ =~= window(self@.records, start, end, |p: PacketRecord| p.ts_sec));
        v
    }

    pub fn ts_nsec(&self, start: u32, end: u32) -> (v: Vec<u32>)
        ensures
            v@ == window(self@.records, start, end, |p: PacketRecord| p.ts_nsec),
    {
        proof {
            use_type_invariant(self);
        }
        let (s, e) = range(self.inner.len(), start, end);
        let v = copy_range(&self.inner.ts_nsec, s, e);
        assert(v@ =~= window(self@.records, start, end, |p: PacketRecord| p.ts_nsec));
        v
    }

    pub fn orig_len(&self, start: u32, end: u32) -> (v: Vec<u32>)
        ensures
            v@ == window(self@.records, start, end, |p: PacketRecord| p.orig_len),
    {
        proof {
            use_type_invariant(self);
        }
        let (s, e) = range(self.inner.len(), start, end);
        let v = copy_range(&self.inner.orig_len, s, e);
        assert(v@ =~= window(self@.records, start, end, |p: PacketRecord| p.orig_len));
        v
    }

    pub fn cap_len(&self, start: u32, end: u32) -> (v: Vec<u32>)
        ensures
            v@ == window(self@.records, start, end, |p: PacketRecord| p.cap_len),
    {
        proof {
            use_type_invariant(self);
        }
        let (s, e) = range(self.inner.len(), start, end);
        let v = copy_range(&self.inner.cap_len, s, e);
        assert(v@ =~= window(self@.records, start, end, |p: PacketRecord| p.cap_len));
        v
    }

    /// Byte offset of each packet's data within the original file.
    pub fn offset(&self, start: u32, end: u32) -> (v: Vec<u32>)
        ensures
            v@ == window(self@.records, start, end, |p: PacketRecord| p.offset),
    {
        proof {
            use_type_invariant(self);
        }
        let (s, e) = range(self.inner.len(), start, end);
        let v = copy_range(&self.inner.offset, s, e);
        assert(v@ =~= window(self@.records, start, end, |p: PacketRecord| p.offset));
        v
    }

    pub fn linktype(&self, start: u32, end: u32) -> (v: Vec<u16>)
        ensures
            v@ == window(self@.records, start, end, |p: PacketRecord| p.linktype),
    {
        proof {
            use_type_invariant(self);
        }
        let (s, e) = range(self.inner.len(), start, end);
        let v = copy_range(&self.inner.linktype, s, e);
        assert(v@ =~= window(self@.records, start, end, |p: PacketRecord| p.linktype));
        v
    }

    /// Protocol id per packet (see `dissect::PROTO_*`).
    pub fn proto(&self, start: u32, end: u32) -> (v: Vec<u8>)
        ensures
            v@ == window(self@.records, start, end, |p: PacketRecord| p.meta.proto),
    {
        proof {
            use_type_invariant(self);
        }
        let (s, e) = range(self.inner.len(), start, end);
        let v = copy_range(&self.inner.proto, s, e);
        assert(v@ =~= window(self@.records, start, end, |p: PacketRecord| p.meta.proto));
        v
    }

    /// 4, 6, or 0 per packet.
    pub fn ip_version(&self, start: u32, end: u32) -> (v: Vec<u8>)
        ensures
            v@ == window(self@.records, start, end, |p: PacketRecord| p.meta.ip_version),
    {
        proof {
            use_type_invariant(self);
        }
        let (s, e) = range(self.inner.len(), start, end);
        let v = copy_range(&self.inner.ip_version, s, e);
        assert(v@ =~= window(self@.records, start, end, |p: PacketRecord| p.meta.ip_version));
        v
    }

    pub fn src_port(&self, start: u32, end: u32) -> (v: Vec<u16>)
        ensures
            v@ == window(self@.records, start, end, |p: PacketRecord| p.meta.src_port),
    {
        proof {
            use_type_invariant(self);
        }
        let (s, e) = range(self.inner.len(), start, end);
        let v = copy_range(&self.inner.src_port, s, e);
        assert(v@ =~= window(self@.records, start, end, |p: PacketRecord| p.meta.src_port));
        v
    }

    pub fn dst_port(&self, start: u32, end: u32) -> (v: Vec<u16>)
        ensures
            v@ == window(self@.records, start, end, |p: PacketRecord| p.meta.dst_port),
    {
        proof {
            use_type_invariant(self);
        }
        let (s, e) = range(self.inner.len(), start, end);
        let v = copy_range(&self.inner.dst_port, s, e);
        assert(v@ =~= window(self@.records, start, end, |p: PacketRecord| p.meta.dst_port));
        v
    }

    /// Protocol-specific value per packet (TCP flags, ICMP type/code, ARP op, ...).
    pub fn detail(&self, start: u32, end: u32) -> (v: Vec<u16>)
        ensures
            v@ == window(self@.records, start, end, |p: PacketRecord| p.meta.detail),
    {
        proof {
            use_type_invariant(self);
        }
        let (s, e) = range(self.inner.len(), start, end);
        let v = copy_range(&self.inner.detail, s, e);
        assert(v@ =~= window(self@.records, start, end, |p: PacketRecord| p.meta.detail));
        v
    }

    /// 32 bytes per packet: 16-byte source address then 16-byte destination.
    pub fn addr(&self, start: u32, end: u32) -> (v: Vec<u8>)
        ensures
            ({
                let (s, e) = clamp_range(self@.records.len() as int, start, end);
                &&& v@.len() == 32 * (e - s)
                &&& forall|k: int|
                    0 <= k < e - s ==> #[trigger] v@.subrange(32 * k, 32 * k + 16)
                        == self@.records[s + k].meta.src && v@.subrange(32 * k + 16, 32 * k + 32)
                        == self@.records[s + k].meta.dst
            }),
    {
        proof {
            use_type_invariant(self);
        }
        let (s, e) = range(self.inner.len(), start, end);
        assert(self.inner.addr.len() == 32 * self.inner.ts_sec.len());
        let v = copy_range(&self.inner.addr, s * 32, e * 32);
        assert forall|k: int| 0 <= k < e - s implies #[trigger] v@.subrange(32 * k, 32 * k + 16)
            == self@.records[s + k].meta.src && v@.subrange(32 * k + 16, 32 * k + 32)
            == self@.records[s + k].meta.dst by {
            assert(v@.subrange(32 * k, 32 * k + 16) =~= self.inner.addr@.subrange(
                32 * (s + k),
                32 * (s + k) + 16,
            ));
            assert(v@.subrange(32 * k + 16, 32 * k + 32) =~= self.inner.addr@.subrange(
                32 * (s + k) + 16,
                32 * (s + k) + 32,
            ));
        }
        v
    }
}

/// Parse a whole capture held in memory.
pub fn parse_pcap_bytes(data: &[u8]) -> (r: Result<PcapIndex, ParseError>)
    ensures
        data@.len() < 24 ==> r matches Err(ParseError::TooShort),
        data@.len() >= 24 && pcapng_start_ok(data@) ==> (r matches Ok(p) && p@ == spec_parse_pcapng(
            data@,
        )),
        data@.len() >= 24 && !pcapng_start_ok(data@) ==> match spec_legacy_header(data@) {
            Some(h) => (r matches Ok(p) && p@ == spec_parse_legacy(data@, h)),
            None => r matches Err(ParseError::NotACapture),
        },
        r matches Ok(p) ==> rows_sound(p@, data@.len()),
{
    match parse_capture(data) {
        Ok(inner) => Ok(PcapIndex { inner }),
        Err(e) => Err(e),
    }
}

/// The link type as 16 bits: values that do not fit become `u16::MAX`.
pub open spec fn linktype16(linktype: u32) -> u16 {
    if linktype <= u16::MAX {
        linktype as u16
    } else {
        u16::MAX
    }
}

/// Link-layer preview for one packet's bytes. The caller passes just that
/// packet's slice of the file, so nothing large crosses the boundary.
pub fn link_preview(packet: &[u8], linktype: u32) -> (p: LinkPreview)
    ensures
        p@ == spec_link_preview(packet@, linktype16(linktype)),
{
    let lt: u16 = if linktype <= 0xffff {
        linktype as u16
    } else {
        0xffff
    };
    crate::link::link_preview(packet, lt)
}

} // verus!
