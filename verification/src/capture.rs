//! Capture indexing: reads a whole `.pcap` or `.pcapng` file held in memory
//! into a columnar packet index.

use vstd::prelude::*;

use crate::dissect::{dissect, spec_dissect, MetaView};
use crate::pcapfile::{
    frame_be, frame_le, legacy_header, ng_block_be, ng_block_layout, ng_block_le, ng_block_too_short,
    parse_block_be,
    parse_block_le, pcapng_start, pcapng_start_ok, spec_frame, spec_legacy_header, spec_u32,
    FrameHeader, LegacyHeader, NgBlock, BOM_MAGIC, MAGIC_NANO, MAGIC_NANO_SWAPPED, PIB_MAGIC,
};
use crate::text::{push_decimal, spec_decimal, string_of};

verus! {

/// Cap on how many non-fatal issues are recorded, so a hostile file cannot
/// grow this list without bound.
pub const MAX_ISSUES: usize = 20;

/// pcapng default timestamp resolution: microseconds.
pub const DEFAULT_RESOLUTION: u64 = 1_000_000;

pub const PCAP_HEADER_LEN: usize = 24;

#[derive(Debug, Clone, Copy, PartialEq, Eq, Structural)]
pub enum Format {
    Pcap,
    PcapNg,
}

impl Format {
    pub fn as_str(self) -> (s: &'static str)
        ensures
            self == Format::Pcap ==> s@ == "pcap"@,
            self == Format::PcapNg ==> s@ == "pcapng"@,
    {
        match self {
            Format::Pcap => "pcap",
            Format::PcapNg => "pcapng",
        }
    }
}

/// Fatal: nothing useful could be read at all.
#[derive(Debug, Clone, PartialEq, Eq, Structural)]
pub enum ParseError {
    TooShort,
    NotACapture,
}

impl ParseError {
    /// The sentence that describes the error.
    pub fn message(&self) -> (s: String)
        ensures
            *self == ParseError::TooShort ==> s@
                == "File is too short to be a pcap or pcapng capture"@,
            *self == ParseError::NotACapture ==> s@
                == "File is not a recognised pcap or pcapng capture"@,
    {
        match self {
            ParseError::TooShort => string_of("File is too short to be a pcap or pcapng capture"),
            ParseError::NotACapture => string_of("File is not a recognised pcap or pcapng capture"),
        }
    }
}

/// Columnar packet index. Column `i` describes packet `i`.
#[derive(Debug, Clone)]
pub struct PacketIndex {
    pub format: Format,
    pub ts_sec: Vec<u32>,
    pub ts_nsec: Vec<u32>,
    pub orig_len: Vec<u32>,
    pub cap_len: Vec<u32>,
    /// Byte offset of the packet data within the input buffer.
    pub offset: Vec<u32>,
    /// pcap LINKTYPE_* value for the packet's interface.
    pub linktype: Vec<u16>,
    /// `dissect::PROTO_*` value.
    pub proto: Vec<u8>,
    /// 4, 6, or 0 (no addresses).
    pub ip_version: Vec<u8>,
    pub src_port: Vec<u16>,
    pub dst_port: Vec<u16>,
    /// Protocol-specific value; see `dissect::Meta::detail`.
    pub detail: Vec<u16>,
    /// 32 bytes per packet: 16-byte source address then 16-byte destination.
    pub addr: Vec<u8>,
    /// False if parsing stopped early (truncated or corrupt file). Packets
    /// parsed before the problem are still present.
    pub complete: bool,
    pub issues: Vec<String>,
}

/// One row of the index.
pub struct PacketRecord {
    pub ts_sec: u32,
    pub ts_nsec: u32,
    pub orig_len: u32,
    pub cap_len: u32,
    pub offset: u32,
    pub linktype: u16,
    pub meta: MetaView,
}

/// The mathematical value of a [`PacketIndex`]: its rows in order, whether
/// it is complete, and the issue messages.
pub struct IndexView {
    pub format: Format,
    pub records: Seq<PacketRecord>,
    pub complete: bool,
    pub issues: Seq<Seq<char>>,
}

impl PacketIndex {
    /// All columns describe the same packets, the issue list respects its
    /// cap, and a partial index says why it stopped.
    pub open spec fn wf(&self) -> bool {
        &&& self.columns_ok()
        &&& self.issues@.len() <= MAX_ISSUES
        &&& !self.complete ==> self.issues@.len() > 0
    }

    /// Every column describes the same packets: one entry per packet, and
    /// 32 address bytes per packet.
    pub open spec fn columns_ok(&self) -> bool {
        let n = self.ts_sec@.len();
        &&& self.ts_nsec@.len() == n
        &&& self.orig_len@.len() == n
        &&& self.cap_len@.len() == n
        &&& self.offset@.len() == n
        &&& self.linktype@.len() == n
        &&& self.proto@.len() == n
        &&& self.ip_version@.len() == n
        &&& self.src_port@.len() == n
        &&& self.dst_port@.len() == n
        &&& self.detail@.len() == n
        &&& self.addr@.len() == 32 * n
    }

    /// Row `i` of the index.
    pub open spec fn record(&self, i: int) -> PacketRecord {
        PacketRecord {
            ts_sec: self.ts_sec@[i],
            ts_nsec: self.ts_nsec@[i],
            orig_len: self.orig_len@[i],
            cap_len: self.cap_len@[i],
            offset: self.offset@[i],
            linktype: self.linktype@[i],
            meta: MetaView {
                proto: self.proto@[i],
                ip_version: self.ip_version@[i],
                src_port: self.src_port@[i],
                dst_port: self.dst_port@[i],
                detail: self.detail@[i],
                src: self.addr@.subrange(32 * i, 32 * i + 16),
                dst: self.addr@.subrange(32 * i + 16, 32 * i + 32),
            },
        }
    }
}

impl View for PacketIndex {
    type V = IndexView;

    open spec fn view(&self) -> IndexView {
        IndexView {
            format: self.format,
            records: Seq::new(self.ts_sec@.len(), |i: int| self.record(i)),
            complete: self.complete,
            issues: self.issues@.map_values(|s: String| s@),
        }
    }
}

/// A fresh, complete index with no packets.
pub open spec fn spec_empty_index(format: Format) -> IndexView {
    IndexView { format, records: Seq::empty(), complete: true, issues: Seq::empty() }
}

/// Record an issue unless the list is full.
pub open spec fn spec_issue(v: IndexView, msg: Seq<char>) -> IndexView {
    if v.issues.len() < MAX_ISSUES {
        IndexView { issues: v.issues.push(msg), ..v }
    } else {
        v
    }
}

/// Stop parsing: mark the index partial and record why.
pub open spec fn spec_stop(v: IndexView, msg: Seq<char>) -> IndexView {
    spec_issue(IndexView { complete: false, ..v }, msg)
}

pub open spec fn spec_push(v: IndexView, r: PacketRecord) -> IndexView {
    IndexView { records: v.records.push(r), ..v }
}

pub open spec fn msg_truncated(n: nat) -> Seq<char> {
    "File is truncated or corrupt after packet "@ + spec_decimal(n)
}

pub open spec fn msg_too_large() -> Seq<char> {
    "Capture is larger than 4 GiB; packets past this point were skipped"@
}

pub open spec fn msg_bad_resolution() -> Seq<char> {
    "Interface has an invalid timestamp resolution; assuming microseconds"@
}

pub open spec fn msg_unknown_interface() -> Seq<char> {
    "Packet refers to an undeclared interface; using defaults"@
}

/// The row for a packet whose data are `data[offset..offset + cap_len]`.
pub open spec fn spec_record(
    data: Seq<u8>,
    offset: int,
    ts: (u32, u32),
    orig_len: u32,
    cap_len: u32,
    linktype: u16,
) -> PacketRecord {
    PacketRecord {
        ts_sec: ts.0,
        ts_nsec: ts.1,
        orig_len,
        cap_len,
        offset: offset as u32,
        linktype,
        meta: spec_dissect(data.subrange(offset, offset + cap_len), linktype),
    }
}

/// Add the row for a packet at `offset`, or stop when the offset does not
/// fit in 32 bits.
pub open spec fn spec_add(
    v: IndexView,
    data: Seq<u8>,
    offset: int,
    ts: (u32, u32),
    orig_len: u32,
    cap_len: u32,
    linktype: u16,
) -> IndexView {
    if offset > u32::MAX {
        spec_stop(v, msg_too_large())
    } else {
        spec_push(v, spec_record(data, offset, ts, orig_len, cap_len, linktype))
    }
}

/// Every row points at bytes inside an input of `len` bytes, and every
/// nanosecond field is below one second.
pub open spec fn rows_sound(v: IndexView, len: nat) -> bool {
    forall|i: int|
        0 <= i < v.records.len() ==> #[trigger] v.records[i].offset + v.records[i].cap_len <= len
            && v.records[i].ts_nsec < 1_000_000_000
}

/// Appends sixteen address bytes.
fn push_bytes(v: &mut Vec<u8>, a: &[u8; 16])
    ensures
        final(v)@ == old(v)@ + a@,
{
    let mut k: usize = 0;
    while k < 16
        invariant
            k <= 16,
            v@ == old(v)@ + a@.subrange(0, k as int),
        decreases 16 - k,
    {
        v.push(a[k]);
        assert(a@.subrange(0, k + 1) =~= a@.subrange(0, k as int).push(a@[k as int]));
        k = k + 1;
    }
    assert(a@.subrange(0, 16) =~= a@);
}

impl PacketIndex {
    fn new(format: Format, capacity: usize) -> (idx: Self)
        requires
            capacity <= usize::MAX / 32,
        ensures
            idx.wf(),
            idx@ == spec_empty_index(format),
    {
        let idx = PacketIndex {
            format,
            ts_sec: Vec::with_capacity(capacity),
            ts_nsec: Vec::with_capacity(capacity),
            orig_len: Vec::with_capacity(capacity),
            cap_len: Vec::with_capacity(capacity),
            offset: Vec::with_capacity(capacity),
            linktype: Vec::with_capacity(capacity),
            proto: Vec::with_capacity(capacity),
            ip_version: Vec::with_capacity(capacity),
            src_port: Vec::with_capacity(capacity),
            dst_port: Vec::with_capacity(capacity),
            detail: Vec::with_capacity(capacity),
            addr: Vec::with_capacity(capacity * 32),
            complete: true,
            issues: Vec::new(),
        };
        assert(idx@.records =~= Seq::<PacketRecord>::empty());
        assert(idx@.issues =~= Seq::<Seq<char>>::empty());
        idx
    }

    pub fn len(&self) -> (n: usize)
        ensures
            n == self.ts_sec@.len(),
            n == self@.records.len(),
    {
        self.ts_sec.len()
    }

    pub fn is_empty(&self) -> (b: bool)
        ensures
            b == (self@.records.len() == 0),
    {
        self.ts_sec.len() == 0
    }

    fn issue(&mut self, msg: String)
        requires
            old(self).wf(),
        ensures
            final(self).wf(),
            final(self)@ == spec_issue(old(self)@, msg@),
    {
        if self.issues.len() < MAX_ISSUES {
            self.issues.push(msg);
            assert(self@.issues =~= old(self)@.issues.push(msg@));
        }
        assert(self@.records =~= old(self)@.records);
    }

    /// Stop parsing: record why, and mark the result partial.
    fn stop(&mut self, msg: String)
        requires
            old(self).wf(),
        ensures
            final(self).wf(),
            final(self)@ == spec_stop(old(self)@, msg@),
    {
        self.complete = false;
        assert(self@.records =~= old(self)@.records);
        if self.issues.len() < MAX_ISSUES {
            self.issues.push(msg);
            assert(self@.issues =~= old(self)@.issues.push(msg@));
        }
        assert(self@.records =~= old(self)@.records);
    }

    /// Stop with the "truncated or corrupt" message for the current count.
    fn stop_truncated(&mut self)
        requires
            old(self).wf(),
        ensures
            final(self).wf(),
            final(self)@ == spec_stop(old(self)@, msg_truncated(old(self)@.records.len())),
    {
        let mut msg = string_of("File is truncated or corrupt after packet ");
        push_decimal(&mut msg, self.len() as u64);
        self.stop(msg);
    }

    /// Appends the row for a packet; returns false (and stops) if the packet
    /// cannot be represented.
    fn push(
        &mut self,
        data: &[u8],
        data_offset: usize,
        ts: (u32, u32),
        orig_len: u32,
        cap_len: u32,
        linktype: u16,
    ) -> (ok: bool)
        requires
            old(self).wf(),
            data_offset + cap_len <= data.len(),
        ensures
            final(self).wf(),
            ok == (data_offset <= u32::MAX),
            final(self)@ == spec_add(
                old(self)@,
                data@,
                data_offset as int,
                ts,
                orig_len,
                cap_len,
                linktype,
            ),
    {
        if data_offset > 0xffff_ffffusize {
            self.stop(string_of("Capture is larger than 4 GiB; packets past this point were skipped"));
            return false;
        }
        let offset = data_offset as u32;
        let packet = &data[data_offset..data_offset + cap_len as usize];
        let meta = dissect(packet, linktype);
        let ghost old_idx = *self;
        let ghost n: int = self.ts_sec@.len() as int;
        self.ts_sec.push(ts.0);
        self.ts_nsec.push(ts.1);
        self.orig_len.push(orig_len);
        self.cap_len.push(cap_len);
        self.offset.push(offset);
        self.linktype.push(linktype);
        self.proto.push(meta.proto);
        self.ip_version.push(meta.ip_version);
        self.src_port.push(meta.src_port);
        self.dst_port.push(meta.dst_port);
        self.detail.push(meta.detail);
        push_bytes(&mut self.addr, &meta.src);
        push_bytes(&mut self.addr, &meta.dst);
        proof {
            let rec = spec_record(
                data@,
                data_offset as int,
                ts,
                orig_len,
                cap_len,
                linktype,
            );
            assert(self.addr@.subrange(32 * n, 32 * n + 16) =~= meta.src@);
            assert(self.addr@.subrange(32 * n + 16, 32 * n + 32) =~= meta.dst@);
            assert(packet@ =~= data@.subrange(data_offset as int, data_offset + cap_len));
            assert forall|i: int| 0 <= i < n implies self.record(i) == old_idx.record(i) by {
                assert(self.addr@.subrange(32 * i, 32 * i + 16) =~= old_idx.addr@.subrange(
                    32 * i,
                    32 * i + 16,
                ));
                assert(self.addr@.subrange(32 * i + 16, 32 * i + 32) =~= old_idx.addr@.subrange(
                    32 * i + 16,
                    32 * i + 32,
                ));
            }
            assert(self.record(n as int) == rec);
            assert(self@.records =~= old_idx@.records.push(rec));
            assert(self@.issues =~= old_idx@.issues);
        }
        true
    }
}


/// Clamp a signed second count into `u32`.
pub open spec fn clamp_secs(secs: int) -> u32 {
    if secs < 0 {
        0
    } else if secs > u32::MAX {
        u32::MAX
    } else {
        secs as u32
    }
}

/// Raw pcapng ticks as (seconds, nanoseconds): whole seconds plus the
/// interface offset, clamped into `u32`, and the remainder scaled to
/// nanoseconds, rounded down.
pub open spec fn spec_split_ticks(ticks: u64, resolution: u64, offset_secs: i64) -> (u32, u32) {
    (
        clamp_secs(ticks as int / resolution as int + offset_secs as int),
        ((ticks as int % resolution as int) * 1_000_000_000 / resolution as int) as u32,
    )
}

proof fn lemma_scaled_remainder(r: int, res: int)
    requires
        0 <= r < res,
    ensures
        0 <= r * 1_000_000_000 / res < 1_000_000_000,
{
    assert(r * 1_000_000_000 < res * 1_000_000_000) by (nonlinear_arith)
        requires
            0 <= r < res,
    ;
    assert(r * 1_000_000_000 / res < 1_000_000_000) by (nonlinear_arith)
        requires
            0 <= r * 1_000_000_000 < res * 1_000_000_000,
            res > 0,
    ;
    assert(0 <= r * 1_000_000_000 / res) by (nonlinear_arith)
        requires
            0 <= r,
            res > 0,
    ;
}

/// Convert raw pcapng ticks into (seconds, nanoseconds).
pub fn split_ticks(ticks: u64, resolution: u64, offset_secs: i64) -> (r: (u32, u32))
    requires
        resolution > 0,
    ensures
        r == spec_split_ticks(ticks, resolution, offset_secs),
        r.1 < 1_000_000_000,
{
    let secs: i128 = (ticks / resolution) as i128 + offset_secs as i128;
    let rem: u128 = (ticks % resolution) as u128;
    proof {
        lemma_scaled_remainder(rem as int, resolution as int);
        assert(rem * 1_000_000_000 <= u128::MAX) by (nonlinear_arith)
            requires
                rem < 0x1_0000_0000_0000_0000,
        ;
    }
    let nsec: u128 = rem * 1_000_000_000u128 / (resolution as u128);
    let s: u32 = if secs < 0 {
        0
    } else if secs > 0xffff_ffffi128 {
        0xffff_ffff
    } else {
        secs as u32
    };
    (s, nsec as u32)
}

/// The byte order a legacy pcap magic announces (as `PcapHeader::is_bigendian`).
pub open spec fn spec_is_bigendian(magic: u32) -> bool {
    magic % 0x10000 == 0xb2a1
}

/// Nanosecond timestamps (as `PcapHeader::is_nanosecond_precision`).
pub open spec fn spec_is_nano(magic: u32) -> bool {
    magic == MAGIC_NANO || magic == MAGIC_NANO_SWAPPED
}

fn is_bigendian(magic: u32) -> (b: bool)
    ensures
        b == spec_is_bigendian(magic),
{
    magic % 0x10000 == 0xb2a1
}

fn is_nano(magic: u32) -> (b: bool)
    ensures
        b == spec_is_nano(magic),
{
    magic == MAGIC_NANO || magic == MAGIC_NANO_SWAPPED
}

/// A link type as a 16-bit value; out-of-range values become `u16::MAX`.
pub open spec fn spec_linktype16(n: i32) -> u16 {
    if 0 <= n <= 65535 {
        n as u16
    } else {
        u16::MAX
    }
}

fn linktype16(n: i32) -> (t: u16)
    ensures
        t == spec_linktype16(n),
{
    if 0 <= n && n <= 65535 {
        n as u16
    } else {
        0xffff
    }
}

/// Nanoseconds from a legacy record's fraction, capped below one second.
pub open spec fn spec_legacy_nsec(frac: u32, nano: bool) -> u32 {
    let ns: int = if nano {
        frac as int
    } else {
        frac as int * 1000
    };
    if ns > 999_999_999 {
        999_999_999
    } else {
        ns as u32
    }
}

fn legacy_nsec(frac: u32, nano: bool) -> (ns: u32)
    ensures
        ns == spec_legacy_nsec(frac, nano),
        ns < 1_000_000_000,
{
    let ns: u64 = if nano {
        frac as u64
    } else {
        frac as u64 * 1000
    };
    if ns > 999_999_999 {
        999_999_999
    } else {
        ns as u32
    }
}

/// The rest of a legacy capture from byte `pos`, added to `acc`.
pub open spec fn legacy_from(
    data: Seq<u8>,
    pos: int,
    big_endian: bool,
    nano: bool,
    linktype: u16,
    acc: IndexView,
) -> IndexView
    decreases data.len() - pos,
{
    if pos < 0 || pos >= data.len() {
        acc
    } else {
        match spec_frame(data.subrange(pos, data.len() as int), big_endian) {
            None => spec_stop(acc, msg_truncated(acc.records.len())),
            Some(f) => if pos + 16 > u32::MAX {
                spec_stop(acc, msg_too_large())
            } else {
                legacy_from(
                    data,
                    pos + 16 + f.caplen,
                    big_endian,
                    nano,
                    linktype,
                    spec_push(
                        acc,
                        spec_record(
                            data,
                            pos + 16,
                            (f.ts_sec, spec_legacy_nsec(f.ts_frac, nano)),
                            f.origlen,
                            f.caplen,
                            linktype,
                        ),
                    ),
                )
            },
        }
    }
}

/// The index of a legacy pcap file with global header `h`.
pub open spec fn spec_parse_legacy(data: Seq<u8>, h: LegacyHeader) -> IndexView {
    legacy_from(
        data,
        PCAP_HEADER_LEN as int,
        spec_is_bigendian(h.magic),
        spec_is_nano(h.magic),
        spec_linktype16(h.network),
        spec_empty_index(Format::Pcap),
    )
}

fn parse_legacy(data: &[u8], h: LegacyHeader) -> (idx: PacketIndex)
    requires
        data@.len() >= PCAP_HEADER_LEN,
    ensures
        idx.wf(),
        idx@ == spec_parse_legacy(data@, h),
        rows_sound(idx@, data@.len()),
{
    let nano = is_nano(h.magic);
    let linktype = linktype16(h.network);
    // The slice iterator of pcap-parser only decodes little-endian records,
    // so the frame parsers are driven here and picked by byte order.
    let big_endian = is_bigendian(h.magic);
    let mut idx = PacketIndex::new(Format::Pcap, data.len() / 64);
    let mut pos: usize = PCAP_HEADER_LEN;
    while pos < data.len()
        invariant_except_break
            idx.wf(),
            PCAP_HEADER_LEN <= pos <= data@.len(),
            legacy_from(data@, pos as int, big_endian, nano, linktype, idx@) == spec_parse_legacy(
                data@,
                h,
            ),
            rows_sound(idx@, data@.len()),
            idx@.records.len() <= pos / 16,
        ensures
            idx.wf(),
            idx@ == spec_parse_legacy(data@, h),
            rows_sound(idx@, data@.len()),
        decreases data.len() - pos,
    {
        let rem = &data[pos..data.len()];
        let frame = if big_endian {
            frame_be(rem)
        } else {
            frame_le(rem)
        };
        let f = match frame {
            Some(f) => f,
            None => {
                idx.stop_truncated();
                break;
            },
        };
        let data_offset = pos + 16;
        let ns = legacy_nsec(f.ts_frac, nano);
        proof {
            lemma_rows_sound_add(idx@, data@, data_offset as int, (f.ts_sec, ns), f.origlen, f.caplen, linktype);
        }
        if !idx.push(data, data_offset, (f.ts_sec, ns), f.origlen, f.caplen, linktype) {
            break;
        }
        pos = data_offset + f.caplen as usize;
    }
    idx
}


/// What a packet needs from its interface.
#[derive(Clone, Copy)]
pub struct Interface {
    pub linktype: u16,
    /// Timestamp ticks per second; never zero.
    pub resolution: u64,
    pub offset_secs: i64,
}

/// 10 to the power `e`.
pub open spec fn pow10(e: nat) -> int
    decreases e,
{
    if e == 0 {
        1
    } else {
        10 * pow10((e - 1) as nat)
    }
}

/// 2 to the power `e`.
pub open spec fn pow2(e: nat) -> int
    decreases e,
{
    if e == 0 {
        1
    } else {
        2 * pow2((e - 1) as nat)
    }
}

/// Ticks per second for an `if_tsresol` value (as pcap-parser's
/// `InterfaceDescriptionBlock::ts_resolution`): `10^v` when the top bit is
/// clear and `v <= 19`, `2^(v & 0x7f)` when the top bit is set and
/// `v <= 63`, otherwise none.
pub open spec fn spec_ts_resolution(v: u8) -> Option<u64> {
    if v < 128 {
        if v > 19 {
            None
        } else {
            Some(pow10(v as nat) as u64)
        }
    } else {
        if v > 63 {
            None
        } else {
            Some(pow2((v % 128) as nat) as u64)
        }
    }
}

proof fn lemma_pow10_bounds(e: nat)
    requires
        e <= 19,
    ensures
        1 <= pow10(e) <= 10_000_000_000_000_000_000,
    decreases 19 - e,
{
    if e < 19 {
        lemma_pow10_bounds(e + 1);
        assert(pow10(e + 1) == 10 * pow10(e));
    } else {
        reveal_with_fuel(pow10, 20);
    }
}

fn ts_resolution(v: u8) -> (r: Option<u64>)
    ensures
        r == spec_ts_resolution(v),
        r matches Some(x) ==> x > 0,
{
    if v < 128 {
        if v > 19 {
            return None;
        }
        let mut x: u64 = 1;
        let mut i: u8 = 0;
        while i < v
            invariant
                i <= v <= 19,
                x == pow10(i as nat),
            decreases v - i,
        {
            proof {
                lemma_pow10_bounds((i + 1) as nat);
            }
            x = x * 10;
            i = i + 1;
        }
        proof {
            lemma_pow10_bounds(v as nat);
        }
        Some(x)
    } else {
        // A set top bit makes the value at least 128, above the limit of 63.
        None
    }
}

pub open spec fn default_interface() -> Interface {
    Interface { linktype: 0, resolution: DEFAULT_RESOLUTION, offset_secs: 0 }
}

/// The interface an Interface Description Block declares, and the index
/// with a note when its resolution is unusable.
pub open spec fn spec_interface_from(
    linktype: i32,
    tsresol: u8,
    tsoffset: i64,
    acc: IndexView,
) -> (Interface, IndexView) {
    let (resolution, acc2) = match spec_ts_resolution(tsresol) {
        Some(r) if r > 0 => (r, acc),
        _ => (DEFAULT_RESOLUTION, spec_issue(acc, msg_bad_resolution())),
    };
    (Interface { linktype: spec_linktype16(linktype), resolution, offset_secs: tsoffset }, acc2)
}

fn interface_from(linktype: i32, tsresol: u8, tsoffset: i64, idx: &mut PacketIndex) -> (iface:
    Interface)
    requires
        old(idx).wf(),
    ensures
        final(idx).wf(),
        (iface, final(idx)@) == spec_interface_from(linktype, tsresol, tsoffset, old(idx)@),
        iface.resolution > 0,
{
    let resolution = match ts_resolution(tsresol) {
        Some(r) => r,
        None => {
            idx.issue(string_of("Interface has an invalid timestamp resolution; assuming microseconds"));
            DEFAULT_RESOLUTION
        },
    };
    Interface { linktype: linktype16(linktype), resolution, offset_secs: tsoffset }
}

/// What the pcapng reader carries from block to block.
pub struct NgState {
    pub big_endian: bool,
    /// Interfaces of the current section, by id.
    pub interfaces: Seq<Interface>,
    /// Whether the undeclared-interface note was already recorded.
    pub warned: bool,
}

/// The block at the start of `rem`, read in the section's byte order.
pub open spec fn ng_block_at(rem: Seq<u8>, big_endian: bool) -> Option<(usize, NgBlock)> {
    if ng_block_too_short(rem, big_endian) {
        None
    } else if big_endian {
        ng_block_be(rem)
    } else {
        ng_block_le(rem)
    }
}

/// 64-bit tick count from its two 32-bit halves.
pub open spec fn ticks_of(high: u32, low: u32) -> u64 {
    (high as int * 0x1_0000_0000 + low as int) as u64
}

pub open spec fn min_u32(a: u32, b: int) -> u32 {
    if b < a as int {
        b as u32
    } else {
        a
    }
}

/// One pcapng block `b` found at byte `pos`: the reader state and index
/// after it, and whether reading goes on.
pub open spec fn ng_apply(data: Seq<u8>, pos: int, st: NgState, acc: IndexView, b: NgBlock) -> (
    NgState,
    IndexView,
    bool,
) {
    match b {
        // A new section resets the interfaces and may switch byte order.
        NgBlock::Section(bom) => (
            NgState { big_endian: bom != BOM_MAGIC, interfaces: Seq::empty(), warned: st.warned },
            acc,
            true,
        ),
        NgBlock::Interface(linktype, tsresol, tsoffset) => {
            let (iface, acc2) = spec_interface_from(linktype, tsresol, tsoffset, acc);
            (NgState { interfaces: st.interfaces.push(iface), ..st }, acc2, true)
        },
        NgBlock::Enhanced(if_id, ts_high, ts_low, caplen, origlen, data_len) => {
            let known = (if_id as int) < st.interfaces.len();
            let iface = if known {
                st.interfaces[if_id as int]
            } else {
                default_interface()
            };
            let acc2 = if !known && !st.warned {
                spec_issue(acc, msg_unknown_interface())
            } else {
                acc
            };
            let ts = spec_split_ticks(ticks_of(ts_high, ts_low), iface.resolution, iface.offset_secs);
            // The data may carry up to 3 bytes of padding; caplen is authoritative.
            let cap = min_u32(caplen, data_len as int);
            (
                NgState { warned: st.warned || !known, ..st },
                spec_add(acc2, data, pos + 28, ts, origlen, cap, iface.linktype),
                pos + 28 <= u32::MAX,
            )
        },
        NgBlock::Simple(origlen, data_len) => {
            // Simple packets carry no timestamp and always use interface 0.
            let linktype = if st.interfaces.len() > 0 {
                st.interfaces[0].linktype
            } else {
                0
            };
            let cap = min_u32(origlen, data_len as int);
            (st, spec_add(acc, data, pos + 12, (0, 0), origlen, cap, linktype), pos + 12 <= u32::MAX)
        },
        NgBlock::Other => (st, acc, true),
    }
}

/// The rest of a pcapng capture from byte `pos`, added to `acc`.
pub open spec fn ng_from(data: Seq<u8>, pos: int, st: NgState, acc: IndexView) -> IndexView
    decreases data.len() - pos,
{
    if pos < 0 || pos >= data.len() {
        acc
    } else {
        let rem = data.subrange(pos, data.len() as int);
        match ng_block_at(rem, st.big_endian) {
            None => spec_stop(acc, msg_truncated(acc.records.len())),
            Some((rest, b)) => if rest >= rem.len() {
                // cannot happen: a block is at least 12 bytes
                acc
            } else {
                let (st2, acc2, go_on) = ng_apply(data, pos, st, acc, b);
                if go_on {
                    ng_from(data, data.len() - rest, st2, acc2)
                } else {
                    acc2
                }
            },
        }
    }
}

/// The index of a pcapng capture.
pub open spec fn spec_parse_pcapng(data: Seq<u8>) -> IndexView {
    ng_from(
        data,
        0,
        NgState { big_endian: false, interfaces: Seq::empty(), warned: false },
        spec_empty_index(Format::PcapNg),
    )
}


proof fn lemma_rows_sound_add(
    v: IndexView,
    data: Seq<u8>,
    offset: int,
    ts: (u32, u32),
    orig_len: u32,
    cap_len: u32,
    linktype: u16,
)
    requires
        rows_sound(v, data.len()),
        0 <= offset,
        offset + cap_len <= data.len(),
        ts.1 < 1_000_000_000,
    ensures
        rows_sound(spec_add(v, data, offset, ts, orig_len, cap_len, linktype), data.len()),
{
    let w = spec_add(v, data, offset, ts, orig_len, cap_len, linktype);
    assert forall|i: int| 0 <= i < w.records.len() implies #[trigger] w.records[i].offset
        + w.records[i].cap_len <= data.len() && w.records[i].ts_nsec < 1_000_000_000 by {
        if i < v.records.len() {
            assert(w.records[i] == v.records[i]);
        }
    }
}

/// Unsigned 32-bit value at `at` in the given byte order.
fn read_u32(d: &[u8], at: usize, big_endian: bool) -> (v: u32)
    requires
        at + 4 <= d@.len(),
    ensures
        v == spec_u32(d@, at as int, big_endian),
{
    let b0 = d[at] as u32;
    let b1 = d[at + 1] as u32;
    let b2 = d[at + 2] as u32;
    let b3 = d[at + 3] as u32;
    if big_endian {
        b0 * 0x1000000 + b1 * 0x10000 + b2 * 0x100 + b3
    } else {
        b3 * 0x1000000 + b2 * 0x10000 + b1 * 0x100 + b0
    }
}

fn block_too_short(rem: &[u8], big_endian: bool) -> (b: bool)
    ensures
        b == ng_block_too_short(rem@, big_endian),
{
    rem.len() >= 8 && read_u32(rem, 0, big_endian) == PIB_MAGIC && read_u32(rem, 4, big_endian) < 12
}

/// What the pcapng reader carries from block to block.
pub struct NgReader {
    pub big_endian: bool,
    /// Interfaces of the current section, by id.
    pub interfaces: Vec<Interface>,
    /// Whether the undeclared-interface note was already recorded.
    pub warned: bool,
}

impl NgReader {
    pub open spec fn state(&self) -> NgState {
        NgState { big_endian: self.big_endian, interfaces: self.interfaces@, warned: self.warned }
    }

    /// Every declared interface has a usable clock.
    pub open spec fn clocks_ok(&self) -> bool {
        forall|i: int| 0 <= i < self.interfaces@.len() ==> #[trigger] self.interfaces@[i].resolution > 0
    }
}

/// Apply one parsed pcapng block, found at byte `pos` of `data`, to the
/// index; returns whether reading goes on (see [`ng_apply`]).
pub fn apply_block(
    idx: &mut PacketIndex,
    rd: &mut NgReader,
    data: &[u8],
    pos: usize,
    rest: usize,
    block: NgBlock,
) -> (go_on: bool)
    requires
        old(idx).wf(),
        rows_sound(old(idx)@, data@.len()),
        old(rd).clocks_ok(),
        pos < data.len(),
        ng_block_layout((data.len() - pos) as nat, rest, block),
    ensures
        final(idx).wf(),
        rows_sound(final(idx)@, data@.len()),
        final(rd).clocks_ok(),
        (final(rd).state(), final(idx)@, go_on) == ng_apply(data@, pos as int, old(rd).state(), old(idx)@, block),
{
    let ghost before = idx@;
    match block {
        NgBlock::Section(bom) => {
            rd.big_endian = bom != BOM_MAGIC;
            rd.interfaces.clear();
            true
        },
        NgBlock::Interface(linktype, tsresol, tsoffset) => {
            let iface = interface_from(linktype, tsresol, tsoffset, idx);
            rd.interfaces.push(iface);
            assert(rd.interfaces@ == old(rd).interfaces@.push(iface));
            true
        },
        NgBlock::Enhanced(if_id, ts_high, ts_low, caplen, origlen, data_len) => {
            let iface = if (if_id as usize) < rd.interfaces.len() {
                rd.interfaces[if_id as usize]
            } else {
                if !rd.warned {
                    idx.issue(string_of("Packet refers to an undeclared interface; using defaults"));
                }
                rd.warned = true;
                Interface { linktype: 0, resolution: DEFAULT_RESOLUTION, offset_secs: 0 }
            };
            let ghost after_iface = idx@;
            let ticks = (ts_high as u64) * 0x1_0000_0000 + ts_low as u64;
            let ts = split_ticks(ticks, iface.resolution, iface.offset_secs);
            // The data can include up to 3 bytes of padding; caplen is authoritative.
            let cap = if (caplen as usize) < data_len {
                caplen
            } else {
                data_len as u32
            };
            proof {
                lemma_rows_sound_add(after_iface, data@, pos + 28, ts, origlen, cap, iface.linktype);
            }
            idx.push(data, pos + 28, ts, origlen, cap, iface.linktype)
        },
        NgBlock::Simple(origlen, data_len) => {
            // Simple packets carry no timestamp and always use interface 0.
            let linktype = if rd.interfaces.len() > 0 {
                rd.interfaces[0].linktype
            } else {
                0
            };
            let cap = if (origlen as usize) < data_len {
                origlen
            } else {
                data_len as u32
            };
            proof {
                lemma_rows_sound_add(before, data@, pos + 12, (0, 0), origlen, cap, linktype);
            }
            idx.push(data, pos + 12, (0, 0), origlen, cap, linktype)
        },
        NgBlock::Other => true,
    }
}

fn parse_pcapng(data: &[u8]) -> (idx: PacketIndex)
    ensures
        idx.wf(),
        idx@ == spec_parse_pcapng(data@),
        rows_sound(idx@, data@.len()),
{
    let mut idx = PacketIndex::new(Format::PcapNg, data.len() / 64);
    // Interfaces are numbered per section; a new Section Header resets them.
    let mut rd = NgReader { big_endian: false, interfaces: Vec::new(), warned: false };
    let mut pos: usize = 0;
    assert(rd.state() == NgState { big_endian: false, interfaces: Seq::empty(), warned: false });
    while pos < data.len()
        invariant_except_break
            idx.wf(),
            pos <= data@.len(),
            ng_from(data@, pos as int, rd.state(), idx@) == spec_parse_pcapng(data@),
            rows_sound(idx@, data@.len()),
            rd.clocks_ok(),
        ensures
            idx.wf(),
            idx@ == spec_parse_pcapng(data@),
            rows_sound(idx@, data@.len()),
        decreases data.len() - pos,
    {
        let rem = &data[pos..data.len()];
        let parsed = if block_too_short(rem, rd.big_endian) {
            None
        } else if rd.big_endian {
            parse_block_be(rem)
        } else {
            parse_block_le(rem)
        };
        let (rest, block) = match parsed {
            Some(p) => p,
            None => {
                idx.stop_truncated();
                break;
            },
        };
        let next = data.len() - rest;
        if !apply_block(&mut idx, &mut rd, data, pos, rest, block) {
            break;
        }
        pos = next;
    }
    idx
}

/// Parse a whole capture held in memory into a columnar index.
pub fn parse_capture(data: &[u8]) -> (r: Result<PacketIndex, ParseError>)
    ensures
        data@.len() < 24 ==> r == Err::<PacketIndex, ParseError>(ParseError::TooShort),
        data@.len() >= 24 && pcapng_start_ok(data@) ==> (r matches Ok(idx) && idx@
            == spec_parse_pcapng(data@)),
        data@.len() >= 24 && !pcapng_start_ok(data@) ==> match spec_legacy_header(data@) {
            Some(h) => (r matches Ok(idx) && idx@ == spec_parse_legacy(data@, h)),
            None => r == Err::<PacketIndex, ParseError>(ParseError::NotACapture),
        },
        r matches Ok(idx) ==> idx.wf() && rows_sound(idx@, data@.len()),
{
    if data.len() < 24 {
        return Err(ParseError::TooShort);
    }
    // pcapng starts with a Section Header Block; legacy pcap with its magic.
    if pcapng_start(data) {
        return Ok(parse_pcapng(data));
    }
    if let Some(h) = legacy_header(data) {
        return Ok(parse_legacy(data, h));
    }
    Err(ParseError::NotACapture)
}


// ------------------------------------------------------------------ laws

/// Parsing only adds rows: the rows already read stay, in order, in front.
proof fn lemma_legacy_keeps_rows(
    data: Seq<u8>,
    pos: int,
    big_endian: bool,
    nano: bool,
    linktype: u16,
    acc: IndexView,
)
    ensures
        ({
            let r = legacy_from(data, pos, big_endian, nano, linktype, acc).records;
            acc.records.len() <= r.len() && r.take(acc.records.len() as int) == acc.records
        }),
    decreases data.len() - pos,
{
    if 0 <= pos < data.len() {
        match spec_frame(data.subrange(pos, data.len() as int), big_endian) {
            None => {
                assert(spec_stop(acc, msg_truncated(acc.records.len())).records == acc.records);
                assert(acc.records.take(acc.records.len() as int) =~= acc.records);
            },
            Some(f) => if pos + 16 > u32::MAX {
                assert(acc.records.take(acc.records.len() as int) =~= acc.records);
            } else {
                let rec = spec_record(
                    data,
                    pos + 16,
                    (f.ts_sec, spec_legacy_nsec(f.ts_frac, nano)),
                    f.origlen,
                    f.caplen,
                    linktype,
                );
                let next = spec_push(acc, rec);
                lemma_legacy_keeps_rows(data, pos + 16 + f.caplen, big_endian, nano, linktype, next);
                let r = legacy_from(data, pos, big_endian, nano, linktype, acc).records;
                assert(r.take(next.records.len() as int) == next.records);
                assert(r.take(acc.records.len() as int) =~= next.records.take(acc.records.len() as int));
                assert(next.records.take(acc.records.len() as int) =~= acc.records);
            },
        }
    } else {
        assert(acc.records.take(acc.records.len() as int) =~= acc.records);
    }
}

proof fn lemma_legacy_prefix(
    data: Seq<u8>,
    k: int,
    pos: int,
    big_endian: bool,
    nano: bool,
    linktype: u16,
    acc: IndexView,
)
    requires
        0 <= k <= data.len(),
        0 <= pos,
    ensures
        ({
            let a = legacy_from(data.take(k), pos, big_endian, nano, linktype, acc).records;
            let b = legacy_from(data, pos, big_endian, nano, linktype, acc).records;
            a.len() <= b.len() && b.take(a.len() as int) == a
        }),
    decreases data.len() - pos,
{
    let cut = data.take(k);
    lemma_legacy_keeps_rows(data, pos, big_endian, nano, linktype, acc);
    if pos < k {
        let d1 = cut.subrange(pos, k);
        let d2 = data.subrange(pos, data.len() as int);
        match spec_frame(d1, big_endian) {
            None => {
                // the cut stops here; the whole file goes on from `acc`
            },
            Some(f) => {
                assert(d1.len() >= 16);
                assert forall|j: int| 0 <= j < d1.len() implies d1[j] == d2[j] by {}
                assert(spec_u32(d1, 0, big_endian) == spec_u32(d2, 0, big_endian));
                assert(spec_u32(d1, 4, big_endian) == spec_u32(d2, 4, big_endian));
                assert(spec_u32(d1, 8, big_endian) == spec_u32(d2, 8, big_endian));
                assert(spec_u32(d1, 12, big_endian) == spec_u32(d2, 12, big_endian));
                assert(spec_frame(d2, big_endian) == Some(f));
                if pos + 16 <= u32::MAX {
                    let ts = (f.ts_sec, spec_legacy_nsec(f.ts_frac, nano));
                    assert(cut.subrange(pos + 16, pos + 16 + f.caplen) =~= data.subrange(
                        pos + 16,
                        pos + 16 + f.caplen,
                    ));
                    assert(spec_record(cut, pos + 16, ts, f.origlen, f.caplen, linktype)
                        == spec_record(data, pos + 16, ts, f.origlen, f.caplen, linktype));
                    let next = spec_push(
                        acc,
                        spec_record(data, pos + 16, ts, f.origlen, f.caplen, linktype),
                    );
                    lemma_legacy_prefix(data, k, pos + 16 + f.caplen, big_endian, nano, linktype, next);
                }
            },
        }
    } else {
        assert(legacy_from(cut, pos, big_endian, nano, linktype, acc) == acc);
    }
}

/// A legacy capture cut short keeps every packet read before the cut: the
/// rows read from a prefix of the file are the first rows read from the
/// whole file.
pub proof fn law_legacy_cut_keeps_earlier_packets(data: Seq<u8>, k: int, h: LegacyHeader)
    requires
        0 <= k <= data.len(),
    ensures
        ({
            let a = spec_parse_legacy(data.take(k), h).records;
            let b = spec_parse_legacy(data, h).records;
            a.len() <= b.len() && b.take(a.len() as int) == a
        }),
{
    lemma_legacy_prefix(
        data,
        k,
        PCAP_HEADER_LEN as int,
        spec_is_bigendian(h.magic),
        spec_is_nano(h.magic),
        spec_linktype16(h.network),
        spec_empty_index(Format::Pcap),
    );
}


/// However many notes a file triggers, the issue list never grows past
/// [`MAX_ISSUES`]: a note is added only while there is room, and nothing
/// else changes.
pub proof fn law_issue_list_is_capped(v: IndexView, msg: Seq<char>)
    ensures
        spec_issue(v, msg).issues == (if v.issues.len() < MAX_ISSUES {
            v.issues.push(msg)
        } else {
            v.issues
        }),
        v.issues.len() <= MAX_ISSUES ==> spec_issue(v, msg).issues.len() <= MAX_ISSUES,
        spec_issue(v, msg).records == v.records,
        spec_issue(v, msg).complete == v.complete,
        spec_issue(v, msg).format == v.format,
{
}

/// Adding a packet appends exactly its row; when its data offset does not
/// fit in 32 bits it adds no row and stops instead: the index is marked
/// partial with the too-large note.
pub proof fn law_add_appends_one_row_or_stops(
    v: IndexView,
    data: Seq<u8>,
    offset: int,
    ts: (u32, u32),
    orig_len: u32,
    cap_len: u32,
    linktype: u16,
)
    ensures
        offset <= u32::MAX ==> spec_add(v, data, offset, ts, orig_len, cap_len, linktype) == (IndexView {
            records: v.records.push(spec_record(data, offset, ts, orig_len, cap_len, linktype)),
            ..v
        }),
        offset > u32::MAX ==> spec_add(v, data, offset, ts, orig_len, cap_len, linktype) == spec_issue(
            IndexView { complete: false, ..v },
            msg_too_large(),
        ),
{
}

} // verus!
