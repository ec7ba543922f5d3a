//! The calls into `pcap_parser`: the legacy pcap global header and record
//! headers, the pcapng section check, and single pcapng blocks. Each result
//! is converted into plain values of this crate.

use pcap_parser::pcapng::Block;
use vstd::prelude::*;

verus! {

/// Unsigned 32-bit value at `at` in the given byte order.
pub open spec fn spec_u32(d: Seq<u8>, at: int, big_endian: bool) -> u32 {
    if big_endian {
        (d[at] as int * 0x1000000 + d[at + 1] as int * 0x10000 + d[at + 2] as int * 0x100
            + d[at + 3] as int) as u32
    } else {
        (d[at + 3] as int * 0x1000000 + d[at + 2] as int * 0x10000 + d[at + 1] as int * 0x100
            + d[at] as int) as u32
    }
}

pub const MAGIC_MICRO: u32 = 0xa1b2_c3d4;
pub const MAGIC_NANO: u32 = 0xa1b2_3c4d;
pub const MAGIC_MODIFIED: u32 = 0xa1b2_cd34;
pub const MAGIC_MICRO_SWAPPED: u32 = 0xd4c3_b2a1;
pub const MAGIC_NANO_SWAPPED: u32 = 0x4d3c_b2a1;

/// What the legacy pcap global header tells the indexer.
#[derive(Clone, Copy)]
pub struct LegacyHeader {
    /// The magic number, read little-endian.
    pub magic: u32,
    /// The LINKTYPE_* value, as stored.
    pub network: i32,
}

/// The magic numbers of a little-endian (native order) file.
pub open spec fn is_native_magic(m: u32) -> bool {
    m == MAGIC_MICRO || m == MAGIC_NANO || m == MAGIC_MODIFIED
}

/// The magic numbers of a byte-swapped file.
pub open spec fn is_swapped_magic(m: u32) -> bool {
    m == MAGIC_MICRO_SWAPPED || m == MAGIC_NANO_SWAPPED
}

/// The global header of a legacy pcap file: 24 bytes that start with one of
/// the known magic numbers.
pub open spec fn spec_legacy_header(d: Seq<u8>) -> Option<LegacyHeader> {
    if d.len() >= 24 {
        let m = spec_u32(d, 0, false);
        if is_native_magic(m) {
            Some(LegacyHeader { magic: m, network: spec_u32(d, 20, false) as i32 })
        } else if is_swapped_magic(m) {
            Some(LegacyHeader { magic: m, network: spec_u32(d, 20, true) as i32 })
        } else {
            None
        }
    } else {
        None
    }
}

/// `pcap_parser::LegacyPcapSlice::from_slice`: parses the 24-byte global
/// header. Claimed: it succeeds exactly on 24 or more bytes that start with
/// one of the five magic numbers it knows, and then hands back that magic and
/// the link type read in the byte order the magic announces.
#[verifier::external_body]
pub(crate) fn legacy_header(data: &[u8]) -> (r: Option<LegacyHeader>)
    ensures
        r == spec_legacy_header(data@),
{
    match pcap_parser::LegacyPcapSlice::from_slice(data) {
        Ok(slice) => Some(LegacyHeader { magic: slice.header.magic_number, network: slice.header.network.0 }),
        Err(_) => None,
    }
}

/// The 16-byte header of one legacy pcap record.
#[derive(Clone, Copy)]
pub struct FrameHeader {
    pub ts_sec: u32,
    /// Microseconds, or nanoseconds in a nanosecond-precision file.
    pub ts_frac: u32,
    pub caplen: u32,
    pub origlen: u32,
}

/// A legacy pcap record: a 16-byte header in the given byte order followed
/// by `caplen` bytes of packet data, all present.
pub open spec fn spec_frame(d: Seq<u8>, big_endian: bool) -> Option<FrameHeader> {
    if d.len() >= 16 && d.len() - 16 >= spec_u32(d, 8, big_endian) {
        Some(
            FrameHeader {
                ts_sec: spec_u32(d, 0, big_endian),
                ts_frac: spec_u32(d, 4, big_endian),
                caplen: spec_u32(d, 8, big_endian),
                origlen: spec_u32(d, 12, big_endian),
            },
        )
    } else {
        None
    }
}

/// `pcap_parser::parse_pcap_frame`: one little-endian record. Claimed: it
/// succeeds exactly when the 16-byte header and `caplen` data bytes are all
/// present, and the header fields are the four little-endian words; the
/// packet data are the `caplen` bytes after the header.
#[verifier::external_body]
pub(crate) fn frame_le(rem: &[u8]) -> (r: Option<FrameHeader>)
    ensures
        r == spec_frame(rem@, false),
{
    match pcap_parser::parse_pcap_frame(rem) {
        Ok((_, b)) => Some(FrameHeader { ts_sec: b.ts_sec, ts_frac: b.ts_usec, caplen: b.caplen, origlen: b.origlen }),
        Err(_) => None,
    }
}

/// `pcap_parser::parse_pcap_frame_be`: the same for a big-endian record.
#[verifier::external_body]
pub(crate) fn frame_be(rem: &[u8]) -> (r: Option<FrameHeader>)
    ensures
        r == spec_frame(rem@, true),
{
    match pcap_parser::parse_pcap_frame_be(rem) {
        Ok((_, b)) => Some(FrameHeader { ts_sec: b.ts_sec, ts_frac: b.ts_usec, caplen: b.caplen, origlen: b.origlen }),
        Err(_) => None,
    }
}

/// The type of a Section Header Block.
pub const SHB_MAGIC: u32 = 0x0A0D_0D0A;

/// The byte-order magic of a Section Header Block written in the other
/// byte order.
pub const BOM_SWAPPED: u32 = 0x4D3C_2B1A;

/// Whether the input starts with a Section Header Block: at least 28
/// bytes, the byte-order magic at bytes 8..12 in one of the two orders,
/// and, read in that order, the block type `SHB_MAGIC` and a block length
/// from 28 up to the length of the input.
pub open spec fn pcapng_start_ok(data: Seq<u8>) -> bool {
    let bom = spec_u32(data, 8, false);
    let big_endian = bom != BOM_MAGIC;
    &&& data.len() >= 28
    &&& bom == BOM_MAGIC || bom == BOM_SWAPPED
    &&& spec_u32(data, 0, big_endian) == SHB_MAGIC
    &&& 28 <= spec_u32(data, 4, big_endian) <= data.len()
}

/// `pcap_parser::PcapNGSlice::from_slice`: it parses the first block as a
/// Section Header Block (`parse_sectionheaderblock`). Claimed: it succeeds
/// exactly when `pcapng_start_ok` holds. The byte-order test compares the
/// magic with `u32::from_be(BOM_MAGIC)`, which is the swapped magic on the
/// little-endian hosts this library is built for; the options that follow
/// the fixed fields are read by a parser that cannot fail.
#[verifier::external_body]
pub(crate) fn pcapng_start(data: &[u8]) -> (ok: bool)
    ensures
        ok == pcapng_start_ok(data@),
{
    pcap_parser::PcapNGSlice::from_slice(data).is_ok()
}

pub const BOM_MAGIC: u32 = 0x1A2B_3C4D;
pub const PIB_MAGIC: u32 = 0x8000_0001;

/// What the indexer reads from one pcapng block.
#[derive(Clone, Copy)]
pub enum NgBlock {
    /// Section Header Block: its byte-order magic.
    Section(u32),
    /// Interface Description Block: link type, `if_tsresol`, `if_tsoffset`.
    Interface(i32, u8, i64),
    /// Enhanced Packet Block: interface id, timestamp high and low words,
    /// captured length, original length, length of the data with padding.
    Enhanced(u32, u32, u32, u32, u32, usize),
    /// Simple Packet Block: original length, length of the data with padding.
    Simple(u32, usize),
    /// Any other block.
    Other,
}

/// A Process Information Block whose length field is below 12: the block
/// parser subtracts 12 from it, which does not fit, so such a block is
/// never handed to it.
pub open spec fn ng_block_too_short(rem: Seq<u8>, big_endian: bool) -> bool {
    rem.len() >= 8 && spec_u32(rem, 0, big_endian) == PIB_MAGIC && spec_u32(rem, 4, big_endian)
        < 12
}

/// Where a parsed block lies in the bytes it was read from: every block is
/// at least 12 bytes; the data of an Enhanced Packet Block start 28 bytes in,
/// those of a Simple Packet Block 12 bytes in, both inside the block; an
/// interface link type is a 16-bit value.
pub open spec fn ng_block_layout(len: nat, rest: usize, b: NgBlock) -> bool {
    &&& rest + 12 <= len
    &&& (b matches NgBlock::Enhanced(_, _, _, _, _, data_len) ==> 28 + data_len + rest <= len)
    &&& (b matches NgBlock::Simple(_, data_len) ==> 12 + data_len + rest <= len)
    &&& (b matches NgBlock::Interface(linktype, _, _) ==> 0 <= linktype <= 65535)
}

/// The block `pcap_parser::pcapng::parse_block_le` reads at the start of
/// the bytes, with the length of what follows it.
pub uninterp spec fn ng_block_le(rem: Seq<u8>) -> Option<(usize, NgBlock)>;

/// The same for `pcap_parser::pcapng::parse_block_be`.
pub uninterp spec fn ng_block_be(rem: Seq<u8>) -> Option<(usize, NgBlock)>;

/// `pcap_parser::pcapng::parse_block_le`. Claimed: the result is a function
/// of the bytes; a block it returns obeys `ng_block_layout`, as its block
/// parsers read the generic block header (type, length, body, length) and
/// the packet blocks' fixed fields before their data. Which blocks parse is
/// not stated.
#[verifier::external_body]
pub(crate) fn parse_block_le(rem: &[u8]) -> (r: Option<(usize, NgBlock)>)
    requires
        !ng_block_too_short(rem@, false),
    ensures
        r == ng_block_le(rem@),
        r matches Some((rest, b)) ==> ng_block_layout(rem@.len(), rest, b),
{
    match pcap_parser::pcapng::parse_block_le(rem) {
        Ok((r, block)) => Some((r.len(), match block {
            Block::SectionHeader(b) => NgBlock::Section(b.bom),
            Block::InterfaceDescription(b) => NgBlock::Interface(b.linktype.0, b.if_tsresol, b.if_tsoffset),
            Block::EnhancedPacket(b) => NgBlock::Enhanced(b.if_id, b.ts_high, b.ts_low, b.caplen, b.origlen, b.data.len()),
            Block::SimplePacket(b) => NgBlock::Simple(b.origlen, b.data.len()),
            _ => NgBlock::Other,
        })),
        Err(_) => None,
    }
}

/// `pcap_parser::pcapng::parse_block_be`, with the same claims.
#[verifier::external_body]
pub(crate) fn parse_block_be(rem: &[u8]) -> (r: Option<(usize, NgBlock)>)
    requires
        !ng_block_too_short(rem@, true),
    ensures
        r == ng_block_be(rem@),
        r matches Some((rest, b)) ==> ng_block_layout(rem@.len(), rest, b),
{
    match pcap_parser::pcapng::parse_block_be(rem) {
        Ok((r, block)) => Some((r.len(), match block {
            Block::SectionHeader(b) => NgBlock::Section(b.bom),
            Block::InterfaceDescription(b) => NgBlock::Interface(b.linktype.0, b.if_tsresol, b.if_tsoffset),
            Block::EnhancedPacket(b) => NgBlock::Enhanced(b.if_id, b.ts_high, b.ts_low, b.caplen, b.origlen, b.data.len()),
            Block::SimplePacket(b) => NgBlock::Simple(b.origlen, b.data.len()),
            _ => NgBlock::Other,
        })),
        Err(_) => None,
    }
}

} // verus!
