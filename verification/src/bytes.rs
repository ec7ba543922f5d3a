//! Bounds-checked byte readers shared by the dissector and the link preview.

use vstd::prelude::*;

verus! {

/// Big-endian 16-bit value at `at`, if two bytes are there.
pub open spec fn spec_be16(d: Seq<u8>, at: int) -> Option<u16> {
    if 0 <= at && at + 2 <= d.len() {
        Some((d[at] as int * 256 + d[at + 1] as int) as u16)
    } else {
        None
    }
}

/// Little-endian 16-bit value at `at`, if two bytes are there.
pub open spec fn spec_le16(d: Seq<u8>, at: int) -> Option<u16> {
    if 0 <= at && at + 2 <= d.len() {
        Some((d[at] as int + d[at + 1] as int * 256) as u16)
    } else {
        None
    }
}

/// The bytes from `at` to the end, or nothing when `at` is past the end.
pub open spec fn spec_tail(d: Seq<u8>, at: int) -> Seq<u8> {
    if 0 <= at && at <= d.len() {
        d.subrange(at, d.len() as int)
    } else {
        Seq::empty()
    }
}

/// The byte at `at`, if there is one.
pub open spec fn spec_byte(d: Seq<u8>, at: int) -> Option<u8> {
    if 0 <= at && at < d.len() {
        Some(d[at])
    } else {
        None
    }
}

pub fn be16(data: &[u8], at: usize) -> (r: Option<u16>)
    ensures
        r == spec_be16(data@, at as int),
{
    if at < data.len() && data.len() - at >= 2 {
        let hi = data[at] as u16;
        let lo = data[at + 1] as u16;
        Some(hi * 256 + lo)
    } else {
        None
    }
}

pub fn le16(data: &[u8], at: usize) -> (r: Option<u16>)
    ensures
        r == spec_le16(data@, at as int),
{
    if at < data.len() && data.len() - at >= 2 {
        let lo = data[at] as u16;
        let hi = data[at + 1] as u16;
        Some(hi * 256 + lo)
    } else {
        None
    }
}

pub fn tail(data: &[u8], at: usize) -> (r: &[u8])
    ensures
        r@ == spec_tail(data@, at as int),
{
    if at <= data.len() {
        let r = &data[at..data.len()];
        r
    } else {
        let r: &[u8] = &[];
        assert(r@ =~= Seq::<u8>::empty());
        r
    }
}

pub fn byte_at(data: &[u8], at: usize) -> (r: Option<u8>)
    ensures
        r == spec_byte(data@, at as int),
{
    if at < data.len() {
        Some(data[at])
    } else {
        None
    }
}

} // verus!
