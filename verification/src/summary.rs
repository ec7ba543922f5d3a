//! Whole-capture summary: totals, time span, protocol breakdown, top talkers.
//! Computed in one pass over the index columns.
//!
//! Byte totals are exact integers here; the time span is given in whole
//! nanoseconds.

use vstd::prelude::*;

use crate::capture::{PacketIndex, PacketRecord};

verus! {

/// How many talkers to report.
pub const TOP_TALKERS: usize = 10;

#[derive(Debug, Clone, Copy, PartialEq, Eq, Structural)]
pub struct ProtocolStat {
    /// `dissect::PROTO_*` value.
    pub proto: u8,
    pub packets: u32,
    /// Sum of original packet lengths.
    pub bytes: u64,
}

/// An address seen as a source or destination. Bytes and packets count every
/// packet the address appears in (once per packet, even if it is both ends).
#[derive(Debug, Clone, Copy, PartialEq, Eq)]
pub struct Talker {
    /// 4 or 6.
    pub ip_version: u8,
    /// IPv4 uses the first 4 bytes.
    pub addr: [u8; 16],
    pub packets: u32,
    pub bytes: u64,
}

#[derive(Debug, Clone, PartialEq, Eq)]
pub struct Summary {
    pub total_packets: u32,
    /// Sum of original packet lengths (what was on the wire).
    pub total_bytes: u64,
    /// Sum of captured lengths (what is in the file).
    pub captured_bytes: u64,
    /// Earliest and latest timestamps. Both zero if no packet has a timestamp.
    pub first_sec: u32,
    pub first_nsec: u32,
    pub last_sec: u32,
    pub last_nsec: u32,
    /// Protocols that occur, most packets first.
    pub protocols: Vec<ProtocolStat>,
    /// Up to `TOP_TALKERS`, most bytes first.
    pub top_talkers: Vec<Talker>,
}

// ------------------------------------------------------------------ totals

/// Sum of the original lengths of the first `k` packets.
pub open spec fn sum_orig(recs: Seq<PacketRecord>, k: int) -> int
    decreases k,
{
    if k <= 0 {
        0
    } else {
        sum_orig(recs, k - 1) + recs[k - 1].orig_len
    }
}

/// Sum of the captured lengths of the first `k` packets.
pub open spec fn sum_cap(recs: Seq<PacketRecord>, k: int) -> int
    decreases k,
{
    if k <= 0 {
        0
    } else {
        sum_cap(recs, k - 1) + recs[k - 1].cap_len
    }
}

/// Simple packets in pcapng have no timestamp (stored as 0).
pub open spec fn has_ts(r: PacketRecord) -> bool {
    !(r.ts_sec == 0 && r.ts_nsec == 0)
}

pub open spec fn ts_less(a: (u32, u32), b: (u32, u32)) -> bool {
    a.0 < b.0 || (a.0 == b.0 && a.1 < b.1)
}

/// The earliest timestamp among the first `k` packets that have one.
pub open spec fn first_ts(recs: Seq<PacketRecord>, k: int) -> Option<(u32, u32)>
    decreases k,
{
    if k <= 0 {
        None
    } else {
        let f = first_ts(recs, k - 1);
        let r = recs[k - 1];
        let ts = (r.ts_sec, r.ts_nsec);
        if !has_ts(r) {
            f
        } else {
            match f {
                None => Some(ts),
                Some(x) => if ts_less(ts, x) {
                    Some(ts)
                } else {
                    Some(x)
                },
            }
        }
    }
}

/// The latest timestamp among the first `k` packets that have one.
pub open spec fn last_ts(recs: Seq<PacketRecord>, k: int) -> Option<(u32, u32)>
    decreases k,
{
    if k <= 0 {
        None
    } else {
        let l = last_ts(recs, k - 1);
        let r = recs[k - 1];
        let ts = (r.ts_sec, r.ts_nsec);
        if !has_ts(r) {
            l
        } else {
            match l {
                None => Some(ts),
                Some(x) => if ts_less(x, ts) {
                    Some(ts)
                } else {
                    Some(x)
                },
            }
        }
    }
}

pub open spec fn ts_or_zero(t: Option<(u32, u32)>) -> (u32, u32) {
    match t {
        Some(x) => x,
        None => (0, 0),
    }
}

// --------------------------------------------------------------- protocols

/// How many of the first `k` packets have protocol `p`.
pub open spec fn proto_packets(recs: Seq<PacketRecord>, k: int, p: u8) -> int
    decreases k,
{
    if k <= 0 {
        0
    } else {
        proto_packets(recs, k - 1, p) + if recs[k - 1].meta.proto == p {
            1int
        } else {
            0int
        }
    }
}

/// The original lengths of the first `k` packets with protocol `p`, summed.
pub open spec fn proto_bytes(recs: Seq<PacketRecord>, k: int, p: u8) -> int
    decreases k,
{
    if k <= 0 {
        0
    } else {
        proto_bytes(recs, k - 1, p) + if recs[k - 1].meta.proto == p {
            recs[k - 1].orig_len as int
        } else {
            0int
        }
    }
}

/// Most packets first; ties broken by protocol id.
pub open spec fn proto_before(a: ProtocolStat, b: ProtocolStat) -> bool {
    a.packets > b.packets || (a.packets == b.packets && a.proto < b.proto)
}

/// The protocol breakdown of the packets: one entry for each protocol that
/// occurs, with its packet and byte counts, most packets first.
pub open spec fn protocols_ok(recs: Seq<PacketRecord>, ps: Seq<ProtocolStat>) -> bool {
    let n = recs.len() as int;
    &&& forall|j: int|
        0 <= j < ps.len() ==> {
            &&& #[trigger] ps[j].packets == proto_packets(recs, n, ps[j].proto)
            &&& ps[j].bytes == proto_bytes(recs, n, ps[j].proto)
            &&& ps[j].packets > 0
        }
    &&& forall|a: int, b: int| 0 <= a < b < ps.len() ==> proto_before(#[trigger] ps[a], #[trigger] ps[b])
    &&& forall|p: u8| #[trigger] proto_packets(recs, n, p) > 0 ==> exists|j: int| 0 <= j < ps.len() && ps[j].proto == p
}

// ----------------------------------------------------------------- talkers

/// A talker: IP version and 16 address bytes.
pub open spec fn src_key(r: PacketRecord) -> (u8, Seq<u8>) {
    (r.meta.ip_version, r.meta.src)
}

pub open spec fn dst_key(r: PacketRecord) -> (u8, Seq<u8>) {
    (r.meta.ip_version, r.meta.dst)
}

/// A packet with addresses involves its source and its destination.
pub open spec fn involves(r: PacketRecord, key: (u8, Seq<u8>)) -> bool {
    r.meta.ip_version != 0 && (key == src_key(r) || key == dst_key(r))
}

/// How many of the first `k` packets involve `key`.
pub open spec fn talker_packets(recs: Seq<PacketRecord>, k: int, key: (u8, Seq<u8>)) -> int
    decreases k,
{
    if k <= 0 {
        0
    } else {
        talker_packets(recs, k - 1, key) + if involves(recs[k - 1], key) {
            1int
        } else {
            0int
        }
    }
}

/// The original lengths of the first `k` packets that involve `key`, summed.
pub open spec fn talker_bytes(recs: Seq<PacketRecord>, k: int, key: (u8, Seq<u8>)) -> int
    decreases k,
{
    if k <= 0 {
        0
    } else {
        talker_bytes(recs, k - 1, key) + if involves(recs[k - 1], key) {
            recs[k - 1].orig_len as int
        } else {
            0int
        }
    }
}

/// Byte-wise lexicographic order.
pub open spec fn lex_less(a: Seq<u8>, b: Seq<u8>) -> bool
    decreases a.len(),
{
    if a.len() == 0 || b.len() == 0 {
        a.len() == 0 && b.len() > 0
    } else if a[0] != b[0] {
        a[0] < b[0]
    } else {
        lex_less(a.drop_first(), b.drop_first())
    }
}

/// Talker keys in order: IP version, then address bytes.
pub open spec fn key_less(a: (u8, Seq<u8>), b: (u8, Seq<u8>)) -> bool {
    a.0 < b.0 || (a.0 == b.0 && lex_less(a.1, b.1))
}

/// Talker ranking: most bytes first, then most packets, then by key.
pub open spec fn ranks_before(
    a_bytes: int,
    a_packets: int,
    a_key: (u8, Seq<u8>),
    b_bytes: int,
    b_packets: int,
    b_key: (u8, Seq<u8>),
) -> bool {
    ||| a_bytes > b_bytes
    ||| a_bytes == b_bytes && a_packets > b_packets
    ||| a_bytes == b_bytes && a_packets == b_packets && key_less(a_key, b_key)
}

pub open spec fn talker_key(t: Talker) -> (u8, Seq<u8>) {
    (t.ip_version, t.addr@)
}

pub open spec fn talker_before(a: Talker, b: Talker) -> bool {
    ranks_before(
        a.bytes as int,
        a.packets as int,
        talker_key(a),
        b.bytes as int,
        b.packets as int,
        talker_key(b),
    )
}

/// A row holds the counts of its key over the first `k` packets.
pub open spec fn talker_counts(recs: Seq<PacketRecord>, k: int, t: Talker) -> bool {
    &&& t.packets == talker_packets(recs, k, talker_key(t))
    &&& t.bytes == talker_bytes(recs, k, talker_key(t))
    &&& t.packets > 0
}

/// The top talkers: at most [`TOP_TALKERS`] addresses with their counts,
/// strictly in rank order, and every address seen is either among them or
/// ranks after the last of a full list.
pub open spec fn talkers_ok(recs: Seq<PacketRecord>, top: Seq<Talker>) -> bool {
    let n = recs.len() as int;
    &&& top.len() <= TOP_TALKERS
    &&& forall|j: int| 0 <= j < top.len() ==> talker_counts(recs, n, #[trigger] top[j])
    &&& forall|a: int, b: int| 0 <= a < b < top.len() ==> talker_before(#[trigger] top[a], #[trigger] top[b])
    &&& forall|key: (u8, Seq<u8>)|
        #[trigger] talker_packets(recs, n, key) > 0 ==> {
            ||| exists|j: int| 0 <= j < top.len() && talker_key(top[j]) == key
            ||| top.len() == TOP_TALKERS && ranks_before(
                top.last().bytes as int,
                top.last().packets as int,
                talker_key(top.last()),
                talker_bytes(recs, n, key),
                talker_packets(recs, n, key),
                key,
            )
        }
}

/// The summary of the packets `recs`.
pub open spec fn summary_of(recs: Seq<PacketRecord>, s: Summary) -> bool {
    let n = recs.len() as int;
    &&& s.total_packets == n
    &&& s.total_bytes == sum_orig(recs, n)
    &&& s.captured_bytes == sum_cap(recs, n)
    &&& (s.first_sec, s.first_nsec) == ts_or_zero(first_ts(recs, n))
    &&& (s.last_sec, s.last_nsec) == ts_or_zero(last_ts(recs, n))
    &&& protocols_ok(recs, s.protocols@)
    &&& talkers_ok(recs, s.top_talkers@)
}


// ------------------------------------------------------------------ orders

proof fn lemma_lex_irreflexive(a: Seq<u8>)
    ensures
        !lex_less(a, a),
    decreases a.len(),
{
    if a.len() > 0 {
        lemma_lex_irreflexive(a.drop_first());
    }
}

proof fn lemma_lex_transitive(a: Seq<u8>, b: Seq<u8>, c: Seq<u8>)
    requires
        lex_less(a, b),
        lex_less(b, c),
    ensures
        lex_less(a, c),
    decreases a.len(),
{
    if a.len() > 0 && b.len() > 0 && c.len() > 0 && a[0] == b[0] && b[0] == c[0] {
        lemma_lex_transitive(a.drop_first(), b.drop_first(), c.drop_first());
    }
}

proof fn lemma_lex_total(a: Seq<u8>, b: Seq<u8>)
    requires
        a.len() == b.len(),
        a != b,
    ensures
        lex_less(a, b) || lex_less(b, a),
    decreases a.len(),
{
    if a.len() == 0 {
        assert(a =~= b);
    } else if a[0] == b[0] {
        if a.drop_first() == b.drop_first() {
            assert(a =~= seq![a[0]] + a.drop_first());
            assert(b =~= seq![b[0]] + b.drop_first());
        }
        lemma_lex_total(a.drop_first(), b.drop_first());
    }
}

proof fn lemma_lex_asymmetric(a: Seq<u8>, b: Seq<u8>)
    requires
        lex_less(a, b),
    ensures
        !lex_less(b, a),
{
    if lex_less(b, a) {
        lemma_lex_transitive(a, b, a);
        lemma_lex_irreflexive(a);
    }
}

/// Talkers with keys of 16 address bytes are strictly and totally ordered
/// by rank.
proof fn lemma_talker_order(a: Talker, b: Talker, c: Talker)
    ensures
        !talker_before(a, a),
        talker_before(a, b) ==> !talker_before(b, a),
        talker_before(a, b) && talker_before(b, c) ==> talker_before(a, c),
        talker_key(a) != talker_key(b) ==> talker_before(a, b) || talker_before(b, a),
{
    lemma_lex_irreflexive(a.addr@);
    if lex_less(a.addr@, b.addr@) {
        lemma_lex_asymmetric(a.addr@, b.addr@);
    }
    if lex_less(a.addr@, b.addr@) && lex_less(b.addr@, c.addr@) {
        lemma_lex_transitive(a.addr@, b.addr@, c.addr@);
    }
    if a.addr@ != b.addr@ {
        lemma_lex_total(a.addr@, b.addr@);
    }
}

// ------------------------------------------------------------------ bounds

proof fn lemma_sum_orig_bound(recs: Seq<PacketRecord>, k: int)
    requires
        0 <= k <= recs.len(),
    ensures
        0 <= sum_orig(recs, k) <= k * 0xffff_ffff,
        0 <= sum_cap(recs, k) <= k * 0xffff_ffff,
    decreases k,
{
    if k > 0 {
        lemma_sum_orig_bound(recs, k - 1);
    }
}

proof fn lemma_counts_bounded(recs: Seq<PacketRecord>, k: int, key: (u8, Seq<u8>), p: u8)
    requires
        0 <= k <= recs.len(),
    ensures
        0 <= talker_packets(recs, k, key) <= k,
        0 <= talker_bytes(recs, k, key) <= sum_orig(recs, k),
        0 <= proto_packets(recs, k, p) <= k,
        0 <= proto_bytes(recs, k, p) <= sum_orig(recs, k),
        talker_packets(recs, k, key) == 0 ==> talker_bytes(recs, k, key) == 0,
        proto_packets(recs, k, p) == 0 ==> proto_bytes(recs, k, p) == 0,
    decreases k,
{
    if k > 0 {
        lemma_counts_bounded(recs, k - 1, key, p);
    }
}


// ------------------------------------------------------------ talker table

/// The talker table after `k` packets: one row per address seen, with its
/// counts, no address twice.
pub open spec fn table_ok(recs: Seq<PacketRecord>, k: int, t: Seq<Talker>) -> bool {
    &&& forall|j: int| 0 <= j < t.len() ==> talker_counts(recs, k, #[trigger] t[j])
    &&& forall|a: int, b: int|
        0 <= a < b < t.len() ==> talker_key(#[trigger] t[a]) != talker_key(#[trigger] t[b])
    &&& forall|key: (u8, Seq<u8>)|
        #[trigger] talker_packets(recs, k, key) > 0 ==> exists|j: int|
            0 <= j < t.len() && talker_key(t[j]) == key
}

/// `new` is `old` with one packet of `len` bytes counted for `key`.
pub open spec fn bumped(old: Seq<Talker>, new: Seq<Talker>, key: (u8, Seq<u8>), len: int) -> bool {
    &&& old.len() <= new.len() <= old.len() + 1
    &&& forall|j: int|
        0 <= j < old.len() ==> {
            &&& talker_key(#[trigger] new[j]) == talker_key(old[j])
            &&& new[j].packets == old[j].packets + if talker_key(old[j]) == key {
                1int
            } else {
                0int
            }
            &&& new[j].bytes == old[j].bytes + if talker_key(old[j]) == key {
                len
            } else {
                0int
            }
        }
    &&& new.len() == old.len() + 1 ==> {
        &&& forall|j: int| 0 <= j < old.len() ==> talker_key(#[trigger] old[j]) != key
        &&& talker_key(new[old.len() as int]) == key
        &&& new[old.len() as int].packets == 1
        &&& new[old.len() as int].bytes == len
    }
    &&& new.len() == old.len() ==> exists|j: int| 0 <= j < old.len() && talker_key(old[j]) == key
}

fn same_addr(a: &[u8; 16], b: &[u8; 16]) -> (r: bool)
    ensures
        r == (a@ == b@),
{
    let mut k: usize = 0;
    while k < 16
        invariant
            k <= 16,
            a@.len() == 16,
            b@.len() == 16,
            forall|m: int| 0 <= m < k ==> a@[m] == b@[m],
        decreases 16 - k,
    {
        if a[k] != b[k] {
            return false;
        }
        k = k + 1;
    }
    assert(a@ =~= b@);
    true
}

fn find_talker(table: &Vec<Talker>, version: u8, addr: &[u8; 16]) -> (r: Option<usize>)
    ensures
        match r {
            Some(j) => j < table@.len() && talker_key(table@[j as int]) == (version, addr@),
            None => forall|j: int|
                0 <= j < table@.len() ==> talker_key(#[trigger] table@[j]) != (version, addr@),
        },
{
    let mut j: usize = 0;
    while j < table.len()
        invariant
            j <= table@.len(),
            forall|m: int| 0 <= m < j ==> talker_key(#[trigger] table@[m]) != (version, addr@),
        decreases table.len() - j,
    {
        if table[j].ip_version == version && same_addr(&table[j].addr, addr) {
            return Some(j);
        }
        j = j + 1;
    }
    None
}

/// Count one packet of `len` bytes for the talker `(version, addr)`.
fn add_talker(table: &mut Vec<Talker>, version: u8, addr: &[u8; 16], len: u32)
    requires
        forall|j: int|
            0 <= j < old(table)@.len() && talker_key(#[trigger] old(table)@[j]) == (version, addr@)
                ==> old(table)@[j].packets < u32::MAX && old(table)@[j].bytes + len <= u64::MAX,
        forall|a: int, b: int|
            0 <= a < b < old(table)@.len() ==> talker_key(#[trigger] old(table)@[a]) != talker_key(
                #[trigger] old(table)@[b],
            ),
    ensures
        bumped(old(table)@, final(table)@, (version, addr@), len as int),
{
    let ghost before = table@;
    match find_talker(table, version, addr) {
        Some(j) => {
            let mut row = table[j];
            row.packets = row.packets + 1;
            row.bytes = row.bytes + len as u64;
            table.set(j, row);
            assert(talker_key(before[j as int]) == (version, addr@));
            assert(table@ == before.update(j as int, row));
            assert forall|m: int| 0 <= m < before.len() implies talker_key(#[trigger] table@[m]) == talker_key(before[m])
                && table@[m].packets == before[m].packets + if talker_key(before[m]) == (version, addr@) {
                1int
            } else {
                0int
            } by {
                if m != j {
                    assert(talker_key(before[m]) != (version, addr@)) by {
                        if m < j {
                            assert(talker_key(before[m]) != talker_key(before[j as int]));
                        } else {
                            assert(talker_key(before[j as int]) != talker_key(before[m]));
                        }
                    }
                }
            }
        },
        None => {
            table.push(Talker { ip_version: version, addr: *addr, packets: 1, bytes: len as u64 });
            assert(table@ == before.push(Talker { ip_version: version, addr: *addr, packets: 1, bytes: len as u64 }));
            assert(talker_key(table@[before.len() as int]) == (version, addr@));
        },
    }
}

/// Counting packet `i` into the table keeps it exact.
proof fn lemma_table_step(
    recs: Seq<PacketRecord>,
    i: int,
    t0: Seq<Talker>,
    t1: Seq<Talker>,
    t2: Seq<Talker>,
)
    requires
        0 <= i < recs.len(),
        table_ok(recs, i, t0),
        recs[i].meta.ip_version == 0 ==> t2 == t0,
        recs[i].meta.ip_version != 0 ==> bumped(t0, t1, src_key(recs[i]), recs[i].orig_len as int),
        recs[i].meta.ip_version != 0 && recs[i].meta.src == recs[i].meta.dst ==> t2 == t1,
        recs[i].meta.ip_version != 0 && recs[i].meta.src != recs[i].meta.dst ==> bumped(
            t1,
            t2,
            dst_key(recs[i]),
            recs[i].orig_len as int,
        ),
    ensures
        table_ok(recs, i + 1, t2),
{
    let r = recs[i];
    let ks = src_key(r);
    let kd = dst_key(r);
    let len = r.orig_len as int;
    assert forall|key: (u8, Seq<u8>)|
        #![trigger talker_packets(recs, i + 1, key)]
        talker_packets(recs, i + 1, key) == talker_packets(recs, i, key) + (if involves(r, key) {
            1int
        } else {
            0int
        }) && talker_bytes(recs, i + 1, key) == talker_bytes(recs, i, key) + (if involves(r, key) {
            len
        } else {
            0int
        }) by {}
    if r.meta.ip_version == 0 {
        assert forall|key: (u8, Seq<u8>)|
            #[trigger] talker_packets(recs, i + 1, key) > 0 implies exists|j: int|
                0 <= j < t2.len() && talker_key(t2[j]) == key by {
            assert(talker_packets(recs, i, key) > 0);
        }
    } else {
        // rows that were new in `t1`, or in `t2`, had no packets before
        if t1.len() == t0.len() + 1 {
            assert(talker_packets(recs, i, ks) == 0) by {
                if talker_packets(recs, i, ks) > 0 {
                    assert(exists|j: int| 0 <= j < t0.len() && talker_key(t0[j]) == ks);
                    let j = choose|j: int| 0 <= j < t0.len() && talker_key(t0[j]) == ks;
                    assert(talker_key(t0[j]) != ks);
                    assert(false);
                }
                lemma_counts_bounded(recs, i, ks, 0);
            }
            lemma_counts_bounded(recs, i, ks, 0);
        }
        if r.meta.src != r.meta.dst && t2.len() == t1.len() + 1 {
            assert(talker_packets(recs, i, kd) == 0) by {
                if talker_packets(recs, i, kd) > 0 {
                    assert(exists|j: int| 0 <= j < t0.len() && talker_key(t0[j]) == kd);
                    let j = choose|j: int| 0 <= j < t0.len() && talker_key(t0[j]) == kd;
                    assert(talker_key(t1[j]) == kd);
                    assert(talker_key(t1[j]) != kd);
                    assert(false);
                }
                lemma_counts_bounded(recs, i, kd, 0);
            }
            lemma_counts_bounded(recs, i, kd, 0);
        }
        assert forall|j: int| 0 <= j < t2.len() implies talker_counts(recs, i + 1, #[trigger] t2[j]) by {
            if j < t0.len() {
                assert(talker_counts(recs, i, t0[j]));
                assert(talker_key(t1[j]) == talker_key(t0[j]));
            } else if j < t1.len() {
                assert(talker_key(t1[j]) == ks);
            } else {
                assert(talker_key(t2[j]) == kd);
            }
        }
        assert forall|a: int, b: int| 0 <= a < b < t2.len() implies talker_key(#[trigger] t2[a])
            != talker_key(#[trigger] t2[b]) by {
            if b < t0.len() {
                assert(talker_key(t1[a]) == talker_key(t0[a]));
                assert(talker_key(t1[b]) == talker_key(t0[b]));
            } else if b < t1.len() {
                assert(talker_key(t1[a]) == talker_key(t0[a]));
                assert(talker_key(t0[a]) != ks);
            } else {
                if a < t1.len() {
                    assert(talker_key(t2[a]) == talker_key(t1[a]));
                    assert(talker_key(t1[a]) != kd);
                }
            }
        }
        assert forall|key: (u8, Seq<u8>)|
            #[trigger] talker_packets(recs, i + 1, key) > 0 implies exists|j: int|
                0 <= j < t2.len() && talker_key(t2[j]) == key by {
            if involves(r, key) {
                if key == ks {
                    if t1.len() == t0.len() {
                        let j = choose|j: int| 0 <= j < t0.len() && talker_key(t0[j]) == ks;
                        assert(talker_key(t1[j]) == ks);
                        assert(talker_key(t2[j]) == ks);
                    } else {
                        let j = t0.len() as int;
                        assert(talker_key(t1[j]) == ks);
                        assert(talker_key(t2[j]) == ks);
                    }
                } else {
                    assert(key == kd);
                    assert(r.meta.src != r.meta.dst);
                    if t2.len() == t1.len() {
                        let j = choose|j: int| 0 <= j < t1.len() && talker_key(t1[j]) == kd;
                        assert(talker_key(t2[j]) == kd);
                    } else {
                        assert(talker_key(t2[t1.len() as int]) == kd);
                    }
                }
            } else {
                assert(talker_packets(recs, i, key) > 0);
                let j = choose|j: int| 0 <= j < t0.len() && talker_key(t0[j]) == key;
                assert(talker_key(t1[j]) == key);
                assert(talker_key(t2[j]) == key);
            }
        }
    }
}


// ----------------------------------------------------------------- ranking

/// Rows with a strict rank order that is total between rows of different
/// keys.
pub trait Ranked: Sized + Copy {
    /// `self` comes before `other`.
    spec fn before(self, other: Self) -> bool;

    /// `self` and `other` are rows for the same key.
    spec fn same_key(self, other: Self) -> bool;

    proof fn lemma_order(a: Self, b: Self, c: Self)
        ensures
            !a.before(a),
            a.before(b) ==> !b.before(a),
            a.before(b) && b.before(c) ==> a.before(c),
            !a.same_key(b) ==> a.before(b) || b.before(a),
    ;

    fn ranks_before(&self, other: &Self) -> (r: bool)
        ensures
            r == self.before(*other),
    ;
}

fn lex_less_addr(a: &[u8; 16], b: &[u8; 16]) -> (r: bool)
    ensures
        r == lex_less(a@, b@),
{
    let mut k: usize = 0;
    assert(a@.skip(0) =~= a@);
    assert(b@.skip(0) =~= b@);
    while k < 16
        invariant
            k <= 16,
            a@.len() == 16,
            b@.len() == 16,
            lex_less(a@, b@) == lex_less(a@.skip(k as int), b@.skip(k as int)),
        decreases 16 - k,
    {
        assert(a@.skip(k as int)[0] == a@[k as int]);
        assert(b@.skip(k as int)[0] == b@[k as int]);
        if a[k] != b[k] {
            return a[k] < b[k];
        }
        assert(a@.skip(k as int).drop_first() =~= a@.skip(k + 1));
        assert(b@.skip(k as int).drop_first() =~= b@.skip(k + 1));
        k = k + 1;
    }
    assert(a@.skip(16).len() == 0);
    false
}

impl Ranked for Talker {
    open spec fn before(self, other: Self) -> bool {
        talker_before(self, other)
    }

    open spec fn same_key(self, other: Self) -> bool {
        talker_key(self) == talker_key(other)
    }

    proof fn lemma_order(a: Self, b: Self, c: Self) {
        lemma_talker_order(a, b, c);
    }

    fn ranks_before(&self, other: &Self) -> (r: bool) {
        if self.bytes != other.bytes {
            return self.bytes > other.bytes;
        }
        if self.packets != other.packets {
            return self.packets > other.packets;
        }
        if self.ip_version != other.ip_version {
            return self.ip_version < other.ip_version;
        }
        lex_less_addr(&self.addr, &other.addr)
    }
}

impl Ranked for ProtocolStat {
    open spec fn before(self, other: Self) -> bool {
        proto_before(self, other)
    }

    open spec fn same_key(self, other: Self) -> bool {
        self.proto == other.proto
    }

    proof fn lemma_order(a: Self, b: Self, c: Self) {
    }

    fn ranks_before(&self, other: &Self) -> (r: bool) {
        self.packets > other.packets || (self.packets == other.packets && self.proto < other.proto)
    }
}

/// Strictly in rank order.
pub open spec fn rank_sorted<T: Ranked>(s: Seq<T>) -> bool {
    forall|a: int, b: int| 0 <= a < b < s.len() ==> (#[trigger] s[a]).before(#[trigger] s[b])
}

/// No two rows share a key.
pub open spec fn keys_distinct<T: Ranked>(s: Seq<T>) -> bool {
    forall|a: int, b: int| 0 <= a < b < s.len() ==> !(#[trigger] s[a]).same_key(#[trigger] s[b])
}

/// `out` holds the same rows as `s`.
pub open spec fn same_rows<T>(s: Seq<T>, out: Seq<T>) -> bool {
    &&& out.len() == s.len()
    &&& forall|m: int| 0 <= m < s.len() ==> out.contains(#[trigger] s[m])
    &&& forall|r: int| 0 <= r < out.len() ==> s.contains(#[trigger] out[r])
}

proof fn lemma_insert_sorted<T: Ranked>(o: Seq<T>, pos: int, x: T)
    requires
        0 <= pos <= o.len(),
        rank_sorted(o),
        forall|r: int| 0 <= r < pos ==> (#[trigger] o[r]).before(x),
        pos < o.len() ==> x.before(o[pos]),
    ensures
        rank_sorted(o.insert(pos, x)),
{
    let n = o.insert(pos, x);
    assert forall|a: int, b: int| 0 <= a < b < n.len() implies (#[trigger] n[a]).before(
        #[trigger] n[b],
    ) by {
        if b < pos {
            assert(o[a].before(o[b]));
        } else if b == pos {
            assert(o[a].before(x));
        } else if a < pos {
            assert(o[a].before(o[b - 1]));
        } else if a == pos {
            assert(x.before(o[pos]));
            if b - 1 > pos {
                assert(o[pos].before(o[b - 1]));
                T::lemma_order(x, o[pos], o[b - 1]);
            }
        } else {
            assert(o[a - 1].before(o[b - 1]));
        }
    }
}

proof fn lemma_insert_rows<T>(items: Seq<T>, j: int, o: Seq<T>, pos: int)
    requires
        0 <= j < items.len(),
        0 <= pos <= o.len(),
        same_rows(items.take(j), o),
    ensures
        same_rows(items.take(j + 1), o.insert(pos, items[j])),
{
    let x = items[j];
    let n = o.insert(pos, x);
    let s0 = items.take(j);
    let s1 = items.take(j + 1);
    assert forall|m: int| 0 <= m < s1.len() implies n.contains(#[trigger] s1[m]) by {
        if m < j {
            assert(s1[m] == s0[m]);
            assert(o.contains(s0[m]));
            let r = choose|r: int| 0 <= r < o.len() && o[r] == s0[m];
            if r < pos {
                assert(n[r] == s1[m]);
            } else {
                assert(n[r + 1] == s1[m]);
            }
        } else {
            assert(n[pos] == s1[m]);
        }
    }
    assert forall|r: int| 0 <= r < n.len() implies s1.contains(#[trigger] n[r]) by {
        if r < pos {
            assert(s0.contains(o[r]));
            let m = choose|m: int| 0 <= m < s0.len() && s0[m] == o[r];
            assert(s1[m] == n[r]);
        } else if r == pos {
            assert(s1[j] == n[r]);
        } else {
            assert(s0.contains(o[r - 1]));
            let m = choose|m: int| 0 <= m < s0.len() && s0[m] == o[r - 1];
            assert(s1[m] == n[r]);
        }
    }
}

/// The rows in rank order (insertion sort).
fn rank<T: Ranked>(items: &Vec<T>) -> (out: Vec<T>)
    requires
        keys_distinct(items@),
    ensures
        rank_sorted(out@),
        same_rows(items@, out@),
{
    let mut out: Vec<T> = Vec::new();
    let mut j: usize = 0;
    while j < items.len()
        invariant
            j <= items@.len(),
            keys_distinct(items@),
            rank_sorted(out@),
            same_rows(items@.take(j as int), out@),
        decreases items.len() - j,
    {
        let x = items[j];
        let ghost before_ins = out@;
        // every row already placed has another key than `x`
        assert forall|r: int| 0 <= r < out@.len() implies !(#[trigger] out@[r]).same_key(x) by {
            assert(items@.take(j as int).contains(out@[r]));
            let m = choose|m: int| 0 <= m < j && items@.take(j as int)[m] == out@[r];
            assert(items@[m] == out@[r]);
            assert(!items@[m].same_key(items@[j as int]));
        }
        let mut pos: usize = 0;
        while pos < out.len() && !x.ranks_before(&out[pos])
            invariant
                pos <= out@.len(),
                out@ == before_ins,
                forall|r: int| 0 <= r < pos ==> (#[trigger] out@[r]).before(x),
                forall|r: int| 0 <= r < out@.len() ==> !(#[trigger] out@[r]).same_key(x),
            decreases out.len() - pos,
        {
            proof {
                T::lemma_order(out@[pos as int], x, x);
            }
            pos = pos + 1;
        }
        out.insert(pos, x);
        proof {
            lemma_insert_sorted(before_ins, pos as int, x);
            lemma_insert_rows(items@, j as int, before_ins, pos as int);
        }
        j = j + 1;
    }
    assert(items@.take(j as int) =~= items@);
    out
}


// ---------------------------------------------------------------- summary

proof fn lemma_protocols(recs: Seq<PacketRecord>, stats: Seq<ProtocolStat>, out: Seq<ProtocolStat>)
    requires
        forall|j: int|
            0 <= j < stats.len() ==> {
                &&& #[trigger] stats[j].packets == proto_packets(recs, recs.len() as int, stats[j].proto)
                &&& stats[j].bytes == proto_bytes(recs, recs.len() as int, stats[j].proto)
                &&& stats[j].packets > 0
            },
        forall|p: u8|
            #[trigger] proto_packets(recs, recs.len() as int, p) > 0 ==> exists|j: int|
                0 <= j < stats.len() && stats[j].proto == p,
        rank_sorted(out),
        same_rows(stats, out),
    ensures
        protocols_ok(recs, out),
{
    let n = recs.len() as int;
    assert forall|j: int| 0 <= j < out.len() implies {
        &&& #[trigger] out[j].packets == proto_packets(recs, n, out[j].proto)
        &&& out[j].bytes == proto_bytes(recs, n, out[j].proto)
        &&& out[j].packets > 0
    } by {
        assert(stats.contains(out[j]));
    }
    assert forall|a: int, b: int| 0 <= a < b < out.len() implies proto_before(
        #[trigger] out[a],
        #[trigger] out[b],
    ) by {
        assert(out[a].before(out[b]));
    }
    assert forall|p: u8| #[trigger] proto_packets(recs, n, p) > 0 implies exists|j: int|
        0 <= j < out.len() && out[j].proto == p by {
        let m = choose|m: int| 0 <= m < stats.len() && stats[m].proto == p;
        assert(out.contains(stats[m]));
    }
}

proof fn lemma_top_talkers(recs: Seq<PacketRecord>, table: Seq<Talker>, ranked: Seq<Talker>, top: Seq<Talker>)
    requires
        table_ok(recs, recs.len() as int, table),
        rank_sorted(ranked),
        same_rows(table, ranked),
        top == ranked.take(
            if ranked.len() < TOP_TALKERS {
                ranked.len() as int
            } else {
                TOP_TALKERS as int
            },
        ),
    ensures
        talkers_ok(recs, top),
{
    let n = recs.len() as int;
    assert forall|j: int| 0 <= j < top.len() implies talker_counts(recs, n, #[trigger] top[j]) by {
        assert(top[j] == ranked[j]);
        assert(table.contains(ranked[j]));
    }
    assert forall|a: int, b: int| 0 <= a < b < top.len() implies talker_before(
        #[trigger] top[a],
        #[trigger] top[b],
    ) by {
        assert(ranked[a].before(ranked[b]));
    }
    assert forall|key: (u8, Seq<u8>)| #[trigger] talker_packets(recs, n, key) > 0 implies {
        ||| exists|j: int| 0 <= j < top.len() && talker_key(top[j]) == key
        ||| top.len() == TOP_TALKERS && ranks_before(
            top.last().bytes as int,
            top.last().packets as int,
            talker_key(top.last()),
            talker_bytes(recs, n, key),
            talker_packets(recs, n, key),
            key,
        )
    } by {
        let m = choose|m: int| 0 <= m < table.len() && talker_key(table[m]) == key;
        assert(talker_counts(recs, n, table[m]));
        assert(ranked.contains(table[m]));
        let r = choose|r: int| 0 <= r < ranked.len() && ranked[r] == table[m];
        if r < top.len() {
            assert(talker_key(top[r]) == key);
        } else {
            assert(top.last() == ranked[top.len() - 1]);
            assert(ranked[top.len() - 1].before(ranked[r]));
        }
    }
}

/// Bytes `addr[packet * 32 + offset ..][..16]`.
fn address_at(idx: &PacketIndex, packet: usize, offset: usize) -> (a: [u8; 16])
    requires
        idx.columns_ok(),
        packet < idx.ts_sec@.len(),
        offset == 0 || offset == 16,
    ensures
        a@ == idx.addr@.subrange(packet * 32 + offset, packet * 32 + offset + 16),
{
    assert(idx.addr.len() == 32 * idx.ts_sec.len());
    assert(packet * 32 + 32 <= idx.addr.len());
    let start = packet * 32 + offset;
    let mut a = [0u8; 16];
    let mut k: usize = 0;
    while k < 16
        invariant
            k <= 16,
            a@.len() == 16,
            start + 16 <= idx.addr.len(),
            forall|m: int| 0 <= m < k ==> a@[m] == idx.addr@[start + m],
        decreases 16 - k,
    {
        a[k] = idx.addr[start + k];
        k = k + 1;
    }
    assert(a@ =~= idx.addr@.subrange(start as int, start + 16));
    a
}

fn ts_before(a: (u32, u32), b: (u32, u32)) -> (r: bool)
    ensures
        r == ts_less(a, b),
{
    a.0 < b.0 || (a.0 == b.0 && a.1 < b.1)
}

/// Totals, time span, protocol breakdown and top talkers of the index.
pub fn summarize(idx: &PacketIndex) -> (s: Summary)
    requires
        idx.columns_ok(),
        idx@.records.len() <= u32::MAX,
    ensures
        summary_of(idx@.records, s),
{
    let n = idx.len();
    let ghost recs = idx@.records;
    let mut total_bytes: u64 = 0;
    let mut captured_bytes: u64 = 0;
    let mut first: Option<(u32, u32)> = None;
    let mut last: Option<(u32, u32)> = None;
    let mut proto_count: Vec<u32> = Vec::new();
    let mut proto_sum: Vec<u64> = Vec::new();
    let mut q: usize = 0;
    while q < 256
        invariant
            q <= 256,
            proto_count@.len() == q,
            proto_sum@.len() == q,
            forall|p: int| 0 <= p < q ==> proto_count@[p] == 0 && proto_sum@[p] == 0,
        decreases 256 - q,
    {
        proto_count.push(0);
        proto_sum.push(0);
        q = q + 1;
    }
    let mut table: Vec<Talker> = Vec::new();
    let mut i: usize = 0;
    while i < n
        invariant
            idx.columns_ok(),
            n == idx.ts_sec@.len(),
            recs == idx@.records,
            n == recs.len(),
            n <= u32::MAX,
            i <= n,
            total_bytes == sum_orig(recs, i as int),
            captured_bytes == sum_cap(recs, i as int),
            first == first_ts(recs, i as int),
            last == last_ts(recs, i as int),
            proto_count@.len() == 256,
            proto_sum@.len() == 256,
            forall|p: int|
                0 <= p < 256 ==> #[trigger] proto_count@[p] == proto_packets(recs, i as int, p as u8)
                    && proto_sum@[p] == proto_bytes(recs, i as int, p as u8),
            table_ok(recs, i as int, table@),
        decreases n - i,
    {
        let ghost r = recs[i as int];
        assert(r == idx.record(i as int));
        let len = idx.orig_len[i];
        proof {
            lemma_sum_orig_bound(recs, i + 1);
            assert((i + 1) * 0xffff_ffff <= 0xffff_ffff * 0xffff_ffff) by (nonlinear_arith)
                requires
                    i + 1 <= 0xffff_ffff,
            ;
        }
        total_bytes = total_bytes + len as u64;
        captured_bytes = captured_bytes + idx.cap_len[i] as u64;

        // Simple packets in pcapng have no timestamp (stored as 0); skip those.
        let ts = (idx.ts_sec[i], idx.ts_nsec[i]);
        if !(ts.0 == 0 && ts.1 == 0) {
            first = match first {
                None => Some(ts),
                Some(f) => if ts_before(ts, f) {
                    Some(ts)
                } else {
                    Some(f)
                },
            };
            last = match last {
                None => Some(ts),
                Some(l) => if ts_before(l, ts) {
                    Some(ts)
                } else {
                    Some(l)
                },
            };
        }

        let p = idx.proto[i] as usize;
        proof {
            lemma_counts_bounded(recs, i as int, src_key(r), p as u8);
            assert(proto_count@[p as int] == proto_packets(recs, i as int, p as u8));
        }
        let c = proto_count[p];
        let b = proto_sum[p];
        let ghost pc0 = proto_count@;
        let ghost ps0 = proto_sum@;
        proto_count.set(p, c + 1);
        proto_sum.set(p, b + len as u64);
        assert(r.meta.proto == p as u8);
        assert(r.orig_len == len);
        assert forall|q: int|
            0 <= q < 256 implies #[trigger] proto_count@[q] == proto_packets(recs, i + 1, q as u8)
                && proto_sum@[q] == proto_bytes(recs, i + 1, q as u8) by {
            assert(pc0[q] == proto_packets(recs, i as int, q as u8));
            assert(ps0[q] == proto_bytes(recs, i as int, q as u8));
            if q != p {
                assert(q as u8 != r.meta.proto);
                assert(proto_count@[q] == pc0[q]);
                assert(proto_sum@[q] == ps0[q]);
            } else {
                assert(proto_count@[q] == pc0[q] + 1);
                assert(proto_sum@[q] == ps0[q] + len);
            }
        }

        let ghost t0 = table@;
        let version = idx.ip_version[i];
        if version != 0 {
            let src = address_at(idx, i, 0);
            let dst = address_at(idx, i, 16);
            assert(src@ == r.meta.src);
            assert(dst@ == r.meta.dst);
            proof {
                lemma_counts_bounded(recs, i as int, src_key(r), 0);
                lemma_counts_bounded(recs, i as int, dst_key(r), 0);
            }
            add_talker(&mut table, version, &src, len);
            let ghost t1 = table@;
            if !same_addr(&dst, &src) {
                proof {
                    assert forall|j: int|
                        0 <= j < t1.len() && talker_key(#[trigger] t1[j]) == dst_key(r) implies t1[j].packets
                        < u32::MAX && t1[j].bytes + len <= u64::MAX by {
                        if j < t0.len() {
                            assert(talker_counts(recs, i as int, t0[j]));
                            assert(talker_key(t0[j]) == dst_key(r));
                        }
                    }
                    assert forall|a: int, b: int| 0 <= a < b < t1.len() implies talker_key(
                        #[trigger] t1[a],
                    ) != talker_key(#[trigger] t1[b]) by {
                        if b < t0.len() {
                            assert(talker_key(t1[a]) == talker_key(t0[a]));
                            assert(talker_key(t1[b]) == talker_key(t0[b]));
                        } else {
                            assert(talker_key(t1[a]) == talker_key(t0[a]));
                        }
                    }
                }
                add_talker(&mut table, version, &dst, len);
            }
            proof {
                lemma_table_step(recs, i as int, t0, t1, table@);
            }
        } else {
            proof {
                lemma_table_step(recs, i as int, t0, t0, table@);
            }
        }
        i = i + 1;
    }

    // Protocols that occur, in protocol order, then ranked.
    let mut stats: Vec<ProtocolStat> = Vec::new();
    let mut p: usize = 0;
    while p < 256
        invariant
            p <= 256,
            n == recs.len(),
            proto_count@.len() == 256,
            proto_sum@.len() == 256,
            forall|q: int|
                0 <= q < 256 ==> #[trigger] proto_count@[q] == proto_packets(recs, n as int, q as u8)
                    && proto_sum@[q] == proto_bytes(recs, n as int, q as u8),
            forall|j: int|
                0 <= j < stats@.len() ==> {
                    &&& #[trigger] stats@[j].packets == proto_packets(recs, n as int, stats@[j].proto)
                    &&& stats@[j].bytes == proto_bytes(recs, n as int, stats@[j].proto)
                    &&& stats@[j].packets > 0
                    &&& stats@[j].proto < p
                },
            forall|a: int, b: int| 0 <= a < b < stats@.len() ==> (#[trigger] stats@[a]).proto < (
            #[trigger] stats@[b]).proto,
            forall|q: u8|
                q < p && #[trigger] proto_packets(recs, n as int, q) > 0 ==> exists|j: int|
                    0 <= j < stats@.len() && stats@[j].proto == q,
        decreases 256 - p,
    {
        let ghost st0 = stats@;
        if proto_count[p] > 0 {
            stats.push(ProtocolStat { proto: p as u8, packets: proto_count[p], bytes: proto_sum[p] });
            assert(stats@[stats@.len() - 1].proto == p as u8);
            assert(stats@ == st0.push(stats@[stats@.len() - 1]));
            assert(proto_count@[p as int] == proto_packets(recs, n as int, p as u8));
            assert forall|a: int, b: int| 0 <= a < b < stats@.len() implies (#[trigger] stats@[a]).proto
                < (#[trigger] stats@[b]).proto by {
                if b < st0.len() {
                    assert(st0[a].proto < st0[b].proto);
                } else {
                    assert(st0[a].packets > 0);
                    assert(st0[a].proto < p);
                }
            }
        }
        assert forall|q: u8| q < p + 1 && #[trigger] proto_packets(recs, n as int, q) > 0 implies exists|j: int|
            0 <= j < stats@.len() && stats@[j].proto == q by {
            if q == p {
                assert(proto_count@[q as int] == proto_packets(recs, n as int, q));
                assert(stats@[stats@.len() - 1].proto == q);
            } else {
                let j = choose|j: int| 0 <= j < st0.len() && st0[j].proto == q;
                assert(stats@[j].proto == q);
            }
        }
        p = p + 1;
    }
    assert forall|a: int, b: int| 0 <= a < b < stats@.len() implies !(#[trigger] stats@[a]).same_key(
        #[trigger] stats@[b],
    ) by {}
    let protocols = rank(&stats);
    proof {
        lemma_protocols(recs, stats@, protocols@);
    }

    assert forall|a: int, b: int| 0 <= a < b < table@.len() implies !(#[trigger] table@[a]).same_key(
        #[trigger] table@[b],
    ) by {}
    let ranked = rank(&table);
    let mut top_talkers = ranked;
    top_talkers.truncate(TOP_TALKERS);
    proof {
        let k = if ranked@.len() < TOP_TALKERS {
            ranked@.len() as int
        } else {
            TOP_TALKERS as int
        };
        assert(top_talkers@ =~= ranked@.take(k));
        lemma_top_talkers(recs, table@, ranked@, top_talkers@);
    }

    let (first_sec, first_nsec) = match first {
        Some(f) => f,
        None => (0, 0),
    };
    let (last_sec, last_nsec) = match last {
        Some(l) => l,
        None => (0, 0),
    };
    Summary {
        total_packets: n as u32,
        total_bytes,
        captured_bytes,
        first_sec,
        first_nsec,
        last_sec,
        last_nsec,
        protocols,
        top_talkers,
    }
}


impl Summary {
    /// The time from the first to the last timestamp, in nanoseconds.
    pub fn duration_nanos(&self) -> (d: i64)
        ensures
            d == (self.last_sec - self.first_sec) * 1_000_000_000 + (self.last_nsec - self.first_nsec),
    {
        let secs: i64 = self.last_sec as i64 - self.first_sec as i64;
        let nanos: i64 = self.last_nsec as i64 - self.first_nsec as i64;
        assert(-0x1_0000_0000 < secs < 0x1_0000_0000);
        assert(-5_000_000_000_000_000_000 < secs * 1_000_000_000 < 5_000_000_000_000_000_000) by (nonlinear_arith)
            requires
                -0x1_0000_0000 < secs < 0x1_0000_0000,
        ;
        secs * 1_000_000_000 + nanos
    }
}

// ------------------------------------------------------------------ laws

/// Packets of protocol `p < m` among the first `k`.
pub open spec fn proto_total(recs: Seq<PacketRecord>, k: int, m: int) -> int
    decreases m,
{
    if m <= 0 {
        0
    } else {
        proto_total(recs, k, m - 1) + proto_packets(recs, k, (m - 1) as u8)
    }
}

/// Packets counted in the rows of a protocol breakdown.
pub open spec fn rows_total(ps: Seq<ProtocolStat>) -> int
    decreases ps.len(),
{
    if ps.len() == 0 {
        0
    } else {
        rows_total(ps.drop_last()) + ps.last().packets
    }
}

/// Packets of protocol `p < m` among the first `k`, counting only the
/// protocols that have a row in `ps`.
pub open spec fn listed_total(recs: Seq<PacketRecord>, k: int, ps: Seq<ProtocolStat>, m: int) -> int
    decreases m,
{
    if m <= 0 {
        0
    } else {
        listed_total(recs, k, ps, m - 1) + if exists|j: int| 0 <= j < ps.len() && ps[j].proto == (m - 1) as u8 {
            proto_packets(recs, k, (m - 1) as u8)
        } else {
            0
        }
    }
}

proof fn lemma_proto_total_step(recs: Seq<PacketRecord>, k: int, m: int)
    requires
        0 <= k < recs.len(),
        0 <= m <= 256,
    ensures
        proto_total(recs, k + 1, m) == proto_total(recs, k, m) + if recs[k].meta.proto < m {
            1int
        } else {
            0int
        },
    decreases m,
{
    if m > 0 {
        lemma_proto_total_step(recs, k, m - 1);
        assert(((m - 1) as u8) as int == m - 1);
    }
}

proof fn lemma_proto_total_all(recs: Seq<PacketRecord>, k: int)
    requires
        0 <= k <= recs.len(),
    ensures
        proto_total(recs, k, 256) == k,
    decreases k,
{
    if k > 0 {
        lemma_proto_total_all(recs, k - 1);
        lemma_proto_total_step(recs, k - 1, 256);
    } else {
        lemma_proto_total_zero(recs, 256);
    }
}

proof fn lemma_proto_total_zero(recs: Seq<PacketRecord>, m: int)
    requires
        0 <= m,
    ensures
        proto_total(recs, 0, m) == 0,
    decreases m,
{
    if m > 0 {
        lemma_proto_total_zero(recs, m - 1);
    }
}

/// Dropping the last row takes its protocol's packets out of the listed total.
proof fn lemma_listed_drop_last(recs: Seq<PacketRecord>, k: int, ps: Seq<ProtocolStat>, m: int)
    requires
        ps.len() > 0,
        0 <= m <= 256,
        forall|a: int, b: int| 0 <= a < b < ps.len() ==> (#[trigger] ps[a]).proto != (#[trigger] ps[b]).proto,
    ensures
        listed_total(recs, k, ps, m) == listed_total(recs, k, ps.drop_last(), m) + if ps.last().proto < m {
            proto_packets(recs, k, ps.last().proto)
        } else {
            0
        },
    decreases m,
{
    if m > 0 {
        lemma_listed_drop_last(recs, k, ps, m - 1);
        let q = (m - 1) as u8;
        let d = ps.drop_last();
        let in_ps = exists|j: int| 0 <= j < ps.len() && ps[j].proto == q;
        let in_d = exists|j: int| 0 <= j < d.len() && d[j].proto == q;
        if in_d {
            let j = choose|j: int| 0 <= j < d.len() && d[j].proto == q;
            assert(ps[j].proto == q);
            if ps.last().proto == q {
                assert(ps[j].proto != ps[ps.len() - 1].proto);
            }
        }
        if in_ps && !in_d {
            let j = choose|j: int| 0 <= j < ps.len() && ps[j].proto == q;
            if j < d.len() {
                assert(d[j].proto == q);
            }
            assert(ps.last().proto == q);
        }
        if ps.last().proto == q {
            assert(ps[ps.len() - 1].proto == q);
        }
    }
}

proof fn lemma_rows_total(recs: Seq<PacketRecord>, k: int, ps: Seq<ProtocolStat>)
    requires
        forall|a: int, b: int| 0 <= a < b < ps.len() ==> (#[trigger] ps[a]).proto != (#[trigger] ps[b]).proto,
        forall|j: int| 0 <= j < ps.len() ==> #[trigger] ps[j].packets == proto_packets(recs, k, ps[j].proto),
    ensures
        rows_total(ps) == listed_total(recs, k, ps, 256),
    decreases ps.len(),
{
    if ps.len() == 0 {
        lemma_listed_empty(recs, k, ps, 256);
    } else {
        let d = ps.drop_last();
        assert forall|j: int| 0 <= j < d.len() implies #[trigger] d[j].packets == proto_packets(recs, k, d[j].proto) by {
            assert(ps[j].packets == proto_packets(recs, k, ps[j].proto));
        }
        assert(ps.last().packets == proto_packets(recs, k, ps[ps.len() - 1].proto));
        lemma_rows_total(recs, k, d);
        lemma_listed_drop_last(recs, k, ps, 256);
    }
}

proof fn lemma_listed_empty(recs: Seq<PacketRecord>, k: int, ps: Seq<ProtocolStat>, m: int)
    requires
        ps.len() == 0,
        0 <= m,
    ensures
        listed_total(recs, k, ps, m) == 0,
    decreases m,
{
    if m > 0 {
        lemma_listed_empty(recs, k, ps, m - 1);
    }
}

proof fn lemma_listed_is_all(recs: Seq<PacketRecord>, k: int, ps: Seq<ProtocolStat>, m: int)
    requires
        0 <= m <= 256,
        forall|p: u8| #[trigger] proto_packets(recs, k, p) > 0 ==> exists|j: int| 0 <= j < ps.len() && ps[j].proto == p,
        forall|p: u8| proto_packets(recs, k, p) >= 0,
    ensures
        listed_total(recs, k, ps, m) == proto_total(recs, k, m),
    decreases m,
{
    if m > 0 {
        lemma_listed_is_all(recs, k, ps, m - 1);
        let q = (m - 1) as u8;
        if proto_packets(recs, k, q) > 0 {
            assert(exists|j: int| 0 <= j < ps.len() && ps[j].proto == q);
        }
    }
}

/// Every packet is counted in exactly one row of the protocol breakdown:
/// the rows' packet counts add up to the number of packets.
pub proof fn law_protocol_rows_cover_every_packet(recs: Seq<PacketRecord>, ps: Seq<ProtocolStat>)
    requires
        protocols_ok(recs, ps),
    ensures
        rows_total(ps) == recs.len(),
{
    let n = recs.len() as int;
    assert forall|a: int, b: int| 0 <= a < b < ps.len() implies (#[trigger] ps[a]).proto != (
    #[trigger] ps[b]).proto by {
        assert(proto_before(ps[a], ps[b]));
    }
    assert forall|p: u8| proto_packets(recs, n, p) >= 0 by {
        lemma_counts_bounded(recs, n, (0u8, Seq::empty()), p);
    }
    lemma_rows_total(recs, n, ps);
    lemma_listed_is_all(recs, n, ps, 256);
    lemma_proto_total_all(recs, n);
}

/// The earliest timestamp never comes after the latest, and either both
/// exist or neither does.
pub proof fn law_first_not_after_last(recs: Seq<PacketRecord>, k: int)
    requires
        0 <= k <= recs.len(),
    ensures
        first_ts(recs, k) is Some == last_ts(recs, k) is Some,
        first_ts(recs, k) matches Some(f) ==> !ts_less(last_ts(recs, k)->0, f),
    decreases k,
{
    if k > 0 {
        law_first_not_after_last(recs, k - 1);
    }
}

/// An address is counted at most once per packet: its packets never exceed
/// the packet count, and its bytes never exceed the total.
pub proof fn law_talker_counts_within_totals(recs: Seq<PacketRecord>, key: (u8, Seq<u8>))
    ensures
        0 <= talker_packets(recs, recs.len() as int, key) <= recs.len(),
        0 <= talker_bytes(recs, recs.len() as int, key) <= sum_orig(recs, recs.len() as int),
{
    lemma_counts_bounded(recs, recs.len() as int, key, 0);
}


/// A packet's timestamp as (seconds, nanoseconds).
pub open spec fn ts_at(r: PacketRecord) -> (u32, u32) {
    (r.ts_sec, r.ts_nsec)
}

/// The earliest and latest timestamps are the lexicographic minimum and
/// maximum of the timestamps of the packets that have one, so they do not
/// depend on the order of the packets; there are none exactly when no
/// packet has a timestamp.
pub proof fn law_first_and_last_are_min_and_max(recs: Seq<PacketRecord>, k: int)
    requires
        0 <= k <= recs.len(),
    ensures
        first_ts(recs, k) is None <==> (forall|j: int| 0 <= j < k ==> !has_ts(#[trigger] recs[j])),
        last_ts(recs, k) is None <==> (forall|j: int| 0 <= j < k ==> !has_ts(#[trigger] recs[j])),
        first_ts(recs, k) matches Some(f) ==> {
            &&& exists|j: int| 0 <= j < k && has_ts(#[trigger] recs[j]) && ts_at(recs[j]) == f
            &&& forall|j: int| 0 <= j < k && has_ts(#[trigger] recs[j]) ==> !ts_less(ts_at(recs[j]), f)
        },
        last_ts(recs, k) matches Some(l) ==> {
            &&& exists|j: int| 0 <= j < k && has_ts(#[trigger] recs[j]) && ts_at(recs[j]) == l
            &&& forall|j: int| 0 <= j < k && has_ts(#[trigger] recs[j]) ==> !ts_less(l, ts_at(recs[j]))
        },
    decreases k,
{
    if k > 0 {
        law_first_and_last_are_min_and_max(recs, k - 1);
        let r = recs[k - 1];
        if has_ts(r) {
            assert(has_ts(recs[k - 1]));
        }
        if first_ts(recs, k - 1) is Some && has_ts(r) {
            let f = first_ts(recs, k - 1)->0;
            let j0 = choose|j: int| 0 <= j < k - 1 && has_ts(#[trigger] recs[j]) && ts_at(recs[j]) == f;
            assert(has_ts(recs[j0]));
        }
        if last_ts(recs, k - 1) is Some && has_ts(r) {
            let l = last_ts(recs, k - 1)->0;
            let j0 = choose|j: int| 0 <= j < k - 1 && has_ts(#[trigger] recs[j]) && ts_at(recs[j]) == l;
            assert(has_ts(recs[j0]));
        }
    }
}

} // verus!
