//! Text to numbers and IP addresses, as std reads them: unsigned decimal
//! integers (`str::parse`), dotted IPv4 and colon-separated IPv6 addresses
//! (`Ipv4Addr` / `Ipv6Addr` from text).

use vstd::prelude::*;

verus! {

/// The value of a digit in base 10 or 16 (`char::to_digit`).
pub open spec fn digit_value(c: char, radix: int) -> Option<int> {
    if '0' <= c <= '9' {
        Some(c as int - '0' as int)
    } else if radix == 16 && 'a' <= c <= 'f' {
        Some(c as int - 'a' as int + 10)
    } else if radix == 16 && 'A' <= c <= 'F' {
        Some(c as int - 'A' as int + 10)
    } else {
        None
    }
}

pub open spec fn is_digit(c: char, radix: int) -> bool {
    digit_value(c, radix) is Some
}

/// The end of the run of digits that starts at `i`.
pub open spec fn run_end(s: Seq<char>, i: int, radix: int) -> int
    decreases s.len() - i,
{
    if 0 <= i < s.len() && is_digit(s[i], radix) {
        run_end(s, i + 1, radix)
    } else {
        i
    }
}

/// The number the digits `s[i..j]` spell.
pub open spec fn run_value(s: Seq<char>, i: int, j: int, radix: int) -> int
    decreases j - i,
{
    if j <= i {
        0
    } else {
        run_value(s, i, j - 1, radix) * radix + match digit_value(s[j - 1], radix) {
            Some(d) => d,
            None => 0,
        }
    }
}

/// std's number reader: the digits at `i`, at least one and at most
/// `max_digits`, worth at most `limit`, and without a leading zero unless
/// allowed; the value and the position after the digits.
pub open spec fn read_number(
    s: Seq<char>,
    i: int,
    radix: int,
    max_digits: int,
    allow_zero_prefix: bool,
    limit: int,
) -> Option<(int, int)> {
    let j = run_end(s, i, radix);
    if j - i == 0 || j - i > max_digits || run_value(s, i, j, radix) > limit || (
    !allow_zero_prefix && j - i > 1 && s[i] == '0') {
        None
    } else {
        Some((run_value(s, i, j, radix), j))
    }
}

/// `str::parse` for an unsigned integer type with maximum `max`: an
/// optional `+`, then one or more ASCII digits worth at most `max`.
pub open spec fn spec_parse_uint(w: Seq<char>, max: int) -> Option<int> {
    let start: int = if w.len() > 0 && w[0] == '+' {
        1
    } else {
        0
    };
    if start < w.len() && run_end(w, start, 10) == w.len() && run_value(w, start, w.len() as int, 10)
        <= max {
        Some(run_value(w, start, w.len() as int, 10))
    } else {
        None
    }
}

proof fn lemma_run_value_monotone(s: Seq<char>, i: int, j: int, k: int, radix: int)
    requires
        i <= j <= k,
        radix >= 1,
    ensures
        run_value(s, i, j, radix) <= run_value(s, i, k, radix),
        run_value(s, i, j, radix) >= 0,
    decreases k - i,
{
    if k > j {
        lemma_run_value_monotone(s, i, j, k - 1, radix);
        lemma_run_value_nonneg(s, i, k - 1, radix);
        assert(run_value(s, i, k - 1, radix) * radix >= run_value(s, i, k - 1, radix)) by (
        nonlinear_arith)
            requires
                run_value(s, i, k - 1, radix) >= 0,
                radix >= 1,
        ;
    } else {
        lemma_run_value_nonneg(s, i, j, radix);
    }
}

pub(crate) proof fn lemma_run_value_nonneg(s: Seq<char>, i: int, j: int, radix: int)
    requires
        radix >= 1,
    ensures
        run_value(s, i, j, radix) >= 0,
    decreases j - i,
{
    if j > i {
        lemma_run_value_nonneg(s, i, j - 1, radix);
        assert(run_value(s, i, j - 1, radix) * radix >= 0) by (nonlinear_arith)
            requires
                run_value(s, i, j - 1, radix) >= 0,
                radix >= 1,
        ;
    }
}

/// The run of digits from `i` extends at least to `k` when `s[i..k]` are
/// digits, and ends exactly there when `s[k]` is not one.
proof fn lemma_run_end(s: Seq<char>, i: int, k: int, radix: int)
    requires
        0 <= i <= k <= s.len(),
        forall|m: int| i <= m < k ==> is_digit(#[trigger] s[m], radix),
    ensures
        run_end(s, i, radix) >= k,
        run_end(s, i, radix) <= s.len(),
        (k == s.len() || !is_digit(s[k], radix)) ==> run_end(s, i, radix) == k,
    decreases k - i,
{
    if i < k {
        lemma_run_end(s, i + 1, k, radix);
    } else {
        lemma_run_end_le(s, i, radix);
    }
}

proof fn lemma_run_end_le(s: Seq<char>, i: int, radix: int)
    requires
        0 <= i <= s.len(),
    ensures
        i <= run_end(s, i, radix) <= s.len(),
    decreases s.len() - i,
{
    if i < s.len() && is_digit(s[i], radix) {
        lemma_run_end_le(s, i + 1, radix);
    }
}

fn digit_of(c: char, radix: u32) -> (r: Option<u32>)
    requires
        radix == 10 || radix == 16,
    ensures
        r matches Some(d) ==> digit_value(c, radix as int) == Some(d as int) && d < radix,
        r is None ==> digit_value(c, radix as int) is None,
{
    if '0' <= c && c <= '9' {
        Some(c as u32 - '0' as u32)
    } else if radix == 16 && 'a' <= c && c <= 'f' {
        Some(c as u32 - 'a' as u32 + 10)
    } else if radix == 16 && 'A' <= c && c <= 'F' {
        Some(c as u32 - 'A' as u32 + 10)
    } else {
        None
    }
}

/// std's number reader (see [`read_number`]).
pub fn read_num(
    s: &[char],
    i: usize,
    radix: u32,
    max_digits: usize,
    allow_zero_prefix: bool,
    limit: u32,
) -> (r: Option<(u32, usize)>)
    requires
        i <= s@.len(),
        radix == 10 || radix == 16,
        1 <= max_digits <= 4,
    ensures
        match read_number(s@, i as int, radix as int, max_digits as int, allow_zero_prefix, limit as int) {
            Some((v, j)) => r == Some((v as u32, j as usize)) && 0 <= v <= limit && i < j
                <= s.len(),
            None => r is None,
        },
        r matches Some((v, j)) ==> i < j <= s@.len() && v <= limit,
{
    let mut k: usize = i;
    let mut v: u32 = 0;
    while k < s.len()
        invariant
            i <= k <= s@.len(),
            k - i <= max_digits,
            max_digits <= 4,
            radix == 10 || radix == 16,
            forall|m: int| i <= m < k ==> is_digit(#[trigger] s@[m], radix as int),
            v as int == run_value(s@, i as int, k as int, radix as int),
            v <= limit,
        ensures
            i <= k <= s@.len(),
            k - i <= max_digits,
            forall|m: int| i <= m < k ==> is_digit(#[trigger] s@[m], radix as int),
            v as int == run_value(s@, i as int, k as int, radix as int),
            v <= limit,
            k == s@.len() || !is_digit(s@[k as int], radix as int),
        decreases s.len() - k,
    {
        let d = match digit_of(s[k], radix) {
            Some(d) => d,
            None => break,
        };
        if k - i == max_digits {
            // one digit too many
            proof {
                lemma_run_end(s@, i as int, (k + 1) as int, radix as int);
            }
            return None;
        }
        assert(run_value(s@, i as int, k + 1, radix as int) == run_value(s@, i as int, k as int, radix as int) * radix + d);
        let nv: u64 = (v as u64) * (radix as u64) + (d as u64);
        if nv > limit as u64 {
            proof {
                lemma_run_end(s@, i as int, (k + 1) as int, radix as int);
                lemma_run_value_monotone(s@, i as int, (k + 1) as int, run_end(s@, i as int, radix as int), radix as int);
            }
            return None;
        }
        v = nv as u32;
        k = k + 1;
    }
    proof {
        lemma_run_end(s@, i as int, k as int, radix as int);
    }
    proof {
        lemma_run_value_nonneg(s@, i as int, k as int, radix as int);
    }
    if k == i {
        return None;
    }
    if !allow_zero_prefix && k - i > 1 && s[i] == '0' {
        return None;
    }
    Some((v, k))
}


/// `str::parse` for an unsigned integer with maximum `max` (see
/// [`spec_parse_uint`]).
pub fn parse_uint(w: &[char], max: u32) -> (r: Option<u32>)
    ensures
        match spec_parse_uint(w@, max as int) {
            Some(v) => r == Some(v as u32) && 0 <= v <= max,
            None => r is None,
        },
{
    let start: usize = if w.len() > 0 && w[0] == '+' {
        1
    } else {
        0
    };
    if start >= w.len() {
        return None;
    }
    let mut k: usize = start;
    let mut v: u32 = 0;
    while k < w.len()
        invariant
            start <= k <= w@.len(),
            start == (if w@.len() > 0 && w@[0] == '+' { 1int } else { 0int }),
            forall|m: int| start <= m < k ==> is_digit(#[trigger] w@[m], 10),
            v as int == run_value(w@, start as int, k as int, 10),
            v <= max,
        decreases w.len() - k,
    {
        let d = match digit_of(w[k], 10) {
            Some(d) => d,
            None => {
                proof {
                    lemma_run_end(w@, start as int, k as int, 10);
                }
                return None;
            },
        };
        assert(run_value(w@, start as int, k + 1, 10) == run_value(w@, start as int, k as int, 10) * 10 + d);
        let nv: u64 = (v as u64) * 10 + (d as u64);
        if nv > max as u64 {
            proof {
                lemma_run_end(w@, start as int, (k + 1) as int, 10);
                lemma_run_end_le(w@, start as int, 10);
                if run_end(w@, start as int, 10) == w@.len() {
                    lemma_run_value_monotone(w@, start as int, (k + 1) as int, w@.len() as int, 10);
                }
            }
            return None;
        }
        v = nv as u32;
        k = k + 1;
    }
    proof {
        lemma_run_end(w@, start as int, k as int, 10);
    }
    Some(v)
}

/// The four parts of a dotted IPv4 address from group `g` on (std's
/// reader: parts of one to three decimal digits worth at most 255, no
/// leading zeros, separated by dots).
pub open spec fn read_v4_groups(s: Seq<char>, p: int, g: int, acc: Seq<u8>) -> Option<(Seq<u8>, int)>
    decreases 4 - g,
{
    if g >= 4 {
        Some((acc, p))
    } else {
        let q: Option<int> = if g == 0 {
            Some(p)
        } else if 0 <= p < s.len() && s[p] == '.' {
            Some(p + 1)
        } else {
            None
        };
        match q {
            None => None,
            Some(q) => match read_number(s, q, 10, 3, false, 255) {
                None => None,
                Some((v, p2)) => read_v4_groups(s, p2, g + 1, acc.push(v as u8)),
            },
        }
    }
}

/// An IPv4 address read from position `i`: its 4 bytes and the position after it.
pub open spec fn read_ipv4(s: Seq<char>, i: int) -> Option<(Seq<u8>, int)> {
    read_v4_groups(s, i, 0, Seq::empty())
}

/// `Ipv4Addr` from text: the whole text is one IPv4 address.
pub open spec fn spec_parse_ipv4(s: Seq<char>) -> Option<Seq<u8>> {
    match read_ipv4(s, 0) {
        Some((b, p)) => if p == s.len() {
            Some(b)
        } else {
            None
        },
        None => None,
    }
}

fn read_v4(s: &[char], i: usize) -> (r: Option<(Vec<u8>, usize)>)
    requires
        i <= s@.len(),
    ensures
        match read_ipv4(s@, i as int) {
            Some((b, p)) => r matches Some((v, q)) && v@ == b && q == p,
            None => r is None,
        },
{
    let mut acc: Vec<u8> = Vec::new();
    let mut p: usize = i;
    let mut g: usize = 0;
    while g < 4
        invariant
            g <= 4,
            p <= s@.len(),
            acc@.len() == g,
            read_v4_groups(s@, p as int, g as int, acc@) == read_ipv4(s@, i as int),
        decreases 4 - g,
    {
        let q = if g == 0 {
            p
        } else if p < s.len() && s[p] == '.' {
            p + 1
        } else {
            return None;
        };
        let ghost old_acc = acc@;
        let ghost old_p = p;
        match read_num(s, q, 10, 3, false, 255) {
            Some((v, p2)) => {
                let ghost sv = (read_number(s@, q as int, 10, 3, false, 255)->0).0;
                assert(sv == v as int);
                assert(sv as u8 == v as u8);
                assert(read_number(s@, q as int, 10, 3, false, 255) == Some((sv, p2 as int)));
                assert(g == 0 ==> q == old_p);
                assert(g != 0 ==> q == old_p + 1 && s@[old_p as int] == '.');
                acc.push(v as u8);
                p = p2;
                assert(read_v4_groups(s@, old_p as int, g as int, old_acc) == read_v4_groups(
                    s@,
                    p as int,
                    g + 1,
                    old_acc.push(sv as u8),
                ));
            },
            None => return None,
        }
        g = g + 1;
    }
    Some((acc, p))
}

/// `Ipv4Addr` from text (see [`spec_parse_ipv4`]).
pub fn parse_ipv4(s: &[char]) -> (r: Option<Vec<u8>>)
    ensures
        match spec_parse_ipv4(s@) {
            Some(b) => r matches Some(v) && v@ == b,
            None => r is None,
        },
{
    match read_v4(s, 0) {
        Some((b, p)) => if p == s.len() {
            Some(b)
        } else {
            None
        },
        None => None,
    }
}

/// The position after the separator for group `g`: the first group has
/// none, the others a colon.
pub open spec fn after_colon(s: Seq<char>, p: int, g: int) -> Option<int> {
    if g == 0 {
        Some(p)
    } else if 0 <= p < s.len() && s[p] == ':' {
        Some(p + 1)
    } else {
        None
    }
}

/// An IPv6 group: one to four hex digits.
pub open spec fn read_hex_group(s: Seq<char>, p: int, g: int) -> Option<(int, int)> {
    match after_colon(s, p, g) {
        Some(q) => read_number(s, q, 16, 4, true, 65535),
        None => None,
    }
}

/// An embedded IPv4 address in group position `g`.
pub open spec fn read_v4_group(s: Seq<char>, p: int, g: int) -> Option<(Seq<u8>, int)> {
    match after_colon(s, p, g) {
        Some(q) => read_ipv4(s, q),
        None => None,
    }
}

/// std's IPv6 group reader from group `g` up to `limit` groups: the groups
/// read, the position after them, and whether they end with an embedded
/// IPv4 address (tried first while at least two groups are left).
pub open spec fn read_groups(s: Seq<char>, p: int, g: int, limit: int, acc: Seq<u16>) -> (
    Seq<u16>,
    int,
    bool,
)
    decreases limit - g,
{
    if g >= limit {
        (acc, p, false)
    } else if g < limit - 1 && read_v4_group(s, p, g) is Some {
        let (b, p2) = read_v4_group(s, p, g)->0;
        (
            acc.push((b[0] as int * 256 + b[1] as int) as u16).push(
                (b[2] as int * 256 + b[3] as int) as u16,
            ),
            p2,
            true,
        )
    } else {
        match read_hex_group(s, p, g) {
            Some((v, p2)) => read_groups(s, p2, g + 1, limit, acc.push(v as u16)),
            None => (acc, p, false),
        }
    }
}

/// The 16 bytes of eight 16-bit groups, most significant byte first.
pub open spec fn groups_bytes(gs: Seq<u16>) -> Seq<u8> {
    Seq::new(
        16,
        |k: int|
            if k % 2 == 0 {
                (gs[k / 2] / 256) as u8
            } else {
                (gs[k / 2] % 256) as u8
            },
    )
}

/// `Ipv6Addr` from text: eight groups, or fewer around one `::` that
/// stands for at least one zero group; an embedded IPv4 address may take
/// the last two groups.
pub open spec fn spec_parse_ipv6(s: Seq<char>) -> Option<Seq<u8>> {
    let (head, p, head_v4) = read_groups(s, 0, 0, 8, Seq::empty());
    if head.len() == 8 {
        if p == s.len() {
            Some(groups_bytes(head))
        } else {
            None
        }
    } else if head_v4 {
        None
    } else if 0 <= p && p + 2 <= s.len() && s[p] == ':' && s[p + 1] == ':' {
        let (tail, p2, _) = read_groups(s, p + 2, 0, 8 - (head.len() + 1), Seq::empty());
        if p2 == s.len() {
            Some(
                groups_bytes(
                    head + Seq::new((8 - head.len() - tail.len()) as nat, |k: int| 0u16) + tail,
                ),
            )
        } else {
            None
        }
    } else {
        None
    }
}

proof fn lemma_read_groups_len(s: Seq<char>, p: int, g: int, limit: int, acc: Seq<u16>)
    requires
        0 <= g <= limit,
        acc.len() == g,
        0 <= p <= s.len(),
    ensures
        ({
            let (gs, q, v4) = read_groups(s, p, g, limit, acc);
            &&& g <= gs.len() <= limit
            &&& p <= q <= s.len()
            &&& gs.subrange(0, g) == acc
        }),
    decreases limit - g,
{
    if g < limit {
        if g < limit - 1 && read_v4_group(s, p, g) is Some {
            let (b, p2) = read_v4_group(s, p, g)->0;
            lemma_read_v4_len(s, after_colon(s, p, g)->0);
            let gs = read_groups(s, p, g, limit, acc).0;
            assert(gs.subrange(0, g) =~= acc);
        } else {
            match read_hex_group(s, p, g) {
                Some((v, p2)) => {
                    lemma_read_number_pos(s, after_colon(s, p, g)->0, 16, 4, true, 65535);
                    lemma_read_groups_len(s, p2, g + 1, limit, acc.push(v as u16));
                    let gs = read_groups(s, p, g, limit, acc).0;
                    assert(gs.subrange(0, g) =~= acc.push(v as u16).subrange(0, g));
                    assert(acc.push(v as u16).subrange(0, g) =~= acc);
                },
                None => {
                    assert(acc.subrange(0, g) =~= acc);
                },
            }
        }
    } else {
        assert(acc.subrange(0, g) =~= acc);
    }
}

proof fn lemma_read_number_pos(
    s: Seq<char>,
    i: int,
    radix: int,
    max_digits: int,
    allow_zero_prefix: bool,
    limit: int,
)
    requires
        0 <= i <= s.len(),
    ensures
        read_number(s, i, radix, max_digits, allow_zero_prefix, limit) matches Some((v, j)) ==> i < j
            <= s.len(),
{
    lemma_run_end_le(s, i, radix);
}

proof fn lemma_read_v4_len(s: Seq<char>, i: int)
    requires
        0 <= i <= s.len(),
    ensures
        read_ipv4(s, i) matches Some((b, j)) ==> b.len() == 4 && i < j <= s.len(),
{
    lemma_read_v4_groups_len(s, i, 0, Seq::empty(), i);
}

proof fn lemma_read_v4_groups_len(s: Seq<char>, p: int, g: int, acc: Seq<u8>, i: int)
    requires
        0 <= g <= 4,
        acc.len() == g,
        0 <= i <= p <= s.len(),
        g > 0 ==> i < p,
    ensures
        read_v4_groups(s, p, g, acc) matches Some((b, j)) ==> b.len() == 4 && i < j <= s.len(),
    decreases 4 - g,
{
    if g < 4 {
        let q: Option<int> = if g == 0 {
            Some(p)
        } else if 0 <= p < s.len() && s[p] == '.' {
            Some(p + 1)
        } else {
            None
        };
        if let Some(q) = q {
            lemma_read_number_pos(s, q, 10, 3, false, 255);
            if let Some((v, p2)) = read_number(s, q, 10, 3, false, 255) {
                lemma_read_v4_groups_len(s, p2, g + 1, acc.push(v as u8), i);
            }
        }
    }
}


fn colon_sep(s: &[char], p: usize, g: usize) -> (r: Option<usize>)
    requires
        p <= s@.len(),
    ensures
        r matches Some(q) ==> after_colon(s@, p as int, g as int) == Some(q as int) && q <= s@.len(),
        r is None ==> after_colon(s@, p as int, g as int) is None,
{
    if g == 0 {
        Some(p)
    } else if p < s.len() && s[p] == ':' {
        Some(p + 1)
    } else {
        None
    }
}

fn read_groups_from(s: &[char], p: usize, limit: usize) -> (r: (Vec<u16>, usize, bool))
    requires
        p <= s@.len(),
        limit <= 8,
    ensures
        (r.0@, r.1 as int, r.2) == read_groups(s@, p as int, 0, limit as int, Seq::empty()),
{
    let mut acc: Vec<u16> = Vec::new();
    let mut pos: usize = p;
    let mut g: usize = 0;
    while g < limit
        invariant
            g <= limit <= 8,
            pos <= s@.len(),
            acc@.len() == g,
            read_groups(s@, pos as int, g as int, limit as int, acc@) == read_groups(
                s@,
                p as int,
                0,
                limit as int,
                Seq::empty(),
            ),
        decreases limit - g,
    {
        if g + 1 < limit {
            if let Some(q) = colon_sep(s, pos, g) {
                proof {
                    lemma_read_v4_len(s@, q as int);
                }
                if let Some((b, p2)) = read_v4(s, q) {
                    assert(read_v4_group(s@, pos as int, g as int) == Some((b@, p2 as int)));
                    assert(b@.len() == 4);
                    let ghost acc0 = acc@;
                    let hi = (b[0] as u16) * 256 + b[1] as u16;
                    let lo = (b[2] as u16) * 256 + b[3] as u16;
                    acc.push(hi);
                    acc.push(lo);
                    assert(hi == (b@[0] as int * 256 + b@[1] as int) as u16);
                    assert(read_groups(s@, pos as int, g as int, limit as int, acc0) == (acc@, p2 as int, true));
                    return (acc, p2, true);
                }
            }
        }
        let ghost old_acc = acc@;
        let ghost old_pos = pos;
        match colon_sep(s, pos, g) {
            None => {
                assert(read_v4_group(s@, pos as int, g as int) is None);
                assert(read_hex_group(s@, pos as int, g as int) is None);
                assert(read_groups(s@, pos as int, g as int, limit as int, acc@) == (acc@, pos as int, false));
                return (acc, pos, false);
            },
            Some(q) => match read_num(s, q, 16, 4, true, 65535) {
                None => return (acc, pos, false),
                Some((v, p2)) => {
                    acc.push(v as u16);
                    pos = p2;
                    assert(read_groups(s@, old_pos as int, g as int, limit as int, old_acc)
                        == read_groups(s@, pos as int, g + 1, limit as int, acc@));
                },
            },
        }
        g = g + 1;
    }
    (acc, pos, false)
}

fn groups_to_bytes(gs: &Vec<u16>) -> (a: [u8; 16])
    requires
        gs@.len() == 8,
    ensures
        a@ == groups_bytes(gs@),
{
    let mut a = [0u8; 16];
    let mut k: usize = 0;
    while k < 8
        invariant
            k <= 8,
            gs@.len() == 8,
            forall|j: int| 0 <= j < 2 * k ==> a@[j] == groups_bytes(gs@)[j],
        decreases 8 - k,
    {
        a[2 * k] = (gs[k] / 256) as u8;
        a[2 * k + 1] = (gs[k] % 256) as u8;
        k = k + 1;
    }
    assert(a@ =~= groups_bytes(gs@));
    a
}

/// `Ipv6Addr` from text (see [`spec_parse_ipv6`]).
pub fn parse_ipv6(s: &[char]) -> (r: Option<[u8; 16]>)
    ensures
        match spec_parse_ipv6(s@) {
            Some(b) => r matches Some(a) && a@ == b,
            None => r is None,
        },
{
    let (head, p, head_v4) = read_groups_from(s, 0, 8);
    proof {
        lemma_read_groups_len(s@, 0, 0, 8, Seq::empty());
    }
    if head.len() == 8 {
        if p == s.len() {
            return Some(groups_to_bytes(&head));
        } else {
            return None;
        }
    }
    if head_v4 {
        return None;
    }
    if !(p < s.len() && s.len() - p >= 2 && s[p] == ':' && s[p + 1] == ':') {
        return None;
    }
    let limit = 8 - (head.len() + 1);
    let (tail, p2, _) = read_groups_from(s, p + 2, limit);
    proof {
        lemma_read_groups_len(s@, p + 2, 0, limit as int, Seq::empty());
    }
    if p2 != s.len() {
        return None;
    }
    let mut groups: Vec<u16> = Vec::new();
    let mut k: usize = 0;
    while k < head.len()
        invariant
            k <= head@.len() < 8,
            groups@ == head@.subrange(0, k as int),
        decreases head.len() - k,
    {
        groups.push(head[k]);
        assert(head@.subrange(0, k + 1) =~= head@.subrange(0, k as int).push(head@[k as int]));
        k = k + 1;
    }
    let zeros = 8 - head.len() - tail.len();
    let ghost with_head = groups@;
    k = 0;
    while k < zeros
        invariant
            k <= zeros,
            with_head == head@.subrange(0, head@.len() as int),
            groups@ == with_head + Seq::new(k as nat, |j: int| 0u16),
        decreases zeros - k,
    {
        groups.push(0);
        assert(with_head + Seq::new((k + 1) as nat, |j: int| 0u16) =~= (with_head + Seq::new(
            k as nat,
            |j: int| 0u16,
        )).push(0));
        k = k + 1;
    }
    let ghost with_zeros = groups@;
    k = 0;
    while k < tail.len()
        invariant
            k <= tail@.len(),
            groups@ == with_zeros + tail@.subrange(0, k as int),
        decreases tail.len() - k,
    {
        groups.push(tail[k]);
        assert(tail@.subrange(0, k + 1) =~= tail@.subrange(0, k as int).push(tail@[k as int]));
        k = k + 1;
    }
    assert(head@.subrange(0, head@.len() as int) =~= head@);
    assert(tail@.subrange(0, tail@.len() as int) =~= tail@);
    assert(groups@ =~= head@ + Seq::new((8 - head@.len() - tail@.len()) as nat, |j: int| 0u16)
        + tail@);
    Some(groups_to_bytes(&groups))
}


/// An IPv4 address has four bytes.
pub proof fn lemma_parse_ipv4_len(s: Seq<char>)
    ensures
        spec_parse_ipv4(s) matches Some(b) ==> b.len() == 4,
{
    lemma_read_v4_len(s, 0);
}

} // verus!
