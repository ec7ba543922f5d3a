//! A small display-filter language evaluated over the index columns.
//!
//! ```text
//! tcp                    protocol: tcp udp dns icmp icmpv6 arp ipv4 ipv6 other
//! syn  fin  rst  psh  ack  urg         TCP flag set
//! 10.0.0.4               any address match (source or destination)
//! 10.0.0.0/24  2001:db8::/32           address ranges
//! host X   src X   dst X               address, either side / source / destination
//! port 443   sport 443   dport 443     TCP/UDP ports
//! len > 1000                           packet length on the wire (> >= < <= = ==)
//! not X   X and Y   X or Y   ( ... )   also ! && ||
//! ```
//! `not` binds tighter than `and`, which binds tighter than `or`.

use vstd::prelude::*;

use crate::addr::{parse_ipv4, parse_ipv6, parse_uint, spec_parse_ipv4, spec_parse_ipv6, spec_parse_uint};
use crate::capture::{IndexView, PacketIndex, PacketRecord};
use crate::chars::{
    ascii_lower, ascii_lower_seq, byte_offset, char_is_alphanumeric, utf8_width, char_is_whitespace, chars_of, is_alphanumeric,
    is_whitespace, lemma_byte_offset_bounds, lemma_byte_offset_step, lower_word, width, word_is,
};
use crate::dissect::{
    MetaView, PROTO_ARP, PROTO_DNS, PROTO_ICMP, PROTO_ICMPV6, PROTO_OTHER, PROTO_TCP, PROTO_UDP,
};
use crate::text::{push_char, push_decimal, push_str, spec_decimal, string_of};

verus! {

#[derive(Debug)]
pub struct FilterError {
    pub message: String,
    /// Byte offset into the query where the problem starts.
    pub position: usize,
}

impl FilterError {
    /// The message with the 1-based character position, as shown to users.
    pub fn to_text(&self) -> (s: String)
        requires
            self.position < usize::MAX,
        ensures
            s@ == self.message@ + " (at character "@ + spec_decimal(self.position as nat + 1) + ")"@,
    {
        let mut s = string_of(self.message.as_str());
        push_str(&mut s, " (at character ");
        push_decimal(&mut s, self.position as u64 + 1);
        push_str(&mut s, ")");
        s
    }
}

/// A comparison of the packet length with a number.
#[derive(Debug, Clone, Copy, PartialEq, Eq, Structural)]
pub enum Relation {
    Gt,
    Ge,
    Lt,
    Le,
    Eq,
}

#[derive(Debug, Clone, Copy, PartialEq, Eq, Structural)]
pub enum Side {
    Src,
    Dst,
    Either,
}

#[derive(Debug, Clone, Copy, PartialEq, Eq, Structural)]
pub enum ProtoTest {
    Exact(u8),
    /// UDP, including DNS (which is UDP on port 53).
    Udp,
    Ipv4,
    Ipv6,
}

/// An address range: version, the address bytes (IPv4 in the first 4), and
/// the prefix length in bits.
#[derive(Debug, Clone, Copy)]
pub struct Cidr {
    pub version: u8,
    pub bytes: [u8; 16],
    pub prefix_bits: u8,
}

/// A filter expression.
#[derive(Debug)]
pub enum Expr {
    Proto(ProtoTest),
    Flag(u16),
    Addr(Side, Cidr),
    Port(Side, u16),
    Len(Relation, u32),
    Not(Box<Expr>),
    And(Box<Expr>, Box<Expr>),
    Or(Box<Expr>, Box<Expr>),
}

/// A parsed filter.
pub struct Filter(Expr);

/// The mathematical value of a [`Cidr`].
pub struct CidrV {
    pub version: u8,
    pub bytes: Seq<u8>,
    pub prefix_bits: u8,
}

/// The mathematical value of an [`Expr`].
pub enum ExprV {
    Proto(ProtoTest),
    Flag(u16),
    Addr(Side, CidrV),
    Port(Side, u16),
    Len(Relation, u32),
    Not(Box<ExprV>),
    And(Box<ExprV>, Box<ExprV>),
    Or(Box<ExprV>, Box<ExprV>),
}

pub open spec fn cidr_view(c: Cidr) -> CidrV {
    CidrV { version: c.version, bytes: c.bytes@, prefix_bits: c.prefix_bits }
}

pub open spec fn expr_view(e: Expr) -> ExprV
    decreases e,
{
    match e {
        Expr::Proto(t) => ExprV::Proto(t),
        Expr::Flag(b) => ExprV::Flag(b),
        Expr::Addr(s, c) => ExprV::Addr(s, cidr_view(c)),
        Expr::Port(s, n) => ExprV::Port(s, n),
        Expr::Len(r, n) => ExprV::Len(r, n),
        Expr::Not(a) => ExprV::Not(Box::new(expr_view(*a))),
        Expr::And(a, b) => ExprV::And(Box::new(expr_view(*a)), Box::new(expr_view(*b))),
        Expr::Or(a, b) => ExprV::Or(Box::new(expr_view(*a)), Box::new(expr_view(*b))),
    }
}

// ---------------------------------------------------------------- lexer

#[derive(Debug)]
pub enum Tok {
    Word(Vec<char>),
    LParen,
    RParen,
    Not,
    And,
    Or,
    Op(Relation),
}

/// The mathematical value of a [`Tok`].
pub enum TokV {
    Word(Seq<char>),
    LParen,
    RParen,
    Not,
    And,
    Or,
    Op(Relation),
}

pub open spec fn tok_view(t: Tok) -> TokV {
    match t {
        Tok::Word(w) => TokV::Word(w@),
        Tok::LParen => TokV::LParen,
        Tok::RParen => TokV::RParen,
        Tok::Not => TokV::Not,
        Tok::And => TokV::And,
        Tok::Or => TokV::Or,
        Tok::Op(r) => TokV::Op(r),
    }
}

pub open spec fn toks_view(ts: Seq<(Tok, usize)>) -> Seq<(TokV, int)> {
    ts.map_values(|p: (Tok, usize)| (tok_view(p.0), p.1 as int))
}

/// Characters that make up words: alphanumerics and `. : / _`.
pub open spec fn is_word_char(c: char) -> bool {
    char_is_alphanumeric(c) || c == '.' || c == ':' || c == '/' || c == '_'
}

/// The end of the word that starts at `i`.
pub open spec fn word_end(cs: Seq<char>, i: int) -> int
    decreases cs.len() - i,
{
    if 0 <= i < cs.len() && is_word_char(cs[i]) {
        word_end(cs, i + 1)
    } else {
        i
    }
}

/// A word, or the keyword it spells in any ASCII case.
pub open spec fn word_tok(w: Seq<char>) -> TokV {
    let l = ascii_lower_seq(w);
    if l == "and"@ {
        TokV::And
    } else if l == "or"@ {
        TokV::Or
    } else if l == "not"@ {
        TokV::Not
    } else {
        TokV::Word(w)
    }
}

pub open spec fn cons_tok(t: (TokV, int), r: Result<Seq<(TokV, int)>, (char, int)>) -> Result<
    Seq<(TokV, int)>,
    (char, int),
> {
    match r {
        Ok(ts) => Ok(seq![t] + ts),
        Err(e) => Err(e),
    }
}

pub open spec fn next_is(cs: Seq<char>, i: int, c: char) -> bool {
    i + 1 < cs.len() && cs[i + 1] == c
}

/// The tokens of the query from character `i` on, each with its byte
/// offset; or the first character that cannot start a token.
pub open spec fn lex_from(cs: Seq<char>, i: int) -> Result<Seq<(TokV, int)>, (char, int)>
    decreases cs.len() - i,
{
    if i < 0 || i >= cs.len() {
        Ok(Seq::empty())
    } else {
        let c = cs[i];
        let pos = byte_offset(cs, i);
        if char_is_whitespace(c) {
            lex_from(cs, i + 1)
        } else if c == '(' {
            cons_tok((TokV::LParen, pos), lex_from(cs, i + 1))
        } else if c == ')' {
            cons_tok((TokV::RParen, pos), lex_from(cs, i + 1))
        } else if c == '!' {
            cons_tok((TokV::Not, pos), lex_from(cs, i + 1))
        } else if c == '&' && next_is(cs, i, '&') {
            cons_tok((TokV::And, pos), lex_from(cs, i + 2))
        } else if c == '|' && next_is(cs, i, '|') {
            cons_tok((TokV::Or, pos), lex_from(cs, i + 2))
        } else if c == '>' || c == '<' {
            let with_eq = next_is(cs, i, '=');
            let op = if c == '>' && !with_eq {
                Relation::Gt
            } else if c == '>' {
                Relation::Ge
            } else if !with_eq {
                Relation::Lt
            } else {
                Relation::Le
            };
            cons_tok(
                (TokV::Op(op), pos),
                lex_from(
                    cs,
                    if with_eq {
                        i + 2
                    } else {
                        i + 1
                    },
                ),
            )
        } else if c == '=' {
            cons_tok(
                (TokV::Op(Relation::Eq), pos),
                lex_from(
                    cs,
                    if next_is(cs, i, '=') {
                        i + 2
                    } else {
                        i + 1
                    },
                ),
            )
        } else if is_word_char(c) {
            let j = word_end(cs, i);
            if j <= i || j > cs.len() {
                // cannot happen: the word holds at least `c` and ends in the query
                Ok(Seq::empty())
            } else {
                cons_tok((word_tok(cs.subrange(i, j)), pos), lex_from(cs, j))
            }
        } else {
            Err((c, pos))
        }
    }
}


pub open spec fn prepend_toks(
    pre: Seq<(TokV, int)>,
    r: Result<Seq<(TokV, int)>, (char, int)>,
) -> Result<Seq<(TokV, int)>, (char, int)> {
    match r {
        Ok(ts) => Ok(pre + ts),
        Err(e) => Err(e),
    }
}

pub open spec fn msg_unexpected_char(c: char) -> Seq<char> {
    "Unexpected character '"@ + seq![c] + "'"@
}

/// A string holding the characters.
pub fn string_of_chars(w: &[char]) -> (s: String)
    ensures
        s@ == w@,
{
    let mut s = String::new();
    let mut i: usize = 0;
    while i < w.len()
        invariant
            i <= w@.len(),
            s@ == w@.subrange(0, i as int),
        decreases w.len() - i,
    {
        push_char(&mut s, w[i]);
        assert(w@.subrange(0, i + 1) =~= w@.subrange(0, i as int).push(w@[i as int]));
        i = i + 1;
    }
    assert(w@.subrange(0, w@.len() as int) =~= w@);
    s
}

/// The characters `w[from..to]`.
pub fn copy_chars(w: &[char], from: usize, to: usize) -> (r: Vec<char>)
    requires
        from <= to <= w@.len(),
    ensures
        r@ == w@.subrange(from as int, to as int),
{
    let mut r: Vec<char> = Vec::new();
    let mut i: usize = from;
    while i < to
        invariant
            from <= i <= to <= w@.len(),
            r@ == w@.subrange(from as int, i as int),
        decreases to - i,
    {
        r.push(w[i]);
        assert(w@.subrange(from as int, i + 1) =~= w@.subrange(from as int, i as int).push(
            w@[i as int],
        ));
        i = i + 1;
    }
    r
}

fn is_word_ch(c: char) -> (b: bool)
    ensures
        b == is_word_char(c),
{
    is_alphanumeric(c) || c == '.' || c == ':' || c == '/' || c == '_'
}

fn keyword_or_word(w: Vec<char>) -> (t: Tok)
    ensures
        tok_view(t) == word_tok(w@),
{
    let l = lower_word(&w);
    if word_is(&l, "and") {
        Tok::And
    } else if word_is(&l, "or") {
        Tok::Or
    } else if word_is(&l, "not") {
        Tok::Not
    } else {
        Tok::Word(w)
    }
}

proof fn lemma_word_end(cs: Seq<char>, i: int, k: int)
    requires
        0 <= i <= k <= cs.len(),
        forall|m: int| i <= m < k ==> is_word_char(#[trigger] cs[m]),
        k == cs.len() || !is_word_char(cs[k]),
    ensures
        word_end(cs, i) == k,
    decreases k - i,
{
    if i < k {
        lemma_word_end(cs, i + 1, k);
    }
}

/// Split the query into tokens with their byte offsets.
fn lex(q: &str) -> (r: Result<Vec<(Tok, usize)>, FilterError>)
    ensures
        match lex_from(q@, 0) {
            Ok(ts) => r matches Ok(v) && toks_view(v@) == ts,
            Err((c, p)) => r matches Err(e) && e.message@ == msg_unexpected_char(c) && e.position
                == p,
        },
        r matches Ok(v) ==> forall|k: int| 0 <= k < v@.len() ==> #[trigger] v@[k].1 <= q.len(),
        r matches Err(e) ==> e.position <= q.len(),
{
    let chars = chars_of(q);
    let bytes = q.as_bytes();
    let total = bytes.len();
    let mut out: Vec<(Tok, usize)> = Vec::new();
    let mut i: usize = 0;
    let mut pos: usize = 0;
    proof {
        assert(q@.take(0) =~= Seq::<char>::empty());
        assert(toks_view(out@) =~= Seq::<(TokV, int)>::empty());
        assert(prepend_toks(toks_view(out@), lex_from(q@, 0)) == lex_from(q@, 0)) by {
            match lex_from(q@, 0) {
                Ok(ts) => {
                    assert(Seq::<(TokV, int)>::empty() + ts =~= ts);
                },
                Err(e) => {},
            }
        }
    }
    while i < chars.len()
        invariant
            chars@ == q@,
            total == vstd::utf8::encode_utf8(q@).len(),
            i <= chars@.len(),
            pos == byte_offset(q@, i as int),
            pos <= total,
            lex_from(q@, 0) == prepend_toks(toks_view(out@), lex_from(q@, i as int)),
            total == q.len(),
            forall|k: int| 0 <= k < out@.len() ==> #[trigger] out@[k].1 <= pos,
        decreases chars.len() - i,
    {
        let c = chars[i];
        proof {
            lemma_byte_offset_step(q@, i as int);
        }
        let w1 = width(c);
        let next_eq = |d: char| -> (b: bool)
            ensures
                b == next_is(q@, i as int, d),
            { i + 1 < chars.len() && chars[i + 1] == d };
        let ghost before = toks_view(out@);
        if is_whitespace(c) {
            i = i + 1;
            pos = pos + w1;
        } else if c == '(' || c == ')' || c == '!' {
            let t = if c == '(' {
                Tok::LParen
            } else if c == ')' {
                Tok::RParen
            } else {
                Tok::Not
            };
            let ghost tv = tok_view(t);
            out.push((t, pos));
            assert(toks_view(out@) =~= before.push((tv, pos as int)));
            proof {
                lemma_prepend_push(before, (tv, pos as int), lex_from(q@, i + 1));
            }
            i = i + 1;
            pos = pos + w1;
        } else if (c == '&' && next_eq('&')) || (c == '|' && next_eq('|')) {
            let t = if c == '&' {
                Tok::And
            } else {
                Tok::Or
            };
            let ghost tv = tok_view(t);
            out.push((t, pos));
            assert(toks_view(out@) =~= before.push((tv, pos as int)));
            proof {
                lemma_byte_offset_step(q@, i + 1);
                lemma_prepend_push(before, (tv, pos as int), lex_from(q@, i + 2));
            }
            let w2 = width(chars[i + 1]);
            i = i + 2;
            pos = pos + w1 + w2;
        } else if c == '>' || c == '<' || c == '=' {
            let with_eq = next_eq('=');
            let op = if c == '=' {
                Relation::Eq
            } else if c == '>' && !with_eq {
                Relation::Gt
            } else if c == '>' {
                Relation::Ge
            } else if !with_eq {
                Relation::Lt
            } else {
                Relation::Le
            };
            out.push((Tok::Op(op), pos));
            assert(toks_view(out@) =~= before.push((TokV::Op(op), pos as int)));
            if with_eq {
                proof {
                    lemma_byte_offset_step(q@, i + 1);
                    lemma_prepend_push(before, (TokV::Op(op), pos as int), lex_from(q@, i + 2));
                }
                let w2 = width(chars[i + 1]);
                i = i + 2;
                pos = pos + w1 + w2;
            } else {
                proof {
                    lemma_prepend_push(before, (TokV::Op(op), pos as int), lex_from(q@, i + 1));
                }
                i = i + 1;
                pos = pos + w1;
            }
        } else if is_word_ch(c) {
            let start = i;
            let start_pos = pos;
            while i < chars.len() && is_word_ch(chars[i])
                invariant
                    chars@ == q@,
                    total == vstd::utf8::encode_utf8(q@).len(),
                    start < chars@.len(),
                    start <= i <= chars@.len(),
                    pos == byte_offset(q@, i as int),
                    pos <= total,
                    start_pos <= pos,
                    forall|m: int| start <= m < i ==> is_word_char(#[trigger] q@[m]),
                    is_word_char(q@[start as int]),
                decreases chars.len() - i,
            {
                proof {
                    lemma_byte_offset_step(q@, i as int);
                }
                pos = pos + width(chars[i]);
                i = i + 1;
            }
            proof {
                lemma_word_end(q@, start as int, i as int);
            }
            let w = copy_chars(chars.as_slice(), start, i);
            let t = keyword_or_word(w);
            let ghost tv = tok_view(t);
            out.push((t, start_pos));
            assert(toks_view(out@) =~= before.push((tv, start_pos as int)));
            proof {
                lemma_prepend_push(before, (tv, start_pos as int), lex_from(q@, i as int));
            }
        } else {
            let mut msg = string_of("Unexpected character '");
            push_char(&mut msg, c);
            push_str(&mut msg, "'");
            return Err(FilterError { message: msg, position: pos });
        }
    }
    proof {
        assert(lex_from(q@, i as int) == Ok::<Seq<(TokV, int)>, (char, int)>(Seq::empty()));
        assert(toks_view(out@) + Seq::<(TokV, int)>::empty() =~= toks_view(out@));
    }
    Ok(out)
}

proof fn lemma_prepend_push(
    pre: Seq<(TokV, int)>,
    t: (TokV, int),
    rest: Result<Seq<(TokV, int)>, (char, int)>,
)
    ensures
        prepend_toks(pre, cons_tok(t, rest)) == prepend_toks(pre.push(t), rest),
{
    match rest {
        Ok(ts) => {
            assert(pre + (seq![t] + ts) =~= pre.push(t) + ts);
        },
        Err(e) => {},
    }
}


// ---------------------------------------------------------------- parser

/// Why a query was rejected.
pub enum FilterErrorKind {
    UnexpectedChar(char),
    EndsEarly,
    ExpectedRParen,
    MissingRParen,
    UnexpectedRParen,
    TermBeforeAndOr,
    UnexpectedOp,
    UnexpectedNot,
    /// keyword, what was expected
    ExpectedAfter(Seq<char>, Seq<char>),
    NotAPort(Seq<char>),
    ExpectedComparison,
    NotANumber(Seq<char>),
    UnknownTerm(Seq<char>),
    BadPrefix(Seq<char>),
    V4PrefixTooLong,
    V6PrefixTooLong,
    BadAddress(Seq<char>),
    Trailing,
}

/// The message shown for each kind of error.
pub open spec fn error_message(k: FilterErrorKind) -> Seq<char> {
    match k {
        FilterErrorKind::UnexpectedChar(c) => msg_unexpected_char(c),
        FilterErrorKind::EndsEarly => "The filter ends too early; expected a term"@,
        FilterErrorKind::ExpectedRParen => "Expected ')'"@,
        FilterErrorKind::MissingRParen => "Missing closing ')'"@,
        FilterErrorKind::UnexpectedRParen => "Unexpected ')'"@,
        FilterErrorKind::TermBeforeAndOr => "Expected a term before 'and' / 'or'"@,
        FilterErrorKind::UnexpectedOp => "Unexpected comparison operator"@,
        FilterErrorKind::UnexpectedNot => "Unexpected 'not'"@,
        FilterErrorKind::ExpectedAfter(kw, what) => "Expected "@ + what + " after '"@ + kw + "'"@,
        FilterErrorKind::NotAPort(w) => "'"@ + w + "' is not a port number (0 to 65535)"@,
        FilterErrorKind::ExpectedComparison => "Expected a comparison such as > or < after 'len'"@,
        FilterErrorKind::NotANumber(w) => "'"@ + w + "' is not a number"@,
        FilterErrorKind::UnknownTerm(w) => "Unknown term '"@ + w
            + "'. Try tcp, udp, dns, icmp, arp, ipv4, ipv6, an address, port N, or len > N"@,
        FilterErrorKind::BadPrefix(p) => "'"@ + p + "' is not a valid prefix length"@,
        FilterErrorKind::V4PrefixTooLong => "An IPv4 prefix length is at most 32"@,
        FilterErrorKind::V6PrefixTooLong => "An IPv6 prefix length is at most 128"@,
        FilterErrorKind::BadAddress(w) => "'"@ + w + "' is not a valid IPv4 or IPv6 address"@,
        FilterErrorKind::Trailing => "Unexpected text; combine terms with 'and' or 'or'"@,
    }
}

/// A parse result: the expression and the position of the next token, or
/// the error and its byte offset.
pub type PResult = Result<(ExprV, int), (FilterErrorKind, int)>;

pub open spec fn tok_at(t: Seq<(TokV, int)>, at: int) -> Option<(TokV, int)> {
    if 0 <= at < t.len() {
        Some(t[at])
    } else {
        None
    }
}

/// `or` alternatives: `and (or and)*`.
pub open spec fn p_or(t: Seq<(TokV, int)>, at: int, end: int) -> PResult
    decreases t.len() - at, 3int,
{
    match p_and(t, at, end) {
        Err(e) => Err(e),
        Ok((l, a)) => if a <= at || a > t.len() {
            // cannot happen: a term takes at least one token
            Ok((l, a))
        } else {
            p_or_rest(t, a, end, l)
        },
    }
}

pub open spec fn p_or_rest(t: Seq<(TokV, int)>, at: int, end: int, left: ExprV) -> PResult
    decreases t.len() - at, 4int,
{
    if 0 <= at < t.len() && t[at].0 is Or {
        match p_and(t, at + 1, end) {
            Err(e) => Err(e),
            Ok((r, a)) => if a <= at || a > t.len() {
                Ok((r, a))
            } else {
                p_or_rest(t, a, end, ExprV::Or(Box::new(left), Box::new(r)))
            },
        }
    } else {
        Ok((left, at))
    }
}

/// `and` conjunctions: `unary (and unary)*`.
pub open spec fn p_and(t: Seq<(TokV, int)>, at: int, end: int) -> PResult
    decreases t.len() - at, 2int,
{
    match p_unary(t, at, end) {
        Err(e) => Err(e),
        Ok((l, a)) => if a <= at || a > t.len() {
            Ok((l, a))
        } else {
            p_and_rest(t, a, end, l)
        },
    }
}

pub open spec fn p_and_rest(t: Seq<(TokV, int)>, at: int, end: int, left: ExprV) -> PResult
    decreases t.len() - at, 3int,
{
    if 0 <= at < t.len() && t[at].0 is And {
        match p_unary(t, at + 1, end) {
            Err(e) => Err(e),
            Ok((r, a)) => if a <= at || a > t.len() {
                Ok((r, a))
            } else {
                p_and_rest(t, a, end, ExprV::And(Box::new(left), Box::new(r)))
            },
        }
    } else {
        Ok((left, at))
    }
}

/// `not`* primary.
pub open spec fn p_unary(t: Seq<(TokV, int)>, at: int, end: int) -> PResult
    decreases t.len() - at, 1int,
{
    if 0 <= at < t.len() && t[at].0 is Not {
        match p_unary(t, at + 1, end) {
            Err(e) => Err(e),
            Ok((e, a)) => Ok((ExprV::Not(Box::new(e)), a)),
        }
    } else {
        p_primary(t, at, end)
    }
}

/// A parenthesised expression or a term.
pub open spec fn p_primary(t: Seq<(TokV, int)>, at: int, end: int) -> PResult
    decreases t.len() - at, 0int,
{
    if 0 <= at < t.len() {
        let (tok, pos) = t[at];
        match tok {
            TokV::LParen => match p_or(t, at + 1, end) {
                Err(e) => Err(e),
                Ok((inner, a)) => match tok_at(t, a) {
                    Some((TokV::RParen, _)) => Ok((inner, a + 1)),
                    Some((_, p)) => Err((FilterErrorKind::ExpectedRParen, p)),
                    None => Err((FilterErrorKind::MissingRParen, end)),
                },
            },
            TokV::Word(w) => p_atom(t, at + 1, end, w, pos),
            TokV::RParen => Err((FilterErrorKind::UnexpectedRParen, pos)),
            TokV::And => Err((FilterErrorKind::TermBeforeAndOr, pos)),
            TokV::Or => Err((FilterErrorKind::TermBeforeAndOr, pos)),
            TokV::Op(_) => Err((FilterErrorKind::UnexpectedOp, pos)),
            TokV::Not => Err((FilterErrorKind::UnexpectedNot, pos)),
        }
    } else {
        Err((FilterErrorKind::EndsEarly, end))
    }
}

/// The word after a keyword.
pub open spec fn word_after(
    t: Seq<(TokV, int)>,
    at: int,
    end: int,
    keyword: Seq<char>,
    kw_pos: int,
    what: Seq<char>,
) -> Result<(Seq<char>, int), (FilterErrorKind, int)> {
    match tok_at(t, at) {
        Some((TokV::Word(w), p)) => Ok((w, p)),
        Some((_, p)) => Err((FilterErrorKind::ExpectedAfter(keyword, what), p)),
        None => Err(
            (
                FilterErrorKind::ExpectedAfter(keyword, what),
                if end >= kw_pos {
                    end
                } else {
                    kw_pos
                },
            ),
        ),
    }
}

pub open spec fn proto_term(t: ProtoTest, at: int) -> PResult {
    Ok((ExprV::Proto(t), at))
}

/// The side a `port`/`host` style keyword names.
pub open spec fn side_of(lower: Seq<char>) -> Side {
    if lower == "sport"@ || lower == "src"@ {
        Side::Src
    } else if lower == "dport"@ || lower == "dst"@ {
        Side::Dst
    } else {
        Side::Either
    }
}

/// A term starting with word `w` (at byte `pos`); `at` is the token after it.
pub open spec fn p_atom(t: Seq<(TokV, int)>, at: int, end: int, w: Seq<char>, pos: int) -> PResult {
    let lower = ascii_lower_seq(w);
    if lower == "tcp"@ {
        proto_term(ProtoTest::Exact(PROTO_TCP), at)
    } else if lower == "udp"@ {
        proto_term(ProtoTest::Udp, at)
    } else if lower == "dns"@ {
        proto_term(ProtoTest::Exact(PROTO_DNS), at)
    } else if lower == "icmp"@ {
        proto_term(ProtoTest::Exact(PROTO_ICMP), at)
    } else if lower == "icmpv6"@ {
        proto_term(ProtoTest::Exact(PROTO_ICMPV6), at)
    } else if lower == "arp"@ {
        proto_term(ProtoTest::Exact(PROTO_ARP), at)
    } else if lower == "other"@ {
        proto_term(ProtoTest::Exact(PROTO_OTHER), at)
    } else if lower == "ipv4"@ {
        proto_term(ProtoTest::Ipv4, at)
    } else if lower == "ipv6"@ {
        proto_term(ProtoTest::Ipv6, at)
    } else if lower == "fin"@ {
        Ok((ExprV::Flag(0x01), at))
    } else if lower == "syn"@ {
        Ok((ExprV::Flag(0x02), at))
    } else if lower == "rst"@ {
        Ok((ExprV::Flag(0x04), at))
    } else if lower == "psh"@ {
        Ok((ExprV::Flag(0x08), at))
    } else if lower == "ack"@ {
        Ok((ExprV::Flag(0x10), at))
    } else if lower == "urg"@ {
        Ok((ExprV::Flag(0x20), at))
    } else if lower == "port"@ || lower == "sport"@ || lower == "dport"@ {
        match word_after(t, at, end, lower, pos, "a port number"@) {
            Err(e) => Err(e),
            Ok((w2, p)) => match spec_parse_uint(w2, 65535) {
                Some(n) => Ok((ExprV::Port(side_of(lower), n as u16), at + 1)),
                None => Err((FilterErrorKind::NotAPort(w2), p)),
            },
        }
    } else if lower == "len"@ || lower == "length"@ {
        match tok_at(t, at) {
            Some((TokV::Op(op), _)) => match word_after(t, at + 1, end, "len"@, pos, "a number"@) {
                Err(e) => Err(e),
                Ok((w2, p)) => match spec_parse_uint(w2, u32::MAX as int) {
                    Some(n) => Ok((ExprV::Len(op, n as u32), at + 2)),
                    None => Err((FilterErrorKind::NotANumber(w2), p)),
                },
            },
            Some((_, p)) => Err((FilterErrorKind::ExpectedComparison, p)),
            None => Err((FilterErrorKind::ExpectedComparison, end)),
        }
    } else if lower == "host"@ || lower == "src"@ || lower == "dst"@ {
        match word_after(t, at, end, lower, pos, "an address"@) {
            Err(e) => Err(e),
            Ok((w2, p)) => match spec_parse_cidr(w2, p) {
                Ok(c) => Ok((ExprV::Addr(side_of(lower), c), at + 1)),
                Err(e) => Err(e),
            },
        }
    } else if w.contains('.') || w.contains(':') {
        match spec_parse_cidr(w, pos) {
            Ok(c) => Ok((ExprV::Addr(Side::Either, c), at)),
            Err(e) => Err(e),
        }
    } else {
        Err((FilterErrorKind::UnknownTerm(w), pos))
    }
}

/// Index of the first `/` at or after `i`, or the length when there is none.
pub open spec fn first_slash(w: Seq<char>, i: int) -> int
    decreases w.len() - i,
{
    if 0 <= i < w.len() && w[i] != '/' {
        first_slash(w, i + 1)
    } else {
        i
    }
}

/// An address or address range `addr[/prefix]`.
pub open spec fn spec_parse_cidr(w: Seq<char>, pos: int) -> Result<CidrV, (FilterErrorKind, int)> {
    let k = first_slash(w, 0);
    let has_prefix = k < w.len();
    let addr = if has_prefix {
        w.take(k)
    } else {
        w
    };
    let prefix_text = w.skip(k + 1);
    if has_prefix && spec_parse_uint(prefix_text, 255) is None {
        Err((FilterErrorKind::BadPrefix(prefix_text), pos))
    } else {
        let prefix: Option<int> = if has_prefix {
            spec_parse_uint(prefix_text, 255)
        } else {
            None
        };
        match spec_parse_ipv4(addr) {
            Some(b) => {
                let bits = match prefix {
                    Some(n) => n,
                    None => 32,
                };
                if bits > 32 {
                    Err((FilterErrorKind::V4PrefixTooLong, pos))
                } else {
                    Ok(CidrV { version: 4, bytes: b + Seq::new(12, |i: int| 0u8), prefix_bits: bits as u8 })
                }
            },
            None => if addr.contains(':') && spec_parse_ipv6(addr) is Some {
                let bits = match prefix {
                    Some(n) => n,
                    None => 128,
                };
                if bits > 128 {
                    Err((FilterErrorKind::V6PrefixTooLong, pos))
                } else {
                    Ok(CidrV { version: 6, bytes: spec_parse_ipv6(addr)->0, prefix_bits: bits as u8 })
                }
            } else {
                Err((FilterErrorKind::BadAddress(w), pos))
            },
        }
    }
}

/// The whole query: `None` when it holds no tokens.
pub open spec fn spec_parse_filter(q: Seq<char>, end: int) -> Result<Option<ExprV>, (FilterErrorKind, int)> {
    match lex_from(q, 0) {
        Err((c, p)) => Err((FilterErrorKind::UnexpectedChar(c), p)),
        Ok(t) => if t.len() == 0 {
            Ok(None)
        } else {
            match p_or(t, 0, end) {
                Err(e) => Err(e),
                Ok((e, a)) => if 0 <= a < t.len() {
                    Err((FilterErrorKind::Trailing, t[a].1))
                } else {
                    Ok(Some(e))
                },
            }
        },
    }
}


/// Addresses in a parsed filter are 16 bytes with a prefix that fits their
/// version.
pub open spec fn cidr_wf(c: CidrV) -> bool {
    &&& c.bytes.len() == 16
    &&& (c.version == 4 && c.prefix_bits <= 32) || (c.version == 6 && c.prefix_bits <= 128)
}

pub open spec fn expr_wf(e: ExprV) -> bool
    decreases e,
{
    match e {
        ExprV::Addr(_, c) => cidr_wf(c),
        ExprV::Not(a) => expr_wf(*a),
        ExprV::And(a, b) => expr_wf(*a) && expr_wf(*b),
        ExprV::Or(a, b) => expr_wf(*a) && expr_wf(*b),
        _ => true,
    }
}

/// An executable parse result agrees with the specified one.
pub open spec fn result_matches(r: Result<Expr, FilterError>, at: usize, spec: PResult) -> bool {
    match spec {
        Ok((e, a)) => r matches Ok(x) && expr_view(x) == e && at == a && expr_wf(e),
        Err((k, p)) => r matches Err(fe) && fe.message@ == error_message(k) && fe.position == p,
    }
}

fn fail(msg: &str, position: usize) -> (e: FilterError)
    ensures
        e.message@ == msg@,
        e.position == position,
{
    FilterError { message: string_of(msg), position }
}

fn fail_quoted(pre: &str, w: &[char], post: &str, position: usize) -> (e: FilterError)
    ensures
        e.message@ == pre@ + w@ + post@,
        e.position == position,
{
    let mut m = string_of(pre);
    let ws = string_of_chars(w);
    push_str(&mut m, ws.as_str());
    push_str(&mut m, post);
    FilterError { message: m, position }
}

fn copy_tok(t: &Tok) -> (r: Tok)
    ensures
        tok_view(r) == tok_view(*t),
{
    match t {
        Tok::Word(w) => {
            let c = copy_chars(w.as_slice(), 0, w.len());
            assert(w@.subrange(0, w@.len() as int) =~= w@);
            Tok::Word(c)
        },
        Tok::LParen => Tok::LParen,
        Tok::RParen => Tok::RParen,
        Tok::Not => Tok::Not,
        Tok::And => Tok::And,
        Tok::Or => Tok::Or,
        Tok::Op(r) => Tok::Op(*r),
    }
}

struct Parser {
    toks: Vec<(Tok, usize)>,
    at: usize,
    end: usize,
}

impl Parser {
    spec fn t(&self) -> Seq<(TokV, int)> {
        toks_view(self.toks@)
    }

    /// Every token starts inside the query.
    spec fn positions_ok(&self) -> bool {
        forall|k: int| 0 <= k < self.toks@.len() ==> #[trigger] self.toks@[k].1 <= self.end
    }

    /// Whether the current token is `Or` / `And` / `Not`.
    fn peek_is(&self, which: u8) -> (b: bool)
        requires
            which <= 2,
        ensures
            b == (0 <= self.at < self.t().len() && (if which == 0 {
                self.t()[self.at as int].0 is Or
            } else if which == 1 {
                self.t()[self.at as int].0 is And
            } else {
                self.t()[self.at as int].0 is Not
            })),
            b ==> self.at < self.toks.len(),
    {
        if self.at < self.toks.len() {
            let ghost tv = self.t()[self.at as int];
            assert(tv.0 == tok_view(self.toks@[self.at as int].0));
            match &self.toks[self.at].0 {
                Tok::Or => which == 0,
                Tok::And => which == 1,
                Tok::Not => which == 2,
                _ => false,
            }
        } else {
            false
        }
    }

    fn or(&mut self) -> (r: Result<Expr, FilterError>)
        requires
            old(self).at <= old(self).toks.len(),
            old(self).positions_ok(),
        ensures
            r matches Err(e) ==> e.position <= old(self).end,
            final(self).toks == old(self).toks,
            final(self).end == old(self).end,
            final(self).at <= final(self).toks.len(),
            result_matches(r, final(self).at, p_or(old(self).t(), old(self).at as int, old(self).end as int)),
            r is Ok ==> final(self).at > old(self).at,
        decreases old(self).toks.len() - old(self).at, 3int,
    {
        let ghost t = self.t();
        let ghost at0 = self.at as int;
        let ghost end = self.end as int;
        let mut left = match self.and() {
            Ok(e) => e,
            Err(e) => return Err(e),
        };
        loop
            invariant
                self.toks == old(self).toks,
                self.end == old(self).end,
                t == self.t(),
                end == self.end,
                at0 == old(self).at,
                t == old(self).t(),
                end == old(self).end,
                at0 < self.at <= self.toks.len(),
                self.positions_ok(),
                expr_wf(expr_view(left)),
                p_or(t, at0, end) == p_or_rest(t, self.at as int, end, expr_view(left)),
        ensures
                self.toks == old(self).toks,
                self.end == old(self).end,
                at0 < self.at <= self.toks.len(),
                expr_wf(expr_view(left)),
                p_or(t, at0, end) == Ok::<(ExprV, int), (FilterErrorKind, int)>((expr_view(left), self.at as int)),
            decreases self.toks.len() - self.at,
        {
            if !self.peek_is(0) {
                break;
            }
            let ghost a = self.at as int;
            let ghost lv = expr_view(left);
            self.at = self.at + 1;
            let right = match self.and() {
                Ok(e) => e,
                Err(e) => return Err(e),
            };
            left = Expr::Or(Box::new(left), Box::new(right));
            assert(expr_view(left) == ExprV::Or(Box::new(lv), Box::new(expr_view(right))));
        }
        Ok(left)
    }

    fn and(&mut self) -> (r: Result<Expr, FilterError>)
        requires
            old(self).at <= old(self).toks.len(),
            old(self).positions_ok(),
        ensures
            r matches Err(e) ==> e.position <= old(self).end,
            final(self).toks == old(self).toks,
            final(self).end == old(self).end,
            final(self).at <= final(self).toks.len(),
            result_matches(r, final(self).at, p_and(old(self).t(), old(self).at as int, old(self).end as int)),
            r is Ok ==> final(self).at > old(self).at,
        decreases old(self).toks.len() - old(self).at, 2int,
    {
        let ghost t = self.t();
        let ghost at0 = self.at as int;
        let ghost end = self.end as int;
        let mut left = match self.unary() {
            Ok(e) => e,
            Err(e) => return Err(e),
        };
        loop
            invariant
                self.toks == old(self).toks,
                self.end == old(self).end,
                t == self.t(),
                end == self.end,
                at0 == old(self).at,
                t == old(self).t(),
                end == old(self).end,
                at0 < self.at <= self.toks.len(),
                self.positions_ok(),
                expr_wf(expr_view(left)),
                p_and(t, at0, end) == p_and_rest(t, self.at as int, end, expr_view(left)),
        ensures
                self.toks == old(self).toks,
                self.end == old(self).end,
                at0 < self.at <= self.toks.len(),
                expr_wf(expr_view(left)),
                p_and(t, at0, end) == Ok::<(ExprV, int), (FilterErrorKind, int)>((expr_view(left), self.at as int)),
            decreases self.toks.len() - self.at,
        {
            if !self.peek_is(1) {
                break;
            }
            let ghost lv = expr_view(left);
            self.at = self.at + 1;
            let right = match self.unary() {
                Ok(e) => e,
                Err(e) => return Err(e),
            };
            left = Expr::And(Box::new(left), Box::new(right));
            assert(expr_view(left) == ExprV::And(Box::new(lv), Box::new(expr_view(right))));
        }
        Ok(left)
    }

    fn unary(&mut self) -> (r: Result<Expr, FilterError>)
        requires
            old(self).at <= old(self).toks.len(),
            old(self).positions_ok(),
        ensures
            r matches Err(e) ==> e.position <= old(self).end,
            final(self).toks == old(self).toks,
            final(self).end == old(self).end,
            final(self).at <= final(self).toks.len(),
            result_matches(r, final(self).at, p_unary(old(self).t(), old(self).at as int, old(self).end as int)),
            r is Ok ==> final(self).at > old(self).at,
        decreases old(self).toks.len() - old(self).at, 1int,
    {
        if self.peek_is(2) {
            self.at = self.at + 1;
            return match self.unary() {
                Ok(e) => Ok(Expr::Not(Box::new(e))),
                Err(e) => Err(e),
            };
        }
        self.primary()
    }

    fn primary(&mut self) -> (r: Result<Expr, FilterError>)
        requires
            old(self).at <= old(self).toks.len(),
            old(self).positions_ok(),
        ensures
            r matches Err(e) ==> e.position <= old(self).end,
            final(self).toks == old(self).toks,
            final(self).end == old(self).end,
            final(self).at <= final(self).toks.len(),
            result_matches(r, final(self).at, p_primary(old(self).t(), old(self).at as int, old(self).end as int)),
            r is Ok ==> final(self).at > old(self).at,
        decreases old(self).toks.len() - old(self).at, 0int,
    {
        let at_end = self.end;
        if self.at >= self.toks.len() {
            return Err(fail("The filter ends too early; expected a term", at_end));
        }
        let tok = copy_tok(&self.toks[self.at].0);
        let pos = self.toks[self.at].1;
        self.at = self.at + 1;
        match tok {
            Tok::LParen => {
                let inner = match self.or() {
                    Ok(e) => e,
                    Err(e) => return Err(e),
                };
                if self.at < self.toks.len() {
                    let p = self.toks[self.at].1;
                    let is_close = match &self.toks[self.at].0 {
                        Tok::RParen => true,
                        _ => false,
                    };
                    if is_close {
                        self.at = self.at + 1;
                        Ok(inner)
                    } else {
                        Err(fail("Expected ')'", p))
                    }
                } else {
                    Err(fail("Missing closing ')'", self.end))
                }
            },
            Tok::Word(w) => self.atom(w, pos),
            Tok::RParen => Err(fail("Unexpected ')'", pos)),
            Tok::And => Err(fail("Expected a term before 'and' / 'or'", pos)),
            Tok::Or => Err(fail("Expected a term before 'and' / 'or'", pos)),
            Tok::Op(_) => Err(fail("Unexpected comparison operator", pos)),
            Tok::Not => Err(fail("Unexpected 'not'", pos)),
        }
    }

    fn word_after(&mut self, keyword: &Vec<char>, kw_pos: usize, what: &str) -> (r: Result<
        (Vec<char>, usize),
        FilterError,
    >)
        requires
            old(self).at <= old(self).toks.len(),
            old(self).positions_ok(),
            kw_pos <= old(self).end,
        ensures
            r matches Err(e) ==> e.position <= old(self).end,
            final(self).toks == old(self).toks,
            final(self).end == old(self).end,
            old(self).at <= final(self).at <= final(self).toks.len(),
            match word_after(old(self).t(), old(self).at as int, old(self).end as int, keyword@, kw_pos as int, what@) {
                Ok((w, p)) => r matches Ok((v, q)) && v@ == w && q == p && final(self).at == old(self).at + 1,
                Err((k, p)) => r matches Err(e) && e.message@ == error_message(k) && e.position == p,
            },
    {
        if self.at < self.toks.len() {
            let p = self.toks[self.at].1;
            let word = match &self.toks[self.at].0 {
                Tok::Word(w) => Some(copy_chars(w.as_slice(), 0, w.len())),
                _ => None,
            };
            self.at = self.at + 1;
            match word {
                Some(w) => {
                    assert(w@ =~= (self.t()[self.at - 1].0)->Word_0);
                    Ok((w, p))
                },
                None => Err(expected_after(keyword, what, p)),
            }
        } else {
            let p = if self.end >= kw_pos {
                self.end
            } else {
                kw_pos
            };
            Err(expected_after(keyword, what, p))
        }
    }

    fn atom(&mut self, word: Vec<char>, pos: usize) -> (r: Result<Expr, FilterError>)
        requires
            old(self).at <= old(self).toks.len(),
            old(self).positions_ok(),
            pos <= old(self).end,
        ensures
            r matches Err(e) ==> e.position <= old(self).end,
            final(self).toks == old(self).toks,
            final(self).end == old(self).end,
            old(self).at <= final(self).at <= final(self).toks.len(),
            result_matches(r, final(self).at, p_atom(old(self).t(), old(self).at as int, old(self).end as int, word@, pos as int)),
    {
        let lower = lower_word(&word);
        if word_is(&lower, "tcp") {
            return Ok(Expr::Proto(ProtoTest::Exact(PROTO_TCP)));
        }
        if word_is(&lower, "udp") {
            return Ok(Expr::Proto(ProtoTest::Udp));
        }
        if word_is(&lower, "dns") {
            return Ok(Expr::Proto(ProtoTest::Exact(PROTO_DNS)));
        }
        if word_is(&lower, "icmp") {
            return Ok(Expr::Proto(ProtoTest::Exact(PROTO_ICMP)));
        }
        if word_is(&lower, "icmpv6") {
            return Ok(Expr::Proto(ProtoTest::Exact(PROTO_ICMPV6)));
        }
        if word_is(&lower, "arp") {
            return Ok(Expr::Proto(ProtoTest::Exact(PROTO_ARP)));
        }
        if word_is(&lower, "other") {
            return Ok(Expr::Proto(ProtoTest::Exact(PROTO_OTHER)));
        }
        if word_is(&lower, "ipv4") {
            return Ok(Expr::Proto(ProtoTest::Ipv4));
        }
        if word_is(&lower, "ipv6") {
            return Ok(Expr::Proto(ProtoTest::Ipv6));
        }
        if word_is(&lower, "fin") {
            return Ok(Expr::Flag(0x01));
        }
        if word_is(&lower, "syn") {
            return Ok(Expr::Flag(0x02));
        }
        if word_is(&lower, "rst") {
            return Ok(Expr::Flag(0x04));
        }
        if word_is(&lower, "psh") {
            return Ok(Expr::Flag(0x08));
        }
        if word_is(&lower, "ack") {
            return Ok(Expr::Flag(0x10));
        }
        if word_is(&lower, "urg") {
            return Ok(Expr::Flag(0x20));
        }
        let is_src = word_is(&lower, "sport") || word_is(&lower, "src");
        let is_dst = word_is(&lower, "dport") || word_is(&lower, "dst");
        let side = if is_src {
            Side::Src
        } else if is_dst {
            Side::Dst
        } else {
            Side::Either
        };
        if word_is(&lower, "port") || word_is(&lower, "sport") || word_is(&lower, "dport") {
            let (w, p) = match self.word_after(&lower, pos, "a port number") {
                Ok(x) => x,
                Err(e) => return Err(e),
            };
            proof {
                assert(side == side_of(lower@));
            }
            return match parse_uint(w.as_slice(), 65535) {
                Some(n) => Ok(Expr::Port(side, n as u16)),
                None => Err(fail_quoted("'", w.as_slice(), "' is not a port number (0 to 65535)", p)),
            };
        }
        if word_is(&lower, "len") || word_is(&lower, "length") {
            if self.at >= self.toks.len() {
                return Err(fail("Expected a comparison such as > or < after 'len'", self.end));
            }
            let p = self.toks[self.at].1;
            let op = match &self.toks[self.at].0 {
                Tok::Op(op) => *op,
                _ => return Err(fail("Expected a comparison such as > or < after 'len'", p)),
            };
            self.at = self.at + 1;
            let kw = chars_of("len");
            let (w, p2) = match self.word_after(&kw, pos, "a number") {
                Ok(x) => x,
                Err(e) => return Err(e),
            };
            return match parse_uint(w.as_slice(), 0xffff_ffff) {
                Some(n) => Ok(Expr::Len(op, n)),
                None => Err(fail_quoted("'", w.as_slice(), "' is not a number", p2)),
            };
        }
        if word_is(&lower, "host") || word_is(&lower, "src") || word_is(&lower, "dst") {
            let (w, p) = match self.word_after(&lower, pos, "an address") {
                Ok(x) => x,
                Err(e) => return Err(e),
            };
            return match parse_cidr(&w, p) {
                Ok(c) => Ok(Expr::Addr(side, c)),
                Err(e) => Err(e),
            };
        }
        if contains_char(&word, '.') || contains_char(&word, ':') {
            return match parse_cidr(&word, pos) {
                Ok(c) => Ok(Expr::Addr(Side::Either, c)),
                Err(e) => Err(e),
            };
        }
        Err(fail_quoted(
            "Unknown term '",
            word.as_slice(),
            "'. Try tcp, udp, dns, icmp, arp, ipv4, ipv6, an address, port N, or len > N",
            pos,
        ))
    }
}

fn expected_after(keyword: &Vec<char>, what: &str, position: usize) -> (e: FilterError)
    ensures
        e.message@ == error_message(FilterErrorKind::ExpectedAfter(keyword@, what@)),
        e.position == position,
{
    let mut m = string_of("Expected ");
    push_str(&mut m, what);
    push_str(&mut m, " after '");
    let k = string_of_chars(keyword.as_slice());
    push_str(&mut m, k.as_str());
    push_str(&mut m, "'");
    FilterError { message: m, position }
}

fn contains_char(w: &Vec<char>, c: char) -> (b: bool)
    ensures
        b == w@.contains(c),
{
    let mut i: usize = 0;
    while i < w.len()
        invariant
            i <= w@.len(),
            forall|j: int| 0 <= j < i ==> w@[j] != c,
        decreases w.len() - i,
    {
        if w[i] == c {
            return true;
        }
        i = i + 1;
    }
    false
}

fn find_slash(w: &Vec<char>) -> (k: usize)
    ensures
        k == first_slash(w@, 0),
        k <= w@.len(),
{
    let mut i: usize = 0;
    while i < w.len() && w[i] != '/'
        invariant
            i <= w@.len(),
            first_slash(w@, i as int) == first_slash(w@, 0),
        decreases w.len() - i,
    {
        i = i + 1;
    }
    i
}

/// An address or address range `addr[/prefix]` (see [`spec_parse_cidr`]).
fn parse_cidr(w: &Vec<char>, pos: usize) -> (r: Result<Cidr, FilterError>)
    ensures
        match spec_parse_cidr(w@, pos as int) {
            Ok(c) => r matches Ok(x) && cidr_view(x) == c && cidr_wf(c),
            Err((k, p)) => r matches Err(e) && e.message@ == error_message(k) && e.position == p,
        },
        r matches Err(e) ==> e.position == pos,
{
    let k = find_slash(w);
    let has_prefix = k < w.len();
    let addr = if has_prefix {
        copy_chars(w.as_slice(), 0, k)
    } else {
        copy_chars(w.as_slice(), 0, w.len())
    };
    proof {
        assert(w@.subrange(0, w@.len() as int) =~= w@);
        assert(w@.subrange(0, k as int) =~= w@.take(k as int));
    }
    let mut prefix: Option<u32> = None;
    if has_prefix {
        let pt = copy_chars(w.as_slice(), k + 1, w.len());
        assert(pt@ =~= w@.skip(k + 1));
        match parse_uint(pt.as_slice(), 255) {
            Some(n) => {
                prefix = Some(n);
            },
            None => return Err(fail_quoted("'", pt.as_slice(), "' is not a valid prefix length", pos)),
        }
    }
    assert(has_prefix ==> (prefix matches Some(n) && spec_parse_uint(w@.skip(k + 1), 255) == Some(n as int)));
    assert(!has_prefix ==> prefix is None);
    if let Some(b) = parse_ipv4(addr.as_slice()) {
        let bits = match prefix {
            Some(n) => n,
            None => 32,
        };
        proof {
            crate::addr::lemma_parse_ipv4_len(addr@);
            assert(addr@ == (if has_prefix { w@.take(k as int) } else { w@ }));
            if has_prefix {
                assert(spec_parse_uint(w@.skip(k + 1), 255) == Some(bits as int));
            }
        }
        if bits > 32 {
            return Err(fail("An IPv4 prefix length is at most 32", pos));
        }
        let mut bytes = [0u8; 16];
        bytes[0] = b[0];
        bytes[1] = b[1];
        bytes[2] = b[2];
        bytes[3] = b[3];
        assert(bytes@ =~= b@ + Seq::new(12, |i: int| 0u8));
        return Ok(Cidr { version: 4, bytes, prefix_bits: bits as u8 });
    }
    if contains_char(&addr, ':') {
        if let Some(b6) = parse_ipv6(addr.as_slice()) {
            let bits = match prefix {
                Some(n) => n,
                None => 128,
            };
            if bits > 128 {
                return Err(fail("An IPv6 prefix length is at most 128", pos));
            }
            return Ok(Cidr { version: 6, bytes: b6, prefix_bits: bits as u8 });
        }
    }
    Err(fail_quoted("'", w.as_slice(), "' is not a valid IPv4 or IPv6 address", pos))
}


/// Parse a whole query; `None` when it holds no tokens.
fn parse_filter(query: &str) -> (r: Result<Option<Filter>, FilterError>)
    ensures
        match spec_parse_filter(query@, query.len() as int) {
            Err((k, p)) => r matches Err(e) && e.message@ == error_message(k) && e.position == p,
            Ok(None) => r matches Ok(None),
            Ok(Some(x)) => r matches Ok(Some(f)) && expr_view(f.0) == x && expr_wf(x),
        },
        r matches Err(e) ==> e.position <= query.len(),
{
    let toks = match lex(query) {
        Ok(t) => t,
        Err(e) => return Err(e),
    };
    if toks.len() == 0 {
        assert(toks_view(toks@).len() == 0);
        return Ok(None);
    }
    let mut p = Parser { toks, at: 0, end: query.len() };
    let expr = match p.or() {
        Ok(e) => e,
        Err(e) => return Err(e),
    };
    if p.at < p.toks.len() {
        let pos = p.toks[p.at].1;
        return Err(fail("Unexpected text; combine terms with 'and' or 'or'", pos));
    }
    Ok(Some(Filter(expr)))
}

// ------------------------------------------------------------- evaluation

/// The first `prefix_bits` bits of address `a` equal those of the range:
/// the whole bytes, then the top bits of the next byte.
pub open spec fn spec_prefix_matches(a: Seq<u8>, c: CidrV) -> bool {
    let full = c.prefix_bits / 8;
    let rem = c.prefix_bits % 8;
    &&& a.take(full as int) == c.bytes.take(full as int)
    &&& rem != 0 ==> (a[full as int] >> ((8 - rem) as u8)) == (c.bytes[full as int] >> ((8 - rem) as u8))
}

/// Protocols that carry ports.
pub open spec fn has_ports(proto: u8) -> bool {
    proto == PROTO_TCP || proto == PROTO_UDP || proto == PROTO_DNS
}

pub open spec fn spec_compare(op: Relation, left: u32, right: u32) -> bool {
    match op {
        Relation::Gt => left > right,
        Relation::Ge => left >= right,
        Relation::Lt => left < right,
        Relation::Le => left <= right,
        Relation::Eq => left == right,
    }
}

pub open spec fn addr_side_matches(side: Side, m: MetaView, c: CidrV) -> bool {
    match side {
        Side::Src => spec_prefix_matches(m.src, c),
        Side::Dst => spec_prefix_matches(m.dst, c),
        Side::Either => spec_prefix_matches(m.src, c) || spec_prefix_matches(m.dst, c),
    }
}

pub open spec fn port_side_matches(side: Side, m: MetaView, n: u16) -> bool {
    match side {
        Side::Src => m.src_port == n,
        Side::Dst => m.dst_port == n,
        Side::Either => m.src_port == n || m.dst_port == n,
    }
}

/// Whether a packet matches a filter expression.
pub open spec fn spec_eval(e: ExprV, r: PacketRecord) -> bool
    decreases e,
{
    let m = r.meta;
    match e {
        ExprV::Proto(t) => match t {
            ProtoTest::Exact(p) => m.proto == p,
            ProtoTest::Udp => m.proto == PROTO_UDP || m.proto == PROTO_DNS,
            // ARP carries IPv4 addresses but is not an IPv4 packet.
            ProtoTest::Ipv4 => m.ip_version == 4 && m.proto != PROTO_ARP,
            ProtoTest::Ipv6 => m.ip_version == 6,
        },
        ExprV::Flag(bit) => m.proto == PROTO_TCP && (m.detail & bit) != 0,
        ExprV::Addr(side, c) => m.ip_version == c.version && addr_side_matches(side, m, c),
        ExprV::Port(side, n) => has_ports(m.proto) && port_side_matches(side, m, n),
        ExprV::Len(op, n) => spec_compare(op, r.orig_len, n),
        ExprV::Not(a) => !spec_eval(*a, r),
        ExprV::And(a, b) => spec_eval(*a, r) && spec_eval(*b, r),
        ExprV::Or(a, b) => spec_eval(*a, r) || spec_eval(*b, r),
    }
}

/// Whether packet `r` is selected: every packet when there is no filter.
pub open spec fn selects(f: Option<ExprV>, r: PacketRecord) -> bool {
    match f {
        None => true,
        Some(e) => spec_eval(e, r),
    }
}

/// The indexes, in order, of the first `k` packets that are selected.
pub open spec fn matching_upto(f: Option<ExprV>, recs: Seq<PacketRecord>, k: int) -> Seq<u32>
    decreases k,
{
    if k <= 0 {
        Seq::empty()
    } else if selects(f, recs[k - 1]) {
        matching_upto(f, recs, k - 1).push((k - 1) as u32)
    } else {
        matching_upto(f, recs, k - 1)
    }
}

/// Address bytes `addr[base..base + 16]` fall in the range.
fn prefix_matches(addr: &Vec<u8>, base: usize, c: &Cidr) -> (b: bool)
    requires
        base + 16 <= addr.len(),
        c.prefix_bits <= 128,
    ensures
        b == spec_prefix_matches(addr@.subrange(base as int, base + 16), cidr_view(*c)),
{
    let ghost a = addr@.subrange(base as int, base + 16);
    let bits = c.prefix_bits;
    let full = (bits / 8) as usize;
    let mut k: usize = 0;
    while k < full
        invariant
            full == bits / 8,
            bits == c.prefix_bits,
            bits <= 128,
            k <= full <= 16,
            base + 16 <= addr.len(),
            a == addr@.subrange(base as int, base + 16),
            forall|j: int| 0 <= j < k ==> a[j] == c.bytes@[j],
        decreases full - k,
    {
        if addr[base + k] != c.bytes[k] {
            assert(a.take(full as int)[k as int] != c.bytes@.take(full as int)[k as int]);
            return false;
        }
        k = k + 1;
    }
    assert(a.take(full as int) =~= c.bytes@.take(full as int));
    let rem = bits % 8;
    if rem == 0 {
        return true;
    }
    let s: u8 = 8 - rem;
    (addr[base + full] >> s) == (c.bytes[full] >> s)
}

fn compare(op: Relation, left: u32, right: u32) -> (b: bool)
    ensures
        b == spec_compare(op, left, right),
{
    match op {
        Relation::Gt => left > right,
        Relation::Ge => left >= right,
        Relation::Lt => left < right,
        Relation::Le => left <= right,
        Relation::Eq => left == right,
    }
}

/// Whether packet `i` of the index matches.
fn eval(e: &Expr, idx: &PacketIndex, i: usize) -> (b: bool)
    requires
        idx.columns_ok(),
        i < idx.ts_sec@.len(),
        expr_wf(expr_view(*e)),
    ensures
        b == spec_eval(expr_view(*e), idx.record(i as int)),
    decreases e,
{
    let proto = idx.proto[i];
    match e {
        Expr::Proto(t) => match t {
            ProtoTest::Exact(p) => proto == *p,
            ProtoTest::Udp => proto == PROTO_UDP || proto == PROTO_DNS,
            ProtoTest::Ipv4 => idx.ip_version[i] == 4 && proto != PROTO_ARP,
            ProtoTest::Ipv6 => idx.ip_version[i] == 6,
        },
        Expr::Flag(bit) => proto == PROTO_TCP && (idx.detail[i] & *bit) != 0,
        Expr::Addr(side, c) => {
            if idx.ip_version[i] != c.version {
                return false;
            }
            assert(idx.addr.len() == 32 * idx.ts_sec.len());
            assert(i * 32 + 32 <= idx.addr.len());
            let base = i * 32;
            match side {
                Side::Src => prefix_matches(&idx.addr, base, c),
                Side::Dst => prefix_matches(&idx.addr, base + 16, c),
                Side::Either => prefix_matches(&idx.addr, base, c) || prefix_matches(
                    &idx.addr,
                    base + 16,
                    c,
                ),
            }
        },
        Expr::Port(side, n) => {
            let ports = proto == PROTO_TCP || proto == PROTO_UDP || proto == PROTO_DNS;
            ports && match side {
                Side::Src => idx.src_port[i] == *n,
                Side::Dst => idx.dst_port[i] == *n,
                Side::Either => idx.src_port[i] == *n || idx.dst_port[i] == *n,
            }
        },
        Expr::Len(op, n) => compare(*op, idx.orig_len[i], *n),
        Expr::Not(inner) => !eval(inner, idx, i),
        Expr::And(a, b) => eval(a, idx, i) && eval(b, idx, i),
        Expr::Or(a, b) => eval(a, idx, i) || eval(b, idx, i),
    }
}

/// The indexes `filter` gives for a parsed query: every packet, counted in
/// 32 bits, when the query is blank; otherwise the matching packets.
pub open spec fn filter_indices(f: Option<ExprV>, recs: Seq<PacketRecord>) -> Seq<u32> {
    match f {
        None => Seq::new((recs.len() as u32) as nat, |i: int| i as u32),
        Some(e) => matching_upto(Some(e), recs, recs.len() as int),
    }
}

/// Indexes of the packets matching `query`, in order. An empty query
/// matches everything.
pub fn filter(idx: &PacketIndex, query: &str) -> (r: Result<Vec<u32>, FilterError>)
    requires
        idx.columns_ok(),
    ensures
        match spec_parse_filter(query@, query.len() as int) {
            Err((k, p)) => r matches Err(e) && e.message@ == error_message(k) && e.position == p,
            Ok(f) => r matches Ok(v) && v@ == filter_indices(f, idx@.records),
        },
        r matches Err(e) ==> e.position <= query.len(),
{
    let n = idx.len();
    let parsed = match parse_filter(query) {
        Ok(f) => f,
        Err(e) => return Err(e),
    };
    let mut out: Vec<u32> = Vec::new();
    match parsed {
        None => {
            let m = n as u32;
            let mut j: u32 = 0;
            while j < m
                invariant
                    j <= m,
                    out@ == Seq::new(j as nat, |i: int| i as u32),
                decreases m - j,
            {
                out.push(j);
                assert(out@ =~= Seq::new((j + 1) as nat, |i: int| i as u32));
                j = j + 1;
            }
            assert(out@ =~= filter_indices(None, idx@.records));
        },
        Some(x) => {
            let ghost e = expr_view(x.0);
            let mut i: usize = 0;
            while i < n
                invariant
                    idx.columns_ok(),
                    n == idx.ts_sec@.len(),
                    n == idx@.records.len(),
                    i <= n,
                    e == expr_view(x.0),
                    expr_wf(e),
                    out@ == matching_upto(Some(e), idx@.records, i as int),
                decreases n - i,
            {
                let hit = eval(&x.0, idx, i);
                assert(idx@.records[i as int] == idx.record(i as int));
                if hit {
                    out.push(i as u32);
                }
                i = i + 1;
            }
        },
    }
    Ok(out)
}

// ------------------------------------------------------------------ laws

/// The indexes a filter returns are strictly increasing and below the
/// number of packets looked at, and index `i` is among them exactly when
/// packet `i` is selected.
pub proof fn law_matches_are_ordered_and_exact(f: Option<ExprV>, recs: Seq<PacketRecord>, k: int)
    requires
        0 <= k <= recs.len(),
        k <= u32::MAX + 1,
    ensures
        forall|a: int, b: int|
            0 <= a < b < matching_upto(f, recs, k).len() ==> #[trigger] matching_upto(f, recs, k)[a]
                < #[trigger] matching_upto(f, recs, k)[b],
        forall|j: int|
            0 <= j < matching_upto(f, recs, k).len() ==> #[trigger] matching_upto(f, recs, k)[j] < k,
        forall|i: int|
            0 <= i < k ==> (#[trigger] matching_upto(f, recs, k).contains(i as u32) <==> selects(
                f,
                recs[i],
            )),
    decreases k,
{
    if k > 0 {
        law_matches_are_ordered_and_exact(f, recs, k - 1);
        let prev = matching_upto(f, recs, k - 1);
        let cur = matching_upto(f, recs, k);
        assert forall|i: int| 0 <= i < k implies (cur.contains(i as u32) <==> selects(f, recs[i])) by {
            if i < k - 1 {
                if cur.contains(i as u32) {
                    let j = choose|j: int| 0 <= j < cur.len() && cur[j] == i as u32;
                    if j < prev.len() {
                        assert(prev[j] == i as u32);
                        assert(prev.contains(i as u32));
                    }
                }
                if prev.contains(i as u32) {
                    let j = choose|j: int| 0 <= j < prev.len() && prev[j] == i as u32;
                    assert(cur[j] == i as u32);
                }
            } else {
                if selects(f, recs[i]) {
                    assert(cur[cur.len() - 1] == i as u32);
                } else if cur.contains(i as u32) {
                    let j = choose|j: int| 0 <= j < cur.len() && cur[j] == i as u32;
                    assert(prev[j] < k - 1);
                }
            }
        }
    }
}

/// A query with no tokens (empty, or only whitespace) is no filter, and no
/// filter selects every packet, in order.
pub proof fn law_blank_query_selects_all(q: Seq<char>, end: int, recs: Seq<PacketRecord>)
    requires
        forall|i: int| 0 <= i < q.len() ==> char_is_whitespace(#[trigger] q[i]),
        recs.len() <= u32::MAX,
    ensures
        spec_parse_filter(q, end) == Ok::<Option<ExprV>, (FilterErrorKind, int)>(None),
        filter_indices(None, recs) == Seq::new(recs.len(), |i: int| i as u32),
        matching_upto(None, recs, recs.len() as int) == filter_indices(None, recs),
{
    lemma_blank_lexes_empty(q, 0);
    lemma_all_selected(recs, recs.len() as int);
    assert(filter_indices(None, recs) =~= Seq::new(recs.len(), |i: int| i as u32));
}

proof fn lemma_blank_lexes_empty(q: Seq<char>, i: int)
    requires
        0 <= i,
        forall|j: int| 0 <= j < q.len() ==> char_is_whitespace(#[trigger] q[j]),
    ensures
        lex_from(q, i) == Ok::<Seq<(TokV, int)>, (char, int)>(Seq::empty()),
    decreases q.len() - i,
{
    if i < q.len() {
        assert(char_is_whitespace(q[i]));
        lemma_blank_lexes_empty(q, i + 1);
    }
}

proof fn lemma_all_selected(recs: Seq<PacketRecord>, k: int)
    requires
        0 <= k <= recs.len(),
        k <= u32::MAX + 1,
    ensures
        matching_upto(None, recs, k) == Seq::new(k as nat, |i: int| i as u32),
    decreases k,
{
    if k > 0 {
        lemma_all_selected(recs, k - 1);
        assert(matching_upto(None, recs, k) =~= Seq::new(k as nat, |i: int| i as u32));
    }
}

/// An address term only matches packets of its own IP version: an IPv4
/// range never matches an IPv6 packet, and the other way round.
pub proof fn law_address_terms_keep_ip_version(side: Side, c: CidrV, r: PacketRecord)
    ensures
        spec_eval(ExprV::Addr(side, c), r) ==> r.meta.ip_version == c.version,
{
}


/// `not`, `and` and `or` select the complement, the intersection and the
/// union of what their operands select; every result is in packet order.
pub proof fn law_connectives_combine_selections(a: ExprV, b: ExprV, recs: Seq<PacketRecord>)
    requires
        recs.len() <= u32::MAX + 1,
    ensures
        forall|i: int|
            0 <= i < recs.len() ==> {
                &&& (#[trigger] filter_indices(Some(ExprV::Not(Box::new(a))), recs).contains(i as u32)
                    <==> !filter_indices(Some(a), recs).contains(i as u32))
                &&& (filter_indices(Some(ExprV::And(Box::new(a), Box::new(b))), recs).contains(i as u32)
                    <==> filter_indices(Some(a), recs).contains(i as u32) && filter_indices(Some(b), recs).contains(i as u32))
                &&& (filter_indices(Some(ExprV::Or(Box::new(a), Box::new(b))), recs).contains(i as u32)
                    <==> filter_indices(Some(a), recs).contains(i as u32) || filter_indices(Some(b), recs).contains(i as u32))
            },
{
    let n = recs.len() as int;
    let na = ExprV::Not(Box::new(a));
    let ab = ExprV::And(Box::new(a), Box::new(b));
    let oab = ExprV::Or(Box::new(a), Box::new(b));
    law_matches_are_ordered_and_exact(Some(a), recs, n);
    law_matches_are_ordered_and_exact(Some(b), recs, n);
    law_matches_are_ordered_and_exact(Some(na), recs, n);
    law_matches_are_ordered_and_exact(Some(ab), recs, n);
    law_matches_are_ordered_and_exact(Some(oab), recs, n);
    assert forall|i: int| 0 <= i < recs.len() implies {
        &&& (#[trigger] filter_indices(Some(na), recs).contains(i as u32)
            <==> !filter_indices(Some(a), recs).contains(i as u32))
        &&& (filter_indices(Some(ab), recs).contains(i as u32)
            <==> filter_indices(Some(a), recs).contains(i as u32) && filter_indices(Some(b), recs).contains(i as u32))
        &&& (filter_indices(Some(oab), recs).contains(i as u32)
            <==> filter_indices(Some(a), recs).contains(i as u32) || filter_indices(Some(b), recs).contains(i as u32))
    } by {
        assert(matching_upto(Some(na), recs, n).contains(i as u32) <==> selects(Some(na), recs[i]));
        assert(matching_upto(Some(a), recs, n).contains(i as u32) <==> selects(Some(a), recs[i]));
        assert(matching_upto(Some(b), recs, n).contains(i as u32) <==> selects(Some(b), recs[i]));
        assert(matching_upto(Some(ab), recs, n).contains(i as u32) <==> selects(Some(ab), recs[i]));
        assert(matching_upto(Some(oab), recs, n).contains(i as u32) <==> selects(Some(oab), recs[i]));
    }
}


// -------------------------------------------------------------- lexer law

/// A word may start at `i`: `i` is not inside a run of word characters.
pub open spec fn word_may_start(cs: Seq<char>, i: int) -> bool {
    i <= 0 || i >= cs.len() || !is_word_char(cs[i]) || breaks_word(cs[i - 1])
}

/// A character that no word continues across: whitespace, or not a word
/// character.
pub open spec fn breaks_word(c: char) -> bool {
    char_is_whitespace(c) || !is_word_char(c)
}

/// `w` is the whole run of word characters `cs[a..b]`, which starts at byte
/// `p` at the start of the query or after a character that breaks words,
/// and it is not one of the keywords.
pub open spec fn is_word_at(cs: Seq<char>, p: int, w: Seq<char>, a: int, b: int) -> bool {
    &&& 0 <= a < b <= cs.len()
    &&& p == byte_offset(cs, a)
    &&& w == cs.subrange(a, b)
    &&& forall|m: int| a <= m < b ==> is_word_char(#[trigger] cs[m])
    &&& b == cs.len() || !is_word_char(cs[b])
    &&& a == 0 || breaks_word(cs[a - 1])
    &&& ascii_lower_seq(w) != "and"@ && ascii_lower_seq(w) != "or"@ && ascii_lower_seq(w) != "not"@
}

/// The character at `m` begins no token.
pub open spec fn begins_no_token(cs: Seq<char>, m: int) -> bool {
    let c = cs[m];
    &&& !char_is_whitespace(c)
    &&& !is_word_char(c)
    &&& c != '(' && c != ')' && c != '!' && c != '<' && c != '>' && c != '='
    &&& c == '&' ==> !next_is(cs, m, '&')
    &&& c == '|' ==> !next_is(cs, m, '|')
}

/// Tokens read from character `i` on: byte positions strictly increase and
/// lie inside the query, and every word is a whole run of word characters.
pub open spec fn tokens_ok(cs: Seq<char>, i: int, ts: Seq<(TokV, int)>) -> bool {
    &&& forall|k: int|
        0 <= k < ts.len() ==> byte_offset(cs, i) <= #[trigger] ts[k].1 < byte_offset(
            cs,
            cs.len() as int,
        )
    &&& forall|a: int, b: int| 0 <= a < b < ts.len() ==> (#[trigger] ts[a]).1 < (#[trigger] ts[b]).1
    &&& forall|k: int|
        0 <= k < ts.len() && (#[trigger] ts[k]).0 is Word ==> exists|a: int, b: int|
            is_word_at(cs, ts[k].1, ts[k].0->Word_0, a, b)
}

proof fn lemma_width_pos(c: char)
    ensures
        utf8_width(c) >= 1,
{
}

proof fn lemma_offset_grows(cs: Seq<char>, i: int, j: int)
    requires
        0 <= i < j <= cs.len(),
    ensures
        byte_offset(cs, i) < byte_offset(cs, j),
    decreases j - i,
{
    lemma_byte_offset_step(cs, i);
    lemma_width_pos(cs[i]);
    if i + 1 < j {
        lemma_offset_grows(cs, i + 1, j);
    }
}

proof fn lemma_word_run(cs: Seq<char>, i: int)
    requires
        0 <= i < cs.len(),
        is_word_char(cs[i]),
    ensures
        i < word_end(cs, i) <= cs.len(),
        forall|m: int| i <= m < word_end(cs, i) ==> is_word_char(#[trigger] cs[m]),
        word_end(cs, i) == cs.len() || !is_word_char(cs[word_end(cs, i)]),
    decreases cs.len() - i,
{
    assert(word_end(cs, i) == word_end(cs, i + 1));
    if i + 1 < cs.len() && is_word_char(cs[i + 1]) {
        lemma_word_run(cs, i + 1);
    } else {
        assert(word_end(cs, i + 1) == i + 1);
    }
}

/// One token in front of tokens that are in order gives tokens in order.
proof fn lemma_cons_ok(cs: Seq<char>, i: int, next: int, t: (TokV, int), rest: Seq<(TokV, int)>)
    requires
        0 <= i < next <= cs.len(),
        t.1 == byte_offset(cs, i),
        tokens_ok(cs, next, rest),
        t.0 is Word ==> exists|a: int, b: int| is_word_at(cs, t.1, t.0->Word_0, a, b),
    ensures
        tokens_ok(cs, i, seq![t] + rest),
{
    let ts = seq![t] + rest;
    lemma_offset_grows(cs, i, next);
    if i < cs.len() {
        lemma_offset_grows(cs, i, cs.len() as int);
    }
    assert forall|k: int| 0 <= k < ts.len() implies byte_offset(cs, i) <= #[trigger] ts[k].1
        < byte_offset(cs, cs.len() as int) by {
        if k > 0 {
            assert(ts[k] == rest[k - 1]);
        }
    }
    assert forall|a: int, b: int| 0 <= a < b < ts.len() implies (#[trigger] ts[a]).1 < (
    #[trigger] ts[b]).1 by {
        assert(ts[b] == rest[b - 1]);
        if a > 0 {
            assert(ts[a] == rest[a - 1]);
        } else {
            assert(byte_offset(cs, next) <= rest[b - 1].1);
        }
    }
    assert forall|k: int| 0 <= k < ts.len() && (#[trigger] ts[k]).0 is Word implies exists|a: int, b: int|
        is_word_at(cs, ts[k].1, ts[k].0->Word_0, a, b) by {
        if k > 0 {
            assert(ts[k] == rest[k - 1]);
        }
    }
}

proof fn lemma_lex_from(cs: Seq<char>, i: int)
    requires
        0 <= i <= cs.len(),
        word_may_start(cs, i),
    ensures
        match lex_from(cs, i) {
            Ok(ts) => tokens_ok(cs, i, ts),
            Err((c, p)) => exists|m: int|
                i <= m < cs.len() && cs[m] == c && p == byte_offset(cs, m) && begins_no_token(cs, m),
        },
    decreases cs.len() - i,
{
    if i < cs.len() {
        let c = cs[i];
        let pos = byte_offset(cs, i);
        if is_word_char(c) && !char_is_whitespace(c) && c != '(' && c != ')' && c != '!' && !(c
            == '&' && next_is(cs, i, '&')) && !(c == '|' && next_is(cs, i, '|')) && c != '>'
            && c != '<' && c != '=' {
            let j = word_end(cs, i);
            lemma_word_run(cs, i);
            lemma_lex_from(cs, j);
            let w = cs.subrange(i, j);
            if let Ok(rest) = lex_from(cs, j) {
                let t = (word_tok(w), pos);
                if t.0 is Word {
                    assert(t.0->Word_0 == w);
                    assert(i == 0 || breaks_word(cs[i - 1]));
                    assert(is_word_at(cs, pos, w, i, j));
                    assert(is_word_at(cs, t.1, t.0->Word_0, i, j));
                }
                lemma_cons_ok(cs, i, j, t, rest);
            }
        } else {
            let step: int = if (c == '&' && next_is(cs, i, '&')) || (c == '|' && next_is(cs, i, '|'))
                || ((c == '>' || c == '<' || c == '=') && next_is(cs, i, '=')) {
                2
            } else {
                1
            };
            if char_is_whitespace(c) || c == '(' || c == ')' || c == '!' || (c == '&' && next_is(
                cs,
                i,
                '&',
            )) || (c == '|' && next_is(cs, i, '|')) || c == '>' || c == '<' || c == '=' {
                let next = if char_is_whitespace(c) {
                    i + 1
                } else {
                    i + step
                };
                lemma_lex_from(cs, next);
                if !char_is_whitespace(c) {
                    if let Ok(rest) = lex_from(cs, next) {
                        let tv = if c == '(' {
                            TokV::LParen
                        } else if c == ')' {
                            TokV::RParen
                        } else if c == '!' {
                            TokV::Not
                        } else if c == '&' && next_is(cs, i, '&') {
                            TokV::And
                        } else if c == '|' && next_is(cs, i, '|') {
                            TokV::Or
                        } else if c == '=' {
                            TokV::Op(Relation::Eq)
                        } else if c == '>' && !next_is(cs, i, '=') {
                            TokV::Op(Relation::Gt)
                        } else if c == '>' {
                            TokV::Op(Relation::Ge)
                        } else if !next_is(cs, i, '=') {
                            TokV::Op(Relation::Lt)
                        } else {
                            TokV::Op(Relation::Le)
                        };
                        lemma_cons_ok(cs, i, next, (tv, pos), rest);
                    }
                } else {
                    if let Ok(rest) = lex_from(cs, next) {
                        lemma_offset_grows(cs, i, next);
                    }
                }
            } else {
                assert(begins_no_token(cs, i));
            }
        }
    }
}

/// Lexing a query either gives tokens whose byte positions strictly
/// increase inside the query, each word being a whole run of word
/// characters that is not a keyword; or stops at a character that begins no
/// token, and reports it with its byte position.
pub proof fn law_lexer_tokens(q: Seq<char>)
    ensures
        match lex_from(q, 0) {
            Ok(ts) => tokens_ok(q, 0, ts),
            Err((c, p)) => exists|m: int|
                0 <= m < q.len() && q[m] == c && p == byte_offset(q, m) && begins_no_token(q, m),
        },
{
    lemma_lex_from(q, 0);
}


// ------------------------------------------------------------- parser law

/// The tokens `ta` sit in `t` from index `off` on, with the same kinds and
/// words (their byte positions may differ), and the token after them is
/// neither `and` nor `or`.
pub open spec fn embeds(t: Seq<(TokV, int)>, off: int, ta: Seq<(TokV, int)>) -> bool {
    &&& 0 <= off
    &&& off + ta.len() < t.len()
    &&& forall|k: int| 0 <= k < ta.len() ==> (#[trigger] t[off + k]).0 == ta[k].0
    &&& !(t[off + ta.len()].0 is Or)
    &&& !(t[off + ta.len()].0 is And)
}

proof fn lemma_cidr_position_free(w: Seq<char>, p1: int, p2: int)
    ensures
        spec_parse_cidr(w, p1) is Ok ==> spec_parse_cidr(w, p2) == spec_parse_cidr(w, p1),
{
}

proof fn lemma_atom_embed(
    t: Seq<(TokV, int)>,
    off: int,
    ta: Seq<(TokV, int)>,
    at: int,
    e1: int,
    e2: int,
    w: Seq<char>,
    p1: int,
    p2: int,
)
    requires
        embeds(t, off, ta),
        0 <= at <= ta.len(),
    ensures
        p_atom(ta, at, e1, w, p1) matches Ok((r, a)) ==> at <= a <= ta.len() && p_atom(t, off + at, e2, w, p2)
            == Ok::<(ExprV, int), (FilterErrorKind, int)>((r, off + a)),
{
    if at < ta.len() {
        assert(t[off + at].0 == ta[at].0);
    }
    if at + 1 < ta.len() {
        assert(t[off + (at + 1)].0 == ta[at + 1].0);
    }
    if let Ok((r, a)) = p_atom(ta, at, e1, w, p1) {
        let lower = ascii_lower_seq(w);
        if lower == "host"@ || lower == "src"@ || lower == "dst"@ {
            if let Ok((w2, q)) = word_after(ta, at, e1, lower, p1, "an address"@) {
                let q2 = t[off + at].1;
                lemma_cidr_position_free(w2, q, q2);
            }
        } else {
            lemma_cidr_position_free(w, p1, p2);
        }
    }
}

/// A parse that succeeds on `ta` gives the same expression, ending at the
/// same place, on any token sequence that embeds `ta` (one lemma per parse
/// function).

#[verifier::spinoff_prover]
#[verifier::rlimit(50)]
proof fn lemma_primary_embed(t: Seq<(TokV, int)>, off: int, ta: Seq<(TokV, int)>, at: int, e1: int, e2: int)
    requires
        embeds(t, off, ta),
        0 <= at <= ta.len(),
    ensures
        p_primary(ta, at, e1) matches Ok((r, a)) ==> at < a <= ta.len() && p_primary(t, off + at, e2)
            == Ok::<(ExprV, int), (FilterErrorKind, int)>((r, off + a)),
    decreases ta.len() - at, 0int,
{
    if at < ta.len() {
        assert(t[off + at].0 == ta[at].0);
    }
    if at < ta.len() {
        match ta[at].0 {
            TokV::LParen => {
                lemma_or_embed(t, off, ta, at + 1, e1, e2);
                if let Ok((inner, a)) = p_or(ta, at + 1, e1) {
                    if 0 <= a < ta.len() {
                        assert(t[off + a].0 == ta[a].0);
                    }
                }
            },
            TokV::Word(w) => {
                lemma_atom_embed(t, off, ta, at + 1, e1, e2, w, ta[at].1, t[off + at].1);
            },
            _ => {},
        }
    }
}

proof fn lemma_unary_embed(t: Seq<(TokV, int)>, off: int, ta: Seq<(TokV, int)>, at: int, e1: int, e2: int)
    requires
        embeds(t, off, ta),
        0 <= at <= ta.len(),
    ensures
        p_unary(ta, at, e1) matches Ok((r, a)) ==> at < a <= ta.len() && p_unary(t, off + at, e2)
            == Ok::<(ExprV, int), (FilterErrorKind, int)>((r, off + a)),
    decreases ta.len() - at, 1int,
{
    if at < ta.len() {
        assert(t[off + at].0 == ta[at].0);
    }
    if at < ta.len() && ta[at].0 is Not {
        lemma_unary_embed(t, off, ta, at + 1, e1, e2);
    } else {
        lemma_primary_embed(t, off, ta, at, e1, e2);
    }
}

proof fn lemma_and_embed(t: Seq<(TokV, int)>, off: int, ta: Seq<(TokV, int)>, at: int, e1: int, e2: int)
    requires
        embeds(t, off, ta),
        0 <= at <= ta.len(),
    ensures
        p_and(ta, at, e1) matches Ok((r, a)) ==> at < a <= ta.len() && p_and(t, off + at, e2)
            == Ok::<(ExprV, int), (FilterErrorKind, int)>((r, off + a)),
    decreases ta.len() - at, 2int,
{
    if at < ta.len() {
        assert(t[off + at].0 == ta[at].0);
    }
    lemma_unary_embed(t, off, ta, at, e1, e2);
    if let Ok((l, a)) = p_unary(ta, at, e1) {
        if a > at && a <= ta.len() {
            lemma_and_rest_embed(t, off, ta, a, e1, e2, l);
        }
    }
}

proof fn lemma_and_rest_embed(t: Seq<(TokV, int)>, off: int, ta: Seq<(TokV, int)>, at: int, e1: int, e2: int, left: ExprV)
    requires
        embeds(t, off, ta),
        0 <= at <= ta.len(),
    ensures
        p_and_rest(ta, at, e1, left) matches Ok((r, a)) ==> at <= a <= ta.len() && p_and_rest(t, off + at, e2, left)
            == Ok::<(ExprV, int), (FilterErrorKind, int)>((r, off + a)),
    decreases ta.len() - at, 3int,
{
    if at < ta.len() {
        assert(t[off + at].0 == ta[at].0);
    }
    if at < ta.len() && ta[at].0 is And {
        lemma_unary_embed(t, off, ta, at + 1, e1, e2);
        if let Ok((r, a)) = p_unary(ta, at + 1, e1) {
            if a > at && a <= ta.len() {
                lemma_and_rest_embed(t, off, ta, a, e1, e2, ExprV::And(Box::new(left), Box::new(r)));
            }
        }
    }
}

proof fn lemma_or_embed(t: Seq<(TokV, int)>, off: int, ta: Seq<(TokV, int)>, at: int, e1: int, e2: int)
    requires
        embeds(t, off, ta),
        0 <= at <= ta.len(),
    ensures
        p_or(ta, at, e1) matches Ok((r, a)) ==> at < a <= ta.len() && p_or(t, off + at, e2)
            == Ok::<(ExprV, int), (FilterErrorKind, int)>((r, off + a)),
    decreases ta.len() - at, 3int,
{
    if at < ta.len() {
        assert(t[off + at].0 == ta[at].0);
    }
    lemma_and_embed(t, off, ta, at, e1, e2);
    if let Ok((l, a)) = p_and(ta, at, e1) {
        if a > at && a <= ta.len() {
            lemma_or_rest_embed(t, off, ta, a, e1, e2, l);
        }
    }
}

proof fn lemma_or_rest_embed(t: Seq<(TokV, int)>, off: int, ta: Seq<(TokV, int)>, at: int, e1: int, e2: int, left: ExprV)
    requires
        embeds(t, off, ta),
        0 <= at <= ta.len(),
    ensures
        p_or_rest(ta, at, e1, left) matches Ok((r, a)) ==> at <= a <= ta.len() && p_or_rest(t, off + at, e2, left)
            == Ok::<(ExprV, int), (FilterErrorKind, int)>((r, off + a)),
    decreases ta.len() - at, 4int,
{
    if at < ta.len() {
        assert(t[off + at].0 == ta[at].0);
    }
    if at < ta.len() && ta[at].0 is Or {
        lemma_and_embed(t, off, ta, at + 1, e1, e2);
        if let Ok((r, a)) = p_and(ta, at + 1, e1) {
            if a > at && a <= ta.len() {
                lemma_or_rest_embed(t, off, ta, a, e1, e2, ExprV::Or(Box::new(left), Box::new(r)));
            }
        }
    }
}


/// Text `a` sits in `x` from character `p` on, and a `)` follows it.
pub open spec fn sits_before_paren(x: Seq<char>, p: int, a: Seq<char>) -> bool {
    &&& 0 <= p
    &&& p + a.len() < x.len()
    &&& x.subrange(p, p + a.len()) == a
    &&& x[p + a.len()] == ')'
}

proof fn lemma_word_end_embed(x: Seq<char>, p: int, a: Seq<char>, i: int)
    requires
        sits_before_paren(x, p, a),
        0 <= i <= a.len(),
    ensures
        word_end(x, p + i) == p + word_end(a, i),
    decreases a.len() - i,
{
    if i < a.len() {
        assert(x[p + i] == x.subrange(p, p + a.len())[i]);
        if is_word_char(a[i]) {
            lemma_word_end_embed(x, p, a, i + 1);
        }
    }
}

/// Lexing `a` inside a longer text, where a `)` follows it, gives tokens of
/// the same kinds (at other byte positions), then the tokens of the rest.
proof fn lemma_lex_embed(x: Seq<char>, p: int, a: Seq<char>, i: int)
    requires
        sits_before_paren(x, p, a),
        0 <= i <= a.len(),
        lex_from(a, i) is Ok,
        lex_from(x, p + a.len()) is Ok,
    ensures
        ({
            let ta = lex_from(a, i)->Ok_0;
            let rest = lex_from(x, p + a.len())->Ok_0;
            &&& lex_from(x, p + i) is Ok
            &&& lex_from(x, p + i)->Ok_0.len() == ta.len() + rest.len()
            &&& forall|k: int| 0 <= k < ta.len() ==> (#[trigger] lex_from(x, p + i)->Ok_0[k]).0 == ta[k].0
            &&& lex_from(x, p + i)->Ok_0.skip(ta.len() as int) == rest
        }),
    decreases a.len() - i,
{
    let rest = lex_from(x, p + a.len())->Ok_0;
    if i == a.len() {
        assert(rest.skip(0) =~= rest);
    } else {
        let c = a[i];
        assert(x[p + i] == x.subrange(p, p + a.len())[i]);
        assert(x[p + i] == c);
        if i + 1 < a.len() {
            assert(x[p + i + 1] == x.subrange(p, p + a.len())[i + 1]);
        }
        assert(next_is(x, p + i, '&') == next_is(a, i, '&'));
        assert(next_is(x, p + i, '|') == next_is(a, i, '|'));
        assert(next_is(x, p + i, '=') == next_is(a, i, '='));
        let j: int = if char_is_whitespace(c) || c == '(' || c == ')' || c == '!' {
            i + 1
        } else if (c == '&' && next_is(a, i, '&')) || (c == '|' && next_is(a, i, '|')) {
            i + 2
        } else if c == '>' || c == '<' || c == '=' {
            if next_is(a, i, '=') {
                i + 2
            } else {
                i + 1
            }
        } else {
            word_end(a, i)
        };
        if !char_is_whitespace(c) && c != '(' && c != ')' && c != '!' && !((c == '&' && next_is(
            a,
            i,
            '&',
        )) || (c == '|' && next_is(a, i, '|'))) && c != '>' && c != '<' && c != '=' {
            lemma_word_run(a, i);
            lemma_word_end_embed(x, p, a, i);
            assert(x.subrange(p + i, p + j) =~= a.subrange(i, j));
        }
        lemma_lex_embed(x, p, a, j);
        let ta = lex_from(a, i)->Ok_0;
        let ta2 = lex_from(a, j)->Ok_0;
        let tx = lex_from(x, p + i)->Ok_0;
        let tx2 = lex_from(x, p + j)->Ok_0;
        if char_is_whitespace(c) {
            assert(ta == ta2);
            assert(tx == tx2);
        } else {
            assert(ta == seq![ta[0]] + ta2);
            assert(tx == seq![tx[0]] + tx2);
            assert(tx[0].0 == ta[0].0);
            assert forall|k: int| 0 <= k < ta.len() implies (#[trigger] tx[k]).0 == ta[k].0 by {
                if k > 0 {
                    assert(tx[k] == tx2[k - 1]);
                    assert(ta[k] == ta2[k - 1]);
                }
            }
            assert(tx.skip(ta.len() as int) =~= tx2.skip(ta2.len() as int));
        }
    }
}


/// What a parsed query says of its tokens.
proof fn lemma_parsed_query(a: Seq<char>, ea: ExprV, e1: int)
    requires
        spec_parse_filter(a, e1) == Ok::<Option<ExprV>, (FilterErrorKind, int)>(Some(ea)),
    ensures
        lex_from(a, 0) is Ok,
        lex_from(a, 0)->Ok_0.len() > 0,
        p_or(lex_from(a, 0)->Ok_0, 0, e1) matches Ok((e, k)) && e == ea && !(0 <= k < lex_from(
            a,
            0,
        )->Ok_0.len()),
{
}

/// The closing `)` at the end of a query is its last token.
proof fn lemma_lex_last_paren(x: Seq<char>, i: int)
    requires
        0 <= i,
        i + 1 == x.len(),
        x[i] == ')',
    ensures
        lex_from(x, i) == Ok::<Seq<(TokV, int)>, (char, int)>(seq![(TokV::RParen, byte_offset(x, i))]),
{
    assert(!char_is_whitespace(')'));
    assert(lex_from(x, i + 1) == Ok::<Seq<(TokV, int)>, (char, int)>(Seq::empty()));
    assert(seq![(TokV::RParen, byte_offset(x, i))] + Seq::<(TokV, int)>::empty() =~= seq![
        (TokV::RParen, byte_offset(x, i)),
    ]);
}

/// The tokens of `not (a)`: `not`, `(`, the tokens of `a`, `)`.
#[verifier::spinoff_prover]
#[verifier::rlimit(100)]
proof fn lemma_not_tokens(a: Seq<char>)
    requires
        lex_from(a, 0) is Ok,
    ensures
        ({
            let x = "not ("@ + a + ")"@;
            let ta = lex_from(a, 0)->Ok_0;
            &&& lex_from(x, 0) is Ok
            &&& lex_from(x, 0)->Ok_0.len() == ta.len() + 3
            &&& lex_from(x, 0)->Ok_0[0].0 == TokV::Not
            &&& lex_from(x, 0)->Ok_0[1].0 == TokV::LParen
            &&& embeds(lex_from(x, 0)->Ok_0, 2, ta)
            &&& lex_from(x, 0)->Ok_0[2 + ta.len() as int].0 == TokV::RParen
        }),
{
    reveal_strlit("not (");
    reveal_strlit(")");
    reveal_strlit("not");
    let x = "not ("@ + a + ")"@;
    let n = a.len() as int;
    let ta = lex_from(a, 0)->Ok_0;
    let m = ta.len() as int;
    assert(x.len() == n + 6);
    assert(x[0] == 'n' && x[1] == 'o' && x[2] == 't' && x[3] == ' ' && x[4] == '(');
    assert(x[5 + n] == ')');
    assert(x.subrange(5, 5 + n) =~= a);
    lemma_lex_last_paren(x, 5 + n);
    lemma_lex_embed(x, 5, a, 0);
    let tx = lex_from(x, 5)->Ok_0;
    assert(!char_is_whitespace('('));
    assert(lex_from(x, 4) == cons_tok((TokV::LParen, byte_offset(x, 4)), lex_from(x, 5)));
    assert(char_is_whitespace(' '));
    assert(lex_from(x, 3) == lex_from(x, 4));
    assert(!is_word_char(' '));
    assert(word_end(x, 3) == 3);
    assert(is_word_char('t') && is_word_char('o') && is_word_char('n'));
    assert(word_end(x, 2) == 3);
    assert(word_end(x, 1) == 3);
    assert(word_end(x, 0) == 3);
    assert(x.subrange(0, 3) =~= "not"@);
    assert(ascii_lower_seq(x.subrange(0, 3)) =~= "not"@);
    reveal_strlit("and");
    reveal_strlit("or");
    assert("not"@ != "and"@ && "not"@ != "or"@) by {
        assert("not"@[0] != "and"@[0]);
        assert("not"@.len() != "or"@.len());
    }
    assert(word_tok(x.subrange(0, 3)) == TokV::Not);
    assert(!char_is_whitespace('n'));
    assert(lex_from(x, 0) == cons_tok((TokV::Not, byte_offset(x, 0)), lex_from(x, 3)));
    let t = lex_from(x, 0)->Ok_0;
    assert(t == seq![(TokV::Not, byte_offset(x, 0))] + (seq![(TokV::LParen, byte_offset(x, 4))] + tx));
    assert forall|k: int| 0 <= k < ta.len() implies (#[trigger] t[2 + k]).0 == ta[k].0 by {
        assert(t[2 + k] == tx[k]);
    }
    assert(t[2 + m] == tx[m]);
    assert(tx[m] == tx.skip(m)[0]);
}

/// `not ( A )` around a token sequence that parses as `ea` parses as its
/// negation.
#[verifier::spinoff_prover]
proof fn lemma_not_parse(t: Seq<(TokV, int)>, ta: Seq<(TokV, int)>, ea: ExprV, e1: int, e3: int)
    requires
        t.len() == ta.len() + 3,
        t[0].0 == TokV::Not,
        t[1].0 == TokV::LParen,
        embeds(t, 2, ta),
        t[2 + ta.len() as int].0 == TokV::RParen,
        p_or(ta, 0, e1) matches Ok((e, k)) && e == ea && !(0 <= k < ta.len()),
    ensures
        p_or(t, 0, e3) == Ok::<(ExprV, int), (FilterErrorKind, int)>(
            (ExprV::Not(Box::new(ea)), t.len() as int),
        ),
{
    let m = ta.len() as int;
    lemma_or_embed(t, 2, ta, 0, e1, e3);
    assert(p_or(t, 2, e3) == Ok::<(ExprV, int), (FilterErrorKind, int)>((ea, 2 + m)));
    assert(p_primary(t, 1, e3) == Ok::<(ExprV, int), (FilterErrorKind, int)>((ea, 3 + m)));
    assert(p_unary(t, 1, e3) == p_primary(t, 1, e3));
    assert(p_unary(t, 0, e3) == Ok::<(ExprV, int), (FilterErrorKind, int)>(
        (ExprV::Not(Box::new(ea)), t.len() as int),
    ));
    assert(p_and(t, 0, e3) == Ok::<(ExprV, int), (FilterErrorKind, int)>(
        (ExprV::Not(Box::new(ea)), t.len() as int),
    ));
}

/// `not (a)` parses as the negation of `a`.
proof fn lemma_not_query(a: Seq<char>, ea: ExprV, e1: int, e3: int)
    requires
        spec_parse_filter(a, e1) == Ok::<Option<ExprV>, (FilterErrorKind, int)>(Some(ea)),
    ensures
        spec_parse_filter("not ("@ + a + ")"@, e3) == Ok::<Option<ExprV>, (FilterErrorKind, int)>(
            Some(ExprV::Not(Box::new(ea))),
        ),
{
    lemma_parsed_query(a, ea, e1);
    lemma_not_tokens(a);
    let x = "not ("@ + a + ")"@;
    lemma_not_parse(lex_from(x, 0)->Ok_0, lex_from(a, 0)->Ok_0, ea, e1, e3);
}


/// The facts about the tokens of `(a) and (b)` / `(a) or (b)` that parsing
/// needs.
pub open spec fn pair_tokens(t: Seq<(TokV, int)>, ta: Seq<(TokV, int)>, tb: Seq<(TokV, int)>, op: TokV) -> bool {
    let ma = ta.len() as int;
    let mb = tb.len() as int;
    &&& t.len() == ma + mb + 5
    &&& t[0].0 == TokV::LParen
    &&& embeds(t, 1, ta)
    &&& t[1 + ma].0 == TokV::RParen
    &&& t[2 + ma].0 == op
    &&& t[3 + ma].0 == TokV::LParen
    &&& embeds(t, 4 + ma, tb)
    &&& t[4 + ma + mb].0 == TokV::RParen
}

/// The tokens of `(a) kw (b)`, for the keyword `and` or `or`.
#[verifier::spinoff_prover]
#[verifier::rlimit(100)]
proof fn lemma_pair_tokens(a: Seq<char>, b: Seq<char>, kw: Seq<char>, op: TokV)
    requires
        lex_from(a, 0) is Ok,
        lex_from(b, 0) is Ok,
        (kw == "and"@ && op == TokV::And) || (kw == "or"@ && op == TokV::Or),
    ensures
        lex_from("("@ + a + ") "@ + kw + " ("@ + b + ")"@, 0) is Ok,
        pair_tokens(
            lex_from("("@ + a + ") "@ + kw + " ("@ + b + ")"@, 0)->Ok_0,
            lex_from(a, 0)->Ok_0,
            lex_from(b, 0)->Ok_0,
            op,
        ),
{
    reveal_strlit("(");
    reveal_strlit(") ");
    reveal_strlit(" (");
    reveal_strlit(")");
    reveal_strlit("and");
    reveal_strlit("or");
    reveal_strlit("not");
    let x = "("@ + a + ") "@ + kw + " ("@ + b + ")"@;
    let n = a.len() as int;
    let nb = b.len() as int;
    let k = kw.len() as int;
    let pb = 5 + n + k;
    let ta = lex_from(a, 0)->Ok_0;
    let tb = lex_from(b, 0)->Ok_0;
    let ma = ta.len() as int;
    let mb = tb.len() as int;
    assert(x.len() == pb + nb + 1);
    assert(x[0] == '(');
    assert(x.subrange(1, 1 + n) =~= a);
    assert(x[1 + n] == ')' && x[2 + n] == ' ');
    assert(x.subrange(3 + n, 3 + n + k) =~= kw);
    assert(x[3 + n + k] == ' ' && x[4 + n + k] == '(');
    assert(x.subrange(pb, pb + nb) =~= b);
    assert(x[pb + nb] == ')');
    // b and its closing parenthesis
    lemma_lex_last_paren(x, pb + nb);
    lemma_lex_embed(x, pb, b, 0);
    let tbx = lex_from(x, pb)->Ok_0;
    // ` (`
    assert(!char_is_whitespace('(') && !char_is_whitespace(')'));
    assert(char_is_whitespace(' ') && !is_word_char(' '));
    assert(lex_from(x, 4 + n + k) == cons_tok((TokV::LParen, byte_offset(x, 4 + n + k)), lex_from(x, pb)));
    assert(lex_from(x, 3 + n + k) == lex_from(x, 4 + n + k));
    // the keyword
    assert(word_end(x, 3 + n + k) == 3 + n + k);
    if k == 3 {
        assert(x[3 + n] == 'a' && x[4 + n] == 'n' && x[5 + n] == 'd');
        assert(is_word_char('a') && is_word_char('n') && is_word_char('d'));
        assert(word_end(x, 5 + n) == 6 + n);
        assert(word_end(x, 4 + n) == 6 + n);
        assert(!char_is_whitespace('a'));
    } else {
        assert(x[3 + n] == 'o' && x[4 + n] == 'r');
        assert(is_word_char('o') && is_word_char('r'));
        assert(word_end(x, 4 + n) == 5 + n);
        assert(!char_is_whitespace('o'));
    }
    assert(word_end(x, 3 + n) == 3 + n + k);
    assert(ascii_lower_seq(x.subrange(3 + n, 3 + n + k)) =~= kw);
    assert(word_tok(x.subrange(3 + n, 3 + n + k)) == op);
    assert(lex_from(x, 3 + n) == cons_tok((op, byte_offset(x, 3 + n)), lex_from(x, 3 + n + k)));
    assert(lex_from(x, 2 + n) == lex_from(x, 3 + n));
    assert(lex_from(x, 1 + n) == cons_tok((TokV::RParen, byte_offset(x, 1 + n)), lex_from(x, 2 + n)));
    let rest_a = lex_from(x, 1 + n)->Ok_0;
    assert(rest_a == seq![(TokV::RParen, byte_offset(x, 1 + n))] + (seq![(op, byte_offset(x, 3 + n))] + (
    seq![(TokV::LParen, byte_offset(x, 4 + n + k))] + tbx)));
    // a
    lemma_lex_embed(x, 1, a, 0);
    let tax = lex_from(x, 1)->Ok_0;
    assert(lex_from(x, 0) == cons_tok((TokV::LParen, byte_offset(x, 0)), lex_from(x, 1)));
    let t = lex_from(x, 0)->Ok_0;
    assert(t == seq![(TokV::LParen, byte_offset(x, 0))] + tax);
    assert(tax.skip(ma) == rest_a);
    assert forall|j: int| 0 <= j < ma implies (#[trigger] t[1 + j]).0 == ta[j].0 by {
        assert(t[1 + j] == tax[j]);
    }
    assert(t[1 + ma] == rest_a[0]);
    assert(t[2 + ma] == rest_a[1]);
    assert(t[3 + ma] == rest_a[2]);
    assert forall|j: int| 0 <= j < mb implies (#[trigger] t[(4 + ma) + j]).0 == tb[j].0 by {
        assert(t[(4 + ma) + j] == rest_a[3 + j]);
        assert(rest_a[3 + j] == tbx[j]);
    }
    assert(t[4 + ma + mb] == rest_a[3 + mb]);
    assert(rest_a[3 + mb] == tbx[mb]);
    assert(tbx[mb] == tbx.skip(mb)[0]);
}

/// `( A ) and ( B )` parses as the conjunction, `( A ) or ( B )` as the
/// disjunction.
#[verifier::spinoff_prover]
proof fn lemma_pair_parse(
    t: Seq<(TokV, int)>,
    ta: Seq<(TokV, int)>,
    tb: Seq<(TokV, int)>,
    op: TokV,
    ea: ExprV,
    eb: ExprV,
    e1: int,
    e2: int,
    e3: int,
)
    requires
        op == TokV::And || op == TokV::Or,
        pair_tokens(t, ta, tb, op),
        p_or(ta, 0, e1) matches Ok((e, k)) && e == ea && !(0 <= k < ta.len()),
        p_or(tb, 0, e2) matches Ok((e, k)) && e == eb && !(0 <= k < tb.len()),
    ensures
        op == TokV::And ==> p_or(t, 0, e3) == Ok::<(ExprV, int), (FilterErrorKind, int)>(
            (ExprV::And(Box::new(ea), Box::new(eb)), t.len() as int),
        ),
        op == TokV::Or ==> p_or(t, 0, e3) == Ok::<(ExprV, int), (FilterErrorKind, int)>(
            (ExprV::Or(Box::new(ea), Box::new(eb)), t.len() as int),
        ),
{
    let ma = ta.len() as int;
    let mb = tb.len() as int;
    let len = t.len() as int;
    lemma_or_embed(t, 1, ta, 0, e1, e3);
    lemma_or_embed(t, 4 + ma, tb, 0, e2, e3);
    assert(p_or(t, 1, e3) == Ok::<(ExprV, int), (FilterErrorKind, int)>((ea, 1 + ma)));
    assert(p_primary(t, 0, e3) == Ok::<(ExprV, int), (FilterErrorKind, int)>((ea, 2 + ma)));
    assert(p_unary(t, 0, e3) == p_primary(t, 0, e3));
    assert(p_or(t, 4 + ma, e3) == Ok::<(ExprV, int), (FilterErrorKind, int)>((eb, 4 + ma + mb)));
    assert(p_primary(t, 3 + ma, e3) == Ok::<(ExprV, int), (FilterErrorKind, int)>((eb, len)));
    assert(p_unary(t, 3 + ma, e3) == p_primary(t, 3 + ma, e3));
    if op == TokV::And {
        let both = ExprV::And(Box::new(ea), Box::new(eb));
        assert(p_and_rest(t, len, e3, both) == Ok::<(ExprV, int), (FilterErrorKind, int)>((both, len)));
        assert(p_and_rest(t, 2 + ma, e3, ea) == Ok::<(ExprV, int), (FilterErrorKind, int)>((both, len)));
        assert(p_and(t, 0, e3) == Ok::<(ExprV, int), (FilterErrorKind, int)>((both, len)));
        assert(p_or_rest(t, len, e3, both) == Ok::<(ExprV, int), (FilterErrorKind, int)>((both, len)));
    } else {
        let either = ExprV::Or(Box::new(ea), Box::new(eb));
        assert(p_and_rest(t, len, e3, eb) == Ok::<(ExprV, int), (FilterErrorKind, int)>((eb, len)));
        assert(p_and(t, 3 + ma, e3) == Ok::<(ExprV, int), (FilterErrorKind, int)>((eb, len)));
        assert(p_and_rest(t, 2 + ma, e3, ea) == Ok::<(ExprV, int), (FilterErrorKind, int)>((ea, 2 + ma)));
        assert(p_and(t, 0, e3) == Ok::<(ExprV, int), (FilterErrorKind, int)>((ea, 2 + ma)));
        assert(p_or_rest(t, len, e3, either) == Ok::<(ExprV, int), (FilterErrorKind, int)>((either, len)));
        assert(p_or_rest(t, 2 + ma, e3, ea) == Ok::<(ExprV, int), (FilterErrorKind, int)>((either, len)));
    }
}


proof fn lemma_pair_query(a: Seq<char>, b: Seq<char>, ea: ExprV, eb: ExprV, e1: int, e2: int, e3: int, kw: Seq<char>, op: TokV)
    requires
        spec_parse_filter(a, e1) == Ok::<Option<ExprV>, (FilterErrorKind, int)>(Some(ea)),
        spec_parse_filter(b, e2) == Ok::<Option<ExprV>, (FilterErrorKind, int)>(Some(eb)),
        (kw == "and"@ && op == TokV::And) || (kw == "or"@ && op == TokV::Or),
    ensures
        op == TokV::And ==> spec_parse_filter("("@ + a + ") "@ + kw + " ("@ + b + ")"@, e3) == Ok::<
            Option<ExprV>,
            (FilterErrorKind, int),
        >(Some(ExprV::And(Box::new(ea), Box::new(eb)))),
        op == TokV::Or ==> spec_parse_filter("("@ + a + ") "@ + kw + " ("@ + b + ")"@, e3) == Ok::<
            Option<ExprV>,
            (FilterErrorKind, int),
        >(Some(ExprV::Or(Box::new(ea), Box::new(eb)))),
{
    lemma_parsed_query(a, ea, e1);
    lemma_parsed_query(b, eb, e2);
    lemma_pair_tokens(a, b, kw, op);
    let x = "("@ + a + ") "@ + kw + " ("@ + b + ")"@;
    lemma_pair_parse(
        lex_from(x, 0)->Ok_0,
        lex_from(a, 0)->Ok_0,
        lex_from(b, 0)->Ok_0,
        op,
        ea,
        eb,
        e1,
        e2,
        e3,
    );
}

/// Queries combine as their results do. For queries `a` and `b` that parse
/// (each has a token), `not (a)` parses as the negation of `a`,
/// `(a) and (b)` as their conjunction and `(a) or (b)` as their
/// disjunction; so on any packets these select the complement of what `a`
/// selects, the packets both select, and the packets either selects.
pub proof fn law_query_connectives(
    a: Seq<char>,
    b: Seq<char>,
    ea: ExprV,
    eb: ExprV,
    e1: int,
    e2: int,
    e3: int,
    recs: Seq<PacketRecord>,
)
    requires
        spec_parse_filter(a, e1) == Ok::<Option<ExprV>, (FilterErrorKind, int)>(Some(ea)),
        spec_parse_filter(b, e2) == Ok::<Option<ExprV>, (FilterErrorKind, int)>(Some(eb)),
        recs.len() <= u32::MAX + 1,
    ensures
        spec_parse_filter("not ("@ + a + ")"@, e3) == Ok::<Option<ExprV>, (FilterErrorKind, int)>(
            Some(ExprV::Not(Box::new(ea))),
        ),
        spec_parse_filter("("@ + a + ") and ("@ + b + ")"@, e3) == Ok::<
            Option<ExprV>,
            (FilterErrorKind, int),
        >(Some(ExprV::And(Box::new(ea), Box::new(eb)))),
        spec_parse_filter("("@ + a + ") or ("@ + b + ")"@, e3) == Ok::<
            Option<ExprV>,
            (FilterErrorKind, int),
        >(Some(ExprV::Or(Box::new(ea), Box::new(eb)))),
        forall|i: int|
            0 <= i < recs.len() ==> {
                &&& (#[trigger] filter_indices(Some(ExprV::Not(Box::new(ea))), recs).contains(i as u32)
                    <==> !filter_indices(Some(ea), recs).contains(i as u32))
                &&& (filter_indices(Some(ExprV::And(Box::new(ea), Box::new(eb))), recs).contains(i as u32)
                    <==> filter_indices(Some(ea), recs).contains(i as u32) && filter_indices(Some(eb), recs).contains(i as u32))
                &&& (filter_indices(Some(ExprV::Or(Box::new(ea), Box::new(eb))), recs).contains(i as u32)
                    <==> filter_indices(Some(ea), recs).contains(i as u32) || filter_indices(Some(eb), recs).contains(i as u32))
            },
{
    reveal_strlit(") and (");
    reveal_strlit(") or (");
    reveal_strlit(") ");
    reveal_strlit(" (");
    reveal_strlit("and");
    reveal_strlit("or");
    lemma_not_query(a, ea, e1, e3);
    assert("("@ + a + ") and ("@ + b + ")"@ =~= "("@ + a + ") "@ + "and"@ + " ("@ + b + ")"@);
    assert("("@ + a + ") or ("@ + b + ")"@ =~= "("@ + a + ") "@ + "or"@ + " ("@ + b + ")"@);
    lemma_pair_query(a, b, ea, eb, e1, e2, e3, "and"@, TokV::And);
    lemma_pair_query(a, b, ea, eb, e1, e2, e3, "or"@, TokV::Or);
    law_connectives_combine_selections(ea, eb, recs);
}


/// An address or range that is rejected is reported at the word itself.
pub proof fn law_range_errors_point_at_the_word(w: Seq<char>, pos: int)
    ensures
        spec_parse_cidr(w, pos) matches Err((k, p)) ==> p == pos,
{
}

/// Protocol and flag keywords, in any letter case, are whole terms: each
/// stands for its protocol test or TCP flag and takes no further token.
pub proof fn law_keyword_terms(t: Seq<(TokV, int)>, at: int, end: int, w: Seq<char>, pos: int)
    ensures
        ({
            let l = ascii_lower_seq(w);
            let r = p_atom(t, at, end, w, pos);
            &&& l == "tcp"@ ==> r == proto_term(ProtoTest::Exact(PROTO_TCP), at)
            &&& l == "udp"@ ==> r == proto_term(ProtoTest::Udp, at)
            &&& l == "dns"@ ==> r == proto_term(ProtoTest::Exact(PROTO_DNS), at)
            &&& l == "icmp"@ ==> r == proto_term(ProtoTest::Exact(PROTO_ICMP), at)
            &&& l == "icmpv6"@ ==> r == proto_term(ProtoTest::Exact(PROTO_ICMPV6), at)
            &&& l == "arp"@ ==> r == proto_term(ProtoTest::Exact(PROTO_ARP), at)
            &&& l == "other"@ ==> r == proto_term(ProtoTest::Exact(PROTO_OTHER), at)
            &&& l == "ipv4"@ ==> r == proto_term(ProtoTest::Ipv4, at)
            &&& l == "ipv6"@ ==> r == proto_term(ProtoTest::Ipv6, at)
            &&& l == "fin"@ ==> r == Ok::<(ExprV, int), (FilterErrorKind, int)>((ExprV::Flag(0x01), at))
            &&& l == "syn"@ ==> r == Ok::<(ExprV, int), (FilterErrorKind, int)>((ExprV::Flag(0x02), at))
            &&& l == "rst"@ ==> r == Ok::<(ExprV, int), (FilterErrorKind, int)>((ExprV::Flag(0x04), at))
            &&& l == "psh"@ ==> r == Ok::<(ExprV, int), (FilterErrorKind, int)>((ExprV::Flag(0x08), at))
            &&& l == "ack"@ ==> r == Ok::<(ExprV, int), (FilterErrorKind, int)>((ExprV::Flag(0x10), at))
            &&& l == "urg"@ ==> r == Ok::<(ExprV, int), (FilterErrorKind, int)>((ExprV::Flag(0x20), at))
        }),
{
    reveal_strlit("tcp");
    reveal_strlit("udp");
    reveal_strlit("dns");
    reveal_strlit("icmp");
    reveal_strlit("icmpv6");
    reveal_strlit("arp");
    reveal_strlit("other");
    reveal_strlit("ipv4");
    reveal_strlit("ipv6");
    reveal_strlit("fin");
    reveal_strlit("syn");
    reveal_strlit("rst");
    reveal_strlit("psh");
    reveal_strlit("ack");
    reveal_strlit("urg");
    if ascii_lower_seq(w) == "udp"@ {
        assert("udp"@[0] != "tcp"@[0]);
    }
    if ascii_lower_seq(w) == "dns"@ {
        assert("dns"@[0] != "tcp"@[0]);
        assert("dns"@[0] != "udp"@[0]);
    }
    if ascii_lower_seq(w) == "icmp"@ {
        assert("icmp"@.len() != "tcp"@.len());
        assert("icmp"@.len() != "udp"@.len());
        assert("icmp"@.len() != "dns"@.len());
    }
    if ascii_lower_seq(w) == "icmpv6"@ {
        assert("icmpv6"@.len() != "tcp"@.len());
        assert("icmpv6"@.len() != "udp"@.len());
        assert("icmpv6"@.len() != "dns"@.len());
        assert("icmpv6"@.len() != "icmp"@.len());
    }
    if ascii_lower_seq(w) == "arp"@ {
        assert("arp"@[0] != "tcp"@[0]);
        assert("arp"@[0] != "udp"@[0]);
        assert("arp"@[0] != "dns"@[0]);
        assert("arp"@.len() != "icmp"@.len());
        assert("arp"@.len() != "icmpv6"@.len());
    }
    if ascii_lower_seq(w) == "other"@ {
        assert("other"@.len() != "tcp"@.len());
        assert("other"@.len() != "udp"@.len());
        assert("other"@.len() != "dns"@.len());
        assert("other"@.len() != "icmp"@.len());
        assert("other"@.len() != "icmpv6"@.len());
        assert("other"@.len() != "arp"@.len());
    }
    if ascii_lower_seq(w) == "ipv4"@ {
        assert("ipv4"@.len() != "tcp"@.len());
        assert("ipv4"@.len() != "udp"@.len());
        assert("ipv4"@.len() != "dns"@.len());
        assert("ipv4"@[1] != "icmp"@[1]);
        assert("ipv4"@.len() != "icmpv6"@.len());
        assert("ipv4"@.len() != "arp"@.len());
        assert("ipv4"@.len() != "other"@.len());
    }
    if ascii_lower_seq(w) == "ipv6"@ {
        assert("ipv6"@.len() != "tcp"@.len());
        assert("ipv6"@.len() != "udp"@.len());
        assert("ipv6"@.len() != "dns"@.len());
        assert("ipv6"@[1] != "icmp"@[1]);
        assert("ipv6"@.len() != "icmpv6"@.len());
        assert("ipv6"@.len() != "arp"@.len());
        assert("ipv6"@.len() != "other"@.len());
        assert("ipv6"@[3] != "ipv4"@[3]);
    }
    if ascii_lower_seq(w) == "fin"@ {
        assert("fin"@[0] != "tcp"@[0]);
        assert("fin"@[0] != "udp"@[0]);
        assert("fin"@[0] != "dns"@[0]);
        assert("fin"@.len() != "icmp"@.len());
        assert("fin"@.len() != "icmpv6"@.len());
        assert("fin"@[0] != "arp"@[0]);
        assert("fin"@.len() != "other"@.len());
        assert("fin"@.len() != "ipv4"@.len());
        assert("fin"@.len() != "ipv6"@.len());
    }
    if ascii_lower_seq(w) == "syn"@ {
        assert("syn"@[0] != "tcp"@[0]);
        assert("syn"@[0] != "udp"@[0]);
        assert("syn"@[0] != "dns"@[0]);
        assert("syn"@.len() != "icmp"@.len());
        assert("syn"@.len() != "icmpv6"@.len());
        assert("syn"@[0] != "arp"@[0]);
        assert("syn"@.len() != "other"@.len());
        assert("syn"@.len() != "ipv4"@.len());
        assert("syn"@.len() != "ipv6"@.len());
        assert("syn"@[0] != "fin"@[0]);
    }
    if ascii_lower_seq(w) == "rst"@ {
        assert("rst"@[0] != "tcp"@[0]);
        assert("rst"@[0] != "udp"@[0]);
        assert("rst"@[0] != "dns"@[0]);
        assert("rst"@.len() != "icmp"@.len());
        assert("rst"@.len() != "icmpv6"@.len());
        assert("rst"@[0] != "arp"@[0]);
        assert("rst"@.len() != "other"@.len());
        assert("rst"@.len() != "ipv4"@.len());
        assert("rst"@.len() != "ipv6"@.len());
        assert("rst"@[0] != "fin"@[0]);
        assert("rst"@[0] != "syn"@[0]);
    }
    if ascii_lower_seq(w) == "psh"@ {
        assert("psh"@[0] != "tcp"@[0]);
        assert("psh"@[0] != "udp"@[0]);
        assert("psh"@[0] != "dns"@[0]);
        assert("psh"@.len() != "icmp"@.len());
        assert("psh"@.len() != "icmpv6"@.len());
        assert("psh"@[0] != "arp"@[0]);
        assert("psh"@.len() != "other"@.len());
        assert("psh"@.len() != "ipv4"@.len());
        assert("psh"@.len() != "ipv6"@.len());
        assert("psh"@[0] != "fin"@[0]);
        assert("psh"@[0] != "syn"@[0]);
        assert("psh"@[0] != "rst"@[0]);
    }
    if ascii_lower_seq(w) == "ack"@ {
        assert("ack"@[0] != "tcp"@[0]);
        assert("ack"@[0] != "udp"@[0]);
        assert("ack"@[0] != "dns"@[0]);
        assert("ack"@.len() != "icmp"@.len());
        assert("ack"@.len() != "icmpv6"@.len());
        assert("ack"@[1] != "arp"@[1]);
        assert("ack"@.len() != "other"@.len());
        assert("ack"@.len() != "ipv4"@.len());
        assert("ack"@.len() != "ipv6"@.len());
        assert("ack"@[0] != "fin"@[0]);
        assert("ack"@[0] != "syn"@[0]);
        assert("ack"@[0] != "rst"@[0]);
        assert("ack"@[0] != "psh"@[0]);
    }
    if ascii_lower_seq(w) == "urg"@ {
        assert("urg"@[0] != "tcp"@[0]);
        assert("urg"@[1] != "udp"@[1]);
        assert("urg"@[0] != "dns"@[0]);
        assert("urg"@.len() != "icmp"@.len());
        assert("urg"@.len() != "icmpv6"@.len());
        assert("urg"@[0] != "arp"@[0]);
        assert("urg"@.len() != "other"@.len());
        assert("urg"@.len() != "ipv4"@.len());
        assert("urg"@.len() != "ipv6"@.len());
        assert("urg"@[0] != "fin"@[0]);
        assert("urg"@[0] != "syn"@[0]);
        assert("urg"@[0] != "rst"@[0]);
        assert("urg"@[0] != "psh"@[0]);
        assert("urg"@[0] != "ack"@[0]);
    }
}


/// Bit `k` of a byte string, most significant bit of each byte first.
pub open spec fn bit_at(s: Seq<u8>, k: int) -> u8 {
    (s[k / 8] >> ((7 - k % 8) as u8)) & 1u8
}

/// Bits `j` of two bytes agree for every `j` from `from` up to 7.
pub open spec fn high_bits_agree(x: u8, y: u8, from: int) -> bool {
    forall|j: int| from <= j < 8 ==> #[trigger] ((x >> (j as u8)) & 1u8) == ((y >> (j as u8)) & 1u8)
}

proof fn lemma_shift_bits(x: u8, y: u8, s: u8)
    requires
        s < 8,
    ensures
        ((x >> s) == (y >> s)) == high_bits_agree(x, y, s as int),
        (x >> 0u8) == x && (y >> 0u8) == y,
{
    assert(((x >> s) == (y >> s)) == ((s <= 0 ==> (x & 1) == (y & 1)) && (s <= 1 ==> ((x >> 1u8) & 1) == (
    (y >> 1u8) & 1)) && (s <= 2 ==> ((x >> 2u8) & 1) == ((y >> 2u8) & 1)) && (s <= 3 ==> ((x >> 3u8) & 1)
        == ((y >> 3u8) & 1)) && (s <= 4 ==> ((x >> 4u8) & 1) == ((y >> 4u8) & 1)) && (s <= 5 ==> ((x
        >> 5u8) & 1) == ((y >> 5u8) & 1)) && (s <= 6 ==> ((x >> 6u8) & 1) == ((y >> 6u8) & 1)) && ((x
        >> 7u8) & 1) == ((y >> 7u8) & 1))) by (bit_vector)
        requires
            s < 8,
    ;
    assert((x >> 0u8) == x && (y >> 0u8) == y) by (bit_vector);
    if high_bits_agree(x, y, s as int) {
        assert(((x >> (0int as u8)) & 1u8) == ((y >> (0int as u8)) & 1u8) || s > 0);
        assert(((x >> (1int as u8)) & 1u8) == ((y >> (1int as u8)) & 1u8) || s > 1);
        assert(((x >> (2int as u8)) & 1u8) == ((y >> (2int as u8)) & 1u8) || s > 2);
        assert(((x >> (3int as u8)) & 1u8) == ((y >> (3int as u8)) & 1u8) || s > 3);
        assert(((x >> (4int as u8)) & 1u8) == ((y >> (4int as u8)) & 1u8) || s > 4);
        assert(((x >> (5int as u8)) & 1u8) == ((y >> (5int as u8)) & 1u8) || s > 5);
        assert(((x >> (6int as u8)) & 1u8) == ((y >> (6int as u8)) & 1u8) || s > 6);
        assert(((x >> (7int as u8)) & 1u8) == ((y >> (7int as u8)) & 1u8));
    }
    if (x >> s) == (y >> s) {
        assert forall|j: int| s <= j < 8 implies #[trigger] ((x >> (j as u8)) & 1u8) == ((y >> (
        j as u8)) & 1u8) by {
            assert(j == 0 || j == 1 || j == 2 || j == 3 || j == 4 || j == 5 || j == 6 || j == 7);
        }
    }
}

proof fn lemma_bit_index(i: int, r: int)
    requires
        0 <= i,
        0 <= r < 8,
    ensures
        (8 * i + r) / 8 == i,
        (8 * i + r) % 8 == r,
{
    assert((8 * i + r) / 8 == i) by (nonlinear_arith)
        requires
            0 <= i,
            0 <= r < 8,
    ;
    assert((8 * i + r) % 8 == r) by (nonlinear_arith)
        requires
            0 <= i,
            0 <= r < 8,
    ;
}

/// Bit `k` of bytes `a` and `b` agree, for bit `r` of byte `i`.
proof fn lemma_bit_of_byte(a: Seq<u8>, b: Seq<u8>, i: int, r: int)
    requires
        0 <= i,
        0 <= r < 8,
    ensures
        (bit_at(a, 8 * i + r) == bit_at(b, 8 * i + r)) == (((a[i] >> ((7 - r) as u8)) & 1u8) == ((
        b[i] >> ((7 - r) as u8)) & 1u8)),
{
    lemma_bit_index(i, r);
}

/// An address falls in a range exactly when its first `prefix_bits` bits,
/// most significant first, are those of the range's address.
pub proof fn law_prefix_is_leading_bits(a: Seq<u8>, c: CidrV)
    requires
        a.len() == 16,
        c.bytes.len() == 16,
        c.prefix_bits <= 128,
    ensures
        spec_prefix_matches(a, c) == (forall|k: int|
            0 <= k < c.prefix_bits ==> #[trigger] bit_at(a, k) == bit_at(c.bytes, k)),
{
    let b = c.bytes;
    let full = (c.prefix_bits / 8) as int;
    let rem = (c.prefix_bits % 8) as int;
    let bits = c.prefix_bits as int;
    assert(bits == 8 * full + rem);
    let all = forall|k: int| 0 <= k < bits ==> #[trigger] bit_at(a, k) == bit_at(b, k);
    // whole bytes: equal exactly when all their bits are
    assert forall|i: int| 0 <= i < full implies (a[i] == b[i]) == high_bits_agree(a[i], b[i], 0) by {
        lemma_shift_bits(a[i], b[i], 0);
    }
    if all {
        assert forall|i: int| 0 <= i < full implies a[i] == b[i] by {
            assert forall|j: int| 0 <= j < 8 implies #[trigger] ((a[i] >> (j as u8)) & 1u8) == ((
            b[i] >> (j as u8)) & 1u8) by {
                lemma_bit_of_byte(a, b, i, 7 - j);
                assert(bit_at(a, 8 * i + (7 - j)) == bit_at(b, 8 * i + (7 - j)));
            }
        }
        assert(a.take(full) =~= b.take(full));
        if rem != 0 {
            assert(high_bits_agree(a[full], b[full], 8 - rem)) by {
                assert forall|j: int| 8 - rem <= j < 8 implies #[trigger] ((a[full] >> (j as u8)) & 1u8)
                    == ((b[full] >> (j as u8)) & 1u8) by {
                    lemma_bit_of_byte(a, b, full, 7 - j);
                    assert(bit_at(a, 8 * full + (7 - j)) == bit_at(b, 8 * full + (7 - j)));
                }
            }
            lemma_shift_bits(a[full], b[full], (8 - rem) as u8);
        }
        assert(spec_prefix_matches(a, c));
    }
    if spec_prefix_matches(a, c) {
        if rem != 0 {
            lemma_shift_bits(a[full], b[full], (8 - rem) as u8);
        }
        assert forall|k: int| 0 <= k < bits implies #[trigger] bit_at(a, k) == bit_at(b, k) by {
            let i = k / 8;
            let r = k % 8;
            assert(k == 8 * i + r);
            lemma_bit_of_byte(a, b, i, r);
            if i < full {
                assert(a[i] == a.take(full)[i] && b[i] == b.take(full)[i]);
            } else {
                assert(i == full);
                assert(high_bits_agree(a[full], b[full], 8 - rem));
                assert(((a[i] >> ((7 - r) as u8)) & 1u8) == ((b[i] >> ((7 - r) as u8)) & 1u8));
            }
        }
    }
}


// ------------------------------------------------------ query selections

/// A parsed filter selects packet `i` exactly when its expression holds of
/// that packet.
proof fn lemma_selected_iff(e: ExprV, recs: Seq<PacketRecord>)
    requires
        recs.len() <= u32::MAX + 1,
    ensures
        forall|i: int|
            0 <= i < recs.len() ==> (#[trigger] filter_indices(Some(e), recs).contains(i as u32)
                <==> spec_eval(e, recs[i])),
{
    law_matches_are_ordered_and_exact(Some(e), recs, recs.len() as int);
}

/// Every character of `w` from `i` on is a word character: the word that
/// starts at `i` runs to the end.
proof fn lemma_word_to_end(w: Seq<char>, i: int)
    requires
        0 <= i <= w.len(),
        forall|k: int| i <= k < w.len() ==> is_word_char(#[trigger] w[k]),
    ensures
        word_end(w, i) == w.len(),
    decreases w.len() - i,
{
    if i < w.len() {
        lemma_word_to_end(w, i + 1);
    }
}

/// The word that starts at `i` ends at `j`: word characters up to `j`, then
/// one that is not.
proof fn lemma_word_to(w: Seq<char>, i: int, j: int)
    requires
        0 <= i <= j < w.len(),
        forall|k: int| i <= k < j ==> is_word_char(#[trigger] w[k]),
        !is_word_char(w[j]),
    ensures
        word_end(w, i) == j,
    decreases j - i,
{
    if i < j {
        lemma_word_to(w, i + 1, j);
    }
}

/// A digit is a word character that stays itself in lower case.
proof fn lemma_digit_char(c: char)
    requires
        '0' <= c <= '9',
    ensures
        is_word_char(c),
        !char_is_whitespace(c),
        ascii_lower(c) == c,
{
}

/// A keyword (lower-case ASCII letters that are not a connective), one
/// space and a run of digits lex as two words: the keyword and the number.
proof fn lemma_keyword_number_tokens(kw: Seq<char>, ds: Seq<char>)
    requires
        kw.len() > 0,
        forall|k: int| 0 <= k < kw.len() ==> 'a' <= #[trigger] kw[k] <= 'z',
        word_tok(kw) == TokV::Word(kw),
        ds.len() > 0,
        forall|k: int| 0 <= k < ds.len() ==> '0' <= #[trigger] ds[k] <= '9',
    ensures
        ({
            let q = kw + seq![' '] + ds;
            lex_from(q, 0) == Ok::<Seq<(TokV, int)>, (char, int)>(
                seq![
                    (TokV::Word(kw), byte_offset(q, 0)),
                    (TokV::Word(ds), byte_offset(q, kw.len() as int + 1)),
                ],
            )
        }),
{
    let q = kw + seq![' '] + ds;
    let s: int = kw.len() as int + 1;
    assert forall|k: int| 0 <= k < kw.len() implies is_word_char(#[trigger] q[k]) by {
        assert(q[k] == kw[k]);
    }
    assert(q[kw.len() as int] == ' ');
    assert(!is_word_char(' '));
    lemma_word_to(q, 0, kw.len() as int);
    assert(q.subrange(0, kw.len() as int) =~= kw);
    assert forall|k: int| s <= k < q.len() implies is_word_char(#[trigger] q[k]) by {
        assert(q[k] == ds[k - s]);
        lemma_digit_char(ds[k - s]);
    }
    lemma_word_to_end(q, s);
    assert(q.subrange(s, q.len() as int) =~= ds);
    lemma_digit_char(ds[0]);
    assert(q[s] == ds[0]);
    assert(ascii_lower_seq(ds)[0] == ds[0]);
    reveal_strlit("and");
    reveal_strlit("or");
    reveal_strlit("not");
    assert(ascii_lower_seq(ds) != "and"@);
    assert(ascii_lower_seq(ds) != "or"@);
    assert(ascii_lower_seq(ds) != "not"@);
    assert(word_tok(ds) == TokV::Word(ds));
    assert(lex_from(q, q.len() as int) == Ok::<Seq<(TokV, int)>, (char, int)>(Seq::empty()));
    assert(lex_from(q, s) == Ok::<Seq<(TokV, int)>, (char, int)>(
        seq![(TokV::Word(ds), byte_offset(q, s))],
    ));
    assert(char_is_whitespace(q[kw.len() as int]));
    assert(lex_from(q, kw.len() as int) == lex_from(q, s));
    assert(q[0] == kw[0]);
    assert(seq![(TokV::Word(kw), byte_offset(q, 0))] + seq![(TokV::Word(ds), byte_offset(q, s))]
        =~= seq![(TokV::Word(kw), byte_offset(q, 0)), (TokV::Word(ds), byte_offset(q, s))]);
}

/// The query `udp` selects the UDP packets, DNS included: packet `i` is
/// among the results exactly when its protocol is UDP or DNS.
pub proof fn law_udp_query_selects_udp_and_dns(end: int, recs: Seq<PacketRecord>)
    requires
        recs.len() <= u32::MAX + 1,
    ensures
        spec_parse_filter("udp"@, end) matches Ok(f) && forall|i: int|
            0 <= i < recs.len() ==> (#[trigger] filter_indices(f, recs).contains(i as u32) <==> (
            recs[i].meta.proto == PROTO_UDP || recs[i].meta.proto == PROTO_DNS)),
{
    reveal_strlit("udp");
    reveal_strlit("and");
    reveal_strlit("or");
    reveal_strlit("not");
    let q = "udp"@;
    assert(ascii_lower_seq(q) =~= q);
    law_keyword_terms(seq![(TokV::Word(q), byte_offset(q, 0))], 1, end, q, byte_offset(q, 0));
    let e = ExprV::Proto(ProtoTest::Udp);
    lemma_keyword_query(q, e, end);
    lemma_selected_iff(e, recs);
}

/// A query whose tokens are one term, starting with a word, parses as that
/// term.
proof fn lemma_single_term_query(q: Seq<char>, t: Seq<(TokV, int)>, e: ExprV, end: int)
    requires
        lex_from(q, 0) == Ok::<Seq<(TokV, int)>, (char, int)>(t),
        t.len() > 0,
        t[0].0 is Word,
        p_primary(t, 0, end) == Ok::<(ExprV, int), (FilterErrorKind, int)>((e, t.len() as int)),
    ensures
        spec_parse_filter(q, end) == Ok::<Option<ExprV>, (FilterErrorKind, int)>(Some(e)),
{
    let n = t.len() as int;
    assert(p_unary(t, 0, end) == Ok::<(ExprV, int), (FilterErrorKind, int)>((e, n)));
    assert(p_and_rest(t, n, end, e) == Ok::<(ExprV, int), (FilterErrorKind, int)>((e, n)));
    assert(p_and(t, 0, end) == Ok::<(ExprV, int), (FilterErrorKind, int)>((e, n)));
    assert(p_or_rest(t, n, end, e) == Ok::<(ExprV, int), (FilterErrorKind, int)>((e, n)));
    assert(p_or(t, 0, end) == Ok::<(ExprV, int), (FilterErrorKind, int)>((e, n)));
}

/// `sport`, `dport` or `port` followed by a number is a port term for the
/// source, the destination or either end.
proof fn lemma_port_atom(
    t: Seq<(TokV, int)>,
    end: int,
    kw: Seq<char>,
    side: Side,
    pos: int,
    ds: Seq<char>,
    n: int,
)
    requires
        (kw == "sport"@ && side == Side::Src) || (kw == "dport"@ && side == Side::Dst) || (kw
            == "port"@ && side == Side::Either),
        t.len() == 2,
        t[1].0 == TokV::Word(ds),
        spec_parse_uint(ds, 65535) == Some(n),
    ensures
        p_atom(t, 1, end, kw, pos) == Ok::<(ExprV, int), (FilterErrorKind, int)>(
            (ExprV::Port(side, n as u16), 2),
        ),
{
    reveal_strlit("sport");
    reveal_strlit("dport");
    reveal_strlit("port");
    let lower = ascii_lower_seq(kw);
    assert(lower =~= kw);
    reveal_strlit("tcp");
    reveal_strlit("udp");
    reveal_strlit("dns");
    reveal_strlit("icmp");
    reveal_strlit("icmpv6");
    reveal_strlit("arp");
    reveal_strlit("other");
    reveal_strlit("ipv4");
    reveal_strlit("ipv6");
    reveal_strlit("fin");
    reveal_strlit("syn");
    reveal_strlit("rst");
    reveal_strlit("psh");
    reveal_strlit("ack");
    reveal_strlit("urg");
    reveal_strlit("src");
    reveal_strlit("dst");
    assert(side_of(lower) == side);
    assert(word_after(t, 1, end, lower, pos, "a port number"@) == Ok::<
        (Seq<char>, int),
        (FilterErrorKind, int),
    >((ds, t[1].1)));
}

/// A port keyword, one space and a number parse as that port term.
proof fn lemma_port_query(kw: Seq<char>, side: Side, ds: Seq<char>, n: int, end: int)
    requires
        (kw == "sport"@ && side == Side::Src) || (kw == "dport"@ && side == Side::Dst) || (kw
            == "port"@ && side == Side::Either),
        forall|k: int| 0 <= k < ds.len() ==> '0' <= #[trigger] ds[k] <= '9',
        spec_parse_uint(ds, 65535) == Some(n),
    ensures
        0 <= n <= 65535,
        spec_parse_filter(kw + seq![' '] + ds, end) == Ok::<Option<ExprV>, (FilterErrorKind, int)>(
            Some(ExprV::Port(side, n as u16)),
        ),
{
    reveal_strlit("sport");
    reveal_strlit("dport");
    reveal_strlit("port");
    reveal_strlit("and");
    reveal_strlit("or");
    reveal_strlit("not");
    assert(ascii_lower_seq(kw) =~= kw);
    assert(word_tok(kw) == TokV::Word(kw));
    let q = kw + seq![' '] + ds;
    assert(ds[0] != '+');
    crate::addr::lemma_run_value_nonneg(ds, 0, ds.len() as int, 10);
    lemma_keyword_number_tokens(kw, ds);
    let t = seq![
        (TokV::Word(kw), byte_offset(q, 0)),
        (TokV::Word(ds), byte_offset(q, kw.len() as int + 1)),
    ];
    let e = ExprV::Port(side, n as u16);
    lemma_port_atom(t, end, kw, side, byte_offset(q, 0), ds, n);
    lemma_single_term_query(q, t, e, end);
}

/// The query `sport N` tests the source port and nothing else: packet `i`
/// is among the results exactly when its protocol carries ports (TCP, UDP
/// or DNS) and its source port is `N`, whatever its destination port is.
pub proof fn law_sport_query_tests_the_source_port(
    ds: Seq<char>,
    n: int,
    end: int,
    recs: Seq<PacketRecord>,
)
    requires
        forall|k: int| 0 <= k < ds.len() ==> '0' <= #[trigger] ds[k] <= '9',
        spec_parse_uint(ds, 65535) == Some(n),
        recs.len() <= u32::MAX + 1,
    ensures
        spec_parse_filter("sport "@ + ds, end) matches Ok(f) && forall|i: int|
            0 <= i < recs.len() ==> (#[trigger] filter_indices(f, recs).contains(i as u32) <==> ((
            recs[i].meta.proto == PROTO_TCP || recs[i].meta.proto == PROTO_UDP || recs[i].meta.proto
                == PROTO_DNS) && recs[i].meta.src_port == n)),
{
    reveal_strlit("sport ");
    reveal_strlit("sport");
    assert("sport "@ + ds =~= "sport"@ + seq![' '] + ds);
    lemma_port_query("sport"@, Side::Src, ds, n, end);
    let e = ExprV::Port(Side::Src, n as u16);
    lemma_selected_iff(e, recs);
}

/// The queries `dport N` and `port N` test the destination port and either
/// port: packet `i` is among the results of `dport N` exactly when its
/// protocol carries ports and its destination port is `N`, and among those
/// of `port N` when its protocol carries ports and one of its ports is `N`.
pub proof fn law_dport_and_port_queries_test_their_ports(
    ds: Seq<char>,
    n: int,
    end: int,
    recs: Seq<PacketRecord>,
)
    requires
        forall|k: int| 0 <= k < ds.len() ==> '0' <= #[trigger] ds[k] <= '9',
        spec_parse_uint(ds, 65535) == Some(n),
        recs.len() <= u32::MAX + 1,
    ensures
        spec_parse_filter("dport "@ + ds, end) matches Ok(f) && forall|i: int|
            0 <= i < recs.len() ==> (#[trigger] filter_indices(f, recs).contains(i as u32) <==> ((
            recs[i].meta.proto == PROTO_TCP || recs[i].meta.proto == PROTO_UDP || recs[i].meta.proto
                == PROTO_DNS) && recs[i].meta.dst_port == n)),
        spec_parse_filter("port "@ + ds, end) matches Ok(f) && forall|i: int|
            0 <= i < recs.len() ==> (#[trigger] filter_indices(f, recs).contains(i as u32) <==> ((
            recs[i].meta.proto == PROTO_TCP || recs[i].meta.proto == PROTO_UDP || recs[i].meta.proto
                == PROTO_DNS) && (recs[i].meta.src_port == n || recs[i].meta.dst_port == n))),
{
    reveal_strlit("dport ");
    reveal_strlit("dport");
    reveal_strlit("port ");
    reveal_strlit("port");
    assert("dport "@ + ds =~= "dport"@ + seq![' '] + ds);
    assert("port "@ + ds =~= "port"@ + seq![' '] + ds);
    lemma_port_query("dport"@, Side::Dst, ds, n, end);
    lemma_port_query("port"@, Side::Either, ds, n, end);
    lemma_selected_iff(ExprV::Port(Side::Dst, n as u16), recs);
    lemma_selected_iff(ExprV::Port(Side::Either, n as u16), recs);
}

/// A query that is one lower-case keyword (ASCII letters and digits, not a
/// connective) parses as the term that keyword stands for.
proof fn lemma_keyword_query(kw: Seq<char>, e: ExprV, end: int)
    requires
        kw.len() > 0,
        forall|k: int| 0 <= k < kw.len() ==> ('a' <= #[trigger] kw[k] <= 'z') || ('0' <= kw[k] <= '9'),
        kw != "and"@ && kw != "or"@ && kw != "not"@,
        p_atom(seq![(TokV::Word(kw), byte_offset(kw, 0))], 1, end, kw, byte_offset(kw, 0)) == Ok::<
            (ExprV, int),
            (FilterErrorKind, int),
        >((e, 1)),
    ensures
        spec_parse_filter(kw, end) == Ok::<Option<ExprV>, (FilterErrorKind, int)>(Some(e)),
{
    assert forall|k: int| 0 <= k < kw.len() implies is_word_char(#[trigger] kw[k]) && ascii_lower(
        kw[k],
    ) == kw[k] by {}
    assert(ascii_lower_seq(kw) =~= kw);
    assert(word_tok(kw) == TokV::Word(kw));
    lemma_word_to_end(kw, 0);
    assert(kw.subrange(0, kw.len() as int) =~= kw);
    assert(lex_from(kw, kw.len() as int) == Ok::<Seq<(TokV, int)>, (char, int)>(Seq::empty()));
    let t = seq![(TokV::Word(kw), byte_offset(kw, 0))];
    assert(is_word_char(kw[0]) && !char_is_whitespace(kw[0]));
    assert(lex_from(kw, 0) == Ok::<Seq<(TokV, int)>, (char, int)>(t)) by {
        assert(seq![(TokV::Word(kw), byte_offset(kw, 0))] + Seq::<(TokV, int)>::empty() =~= t);
    }
    lemma_single_term_query(kw, t, e, end);
}

/// A protocol keyword on its own is a query for its protocol test.
proof fn lemma_protocol_keyword_query(kw: Seq<char>, e: ExprV, end: int)
    requires
        (kw == "tcp"@ && e == ExprV::Proto(ProtoTest::Exact(PROTO_TCP))) || (kw == "dns"@ && e
            == ExprV::Proto(ProtoTest::Exact(PROTO_DNS))) || (kw == "arp"@ && e == ExprV::Proto(
            ProtoTest::Exact(PROTO_ARP),
        )) || (kw == "other"@ && e == ExprV::Proto(ProtoTest::Exact(PROTO_OTHER))) || (kw
            == "ipv4"@ && e == ExprV::Proto(ProtoTest::Ipv4)) || (kw == "ipv6"@ && e == ExprV::Proto(
            ProtoTest::Ipv6,
        )) || (kw == "icmp"@ && e == ExprV::Proto(ProtoTest::Exact(PROTO_ICMP))) || (kw
            == "icmpv6"@ && e == ExprV::Proto(ProtoTest::Exact(PROTO_ICMPV6))),
    ensures
        spec_parse_filter(kw, end) == Ok::<Option<ExprV>, (FilterErrorKind, int)>(Some(e)),
{
    reveal_strlit("tcp");
    reveal_strlit("dns");
    reveal_strlit("arp");
    reveal_strlit("other");
    reveal_strlit("ipv4");
    reveal_strlit("ipv6");
    reveal_strlit("icmp");
    reveal_strlit("icmpv6");
    reveal_strlit("and");
    reveal_strlit("or");
    reveal_strlit("not");
    assert(ascii_lower_seq(kw) =~= kw);
    let t = seq![(TokV::Word(kw), byte_offset(kw, 0))];
    law_keyword_terms(t, 1, end, kw, byte_offset(kw, 0));
    lemma_keyword_query(kw, e, end);
}

/// Each protocol keyword query selects the packets of its protocol:
/// `tcp`, `dns`, `arp` and `other` the packets with that protocol, `ipv4`
/// the IPv4 packets (not ARP, which also carries IPv4 addresses), `ipv6`
/// the IPv6 packets, and the control-message keywords their protocol.
pub proof fn law_protocol_queries_select_their_protocol(end: int, recs: Seq<PacketRecord>)
    requires
        recs.len() <= u32::MAX + 1,
    ensures
        spec_parse_filter("tcp"@, end) matches Ok(f) && forall|i: int|
            0 <= i < recs.len() ==> (#[trigger] filter_indices(f, recs).contains(i as u32)
                <==> recs[i].meta.proto == PROTO_TCP),
        spec_parse_filter("dns"@, end) matches Ok(f) && forall|i: int|
            0 <= i < recs.len() ==> (#[trigger] filter_indices(f, recs).contains(i as u32)
                <==> recs[i].meta.proto == PROTO_DNS),
        spec_parse_filter("arp"@, end) matches Ok(f) && forall|i: int|
            0 <= i < recs.len() ==> (#[trigger] filter_indices(f, recs).contains(i as u32)
                <==> recs[i].meta.proto == PROTO_ARP),
        spec_parse_filter("other"@, end) matches Ok(f) && forall|i: int|
            0 <= i < recs.len() ==> (#[trigger] filter_indices(f, recs).contains(i as u32)
                <==> recs[i].meta.proto == PROTO_OTHER),
        spec_parse_filter("ipv4"@, end) matches Ok(f) && forall|i: int|
            0 <= i < recs.len() ==> (#[trigger] filter_indices(f, recs).contains(i as u32) <==> (
            recs[i].meta.ip_version == 4 && recs[i].meta.proto != PROTO_ARP)),
        spec_parse_filter("ipv6"@, end) matches Ok(f) && forall|i: int|
            0 <= i < recs.len() ==> (#[trigger] filter_indices(f, recs).contains(i as u32)
                <==> recs[i].meta.ip_version == 6),
        spec_parse_filter("icmp"@, end) matches Ok(f) && forall|i: int|
            0 <= i < recs.len() ==> (#[trigger] filter_indices(f, recs).contains(i as u32)
                <==> recs[i].meta.proto == PROTO_ICMP),
        spec_parse_filter("icmpv6"@, end) matches Ok(f) && forall|i: int|
            0 <= i < recs.len() ==> (#[trigger] filter_indices(f, recs).contains(i as u32)
                <==> recs[i].meta.proto == PROTO_ICMPV6),
{
    assert(spec_parse_filter("tcp"@, end) == Ok::<Option<ExprV>, (FilterErrorKind, int)>(
        Some(ExprV::Proto(ProtoTest::Exact(PROTO_TCP))),
    )) by {
        lemma_protocol_keyword_query("tcp"@, ExprV::Proto(ProtoTest::Exact(PROTO_TCP)), end);
    }
    lemma_selected_iff(ExprV::Proto(ProtoTest::Exact(PROTO_TCP)), recs);
    assert(spec_parse_filter("dns"@, end) == Ok::<Option<ExprV>, (FilterErrorKind, int)>(
        Some(ExprV::Proto(ProtoTest::Exact(PROTO_DNS))),
    )) by {
        lemma_protocol_keyword_query("dns"@, ExprV::Proto(ProtoTest::Exact(PROTO_DNS)), end);
    }
    lemma_selected_iff(ExprV::Proto(ProtoTest::Exact(PROTO_DNS)), recs);
    assert(spec_parse_filter("arp"@, end) == Ok::<Option<ExprV>, (FilterErrorKind, int)>(
        Some(ExprV::Proto(ProtoTest::Exact(PROTO_ARP))),
    )) by {
        lemma_protocol_keyword_query("arp"@, ExprV::Proto(ProtoTest::Exact(PROTO_ARP)), end);
    }
    lemma_selected_iff(ExprV::Proto(ProtoTest::Exact(PROTO_ARP)), recs);
    assert(spec_parse_filter("other"@, end) == Ok::<Option<ExprV>, (FilterErrorKind, int)>(
        Some(ExprV::Proto(ProtoTest::Exact(PROTO_OTHER))),
    )) by {
        lemma_protocol_keyword_query("other"@, ExprV::Proto(ProtoTest::Exact(PROTO_OTHER)), end);
    }
    lemma_selected_iff(ExprV::Proto(ProtoTest::Exact(PROTO_OTHER)), recs);
    assert(spec_parse_filter("ipv4"@, end) == Ok::<Option<ExprV>, (FilterErrorKind, int)>(
        Some(ExprV::Proto(ProtoTest::Ipv4)),
    )) by {
        lemma_protocol_keyword_query("ipv4"@, ExprV::Proto(ProtoTest::Ipv4), end);
    }
    lemma_selected_iff(ExprV::Proto(ProtoTest::Ipv4), recs);
    assert(spec_parse_filter("ipv6"@, end) == Ok::<Option<ExprV>, (FilterErrorKind, int)>(
        Some(ExprV::Proto(ProtoTest::Ipv6)),
    )) by {
        lemma_protocol_keyword_query("ipv6"@, ExprV::Proto(ProtoTest::Ipv6), end);
    }
    lemma_selected_iff(ExprV::Proto(ProtoTest::Ipv6), recs);
    assert(spec_parse_filter("icmp"@, end) == Ok::<Option<ExprV>, (FilterErrorKind, int)>(
        Some(ExprV::Proto(ProtoTest::Exact(PROTO_ICMP))),
    )) by {
        lemma_protocol_keyword_query("icmp"@, ExprV::Proto(ProtoTest::Exact(PROTO_ICMP)), end);
    }
    lemma_selected_iff(ExprV::Proto(ProtoTest::Exact(PROTO_ICMP)), recs);
    assert(spec_parse_filter("icmpv6"@, end) == Ok::<Option<ExprV>, (FilterErrorKind, int)>(
        Some(ExprV::Proto(ProtoTest::Exact(PROTO_ICMPV6))),
    )) by {
        lemma_protocol_keyword_query("icmpv6"@, ExprV::Proto(ProtoTest::Exact(PROTO_ICMPV6)), end);
    }
    lemma_selected_iff(ExprV::Proto(ProtoTest::Exact(PROTO_ICMPV6)), recs);
}

/// A TCP flag keyword on its own is a query for that flag bit.
proof fn lemma_flag_keyword_query(kw: Seq<char>, bit: u16, end: int)
    requires
        (kw == "fin"@ && bit == 0x01) || (kw == "syn"@ && bit == 0x02) || (kw == "rst"@ && bit
            == 0x04) || (kw == "psh"@ && bit == 0x08) || (kw == "ack"@ && bit == 0x10) || (kw
            == "urg"@ && bit == 0x20),
    ensures
        spec_parse_filter(kw, end) == Ok::<Option<ExprV>, (FilterErrorKind, int)>(
            Some(ExprV::Flag(bit)),
        ),
{
    reveal_strlit("fin");
    reveal_strlit("syn");
    reveal_strlit("rst");
    reveal_strlit("psh");
    reveal_strlit("ack");
    reveal_strlit("urg");
    reveal_strlit("and");
    reveal_strlit("or");
    reveal_strlit("not");
    assert(ascii_lower_seq(kw) =~= kw);
    let t = seq![(TokV::Word(kw), byte_offset(kw, 0))];
    law_keyword_terms(t, 1, end, kw, byte_offset(kw, 0));
    lemma_keyword_query(kw, ExprV::Flag(bit), end);
}

/// Each TCP flag keyword selects the TCP packets with that flag set: `fin`
/// bit 0 of the flags byte, `syn` bit 1, `rst` bit 2, `psh` bit 3, `ack`
/// bit 4 and `urg` bit 5; packets of other protocols never match.
pub proof fn law_flag_queries_select_tcp_with_the_flag(end: int, recs: Seq<PacketRecord>)
    requires
        recs.len() <= u32::MAX + 1,
    ensures
        spec_parse_filter("fin"@, end) matches Ok(f) && forall|i: int|
            0 <= i < recs.len() ==> (#[trigger] filter_indices(f, recs).contains(i as u32) <==> (
            recs[i].meta.proto == PROTO_TCP && recs[i].meta.detail % 2 == 1)),
        spec_parse_filter("syn"@, end) matches Ok(f) && forall|i: int|
            0 <= i < recs.len() ==> (#[trigger] filter_indices(f, recs).contains(i as u32) <==> (
            recs[i].meta.proto == PROTO_TCP && (recs[i].meta.detail / 2) % 2 == 1)),
        spec_parse_filter("rst"@, end) matches Ok(f) && forall|i: int|
            0 <= i < recs.len() ==> (#[trigger] filter_indices(f, recs).contains(i as u32) <==> (
            recs[i].meta.proto == PROTO_TCP && (recs[i].meta.detail / 4) % 2 == 1)),
        spec_parse_filter("psh"@, end) matches Ok(f) && forall|i: int|
            0 <= i < recs.len() ==> (#[trigger] filter_indices(f, recs).contains(i as u32) <==> (
            recs[i].meta.proto == PROTO_TCP && (recs[i].meta.detail / 8) % 2 == 1)),
        spec_parse_filter("ack"@, end) matches Ok(f) && forall|i: int|
            0 <= i < recs.len() ==> (#[trigger] filter_indices(f, recs).contains(i as u32) <==> (
            recs[i].meta.proto == PROTO_TCP && (recs[i].meta.detail / 16) % 2 == 1)),
        spec_parse_filter("urg"@, end) matches Ok(f) && forall|i: int|
            0 <= i < recs.len() ==> (#[trigger] filter_indices(f, recs).contains(i as u32) <==> (
            recs[i].meta.proto == PROTO_TCP && (recs[i].meta.detail / 32) % 2 == 1)),
{
    lemma_flag_keyword_query("fin"@, 0x01, end);
    assert(forall|x: u16| (x & 0x01u16) != 0 <==> x % 2 == 1) by (bit_vector);
    lemma_selected_iff(ExprV::Flag(0x01), recs);
    lemma_flag_keyword_query("syn"@, 0x02, end);
    assert(forall|x: u16| (x & 0x02u16) != 0 <==> (x / 2) % 2 == 1) by (bit_vector);
    lemma_selected_iff(ExprV::Flag(0x02), recs);
    lemma_flag_keyword_query("rst"@, 0x04, end);
    assert(forall|x: u16| (x & 0x04u16) != 0 <==> (x / 4) % 2 == 1) by (bit_vector);
    lemma_selected_iff(ExprV::Flag(0x04), recs);
    lemma_flag_keyword_query("psh"@, 0x08, end);
    assert(forall|x: u16| (x & 0x08u16) != 0 <==> (x / 8) % 2 == 1) by (bit_vector);
    lemma_selected_iff(ExprV::Flag(0x08), recs);
    lemma_flag_keyword_query("ack"@, 0x10, end);
    assert(forall|x: u16| (x & 0x10u16) != 0 <==> (x / 16) % 2 == 1) by (bit_vector);
    lemma_selected_iff(ExprV::Flag(0x10), recs);
    lemma_flag_keyword_query("urg"@, 0x20, end);
    assert(forall|x: u16| (x & 0x20u16) != 0 <==> (x / 32) % 2 == 1) by (bit_vector);
    lemma_selected_iff(ExprV::Flag(0x20), recs);
}

} // verus!
