//! Byte-level primitives of the canonical JSON text that carries a frame's
//! header: decimal number rendering and parsing, string escaping and
//! unescaping, and object-member parsing, each with an exact round-trip proof.

use vstd::prelude::*;

verus! {

// ---------------------------------------------------------------------------
// Byte classes
// ---------------------------------------------------------------------------
pub open spec fn is_dec_digit(b: u8) -> bool {
    0x30 <= b <= 0x39
}

/// The lower-case hex digit for a value below 16.
pub open spec fn spec_hex_digit(v: int) -> u8
    recommends
        0 <= v < 16,
{
    if v < 10 {
        (0x30 + v) as u8
    } else {
        (0x57 + v) as u8
    }
}

pub open spec fn is_hex_lower(b: u8) -> bool {
    is_dec_digit(b) || (0x61 <= b <= 0x66)
}

pub open spec fn spec_hex_val(b: u8) -> int {
    if is_dec_digit(b) {
        b - 0x30
    } else {
        b - 0x57
    }
}

proof fn lemma_hex_digit_roundtrip(v: int)
    requires
        0 <= v < 16,
    ensures
        is_hex_lower(spec_hex_digit(v)),
        spec_hex_val(spec_hex_digit(v)) == v,
{
}

// ---------------------------------------------------------------------------
// Decimal numbers
// ---------------------------------------------------------------------------
/// The shortest decimal rendering of `n`.
pub open spec fn spec_digits(n: u64) -> Seq<u8>
    decreases n,
{
    if n < 10 {
        seq![(0x30 + n) as u8]
    } else {
        spec_digits((n / 10) as u64).push((0x30 + n % 10) as u8)
    }
}

/// Greedy digit consumption with accumulator; `None` on `u64` overflow.
pub open spec fn spec_parse_num(s: Seq<u8>, acc: u64) -> Option<(u64, Seq<u8>)>
    decreases s.len(),
{
    if s.len() > 0 && is_dec_digit(s[0]) {
        let d = (s[0] - 0x30) as u64;
        if acc > (u64::MAX - d) / 10 {
            None
        } else {
            spec_parse_num(s.skip(1), (acc * 10 + d) as u64)
        }
    } else {
        Some((acc, s))
    }
}

/// Parses a decimal `u64` at the head of `s`; at least one digit is required.
pub open spec fn spec_parse_u64(s: Seq<u8>) -> Option<(u64, Seq<u8>)> {
    if s.len() > 0 && is_dec_digit(s[0]) {
        spec_parse_num(s, 0)
    } else {
        None
    }
}

pub open spec fn pow10(k: nat) -> nat
    decreases k,
{
    if k == 0 {
        1
    } else {
        10 * pow10((k - 1) as nat)
    }
}

proof fn lemma_digits_len(n: u64)
    ensures
        spec_digits(n).len() >= 1,
        is_dec_digit(spec_digits(n)[0]),
    decreases n,
{
    if n >= 10 {
        lemma_digits_len((n / 10) as u64);
    }
}

proof fn lemma_parse_num_digits(n: u64, rest: Seq<u8>, acc: u64)
    requires
        acc * pow10(spec_digits(n).len()) + n <= u64::MAX,
    ensures
        spec_parse_num(spec_digits(n) + rest, acc) == spec_parse_num(
            rest,
            (acc * pow10(spec_digits(n).len()) + n) as u64,
        ),
    decreases n,
{
    let k = spec_digits(n).len();
    if n < 10 {
        let s = spec_digits(n) + rest;
        assert(pow10(0) == 1);
        assert(pow10(1) == 10);
        assert(s[0] == (0x30 + n) as u8);
        assert(is_dec_digit(s[0]));
        let d = (s[0] - 0x30) as u64;
        assert(d == n);
        assert(acc * 10 + n <= u64::MAX);
        assert(acc <= (u64::MAX - d) / 10) by (nonlinear_arith)
            requires
                acc * 10 + d <= u64::MAX,
                d <= u64::MAX,
        ;
        assert(s.skip(1) =~= rest);
    } else {
        let hi = (n / 10) as u64;
        let d2 = (0x30 + n % 10) as u8;
        let kh = spec_digits(hi).len();
        assert(spec_digits(n) == spec_digits(hi).push(d2));
        assert(k == kh + 1);
        assert(pow10(k) == 10 * pow10(kh));
        let tail = seq![d2] + rest;
        assert(spec_digits(n) + rest =~= spec_digits(hi) + tail);
        // the value accumulated after the leading digits stays in range
        let mid = acc * pow10(kh) + hi;
        assert(mid * 10 + (n % 10) == acc * pow10(k) + n) by (nonlinear_arith)
            requires
                mid == acc * pow10(kh) + hi,
                hi == n / 10,
                pow10(k) == 10 * pow10(kh),
                n >= 10,
        ;
        assert(mid <= u64::MAX) by (nonlinear_arith)
            requires
                mid * 10 + (n % 10) <= u64::MAX,
                mid >= 0,
                n % 10 >= 0,
        ;
        lemma_parse_num_digits(hi, tail, acc);
        let m64 = mid as u64;
        assert(spec_parse_num(spec_digits(hi) + tail, acc) == spec_parse_num(tail, m64));
        // one more unfolding step for the final digit
        assert(tail[0] == d2 && is_dec_digit(d2));
        let d = (d2 - 0x30) as u64;
        assert(d == n % 10);
        assert(m64 <= (u64::MAX - d) / 10) by (nonlinear_arith)
            requires
                m64 * 10 + d <= u64::MAX,
                d <= u64::MAX,
        ;
        assert(tail.skip(1) =~= rest);
        assert(spec_parse_num(tail, m64) == spec_parse_num(rest, (m64 * 10 + d) as u64));
    }
}

/// The decimal digits of `n`, followed by anything that does not begin with
/// a digit, parse back to exactly `n`.
pub proof fn lemma_parse_u64_roundtrip(n: u64, rest: Seq<u8>)
    requires
        rest.len() == 0 || !is_dec_digit(rest[0]),
    ensures
        spec_parse_u64(spec_digits(n) + rest) == Some((n, rest)),
{
    lemma_digits_len(n);
    let s = spec_digits(n) + rest;
    assert(s[0] == spec_digits(n)[0]);
    assert(0 * pow10(spec_digits(n).len()) + n <= u64::MAX) by (nonlinear_arith);
    lemma_parse_num_digits(n, rest, 0);
    assert(0 * pow10(spec_digits(n).len()) + n == n) by (nonlinear_arith);
    if rest.len() > 0 {
        assert(!is_dec_digit(rest[0]));
    }
}

// ---------------------------------------------------------------------------
// String escaping
// ---------------------------------------------------------------------------
/// How one byte of string content appears inside a JSON string literal:
/// quote and backslash are escaped, control bytes become `\u00XX`, and
/// everything else (UTF-8 continuation bytes included) passes through.
pub open spec fn spec_esc_byte(b: u8) -> Seq<u8> {
    if b == 0x22 {
        seq![0x5cu8, 0x22u8]
    } else if b == 0x5c {
        seq![0x5cu8, 0x5cu8]
    } else if b < 0x20 {
        seq![0x5cu8, 0x75u8, 0x30u8, 0x30u8, spec_hex_digit(b as int / 16), spec_hex_digit(b as int % 16)]
    } else {
        seq![b]
    }
}

/// The escaped form of a whole byte string.
pub open spec fn spec_escape(bs: Seq<u8>) -> Seq<u8>
    decreases bs.len(),
{
    if bs.len() == 0 {
        Seq::empty()
    } else {
        spec_esc_byte(bs[0]) + spec_escape(bs.skip(1))
    }
}

pub proof fn lemma_escape_snoc(bs: Seq<u8>, b: u8)
    ensures
        spec_escape(bs.push(b)) == spec_escape(bs) + spec_esc_byte(b),
    decreases bs.len(),
{
    assert(bs.push(b)[0] == if bs.len() == 0 {
        b
    } else {
        bs[0]
    });
    if bs.len() == 0 {
        assert(bs.push(b).skip(1) =~= Seq::<u8>::empty());
        assert(spec_escape(Seq::<u8>::empty()) =~= Seq::<u8>::empty());
        assert(spec_escape(bs.push(b)) == spec_esc_byte(b) + spec_escape(Seq::<u8>::empty()));
        assert(spec_escape(bs.push(b)) =~= spec_esc_byte(b));
        assert(spec_escape(bs) + spec_esc_byte(b) =~= spec_esc_byte(b));
    } else {
        assert(bs.push(b).skip(1) =~= bs.skip(1).push(b));
        lemma_escape_snoc(bs.skip(1), b);
        assert(spec_escape(bs.push(b)) =~= spec_escape(bs) + spec_esc_byte(b));
    }
}

/// The body of a JSON string literal: content up to and including the closing
/// quote.  Returns the unescaped content and the bytes after the quote.
pub open spec fn spec_parse_strbody(s: Seq<u8>) -> Option<(Seq<u8>, Seq<u8>)>
    decreases s.len(),
{
    if s.len() == 0 {
        None
    } else if s[0] == 0x22 {
        Some((Seq::empty(), s.skip(1)))
    } else if s[0] == 0x5c {
        if s.len() >= 2 && (s[1] == 0x22 || s[1] == 0x5c) {
            match spec_parse_strbody(s.skip(2)) {
                Some((c, r)) => Some((seq![s[1]] + c, r)),
                None => None,
            }
        } else if s.len() >= 6 && s[1] == 0x75 && s[2] == 0x30 && s[3] == 0x30 && (s[4] == 0x30
            || s[4] == 0x31) && is_hex_lower(s[5]) {
            let b = ((s[4] - 0x30) * 16 + spec_hex_val(s[5])) as u8;
            match spec_parse_strbody(s.skip(6)) {
                Some((c, r)) => Some((seq![b] + c, r)),
                None => None,
            }
        } else {
            None
        }
    } else if s[0] >= 0x20 {
        match spec_parse_strbody(s.skip(1)) {
            Some((c, r)) => Some((seq![s[0]] + c, r)),
            None => None,
        }
    } else {
        None
    }
}

/// Whatever a string parse returns, it consumed at least the closing quote.
pub proof fn lemma_strbody_rest_shorter(s: Seq<u8>)
    ensures
        match spec_parse_strbody(s) {
            Some((c, r)) => r.len() < s.len(),
            None => true,
        },
    decreases s.len(),
{
    if s.len() == 0 {
    } else if s[0] == 0x22 {
    } else if s[0] == 0x5c {
        if s.len() >= 2 && (s[1] == 0x22 || s[1] == 0x5c) {
            lemma_strbody_rest_shorter(s.skip(2));
        } else if s.len() >= 6 && s[1] == 0x75 && s[2] == 0x30 && s[3] == 0x30 && (s[4] == 0x30
            || s[4] == 0x31) && is_hex_lower(s[5]) {
            lemma_strbody_rest_shorter(s.skip(6));
        }
    } else if s[0] >= 0x20 {
        lemma_strbody_rest_shorter(s.skip(1));
    }
}

/// Escaped content, a closing quote, and a tail parse back to exactly the
/// content and the tail.
pub proof fn lemma_strbody_roundtrip(bs: Seq<u8>, rest: Seq<u8>)
    ensures
        spec_parse_strbody(spec_escape(bs) + seq![0x22u8] + rest) == Some((bs, rest)),
    decreases bs.len(),
{
    let s = spec_escape(bs) + seq![0x22u8] + rest;
    if bs.len() == 0 {
        assert(s =~= seq![0x22u8] + rest);
        assert(s[0] == 0x22);
        assert(s.skip(1) =~= rest);
        assert(spec_parse_strbody(s) == Some((Seq::<u8>::empty(), rest)));
        assert(bs =~= Seq::<u8>::empty());
    } else {
        let b = bs[0];
        let tail = bs.skip(1);
        let inner = spec_escape(tail) + seq![0x22u8] + rest;
        assert(s =~= spec_esc_byte(b) + inner);
        lemma_strbody_roundtrip(tail, rest);
        if b == 0x22 {
            assert(s[0] == 0x5c && s[1] == 0x22);
            assert(s.skip(2) =~= inner);
            assert(spec_parse_strbody(s) == Some((seq![b] + tail, rest)));
        } else if b == 0x5c {
            assert(s[0] == 0x5c && s[1] == 0x5c);
            assert(s.skip(2) =~= inner);
            assert(spec_parse_strbody(s) == Some((seq![b] + tail, rest)));
        } else if b < 0x20 {
            assert(s[0] == 0x5c && s[1] == 0x75 && s[2] == 0x30 && s[3] == 0x30);
            assert(s[4] == spec_hex_digit(b as int / 16));
            assert(s[5] == spec_hex_digit(b as int % 16));
            assert(b as int / 16 < 2);
            lemma_hex_digit_roundtrip(b as int / 16);
            lemma_hex_digit_roundtrip(b as int % 16);
            assert(s[4] == 0x30 || s[4] == 0x31);
            assert(is_hex_lower(s[5]));
            assert(((s[4] - 0x30) * 16 + spec_hex_val(s[5])) as u8 == b);
            assert(s.skip(6) =~= inner);
            assert(spec_parse_strbody(s) == Some((seq![b] + tail, rest)));
        } else {
            assert(s[0] == b && b != 0x22 && b != 0x5c && b >= 0x20);
            assert(s.skip(1) =~= inner);
            assert(spec_parse_strbody(s) == Some((seq![b] + tail, rest)));
        }
        assert(seq![b] + tail =~= bs);
    }
}

// ---------------------------------------------------------------------------
// Object members (the ext-fields mapping)
// ---------------------------------------------------------------------------
/// One `"key":"value"` member.
pub open spec fn spec_encode_pair(p: (Seq<u8>, Seq<u8>)) -> Seq<u8> {
    seq![0x22u8] + spec_escape(p.0) + seq![0x22u8, 0x3au8, 0x22u8] + spec_escape(p.1) + seq![0x22u8]
}

/// The members of an object, comma separated, up to and including the
/// closing brace.  The opening brace is not part of this encoding.
pub open spec fn spec_encode_pairs(ps: Seq<(Seq<u8>, Seq<u8>)>) -> Seq<u8>
    decreases ps.len(),
{
    if ps.len() == 0 {
        seq![0x7du8]
    } else if ps.len() == 1 {
        spec_encode_pair(ps[0]) + seq![0x7du8]
    } else {
        spec_encode_pair(ps[0]) + seq![0x2cu8] + spec_encode_pairs(ps.skip(1))
    }
}

/// Parses object members after the opening brace, through the closing brace.
/// Returns the key/value pairs and the bytes after the brace.
pub open spec fn spec_parse_pairs(s: Seq<u8>) -> Option<(Seq<(Seq<u8>, Seq<u8>)>, Seq<u8>)>
    decreases s.len(),
    when true
    via spec_parse_pairs_decreases
{
    if s.len() == 0 {
        None
    } else if s[0] == 0x7d {
        Some((Seq::empty(), s.skip(1)))
    } else if s[0] == 0x22 {
        match spec_parse_strbody(s.skip(1)) {
            None => None,
            Some((k, r1)) => if r1.len() >= 2 && r1[0] == 0x3a && r1[1] == 0x22 {
                match spec_parse_strbody(r1.skip(2)) {
                    None => None,
                    Some((v, r2)) => if r2.len() >= 2 && r2[0] == 0x2c && r2[1] == 0x22 {
                        match spec_parse_pairs(r2.skip(1)) {
                            None => None,
                            Some((more, r3)) => Some((seq![(k, v)] + more, r3)),
                        }
                    } else if r2.len() >= 1 && r2[0] == 0x7d {
                        Some((seq![(k, v)], r2.skip(1)))
                    } else {
                        None
                    },
                }
            } else {
                None
            },
        }
    } else {
        None
    }
}

#[via_fn]
proof fn spec_parse_pairs_decreases(s: Seq<u8>) {
    if s.len() > 0 && s[0] == 0x22 {
        lemma_strbody_rest_shorter(s.skip(1));
        match spec_parse_strbody(s.skip(1)) {
            None => {},
            Some((k, r1)) => {
                if r1.len() >= 2 && r1[0] == 0x3a && r1[1] == 0x22 {
                    lemma_strbody_rest_shorter(r1.skip(2));
                }
            },
        }
    }
}

/// Encoded members followed by a tail parse back to exactly those members
/// and the tail.
#[verifier::rlimit(60)]
pub proof fn lemma_pairs_roundtrip(ps: Seq<(Seq<u8>, Seq<u8>)>, rest: Seq<u8>)
    ensures
        spec_parse_pairs(spec_encode_pairs(ps) + rest) == Some((ps, rest)),
    decreases ps.len(),
{
    let s = spec_encode_pairs(ps) + rest;
    if ps.len() == 0 {
        assert(s =~= seq![0x7du8] + rest);
        assert(s[0] == 0x7d);
        assert(s.skip(1) =~= rest);
        assert(ps =~= Seq::<(Seq<u8>, Seq<u8>)>::empty());
    } else {
        let p = ps[0];
        let sep: Seq<u8> = if ps.len() == 1 {
            seq![0x7du8]
        } else {
            seq![0x2cu8] + spec_encode_pairs(ps.skip(1))
        };
        assert(s =~= spec_encode_pair(p) + sep + rest);
        assert(s[0] == 0x22);
        // the key string
        let tail_k = seq![0x3au8, 0x22u8] + spec_escape(p.1) + seq![0x22u8] + sep + rest;
        assert(s.skip(1) =~= spec_escape(p.0) + seq![0x22u8] + tail_k);
        lemma_strbody_roundtrip(p.0, tail_k);
        assert(spec_parse_strbody(s.skip(1)) == Some((p.0, tail_k)));
        assert(tail_k[0] == 0x3a && tail_k[1] == 0x22);
        // the value string
        let tail_v = sep + rest;
        assert(tail_k.skip(2) =~= spec_escape(p.1) + seq![0x22u8] + tail_v);
        lemma_strbody_roundtrip(p.1, tail_v);
        assert(spec_parse_strbody(tail_k.skip(2)) == Some((p.1, tail_v)));
        if ps.len() == 1 {
            assert(tail_v[0] == 0x7d);
            assert(tail_v.skip(1) =~= rest);
            assert(seq![(p.0, p.1)] =~= ps);
        } else {
            assert(tail_v[0] == 0x2c);
            lemma_pairs_first_byte(ps.skip(1));
            assert(tail_v[1] == 0x22);
            assert(tail_v.skip(1) =~= spec_encode_pairs(ps.skip(1)) + rest);
            lemma_pairs_roundtrip(ps.skip(1), rest);
            assert(seq![(p.0, p.1)] + ps.skip(1) =~= ps);
        }
    }
}

/// A non-empty member list encodes to bytes that begin with a quote.
proof fn lemma_pairs_first_byte(ps: Seq<(Seq<u8>, Seq<u8>)>)
    requires
        ps.len() >= 1,
    ensures
        spec_encode_pairs(ps).len() >= 1,
        spec_encode_pairs(ps)[0] == 0x22,
{
    assert(spec_encode_pair(ps[0])[0] == 0x22);
}

// ---------------------------------------------------------------------------
// Executable encoding
// ---------------------------------------------------------------------------
fn hex_digit(v: u8) -> (r: u8)
    requires
        v < 16,
    ensures
        r == spec_hex_digit(v as int),
{
    if v < 10 {
        0x30 + v
    } else {
        0x57 + v
    }
}

/// Appends the shortest decimal rendering of `n`.
pub fn push_u64_decimal(out: &mut Vec<u8>, n: u64)
    ensures
        final(out)@ == old(out)@ + spec_digits(n),
    decreases n,
{
    if n < 10 {
        out.push(0x30 + n as u8);
        assert(out@ =~= old(out)@ + spec_digits(n));
    } else {
        push_u64_decimal(out, n / 10);
        out.push(0x30 + (n % 10) as u8);
        assert(out@ =~= old(out)@ + spec_digits(n));
    }
}

/// Appends the escaped form of `s`, as it appears inside a string literal.
pub fn push_escaped(out: &mut Vec<u8>, s: &[u8])
    ensures
        final(out)@ == old(out)@ + spec_escape(s@),
{
    let len: usize = s.len();
    let mut i: usize = 0;
    assert(out@ =~= old(out)@ + spec_escape(s@.take(0)));
    while i < len
        invariant
            i <= len,
            len == s@.len(),
            out@ == old(out)@ + spec_escape(s@.take(i as int)),
        decreases len - i,
    {
        let b: u8 = s[i];
        if b == 0x22 {
            out.push(0x5c);
            out.push(0x22);
        } else if b == 0x5c {
            out.push(0x5c);
            out.push(0x5c);
        } else if b < 0x20 {
            out.push(0x5c);
            out.push(0x75);
            out.push(0x30);
            out.push(0x30);
            out.push(hex_digit(b / 16));
            out.push(hex_digit(b % 16));
        } else {
            out.push(b);
        }
        proof {
            lemma_escape_snoc(s@.take(i as int), b);
            assert(s@.take(i as int).push(b) =~= s@.take(i + 1));
            assert(out@ =~= old(out)@ + spec_escape(s@.take(i + 1)));
        }
        i = i + 1;
    }
    assert(s@.take(len as int) =~= s@);
}

// ---------------------------------------------------------------------------
// Executable parsing
// ---------------------------------------------------------------------------
/// Parses a decimal `u64` beginning at `pos`; returns the value and the
/// position just past its digits.
pub fn parse_u64_at(data: &[u8], pos: usize) -> (r: Option<(u64, usize)>)
    requires
        pos <= data@.len(),
    ensures
        match r {
            Some(t) => t.1 <= data@.len() && spec_parse_u64(data@.skip(pos as int)) == Some(
                (t.0, data@.skip(t.1 as int)),
            ),
            None => spec_parse_u64(data@.skip(pos as int)) is None,
        },
{
    let len: usize = data.len();
    if pos >= len || data[pos] < 0x30 || data[pos] > 0x39 {
        return None;
    }
    let mut i: usize = pos;
    let mut acc: u64 = 0;
    loop
        invariant
            pos <= i <= len,
            len == data@.len(),
            spec_parse_num(data@.skip(pos as int), 0) == spec_parse_num(
                data@.skip(i as int),
                acc,
            ),
            spec_parse_u64(data@.skip(pos as int)) == spec_parse_num(data@.skip(pos as int), 0),
        decreases len - i,
    {
        if i >= len || data[i] < 0x30 || data[i] > 0x39 {
            assert(data@.skip(i as int).len() == 0 || !is_dec_digit(data@.skip(i as int)[0]));
            assert(spec_parse_num(data@.skip(i as int), acc) == Some(
                (acc, data@.skip(i as int)),
            ));
            return Some((acc, i));
        }
        let d: u64 = (data[i] - 0x30) as u64;
        assert(data@.skip(i as int)[0] == data@[i as int] && is_dec_digit(data@[i as int]));
        if acc > (u64::MAX - d) / 10 {
            assert(spec_parse_num(data@.skip(i as int), acc) is None);
            return None;
        }
        assert(acc * 10 + d <= u64::MAX) by (nonlinear_arith)
            requires
                acc <= (u64::MAX - d) / 10,
                d <= 9,
        ;
        proof {
            assert(data@.skip(i as int).skip(1) =~= data@.skip(i + 1));
        }
        acc = acc * 10 + d;
        i = i + 1;
    }
}

/// Parses a string-literal body beginning at `pos` (just after the opening
/// quote); returns the unescaped content and the position after the closing
/// quote.
pub fn parse_string_at(data: &[u8], pos: usize) -> (r: Option<(Vec<u8>, usize)>)
    requires
        pos <= data@.len(),
    ensures
        match r {
            Some(t) => t.1 <= data@.len() && spec_parse_strbody(data@.skip(pos as int)) == Some(
                (t.0@, data@.skip(t.1 as int)),
            ),
            None => spec_parse_strbody(data@.skip(pos as int)) is None,
        },
{
    let len: usize = data.len();
    let mut i: usize = pos;
    let mut content: Vec<u8> = Vec::new();
    loop
        invariant
            pos <= i <= len,
            len == data@.len(),
            (match spec_parse_strbody(data@.skip(i as int)) {
                Some((c, r)) => spec_parse_strbody(data@.skip(pos as int)) == Some(
                    (content@ + c, r),
                ),
                None => spec_parse_strbody(data@.skip(pos as int)) is None,
            }),
        decreases len - i,
    {
        let ghost s = data@.skip(i as int);
        proof {
            assert forall|k: int| 0 <= k < s.len() implies s[k] == data@[i + k] by {}
        }
        if i >= len {
            return None;
        }
        let b: u8 = data[i];
        if b == 0x22 {
            assert(s.skip(1) =~= data@.skip(i + 1));
            assert(content@ + Seq::<u8>::empty() =~= content@);
            return Some((content, i + 1));
        } else if b == 0x5c {
            if len - i >= 2 && (data[i + 1] == 0x22 || data[i + 1] == 0x5c) {
                let x: u8 = data[i + 1];
                assert(s.skip(2) =~= data@.skip(i + 2));
                let ghost cpre = content@;
                content.push(x);
                proof {
                    match spec_parse_strbody(data@.skip(i + 2)) {
                        Some((c2, r2)) => {
                            assert(cpre + (seq![x] + c2) =~= content@ + c2);
                        },
                        None => {},
                    }
                }
                i = i + 2;
            } else if len - i >= 6 && data[i + 1] == 0x75 && data[i + 2] == 0x30 && data[i + 3]
                == 0x30 && (data[i + 4] == 0x30 || data[i + 4] == 0x31) && ((0x30 <= data[i + 5]
                && data[i + 5] <= 0x39) || (0x61 <= data[i + 5] && data[i + 5] <= 0x66)) {
                assert(s.skip(6) =~= data@.skip(i + 6));
                let h: u8 = data[i + 4] - 0x30;
                let lo_b: u8 = data[i + 5];
                let lo: u8 = if lo_b <= 0x39 {
                    lo_b - 0x30
                } else {
                    lo_b - 0x57
                };
                assert(h <= 1 && lo <= 15 && lo == spec_hex_val(lo_b));
                let x: u8 = h * 16 + lo;
                let ghost cpre = content@;
                content.push(x);
                proof {
                    match spec_parse_strbody(data@.skip(i + 6)) {
                        Some((c2, r2)) => {
                            assert(cpre + (seq![x] + c2) =~= content@ + c2);
                        },
                        None => {},
                    }
                }
                i = i + 6;
            } else {
                return None;
            }
        } else if b >= 0x20 {
            assert(s.skip(1) =~= data@.skip(i + 1));
            let ghost cpre = content@;
            content.push(b);
            proof {
                match spec_parse_strbody(data@.skip(i + 1)) {
                    Some((c2, r2)) => {
                        assert(cpre + (seq![b] + c2) =~= content@ + c2);
                    },
                    None => {},
                }
            }
            i = i + 1;
        } else {
            return None;
        }
    }
}

/// The byte-sequence view of a vector of key/value byte vectors.
pub open spec fn pairs_view(v: Seq<(Vec<u8>, Vec<u8>)>) -> Seq<(Seq<u8>, Seq<u8>)> {
    v.map_values(|p: (Vec<u8>, Vec<u8>)| (p.0@, p.1@))
}

/// Parses object members beginning at `pos` (just after the opening brace);
/// returns the key/value pairs and the position after the closing brace.
pub fn parse_pairs_at(data: &[u8], pos: usize) -> (r: Option<(Vec<(Vec<u8>, Vec<u8>)>, usize)>)
    requires
        pos <= data@.len(),
    ensures
        match r {
            Some(t) => t.1 <= data@.len() && spec_parse_pairs(data@.skip(pos as int)) == Some(
                (pairs_view(t.0@), data@.skip(t.1 as int)),
            ),
            None => spec_parse_pairs(data@.skip(pos as int)) is None,
        },
{
    let len: usize = data.len();
    let mut i: usize = pos;
    let mut acc: Vec<(Vec<u8>, Vec<u8>)> = Vec::new();
    loop
        invariant
            pos <= i <= len,
            len == data@.len(),
            (match spec_parse_pairs(data@.skip(i as int)) {
                Some((m, r)) => spec_parse_pairs(data@.skip(pos as int)) == Some(
                    (pairs_view(acc@) + m, r),
                ),
                None => spec_parse_pairs(data@.skip(pos as int)) is None,
            }),
        decreases len - i,
    {
        let ghost s = data@.skip(i as int);
        proof {
            assert forall|k: int| 0 <= k < s.len() implies s[k] == data@[i + k] by {}
        }
        if i >= len {
            return None;
        }
        let b: u8 = data[i];
        if b == 0x7d {
            assert(s.skip(1) =~= data@.skip(i + 1));
            assert(pairs_view(acc@) + Seq::<(Seq<u8>, Seq<u8>)>::empty() =~= pairs_view(acc@));
            return Some((acc, i + 1));
        }
        if b != 0x22 {
            return None;
        }
        assert(s.skip(1) =~= data@.skip(i + 1));
        let key_parse: Option<(Vec<u8>, usize)> = parse_string_at(data, i + 1);
        match key_parse {
            None => {
                return None;
            },
            Some((kv, j)) => {
                let ghost r1 = data@.skip(j as int);
                proof {
                    lemma_strbody_rest_shorter(data@.skip(i + 1));
                    assert(j > i + 1);
                    assert forall|k: int| 0 <= k < r1.len() implies r1[k] == data@[j + k] by {}
                }
                if !(len - j >= 2 && data[j] == 0x3a && data[j + 1] == 0x22) {
                    return None;
                }
                assert(r1.skip(2) =~= data@.skip(j + 2));
                let val_parse: Option<(Vec<u8>, usize)> = parse_string_at(data, j + 2);
                match val_parse {
                    None => {
                        return None;
                    },
                    Some((vv, m)) => {
                        let ghost r2 = data@.skip(m as int);
                        proof {
                            lemma_strbody_rest_shorter(data@.skip(j + 2));
                            assert(m > j + 2);
                            assert forall|k: int| 0 <= k < r2.len() implies r2[k] == data@[m
                                + k] by {}
                        }
                        let ghost kvv = (kv@, vv@);
                        let ghost cpre = acc@;
                        if len - m >= 2 && data[m] == 0x2c && data[m + 1] == 0x22 {
                            acc.push((kv, vv));
                            proof {
                                assert(r2.skip(1) =~= data@.skip(m + 1));
                                assert(pairs_view(acc@) =~= pairs_view(cpre) + seq![kvv]);
                                match spec_parse_pairs(data@.skip(m + 1)) {
                                    Some((more, r3)) => {
                                        assert(pairs_view(cpre) + (seq![kvv] + more)
                                            =~= pairs_view(acc@) + more);
                                    },
                                    None => {},
                                }
                            }
                            i = m + 1;
                        } else if len - m >= 1 && data[m] == 0x7d {
                            acc.push((kv, vv));
                            proof {
                                assert(r2.skip(1) =~= data@.skip(m + 1));
                                assert(pairs_view(acc@) =~= pairs_view(cpre) + seq![kvv]);
                            }
                            return Some((acc, m + 1));
                        } else {
                            return None;
                        }
                    },
                }
            },
        }
    }
}

} // verus!
