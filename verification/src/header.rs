//! The frame header and its canonical JSON text.
//!
//! A header is carried on the wire as one JSON object with a fixed member
//! order and no whitespace:
//! `{"code":C,"flag":F,"language":L,"opaque":O,"remark":"R","ext_fields":{..}}`.
//! Encoding and parsing are exact inverses; the proof is
//! [`lemma_header_roundtrip`].

use crate::json::is_dec_digit;
use crate::json::lemma_pairs_roundtrip;
use crate::json::lemma_parse_u64_roundtrip;
use crate::json::lemma_strbody_roundtrip;
use crate::json::pairs_view;
use crate::json::parse_pairs_at;
use crate::json::parse_string_at;
use crate::json::parse_u64_at;
use crate::json::push_escaped;
use crate::json::push_u64_decimal;
use crate::json::spec_digits;
use crate::json::spec_encode_pair;
use crate::json::spec_encode_pairs;
use crate::json::spec_escape;
use crate::json::spec_parse_pairs;
use crate::json::spec_parse_strbody;
use crate::json::spec_parse_u64;
use crate::text::bytes_eq;
use crate::text::lemma_encode_utf8_injective;
use crate::text::string_from_utf8;
use vstd::prelude::*;
use vstd::seq_lib::lemma_concat_associative;
use vstd::utf8::decode_utf8;
use vstd::utf8::decode_utf8_encode_utf8;
use vstd::utf8::encode_utf8;
use vstd::utf8::encode_utf8_decode_utf8;
use vstd::utf8::encode_utf8_valid_utf8;
use vstd::utf8::valid_utf8;

verus! {

// ---------------------------------------------------------------------------
// Fixed member keys of the header object
// ---------------------------------------------------------------------------
pub open spec fn lit_code() -> Seq<u8> {
    seq![0x7bu8, 0x22u8, 0x63u8, 0x6fu8, 0x64u8, 0x65u8, 0x22u8, 0x3au8]
}

pub open spec fn lit_flag() -> Seq<u8> {
    seq![0x2cu8, 0x22u8, 0x66u8, 0x6cu8, 0x61u8, 0x67u8, 0x22u8, 0x3au8]
}

pub open spec fn lit_language() -> Seq<u8> {
    seq![
        0x2cu8,
        0x22u8,
        0x6cu8,
        0x61u8,
        0x6eu8,
        0x67u8,
        0x75u8,
        0x61u8,
        0x67u8,
        0x65u8,
        0x22u8,
        0x3au8,
    ]
}

pub open spec fn lit_opaque() -> Seq<u8> {
    seq![0x2cu8, 0x22u8, 0x6fu8, 0x70u8, 0x61u8, 0x71u8, 0x75u8, 0x65u8, 0x22u8, 0x3au8]
}

pub open spec fn lit_remark() -> Seq<u8> {
    seq![0x2cu8, 0x22u8, 0x72u8, 0x65u8, 0x6du8, 0x61u8, 0x72u8, 0x6bu8, 0x22u8, 0x3au8, 0x22u8]
}

pub open spec fn lit_ext() -> Seq<u8> {
    seq![
        0x2cu8,
        0x22u8,
        0x65u8,
        0x78u8,
        0x74u8,
        0x5fu8,
        0x66u8,
        0x69u8,
        0x65u8,
        0x6cu8,
        0x64u8,
        0x73u8,
        0x22u8,
        0x3au8,
        0x7bu8,
    ]
}

fn lit_code_vec() -> (v: Vec<u8>)
    ensures
        v@ == lit_code(),
{
    let mut v: Vec<u8> = Vec::new();
    v.push(0x7b);
    v.push(0x22);
    v.push(0x63);
    v.push(0x6f);
    v.push(0x64);
    v.push(0x65);
    v.push(0x22);
    v.push(0x3a);
    assert(v@ =~= lit_code());
    v
}

fn lit_flag_vec() -> (v: Vec<u8>)
    ensures
        v@ == lit_flag(),
{
    let mut v: Vec<u8> = Vec::new();
    v.push(0x2c);
    v.push(0x22);
    v.push(0x66);
    v.push(0x6c);
    v.push(0x61);
    v.push(0x67);
    v.push(0x22);
    v.push(0x3a);
    assert(v@ =~= lit_flag());
    v
}

fn lit_language_vec() -> (v: Vec<u8>)
    ensures
        v@ == lit_language(),
{
    let mut v: Vec<u8> = Vec::new();
    v.push(0x2c);
    v.push(0x22);
    v.push(0x6c);
    v.push(0x61);
    v.push(0x6e);
    v.push(0x67);
    v.push(0x75);
    v.push(0x61);
    v.push(0x67);
    v.push(0x65);
    v.push(0x22);
    v.push(0x3a);
    assert(v@ =~= lit_language());
    v
}

fn lit_opaque_vec() -> (v: Vec<u8>)
    ensures
        v@ == lit_opaque(),
{
    let mut v: Vec<u8> = Vec::new();
    v.push(0x2c);
    v.push(0x22);
    v.push(0x6f);
    v.push(0x70);
    v.push(0x61);
    v.push(0x71);
    v.push(0x75);
    v.push(0x65);
    v.push(0x22);
    v.push(0x3a);
    assert(v@ =~= lit_opaque());
    v
}

fn lit_remark_vec() -> (v: Vec<u8>)
    ensures
        v@ == lit_remark(),
{
    let mut v: Vec<u8> = Vec::new();
    v.push(0x2c);
    v.push(0x22);
    v.push(0x72);
    v.push(0x65);
    v.push(0x6d);
    v.push(0x61);
    v.push(0x72);
    v.push(0x6b);
    v.push(0x22);
    v.push(0x3a);
    v.push(0x22);
    assert(v@ =~= lit_remark());
    v
}

fn lit_ext_vec() -> (v: Vec<u8>)
    ensures
        v@ == lit_ext(),
{
    let mut v: Vec<u8> = Vec::new();
    v.push(0x2c);
    v.push(0x22);
    v.push(0x65);
    v.push(0x78);
    v.push(0x74);
    v.push(0x5f);
    v.push(0x66);
    v.push(0x69);
    v.push(0x65);
    v.push(0x6c);
    v.push(0x64);
    v.push(0x73);
    v.push(0x22);
    v.push(0x3a);
    v.push(0x7b);
    assert(v@ =~= lit_ext());
    v
}

// ---------------------------------------------------------------------------
// Literal matching
// ---------------------------------------------------------------------------
/// The bytes after a required literal prefix, if it is present.
pub open spec fn spec_after_lit(s: Seq<u8>, lit: Seq<u8>) -> Option<Seq<u8>> {
    if lit.len() <= s.len() && s.take(lit.len() as int) == lit {
        Some(s.skip(lit.len() as int))
    } else {
        None
    }
}

pub proof fn lemma_after_lit_concat(lit: Seq<u8>, tail: Seq<u8>)
    ensures
        spec_after_lit(lit + tail, lit) == Some(tail),
{
    assert((lit + tail).take(lit.len() as int) =~= lit);
    assert((lit + tail).skip(lit.len() as int) =~= tail);
}

/// Consumes the literal `lit` at `pos`, or fails.
fn expect_bytes(data: &[u8], pos: usize, lit: &Vec<u8>) -> (r: Option<usize>)
    requires
        pos <= data@.len(),
    ensures
        match r {
            Some(p) => pos <= p <= data@.len() && spec_after_lit(data@.skip(pos as int), lit@)
                == Some(data@.skip(p as int)),
            None => spec_after_lit(data@.skip(pos as int), lit@) is None,
        },
{
    let len: usize = data.len();
    let llen: usize = lit.len();
    let ghost s = data@.skip(pos as int);
    proof {
        assert forall|k: int| 0 <= k < s.len() implies s[k] == data@[pos + k] by {}
    }
    if len - pos < llen {
        return None;
    }
    let mut k: usize = 0;
    while k < llen
        invariant
            k <= llen,
            llen == lit@.len(),
            pos + llen <= len,
            len == data@.len(),
            s == data@.skip(pos as int),
            forall|t: int| 0 <= t < s.len() ==> s[t] == data@[pos + t],
            forall|t: int| 0 <= t < k ==> s[t] == lit@[t],
        decreases llen - k,
    {
        if data[pos + k] != lit[k] {
            assert(s.take(llen as int)[k as int] != lit@[k as int]);
            return None;
        }
        k = k + 1;
    }
    assert(s.take(llen as int) =~= lit@);
    Some(pos + llen)
}

// ---------------------------------------------------------------------------
// The header itself
// ---------------------------------------------------------------------------
/// The mathematical content of a header: the fixed fields, the remark text,
/// and the ext-field pairs in their stored order.
#[verifier::ext_equal]
pub ghost struct HeaderModel {
    pub code: u8,
    pub flag: u8,
    pub language: u8,
    pub opaque: usize,
    pub remark: Seq<char>,
    pub ext: Seq<(Seq<char>, Seq<char>)>,
}

impl HeaderModel {
    /// The ext-field keys never repeat.
    pub open spec fn wf(self) -> bool {
        forall|i: int, j: int|
            0 <= i < j < self.ext.len() ==> self.ext[i].0 != self.ext[j].0
    }
}

/// The fixed small fields, the free-form remark, and the string-to-string
/// ext-field mapping of one command.
pub struct Header {
    pub code: u8,
    pub flag: u8,
    pub language: u8,
    pub opaque: usize,
    pub remark: String,
    pub ext_fields: Vec<(String, String)>,
}

impl View for Header {
    type V = HeaderModel;

    open spec fn view(&self) -> HeaderModel {
        HeaderModel {
            code: self.code,
            flag: self.flag,
            language: self.language,
            opaque: self.opaque,
            remark: self.remark@,
            ext: self.ext_fields@.map_values(|p: (String, String)| (p.0@, p.1@)),
        }
    }
}

/// The UTF-8 bytes of each ext pair.
pub open spec fn byte_pairs(ext: Seq<(Seq<char>, Seq<char>)>) -> Seq<(Seq<u8>, Seq<u8>)> {
    ext.map_values(|p: (Seq<char>, Seq<char>)| (encode_utf8(p.0), encode_utf8(p.1)))
}

/// The canonical JSON text of a header.  The concatenation is grouped from
/// the right, matching how a parser peels the text off the front.
pub open spec fn spec_header_bytes(m: HeaderModel) -> Seq<u8> {
    lit_code() + (spec_digits(m.code as u64) + (lit_flag() + (spec_digits(m.flag as u64) + (
    lit_language() + (spec_digits(m.language as u64) + (lit_opaque() + (spec_digits(
        m.opaque as u64,
    ) + (lit_remark() + (spec_escape(encode_utf8(m.remark)) + (seq![0x22u8] + (lit_ext() + (
    spec_encode_pairs(byte_pairs(m.ext)) + seq![0x7du8]))))))))))))
}

/// The four numeric members, in order, and what follows them.
pub open spec fn spec_parse_nums(s: Seq<u8>) -> Option<((u64, u64, u64, u64), Seq<u8>)> {
    match spec_after_lit(s, lit_code()) {
        None => None,
        Some(s1) => match spec_parse_u64(s1) {
            None => None,
            Some((code, s2)) => match spec_after_lit(s2, lit_flag()) {
                None => None,
                Some(s3) => match spec_parse_u64(s3) {
                    None => None,
                    Some((flag, s4)) => match spec_after_lit(s4, lit_language()) {
                        None => None,
                        Some(s5) => match spec_parse_u64(s5) {
                            None => None,
                            Some((language, s6)) => match spec_after_lit(s6, lit_opaque()) {
                                None => None,
                                Some(s7) => match spec_parse_u64(s7) {
                                    None => None,
                                    Some((opaque, s8)) => Some(
                                        ((code, flag, language, opaque), s8),
                                    ),
                                },
                            },
                        },
                    },
                },
            },
        },
    }
}

/// Both halves of an ext pair are valid UTF-8.
pub open spec fn pair_valid(p: (Seq<u8>, Seq<u8>)) -> bool {
    valid_utf8(p.0) && valid_utf8(p.1)
}

/// Every range and well-formedness condition a parsed header must satisfy.
pub open spec fn spec_header_checks(
    nums: (u64, u64, u64, u64),
    rb: Seq<u8>,
    bps: Seq<(Seq<u8>, Seq<u8>)>,
) -> bool {
    &&& nums.0 <= 255
    &&& nums.1 <= 255
    &&& nums.2 <= 255
    &&& nums.3 <= usize::MAX as u64
    &&& valid_utf8(rb)
    &&& (forall|i: int| 0 <= i < bps.len() ==> #[trigger] pair_valid(bps[i]))
    &&& (forall|i: int, j: int| 0 <= i < j < bps.len() ==> bps[i].0 != bps[j].0)
}

/// Parses a complete header object; the input must hold nothing else.
pub open spec fn spec_parse_header(s: Seq<u8>) -> Option<HeaderModel> {
    match spec_parse_nums(s) {
        None => None,
        Some((nums, s5)) => match spec_after_lit(s5, lit_remark()) {
            None => None,
            Some(s6) => match spec_parse_strbody(s6) {
                None => None,
                Some((rb, s7)) => match spec_after_lit(s7, lit_ext()) {
                    None => None,
                    Some(s8) => match spec_parse_pairs(s8) {
                        None => None,
                        Some((bps, s9)) => if s9.len() == 1 && s9[0] == 0x7d
                            && spec_header_checks(nums, rb, bps) {
                            Some(
                                HeaderModel {
                                    code: nums.0 as u8,
                                    flag: nums.1 as u8,
                                    language: nums.2 as u8,
                                    opaque: nums.3 as usize,
                                    remark: decode_utf8(rb),
                                    ext: bps.map_values(
                                        |p: (Seq<u8>, Seq<u8>)|
                                            (decode_utf8(p.0), decode_utf8(p.1)),
                                    ),
                                },
                            )
                        } else {
                            None
                        },
                    },
                },
            },
        },
    }
}

// ---------------------------------------------------------------------------
// Executable encoding
// ---------------------------------------------------------------------------
/// Everything before the ext-field members: the numeric members, the remark
/// string, and the opening of the ext object.
pub open spec fn spec_header_prefix(m: HeaderModel) -> Seq<u8> {
    lit_code() + (spec_digits(m.code as u64) + (lit_flag() + (spec_digits(m.flag as u64) + (
    lit_language() + (spec_digits(m.language as u64) + (lit_opaque() + (spec_digits(
        m.opaque as u64,
    ) + (lit_remark() + (spec_escape(encode_utf8(m.remark)) + (seq![0x22u8] + lit_ext()))))))))))
}

/// The header text is its prefix, the ext members, and the outer brace.
pub proof fn lemma_header_bytes_decompose(m: HeaderModel)
    ensures
        spec_header_bytes(m) == spec_header_prefix(m) + (spec_encode_pairs(byte_pairs(m.ext))
            + seq![0x7du8]),
{
    let inner = spec_encode_pairs(byte_pairs(m.ext)) + seq![0x7du8];
    let c12 = lit_ext();
    let c11 = seq![0x22u8];
    let c10 = spec_escape(encode_utf8(m.remark));
    let c9 = lit_remark();
    let c8 = spec_digits(m.opaque as u64);
    let c7 = lit_opaque();
    let c6 = spec_digits(m.language as u64);
    let c5 = lit_language();
    let c4 = spec_digits(m.flag as u64);
    let c3 = lit_flag();
    let c2 = spec_digits(m.code as u64);
    let c1 = lit_code();
    lemma_concat_associative(c11, c12, inner);
    let q11 = c11 + c12;
    lemma_concat_associative(c10, q11, inner);
    let q10 = c10 + q11;
    lemma_concat_associative(c9, q10, inner);
    let q9 = c9 + q10;
    lemma_concat_associative(c8, q9, inner);
    let q8 = c8 + q9;
    lemma_concat_associative(c7, q8, inner);
    let q7 = c7 + q8;
    lemma_concat_associative(c6, q7, inner);
    let q6 = c6 + q7;
    lemma_concat_associative(c5, q6, inner);
    let q5 = c5 + q6;
    lemma_concat_associative(c4, q5, inner);
    let q4 = c4 + q5;
    lemma_concat_associative(c3, q4, inner);
    let q3 = c3 + q4;
    lemma_concat_associative(c2, q3, inner);
    let q2 = c2 + q3;
    lemma_concat_associative(c1, q2, inner);
}

#[verifier::rlimit(100)]
fn encode_header_prefix(h: &Header) -> (out: Vec<u8>)
    ensures
        out@ == spec_header_prefix(h@),
{
    let mut out: Vec<u8> = Vec::new();
    let lc = lit_code_vec();
    out.extend_from_slice(lc.as_slice());
    push_u64_decimal(&mut out, h.code as u64);
    let lf = lit_flag_vec();
    out.extend_from_slice(lf.as_slice());
    push_u64_decimal(&mut out, h.flag as u64);
    let ll = lit_language_vec();
    out.extend_from_slice(ll.as_slice());
    push_u64_decimal(&mut out, h.language as u64);
    let lo = lit_opaque_vec();
    out.extend_from_slice(lo.as_slice());
    push_u64_decimal(&mut out, h.opaque as u64);
    let lr = lit_remark_vec();
    out.extend_from_slice(lr.as_slice());
    push_escaped(&mut out, h.remark.as_str().as_bytes());
    out.push(0x22);
    let le = lit_ext_vec();
    out.extend_from_slice(le.as_slice());
    assert(out@ =~= spec_header_prefix(h@));
    out
}

/// Renders `h` as its canonical JSON text.
#[verifier::rlimit(100)]
pub fn encode_header(h: &Header) -> (out: Vec<u8>)
    ensures
        out@ == spec_header_bytes(h@),
{
    let mut out: Vec<u8> = encode_header_prefix(h);
    let ghost base = out@;
    let ghost bp = byte_pairs(h@.ext);
    let n: usize = h.ext_fields.len();
    assert(bp.len() == n);
    let mut i: usize = 0;
    while i < n
        invariant
            i <= n,
            n == h.ext_fields@.len(),
            bp == byte_pairs(h@.ext),
            bp.len() == n,
            h@.ext == h.ext_fields@.map_values(|p: (String, String)| (p.0@, p.1@)),
            out@ + (if i == 0 {
                spec_encode_pairs(bp)
            } else if i < n {
                seq![0x2cu8] + spec_encode_pairs(bp.skip(i as int))
            } else {
                seq![0x7du8]
            }) == base + spec_encode_pairs(bp),
        decreases n - i,
    {
        let ghost pre = out@;
        if i > 0 {
            out.push(0x2c);
        }
        out.push(0x22);
        let key: &String = &h.ext_fields[i].0;
        push_escaped(&mut out, key.as_str().as_bytes());
        out.push(0x22);
        out.push(0x3a);
        out.push(0x22);
        let val: &String = &h.ext_fields[i].1;
        push_escaped(&mut out, val.as_str().as_bytes());
        out.push(0x22);
        proof {
            assert(bp[i as int] == (encode_utf8(h@.ext[i as int].0), encode_utf8(
                h@.ext[i as int].1,
            )));
            assert(key@ == h@.ext[i as int].0);
            assert(val@ == h@.ext[i as int].1);
            let sep: Seq<u8> = if i == 0 {
                Seq::empty()
            } else {
                seq![0x2cu8]
            };
            assert(out@ =~= pre + sep + spec_encode_pair(bp[i as int]));
            if i == 0 {
                if n == 1 {
                    assert(spec_encode_pairs(bp) == spec_encode_pair(bp[0]) + seq![0x7du8]);
                    assert(out@ + seq![0x7du8] =~= base + spec_encode_pairs(bp));
                } else {
                    assert(spec_encode_pairs(bp) == spec_encode_pair(bp[0]) + seq![0x2cu8]
                        + spec_encode_pairs(bp.skip(1)));
                    assert(out@ + (seq![0x2cu8] + spec_encode_pairs(bp.skip(1))) =~= base
                        + spec_encode_pairs(bp));
                }
            } else {
                if i + 1 == n {
                    assert(bp.skip(i as int).len() == 1);
                    assert(bp.skip(i as int)[0] == bp[i as int]);
                    assert(spec_encode_pairs(bp.skip(i as int)) == spec_encode_pair(bp[i as int])
                        + seq![0x7du8]);
                    assert(out@ + seq![0x7du8] =~= base + spec_encode_pairs(bp));
                } else {
                    assert(bp.skip(i as int).len() > 1);
                    assert(bp.skip(i as int)[0] == bp[i as int]);
                    assert(bp.skip(i as int).skip(1) =~= bp.skip(i + 1));
                    assert(spec_encode_pairs(bp.skip(i as int)) == spec_encode_pair(bp[i as int])
                        + seq![0x2cu8] + spec_encode_pairs(bp.skip(i + 1)));
                    assert(out@ + (seq![0x2cu8] + spec_encode_pairs(bp.skip(i + 1))) =~= base
                        + spec_encode_pairs(bp));
                }
            }
        }
        i = i + 1;
    }
    out.push(0x7d);
    proof {
        if n == 0 {
            assert(spec_encode_pairs(bp) == seq![0x7du8]);
        }
        assert(out@ =~= base + spec_encode_pairs(bp));
    }
    out.push(0x7d);
    proof {
        lemma_header_bytes_decompose(h@);
        assert(out@ =~= base + (spec_encode_pairs(bp) + seq![0x7du8]));
    }
    out
}

/// Parsing the canonical text of a well-formed header model yields exactly
/// that model.
#[verifier::rlimit(100)]
pub proof fn lemma_header_roundtrip(m: HeaderModel)
    requires
        m.wf(),
    ensures
        spec_parse_header(spec_header_bytes(m)) == Some(m),
{
    let bp = byte_pairs(m.ext);
    let rb = encode_utf8(m.remark);
    let t9 = seq![0x7du8];
    let t8 = spec_encode_pairs(bp) + t9;
    let t7 = lit_ext() + t8;
    let t6half = seq![0x22u8] + t7;
    let t6 = spec_escape(rb) + t6half;
    let t5 = lit_remark() + t6;
    let t4d = spec_digits(m.opaque as u64) + t5;
    let t4 = lit_opaque() + t4d;
    let t3d = spec_digits(m.language as u64) + t4;
    let t3 = lit_language() + t3d;
    let t2d = spec_digits(m.flag as u64) + t3;
    let t2 = lit_flag() + t2d;
    let t1d = spec_digits(m.code as u64) + t2;
    let s = spec_header_bytes(m);
    assert(s == lit_code() + t1d);
    lemma_after_lit_concat(lit_code(), t1d);
    assert(t2[0] == 0x2c && !is_dec_digit(0x2c));
    lemma_parse_u64_roundtrip(m.code as u64, t2);
    lemma_after_lit_concat(lit_flag(), t2d);
    assert(t3[0] == 0x2c);
    lemma_parse_u64_roundtrip(m.flag as u64, t3);
    lemma_after_lit_concat(lit_language(), t3d);
    assert(t4[0] == 0x2c);
    lemma_parse_u64_roundtrip(m.language as u64, t4);
    lemma_after_lit_concat(lit_opaque(), t4d);
    assert(t5[0] == 0x2c);
    lemma_parse_u64_roundtrip(m.opaque as u64, t5);
    assert(spec_parse_nums(s) == Some(
        ((m.code as u64, m.flag as u64, m.language as u64, m.opaque as u64), t5),
    ));
    lemma_after_lit_concat(lit_remark(), t6);
    assert(t6 =~= spec_escape(rb) + seq![0x22u8] + t7);
    lemma_strbody_roundtrip(rb, t7);
    assert(spec_parse_strbody(t6) == Some((rb, t7)));
    lemma_after_lit_concat(lit_ext(), t8);
    lemma_pairs_roundtrip(bp, t9);
    assert(spec_parse_pairs(t8) == Some((bp, t9)));
    assert(t9.len() == 1 && t9[0] == 0x7d);
    // the checks hold of what the canonical text carries
    encode_utf8_valid_utf8(m.remark);
    assert forall|i: int| 0 <= i < bp.len() implies #[trigger] pair_valid(bp[i]) by {
        encode_utf8_valid_utf8(m.ext[i].0);
        encode_utf8_valid_utf8(m.ext[i].1);
    }
    assert forall|i: int, j: int| 0 <= i < j < bp.len() implies bp[i].0 != bp[j].0 by {
        lemma_encode_utf8_injective(m.ext[i].0, m.ext[j].0);
    }
    assert(spec_header_checks(
        (m.code as u64, m.flag as u64, m.language as u64, m.opaque as u64),
        rb,
        bp,
    ));
    // the parsed model is the one that was encoded
    encode_utf8_decode_utf8(m.remark);
    let parsed_ext = bp.map_values(
        |p: (Seq<u8>, Seq<u8>)| (decode_utf8(p.0), decode_utf8(p.1)),
    );
    assert forall|i: int| 0 <= i < parsed_ext.len() implies parsed_ext[i] == m.ext[i] by {
        encode_utf8_decode_utf8(m.ext[i].0);
        encode_utf8_decode_utf8(m.ext[i].1);
    }
    assert(parsed_ext =~= m.ext);
    assert(spec_parse_header(s) == Some(m));
}

/// Whatever parses is well formed: its ext keys never repeat.
pub proof fn lemma_parse_header_wf(s: Seq<u8>)
    ensures
        match spec_parse_header(s) {
            Some(m) => m.wf(),
            None => true,
        },
{
    match spec_parse_nums(s) {
        None => {},
        Some((nums, s5)) => match spec_after_lit(s5, lit_remark()) {
            None => {},
            Some(s6) => match spec_parse_strbody(s6) {
                None => {},
                Some((rb, s7)) => match spec_after_lit(s7, lit_ext()) {
                    None => {},
                    Some(s8) => match spec_parse_pairs(s8) {
                        None => {},
                        Some((bps, s9)) => {
                            if s9.len() == 1 && s9[0] == 0x7d && spec_header_checks(
                                nums,
                                rb,
                                bps,
                            ) {
                                let m = spec_parse_header(s).unwrap();
                                assert forall|i: int, j: int|
                                    0 <= i < j < m.ext.len() implies m.ext[i].0
                                    != m.ext[j].0 by {
                                    assert(pair_valid(bps[i]));
                                    assert(pair_valid(bps[j]));
                                    assert(bps[i].0 != bps[j].0);
                                    decode_utf8_encode_utf8(bps[i].0);
                                    decode_utf8_encode_utf8(bps[j].0);
                                }
                            }
                        },
                    },
                },
            },
        },
    }
}

// ---------------------------------------------------------------------------
// Executable parsing
// ---------------------------------------------------------------------------
/// Parses a complete canonical header text.
#[verifier::rlimit(100)]
#[verifier::loop_isolation(false)]
pub fn parse_header(data: &[u8]) -> (r: Option<Header>)
    ensures
        match r {
            Some(h) => spec_parse_header(data@) == Some(h@),
            None => spec_parse_header(data@) is None,
        },
{
    let len: usize = data.len();
    proof {
        assert(data@.skip(0) =~= data@);
    }
    let lc = lit_code_vec();
    let p1: usize = match expect_bytes(data, 0, &lc) {
        Some(p) => p,
        None => {
            return None;
        },
    };
    let (code64, p2): (u64, usize) = match parse_u64_at(data, p1) {
        Some(t) => t,
        None => {
            return None;
        },
    };
    let lf = lit_flag_vec();
    let p3: usize = match expect_bytes(data, p2, &lf) {
        Some(p) => p,
        None => {
            return None;
        },
    };
    let (flag64, p4): (u64, usize) = match parse_u64_at(data, p3) {
        Some(t) => t,
        None => {
            return None;
        },
    };
    let ll = lit_language_vec();
    let p5: usize = match expect_bytes(data, p4, &ll) {
        Some(p) => p,
        None => {
            return None;
        },
    };
    let (lang64, p6): (u64, usize) = match parse_u64_at(data, p5) {
        Some(t) => t,
        None => {
            return None;
        },
    };
    let lo = lit_opaque_vec();
    let p7: usize = match expect_bytes(data, p6, &lo) {
        Some(p) => p,
        None => {
            return None;
        },
    };
    let (opaque64, p8): (u64, usize) = match parse_u64_at(data, p7) {
        Some(t) => t,
        None => {
            return None;
        },
    };
    assert(spec_parse_nums(data@) == Some(
        ((code64, flag64, lang64, opaque64), data@.skip(p8 as int)),
    ));
    let lr = lit_remark_vec();
    let p9: usize = match expect_bytes(data, p8, &lr) {
        Some(p) => p,
        None => {
            return None;
        },
    };
    let (remark_bytes, p10): (Vec<u8>, usize) = match parse_string_at(data, p9) {
        Some(t) => t,
        None => {
            return None;
        },
    };
    let le = lit_ext_vec();
    let p11: usize = match expect_bytes(data, p10, &le) {
        Some(p) => p,
        None => {
            return None;
        },
    };
    let (pairs, p12): (Vec<(Vec<u8>, Vec<u8>)>, usize) = match parse_pairs_at(data, p11) {
        Some(t) => t,
        None => {
            return None;
        },
    };
    let ghost bps = pairs_view(pairs@);
    let ghost s9 = data@.skip(p12 as int);
    // exactly the outer closing brace may remain
    if !(len - p12 == 1 && data[p12] == 0x7d) {
        assert(s9.len() == len - p12);
        assert(len - p12 >= 1 ==> s9[0] == data@[p12 as int]);
        return None;
    }
    assert(s9.len() == 1 && s9[0] == 0x7d);
    // range checks on the numeric members
    if code64 > 255 || flag64 > 255 || lang64 > 255 || opaque64 > (usize::MAX as u64) {
        return None;
    }
    // the remark must be valid UTF-8
    let remark_s: String = match string_from_utf8(remark_bytes.as_slice()) {
        Some(s) => s,
        None => {
            return None;
        },
    };
    // each ext key and value must be valid UTF-8, and keys must not repeat
    let np: usize = pairs.len();
    let mut ext_fields: Vec<(String, String)> = Vec::new();
    let mut i: usize = 0;
    while i < np
        invariant
            i <= np,
            np == pairs@.len(),
            bps == pairs_view(pairs@),
            bps.len() == np,
            forall|a: int, b: int| 0 <= a < b < i ==> bps[a].0 != bps[b].0,
            forall|a: int| 0 <= a < i ==> #[trigger] pair_valid(bps[a]),
            ext_fields@.len() == i,
            forall|a: int|
                0 <= a < i ==> (#[trigger] ext_fields@[a]).0@ == decode_utf8(bps[a].0)
                    && ext_fields@[a].1@ == decode_utf8(bps[a].1),
        decreases np - i,
    {
        let mut j: usize = 0;
        while j < i
            invariant
                j <= i < np,
                np == pairs@.len(),
                bps == pairs_view(pairs@),
                bps.len() == np,
                forall|b: int| 0 <= b < j ==> bps[b].0 != bps[i as int].0,
            decreases i - j,
        {
            let pj: &(Vec<u8>, Vec<u8>) = &pairs[j];
            let pi: &(Vec<u8>, Vec<u8>) = &pairs[i];
            if bytes_eq(pj.0.as_slice(), pi.0.as_slice()) {
                assert(bps[j as int].0 == bps[i as int].0);
                return None;
            }
            j = j + 1;
        }
        let pi: &(Vec<u8>, Vec<u8>) = &pairs[i];
        let ks: String = match string_from_utf8(pi.0.as_slice()) {
            Some(s) => s,
            None => {
                assert(!pair_valid(bps[i as int]));
                return None;
            },
        };
        let vs: String = match string_from_utf8(pi.1.as_slice()) {
            Some(s) => s,
            None => {
                assert(!pair_valid(bps[i as int]));
                return None;
            },
        };
        ext_fields.push((ks, vs));
        i = i + 1;
    }
    assert(spec_header_checks((code64, flag64, lang64, opaque64), remark_bytes@, bps));
    let h = Header {
        code: code64 as u8,
        flag: flag64 as u8,
        language: lang64 as u8,
        opaque: opaque64 as usize,
        remark: remark_s,
        ext_fields,
    };
    proof {
        let parsed_ext = bps.map_values(
            |p: (Seq<u8>, Seq<u8>)| (decode_utf8(p.0), decode_utf8(p.1)),
        );
        assert(h@.ext =~= parsed_ext);
        assert(spec_parse_header(data@) == Some(h@));
    }
    Some(h)
}

} // verus!
