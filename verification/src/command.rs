//! The `Command` message, its process-wide request-id allocation, and the
//! length-prefixed frame codec.
//!
//! Wire form: `total_length(4, big-endian) || header_length(4, big-endian)
//! || header_bytes || body_bytes`, where `total_length` counts everything
//! after itself.

use crate::header::spec_header_bytes;
use crate::header::spec_parse_header;
use crate::header::encode_header;
use crate::header::parse_header;
use crate::header::lemma_header_roundtrip;
use crate::header::Header;
use crate::header::HeaderModel;
use crate::text::str_eq;
use crate::util::lemma_u32_be_roundtrip;
use crate::util::spec_u32_be;
use crate::util::spec_u32_be_bytes;
use crate::util::vec_to_u32;
use crate::util::Error;
use vstd::prelude::*;

verus! {

// ---------------------------------------------------------------------------
// Request id allocation
// ---------------------------------------------------------------------------
/// The monotonically increasing counter behind every opaque id.  One
/// allocator serves a whole process; the ids it hands out repeat only after
/// the counter wraps at the width's limit.
pub struct RequestIdAllocator {
    pub next: usize,
}

impl RequestIdAllocator {
    /// A fresh counter, starting at zero.
    pub fn new() -> (r: Self)
        ensures
            r.next == 0,
    {
        RequestIdAllocator { next: 0 }
    }

    /// Hands out the current id and advances the counter.
    pub fn allocate(&mut self) -> (r: usize)
        ensures
            r == old(self).next,
            final(self).next == if old(self).next == usize::MAX {
                0
            } else {
                old(self).next + 1
            },
    {
        let r = self.next;
        if self.next == usize::MAX {
            self.next = 0;
        } else {
            self.next = self.next + 1;
        }
        r
    }
}

/// The ids a fresh-enough counter hands out over `n` calls: one per call,
/// in order.
pub open spec fn issued_ids(start: usize, n: nat) -> Seq<usize> {
    Seq::new(n, |k: int| (start + k) as usize)
}

/// Issuing `n` commands in sequence yields `n` pairwise distinct opaque
/// values, as long as the counter does not wrap during the run.
pub proof fn lemma_opaque_uniqueness(start: usize, n: nat)
    requires
        start + n <= usize::MAX + 1,
    ensures
        forall|i: int, j: int|
            0 <= i < j < n ==> issued_ids(start, n)[i] != issued_ids(start, n)[j],
{
    assert forall|i: int, j: int|
        0 <= i < j < n implies issued_ids(start, n)[i] != issued_ids(start, n)[j] by {
        assert(issued_ids(start, n)[i] == (start + i) as usize);
        assert(issued_ids(start, n)[j] == (start + j) as usize);
    }
}

// ---------------------------------------------------------------------------
// The command
// ---------------------------------------------------------------------------
/// The mathematical content of a command: a header model and the optional
/// body bytes.
#[verifier::ext_equal]
pub ghost struct CommandModel {
    pub header: HeaderModel,
    pub body: Option<Seq<u8>>,
}

/// One logical request or response message: a header and an optional
/// opaque byte payload.
pub struct Command {
    pub header: Header,
    pub body: Option<Vec<u8>>,
}

impl View for Command {
    type V = CommandModel;

    open spec fn view(&self) -> CommandModel {
        CommandModel {
            header: self.header@,
            body: match self.body {
                Some(ref b) => Some(b@),
                None => None,
            },
        }
    }
}

/// First-match lookup in the ext-field pair list.
pub open spec fn spec_ext_lookup(ext: Seq<(Seq<char>, Seq<char>)>, key: Seq<char>) -> Option<
    Seq<char>,
>
    decreases ext.len(),
{
    if ext.len() == 0 {
        None
    } else if ext[0].0 == key {
        Some(ext[0].1)
    } else {
        spec_ext_lookup(ext.skip(1), key)
    }
}

/// Replace the value under `key` if present, else append the pair.
pub open spec fn spec_ext_upsert(
    ext: Seq<(Seq<char>, Seq<char>)>,
    key: Seq<char>,
    value: Seq<char>,
) -> Seq<(Seq<char>, Seq<char>)>
    decreases ext.len(),
{
    if ext.len() == 0 {
        seq![(key, value)]
    } else if ext[0].0 == key {
        seq![(key, value)] + ext.skip(1)
    } else {
        seq![ext[0]] + spec_ext_upsert(ext.skip(1), key, value)
    }
}

impl Command {
    /// A command is well formed when its ext-field keys never repeat.
    pub open spec fn wf(self) -> bool {
        self@.header.wf()
    }

    /// A fresh command carrying `code`, with the next opaque id from `ids`,
    /// flag 0, the fixed source-language tag, an empty remark, no ext
    /// fields and no body.
    pub fn new(code: u8, ids: &mut RequestIdAllocator) -> (r: Command)
        ensures
            r@.header.code == code,
            r@.header.flag == 0,
            r@.header.language == 12,
            r@.header.opaque == old(ids).next,
            r@.header.remark.len() == 0,
            r@.header.ext.len() == 0,
            r@.body is None,
            r.wf(),
            final(ids).next == if old(ids).next == usize::MAX {
                0
            } else {
                old(ids).next + 1
            },
    {
        let opaque = ids.allocate();
        let r = Command {
            header: Header {
                code,
                flag: 0,
                language: 12,
                opaque,
                remark: String::new(),
                ext_fields: Vec::new(),
            },
            body: None,
        };
        assert(r@.header.ext =~= Seq::<(Seq<char>, Seq<char>)>::empty());
        r
    }

    /// The operation code.
    pub fn code(&self) -> (r: u8)
        ensures
            r == self@.header.code,
    {
        self.header.code
    }

    /// The correlation id.
    pub fn opaque(&self) -> (r: usize)
        ensures
            r == self@.header.opaque,
    {
        self.header.opaque
    }

    /// Inserts or replaces the ext field under `key`.
    #[verifier::loop_isolation(false)]
    pub fn add_property(&mut self, key: &str, value: &str)
        requires
            old(self).wf(),
        ensures
            final(self).wf(),
            final(self)@.header.ext == spec_ext_upsert(old(self)@.header.ext, key@, value@),
            final(self)@.header.code == old(self)@.header.code,
            final(self)@.header.flag == old(self)@.header.flag,
            final(self)@.header.language == old(self)@.header.language,
            final(self)@.header.opaque == old(self)@.header.opaque,
            final(self)@.header.remark == old(self)@.header.remark,
            final(self)@.body == old(self)@.body,
    {
        let ghost ext0 = self@.header.ext;
        let n: usize = self.header.ext_fields.len();
        let mut i: usize = 0;
        while i < n
            invariant
                i <= n,
                n == self.header.ext_fields@.len(),
                *self == *old(self),
                ext0 == self@.header.ext,
                n == ext0.len(),
                forall|k: int| 0 <= k < i ==> ext0[k].0 != key@,
            decreases n - i,
        {
            let same = str_eq(self.header.ext_fields[i].0.as_str(), key);
            if same {
                self.header.ext_fields[i].1 = value.to_owned();
                proof {
                    lemma_ext_upsert_found(ext0, key@, value@, i as int);
                    assert(final(self)@.header.ext =~= spec_ext_upsert(ext0, key@, value@));
                    lemma_ext_upsert_wf(ext0, key@, value@);
                }
                return ;
            }
            i = i + 1;
        }
        self.header.ext_fields.push((key.to_owned(), value.to_owned()));
        proof {
            lemma_ext_upsert_missing(ext0, key@, value@);
            assert(final(self)@.header.ext =~= ext0 + seq![(key@, value@)]);
            lemma_ext_upsert_wf(ext0, key@, value@);
        }
    }

    /// The value stored under `key`, if any.
    pub fn get_property(&self, key: &str) -> (r: Option<&String>)
        ensures
            match r {
                Some(v) => spec_ext_lookup(self@.header.ext, key@) == Some(v@),
                None => spec_ext_lookup(self@.header.ext, key@) is None,
            },
    {
        let ghost ext = self@.header.ext;
        let n: usize = self.header.ext_fields.len();
        assert(ext.skip(0) =~= ext);
        let mut i: usize = 0;
        while i < n
            invariant
                i <= n,
                n == self.header.ext_fields@.len(),
                ext == self@.header.ext,
                n == ext.len(),
                spec_ext_lookup(ext, key@) == spec_ext_lookup(ext.skip(i as int), key@),
            decreases n - i,
        {
            proof {
                assert(ext.skip(i as int)[0] == ext[i as int]);
                assert(ext.skip(i as int).skip(1) =~= ext.skip(i + 1));
            }
            let same = str_eq(self.header.ext_fields[i].0.as_str(), key);
            if same {
                return Some(&self.header.ext_fields[i].1);
            }
            i = i + 1;
        }
        assert(ext.skip(n as int).len() == 0);
        None
    }

    /// Sets the body payload.
    pub fn set_body(&mut self, body: Vec<u8>)
        ensures
            final(self)@.body == Some(body@),
            final(self)@.header == old(self)@.header,
    {
        self.body = Some(body);
    }

    /// The body payload, if any.
    pub fn body(&self) -> (r: Option<&[u8]>)
        ensures
            match r {
                Some(b) => self@.body == Some(b@),
                None => self@.body is None,
            },
    {
        match &self.body {
            Some(v) => Some(v.as_slice()),
            None => None,
        }
    }
}

// ---------------------------------------------------------------------------
// The frame codec
// ---------------------------------------------------------------------------
/// The body bytes that go on the wire: the payload, or nothing.
pub open spec fn spec_body_bytes(c: CommandModel) -> Seq<u8> {
    match c.body {
        Some(b) => b,
        None => Seq::empty(),
    }
}

/// The 32-bit length fields bound a frame: header text, body and the
/// header-length field together must stay under 4 GiB.
pub open spec fn frame_fits(c: CommandModel) -> bool {
    spec_header_bytes(c.header).len() + spec_body_bytes(c).len() + 4 <= u32::MAX
}

/// The complete frame: total length, header length, header text, body.
/// `total_length` counts everything after itself.
pub open spec fn spec_frame_bytes(c: CommandModel) -> Seq<u8> {
    spec_u32_be_bytes(
        (spec_header_bytes(c.header).len() + spec_body_bytes(c).len() + 4) as u32,
    ) + (spec_u32_be_bytes(spec_header_bytes(c.header).len() as u32) + (spec_header_bytes(c.header)
        + spec_body_bytes(c)))
}

/// Decodes one complete frame.  `None` exactly when the input is too short
/// for the fixed fields, the declared lengths are inconsistent with the
/// input, or the header text does not parse.
pub open spec fn spec_decode_frame(s: Seq<u8>) -> Option<CommandModel> {
    if s.len() >= 8 {
        let total = spec_u32_be(s);
        let hl = spec_u32_be(s.skip(4));
        if 4 + total <= s.len() && hl + 4 <= total {
            match spec_parse_header(s.subrange(8, 8 + hl)) {
                Some(h) => Some(
                    CommandModel { header: h, body: Some(s.subrange(8 + hl, 4 + total)) },
                ),
                None => None,
            }
        } else {
            None
        }
    } else {
        None
    }
}

impl Command {
    /// The four-byte big-endian encoding of `data`.
    pub fn u32_to_vec(data: u32) -> (r: Vec<u8>)
        ensures
            r@ == spec_u32_be_bytes(data),
    {
        let mut result: Vec<u8> = Vec::new();
        result.push((data / 0x1000000) as u8);
        result.push(((data / 0x10000) % 0x100) as u8);
        result.push(((data / 0x100) % 0x100) as u8);
        result.push((data % 0x100) as u8);
        assert(result@ =~= spec_u32_be_bytes(data));
        result
    }

    /// Consumes the command and produces its complete frame.  The only
    /// failure is a frame that would overflow the 32-bit length fields.
    pub fn encode(self) -> (r: Result<Vec<u8>, Error>)
        ensures
            match r {
                Ok(v) => frame_fits(self@) && v@ == spec_frame_bytes(self@),
                Err(e) => !frame_fits(self@) && e is FrameTooLarge,
            },
    {
        let header_bytes = encode_header(&self.header);
        let hlen: usize = header_bytes.len();
        let blen: usize = match &self.body {
            Some(b) => b.len(),
            None => 0,
        };
        if (hlen as u128) + (blen as u128) + 4 > (u32::MAX as u128) {
            return Err(Error::FrameTooLarge);
        }
        let total: u32 = ((hlen as u128) + (blen as u128) + 4) as u32;
        let mut out: Vec<u8> = Vec::new();
        let tb = Command::u32_to_vec(total);
        out.extend_from_slice(tb.as_slice());
        let hb = Command::u32_to_vec(hlen as u32);
        out.extend_from_slice(hb.as_slice());
        out.extend_from_slice(header_bytes.as_slice());
        match &self.body {
            Some(b) => {
                out.extend_from_slice(b.as_slice());
            },
            None => {},
        }
        assert(out@ =~= spec_frame_bytes(self@));
        Ok(out)
    }

    /// Parses one complete frame back into a command.
    pub fn decode(data: &[u8]) -> (r: Result<Command, Error>)
        ensures
            match r {
                Ok(c) => spec_decode_frame(data@) == Some(c@) && c.wf(),
                Err(e) => spec_decode_frame(data@) is None && e is DecodeCommandError,
            },
    {
        let len: usize = data.len();
        if len < 8 {
            return Err(Error::DecodeCommandError);
        }
        let total: u32 = vec_to_u32(data);
        let hl_slice: &[u8] = &data[4..8];
        let hl: u32 = vec_to_u32(hl_slice);
        proof {
            assert(data@.subrange(4, 8)[0] == data@.skip(4)[0]);
            assert(data@.subrange(4, 8)[1] == data@.skip(4)[1]);
            assert(data@.subrange(4, 8)[2] == data@.skip(4)[2]);
            assert(data@.subrange(4, 8)[3] == data@.skip(4)[3]);
            assert(spec_u32_be(data@.subrange(4, 8)) == spec_u32_be(data@.skip(4)));
        }
        if !((total as u64) + 4 <= len as u64 && (hl as u64) + 4 <= total as u64) {
            return Err(Error::DecodeCommandError);
        }
        let hend: usize = 8 + (hl as usize);
        let bend: usize = 4 + (total as usize);
        let header_slice: &[u8] = &data[8..hend];
        match parse_header(header_slice) {
            None => Err(Error::DecodeCommandError),
            Some(h) => {
                let mut body: Vec<u8> = Vec::new();
                body.extend_from_slice(&data[hend..bend]);
                let c = Command { header: h, body: Some(body) };
                proof {
                    crate::header::lemma_parse_header_wf(data@.subrange(8, 8 + hl as int));
                }
                Ok(c)
            },
        }
    }
}

/// Round trip: decoding the frame of any well-formed command that fits the
/// length fields reproduces the command — same header, and the body bytes
/// that were sent (an absent body arrives as an empty one).
pub proof fn lemma_frame_roundtrip(c: CommandModel)
    requires
        c.header.wf(),
        frame_fits(c),
    ensures
        spec_decode_frame(spec_frame_bytes(c)) == Some(
            CommandModel { header: c.header, body: Some(spec_body_bytes(c)) },
        ),
{
    let hb = spec_header_bytes(c.header);
    let bb = spec_body_bytes(c);
    let hl = hb.len() as int;
    let total = hl + bb.len() + 4;
    let s = spec_frame_bytes(c);
    let b1 = spec_u32_be_bytes(total as u32);
    let b2 = spec_u32_be_bytes(hl as u32);
    assert(s == b1 + (b2 + (hb + bb)));
    assert(b1.len() == 4 && b2.len() == 4);
    assert(s.len() == 8 + hl + bb.len());
    lemma_u32_be_roundtrip(total as u32);
    lemma_u32_be_roundtrip(hl as u32);
    assert(s[0] == b1[0] && s[1] == b1[1] && s[2] == b1[2] && s[3] == b1[3]);
    assert(spec_u32_be(s) == total);
    assert(s.skip(4)[0] == b2[0] && s.skip(4)[1] == b2[1] && s.skip(4)[2] == b2[2] && s.skip(4)[3]
        == b2[3]);
    assert(spec_u32_be(s.skip(4)) == hl);
    assert(4 + total <= s.len());
    assert(hl + 4 <= total);
    assert(s.subrange(8, 8 + hl) =~= hb);
    lemma_header_roundtrip(c.header);
    assert(spec_parse_header(s.subrange(8, 8 + hl)) == Some(c.header));
    assert(s.subrange(8 + hl, 4 + total) =~= bb);
}

/// After storing a property, looking its key up yields the new value, and
/// every other key reads as before.
pub proof fn lemma_ext_upsert_lookup(
    ext: Seq<(Seq<char>, Seq<char>)>,
    key: Seq<char>,
    value: Seq<char>,
    probe: Seq<char>,
)
    ensures
        spec_ext_lookup(spec_ext_upsert(ext, key, value), probe) == if probe == key {
            Some(value)
        } else {
            spec_ext_lookup(ext, probe)
        },
    decreases ext.len(),
{
    let u = spec_ext_upsert(ext, key, value);
    if ext.len() == 0 {
        assert(u == seq![(key, value)]);
        assert(u.skip(1) =~= Seq::<(Seq<char>, Seq<char>)>::empty());
    } else if ext[0].0 == key {
        assert(u == seq![(key, value)] + ext.skip(1));
        assert(u[0] == (key, value));
        assert(u.skip(1) =~= ext.skip(1));
        if probe != key {
            assert(spec_ext_lookup(ext, probe) == spec_ext_lookup(ext.skip(1), probe));
        }
    } else {
        let v = spec_ext_upsert(ext.skip(1), key, value);
        assert(u == seq![ext[0]] + v);
        assert(u[0] == ext[0]);
        assert(u.skip(1) =~= v);
        lemma_ext_upsert_lookup(ext.skip(1), key, value, probe);
        if probe == ext[0].0 {
            assert(probe != key);
        }
    }
}

// ---------------------------------------------------------------------------
// Helper lemmas for upsert
// ---------------------------------------------------------------------------
proof fn lemma_ext_upsert_found(
    ext: Seq<(Seq<char>, Seq<char>)>,
    key: Seq<char>,
    value: Seq<char>,
    i: int,
)
    requires
        0 <= i < ext.len(),
        ext[i].0 == key,
        forall|k: int| 0 <= k < i ==> ext[k].0 != key,
    ensures
        spec_ext_upsert(ext, key, value) == ext.update(i, (key, value)),
    decreases i,
{
    if i == 0 {
        assert(spec_ext_upsert(ext, key, value) == seq![(key, value)] + ext.skip(1));
        assert(seq![(key, value)] + ext.skip(1) =~= ext.update(0, (key, value)));
    } else {
        assert(ext[0].0 != key);
        assert(ext.skip(1)[i - 1] == ext[i]);
        lemma_ext_upsert_found(ext.skip(1), key, value, i - 1);
        assert(seq![ext[0]] + ext.skip(1).update(i - 1, (key, value)) =~= ext.update(
            i,
            (key, value),
        ));
    }
}

proof fn lemma_ext_upsert_missing(ext: Seq<(Seq<char>, Seq<char>)>, key: Seq<char>, value: Seq<char>)
    requires
        forall|k: int| 0 <= k < ext.len() ==> ext[k].0 != key,
    ensures
        spec_ext_upsert(ext, key, value) == ext + seq![(key, value)],
    decreases ext.len(),
{
    if ext.len() == 0 {
        assert(spec_ext_upsert(ext, key, value) =~= ext + seq![(key, value)]);
    } else {
        assert(ext[0].0 != key);
        lemma_ext_upsert_missing(ext.skip(1), key, value);
        assert(seq![ext[0]] + (ext.skip(1) + seq![(key, value)]) =~= ext + seq![(key, value)]);
    }
}

/// Upserting preserves key uniqueness.
proof fn lemma_ext_upsert_wf(ext: Seq<(Seq<char>, Seq<char>)>, key: Seq<char>, value: Seq<char>)
    requires
        forall|i: int, j: int| 0 <= i < j < ext.len() ==> ext[i].0 != ext[j].0,
    ensures
        forall|i: int, j: int|
            0 <= i < j < spec_ext_upsert(ext, key, value).len() ==> spec_ext_upsert(
                ext,
                key,
                value,
            )[i].0 != spec_ext_upsert(ext, key, value)[j].0,
    decreases ext.len(),
{
    let u = spec_ext_upsert(ext, key, value);
    if ext.len() == 0 {
    } else if ext[0].0 == key {
        assert(u == seq![(key, value)] + ext.skip(1));
        assert forall|i: int, j: int| 0 <= i < j < u.len() implies u[i].0 != u[j].0 by {
            if i == 0 {
                assert(u[j].0 == ext[j].0);
                assert(ext[0].0 != ext[j].0);
            } else {
                assert(u[i].0 == ext[i].0 && u[j].0 == ext[j].0);
            }
        }
    } else {
        assert(forall|i: int, j: int|
            0 <= i < j < ext.skip(1).len() ==> ext.skip(1)[i].0 != ext.skip(1)[j].0);
        lemma_ext_upsert_wf(ext.skip(1), key, value);
        let v = spec_ext_upsert(ext.skip(1), key, value);
        assert(u == seq![ext[0]] + v);
        lemma_ext_upsert_keys(ext.skip(1), key, value);
        assert forall|i: int, j: int| 0 <= i < j < u.len() implies u[i].0 != u[j].0 by {
            if i == 0 {
                assert(u[j].0 == v[j - 1].0);
            } else {
                assert(u[i].0 == v[i - 1].0 && u[j].0 == v[j - 1].0);
            }
        }
    }
}

/// Every key after an upsert is either an old key or the inserted one.
proof fn lemma_ext_upsert_keys(ext: Seq<(Seq<char>, Seq<char>)>, key: Seq<char>, value: Seq<char>)
    ensures
        forall|i: int|
            0 <= i < spec_ext_upsert(ext, key, value).len() ==> (#[trigger] spec_ext_upsert(
                ext,
                key,
                value,
            )[i].0 == key || exists|k: int|
                0 <= k < ext.len() && ext[k].0 == spec_ext_upsert(ext, key, value)[i].0),
    decreases ext.len(),
{
    let u = spec_ext_upsert(ext, key, value);
    if ext.len() == 0 {
    } else if ext[0].0 == key {
        assert forall|i: int| 0 <= i < u.len() implies (u[i].0 == key || exists|k: int|
            0 <= k < ext.len() && ext[k].0 == u[i].0) by {
            if i > 0 {
                assert(ext[i].0 == u[i].0);
            }
        }
    } else {
        lemma_ext_upsert_keys(ext.skip(1), key, value);
        let v = spec_ext_upsert(ext.skip(1), key, value);
        assert forall|i: int| 0 <= i < u.len() implies (u[i].0 == key || exists|k: int|
            0 <= k < ext.len() && ext[k].0 == u[i].0) by {
            if i == 0 {
                assert(ext[0].0 == u[0].0);
            } else {
                assert(u[i].0 == v[i - 1].0);
                if v[i - 1].0 != key {
                    let k = choose|k: int|
                        0 <= k < ext.skip(1).len() && ext.skip(1)[k].0 == v[i - 1].0;
                    assert(ext[k + 1].0 == u[i].0);
                }
            }
        }
    }
}

} // verus!
