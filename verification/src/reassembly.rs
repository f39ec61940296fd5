//! The read-side reassembly buffer: raw socket reads accumulate here, and
//! complete frames are cut off the front, so frames may arrive split into
//! arbitrary chunks or coalesced several to a read.

use crate::util::spec_u32_be;
use crate::util::vec_to_u32;
use vstd::prelude::*;

verus! {

/// The first complete frame at the head of `s`, and what follows it.  A
/// frame is available only when the buffered bytes cover the declared
/// total length and that total is at least the four bytes of the
/// header-length field — a cut therefore always spans at least the eight
/// fixed bytes.  While neither holds, nothing is cut and every byte stays.
pub open spec fn spec_frame_split(s: Seq<u8>) -> Option<(Seq<u8>, Seq<u8>)> {
    if s.len() >= 4 && spec_u32_be(s) >= 4 && 4 + spec_u32_be(s) <= s.len() {
        Some((s.take(4 + spec_u32_be(s)), s.skip(4 + spec_u32_be(s))))
    } else {
        None
    }
}

/// All complete frames at the head of `s`, greedily.
pub open spec fn spec_frames(s: Seq<u8>) -> Seq<Seq<u8>>
    decreases s.len(),
    when true
    via spec_frames_decreases
{
    match spec_frame_split(s) {
        Some((f, r)) => seq![f] + spec_frames(r),
        None => Seq::empty(),
    }
}

#[via_fn]
proof fn spec_frames_decreases(s: Seq<u8>) {
    match spec_frame_split(s) {
        Some((f, r)) => {
            assert(r.len() < s.len());
        },
        None => {},
    }
}

/// Accumulates the bytes read from a socket and hands out complete frames.
pub struct ReassemblyBuffer {
    buf: Vec<u8>,
}

impl View for ReassemblyBuffer {
    type V = Seq<u8>;

    closed spec fn view(&self) -> Seq<u8> {
        self.buf@
    }
}

impl ReassemblyBuffer {
    /// An empty buffer.
    pub fn new() -> (r: Self)
        ensures
            r@ == Seq::<u8>::empty(),
    {
        ReassemblyBuffer { buf: Vec::new() }
    }

    /// How many bytes are waiting.
    pub fn len(&self) -> (r: usize)
        ensures
            r == self@.len(),
    {
        self.buf.len()
    }

    /// Appends one chunk, exactly as it came off the socket.
    pub fn feed(&mut self, chunk: &[u8])
        ensures
            final(self)@ == old(self)@ + chunk@,
    {
        self.buf.extend_from_slice(chunk);
    }

    /// Cuts the first complete frame off the front, if one is buffered;
    /// trailing bytes of the next frame stay untouched.  With fewer than
    /// the eight fixed bytes buffered, or with the declared total below
    /// the four-byte minimum a frame must at least span, nothing is cut
    /// and nothing is removed.
    pub fn try_take_frame(&mut self) -> (r: Option<Vec<u8>>)
        ensures
            match r {
                Some(f) => spec_frame_split(old(self)@) == Some((f@, final(self)@)),
                None => spec_frame_split(old(self)@) is None && final(self)@ == old(self)@,
            },
    {
        let blen: usize = self.buf.len();
        if blen < 4 {
            return None;
        }
        let total: u32 = vec_to_u32(self.buf.as_slice());
        if total < 4 {
            return None;
        }
        if (total as u64) + 4 > blen as u64 {
            return None;
        }
        let flen: usize = 4 + (total as usize);
        let mut frame: Vec<u8> = Vec::new();
        frame.extend_from_slice(&self.buf.as_slice()[0..flen]);
        let mut rest: Vec<u8> = Vec::new();
        rest.extend_from_slice(&self.buf.as_slice()[flen..blen]);
        self.buf = rest;
        proof {
            assert(frame@ =~= old(self)@.take(4 + spec_u32_be(old(self)@)));
            assert(final(self)@ =~= old(self)@.skip(4 + spec_u32_be(old(self)@)));
        }
        Some(frame)
    }
}

/// Partial-read resilience: while a lone frame is still incomplete — any
/// strict prefix of it is buffered — nothing is handed out, and nothing is
/// lost; the frame surfaces only once its last byte arrives.
pub proof fn lemma_incomplete_prefix_waits(f: Seq<u8>, k: int)
    requires
        spec_frame_split(f) == Some((f, Seq::<u8>::empty())),
        0 <= k < f.len(),
    ensures
        spec_frame_split(f.take(k)) is None,
{
    assert(f.skip(4 + spec_u32_be(f)).len() == 0);
    assert(4 + spec_u32_be(f) == f.len());
    if k >= 4 {
        assert(f.take(k)[0] == f[0]);
        assert(f.take(k)[1] == f[1]);
        assert(f.take(k)[2] == f[2]);
        assert(f.take(k)[3] == f[3]);
        assert(spec_u32_be(f.take(k)) == spec_u32_be(f));
    }
}

/// Pipelining: two complete frames delivered in one read are cut apart and
/// handed out one after the other.
pub proof fn lemma_two_frames_pipelined(f1: Seq<u8>, f2: Seq<u8>)
    requires
        spec_frame_split(f1) == Some((f1, Seq::<u8>::empty())),
        spec_frame_split(f2) == Some((f2, Seq::<u8>::empty())),
    ensures
        spec_frames(f1 + f2) == seq![f1, f2],
{
    let s = f1 + f2;
    assert(f1.skip(4 + spec_u32_be(f1)).len() == 0);
    assert(4 + spec_u32_be(f1) == f1.len());
    assert(f2.skip(4 + spec_u32_be(f2)).len() == 0);
    assert(4 + spec_u32_be(f2) == f2.len());
    assert(s[0] == f1[0] && s[1] == f1[1] && s[2] == f1[2] && s[3] == f1[3]);
    assert(spec_u32_be(s) == spec_u32_be(f1));
    assert(s.take(f1.len() as int) =~= f1);
    assert(s.skip(f1.len() as int) =~= f2);
    assert(spec_frame_split(s) == Some((f1, f2)));
    assert(f2.take(f2.len() as int) =~= f2);
    assert(spec_frame_split(f2) == Some((f2, Seq::<u8>::empty())));
    assert(spec_frames(Seq::<u8>::empty()) == Seq::<Seq<u8>>::empty());
    assert(spec_frames(f2) =~= seq![f2]);
    assert(spec_frames(s) == seq![f1] + spec_frames(f2));
    assert(spec_frames(s) =~= seq![f1, f2]);
}

} // verus!
