//! Big-endian length-field helpers and the transport error taxonomy.

use vstd::prelude::*;

verus! {

/// The big-endian 32-bit value stored in the first four bytes of `data`.
pub open spec fn spec_u32_be(data: Seq<u8>) -> int
    recommends
        data.len() >= 4,
{
    (data[0] as u32) * 0x1000000 + (data[1] as u32) * 0x10000 + (data[2] as u32) * 0x100 + (
    data[3] as u32)
}

/// The four-byte big-endian encoding of `v`.
pub open spec fn spec_u32_be_bytes(v: u32) -> Seq<u8> {
    seq![
        (v / 0x1000000) as u8,
        ((v / 0x10000) % 0x100) as u8,
        ((v / 0x100) % 0x100) as u8,
        (v % 0x100) as u8,
    ]
}

/// Reading back the four bytes written for `v` gives `v` again.
pub proof fn lemma_u32_be_roundtrip(v: u32)
    ensures
        spec_u32_be(spec_u32_be_bytes(v)) == v,
{
    assert(spec_u32_be(spec_u32_be_bytes(v)) == v) by {
        assert((v / 0x1000000) * 0x1000000 + ((v / 0x10000) % 0x100) * 0x10000 + ((v / 0x100)
            % 0x100) * 0x100 + (v % 0x100) == v) by (nonlinear_arith);
    };
}

/// Reads a big-endian `u32` from the first four bytes of `data`.
pub fn vec_to_u32(data: &[u8]) -> (r: u32)
    requires
        data@.len() >= 4,
    ensures
        r == spec_u32_be(data@),
{
    let b0: u32 = data[0] as u32;
    let b1: u32 = data[1] as u32;
    let b2: u32 = data[2] as u32;
    let b3: u32 = data[3] as u32;
    b0 * 0x1000000 + b1 * 0x10000 + b2 * 0x100 + b3
}

/// The transport's error taxonomy: decode failures, socket failures,
/// an unready or unavailable stream, and malformed peer addresses.
#[derive(Debug)]
pub enum Error {
    DecodeCommandError,
    IoError,
    StreamNotReady,
    InvalidAddress(String),
    FrameTooLarge,
}

impl Error {
    /// A short description of the error, mirroring its variant.
    pub fn message(&self) -> (r: &'static str)
        ensures
            (self is DecodeCommandError ==> r@ == "bad command data"@),
            (self is IoError ==> r@ == "io error"@),
            (self is StreamNotReady ==> r@ == "stream not ready"@),
            (self is InvalidAddress ==> r@ == "invalid address"@),
            (self is FrameTooLarge ==> r@ == "frame too large"@),
    {
        match self {
            Error::DecodeCommandError => "bad command data",
            Error::IoError => "io error",
            Error::StreamNotReady => "stream not ready",
            Error::InvalidAddress(_) => "invalid address",
            Error::FrameTooLarge => "frame too large",
        }
    }
}

} // verus!
