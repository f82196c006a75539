//! Big-endian integers inside a byte sequence.

use crate::error::DnsError;
use vstd::prelude::*;

verus! {

/// The byte at `at`, if the sequence reaches that far.
pub open spec fn wire_u8(s: Seq<u8>, at: int) -> Result<u8, DnsError> {
    if 0 <= at < s.len() {
        Ok(s[at])
    } else {
        Err(DnsError::MalformedPacket)
    }
}

/// The value of two bytes read most significant first.
pub open spec fn be16(hi: u8, lo: u8) -> u16 {
    (hi as int * 256 + lo as int) as u16
}

/// The value of four bytes read most significant first.
pub open spec fn be32(b0: u8, b1: u8, b2: u8, b3: u8) -> u32 {
    (b0 as int * 16777216 + b1 as int * 65536 + b2 as int * 256 + b3 as int) as u32
}

/// The big-endian 16-bit integer at `at`, if two bytes are there.
pub open spec fn wire_u16(s: Seq<u8>, at: int) -> Result<u16, DnsError> {
    if 0 <= at && at + 2 <= s.len() {
        Ok(be16(s[at], s[at + 1]))
    } else {
        Err(DnsError::MalformedPacket)
    }
}

/// The big-endian 32-bit integer at `at`, if four bytes are there.
pub open spec fn wire_u32(s: Seq<u8>, at: int) -> Result<u32, DnsError> {
    if 0 <= at && at + 4 <= s.len() {
        Ok(be32(s[at], s[at + 1], s[at + 2], s[at + 3]))
    } else {
        Err(DnsError::MalformedPacket)
    }
}

/// The `n` bytes that start at `at`, if that many are there.
pub open spec fn wire_bytes(s: Seq<u8>, at: int, n: int) -> Result<Seq<u8>, DnsError> {
    if 0 <= at && 0 <= n && at + n <= s.len() {
        Ok(s.subrange(at, at + n))
    } else {
        Err(DnsError::MalformedPacket)
    }
}

/// The two bytes of a 16-bit integer, most significant first.
pub open spec fn u16_bytes(v: u16) -> Seq<u8> {
    seq![(v / 256) as u8, (v % 256) as u8]
}

/// The four bytes of a 32-bit integer, most significant first.
pub open spec fn u32_bytes(v: u32) -> Seq<u8> {
    seq![
        (v / 16777216) as u8,
        ((v / 65536) % 256) as u8,
        ((v / 256) % 256) as u8,
        (v % 256) as u8,
    ]
}

/// Appends the two bytes of `v` to `out`, most significant first.
pub fn push_u16(out: &mut Vec<u8>, v: u16)
    ensures
        final(out)@ == old(out)@ + u16_bytes(v),
{
    out.push((v / 256) as u8);
    out.push((v % 256) as u8);
}

/// Appends the four bytes of `v` to `out`, most significant first.
pub fn push_u32(out: &mut Vec<u8>, v: u32)
    ensures
        final(out)@ == old(out)@ + u32_bytes(v),
{
    out.push((v / 16777216) as u8);
    out.push(((v / 65536) % 256) as u8);
    out.push(((v / 256) % 256) as u8);
    out.push((v % 256) as u8);
}

/// Reading back what `u16_bytes` wrote gives the integer again.
pub proof fn lemma_u16_round_trip(v: u16)
    ensures
        u16_bytes(v).len() == 2,
        be16(u16_bytes(v)[0], u16_bytes(v)[1]) == v,
{
}

/// Reading back what `u32_bytes` wrote gives the integer again.
pub proof fn lemma_u32_round_trip(v: u32)
    ensures
        u32_bytes(v).len() == 4,
        be32(u32_bytes(v)[0], u32_bytes(v)[1], u32_bytes(v)[2], u32_bytes(v)[3]) == v,
{
}
} // verus!
