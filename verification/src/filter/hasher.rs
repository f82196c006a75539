//! The hash that tags the labels of the blocklist tree.

use vstd::prelude::*;

verus! {

/// `fastmurmur3::hash`: the 128-bit MurmurHash3 of the bytes with seed 0,
/// its two 64-bit halves laid out in the machine's byte order. Nothing is
/// claimed of the value: which half comes out low depends on the machine.
#[verifier::external_body]
fn murmur3(bytes: &[u8]) -> u128 {
    fastmurmur3::hash(bytes)
}

/// A hasher whose state is the MurmurHash3 of what was written last.
#[derive(Clone)]
pub struct Murmur3Hasher {
    state: u64,
}

impl Murmur3Hasher {
    /// The 64 bits that the hasher holds.
    pub closed spec fn value(&self) -> u64 {
        self.state
    }
}

impl core::hash::Hasher for Murmur3Hasher {
    fn finish(&self) -> (r: u64)
        ensures
            r == self.value(),
    {
        self.state
    }

    /// Hashes the bytes and keeps the low half of their hash. Which value
    /// that is is left open, as it is for the hash itself.
    fn write(&mut self, bytes: &[u8]) {
        let h: u128 = murmur3(bytes);
        self.keep(h);
    }
}

/// Builds hashers that start from zero.
#[derive(Clone)]
pub struct BuildMurmur3Hasher;

impl core::hash::BuildHasher for BuildMurmur3Hasher {
    type Hasher = Murmur3Hasher;

    fn build_hasher(&self) -> (r: Murmur3Hasher)
        ensures
            r.value() == 0,
    {
        Murmur3Hasher { state: 0 }
    }
}

/// How many values 64 bits have.
pub const TWO_TO_64: u128 = 0x1_0000_0000_0000_0000;

impl Murmur3Hasher {
    /// Takes a 128-bit hash for the state: its low 64 bits are held from
    /// now on, whatever was held before.
    pub fn keep(&mut self, hash: u128)
        ensures
            final(self).value() == hash % TWO_TO_64,
    {
        let low: u128 = hash & 0xFFFF_FFFF_FFFF_FFFF;
        assert(low == hash % 0x1_0000_0000_0000_0000 && low <= 0xFFFF_FFFF_FFFF_FFFF)
            by (bit_vector)
            requires
                low == hash & 0xFFFF_FFFF_FFFF_FFFF,
        ;
        self.state = low as u64;
    }
}

} // verus!
