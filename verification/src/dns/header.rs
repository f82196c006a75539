//! The twelve-byte header that starts every DNS message.

use crate::dns::wire::{be16, push_u16, u16_bytes};
use vstd::prelude::*;
use vstd::std_specs::convert::FromSpecImpl;

verus! {

/// How many bytes the header takes on the wire.
pub const HEADER_LEN: usize = 12;

/// The flag word of the header, field by field. `z` is the reserved field:
/// it is kept as read and always written as zero.
#[derive(Debug, Clone, Copy, PartialEq, Eq, Structural)]
pub struct HeaderFlags {
    pub response: bool,
    pub opcode: u8,
    pub auth_answer: bool,
    pub truncated: bool,
    pub recursion_desired: bool,
    pub recursion_available: bool,
    pub z: u8,
    pub r_code: u8,
}

/// The flag word made of the given fields, with the reserved bits clear.
/// Only the low four bits of `opcode` and of `r_code` have a place in it.
pub open spec fn pack_flags(
    response: bool,
    opcode: u8,
    auth_answer: bool,
    truncated: bool,
    recursion_desired: bool,
    recursion_available: bool,
    r_code: u8,
) -> u16 {
    (if response { 0x8000u16 } else { 0u16 })
        | (((opcode & 0xf) as u16) << 11)
        | (if auth_answer { 0x0400u16 } else { 0u16 })
        | (if truncated { 0x0200u16 } else { 0u16 })
        | (if recursion_desired { 0x0100u16 } else { 0u16 })
        | (if recursion_available { 0x0080u16 } else { 0u16 })
        | ((r_code & 0xf) as u16)
}

/// The fields that the flag word `value` holds.
pub open spec fn unpack_flags(value: u16) -> HeaderFlags {
    HeaderFlags {
        response: value & 0x8000 != 0,
        opcode: ((value >> 11) & 0xf) as u8,
        auth_answer: value & 0x0400 != 0,
        truncated: value & 0x0200 != 0,
        recursion_desired: value & 0x0100 != 0,
        recursion_available: value & 0x0080 != 0,
        z: ((value >> 4) & 0x7) as u8,
        r_code: (value & 0xf) as u8,
    }
}

impl HeaderFlags {
    /// The flag word that these fields are written as.
    pub open spec fn word(self) -> u16 {
        pack_flags(
            self.response,
            self.opcode,
            self.auth_answer,
            self.truncated,
            self.recursion_desired,
            self.recursion_available,
            self.r_code,
        )
    }

    /// Fields that have a place in the flag word: `opcode` and `r_code` fit
    /// their four bits.
    pub open spec fn valid(self) -> bool {
        self.opcode < 16 && self.r_code < 16
    }

    /// The fields as they are read back once written: with the reserved
    /// field zero.
    pub open spec fn written(self) -> HeaderFlags {
        HeaderFlags { z: 0, ..self }
    }

    /// Whether the fields have a place in the flag word.
    pub fn is_valid(&self) -> (b: bool)
        ensures
            b == self.valid(),
    {
        self.opcode < 16 && self.r_code < 16
    }
}

impl From<u16> for HeaderFlags {
    fn from(value: u16) -> (r: HeaderFlags) {
        HeaderFlags {
            response: value & 0x8000 != 0,
            opcode: ((value >> 11) & 0xf) as u8,
            auth_answer: value & 0x0400 != 0,
            truncated: value & 0x0200 != 0,
            recursion_desired: value & 0x0100 != 0,
            recursion_available: value & 0x0080 != 0,
            z: ((value >> 4) & 0x7) as u8,
            r_code: (value & 0xf) as u8,
        }
    }
}

impl FromSpecImpl<u16> for HeaderFlags {
    open spec fn obeys_from_spec() -> bool {
        true
    }

    open spec fn from_spec(value: u16) -> HeaderFlags {
        unpack_flags(value)
    }
}

impl From<HeaderFlags> for u16 {
    fn from(flags: HeaderFlags) -> (r: u16) {
        let response: u16 = if flags.response { 0x8000u16 } else { 0u16 };
        let auth_answer: u16 = if flags.auth_answer { 0x0400u16 } else { 0u16 };
        let truncated: u16 = if flags.truncated { 0x0200u16 } else { 0u16 };
        let recursion_desired: u16 = if flags.recursion_desired { 0x0100u16 } else { 0u16 };
        let recursion_available: u16 = if flags.recursion_available { 0x0080u16 } else { 0u16 };
        response | (((flags.opcode & 0xf) as u16) << 11) | auth_answer | truncated
            | recursion_desired | recursion_available | ((flags.r_code & 0xf) as u16)
    }
}

impl FromSpecImpl<HeaderFlags> for u16 {
    open spec fn obeys_from_spec() -> bool {
        true
    }

    open spec fn from_spec(flags: HeaderFlags) -> u16 {
        flags.word()
    }
}

/// Writing the fields of a flag word gives the word back without its
/// reserved bits.
pub proof fn lemma_flags_word_of_unpacked(value: u16)
    ensures
        unpack_flags(value).word() == value & 0xFF8F,
{
    assert(pack_flags(
        value & 0x8000 != 0,
        ((value >> 11) & 0xf) as u8,
        value & 0x0400 != 0,
        value & 0x0200 != 0,
        value & 0x0100 != 0,
        value & 0x0080 != 0,
        (value & 0xf) as u8,
    ) == value & 0xFF8F) by (bit_vector);
}

/// Where the opcode and the reserved bits of a flag word are zero, writing
/// its fields gives the word with bits 11 to 14 masked out, which is then
/// the word itself.
pub proof fn lemma_flags_round_trip_masked(value: u16)
    requires
        value & 0x7870 == 0,
    ensures
        unpack_flags(value).word() == value & 0x87FF,
{
    lemma_flags_word_of_unpacked(value);
    assert(value & 0xFF8F == value & 0x87FF) by (bit_vector)
        requires
            value & 0x7870 == 0,
    ;
}

/// Reading the word of valid fields gives the fields back, the reserved
/// field as zero.
pub proof fn lemma_flags_unpack_of_word(f: HeaderFlags)
    requires
        f.valid(),
    ensures
        unpack_flags(f.word()) == f.written(),
{
    let w = f.word();
    let (r, op, aa, tc, rd, ra, rc) = (
        f.response,
        f.opcode,
        f.auth_answer,
        f.truncated,
        f.recursion_desired,
        f.recursion_available,
        f.r_code,
    );
    assert(w == pack_flags(r, op, aa, tc, rd, ra, rc));
    assert((w & 0x8000 != 0) == r && (w & 0x0400 != 0) == aa && (w & 0x0200 != 0) == tc && (w
        & 0x0100 != 0) == rd && (w & 0x0080 != 0) == ra && ((w >> 11) & 0xf) as u8 == op && ((w
        >> 4) & 0x7) as u8 == 0u8 && (w & 0xf) as u8 == rc) by (bit_vector)
        requires
            w == pack_flags(r, op, aa, tc, rd, ra, rc),
            op < 16,
            rc < 16,
    ;
}

/// The fixed part of a message: its number, its flags and how many entries
/// each of the four sections holds.
#[derive(Debug, Clone, Copy, PartialEq, Eq, Structural)]
pub struct Header {
    pub transaction_id: u16,
    pub flags: HeaderFlags,
    pub questions: u16,
    pub answer_rrs: u16,
    pub authority_rrs: u16,
    pub additional_rrs: u16,
}

impl Header {
    /// The header as it is read back once written: its flags with the
    /// reserved field zero.
    pub open spec fn written(self) -> Header {
        Header { flags: self.flags.written(), ..self }
    }
}

/// The twelve bytes of a header, every field big-endian.
pub open spec fn header_bytes(h: Header) -> Seq<u8> {
    u16_bytes(h.transaction_id) + u16_bytes(h.flags.word()) + u16_bytes(h.questions) + u16_bytes(
        h.answer_rrs,
    ) + u16_bytes(h.authority_rrs) + u16_bytes(h.additional_rrs)
}

/// The header that a packet starts with, if it has twelve bytes.
pub open spec fn parse_header(buf: Seq<u8>) -> Option<Header> {
    if buf.len() < HEADER_LEN {
        None
    } else {
        Some(
            Header {
                transaction_id: be16(buf[0], buf[1]),
                flags: unpack_flags(be16(buf[2], buf[3])),
                questions: be16(buf[4], buf[5]),
                answer_rrs: be16(buf[6], buf[7]),
                authority_rrs: be16(buf[8], buf[9]),
                additional_rrs: be16(buf[10], buf[11]),
            },
        )
    }
}

impl Header {
    /// Appends the twelve bytes of the header to `out`.
    pub fn write(&self, out: &mut Vec<u8>)
        ensures
            final(out)@ == old(out)@ + header_bytes(*self),
    {
        let word: u16 = u16::from(self.flags);
        push_u16(out, self.transaction_id);
        push_u16(out, word);
        push_u16(out, self.questions);
        push_u16(out, self.answer_rrs);
        push_u16(out, self.authority_rrs);
        push_u16(out, self.additional_rrs);
        assert(out@ =~= old(out)@ + header_bytes(*self));
    }
}

/// A valid header is read back from its twelve bytes, whatever follows them.
pub proof fn lemma_header_round_trip(h: Header, buf: Seq<u8>)
    requires
        h.flags.valid(),
        buf.len() >= HEADER_LEN,
        buf.subrange(0, HEADER_LEN as int) == header_bytes(h),
    ensures
        parse_header(buf) == Some(h.written()),
{
    let hb = header_bytes(h);
    assert(hb.len() == 12);
    assert forall|i: int| 0 <= i < 12 implies buf[i] == hb[i] by {
        assert(buf.subrange(0, HEADER_LEN as int)[i] == buf[i]);
    }
    lemma_flags_unpack_of_word(h.flags);
    assert(be16(hb[0], hb[1]) == h.transaction_id);
    assert(be16(hb[2], hb[3]) == h.flags.word());
    assert(be16(hb[4], hb[5]) == h.questions);
    assert(be16(hb[6], hb[7]) == h.answer_rrs);
    assert(be16(hb[8], hb[9]) == h.authority_rrs);
    assert(be16(hb[10], hb[11]) == h.additional_rrs);
}

} // verus!
