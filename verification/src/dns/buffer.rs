//! A cursor over the bytes of one DNS message.

use crate::dns::name::{
    ascii_chars, is_ascii_bytes, join_dots, lemma_ascii_decode, lemma_join_push, parse_name,
    resume_name, string_from_utf8, DOT, MAX_JUMPS, MAX_LABEL,
};
use crate::dns::wire::{wire_bytes, wire_u16, wire_u32, wire_u8};
use crate::error::DnsError;
use vstd::prelude::*;

verus! {

/// A read position inside a borrowed packet. Reads never go past the end:
/// they fail with `MalformedPacket` and leave the position where it was.
#[derive(Clone, Copy)]
pub struct DnsPacketBuffer<'a> {
    buf: &'a [u8],
    ptr: usize,
}

impl<'a> DnsPacketBuffer<'a> {
    /// The whole packet that the cursor moves over.
    pub closed spec fn bytes(&self) -> Seq<u8> {
        self.buf@
    }

    /// The offset of the next byte to be read.
    pub closed spec fn cursor(&self) -> nat {
        self.ptr as nat
    }

    pub fn new(buf: &'a [u8]) -> (r: Self)
        ensures
            r.bytes() == buf@,
            r.cursor() == 0,
    {
        Self { buf, ptr: 0 }
    }

    pub fn position(&self) -> (p: usize)
        ensures
            p == self.cursor(),
    {
        self.ptr
    }

    /// Whether `n` more bytes can be read from the cursor on.
    fn has(&self, n: usize) -> (b: bool)
        ensures
            b == (self.cursor() + n <= self.bytes().len()),
            b ==> self.cursor() + n <= usize::MAX,
    {
        self.ptr <= self.buf.len() && self.buf.len() - self.ptr >= n
    }

    #[inline]
    pub fn peek_u8(&self) -> (r: Result<u8, DnsError>)
        ensures
            r == wire_u8(self.bytes(), self.cursor() as int),
    {
        if !self.has(1) {
            return Err(DnsError::MalformedPacket);
        }
        Ok(self.buf[self.ptr])
    }

    #[inline]
    pub fn peek_u16(&self) -> (r: Result<u16, DnsError>)
        ensures
            r == wire_u16(self.bytes(), self.cursor() as int),
    {
        if !self.has(2) {
            return Err(DnsError::MalformedPacket);
        }
        let hi: u16 = self.buf[self.ptr] as u16;
        let lo: u16 = self.buf[self.ptr + 1] as u16;
        Ok(hi * 256 + lo)
    }

    #[inline]
    pub fn peek_u32(&self) -> (r: Result<u32, DnsError>)
        ensures
            r == wire_u32(self.bytes(), self.cursor() as int),
    {
        if !self.has(4) {
            return Err(DnsError::MalformedPacket);
        }
        let b0: u32 = self.buf[self.ptr] as u32;
        let b1: u32 = self.buf[self.ptr + 1] as u32;
        let b2: u32 = self.buf[self.ptr + 2] as u32;
        let b3: u32 = self.buf[self.ptr + 3] as u32;
        Ok(b0 * 16777216 + b1 * 65536 + b2 * 256 + b3)
    }

    #[inline]
    pub fn read_u8(&mut self) -> (r: Result<u8, DnsError>)
        ensures
            r == wire_u8(old(self).bytes(), old(self).cursor() as int),
            final(self).bytes() == old(self).bytes(),
            final(self).cursor() == old(self).cursor() + if r is Ok { 1int } else { 0 },
    {
        let r = self.peek_u8();
        if self.has(1) {
            self.ptr += 1;
        }
        r
    }

    #[inline]
    pub fn read_u16(&mut self) -> (r: Result<u16, DnsError>)
        ensures
            r == wire_u16(old(self).bytes(), old(self).cursor() as int),
            final(self).bytes() == old(self).bytes(),
            final(self).cursor() == old(self).cursor() + if r is Ok { 2int } else { 0 },
    {
        let r = self.peek_u16();
        if self.has(2) {
            self.ptr += 2;
        }
        r
    }

    #[inline]
    pub fn read_u32(&mut self) -> (r: Result<u32, DnsError>)
        ensures
            r == wire_u32(old(self).bytes(), old(self).cursor() as int),
            final(self).bytes() == old(self).bytes(),
            final(self).cursor() == old(self).cursor() + if r is Ok { 4int } else { 0 },
    {
        let r = self.peek_u32();
        if self.has(4) {
            self.ptr += 4;
        }
        r
    }

    /// Reads the next `n` bytes as they are.
    #[inline]
    pub fn read_n(&mut self, n: usize) -> (r: Result<Vec<u8>, DnsError>)
        ensures
            r is Ok <==> wire_bytes(old(self).bytes(), old(self).cursor() as int, n as int) is Ok,
            r matches Ok(v) ==> Ok::<Seq<u8>, DnsError>(v@) == wire_bytes(
                old(self).bytes(),
                old(self).cursor() as int,
                n as int,
            ),
            r matches Err(e) ==> e == DnsError::MalformedPacket,
            final(self).bytes() == old(self).bytes(),
            final(self).cursor() == old(self).cursor() + if r is Ok { n as int } else { 0 },
    {
        if !self.has(n) {
            return Err(DnsError::MalformedPacket);
        }
        let mut out: Vec<u8> = Vec::new();
        let start: usize = self.ptr;
        let mut i: usize = 0;
        while i < n
            invariant
                i <= n,
                start + n <= self.buf@.len(),
                start + n <= usize::MAX,
                out@ == self.buf@.subrange(start as int, start + i),
            decreases n - i,
        {
            out.push(self.buf[start + i]);
            i += 1;
        }
        self.ptr = start + n;
        Ok(out)
    }

    /// Reads the name at the cursor and returns its text, the labels joined
    /// by dots. Compression pointers are followed; the cursor ends behind the
    /// name where it stood in the record, not where a pointer led.
    pub fn read_name(&mut self) -> (r: Result<String, DnsError>)
        ensures
            final(self).bytes() == old(self).bytes(),
            match parse_name(old(self).bytes(), old(self).cursor() as int, MAX_JUMPS as nat) {
                Some((labels, next)) => {
                    &&& r matches Ok(s)
                    &&& s@ == ascii_chars(join_dots(labels))
                    &&& final(self).cursor() == next
                },
                None => {
                    &&& r == Err::<String, DnsError>(DnsError::MalformedPacket)
                    &&& final(self).cursor() == old(self).cursor()
                },
            },
    {
        let len: usize = self.buf.len();
        let mut cur: usize = self.ptr;
        let mut jumps: usize = MAX_JUMPS;
        let mut end: Option<usize> = None;
        let mut text: Vec<u8> = Vec::new();
        let ghost mut labels: Seq<Seq<u8>> = Seq::empty();
        let ghost whole = parse_name(self.buf@, self.ptr as int, MAX_JUMPS as nat);
        assert(labels + Seq::<Seq<u8>>::empty() =~= labels);
        loop
            invariant
                len == self.buf@.len(),
                self.buf@ == old(self).buf@,
                self.ptr == old(self).ptr,
                jumps <= MAX_JUMPS,
                is_ascii_bytes(text@),
                text@ == join_dots(labels),
                (labels.len() == 0) == (text@.len() == 0),
                whole == parse_name(old(self).buf@, old(self).ptr as int, MAX_JUMPS as nat),
                whole == resume_name(labels, end, parse_name(self.buf@, cur as int, jumps as nat)),
            decreases jumps, len - cur,
        {
            if cur >= len {
                return Err(DnsError::MalformedPacket);
            }
            let l: u8 = self.buf[cur];
            if l == 0 {
                let next: usize = match end {
                    Some(e) => e,
                    None => cur + 1,
                };
                proof {
                    assert(labels + Seq::<Seq<u8>>::empty() =~= labels);
                    lemma_ascii_decode(text@);
                }
                match string_from_utf8(text) {
                    Some(s) => {
                        self.ptr = next;
                        return Ok(s);
                    },
                    None => {
                        return Err(DnsError::MalformedPacket);
                    },
                }
            } else if l >= 192 {
                if len - cur < 2 || jumps == 0 {
                    return Err(DnsError::MalformedPacket);
                }
                let target: usize = (l - 192) as usize * 256 + self.buf[cur + 1] as usize;
                if end.is_none() {
                    end = Some(cur + 2);
                }
                cur = target;
                jumps = jumps - 1;
            } else if l as usize > MAX_LABEL || len - cur - 1 < l as usize {
                return Err(DnsError::MalformedPacket);
            } else {
                let n: usize = l as usize;
                let ghost label = self.buf@.subrange(cur + 1, cur + 1 + n);
                if text.len() > 0 {
                    text.push(DOT);
                }
                let ghost lead = text@;
                let mut i: usize = 0;
                while i < n
                    invariant
                        i <= n,
                        cur + 1 + n <= len,
                        len == self.buf@.len(),
                        label == self.buf@.subrange(cur + 1, cur + 1 + n),
                        is_ascii_bytes(lead),
                        text@ == lead + label.subrange(0, i as int),
                        is_ascii_bytes(label.subrange(0, i as int)),
                        self.buf@ == old(self).buf@,
                        self.ptr == old(self).ptr,
                        whole == parse_name(
                            old(self).buf@,
                            old(self).ptr as int,
                            MAX_JUMPS as nat,
                        ),
                        whole == resume_name(
                            labels,
                            end,
                            parse_name(self.buf@, cur as int, jumps as nat),
                        ),
                        self.buf@[cur as int] == n,
                        1 <= n <= MAX_LABEL,
                    decreases n - i,
                {
                    let b: u8 = self.buf[cur + 1 + i];
                    if b >= 128 {
                        proof {
                            assert(label[i as int] == b);
                        }
                        return Err(DnsError::MalformedPacket);
                    }
                    text.push(b);
                    proof {
                        assert(label.subrange(0, i + 1) =~= label.subrange(0, i as int).push(b));
                    }
                    i += 1;
                }
                proof {
                    assert(label.subrange(0, n as int) =~= label);
                    lemma_join_push(labels, label);
                    let tail = parse_name(self.buf@, cur + 1 + n, jumps as nat);
                    match tail {
                        Some((rest, next)) => {
                            assert(labels + (seq![label] + rest) =~= labels.push(label) + rest);
                        },
                        None => {},
                    }
                    labels = labels.push(label);
                }
                cur = cur + 1 + n;
            }
        }
    }
}

} // verus!
