//! Writing a value in its wire form.

use crate::dns::header::{header_bytes, Header, HeaderFlags};
use crate::dns::packet::{packet_bytes, valid_packet, DnsPacket};
use crate::dns::question::{question_bytes, valid_question, Question};
use crate::dns::record::{record_bytes, valid_record, Record};
use crate::error::DnsError;
use vstd::prelude::*;

verus! {

/// A value that can be written as a `T`.
pub trait Serialize<T>: Sized {
    /// Whether `out` is what the value is written as.
    spec fn written_as(self, out: T) -> bool;

    /// Writes the value.
    fn serialize(self) -> (out: T)
        ensures
            self.written_as(out),
    ;
}

impl Serialize<u16> for HeaderFlags {
    open spec fn written_as(self, out: u16) -> bool {
        out == self.word()
    }

    fn serialize(self) -> (out: u16) {
        u16::from(self)
    }
}

impl Serialize<Vec<u8>> for Header {
    open spec fn written_as(self, out: Vec<u8>) -> bool {
        out@ == header_bytes(self)
    }

    fn serialize(self) -> (out: Vec<u8>) {
        let mut out: Vec<u8> = Vec::new();
        self.write(&mut out);
        out
    }
}

impl Serialize<Result<Vec<u8>, DnsError>> for Question {
    open spec fn written_as(self, out: Result<Vec<u8>, DnsError>) -> bool {
        match out {
            Ok(v) => valid_question(self@) && v@ == question_bytes(self@),
            Err(e) => !valid_question(self@) && e == DnsError::MalformedPacket,
        }
    }

    fn serialize(self) -> (out: Result<Vec<u8>, DnsError>) {
        self.to_bytes()
    }
}

impl Serialize<Result<Vec<u8>, DnsError>> for Record {
    open spec fn written_as(self, out: Result<Vec<u8>, DnsError>) -> bool {
        match out {
            Ok(v) => valid_record(self@) && v@ == record_bytes(self@),
            Err(e) => !valid_record(self@) && e == DnsError::MalformedPacket,
        }
    }

    fn serialize(self) -> (out: Result<Vec<u8>, DnsError>) {
        self.to_bytes()
    }
}

impl Serialize<Result<Vec<u8>, DnsError>> for DnsPacket {
    open spec fn written_as(self, out: Result<Vec<u8>, DnsError>) -> bool {
        match out {
            Ok(v) => valid_packet(self@) && v@ == packet_bytes(self@),
            Err(e) => !valid_packet(self@) && e == DnsError::MalformedPacket,
        }
    }

    fn serialize(self) -> (out: Result<Vec<u8>, DnsError>) {
        self.encode()
    }
}

} // verus!
