//! Resource records and the data they carry.

use crate::dns::buffer::DnsPacketBuffer;
use crate::dns::name::{
    ascii_chars, encode_name, join_dots, name_text, parse_name, string_to_bytes, valid_name,
    MAX_JUMPS,
};
use crate::dns::wire::{be16, be32, push_u16, push_u32, u16_bytes, u32_bytes};
use crate::error::DnsError;
use crate::text::{copy_bytes, push_all};
use vstd::prelude::*;

verus! {

/// The type code of an IPv4 address record.
pub const TYPE_A: u16 = 1;

/// The type code of a canonical-name record.
pub const TYPE_CNAME: u16 = 5;

/// The type code of an IPv6 address record.
pub const TYPE_AAAA: u16 = 28;

/// The longest record data that the 16-bit length field can announce.
pub const MAX_RDATA: usize = 65535;

/// What a record carries. Data of a type other than A, AAAA and CNAME is
/// kept as the bytes that came, beside its type code.
#[derive(Debug, Clone, PartialEq)]
pub enum RecordData {
    UNKNOWN(u16, Vec<u8>),
    A([u8; 4]),
    AAAA([u8; 16]),
    CNAME(String),
}

/// Record data as a mathematical value.
pub enum RecordDataView {
    Unknown(u16, Seq<u8>),
    A(Seq<u8>),
    Aaaa(Seq<u8>),
    Cname(Seq<char>),
}

impl View for RecordData {
    type V = RecordDataView;

    open spec fn view(&self) -> RecordDataView {
        match self {
            RecordData::UNKNOWN(code, raw) => RecordDataView::Unknown(*code, raw@),
            RecordData::A(ip) => RecordDataView::A(ip@),
            RecordData::AAAA(ip) => RecordDataView::Aaaa(ip@),
            RecordData::CNAME(name) => RecordDataView::Cname(name@),
        }
    }
}

/// The type code that the data is written under.
pub open spec fn rdata_type(d: RecordDataView) -> u16 {
    match d {
        RecordDataView::Unknown(code, _) => code,
        RecordDataView::A(_) => TYPE_A,
        RecordDataView::Aaaa(_) => TYPE_AAAA,
        RecordDataView::Cname(_) => TYPE_CNAME,
    }
}

/// The payload of the data on the wire, without its length field.
pub open spec fn rdata_bytes(d: RecordDataView) -> Seq<u8> {
    match d {
        RecordDataView::Unknown(_, raw) => raw,
        RecordDataView::A(ip) => ip,
        RecordDataView::Aaaa(ip) => ip,
        RecordDataView::Cname(name) => encode_name(name_text(name)),
    }
}

/// Data that has a wire form which is read back as the same data: addresses
/// of 4 and 16 bytes, a valid name, and for kept bytes a type code that
/// stands for none of the three known types. The payload fits the length
/// field.
pub open spec fn valid_rdata(d: RecordDataView) -> bool {
    match d {
        RecordDataView::Unknown(code, raw) => {
            &&& code != TYPE_A
            &&& code != TYPE_AAAA
            &&& code != TYPE_CNAME
            &&& raw.len() <= MAX_RDATA
        },
        RecordDataView::A(ip) => ip.len() == 4,
        RecordDataView::Aaaa(ip) => ip.len() == 16,
        RecordDataView::Cname(name) => {
            &&& valid_name(name_text(name))
            &&& encode_name(name_text(name)).len() <= MAX_RDATA
        },
    }
}

/// The data of type `rr_type` that fills exactly the `len` bytes at `pos` in
/// the packet `buf`. An address must have its fixed length; a name, which
/// may point back into the packet, must end where the data ends.
pub open spec fn parse_rdata(buf: Seq<u8>, pos: int, rr_type: u16, len: int) -> Option<
    RecordDataView,
> {
    if pos < 0 || len < 0 || pos + len > buf.len() {
        None
    } else if rr_type == TYPE_A {
        if len == 4 {
            Some(RecordDataView::A(buf.subrange(pos, pos + 4)))
        } else {
            None
        }
    } else if rr_type == TYPE_AAAA {
        if len == 16 {
            Some(RecordDataView::Aaaa(buf.subrange(pos, pos + 16)))
        } else {
            None
        }
    } else if rr_type == TYPE_CNAME {
        match parse_name(buf, pos, MAX_JUMPS as nat) {
            Some((labels, next)) => if next == pos + len {
                Some(RecordDataView::Cname(ascii_chars(join_dots(labels))))
            } else {
                None
            },
            None => None,
        }
    } else {
        Some(RecordDataView::Unknown(rr_type, buf.subrange(pos, pos + len)))
    }
}

impl RecordData {
    /// Reads the data of a record of type `rr_type` whose length field said
    /// `len`. On failure the cursor stays.
    pub fn new(rr_type: u16, len: usize, buffer: &mut DnsPacketBuffer) -> (r: Result<
        RecordData,
        DnsError,
    >)
        ensures
            final(buffer).bytes() == old(buffer).bytes(),
            match parse_rdata(
                old(buffer).bytes(),
                old(buffer).cursor() as int,
                rr_type,
                len as int,
            ) {
                Some(d) => {
                    &&& r matches Ok(v)
                    &&& v@ == d
                    &&& final(buffer).cursor() == old(buffer).cursor() + len
                },
                None => {
                    &&& r matches Err(e)
                    &&& e == DnsError::MalformedPacket
                    &&& final(buffer).cursor() == old(buffer).cursor()
                },
            },
    {
        let mut probe = *buffer;
        let start: usize = probe.position();
        let raw = match probe.read_n(len) {
            Ok(v) => v,
            Err(e) => {
                return Err(e);
            },
        };
        if rr_type == TYPE_A {
            if len != 4 {
                return Err(DnsError::MalformedPacket);
            }
            let ip: [u8; 4] = [raw[0], raw[1], raw[2], raw[3]];
            assert(ip@ =~= raw@);
            *buffer = probe;
            Ok(RecordData::A(ip))
        } else if rr_type == TYPE_AAAA {
            if len != 16 {
                return Err(DnsError::MalformedPacket);
            }
            let ip: [u8; 16] = [
                raw[0],
                raw[1],
                raw[2],
                raw[3],
                raw[4],
                raw[5],
                raw[6],
                raw[7],
                raw[8],
                raw[9],
                raw[10],
                raw[11],
                raw[12],
                raw[13],
                raw[14],
                raw[15],
            ];
            assert(ip@ =~= raw@);
            *buffer = probe;
            Ok(RecordData::AAAA(ip))
        } else if rr_type == TYPE_CNAME {
            let mut inner = *buffer;
            let name = match inner.read_name() {
                Ok(s) => s,
                Err(e) => {
                    return Err(e);
                },
            };
            if inner.position() != probe.position() {
                return Err(DnsError::MalformedPacket);
            }
            *buffer = probe;
            Ok(RecordData::CNAME(name))
        } else {
            *buffer = probe;
            Ok(RecordData::UNKNOWN(rr_type, raw))
        }
    }

    /// A copy of the data.
    pub fn copy(&self) -> (r: RecordData)
        ensures
            r@ == self@,
    {
        match self {
            RecordData::UNKNOWN(code, raw) => RecordData::UNKNOWN(*code, copy_bytes(raw.as_slice())),
            RecordData::A(ip) => RecordData::A(*ip),
            RecordData::AAAA(ip) => RecordData::AAAA(*ip),
            RecordData::CNAME(name) => RecordData::CNAME(name.clone()),
        }
    }

    /// The type code that the data is written under.
    pub fn to_num(&self) -> (code: u16)
        ensures
            code == rdata_type(self@),
    {
        match self {
            RecordData::A(_) => TYPE_A,
            RecordData::AAAA(_) => TYPE_AAAA,
            RecordData::CNAME(_) => TYPE_CNAME,
            RecordData::UNKNOWN(code, _) => *code,
        }
    }

    /// The length field and the payload of the data, or `MalformedPacket`
    /// where the data has no wire form that is read back as itself.
    pub fn serialize(&self) -> (r: Result<Vec<u8>, DnsError>)
        ensures
            match r {
                Ok(v) => {
                    &&& valid_rdata(self@)
                    &&& v@ == u16_bytes(rdata_bytes(self@).len() as u16) + rdata_bytes(self@)
                },
                Err(e) => !valid_rdata(self@) && e == DnsError::MalformedPacket,
            },
    {
        let mut out: Vec<u8> = Vec::new();
        match self {
            RecordData::UNKNOWN(code, raw) => {
                if *code == TYPE_A || *code == TYPE_AAAA || *code == TYPE_CNAME || raw.len()
                    > MAX_RDATA {
                    return Err(DnsError::MalformedPacket);
                }
                push_u16(&mut out, raw.len() as u16);
                push_all(&mut out, raw.as_slice());
            },
            RecordData::A(ip) => {
                push_u16(&mut out, 4);
                push_all(&mut out, ip.as_slice());
            },
            RecordData::AAAA(ip) => {
                push_u16(&mut out, 16);
                push_all(&mut out, ip.as_slice());
            },
            RecordData::CNAME(name) => {
                let bytes = match string_to_bytes(name) {
                    Ok(v) => v,
                    Err(e) => {
                        return Err(e);
                    },
                };
                if bytes.len() > MAX_RDATA {
                    return Err(DnsError::MalformedPacket);
                }
                push_u16(&mut out, bytes.len() as u16);
                push_all(&mut out, bytes.as_slice());
            },
        }
        Ok(out)
    }
}

/// One resource record: the name it is about, its class, how many seconds
/// it may be kept, and its data.
#[derive(Debug, Clone, PartialEq)]
pub struct Record {
    pub cname: String,
    pub class: u16,
    pub ttl: u32,
    pub data: RecordData,
}

/// A record as a mathematical value.
pub struct RecordView {
    pub name: Seq<char>,
    pub class: u16,
    pub ttl: u32,
    pub data: RecordDataView,
}

impl View for Record {
    type V = RecordView;

    open spec fn view(&self) -> RecordView {
        RecordView { name: self.cname@, class: self.class, ttl: self.ttl, data: self.data@ }
    }
}

/// A record that has a wire form which is read back as the same record.
pub open spec fn valid_record(r: RecordView) -> bool {
    valid_name(name_text(r.name)) && valid_rdata(r.data)
}

/// The wire form of a record: name, type, class, time to live, the length of
/// the data and the data.
pub open spec fn record_bytes(r: RecordView) -> Seq<u8> {
    encode_name(name_text(r.name)) + u16_bytes(rdata_type(r.data)) + u16_bytes(r.class)
        + u32_bytes(r.ttl) + u16_bytes(rdata_bytes(r.data).len() as u16) + rdata_bytes(r.data)
}

/// The record that starts at `pos` in the packet `buf`, and the offset
/// behind it.
pub open spec fn parse_record(buf: Seq<u8>, pos: int) -> Option<(RecordView, int)> {
    match parse_name(buf, pos, MAX_JUMPS as nat) {
        Some((labels, p)) => if p + 10 <= buf.len() {
            let rr_type = be16(buf[p], buf[p + 1]);
            let len = be16(buf[p + 8], buf[p + 9]);
            match parse_rdata(buf, p + 10, rr_type, len as int) {
                Some(data) => Some(
                    (
                        RecordView {
                            name: ascii_chars(join_dots(labels)),
                            class: be16(buf[p + 2], buf[p + 3]),
                            ttl: be32(buf[p + 4], buf[p + 5], buf[p + 6], buf[p + 7]),
                            data,
                        },
                        p + 10 + len,
                    ),
                ),
                None => None,
            }
        } else {
            None
        },
        None => None,
    }
}

impl Record {
    /// A copy of the record.
    pub fn copy(&self) -> (r: Record)
        ensures
            r@ == self@,
    {
        Record {
            cname: self.cname.clone(),
            class: self.class,
            ttl: self.ttl,
            data: self.data.copy(),
        }
    }

    /// Reads one record at the cursor. On failure the cursor stays.
    pub fn new(buffer: &mut DnsPacketBuffer) -> (r: Result<Record, DnsError>)
        ensures
            final(buffer).bytes() == old(buffer).bytes(),
            match parse_record(old(buffer).bytes(), old(buffer).cursor() as int) {
                Some((rec, next)) => {
                    &&& r matches Ok(v)
                    &&& v@ == rec
                    &&& final(buffer).cursor() == next
                },
                None => {
                    &&& r matches Err(e)
                    &&& e == DnsError::MalformedPacket
                    &&& final(buffer).cursor() == old(buffer).cursor()
                },
            },
    {
        let mut probe = *buffer;
        let cname = match probe.read_name() {
            Ok(s) => s,
            Err(e) => {
                return Err(e);
            },
        };
        let rr_type: u16 = match probe.read_u16() {
            Ok(v) => v,
            Err(e) => {
                return Err(e);
            },
        };
        let class: u16 = match probe.read_u16() {
            Ok(v) => v,
            Err(e) => {
                return Err(e);
            },
        };
        let ttl: u32 = match probe.read_u32() {
            Ok(v) => v,
            Err(e) => {
                return Err(e);
            },
        };
        let data_len: u16 = match probe.read_u16() {
            Ok(v) => v,
            Err(e) => {
                return Err(e);
            },
        };
        let data = match RecordData::new(rr_type, data_len as usize, &mut probe) {
            Ok(d) => d,
            Err(e) => {
                return Err(e);
            },
        };
        *buffer = probe;
        Ok(Record { cname, class, ttl, data })
    }

    /// The wire form of the record, or `MalformedPacket` where it has none
    /// that is read back as the same record.
    pub fn to_bytes(&self) -> (r: Result<Vec<u8>, DnsError>)
        ensures
            match r {
                Ok(v) => valid_record(self@) && v@ == record_bytes(self@),
                Err(e) => !valid_record(self@) && e == DnsError::MalformedPacket,
            },
    {
        let mut out = match string_to_bytes(&self.cname) {
            Ok(v) => v,
            Err(e) => {
                return Err(e);
            },
        };
        let data = match self.data.serialize() {
            Ok(v) => v,
            Err(e) => {
                return Err(e);
            },
        };
        push_u16(&mut out, self.data.to_num());
        push_u16(&mut out, self.class);
        push_u32(&mut out, self.ttl);
        push_all(&mut out, data.as_slice());
        assert(out@ =~= record_bytes(self@));
        Ok(out)
    }
}

} // verus!
