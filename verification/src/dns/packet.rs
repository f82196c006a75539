//! Whole DNS messages: reading them from bytes and writing them back.

use crate::dns::buffer::DnsPacketBuffer;
use crate::dns::header::{header_bytes, parse_header, Header, HeaderFlags, HEADER_LEN};
use crate::dns::question::{
    parse_question, question_bytes, valid_question, Question, QuestionView,
};
use crate::dns::record::{parse_record, record_bytes, valid_record, Record, RecordView};
use crate::dns::wire::{be16, push_u16, u16_bytes};
use crate::error::DnsError;
use crate::text::push_all;
use vstd::prelude::*;
use vstd::slice::slice_subrange;

verus! {

/// The longest message that a two-byte length prefix can announce.
pub const MAX_STREAM_MESSAGE: usize = 65535;

/// One DNS message: the header and the entries of its four sections.
#[derive(Debug, Clone, PartialEq)]
pub struct DnsPacket {
    pub header: Header,
    pub questions: Vec<Question>,
    pub records: Vec<Record>,
    pub authorities: Vec<Record>,
    pub additionals: Vec<Record>,
}

/// A message as a mathematical value.
pub struct PacketView {
    pub header: Header,
    pub questions: Seq<QuestionView>,
    pub answers: Seq<RecordView>,
    pub authorities: Seq<RecordView>,
    pub additionals: Seq<RecordView>,
}

/// The questions as mathematical values, in the same order.
pub open spec fn question_views(qs: Seq<Question>) -> Seq<QuestionView> {
    Seq::new(qs.len(), |i: int| qs[i]@)
}

/// The records as mathematical values, in the same order.
pub open spec fn record_views(rs: Seq<Record>) -> Seq<RecordView> {
    Seq::new(rs.len(), |i: int| rs[i]@)
}

impl View for DnsPacket {
    type V = PacketView;

    open spec fn view(&self) -> PacketView {
        PacketView {
            header: self.header,
            questions: question_views(self.questions@),
            answers: record_views(self.records@),
            authorities: record_views(self.authorities@),
            additionals: record_views(self.additionals@),
        }
    }
}

/// The `count` questions that start at `pos`, and the offset behind them.
pub open spec fn parse_questions(buf: Seq<u8>, pos: int, count: nat) -> Option<
    (Seq<QuestionView>, int),
>
    decreases count,
{
    if count == 0 {
        Some((Seq::empty(), pos))
    } else {
        match parse_questions(buf, pos, (count - 1) as nat) {
            Some((qs, p)) => match parse_question(buf, p) {
                Some((q, next)) => Some((qs.push(q), next)),
                None => None,
            },
            None => None,
        }
    }
}

/// The `count` records that start at `pos`, and the offset behind them.
pub open spec fn parse_records(buf: Seq<u8>, pos: int, count: nat) -> Option<
    (Seq<RecordView>, int),
>
    decreases count,
{
    if count == 0 {
        Some((Seq::empty(), pos))
    } else {
        match parse_records(buf, pos, (count - 1) as nat) {
            Some((rs, p)) => match parse_record(buf, p) {
                Some((r, next)) => Some((rs.push(r), next)),
                None => None,
            },
            None => None,
        }
    }
}

/// The message that the bytes hold: the header, then as many questions,
/// answers, authority records and additional records as the header counts.
/// Bytes behind the last record are not looked at.
pub open spec fn parse_packet(buf: Seq<u8>) -> Option<PacketView> {
    match parse_header(buf) {
        Some(header) => match parse_questions(buf, HEADER_LEN as int, header.questions as nat) {
            Some((questions, q_end)) => match parse_records(buf, q_end, header.answer_rrs as nat) {
                Some((answers, an_end)) => match parse_records(
                    buf,
                    an_end,
                    header.authority_rrs as nat,
                ) {
                    Some((authorities, ns_end)) => match parse_records(
                        buf,
                        ns_end,
                        header.additional_rrs as nat,
                    ) {
                        Some((additionals, _)) => Some(
                            PacketView { header, questions, answers, authorities, additionals },
                        ),
                        None => None,
                    },
                    None => None,
                },
                None => None,
            },
            None => None,
        },
        None => None,
    }
}

/// The wire forms of the questions, one after the other.
pub open spec fn questions_bytes(qs: Seq<QuestionView>) -> Seq<u8>
    decreases qs.len(),
{
    if qs.len() == 0 {
        Seq::empty()
    } else {
        questions_bytes(qs.drop_last()) + question_bytes(qs.last())
    }
}

/// The wire forms of the records, one after the other.
pub open spec fn records_bytes(rs: Seq<RecordView>) -> Seq<u8>
    decreases rs.len(),
{
    if rs.len() == 0 {
        Seq::empty()
    } else {
        records_bytes(rs.drop_last()) + record_bytes(rs.last())
    }
}

/// Every question has a wire form.
pub open spec fn valid_questions(qs: Seq<QuestionView>) -> bool {
    forall|i: int| 0 <= i < qs.len() ==> valid_question(#[trigger] qs[i])
}

/// Every record has a wire form.
pub open spec fn valid_records(rs: Seq<RecordView>) -> bool {
    forall|i: int| 0 <= i < rs.len() ==> valid_record(#[trigger] rs[i])
}

/// A message that has a wire form: the header counts what the sections
/// hold, its flags are valid, and every question and record is valid.
pub open spec fn valid_packet(p: PacketView) -> bool {
    &&& p.header.flags.valid()
    &&& p.header.questions == p.questions.len()
    &&& p.header.answer_rrs == p.answers.len()
    &&& p.header.authority_rrs == p.authorities.len()
    &&& p.header.additional_rrs == p.additionals.len()
    &&& valid_questions(p.questions)
    &&& valid_records(p.answers)
    &&& valid_records(p.authorities)
    &&& valid_records(p.additionals)
}

impl PacketView {
    /// The message as it is read back once written: the reserved field of
    /// its flags zero, all else the same.
    pub open spec fn written(self) -> PacketView {
        PacketView { header: self.header.written(), ..self }
    }
}

/// The wire form of a message, with every name written in full.
pub open spec fn packet_bytes(p: PacketView) -> Seq<u8> {
    header_bytes(p.header) + questions_bytes(p.questions) + records_bytes(p.answers)
        + records_bytes(p.authorities) + records_bytes(p.additionals)
}

/// The message inside a stream frame: the bytes that the two-byte length at
/// the start announces, if they are all there.
pub open spec fn stream_payload(buf: Seq<u8>) -> Option<Seq<u8>> {
    if buf.len() < 2 {
        None
    } else {
        let n = be16(buf[0], buf[1]) as int;
        if buf.len() < 2 + n {
            None
        } else {
            Some(buf.subrange(2, 2 + n))
        }
    }
}

/// The message that a stream frame holds.
pub open spec fn parse_stream(buf: Seq<u8>) -> Option<PacketView> {
    match stream_payload(buf) {
        Some(message) => parse_packet(message),
        None => None,
    }
}

/// A message whose wire form fits a stream frame.
pub open spec fn valid_stream(p: PacketView) -> bool {
    valid_packet(p) && packet_bytes(p).len() <= MAX_STREAM_MESSAGE
}

/// The stream frame of a message: the length of its wire form in two bytes,
/// then the wire form.
pub open spec fn stream_bytes(p: PacketView) -> Seq<u8> {
    u16_bytes(packet_bytes(p).len() as u16) + packet_bytes(p)
}

/// Once a question cannot be read, no longer run of questions can.
pub proof fn lemma_parse_questions_fails(buf: Seq<u8>, pos: int, m: nat, n: nat)
    requires
        m <= n,
        parse_questions(buf, pos, m) is None,
    ensures
        parse_questions(buf, pos, n) is None,
    decreases n,
{
    if m < n {
        lemma_parse_questions_fails(buf, pos, m, (n - 1) as nat);
    }
}

/// Once a record cannot be read, no longer run of records can.
pub proof fn lemma_parse_records_fails(buf: Seq<u8>, pos: int, m: nat, n: nat)
    requires
        m <= n,
        parse_records(buf, pos, m) is None,
    ensures
        parse_records(buf, pos, n) is None,
    decreases n,
{
    if m < n {
        lemma_parse_records_fails(buf, pos, m, (n - 1) as nat);
    }
}

/// Reads `count` questions at the cursor. On failure the cursor stays.
pub fn read_questions(buffer: &mut DnsPacketBuffer, count: u16) -> (r: Result<
    Vec<Question>,
    DnsError,
>)
    ensures
        final(buffer).bytes() == old(buffer).bytes(),
        match parse_questions(old(buffer).bytes(), old(buffer).cursor() as int, count as nat) {
            Some((qs, next)) => {
                &&& r matches Ok(v)
                &&& question_views(v@) == qs
                &&& final(buffer).cursor() == next
            },
            None => {
                &&& r matches Err(e)
                &&& e == DnsError::MalformedPacket
                &&& final(buffer).cursor() == old(buffer).cursor()
            },
        },
{
    let mut probe = *buffer;
    let mut out: Vec<Question> = Vec::new();
    let mut i: u16 = 0;
    assert(question_views(out@) =~= Seq::<QuestionView>::empty());
    while i < count
        invariant
            i <= count,
            probe.bytes() == old(buffer).bytes(),
            *buffer == *old(buffer),
            parse_questions(old(buffer).bytes(), old(buffer).cursor() as int, i as nat) == Some(
                (question_views(out@), probe.cursor() as int),
            ),
        decreases count - i,
    {
        match Question::read(&mut probe) {
            Ok(q) => {
                proof {
                    assert(question_views(out@.push(q)) =~= question_views(out@).push(q@));
                }
                out.push(q);
            },
            Err(e) => {
                proof {
                    lemma_parse_questions_fails(
                        old(buffer).bytes(),
                        old(buffer).cursor() as int,
                        (i + 1) as nat,
                        count as nat,
                    );
                }
                return Err(e);
            },
        }
        i += 1;
    }
    *buffer = probe;
    Ok(out)
}

/// Reads `count` records at the cursor. On failure the cursor stays.
pub fn read_records(buffer: &mut DnsPacketBuffer, count: u16) -> (r: Result<
    Vec<Record>,
    DnsError,
>)
    ensures
        final(buffer).bytes() == old(buffer).bytes(),
        match parse_records(old(buffer).bytes(), old(buffer).cursor() as int, count as nat) {
            Some((rs, next)) => {
                &&& r matches Ok(v)
                &&& record_views(v@) == rs
                &&& final(buffer).cursor() == next
            },
            None => {
                &&& r matches Err(e)
                &&& e == DnsError::MalformedPacket
                &&& final(buffer).cursor() == old(buffer).cursor()
            },
        },
{
    let mut probe = *buffer;
    let mut out: Vec<Record> = Vec::new();
    let mut i: u16 = 0;
    assert(record_views(out@) =~= Seq::<RecordView>::empty());
    while i < count
        invariant
            i <= count,
            probe.bytes() == old(buffer).bytes(),
            *buffer == *old(buffer),
            parse_records(old(buffer).bytes(), old(buffer).cursor() as int, i as nat) == Some(
                (record_views(out@), probe.cursor() as int),
            ),
        decreases count - i,
    {
        match Record::new(&mut probe) {
            Ok(rec) => {
                proof {
                    assert(record_views(out@.push(rec)) =~= record_views(out@).push(rec@));
                }
                out.push(rec);
            },
            Err(e) => {
                proof {
                    lemma_parse_records_fails(
                        old(buffer).bytes(),
                        old(buffer).cursor() as int,
                        (i + 1) as nat,
                        count as nat,
                    );
                }
                return Err(e);
            },
        }
        i += 1;
    }
    *buffer = probe;
    Ok(out)
}

/// The wire forms of the questions, one after the other, or
/// `MalformedPacket` where one of them has none.
pub fn questions_wire(qs: &Vec<Question>) -> (r: Result<Vec<u8>, DnsError>)
    ensures
        match r {
            Ok(v) => valid_questions(question_views(qs@)) && v@ == questions_bytes(
                question_views(qs@),
            ),
            Err(e) => !valid_questions(question_views(qs@)) && e == DnsError::MalformedPacket,
        },
{
    let mut out: Vec<u8> = Vec::new();
    let mut i: usize = 0;
    let ghost views = question_views(qs@);
    assert(views.subrange(0, 0) =~= Seq::<QuestionView>::empty());
    while i < qs.len()
        invariant
            i <= qs.len(),
            views == question_views(qs@),
            valid_questions(views.subrange(0, i as int)),
            out@ == questions_bytes(views.subrange(0, i as int)),
        decreases qs.len() - i,
    {
        match qs[i].to_bytes() {
            Ok(bytes) => {
                push_all(&mut out, bytes.as_slice());
                proof {
                    let next = views.subrange(0, i + 1);
                    assert(next.drop_last() =~= views.subrange(0, i as int));
                    assert(next.last() == views[i as int]);
                    assert forall|j: int| 0 <= j < next.len() implies valid_question(
                        #[trigger] next[j],
                    ) by {
                        if j < i {
                            assert(views.subrange(0, i as int)[j] == next[j]);
                        }
                    }
                }
            },
            Err(e) => {
                assert(!valid_question(views[i as int]));
                return Err(e);
            },
        }
        i += 1;
    }
    assert(views.subrange(0, qs.len() as int) =~= views);
    Ok(out)
}

/// The wire forms of the records, one after the other, or `MalformedPacket`
/// where one of them has none.
pub fn records_wire(rs: &Vec<Record>) -> (r: Result<Vec<u8>, DnsError>)
    ensures
        match r {
            Ok(v) => valid_records(record_views(rs@)) && v@ == records_bytes(record_views(rs@)),
            Err(e) => !valid_records(record_views(rs@)) && e == DnsError::MalformedPacket,
        },
{
    let mut out: Vec<u8> = Vec::new();
    let mut i: usize = 0;
    let ghost views = record_views(rs@);
    assert(views.subrange(0, 0) =~= Seq::<RecordView>::empty());
    while i < rs.len()
        invariant
            i <= rs.len(),
            views == record_views(rs@),
            valid_records(views.subrange(0, i as int)),
            out@ == records_bytes(views.subrange(0, i as int)),
        decreases rs.len() - i,
    {
        match rs[i].to_bytes() {
            Ok(bytes) => {
                push_all(&mut out, bytes.as_slice());
                proof {
                    let next = views.subrange(0, i + 1);
                    assert(next.drop_last() =~= views.subrange(0, i as int));
                    assert(next.last() == views[i as int]);
                    assert forall|j: int| 0 <= j < next.len() implies valid_record(
                        #[trigger] next[j],
                    ) by {
                        if j < i {
                            assert(views.subrange(0, i as int)[j] == next[j]);
                        }
                    }
                }
            },
            Err(e) => {
                assert(!valid_record(views[i as int]));
                return Err(e);
            },
        }
        i += 1;
    }
    assert(views.subrange(0, rs.len() as int) =~= views);
    Ok(out)
}

impl DnsPacket {
    /// Reads a message from the bytes of a datagram.
    pub fn decode(bytes: &[u8]) -> (r: Result<DnsPacket, DnsError>)
        ensures
            match parse_packet(bytes@) {
                Some(p) => r matches Ok(v) && v@ == p,
                None => r matches Err(e) && e == DnsError::MalformedPacket,
            },
    {
        let mut buffer = DnsPacketBuffer::new(bytes);
        let transaction_id: u16 = match buffer.read_u16() {
            Ok(v) => v,
            Err(e) => {
                return Err(e);
            },
        };
        let word: u16 = match buffer.read_u16() {
            Ok(v) => v,
            Err(e) => {
                return Err(e);
            },
        };
        let questions: u16 = match buffer.read_u16() {
            Ok(v) => v,
            Err(e) => {
                return Err(e);
            },
        };
        let answer_rrs: u16 = match buffer.read_u16() {
            Ok(v) => v,
            Err(e) => {
                return Err(e);
            },
        };
        let authority_rrs: u16 = match buffer.read_u16() {
            Ok(v) => v,
            Err(e) => {
                return Err(e);
            },
        };
        let additional_rrs: u16 = match buffer.read_u16() {
            Ok(v) => v,
            Err(e) => {
                return Err(e);
            },
        };
        let header = Header {
            transaction_id,
            flags: HeaderFlags::from(word),
            questions,
            answer_rrs,
            authority_rrs,
            additional_rrs,
        };
        assert(parse_header(bytes@) == Some(header));
        let questions = match read_questions(&mut buffer, header.questions) {
            Ok(v) => v,
            Err(e) => {
                return Err(e);
            },
        };
        let records = match read_records(&mut buffer, header.answer_rrs) {
            Ok(v) => v,
            Err(e) => {
                return Err(e);
            },
        };
        let authorities = match read_records(&mut buffer, header.authority_rrs) {
            Ok(v) => v,
            Err(e) => {
                return Err(e);
            },
        };
        let additionals = match read_records(&mut buffer, header.additional_rrs) {
            Ok(v) => v,
            Err(e) => {
                return Err(e);
            },
        };
        Ok(DnsPacket { header, questions, records, authorities, additionals })
    }

    /// The wire form of the message with every name written in full, or
    /// `MalformedPacket` where the message is not valid.
    pub fn encode(&self) -> (r: Result<Vec<u8>, DnsError>)
        ensures
            match r {
                Ok(v) => valid_packet(self@) && v@ == packet_bytes(self@),
                Err(e) => !valid_packet(self@) && e == DnsError::MalformedPacket,
            },
    {
        if !self.header.flags.is_valid() || self.questions.len() != self.header.questions as usize
            || self.records.len() != self.header.answer_rrs as usize || self.authorities.len()
            != self.header.authority_rrs as usize || self.additionals.len()
            != self.header.additional_rrs as usize {
            return Err(DnsError::MalformedPacket);
        }
        let mut out: Vec<u8> = Vec::new();
        self.header.write(&mut out);
        let questions = match questions_wire(&self.questions) {
            Ok(v) => v,
            Err(e) => {
                return Err(e);
            },
        };
        let answers = match records_wire(&self.records) {
            Ok(v) => v,
            Err(e) => {
                return Err(e);
            },
        };
        let authorities = match records_wire(&self.authorities) {
            Ok(v) => v,
            Err(e) => {
                return Err(e);
            },
        };
        let additionals = match records_wire(&self.additionals) {
            Ok(v) => v,
            Err(e) => {
                return Err(e);
            },
        };
        push_all(&mut out, questions.as_slice());
        push_all(&mut out, answers.as_slice());
        push_all(&mut out, authorities.as_slice());
        push_all(&mut out, additionals.as_slice());
        assert(out@ =~= packet_bytes(self@));
        Ok(out)
    }

    /// Reads a message from a stream frame: the two-byte length, then the
    /// message. Bytes behind the announced length are not looked at.
    pub fn decode_stream(bytes: &[u8]) -> (r: Result<DnsPacket, DnsError>)
        ensures
            match parse_stream(bytes@) {
                Some(p) => r matches Ok(v) && v@ == p,
                None => r matches Err(e) && e == DnsError::MalformedPacket,
            },
    {
        if bytes.len() < 2 {
            return Err(DnsError::MalformedPacket);
        }
        let n: usize = bytes[0] as usize * 256 + bytes[1] as usize;
        if bytes.len() - 2 < n {
            return Err(DnsError::MalformedPacket);
        }
        DnsPacket::decode(slice_subrange(bytes, 2, 2 + n))
    }

    /// Reads a message from the first `len` bytes of `bytes`, which hold a
    /// stream frame. `MalformedPacket` also where `bytes` is shorter than
    /// `len`.
    pub fn from_tcp(bytes: &[u8], len: usize) -> (r: Result<DnsPacket, DnsError>)
        ensures
            match (if len <= bytes@.len() {
                parse_stream(bytes@.subrange(0, len as int))
            } else {
                None
            }) {
                Some(p) => r matches Ok(v) && v@ == p,
                None => r matches Err(e) && e == DnsError::MalformedPacket,
            },
    {
        if len > bytes.len() {
            return Err(DnsError::MalformedPacket);
        }
        DnsPacket::decode_stream(slice_subrange(bytes, 0, len))
    }

    /// The stream frame of the message, or `MalformedPacket` where the
    /// message is not valid or longer than a frame can announce.
    pub fn bytes(&self) -> (r: Result<Vec<u8>, DnsError>)
        ensures
            match r {
                Ok(v) => valid_stream(self@) && v@ == stream_bytes(self@),
                Err(e) => !valid_stream(self@) && e == DnsError::MalformedPacket,
            },
    {
        let packet = match self.encode() {
            Ok(v) => v,
            Err(e) => {
                return Err(e);
            },
        };
        if packet.len() > MAX_STREAM_MESSAGE {
            return Err(DnsError::MalformedPacket);
        }
        let mut out: Vec<u8> = Vec::new();
        push_u16(&mut out, packet.len() as u16);
        push_all(&mut out, packet.as_slice());
        Ok(out)
    }

    /// The two bytes that announce the message in a stream frame: the length
    /// of its wire form, big-endian.
    pub fn size(&self) -> (r: Result<Vec<u8>, DnsError>)
        ensures
            match r {
                Ok(v) => valid_stream(self@) && v@ == u16_bytes(packet_bytes(self@).len() as u16),
                Err(e) => !valid_stream(self@) && e == DnsError::MalformedPacket,
            },
    {
        let packet = match self.encode() {
            Ok(v) => v,
            Err(e) => {
                return Err(e);
            },
        };
        if packet.len() > MAX_STREAM_MESSAGE {
            return Err(DnsError::MalformedPacket);
        }
        let mut out: Vec<u8> = Vec::new();
        push_u16(&mut out, packet.len() as u16);
        Ok(out)
    }
}

} // verus!
