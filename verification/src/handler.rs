//! What the request handler decides: whether a question is answered from
//! the blocklist, from the cache or by the upstream resolver, what is asked
//! upstream, what is kept of the answer, and what the reply looks like.

use crate::cache::flight::{begin_token, begun, SingleFlight, Token};
use crate::cache::{live, served, stored, Cache, EntryView, QuestionKey};
use crate::dns::header::{Header, HeaderFlags};
use crate::dns::name::name_text;
use crate::dns::packet::{
    packet_bytes, parse_packet, parse_stream, question_views, record_views, stream_bytes,
    valid_packet, valid_stream, DnsPacket, PacketView,
};
use crate::dns::question::{question_key, Question, QuestionView};
use crate::dns::record::{
    Record, RecordData, RecordDataView, RecordView, TYPE_A, TYPE_AAAA,
};
use crate::error::DnsError;
use crate::filter::Blacklist;
use vstd::prelude::*;

verus! {

/// The time to live of the answer to a blocked question, in seconds, where
/// nothing else is configured.
pub const SINK_TTL: u32 = 60;

/// The response code of a reply without error.
pub const RCODE_OK: u8 = 0;

/// The response code of a reply to a request that could not be served.
pub const RCODE_SERVFAIL: u8 = 2;

/// How long a request may take from its arrival to its reply, in
/// milliseconds, where nothing else is configured.
pub const REQUEST_DEADLINE_MS: u64 = 5000;

/// The most entries that a section of a message can hold.
pub const MAX_SECTION: usize = 65535;

/// How a request came in, which decides how its bytes are framed.
#[derive(Debug, Clone, Copy, PartialEq, Eq, Structural)]
pub enum Transport {
    /// A datagram: the message as it is.
    Udp,
    /// A stream: the message behind its length in two bytes.
    Tcp,
    /// A stream inside TLS, framed as on TCP.
    Tls,
}

/// The message that the bytes of a request hold on this transport.
pub open spec fn request_view(bytes: Seq<u8>, transport: Transport) -> Option<PacketView> {
    match transport {
        Transport::Udp => parse_packet(bytes),
        _ => parse_stream(bytes),
    }
}

/// Reads a request as it came in on this transport.
pub fn decode_request(bytes: &[u8], transport: Transport) -> (r: Result<DnsPacket, DnsError>)
    ensures
        match request_view(bytes@, transport) {
            Some(p) => r matches Ok(v) && v@ == p,
            None => r matches Err(e) && e == DnsError::MalformedPacket,
        },
{
    match transport {
        Transport::Udp => DnsPacket::decode(bytes),
        _ => DnsPacket::decode_stream(bytes),
    }
}

/// The bytes of a reply as it goes out on this transport, or
/// `MalformedPacket` where the reply has no wire form or does not fit a
/// stream frame.
pub fn encode_reply(reply: &DnsPacket, transport: Transport) -> (r: Result<Vec<u8>, DnsError>)
    ensures
        match transport {
            Transport::Udp => match r {
                Ok(v) => valid_packet(reply@) && v@ == packet_bytes(reply@),
                Err(e) => !valid_packet(reply@) && e == DnsError::MalformedPacket,
            },
            _ => match r {
                Ok(v) => valid_stream(reply@) && v@ == stream_bytes(reply@),
                Err(e) => !valid_stream(reply@) && e == DnsError::MalformedPacket,
            },
        },
{
    match transport {
        Transport::Udp => reply.encode(),
        _ => reply.bytes(),
    }
}

/// A question whose blocked answer is a sink address: one for an IPv4 or an
/// IPv6 address.
pub open spec fn sinkable(rr_type: u16) -> bool {
    rr_type == TYPE_A || rr_type == TYPE_AAAA
}

/// The sink address for the type: `0.0.0.0` or `::`.
pub open spec fn sink_data(rr_type: u16) -> RecordDataView {
    if rr_type == TYPE_A {
        RecordDataView::A(Seq::new(4, |i: int| 0u8))
    } else {
        RecordDataView::Aaaa(Seq::new(16, |i: int| 0u8))
    }
}

/// The answer to a blocked question: the sink address under the question's
/// name and class.
pub open spec fn sink_record(q: QuestionView, ttl: u32) -> RecordView {
    RecordView { name: q.name, class: q.class, ttl, data: sink_data(q.rr_type) }
}

/// The answer to the question if it is blocked: a sink address for an
/// address question, nothing for any other.
pub fn blocked_record(question: &Question, ttl: u32) -> (r: Option<Record>)
    ensures
        match r {
            Some(rec) => sinkable(question@.rr_type) && rec@ == sink_record(question@, ttl),
            None => !sinkable(question@.rr_type),
        },
{
    if question.rr_type == TYPE_A {
        let ip: [u8; 4] = [0, 0, 0, 0];
        assert(ip@ =~= Seq::new(4, |i: int| 0u8));
        Some(
            Record {
                cname: question.cname.clone(),
                class: question.class,
                ttl,
                data: RecordData::A(ip),
            },
        )
    } else if question.rr_type == TYPE_AAAA {
        let ip: [u8; 16] = [0, 0, 0, 0, 0, 0, 0, 0, 0, 0, 0, 0, 0, 0, 0, 0];
        assert(ip@ =~= Seq::new(16, |i: int| 0u8));
        Some(
            Record {
                cname: question.cname.clone(),
                class: question.class,
                ttl,
                data: RecordData::AAAA(ip),
            },
        )
    } else {
        None
    }
}

/// Whether the question is answered with a sink address: its name is
/// blocked and it asks for an address.
pub open spec fn is_sunk(list: Blacklist, q: QuestionView) -> bool {
    list.blocks(name_text(q.name)) && sinkable(q.rr_type)
}

/// The records that the cache serves for the question at `now`, if it holds
/// any that have not expired.
pub open spec fn cache_hit(cache: Cache, q: QuestionView, now: u64) -> Option<Seq<RecordView>> {
    match cache.entries(question_key(q)) {
        Some(es) => if live(es, now).len() == 0 {
            None
        } else {
            Some(served(live(es, now), q.name, now))
        },
        None => None,
    }
}

/// What is kept for the question once the cache was asked at `now`.
pub open spec fn cache_after_get(cache: Cache, q: QuestionView, now: u64) -> Option<
    Seq<EntryView>,
> {
    match cache.entries(question_key(q)) {
        Some(es) => if live(es, now).len() == 0 {
            None
        } else {
            Some(live(es, now))
        },
        None => None,
    }
}

/// How a question is answered.
#[derive(Debug)]
pub enum Classified {
    /// From the blocklist, with this record.
    Blocked(Record),
    /// From the cache, with these records.
    CacheHit(Vec<Record>),
    /// By the upstream resolver: the caller leads the resolution or follows
    /// the one that is under way.
    AwaitingUpstream(Token),
}

/// Decides how the question is answered. The blocklist comes first and
/// leaves cache and flights alone. Else the cache is asked, which drops
/// what has expired. Only after a miss a resolution begins.
pub fn classify(
    blocklist: &Blacklist,
    cache: &mut Cache,
    flights: &mut SingleFlight,
    question: &Question,
    now: u64,
    sink_ttl: u32,
) -> (r: Classified)
    ensures
        is_sunk(*blocklist, question@) ==> {
            &&& r matches Classified::Blocked(rec)
            &&& rec@ == sink_record(question@, sink_ttl)
            &&& forall|key: QuestionKey| final(cache).entries(key) == old(cache).entries(key)
        },
        !is_sunk(*blocklist, question@) ==> {
            &&& final(cache).entries(question_key(question@)) == cache_after_get(
                *old(cache),
                question@,
                now,
            )
            &&& forall|key: QuestionKey|
                key != question_key(question@) ==> final(cache).entries(key) == old(
                    cache,
                ).entries(key)
        },
        !is_sunk(*blocklist, question@) ==> match cache_hit(*old(cache), question@, now) {
            Some(records) => r matches Classified::CacheHit(v) && record_views(v@) == records,
            None => r matches Classified::AwaitingUpstream(token) && token == begin_token(
                old(flights).waiting(question_key(question@)),
            ),
        },
        final(flights).waiting(question_key(question@)) == if !is_sunk(*blocklist, question@)
            && cache_hit(*old(cache), question@, now) is None {
            begun(old(flights).waiting(question_key(question@)))
        } else {
            old(flights).waiting(question_key(question@))
        },
        forall|key: QuestionKey|
            key != question_key(question@) ==> final(flights).waiting(key) == old(
                flights,
            ).waiting(key),
{
    if blocklist.is_blocked(&question.cname) {
        match blocked_record(question, sink_ttl) {
            Some(rec) => {
                return Classified::Blocked(rec);
            },
            None => {},
        }
    }
    match cache.get(question, now) {
        Some(records) => Classified::CacheHit(records),
        None => Classified::AwaitingUpstream(flights.begin_resolve(question)),
    }
}

/// The flags of the query that goes upstream for a request with the flags
/// `flags`: the request's own, as a query and with the reserved field zero.
pub open spec fn query_flags(flags: HeaderFlags) -> HeaderFlags {
    HeaderFlags {
        response: false,
        opcode: flags.opcode,
        auth_answer: false,
        truncated: false,
        recursion_desired: flags.recursion_desired,
        recursion_available: false,
        z: 0,
        r_code: 0,
    }
}

/// The query that goes upstream for one question of a request: that
/// question alone, under the number `id`.
pub open spec fn query_view(request: PacketView, q: QuestionView, id: u16) -> PacketView {
    PacketView {
        header: Header {
            transaction_id: id,
            flags: query_flags(request.header.flags),
            questions: 1,
            answer_rrs: 0,
            authority_rrs: 0,
            additional_rrs: 0,
        },
        questions: seq![q],
        answers: Seq::empty(),
        authorities: Seq::empty(),
        additionals: Seq::empty(),
    }
}

/// The query that goes upstream for one question of a request.
pub fn upstream_query(request: &DnsPacket, question: &Question, id: u16) -> (r: DnsPacket)
    ensures
        r@ == query_view(request@, question@, id),
{
    let flags = HeaderFlags {
        response: false,
        opcode: request.header.flags.opcode,
        auth_answer: false,
        truncated: false,
        recursion_desired: request.header.flags.recursion_desired,
        recursion_available: false,
        z: 0,
        r_code: 0,
    };
    let header = Header {
        transaction_id: id,
        flags,
        questions: 1,
        answer_rrs: 0,
        authority_rrs: 0,
        additional_rrs: 0,
    };
    let mut questions: Vec<Question> = Vec::new();
    questions.push(question.copy());
    let r = DnsPacket {
        header,
        questions,
        records: Vec::new(),
        authorities: Vec::new(),
        additionals: Vec::new(),
    };
    proof {
        assert(r@.questions =~= seq![question@]);
        assert(r@.answers =~= Seq::<RecordView>::empty());
        assert(r@.authorities =~= Seq::<RecordView>::empty());
        assert(r@.additionals =~= Seq::<RecordView>::empty());
    }
    r
}

/// What the upstream resolver's answer to a question amounts to: its
/// answer records, or the error that its response code stands for.
pub open spec fn upstream_result(response: PacketView) -> Result<Seq<RecordView>, DnsError> {
    if response.header.flags.r_code == RCODE_OK {
        Ok(response.answers)
    } else {
        Err(DnsError::UpstreamRcode(response.header.flags.r_code))
    }
}

/// What the leader brings back: the records or the error, and how many
/// followers wait for them.
#[derive(Debug)]
pub struct Absorbed {
    pub result: Result<Vec<Record>, DnsError>,
    pub followers: usize,
}

/// Takes in the upstream resolver's response to a question at `now`. A
/// response without error has its answer records kept in the cache; one
/// with an error code is not kept. Either way the resolution is over.
pub fn absorb(
    cache: &mut Cache,
    flights: &mut SingleFlight,
    question: &Question,
    response: &DnsPacket,
    now: u64,
) -> (r: Absorbed)
    ensures
        match upstream_result(response@) {
            Ok(records) => {
                &&& r.result matches Ok(v)
                &&& record_views(v@) == records
                &&& final(cache).entries(question_key(question@)) == if records.len() == 0 {
                    None
                } else {
                    Some(stored(records, now))
                }
            },
            Err(e) => {
                &&& r.result matches Err(got)
                &&& got == e
                &&& final(cache).entries(question_key(question@)) == old(cache).entries(
                    question_key(question@),
                )
            },
        },
        forall|key: QuestionKey|
            key != question_key(question@) ==> final(cache).entries(key) == old(cache).entries(
                key,
            ),
        r.followers == match old(flights).waiting(question_key(question@)) {
            Some(n) => n,
            None => 0,
        },
        final(flights).waiting(question_key(question@)) is None,
        forall|key: QuestionKey|
            key != question_key(question@) ==> final(flights).waiting(key) == old(
                flights,
            ).waiting(key),
{
    let followers = flights.complete(question);
    if response.header.flags.r_code != RCODE_OK {
        return Absorbed {
            result: Err(DnsError::UpstreamRcode(response.header.flags.r_code)),
            followers,
        };
    }
    cache.put(question, &response.records, now);
    let records = copy_records(&response.records);
    Absorbed { result: Ok(records), followers }
}

/// The resolution of a question failed before the upstream resolver
/// answered. Nothing is kept; the resolution is over. Returns how many
/// followers wait for the error.
pub fn abandon(flights: &mut SingleFlight, question: &Question) -> (followers: usize)
    ensures
        followers == match old(flights).waiting(question_key(question@)) {
            Some(n) => n,
            None => 0,
        },
        final(flights).waiting(question_key(question@)) is None,
        forall|key: QuestionKey|
            key != question_key(question@) ==> final(flights).waiting(key) == old(
                flights,
            ).waiting(key),
{
    flights.complete(question)
}

/// A copy of the records.
pub fn copy_records(records: &Vec<Record>) -> (r: Vec<Record>)
    ensures
        record_views(r@) == record_views(records@),
{
    let mut out: Vec<Record> = Vec::new();
    let mut i: usize = 0;
    while i < records.len()
        invariant
            i <= records@.len(),
            out@.len() == i,
            forall|j: int| 0 <= j < i ==> (#[trigger] out@[j])@ == records@[j]@,
        decreases records@.len() - i,
    {
        out.push(records[i].copy());
        i += 1;
    }
    assert(record_views(out@) =~= record_views(records@));
    out
}

/// A copy of the questions.
pub fn copy_questions(questions: &Vec<Question>) -> (r: Vec<Question>)
    ensures
        question_views(r@) == question_views(questions@),
{
    let mut out: Vec<Question> = Vec::new();
    let mut i: usize = 0;
    while i < questions.len()
        invariant
            i <= questions@.len(),
            out@.len() == i,
            forall|j: int| 0 <= j < i ==> (#[trigger] out@[j])@ == questions@[j]@,
        decreases questions@.len() - i,
    {
        out.push(questions[i].copy());
        i += 1;
    }
    assert(question_views(out@) =~= question_views(questions@));
    out
}

/// The response code that a failed request is answered with; `None` where
/// it gets no reply at all, which is so for bytes that are no message.
pub open spec fn error_rcode(e: DnsError) -> Option<u8> {
    match e {
        DnsError::MalformedPacket => None,
        DnsError::UpstreamUnavailable => Some(RCODE_SERVFAIL),
        DnsError::UpstreamRcode(n) => Some(n),
        DnsError::DeadlineExceeded => Some(RCODE_SERVFAIL),
    }
}

/// The response code that a failed request is answered with.
pub fn reply_code(e: DnsError) -> (r: Option<u8>)
    ensures
        r == error_rcode(e),
{
    match e {
        DnsError::MalformedPacket => None,
        DnsError::UpstreamUnavailable => Some(RCODE_SERVFAIL),
        DnsError::UpstreamRcode(n) => Some(n),
        DnsError::DeadlineExceeded => Some(RCODE_SERVFAIL),
    }
}

/// Whether a request that came at `started` has used up its time at `now`.
pub fn deadline_passed(started: u64, now: u64, deadline_ms: u64) -> (r: bool)
    ensures
        r == (now - started >= deadline_ms),
{
    now >= started && now - started >= deadline_ms
}

/// The flags of the reply to a request with the flags `flags`.
pub open spec fn reply_flags(flags: HeaderFlags, rcode: u8, truncated: bool) -> HeaderFlags {
    HeaderFlags {
        response: true,
        opcode: flags.opcode,
        auth_answer: false,
        truncated,
        recursion_desired: flags.recursion_desired,
        recursion_available: true,
        z: 0,
        r_code: rcode,
    }
}

/// The reply to a request: its number and questions, the answers, and no
/// authority or additional records.
pub open spec fn reply_view(
    request: PacketView,
    answers: Seq<RecordView>,
    rcode: u8,
    truncated: bool,
) -> PacketView {
    PacketView {
        header: Header {
            transaction_id: request.header.transaction_id,
            flags: reply_flags(request.header.flags, rcode, truncated),
            questions: request.questions.len() as u16,
            answer_rrs: answers.len() as u16,
            authority_rrs: 0,
            additional_rrs: 0,
        },
        questions: request.questions,
        answers,
        authorities: Seq::empty(),
        additionals: Seq::empty(),
    }
}

/// The reply to a request with these answers and this response code.
/// `truncated` says that an upstream response was cut short.
/// `MalformedPacket` where a section would hold more than 65535 entries.
pub fn respond(request: &DnsPacket, answers: Vec<Record>, rcode: u8, truncated: bool) -> (r:
    Result<DnsPacket, DnsError>)
    ensures
        match r {
            Ok(p) => {
                &&& request@.questions.len() <= MAX_SECTION
                &&& answers@.len() <= MAX_SECTION
                &&& p@ == reply_view(request@, record_views(answers@), rcode, truncated)
            },
            Err(e) => {
                &&& request@.questions.len() > MAX_SECTION || answers@.len() > MAX_SECTION
                &&& e == DnsError::MalformedPacket
            },
        },
{
    if request.questions.len() > MAX_SECTION || answers.len() > MAX_SECTION {
        return Err(DnsError::MalformedPacket);
    }
    let flags = HeaderFlags {
        response: true,
        opcode: request.header.flags.opcode,
        auth_answer: false,
        truncated,
        recursion_desired: request.header.flags.recursion_desired,
        recursion_available: true,
        z: 0,
        r_code: rcode,
    };
    let header = Header {
        transaction_id: request.header.transaction_id,
        flags,
        questions: request.questions.len() as u16,
        answer_rrs: answers.len() as u16,
        authority_rrs: 0,
        additional_rrs: 0,
    };
    let p = DnsPacket {
        header,
        questions: copy_questions(&request.questions),
        records: answers,
        authorities: Vec::new(),
        additionals: Vec::new(),
    };
    proof {
        assert(p@.authorities =~= Seq::<RecordView>::empty());
        assert(p@.additionals =~= Seq::<RecordView>::empty());
    }
    Ok(p)
}

/// The reply to a request that could not be served: no answers, and the
/// response code for a server failure. `MalformedPacket` where the request
/// holds more than 65535 questions.
pub fn servfail(request: &DnsPacket) -> (r: Result<DnsPacket, DnsError>)
    ensures
        match r {
            Ok(p) => {
                &&& request@.questions.len() <= MAX_SECTION
                &&& p@ == reply_view(request@, Seq::empty(), RCODE_SERVFAIL, false)
            },
            Err(e) => request@.questions.len() > MAX_SECTION && e == DnsError::MalformedPacket,
        },
{
    let none: Vec<Record> = Vec::new();
    assert(record_views(none@) =~= Seq::<RecordView>::empty());
    respond(request, none, RCODE_SERVFAIL, false)
}

/// The reply to a request with one blocked address question: one answer,
/// the sink address with the configured time to live, and no error.
pub proof fn lemma_blocked_reply_shape(request: PacketView, ttl: u32)
    requires
        request.questions.len() == 1,
        sinkable(request.questions[0].rr_type),
    ensures
        ({
            let reply = reply_view(
                request,
                seq![sink_record(request.questions[0], ttl)],
                RCODE_OK,
                false,
            );
            &&& reply.header.transaction_id == request.header.transaction_id
            &&& reply.header.flags.response
            &&& reply.header.flags.r_code == 0
            &&& reply.header.questions == 1
            &&& reply.header.answer_rrs == 1
            &&& reply.header.authority_rrs == 0
            &&& reply.header.additional_rrs == 0
            &&& reply.answers.len() == 1
            &&& reply.answers[0].ttl == ttl
            &&& reply.answers[0].name == request.questions[0].name
            &&& reply.answers[0].data == sink_data(request.questions[0].rr_type)
            &&& request.questions[0].rr_type == TYPE_A ==> reply.answers[0].data
                == RecordDataView::A(seq![0u8, 0u8, 0u8, 0u8])
        }),
{
    assert(Seq::new(4, |i: int| 0u8) =~= seq![0u8, 0u8, 0u8, 0u8]);
}

/// The most bytes of a datagram where the client has not asked for more.
pub const UDP_LIMIT: usize = 512;

/// The most bytes of a datagram in any case.
pub const UDP_LIMIT_EXTENDED: usize = 4096;

/// A reply cut down to its questions, marked as truncated.
pub open spec fn truncated_view(reply: PacketView) -> PacketView {
    PacketView {
        header: Header {
            flags: HeaderFlags { truncated: true, ..reply.header.flags },
            answer_rrs: 0,
            authority_rrs: 0,
            additional_rrs: 0,
            ..reply.header
        },
        questions: reply.questions,
        answers: Seq::empty(),
        authorities: Seq::empty(),
        additionals: Seq::empty(),
    }
}

/// The bytes of a reply that goes out as one datagram of at most `limit`
/// bytes: the reply as it is where it fits, else its questions alone with
/// the truncation flag set. `MalformedPacket` where the reply has no wire
/// form.
pub fn datagram(reply: &DnsPacket, limit: usize) -> (r: Result<Vec<u8>, DnsError>)
    ensures
        match r {
            Ok(v) => {
                &&& valid_packet(reply@)
                &&& v@ == if packet_bytes(reply@).len() <= limit {
                    packet_bytes(reply@)
                } else {
                    packet_bytes(truncated_view(reply@))
                }
            },
            Err(e) => !valid_packet(reply@) && e == DnsError::MalformedPacket,
        },
{
    let whole = match reply.encode() {
        Ok(v) => v,
        Err(e) => {
            return Err(e);
        },
    };
    if whole.len() <= limit {
        return Ok(whole);
    }
    let cut = DnsPacket {
        header: Header {
            transaction_id: reply.header.transaction_id,
            flags: HeaderFlags {
                response: reply.header.flags.response,
                opcode: reply.header.flags.opcode,
                auth_answer: reply.header.flags.auth_answer,
                truncated: true,
                recursion_desired: reply.header.flags.recursion_desired,
                recursion_available: reply.header.flags.recursion_available,
                z: reply.header.flags.z,
                r_code: reply.header.flags.r_code,
            },
            questions: reply.header.questions,
            answer_rrs: 0,
            authority_rrs: 0,
            additional_rrs: 0,
        },
        questions: copy_questions(&reply.questions),
        records: Vec::new(),
        authorities: Vec::new(),
        additionals: Vec::new(),
    };
    proof {
        assert(cut@.answers =~= Seq::<RecordView>::empty());
        assert(cut@.authorities =~= Seq::<RecordView>::empty());
        assert(cut@.additionals =~= Seq::<RecordView>::empty());
        assert(cut@ == truncated_view(reply@));
        assert(valid_packet(cut@));
    }
    cut.encode()
}

/// Where a request stands.
#[derive(Debug, Clone, Copy, PartialEq, Eq, Structural)]
pub enum RequestState {
    /// Its bytes have come in.
    Received,
    /// It is a message; the next of its questions is to be decided.
    Classified,
    /// The question at hand is answered from the blocklist.
    Blocked,
    /// The question at hand is answered from the cache.
    CacheHit,
    /// The question at hand waits for the upstream resolver.
    AwaitingUpstream,
    /// The reply has gone out.
    Responded,
    /// The request could not be served.
    Failed,
}

/// What happens to a request.
#[derive(Debug, Clone, Copy, PartialEq, Eq, Structural)]
pub enum RequestEvent {
    /// The bytes were a message.
    Decoded,
    /// The bytes were no message.
    Undecodable,
    /// The question at hand is blocked.
    FoundBlocked,
    /// The cache holds an answer to the question at hand.
    FoundCached,
    /// Neither blocklist nor cache answers the question at hand.
    Missed,
    /// The answer to the question at hand has come from upstream.
    Answered,
    /// The upstream resolver could not be reached, or answered with an
    /// error.
    UpstreamFailed,
    /// The request has used up its time.
    DeadlinePassed,
    /// Another question is to be decided.
    NextQuestion,
    /// The reply was sent.
    Replied,
}

/// The state that follows `state` on `event`; `None` where that event
/// cannot happen in that state.
pub open spec fn next_state(state: RequestState, event: RequestEvent) -> Option<RequestState> {
    match (state, event) {
        (RequestState::Received, RequestEvent::Decoded) => Some(RequestState::Classified),
        (RequestState::Received, RequestEvent::Undecodable) => Some(RequestState::Failed),
        (RequestState::Classified, RequestEvent::FoundBlocked) => Some(RequestState::Blocked),
        (RequestState::Classified, RequestEvent::FoundCached) => Some(RequestState::CacheHit),
        (RequestState::Classified, RequestEvent::Missed) => Some(RequestState::AwaitingUpstream),
        (RequestState::Classified, RequestEvent::Replied) => Some(RequestState::Responded),
        (RequestState::Blocked, RequestEvent::NextQuestion) => Some(RequestState::Classified),
        (RequestState::Blocked, RequestEvent::Replied) => Some(RequestState::Responded),
        (RequestState::CacheHit, RequestEvent::NextQuestion) => Some(RequestState::Classified),
        (RequestState::CacheHit, RequestEvent::Replied) => Some(RequestState::Responded),
        (RequestState::AwaitingUpstream, RequestEvent::Answered) => Some(
            RequestState::Classified,
        ),
        (RequestState::AwaitingUpstream, RequestEvent::UpstreamFailed) => Some(
            RequestState::Failed,
        ),
        (RequestState::AwaitingUpstream, RequestEvent::DeadlinePassed) => Some(
            RequestState::Failed,
        ),
        _ => None,
    }
}

impl RequestState {
    /// The state that follows on `event`; `None` where that event cannot
    /// happen in this state.
    pub fn step(self, event: RequestEvent) -> (r: Option<RequestState>)
        ensures
            r == next_state(self, event),
    {
        match (self, event) {
            (RequestState::Received, RequestEvent::Decoded) => Some(RequestState::Classified),
            (RequestState::Received, RequestEvent::Undecodable) => Some(RequestState::Failed),
            (RequestState::Classified, RequestEvent::FoundBlocked) => Some(RequestState::Blocked),
            (RequestState::Classified, RequestEvent::FoundCached) => Some(RequestState::CacheHit),
            (RequestState::Classified, RequestEvent::Missed) => Some(
                RequestState::AwaitingUpstream,
            ),
            (RequestState::Classified, RequestEvent::Replied) => Some(RequestState::Responded),
            (RequestState::Blocked, RequestEvent::NextQuestion) => Some(RequestState::Classified),
            (RequestState::Blocked, RequestEvent::Replied) => Some(RequestState::Responded),
            (RequestState::CacheHit, RequestEvent::NextQuestion) => Some(
                RequestState::Classified,
            ),
            (RequestState::CacheHit, RequestEvent::Replied) => Some(RequestState::Responded),
            (RequestState::AwaitingUpstream, RequestEvent::Answered) => Some(
                RequestState::Classified,
            ),
            (RequestState::AwaitingUpstream, RequestEvent::UpstreamFailed) => Some(
                RequestState::Failed,
            ),
            (RequestState::AwaitingUpstream, RequestEvent::DeadlinePassed) => Some(
                RequestState::Failed,
            ),
            _ => None,
        }
    }

    /// Whether a request in this state may wait for something outside: only
    /// one that waits for the upstream resolver.
    pub fn may_suspend(self) -> (r: bool)
        ensures
            r == (self == RequestState::AwaitingUpstream),
    {
        match self {
            RequestState::AwaitingUpstream => true,
            _ => false,
        }
    }

    /// Whether the request is done with.
    pub fn is_final(self) -> (r: bool)
        ensures
            r == (self == RequestState::Responded || self == RequestState::Failed),
            r ==> forall|event: RequestEvent| next_state(self, event) is None,
    {
        match self {
            RequestState::Responded => true,
            RequestState::Failed => true,
            _ => false,
        }
    }
}

} // verus!
