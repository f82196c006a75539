//! What is written is read back: the proofs that reading the wire form of a
//! valid value gives that value again.

use crate::dns::header::{header_bytes, lemma_header_round_trip, parse_header, HEADER_LEN};
use crate::dns::name::{
    ascii_chars, encode_labels, encode_name, is_ascii_bytes, join_dots, label_run,
    lemma_ascii_decode, lemma_join_split, lemma_label_run_front, name_labels, name_text, parse_name,
    split_dots, valid_label, valid_labels, valid_name, DOT, MAX_JUMPS,
};
use crate::dns::packet::{
    packet_bytes, parse_packet, parse_questions, parse_records, parse_stream, questions_bytes,
    records_bytes, stream_bytes, stream_payload, valid_packet, valid_questions, valid_records,
    valid_stream, PacketView,
};
use crate::dns::question::{parse_question, question_bytes, valid_question, QuestionView};
use crate::dns::record::{
    parse_rdata, parse_record, rdata_bytes, rdata_type, record_bytes, valid_rdata, valid_record,
    RecordDataView, RecordView,
};
use crate::dns::wire::{
    be16, be32, lemma_u16_round_trip, lemma_u32_round_trip, u16_bytes, u32_bytes,
};
use vstd::prelude::*;
use vstd::utf8::encode_utf8_decode_utf8;

verus! {

/// The bytes `s` stand in `buf` from offset `pos` on.
pub open spec fn holds_at(buf: Seq<u8>, pos: int, s: Seq<u8>) -> bool {
    &&& 0 <= pos
    &&& pos + s.len() <= buf.len()
    &&& buf.subrange(pos, pos + s.len()) == s
}

/// Where `a + b` stands, `a` stands and `b` stands behind it.
pub proof fn lemma_holds_split(buf: Seq<u8>, pos: int, a: Seq<u8>, b: Seq<u8>)
    requires
        holds_at(buf, pos, a + b),
    ensures
        holds_at(buf, pos, a),
        holds_at(buf, pos + a.len(), b),
{
    let w = buf.subrange(pos, pos + (a + b).len());
    assert(buf.subrange(pos, pos + a.len()) =~= a) by {
        assert forall|i: int| 0 <= i < a.len() implies buf[pos + i] == a[i] by {
            assert(w[i] == (a + b)[i]);
        }
    }
    assert(buf.subrange(pos + a.len(), pos + a.len() + b.len()) =~= b) by {
        assert forall|i: int| 0 <= i < b.len() implies buf[pos + a.len() + i] == b[i] by {
            assert(w[a.len() + i] == (a + b)[a.len() + i]);
        }
    }
}

/// A byte of what stands in `buf` is the byte of `buf` at that place.
pub proof fn lemma_holds_index(buf: Seq<u8>, pos: int, s: Seq<u8>, i: int)
    requires
        holds_at(buf, pos, s),
        0 <= i < s.len(),
    ensures
        buf[pos + i] == s[i],
{
    assert(buf.subrange(pos, pos + s.len())[i] == s[i]);
}

/// A 16-bit integer is read back from where its two bytes stand.
pub proof fn lemma_u16_at(buf: Seq<u8>, pos: int, v: u16)
    requires
        holds_at(buf, pos, u16_bytes(v)),
    ensures
        be16(buf[pos], buf[pos + 1]) == v,
{
    lemma_holds_index(buf, pos, u16_bytes(v), 0);
    lemma_holds_index(buf, pos, u16_bytes(v), 1);
    lemma_u16_round_trip(v);
}

/// A 32-bit integer is read back from where its four bytes stand.
pub proof fn lemma_u32_at(buf: Seq<u8>, pos: int, v: u32)
    requires
        holds_at(buf, pos, u32_bytes(v)),
    ensures
        be32(buf[pos], buf[pos + 1], buf[pos + 2], buf[pos + 3]) == v,
{
    lemma_holds_index(buf, pos, u32_bytes(v), 0);
    lemma_holds_index(buf, pos, u32_bytes(v), 1);
    lemma_holds_index(buf, pos, u32_bytes(v), 2);
    lemma_holds_index(buf, pos, u32_bytes(v), 3);
    lemma_u32_round_trip(v);
}

/// Valid labels written in full are read back, without a pointer followed.
pub proof fn lemma_parse_encoded_labels(
    buf: Seq<u8>,
    pos: int,
    labels: Seq<Seq<u8>>,
    jumps: nat,
)
    requires
        valid_labels(labels),
        holds_at(buf, pos, encode_labels(labels)),
    ensures
        parse_name(buf, pos, jumps) == Some((labels, pos + encode_labels(labels).len())),
    decreases labels.len(),
{
    let enc = encode_labels(labels);
    if labels.len() == 0 {
        assert(label_run(labels) =~= Seq::<u8>::empty());
        assert(enc =~= seq![0u8]);
        lemma_holds_index(buf, pos, enc, 0);
        assert(labels =~= Seq::<Seq<u8>>::empty());
    } else {
        let first = labels[0];
        let rest = labels.drop_first();
        lemma_label_run_front(labels);
        assert(valid_label(first));
        let head = seq![first.len() as u8] + first;
        assert(enc =~= head + encode_labels(rest));
        lemma_holds_split(buf, pos, head, encode_labels(rest));
        lemma_holds_index(buf, pos, head, 0);
        assert(buf[pos] == first.len());
        assert(buf.subrange(pos + 1, pos + 1 + first.len()) =~= first) by {
            assert forall|i: int| 0 <= i < first.len() implies buf[pos + 1 + i] == first[i] by {
                lemma_holds_index(buf, pos, head, i + 1);
            }
        }
        assert forall|i: int| 0 <= i < rest.len() implies valid_label(#[trigger] rest[i]) by {
            assert(rest[i] == labels[i + 1]);
        }
        lemma_parse_encoded_labels(buf, pos + 1 + first.len(), rest, jumps);
        assert(seq![first] + rest =~= labels);
    }
}

/// Labels of ASCII bytes join to a text of ASCII bytes.
pub proof fn lemma_join_ascii(labels: Seq<Seq<u8>>)
    requires
        forall|i: int| 0 <= i < labels.len() ==> is_ascii_bytes(#[trigger] labels[i]),
    ensures
        is_ascii_bytes(join_dots(labels)),
    decreases labels.len(),
{
    if labels.len() <= 1 {
        if labels.len() == 1 {
            assert(is_ascii_bytes(labels[0]));
        }
    } else {
        let init = labels.drop_last();
        assert forall|i: int| 0 <= i < init.len() implies is_ascii_bytes(#[trigger] init[i]) by {
            assert(init[i] == labels[i]);
        }
        lemma_join_ascii(init);
        assert(is_ascii_bytes(labels.last()));
        let joined = join_dots(labels);
        assert forall|i: int| 0 <= i < joined.len() implies #[trigger] joined[i] < 128 by {
            if i < join_dots(init).len() {
                assert(joined[i] == join_dots(init)[i]);
            } else if i == join_dots(init).len() {
                assert(joined[i] == DOT);
            } else {
                assert(joined[i] == labels.last()[i - join_dots(init).len() - 1]);
            }
        }
    }
}

/// The text of a valid name is made of its labels, and spells the name.
pub proof fn lemma_name_round_trip(name: Seq<char>)
    requires
        valid_name(name_text(name)),
    ensures
        ascii_chars(join_dots(name_labels(name_text(name)))) == name,
{
    let text = name_text(name);
    encode_utf8_decode_utf8(name);
    if text.len() == 0 {
        assert(join_dots(Seq::<Seq<u8>>::empty()) =~= Seq::<u8>::empty());
        assert(is_ascii_bytes(text));
        lemma_ascii_decode(text);
        assert(ascii_chars(text) =~= name);
    } else {
        let labels = split_dots(text);
        lemma_join_split(text);
        assert forall|i: int| 0 <= i < labels.len() implies is_ascii_bytes(
            #[trigger] labels[i],
        ) by {
            assert(valid_label(labels[i]));
        }
        lemma_join_ascii(labels);
        lemma_ascii_decode(text);
    }
}

/// A valid name written in full is read back.
pub proof fn lemma_parse_encoded_name(buf: Seq<u8>, pos: int, name: Seq<char>)
    requires
        valid_name(name_text(name)),
        holds_at(buf, pos, encode_name(name_text(name))),
    ensures
        parse_name(buf, pos, MAX_JUMPS as nat) matches Some((labels, next)) && ascii_chars(
            join_dots(labels),
        ) == name && next == pos + encode_name(name_text(name)).len(),
{
    lemma_parse_encoded_labels(buf, pos, name_labels(name_text(name)), MAX_JUMPS as nat);
    lemma_name_round_trip(name);
}

/// A valid question is read back from its wire form.
pub proof fn lemma_parse_question(buf: Seq<u8>, pos: int, q: QuestionView)
    requires
        valid_question(q),
        holds_at(buf, pos, question_bytes(q)),
    ensures
        parse_question(buf, pos) == Some((q, pos + question_bytes(q).len())),
{
    let name = encode_name(name_text(q.name));
    let fixed = u16_bytes(q.rr_type) + u16_bytes(q.class);
    assert(question_bytes(q) =~= name + fixed);
    lemma_holds_split(buf, pos, name, fixed);
    lemma_parse_encoded_name(buf, pos, q.name);
    let p: int = pos + name.len() as int;
    lemma_holds_split(buf, p, u16_bytes(q.rr_type), u16_bytes(q.class));
    lemma_u16_at(buf, p, q.rr_type);
    lemma_u16_at(buf, p + 2, q.class);
}

/// Valid record data is read back from its payload.
pub proof fn lemma_parse_rdata(buf: Seq<u8>, pos: int, d: RecordDataView)
    requires
        valid_rdata(d),
        holds_at(buf, pos, rdata_bytes(d)),
    ensures
        parse_rdata(buf, pos, rdata_type(d), rdata_bytes(d).len() as int) == Some(d),
{
    match d {
        RecordDataView::Cname(name) => {
            lemma_parse_encoded_name(buf, pos, name);
        },
        _ => {},
    }
}

/// A valid record is read back from its wire form.
pub proof fn lemma_parse_record(buf: Seq<u8>, pos: int, r: RecordView)
    requires
        valid_record(r),
        holds_at(buf, pos, record_bytes(r)),
    ensures
        parse_record(buf, pos) == Some((r, pos + record_bytes(r).len())),
{
    let name = encode_name(name_text(r.name));
    let data = rdata_bytes(r.data);
    let t = u16_bytes(rdata_type(r.data));
    let c = u16_bytes(r.class);
    let ttl = u32_bytes(r.ttl);
    let l = u16_bytes(data.len() as u16);
    assert(record_bytes(r) =~= name + (t + (c + (ttl + (l + data)))));
    lemma_holds_split(buf, pos, name, t + (c + (ttl + (l + data))));
    lemma_parse_encoded_name(buf, pos, r.name);
    let p: int = pos + name.len() as int;
    lemma_holds_split(buf, p, t, c + (ttl + (l + data)));
    lemma_holds_split(buf, p + 2, c, ttl + (l + data));
    lemma_holds_split(buf, p + 4, ttl, l + data);
    lemma_holds_split(buf, p + 8, l, data);
    lemma_u16_at(buf, p, rdata_type(r.data));
    lemma_u16_at(buf, p + 2, r.class);
    lemma_u32_at(buf, p + 4, r.ttl);
    lemma_u16_at(buf, p + 8, data.len() as u16);
    lemma_parse_rdata(buf, p + 10, r.data);
}

/// Valid questions are read back from their wire forms.
pub proof fn lemma_parse_questions(buf: Seq<u8>, pos: int, qs: Seq<QuestionView>)
    requires
        valid_questions(qs),
        holds_at(buf, pos, questions_bytes(qs)),
    ensures
        parse_questions(buf, pos, qs.len()) == Some((qs, pos + questions_bytes(qs).len())),
    decreases qs.len(),
{
    if qs.len() == 0 {
        assert(qs =~= Seq::<QuestionView>::empty());
    } else {
        let init = qs.drop_last();
        assert forall|i: int| 0 <= i < init.len() implies valid_question(#[trigger] init[i]) by {
            assert(init[i] == qs[i]);
        }
        assert(valid_question(qs.last()));
        lemma_holds_split(buf, pos, questions_bytes(init), question_bytes(qs.last()));
        lemma_parse_questions(buf, pos, init);
        lemma_parse_question(buf, pos + questions_bytes(init).len(), qs.last());
        assert(init.push(qs.last()) =~= qs);
    }
}

/// Valid records are read back from their wire forms.
pub proof fn lemma_parse_records(buf: Seq<u8>, pos: int, rs: Seq<RecordView>)
    requires
        valid_records(rs),
        holds_at(buf, pos, records_bytes(rs)),
    ensures
        parse_records(buf, pos, rs.len()) == Some((rs, pos + records_bytes(rs).len())),
    decreases rs.len(),
{
    if rs.len() == 0 {
        assert(rs =~= Seq::<RecordView>::empty());
    } else {
        let init = rs.drop_last();
        assert forall|i: int| 0 <= i < init.len() implies valid_record(#[trigger] init[i]) by {
            assert(init[i] == rs[i]);
        }
        assert(valid_record(rs.last()));
        lemma_holds_split(buf, pos, records_bytes(init), record_bytes(rs.last()));
        lemma_parse_records(buf, pos, init);
        lemma_parse_record(buf, pos + records_bytes(init).len(), rs.last());
        assert(init.push(rs.last()) =~= rs);
    }
}

/// Reading the wire form of a valid message gives the message again, the
/// reserved field of its flags as zero.
pub proof fn lemma_packet_round_trip(p: PacketView)
    requires
        valid_packet(p),
    ensures
        parse_packet(packet_bytes(p)) == Some(p.written()),
{
    let buf = packet_bytes(p);
    let h = header_bytes(p.header);
    let q = questions_bytes(p.questions);
    let an = records_bytes(p.answers);
    let ns = records_bytes(p.authorities);
    let ar = records_bytes(p.additionals);
    let q_end: int = 12 + q.len() as int;
    let an_end: int = q_end + an.len() as int;
    let ns_end: int = an_end + ns.len() as int;
    lemma_packet_layout(p);
    assert(parse_header(buf) == Some(p.header.written())) by {
        lemma_header_round_trip(p.header, buf);
    }
    assert(parse_questions(buf, 12, p.header.questions as nat) == Some((p.questions, q_end))) by {
        lemma_parse_questions(buf, 12, p.questions);
    }
    assert(parse_records(buf, q_end, p.header.answer_rrs as nat) == Some((p.answers, an_end))) by {
        lemma_parse_records(buf, q_end, p.answers);
    }
    assert(parse_records(buf, an_end, p.header.authority_rrs as nat) == Some((p.authorities, ns_end)))
        by {
        lemma_parse_records(buf, an_end, p.authorities);
    }
    assert(parse_records(buf, ns_end, p.header.additional_rrs as nat) == Some(
        (p.additionals, ns_end + ar.len()),
    )) by {
        lemma_parse_records(buf, ns_end, p.additionals);
    }
}

/// Where each part of a message's wire form stands in it.
pub proof fn lemma_packet_layout(p: PacketView)
    ensures
        header_bytes(p.header).len() == HEADER_LEN,
        packet_bytes(p).len() >= HEADER_LEN,
        packet_bytes(p).subrange(0, HEADER_LEN as int) == header_bytes(p.header),
        holds_at(packet_bytes(p), HEADER_LEN as int, questions_bytes(p.questions)),
        holds_at(
            packet_bytes(p),
            HEADER_LEN + questions_bytes(p.questions).len(),
            records_bytes(p.answers),
        ),
        holds_at(
            packet_bytes(p),
            HEADER_LEN + questions_bytes(p.questions).len() + records_bytes(p.answers).len(),
            records_bytes(p.authorities),
        ),
        holds_at(
            packet_bytes(p),
            HEADER_LEN + questions_bytes(p.questions).len() + records_bytes(p.answers).len()
                + records_bytes(p.authorities).len(),
            records_bytes(p.additionals),
        ),
{
    let buf = packet_bytes(p);
    let h = header_bytes(p.header);
    let q = questions_bytes(p.questions);
    let an = records_bytes(p.answers);
    let ns = records_bytes(p.authorities);
    let ar = records_bytes(p.additionals);
    assert(h.len() == 12);
    assert(buf =~= h + (q + (an + (ns + ar))));
    assert(buf.subrange(0, buf.len() as int) =~= buf);
    lemma_holds_split(buf, 0, h, q + (an + (ns + ar)));
    lemma_holds_split(buf, 12, q, an + (ns + ar));
    let q_end: int = 12 + q.len() as int;
    lemma_holds_split(buf, q_end, an, ns + ar);
    let an_end: int = q_end + an.len() as int;
    lemma_holds_split(buf, an_end, ns, ar);
}

/// What was read from a wire form is written and read back as it is: a
/// valid message, once written and read, has a wire form that reads as
/// itself.
pub proof fn lemma_written_is_fixed(p: PacketView)
    requires
        valid_packet(p),
    ensures
        valid_packet(p.written()),
        packet_bytes(p.written()) == packet_bytes(p),
        parse_packet(packet_bytes(p.written())) == Some(p.written()),
{
    let w = p.written();
    assert(w.header.flags.word() == p.header.flags.word());
    assert(header_bytes(w.header) == header_bytes(p.header));
    lemma_packet_round_trip(p);
}

/// Reading the wire form of a valid message whose reserved flags are zero
/// gives the very same message.
pub proof fn lemma_packet_round_trip_exact(p: PacketView)
    requires
        valid_packet(p),
        p.header.flags.z == 0,
    ensures
        parse_packet(packet_bytes(p)) == Some(p),
{
    lemma_packet_round_trip(p);
    assert(p.written() == p);
}

/// Reading the stream frame of a valid message that fits one gives the
/// message again, the reserved field of its flags as zero.
pub proof fn lemma_stream_round_trip(p: PacketView)
    requires
        valid_stream(p),
    ensures
        parse_stream(stream_bytes(p)) == Some(p.written()),
{
    let body = packet_bytes(p);
    let frame = stream_bytes(p);
    lemma_u16_round_trip(body.len() as u16);
    assert(frame[0] == u16_bytes(body.len() as u16)[0]);
    assert(frame[1] == u16_bytes(body.len() as u16)[1]);
    assert(frame.subrange(2, 2 + body.len() as int) =~= body);
    assert(stream_payload(frame) == Some(body));
    lemma_packet_round_trip(p);
}

} // verus!
