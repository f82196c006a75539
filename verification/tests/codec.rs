use dns_filter::dns::name::{name_wire, string_to_bytes};
use dns_filter::dns::{
    DnsPacket, DnsPacketBuffer, Header, HeaderFlags, Question, Record, RecordData, Serialize,
};
use dns_filter::error::DnsError;

fn query_flags() -> HeaderFlags {
    HeaderFlags {
        response: false,
        opcode: 0,
        auth_answer: false,
        truncated: false,
        recursion_desired: true,
        recursion_available: false,
        z: 0,
        r_code: 0,
    }
}

fn example_query() -> Vec<u8> {
    let mut bytes = vec![0x12, 0x34, 0x01, 0x00, 0x00, 0x01, 0x00, 0x00, 0x00, 0x00, 0x00, 0x00];
    bytes.extend_from_slice(&[7]);
    bytes.extend_from_slice(b"example");
    bytes.extend_from_slice(&[3]);
    bytes.extend_from_slice(b"com");
    bytes.extend_from_slice(&[0, 0x00, 0x01, 0x00, 0x01]);
    bytes
}

fn example_response_compressed() -> Vec<u8> {
    let mut bytes = vec![0x12, 0x34, 0x81, 0x80, 0x00, 0x01, 0x00, 0x01, 0x00, 0x00, 0x00, 0x00];
    bytes.extend_from_slice(&[7]);
    bytes.extend_from_slice(b"example");
    bytes.extend_from_slice(&[3]);
    bytes.extend_from_slice(b"com");
    bytes.extend_from_slice(&[0, 0x00, 0x01, 0x00, 0x01]);
    bytes.extend_from_slice(&[0xc0, 0x0c, 0x00, 0x01, 0x00, 0x01]);
    bytes.extend_from_slice(&[0x00, 0x00, 0x01, 0x2c, 0x00, 0x04, 93, 184, 216, 34]);
    bytes
}

#[test]
fn header_manual() {
    let packet = 0x8180u16;
    let flags = HeaderFlags {
        response: true,
        opcode: 0,
        auth_answer: false,
        truncated: false,
        recursion_desired: true,
        recursion_available: true,
        z: 0,
        r_code: 0,
    };
    let serialized: u16 = flags.into();
    assert_eq!(serialized, packet);
}

#[test]
fn header_serializing() {
    let packet = 0x8180u16;
    let header: HeaderFlags = packet.into();
    let serialized: u16 = header.into();
    assert_eq!(serialized, packet);
}

#[test]
fn test_read_u16() {
    let mut buffer = DnsPacketBuffer::new(&[0xc0, 0x0c, 0x11]);
    assert_eq!(buffer.read_u16(), Ok(0xc00cu16));
    assert_eq!(buffer.peek_u8(), Ok(0x11u8));
}

#[test]
fn test_read_name() {
    let mut buffer = DnsPacketBuffer::new(&[0x3, 'a' as u8, 'b' as u8, 'c' as u8, 0x0]);
    assert_eq!(buffer.read_name(), Ok("abc".to_string()))
}

#[test]
fn flags_use_the_rfc_bit_positions() {
    let aa: HeaderFlags = 0x0400u16.into();
    assert!(aa.auth_answer && !aa.truncated && !aa.recursion_desired && !aa.recursion_available);
    let tc: HeaderFlags = 0x0200u16.into();
    assert!(tc.truncated && !tc.auth_answer);
    let rd: HeaderFlags = 0x0100u16.into();
    assert!(rd.recursion_desired && !rd.recursion_available);
    let ra: HeaderFlags = 0x0080u16.into();
    assert!(ra.recursion_available && !ra.recursion_desired);
    let all: HeaderFlags = 0xffffu16.into();
    assert_eq!(all.opcode, 15);
    assert_eq!(all.z, 7);
    assert_eq!(all.r_code, 15);
    assert!(all.response);
}

#[test]
fn flags_round_trip_masks_the_reserved_bits() {
    let mut v: u32 = 0;
    while v <= 0xffff {
        let word = v as u16;
        let flags: HeaderFlags = word.into();
        let back: u16 = flags.into();
        assert_eq!(back, word & 0xff8f);
        if word & 0x7870 == 0 {
            assert_eq!(back, word & 0x87ff);
        }
        v += 1;
    }
}

#[test]
fn flags_with_opcode_do_not_round_trip_to_the_opcode_mask() {
    let flags: HeaderFlags = 0x0800u16.into();
    let back: u16 = flags.into();
    assert_eq!(back, 0x0800);
    assert_ne!(back, 0x0800u16 & 0x87ff);
}

#[test]
fn flags_serialize_through_the_trait() {
    let flags: HeaderFlags = 0x8583u16.into();
    assert_eq!(flags.serialize(), 0x8583u16);
    assert!(flags.is_valid());
    let wide = HeaderFlags { opcode: 16, ..flags };
    assert!(!wide.is_valid());
}

#[test]
fn header_is_twelve_big_endian_bytes() {
    let header = Header {
        transaction_id: 0x1234,
        flags: query_flags(),
        questions: 1,
        answer_rrs: 2,
        authority_rrs: 3,
        additional_rrs: 0x0405,
    };
    assert_eq!(header.serialize(), vec![0x12, 0x34, 0x01, 0x00, 0, 1, 0, 2, 0, 3, 4, 5]);
}

#[test]
fn buffer_reads_big_endian() {
    let bytes = [0x01, 0x02, 0x03, 0x04, 0x05, 0x06, 0x07];
    let mut buffer = DnsPacketBuffer::new(&bytes);
    assert_eq!(buffer.position(), 0);
    assert_eq!(buffer.peek_u8(), Ok(0x01));
    assert_eq!(buffer.peek_u16(), Ok(0x0102));
    assert_eq!(buffer.peek_u32(), Ok(0x01020304));
    assert_eq!(buffer.position(), 0);
    assert_eq!(buffer.read_u8(), Ok(0x01));
    assert_eq!(buffer.read_u32(), Ok(0x02030405));
    assert_eq!(buffer.position(), 5);
    assert_eq!(buffer.read_n(2), Ok(vec![0x06, 0x07]));
    assert_eq!(buffer.position(), 7);
    assert_eq!(buffer.read_n(0), Ok(vec![]));
}

#[test]
fn buffer_reads_past_the_end_fail_and_stay() {
    let bytes = [0xaa, 0xbb, 0xcc];
    let mut buffer = DnsPacketBuffer::new(&bytes);
    assert_eq!(buffer.read_u32(), Err(DnsError::MalformedPacket));
    assert_eq!(buffer.peek_u32(), Err(DnsError::MalformedPacket));
    assert_eq!(buffer.position(), 0);
    assert_eq!(buffer.read_n(4), Err(DnsError::MalformedPacket));
    assert_eq!(buffer.position(), 0);
    assert_eq!(buffer.read_u16(), Ok(0xaabb));
    assert_eq!(buffer.read_u16(), Err(DnsError::MalformedPacket));
    assert_eq!(buffer.peek_u16(), Err(DnsError::MalformedPacket));
    assert_eq!(buffer.position(), 2);
    assert_eq!(buffer.read_u8(), Ok(0xcc));
    assert_eq!(buffer.read_u8(), Err(DnsError::MalformedPacket));
    assert_eq!(buffer.peek_u8(), Err(DnsError::MalformedPacket));
    assert_eq!(buffer.position(), 3);
    let mut empty = DnsPacketBuffer::new(&[]);
    assert_eq!(empty.read_name(), Err(DnsError::MalformedPacket));
}

#[test]
fn read_name_joins_labels_with_dots() {
    let bytes = [3, b'w', b'w', b'w', 7, b'E', b'x', b'a', b'm', b'p', b'l', b'e', 3, b'c', b'o', b'm', 0, 9];
    let mut buffer = DnsPacketBuffer::new(&bytes);
    assert_eq!(buffer.read_name(), Ok("www.Example.com".to_string()));
    assert_eq!(buffer.position(), 17);
    assert_eq!(buffer.read_u8(), Ok(9));
}

#[test]
fn read_name_of_the_root_is_empty() {
    let bytes = [0, 1];
    let mut buffer = DnsPacketBuffer::new(&bytes);
    assert_eq!(buffer.read_name(), Ok(String::new()));
    assert_eq!(buffer.position(), 1);
}

#[test]
fn read_name_follows_a_pointer_and_stays_behind_it() {
    let bytes = [3, b'c', b'o', b'm', 0, 3, b'w', b'w', b'w', 0xc0, 0x00, 0x2a];
    let mut buffer = DnsPacketBuffer::new(&bytes);
    assert_eq!(buffer.read_name(), Ok("com".to_string()));
    assert_eq!(buffer.position(), 5);
    assert_eq!(buffer.read_name(), Ok("www.com".to_string()));
    assert_eq!(buffer.position(), 11);
    assert_eq!(buffer.read_u8(), Ok(0x2a));
}

#[test]
fn read_name_follows_a_chain_of_pointers() {
    let bytes = [1, b'a', 0, 1, b'b', 0xc0, 0x00, 1, b'c', 0xc0, 0x03];
    let mut buffer = DnsPacketBuffer::new(&bytes[7..]);
    assert_eq!(buffer.read_name(), Err(DnsError::MalformedPacket));
    let whole = DnsPacketBuffer::new(&bytes);
    let mut at_seven = whole;
    assert_eq!(at_seven.read_n(7).map(|v| v.len()), Ok(7));
    assert_eq!(at_seven.read_name(), Ok("c.b.a".to_string()));
    assert_eq!(at_seven.position(), 11);
}

#[test]
fn read_name_rejects_a_pointer_loop() {
    let own = [0xc0, 0x00];
    let mut buffer = DnsPacketBuffer::new(&own);
    assert_eq!(buffer.read_name(), Err(DnsError::MalformedPacket));
    assert_eq!(buffer.position(), 0);
    let pair = [0xc0, 0x02, 0xc0, 0x00];
    let mut buffer = DnsPacketBuffer::new(&pair);
    assert_eq!(buffer.read_name(), Err(DnsError::MalformedPacket));
    let labelled = [1, b'a', 0xc0, 0x00];
    let mut buffer = DnsPacketBuffer::new(&labelled);
    assert_eq!(buffer.read_name(), Err(DnsError::MalformedPacket));
    assert_eq!(buffer.position(), 0);
}

fn pointer_chain(jumps: usize) -> Vec<u8> {
    // A root name at offset 0, then `jumps` pointers, each to the one before.
    let mut bytes = vec![0u8];
    let mut at = 0usize;
    let mut k = 0;
    while k < jumps {
        let here = bytes.len();
        bytes.push(0xc0 | ((at >> 8) as u8));
        bytes.push((at & 0xff) as u8);
        at = here;
        k += 1;
    }
    bytes
}

#[test]
fn read_name_follows_128_pointers_and_no_more() {
    let ok = pointer_chain(128);
    let whole = DnsPacketBuffer::new(&ok);
    let mut last = whole;
    assert!(last.read_n(ok.len() - 2).is_ok());
    assert_eq!(last.read_name(), Ok(String::new()));
    assert_eq!(last.position(), ok.len());
    let too_deep = pointer_chain(129);
    let whole = DnsPacketBuffer::new(&too_deep);
    let mut last = whole;
    assert!(last.read_n(too_deep.len() - 2).is_ok());
    assert_eq!(last.read_name(), Err(DnsError::MalformedPacket));
    assert_eq!(last.position(), too_deep.len() - 2);
}

#[test]
fn read_name_rejects_what_is_no_name() {
    let pointer_out = [0xc0, 0x10];
    assert_eq!(DnsPacketBuffer::new(&pointer_out).read_name(), Err(DnsError::MalformedPacket));
    let half_pointer = [0xc0];
    assert_eq!(DnsPacketBuffer::new(&half_pointer).read_name(), Err(DnsError::MalformedPacket));
    let short_label = [3, b'a', b'b'];
    assert_eq!(DnsPacketBuffer::new(&short_label).read_name(), Err(DnsError::MalformedPacket));
    let unterminated = [1, b'a'];
    assert_eq!(DnsPacketBuffer::new(&unterminated).read_name(), Err(DnsError::MalformedPacket));
    let high_byte = [2, b'a', 0x80, 0];
    assert_eq!(DnsPacketBuffer::new(&high_byte).read_name(), Err(DnsError::MalformedPacket));
    let reserved_01 = [0x40, 0];
    assert_eq!(DnsPacketBuffer::new(&reserved_01).read_name(), Err(DnsError::MalformedPacket));
    let reserved_10 = [0x80, 0];
    assert_eq!(DnsPacketBuffer::new(&reserved_10).read_name(), Err(DnsError::MalformedPacket));
}

#[test]
fn read_name_takes_a_label_of_63_bytes() {
    let mut bytes = vec![63u8];
    bytes.extend(std::iter::repeat(b'x').take(63));
    bytes.push(0);
    let mut buffer = DnsPacketBuffer::new(&bytes);
    assert_eq!(buffer.read_name(), Ok("x".repeat(63)));
    assert_eq!(buffer.position(), 65);
}

#[test]
fn names_are_written_uncompressed() {
    assert_eq!(string_to_bytes(&"abc".to_string()), Ok(vec![3, b'a', b'b', b'c', 0]));
    assert_eq!(
        string_to_bytes(&"www.example.com".to_string()),
        Ok(vec![3, b'w', b'w', b'w', 7, b'e', b'x', b'a', b'm', b'p', b'l', b'e', 3, b'c', b'o', b'm', 0])
    );
    assert_eq!(string_to_bytes(&String::new()), Ok(vec![0]));
    assert_eq!(name_wire(b"a.b"), Ok(vec![1, b'a', 1, b'b', 0]));
    assert_eq!(string_to_bytes(&"x".repeat(63)).map(|v| v.len()), Ok(65));
}

#[test]
fn names_without_a_wire_form_are_rejected() {
    assert_eq!(string_to_bytes(&"a..b".to_string()), Err(DnsError::MalformedPacket));
    assert_eq!(string_to_bytes(&".".to_string()), Err(DnsError::MalformedPacket));
    assert_eq!(string_to_bytes(&"a.".to_string()), Err(DnsError::MalformedPacket));
    assert_eq!(string_to_bytes(&".a".to_string()), Err(DnsError::MalformedPacket));
    assert_eq!(string_to_bytes(&"x".repeat(64)), Err(DnsError::MalformedPacket));
    assert_eq!(string_to_bytes(&"caf\u{e9}.fr".to_string()), Err(DnsError::MalformedPacket));
    assert_eq!(name_wire(&[b'a', 0xff]), Err(DnsError::MalformedPacket));
}

#[test]
fn decodes_a_query() {
    let bytes = example_query();
    assert_eq!(bytes.len(), 29);
    let packet = DnsPacket::decode(&bytes).unwrap();
    assert_eq!(packet.header.transaction_id, 0x1234);
    assert_eq!(packet.header.flags, query_flags());
    assert_eq!(packet.header.questions, 1);
    assert_eq!(packet.header.answer_rrs, 0);
    assert_eq!(packet.questions.len(), 1);
    assert_eq!(packet.questions[0].cname, "example.com");
    assert_eq!(packet.questions[0].rr_type, 1);
    assert_eq!(packet.questions[0].class, 1);
    assert!(packet.records.is_empty());
    assert!(packet.authorities.is_empty());
    assert!(packet.additionals.is_empty());
}

#[test]
fn decodes_a_compressed_response_and_writes_it_in_full() {
    let bytes = example_response_compressed();
    let packet = DnsPacket::decode(&bytes).unwrap();
    assert_eq!(packet.questions.len(), packet.header.questions as usize);
    assert_eq!(packet.records.len(), packet.header.answer_rrs as usize);
    assert_eq!(packet.records.len(), 1);
    assert_eq!(packet.records[0].cname, "example.com");
    assert_eq!(packet.records[0].ttl, 300);
    assert_eq!(packet.records[0].class, 1);
    assert_eq!(packet.records[0].data, RecordData::A([93, 184, 216, 34]));
    let written = packet.encode().unwrap();
    assert_eq!(written.len(), bytes.len() + 11);
    assert!(!written[12..].contains(&0xc0));
    assert_eq!(DnsPacket::decode(&written), Ok(packet));
}

#[test]
fn encode_then_decode_gives_the_packet_back() {
    let packet = DnsPacket {
        header: Header {
            transaction_id: 0xbeef,
            flags: HeaderFlags {
                response: true,
                opcode: 2,
                auth_answer: true,
                truncated: false,
                recursion_desired: true,
                recursion_available: true,
                z: 0,
                r_code: 3,
            },
            questions: 2,
            answer_rrs: 4,
            authority_rrs: 1,
            additional_rrs: 1,
        },
        questions: vec![
            Question { cname: "example.com".to_string(), rr_type: 1, class: 1 },
            Question { cname: String::new(), rr_type: 2, class: 1 },
        ],
        records: vec![
            Record {
                cname: "example.com".to_string(),
                class: 1,
                ttl: 300,
                data: RecordData::A([93, 184, 216, 34]),
            },
            Record {
                cname: "example.com".to_string(),
                class: 1,
                ttl: 0xffff_ffff,
                data: RecordData::AAAA([0x26, 0x06, 0x28, 0, 2, 0x20, 0, 1, 2, 0x48, 0x18, 0x93, 0x25, 0xc8, 0x19, 0x46]),
            },
            Record {
                cname: "www.example.com".to_string(),
                class: 1,
                ttl: 60,
                data: RecordData::CNAME("example.com".to_string()),
            },
            Record {
                cname: "example.com".to_string(),
                class: 1,
                ttl: 0,
                data: RecordData::UNKNOWN(16, vec![4, b't', b'e', b'x', b't']),
            },
        ],
        authorities: vec![Record {
            cname: "com".to_string(),
            class: 1,
            ttl: 7,
            data: RecordData::UNKNOWN(2, vec![]),
        }],
        additionals: vec![Record {
            cname: String::new(),
            class: 4096,
            ttl: 0,
            data: RecordData::UNKNOWN(41, vec![]),
        }],
    };
    let bytes = packet.encode().unwrap();
    assert_eq!(DnsPacket::decode(&bytes), Ok(packet.clone()));
    let again = DnsPacket::decode(&bytes).unwrap().encode().unwrap();
    assert_eq!(again, bytes);
    assert_eq!(packet.clone().serialize(), Ok(bytes));
}

#[test]
fn encode_writes_the_reserved_flags_as_zero() {
    let mut packet = DnsPacket::decode(&example_query()).unwrap();
    packet.header.flags.z = 5;
    let bytes = packet.encode().unwrap();
    assert_eq!(bytes, example_query());
    let back = DnsPacket::decode(&bytes).unwrap();
    assert_eq!(back.header.flags.z, 0);
    let with_z = {
        let mut b = example_query();
        b[3] = 0x20;
        b
    };
    assert_eq!(DnsPacket::decode(&with_z).unwrap().header.flags.z, 2);
}

#[test]
fn encode_rejects_what_has_no_wire_form() {
    let good = DnsPacket::decode(&example_query()).unwrap();
    let mut wrong_count = good.clone();
    wrong_count.header.questions = 2;
    assert_eq!(wrong_count.encode(), Err(DnsError::MalformedPacket));
    let mut wrong_answers = good.clone();
    wrong_answers.header.answer_rrs = 1;
    assert_eq!(wrong_answers.encode(), Err(DnsError::MalformedPacket));
    let mut wrong_authorities = good.clone();
    wrong_authorities.header.authority_rrs = 1;
    assert_eq!(wrong_authorities.encode(), Err(DnsError::MalformedPacket));
    let mut wrong_additionals = good.clone();
    wrong_additionals.header.additional_rrs = 1;
    assert_eq!(wrong_additionals.encode(), Err(DnsError::MalformedPacket));
    let mut wide_opcode = good.clone();
    wide_opcode.header.flags.opcode = 16;
    assert_eq!(wide_opcode.encode(), Err(DnsError::MalformedPacket));
    let mut wide_rcode = good.clone();
    wide_rcode.header.flags.r_code = 16;
    assert_eq!(wide_rcode.encode(), Err(DnsError::MalformedPacket));
    let mut bad_name = good.clone();
    bad_name.questions[0].cname = "bad..name".to_string();
    assert_eq!(bad_name.encode(), Err(DnsError::MalformedPacket));
    let mut bad_record = good.clone();
    bad_record.header.answer_rrs = 1;
    bad_record.records.push(Record {
        cname: "example.com".to_string(),
        class: 1,
        ttl: 1,
        data: RecordData::UNKNOWN(1, vec![1, 2, 3, 4]),
    });
    assert_eq!(bad_record.encode(), Err(DnsError::MalformedPacket));
    assert_eq!(bad_record.bytes(), Err(DnsError::MalformedPacket));
    assert_eq!(bad_record.size(), Err(DnsError::MalformedPacket));
}

#[test]
fn decode_rejects_what_is_no_message() {
    assert_eq!(DnsPacket::decode(&[]), Err(DnsError::MalformedPacket));
    assert_eq!(DnsPacket::decode(&example_query()[..11]), Err(DnsError::MalformedPacket));
    assert_eq!(DnsPacket::decode(&example_query()[..28]), Err(DnsError::MalformedPacket));
    let mut two_questions = example_query();
    two_questions[5] = 2;
    assert_eq!(DnsPacket::decode(&two_questions), Err(DnsError::MalformedPacket));
    let mut wants_answer = example_query();
    wants_answer[7] = 1;
    assert_eq!(DnsPacket::decode(&wants_answer), Err(DnsError::MalformedPacket));
    let mut short_address = example_response_compressed();
    let n = short_address.len();
    short_address[n - 5] = 3;
    assert_eq!(DnsPacket::decode(&short_address), Err(DnsError::MalformedPacket));
    let mut cut = example_response_compressed();
    cut.pop();
    assert_eq!(DnsPacket::decode(&cut), Err(DnsError::MalformedPacket));
}

#[test]
fn decode_accepts_a_header_alone_and_ignores_what_follows_the_sections() {
    let header = [0u8, 7, 0, 0, 0, 0, 0, 0, 0, 0, 0, 0];
    let packet = DnsPacket::decode(&header).unwrap();
    assert_eq!(packet.header.transaction_id, 7);
    assert!(packet.questions.is_empty());
    let mut padded = example_query();
    padded.extend_from_slice(&[0xde, 0xad]);
    assert_eq!(DnsPacket::decode(&padded), DnsPacket::decode(&example_query()));
}

#[test]
fn stream_frames_carry_the_length_first() {
    let packet = DnsPacket::decode(&example_query()).unwrap();
    let frame = packet.bytes().unwrap();
    assert_eq!(&frame[..2], &[0x00, 0x1d]);
    assert_eq!(&frame[2..], &example_query()[..]);
    assert_eq!(packet.size(), Ok(vec![0x00, 0x1d]));
    assert_eq!(DnsPacket::decode_stream(&frame), Ok(packet.clone()));
    assert_eq!(DnsPacket::from_tcp(&frame, frame.len()), Ok(packet.clone()));
    let mut read_buffer = frame.clone();
    read_buffer.resize(1024, 0);
    assert_eq!(DnsPacket::from_tcp(&read_buffer, frame.len()), Ok(packet.clone()));
    assert_eq!(DnsPacket::decode_stream(&read_buffer), Ok(packet));
}

#[test]
fn stream_frames_that_are_cut_short_are_rejected() {
    let packet = DnsPacket::decode(&example_query()).unwrap();
    let frame = packet.bytes().unwrap();
    assert_eq!(DnsPacket::decode_stream(&[]), Err(DnsError::MalformedPacket));
    assert_eq!(DnsPacket::decode_stream(&frame[..1]), Err(DnsError::MalformedPacket));
    assert_eq!(DnsPacket::decode_stream(&frame[..frame.len() - 1]), Err(DnsError::MalformedPacket));
    assert_eq!(DnsPacket::from_tcp(&frame, frame.len() - 1), Err(DnsError::MalformedPacket));
    assert_eq!(DnsPacket::from_tcp(&frame, frame.len() + 1), Err(DnsError::MalformedPacket));
    assert_eq!(DnsPacket::from_tcp(&frame, 0), Err(DnsError::MalformedPacket));
}

#[test]
fn a_message_too_long_for_a_frame_still_has_a_datagram_form() {
    let mut packet = DnsPacket::decode(&example_query()).unwrap();
    packet.header.answer_rrs = 2;
    let big = Record {
        cname: "example.com".to_string(),
        class: 1,
        ttl: 1,
        data: RecordData::UNKNOWN(16, vec![0; 40000]),
    };
    packet.records.push(big.clone());
    packet.records.push(big);
    assert!(packet.encode().unwrap().len() > 65535);
    assert_eq!(packet.bytes(), Err(DnsError::MalformedPacket));
    assert_eq!(packet.size(), Err(DnsError::MalformedPacket));
}

#[test]
fn record_data_knows_three_types_and_keeps_the_rest() {
    assert_eq!(RecordData::A([1, 2, 3, 4]).to_num(), 1);
    assert_eq!(RecordData::CNAME("a.b".to_string()).to_num(), 5);
    assert_eq!(RecordData::AAAA([0; 16]).to_num(), 28);
    assert_eq!(RecordData::UNKNOWN(99, vec![1]).to_num(), 99);
    assert_eq!(RecordData::A([1, 2, 3, 4]).serialize(), Ok(vec![0, 4, 1, 2, 3, 4]));
    assert_eq!(RecordData::AAAA([9; 16]).serialize().map(|v| v.len()), Ok(18));
    assert_eq!(
        RecordData::CNAME("a.bc".to_string()).serialize(),
        Ok(vec![0, 6, 1, b'a', 2, b'b', b'c', 0])
    );
    assert_eq!(RecordData::UNKNOWN(99, vec![7, 8, 9]).serialize(), Ok(vec![0, 3, 7, 8, 9]));
    assert_eq!(RecordData::UNKNOWN(99, vec![0; 65535]).serialize().map(|v| v.len()), Ok(65537));
    assert_eq!(RecordData::UNKNOWN(99, vec![0; 65536]).serialize(), Err(DnsError::MalformedPacket));
    assert_eq!(RecordData::UNKNOWN(1, vec![1, 2, 3, 4]).serialize(), Err(DnsError::MalformedPacket));
    assert_eq!(RecordData::UNKNOWN(5, vec![0]).serialize(), Err(DnsError::MalformedPacket));
    assert_eq!(RecordData::UNKNOWN(28, vec![0; 16]).serialize(), Err(DnsError::MalformedPacket));
    assert_eq!(RecordData::CNAME("a..b".to_string()).serialize(), Err(DnsError::MalformedPacket));
    let copy = RecordData::UNKNOWN(99, vec![7, 8, 9]).copy();
    assert_eq!(copy, RecordData::UNKNOWN(99, vec![7, 8, 9]));
}

#[test]
fn record_data_is_read_by_type_and_length() {
    let bytes = [1, 2, 3, 4, 5, 6, 7, 8, 9, 10, 11, 12, 13, 14, 15, 16, 17];
    let mut buffer = DnsPacketBuffer::new(&bytes);
    assert_eq!(RecordData::new(1, 4, &mut buffer), Ok(RecordData::A([1, 2, 3, 4])));
    assert_eq!(buffer.position(), 4);
    assert_eq!(RecordData::new(1, 5, &mut buffer), Err(DnsError::MalformedPacket));
    assert_eq!(buffer.position(), 4);
    assert_eq!(RecordData::new(77, 3, &mut buffer), Ok(RecordData::UNKNOWN(77, vec![5, 6, 7])));
    assert_eq!(RecordData::new(28, 16, &mut buffer), Err(DnsError::MalformedPacket));
    assert_eq!(RecordData::new(77, 11, &mut buffer), Err(DnsError::MalformedPacket));
    assert_eq!(buffer.position(), 7);
    let mut whole = DnsPacketBuffer::new(&bytes);
    assert_eq!(
        RecordData::new(28, 16, &mut whole),
        Ok(RecordData::AAAA([1, 2, 3, 4, 5, 6, 7, 8, 9, 10, 11, 12, 13, 14, 15, 16]))
    );
    assert_eq!(whole.position(), 16);
    let name = [1, b'a', 0, 0];
    let mut buffer = DnsPacketBuffer::new(&name);
    assert_eq!(RecordData::new(5, 4, &mut buffer), Err(DnsError::MalformedPacket));
    assert_eq!(buffer.position(), 0);
    assert_eq!(RecordData::new(5, 3, &mut buffer), Ok(RecordData::CNAME("a".to_string())));
    assert_eq!(buffer.position(), 3);
}

#[test]
fn records_and_questions_are_read_and_written() {
    let record = Record {
        cname: "a.b".to_string(),
        class: 1,
        ttl: 0x01020304,
        data: RecordData::A([9, 8, 7, 6]),
    };
    let bytes = record.to_bytes().unwrap();
    assert_eq!(bytes, vec![1, b'a', 1, b'b', 0, 0, 1, 0, 1, 1, 2, 3, 4, 0, 4, 9, 8, 7, 6]);
    let mut buffer = DnsPacketBuffer::new(&bytes);
    assert_eq!(Record::new(&mut buffer), Ok(record.clone()));
    assert_eq!(buffer.position(), bytes.len());
    assert_eq!(record.copy(), record);
    assert_eq!(record.clone().serialize(), Ok(bytes.clone()));
    let mut cut = DnsPacketBuffer::new(&bytes[..bytes.len() - 1]);
    assert_eq!(Record::new(&mut cut), Err(DnsError::MalformedPacket));
    assert_eq!(cut.position(), 0);
    let question = Question { cname: "a.b".to_string(), rr_type: 28, class: 1 };
    let bytes = question.to_bytes().unwrap();
    assert_eq!(bytes, vec![1, b'a', 1, b'b', 0, 0, 28, 0, 1]);
    let mut buffer = DnsPacketBuffer::new(&bytes);
    assert_eq!(Question::read(&mut buffer), Ok(question.copy()));
    assert_eq!(question.clone().serialize(), Ok(bytes.clone()));
    let mut cut = DnsPacketBuffer::new(&bytes[..bytes.len() - 1]);
    assert!(Question::read(&mut cut).is_err());
    assert_eq!(cut.position(), 0);
}

#[test]
fn questions_are_equal_without_regard_to_case() {
    let lower = Question { cname: "example.com".to_string(), rr_type: 1, class: 1 };
    let upper = Question { cname: "Example.COM".to_string(), rr_type: 1, class: 1 };
    let other_type = Question { cname: "example.com".to_string(), rr_type: 28, class: 1 };
    let other_class = Question { cname: "example.com".to_string(), rr_type: 1, class: 3 };
    let other_name = Question { cname: "example.org".to_string(), rr_type: 1, class: 1 };
    assert!(lower.same_as(&upper));
    assert!(lower == upper);
    assert!(!lower.same_as(&other_type));
    assert!(!lower.same_as(&other_class));
    assert!(lower != other_name);
}
