use dns_filter::config::Config;
use dns_filter::handler::{
    datagram, respond, RequestEvent, RequestState, REQUEST_DEADLINE_MS, SINK_TTL,
    UDP_LIMIT, UDP_LIMIT_EXTENDED,
};
use dns_filter::dns::{DnsPacket, Record, RecordData};
use dns_filter::error::DnsError;

#[test]
fn the_defaults_are_what_the_options_say() {
    let config = Config::default();
    assert_eq!(config.bind_address, "127.0.0.1");
    assert_eq!(config.dns_port, 5300);
    assert_eq!(config.tls_port, 8530);
    assert_eq!(config.upstream_host, "1.1.1.1");
    assert_eq!(config.upstream_port, 853);
    assert_eq!(config.blocklist_path, "./black.list");
    assert_eq!(config.vendor_path, "./vendor.list");
    assert_eq!(config.default_ttl_seconds, 60);
    assert_eq!(config.request_deadline_ms, 5000);
    assert_eq!(config.default_ttl_seconds, SINK_TTL);
    assert_eq!(config.request_deadline_ms, REQUEST_DEADLINE_MS);
    assert_eq!(config.clone(), config);
}

#[test]
fn a_request_goes_through_its_states() {
    let s = RequestState::Received;
    assert!(!s.is_final());
    let s = s.step(RequestEvent::Decoded).unwrap();
    assert_eq!(s, RequestState::Classified);
    let blocked = s.step(RequestEvent::FoundBlocked).unwrap();
    assert_eq!(blocked, RequestState::Blocked);
    assert_eq!(blocked.step(RequestEvent::NextQuestion), Some(RequestState::Classified));
    assert_eq!(blocked.step(RequestEvent::Replied), Some(RequestState::Responded));
    let hit = s.step(RequestEvent::FoundCached).unwrap();
    assert_eq!(hit, RequestState::CacheHit);
    assert_eq!(hit.step(RequestEvent::Replied), Some(RequestState::Responded));
    let waiting = s.step(RequestEvent::Missed).unwrap();
    assert_eq!(waiting, RequestState::AwaitingUpstream);
    assert!(waiting.may_suspend());
    assert_eq!(waiting.step(RequestEvent::Answered), Some(RequestState::Classified));
    assert_eq!(waiting.step(RequestEvent::UpstreamFailed), Some(RequestState::Failed));
    assert_eq!(waiting.step(RequestEvent::DeadlinePassed), Some(RequestState::Failed));
    assert_eq!(waiting.step(RequestEvent::Replied), None);
    assert_eq!(s.step(RequestEvent::Replied), Some(RequestState::Responded));
    assert_eq!(RequestState::Received.step(RequestEvent::Undecodable), Some(RequestState::Failed));
    assert_eq!(RequestState::Received.step(RequestEvent::Missed), None);
}

#[test]
fn only_a_request_that_waits_upstream_may_suspend_and_final_states_stay() {
    let states = [
        RequestState::Received,
        RequestState::Classified,
        RequestState::Blocked,
        RequestState::CacheHit,
        RequestState::AwaitingUpstream,
        RequestState::Responded,
        RequestState::Failed,
    ];
    let events = [
        RequestEvent::Decoded,
        RequestEvent::Undecodable,
        RequestEvent::FoundBlocked,
        RequestEvent::FoundCached,
        RequestEvent::Missed,
        RequestEvent::Answered,
        RequestEvent::UpstreamFailed,
        RequestEvent::DeadlinePassed,
        RequestEvent::NextQuestion,
        RequestEvent::Replied,
    ];
    for s in states.iter() {
        assert_eq!(s.may_suspend(), *s == RequestState::AwaitingUpstream);
        assert_eq!(s.is_final(), *s == RequestState::Responded || *s == RequestState::Failed);
        for e in events.iter() {
            if s.is_final() {
                assert_eq!(s.step(*e), None);
            }
        }
    }
}

#[test]
fn a_reply_that_does_not_fit_a_datagram_is_cut_to_its_questions() {
    let mut query = vec![0x12, 0x34, 0x01, 0x00, 0x00, 0x01, 0x00, 0x00, 0x00, 0x00, 0x00, 0x00];
    query.extend_from_slice(&[1, b'a', 0, 0, 16, 0, 1]);
    let request = DnsPacket::decode(&query).unwrap();
    let small = respond(
        &request,
        vec![Record { cname: "a".to_string(), class: 1, ttl: 1, data: RecordData::UNKNOWN(16, vec![7; 100]) }],
        0,
        false,
    )
    .unwrap();
    let bytes = datagram(&small, UDP_LIMIT).unwrap();
    assert_eq!(bytes, small.encode().unwrap());
    assert_eq!(datagram(&small, bytes.len()), Ok(bytes.clone()));
    let cut = DnsPacket::decode(&datagram(&small, bytes.len() - 1).unwrap()).unwrap();
    assert!(cut.header.flags.truncated);
    assert!(cut.header.flags.response);
    assert_eq!(cut.header.transaction_id, 0x1234);
    assert_eq!(cut.header.questions, 1);
    assert_eq!(cut.header.answer_rrs, 0);
    assert_eq!(cut.questions, request.questions);
    assert!(cut.records.is_empty());
    let big = respond(
        &request,
        vec![Record { cname: "a".to_string(), class: 1, ttl: 1, data: RecordData::UNKNOWN(16, vec![7; 600]) }],
        0,
        false,
    )
    .unwrap();
    assert!(DnsPacket::decode(&datagram(&big, UDP_LIMIT).unwrap()).unwrap().header.flags.truncated);
    assert_eq!(datagram(&big, UDP_LIMIT_EXTENDED), big.encode());
    let mut broken = big.clone();
    broken.header.answer_rrs = 0;
    assert_eq!(datagram(&broken, UDP_LIMIT), Err(DnsError::MalformedPacket));
}
