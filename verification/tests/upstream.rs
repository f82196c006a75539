use dns_filter::dns::DnsPacket;
use dns_filter::error::DnsError;
use dns_filter::upstream::{
    answers_query, backoff_ms, exhausted, next_attempt, Attempt, IdAllocator,
};

#[test]
fn the_backoff_doubles_up_to_ten_seconds() {
    assert_eq!(backoff_ms(0), 0);
    assert_eq!(backoff_ms(1), 100);
    assert_eq!(backoff_ms(2), 200);
    assert_eq!(backoff_ms(3), 400);
    assert_eq!(backoff_ms(4), 800);
    assert_eq!(backoff_ms(5), 1_600);
    assert_eq!(backoff_ms(6), 3_200);
    assert_eq!(backoff_ms(7), 6_400);
    assert_eq!(backoff_ms(8), 10_000);
    assert_eq!(backoff_ms(9), 10_000);
    assert_eq!(backoff_ms(1_000), 10_000);
}

#[test]
fn a_request_tries_three_times() {
    assert_eq!(next_attempt(0), Attempt::Send { wait_ms: 0 });
    assert_eq!(next_attempt(1), Attempt::Send { wait_ms: 100 });
    assert_eq!(next_attempt(2), Attempt::Send { wait_ms: 200 });
    assert_eq!(next_attempt(3), Attempt::GiveUp);
    assert_eq!(next_attempt(u32::MAX), Attempt::GiveUp);
    assert_eq!(exhausted(0), None);
    assert_eq!(exhausted(2), None);
    assert_eq!(exhausted(3), Some(DnsError::UpstreamUnavailable));
}

#[test]
fn numbers_count_up_and_wrap() {
    let mut ids = IdAllocator::new(0xfffe);
    assert_eq!(ids.outstanding_count(), 0);
    assert_eq!(ids.allocate(), Some(0xfffe));
    assert_eq!(ids.allocate(), Some(0xffff));
    assert_eq!(ids.allocate(), Some(0));
    assert_eq!(ids.allocate(), Some(1));
    assert_eq!(ids.outstanding_count(), 4);
    assert!(ids.is_outstanding(0xffff));
    assert!(ids.is_outstanding(0));
    assert!(!ids.is_outstanding(2));
}

#[test]
fn a_number_in_use_is_passed_over() {
    let mut ids = IdAllocator::new(10);
    assert_eq!(ids.allocate(), Some(10));
    assert_eq!(ids.allocate(), Some(11));
    assert_eq!(ids.allocate(), Some(12));
    ids.release(11);
    assert!(!ids.is_outstanding(11));
    assert_eq!(ids.outstanding_count(), 2);
    ids.release(11);
    ids.release(500);
    assert_eq!(ids.outstanding_count(), 2);
    assert_eq!(ids.allocate(), Some(13));
    let mut wrapped = IdAllocator::new(0xffff);
    assert_eq!(wrapped.allocate(), Some(0xffff));
    assert_eq!(wrapped.allocate(), Some(0));
    wrapped.release(0xffff);
    let mut k = 1u32;
    while k < 0xffff {
        assert_eq!(wrapped.allocate(), Some(k as u16));
        wrapped.release(k as u16);
        k += 1;
    }
    assert_eq!(wrapped.allocate(), Some(0xffff));
    assert_eq!(wrapped.allocate(), Some(1));
    assert_eq!(wrapped.outstanding_count(), 3);
}

#[test]
fn an_answer_carries_the_number_of_its_query() {
    let mut bytes = vec![0x12, 0x34, 0x81, 0x80, 0, 0, 0, 0, 0, 0, 0, 0];
    let response = DnsPacket::decode(&bytes).unwrap();
    assert!(answers_query(&response, 0x1234));
    assert!(!answers_query(&response, 0x1235));
    bytes[2] = 0x01;
    let query = DnsPacket::decode(&bytes).unwrap();
    assert!(!answers_query(&query, 0x1234));
}
