use dns_filter::cache::flight::{Handover, SingleFlight, Token};
use dns_filter::cache::{expires, seconds_left, Cache};
use dns_filter::dns::{Question, Record, RecordData};

fn question(name: &str, rr_type: u16) -> Question {
    Question { cname: name.to_string(), rr_type, class: 1 }
}

fn a_record(name: &str, ttl: u32, last: u8) -> Record {
    Record { cname: name.to_string(), class: 1, ttl, data: RecordData::A([93, 184, 216, last]) }
}

#[test]
fn a_cold_cache_misses() {
    let mut cache = Cache::new();
    assert_eq!(cache.get(&question("example.com", 1), 0), None);
    assert_eq!(cache.len(), 0);
}

#[test]
fn a_hit_rewrites_the_time_to_live() {
    let mut cache = Cache::new();
    let q = question("example.com", 1);
    cache.put(&q, &vec![a_record("example.com", 300, 34)], 1_000);
    assert_eq!(cache.get(&q, 1_000), Some(vec![a_record("example.com", 300, 34)]));
    assert_eq!(cache.get(&q, 1_100), Some(vec![a_record("example.com", 299, 34)]));
    assert_eq!(cache.get(&q, 1_999), Some(vec![a_record("example.com", 299, 34)]));
    assert_eq!(cache.get(&q, 2_000), Some(vec![a_record("example.com", 299, 34)]));
    assert_eq!(cache.get(&q, 2_001), Some(vec![a_record("example.com", 298, 34)]));
    assert_eq!(cache.get(&q, 300_999), Some(vec![a_record("example.com", 0, 34)]));
    assert_eq!(cache.len(), 1);
}

#[test]
fn time_to_live_only_falls() {
    let mut cache = Cache::new();
    let q = question("example.com", 1);
    cache.put(&q, &vec![a_record("example.com", 10, 1), a_record("example.com", 20, 2)], 0);
    let mut last = vec![u32::MAX, u32::MAX];
    let mut now = 0;
    while now < 25_000 {
        match cache.get(&q, now) {
            Some(records) => {
                for r in records.iter() {
                    let slot = if r.data == RecordData::A([93, 184, 216, 1]) { 0 } else { 1 };
                    assert!(r.ttl <= last[slot]);
                    last[slot] = r.ttl;
                }
            },
            None => assert!(now >= 20_000),
        }
        now += 700;
    }
}

#[test]
fn what_has_expired_is_not_served() {
    let mut cache = Cache::new();
    let q = question("example.com", 1);
    cache.put(&q, &vec![a_record("example.com", 1, 34)], 5_000);
    assert!(cache.get(&q, 5_999).is_some());
    assert_eq!(cache.get(&q, 6_000), None);
    assert_eq!(cache.len(), 0);
    assert_eq!(cache.get(&q, 5_000), None);
    cache.put(&q, &vec![a_record("example.com", 0, 34)], 5_000);
    assert_eq!(cache.get(&q, 5_000), None);
    assert_eq!(cache.len(), 0);
}

#[test]
fn each_record_expires_by_itself() {
    let mut cache = Cache::new();
    let q = question("example.com", 1);
    cache.put(
        &q,
        &vec![a_record("example.com", 10, 1), a_record("example.com", 5, 2), a_record("example.com", 20, 3)],
        0,
    );
    assert_eq!(cache.get(&q, 4_000).map(|r| r.len()), Some(3));
    assert_eq!(
        cache.get(&q, 5_000),
        Some(vec![a_record("example.com", 5, 1), a_record("example.com", 15, 3)])
    );
    assert_eq!(cache.get(&q, 10_000), Some(vec![a_record("example.com", 10, 3)]));
    assert_eq!(cache.get(&q, 20_000), None);
}

#[test]
fn the_key_is_the_question_without_regard_to_case() {
    let mut cache = Cache::new();
    cache.put(&question("Example.COM", 1), &vec![a_record("Example.COM", 60, 34)], 0);
    let hit = cache.get(&question("example.com", 1), 0).unwrap();
    assert_eq!(hit, vec![a_record("example.com", 60, 34)]);
    assert_eq!(cache.get(&question("example.com", 28), 0), None);
    assert_eq!(cache.get(&Question { cname: "example.com".to_string(), rr_type: 1, class: 3 }, 0), None);
    assert_eq!(cache.get(&question("example.org", 1), 0), None);
    cache.put(&question("EXAMPLE.com", 1), &vec![a_record("x", 60, 1)], 0);
    assert_eq!(cache.len(), 1);
    assert_eq!(cache.get(&question("example.com", 1), 0), Some(vec![a_record("example.com", 60, 1)]));
}

#[test]
fn put_replaces_and_an_empty_answer_removes() {
    let mut cache = Cache::new();
    let q = question("example.com", 1);
    let other = question("example.org", 1);
    cache.put(&q, &vec![a_record("example.com", 60, 1)], 0);
    cache.put(&other, &vec![a_record("example.org", 60, 9)], 0);
    cache.put(&q, &vec![a_record("example.com", 30, 2), a_record("example.com", 30, 3)], 1_000);
    assert_eq!(
        cache.get(&q, 1_000),
        Some(vec![a_record("example.com", 30, 2), a_record("example.com", 30, 3)])
    );
    assert_eq!(cache.get(&other, 1_000), Some(vec![a_record("example.org", 59, 9)]));
    cache.put(&q, &vec![], 1_000);
    assert_eq!(cache.get(&q, 1_000), None);
    assert_eq!(cache.len(), 1);
    assert_eq!(cache.get(&other, 1_000), Some(vec![a_record("example.org", 59, 9)]));
}

#[test]
fn evict_drops_one_question() {
    let mut cache = Cache::new();
    let q = question("example.com", 1);
    let other = question("example.org", 1);
    cache.put(&q, &vec![a_record("example.com", 60, 1)], 0);
    cache.put(&other, &vec![a_record("example.org", 60, 9)], 0);
    cache.evict(&question("EXAMPLE.com", 1));
    assert_eq!(cache.len(), 1);
    assert_eq!(cache.get(&q, 0), None);
    assert_eq!(cache.get(&other, 0), Some(vec![a_record("example.org", 60, 9)]));
    cache.evict(&q);
    assert_eq!(cache.len(), 1);
}

#[test]
fn other_data_is_kept_as_it_came() {
    let mut cache = Cache::new();
    let q = question("example.com", 16);
    let records = vec![
        Record { cname: "example.com".to_string(), class: 1, ttl: 9, data: RecordData::UNKNOWN(16, vec![1, 2, 3]) },
        Record { cname: "example.com".to_string(), class: 1, ttl: 9, data: RecordData::CNAME("a.b".to_string()) },
        Record { cname: "example.com".to_string(), class: 1, ttl: 9, data: RecordData::AAAA([7; 16]) },
    ];
    cache.put(&q, &records, 0);
    assert_eq!(cache.get(&q, 0), Some(records));
}

#[test]
fn the_clock_arithmetic_is_exact() {
    assert_eq!(expires(1_000, 300), 301_000);
    assert_eq!(expires(0, 0), 0);
    assert_eq!(expires(0, u32::MAX), 4_294_967_295_000);
    assert_eq!(expires(u64::MAX - 999, 1), u64::MAX);
    assert_eq!(expires(u64::MAX - 1_000, 1), u64::MAX);
    assert_eq!(expires(u64::MAX - 1_001, 1), u64::MAX - 1);
    assert_eq!(expires(u64::MAX, 0), u64::MAX);
    assert_eq!(seconds_left(301_000, 1_000), 300);
    assert_eq!(seconds_left(301_000, 1_100), 299);
    assert_eq!(seconds_left(301_000, 301_000), 0);
    assert_eq!(seconds_left(301_000, 400_000), 0);
    assert_eq!(seconds_left(999, 0), 0);
    assert_eq!(seconds_left(u64::MAX, 0), u32::MAX);
    assert_eq!(seconds_left(4_294_967_295_999, 0), u32::MAX);
    assert_eq!(seconds_left(4_294_967_294_999, 0), u32::MAX - 1);
}

#[test]
fn of_many_callers_one_leads() {
    let mut flights = SingleFlight::new();
    let q = question("example.com", 1);
    let mut leaders = 0;
    let mut followers = 0;
    let mut i = 0;
    while i < 10 {
        let asked = if i % 2 == 0 { question("example.com", 1) } else { question("EXAMPLE.COM", 1) };
        match flights.begin_resolve(&asked) {
            Token::Leader => leaders += 1,
            Token::Follower => followers += 1,
        }
        i += 1;
    }
    assert_eq!(leaders, 1);
    assert_eq!(followers, 9);
    assert_eq!(flights.begin_resolve(&question("example.org", 1)), Token::Leader);
    assert_eq!(flights.begin_resolve(&question("example.com", 28)), Token::Leader);
    assert_eq!(flights.complete(&q), 9);
    assert_eq!(flights.complete(&q), 0);
    assert_eq!(flights.begin_resolve(&q), Token::Leader);
    assert_eq!(flights.complete(&question("example.org", 1)), 0);
}

#[test]
fn a_leader_that_gives_up_hands_over() {
    let mut flights = SingleFlight::new();
    let q = question("example.com", 1);
    assert_eq!(flights.cancel(&q), Handover::NotInFlight);
    assert_eq!(flights.begin_resolve(&q), Token::Leader);
    assert_eq!(flights.begin_resolve(&q), Token::Follower);
    assert_eq!(flights.begin_resolve(&q), Token::Follower);
    assert_eq!(flights.cancel(&q), Handover::Promoted);
    assert_eq!(flights.begin_resolve(&q), Token::Follower);
    assert_eq!(flights.cancel(&q), Handover::Promoted);
    assert_eq!(flights.cancel(&q), Handover::Promoted);
    assert_eq!(flights.cancel(&q), Handover::Cleared);
    assert_eq!(flights.cancel(&q), Handover::NotInFlight);
    assert_eq!(flights.begin_resolve(&q), Token::Leader);
}

#[test]
fn a_follower_that_leaves_is_not_counted() {
    let mut flights = SingleFlight::new();
    let q = question("example.com", 1);
    flights.leave(&q);
    assert_eq!(flights.begin_resolve(&q), Token::Leader);
    flights.leave(&q);
    assert_eq!(flights.begin_resolve(&q), Token::Follower);
    assert_eq!(flights.begin_resolve(&q), Token::Follower);
    flights.leave(&q);
    assert_eq!(flights.complete(&q), 1);
    flights.leave(&q);
    assert_eq!(flights.begin_resolve(&q), Token::Leader);
}
