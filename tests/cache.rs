use droute::cache::{CacheRecord, RecordStatus, RespCache, MAX_TTL};
use droute::message::{Message, Question, Record};

fn response(name: &str, ttls: &[u32], rcode: u16) -> Message {
    Message {
        id: 1,
        qr: true,
        opcode: 0,
        rd: true,
        rcode,
        queries: vec![Question { name: name.to_string(), qtype: 1, qclass: 1 }],
        answers: ttls
            .iter()
            .map(|t| Record { name: name.to_string(), rtype: 1, ttl: *t, data: vec![127, 0, 0, 1] })
            .collect(),
    }
}

fn is_alive(s: &Option<RecordStatus>) -> bool {
    matches!(s, Some(RecordStatus::Alive(_)))
}

fn is_expired(s: &Option<RecordStatus>) -> bool {
    matches!(s, Some(RecordStatus::Expired(_)))
}

#[test]
fn ttl_is_smallest_answer_ttl() {
    let rec = CacheRecord::new(response("a.com", &[300, 30, 60], 0), 1000);
    assert_eq!(rec.ttl, 30);
    assert_eq!(rec.created, 1000);
    assert!(rec.validate(1030));
    assert!(!rec.validate(1031));
    assert!(rec.validate(10));
    let rec = CacheRecord::new(response("a.com", &[], 0), 0);
    assert_eq!(rec.ttl, MAX_TTL as u64);
    assert_eq!(rec.get().answers.len(), 0);
}

#[test]
fn alive_then_expired() {
    let mut cache = RespCache::new(8);
    let tag = "up".to_string();
    let r = response("a.com", &[32], 0);
    cache.put(&tag, r, 100);
    let q = response("a.com", &[], 0);
    assert!(is_alive(&cache.get(&tag, &q, 100)));
    assert!(is_alive(&cache.get(&tag, &q, 132)));
    assert!(is_expired(&cache.get(&tag, &q, 133)));
    // Expired entries stay.
    assert!(is_expired(&cache.get(&tag, &q, 10_000)));
    match cache.get(&tag, &q, 120) {
        Some(RecordStatus::Alive(m)) => assert_eq!(m.answers[0].ttl, 32),
        _ => panic!("expected a fresh entry"),
    }
}

#[test]
fn errors_are_not_cached() {
    let mut cache = RespCache::new(8);
    let tag = "up".to_string();
    cache.put(&tag, response("a.com", &[32], 2), 0);
    assert!(cache.get(&tag, &response("a.com", &[], 0), 0).is_none());
}

#[test]
fn key_holds_tag_and_questions() {
    let mut cache = RespCache::new(8);
    cache.put(&"up".to_string(), response("a.com", &[32], 0), 0);
    assert!(cache.get(&"other".to_string(), &response("a.com", &[], 0), 0).is_none());
    assert!(cache.get(&"up".to_string(), &response("b.com", &[], 0), 0).is_none());
}

#[test]
fn least_recently_used_is_evicted() {
    let mut cache = RespCache::new(2);
    let tag = "up".to_string();
    cache.put(&tag, response("a.com", &[32], 0), 0);
    cache.put(&tag, response("b.com", &[32], 0), 0);
    assert!(cache.get(&tag, &response("a.com", &[], 0), 0).is_some());
    cache.put(&tag, response("c.com", &[32], 0), 0);
    assert!(cache.get(&tag, &response("b.com", &[], 0), 0).is_none());
    assert!(cache.get(&tag, &response("a.com", &[], 0), 0).is_some());
    assert!(cache.get(&tag, &response("c.com", &[], 0), 0).is_some());
}

#[test]
fn query_class_is_part_of_the_key() {
    let mut cache = RespCache::new(8);
    let tag = "up".to_string();
    cache.put(&tag, response("a.com", &[32], 0), 0);
    let mut other_class = response("a.com", &[], 0);
    other_class.queries[0].qclass = 3;
    assert!(cache.get(&tag, &other_class, 0).is_none());
    assert!(cache.get(&tag, &response("a.com", &[], 0), 0).is_some());
}
