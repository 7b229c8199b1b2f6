use dns_resolver::cache::{CachedAnswerKey, DNSCache};
use dns_resolver::domain_name::DomainName;
use dns_resolver::resource_record::DNSRecord;
use dns_resolver::rr_types::RRType;

const SECOND: u128 = 1_000_000_000;

fn name(text: &str) -> DomainName {
    DomainName::new(text.to_string())
}

fn address(owner: &str, ttl: u32, last: u8) -> DNSRecord {
    let mut bytes = Vec::new();
    name(owner).encode(&mut bytes).unwrap();
    bytes.extend([0, 1, 0, 1]);
    bytes.extend(ttl.to_be_bytes());
    bytes.extend([0, 4, 192, 0, 2, last]);
    DNSRecord::decode(&bytes, 0).unwrap().0
}

fn addresses(answer: &[DNSRecord]) -> Vec<String> {
    answer.iter().map(|record| record.parsed_data().clone().unwrap()).collect()
}

#[test]
fn an_answer_that_was_stored_is_returned() {
    let mut cache = DNSCache::new(4);
    assert_eq!(cache.len(), 0);
    assert_eq!(cache.max_size(), 4);
    let records = vec![address("example.com", 60, 1), address("example.com", 60, 2)];
    cache.insert_at(&name("example.com"), &RRType::A, records, 10 * SECOND);
    assert_eq!(cache.len(), 1);
    let answer = cache.get_at(&name("example.com"), &RRType::A, 10 * SECOND).unwrap();
    assert_eq!(addresses(&answer.data()), vec!["192.0.2.1", "192.0.2.2"]);
    assert_eq!(answer.inserted_at(), 10 * SECOND);
    assert_eq!(answer.last_read(), 10 * SECOND);
    assert!(cache.get_at(&name("example.org"), &RRType::A, 10 * SECOND).is_none());
    assert!(cache.get_at(&name("example.com"), &RRType::NS, 10 * SECOND).is_none());
}

#[test]
fn names_are_found_whatever_their_case() {
    let mut cache = DNSCache::new(4);
    cache.insert_at(&name("Example.COM"), &RRType::A, vec![address("a", 60, 1)], 0);
    assert!(cache.get_at(&name("example.com"), &RRType::A, 0).is_some());
    cache.insert_at(&name("EXAMPLE.com"), &RRType::A, vec![address("a", 60, 9)], 0);
    assert_eq!(cache.len(), 1);
    let answer = cache.get_at(&name("example.Com"), &RRType::A, 0).unwrap();
    assert_eq!(addresses(&answer.data()), vec!["192.0.2.1"]);
    let key = CachedAnswerKey::new(&name("A.b"), &RRType::A);
    assert!(key.same(&CachedAnswerKey::new(&name("a.B"), &RRType::A)));
    assert!(!key.same(&CachedAnswerKey::new(&name("a.B"), &RRType::NS)));
    assert!(key.clone().same(&key));
}

#[test]
fn an_answer_expires_after_its_shortest_time_to_live() {
    let mut cache = DNSCache::new(4);
    let records = vec![address("example.com", 60, 1), address("example.com", 5, 2)];
    cache.insert_at(&name("example.com"), &RRType::A, records, 100 * SECOND);
    let fresh = cache.get_at(&name("example.com"), &RRType::A, 105 * SECOND).unwrap();
    assert!(!fresh.expired_at(105 * SECOND));
    assert!(fresh.expired_at(105 * SECOND + 1));
    assert!(fresh.expired_at(106 * SECOND));
    assert!(!fresh.expired_at(3 * SECOND));
    assert_eq!(cache.len(), 1);
    assert!(cache.get_at(&name("example.com"), &RRType::A, 105 * SECOND + 1).is_none());
    assert_eq!(cache.len(), 0);
    assert!(cache.get_at(&name("example.com"), &RRType::A, 100 * SECOND).is_none());
}

#[test]
fn storing_over_a_live_answer_changes_nothing() {
    let mut cache = DNSCache::new(4);
    cache.insert_at(&name("example.com"), &RRType::A, vec![address("a", 60, 1)], 0);
    cache.insert_at(&name("example.com"), &RRType::A, vec![address("a", 60, 2)], 30 * SECOND);
    let answer = cache.get_at(&name("example.com"), &RRType::A, 30 * SECOND).unwrap();
    assert_eq!(addresses(&answer.data()), vec!["192.0.2.1"]);
    assert_eq!(answer.inserted_at(), 0);
    assert_eq!(cache.len(), 1);
}

#[test]
fn storing_over_an_expired_answer_replaces_it() {
    let mut cache = DNSCache::new(4);
    cache.insert_at(&name("example.com"), &RRType::A, vec![address("a", 60, 1)], 0);
    cache.insert_at(&name("example.com"), &RRType::A, vec![address("a", 60, 2)], 61 * SECOND);
    let answer = cache.get_at(&name("example.com"), &RRType::A, 61 * SECOND).unwrap();
    assert_eq!(addresses(&answer.data()), vec!["192.0.2.2"]);
    assert_eq!(answer.inserted_at(), 61 * SECOND);
    assert_eq!(cache.len(), 1);
}

#[test]
fn storing_no_records_changes_nothing() {
    let mut cache = DNSCache::new(4);
    cache.insert_at(&name("example.com"), &RRType::A, vec![], 0);
    assert_eq!(cache.len(), 0);
    assert!(cache.get_at(&name("example.com"), &RRType::A, 0).is_none());
}

#[test]
fn the_answer_read_least_recently_is_evicted() {
    let mut cache = DNSCache::new(2);
    cache.insert_at(&name("k1"), &RRType::A, vec![address("k1", 60, 1)], 1 * SECOND);
    cache.insert_at(&name("k2"), &RRType::A, vec![address("k2", 60, 2)], 2 * SECOND);
    assert!(cache.get_at(&name("k1"), &RRType::A, 3 * SECOND).is_some());
    cache.insert_at(&name("k3"), &RRType::A, vec![address("k3", 60, 3)], 4 * SECOND);
    assert_eq!(cache.len(), 2);
    assert!(cache.get_at(&name("k2"), &RRType::A, 5 * SECOND).is_none());
    assert!(cache.get_at(&name("k1"), &RRType::A, 5 * SECOND).is_some());
    assert!(cache.get_at(&name("k3"), &RRType::A, 5 * SECOND).is_some());
}

#[test]
fn expired_answers_are_evicted_first() {
    let mut cache = DNSCache::new(2);
    cache.insert_at(&name("k1"), &RRType::A, vec![address("k1", 1, 1)], 0);
    cache.insert_at(&name("k2"), &RRType::A, vec![address("k2", 60, 2)], 0);
    cache.insert_at(&name("k3"), &RRType::A, vec![address("k3", 60, 3)], 2 * SECOND);
    assert_eq!(cache.len(), 2);
    assert!(cache.get_at(&name("k1"), &RRType::A, 2 * SECOND).is_none());
    assert!(cache.get_at(&name("k2"), &RRType::A, 2 * SECOND).is_some());
    assert!(cache.get_at(&name("k3"), &RRType::A, 2 * SECOND).is_some());
}

#[test]
fn one_key_too_many_evicts_the_oldest() {
    let capacity = 5usize;
    let mut cache = DNSCache::new(capacity);
    for i in 0..=capacity {
        let owner = format!("k{i}");
        cache.insert_at(&name(&owner), &RRType::A, vec![address(&owner, 600, i as u8)], i as u128);
        assert!(cache.len() <= capacity);
    }
    assert_eq!(cache.len(), capacity);
    assert!(cache.get_at(&name("k0"), &RRType::A, 10).is_none());
    for i in 1..=capacity {
        assert!(cache.get_at(&name(&format!("k{i}")), &RRType::A, 10).is_some());
    }
}

#[test]
fn the_cache_never_holds_more_than_its_capacity() {
    let mut cache = DNSCache::new(3);
    for round in 0..40u128 {
        let owner = format!("n{}", round % 7);
        cache.insert_at(&name(&owner), &RRType::A, vec![address(&owner, 3, 1)], round * SECOND);
        assert!(cache.len() <= 3);
        cache.get_at(&name(&format!("n{}", (round * 3) % 7)), &RRType::A, round * SECOND);
        assert!(cache.len() <= 3);
    }
    let mut none = DNSCache::new(0);
    none.insert_at(&name("a"), &RRType::A, vec![address("a", 60, 1)], 0);
    assert_eq!(none.len(), 0);
    assert!(none.get_at(&name("a"), &RRType::A, 0).is_none());
    none.evict_at(0);
    none.remove_least_recently_used();
    assert_eq!(none.len(), 0);
}

#[test]
fn reading_moves_the_last_read_forward_only() {
    let mut cache = DNSCache::new(2);
    cache.insert_at(&name("a"), &RRType::A, vec![address("a", 600, 1)], 5 * SECOND);
    assert_eq!(cache.get_at(&name("a"), &RRType::A, 9 * SECOND).unwrap().last_read(), 9 * SECOND);
    assert_eq!(cache.get_at(&name("a"), &RRType::A, 7 * SECOND).unwrap().last_read(), 9 * SECOND);
    assert_eq!(cache.get_at(&name("a"), &RRType::A, 1 * SECOND).unwrap().last_read(), 9 * SECOND);
    assert_eq!(cache.get_at(&name("a"), &RRType::A, 9 * SECOND).unwrap().inserted_at(), 5 * SECOND);
}

#[test]
fn eviction_drops_what_expired_and_then_makes_room() {
    let mut cache = DNSCache::new(3);
    cache.insert_at(&name("a"), &RRType::A, vec![address("a", 1, 1)], 0);
    cache.insert_at(&name("b"), &RRType::A, vec![address("b", 1, 2)], 0);
    cache.insert_at(&name("c"), &RRType::A, vec![address("c", 60, 3)], 0);
    cache.evict_at(5 * SECOND);
    assert_eq!(cache.len(), 1);
    assert!(cache.get_at(&name("c"), &RRType::A, 5 * SECOND).is_some());

    let mut full = DNSCache::new(2);
    full.insert_at(&name("a"), &RRType::A, vec![address("a", 60, 1)], 1);
    full.insert_at(&name("b"), &RRType::A, vec![address("b", 60, 2)], 2);
    full.evict_at(3);
    assert_eq!(full.len(), 1);
    assert!(full.get_at(&name("b"), &RRType::A, 3).is_some());
    full.remove_least_recently_used();
    assert_eq!(full.len(), 0);
    full.remove_least_recently_used();
    assert_eq!(full.len(), 0);
}

#[test]
fn removing_in_the_middle_keeps_the_order_of_reads() {
    let mut cache = DNSCache::new(4);
    for (i, owner) in ["a", "b", "c", "d"].iter().enumerate() {
        cache.insert_at(&name(owner), &RRType::A, vec![address(owner, 10, 1)], i as u128 * SECOND);
    }
    cache.insert_at(&name("a"), &RRType::A, vec![address("a", 1000, 2)], 11 * SECOND);
    assert!(cache.get_at(&name("b"), &RRType::A, 12 * SECOND).is_none());
    assert_eq!(cache.len(), 3);
    cache.remove_least_recently_used();
    assert!(cache.get_at(&name("c"), &RRType::A, 12 * SECOND).is_none());
    cache.remove_least_recently_used();
    assert_eq!(cache.len(), 1);
    assert!(cache.get_at(&name("a"), &RRType::A, 12 * SECOND).is_some());
}

#[test]
fn the_clock_of_the_cache_runs_forward() {
    let mut cache = DNSCache::new(2);
    let before = cache.now();
    cache.insert(&name("example.com"), &RRType::A, vec![address("example.com", 60, 1)]);
    let answer = cache.get(&name("example.com"), &RRType::A).unwrap();
    let after = cache.now();
    assert!(before <= answer.inserted_at());
    assert!(answer.inserted_at() <= answer.last_read());
    assert!(answer.last_read() <= after);
    assert!(!answer.expired());
    assert!(!answer.clone().expired());
    cache.evict();
    assert_eq!(cache.len(), 1);
    cache.insert(&name("example.org"), &RRType::A, vec![address("example.org", 60, 1)]);
    cache.insert(&name("example.net"), &RRType::A, vec![address("example.net", 60, 1)]);
    assert_eq!(cache.len(), 2);
    assert!(cache.get(&name("example.com"), &RRType::A).is_none());
}
