use dns_resolver::cache::DNSCache;
use dns_resolver::domain_name::DomainName;
use dns_resolver::error::DNSResolverError;
use dns_resolver::message::DNSMessage;
use dns_resolver::query::{build_query, DNSHeader, DNSQuestion, QR};
use dns_resolver::resource_record::DNSRecord;
use dns_resolver::rr_types::RRType;
use dns_resolver::server::{
    answer_from_cache, build_failure, build_reply, read_request, reply_after_resolution,
};
use dns_resolver::text::{decimal_text, join_texts, same_text};

const SECOND: u128 = 1_000_000_000;

fn address(owner: &str, last: u8) -> DNSRecord {
    let mut bytes = Vec::new();
    DomainName::new(owner.to_string()).encode(&mut bytes).unwrap();
    bytes.extend([0, 1, 0, 1, 0, 0, 0, 60, 0, 4, 192, 0, 2, last]);
    DNSRecord::decode(&bytes, 0).unwrap().0
}

fn request(recursion_desired: bool) -> (DNSHeader, DNSQuestion) {
    let mut datagram = build_query("example.com".to_string(), RRType::A).unwrap();
    datagram[0] = 0x12;
    datagram[1] = 0x34;
    if recursion_desired {
        datagram[2] |= 0x01;
    }
    datagram.extend([0xFF, 0xFF]);
    read_request(&datagram).unwrap()
}

#[test]
fn a_request_is_its_header_and_first_question() {
    let (header, question) = request(true);
    assert_eq!(header.id(), 0x1234);
    assert!(header.recursion_desired());
    assert!(matches!(header.qr(), QR::Query));
    assert_eq!(question.name().0, "example.com");
    assert_eq!(*question.q_type(), RRType::A);
    assert!(matches!(read_request(&[0u8; 5]), Err(DNSResolverError::Decode(_, _))));
    assert!(matches!(read_request(&[0u8; 13]), Err(DNSResolverError::Parse)));
}

#[test]
fn a_reply_copies_the_identifier_and_recursion_desired() {
    let (header, question) = request(true);
    let records = vec![address("example.com", 1), address("example.com", 2)];
    let mut reply = build_reply(&header, question, records).unwrap();
    assert_eq!(reply.header().id(), 0x1234);
    assert_eq!(reply.header().flags(), 0x8180);
    assert_eq!(reply.header().num_questions(), 1);
    assert_eq!(reply.header().num_answers(), 2);
    assert_eq!(reply.answers().len(), 2);
    assert!(reply.counts_match());
    let encoded = reply.encode().unwrap();
    let decoded = DNSMessage::decode(&encoded).unwrap();
    assert_eq!(
        decoded.answers_data(&RRType::A),
        vec!["192.0.2.1".to_string(), "192.0.2.2".to_string()]
    );

    let (plain, question) = request(false);
    let reply = build_reply(&plain, question, vec![]).unwrap();
    assert_eq!(reply.header().flags(), 0x8080);
}

#[test]
fn a_failure_carries_the_server_failure_code() {
    let (header, question) = request(true);
    let reply = build_failure(&header, question);
    assert_eq!(reply.header().id(), 0x1234);
    assert_eq!(reply.header().flags(), 0x8182);
    assert_eq!(reply.header().num_answers(), 0);
    let encoded = reply.encode().unwrap();
    assert_eq!(&encoded[..12], &[0x12, 0x34, 0x81, 0x82, 0, 1, 0, 0, 0, 0, 0, 0]);
}

#[test]
fn a_stored_answer_is_served_until_it_expires() {
    let mut cache = DNSCache::new(8);
    let (header, question) = request(false);
    assert!(answer_from_cache(&mut cache, &header, &question, 0).is_none());
    cache.insert_at(question.name(), question.q_type(), vec![address("example.com", 7)], 0);
    let mut reply = answer_from_cache(&mut cache, &header, &question, 60 * SECOND).unwrap();
    assert_eq!(reply.header().id(), 0x1234);
    assert_eq!(reply.header().flags(), 0x8080);
    assert_eq!(reply.answers().len(), 1);
    assert_eq!(reply.answers_data(&RRType::A), vec!["192.0.2.7".to_string()]);
    assert!(answer_from_cache(&mut cache, &header, &question, 61 * SECOND).is_none());
    assert_eq!(cache.len(), 0);
}

#[test]
fn a_resolved_answer_is_stored_and_renumbered() {
    let mut cache = DNSCache::new(8);
    let (header, question) = request(false);
    let mut response = vec![0xB0, 0xB0, 0x80, 0x00, 0, 1, 0, 1, 0, 0, 0, 0];
    response.extend(&build_query("example.com".to_string(), RRType::A).unwrap()[12..]);
    response.extend([0xC0, 0x0C, 0, 1, 0, 1, 0, 0, 0, 30, 0, 4, 93, 184, 216, 34]);
    let message = DNSMessage::decode(&response).unwrap();
    let reply = reply_after_resolution(&mut cache, &header, &question, message, 5 * SECOND);
    assert_eq!(reply.header().id(), 0x1234);
    assert_eq!(reply.header().flags(), 0x8000);
    assert_eq!(reply.answers_data(&RRType::A), vec!["93.184.216.34".to_string()]);
    let served = answer_from_cache(&mut cache, &header, &question, 6 * SECOND).unwrap();
    assert_eq!(served.answers_data(&RRType::A), vec!["93.184.216.34".to_string()]);
    assert!(answer_from_cache(&mut cache, &header, &question, 36 * SECOND).is_none());
}

#[test]
fn numbers_are_written_in_decimal() {
    assert_eq!(decimal_text(0), "0");
    assert_eq!(decimal_text(9), "9");
    assert_eq!(decimal_text(10), "10");
    assert_eq!(decimal_text(255), "255");
    assert_eq!(decimal_text(65535), "65535");
    assert_eq!(decimal_text(u64::MAX), "18446744073709551615");
}

#[test]
fn texts_are_joined_and_compared() {
    let parts = vec!["a".to_string(), "".to_string(), "bc".to_string()];
    assert_eq!(join_texts(&parts, "."), "a..bc");
    assert_eq!(join_texts(&parts[..1].to_vec(), ", "), "a");
    assert_eq!(join_texts(&Vec::new(), "."), "");
    assert!(same_text("CNAME", "CNAME"));
    assert!(!same_text("CNAME", "cname"));
    assert!(!same_text("A", "AA"));
}
