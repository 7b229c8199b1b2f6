use dns_resolver::domain_name::DomainName;
use dns_resolver::error::DNSResolverError;
use dns_resolver::message::DNSMessage;
use dns_resolver::query::build_query;
use dns_resolver::resolver::{decide, Decision, Resolution, Step, MAX_SUB_RESOLUTIONS};
use dns_resolver::rr_types::RRType;

fn name_bytes(name: &str) -> Vec<u8> {
    let mut bytes = Vec::new();
    DomainName::new(name.to_string()).encode(&mut bytes).unwrap();
    bytes
}

fn record(owner: &str, code: u16, data: &[u8]) -> Vec<u8> {
    let mut bytes = name_bytes(owner);
    bytes.extend(code.to_be_bytes());
    bytes.extend([0, 1, 0, 0, 0, 60]);
    bytes.extend((data.len() as u16).to_be_bytes());
    bytes.extend(data);
    bytes
}

fn response(
    question: &str,
    code: u16,
    answers: &[Vec<u8>],
    authorities: &[Vec<u8>],
    additionals: &[Vec<u8>],
) -> Vec<u8> {
    let mut bytes = vec![0xB0, 0xB0, 0x80, 0x00, 0, 1];
    for section in [answers, authorities, additionals] {
        bytes.extend((section.len() as u16).to_be_bytes());
    }
    bytes.extend(name_bytes(question));
    bytes.extend(code.to_be_bytes());
    bytes.extend([0, 1]);
    for section in [answers, authorities, additionals] {
        for entry in section {
            bytes.extend(entry);
        }
    }
    bytes
}

fn asked(step: &Step) -> (String, Vec<u8>) {
    match step {
        Step::Query { nameserver, query } => (nameserver.clone(), query.clone()),
        other => panic!("expected a query, got {other:?}"),
    }
}

#[test]
fn a_lookup_starts_at_the_root_server() {
    let (resolution, step) = Resolution::start("www.example.com".to_string(), &RRType::A);
    let (nameserver, query) = asked(&step);
    assert_eq!(nameserver, "198.41.0.4");
    assert_eq!(query, build_query("www.example.com".to_string(), RRType::A).unwrap());
    assert_eq!(&query[..12], &[0xB0, 0xB0, 0, 0, 0, 1, 0, 0, 0, 0, 0, 0]);
    assert!(!resolution.is_done());
    assert_eq!(resolution.sub_resolutions(), 0);
}

#[test]
fn record_types_without_a_lookup_are_refused() {
    for record_type in [RRType::MX, RRType::AAAA, RRType::SOA, RRType::PTR] {
        let (resolution, step) = Resolution::start("example.com".to_string(), &record_type);
        assert!(resolution.is_done());
        assert!(matches!(step, Step::Failed(DNSResolverError::InvalidRecordType(value))
            if value == record_type.as_ref()));
    }
    for record_type in [RRType::A, RRType::NS, RRType::CNAME, RRType::TXT] {
        let (_, step) = Resolution::start("example.com".to_string(), &record_type);
        assert!(matches!(step, Step::Query { .. }));
    }
}

#[test]
fn a_name_that_cannot_be_encoded_fails_the_lookup() {
    let (resolution, step) = Resolution::start(format!("{}.com", "a".repeat(64)), &RRType::A);
    assert!(resolution.is_done());
    assert!(matches!(step, Step::Failed(DNSResolverError::Encode(step, _)) if step == "question"));
}

#[test]
fn referral_then_alias_then_address_takes_three_exchanges() {
    let (mut resolution, first) = Resolution::start("www.example.com".to_string(), &RRType::A);
    let mut exchanges = 0;
    assert_eq!(asked(&first).0, "198.41.0.4");
    exchanges += 1;

    let referral = response(
        "www.example.com",
        1,
        &[],
        &[record("example.com", 2, &name_bytes("ns.example.com"))],
        &[record("ns.example.com", 1, &[192, 0, 2, 1])],
    );
    let second = resolution.on_response(&referral);
    let (nameserver, query) = asked(&second);
    assert_eq!(nameserver, "192.0.2.1");
    assert_eq!(query, build_query("www.example.com".to_string(), RRType::A).unwrap());
    exchanges += 1;

    let alias = response(
        "www.example.com",
        1,
        &[record("www.example.com", 5, &name_bytes("example.com"))],
        &[],
        &[],
    );
    let third = resolution.on_response(&alias);
    let (nameserver, query) = asked(&third);
    assert_eq!(nameserver, "198.41.0.4");
    assert_eq!(query, build_query("example.com".to_string(), RRType::A).unwrap());
    assert_eq!(resolution.sub_resolutions(), 1);
    exchanges += 1;

    let address =
        response("example.com", 1, &[record("example.com", 1, &[93, 184, 216, 34])], &[], &[]);
    match resolution.on_response(&address) {
        Step::Done(mut message) => {
            assert_eq!(message.answers_data(&RRType::A), vec!["93.184.216.34".to_string()]);
            assert_eq!(message.answers()[0].name().0, "example.com");
        },
        other => panic!("expected the answer, got {other:?}"),
    }
    assert!(resolution.is_done());
    assert_eq!(exchanges, 3);
}

#[test]
fn a_chain_of_referrals_takes_one_exchange_each() {
    let (mut resolution, mut step) = Resolution::start("example.com".to_string(), &RRType::A);
    let mut exchanges = 0;
    for hop in 1..=6u8 {
        assert_eq!(asked(&step).1, build_query("example.com".to_string(), RRType::A).unwrap());
        exchanges += 1;
        let referral =
            response("example.com", 1, &[], &[], &[record("ns.example", 1, &[10, 0, 0, hop])]);
        step = resolution.on_response(&referral);
        assert_eq!(asked(&step).0, format!("10.0.0.{hop}"));
    }
    exchanges += 1;
    let answer = response("example.com", 1, &[record("example.com", 1, &[1, 2, 3, 4])], &[], &[]);
    assert!(matches!(resolution.on_response(&answer), Step::Done(_)));
    assert_eq!(exchanges, 7);
    assert_eq!(resolution.sub_resolutions(), 0);
}

#[test]
fn a_name_server_without_an_address_is_looked_up_first() {
    let (mut resolution, _) = Resolution::start("example.com".to_string(), &RRType::TXT);
    let referral = response(
        "example.com",
        16,
        &[],
        &[record("example.com", 2, &name_bytes("ns.example.net"))],
        &[],
    );
    let step = resolution.on_response(&referral);
    let (nameserver, query) = asked(&step);
    assert_eq!(nameserver, "198.41.0.4");
    assert_eq!(query, build_query("ns.example.net".to_string(), RRType::A).unwrap());
    assert_eq!(resolution.sub_resolutions(), 1);

    let address =
        response("ns.example.net", 1, &[record("ns.example.net", 1, &[192, 0, 2, 53])], &[], &[]);
    let step = resolution.on_response(&address);
    let (nameserver, query) = asked(&step);
    assert_eq!(nameserver, "192.0.2.53");
    assert_eq!(query, build_query("example.com".to_string(), RRType::TXT).unwrap());

    let text = response("example.com", 16, &[record("example.com", 16, b"\x02hi")], &[], &[]);
    match resolution.on_response(&text) {
        Step::Done(message) => {
            assert_eq!(message.answers_data(&RRType::TXT), vec!["hi".to_string()])
        },
        other => panic!("expected the answer, got {other:?}"),
    }
}

#[test]
fn a_response_with_nothing_to_go_on_fails_the_lookup() {
    let (mut resolution, _) = Resolution::start("example.com".to_string(), &RRType::A);
    let empty = response("example.com", 1, &[], &[], &[]);
    match resolution.on_response(&empty) {
        Step::Failed(error) => {
            assert!(matches!(&error, DNSResolverError::LookupFailure(record_type, domain)
                if record_type == "A" && domain == "example.com"));
            assert_eq!(error.message(), "could not lookup `A` record of `example.com`");
        },
        other => panic!("expected a failure, got {other:?}"),
    }
    assert!(resolution.is_done());
    let answer = response("example.com", 1, &[record("example.com", 1, &[1, 2, 3, 4])], &[], &[]);
    assert!(matches!(resolution.on_response(&answer),
        Step::Failed(DNSResolverError::IOFailure(_, _))));
}

#[test]
fn a_response_that_cannot_be_decoded_fails_the_lookup() {
    let (mut resolution, _) = Resolution::start("example.com".to_string(), &RRType::A);
    assert!(matches!(resolution.on_response(&vec![1, 2, 3]),
        Step::Failed(DNSResolverError::Decode(step, _)) if step == "header"));
    assert!(resolution.is_done());
}

#[test]
fn only_address_lookups_follow_an_alias() {
    let alias = response(
        "www.example.com",
        2,
        &[record("www.example.com", 5, &name_bytes("example.com"))],
        &[],
        &[],
    );
    let message = DNSMessage::decode(&alias).unwrap();
    assert!(matches!(decide(&message, &RRType::A), Decision::ChaseCname(name)
        if name == "example.com"));
    assert!(matches!(decide(&message, &RRType::NS), Decision::Fail));
    assert!(matches!(decide(&message, &RRType::TXT), Decision::Fail));
    assert!(matches!(decide(&message, &RRType::CNAME), Decision::Return));
}

#[test]
fn the_decision_takes_the_first_case_that_applies() {
    let all = response(
        "example.com",
        1,
        &[
            record("example.com", 5, &name_bytes("example.org")),
            record("example.com", 1, &[1, 2, 3, 4]),
        ],
        &[record("example.com", 2, &name_bytes("ns.example.com"))],
        &[record("ns.example.com", 1, &[192, 0, 2, 1])],
    );
    assert!(matches!(decide(&DNSMessage::decode(&all).unwrap(), &RRType::A), Decision::Return));
    let glue = response(
        "example.com",
        1,
        &[],
        &[record("example.com", 2, &name_bytes("ns.example.com"))],
        &[record("x", 16, b"\x01t"), record("ns.example.com", 1, &[192, 0, 2, 1])],
    );
    assert!(matches!(decide(&DNSMessage::decode(&glue).unwrap(), &RRType::A),
        Decision::UseNameserver(address) if address == "192.0.2.1"));
    let named = response(
        "example.com",
        1,
        &[],
        &[record("example.com", 2, &name_bytes("ns.example.com"))],
        &[record("x", 16, b"\x01t")],
    );
    assert!(matches!(decide(&DNSMessage::decode(&named).unwrap(), &RRType::A),
        Decision::ResolveNameserver(name) if name == "ns.example.com"));
    let unreadable = response("example.com", 1, &[], &[], &[record("ns", 1, &[1, 2, 3])]);
    assert!(matches!(decide(&DNSMessage::decode(&unreadable).unwrap(), &RRType::A),
        Decision::Fail));
}

#[test]
fn lookups_of_other_names_are_bounded() {
    let (mut resolution, mut step) = Resolution::start("n0.example".to_string(), &RRType::A);
    for hop in 1..=MAX_SUB_RESOLUTIONS {
        assert!(matches!(step, Step::Query { .. }));
        let owner = format!("n{}.example", hop - 1);
        let target = format!("n{hop}.example");
        let alias = response(&owner, 1, &[record(&owner, 5, &name_bytes(&target))], &[], &[]);
        step = resolution.on_response(&alias);
        assert_eq!(resolution.sub_resolutions(), hop);
    }
    assert!(matches!(step, Step::Query { .. }));
    let owner = format!("n{MAX_SUB_RESOLUTIONS}.example");
    let alias = response(&owner, 1, &[record(&owner, 5, &name_bytes("again.example"))], &[], &[]);
    match resolution.on_response(&alias) {
        Step::Failed(DNSResolverError::LookupFailure(record_type, domain)) => {
            assert_eq!(record_type, "A");
            assert_eq!(domain, owner);
        },
        other => panic!("expected a failure, got {other:?}"),
    }
    assert!(resolution.is_done());
}
