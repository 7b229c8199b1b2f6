use dns_resolver::domain_name::{find_subset_index, split_labels, DomainName, LabelSequenceParser};
use dns_resolver::error::DNSResolverError;
use dns_resolver::message::DNSMessage;
use dns_resolver::packet::DNSPacket;
use dns_resolver::query::{build_query, DNSHeader, DNSQuestion, QR};
use dns_resolver::resource_record::DNSRecord;
use dns_resolver::rr_types::{str_to_record_type, RRType};
use dns_resolver::utils::{get_bit, set_bit, u8_bytes_to_u16_vec};

fn name_bytes(name: &str) -> Vec<u8> {
    let mut bytes = Vec::new();
    DomainName::new(name.to_string()).encode(&mut bytes).unwrap();
    bytes
}

fn record_bytes(name: &[u8], code: u16, ttl: u32, data: &[u8]) -> Vec<u8> {
    let mut bytes = name.to_vec();
    bytes.extend(code.to_be_bytes());
    bytes.extend(1u16.to_be_bytes());
    bytes.extend(ttl.to_be_bytes());
    bytes.extend((data.len() as u16).to_be_bytes());
    bytes.extend(data);
    bytes
}

fn header_bytes(id: u16, flags: u16, qd: u16, an: u16, ns: u16, ar: u16) -> Vec<u8> {
    let mut bytes = Vec::new();
    for value in [id, flags, qd, an, ns, ar] {
        bytes.extend(value.to_be_bytes());
    }
    bytes
}

fn question_bytes(name: &str, code: u16) -> Vec<u8> {
    let mut bytes = name_bytes(name);
    bytes.extend(code.to_be_bytes());
    bytes.extend(1u16.to_be_bytes());
    bytes
}

#[test]
fn query_for_example_com_has_the_expected_bytes() {
    let query = build_query(String::from("example.com"), RRType::A).unwrap();
    let expected: Vec<u8> = vec![
        0xB0, 0xB0, 0x00, 0x00, 0x00, 0x01, 0x00, 0x00, 0x00, 0x00, 0x00, 0x00, 0x07, b'e', b'x',
        b'a', b'm', b'p', b'l', b'e', 0x03, b'c', b'o', b'm', 0x00, 0x00, 0x01, 0x00, 0x01,
    ];
    assert_eq!(query, expected);
}

#[test]
fn query_with_a_long_label_is_refused() {
    let label = "a".repeat(64);
    let error = build_query(format!("{label}.com"), RRType::A).unwrap_err();
    assert!(matches!(&error, DNSResolverError::Encode(step, _) if step == "question"));
    assert_eq!(
        error.message(),
        "error while encoding `question`: `error while encoding `name`: `a label is longer than 63 bytes``"
    );
    assert!(build_query(format!("{}.com", "a".repeat(63)), RRType::A).is_ok());
}

#[test]
fn header_decodes_field_by_field() {
    let bytes = [0xB0, 0xB0, 0x80, 0x00, 0x00, 0x01, 0x00, 0x01, 0x00, 0x00, 0x00, 0x00];
    let (header, next) = DNSHeader::decode(&bytes, 0).unwrap();
    assert_eq!(next, 12);
    assert_eq!(header.id(), 45232);
    assert!(matches!(header.qr(), QR::Response));
    assert!(!header.recursion_desired());
    assert!(!header.recursion_available());
    assert_eq!(header.num_questions(), 1);
    assert_eq!(header.num_answers(), 1);
    assert_eq!(header.num_authorities(), 0);
    assert_eq!(header.num_additionals(), 0);
}

#[test]
fn header_round_trips() {
    let header = DNSHeader::new(0x1234, 0x8180, 1, 2, 3, 4);
    let mut bytes = Vec::new();
    header.encode(&mut bytes);
    assert_eq!(bytes, vec![0x12, 0x34, 0x81, 0x80, 0, 1, 0, 2, 0, 3, 0, 4]);
    let (decoded, _) = DNSHeader::decode(&bytes, 0).unwrap();
    assert_eq!(decoded.id(), 0x1234);
    assert_eq!(decoded.flags(), 0x8180);
    assert!(decoded.recursion_desired());
    assert!(decoded.recursion_available());
    assert_eq!(decoded.num_additionals(), 4);
}

#[test]
fn short_header_is_a_decode_error() {
    let error = DNSHeader::decode(&[0u8; 11], 0).unwrap_err();
    assert!(matches!(&error, DNSResolverError::Decode(step, why)
        if step == "header" && why == "error while parsing bytes"));
}

#[test]
fn header_flag_setters_touch_one_bit_each() {
    let mut header = DNSHeader::new(7, 0, 0, 0, 0, 0);
    header.set_qr(QR::Response);
    assert_eq!(header.flags(), 0x8000);
    header.set_recursion_desired(true);
    assert_eq!(header.flags(), 0x8100);
    header.set_recursion_available(true);
    assert_eq!(header.flags(), 0x8180);
    header.set_qr(QR::Query);
    assert_eq!(header.flags(), 0x0180);
    header.set_recursion_desired(false);
    header.set_recursion_available(false);
    assert_eq!(header.flags(), 0);
    let mut busy = DNSHeader::new(7, 0xFFFF, 0, 0, 0, 0);
    busy.set_opcode_std_query();
    assert_eq!(busy.flags(), 0x87FF);
    busy.set_id(9);
    assert_eq!(busy.id(), 9);
    assert_eq!(busy.flags(), 0x87FF);
}

#[test]
fn bits_count_from_the_most_significant() {
    assert_eq!(set_bit(0, 1, 0), 0x8000);
    assert_eq!(set_bit(0, 1, 15), 1);
    assert_eq!(set_bit(0xFFFF, 0, 7), 0xFEFF);
    assert_eq!(set_bit(0, 5, 8), 0x0080);
    assert_eq!(get_bit(0x8000, 0), 1);
    assert_eq!(get_bit(0x8000, 1), 0);
    assert_eq!(get_bit(0x0001, 15), 1);
    assert_eq!(set_bit(0x1234, 1, 16), 0x1234);
    assert_eq!(get_bit(0xFFFF, 16), 0);
}

#[test]
fn big_endian_values_are_read_in_pairs() {
    let bytes = [0x01, 0x02, 0xFF, 0xFE, 0x00];
    let (values, next) = u8_bytes_to_u16_vec(&bytes, 0, 2).unwrap();
    assert_eq!(values, vec![0x0102, 0xFFFE]);
    assert_eq!(next, 4);
    let (none, same) = u8_bytes_to_u16_vec(&bytes, 3, 0).unwrap();
    assert!(none.is_empty());
    assert_eq!(same, 3);
    assert!(matches!(u8_bytes_to_u16_vec(&bytes, 2, 2), Err(DNSResolverError::Parse)));
    assert!(matches!(u8_bytes_to_u16_vec(&bytes, 9, 1), Err(DNSResolverError::Parse)));
    assert!(u8_bytes_to_u16_vec(&bytes, 0, -3).unwrap().0.is_empty());
}

#[test]
fn record_types_map_to_codes_and_names() {
    assert_eq!(RRType::A.code(), 1);
    assert_eq!(RRType::NS.code(), 2);
    assert_eq!(RRType::CNAME.code(), 5);
    assert_eq!(RRType::NULL.code(), 10);
    assert_eq!(RRType::MX.code(), 15);
    assert_eq!(RRType::TXT.code(), 16);
    assert_eq!(RRType::AAAA.code(), 28);
    for known in RRType::all() {
        assert_eq!(RRType::from_code(known.code()).unwrap(), known);
        assert_eq!(str_to_record_type(known.as_ref()).unwrap(), known);
    }
    assert_eq!(RRType::CNAME.as_ref(), "CNAME");
    assert_eq!(RRType::NULL.as_ref(), "NULL");
}

#[test]
fn unknown_record_types_are_refused() {
    for code in [0u16, 17, 27, 29, 255, 65535] {
        let error = RRType::from_code(code).unwrap_err();
        assert!(matches!(&error, DNSResolverError::InvalidRecordType(value)
            if *value == code.to_string()));
    }
    let error = str_to_record_type("cname").unwrap_err();
    assert!(matches!(&error, DNSResolverError::InvalidRecordType(value) if value == "cname"));
    assert_eq!(error.message(), "invalid record type: `cname`");
    assert!(str_to_record_type("").is_err());
    assert!(str_to_record_type("AA").is_err());
}

#[test]
fn name_encodes_label_by_label() {
    assert_eq!(
        name_bytes("www.example.com"),
        vec![
            3, b'w', b'w', b'w', 7, b'e', b'x', b'a', b'm', b'p', b'l', b'e', 3, b'c', b'o', b'm', 0
        ]
    );
    assert_eq!(name_bytes("com"), vec![3, b'c', b'o', b'm', 0]);
    assert_eq!(name_bytes(""), vec![0, 0]);
}

#[test]
fn name_with_a_long_label_stops_at_that_label() {
    let mut bytes = vec![0xAA];
    let name = DomainName::new(format!("ab.{}.com", "x".repeat(64)));
    let error = name.encode(&mut bytes).unwrap_err();
    assert!(matches!(&error, DNSResolverError::Encode(step, why)
        if step == "name" && why == "a label is longer than 63 bytes"));
    assert_eq!(bytes, vec![0xAA, 2, b'a', b'b']);
    let mut kept = vec![0xAA];
    assert!(name.encode_with_compression(&mut kept).is_err());
    assert_eq!(kept, vec![0xAA]);
}

#[test]
fn names_split_at_dots() {
    assert_eq!(split_labels(b"a.bc"), vec![b"a".to_vec(), b"bc".to_vec()]);
    assert_eq!(split_labels(b""), vec![Vec::<u8>::new()]);
    assert_eq!(split_labels(b"a."), vec![b"a".to_vec(), Vec::new()]);
    assert_eq!(split_labels(b".a"), vec![Vec::new(), b"a".to_vec()]);
}

#[test]
fn name_round_trips_without_compression() {
    for text in ["example.com", "a.b.c.d.e", "xn--bcher-kva.example", "MiXeD.Case.ORG", "x"] {
        let bytes = name_bytes(text);
        let mut parser = LabelSequenceParser::new();
        let (name, next) = parser.construct_domain_name(&bytes, 0, None).unwrap();
        assert_eq!(name.0, text);
        assert_eq!(next, bytes.len());
    }
    let bytes = name_bytes("bücher.example");
    let (name, _) = LabelSequenceParser::new().construct_domain_name(&bytes, 0, None).unwrap();
    assert_eq!(name.0, "bücher.example");
}

#[test]
fn names_compare_without_case() {
    let lower = DomainName::new("example.com".to_string());
    let upper = DomainName::new("EXAMPLE.Com".to_string());
    let other = DomainName::new("example.org".to_string());
    assert!(lower == upper);
    assert!(lower != other);
    assert!(DomainName::new("a".to_string()) != DomainName::new("ab".to_string()));
    assert_eq!(upper.clone().0, "EXAMPLE.Com");
}

#[test]
fn pointer_resolves_against_the_message() {
    let mut message = vec![0u8; 12];
    message.extend(name_bytes("example.com"));
    while message.len() < 40 {
        message.push(0);
    }
    message.extend([0xC0, 0x0C]);
    let (first, after_first) =
        LabelSequenceParser::new().construct_domain_name(&message, 12, Some(&message)).unwrap();
    assert_eq!(first.0, "example.com");
    assert_eq!(after_first, 25);
    let (second, after_second) =
        LabelSequenceParser::new().construct_domain_name(&message, 40, Some(&message)).unwrap();
    assert_eq!(second.0, "example.com");
    assert_eq!(after_second, 42);
}

#[test]
fn labels_before_a_pointer_are_kept() {
    let mut message = vec![0u8; 12];
    message.extend(name_bytes("example.com"));
    let start = message.len();
    message.extend([3, b'w', b'w', b'w', 0xC0, 0x0C, 0xFF]);
    let (name, next) =
        LabelSequenceParser::new().construct_domain_name(&message, start, Some(&message)).unwrap();
    assert_eq!(name.0, "www.example.com");
    assert_eq!(next, start + 6);
}

#[test]
fn a_parser_keeps_the_labels_it_has_read() {
    let first = name_bytes("a.b");
    let second = name_bytes("c");
    let mut parser = LabelSequenceParser::new();
    assert_eq!(parser.construct_domain_name(&first, 0, None).unwrap().0 .0, "a.b");
    assert_eq!(parser.construct_domain_name(&second, 0, None).unwrap().0 .0, "a.b.c");
}

#[test]
fn pointer_in_a_circle_is_a_decode_error() {
    let mut message = vec![0u8; 12];
    message.extend([0xC0, 0x0C]);
    let error = LabelSequenceParser::new()
        .construct_domain_name(&message, 12, Some(&message))
        .unwrap_err();
    assert!(matches!(&error, DNSResolverError::Decode(step, why)
        if step == "compressed_name" && why == "too many pointers"));
    let mut pair = vec![0u8; 12];
    pair.extend([1, b'a', 0xC0, 0x10, 1, b'b', 0xC0, 0x0C]);
    let error =
        LabelSequenceParser::new().construct_domain_name(&pair, 12, Some(&pair)).unwrap_err();
    assert!(matches!(&error, DNSResolverError::Decode(_, why) if why == "too many pointers"));
}

#[test]
fn a_chain_of_128_pointers_is_followed() {
    let mut message = vec![0u8];
    for hop in 0..128u16 {
        let target = if hop == 0 { 0 } else { 1 + 2 * (hop - 1) };
        message.push(0xC0 | (target >> 8) as u8);
        message.push((target & 0xFF) as u8);
    }
    let last = message.len() - 2;
    assert!(LabelSequenceParser::new()
        .construct_domain_name(&message, last, Some(&message))
        .is_ok());
    let target = last as u16;
    message.push(0xC0 | (target >> 8) as u8);
    message.push((target & 0xFF) as u8);
    let one_more = message.len() - 2;
    assert!(LabelSequenceParser::new()
        .construct_domain_name(&message, one_more, Some(&message))
        .is_err());
}

#[test]
fn malformed_names_are_decode_errors() {
    let long = [64u8, b'a'];
    let error = LabelSequenceParser::new().construct_domain_name(&long, 0, None).unwrap_err();
    assert!(matches!(&error, DNSResolverError::Decode(step, why)
        if step == "name" && why == "a label is longer than 63 bytes"));
    assert!(LabelSequenceParser::new().construct_domain_name(&[191u8], 0, None).is_err());

    let pointer = [0xC0u8, 0x00];
    let error = LabelSequenceParser::new().construct_domain_name(&pointer, 0, None).unwrap_err();
    assert!(matches!(&error, DNSResolverError::Decode(step, why)
        if step == "compressed_name" && why == "a pointer needs the message it points into"));

    let message = [0xC0u8, 0x05, 0, 0, 0];
    let error = LabelSequenceParser::new()
        .construct_domain_name(&message, 0, Some(&message))
        .unwrap_err();
    assert!(matches!(&error, DNSResolverError::Decode(_, why)
        if why == "a pointer leads out of the message"));

    let cut = [0u8, 0xC0];
    let error =
        LabelSequenceParser::new().construct_domain_name(&cut, 1, Some(&cut)).unwrap_err();
    assert!(matches!(&error, DNSResolverError::Decode(_, why) if why == "could not parse bytes"));
    assert_eq!(
        error.message(),
        "error while decoding `compressed_name`: `could not parse bytes`"
    );
}

#[test]
fn a_name_ends_where_its_bytes_end() {
    let bytes = [3u8, b'c', b'o', b'm'];
    let (name, next) = LabelSequenceParser::new().construct_domain_name(&bytes, 0, None).unwrap();
    assert_eq!(name.0, "com");
    assert_eq!(next, 4);
    let cut = [5u8, b'c', b'o'];
    let (name, next) = LabelSequenceParser::new().construct_domain_name(&cut, 0, None).unwrap();
    assert_eq!(name.0, "co");
    assert_eq!(next, 3);
    let (name, next) = LabelSequenceParser::new().construct_domain_name(&cut, 7, None).unwrap();
    assert_eq!(name.0, "");
    assert_eq!(next, 7);
}

#[test]
fn a_pointer_at_the_end_of_a_label_is_followed() {
    let mut message = name_bytes("com");
    let start = message.len();
    message.extend([4, b'a', b'b', 0xC0, 0x00, 0x09]);
    let (name, next) =
        LabelSequenceParser::new().construct_domain_name(&message, start, Some(&message)).unwrap();
    assert_eq!(name.0, "com");
    assert_eq!(next, start + 5);
    let (literal, _) =
        LabelSequenceParser::new().construct_domain_name(&message, start, None).unwrap();
    assert_eq!(literal.0, "ab\u{FFFD}\u{0}.");
}

#[test]
fn bytes_that_are_not_utf8_are_replaced() {
    let bytes = [2u8, 0xFF, b'a', 0];
    let (name, _) = LabelSequenceParser::new().construct_domain_name(&bytes, 0, None).unwrap();
    assert_eq!(name.0, "\u{FFFD}a");
}

#[test]
fn subset_is_found_at_its_first_place() {
    assert_eq!(find_subset_index(&vec![1, 2, 3, 2, 3], &vec![2, 3]), Some(1));
    assert_eq!(find_subset_index(&vec![1, 2, 3], &vec![1, 2, 3]), Some(0));
    assert_eq!(find_subset_index(&vec![1, 2, 3], &vec![3]), Some(2));
    assert_eq!(find_subset_index(&vec![1, 2, 3], &vec![3, 4]), None);
    assert_eq!(find_subset_index(&vec![1, 2, 3], &vec![]), None);
    assert_eq!(find_subset_index(&vec![1], &vec![1, 2]), None);
    assert_eq!(find_subset_index(&vec![], &vec![1]), None);
}

#[test]
fn a_name_seen_before_becomes_a_pointer() {
    let mut encoded = vec![0u8; 12];
    encoded.extend(name_bytes("example.com"));
    let plain = name_bytes("example.com").len();
    let before = encoded.len();
    DomainName::new("example.com".to_string()).encode_with_compression(&mut encoded).unwrap();
    assert_eq!(&encoded[before..], &[0xC0, 0x0C]);
    assert!(encoded.len() - before < plain);

    let before = encoded.len();
    DomainName::new("www.example.com".to_string()).encode_with_compression(&mut encoded).unwrap();
    assert_eq!(&encoded[before..], &[3, b'w', b'w', b'w', 0xC0, 0x0C]);

    let before = encoded.len();
    DomainName::new("mail.com".to_string()).encode_with_compression(&mut encoded).unwrap();
    assert_eq!(&encoded[before..], &[4, b'm', b'a', b'i', b'l', 0xC0, 0x14]);

    let before = encoded.len();
    DomainName::new("other.org".to_string()).encode_with_compression(&mut encoded).unwrap();
    assert_eq!(&encoded[before..], name_bytes("other.org").as_slice());
}

#[test]
fn question_round_trips() {
    let question = DNSQuestion::new(DomainName::new("example.com".to_string()), RRType::TXT, 1);
    let mut bytes = vec![9u8, 9];
    question.encode(&mut bytes).unwrap();
    assert_eq!(&bytes[2..], question_bytes("example.com", 16).as_slice());
    let (decoded, next) = DNSQuestion::decode(&bytes, 2).unwrap();
    assert_eq!(decoded.name().0, "example.com");
    assert_eq!(*decoded.q_type(), RRType::TXT);
    assert_eq!(decoded.class(), 1);
    assert_eq!(next, bytes.len());
}

#[test]
fn question_errors_name_their_cause() {
    let mut cut = name_bytes("a.b");
    cut.extend([0, 1, 0]);
    assert!(matches!(DNSQuestion::decode(&cut, 0), Err(DNSResolverError::Parse)));
    let unknown = question_bytes("a.b", 99);
    assert!(matches!(DNSQuestion::decode(&unknown, 0),
        Err(DNSResolverError::InvalidRecordType(value)) if value == "99"));
    let pointer = [0xC0u8, 0, 0, 1, 0, 1];
    assert!(matches!(DNSQuestion::decode(&pointer, 0), Err(DNSResolverError::Decode(_, _))));
}

#[test]
fn address_record_decodes_to_a_dotted_quad() {
    let bytes = record_bytes(&name_bytes("example.com"), 1, 300, &[93, 184, 216, 34]);
    let (record, next) = DNSRecord::decode(&bytes, 0).unwrap();
    assert_eq!(next, bytes.len());
    assert_eq!(record.name().0, "example.com");
    assert_eq!(*record.r_type(), RRType::A);
    assert_eq!(record.ttl(), 300);
    assert_eq!(record.parsed_data().as_deref(), Some("93.184.216.34"));
    assert_eq!(record.raw_data(), &vec![93, 184, 216, 34]);
    let zero = record_bytes(&name_bytes("a"), 1, 0, &[0, 10, 100, 255]);
    let (record, _) = DNSRecord::decode(&zero, 0).unwrap();
    assert_eq!(record.parsed_data().as_deref(), Some("0.10.100.255"));
}

#[test]
fn address_record_of_another_length_has_no_readable_form() {
    let bytes = record_bytes(&name_bytes("example.com"), 1, 300, &[93, 184, 216]);
    let (record, _) = DNSRecord::decode(&bytes, 0).unwrap();
    assert!(record.parsed_data().is_none());
    assert!(matches!(record.parse_raw_data(&bytes), Err(DNSResolverError::Parse)));
}

#[test]
fn text_record_drops_its_length_byte() {
    let bytes = record_bytes(&name_bytes("example.com"), 16, 60, b"\x05hello");
    let (record, _) = DNSRecord::decode(&bytes, 0).unwrap();
    assert_eq!(record.parsed_data().as_deref(), Some("hello"));
    let empty = record_bytes(&name_bytes("example.com"), 16, 60, b"");
    assert!(DNSRecord::decode(&empty, 0).unwrap().0.parsed_data().is_none());
    let broken = record_bytes(&name_bytes("example.com"), 16, 60, &[2, 0xC3, 0x28]);
    assert_eq!(
        DNSRecord::decode(&broken, 0).unwrap().0.parsed_data().as_deref(),
        Some("\u{FFFD}(")
    );
}

#[test]
fn name_records_resolve_their_pointers() {
    let mut message = vec![0u8; 12];
    message.extend(name_bytes("example.com"));
    let start = message.len();
    message.extend(record_bytes(&[0xC0, 0x0C], 2, 3600, &[2, b'n', b's', 0xC0, 0x0C]));
    let (record, next) = DNSRecord::decode(&message, start).unwrap();
    assert_eq!(next, message.len());
    assert_eq!(record.name().0, "example.com");
    assert_eq!(*record.r_type(), RRType::NS);
    assert_eq!(record.parsed_data().as_deref(), Some("ns.example.com"));

    let plain = record_bytes(&name_bytes("www.example.com"), 5, 5, &name_bytes("example.com"));
    let (alias, _) = DNSRecord::decode(&plain, 0).unwrap();
    assert_eq!(alias.parsed_data().as_deref(), Some("example.com"));

    let stray = record_bytes(&name_bytes("a"), 5, 5, &[0xC0, 0x00, 1, b'a', 0]);
    assert!(DNSRecord::decode(&stray, 0).unwrap().0.parsed_data().is_none());
}

#[test]
fn other_records_keep_their_bytes_only() {
    let bytes = record_bytes(&name_bytes("example.com"), 15, 60, &[0, 10, 1, b'm', 0]);
    let (record, _) = DNSRecord::decode(&bytes, 0).unwrap();
    assert_eq!(*record.r_type(), RRType::MX);
    assert!(record.parsed_data().is_none());
    assert_eq!(record.raw_data(), &vec![0, 10, 1, b'm', 0]);
}

#[test]
fn record_errors_name_their_cause() {
    let name = name_bytes("a");
    let mut no_type = name.clone();
    no_type.extend([0, 1, 0]);
    assert!(matches!(DNSRecord::decode(&no_type, 0), Err(DNSResolverError::Parse)));
    let mut unknown = name.clone();
    unknown.extend([0, 200, 0, 1]);
    assert!(matches!(DNSRecord::decode(&unknown, 0),
        Err(DNSResolverError::InvalidRecordType(value)) if value == "200"));
    let mut no_ttl = name.clone();
    no_ttl.extend([0, 1, 0, 1, 0, 0, 0]);
    assert!(matches!(DNSRecord::decode(&no_ttl, 0),
        Err(DNSResolverError::Decode(step, why))
            if step == "rr" && why == "could not parse bytes"));
    let mut no_length = name.clone();
    no_length.extend([0, 1, 0, 1, 0, 0, 0, 9, 0]);
    assert!(matches!(DNSRecord::decode(&no_length, 0), Err(DNSResolverError::Parse)));
    let mut short_data = name.clone();
    short_data.extend([0, 1, 0, 1, 0, 0, 0, 9, 0, 4, 1, 2]);
    let (record, next) = DNSRecord::decode(&short_data, 0).unwrap();
    assert_eq!(record.raw_data(), &vec![1, 2]);
    assert_eq!(next, short_data.len());
    assert!(record.parsed_data().is_none());
}

#[test]
fn record_encodes_what_it_decoded() {
    let plain = record_bytes(&name_bytes("example.com"), 1, 0x01020304, &[1, 2, 3, 4]);
    let (record, _) = DNSRecord::decode(&plain, 0).unwrap();
    let mut encoded = Vec::new();
    record.encode(&mut encoded).unwrap();
    assert_eq!(encoded, plain);
    let copy = record.clone();
    assert_eq!(copy.ttl(), 0x01020304);
    assert_eq!(copy.parsed_data().as_deref(), Some("1.2.3.4"));
}

fn sample_message() -> Vec<u8> {
    let mut bytes = header_bytes(45232, 0x8180, 1, 2, 1, 1);
    bytes.extend(question_bytes("www.example.com", 1));
    bytes.extend(record_bytes(&[0xC0, 0x0C], 5, 60, &[0xC0, 0x10]));
    bytes.extend(record_bytes(&[0xC0, 0x10], 1, 60, &[93, 184, 216, 34]));
    bytes.extend(record_bytes(&[0xC0, 0x10], 2, 60, &[2, b'n', b's', 0xC0, 0x10]));
    bytes.extend(record_bytes(&[2, b'n', b's', 0xC0, 0x10], 1, 60, &[192, 0, 2, 1]));
    bytes
}

#[test]
fn message_decodes_section_by_section() {
    let mut message = DNSMessage::decode(&sample_message()).unwrap();
    assert_eq!(message.header().id(), 45232);
    assert_eq!(message.answers().len(), 2);
    assert_eq!(message.answers()[0].name().0, "www.example.com");
    assert_eq!(message.answers()[1].name().0, "example.com");
    assert_eq!(message.answers_data(&RRType::A), vec!["93.184.216.34".to_string()]);
    assert_eq!(message.answers_data(&RRType::CNAME), vec!["example.com".to_string()]);
    assert!(message.answers_data(&RRType::TXT).is_empty());
    assert_eq!(message.ns_ip().as_deref(), Some("192.0.2.1"));
    assert_eq!(message.nameserver().as_deref(), Some("ns.example.com"));
    assert!(message.counts_match());
}

#[test]
fn message_round_trips() {
    let wire = sample_message();
    let mut message = DNSMessage::decode(&wire).unwrap();
    let encoded = message.encode().unwrap();
    assert!(encoded.len() <= wire.len() + 4);
    let mut again = DNSMessage::decode(&encoded).unwrap();
    assert_eq!(again.header().id(), 45232);
    assert_eq!(again.header().flags(), 0x8180);
    assert_eq!(again.answers().len(), message.answers().len());
    assert_eq!(again.answers()[0].name().0, "www.example.com");
    assert_eq!(again.answers()[1].name().0, "example.com");
    assert_eq!(again.answers_data(&RRType::A), message.answers_data(&RRType::A));
    assert_eq!(again.ns_ip(), message.ns_ip());
    assert_eq!(again.encode().unwrap(), encoded);
}

#[test]
fn query_round_trips() {
    let header = DNSHeader::new(77, 0x0100, 2, 0, 0, 0);
    let questions = vec![
        DNSQuestion::new(DomainName::new("example.com".to_string()), RRType::A, 1),
        DNSQuestion::new(DomainName::new("example.org".to_string()), RRType::NS, 1),
    ];
    let message = DNSMessage::new(header, questions, vec![], vec![], vec![]);
    let encoded = message.encode().unwrap();
    let mut expected = header_bytes(77, 0x0100, 2, 0, 0, 0);
    expected.extend(question_bytes("example.com", 1));
    expected.extend(question_bytes("example.org", 2));
    assert_eq!(encoded, expected);
    let decoded = DNSMessage::decode(&encoded).unwrap();
    assert_eq!(decoded.encode().unwrap(), encoded);
}

#[test]
fn answer_for_the_question_name_is_a_pointer() {
    let mut bytes = header_bytes(1, 0x8000, 1, 1, 0, 0);
    bytes.extend(question_bytes("example.com", 1));
    let plain_answer = record_bytes(&name_bytes("example.com"), 1, 60, &[93, 184, 216, 34]);
    bytes.extend(&plain_answer);
    let message = DNSMessage::decode(&bytes).unwrap();
    let encoded = message.encode().unwrap();
    assert!(encoded.len() < bytes.len());
    assert_eq!(encoded.len(), bytes.len() - 13 + 2);
    assert_eq!(&encoded[29..31], &[0xC0, 0x0C]);
    let mut decoded = DNSMessage::decode(&encoded).unwrap();
    assert_eq!(decoded.answers()[0].name().0, "example.com");
    assert_eq!(decoded.answers_data(&RRType::A), vec!["93.184.216.34".to_string()]);
}

#[test]
fn message_with_wrong_counts_is_not_encoded() {
    let header = DNSHeader::new(1, 0, 2, 0, 0, 0);
    let questions =
        vec![DNSQuestion::new(DomainName::new("example.com".to_string()), RRType::A, 1)];
    let message = DNSMessage::new(header, questions, vec![], vec![], vec![]);
    assert!(!message.counts_match());
    let error = message.encode().unwrap_err();
    assert!(matches!(&error, DNSResolverError::Encode(step, why)
        if step == "message" && why == "the header's counts are not those of the sections"));
}

#[test]
fn message_that_ends_early_is_not_decoded() {
    let whole = sample_message();
    assert!(DNSMessage::decode(&whole[..11].to_vec()).is_err());
    assert!(DNSMessage::decode(&whole[..20].to_vec()).is_err());
    assert!(DNSMessage::decode(&whole[..40].to_vec()).is_err());
    assert!(DNSMessage::decode(&Vec::new()).is_err());
}

#[test]
fn message_identifier_can_be_set() {
    let mut message = DNSMessage::decode(&sample_message()).unwrap();
    message.set_id(7);
    assert_eq!(message.header().id(), 7);
    assert_eq!(message.header().flags(), 0x8180);
    assert_eq!(&message.encode().unwrap()[..2], &[0, 7]);
}

#[test]
fn packet_behaves_as_the_message() {
    let bytes = sample_message();
    let mut packet = DNSPacket::decode(&bytes).unwrap();
    let message = DNSMessage::decode(&bytes).unwrap();
    assert_eq!(packet.answers().len(), 2);
    assert_eq!(packet.answers_data(&RRType::A), message.answers_data(&RRType::A));
    assert_eq!(packet.ns_ip(), message.ns_ip());
    assert_eq!(packet.nameserver(), message.nameserver());
    packet.set_id(3);
    let encoded = packet.encode().unwrap();
    assert_eq!(&encoded[..2], &[0, 3]);
    assert_eq!(&encoded[2..], &message.encode().unwrap()[2..]);
    let built = DNSPacket::new(DNSHeader::new(5, 0, 0, 0, 0, 0), vec![], vec![], vec![], vec![]);
    assert_eq!(built.encode().unwrap(), header_bytes(5, 0, 0, 0, 0, 0));
    assert!(DNSPacket::decode(&vec![1, 2, 3]).is_err());
}

#[test]
fn error_messages_read_as_sentences() {
    assert_eq!(DNSResolverError::Parse.message(), "error while parsing bytes");
    assert_eq!(
        DNSResolverError::Decode("rr".into(), "x".into()).message(),
        "error while decoding `rr`: `x`"
    );
    assert_eq!(
        DNSResolverError::Encode("name".into(), "y".into()).message(),
        "error while encoding `name`: `y`"
    );
    assert_eq!(
        DNSResolverError::InvalidRecordType("Q".into()).message(),
        "invalid record type: `Q`"
    );
    assert_eq!(
        DNSResolverError::ConnectionFailure("1.2.3.4:53".into(), "refused".into()).message(),
        "failed while trying to connect to `1.2.3.4:53`: `refused`"
    );
    assert_eq!(
        DNSResolverError::IOFailure("send".into(), "closed".into()).message(),
        "failed while trying to `send` data: `closed`"
    );
    assert_eq!(
        DNSResolverError::LookupFailure("A".into(), "example.com".into()).message(),
        "could not lookup `A` record of `example.com`"
    );
    let wrapped = dns_resolver::error::map_decode_err("header", &DNSResolverError::Parse);
    assert_eq!(wrapped.message(), "error while decoding `header`: `error while parsing bytes`");
    let wrapped = dns_resolver::error::map_encode_err("question", &DNSResolverError::Parse);
    assert_eq!(wrapped.message(), "error while encoding `question`: `error while parsing bytes`");
}

#[test]
fn a_pointer_may_lead_into_a_longer_name() {
    let mut bytes = header_bytes(1, 0x8000, 1, 1, 0, 0);
    bytes.extend(question_bytes("a.b", 1));
    bytes.extend(record_bytes(&name_bytes("a"), 1, 60, &[1, 2, 3, 4]));
    let mut message = DNSMessage::decode(&bytes).unwrap();
    assert_eq!(message.answers()[0].name().0, "a");
    let encoded = message.encode().unwrap();
    assert_eq!(&encoded[21..23], &[0xC0, 0x0C]);
    let mut decoded = DNSMessage::decode(&encoded).unwrap();
    assert_eq!(decoded.answers()[0].name().0, "a.b");
}

#[test]
fn pointers_reach_up_to_their_14_bits() {
    let mut encoded = vec![0xAAu8; 16000];
    encoded.extend(name_bytes("example.com"));
    let before = encoded.len();
    DomainName::new("example.com".to_string()).encode_with_compression(&mut encoded).unwrap();
    assert_eq!(&encoded[before..], &[0xFE, 0x80]);
    let (name, next) =
        LabelSequenceParser::new().construct_domain_name(&encoded, before, Some(&encoded)).unwrap();
    assert_eq!(name.0, "example.com");
    assert_eq!(next, before + 2);

    let mut far = vec![0xAAu8; 16384];
    far.extend(name_bytes("example.com"));
    let before = far.len();
    DomainName::new("example.com".to_string()).encode_with_compression(&mut far).unwrap();
    assert_eq!(&far[before..], name_bytes("example.com").as_slice());

    let mut edge = vec![0xAAu8; 16383];
    edge.extend(name_bytes("example.com"));
    let before = edge.len();
    DomainName::new("example.com".to_string()).encode_with_compression(&mut edge).unwrap();
    assert_eq!(&edge[before..], name_bytes("example.com").as_slice());
}

#[test]
fn a_name_of_many_labels_round_trips() {
    let text = (0..120).map(|i| format!("l{i}")).collect::<Vec<_>>().join(".");
    let bytes = name_bytes(&text);
    let (name, next) = LabelSequenceParser::new().construct_domain_name(&bytes, 0, None).unwrap();
    assert_eq!(name.0, text);
    assert_eq!(next, bytes.len());
    let mut encoded = bytes.clone();
    DomainName::new(text.clone()).encode_with_compression(&mut encoded).unwrap();
    assert_eq!(&encoded[bytes.len()..], &[0xC0, 0x00]);
}
