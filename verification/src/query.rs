//! The header and the question of a DNS message.

use crate::domain_name::{
    fitting_prefix, label_texts, label_too_long, labels_fit, labels_of, name_text, read_labels,
    wire_labels, wire_name, DomainName, LabelSequenceParser, MAX_POINTER_JUMPS,
};
use crate::error::{map_decode_err, map_encode_err, message_of, DNSResolverError, ErrorView};
use crate::rr_types::{code_of, type_of_code, RRType};
use crate::text::decimal;
use crate::utils::{
    be16, be16_bytes, bit_at, get_bit, lemma_be16_round_trip, push_be16, read_be16s, set_bit,
    u8_bytes_to_u16_vec, with_bit,
};
use vstd::prelude::*;
use vstd::utf8::*;

verus! {

/// The identifier of the queries that this library builds.
pub const QUERY_ID: u16 = 45232;

/// The class of the Internet.
pub const CLASS_IN: u16 = 1;

/// The position of the query/response bit in the flags.
pub const QR_BIT: u16 = 0;

/// The position of the recursion-desired bit in the flags.
pub const RD_BIT: u16 = 7;

/// The position of the recursion-available bit in the flags.
pub const RA_BIT: u16 = 8;

/// The flags with the four opcode bits, at the positions 1 to 4, cleared.
pub open spec fn without_opcode(flags: u16) -> u16 {
    flags & 0x87ff
}

/// The header of a DNS message.
#[derive(Debug)]
pub struct DNSHeader {
    id: u16,
    flags: u16,
    qd_count: u16,
    an_count: u16,
    ns_count: u16,
    ar_count: u16,
}

/// What a header holds.
pub struct HeaderView {
    pub id: u16,
    pub flags: u16,
    pub qd_count: u16,
    pub an_count: u16,
    pub ns_count: u16,
    pub ar_count: u16,
}

impl View for DNSHeader {
    type V = HeaderView;

    closed spec fn view(&self) -> HeaderView {
        HeaderView {
            id: self.id,
            flags: self.flags,
            qd_count: self.qd_count,
            an_count: self.an_count,
            ns_count: self.ns_count,
            ar_count: self.ar_count,
        }
    }
}

/// Whether a message asks or answers.
pub enum QR {
    Query,
    Response,
}

/// The twelve bytes of a header: its six fields in their order, each as a
/// big-endian 16-bit value.
pub open spec fn header_bytes(header: HeaderView) -> Seq<u8> {
    be16_bytes(header.id) + be16_bytes(header.flags) + be16_bytes(header.qd_count) + be16_bytes(
        header.an_count,
    ) + be16_bytes(header.ns_count) + be16_bytes(header.ar_count)
}

/// The error for a message that ends inside its header.
pub open spec fn header_cut_error() -> ErrorView {
    ErrorView::Decode("header"@, message_of(ErrorView::Parse))
}

/// What decoding a header from `bytes` at `pos` gives: the header and the
/// position after it, or an error where fewer than twelve bytes are left.
pub open spec fn decode_header(bytes: Seq<u8>, pos: int) -> Result<(HeaderView, int), ErrorView> {
    match read_be16s(bytes, pos, 6) {
        Some((parts, next)) => Ok(
            (
                HeaderView {
                    id: parts[0],
                    flags: parts[1],
                    qd_count: parts[2],
                    an_count: parts[3],
                    ns_count: parts[4],
                    ar_count: parts[5],
                },
                next,
            ),
        ),
        None => Err(header_cut_error()),
    }
}

impl DNSHeader {
    /// A header with the given fields.
    pub fn new(
        id: u16,
        flags: u16,
        qd_count: u16,
        an_count: u16,
        ns_count: u16,
        ar_count: u16,
    ) -> (header: DNSHeader)
        ensures
            header@ == (HeaderView { id, flags, qd_count, an_count, ns_count, ar_count }),
    {
        DNSHeader { id, flags, qd_count, an_count, ns_count, ar_count }
    }

    /// Marks the message as a query or as a response. No other bit changes.
    pub fn set_qr(&mut self, qr: QR)
        ensures
            final(self)@ == (HeaderView {
                flags: with_bit(old(self)@.flags, qr is Response, QR_BIT),
                ..old(self)@
            }),
    {
        let bit: u8 = match qr {
            QR::Query => 0,
            QR::Response => 1,
        };
        self.flags = set_bit(self.flags, bit, QR_BIT);
    }

    /// Sets the opcode to that of a standard query: clears the bits 1 to 4.
    pub fn set_opcode_std_query(&mut self)
        ensures
            final(self)@ == (HeaderView { flags: without_opcode(old(self)@.flags), ..old(self)@ }),
    {
        let ghost before = self.flags;
        let mut position: u16 = 1;
        while position < 5
            invariant
                1 <= position <= 5,
                self.id == old(self).id,
                self.qd_count == old(self).qd_count,
                self.an_count == old(self).an_count,
                self.ns_count == old(self).ns_count,
                self.ar_count == old(self).ar_count,
                before == old(self).flags,
                position == 1 ==> self.flags == before,
                position == 2 ==> self.flags == before & 0xbfff,
                position == 3 ==> self.flags == before & 0x9fff,
                position == 4 ==> self.flags == before & 0x8fff,
                position == 5 ==> self.flags == before & 0x87ff,
            decreases 5 - position,
        {
            self.flags = set_bit(self.flags, 0, position);
            proof {
                assert(with_bit(before, false, 1) == before & 0xbfff) by (bit_vector);
                assert(with_bit(before & 0xbfff, false, 2) == before & 0x9fff) by (bit_vector);
                assert(with_bit(before & 0x9fff, false, 3) == before & 0x8fff) by (bit_vector);
                assert(with_bit(before & 0x8fff, false, 4) == before & 0x87ff) by (bit_vector);
            }
            position = position + 1;
        }
    }

    /// Sets the recursion-desired bit. No other bit changes.
    pub fn set_recursion_desired(&mut self, rd: bool)
        ensures
            final(self)@ == (HeaderView {
                flags: with_bit(old(self)@.flags, rd, RD_BIT),
                ..old(self)@
            }),
    {
        self.flags = set_bit(self.flags, if rd { 1 } else { 0 }, RD_BIT);
    }

    /// Sets the recursion-available bit. No other bit changes.
    pub fn set_recursion_available(&mut self, ra: bool)
        ensures
            final(self)@ == (HeaderView {
                flags: with_bit(old(self)@.flags, ra, RA_BIT),
                ..old(self)@
            }),
    {
        self.flags = set_bit(self.flags, if ra { 1 } else { 0 }, RA_BIT);
    }

    /// The identifier of the message.
    pub fn id(&self) -> (id: u16)
        ensures
            id == self@.id,
    {
        self.id
    }

    /// The flags of the message.
    pub fn flags(&self) -> (flags: u16)
        ensures
            flags == self@.flags,
    {
        self.flags
    }

    /// Whether the message is a query or a response.
    pub fn qr(&self) -> (qr: QR)
        ensures
            qr is Response <==> bit_at(self@.flags, QR_BIT),
    {
        if get_bit(self.flags, QR_BIT) == 1 {
            QR::Response
        } else {
            QR::Query
        }
    }

    /// Whether the recursion-desired bit is set.
    pub fn recursion_desired(&self) -> (rd: bool)
        ensures
            rd == bit_at(self@.flags, RD_BIT),
    {
        get_bit(self.flags, RD_BIT) == 1
    }

    /// Whether the recursion-available bit is set.
    pub fn recursion_available(&self) -> (ra: bool)
        ensures
            ra == bit_at(self@.flags, RA_BIT),
    {
        get_bit(self.flags, RA_BIT) == 1
    }

    /// The number of questions that the header announces.
    pub fn num_questions(&self) -> (count: u16)
        ensures
            count == self@.qd_count,
    {
        self.qd_count
    }

    /// The number of answers that the header announces.
    pub fn num_answers(&self) -> (count: u16)
        ensures
            count == self@.an_count,
    {
        self.an_count
    }

    /// The number of authority records that the header announces.
    pub fn num_authorities(&self) -> (count: u16)
        ensures
            count == self@.ns_count,
    {
        self.ns_count
    }

    /// The number of additional records that the header announces.
    pub fn num_additionals(&self) -> (count: u16)
        ensures
            count == self@.ar_count,
    {
        self.ar_count
    }

    /// Sets the identifier of the message. Nothing else changes.
    pub fn set_id(&mut self, id: u16)
        ensures
            final(self)@ == (HeaderView { id, ..old(self)@ }),
    {
        self.id = id
    }

    /// Appends the twelve bytes of the header.
    pub fn encode(&self, encoded: &mut Vec<u8>)
        ensures
            final(encoded)@ == old(encoded)@ + header_bytes(self@),
    {
        push_be16(encoded, self.id);
        push_be16(encoded, self.flags);
        push_be16(encoded, self.qd_count);
        push_be16(encoded, self.an_count);
        push_be16(encoded, self.ns_count);
        push_be16(encoded, self.ar_count);
    }

    /// Reads a header from `bytes` at `pos`. Returns it with the position
    /// after it. Fails with `Decode` where fewer than twelve bytes are left.
    pub fn decode(bytes: &[u8], pos: usize) -> (r: Result<(DNSHeader, usize), DNSResolverError>)
        ensures
            match decode_header(bytes@, pos as int) {
                Ok((header, next)) => r matches Ok((found, after)) && found@ == header && after
                    == next,
                Err(e) => r matches Err(error) && error@ == e,
            },
    {
        match u8_bytes_to_u16_vec(bytes, pos, 6) {
            Ok((parts, next)) => Ok(
                (
                    DNSHeader {
                        id: parts[0],
                        flags: parts[1],
                        qd_count: parts[2],
                        an_count: parts[3],
                        ns_count: parts[4],
                        ar_count: parts[5],
                    },
                    next,
                ),
            ),
            Err(error) => Err(map_decode_err("header", &error)),
        }
    }
}

/// A question of a DNS message.
#[derive(Debug)]
pub struct DNSQuestion {
    name: DomainName,
    q_type: RRType,
    class: u16,
}

/// What a question holds.
pub struct QuestionView {
    pub name: Seq<char>,
    pub q_type: RRType,
    pub class: u16,
}

impl View for DNSQuestion {
    type V = QuestionView;

    closed spec fn view(&self) -> QuestionView {
        QuestionView { name: self.name@, q_type: self.q_type, class: self.class }
    }
}

impl Clone for DNSQuestion {
    fn clone(&self) -> (question: Self)
        ensures
            question@ == self@,
    {
        DNSQuestion { name: self.name.clone(), q_type: self.q_type, class: self.class }
    }
}

/// The labels of a name given as text.
pub open spec fn labels_of_text(name: Seq<char>) -> Seq<Seq<u8>> {
    labels_of(encode_utf8(name))
}

/// The wire form of a question: the name without compression, then the
/// type's code and the class.
pub open spec fn question_bytes(question: QuestionView) -> Seq<u8> {
    wire_name(labels_of_text(question.name)) + be16_bytes(code_of(question.q_type)) + be16_bytes(
        question.class,
    )
}

/// The error for a question whose name has a label of more than 63 bytes.
pub open spec fn question_name_error() -> ErrorView {
    ErrorView::Encode("question"@, message_of(label_too_long()))
}

/// What decoding a question from `bytes` at `pos` gives: the question and
/// the position after it, or the error that stopped it. The name is read
/// without a message to follow pointers in; the type's code and the class
/// follow it.
pub open spec fn decode_question(bytes: Seq<u8>, pos: int) -> Result<
    (QuestionView, int),
    ErrorView,
> {
    match read_labels(bytes, pos, None, MAX_POINTER_JUMPS as nat) {
        Err(e) => Err(e),
        Ok((labels, after_name)) => match read_be16s(bytes, after_name, 2) {
            None => Err(ErrorView::Parse),
            Some((parts, next)) => match type_of_code(parts[0]) {
                None => Err(ErrorView::InvalidRecordType(decimal(parts[0] as nat))),
                Some(q_type) => Ok(
                    (QuestionView { name: name_text(labels), q_type, class: parts[1] }, next),
                ),
            },
        },
    }
}

impl DNSQuestion {
    /// A question for the records of type `q_type` and class `class` of
    /// `name`.
    pub fn new(name: DomainName, q_type: RRType, class: u16) -> (question: DNSQuestion)
        ensures
            question@ == (QuestionView { name: name@, q_type, class }),
    {
        DNSQuestion { name, q_type, class }
    }

    /// The name that the question asks about.
    pub fn name(&self) -> (name: &DomainName)
        ensures
            name@ == self@.name,
    {
        &self.name
    }

    /// The record type that the question asks for.
    pub fn q_type(&self) -> (q_type: &RRType)
        ensures
            *q_type == self@.q_type,
    {
        &self.q_type
    }

    /// The class that the question asks for.
    pub fn class(&self) -> (class: u16)
        ensures
            class == self@.class,
    {
        self.class
    }

    /// Appends the wire form of the question: the name without compression,
    /// the type's code and the class. Fails with `Encode` where a label of
    /// the name has more than 63 bytes; the labels before it have then been
    /// appended.
    pub fn encode(&self, encoded: &mut Vec<u8>) -> (r: Result<(), DNSResolverError>)
        ensures
            match r {
                Ok(_) => labels_fit(labels_of_text(self@.name)) && final(encoded)@ == old(
                    encoded,
                )@ + question_bytes(self@),
                Err(e) => !labels_fit(labels_of_text(self@.name)) && e@ == question_name_error()
                    && final(encoded)@ == old(encoded)@ + wire_labels(
                    labels_of_text(self@.name).take(fitting_prefix(labels_of_text(self@.name))),
                ),
            },
    {
        match self.name.encode(encoded) {
            Ok(_) => {},
            Err(error) => {
                return Err(map_encode_err("question", &error));
            },
        }
        push_be16(encoded, self.q_type.code());
        push_be16(encoded, self.class);
        Ok(())
    }

    /// Reads a question from `bytes` at `pos`. Returns it with the position
    /// after it. Fails with the error of the name where the name cannot be
    /// read, with `Parse` where fewer than four bytes follow the name, and
    /// with `InvalidRecordType` where the type's code is unknown.
    pub fn decode(bytes: &[u8], pos: usize) -> (r: Result<(DNSQuestion, usize), DNSResolverError>)
        ensures
            match decode_question(bytes@, pos as int) {
                Ok((question, next)) => r matches Ok((found, after)) && found@ == question
                    && after == next,
                Err(e) => r matches Err(error) && error@ == e,
            },
    {
        let mut label_parser = LabelSequenceParser::new();
        let (name, after_name) = match label_parser.construct_domain_name(bytes, pos, None) {
            Ok(read) => read,
            Err(error) => {
                return Err(error);
            },
        };
        proof {
            if let Ok((labels, _)) = read_labels(
                bytes@,
                pos as int,
                None,
                MAX_POINTER_JUMPS as nat,
            ) {
                assert(Seq::<Seq<char>>::empty() + label_texts(labels)
                    == label_texts(labels));
            }
        }
        let (parts, next) = match u8_bytes_to_u16_vec(bytes, after_name, 2) {
            Ok(read) => read,
            Err(error) => {
                return Err(error);
            },
        };
        let q_type = match RRType::from_code(parts[0]) {
            Ok(q_type) => q_type,
            Err(error) => {
                return Err(error);
            },
        };
        Ok((DNSQuestion { name, q_type, class: parts[1] }, next))
    }
}

/// The bytes of the query that `build_query` builds for a name and a type.
pub open spec fn query_bytes(domain_name: Seq<char>, record_type: RRType) -> Seq<u8> {
    header_bytes(
        HeaderView {
            id: QUERY_ID,
            flags: 0,
            qd_count: 1,
            an_count: 0,
            ns_count: 0,
            ar_count: 0,
        },
    ) + question_bytes(QuestionView { name: domain_name, q_type: record_type, class: CLASS_IN })
}

/// Builds the wire form of a query for the records of type `record_type` of
/// `domain_name`: a header with the fixed identifier, no flag set and one
/// question, then the question in the class of the Internet. Fails with
/// `Encode` where a label of the name has more than 63 bytes.
pub fn build_query(domain_name: String, record_type: RRType) -> (r: Result<
    Vec<u8>,
    DNSResolverError,
>)
    ensures
        match r {
            Ok(query) => labels_fit(labels_of_text(domain_name@)) && query@ == query_bytes(
                domain_name@,
                record_type,
            ),
            Err(e) => !labels_fit(labels_of_text(domain_name@)) && e@ == question_name_error(),
        },
{
    let header = DNSHeader::new(QUERY_ID, 0, 1, 0, 0, 0);
    let question = DNSQuestion::new(DomainName::new(domain_name), record_type, CLASS_IN);
    let mut query: Vec<u8> = Vec::new();
    header.encode(&mut query);
    match question.encode(&mut query) {
        Ok(_) => Ok(query),
        Err(error) => Err(error),
    }
}

/// The header of a message that was encoded is the one that decoding reads.
pub proof fn lemma_header_round_trip(header: HeaderView, before: Seq<u8>, after: Seq<u8>)
    ensures
        decode_header(before + header_bytes(header) + after, before.len() as int) == Ok::<
            (HeaderView, int),
            ErrorView,
        >((header, before.len() as int + 12)),
{
    let bytes = before + header_bytes(header) + after;
    let pos = before.len() as int;
    let encoded = header_bytes(header);
    assert(encoded.len() == 12);
    assert forall|i: int| 0 <= i < 12 implies bytes[pos + i] == encoded[i] by {}
    let (parts, _) = read_be16s(bytes, pos, 6).unwrap();
    lemma_be16_round_trip(header.id);
    lemma_be16_round_trip(header.flags);
    lemma_be16_round_trip(header.qd_count);
    lemma_be16_round_trip(header.an_count);
    lemma_be16_round_trip(header.ns_count);
    lemma_be16_round_trip(header.ar_count);
    assert(parts[0] == be16(bytes[pos], bytes[pos + 1]));
    assert(parts[1] == be16(bytes[pos + 2], bytes[pos + 3]));
    assert(parts[2] == be16(bytes[pos + 4], bytes[pos + 5]));
    assert(parts[3] == be16(bytes[pos + 6], bytes[pos + 7]));
    assert(parts[4] == be16(bytes[pos + 8], bytes[pos + 9]));
    assert(parts[5] == be16(bytes[pos + 10], bytes[pos + 11]));
    assert(bytes[pos] == encoded[0]);
    assert(bytes[pos + 1] == encoded[1]);
    assert(bytes[pos + 2] == encoded[2]);
    assert(bytes[pos + 3] == encoded[3]);
    assert(bytes[pos + 4] == encoded[4]);
    assert(bytes[pos + 5] == encoded[5]);
    assert(bytes[pos + 6] == encoded[6]);
    assert(bytes[pos + 7] == encoded[7]);
    assert(bytes[pos + 8] == encoded[8]);
    assert(bytes[pos + 9] == encoded[9]);
    assert(bytes[pos + 10] == encoded[10]);
    assert(bytes[pos + 11] == encoded[11]);
}

} // verus!
