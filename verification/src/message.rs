//! Whole DNS messages: a header and four sections.

use crate::domain_name::{label_too_long, labels_fit};
use crate::error::{DNSResolverError, ErrorView};
use crate::query::{
    decode_header, decode_question, header_bytes, labels_of_text, question_bytes,
    question_name_error, DNSHeader, DNSQuestion, HeaderView, QuestionView,
};
use crate::resource_record::{
    decode_record, record_bytes, record_views, text_of, DNSRecord, RecordView,
};
use crate::rr_types::RRType;
use crate::text::texts;
use vstd::prelude::*;

verus! {

/// What a message holds.
pub struct MessageView {
    pub header: HeaderView,
    pub questions: Seq<QuestionView>,
    pub answers: Seq<RecordView>,
    pub authorities: Seq<RecordView>,
    pub additionals: Seq<RecordView>,
}

/// The views of a sequence of questions.
pub open spec fn question_views(questions: Seq<DNSQuestion>) -> Seq<QuestionView> {
    Seq::new(questions.len(), |i: int| questions[i]@)
}

/// Whether the counts of the header are the lengths of the sections.
pub open spec fn counts_match(message: MessageView) -> bool {
    &&& message.header.qd_count == message.questions.len()
    &&& message.header.an_count == message.answers.len()
    &&& message.header.ns_count == message.authorities.len()
    &&& message.header.ar_count == message.additionals.len()
}

/// What reading `count` questions from `bytes` at `pos` gives: the questions
/// and the position after them, or the error of the first one that cannot be
/// read.
pub open spec fn decode_question_list(bytes: Seq<u8>, pos: int, count: nat) -> Result<
    (Seq<QuestionView>, int),
    ErrorView,
>
    decreases count,
{
    if count == 0 {
        Ok((Seq::empty(), pos))
    } else {
        match decode_question(bytes, pos) {
            Err(e) => Err(e),
            Ok((question, next)) => match decode_question_list(bytes, next, (count - 1) as nat) {
                Err(e) => Err(e),
                Ok((rest, end)) => Ok((seq![question] + rest, end)),
            },
        }
    }
}

/// What reading `count` records from `message` at `pos` gives: the records
/// and the position after them, or the error of the first one that cannot be
/// read.
pub open spec fn decode_record_list(message: Seq<u8>, pos: int, count: nat) -> Result<
    (Seq<RecordView>, int),
    ErrorView,
>
    decreases count,
{
    if count == 0 {
        Ok((Seq::empty(), pos))
    } else {
        match decode_record(message, pos) {
            Err(e) => Err(e),
            Ok((record, next)) => match decode_record_list(message, next, (count - 1) as nat) {
                Err(e) => Err(e),
                Ok((rest, end)) => Ok((seq![record] + rest, end)),
            },
        }
    }
}

/// What decoding a message gives: the header, then as many questions,
/// answers, authority records and additional records as the header
/// announces, each read where the one before it ended; or the error of the
/// first part that cannot be read.
pub open spec fn decode_message(bytes: Seq<u8>) -> Result<MessageView, ErrorView> {
    match decode_header(bytes, 0) {
        Err(e) => Err(e),
        Ok((header, after_header)) => match decode_question_list(
            bytes,
            after_header,
            header.qd_count as nat,
        ) {
            Err(e) => Err(e),
            Ok((questions, after_questions)) => match decode_record_list(
                bytes,
                after_questions,
                header.an_count as nat,
            ) {
                Err(e) => Err(e),
                Ok((answers, after_answers)) => match decode_record_list(
                    bytes,
                    after_answers,
                    header.ns_count as nat,
                ) {
                    Err(e) => Err(e),
                    Ok((authorities, after_authorities)) => match decode_record_list(
                        bytes,
                        after_authorities,
                        header.ar_count as nat,
                    ) {
                        Err(e) => Err(e),
                        Ok((additionals, _)) => Ok(
                            MessageView { header, questions, answers, authorities, additionals },
                        ),
                    },
                },
            },
        },
    }
}

/// `buffer` with the wire forms of `questions` after it, or the error for
/// the first question whose name has a label of more than 63 bytes.
pub open spec fn encode_question_list(buffer: Seq<u8>, questions: Seq<QuestionView>) -> Result<
    Seq<u8>,
    ErrorView,
>
    decreases questions.len(),
{
    if questions.len() == 0 {
        Ok(buffer)
    } else if !labels_fit(labels_of_text(questions[0].name)) {
        Err(question_name_error())
    } else {
        encode_question_list(buffer + question_bytes(questions[0]), questions.skip(1))
    }
}

/// `buffer` with the wire forms of `records` after it, each name compressed
/// against all that stands before it, or the error for the first record
/// whose name has a label of more than 63 bytes.
pub open spec fn encode_record_list(buffer: Seq<u8>, records: Seq<RecordView>) -> Result<
    Seq<u8>,
    ErrorView,
>
    decreases records.len(),
{
    if records.len() == 0 {
        Ok(buffer)
    } else if !labels_fit(labels_of_text(records[0].name)) {
        Err(label_too_long())
    } else {
        encode_record_list(buffer + record_bytes(buffer, records[0]), records.skip(1))
    }
}

/// The error for a message whose header announces other counts than its
/// sections hold.
pub open spec fn counts_error() -> ErrorView {
    ErrorView::Encode("message"@, "the header's counts are not those of the sections"@)
}

/// The wire form of a message: the header, then the questions, the answers,
/// the authority records and the additional records; or the error for counts
/// that do not match, or for the first name that cannot be encoded.
pub open spec fn encode_message(message: MessageView) -> Result<Seq<u8>, ErrorView> {
    if !counts_match(message) {
        Err(counts_error())
    } else {
        match encode_question_list(header_bytes(message.header), message.questions) {
            Err(e) => Err(e),
            Ok(with_questions) => match encode_record_list(with_questions, message.answers) {
                Err(e) => Err(e),
                Ok(with_answers) => match encode_record_list(with_answers, message.authorities) {
                    Err(e) => Err(e),
                    Ok(with_authorities) => encode_record_list(
                        with_authorities,
                        message.additionals,
                    ),
                },
            },
        }
    }
}

/// The readable data of the records of type `record_type` among `records`
/// that have some, in their order.
pub open spec fn data_of_type(records: Seq<RecordView>, record_type: RRType) -> Seq<Seq<char>>
    decreases records.len(),
{
    if records.len() == 0 {
        Seq::empty()
    } else {
        let before = data_of_type(records.drop_last(), record_type);
        if records.last().r_type == record_type && records.last().parsed is Some {
            before.push(records.last().parsed->0)
        } else {
            before
        }
    }
}

/// The readable data of the first record of type `record_type` among
/// `records`: none where there is no such record, or where the first one has
/// no readable data.
pub open spec fn first_data_of_type(records: Seq<RecordView>, record_type: RRType) -> Option<
    Seq<char>,
>
    decreases records.len(),
{
    if records.len() == 0 {
        None
    } else if records[0].r_type == record_type {
        records[0].parsed
    } else {
        first_data_of_type(records.skip(1), record_type)
    }
}

/// Reads `count` questions from `bytes` at `pos`.
pub fn decode_questions(bytes: &[u8], pos: usize, count: u16) -> (r: Result<
    (Vec<DNSQuestion>, usize),
    DNSResolverError,
>)
    ensures
        match decode_question_list(bytes@, pos as int, count as nat) {
            Ok((questions, next)) => r matches Ok((found, after)) && question_views(found@)
                == questions && after == next,
            Err(e) => r matches Err(error) && error@ == e,
        },
{
    let mut questions: Vec<DNSQuestion> = Vec::new();
    let mut at: usize = pos;
    let mut i: u16 = 0;
    proof {
        if let Ok((all, _)) = decode_question_list(bytes@, pos as int, count as nat) {
            assert(question_views(questions@) + all == all);
        }
    }
    while i < count
        invariant
            i <= count,
            decode_question_list(bytes@, pos as int, count as nat) == match decode_question_list(
                bytes@,
                at as int,
                (count - i) as nat,
            ) {
                Ok((rest, next)) => Ok::<(Seq<QuestionView>, int), ErrorView>(
                    (question_views(questions@) + rest, next),
                ),
                Err(e) => Err(e),
            },
        decreases count - i,
    {
        let (question, next) = match DNSQuestion::decode(bytes, at) {
            Ok(read) => read,
            Err(error) => {
                return Err(error);
            },
        };
        let ghost before = question_views(questions@);
        questions.push(question);
        proof {
            assert(question_views(questions@) == before.push(question@));
            if let Ok((rest, _)) = decode_question_list(
                bytes@,
                next as int,
                (count - i - 1) as nat,
            ) {
                assert(before + (seq![question@] + rest) == before.push(question@) + rest);
            }
        }
        at = next;
        i = i + 1;
    }
    proof {
        assert(question_views(questions@) + Seq::<QuestionView>::empty() == question_views(
            questions@,
        ));
    }
    Ok((questions, at))
}

/// Reads `count` records from `message` at `pos`.
pub fn decode_records(message: &[u8], pos: usize, count: u16) -> (r: Result<
    (Vec<DNSRecord>, usize),
    DNSResolverError,
>)
    ensures
        match decode_record_list(message@, pos as int, count as nat) {
            Ok((records, next)) => r matches Ok((found, after)) && record_views(found@) == records
                && after == next,
            Err(e) => r matches Err(error) && error@ == e,
        },
{
    let mut records: Vec<DNSRecord> = Vec::new();
    let mut at: usize = pos;
    let mut i: u16 = 0;
    proof {
        if let Ok((all, _)) = decode_record_list(message@, pos as int, count as nat) {
            assert(record_views(records@) + all == all);
        }
    }
    while i < count
        invariant
            i <= count,
            decode_record_list(message@, pos as int, count as nat) == match decode_record_list(
                message@,
                at as int,
                (count - i) as nat,
            ) {
                Ok((rest, next)) => Ok::<(Seq<RecordView>, int), ErrorView>(
                    (record_views(records@) + rest, next),
                ),
                Err(e) => Err(e),
            },
        decreases count - i,
    {
        let (record, next) = match DNSRecord::decode(message, at) {
            Ok(read) => read,
            Err(error) => {
                return Err(error);
            },
        };
        let ghost before = record_views(records@);
        records.push(record);
        proof {
            assert(record_views(records@) == before.push(record@));
            if let Ok((rest, _)) = decode_record_list(
                message@,
                next as int,
                (count - i - 1) as nat,
            ) {
                assert(before + (seq![record@] + rest) == before.push(record@) + rest);
            }
        }
        at = next;
        i = i + 1;
    }
    proof {
        assert(record_views(records@) + Seq::<RecordView>::empty() == record_views(records@));
    }
    Ok((records, at))
}

/// Appends the wire forms of `questions`. On an error `encoded` keeps what
/// it held, with what was appended before the error after it.
pub fn encode_questions(questions: &Vec<DNSQuestion>, encoded: &mut Vec<u8>) -> (r: Result<
    (),
    DNSResolverError,
>)
    ensures
        match encode_question_list(old(encoded)@, question_views(questions@)) {
            Ok(bytes) => r is Ok && final(encoded)@ == bytes,
            Err(e) => r matches Err(error) && error@ == e && old(encoded)@.is_prefix_of(
                final(encoded)@,
            ),
        },
{
    let mut i: usize = 0;
    proof {
        assert(question_views(questions@).skip(0) == question_views(questions@));
    }
    while i < questions.len()
        invariant
            i <= questions@.len(),
            old(encoded)@.is_prefix_of(encoded@),
            encode_question_list(old(encoded)@, question_views(questions@))
                == encode_question_list(encoded@, question_views(questions@).skip(i as int)),
        decreases questions@.len() - i,
    {
        let ghost rest = question_views(questions@).skip(i as int);
        proof {
            assert(rest[0] == questions@[i as int]@);
            assert(rest.skip(1) == question_views(questions@).skip(i + 1));
        }
        match questions[i].encode(encoded) {
            Ok(_) => {},
            Err(error) => {
                return Err(error);
            },
        }
        i = i + 1;
    }
    Ok(())
}

/// Appends the wire forms of `records`, each name compressed against all
/// that stands before it. On an error `encoded` keeps what it held, with
/// what was appended before the error after it.
pub fn encode_records(records: &Vec<DNSRecord>, encoded: &mut Vec<u8>) -> (r: Result<
    (),
    DNSResolverError,
>)
    ensures
        match encode_record_list(old(encoded)@, record_views(records@)) {
            Ok(bytes) => r is Ok && final(encoded)@ == bytes,
            Err(e) => r matches Err(error) && error@ == e && old(encoded)@.is_prefix_of(
                final(encoded)@,
            ),
        },
{
    let mut i: usize = 0;
    proof {
        assert(record_views(records@).skip(0) == record_views(records@));
    }
    while i < records.len()
        invariant
            i <= records@.len(),
            old(encoded)@.is_prefix_of(encoded@),
            encode_record_list(old(encoded)@, record_views(records@)) == encode_record_list(
                encoded@,
                record_views(records@).skip(i as int),
            ),
        decreases records@.len() - i,
    {
        let ghost rest = record_views(records@).skip(i as int);
        proof {
            assert(rest[0] == records@[i as int]@);
            assert(rest.skip(1) == record_views(records@).skip(i + 1));
        }
        match records[i].encode(encoded) {
            Ok(_) => {},
            Err(error) => {
                return Err(error);
            },
        }
        i = i + 1;
    }
    Ok(())
}

/// The readable data of the records of type `record_type` among `records`
/// that have some, in their order.
pub fn records_data(records: &Vec<DNSRecord>, record_type: &RRType) -> (data: Vec<String>)
    ensures
        texts(data@) == data_of_type(record_views(records@), *record_type),
{
    let mut data: Vec<String> = Vec::new();
    let mut i: usize = 0;
    proof {
        assert(record_views(records@).take(0) == Seq::<RecordView>::empty());
    }
    while i < records.len()
        invariant
            i <= records@.len(),
            texts(data@) == data_of_type(record_views(records@).take(i as int), *record_type),
        decreases records@.len() - i,
    {
        let record = &records[i];
        proof {
            let upto = record_views(records@).take(i + 1);
            assert(upto.drop_last() == record_views(records@).take(i as int));
            assert(upto.last() == record@);
        }
        if *record.r_type() == *record_type {
            if let Some(text) = record.parsed_data() {
                let ghost before = texts(data@);
                data.push(text.clone());
                proof {
                    assert(texts(data@) == before.push(text@));
                }
            }
        }
        i = i + 1;
    }
    proof {
        assert(record_views(records@).take(records@.len() as int) == record_views(records@));
    }
    data
}

/// The readable data of the first record of type `record_type` among
/// `records`: none where there is no such record, or where the first one has
/// no readable data.
pub fn first_record_data(records: &Vec<DNSRecord>, record_type: RRType) -> (data: &Option<String>)
    ensures
        text_of(*data) == first_data_of_type(record_views(records@), record_type),
{
    let mut i: usize = 0;
    proof {
        assert(record_views(records@).skip(0) == record_views(records@));
    }
    while i < records.len()
        invariant
            i <= records@.len(),
            first_data_of_type(record_views(records@), record_type) == first_data_of_type(
                record_views(records@).skip(i as int),
                record_type,
            ),
        decreases records@.len() - i,
    {
        let record = &records[i];
        proof {
            let rest = record_views(records@).skip(i as int);
            assert(rest[0] == record@);
            assert(rest.skip(1) == record_views(records@).skip(i + 1));
        }
        if *record.r_type() == record_type {
            return record.parsed_data();
        }
        i = i + 1;
    }
    &None
}

/// A DNS message.
#[derive(Debug)]
pub struct DNSMessage {
    header: DNSHeader,
    questions: Vec<DNSQuestion>,
    answers: Vec<DNSRecord>,
    authorities: Vec<DNSRecord>,
    additionals: Vec<DNSRecord>,
}

impl View for DNSMessage {
    type V = MessageView;

    closed spec fn view(&self) -> MessageView {
        MessageView {
            header: self.header@,
            questions: question_views(self.questions@),
            answers: record_views(self.answers@),
            authorities: record_views(self.authorities@),
            additionals: record_views(self.additionals@),
        }
    }
}

impl DNSMessage {
    /// A message with the given header and sections.
    pub fn new(
        header: DNSHeader,
        questions: Vec<DNSQuestion>,
        answers: Vec<DNSRecord>,
        authorities: Vec<DNSRecord>,
        additionals: Vec<DNSRecord>,
    ) -> (message: DNSMessage)
        ensures
            message@ == (MessageView {
                header: header@,
                questions: question_views(questions@),
                answers: record_views(answers@),
                authorities: record_views(authorities@),
                additionals: record_views(additionals@),
            }),
    {
        DNSMessage { header, questions, answers, authorities, additionals }
    }

    /// Decodes a message from its wire form: the header, then as many
    /// questions and records of each section as the header announces. Fails
    /// with the error of the first part that cannot be read.
    pub fn decode(message: &Vec<u8>) -> (r: Result<DNSMessage, DNSResolverError>)
        ensures
            match decode_message(message@) {
                Ok(decoded) => r matches Ok(found) && found@ == decoded,
                Err(e) => r matches Err(error) && error@ == e,
            },
    {
        let bytes = message.as_slice();
        let (header, after_header) = match DNSHeader::decode(bytes, 0) {
            Ok(read) => read,
            Err(error) => {
                return Err(error);
            },
        };
        let (questions, after_questions) = match decode_questions(
            bytes,
            after_header,
            header.num_questions(),
        ) {
            Ok(read) => read,
            Err(error) => {
                return Err(error);
            },
        };
        let (answers, after_answers) = match decode_records(
            bytes,
            after_questions,
            header.num_answers(),
        ) {
            Ok(read) => read,
            Err(error) => {
                return Err(error);
            },
        };
        let (authorities, after_authorities) = match decode_records(
            bytes,
            after_answers,
            header.num_authorities(),
        ) {
            Ok(read) => read,
            Err(error) => {
                return Err(error);
            },
        };
        let (additionals, _) = match decode_records(
            bytes,
            after_authorities,
            header.num_additionals(),
        ) {
            Ok(read) => read,
            Err(error) => {
                return Err(error);
            },
        };
        Ok(DNSMessage { header, questions, answers, authorities, additionals })
    }

    /// Whether the counts of the header are the lengths of the sections.
    pub fn counts_match(&self) -> (consistent: bool)
        ensures
            consistent == counts_match(self@),
    {
        self.questions.len() == self.header.num_questions() as usize && self.answers.len()
            == self.header.num_answers() as usize && self.authorities.len()
            == self.header.num_authorities() as usize && self.additionals.len()
            == self.header.num_additionals() as usize
    }

    /// Encodes the message into its wire form: the header, then each section
    /// in its order. Fails with `Encode` where the header's counts are not
    /// the lengths of the sections, and where a name has a label of more
    /// than 63 bytes.
    pub fn encode(&self) -> (r: Result<Vec<u8>, DNSResolverError>)
        ensures
            match encode_message(self@) {
                Ok(bytes) => r matches Ok(found) && found@ == bytes,
                Err(e) => r matches Err(error) && error@ == e,
            },
    {
        if !self.counts_match() {
            return Err(
                DNSResolverError::encoding(
                    "message",
                    "the header's counts are not those of the sections",
                ),
            );
        }
        let mut encoded: Vec<u8> = Vec::new();
        self.header.encode(&mut encoded);
        assert(encoded@ == header_bytes(self@.header));
        match encode_questions(&self.questions, &mut encoded) {
            Ok(_) => {},
            Err(error) => {
                return Err(error);
            },
        }
        match encode_records(&self.answers, &mut encoded) {
            Ok(_) => {},
            Err(error) => {
                return Err(error);
            },
        }
        match encode_records(&self.authorities, &mut encoded) {
            Ok(_) => {},
            Err(error) => {
                return Err(error);
            },
        }
        match encode_records(&self.additionals, &mut encoded) {
            Ok(_) => {},
            Err(error) => {
                return Err(error);
            },
        }
        Ok(encoded)
    }

    /// Sets the identifier in the header. Nothing else changes.
    pub fn set_id(&mut self, id: u16)
        ensures
            final(self)@ == (MessageView {
                header: HeaderView { id, ..old(self)@.header },
                ..old(self)@
            }),
    {
        self.header.set_id(id);
    }

    /// The header of the message.
    pub fn header(&self) -> (header: &DNSHeader)
        ensures
            header@ == self@.header,
    {
        &self.header
    }

    /// The whole answers section.
    pub fn answers(&mut self) -> (answers: &Vec<DNSRecord>)
        ensures
            record_views(answers@) == old(self)@.answers,
            final(self)@ == old(self)@,
    {
        &self.answers
    }

    /// The readable data of the answers of type `record_type` that have
    /// some, in their order.
    pub fn answers_data(&self, record_type: &RRType) -> (data: Vec<String>)
        ensures
            texts(data@) == data_of_type(self@.answers, *record_type),
    {
        records_data(&self.answers, record_type)
    }

    /// The readable data of the first A record of the additionals section.
    pub fn ns_ip(&self) -> (address: &Option<String>)
        ensures
            text_of(*address) == first_data_of_type(self@.additionals, RRType::A),
    {
        first_record_data(&self.additionals, RRType::A)
    }

    /// The readable data of the first NS record of the authorities section.
    pub fn nameserver(&self) -> (name: &Option<String>)
        ensures
            text_of(*name) == first_data_of_type(self@.authorities, RRType::NS),
    {
        first_record_data(&self.authorities, RRType::NS)
    }
}

} // verus!
