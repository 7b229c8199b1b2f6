//! The decisions of the serving loop: reading a request, answering it from
//! the cache, and shaping the reply after a resolution.

use crate::cache::{copy_records, key_of, was_read, was_stored, AnswerView, DNSCache};
use crate::error::{DNSResolverError, ErrorView};
use crate::message::{question_views, DNSMessage, MessageView};
use crate::query::{
    decode_header, decode_question, DNSHeader, DNSQuestion, HeaderView, QuestionView, QR, QR_BIT,
    RA_BIT, RD_BIT,
};
use crate::resource_record::{record_views, DNSRecord, RecordView};
use crate::utils::{bit_at, with_bit};
use vstd::prelude::*;

verus! {

/// The response code for a failure of the server.
pub const SERVFAIL: u16 = 2;

/// The most records that one section of a message can hold.
pub const MAX_SECTION_LEN: usize = 65535;

/// The flags of a reply to a request with the flags `request_flags`: a
/// response, recursion available, and recursion desired as the request has
/// it. Every other bit is 0.
pub open spec fn reply_flags(request_flags: u16) -> u16 {
    with_bit(
        with_bit(with_bit(0, true, QR_BIT), bit_at(request_flags, RD_BIT), RD_BIT),
        true,
        RA_BIT,
    )
}

/// The flags `flags` with the response code `rcode` in the four lowest bits.
pub open spec fn with_rcode(flags: u16, rcode: u16) -> u16 {
    (flags & 0xfff0) | (rcode & 0xf)
}

/// What reading a request from a datagram gives: the header and the first
/// question, or the error of the part that cannot be read. What follows the
/// first question is not read.
pub open spec fn request_of(datagram: Seq<u8>) -> Result<(HeaderView, QuestionView), ErrorView> {
    match decode_header(datagram, 0) {
        Err(e) => Err(e),
        Ok((header, after_header)) => match decode_question(datagram, after_header) {
            Err(e) => Err(e),
            Ok((question, _)) => Ok((header, question)),
        },
    }
}

/// The reply to `question` with the answers `records` for a request with
/// the header `request`.
pub open spec fn reply_with(
    request: HeaderView,
    question: QuestionView,
    records: Seq<RecordView>,
) -> MessageView {
    MessageView {
        header: HeaderView {
            id: request.id,
            flags: reply_flags(request.flags),
            qd_count: 1,
            an_count: records.len() as u16,
            ns_count: 0,
            ar_count: 0,
        },
        questions: seq![question],
        answers: records,
        authorities: Seq::empty(),
        additionals: Seq::empty(),
    }
}

/// The reply that tells the failure of the server to answer `question`, for
/// a request with the header `request`.
pub open spec fn failure_of(request: HeaderView, question: QuestionView) -> MessageView {
    MessageView {
        header: HeaderView {
            id: request.id,
            flags: with_rcode(reply_flags(request.flags), SERVFAIL),
            qd_count: 1,
            an_count: 0,
            ns_count: 0,
            ar_count: 0,
        },
        questions: seq![question],
        answers: Seq::empty(),
        authorities: Seq::empty(),
        additionals: Seq::empty(),
    }
}

/// The error for more records than one section can hold.
pub open spec fn section_error() -> ErrorView {
    ErrorView::Encode("message"@, "more records than a section can hold"@)
}

/// Reads the header and the first question of a request.
pub fn read_request(datagram: &[u8]) -> (r: Result<(DNSHeader, DNSQuestion), DNSResolverError>)
    ensures
        match request_of(datagram@) {
            Ok((header, question)) => r matches Ok((found, asked)) && found@ == header && asked@
                == question,
            Err(e) => r matches Err(error) && error@ == e,
        },
{
    let (header, after_header) = match DNSHeader::decode(datagram, 0) {
        Ok(read) => read,
        Err(error) => {
            return Err(error);
        },
    };
    match DNSQuestion::decode(datagram, after_header) {
        Ok((question, _)) => Ok((header, question)),
        Err(error) => Err(error),
    }
}

fn reply_header(request: &DNSHeader, answers: u16) -> (header: DNSHeader)
    ensures
        header@ == (HeaderView {
            id: request@.id,
            flags: reply_flags(request@.flags),
            qd_count: 1,
            an_count: answers,
            ns_count: 0,
            ar_count: 0,
        }),
{
    let mut header = DNSHeader::new(request.id(), 0, 1, answers, 0, 0);
    header.set_qr(QR::Response);
    header.set_recursion_desired(request.recursion_desired());
    header.set_recursion_available(true);
    header
}

/// Builds the reply to `question` with the answers `records`, for a request
/// with the header `request`: the identifier of the request, the flags of a
/// response with recursion available and recursion desired as the request
/// has it, the question, and the records as answers. Fails with `Encode`
/// for more than 65535 records.
pub fn build_reply(request: &DNSHeader, question: DNSQuestion, records: Vec<DNSRecord>) -> (r:
    Result<DNSMessage, DNSResolverError>)
    ensures
        match r {
            Ok(message) => records@.len() <= MAX_SECTION_LEN && message@ == reply_with(
                request@,
                question@,
                record_views(records@),
            ),
            Err(e) => records@.len() > MAX_SECTION_LEN && e@ == section_error(),
        },
{
    if records.len() > MAX_SECTION_LEN {
        return Err(DNSResolverError::encoding("message", "more records than a section can hold"));
    }
    let header = reply_header(request, records.len() as u16);
    let mut questions: Vec<DNSQuestion> = Vec::new();
    questions.push(question);
    assert(question_views(questions@) == seq![question@]);
    let authorities: Vec<DNSRecord> = Vec::new();
    let additionals: Vec<DNSRecord> = Vec::new();
    assert(record_views(authorities@) == Seq::<RecordView>::empty());
    assert(record_views(additionals@) == Seq::<RecordView>::empty());
    Ok(DNSMessage::new(header, questions, records, authorities, additionals))
}

/// Builds the reply that tells the failure of the server to answer
/// `question`, for a request with the header `request`: the flags of a
/// reply with the response code for a server failure, the question, and no
/// record.
pub fn build_failure(request: &DNSHeader, question: DNSQuestion) -> (message: DNSMessage)
    ensures
        message@ == failure_of(request@, question@),
{
    let plain = reply_header(request, 0);
    let flags: u16 = (plain.flags() & 0xfff0) | (SERVFAIL & 0xf);
    let header = DNSHeader::new(plain.id(), flags, 1, 0, 0, 0);
    let mut questions: Vec<DNSQuestion> = Vec::new();
    questions.push(question);
    assert(question_views(questions@) == seq![question@]);
    let answers: Vec<DNSRecord> = Vec::new();
    let authorities: Vec<DNSRecord> = Vec::new();
    let additionals: Vec<DNSRecord> = Vec::new();
    assert(record_views(answers@) == Seq::<RecordView>::empty());
    assert(record_views(authorities@) == Seq::<RecordView>::empty());
    assert(record_views(additionals@) == Seq::<RecordView>::empty());
    DNSMessage::new(header, questions, answers, authorities, additionals)
}

/// Answers `question` from the cache at `now`, if the cache holds an answer
/// that has not expired: the reply of `build_reply` with the records of that
/// answer. The cache is read as `get_at` reads it.
pub fn answer_from_cache(
    cache: &mut DNSCache,
    request: &DNSHeader,
    question: &DNSQuestion,
    now: u128,
) -> (reply: Option<DNSMessage>)
    requires
        old(cache).wf(),
    ensures
        final(cache).wf(),
        final(cache).capacity() == old(cache).capacity(),
        exists|answer: Option<AnswerView>|
            {
                &&& #[trigger] was_read(
                    old(cache)@,
                    final(cache)@,
                    key_of(question@.name, question@.q_type),
                    now,
                    answer,
                )
                &&& match answer {
                    Some(found) => if found.records.len() <= MAX_SECTION_LEN {
                        reply matches Some(message) && message@ == reply_with(
                            request@,
                            question@,
                            found.records,
                        )
                    } else {
                        reply is None
                    },
                    None => reply is None,
                }
            },
{
    match cache.get_at(question.name(), question.q_type(), now) {
        Some(answer) => {
            let ghost found = Some(answer@);
            let reply = match build_reply(request, question.clone(), answer.data()) {
                Ok(message) => Some(message),
                Err(_) => None,
            };
            assert(was_read(
                old(cache)@,
                cache@,
                key_of(question@.name, question@.q_type),
                now,
                found,
            ));
            reply
        },
        None => {
            assert(was_read(
                old(cache)@,
                cache@,
                key_of(question@.name, question@.q_type),
                now,
                None,
            ));
            None
        },
    }
}

/// Shapes the response `message` of a resolution into the reply to a request
/// with the header `request`: the identifier becomes that of the request.
/// The answers of the response are stored in the cache at `now` for
/// `question`, as `insert_at` stores them.
pub fn reply_after_resolution(
    cache: &mut DNSCache,
    request: &DNSHeader,
    question: &DNSQuestion,
    message: DNSMessage,
    now: u128,
) -> (reply: DNSMessage)
    requires
        old(cache).wf(),
    ensures
        final(cache).wf(),
        final(cache).capacity() == old(cache).capacity(),
        reply@ == (MessageView {
            header: HeaderView { id: request@.id, ..message@.header },
            ..message@
        }),
        was_stored(
            old(cache)@,
            final(cache)@,
            old(cache).capacity(),
            key_of(question@.name, question@.q_type),
            message@.answers,
            now,
        ),
{
    let mut reply = message;
    reply.set_id(request.id());
    let answers = copy_records(reply.answers());
    cache.insert_at(question.name(), question.q_type(), answers, now);
    reply
}

} // verus!
