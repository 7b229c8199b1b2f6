//! What compression gains: a name that stands in the message already is
//! written as a pointer, and no name gets longer.

use crate::domain_name::{
    compressed_name, compression_point, first_occurrence, lemma_first_occurrence_exists,
    lemma_label_end_bounds, lemma_wire_labels_concat, occurs_at, pointer_bytes, pointer_target_for,
    wire_labels, wire_name, POINTER_LIMIT,
};
use crate::message::{encode_message, encode_question_list, encode_record_list, MessageView};
use crate::query::{header_bytes, labels_of_text, question_bytes, QuestionView};
use crate::resource_record::{record_bytes, record_tail_bytes, RecordView};
use vstd::prelude::*;
use vstd::utf8::encode_utf8;

verus! {

/// Where the wire form of labels stands in a buffer, the wire form of each
/// of their suffixes stands there too, after the labels in front of it.
pub proof fn lemma_suffix_stands(buffer: Seq<u8>, labels: Seq<Seq<u8>>, at: int, start: int)
    requires
        occurs_at(buffer, wire_labels(labels), at),
        0 <= start <= labels.len(),
    ensures
        occurs_at(
            buffer,
            wire_labels(labels.skip(start)),
            at + wire_labels(labels.take(start)).len(),
        ),
        wire_labels(labels).len() == wire_labels(labels.take(start)).len() + wire_labels(
            labels.skip(start),
        ).len(),
{
    lemma_wire_labels_concat(labels.take(start), labels.skip(start));
    assert(labels.take(start) + labels.skip(start) == labels);
    let front = wire_labels(labels.take(start));
    let back = wire_labels(labels.skip(start));
    let whole = wire_labels(labels);
    assert(whole == front + back);
    assert(buffer.subrange(at + front.len(), at + front.len() + back.len()) =~= back) by {
        assert forall|i: int| 0 <= i < back.len() implies buffer[at + front.len() + i]
            == back[i] by {
            assert(buffer.subrange(at, at + whole.len())[front.len() + i] == buffer[at
                + front.len() + i]);
            assert(whole[front.len() + i] == back[i]);
        }
    }
}

/// The wire form of labels that are there has a byte at least.
pub proof fn lemma_wire_labels_not_empty(labels: Seq<Seq<u8>>)
    requires
        labels.len() > 0,
    ensures
        wire_labels(labels).len() >= 1 + labels[0].len(),
{
}

/// A name whose wire form stands in the buffer within the reach of a
/// pointer is written as a pointer and nothing else: two bytes, which lead
/// to the first place at which the wire form stands.
pub proof fn lemma_known_name_is_pointer(buffer: Seq<u8>, labels: Seq<Seq<u8>>, at: int)
    requires
        labels.len() > 0,
        occurs_at(buffer, wire_labels(labels), at),
        at + wire_labels(labels).len() <= POINTER_LIMIT,
    ensures
        first_occurrence(buffer, wire_labels(labels)) matches Some(first) && 0 <= first <= at
            && compressed_name(buffer, labels) == pointer_bytes(first),
        compressed_name(buffer, labels).len() == 2,
{
    lemma_walk_reaches_front(buffer, labels, at, labels.len() as int);
    lemma_first_occurrence_exists(buffer, wire_labels(labels), at);
    assert(labels.skip(0) == labels);
    assert(labels.take(0) == Seq::<Seq<u8>>::empty());
    assert(wire_labels(labels.take(0)) + pointer_bytes(
        first_occurrence(buffer, wire_labels(labels))->0,
    ) == pointer_bytes(first_occurrence(buffer, wire_labels(labels))->0));
}

proof fn lemma_walk_reaches_front(buffer: Seq<u8>, labels: Seq<Seq<u8>>, at: int, upto: int)
    requires
        labels.len() > 0,
        occurs_at(buffer, wire_labels(labels), at),
        at + wire_labels(labels).len() <= POINTER_LIMIT,
        0 <= upto <= labels.len(),
    ensures
        compression_point(buffer, labels, upto) == 0,
    decreases upto,
{
    if upto > 0 {
        let start = upto - 1;
        lemma_suffix_stands(buffer, labels, at, start);
        let suffix = wire_labels(labels.skip(start));
        lemma_wire_labels_not_empty(labels.skip(start));
        lemma_first_occurrence_exists(
            buffer,
            suffix,
            at + wire_labels(labels.take(start)).len(),
        );
        assert(pointer_target_for(buffer, suffix) is Some);
        lemma_walk_reaches_front(buffer, labels, at, start);
    }
}

/// The compression point lies among the labels, and where the walk has moved
/// at all, the suffix that starts at the compression point stands in the
/// buffer within the reach of a pointer.
pub proof fn lemma_compression_point_bounds(buffer: Seq<u8>, labels: Seq<Seq<u8>>, upto: int)
    requires
        0 <= upto <= labels.len(),
    ensures
        0 <= compression_point(buffer, labels, upto) <= upto,
        compression_point(buffer, labels, upto) < upto ==> pointer_target_for(
            buffer,
            wire_labels(labels.skip(compression_point(buffer, labels, upto))),
        ) is Some,
    decreases upto,
{
    if 0 < upto && pointer_target_for(buffer, wire_labels(labels.skip(upto - 1))) is Some {
        lemma_compression_point_bounds(buffer, labels, upto - 1);
    }
}

/// The wire form of a name with compression is never longer than the one
/// without.
pub proof fn lemma_compression_never_longer(buffer: Seq<u8>, labels: Seq<Seq<u8>>)
    ensures
        compressed_name(buffer, labels).len() <= wire_name(labels).len(),
{
    let count = labels.len() as int;
    lemma_compression_point_bounds(buffer, labels, count);
    let start = compression_point(buffer, labels, count);
    if start < count {
        lemma_wire_labels_concat(labels.take(start), labels.skip(start));
        assert(labels.take(start) + labels.skip(start) == labels);
        lemma_wire_labels_not_empty(labels.skip(start));
    }
}

/// The length of the wire form of questions.
pub open spec fn question_list_len(questions: Seq<QuestionView>) -> nat
    decreases questions.len(),
{
    if questions.len() == 0 {
        0
    } else {
        question_bytes(questions[0]).len() + question_list_len(questions.skip(1))
    }
}

/// The length of the wire form of records where no name is compressed.
pub open spec fn plain_record_list_len(records: Seq<RecordView>) -> nat
    decreases records.len(),
{
    if records.len() == 0 {
        0
    } else {
        wire_name(labels_of_text(records[0].name)).len() + record_tail_bytes(records[0]).len()
            + plain_record_list_len(records.skip(1))
    }
}

/// The length of the wire form of a message where no name is compressed.
pub open spec fn plain_message_len(message: MessageView) -> nat {
    header_bytes(message.header).len() + question_list_len(message.questions)
        + plain_record_list_len(message.answers) + plain_record_list_len(message.authorities)
        + plain_record_list_len(message.additionals)
}

/// Encoding questions appends their wire forms.
pub proof fn lemma_questions_appended(buffer: Seq<u8>, questions: Seq<QuestionView>)
    requires
        encode_question_list(buffer, questions) is Ok,
    ensures
        buffer.is_prefix_of(encode_question_list(buffer, questions)->Ok_0),
        encode_question_list(buffer, questions)->Ok_0.len() == buffer.len() + question_list_len(
            questions,
        ),
    decreases questions.len(),
{
    if questions.len() > 0 {
        lemma_questions_appended(buffer + question_bytes(questions[0]), questions.skip(1));
    }
}

/// Encoding records appends to the buffer, and not more than their wire
/// forms without compression.
pub proof fn lemma_records_appended(buffer: Seq<u8>, records: Seq<RecordView>)
    requires
        encode_record_list(buffer, records) is Ok,
    ensures
        buffer.is_prefix_of(encode_record_list(buffer, records)->Ok_0),
        encode_record_list(buffer, records)->Ok_0.len() <= buffer.len() + plain_record_list_len(
            records,
        ),
        records.len() > 0 ==> encode_record_list(buffer, records)->Ok_0.len() + wire_name(
            labels_of_text(records[0].name),
        ).len() <= buffer.len() + plain_record_list_len(records) + compressed_name(
            buffer,
            labels_of_text(records[0].name),
        ).len(),
    decreases records.len(),
{
    if records.len() > 0 {
        lemma_compression_never_longer(buffer, labels_of_text(records[0].name));
        lemma_records_appended(buffer + record_bytes(buffer, records[0]), records.skip(1));
    }
}

/// In a message whose first answer belongs to the name of the first
/// question, the name of that answer is written as a pointer to a place at
/// or before the name of the question, and the message is shorter than it
/// is without compression.
///
/// This holds where the message can be encoded, the name is not empty and
/// does not begin with a dot, and the name of the question ends within the
/// reach of a pointer.
pub proof fn lemma_repeated_name_compressed(message: MessageView)
    requires
        encode_message(message) is Ok,
        message.questions.len() > 0,
        message.answers.len() > 0,
        message.answers[0].name == message.questions[0].name,
        labels_of_text(message.questions[0].name)[0].len() > 0,
        12 + wire_labels(labels_of_text(message.questions[0].name)).len() <= POINTER_LIMIT,
    ensures
        encode_question_list(header_bytes(message.header), message.questions) matches Ok(
            with_questions,
        ) && first_occurrence(
            with_questions,
            wire_labels(labels_of_text(message.answers[0].name)),
        ) matches Some(first) && first <= 12 && compressed_name(
            with_questions,
            labels_of_text(message.answers[0].name),
        ) == pointer_bytes(first),
        encode_message(message)->Ok_0.len() < plain_message_len(message),
{
    let header = header_bytes(message.header);
    let questions = message.questions;
    let labels = labels_of_text(questions[0].name);
    let with_first = header + question_bytes(questions[0]);
    let with_questions = encode_question_list(header, questions)->Ok_0;
    assert(header.len() == 12);
    lemma_label_end_bounds(encode_utf8(questions[0].name), 0);
    assert(labels.len() > 0);
    lemma_questions_appended(header, questions);
    lemma_questions_appended(with_first, questions.skip(1));
    assert(occurs_at(with_questions, wire_labels(labels), 12)) by {
        let wire = wire_labels(labels);
        assert forall|i: int| 0 <= i < wire.len() implies with_questions[12 + i] == wire[i] by {
            assert(with_first[12 + i] == question_bytes(questions[0])[i]);
            assert(question_bytes(questions[0])[i] == wire_name(labels)[i]);
        }
        assert(with_questions.subrange(12, 12 + wire.len() as int) =~= wire);
    }
    lemma_known_name_is_pointer(with_questions, labels, 12);
    lemma_wire_labels_not_empty(labels);
    let with_answers = encode_record_list(with_questions, message.answers)->Ok_0;
    let with_authorities = encode_record_list(with_answers, message.authorities)->Ok_0;
    lemma_records_appended(with_questions, message.answers);
    lemma_records_appended(with_answers, message.authorities);
    lemma_records_appended(with_authorities, message.additionals);
}

} // verus!
