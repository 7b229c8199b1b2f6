//! What is encoded can be decoded again: names, headers, questions and
//! messages.

use crate::domain_name::{
    after_labels, compressed_name, compression_point, follow_pointer, label_end, label_texts,
    labels_fit, labels_from, labels_of, lemma_first_occurrence_exists, lemma_fitting_prefix_known,
    lemma_label_end_bounds, name_text, occurs_at, pointer_bytes, pointer_offset, pointer_target_for,
    read_labels, wire_labels, wire_name, DOT, MAX_LABEL_LEN, MAX_POINTER_JUMPS, POINTER_LIMIT,
    POINTER_TAG,
};
use crate::compression::lemma_compression_point_bounds;
use crate::error::ErrorView;
use crate::message::{
    counts_match, decode_message, decode_question_list, decode_record_list, encode_message,
    encode_question_list, encode_record_list, MessageView,
};
use crate::query::{
    decode_header, decode_question, header_bytes, labels_of_text, lemma_header_round_trip,
    question_bytes, HeaderView, QuestionView,
};
use crate::resource_record::{
    decode_record, parsed_rdata, record_bytes, record_tail_bytes, wire_ttl, RecordView,
    MAX_WIRE_TTL,
};
use crate::rr_types::{code_of, lemma_code_round_trip};
use crate::text::{joined, text_of_bytes};
use crate::utils::{
    be16, be16_bytes, be32_bytes, lemma_be16_round_trip, lemma_be32_round_trip, read_be16s,
};
use vstd::prelude::*;
use vstd::utf8::*;

verus! {

/// Whether every label has between 1 and 63 bytes.
pub open spec fn labels_valid(labels: Seq<Seq<u8>>) -> bool {
    forall|i: int| 0 <= i < labels.len() ==> 1 <= (#[trigger] labels[i]).len() <= MAX_LABEL_LEN
}

/// Whether no label has a byte with its two top bits set as its last but
/// one: the decoder takes the end of such a label for a pointer where it has
/// a message to follow pointers in.
pub open spec fn labels_plain(labels: Seq<Seq<u8>>) -> bool {
    forall|i: int|
        0 <= i < labels.len() && (#[trigger] labels[i]).len() >= 2 ==> labels[i][labels[i].len()
            - 2] < POINTER_TAG
}

/// The wire form of labels has one byte more than the labels have for each
/// label.
pub proof fn lemma_wire_labels_len(labels: Seq<Seq<u8>>)
    requires
        labels.len() > 0,
    ensures
        wire_labels(labels).len() == 1 + labels[0].len() + wire_labels(labels.skip(1)).len(),
        wire_labels(labels) == seq![#[verifier::truncate] (labels[0].len() as u8)] + labels[0]
            + wire_labels(labels.skip(1)),
{
}

/// Reading the wire form of a name gives its labels back, and ends right
/// after the wire form.
///
/// The wire form may stand anywhere in `data`. Each label has between 1 and
/// 63 bytes; where a message is given to follow pointers in, no label has a
/// byte with its two top bits set as its last but one.
pub proof fn lemma_read_wire_name(
    data: Seq<u8>,
    pos: int,
    labels: Seq<Seq<u8>>,
    message: Option<Seq<u8>>,
    jumps: nat,
)
    requires
        labels_valid(labels),
        message is Some ==> labels_plain(labels),
        0 <= pos,
        pos + wire_name(labels).len() <= data.len(),
        data.subrange(pos, pos + wire_name(labels).len()) == wire_name(labels),
    ensures
        read_labels(data, pos, message, jumps) == Ok::<(Seq<Seq<u8>>, int), ErrorView>(
            (labels, pos + wire_name(labels).len()),
        ),
    decreases labels.len(),
{
    let wire = wire_name(labels);
    assert(data[pos] == wire[0]) by {
        assert(data.subrange(pos, pos + wire.len())[0] == data[pos]);
    }
    if labels.len() == 0 {
        assert(wire_labels(labels) =~= Seq::<u8>::empty());
        assert(wire[0] == 0);
        assert(wire.len() == 1);
        assert(labels =~= Seq::<Seq<u8>>::empty());
    } else {
        lemma_wire_labels_len(labels);
        let first = labels[0];
        let rest = labels.skip(1);
        let len = first.len() as int;
        assert(1 <= len <= 63);
        assert(wire[0] == len);
        let end = pos + 1 + len;
        assert(data.subrange(pos + 1, end) =~= first) by {
            assert forall|i: int| 0 <= i < len implies data[pos + 1 + i] == first[i] by {
                assert(data.subrange(pos, pos + wire.len())[1 + i] == data[pos + 1 + i]);
                assert(wire[1 + i] == first[i]);
            }
        }
        assert(data.subrange(end, end + wire_name(rest).len()) =~= wire_name(rest)) by {
            assert forall|i: int| 0 <= i < wire_name(rest).len() implies data[end + i]
                == wire_name(rest)[i] by {
                assert(data.subrange(pos, pos + wire.len())[1 + len + i] == data[end + i]);
                assert(wire[1 + len + i] == wire_name(rest)[i]);
            }
        }
        assert(labels_valid(rest)) by {
            assert forall|i: int| 0 <= i < rest.len() implies 1 <= (#[trigger] rest[i]).len()
                <= MAX_LABEL_LEN by {
                assert(rest[i] == labels[i + 1]);
            }
        }
        if message is Some {
            assert(labels_plain(rest)) by {
                assert forall|i: int| 0 <= i < rest.len() && (#[trigger] rest[i]).len()
                    >= 2 implies rest[i][rest[i].len() - 2] < POINTER_TAG by {
                    assert(rest[i] == labels[i + 1]);
                }
            }
            if len >= 2 {
                assert(data[pos + len - 1] == first[len - 2]) by {
                    assert(data.subrange(pos + 1, end)[len - 2] == data[pos + len - 1]);
                }
                assert(labels[0][labels[0].len() - 2] < POINTER_TAG);
            }
        }
        lemma_read_wire_name(data, end, rest, message, jumps);
        assert(seq![first] + rest == labels);
        assert(wire.len() == 1 + len + wire_name(rest).len());
        assert(data[pos] == len);
        assert(read_labels(data, pos, message, jumps) == after_labels(
            seq![data.subrange(pos + 1, end)],
            read_labels(data, end, message, jumps),
        ));
    }
}

/// The text of several parts with the first one taken apart.
pub proof fn lemma_joined_front(first: Seq<char>, rest: Seq<Seq<char>>, separator: Seq<char>)
    requires
        rest.len() > 0,
    ensures
        joined(seq![first] + rest, separator) == first + separator + joined(rest, separator),
    decreases rest.len(),
{
    let all = seq![first] + rest;
    assert(all.last() == rest.last());
    if rest.len() == 1 {
        assert(all.drop_last() == seq![first]);
        assert(joined(seq![first], separator) == first);
        assert(joined(rest, separator) == rest[0]);
    } else {
        assert(all.drop_last() == seq![first] + rest.drop_last());
        lemma_joined_front(first, rest.drop_last(), separator);
        assert(first + separator + joined(rest.drop_last(), separator) + separator + rest.last()
            == first + separator + (joined(rest.drop_last(), separator) + separator
            + rest.last()));
    }
}

/// The end of a label, and the labels, of a name from an index on are those
/// of the rest of the name from that index on.
pub proof fn lemma_labels_shift(name: Seq<u8>, from: int, at: int)
    requires
        0 <= from <= at <= name.len(),
    ensures
        label_end(name, at) == label_end(name.skip(from), at - from) + from,
        labels_from(name, at) == labels_from(name.skip(from), at - from),
    decreases name.len() - at,
{
    let rest = name.skip(from);
    lemma_label_ends_shift(name, from, at);
    lemma_label_end_bounds(name, at);
    let end = label_end(name, at);
    assert(name.subrange(at, end) =~= rest.subrange(at - from, end - from));
    assert(name.subrange(at, name.len() as int) =~= rest.subrange(at - from, rest.len() as int));
    if end < name.len() {
        lemma_labels_shift(name, from, end + 1);
    }
}

proof fn lemma_label_ends_shift(name: Seq<u8>, from: int, at: int)
    requires
        0 <= from <= at <= name.len(),
    ensures
        label_end(name, at) == label_end(name.skip(from), at - from) + from,
    decreases name.len() - at,
{
    if at < name.len() && name[at] != DOT {
        lemma_label_ends_shift(name, from, at + 1);
    }
}

/// The labels of a name of valid UTF-8 are valid UTF-8, and their texts
/// with dots between them are the text of the name.
pub proof fn lemma_labels_text(name: Seq<u8>)
    requires
        valid_utf8(name),
    ensures
        forall|i: int| 0 <= i < labels_of(name).len() ==> valid_utf8(#[trigger] labels_of(name)[i]),
        labels_of(name).len() > 0,
        name_text(labels_of(name)) == decode_utf8(name),
    decreases name.len(),
{
    lemma_label_end_bounds(name, 0);
    let end = label_end(name, 0);
    let total = name.len() as int;
    if end >= total {
        assert(name.subrange(0, total) =~= name);
        assert(labels_of(name) == seq![name]);
        assert(label_texts(seq![name]) == seq![text_of_bytes(name)]);
    } else {
        let dot: u8 = name[end];
        assert(!is_continuation_byte(dot)) by (bit_vector)
            requires
                dot == 46u8,
        ;
        is_char_boundary_iff_not_is_continuation_byte(name, end);
        valid_utf8_split(name, end);
        decode_utf8_split(name, end);
        let first = name.subrange(0, end);
        let tail = name.subrange(end, total);
        let rest = name.skip(end + 1);
        assert(tail[0] == dot);
        assert(is_leading_byte_width_1(dot)) by (bit_vector)
            requires
                dot == 46u8,
        ;
        assert(codepoint_width_1(dot) == 46u32) by (bit_vector)
            requires
                dot == 46u8,
        ;
        assert(pop_first_scalar(tail) =~= rest);
        assert(valid_utf8(rest));
        assert(decode_utf8(tail) == seq![46u32 as char] + decode_utf8(rest));
        assert(46u32 as char == '.');
        lemma_labels_text(rest);
        lemma_labels_shift(name, end + 1, end + 1);
        let others = labels_of(rest);
        assert(labels_of(name) == seq![first] + others);
        assert(label_texts(seq![first] + others) =~= seq![text_of_bytes(first)] + label_texts(
            others,
        ));
        lemma_joined_front(text_of_bytes(first), label_texts(others), "."@);
        reveal_strlit(".");
        assert("."@ =~= seq!['.']);
        assert forall|i: int| 0 <= i < labels_of(name).len() implies valid_utf8(
            #[trigger] labels_of(name)[i],
        ) by {
            if i > 0 {
                assert(labels_of(name)[i] == others[i - 1]);
            }
        }
        assert(decode_utf8(name) == decode_utf8(first) + (seq!['.'] + decode_utf8(rest)));
    }
}

/// A name that is encoded without compression and decoded again is the name
/// that was encoded: the decoder reads the labels that were written, ends
/// right after them, and the text of the labels is the text of the name.
///
/// This holds for names whose labels have between 1 and 63 bytes. Where the
/// decoder has a message to follow pointers in, no label may have a byte
/// with its two top bits set as its last but one.
pub proof fn lemma_name_round_trip(
    name: Seq<char>,
    before: Seq<u8>,
    after: Seq<u8>,
    message: Option<Seq<u8>>,
    jumps: nat,
)
    requires
        labels_valid(labels_of_text(name)),
        message is Some ==> labels_plain(labels_of_text(name)),
    ensures
        read_labels(
            before + wire_name(labels_of_text(name)) + after,
            before.len() as int,
            message,
            jumps,
        ) == Ok::<(Seq<Seq<u8>>, int), ErrorView>(
            (labels_of_text(name), (before.len() + wire_name(labels_of_text(name)).len()) as int),
        ),
        name_text(labels_of_text(name)) == name,
{
    let labels = labels_of_text(name);
    let data = before + wire_name(labels) + after;
    let pos = before.len() as int;
    assert(data.subrange(pos, pos + wire_name(labels).len()) =~= wire_name(labels));
    lemma_read_wire_name(data, pos, labels, message, jumps);
    encode_utf8_valid_utf8(name);
    lemma_labels_text(encode_utf8(name));
    encode_utf8_decode_utf8(name);
}

/// Labels of between 1 and 63 bytes fit the wire format.
pub proof fn lemma_valid_labels_fit(labels: Seq<Seq<u8>>)
    requires
        labels_valid(labels),
    ensures
        labels_fit(labels),
{
    lemma_fitting_prefix_known(labels, labels.len() as int);
}

/// A question that is encoded and decoded again is the question that was
/// encoded, and the decoder ends right after it. This holds for names whose
/// labels have between 1 and 63 bytes.
pub proof fn lemma_question_round_trip(question: QuestionView, before: Seq<u8>, after: Seq<u8>)
    requires
        labels_valid(labels_of_text(question.name)),
    ensures
        decode_question(before + question_bytes(question) + after, before.len() as int) == Ok::<
            (QuestionView, int),
            ErrorView,
        >((question, (before.len() + question_bytes(question).len()) as int)),
{
    let labels = labels_of_text(question.name);
    let fields = be16_bytes(code_of(question.q_type)) + be16_bytes(question.class);
    let bytes = before + question_bytes(question) + after;
    assert(bytes =~= before + wire_name(labels) + (fields + after));
    lemma_name_round_trip(question.name, before, fields + after, None, MAX_POINTER_JUMPS as nat);
    let at = (before.len() + wire_name(labels).len()) as int;
    assert(bytes[at] == fields[0]);
    assert(bytes[at + 1] == fields[1]);
    assert(bytes[at + 2] == fields[2]);
    assert(bytes[at + 3] == fields[3]);
    lemma_be16_round_trip(code_of(question.q_type));
    lemma_be16_round_trip(question.class);
    lemma_code_round_trip(question.q_type, 0);
    let (parts, next) = read_be16s(bytes, at, 2).unwrap();
    assert(parts[0] == be16(bytes[at], bytes[at + 1]));
    assert(parts[1] == be16(bytes[at + 2], bytes[at + 3]));
}

/// The wire forms of questions in a row.
pub open spec fn questions_bytes(questions: Seq<QuestionView>) -> Seq<u8>
    decreases questions.len(),
{
    if questions.len() == 0 {
        Seq::empty()
    } else {
        question_bytes(questions[0]) + questions_bytes(questions.skip(1))
    }
}

/// Whether the labels of the name of each question have between 1 and 63
/// bytes.
pub open spec fn questions_valid(questions: Seq<QuestionView>) -> bool {
    forall|i: int|
        0 <= i < questions.len() ==> labels_valid(labels_of_text((#[trigger] questions[i]).name))
}

/// Encoding questions with valid names appends their wire forms in a row.
pub proof fn lemma_questions_encoded(buffer: Seq<u8>, questions: Seq<QuestionView>)
    requires
        questions_valid(questions),
    ensures
        encode_question_list(buffer, questions) == Ok::<Seq<u8>, ErrorView>(
            buffer + questions_bytes(questions),
        ),
    decreases questions.len(),
{
    if questions.len() == 0 {
        assert(buffer + questions_bytes(questions) =~= buffer);
    } else {
        let rest = questions.skip(1);
        assert(labels_valid(labels_of_text(questions[0].name)));
        lemma_valid_labels_fit(labels_of_text(questions[0].name));
        assert(questions_valid(rest)) by {
            assert forall|i: int| 0 <= i < rest.len() implies labels_valid(
                labels_of_text((#[trigger] rest[i]).name),
            ) by {
                assert(rest[i] == questions[i + 1]);
            }
        }
        lemma_questions_encoded(buffer + question_bytes(questions[0]), rest);
        assert(buffer + question_bytes(questions[0]) + questions_bytes(rest) =~= buffer
            + questions_bytes(questions));
    }
}

/// Questions with valid names that are encoded and decoded again are the
/// questions that were encoded, and the decoder ends right after them.
pub proof fn lemma_questions_round_trip(
    questions: Seq<QuestionView>,
    before: Seq<u8>,
    after: Seq<u8>,
)
    requires
        questions_valid(questions),
    ensures
        decode_question_list(
            before + questions_bytes(questions) + after,
            before.len() as int,
            questions.len(),
        ) == Ok::<(Seq<QuestionView>, int), ErrorView>(
            (questions, (before.len() + questions_bytes(questions).len()) as int),
        ),
    decreases questions.len(),
{
    let bytes = before + questions_bytes(questions) + after;
    if questions.len() == 0 {
        assert(questions =~= Seq::<QuestionView>::empty());
    } else {
        let first = questions[0];
        let rest = questions.skip(1);
        assert(labels_valid(labels_of_text(first.name)));
        assert(questions_valid(rest)) by {
            assert forall|i: int| 0 <= i < rest.len() implies labels_valid(
                labels_of_text((#[trigger] rest[i]).name),
            ) by {
                assert(rest[i] == questions[i + 1]);
            }
        }
        assert(bytes =~= before + question_bytes(first) + (questions_bytes(rest) + after));
        lemma_question_round_trip(first, before, questions_bytes(rest) + after);
        assert(bytes =~= (before + question_bytes(first)) + questions_bytes(rest) + after);
        lemma_questions_round_trip(rest, before + question_bytes(first), after);
        assert(seq![first] + rest =~= questions);
    }
}

/// A message without records that is encoded and decoded again is the
/// message that was encoded. This holds where the count of questions in the
/// header is the number of questions, the other counts are 0, and the
/// labels of the name of each question have between 1 and 63 bytes.
pub proof fn lemma_query_round_trip(message: MessageView)
    requires
        counts_match(message),
        message.answers.len() == 0,
        message.authorities.len() == 0,
        message.additionals.len() == 0,
        questions_valid(message.questions),
    ensures
        encode_message(message) is Ok,
        decode_message(encode_message(message)->Ok_0) == Ok::<MessageView, ErrorView>(message),
{
    let header = header_bytes(message.header);
    let questions = questions_bytes(message.questions);
    let bytes = header + questions;
    lemma_questions_encoded(header, message.questions);
    assert(encode_message(message) == Ok::<Seq<u8>, ErrorView>(bytes));
    let nothing = Seq::<u8>::empty();
    assert(bytes =~= nothing + header + questions);
    lemma_header_round_trip(message.header, nothing, questions);
    assert(bytes =~= header + questions + nothing);
    lemma_questions_round_trip(message.questions, header, nothing);
    assert(header.len() == 12);
    assert(message.answers =~= Seq::<RecordView>::empty());
    assert(message.authorities =~= Seq::<RecordView>::empty());
    assert(message.additionals =~= Seq::<RecordView>::empty());
}

/// A name that is written without a pointer reads back, where its labels
/// have between 1 and 63 bytes and none has a byte with its two top bits set
/// as its last but one.
proof fn lemma_plain_name_reads_back(bytes: Seq<u8>, buffer: Seq<u8>, name: Seq<char>)
    requires
        labels_valid(labels_of_text(name)),
        labels_plain(labels_of_text(name)),
        compression_point(
            buffer,
            labels_of_text(name),
            labels_of_text(name).len() as int,
        ) >= labels_of_text(name).len(),
        (buffer + compressed_name(buffer, labels_of_text(name))).is_prefix_of(bytes),
    ensures
        read_labels(bytes, buffer.len() as int, Some(bytes), MAX_POINTER_JUMPS as nat) == Ok::<
            (Seq<Seq<u8>>, int),
            ErrorView,
        >(
            (
                labels_of_text(name),
                (buffer.len() + compressed_name(buffer, labels_of_text(name)).len()) as int,
            ),
        ),
        name_text(labels_of_text(name)) == name,
{
    let labels = labels_of_text(name);
    let wire = wire_name(labels);
    let pos = buffer.len() as int;
    assert(compressed_name(buffer, labels) == wire);
    assert(bytes.subrange(pos, pos + wire.len()) =~= wire) by {
        assert forall|i: int| 0 <= i < wire.len() implies bytes[pos + i] == wire[i] by {
            assert((buffer + wire)[pos + i] == wire[i]);
        }
    }
    lemma_read_wire_name(bytes, pos, labels, Some(bytes), MAX_POINTER_JUMPS as nat);
    lemma_name_round_trip(name, buffer, Seq::empty(), None, 0);
}

/// Reading labels that are followed by a pointer gives the labels, then
/// what the pointer leads to.
pub proof fn lemma_read_labels_then_pointer(
    data: Seq<u8>,
    pos: int,
    labels: Seq<Seq<u8>>,
    offset: int,
    jumps: nat,
)
    requires
        labels_valid(labels),
        labels_plain(labels),
        0 <= pos,
        0 <= offset < POINTER_LIMIT,
        offset < data.len(),
        jumps > 0,
        pos + wire_labels(labels).len() + 2 <= data.len(),
        data.subrange(pos, pos + wire_labels(labels).len() + 2) == wire_labels(labels)
            + pointer_bytes(offset),
    ensures
        read_labels(data, pos, Some(data), jumps) == match read_labels(
            data,
            offset,
            Some(data),
            (jumps - 1) as nat,
        ) {
            Ok((rest, _)) => Ok::<(Seq<Seq<u8>>, int), ErrorView>(
                (labels + rest, pos + wire_labels(labels).len() + 2),
            ),
            Err(e) => Err(e),
        },
    decreases labels.len(),
{
    let written = wire_labels(labels) + pointer_bytes(offset);
    let whole = data.subrange(pos, pos + written.len());
    if labels.len() == 0 {
        assert(wire_labels(labels) =~= Seq::<u8>::empty());
        assert(whole[0] == data[pos] && whole[1] == data[pos + 1]);
        assert(written[0] == pointer_bytes(offset)[0] && written[1] == pointer_bytes(offset)[1]);
        assert(data[pos] >= POINTER_TAG);
        assert(pointer_offset(data[pos], data[pos + 1]) == offset);
        assert(read_labels(data, pos, Some(data), jumps) == follow_pointer(
            data,
            pos,
            data,
            jumps,
            pos + 2,
        ));
        if let Ok((rest, _)) = read_labels(data, offset, Some(data), (jumps - 1) as nat) {
            assert(labels + rest =~= rest);
        }
    } else {
        lemma_wire_labels_len(labels);
        let first = labels[0];
        let rest = labels.skip(1);
        let len = first.len() as int;
        assert(1 <= len <= 63);
        let end = pos + 1 + len;
        assert(data[pos] == len) by {
            assert(whole[0] == data[pos]);
            assert(written[0] == len);
        }
        assert(data.subrange(pos + 1, end) =~= first) by {
            assert forall|i: int| 0 <= i < len implies data[pos + 1 + i] == first[i] by {
                assert(whole[1 + i] == data[pos + 1 + i]);
                assert(written[1 + i] == first[i]);
            }
        }
        let more = wire_labels(rest) + pointer_bytes(offset);
        assert(data.subrange(end, end + more.len()) =~= more) by {
            assert forall|i: int| 0 <= i < more.len() implies data[end + i] == more[i] by {
                assert(whole[1 + len + i] == data[end + i]);
                assert(written[1 + len + i] == more[i]);
            }
        }
        assert(labels_valid(rest)) by {
            assert forall|i: int| 0 <= i < rest.len() implies 1 <= (#[trigger] rest[i]).len()
                <= MAX_LABEL_LEN by {
                assert(rest[i] == labels[i + 1]);
            }
        }
        assert(labels_plain(rest)) by {
            assert forall|i: int| 0 <= i < rest.len() && (#[trigger] rest[i]).len()
                >= 2 implies rest[i][rest[i].len() - 2] < POINTER_TAG by {
                assert(rest[i] == labels[i + 1]);
            }
        }
        if len >= 2 {
            assert(data[pos + len - 1] == first[len - 2]) by {
                assert(data.subrange(pos + 1, end)[len - 2] == data[pos + len - 1]);
            }
            assert(labels[0][labels[0].len() - 2] < POINTER_TAG);
        }
        lemma_read_labels_then_pointer(data, end, rest, offset, jumps);
        assert(read_labels(data, pos, Some(data), jumps) == after_labels(
            seq![data.subrange(pos + 1, end)],
            read_labels(data, end, Some(data), jumps),
        ));
        if let Ok((tail, _)) = read_labels(data, offset, Some(data), (jumps - 1) as nat) {
            assert(seq![first] + (rest + tail) =~= labels + tail);
        }
    }
}

/// A name that is written with a pointer reads back, where the labels in
/// front of the pointer have between 1 and 63 bytes, none of them has a byte
/// with its two top bits set as its last but one, and reading from the
/// place that the pointer leads to gives the labels that the pointer stands
/// for.
proof fn lemma_pointed_name_reads_back(bytes: Seq<u8>, buffer: Seq<u8>, name: Seq<char>)
    requires
        labels_valid(labels_of_text(name)),
        labels_plain(labels_of_text(name)),
        (buffer + compressed_name(buffer, labels_of_text(name))).is_prefix_of(bytes),
        ({
            let labels = labels_of_text(name);
            let start = compression_point(buffer, labels, labels.len() as int);
            &&& 0 <= start < labels.len()
            &&& pointer_target_for(buffer, wire_labels(labels.skip(start))) matches Some(offset)
                && read_labels(
                bytes,
                offset,
                Some(bytes),
                (MAX_POINTER_JUMPS - 1) as nat,
            ) matches Ok((found, _)) && found == labels.skip(start)
        }),
    ensures
        read_labels(bytes, buffer.len() as int, Some(bytes), MAX_POINTER_JUMPS as nat) == Ok::<
            (Seq<Seq<u8>>, int),
            ErrorView,
        >(
            (
                labels_of_text(name),
                (buffer.len() + compressed_name(buffer, labels_of_text(name)).len()) as int,
            ),
        ),
        name_text(labels_of_text(name)) == name,
{
    let labels = labels_of_text(name);
    let start = compression_point(buffer, labels, labels.len() as int);
    let front = labels.take(start);
    let offset = pointer_target_for(buffer, wire_labels(labels.skip(start)))->0;
    let written = wire_labels(front) + pointer_bytes(offset);
    let pos = buffer.len() as int;
    assert(compressed_name(buffer, labels) == written);
    assert(bytes.subrange(pos, pos + wire_labels(front).len() + 2) =~= written) by {
        assert forall|i: int| 0 <= i < written.len() implies bytes[pos + i] == written[i] by {
            assert((buffer + written)[pos + i] == written[i]);
        }
    }
    assert(labels_valid(front)) by {
        assert forall|i: int| 0 <= i < front.len() implies 1 <= (#[trigger] front[i]).len()
            <= MAX_LABEL_LEN by {
            assert(front[i] == labels[i]);
        }
    }
    assert(labels_plain(front)) by {
        assert forall|i: int| 0 <= i < front.len() && (#[trigger] front[i]).len()
            >= 2 implies front[i][front[i].len() - 2] < POINTER_TAG by {
            assert(front[i] == labels[i]);
        }
    }
    lemma_first_occurrence_exists(
        buffer,
        wire_labels(labels.skip(start)),
        offset,
    );
    lemma_read_labels_then_pointer(bytes, pos, front, offset, MAX_POINTER_JUMPS as nat);
    assert(front + labels.skip(start) =~= labels);
    lemma_name_round_trip(name, buffer, Seq::empty(), None, 0);
}

/// Whether the name `name` is written after `buffer` so that it can be read
/// again: its labels have between 1 and 63 bytes, none has a byte with its
/// two top bits set as its last but one, and where the name is written with
/// a pointer, a zero byte follows the labels that the pointer leads to.
pub open spec fn name_compresses_well(buffer: Seq<u8>, name: Seq<char>) -> bool {
    let labels = labels_of_text(name);
    let start = compression_point(buffer, labels, labels.len() as int);
    &&& labels_valid(labels)
    &&& labels_plain(labels)
    &&& 0 <= start < labels.len() ==> occurs_at(
        buffer,
        wire_name(labels.skip(start)),
        pointer_target_for(buffer, wire_labels(labels.skip(start)))->0,
    )
}

/// A name that is written so that it can be read again reads back as the
/// name that was written, and the decoder ends right after it.
pub proof fn lemma_well_compressed_name_reads_back(
    bytes: Seq<u8>,
    buffer: Seq<u8>,
    name: Seq<char>,
)
    requires
        name_compresses_well(buffer, name),
        (buffer + compressed_name(buffer, labels_of_text(name))).is_prefix_of(bytes),
    ensures
        read_labels(bytes, buffer.len() as int, Some(bytes), MAX_POINTER_JUMPS as nat) == Ok::<
            (Seq<Seq<u8>>, int),
            ErrorView,
        >(
            (
                labels_of_text(name),
                (buffer.len() + compressed_name(buffer, labels_of_text(name)).len()) as int,
            ),
        ),
        name_text(labels_of_text(name)) == name,
{
    let labels = labels_of_text(name);
    let count = labels.len() as int;
    lemma_compression_point_bounds(buffer, labels, count);
    let start = compression_point(buffer, labels, count);
    if start >= count {
        lemma_plain_name_reads_back(bytes, buffer, name);
    } else {
        let rest = labels.skip(start);
        let offset = pointer_target_for(buffer, wire_labels(rest))->0;
        let wire = wire_name(rest);
        assert(bytes.subrange(offset, offset + wire.len()) =~= wire) by {
            assert forall|i: int| 0 <= i < wire.len() implies bytes[offset + i] == wire[i] by {
                assert(buffer.subrange(offset, offset + wire.len())[i] == buffer[offset + i]);
                assert(bytes[offset + i] == (buffer + compressed_name(buffer, labels))[offset
                    + i]);
            }
        }
        assert(labels_valid(rest)) by {
            assert forall|i: int| 0 <= i < rest.len() implies 1 <= (#[trigger] rest[i]).len()
                <= MAX_LABEL_LEN by {
                assert(rest[i] == labels[i + start]);
            }
        }
        assert(labels_plain(rest)) by {
            assert forall|i: int| 0 <= i < rest.len() && (#[trigger] rest[i]).len()
                >= 2 implies rest[i][rest[i].len() - 2] < POINTER_TAG by {
                assert(rest[i] == labels[i + start]);
            }
        }
        lemma_read_wire_name(bytes, offset, rest, Some(bytes), (MAX_POINTER_JUMPS - 1) as nat);
        lemma_pointed_name_reads_back(bytes, buffer, name);
    }
}

/// A beginning of a beginning is a beginning.
proof fn lemma_prefix_chain(first: Seq<u8>, second: Seq<u8>, third: Seq<u8>)
    requires
        first.is_prefix_of(second),
        second.is_prefix_of(third),
    ensures
        first.is_prefix_of(third),
{
    assert forall|i: int| 0 <= i < first.len() implies first[i] == third[i] by {
        assert(first[i] == second[i]);
    }
}

/// The header and the questions at the front of a message are decoded as
/// they were encoded.
pub proof fn lemma_front_round_trip(
    bytes: Seq<u8>,
    header: HeaderView,
    questions: Seq<QuestionView>,
)
    requires
        questions_valid(questions),
        (header_bytes(header) + questions_bytes(questions)).is_prefix_of(bytes),
    ensures
        decode_header(bytes, 0) == Ok::<(HeaderView, int), ErrorView>((header, 12)),
        decode_question_list(bytes, 12, questions.len()) == Ok::<
            (Seq<QuestionView>, int),
            ErrorView,
        >((questions, (12 + questions_bytes(questions).len()) as int)),
{
    let front = header_bytes(header);
    let asked = questions_bytes(questions);
    let rest = bytes.skip((front.len() + asked.len()) as int);
    let nothing = Seq::<u8>::empty();
    assert(front.len() == 12);
    assert(bytes =~= front + asked + rest);
    assert(bytes =~= nothing + front + (asked + rest));
    lemma_header_round_trip(header, nothing, asked + rest);
    lemma_questions_round_trip(questions, front, rest);
}

/// Whether a record that is written after `buffer` in the message `bytes`
/// can be read again: its name is written so that it can be read again, its
/// data is as long as its length says, its time to live fits 32 bits, and
/// the readable form of its data is the one that the data has in the
/// message.
pub open spec fn record_well_formed(bytes: Seq<u8>, buffer: Seq<u8>, record: RecordView) -> bool {
    &&& name_compresses_well(buffer, record.name)
    &&& record.raw.len() == record.rd_len
    &&& record.ttl <= MAX_WIRE_TTL
    &&& record.parsed == parsed_rdata(record.r_type, record.rd_len, record.raw, bytes)
}

/// Whether each of the records that are written one after the other after
/// `buffer` in the message `bytes` can be read again.
pub open spec fn records_well_formed(
    bytes: Seq<u8>,
    buffer: Seq<u8>,
    records: Seq<RecordView>,
) -> bool
    decreases records.len(),
{
    records.len() == 0 || (record_well_formed(bytes, buffer, records[0]) && records_well_formed(
        bytes,
        buffer + record_bytes(buffer, records[0]),
        records.skip(1),
    ))
}

/// Whether a message can be encoded and read again: the counts of its
/// header are the lengths of its sections, the labels of the name of each
/// question have between 1 and 63 bytes, and each record can be read again
/// where it is written in the encoded message.
pub open spec fn message_well_formed(message: MessageView) -> bool {
    let bytes = encode_message(message)->Ok_0;
    let with_questions = header_bytes(message.header) + questions_bytes(message.questions);
    let with_answers = encode_record_list(with_questions, message.answers)->Ok_0;
    let with_authorities = encode_record_list(with_answers, message.authorities)->Ok_0;
    &&& counts_match(message)
    &&& questions_valid(message.questions)
    &&& records_well_formed(bytes, with_questions, message.answers)
    &&& records_well_formed(bytes, with_answers, message.authorities)
    &&& records_well_formed(bytes, with_authorities, message.additionals)
}

/// Records that can be read again can be encoded, and encoding them appends
/// to the buffer.
pub proof fn lemma_records_encoded(bytes: Seq<u8>, buffer: Seq<u8>, records: Seq<RecordView>)
    requires
        records_well_formed(bytes, buffer, records),
    ensures
        encode_record_list(buffer, records) is Ok,
        buffer.is_prefix_of(encode_record_list(buffer, records)->Ok_0),
    decreases records.len(),
{
    if records.len() > 0 {
        lemma_valid_labels_fit(labels_of_text(records[0].name));
        lemma_records_encoded(bytes, buffer + record_bytes(buffer, records[0]), records.skip(1));
    }
}

/// A record that can be read again is decoded as it was encoded, and the
/// decoder ends right after it.
pub proof fn lemma_record_round_trip(bytes: Seq<u8>, buffer: Seq<u8>, record: RecordView)
    requires
        (buffer + record_bytes(buffer, record)).is_prefix_of(bytes),
        record_well_formed(bytes, buffer, record),
    ensures
        decode_record(bytes, buffer.len() as int) == Ok::<(RecordView, int), ErrorView>(
            (record, (buffer.len() + record_bytes(buffer, record).len()) as int),
        ),
{
    let name = compressed_name(buffer, labels_of_text(record.name));
    let tail = record_tail_bytes(record);
    let written = buffer + record_bytes(buffer, record);
    let at = (buffer.len() + name.len()) as int;
    assert((buffer + name).is_prefix_of(bytes)) by {
        assert((buffer + name).is_prefix_of(written));
    }
    lemma_well_compressed_name_reads_back(bytes, buffer, record.name);
    assert(tail.len() == 10 + record.raw.len());
    assert forall|i: int| 0 <= i < tail.len() implies bytes[at + i] == tail[i] by {
        assert(written[at + i] == tail[i]);
        assert(bytes[at + i] == written[at + i]);
    }
    let kind = be16_bytes(code_of(record.r_type));
    let class = be16_bytes(record.class);
    let ttl = be32_bytes(wire_ttl(record.ttl));
    let length = be16_bytes(record.rd_len);
    assert(tail[0] == kind[0] && tail[1] == kind[1]);
    assert(tail[2] == class[0] && tail[3] == class[1]);
    assert(tail[4] == ttl[0] && tail[5] == ttl[1] && tail[6] == ttl[2] && tail[7] == ttl[3]);
    assert(tail[8] == length[0] && tail[9] == length[1]);
    lemma_be16_round_trip(code_of(record.r_type));
    lemma_be16_round_trip(record.class);
    lemma_be32_round_trip(wire_ttl(record.ttl));
    lemma_be16_round_trip(record.rd_len);
    lemma_code_round_trip(record.r_type, 0);
    let (parts, after_class) = read_be16s(bytes, at, 2).unwrap();
    assert(parts[0] == be16(bytes[at], bytes[at + 1]));
    assert(parts[1] == be16(bytes[at + 2], bytes[at + 3]));
    assert(after_class == at + 4);
    assert(bytes[at + 4] == tail[4]);
    assert(bytes[at + 5] == tail[5]);
    assert(bytes[at + 6] == tail[6]);
    assert(bytes[at + 7] == tail[7]);
    assert(bytes[at + 8] == tail[8]);
    assert(bytes[at + 9] == tail[9]);
    let start = at + 10;
    assert(bytes.subrange(start, start + record.rd_len) =~= record.raw) by {
        assert forall|i: int| 0 <= i < record.raw.len() implies bytes[start + i]
            == record.raw[i] by {
            assert(bytes[at + (10 + i)] == tail[10 + i]);
        }
    }
}

/// Records that can be read again are decoded as they were encoded, and the
/// decoder ends right after them.
pub proof fn lemma_records_round_trip(bytes: Seq<u8>, buffer: Seq<u8>, records: Seq<RecordView>)
    requires
        records_well_formed(bytes, buffer, records),
        encode_record_list(buffer, records)->Ok_0.is_prefix_of(bytes),
    ensures
        encode_record_list(buffer, records) is Ok,
        decode_record_list(bytes, buffer.len() as int, records.len()) == Ok::<
            (Seq<RecordView>, int),
            ErrorView,
        >((records, encode_record_list(buffer, records)->Ok_0.len() as int)),
    decreases records.len(),
{
    lemma_records_encoded(bytes, buffer, records);
    if records.len() == 0 {
        assert(records =~= Seq::<RecordView>::empty());
    } else {
        let first = records[0];
        let rest = records.skip(1);
        let written = buffer + record_bytes(buffer, first);
        lemma_records_encoded(bytes, written, rest);
        lemma_record_round_trip(bytes, buffer, first);
        lemma_records_round_trip(bytes, written, rest);
        assert(seq![first] + rest =~= records);
    }
}

/// A well-formed message that is encoded and decoded again is the message
/// that was encoded.
pub proof fn lemma_message_round_trip(message: MessageView)
    requires
        message_well_formed(message),
    ensures
        encode_message(message) is Ok,
        decode_message(encode_message(message)->Ok_0) == Ok::<MessageView, ErrorView>(message),
{
    let given = encode_message(message)->Ok_0;
    let header = header_bytes(message.header);
    let with_questions = header + questions_bytes(message.questions);
    lemma_questions_encoded(header, message.questions);
    let with_answers = encode_record_list(with_questions, message.answers)->Ok_0;
    let with_authorities = encode_record_list(with_answers, message.authorities)->Ok_0;
    let bytes = encode_record_list(with_authorities, message.additionals)->Ok_0;
    lemma_records_encoded(given, with_questions, message.answers);
    lemma_records_encoded(given, with_answers, message.authorities);
    lemma_records_encoded(given, with_authorities, message.additionals);
    assert(encode_message(message) == Ok::<Seq<u8>, ErrorView>(bytes));
    assert(given == bytes);
    lemma_prefix_chain(with_answers, with_authorities, bytes);
    lemma_prefix_chain(with_questions, with_answers, bytes);
    lemma_front_round_trip(bytes, message.header, message.questions);
    lemma_records_round_trip(bytes, with_questions, message.answers);
    lemma_records_round_trip(bytes, with_answers, message.authorities);
    lemma_records_round_trip(bytes, with_authorities, message.additionals);
    assert(decode_header(bytes, 0) == Ok::<(HeaderView, int), ErrorView>((message.header, 12)));
    assert(decode_question_list(bytes, 12, message.header.qd_count as nat) == Ok::<
        (Seq<QuestionView>, int),
        ErrorView,
    >((message.questions, with_questions.len() as int)));
    assert(decode_record_list(
        bytes,
        with_questions.len() as int,
        message.header.an_count as nat,
    ) == Ok::<(Seq<RecordView>, int), ErrorView>((message.answers, with_answers.len() as int)));
    assert(decode_record_list(bytes, with_answers.len() as int, message.header.ns_count as nat)
        == Ok::<(Seq<RecordView>, int), ErrorView>(
        (message.authorities, with_authorities.len() as int),
    ));
    assert(decode_record_list(
        bytes,
        with_authorities.len() as int,
        message.header.ar_count as nat,
    ) == Ok::<(Seq<RecordView>, int), ErrorView>((message.additionals, bytes.len() as int)));
}

} // verus!
