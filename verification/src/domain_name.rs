//! Domain names and their wire form: a sequence of labels, each with its
//! length in front, that ends in a zero byte or in a pointer to an earlier
//! place of the message.

use crate::error::{DNSResolverError, ErrorView};
use crate::text::{collect_bytes, join_texts, joined, read_text, text_of_bytes, texts};
use vstd::prelude::*;
use vstd::std_specs::cmp::PartialEqSpecImpl;
use vstd::string::*;
use vstd::utf8::*;

verus! {

/// The longest label that the wire format can hold, in bytes.
pub const MAX_LABEL_LEN: usize = 63;

/// The most pointers that the decoder follows for one name.
pub const MAX_POINTER_JUMPS: usize = 128;

/// The first offset that a pointer cannot hold in its 14 bits.
pub const POINTER_LIMIT: usize = 16384;

/// The byte of the dot that separates labels.
pub const DOT: u8 = 46;

/// The smallest length byte that marks a pointer: its two top bits are set.
pub const POINTER_TAG: u8 = 192;

/// A fully formed domain name.
#[derive(Debug)]
pub struct DomainName(pub String);

impl Clone for DomainName {
    fn clone(&self) -> (name: Self)
        ensures
            name == *self,
    {
        DomainName(self.0.clone())
    }
}

impl View for DomainName {
    type V = Seq<char>;

    open spec fn view(&self) -> Seq<char> {
        self.0@
    }
}

/// The byte `byte` with an ASCII capital letter turned into the small one.
pub open spec fn fold_byte(byte: u8) -> u8 {
    if 65 <= byte <= 90 {
        (byte + 32) as u8
    } else {
        byte
    }
}

/// The bytes `bytes` with every ASCII capital letter turned into the small
/// one.
pub open spec fn folded(bytes: Seq<u8>) -> Seq<u8> {
    Seq::new(bytes.len(), |i: int| fold_byte(bytes[i]))
}

/// What two names are compared by: the bytes of the text, without the
/// difference between ASCII capital and small letters.
pub open spec fn name_key(name: Seq<char>) -> Seq<u8> {
    folded(encode_utf8(name))
}

fn fold(byte: u8) -> (small: u8)
    ensures
        small == fold_byte(byte),
{
    if 65 <= byte && byte <= 90 {
        byte + 32
    } else {
        byte
    }
}

impl PartialEq for DomainName {
    /// Whether two names are the same but for the case of ASCII letters.
    fn eq(&self, other: &Self) -> (same: bool) {
        let left = self.0.as_str().as_bytes();
        let right = other.0.as_str().as_bytes();
        if left.len() != right.len() {
            assert(name_key(self@).len() != name_key(other@).len());
            return false;
        }
        let mut i: usize = 0;
        while i < left.len()
            invariant
                i <= left@.len(),
                left@.len() == right@.len(),
                left@ == encode_utf8(self@),
                right@ == encode_utf8(other@),
                forall|j: int| 0 <= j < i ==> name_key(self@)[j] == name_key(other@)[j],
            decreases left@.len() - i,
        {
            if fold(left[i]) != fold(right[i]) {
                assert(name_key(self@)[i as int] != name_key(other@)[i as int]);
                return false;
            }
            i = i + 1;
        }
        assert(name_key(self@) =~= name_key(other@));
        true
    }
}

impl PartialEqSpecImpl for DomainName {
    open spec fn obeys_eq_spec() -> bool {
        true
    }

    open spec fn eq_spec(&self, other: &Self) -> bool {
        name_key(self@) == name_key(other@)
    }
}

impl Eq for DomainName {

}

/// The index of the first dot of `name` at or after `from`, or the length of
/// `name` when there is none.
pub open spec fn label_end(name: Seq<u8>, from: int) -> int
    decreases name.len() - from,
{
    if from >= name.len() {
        name.len() as int
    } else if name[from] == DOT {
        from
    } else {
        label_end(name, from + 1)
    }
}

/// The labels of `name` from the index `from` on: the pieces between dots.
pub open spec fn labels_from(name: Seq<u8>, from: int) -> Seq<Seq<u8>>
    decreases name.len() - from,
    when 0 <= from <= name.len()
    via labels_from_decreases
{
    let end = label_end(name, from);
    if end >= name.len() {
        seq![name.subrange(from, name.len() as int)]
    } else {
        seq![name.subrange(from, end)] + labels_from(name, end + 1)
    }
}

#[via_fn]
proof fn labels_from_decreases(name: Seq<u8>, from: int) {
    lemma_label_end_bounds(name, from);
}

/// The end of a label lies between its start and the end of the name, no
/// dot stands before it, and a dot stands at it unless the name ends there.
pub proof fn lemma_label_end_bounds(name: Seq<u8>, from: int)
    requires
        0 <= from <= name.len(),
    ensures
        from <= label_end(name, from) <= name.len(),
        forall|i: int| from <= i < label_end(name, from) ==> name[i] != DOT,
        label_end(name, from) < name.len() ==> name[label_end(name, from)] == DOT,
    decreases name.len() - from,
{
    if from < name.len() && name[from] != DOT {
        lemma_label_end_bounds(name, from + 1);
    }
}

/// The labels of a name given as bytes: the pieces between its dots. A name
/// without a dot is one label, and the empty name is one empty label.
pub open spec fn labels_of(name: Seq<u8>) -> Seq<Seq<u8>> {
    labels_from(name, 0)
}

/// The wire form of labels without what ends the name: each label with its
/// length in front.
pub open spec fn wire_labels(labels: Seq<Seq<u8>>) -> Seq<u8>
    decreases labels.len(),
{
    if labels.len() == 0 {
        Seq::empty()
    } else {
        seq![#[verifier::truncate] (labels[0].len() as u8)] + labels[0] + wire_labels(
            labels.skip(1),
        )
    }
}

/// The wire form of a whole name without compression: its labels, then a
/// zero byte.
pub open spec fn wire_name(labels: Seq<Seq<u8>>) -> Seq<u8> {
    wire_labels(labels) + seq![0u8]
}

/// How many labels at the front of `labels` fit the wire format: the index
/// of the first label of more than 63 bytes, or the number of labels.
pub open spec fn fitting_prefix(labels: Seq<Seq<u8>>) -> int
    decreases labels.len(),
{
    if labels.len() == 0 {
        0
    } else if labels[0].len() > MAX_LABEL_LEN {
        0
    } else {
        1 + fitting_prefix(labels.skip(1))
    }
}

/// Whether every label fits the wire format.
pub open spec fn labels_fit(labels: Seq<Seq<u8>>) -> bool {
    fitting_prefix(labels) == labels.len()
}

/// The byte sequences of a vector of byte vectors.
pub open spec fn byte_views(parts: Seq<Vec<u8>>) -> Seq<Seq<u8>> {
    Seq::new(parts.len(), |i: int| parts[i]@)
}

/// The wire form of two runs of labels in a row is the wire forms in a row.
pub proof fn lemma_wire_labels_concat(front: Seq<Seq<u8>>, back: Seq<Seq<u8>>)
    ensures
        wire_labels(front + back) == wire_labels(front) + wire_labels(back),
    decreases front.len(),
{
    if front.len() == 0 {
        assert(front + back == back);
    } else {
        assert((front + back).skip(1) == front.skip(1) + back);
        lemma_wire_labels_concat(front.skip(1), back);
    }
}

/// The wire form of one more label.
pub proof fn lemma_wire_labels_push(labels: Seq<Seq<u8>>, label: Seq<u8>)
    ensures
        wire_labels(labels.push(label)) == wire_labels(labels) + seq![
            #[verifier::truncate] (label.len() as u8),
        ] + label,
{
    lemma_wire_labels_concat(labels, seq![label]);
    assert(labels.push(label) == labels + seq![label]);
    assert(seq![label].skip(1) == Seq::<Seq<u8>>::empty());
    assert(wire_labels(Seq::<Seq<u8>>::empty()) == Seq::<u8>::empty());
    assert(seq![label][0] == label);
    assert(wire_labels(seq![label]) == seq![#[verifier::truncate] (label.len() as u8)] + label);
}

/// The fitting prefix is a prefix, its labels fit, and the label after it
/// does not.
pub proof fn lemma_fitting_prefix(labels: Seq<Seq<u8>>)
    ensures
        0 <= fitting_prefix(labels) <= labels.len(),
        forall|i: int| 0 <= i < fitting_prefix(labels) ==> labels[i].len() <= MAX_LABEL_LEN,
        fitting_prefix(labels) < labels.len() ==> labels[fitting_prefix(labels)].len()
            > MAX_LABEL_LEN,
    decreases labels.len(),
{
    if labels.len() > 0 && labels[0].len() <= MAX_LABEL_LEN {
        lemma_fitting_prefix(labels.skip(1));
        let rest = labels.skip(1);
        assert forall|i: int| 0 <= i < fitting_prefix(labels) implies labels[i].len()
            <= MAX_LABEL_LEN by {
            if i > 0 {
                assert(labels[i] == rest[i - 1]);
            }
        }
        if fitting_prefix(labels) < labels.len() {
            assert(labels[fitting_prefix(labels)] == rest[fitting_prefix(rest)]);
        }
    }
}

/// Where the first `count` labels fit, the fitting prefix is at least
/// `count`, and it is `count` where the next label does not fit.
pub proof fn lemma_fitting_prefix_known(labels: Seq<Seq<u8>>, count: int)
    requires
        0 <= count <= labels.len(),
        forall|i: int| 0 <= i < count ==> labels[i].len() <= MAX_LABEL_LEN,
    ensures
        count <= fitting_prefix(labels) <= labels.len(),
        count < labels.len() && labels[count].len() > MAX_LABEL_LEN ==> fitting_prefix(labels)
            == count,
{
    lemma_fitting_prefix(labels);
    if fitting_prefix(labels) < count {
        assert(labels[fitting_prefix(labels)].len() <= MAX_LABEL_LEN);
    }
}

/// Splits the bytes of a name at its dots.
pub fn split_labels(name: &[u8]) -> (labels: Vec<Vec<u8>>)
    ensures
        byte_views(labels@) == labels_of(name@),
{
    let mut labels: Vec<Vec<u8>> = Vec::new();
    let mut from: usize = 0;
    let total: usize = name.len();
    loop
        invariant_except_break
            from <= total,
            total == name@.len(),
            byte_views(labels@) + labels_from(name@, from as int) == labels_of(name@),
        ensures
            byte_views(labels@) == labels_of(name@),
        decreases total - from,
    {
        let mut end: usize = from;
        while end < total && name[end] != DOT
            invariant
                from <= end <= total,
                total == name@.len(),
                label_end(name@, from as int) == label_end(name@, end as int),
            decreases total - end,
        {
            end = end + 1;
        }
        let label = collect_bytes(name, from, end);
        let ghost before = byte_views(labels@);
        labels.push(label);
        proof {
            assert(byte_views(labels@) == before.push(name@.subrange(from as int, end as int)));
            assert(end == label_end(name@, from as int));
        }
        if end >= total {
            break ;
        }
        proof {
            assert(before + (seq![name@.subrange(from as int, end as int)] + labels_from(
                name@,
                end + 1,
            )) == byte_views(labels@) + labels_from(name@, end + 1));
        }
        from = end + 1;
    }
    labels
}

/// Whether the bytes of `pattern` stand in `buffer` at the index `at`.
pub open spec fn occurs_at(buffer: Seq<u8>, pattern: Seq<u8>, at: int) -> bool {
    0 <= at && at + pattern.len() <= buffer.len() && buffer.subrange(at, at + pattern.len())
        == pattern
}

/// Whether `at` is the first index at which `pattern` stands in `buffer`.
pub open spec fn first_occurrence_is(buffer: Seq<u8>, pattern: Seq<u8>, at: int) -> bool {
    occurs_at(buffer, pattern, at) && forall|earlier: int|
        0 <= earlier < at ==> !occurs_at(buffer, pattern, earlier)
}

/// The first index at which `pattern` stands in `buffer`, if it stands there
/// at all.
pub open spec fn first_occurrence(buffer: Seq<u8>, pattern: Seq<u8>) -> Option<int> {
    if exists|at: int| first_occurrence_is(buffer, pattern, at) {
        Some(choose|at: int| first_occurrence_is(buffer, pattern, at))
    } else {
        None
    }
}

/// An index that is the first occurrence is the one that `first_occurrence`
/// names.
pub proof fn lemma_first_occurrence_found(buffer: Seq<u8>, pattern: Seq<u8>, at: int)
    requires
        first_occurrence_is(buffer, pattern, at),
    ensures
        first_occurrence(buffer, pattern) == Some(at),
{
    let chosen = choose|at: int| first_occurrence_is(buffer, pattern, at);
    if chosen < at {
        assert(!occurs_at(buffer, pattern, chosen));
    } else if at < chosen {
        assert(!occurs_at(buffer, pattern, at));
    }
}

/// Where `pattern` stands nowhere in `buffer`, there is no first occurrence.
pub proof fn lemma_first_occurrence_absent(buffer: Seq<u8>, pattern: Seq<u8>)
    requires
        forall|at: int| !occurs_at(buffer, pattern, at),
    ensures
        first_occurrence(buffer, pattern) is None,
{
}

/// Where `pattern` stands somewhere in `buffer`, there is a first occurrence
/// at or before that index.
pub proof fn lemma_first_occurrence_exists(buffer: Seq<u8>, pattern: Seq<u8>, at: int)
    requires
        occurs_at(buffer, pattern, at),
    ensures
        first_occurrence(buffer, pattern) matches Some(first) && 0 <= first <= at
            && first_occurrence_is(buffer, pattern, first),
    decreases at,
{
    if exists|earlier: int| 0 <= earlier < at && occurs_at(buffer, pattern, earlier) {
        let earlier = choose|earlier: int| 0 <= earlier < at && occurs_at(buffer, pattern, earlier);
        lemma_first_occurrence_exists(buffer, pattern, earlier);
    } else {
        assert(first_occurrence_is(buffer, pattern, at));
        lemma_first_occurrence_found(buffer, pattern, at);
    }
}

/// The index of the first place at which the bytes of `subset` stand in
/// `superset`. There is none for an empty `subset`.
pub fn find_subset_index(superset: &Vec<u8>, subset: &Vec<u8>) -> (r: Option<usize>)
    ensures
        subset@.len() == 0 ==> r is None,
        subset@.len() > 0 ==> match r {
            Some(at) => first_occurrence(superset@, subset@) == Some(at as int),
            None => first_occurrence(superset@, subset@) is None,
        },
{
    if subset.len() == 0 {
        return None;
    }
    if subset.len() > superset.len() {
        proof {
            lemma_first_occurrence_absent(superset@, subset@);
        }
        return None;
    }
    let total: usize = superset.len();
    let width: usize = subset.len();
    let last: usize = total - width;
    let mut at: usize = 0;
    while at <= last
        invariant
            at <= last + 1,
            total == superset@.len(),
            width == subset@.len(),
            last == total - width,
            width > 0,
            forall|earlier: int| 0 <= earlier < at ==> !occurs_at(superset@, subset@, earlier),
        decreases last + 1 - at,
    {
        let mut same: usize = 0;
        while same < width && superset[at + same] == subset[same]
            invariant
                at <= last,
                total == superset@.len(),
                width == subset@.len(),
                last == total - width,
                same <= width,
                forall|j: int| 0 <= j < same ==> superset@[at + j] == subset@[j],
            decreases width - same,
        {
            same = same + 1;
        }
        if same == width {
            proof {
                assert(superset@.subrange(at as int, at + subset@.len()) == subset@);
                lemma_first_occurrence_found(superset@, subset@, at as int);
            }
            return Some(at);
        }
        proof {
            if occurs_at(superset@, subset@, at as int) {
                assert(superset@.subrange(at as int, at + subset@.len())[same as int]
                    == superset@[at + same]);
            }
        }
        at = at + 1;
    }
    proof {
        lemma_first_occurrence_absent(superset@, subset@);
    }
    None
}

/// Where a pointer to the bytes of `pattern` in `buffer` can point: the first
/// index at which they stand, if a pointer's 14 bits can hold it.
pub open spec fn pointer_target_for(buffer: Seq<u8>, pattern: Seq<u8>) -> Option<int> {
    match first_occurrence(buffer, pattern) {
        Some(at) => if at < POINTER_LIMIT {
            Some(at)
        } else {
            None
        },
        None => None,
    }
}

/// Walking the labels from the last one towards the first, starting before
/// the label `upto`: the index of the first label of the longest run of
/// suffixes whose wire forms each stand in `buffer` within a pointer's reach.
/// It is `upto` where the suffix that starts one label earlier does not.
pub open spec fn compression_point(buffer: Seq<u8>, labels: Seq<Seq<u8>>, upto: int) -> int
    decreases upto,
{
    if 0 < upto <= labels.len() && pointer_target_for(
        buffer,
        wire_labels(labels.skip(upto - 1)),
    ) is Some {
        compression_point(buffer, labels, upto - 1)
    } else {
        upto
    }
}

/// The two bytes of a pointer to `offset`: the two top bits set, then the 14
/// bits of the offset.
pub open spec fn pointer_bytes(offset: int) -> Seq<u8> {
    seq![(POINTER_TAG + offset / 256) as u8, (offset % 256) as u8]
}

/// The wire form of a name that follows `buffer` in a message, with
/// compression: the labels in front of the longest suffix that already
/// stands in `buffer`, then a pointer to it. Where no suffix stands there,
/// the wire form without compression.
pub open spec fn compressed_name(buffer: Seq<u8>, labels: Seq<Seq<u8>>) -> Seq<u8> {
    let start = compression_point(buffer, labels, labels.len() as int);
    if start >= labels.len() {
        wire_name(labels)
    } else {
        wire_labels(labels.take(start)) + pointer_bytes(
            pointer_target_for(buffer, wire_labels(labels.skip(start)))->0,
        )
    }
}

impl DomainName {
    /// A domain name with the text `domain`.
    pub fn new(domain: String) -> (name: DomainName)
        ensures
            name@ == domain@,
    {
        DomainName(domain)
    }

    /// The labels of this name's text as bytes.
    pub open spec fn labels(&self) -> Seq<Seq<u8>> {
        labels_of(encode_utf8(self@))
    }

    /// Appends the wire form of this name without compression: each label
    /// with its length in front, then a zero byte. Fails with `Encode` at the
    /// first label of more than 63 bytes; the labels before it have then been
    /// appended.
    pub fn encode(&self, encoded: &mut Vec<u8>) -> (r: Result<(), DNSResolverError>)
        ensures
            match r {
                Ok(_) => labels_fit(self.labels()) && final(encoded)@ == old(encoded)@ + wire_name(
                    self.labels(),
                ),
                Err(e) => !labels_fit(self.labels()) && e@ == label_too_long() && final(encoded)@
                    == old(encoded)@ + wire_labels(
                    self.labels().take(fitting_prefix(self.labels())),
                ),
            },
    {
        let labels = split_labels(self.0.as_str().as_bytes());
        let mut i: usize = 0;
        while i < labels.len()
            invariant
                i <= labels@.len(),
                byte_views(labels@) == self.labels(),
                forall|j: int| 0 <= j < i ==> self.labels()[j].len() <= MAX_LABEL_LEN,
                encoded@ == old(encoded)@ + wire_labels(self.labels().take(i as int)),
            decreases labels@.len() - i,
        {
            let label = &labels[i];
            assert(label@ == self.labels()[i as int]);
            proof {
                lemma_fitting_prefix_known(self.labels(), i as int);
            }
            if label.len() > MAX_LABEL_LEN {
                return Err(
                    DNSResolverError::encoding("name", "a label is longer than 63 bytes"),
                );
            }
            proof {
                lemma_wire_labels_push(self.labels().take(i as int), label@);
                assert(self.labels().take(i as int).push(label@) == self.labels().take(
                    i as int + 1,
                ));
            }
            encoded.push(label.len() as u8);
            encoded.extend_from_slice(label.as_slice());
            i = i + 1;
        }
        proof {
            lemma_fitting_prefix_known(self.labels(), i as int);
            assert(self.labels().take(i as int) == self.labels());
        }
        encoded.push(0);
        Ok(())
    }

    /// Appends the wire form of this name with compression against what
    /// `encoded` already holds: the labels in front of the longest suffix
    /// found there, then a pointer to it, or the whole name and a zero byte
    /// where no suffix is found. Fails with `Encode` where a label has more
    /// than 63 bytes, and then leaves `encoded` as it was.
    pub fn encode_with_compression(&self, encoded: &mut Vec<u8>) -> (r: Result<
        (),
        DNSResolverError,
    >)
        ensures
            match r {
                Ok(_) => labels_fit(self.labels()) && final(encoded)@ == old(encoded)@
                    + compressed_name(old(encoded)@, self.labels()),
                Err(e) => !labels_fit(self.labels()) && e@ == label_too_long() && final(encoded)@
                    == old(encoded)@,
            },
    {
        let labels = split_labels(self.0.as_str().as_bytes());
        let count: usize = labels.len();
        let mut i: usize = 0;
        while i < count
            invariant
                i <= count,
                count == labels@.len(),
                byte_views(labels@) == self.labels(),
                forall|j: int| 0 <= j < i ==> self.labels()[j].len() <= MAX_LABEL_LEN,
            decreases count - i,
        {
            assert(labels@[i as int]@ == self.labels()[i as int]);
            proof {
                lemma_fitting_prefix_known(self.labels(), i as int);
            }
            if labels[i].len() > MAX_LABEL_LEN {
                return Err(
                    DNSResolverError::encoding("name", "a label is longer than 63 bytes"),
                );
            }
            i = i + 1;
        }
        proof {
            lemma_fitting_prefix_known(self.labels(), count as int);
        }
        // Walk the suffixes from the shortest to the longest while each one
        // stands in what has been encoded so far.
        let mut start: usize = count;
        let mut offset: usize = 0;
        let mut suffix: Vec<u8> = Vec::new();
        proof {
            assert(self.labels().skip(count as int) == Seq::<Seq<u8>>::empty());
        }
        while start > 0
            invariant_except_break
                start <= count,
                count == labels@.len(),
                byte_views(labels@) == self.labels(),
                forall|j: int| 0 <= j < count ==> self.labels()[j].len() <= MAX_LABEL_LEN,
                encoded@ == old(encoded)@,
                suffix@ == wire_labels(self.labels().skip(start as int)),
                compression_point(encoded@, self.labels(), count as int) == compression_point(
                    encoded@,
                    self.labels(),
                    start as int,
                ),
                start < count ==> pointer_target_for(encoded@, suffix@) == Some(offset as int),
            ensures
                start <= count,
                encoded@ == old(encoded)@,
                start == compression_point(encoded@, self.labels(), count as int),
                start < count ==> pointer_target_for(
                    encoded@,
                    wire_labels(self.labels().skip(start as int)),
                ) == Some(offset as int),
            decreases start,
        {
            let label = &labels[start - 1];
            assert(label@ == self.labels()[start - 1]);
            let mut longer: Vec<u8> = Vec::new();
            longer.push(label.len() as u8);
            longer.extend_from_slice(label.as_slice());
            longer.extend_from_slice(suffix.as_slice());
            proof {
                let tail = self.labels().skip(start - 1);
                assert(tail.skip(1) == self.labels().skip(start as int));
                assert(tail[0] == label@);
                assert(longer@ == wire_labels(tail));
            }
            let found = find_subset_index(encoded, &longer);
            match found {
                Some(at) => {
                    if at < POINTER_LIMIT {
                        offset = at;
                        suffix = longer;
                        start = start - 1;
                    } else {
                        break ;
                    }
                },
                None => {
                    break ;
                },
            }
        }
        let mut j: usize = 0;
        while j < start
            invariant
                j <= start <= count,
                count == labels@.len(),
                byte_views(labels@) == self.labels(),
                forall|k: int| 0 <= k < count ==> self.labels()[k].len() <= MAX_LABEL_LEN,
                encoded@ == old(encoded)@ + wire_labels(self.labels().take(j as int)),
            decreases start - j,
        {
            let label = &labels[j];
            assert(label@ == self.labels()[j as int]);
            proof {
                lemma_wire_labels_push(self.labels().take(j as int), label@);
                assert(self.labels().take(j as int).push(label@) == self.labels().take(
                    j as int + 1,
                ));
            }
            encoded.push(label.len() as u8);
            encoded.extend_from_slice(label.as_slice());
            j = j + 1;
        }
        if start < count {
            encoded.push(POINTER_TAG + (offset / 256) as u8);
            encoded.push((offset % 256) as u8);
        } else {
            proof {
                assert(self.labels().take(count as int) == self.labels());
            }
            encoded.push(0);
        }
        Ok(())
    }
}

/// The error for a length byte between 64 and 191: too long for a label, and
/// no pointer.
pub open spec fn label_length_error() -> ErrorView {
    ErrorView::Decode("name"@, "a label is longer than 63 bytes"@)
}

/// The error for a pointer met where no message was given to follow it in.
pub open spec fn no_message_error() -> ErrorView {
    ErrorView::Decode("compressed_name"@, "a pointer needs the message it points into"@)
}

/// The error for a pointer whose second byte is missing.
pub open spec fn pointer_cut_error() -> ErrorView {
    ErrorView::Decode("compressed_name"@, "could not parse bytes"@)
}

/// The error for a pointer to an offset past the end of the message.
pub open spec fn pointer_range_error() -> ErrorView {
    ErrorView::Decode("compressed_name"@, "a pointer leads out of the message"@)
}

/// The error for a name that takes more pointers than the decoder follows.
pub open spec fn pointer_chain_error() -> ErrorView {
    ErrorView::Decode("compressed_name"@, "too many pointers"@)
}

/// The offset that a pointer with the bytes `first`, `second` holds: the low
/// six bits of the first byte, then the second byte.
pub open spec fn pointer_offset(first: u8, second: u8) -> int {
    (first - POINTER_TAG) * 256 + second
}

/// The offset that a pointer holds is made of the low six bits of its first
/// byte and of its second byte, and the two bytes of the pointer to an
/// offset are the offset with the two top bits set.
pub proof fn lemma_pointer_bits(first: u8, second: u8, offset: u16)
    requires
        first >= POINTER_TAG,
        offset < POINTER_LIMIT,
    ensures
        pointer_offset(first, second) == (((first & 0x3f) as u16) << 8) | (second as u16),
        pointer_bytes(offset as int) == seq![
            ((0xc000u16 | offset) >> 8) as u8,
            ((0xc000u16 | offset) & 0xff) as u8,
        ],
        pointer_offset(pointer_bytes(offset as int)[0], pointer_bytes(offset as int)[1])
            == offset,
{
    let f: u16 = first as u16;
    let s: u16 = second as u16;
    assert(f >= 192 && f < 256 && s < 256 ==> (f - 192) * 256 + s == ((f & 0x3f) << 8) | s)
        by (bit_vector);
    assert(f & 0x3f == (first & 0x3f) as u16) by (bit_vector)
        requires
            f == first as u16,
    ;
    let high_byte = (192 + offset / 256) as u8;
    let low_byte = (offset % 256) as u8;
    assert(offset < 16384 ==> 192 + offset / 256 == (0xc000u16 | offset) >> 8 && offset % 256 == (
    0xc000u16 | offset) & 0xff) by (bit_vector);
    assert(pointer_bytes(offset as int) =~= seq![high_byte, low_byte]);
}

/// What reading a name gives: its labels as bytes and the position after the
/// name in the bytes that were read first, or the error that stopped it.
pub type LabelsRead = Result<(Seq<Seq<u8>>, int), ErrorView>;

/// `read` with the labels `labels` in front of its labels.
pub open spec fn after_labels(labels: Seq<Seq<u8>>, read: LabelsRead) -> LabelsRead {
    match read {
        Ok((rest, next)) => Ok((labels + rest, next)),
        Err(e) => Err(e),
    }
}

/// Reads the labels of a name from `data`, starting at `pos`, following at
/// most `jumps` pointers into `message`.
///
/// A zero length byte, or the end of `data`, ends the name. A length byte
/// with its two top bits set starts a pointer: the name goes on at the offset
/// in `message` that the pointer holds, and the position after the name is
/// the one after the pointer. A length byte up to 63 is followed by the label
/// of that many bytes, or by what is left of `data`. Where a message is given
/// and the last but one byte of such a label has its two top bits set, the
/// last two bytes of the label are a pointer and the bytes before them are
/// dropped.
pub open spec fn read_labels(
    data: Seq<u8>,
    pos: int,
    message: Option<Seq<u8>>,
    jumps: nat,
) -> LabelsRead
    decreases jumps, data.len() - pos,
{
    if pos < 0 || pos >= data.len() {
        Ok((Seq::empty(), pos))
    } else if data[pos] == 0 {
        Ok((Seq::empty(), pos + 1))
    } else if data[pos] >= POINTER_TAG {
        match message {
            Some(target) => follow_pointer(data, pos, target, jumps, pos + 2),
            None => Err(no_message_error()),
        }
    } else if data[pos] > MAX_LABEL_LEN {
        Err(label_length_error())
    } else {
        let len = data[pos] as int;
        let end = if pos + 1 + len <= data.len() {
            pos + 1 + len
        } else {
            data.len() as int
        };
        if message is Some && len >= 2 && pos + len - 1 < data.len() && data[pos + len - 1]
            >= POINTER_TAG {
            follow_pointer(data, pos + len - 1, message->0, jumps, pos + 1 + len)
        } else {
            after_labels(seq![data.subrange(pos + 1, end)], read_labels(data, end, message, jumps))
        }
    }
}

/// Follows the pointer whose first byte stands in `data` at `at`: reads the
/// rest of the name in `message` at the offset that the pointer holds. The
/// position after the name is `next`.
pub open spec fn follow_pointer(
    data: Seq<u8>,
    at: int,
    message: Seq<u8>,
    jumps: nat,
    next: int,
) -> LabelsRead
    decreases jumps, 0int,
{
    if at + 1 >= data.len() {
        Err(pointer_cut_error())
    } else if pointer_offset(data[at], data[at + 1]) >= message.len() {
        Err(pointer_range_error())
    } else if jumps == 0 {
        Err(pointer_chain_error())
    } else {
        match read_labels(
            message,
            pointer_offset(data[at], data[at + 1]),
            Some(message),
            (jumps - 1) as nat,
        ) {
            Ok((labels, _)) => Ok((labels, next)),
            Err(e) => Err(e),
        }
    }
}

/// Each label read as UTF-8, with the replacement character for what is not
/// valid.
pub open spec fn label_texts(labels: Seq<Seq<u8>>) -> Seq<Seq<char>> {
    Seq::new(labels.len(), |i: int| text_of_bytes(labels[i]))
}

/// The text of a name with the labels `labels`: the labels read as UTF-8,
/// with dots between them.
pub open spec fn name_text(labels: Seq<Seq<u8>>) -> Seq<char> {
    joined(label_texts(labels), "."@)
}

/// The bytes of a message that may not be there.
pub open spec fn message_bytes(message: Option<&[u8]>) -> Option<Seq<u8>> {
    match message {
        Some(bytes) => Some(bytes@),
        None => None,
    }
}

/// Reads domain names from their wire form: a sequence of labels that ends
/// in a zero byte, a pointer, or a sequence of labels that ends in a pointer.
/// It keeps the labels that it has read so far.
pub struct LabelSequenceParser {
    labels: Vec<String>,
}

impl View for LabelSequenceParser {
    type V = Seq<Seq<char>>;

    closed spec fn view(&self) -> Seq<Seq<char>> {
        texts(self.labels@)
    }
}

impl LabelSequenceParser {
    /// A parser that has read no label yet.
    pub fn new() -> (parser: LabelSequenceParser)
        ensures
            parser@ == Seq::<Seq<char>>::empty(),
    {
        LabelSequenceParser { labels: Vec::new() }
    }

    /// Reads a name from `data`, starting at `pos`. `message` is the whole
    /// message that pointers lead into; without it a pointer is an error.
    /// Returns the name made of all labels that this parser has read, and the
    /// position in `data` after the name.
    ///
    /// Fails with `Decode` on a length byte between 64 and 191, on a pointer
    /// without a message or without its second byte, on a pointer to an
    /// offset outside the message, and on the 129th pointer of one name.
    pub fn construct_domain_name(
        &mut self,
        data: &[u8],
        pos: usize,
        message: Option<&[u8]>,
    ) -> (r: Result<(DomainName, usize), DNSResolverError>)
        ensures
            match read_labels(
                data@,
                pos as int,
                message_bytes(message),
                MAX_POINTER_JUMPS as nat,
            ) {
                Ok((labels, next)) => r matches Ok((name, after)) && after == next && final(self)@
                    == old(self)@ + label_texts(labels) && name@ == joined(final(self)@, "."@),
                Err(e) => r matches Err(error) && error@ == e && old(self)@.is_prefix_of(
                    final(self)@,
                ),
            },
    {
        match self.read_name(data, pos, message, MAX_POINTER_JUMPS) {
            Ok(after) => {
                let name = join_texts(&self.labels, ".");
                Ok((DomainName(name), after))
            },
            Err(error) => Err(error),
        }
    }

    fn read_name(&mut self, data: &[u8], pos: usize, message: Option<&[u8]>, jumps: usize) -> (r:
        Result<usize, DNSResolverError>)
        ensures
            match read_labels(data@, pos as int, message_bytes(message), jumps as nat) {
                Ok((labels, next)) => r matches Ok(after) && after == next && final(self)@ == old(
                    self,
                )@ + label_texts(labels),
                Err(e) => r matches Err(error) && error@ == e && old(self)@.is_prefix_of(
                    final(self)@,
                ),
            },
        decreases jumps, data@.len() - pos,
    {
        let total: usize = data.len();
        let mut at: usize = pos;
        let ghost done: Seq<Seq<u8>> = Seq::empty();
        proof {
            let whole = read_labels(data@, pos as int, message_bytes(message), jumps as nat);
            if let Ok((labels, _)) = whole {
                assert(done + labels == labels);
            }
        }
        loop
            invariant
                total == data@.len(),
                pos <= at,
                at <= total || at == pos,
                self@ == old(self)@ + label_texts(done),
                read_labels(data@, pos as int, message_bytes(message), jumps as nat)
                    == after_labels(
                    done,
                    read_labels(data@, at as int, message_bytes(message), jumps as nat),
                ),
            decreases total - at,
        {
            if at >= total {
                proof {
                    assert(done + Seq::<Seq<u8>>::empty() == done);
                }
                return Ok(at);
            }
            let len: u8 = data[at];
            if len == 0 {
                proof {
                    assert(done + Seq::<Seq<u8>>::empty() == done);
                }
                return Ok(at + 1);
            }
            if len >= POINTER_TAG {
                match message {
                    Some(target) => {
                        let r = self.construct_compressed_domain_name(data, at, target, jumps);
                        proof {
                            let inner = follow_pointer(
                                data@,
                                at as int,
                                target@,
                                jumps as nat,
                                at + 2,
                            );
                            if let Ok((labels, _)) = inner {
                                assert(old(self)@ + label_texts(done) + label_texts(labels)
                                    == old(self)@ + label_texts(done + labels));
                            }
                        }
                        return match r {
                            Ok(_) => {
                                assert(at + 1 < total);
                                Ok(at + 2)
                            },
                            Err(error) => Err(error),
                        };
                    },
                    None => {
                        return Err(
                            DNSResolverError::decoding(
                                "compressed_name",
                                "a pointer needs the message it points into",
                            ),
                        );
                    },
                }
            }
            if len as usize > MAX_LABEL_LEN {
                return Err(DNSResolverError::decoding("name", "a label is longer than 63 bytes"));
            }
            let width: usize = len as usize;
            let left: usize = total - (at + 1);
            let end: usize = if width <= left {
                at + 1 + width
            } else {
                total
            };
            if width >= 2 && width - 1 <= left && data[at + (width - 1)] >= POINTER_TAG {
                if let Some(target) = message {
                    let r = self.construct_compressed_domain_name(
                        data,
                        at + (width - 1),
                        target,
                        jumps,
                    );
                    proof {
                        let inner = follow_pointer(
                            data@,
                            at + width - 1,
                            target@,
                            jumps as nat,
                            at + 1 + width,
                        );
                        if let Ok((labels, _)) = inner {
                            assert(old(self)@ + label_texts(done) + label_texts(labels) == old(
                                self,
                            )@ + label_texts(done + labels));
                        }
                    }
                    return match r {
                        Ok(_) => {
                            assert(at + width < total);
                            Ok(at + 1 + width)
                        },
                        Err(error) => Err(error),
                    };
                }
            }
            let label = collect_bytes(data, at + 1, end);
            let text = read_text(label.as_slice());
            let ghost before = self@;
            self.labels.push(text);
            proof {
                let piece = data@.subrange(at + 1, end as int);
                assert(self@ == before.push(text_of_bytes(piece)));
                assert(label_texts(done.push(piece)) == label_texts(done).push(
                    text_of_bytes(piece),
                ));
                let rest = read_labels(data@, end as int, message_bytes(message), jumps as nat);
                if let Ok((more, next)) = rest {
                    assert(done + (seq![piece] + more) == done.push(piece) + more);
                }
                done = done.push(piece);
            }
            at = end;
        }
    }

    /// Follows the pointer whose first byte stands in `data` at `at`: reads
    /// the rest of the name in `message` at the offset that the pointer
    /// holds, following at most `jumps` pointers, this one counted.
    fn construct_compressed_domain_name(
        &mut self,
        data: &[u8],
        at: usize,
        message: &[u8],
        jumps: usize,
    ) -> (r: Result<(), DNSResolverError>)
        requires
            at < data@.len(),
            data@[at as int] >= POINTER_TAG,
        ensures
            match follow_pointer(data@, at as int, message@, jumps as nat, 0) {
                Ok((labels, _)) => r is Ok && final(self)@ == old(self)@ + label_texts(labels),
                Err(e) => r matches Err(error) && error@ == e && old(self)@.is_prefix_of(
                    final(self)@,
                ),
            },
        decreases jumps, 0int,
    {
        if data.len() - at <= 1 {
            return Err(DNSResolverError::decoding("compressed_name", "could not parse bytes"));
        }
        let offset: usize = (data[at] - POINTER_TAG) as usize * 256 + data[at + 1] as usize;
        if offset >= message.len() {
            return Err(
                DNSResolverError::decoding(
                    "compressed_name",
                    "a pointer leads out of the message",
                ),
            );
        }
        if jumps == 0 {
            return Err(DNSResolverError::decoding("compressed_name", "too many pointers"));
        }
        match self.read_name(message, offset, Some(message), jumps - 1) {
            Ok(_) => Ok(()),
            Err(error) => Err(error),
        }
    }
}

/// The error for a label of more than 63 bytes.
pub open spec fn label_too_long() -> ErrorView {
    ErrorView::Encode("name"@, "a label is longer than 63 bytes"@)
}

} // verus!
