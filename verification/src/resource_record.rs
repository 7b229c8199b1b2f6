//! Resource records: their wire form and the readable form of their data.

use crate::domain_name::{
    compressed_name, label_texts, label_too_long, labels_fit, message_bytes, name_text, read_labels,
    DomainName, LabelSequenceParser, MAX_POINTER_JUMPS, POINTER_TAG,
};
use crate::error::{DNSResolverError, ErrorView};
use crate::query::labels_of_text;
use crate::rr_types::{code_of, type_of_code, RRType};
use crate::text::{
    collect_bytes, decimal, decimal_text, join_with, joined, read_text, text_of_bytes, texts,
};
use crate::utils::{
    be16, be16_bytes, be32, be32_bytes, push_be16, push_be32, read_be16s, u8_bytes_to_u16_vec,
};
use vstd::prelude::*;

verus! {

/// The largest time to live that the wire format can hold, in seconds.
pub const MAX_WIRE_TTL: u64 = 4294967295;

/// A DNS resource record.
#[derive(Debug)]
pub struct DNSRecord {
    name: DomainName,
    r_type: RRType,
    class: u16,
    ttl: u64,
    rd_len: u16,
    data: Data,
}

/// The data of a resource record: the bytes as they came, and their readable
/// form where the type has one.
#[derive(Debug)]
struct Data {
    raw: Vec<u8>,
    parsed: Option<String>,
}

/// What a resource record holds. The time to live is in seconds.
pub struct RecordView {
    pub name: Seq<char>,
    pub r_type: RRType,
    pub class: u16,
    pub ttl: u64,
    pub rd_len: u16,
    pub raw: Seq<u8>,
    pub parsed: Option<Seq<char>>,
}

/// The characters of a string that may not be there.
pub open spec fn text_of(text: Option<String>) -> Option<Seq<char>> {
    match text {
        Some(text) => Some(text@),
        None => None,
    }
}

impl View for DNSRecord {
    type V = RecordView;

    closed spec fn view(&self) -> RecordView {
        RecordView {
            name: self.name@,
            r_type: self.r_type,
            class: self.class,
            ttl: self.ttl,
            rd_len: self.rd_len,
            raw: self.data.raw@,
            parsed: text_of(self.data.parsed),
        }
    }
}

impl Clone for DNSRecord {
    fn clone(&self) -> (record: Self)
        ensures
            record@ == self@,
    {
        let parsed = match &self.data.parsed {
            Some(text) => Some(text.clone()),
            None => None,
        };
        DNSRecord {
            name: self.name.clone(),
            r_type: self.r_type,
            class: self.class,
            ttl: self.ttl,
            rd_len: self.rd_len,
            data: Data { raw: self.data.raw.clone(), parsed },
        }
    }
}

/// The views of a sequence of records.
pub open spec fn record_views(records: Seq<DNSRecord>) -> Seq<RecordView> {
    Seq::new(records.len(), |i: int| records[i]@)
}

/// The four numbers of an IPv4 address in decimal, with dots between them.
pub open spec fn dotted_quad(raw: Seq<u8>) -> Seq<char> {
    joined(
        seq![
            decimal(raw[0] as nat),
            decimal(raw[1] as nat),
            decimal(raw[2] as nat),
            decimal(raw[3] as nat),
        ],
        "."@,
    )
}

/// Whether the data of a name record ends in a pointer: it has two bytes or
/// more, and the last but one has its two top bits set.
pub open spec fn ends_in_pointer(raw: Seq<u8>) -> bool {
    raw.len() >= 2 && raw[raw.len() - 2] >= POINTER_TAG
}

/// The readable form of the data of a record, or the error for data that
/// has none.
///
/// For an A record with four bytes of data, the dotted quad. For a TXT record
/// with data, the bytes after the first one, read as UTF-8. For an NS or a
/// CNAME record, the name that the data holds; pointers are followed in
/// `message` where the data ends in one, and are an error where it does not.
pub open spec fn parse_rdata(r_type: RRType, rd_len: u16, raw: Seq<u8>, message: Seq<u8>) -> Result<
    Seq<char>,
    ErrorView,
> {
    if r_type == RRType::A {
        if rd_len == 4 && raw.len() == 4 {
            Ok(dotted_quad(raw))
        } else {
            Err(ErrorView::Parse)
        }
    } else if r_type == RRType::TXT {
        if raw.len() >= 1 {
            Ok(text_of_bytes(raw.skip(1)))
        } else {
            Err(ErrorView::Parse)
        }
    } else if r_type == RRType::NS || r_type == RRType::CNAME {
        let context = if ends_in_pointer(raw) {
            Some(message)
        } else {
            None
        };
        match read_labels(raw, 0, context, MAX_POINTER_JUMPS as nat) {
            Ok((labels, _)) => Ok(name_text(labels)),
            Err(e) => Err(e),
        }
    } else {
        Err(ErrorView::Parse)
    }
}

/// The readable form of the data of a record, where it has one.
pub open spec fn parsed_rdata(
    r_type: RRType,
    rd_len: u16,
    raw: Seq<u8>,
    message: Seq<u8>,
) -> Option<Seq<char>> {
    match parse_rdata(r_type, rd_len, raw, message) {
        Ok(text) => Some(text),
        Err(_) => None,
    }
}

/// The error for a record that ends inside its time to live.
pub open spec fn ttl_cut_error() -> ErrorView {
    ErrorView::Decode("rr"@, "could not parse bytes"@)
}

/// What decoding a record from `message` at `pos` gives: the record and the
/// position after it, or the error that stopped it.
///
/// The name comes first, with pointers followed in `message`; then the
/// type's code and the class, the time to live in seconds as 32 bits, the
/// length of the data, and the data: that many bytes, or what is left of the
/// message.
pub open spec fn decode_record(message: Seq<u8>, pos: int) -> Result<(RecordView, int), ErrorView> {
    match read_labels(message, pos, Some(message), MAX_POINTER_JUMPS as nat) {
        Err(e) => Err(e),
        Ok((labels, after_name)) => match read_be16s(message, after_name, 2) {
            None => Err(ErrorView::Parse),
            Some((parts, after_class)) => match type_of_code(parts[0]) {
                None => Err(ErrorView::InvalidRecordType(decimal(parts[0] as nat))),
                Some(r_type) => if after_class + 4 > message.len() {
                    Err(ttl_cut_error())
                } else if after_class + 6 > message.len() {
                    Err(ErrorView::Parse)
                } else {
                    let ttl = be32(
                        message[after_class],
                        message[after_class + 1],
                        message[after_class + 2],
                        message[after_class + 3],
                    );
                    let rd_len = be16(
                        message[after_class + 4],
                        message[after_class + 5],
                    );
                    let start = after_class + 6;
                    let end = if start + rd_len <= message.len() {
                        start + rd_len
                    } else {
                        message.len() as int
                    };
                    let raw = message.subrange(start, end);
                    Ok(
                        (
                            RecordView {
                                name: name_text(labels),
                                r_type,
                                class: parts[1],
                                ttl: ttl as u64,
                                rd_len,
                                raw,
                                parsed: parsed_rdata(r_type, rd_len, raw, message),
                            },
                            end,
                        ),
                    )
                },
            },
        },
    }
}

/// The time to live as the wire format holds it: the seconds, or the largest
/// 32-bit value where they are more.
pub open spec fn wire_ttl(ttl: u64) -> u32 {
    if ttl > MAX_WIRE_TTL {
        MAX_WIRE_TTL as u32
    } else {
        ttl as u32
    }
}

/// The bytes of a record after its name: the type's code, the class, the
/// time to live, the length of the data, and the data as it came.
pub open spec fn record_tail_bytes(record: RecordView) -> Seq<u8> {
    be16_bytes(code_of(record.r_type)) + be16_bytes(record.class) + be32_bytes(
        wire_ttl(record.ttl),
    ) + be16_bytes(record.rd_len) + record.raw
}

/// The wire form of a record that follows `buffer` in a message: the name
/// with compression against `buffer`, then the rest of the record.
pub open spec fn record_bytes(buffer: Seq<u8>, record: RecordView) -> Seq<u8> {
    compressed_name(buffer, labels_of_text(record.name)) + record_tail_bytes(record)
}

impl DNSRecord {
    /// The type of the record.
    pub fn r_type(&self) -> (r_type: &RRType)
        ensures
            *r_type == self@.r_type,
    {
        &self.r_type
    }

    /// The name that the record belongs to.
    pub fn name(&self) -> (name: &DomainName)
        ensures
            name@ == self@.name,
    {
        &self.name
    }

    /// The time to live of the record, in seconds.
    pub fn ttl(&self) -> (ttl: u64)
        ensures
            ttl == self@.ttl,
    {
        self.ttl
    }

    /// The readable form of the data, where the record has one.
    pub fn parsed_data(&self) -> (parsed: &Option<String>)
        ensures
            text_of(*parsed) == self@.parsed,
    {
        &self.data.parsed
    }

    /// The data of the record as it came.
    pub fn raw_data(&self) -> (raw: &Vec<u8>)
        ensures
            raw@ == self@.raw,
    {
        &self.data.raw
    }

    /// Reads a record from `message` at `pos`. Returns it with the position
    /// after it.
    ///
    /// Fails with the error of the name where the name cannot be read, with
    /// `Parse` where the message ends inside the type, the class, or the
    /// length of the data, with `InvalidRecordType` where the type's code is
    /// unknown, and with `Decode` where it ends inside the time to live.
    pub fn decode(message: &[u8], pos: usize) -> (r: Result<(DNSRecord, usize), DNSResolverError>)
        ensures
            match decode_record(message@, pos as int) {
                Ok((record, next)) => r matches Ok((found, after)) && found@ == record && after
                    == next,
                Err(e) => r matches Err(error) && error@ == e,
            },
    {
        let mut label_parser = LabelSequenceParser::new();
        let (name, after_name) = match label_parser.construct_domain_name(
            message,
            pos,
            Some(message),
        ) {
            Ok(read) => read,
            Err(error) => {
                return Err(error);
            },
        };
        proof {
            if let Ok((labels, _)) = read_labels(
                message@,
                pos as int,
                Some(message@),
                MAX_POINTER_JUMPS as nat,
            ) {
                assert(Seq::<Seq<char>>::empty() + label_texts(labels) == label_texts(labels));
            }
        }
        let (parts, after_class) = match u8_bytes_to_u16_vec(message, after_name, 2) {
            Ok(read) => read,
            Err(error) => {
                return Err(error);
            },
        };
        let r_type = match RRType::from_code(parts[0]) {
            Ok(r_type) => r_type,
            Err(error) => {
                return Err(error);
            },
        };
        let class = parts[1];
        let total: usize = message.len();
        if total - after_class < 4 {
            return Err(DNSResolverError::decoding("rr", "could not parse bytes"));
        }
        let ttl: u32 = message[after_class] as u32 * 16777216 + message[after_class + 1] as u32
            * 65536 + message[after_class + 2] as u32 * 256 + message[after_class + 3] as u32;
        let (lengths, start) = match u8_bytes_to_u16_vec(message, after_class + 4, 1) {
            Ok(read) => read,
            Err(error) => {
                return Err(error);
            },
        };
        let rd_len = lengths[0];
        let end: usize = if rd_len as usize <= total - start {
            start + rd_len as usize
        } else {
            total
        };
        let raw = collect_bytes(message, start, end);
        let mut record = DNSRecord {
            name,
            r_type,
            class,
            ttl: ttl as u64,
            rd_len,
            data: Data { raw, parsed: None },
        };
        let parsed = match record.parse_raw_data(message) {
            Ok(text) => Some(text),
            Err(_) => None,
        };
        record.data.parsed = parsed;
        Ok((record, end))
    }

    /// The readable form of the data of this record, read against the
    /// message that the record stands in. Fails with `Parse` for a type
    /// without a readable form and for data that does not fit the type, and
    /// with the error of the name for an NS or a CNAME record whose name
    /// cannot be read.
    pub fn parse_raw_data(&self, message: &[u8]) -> (r: Result<String, DNSResolverError>)
        ensures
            match parse_rdata(self@.r_type, self@.rd_len, self@.raw, message@) {
                Ok(text) => r matches Ok(found) && found@ == text,
                Err(e) => r matches Err(error) && error@ == e,
            },
    {
        let raw = &self.data.raw;
        match self.r_type {
            RRType::A => {
                if self.rd_len == 4 && raw.len() == 4 {
                    let mut numbers: Vec<String> = Vec::new();
                    numbers.push(decimal_text(raw[0] as u64));
                    numbers.push(decimal_text(raw[1] as u64));
                    numbers.push(decimal_text(raw[2] as u64));
                    numbers.push(decimal_text(raw[3] as u64));
                    proof {
                        assert(texts(numbers@) == seq![
                            decimal(raw@[0] as nat),
                            decimal(raw@[1] as nat),
                            decimal(raw@[2] as nat),
                            decimal(raw@[3] as nat),
                        ]);
                    }
                    Ok(join_with(&numbers, "."))
                } else {
                    Err(DNSResolverError::Parse)
                }
            },
            RRType::TXT => {
                if raw.len() >= 1 {
                    let text = collect_bytes(raw.as_slice(), 1, raw.len());
                    assert(text@ == raw@.skip(1));
                    Ok(read_text(text.as_slice()))
                } else {
                    Err(DNSResolverError::Parse)
                }
            },
            RRType::NS | RRType::CNAME => {
                let mut label_parser = LabelSequenceParser::new();
                let pointed = raw.len() >= 2 && raw[raw.len() - 2] >= POINTER_TAG;
                let context = if pointed {
                    Some(message)
                } else {
                    None
                };
                proof {
                    if let Ok((labels, _)) = read_labels(
                        raw@,
                        0,
                        message_bytes(context),
                        MAX_POINTER_JUMPS as nat,
                    ) {
                        assert(Seq::<Seq<char>>::empty() + label_texts(labels) == label_texts(
                            labels,
                        ));
                    }
                }
                match label_parser.construct_domain_name(raw.as_slice(), 0, context) {
                    Ok((name, _)) => Ok(name.0),
                    Err(error) => Err(error),
                }
            },
            _ => Err(DNSResolverError::Parse),
        }
    }

    /// Appends the wire form of the record: the name with compression
    /// against what `encoded` already holds, the type's code, the class, the
    /// time to live in seconds (the largest 32-bit value where it is more),
    /// the length of the data, and the data as it came. Fails with `Encode`
    /// where a label of the name has more than 63 bytes, and then leaves
    /// `encoded` as it was.
    pub fn encode(&self, encoded: &mut Vec<u8>) -> (r: Result<(), DNSResolverError>)
        ensures
            match r {
                Ok(_) => labels_fit(labels_of_text(self@.name)) && final(encoded)@ == old(
                    encoded,
                )@ + record_bytes(old(encoded)@, self@),
                Err(e) => !labels_fit(labels_of_text(self@.name)) && e@ == label_too_long()
                    && final(encoded)@ == old(encoded)@,
            },
    {
        match self.name.encode_with_compression(encoded) {
            Ok(_) => {},
            Err(error) => {
                return Err(error);
            },
        }
        push_be16(encoded, self.r_type.code());
        push_be16(encoded, self.class);
        let ttl: u32 = if self.ttl > MAX_WIRE_TTL {
            MAX_WIRE_TTL as u32
        } else {
            self.ttl as u32
        };
        push_be32(encoded, ttl);
        push_be16(encoded, self.rd_len);
        encoded.extend_from_slice(self.data.raw.as_slice());
        Ok(())
    }
}

} // verus!
