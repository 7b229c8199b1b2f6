//! The errors of the resolver and their messages.

use vstd::prelude::*;
use vstd::string::*;

verus! {

/// What can go wrong while encoding, decoding or resolving.
#[derive(Debug)]
pub enum DNSResolverError {
    /// Malformed input: the decode step and the reason.
    Decode(String, String),
    /// A value that the wire format cannot hold: the encode step and the reason.
    Encode(String, String),
    /// Record data that cannot be read for its type, or input that ends early.
    Parse,
    /// An unknown record type code or mnemonic.
    InvalidRecordType(String),
    /// Binding or connecting failed: the endpoint and the reason.
    ConnectionFailure(String, String),
    /// Sending or receiving failed: the operation and the reason.
    IOFailure(String, String),
    /// The lookup ran out of servers to ask: the record type and the domain.
    LookupFailure(String, String),
}

/// An error with its texts as sequences of characters.
pub enum ErrorView {
    Decode(Seq<char>, Seq<char>),
    Encode(Seq<char>, Seq<char>),
    Parse,
    InvalidRecordType(Seq<char>),
    ConnectionFailure(Seq<char>, Seq<char>),
    IOFailure(Seq<char>, Seq<char>),
    LookupFailure(Seq<char>, Seq<char>),
}

impl View for DNSResolverError {
    type V = ErrorView;

    open spec fn view(&self) -> ErrorView {
        match self {
            DNSResolverError::Decode(step, why) => ErrorView::Decode(step@, why@),
            DNSResolverError::Encode(step, why) => ErrorView::Encode(step@, why@),
            DNSResolverError::Parse => ErrorView::Parse,
            DNSResolverError::InvalidRecordType(value) => ErrorView::InvalidRecordType(value@),
            DNSResolverError::ConnectionFailure(endpoint, why) => ErrorView::ConnectionFailure(
                endpoint@,
                why@,
            ),
            DNSResolverError::IOFailure(operation, why) => ErrorView::IOFailure(operation@, why@),
            DNSResolverError::LookupFailure(record_type, domain) => ErrorView::LookupFailure(
                record_type@,
                domain@,
            ),
        }
    }
}

/// The text `open`, `first`, `middle`, `second`, `close` in a row.
pub open spec fn framed(
    open: Seq<char>,
    first: Seq<char>,
    middle: Seq<char>,
    second: Seq<char>,
    close: Seq<char>,
) -> Seq<char> {
    open + first + middle + second + close
}

/// The message that an error shows to a person.
pub open spec fn message_of(error: ErrorView) -> Seq<char> {
    match error {
        ErrorView::Decode(step, why) => framed(
            "error while decoding `"@,
            step,
            "`: `"@,
            why,
            "`"@,
        ),
        ErrorView::Encode(step, why) => framed(
            "error while encoding `"@,
            step,
            "`: `"@,
            why,
            "`"@,
        ),
        ErrorView::Parse => "error while parsing bytes"@,
        ErrorView::InvalidRecordType(value) => "invalid record type: `"@ + value + "`"@,
        ErrorView::ConnectionFailure(endpoint, why) => framed(
            "failed while trying to connect to `"@,
            endpoint,
            "`: `"@,
            why,
            "`"@,
        ),
        ErrorView::IOFailure(operation, why) => framed(
            "failed while trying to `"@,
            operation,
            "` data: `"@,
            why,
            "`"@,
        ),
        ErrorView::LookupFailure(record_type, domain) => framed(
            "could not lookup `"@,
            record_type,
            "` record of `"@,
            domain,
            "`"@,
        ),
    }
}

fn frame(open: &str, first: &str, middle: &str, second: &str, close: &str) -> (text: String)
    ensures
        text@ == framed(open@, first@, middle@, second@, close@),
{
    let mut text = open.to_owned();
    text.append(first);
    text.append(middle);
    text.append(second);
    text.append(close);
    text
}

impl DNSResolverError {
    /// The message that this error shows to a person.
    pub fn message(&self) -> (text: String)
        ensures
            text@ == message_of(self@),
    {
        match self {
            DNSResolverError::Decode(step, why) => frame(
                "error while decoding `",
                step.as_str(),
                "`: `",
                why.as_str(),
                "`",
            ),
            DNSResolverError::Encode(step, why) => frame(
                "error while encoding `",
                step.as_str(),
                "`: `",
                why.as_str(),
                "`",
            ),
            DNSResolverError::Parse => "error while parsing bytes".to_owned(),
            DNSResolverError::InvalidRecordType(value) => {
                let mut text = "invalid record type: `".to_owned();
                text.append(value.as_str());
                text.append("`");
                text
            },
            DNSResolverError::ConnectionFailure(endpoint, why) => frame(
                "failed while trying to connect to `",
                endpoint.as_str(),
                "`: `",
                why.as_str(),
                "`",
            ),
            DNSResolverError::IOFailure(operation, why) => frame(
                "failed while trying to `",
                operation.as_str(),
                "` data: `",
                why.as_str(),
                "`",
            ),
            DNSResolverError::LookupFailure(record_type, domain) => frame(
                "could not lookup `",
                record_type.as_str(),
                "` record of `",
                domain.as_str(),
                "`",
            ),
        }
    }

    /// A `Decode` error for the step `step` with the reason `why`.
    pub fn decoding(step: &str, why: &str) -> (error: DNSResolverError)
        ensures
            error@ == ErrorView::Decode(step@, why@),
    {
        DNSResolverError::Decode(step.to_owned(), why.to_owned())
    }

    /// An `Encode` error for the step `step` with the reason `why`.
    pub fn encoding(step: &str, why: &str) -> (error: DNSResolverError)
        ensures
            error@ == ErrorView::Encode(step@, why@),
    {
        DNSResolverError::Encode(step.to_owned(), why.to_owned())
    }
}

/// Wraps `err` as a `Decode` error of the step `step`, with the message of
/// `err` as the reason.
pub fn map_decode_err(step: &str, err: &DNSResolverError) -> (error: DNSResolverError)
    ensures
        error@ == ErrorView::Decode(step@, message_of(err@)),
{
    DNSResolverError::Decode(step.to_owned(), err.message())
}

/// Wraps `err` as an `Encode` error of the step `step`, with the message of
/// `err` as the reason.
pub fn map_encode_err(step: &str, err: &DNSResolverError) -> (error: DNSResolverError)
    ensures
        error@ == ErrorView::Encode(step@, message_of(err@)),
{
    DNSResolverError::Encode(step.to_owned(), err.message())
}

} // verus!
