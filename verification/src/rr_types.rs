//! The record types that the resolver knows, with their codes and mnemonics.

use crate::error::{DNSResolverError, ErrorView};
use crate::text::{decimal, decimal_text, same_text};
use vstd::prelude::*;

verus! {

/// The type of a resource record.
#[derive(Debug, Clone, Copy, PartialEq, Eq, Structural, Hash)]
pub enum RRType {
    A,
    NS,
    MD,
    MF,
    CNAME,
    SOA,
    MB,
    MG,
    MR,
    NULL,
    WKS,
    PTR,
    HINFO,
    MINFO,
    MX,
    TXT,
    AAAA,
}

/// The 16-bit code of a record type on the wire.
pub open spec fn code_of(record_type: RRType) -> u16 {
    match record_type {
        RRType::A => 1,
        RRType::NS => 2,
        RRType::MD => 3,
        RRType::MF => 4,
        RRType::CNAME => 5,
        RRType::SOA => 6,
        RRType::MB => 7,
        RRType::MG => 8,
        RRType::MR => 9,
        RRType::NULL => 10,
        RRType::WKS => 11,
        RRType::PTR => 12,
        RRType::HINFO => 13,
        RRType::MINFO => 14,
        RRType::MX => 15,
        RRType::TXT => 16,
        RRType::AAAA => 28,
    }
}

/// The record type with the code `code`, if there is one.
pub open spec fn type_of_code(code: u16) -> Option<RRType> {
    if code == 1 {
        Some(RRType::A)
    } else if code == 2 {
        Some(RRType::NS)
    } else if code == 3 {
        Some(RRType::MD)
    } else if code == 4 {
        Some(RRType::MF)
    } else if code == 5 {
        Some(RRType::CNAME)
    } else if code == 6 {
        Some(RRType::SOA)
    } else if code == 7 {
        Some(RRType::MB)
    } else if code == 8 {
        Some(RRType::MG)
    } else if code == 9 {
        Some(RRType::MR)
    } else if code == 10 {
        Some(RRType::NULL)
    } else if code == 11 {
        Some(RRType::WKS)
    } else if code == 12 {
        Some(RRType::PTR)
    } else if code == 13 {
        Some(RRType::HINFO)
    } else if code == 14 {
        Some(RRType::MINFO)
    } else if code == 15 {
        Some(RRType::MX)
    } else if code == 16 {
        Some(RRType::TXT)
    } else if code == 28 {
        Some(RRType::AAAA)
    } else {
        None
    }
}

/// The mnemonic of a record type.
pub open spec fn mnemonic(record_type: RRType) -> Seq<char> {
    match record_type {
        RRType::A => "A"@,
        RRType::NS => "NS"@,
        RRType::MD => "MD"@,
        RRType::MF => "MF"@,
        RRType::CNAME => "CNAME"@,
        RRType::SOA => "SOA"@,
        RRType::MB => "MB"@,
        RRType::MG => "MG"@,
        RRType::MR => "MR"@,
        RRType::NULL => "NULL"@,
        RRType::WKS => "WKS"@,
        RRType::PTR => "PTR"@,
        RRType::HINFO => "HINFO"@,
        RRType::MINFO => "MINFO"@,
        RRType::MX => "MX"@,
        RRType::TXT => "TXT"@,
        RRType::AAAA => "AAAA"@,
    }
}

/// The code of a record type leads back to the record type, and a code that
/// leads to a record type is that type's code.
pub proof fn lemma_code_round_trip(record_type: RRType, code: u16)
    ensures
        type_of_code(code_of(record_type)) == Some(record_type),
        type_of_code(code) matches Some(found) ==> code_of(found) == code,
{
}

impl RRType {
    /// The 16-bit code of this record type on the wire.
    pub fn code(&self) -> (code: u16)
        ensures
            code == code_of(*self),
    {
        match self {
            RRType::A => 1,
            RRType::NS => 2,
            RRType::MD => 3,
            RRType::MF => 4,
            RRType::CNAME => 5,
            RRType::SOA => 6,
            RRType::MB => 7,
            RRType::MG => 8,
            RRType::MR => 9,
            RRType::NULL => 10,
            RRType::WKS => 11,
            RRType::PTR => 12,
            RRType::HINFO => 13,
            RRType::MINFO => 14,
            RRType::MX => 15,
            RRType::TXT => 16,
            RRType::AAAA => 28,
        }
    }

    /// The record type with the code `code`. A code that belongs to no record
    /// type fails with `InvalidRecordType`, which holds the code in decimal.
    pub fn from_code(code: u16) -> (r: Result<RRType, DNSResolverError>)
        ensures
            match r {
                Ok(record_type) => type_of_code(code) == Some(record_type),
                Err(e) => type_of_code(code) is None && e@ == ErrorView::InvalidRecordType(
                    decimal(code as nat),
                ),
            },
    {
        let known = RRType::all();
        let mut i: usize = 0;
        while i < 17
            invariant
                i <= 17,
                known@ == all_types(),
                forall|j: int| 0 <= j < i ==> code_of(#[trigger] all_types()[j]) != code,
            decreases 17 - i,
        {
            let candidate = known[i];
            if candidate.code() == code {
                return Ok(candidate);
            }
            i = i + 1;
        }
        proof {
            if let Some(found) = type_of_code(code) {
                lemma_all_types_complete(found);
            }
        }
        Err(DNSResolverError::InvalidRecordType(decimal_text(code as u64)))
    }

    /// Every record type, in the order of the codes.
    pub fn all() -> (known: [RRType; 17])
        ensures
            known@ == all_types(),
    {
        let known: [RRType; 17] = [
            RRType::A,
            RRType::NS,
            RRType::MD,
            RRType::MF,
            RRType::CNAME,
            RRType::SOA,
            RRType::MB,
            RRType::MG,
            RRType::MR,
            RRType::NULL,
            RRType::WKS,
            RRType::PTR,
            RRType::HINFO,
            RRType::MINFO,
            RRType::MX,
            RRType::TXT,
            RRType::AAAA,
        ];
        assert(known@ == all_types());
        known
    }

    /// The mnemonic of this record type.
    pub fn as_ref(&self) -> (name: &'static str)
        ensures
            name@ == mnemonic(*self),
    {
        match self {
            RRType::A => "A",
            RRType::NS => "NS",
            RRType::MD => "MD",
            RRType::MF => "MF",
            RRType::CNAME => "CNAME",
            RRType::SOA => "SOA",
            RRType::MB => "MB",
            RRType::MG => "MG",
            RRType::MR => "MR",
            RRType::NULL => "NULL",
            RRType::WKS => "WKS",
            RRType::PTR => "PTR",
            RRType::HINFO => "HINFO",
            RRType::MINFO => "MINFO",
            RRType::MX => "MX",
            RRType::TXT => "TXT",
            RRType::AAAA => "AAAA",
        }
    }
}

/// The record types in the order of their codes.
pub open spec fn all_types() -> Seq<RRType> {
    seq![
        RRType::A,
        RRType::NS,
        RRType::MD,
        RRType::MF,
        RRType::CNAME,
        RRType::SOA,
        RRType::MB,
        RRType::MG,
        RRType::MR,
        RRType::NULL,
        RRType::WKS,
        RRType::PTR,
        RRType::HINFO,
        RRType::MINFO,
        RRType::MX,
        RRType::TXT,
        RRType::AAAA,
    ]
}

/// Whether `val` is the mnemonic of some record type.
pub open spec fn is_mnemonic(val: Seq<char>) -> bool {
    exists|i: int| 0 <= i < all_types().len() && mnemonic(#[trigger] all_types()[i]) == val
}

/// Every record type stands in the list of all types.
pub proof fn lemma_all_types_complete(record_type: RRType)
    ensures
        exists|i: int| 0 <= i < all_types().len() && #[trigger] all_types()[i] == record_type,
{
    let i = match record_type {
        RRType::A => 0int,
        RRType::NS => 1,
        RRType::MD => 2,
        RRType::MF => 3,
        RRType::CNAME => 4,
        RRType::SOA => 5,
        RRType::MB => 6,
        RRType::MG => 7,
        RRType::MR => 8,
        RRType::NULL => 9,
        RRType::WKS => 10,
        RRType::PTR => 11,
        RRType::HINFO => 12,
        RRType::MINFO => 13,
        RRType::MX => 14,
        RRType::TXT => 15,
        RRType::AAAA => 16,
    };
    assert(all_types()[i] == record_type);
}

/// The record type whose mnemonic is `val`, compared letter for letter. A
/// text that is no mnemonic fails with `InvalidRecordType`, which holds the
/// text.
pub fn str_to_record_type(val: &str) -> (r: Result<RRType, DNSResolverError>)
    ensures
        match r {
            Ok(record_type) => mnemonic(record_type) == val@,
            Err(e) => !is_mnemonic(val@) && e@ == ErrorView::InvalidRecordType(val@),
        },
{
    let known = RRType::all();
    let mut i: usize = 0;
    while i < 17
        invariant
            i <= 17,
            known@ == all_types(),
            forall|j: int| 0 <= j < i ==> mnemonic(#[trigger] all_types()[j]) != val@,
        decreases 17 - i,
    {
        let candidate = known[i];
        if same_text(candidate.as_ref(), val) {
            return Ok(candidate);
        }
        i = i + 1;
    }
    Err(DNSResolverError::InvalidRecordType(val.to_owned()))
}

} // verus!
