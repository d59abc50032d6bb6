//! Code points of the DNS wire format: record types, classes, opcodes,
//! response codes and EDNS option codes.
use vstd::prelude::*;

verus! {

/// DNS record type (RFC 1035 and later).
#[derive(Debug, Clone, Copy, PartialEq, Eq, Structural)]
pub enum RecordType {
    A,
    NS,
    CNAME,
    SOA,
    PTR,
    MX,
    TXT,
    AAAA,
    SRV,
    DS,
    RRSIG,
    NSEC,
    DNSKEY,
    NSEC3,
    NSEC3PARAM,
    CAA,
    OPT,
    ANY,
    Unknown(u16),
}

/// The numeric code of a record type.
pub open spec fn record_type_code(t: RecordType) -> u16 {
    match t {
        RecordType::A => 1,
        RecordType::NS => 2,
        RecordType::CNAME => 5,
        RecordType::SOA => 6,
        RecordType::PTR => 12,
        RecordType::MX => 15,
        RecordType::TXT => 16,
        RecordType::AAAA => 28,
        RecordType::SRV => 33,
        RecordType::OPT => 41,
        RecordType::DS => 43,
        RecordType::RRSIG => 46,
        RecordType::NSEC => 47,
        RecordType::DNSKEY => 48,
        RecordType::NSEC3 => 50,
        RecordType::NSEC3PARAM => 51,
        RecordType::ANY => 255,
        RecordType::CAA => 257,
        RecordType::Unknown(v) => v,
    }
}

/// The record type that a numeric code denotes.
pub open spec fn record_type_of(v: u16) -> RecordType {
    if v == 1 {
        RecordType::A
    } else if v == 2 {
        RecordType::NS
    } else if v == 5 {
        RecordType::CNAME
    } else if v == 6 {
        RecordType::SOA
    } else if v == 12 {
        RecordType::PTR
    } else if v == 15 {
        RecordType::MX
    } else if v == 16 {
        RecordType::TXT
    } else if v == 28 {
        RecordType::AAAA
    } else if v == 33 {
        RecordType::SRV
    } else if v == 41 {
        RecordType::OPT
    } else if v == 43 {
        RecordType::DS
    } else if v == 46 {
        RecordType::RRSIG
    } else if v == 47 {
        RecordType::NSEC
    } else if v == 48 {
        RecordType::DNSKEY
    } else if v == 50 {
        RecordType::NSEC3
    } else if v == 51 {
        RecordType::NSEC3PARAM
    } else if v == 255 {
        RecordType::ANY
    } else if v == 257 {
        RecordType::CAA
    } else {
        RecordType::Unknown(v)
    }
}

/// A record type in the form that decoding its own code gives back:
/// `Unknown` only carries codes that no named variant has.
pub open spec fn record_type_canonical(t: RecordType) -> bool {
    record_type_of(record_type_code(t)) == t
}

impl RecordType {
    pub fn from_u16(value: u16) -> (r: RecordType)
        ensures
            r == record_type_of(value),
    {
        match value {
            1 => RecordType::A,
            2 => RecordType::NS,
            5 => RecordType::CNAME,
            6 => RecordType::SOA,
            12 => RecordType::PTR,
            15 => RecordType::MX,
            16 => RecordType::TXT,
            28 => RecordType::AAAA,
            33 => RecordType::SRV,
            41 => RecordType::OPT,
            43 => RecordType::DS,
            46 => RecordType::RRSIG,
            47 => RecordType::NSEC,
            48 => RecordType::DNSKEY,
            50 => RecordType::NSEC3,
            51 => RecordType::NSEC3PARAM,
            255 => RecordType::ANY,
            257 => RecordType::CAA,
            _ => RecordType::Unknown(value),
        }
    }

    pub fn to_u16(&self) -> (r: u16)
        ensures
            r == record_type_code(*self),
    {
        match self {
            RecordType::A => 1,
            RecordType::NS => 2,
            RecordType::CNAME => 5,
            RecordType::SOA => 6,
            RecordType::PTR => 12,
            RecordType::MX => 15,
            RecordType::TXT => 16,
            RecordType::AAAA => 28,
            RecordType::SRV => 33,
            RecordType::OPT => 41,
            RecordType::DS => 43,
            RecordType::RRSIG => 46,
            RecordType::NSEC => 47,
            RecordType::DNSKEY => 48,
            RecordType::NSEC3 => 50,
            RecordType::NSEC3PARAM => 51,
            RecordType::ANY => 255,
            RecordType::CAA => 257,
            RecordType::Unknown(value) => *value,
        }
    }
}

/// Decoding a record type code and encoding it again gives the code back,
/// for every 16-bit value.
pub proof fn lemma_record_type_code_roundtrip(v: u16)
    ensures
        record_type_code(record_type_of(v)) == v,
        record_type_canonical(record_type_of(v)),
{
}

/// Encoding a record type and decoding the code gives the type back exactly
/// when the type is canonical; every named variant is canonical.
pub proof fn lemma_record_type_roundtrip(t: RecordType)
    ensures
        record_type_canonical(t) <==> record_type_of(record_type_code(t)) == t,
        !(t is Unknown) ==> record_type_canonical(t),
{
}

/// DNS class (RFC 1035).
#[derive(Debug, Clone, Copy, PartialEq, Eq, Structural)]
pub enum Class {
    IN,
    CS,
    CH,
    HS,
    ANY,
    Unknown(u16),
}

/// The numeric code of a class.
pub open spec fn class_code(c: Class) -> u16 {
    match c {
        Class::IN => 1,
        Class::CS => 2,
        Class::CH => 3,
        Class::HS => 4,
        Class::ANY => 255,
        Class::Unknown(v) => v,
    }
}

/// The class that a numeric code denotes.
pub open spec fn class_of(v: u16) -> Class {
    if v == 1 {
        Class::IN
    } else if v == 2 {
        Class::CS
    } else if v == 3 {
        Class::CH
    } else if v == 4 {
        Class::HS
    } else if v == 255 {
        Class::ANY
    } else {
        Class::Unknown(v)
    }
}

/// A class in the form that decoding its own code gives back.
pub open spec fn class_canonical(c: Class) -> bool {
    class_of(class_code(c)) == c
}

impl Class {
    pub fn from_u16(value: u16) -> (r: Class)
        ensures
            r == class_of(value),
    {
        match value {
            1 => Class::IN,
            2 => Class::CS,
            3 => Class::CH,
            4 => Class::HS,
            255 => Class::ANY,
            _ => Class::Unknown(value),
        }
    }

    pub fn to_u16(&self) -> (r: u16)
        ensures
            r == class_code(*self),
    {
        match self {
            Class::IN => 1,
            Class::CS => 2,
            Class::CH => 3,
            Class::HS => 4,
            Class::ANY => 255,
            Class::Unknown(value) => *value,
        }
    }
}

/// Decoding a class code and encoding it again gives the code back, for every
/// 16-bit value; named classes are canonical.
pub proof fn lemma_class_code_roundtrip(v: u16, c: Class)
    ensures
        class_code(class_of(v)) == v,
        class_canonical(class_of(v)),
        !(c is Unknown) ==> class_canonical(c),
{
}

/// RCODE values (RFC 1035).
#[derive(Debug, Clone, Copy, PartialEq, Eq, Structural)]
pub enum ResponseCode {
    NoError,
    FormatError,
    ServerFailure,
    NameError,
    NotImplemented,
    Refused,
    Unknown(u8),
}

/// The numeric code of a response code.
pub open spec fn rcode_code(r: ResponseCode) -> u8 {
    match r {
        ResponseCode::NoError => 0,
        ResponseCode::FormatError => 1,
        ResponseCode::ServerFailure => 2,
        ResponseCode::NameError => 3,
        ResponseCode::NotImplemented => 4,
        ResponseCode::Refused => 5,
        ResponseCode::Unknown(v) => v,
    }
}

/// The response code that a numeric code denotes.
pub open spec fn rcode_of(v: u8) -> ResponseCode {
    if v == 0 {
        ResponseCode::NoError
    } else if v == 1 {
        ResponseCode::FormatError
    } else if v == 2 {
        ResponseCode::ServerFailure
    } else if v == 3 {
        ResponseCode::NameError
    } else if v == 4 {
        ResponseCode::NotImplemented
    } else if v == 5 {
        ResponseCode::Refused
    } else {
        ResponseCode::Unknown(v)
    }
}

/// A response code in the form that decoding its own code gives back.
pub open spec fn rcode_canonical(r: ResponseCode) -> bool {
    rcode_of(rcode_code(r)) == r
}

impl ResponseCode {
    pub fn from_u8(value: u8) -> (r: ResponseCode)
        ensures
            r == rcode_of(value),
    {
        match value {
            0 => ResponseCode::NoError,
            1 => ResponseCode::FormatError,
            2 => ResponseCode::ServerFailure,
            3 => ResponseCode::NameError,
            4 => ResponseCode::NotImplemented,
            5 => ResponseCode::Refused,
            _ => ResponseCode::Unknown(value),
        }
    }

    pub fn to_u8(&self) -> (r: u8)
        ensures
            r == rcode_code(*self),
    {
        match self {
            ResponseCode::NoError => 0,
            ResponseCode::FormatError => 1,
            ResponseCode::ServerFailure => 2,
            ResponseCode::NameError => 3,
            ResponseCode::NotImplemented => 4,
            ResponseCode::Refused => 5,
            ResponseCode::Unknown(value) => *value,
        }
    }
}

/// Decoding a response code and encoding it again gives the code back, for
/// every 8-bit value; named response codes are canonical.
pub proof fn lemma_rcode_roundtrip(v: u8, r: ResponseCode)
    ensures
        rcode_code(rcode_of(v)) == v,
        rcode_canonical(rcode_of(v)),
        !(r is Unknown) ==> rcode_canonical(r),
{
}

/// OPCODE values (RFC 1035).
#[derive(Debug, Clone, Copy, PartialEq, Eq, Structural)]
pub enum OpCode {
    Query,
    IQuery,
    Status,
    Unknown(u8),
}

/// The numeric code of an opcode.
pub open spec fn opcode_code(o: OpCode) -> u8 {
    match o {
        OpCode::Query => 0,
        OpCode::IQuery => 1,
        OpCode::Status => 2,
        OpCode::Unknown(v) => v,
    }
}

/// The opcode that a numeric code denotes.
pub open spec fn opcode_of(v: u8) -> OpCode {
    if v == 0 {
        OpCode::Query
    } else if v == 1 {
        OpCode::IQuery
    } else if v == 2 {
        OpCode::Status
    } else {
        OpCode::Unknown(v)
    }
}

/// An opcode in the form that decoding its own code gives back.
pub open spec fn opcode_canonical(o: OpCode) -> bool {
    opcode_of(opcode_code(o)) == o
}

impl OpCode {
    pub fn from_u8(value: u8) -> (r: OpCode)
        ensures
            r == opcode_of(value),
    {
        match value {
            0 => OpCode::Query,
            1 => OpCode::IQuery,
            2 => OpCode::Status,
            _ => OpCode::Unknown(value),
        }
    }

    pub fn to_u8(&self) -> (r: u8)
        ensures
            r == opcode_code(*self),
    {
        match self {
            OpCode::Query => 0,
            OpCode::IQuery => 1,
            OpCode::Status => 2,
            OpCode::Unknown(value) => *value,
        }
    }
}

/// Decoding an opcode and encoding it again gives the code back, for every
/// 8-bit value; named opcodes are canonical.
pub proof fn lemma_opcode_roundtrip(v: u8, o: OpCode)
    ensures
        opcode_code(opcode_of(v)) == v,
        opcode_canonical(opcode_of(v)),
        !(o is Unknown) ==> opcode_canonical(o),
{
}

/// EDNS option codes (RFC 6891, RFC 7830, RFC 7873).
#[derive(Debug, Clone, Copy, PartialEq, Eq, Structural)]
pub enum EdnsOption {
    LLQ,
    UL,
    NSID,
    Padding,
    Cookie,
}

/// The numeric code of an EDNS option.
pub open spec fn edns_option_code(o: EdnsOption) -> u16 {
    match o {
        EdnsOption::LLQ => 1,
        EdnsOption::UL => 2,
        EdnsOption::NSID => 3,
        EdnsOption::Padding => 12,
        EdnsOption::Cookie => 10,
    }
}

impl EdnsOption {
    /// Option codes are carried as plain numbers; this gives the number back.
    pub fn from_u16(value: u16) -> (r: u16)
        ensures
            r == value,
    {
        value
    }

    pub fn to_u16(&self) -> (r: u16)
        ensures
            r == edns_option_code(*self),
    {
        match self {
            EdnsOption::LLQ => 1,
            EdnsOption::UL => 2,
            EdnsOption::NSID => 3,
            EdnsOption::Padding => 12,
            EdnsOption::Cookie => 10,
        }
    }
}

} // verus!
