//! The errors that decoding can report, and the text that describes them.
use vstd::prelude::*;
use vstd::string::StringSliceAdditionalSpecFns;
use vstd::utf8::{encode_utf8_valid_utf8, valid_utf8_concat};

use crate::text::{all_ascii, lemma_ascii_valid_utf8, string_from_utf8, text_bytes};
use crate::wire::push_bytes;

verus! {

/// Why a message, or a part of one, could not be decoded.
#[derive(Debug, PartialEq, Eq)]
pub enum Error {
    /// Buffer underrun while parsing (less data than expected)
    Underrun,
    /// Buffer overrun (more data used than RDLENGTH specified)
    Overrun,
    /// Invalid DNS name format (e.g., label too long, invalid characters, bad sequence)
    InvalidName,
    /// Message format error (e.g., invalid field values, inconsistent counts)
    InvalidFormat,
    /// Expected specific length for RDATA based on type (e.g., A, AAAA)
    InvalidRDataLength { expected: usize, actual: usize },
    /// Invalid length specified for a character string (e.g., in TXT)
    InvalidCharacterStringLength,
    /// Invalid length specified for internal RDATA field (e.g., NSEC3 salt, CAA tag)
    InvalidInternalFieldLength,
    /// Compression pointer points outside the valid buffer range
    InvalidCompressionPointer,
    /// Compression pointer loop detected
    CompressionLoop,
    /// Invalid record type value encountered during parsing
    InvalidRecordTypeValue(u16),
    /// Invalid class value encountered during parsing
    InvalidClassValue(u16),
    /// Invalid OpCode value encountered during parsing
    InvalidOpCodeValue(u8),
    /// Invalid RCODE value encountered during parsing
    InvalidRCodeValue(u8),
    /// CAA record tag contained invalid UTF-8
    InvalidCaaTagEncoding,
    /// Generic error with message (use sparingly)
    Other(String),
}

/// The outcome of a decoding step.
pub type Result<T> = core::result::Result<T, Error>;

/// The decimal digits of `n`, most significant first, as ASCII bytes.
pub open spec fn decimal(n: nat) -> Seq<u8>
    decreases n,
{
    if n < 10 {
        seq![(0x30 + n) as u8]
    } else {
        decimal(n / 10).push((0x30 + n % 10) as u8)
    }
}

/// The UTF-8 text that describes an error.
pub open spec fn error_text(e: Error) -> Seq<u8> {
    match e {
        Error::Underrun => "buffer underrun: less data than expected".spec_bytes(),
        Error::Overrun => "buffer overrun: more data parsed than expected by RDLENGTH".spec_bytes(),
        Error::InvalidName => "invalid DNS name format".spec_bytes(),
        Error::InvalidFormat => "invalid DNS message format".spec_bytes(),
        Error::InvalidRDataLength { expected, actual } => "invalid RDATA length: expected ".spec_bytes()
            + decimal(expected as nat) + ", got ".spec_bytes() + decimal(actual as nat),
        Error::InvalidCharacterStringLength =>
            "invalid length for character string (e.g., TXT)".spec_bytes(),
        Error::InvalidInternalFieldLength =>
            "invalid length for internal RDATA field (e.g., NSEC3 salt)".spec_bytes(),
        Error::InvalidCompressionPointer =>
            "compression pointer points outside valid buffer range".spec_bytes(),
        Error::CompressionLoop => "compression pointer loop detected".spec_bytes(),
        Error::InvalidRecordTypeValue(v) => "invalid record type value: ".spec_bytes() + decimal(
            v as nat,
        ),
        Error::InvalidClassValue(v) => "invalid class value: ".spec_bytes() + decimal(v as nat),
        Error::InvalidOpCodeValue(v) => "invalid opcode value: ".spec_bytes() + decimal(v as nat),
        Error::InvalidRCodeValue(v) => "invalid rcode value: ".spec_bytes() + decimal(v as nat),
        Error::InvalidCaaTagEncoding => "invalid UTF-8 encoding in CAA tag".spec_bytes(),
        Error::Other(msg) => text_bytes(msg),
    }
}

/// Decimal digits are ASCII.
proof fn lemma_decimal_ascii(n: nat)
    ensures
        all_ascii(decimal(n)),
    decreases n,
{
    if n >= 10 {
        lemma_decimal_ascii(n / 10);
        assert forall|i: int| 0 <= i < decimal(n).len() implies #[trigger] decimal(n)[i] < 128 by {
            if i < decimal(n / 10).len() {
                assert(decimal(n)[i] == decimal(n / 10)[i]);
            }
        }
    }
}

/// Appends the decimal digits of `n`.
fn push_decimal(out: &mut Vec<u8>, n: usize)
    ensures
        final(out)@ == old(out)@ + decimal(n as nat),
    decreases n,
{
    if n >= 10 {
        push_decimal(out, n / 10);
    }
    let d: u8 = (n % 10) as u8;
    out.push(0x30u8 + d);
    assert(out@ =~= old(out)@ + decimal(n as nat));
}

/// The text of a literal.
fn literal(t: &str) -> (s: String)
    ensures
        text_bytes(s) == t.spec_bytes(),
{
    t.to_owned()
}

/// The text of a literal followed by a number.
fn literal_number(t: &str, n: usize) -> (s: String)
    ensures
        text_bytes(s) == t.spec_bytes() + decimal(n as nat),
{
    let mut out: Vec<u8> = Vec::new();
    push_bytes(&mut out, t.as_bytes());
    push_decimal(&mut out, n);
    proof {
        encode_utf8_valid_utf8(t@);
        lemma_decimal_ascii(n as nat);
        lemma_ascii_valid_utf8(decimal(n as nat));
        valid_utf8_concat(t.spec_bytes(), decimal(n as nat));
        assert(out@ =~= t.spec_bytes() + decimal(n as nat));
    }
    string_from_utf8(out.as_slice())
}

/// The text of two literals, each followed by a number.
fn literal_numbers(t: &str, n: usize, u: &str, k: usize) -> (s: String)
    ensures
        text_bytes(s) == t.spec_bytes() + decimal(n as nat) + u.spec_bytes() + decimal(k as nat),
{
    let mut out: Vec<u8> = Vec::new();
    push_bytes(&mut out, t.as_bytes());
    push_decimal(&mut out, n);
    push_bytes(&mut out, u.as_bytes());
    push_decimal(&mut out, k);
    proof {
        let a = t.spec_bytes();
        let b = decimal(n as nat);
        let c = u.spec_bytes();
        let d = decimal(k as nat);
        encode_utf8_valid_utf8(t@);
        encode_utf8_valid_utf8(u@);
        lemma_decimal_ascii(n as nat);
        lemma_ascii_valid_utf8(b);
        lemma_decimal_ascii(k as nat);
        lemma_ascii_valid_utf8(d);
        valid_utf8_concat(a, b);
        valid_utf8_concat(a + b, c);
        valid_utf8_concat(a + b + c, d);
        assert(out@ =~= a + b + c + d);
    }
    string_from_utf8(out.as_slice())
}

impl Error {
    /// The text that describes the error.
    pub fn to_string(&self) -> (s: String)
        ensures
            text_bytes(s) == error_text(*self),
    {
        match self {
            Error::Underrun => literal("buffer underrun: less data than expected"),
            Error::Overrun => literal("buffer overrun: more data parsed than expected by RDLENGTH"),
            Error::InvalidName => literal("invalid DNS name format"),
            Error::InvalidFormat => literal("invalid DNS message format"),
            Error::InvalidRDataLength { expected, actual } => literal_numbers(
                "invalid RDATA length: expected ",
                *expected,
                ", got ",
                *actual,
            ),
            Error::InvalidCharacterStringLength => literal(
                "invalid length for character string (e.g., TXT)",
            ),
            Error::InvalidInternalFieldLength => literal(
                "invalid length for internal RDATA field (e.g., NSEC3 salt)",
            ),
            Error::InvalidCompressionPointer => literal(
                "compression pointer points outside valid buffer range",
            ),
            Error::CompressionLoop => literal("compression pointer loop detected"),
            Error::InvalidRecordTypeValue(v) => literal_number(
                "invalid record type value: ",
                *v as usize,
            ),
            Error::InvalidClassValue(v) => literal_number("invalid class value: ", *v as usize),
            Error::InvalidOpCodeValue(v) => literal_number("invalid opcode value: ", *v as usize),
            Error::InvalidRCodeValue(v) => literal_number("invalid rcode value: ", *v as usize),
            Error::InvalidCaaTagEncoding => literal("invalid UTF-8 encoding in CAA tag"),
            Error::Other(msg) => msg.clone(),
        }
    }
}

} // verus!
