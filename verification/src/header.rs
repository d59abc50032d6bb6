//! The fixed 12-byte message header (RFC 1035, section 4.1.1).
use vstd::prelude::*;

use crate::error::{Error, Result};
use crate::types::{
    opcode_canonical, opcode_code, opcode_of, rcode_canonical, rcode_code, rcode_of, OpCode, ResponseCode,
};
use crate::wire::{be16, push_u16, read_u16, u16_at, lemma_be16_roundtrip};

verus! {

/// DNS Message Header
///
/// ```text
///                                 1  1  1  1  1  1
///   0  1  2  3  4  5  6  7  8  9  0  1  2  3  4  5
/// +--+--+--+--+--+--+--+--+--+--+--+--+--+--+--+--+
/// |                      ID                       |
/// +--+--+--+--+--+--+--+--+--+--+--+--+--+--+--+--+
/// |QR|   Opcode  |AA|TC|RD|RA|Z |AD|CD|   RCODE   |
/// +--+--+--+--+--+--+--+--+--+--+--+--+--+--+--+--+
/// |                    QDCOUNT                    |
/// |                    ANCOUNT                    |
/// |                    NSCOUNT                    |
/// |                    ARCOUNT                    |
/// +--+--+--+--+--+--+--+--+--+--+--+--+--+--+--+--+
/// ```
#[derive(Debug, Clone)]
pub struct Header {
    pub id: u16,
    pub is_response: bool,
    pub opcode: OpCode,
    pub authoritative_answer: bool,
    pub truncation: bool,
    /// If RD is set, it directs the name server to pursue the query recursively.
    pub recursion_desired: bool,
    pub recursion_available: bool,
    /// Reserved for future use. Must be zero in all queries and responses.
    pub z: bool,
    /// Authentic Data bit for DNSSEC (RFC 2065)
    pub authentic_data: bool,
    /// Checking Disabled bit for DNSSEC (RFC 2065)
    pub checking_disabled: bool,
    pub response_code: ResponseCode,
    pub question_count: u16,
    pub answer_count: u16,
    pub nameserver_count: u16,
    /// Number of resource records in the additional records section.
    pub additional_count: u16,
}

/// `mask` when `b` holds, else no bits.
pub open spec fn flag_bit(b: bool, mask: u16) -> u16 {
    if b {
        mask
    } else {
        0
    }
}

/// The second 16-bit word of the header, as it is written.  Opcode and RCODE
/// are put in place without masking, so values of 16 or more spill into the
/// neighbouring bits.
pub open spec fn header_flags(h: Header) -> u16 {
    flag_bit(h.is_response, 0x8000) | ((opcode_code(h.opcode) as u16) << 11u16) | flag_bit(
        h.authoritative_answer,
        0x0400,
    ) | flag_bit(h.truncation, 0x0200) | flag_bit(h.recursion_desired, 0x0100) | flag_bit(
        h.recursion_available,
        0x0080,
    ) | flag_bit(h.z, 0x0040) | flag_bit(h.authentic_data, 0x0020) | flag_bit(
        h.checking_disabled,
        0x0010,
    ) | (rcode_code(h.response_code) as u16)
}

/// The 12 bytes that encode a header.
pub open spec fn header_bytes(h: Header) -> Seq<u8> {
    be16(h.id) + be16(header_flags(h)) + be16(h.question_count) + be16(h.answer_count) + be16(
        h.nameserver_count,
    ) + be16(h.additional_count)
}

/// The header that the first 12 bytes of `s` encode.
pub open spec fn header_of_bytes(s: Seq<u8>) -> Header {
    let flags = u16_at(s, 2);
    Header {
        id: u16_at(s, 0),
        is_response: (flags & 0x8000) != 0,
        opcode: opcode_of(((flags & 0x7800) >> 11u16) as u8),
        authoritative_answer: (flags & 0x0400) != 0,
        truncation: (flags & 0x0200) != 0,
        recursion_desired: (flags & 0x0100) != 0,
        recursion_available: (flags & 0x0080) != 0,
        z: (flags & 0x0040) != 0,
        authentic_data: (flags & 0x0020) != 0,
        checking_disabled: (flags & 0x0010) != 0,
        response_code: rcode_of((flags & 0x000F) as u8),
        question_count: u16_at(s, 4),
        answer_count: u16_at(s, 6),
        nameserver_count: u16_at(s, 8),
        additional_count: u16_at(s, 10),
    }
}

/// Decoding a header: it needs 12 bytes and always takes exactly 12.
pub open spec fn spec_parse_header(s: Seq<u8>) -> Result<(Header, usize)> {
    if s.len() < 12 {
        Err(Error::Underrun)
    } else {
        Ok((header_of_bytes(s), 12))
    }
}

/// The header of a query with identifier `id`: recursion desired, all else clear.
pub open spec fn query_header(id: u16) -> Header {
    Header {
        id,
        is_response: false,
        opcode: OpCode::Query,
        authoritative_answer: false,
        truncation: false,
        recursion_desired: true,
        recursion_available: false,
        z: false,
        authentic_data: false,
        checking_disabled: false,
        response_code: ResponseCode::NoError,
        question_count: 0,
        answer_count: 0,
        nameserver_count: 0,
        additional_count: 0,
    }
}

/// The header of a response: recursion available, the given response code.
pub open spec fn response_header(id: u16, response_code: ResponseCode) -> Header {
    Header {
        id,
        is_response: true,
        opcode: OpCode::Query,
        authoritative_answer: false,
        truncation: false,
        recursion_desired: false,
        recursion_available: true,
        z: false,
        authentic_data: false,
        checking_disabled: false,
        response_code,
        question_count: 0,
        answer_count: 0,
        nameserver_count: 0,
        additional_count: 0,
    }
}

/// A header whose opcode and response code fit their 4-bit fields and are in
/// the form that decoding gives back.
pub open spec fn header_encodable(h: Header) -> bool {
    &&& opcode_code(h.opcode) < 16
    &&& rcode_code(h.response_code) < 16
    &&& opcode_canonical(h.opcode)
    &&& rcode_canonical(h.response_code)
}

impl Header {
    pub fn new_query(id: u16) -> (h: Self)
        ensures
            h == query_header(id),
    {
        Header {
            id,
            is_response: false,
            opcode: OpCode::Query,
            authoritative_answer: false,
            truncation: false,
            recursion_desired: true,
            recursion_available: false,
            z: false,
            authentic_data: false,
            checking_disabled: false,
            response_code: ResponseCode::NoError,
            question_count: 0,
            answer_count: 0,
            nameserver_count: 0,
            additional_count: 0,
        }
    }

    pub fn new_response(id: u16, response_code: ResponseCode) -> (h: Self)
        ensures
            h == response_header(id, response_code),
    {
        Header {
            id,
            is_response: true,
            opcode: OpCode::Query,
            authoritative_answer: false,
            truncation: false,
            recursion_desired: false,
            recursion_available: true,
            z: false,
            authentic_data: false,
            checking_disabled: false,
            response_code,
            question_count: 0,
            answer_count: 0,
            nameserver_count: 0,
            additional_count: 0,
        }
    }

    pub fn parse(buffer: &[u8]) -> (res: Result<(Self, usize)>)
        ensures
            res == spec_parse_header(buffer@),
    {
        if buffer.len() < 12 {
            return Err(Error::Underrun);
        }
        let id = read_u16(buffer, 0);
        let flags = read_u16(buffer, 2);
        let is_response = (flags & 0x8000) != 0;
        let opcode = OpCode::from_u8(((flags & 0x7800) >> 11u16) as u8);
        let authoritative_answer = (flags & 0x0400) != 0;
        let truncation = (flags & 0x0200) != 0;
        let recursion_desired = (flags & 0x0100) != 0;
        let recursion_available = (flags & 0x0080) != 0;
        let z = (flags & 0x0040) != 0;
        let authentic_data = (flags & 0x0020) != 0;
        let checking_disabled = (flags & 0x0010) != 0;
        let response_code = ResponseCode::from_u8((flags & 0x000F) as u8);
        let question_count = read_u16(buffer, 4);
        let answer_count = read_u16(buffer, 6);
        let nameserver_count = read_u16(buffer, 8);
        let additional_count = read_u16(buffer, 10);
        let header = Header {
            id,
            is_response,
            opcode,
            authoritative_answer,
            truncation,
            recursion_desired,
            recursion_available,
            z,
            authentic_data,
            checking_disabled,
            response_code,
            question_count,
            answer_count,
            nameserver_count,
            additional_count,
        };
        Ok((header, 12))
    }

    /// Appends the 12 header bytes.
    pub fn write(&self, buffer: &mut Vec<u8>)
        ensures
            final(buffer)@ == old(buffer)@ + header_bytes(*self),
    {
        push_u16(buffer, self.id);
        let flags: u16 = (if self.is_response {
            0x8000u16
        } else {
            0u16
        }) | ((self.opcode.to_u8() as u16) << 11u16) | (if self.authoritative_answer {
            0x0400u16
        } else {
            0u16
        }) | (if self.truncation {
            0x0200u16
        } else {
            0u16
        }) | (if self.recursion_desired {
            0x0100u16
        } else {
            0u16
        }) | (if self.recursion_available {
            0x0080u16
        } else {
            0u16
        }) | (if self.z {
            0x0040u16
        } else {
            0u16
        }) | (if self.authentic_data {
            0x0020u16
        } else {
            0u16
        }) | (if self.checking_disabled {
            0x0010u16
        } else {
            0u16
        }) | (self.response_code.to_u8() as u16);
        assert(flags == header_flags(*self));
        push_u16(buffer, flags);
        push_u16(buffer, self.question_count);
        push_u16(buffer, self.answer_count);
        push_u16(buffer, self.nameserver_count);
        push_u16(buffer, self.additional_count);
        assert(buffer@ =~= old(buffer)@ + header_bytes(*self));
    }
}

pub(crate) proof fn lemma_flags_decode(
    qr: bool,
    op: u8,
    aa: bool,
    tc: bool,
    rd: bool,
    ra: bool,
    z: bool,
    ad: bool,
    cd: bool,
    rc: u8,
)
    requires
        op < 16,
        rc < 16,
    ensures
        ({
            let f: u16 = flag_bit(qr, 0x8000) | ((op as u16) << 11u16) | flag_bit(aa, 0x0400)
                | flag_bit(tc, 0x0200) | flag_bit(rd, 0x0100) | flag_bit(ra, 0x0080) | flag_bit(
                z,
                0x0040,
            ) | flag_bit(ad, 0x0020) | flag_bit(cd, 0x0010) | (rc as u16);
            &&& ((f & 0x8000) != 0) == qr
            &&& ((f & 0x7800) >> 11u16) as u8 == op
            &&& ((f & 0x0400) != 0) == aa
            &&& ((f & 0x0200) != 0) == tc
            &&& ((f & 0x0100) != 0) == rd
            &&& ((f & 0x0080) != 0) == ra
            &&& ((f & 0x0040) != 0) == z
            &&& ((f & 0x0020) != 0) == ad
            &&& ((f & 0x0010) != 0) == cd
            &&& (f & 0x000F) as u8 == rc
        }),
{
    assert(({
        let f: u16 = (if qr {
            0x8000u16
        } else {
            0u16
        }) | ((op as u16) << 11u16) | (if aa {
            0x0400u16
        } else {
            0u16
        }) | (if tc {
            0x0200u16
        } else {
            0u16
        }) | (if rd {
            0x0100u16
        } else {
            0u16
        }) | (if ra {
            0x0080u16
        } else {
            0u16
        }) | (if z {
            0x0040u16
        } else {
            0u16
        }) | (if ad {
            0x0020u16
        } else {
            0u16
        }) | (if cd {
            0x0010u16
        } else {
            0u16
        }) | (rc as u16);
        &&& ((f & 0x8000) != 0) == qr
        &&& ((f & 0x7800) >> 11u16) as u8 == op
        &&& ((f & 0x0400) != 0) == aa
        &&& ((f & 0x0200) != 0) == tc
        &&& ((f & 0x0100) != 0) == rd
        &&& ((f & 0x0080) != 0) == ra
        &&& ((f & 0x0040) != 0) == z
        &&& ((f & 0x0020) != 0) == ad
        &&& ((f & 0x0010) != 0) == cd
        &&& (f & 0x000F) as u8 == rc
    })) by (bit_vector)
        requires
            op < 16,
            rc < 16,
    ;
}

/// A written header decodes to itself, whatever bytes follow it, when its
/// opcode and response code fit their fields and are canonical.
pub proof fn lemma_header_roundtrip(h: Header, rest: Seq<u8>)
    requires
        header_encodable(h),
    ensures
        spec_parse_header(header_bytes(h) + rest) == Ok::<(Header, usize), Error>((h, 12usize)),
{
    let s = header_bytes(h) + rest;
    let b = header_bytes(h);
    lemma_be16_roundtrip(seq![], h.id, b.subrange(2, 12) + rest);
    assert(s =~= seq![] + be16(h.id) + (b.subrange(2, 12) + rest));
    lemma_be16_roundtrip(b.subrange(0, 2), header_flags(h), b.subrange(4, 12) + rest);
    assert(s =~= b.subrange(0, 2) + be16(header_flags(h)) + (b.subrange(4, 12) + rest));
    lemma_be16_roundtrip(b.subrange(0, 4), h.question_count, b.subrange(6, 12) + rest);
    assert(s =~= b.subrange(0, 4) + be16(h.question_count) + (b.subrange(6, 12) + rest));
    lemma_be16_roundtrip(b.subrange(0, 6), h.answer_count, b.subrange(8, 12) + rest);
    assert(s =~= b.subrange(0, 6) + be16(h.answer_count) + (b.subrange(8, 12) + rest));
    lemma_be16_roundtrip(b.subrange(0, 8), h.nameserver_count, b.subrange(10, 12) + rest);
    assert(s =~= b.subrange(0, 8) + be16(h.nameserver_count) + (b.subrange(10, 12) + rest));
    lemma_be16_roundtrip(b.subrange(0, 10), h.additional_count, rest);
    assert(s =~= b.subrange(0, 10) + be16(h.additional_count) + rest);
    lemma_flags_decode(
        h.is_response,
        opcode_code(h.opcode),
        h.authoritative_answer,
        h.truncation,
        h.recursion_desired,
        h.recursion_available,
        h.z,
        h.authentic_data,
        h.checking_disabled,
        rcode_code(h.response_code),
    );
    assert(header_of_bytes(s) == h);
}

} // verus!
