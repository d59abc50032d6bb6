//! Where each field sits on the wire and which numbers the registries assign:
//! facts stated on the bytes themselves, so that a field read from or written
//! to the wrong place, or a renumbered code, is caught even where reading
//! and writing would agree with each other.
use vstd::prelude::*;

use crate::error::Error;
use crate::header::{header_bytes, header_flags, spec_parse_header, Header};
use crate::name::{lookup, pointer_bytes, spec_parse_name, spec_write_name, write_labels, Labels};
use crate::rdata_wire::{opt_options, options_bytes, txt_bytes, txt_strings, txt_text};
use crate::message::{
    a_response_message, opt_record, parse_question_section, parse_record_section, query_message,
    PADDING_CODE, spec_message_bytes, spec_parse_message,
    write_question_section, write_record_section, MessageModel,
};
use crate::question::{spec_parse_question, spec_write_question, QuestionModel};
use crate::resource_record::{
    rname_at, spec_parse_rdata, spec_parse_record, spec_write_rdata, spec_write_record, RDataModel,
    RecordModel,
};
use crate::wire::{be16, be32, lemma_be32_roundtrip};
use crate::types::{
    class_code, class_of, edns_option_code, opcode_code, opcode_of, rcode_code, rcode_of,
    record_type_code, record_type_of, Class, EdnsOption, OpCode, RecordType, ResponseCode,
};

verus! {

/// The codes the IANA registries assign (RFC 1035, 2782, 3596, 4034, 5155,
/// 6844, 6891, 7830, 7873), in both directions.
pub proof fn lemma_assigned_codes()
    ensures
        record_type_code(RecordType::A) == 1 && record_type_of(1) == RecordType::A,
        record_type_code(RecordType::NS) == 2 && record_type_of(2) == RecordType::NS,
        record_type_code(RecordType::CNAME) == 5 && record_type_of(5) == RecordType::CNAME,
        record_type_code(RecordType::SOA) == 6 && record_type_of(6) == RecordType::SOA,
        record_type_code(RecordType::PTR) == 12 && record_type_of(12) == RecordType::PTR,
        record_type_code(RecordType::MX) == 15 && record_type_of(15) == RecordType::MX,
        record_type_code(RecordType::TXT) == 16 && record_type_of(16) == RecordType::TXT,
        record_type_code(RecordType::AAAA) == 28 && record_type_of(28) == RecordType::AAAA,
        record_type_code(RecordType::SRV) == 33 && record_type_of(33) == RecordType::SRV,
        record_type_code(RecordType::OPT) == 41 && record_type_of(41) == RecordType::OPT,
        record_type_code(RecordType::DS) == 43 && record_type_of(43) == RecordType::DS,
        record_type_code(RecordType::RRSIG) == 46 && record_type_of(46) == RecordType::RRSIG,
        record_type_code(RecordType::NSEC) == 47 && record_type_of(47) == RecordType::NSEC,
        record_type_code(RecordType::DNSKEY) == 48 && record_type_of(48) == RecordType::DNSKEY,
        record_type_code(RecordType::NSEC3) == 50 && record_type_of(50) == RecordType::NSEC3,
        record_type_code(RecordType::NSEC3PARAM) == 51 && record_type_of(51)
            == RecordType::NSEC3PARAM,
        record_type_code(RecordType::ANY) == 255 && record_type_of(255) == RecordType::ANY,
        record_type_code(RecordType::CAA) == 257 && record_type_of(257) == RecordType::CAA,
        forall|v: u16| #[trigger] record_type_code(RecordType::Unknown(v)) == v,
        class_code(Class::IN) == 1 && class_of(1) == Class::IN,
        class_code(Class::CS) == 2 && class_of(2) == Class::CS,
        class_code(Class::CH) == 3 && class_of(3) == Class::CH,
        class_code(Class::HS) == 4 && class_of(4) == Class::HS,
        class_code(Class::ANY) == 255 && class_of(255) == Class::ANY,
        rcode_code(ResponseCode::NoError) == 0 && rcode_of(0) == ResponseCode::NoError,
        rcode_code(ResponseCode::FormatError) == 1 && rcode_of(1) == ResponseCode::FormatError,
        rcode_code(ResponseCode::ServerFailure) == 2 && rcode_of(2) == ResponseCode::ServerFailure,
        rcode_code(ResponseCode::NameError) == 3 && rcode_of(3) == ResponseCode::NameError,
        rcode_code(ResponseCode::NotImplemented) == 4 && rcode_of(4)
            == ResponseCode::NotImplemented,
        rcode_code(ResponseCode::Refused) == 5 && rcode_of(5) == ResponseCode::Refused,
        opcode_code(OpCode::Query) == 0 && opcode_of(0) == OpCode::Query,
        opcode_code(OpCode::IQuery) == 1 && opcode_of(1) == OpCode::IQuery,
        opcode_code(OpCode::Status) == 2 && opcode_of(2) == OpCode::Status,
        edns_option_code(EdnsOption::LLQ) == 1,
        edns_option_code(EdnsOption::UL) == 2,
        edns_option_code(EdnsOption::NSID) == 3,
        edns_option_code(EdnsOption::Cookie) == 10,
        edns_option_code(EdnsOption::Padding) == 12,
        PADDING_CODE == 12,
{
}

/// The bits of the flags word (RFC 1035 section 4.1.1, RFC 4035 section 3.2),
/// each read from the two bytes that hold it.
proof fn lemma_flag_bytes(a: u8, b: u8)
    ensures
        ({
            let f: u16 = ((a as int) * 256 + (b as int)) as u16;
            &&& ((f & 0x8000) != 0) == ((a & 0x80) != 0)
            &&& ((f & 0x7800) >> 11u16) as u8 == (a >> 3u8) & 0x0F
            &&& ((f & 0x0400) != 0) == ((a & 0x04) != 0)
            &&& ((f & 0x0200) != 0) == ((a & 0x02) != 0)
            &&& ((f & 0x0100) != 0) == ((a & 0x01) != 0)
            &&& ((f & 0x0080) != 0) == ((b & 0x80) != 0)
            &&& ((f & 0x0040) != 0) == ((b & 0x40) != 0)
            &&& ((f & 0x0020) != 0) == ((b & 0x20) != 0)
            &&& ((f & 0x0010) != 0) == ((b & 0x10) != 0)
            &&& (f & 0x000F) as u8 == b & 0x0F
        }),
{
    assert(({
        let f: u16 = ((a as int) * 256 + (b as int)) as u16;
        &&& ((f & 0x8000) != 0) == ((a & 0x80) != 0)
        &&& ((f & 0x7800) >> 11u16) as u8 == (a >> 3u8) & 0x0F
        &&& ((f & 0x0400) != 0) == ((a & 0x04) != 0)
        &&& ((f & 0x0200) != 0) == ((a & 0x02) != 0)
        &&& ((f & 0x0100) != 0) == ((a & 0x01) != 0)
        &&& ((f & 0x0080) != 0) == ((b & 0x80) != 0)
        &&& ((f & 0x0040) != 0) == ((b & 0x40) != 0)
        &&& ((f & 0x0020) != 0) == ((b & 0x20) != 0)
        &&& ((f & 0x0010) != 0) == ((b & 0x10) != 0)
        &&& (f & 0x000F) as u8 == b & 0x0F
    })) by (bit_vector);
}

/// Decoding a header reads each field from its place in the first 12 bytes:
/// ID in bytes 0-1; QR, OPCODE, AA, TC, RD in byte 2 (from the top bit down);
/// RA, Z, AD, CD, RCODE in byte 3; then the four counts.
pub proof fn lemma_header_read_layout(s: Seq<u8>)
    requires
        s.len() >= 12,
    ensures
        spec_parse_header(s) matches Ok((h, n)) && n == 12
            && h.id == s[0] * 256 + s[1]
            && h.is_response == ((s[2] & 0x80) != 0)
            && h.opcode == opcode_of((s[2] >> 3u8) & 0x0F)
            && h.authoritative_answer == ((s[2] & 0x04) != 0)
            && h.truncation == ((s[2] & 0x02) != 0)
            && h.recursion_desired == ((s[2] & 0x01) != 0)
            && h.recursion_available == ((s[3] & 0x80) != 0)
            && h.z == ((s[3] & 0x40) != 0)
            && h.authentic_data == ((s[3] & 0x20) != 0)
            && h.checking_disabled == ((s[3] & 0x10) != 0)
            && h.response_code == rcode_of(s[3] & 0x0F)
            && h.question_count == s[4] * 256 + s[5]
            && h.answer_count == s[6] * 256 + s[7]
            && h.nameserver_count == s[8] * 256 + s[9]
            && h.additional_count == s[10] * 256 + s[11],
{
    lemma_flag_bytes(s[2], s[3]);

}

/// Writing a header puts each field in its place: ID in bytes 0-1; QR,
/// OPCODE, AA, TC, RD in byte 2 (from the top bit down); RA, Z, AD, CD,
/// RCODE in byte 3; then the four counts, when OPCODE and RCODE fit their
/// four bits.
pub proof fn lemma_header_write_layout(h: Header)
    requires
        opcode_code(h.opcode) < 16,
        rcode_code(h.response_code) < 16,
    ensures
        ({
            let s = header_bytes(h);
            &&& s.len() == 12
            &&& s[0] * 256 + s[1] == h.id
            &&& ((s[2] & 0x80) != 0) == h.is_response
            &&& (s[2] >> 3u8) & 0x0F == opcode_code(h.opcode)
            &&& ((s[2] & 0x04) != 0) == h.authoritative_answer
            &&& ((s[2] & 0x02) != 0) == h.truncation
            &&& ((s[2] & 0x01) != 0) == h.recursion_desired
            &&& ((s[3] & 0x80) != 0) == h.recursion_available
            &&& ((s[3] & 0x40) != 0) == h.z
            &&& ((s[3] & 0x20) != 0) == h.authentic_data
            &&& ((s[3] & 0x10) != 0) == h.checking_disabled
            &&& s[3] & 0x0F == rcode_code(h.response_code)
            &&& s[4] * 256 + s[5] == h.question_count
            &&& s[6] * 256 + s[7] == h.answer_count
            &&& s[8] * 256 + s[9] == h.nameserver_count
            &&& s[10] * 256 + s[11] == h.additional_count
        }),
{
    let s = header_bytes(h);
    let f = header_flags(h);
    crate::header::lemma_flags_decode(
        h.is_response,
        opcode_code(h.opcode),
        h.authoritative_answer,
        h.truncation,
        h.recursion_desired,
        h.recursion_available,
        h.z,
        h.authentic_data,
        h.checking_disabled,
        rcode_code(h.response_code),
    );
    assert(s[2] == (f / 256) as u8);
    assert(s[3] == (f % 256) as u8);
    lemma_flag_bytes(s[2], s[3]);
    assert(((s[2] as int) * 256 + (s[3] as int)) as u16 == f);
}

/// A question is its name followed by QTYPE, then QCLASS, each a big-endian
/// 16-bit code (RFC 1035 section 4.1.2), wherever it is written.
pub proof fn lemma_question_write_layout(q: QuestionModel, start: nat, p: Seq<(Labels, usize)>)
    ensures
        ({
            let w = spec_write_question(q, start, p).0;
            let nb = spec_write_name(q.0, start, p).0;
            let k = nb.len() as int;
            &&& w.len() == k + 4
            &&& w.subrange(0, k) == nb
            &&& w[k] * 256 + w[k + 1] == record_type_code(q.1)
            &&& w[k + 2] * 256 + w[k + 3] == class_code(q.2)
        }),
{
    let w = spec_write_question(q, start, p).0;
    let nb = spec_write_name(q.0, start, p).0;
    assert(w.subrange(0, nb.len() as int) =~= nb);
}

/// Decoding a question reads its name, then QTYPE from the two bytes right
/// after it and QCLASS from the next two.
pub proof fn lemma_question_read_layout(buf: Seq<u8>, off: int)
    ensures
        spec_parse_question(buf, off) == match spec_parse_name(buf, off, buf) {
            Ok((n, ns)) => {
                let at = off + ns;
                if at + 4 <= buf.len() {
                    Ok::<(QuestionModel, usize), Error>(
                        (
                            (
                                n,
                                record_type_of((buf[at] * 256 + buf[at + 1]) as u16),
                                class_of((buf[at + 2] * 256 + buf[at + 3]) as u16),
                            ),
                            (ns + 4) as usize,
                        ),
                    )
                } else {
                    Err(Error::Underrun)
                }
            },
            Err(e) => Err(e),
        },
{
}

/// The big-endian 16-bit number in bytes `i` and `i + 1` of `s`.
pub open spec fn be16_at(s: Seq<u8>, i: int) -> int {
    s[i] * 256 + s[i + 1]
}

/// The big-endian 32-bit number in bytes `i` to `i + 3` of `s`.
pub open spec fn be32_at(s: Seq<u8>, i: int) -> int {
    s[i] * 0x100_0000 + s[i + 1] * 0x1_0000 + s[i + 2] * 256 + s[i + 3]
}

/// Two bytes written for a 16-bit value hold that number.
proof fn lemma_be16_value(w: Seq<u8>, i: int, v: u16)
    requires
        0 <= i,
        i + 2 <= w.len(),
        w.subrange(i, i + 2) == be16(v),
    ensures
        be16_at(w, i) == v,
{
    assert(w[i] == be16(v)[0]);
    assert(w[i + 1] == be16(v)[1]);
}

/// Four bytes written for a 32-bit value hold that number.
proof fn lemma_be32_value(w: Seq<u8>, i: int, v: u32)
    requires
        0 <= i,
        i + 4 <= w.len(),
        w.subrange(i, i + 4) == be32(v),
    ensures
        be32_at(w, i) == v,
{
    lemma_be32_roundtrip(Seq::<u8>::empty(), v, Seq::<u8>::empty());
    let b = be32(v);
    assert(Seq::<u8>::empty() + b + Seq::<u8>::empty() =~= b);
    assert(w[i] == b[0]);
    assert(w[i + 1] == b[1]);
    assert(w[i + 2] == b[2]);
    assert(w[i + 3] == b[3]);
    assert(be32_at(b, 0) < 0x1_0000_0000);
}

/// A resource record is its owner name, then TYPE, CLASS, TTL and RDLENGTH
/// (big-endian, 2, 2, 4 and 2 bytes), then the RDATA (RFC 1035 section
/// 4.1.3); RDLENGTH is the length of the RDATA, cut to 16 bits.
pub proof fn lemma_record_write_layout(r: RecordModel, start: nat, p: Seq<(Labels, usize)>)
    ensures
        ({
            let w = spec_write_record(r, start, p).0;
            let (nb, p1) = spec_write_name(r.name, start, p);
            let rd = spec_write_rdata(r.data, start + nb.len() + 10, p1).0;
            let k = nb.len() as int;
            &&& w.len() == k + 10 + rd.len()
            &&& w.subrange(0, k) == nb
            &&& be16_at(w, k) == record_type_code(r.record_type)
            &&& be16_at(w, k + 2) == class_code(r.class)
            &&& be32_at(w, k + 4) == r.ttl
            &&& be16_at(w, k + 8) == rd.len() as u16
            &&& w.subrange(k + 10, w.len() as int) == rd
        }),
{
    reveal(spec_write_record);
    let w = spec_write_record(r, start, p).0;
    let (nb, p1) = spec_write_name(r.name, start, p);
    let rd = spec_write_rdata(r.data, start + nb.len() + 10, p1).0;
    let k = nb.len() as int;
    assert(w.subrange(0, k) =~= nb);
    assert(w.subrange(k, k + 2) =~= be16(record_type_code(r.record_type)));
    assert(w.subrange(k + 2, k + 4) =~= be16(class_code(r.class)));
    assert(w.subrange(k + 4, k + 8) =~= be32(r.ttl));
    assert(w.subrange(k + 8, k + 10) =~= be16(rd.len() as u16));
    assert(w.subrange(k + 10, w.len() as int) =~= rd);
    lemma_be16_value(w, k, record_type_code(r.record_type));
    lemma_be16_value(w, k + 2, class_code(r.class));
    lemma_be32_value(w, k + 4, r.ttl);
    lemma_be16_value(w, k + 8, rd.len() as u16);
}

/// Decoding a resource record reads the owner name, then TYPE, CLASS, TTL and
/// RDLENGTH from the ten bytes after it, and the RDATA of that type from the
/// RDLENGTH bytes that follow, which it must take exactly.
pub proof fn lemma_record_read_layout(buf: Seq<u8>, off: int)
    requires
        buf.len() <= usize::MAX,
        0 <= off,
    ensures
        spec_parse_record(buf, off) matches Ok((r, c)) ==> (spec_parse_name(buf, off, buf) matches Ok(
            (n, ns),
        ) && {
            let at = off + ns;
            let rdlen = be16_at(buf, at + 8);
            &&& n == r.name
            &&& r.record_type == record_type_of(be16_at(buf, at) as u16)
            &&& r.class == class_of(be16_at(buf, at + 2) as u16)
            &&& r.ttl == be32_at(buf, at + 4)
            &&& at + 10 + rdlen <= buf.len()
            &&& c == ns + 10 + rdlen
            &&& spec_parse_rdata(buf, r.record_type, r.class, r.ttl, at + 10, rdlen) == Ok::<
                (RDataModel, int),
                Error,
            >((r.data, at + 10 + rdlen))
        }),
{
    reveal(spec_parse_record);
    if let Ok((r, c)) = spec_parse_record(buf, off) {
        if let Ok((n, ns)) = spec_parse_name(buf, off, buf) {
            let at = off + ns;
            assert(0 <= buf[at + 4] && buf[at + 4] < 256);
            assert(be32_at(buf, at + 4) < 0x1_0000_0000);
            assert(be16_at(buf, at + 8) < 0x1_0000);
            assert(n == r.name);
            assert(r.ttl == be32_at(buf, at + 4));
            assert(c == ns + 10 + be16_at(buf, at + 8));
        }
    }
}

/// SOA RDATA is MNAME, RNAME, then SERIAL, REFRESH, RETRY, EXPIRE and MINIMUM,
/// each a big-endian 32-bit number (RFC 1035 section 3.3.13): decoding reads
/// them in that order from the 20 bytes after the two names.
pub proof fn lemma_soa_read_layout(buf: Seq<u8>, c: Class, ttl: u32, s: int, rdlen: int)
    ensures
        spec_parse_rdata(buf, RecordType::SOA, c, ttl, s, rdlen) matches Ok((d, e)) ==> (rname_at(
            buf,
            s,
        ) matches Ok((m, k1)) && rname_at(buf, s + k1) matches Ok((r, k2)) && {
            let q = s + k1 + k2;
            &&& d == RDataModel::SOA {
                mname: m,
                rname: r,
                serial: be32_at(buf, q) as u32,
                refresh: be32_at(buf, q + 4) as u32,
                retry: be32_at(buf, q + 8) as u32,
                expire: be32_at(buf, q + 12) as u32,
                minimum: be32_at(buf, q + 16) as u32,
            }
            &&& e == q + 20
            &&& q + 20 <= s + rdlen
        }),
{
}

/// Writing SOA RDATA puts the two names, then SERIAL, REFRESH, RETRY, EXPIRE
/// and MINIMUM in that order, each as a big-endian 32-bit number.
pub proof fn lemma_soa_write_layout(
    mname: Labels,
    rname: Labels,
    serial: u32,
    refresh: u32,
    retry: u32,
    expire: u32,
    minimum: u32,
    start: nat,
    p: Seq<(Labels, usize)>,
)
    ensures
        ({
            let d = RDataModel::SOA { mname, rname, serial, refresh, retry, expire, minimum };
            let w = spec_write_rdata(d, start, p).0;
            let (mb, p1) = spec_write_name(mname, start, p);
            let rb = spec_write_name(rname, start + mb.len(), p1).0;
            let k: int = mb.len() + rb.len() as int;
            &&& w.len() == k + 20
            &&& w.subrange(0, k) == mb + rb
            &&& be32_at(w, k) == serial
            &&& be32_at(w, k + 4) == refresh
            &&& be32_at(w, k + 8) == retry
            &&& be32_at(w, k + 12) == expire
            &&& be32_at(w, k + 16) == minimum
        }),
{
    let d = RDataModel::SOA { mname, rname, serial, refresh, retry, expire, minimum };
    let w = spec_write_rdata(d, start, p).0;
    let (mb, p1) = spec_write_name(mname, start, p);
    let rb = spec_write_name(rname, start + mb.len(), p1).0;
    let k: int = mb.len() + rb.len() as int;
    assert(w.subrange(0, k) =~= mb + rb);
    assert(w.subrange(k, k + 4) =~= be32(serial));
    assert(w.subrange(k + 4, k + 8) =~= be32(refresh));
    assert(w.subrange(k + 8, k + 12) =~= be32(retry));
    assert(w.subrange(k + 12, k + 16) =~= be32(expire));
    assert(w.subrange(k + 16, k + 20) =~= be32(minimum));
    lemma_be32_value(w, k, serial);
    lemma_be32_value(w, k + 4, refresh);
    lemma_be32_value(w, k + 8, retry);
    lemma_be32_value(w, k + 12, expire);
    lemma_be32_value(w, k + 16, minimum);
}

/// The bytes a header sits at the start of.
proof fn lemma_header_prefix(m: MessageModel)
    ensures
        spec_message_bytes(m).len() >= 12,
        spec_message_bytes(m).subrange(0, 12) == header_bytes(m.header),
{
    reveal(spec_message_bytes);
    let h = header_bytes(m.header);
    let (q, p1) = write_question_section(m.questions, 12, seq![]);
    let (a, p2) = write_record_section(m.answers, 12 + q.len(), p1);
    let (n, p3) = write_record_section(m.authorities, 12 + q.len() + a.len(), p2);
    let (d, p4) = write_record_section(m.additionals, 12 + q.len() + a.len() + n.len(), p3);
    assert((h + q + a + n + d).subrange(0, 12) =~= h);
}

/// What `create_a_response` encodes is a response (QR set) to a standard
/// query (OPCODE 0) with RCODE 0, NOERROR, one question and one answer and
/// no other records, with the given ID; decoding it gives those values back.
pub proof fn lemma_a_response_header(id: u16, n: Labels, ip: Seq<u8>, ttl: u32)
    ensures
        ({
            let b = spec_message_bytes(a_response_message(id, n, ip, ttl));
            &&& b.len() >= 12
            &&& be16_at(b, 0) == id
            &&& (b[2] & 0x80) != 0
            &&& (b[2] >> 3u8) & 0x0F == 0
            &&& b[3] & 0x0F == 0
            &&& be16_at(b, 4) == 1
            &&& be16_at(b, 6) == 1
            &&& be16_at(b, 8) == 0
            &&& be16_at(b, 10) == 0
            &&& spec_parse_message(b) matches Ok(m) ==> {
                &&& m.header.id == id
                &&& m.header.is_response
                &&& m.header.opcode == OpCode::Query
                &&& m.header.response_code == ResponseCode::NoError
            }
        }),
{
    let m = a_response_message(id, n, ip, ttl);
    let b = spec_message_bytes(m);
    lemma_header_prefix(m);
    lemma_header_write_layout(m.header);
    let hb = header_bytes(m.header);
    assert forall|i: int| 0 <= i < 12 implies b[i] == hb[i] by {
        assert(b.subrange(0, 12)[i] == b[i]);
    }
    lemma_header_read_layout(b);
}

/// What `create_query` encodes is a query (QR clear) with OPCODE 0, RD set,
/// RCODE 0, one question and no records, with the given ID.
pub proof fn lemma_query_header(id: u16, n: Labels, t: RecordType)
    ensures
        ({
            let b = spec_message_bytes(query_message(id, n, t));
            &&& b.len() >= 12
            &&& be16_at(b, 0) == id
            &&& (b[2] & 0x80) == 0
            &&& (b[2] >> 3u8) & 0x0F == 0
            &&& (b[2] & 0x01) != 0
            &&& b[3] & 0x0F == 0
            &&& be16_at(b, 4) == 1
            &&& be16_at(b, 6) == 0
            &&& be16_at(b, 8) == 0
            &&& be16_at(b, 10) == 0
        }),
{
    let m = query_message(id, n, t);
    let b = spec_message_bytes(m);
    lemma_header_prefix(m);
    lemma_header_write_layout(m.header);
    let hb = header_bytes(m.header);
    assert forall|i: int| 0 <= i < 12 implies b[i] == hb[i] by {
        assert(b.subrange(0, 12)[i] == b[i]);
    }
}

/// Decoding the RDATA of the types with fixed fields reads each field from
/// its place, from the start `s` of the RDATA (RFC 1035 3.3.9 MX; RFC 2782
/// SRV; RFC 4034 DS, RRSIG, DNSKEY; RFC 5155 NSEC3PARAM; RFC 8659 CAA;
/// RFC 1035 3.4.1 A; RFC 3596 AAAA; RFC 6891 6.1.3 OPT).
#[verifier::rlimit(40)]
pub proof fn lemma_rdata_read_layout(buf: Seq<u8>, c: Class, ttl: u32, s: int, rdlen: int)
    ensures
        spec_parse_rdata(buf, RecordType::A, c, ttl, s, rdlen) matches Ok((d, e)) ==> rdlen == 4
            && d == RDataModel::A(buf.subrange(s, s + 4)) && e == s + 4,
        spec_parse_rdata(buf, RecordType::AAAA, c, ttl, s, rdlen) matches Ok((d, e)) ==> rdlen == 16
            && d == RDataModel::AAAA(buf.subrange(s, s + 16)) && e == s + 16,
        spec_parse_rdata(buf, RecordType::MX, c, ttl, s, rdlen) matches Ok((d, e)) ==> (rname_at(
            buf,
            s + 2,
        ) matches Ok((x, k)) && d == (RDataModel::MX {
            preference: be16_at(buf, s) as u16,
            exchange: x,
        }) && e == s + 2 + k),
        spec_parse_rdata(buf, RecordType::SRV, c, ttl, s, rdlen) matches Ok((d, e)) ==> (rname_at(
            buf,
            s + 6,
        ) matches Ok((x, k)) && d == (RDataModel::SRV {
            priority: be16_at(buf, s) as u16,
            weight: be16_at(buf, s + 2) as u16,
            port: be16_at(buf, s + 4) as u16,
            target: x,
        }) && e == s + 6 + k),
        spec_parse_rdata(buf, RecordType::DS, c, ttl, s, rdlen) matches Ok((d, e)) ==> d
            == (RDataModel::DS {
            key_tag: be16_at(buf, s) as u16,
            algorithm: buf[s + 2],
            digest_type: buf[s + 3],
            digest: buf.subrange(s + 4, s + rdlen),
        }) && e == s + rdlen,
        spec_parse_rdata(buf, RecordType::DNSKEY, c, ttl, s, rdlen) matches Ok((d, e)) ==> d
            == (RDataModel::DNSKEY {
            flags: be16_at(buf, s) as u16,
            protocol: buf[s + 2],
            algorithm: buf[s + 3],
            public_key: buf.subrange(s + 4, s + rdlen),
        }) && e == s + rdlen,
        spec_parse_rdata(buf, RecordType::RRSIG, c, ttl, s, rdlen) matches Ok((d, e)) ==> (rname_at(
            buf,
            s + 18,
        ) matches Ok((x, k)) && d == (RDataModel::RRSIG {
            type_covered: be16_at(buf, s) as u16,
            algorithm: buf[s + 2],
            labels: buf[s + 3],
            original_ttl: be32_at(buf, s + 4) as u32,
            signature_expiration: be32_at(buf, s + 8) as u32,
            signature_inception: be32_at(buf, s + 12) as u32,
            key_tag: be16_at(buf, s + 16) as u16,
            signer_name: x,
            signature: buf.subrange(s + 18 + k, s + rdlen),
        }) && e == s + rdlen),
        spec_parse_rdata(buf, RecordType::NSEC3PARAM, c, ttl, s, rdlen) matches Ok((d, e)) ==> d
            == (RDataModel::NSEC3PARAM {
            hash_algorithm: buf[s],
            flags: buf[s + 1],
            iterations: be16_at(buf, s + 2) as u16,
            salt: buf.subrange(s + 5, s + 5 + buf[s + 4]),
        }) && e == s + 5 + buf[s + 4],
        spec_parse_rdata(buf, RecordType::CAA, c, ttl, s, rdlen) matches Ok((d, e)) ==> d
            == (RDataModel::CAA {
            flags: buf[s],
            tag: buf.subrange(s + 2, s + 2 + buf[s + 1]),
            value: buf.subrange(s + 2 + buf[s + 1], s + rdlen),
        }) && e == s + rdlen,
        spec_parse_rdata(buf, RecordType::OPT, c, ttl, s, rdlen) matches Ok((d, e)) ==> (d is OPT && d->OPT_udp_payload_size == class_code(c) && d->OPT_extended_rcode == ttl
            / 0x100_0000 && d->OPT_version == (ttl / 0x1_0000) % 256 && d->OPT_flags == ttl
            % 0x1_0000),
{
    let ttl_bits = ttl;
    assert((ttl_bits >> 24u32) & 0xFFu32 == ttl_bits / 0x100_0000) by (bit_vector);
    assert((ttl_bits >> 16u32) & 0xFFu32 == (ttl_bits / 0x1_0000) % 256) by (bit_vector);
    assert(ttl_bits & 0xFFFFu32 == ttl_bits % 0x1_0000) by (bit_vector);
}

/// Writing MX RDATA puts the preference (big-endian, 2 bytes), then the
/// exchange name; SRV RDATA priority, weight and port (2 bytes each, in that
/// order), then the target name.
pub proof fn lemma_mx_srv_write_layout(
    preference: u16,
    priority: u16,
    weight: u16,
    port: u16,
    n: Labels,
    start: nat,
    p: Seq<(Labels, usize)>,
)
    ensures
        ({
            let w = spec_write_rdata(RDataModel::MX { preference, exchange: n }, start, p).0;
            let nb = spec_write_name(n, start + 2, p).0;
            &&& w.len() == 2 + nb.len()
            &&& be16_at(w, 0) == preference
            &&& w.subrange(2, w.len() as int) == nb
        }),
        ({
            let w = spec_write_rdata(
                RDataModel::SRV { priority, weight, port, target: n },
                start,
                p,
            ).0;
            let nb = spec_write_name(n, start + 6, p).0;
            &&& w.len() == 6 + nb.len()
            &&& be16_at(w, 0) == priority
            &&& be16_at(w, 2) == weight
            &&& be16_at(w, 4) == port
            &&& w.subrange(6, w.len() as int) == nb
        }),
{
    let w = spec_write_rdata(RDataModel::MX { preference, exchange: n }, start, p).0;
    assert(w.subrange(0, 2) =~= be16(preference));
    assert(w.subrange(2, w.len() as int) =~= spec_write_name(n, start + 2, p).0);
    lemma_be16_value(w, 0, preference);
    let v = spec_write_rdata(RDataModel::SRV { priority, weight, port, target: n }, start, p).0;
    assert(v.subrange(0, 2) =~= be16(priority));
    assert(v.subrange(2, 4) =~= be16(weight));
    assert(v.subrange(4, 6) =~= be16(port));
    assert(v.subrange(6, v.len() as int) =~= spec_write_name(n, start + 6, p).0);
    lemma_be16_value(v, 0, priority);
    lemma_be16_value(v, 2, weight);
    lemma_be16_value(v, 4, port);
}

/// Writing DS RDATA puts key tag (2 bytes), algorithm, digest type, digest;
/// DNSKEY RDATA flags (2 bytes), protocol, algorithm, public key; CAA RDATA
/// flags, tag length, tag, value.
pub proof fn lemma_ds_dnskey_caa_write_layout(
    x: u16,
    a: u8,
    b: u8,
    data: Seq<u8>,
    tag: Seq<u8>,
    start: nat,
    p: Seq<(Labels, usize)>,
)
    requires
        tag.len() <= 255,
    ensures
        ({
            let w = spec_write_rdata(
                RDataModel::DS { key_tag: x, algorithm: a, digest_type: b, digest: data },
                start,
                p,
            ).0;
            &&& w.len() == 4 + data.len()
            &&& be16_at(w, 0) == x
            &&& w[2] == a
            &&& w[3] == b
            &&& w.subrange(4, w.len() as int) == data
        }),
        ({
            let w = spec_write_rdata(
                RDataModel::DNSKEY { flags: x, protocol: a, algorithm: b, public_key: data },
                start,
                p,
            ).0;
            &&& w.len() == 4 + data.len()
            &&& be16_at(w, 0) == x
            &&& w[2] == a
            &&& w[3] == b
            &&& w.subrange(4, w.len() as int) == data
        }),
        ({
            let w = spec_write_rdata(RDataModel::CAA { flags: a, tag, value: data }, start, p).0;
            &&& w.len() == 2 + tag.len() + data.len()
            &&& w[0] == a
            &&& w[1] == tag.len()
            &&& w.subrange(2, 2 + tag.len() as int) == tag
            &&& w.subrange(2 + tag.len() as int, w.len() as int) == data
        }),
{
    let w = spec_write_rdata(
        RDataModel::DS { key_tag: x, algorithm: a, digest_type: b, digest: data },
        start,
        p,
    ).0;
    assert(w.subrange(0, 2) =~= be16(x));
    assert(w.subrange(4, w.len() as int) =~= data);
    lemma_be16_value(w, 0, x);
    let v = spec_write_rdata(
        RDataModel::DNSKEY { flags: x, protocol: a, algorithm: b, public_key: data },
        start,
        p,
    ).0;
    assert(v.subrange(0, 2) =~= be16(x));
    assert(v.subrange(4, v.len() as int) =~= data);
    lemma_be16_value(v, 0, x);
    let u = spec_write_rdata(RDataModel::CAA { flags: a, tag, value: data }, start, p).0;
    assert(u.subrange(2, 2 + tag.len() as int) =~= tag);
    assert(u.subrange(2 + tag.len() as int, u.len() as int) =~= data);
}

/// Writing RRSIG RDATA puts type covered (2 bytes), algorithm, labels,
/// original TTL, signature expiration, signature inception (4 bytes each),
/// key tag (2 bytes), the signer's name, then the signature.
pub proof fn lemma_rrsig_write_layout(
    type_covered: u16,
    algorithm: u8,
    labels: u8,
    original_ttl: u32,
    signature_expiration: u32,
    signature_inception: u32,
    key_tag: u16,
    signer_name: Labels,
    signature: Seq<u8>,
    start: nat,
    p: Seq<(Labels, usize)>,
)
    ensures
        ({
            let d = RDataModel::RRSIG {
                type_covered,
                algorithm,
                labels,
                original_ttl,
                signature_expiration,
                signature_inception,
                key_tag,
                signer_name,
                signature,
            };
            let w = spec_write_rdata(d, start, p).0;
            let nb = spec_write_name(signer_name, start + 18, p).0;
            &&& w.len() == 18 + nb.len() + signature.len()
            &&& be16_at(w, 0) == type_covered
            &&& w[2] == algorithm
            &&& w[3] == labels
            &&& be32_at(w, 4) == original_ttl
            &&& be32_at(w, 8) == signature_expiration
            &&& be32_at(w, 12) == signature_inception
            &&& be16_at(w, 16) == key_tag
            &&& w.subrange(18, 18 + nb.len() as int) == nb
            &&& w.subrange(18 + nb.len() as int, w.len() as int) == signature
        }),
{
    let d = RDataModel::RRSIG {
        type_covered,
        algorithm,
        labels,
        original_ttl,
        signature_expiration,
        signature_inception,
        key_tag,
        signer_name,
        signature,
    };
    let w = spec_write_rdata(d, start, p).0;
    let nb = spec_write_name(signer_name, start + 18, p).0;
    assert(w.subrange(0, 2) =~= be16(type_covered));
    assert(w.subrange(4, 8) =~= be32(original_ttl));
    assert(w.subrange(8, 12) =~= be32(signature_expiration));
    assert(w.subrange(12, 16) =~= be32(signature_inception));
    assert(w.subrange(16, 18) =~= be16(key_tag));
    assert(w.subrange(18, 18 + nb.len() as int) =~= nb);
    assert(w.subrange(18 + nb.len() as int, w.len() as int) =~= signature);
    lemma_be16_value(w, 0, type_covered);
    lemma_be32_value(w, 4, original_ttl);
    lemma_be32_value(w, 8, signature_expiration);
    lemma_be32_value(w, 12, signature_inception);
    lemma_be16_value(w, 16, key_tag);
}

/// Writing NSEC3 RDATA puts hash algorithm, flags, iterations (2 bytes), salt
/// length, salt, hash length, next hashed owner name, type bit maps;
/// NSEC3PARAM RDATA the same up to the salt.
pub proof fn lemma_nsec3_write_layout(
    hash_algorithm: u8,
    flags: u8,
    iterations: u16,
    salt: Seq<u8>,
    next_hashed_owner_name: Seq<u8>,
    type_bit_maps: Seq<u8>,
    start: nat,
    p: Seq<(Labels, usize)>,
)
    requires
        salt.len() <= 255,
        next_hashed_owner_name.len() <= 255,
    ensures
        ({
            let d = RDataModel::NSEC3 {
                hash_algorithm,
                flags,
                iterations,
                salt,
                next_hashed_owner_name,
                type_bit_maps,
            };
            let w = spec_write_rdata(d, start, p).0;
            let sl = salt.len() as int;
            let hl = next_hashed_owner_name.len() as int;
            &&& w.len() == 6 + sl + hl + type_bit_maps.len()
            &&& w[0] == hash_algorithm
            &&& w[1] == flags
            &&& be16_at(w, 2) == iterations
            &&& w[4] == sl
            &&& w.subrange(5, 5 + sl) == salt
            &&& w[5 + sl] == hl
            &&& w.subrange(6 + sl, 6 + sl + hl) == next_hashed_owner_name
            &&& w.subrange(6 + sl + hl, w.len() as int) == type_bit_maps
        }),
        ({
            let d = RDataModel::NSEC3PARAM { hash_algorithm, flags, iterations, salt };
            let w = spec_write_rdata(d, start, p).0;
            &&& w.len() == 5 + salt.len()
            &&& w[0] == hash_algorithm
            &&& w[1] == flags
            &&& be16_at(w, 2) == iterations
            &&& w[4] == salt.len()
            &&& w.subrange(5, w.len() as int) == salt
        }),
{
    let d = RDataModel::NSEC3 {
        hash_algorithm,
        flags,
        iterations,
        salt,
        next_hashed_owner_name,
        type_bit_maps,
    };
    let w = spec_write_rdata(d, start, p).0;
    let sl = salt.len() as int;
    let hl = next_hashed_owner_name.len() as int;
    assert(w.subrange(2, 4) =~= be16(iterations));
    assert(w.subrange(5, 5 + sl) =~= salt);
    assert(w.subrange(6 + sl, 6 + sl + hl) =~= next_hashed_owner_name);
    assert(w.subrange(6 + sl + hl, w.len() as int) =~= type_bit_maps);
    lemma_be16_value(w, 2, iterations);
    let e = RDataModel::NSEC3PARAM { hash_algorithm, flags, iterations, salt };
    let v = spec_write_rdata(e, start, p).0;
    assert(v.subrange(2, 4) =~= be16(iterations));
    assert(v.subrange(5, v.len() as int) =~= salt);
    lemma_be16_value(v, 2, iterations);
}

/// A name as RFC 1035 section 3.1 lays it out without compression: each
/// label after a byte holding its length, then a zero byte.
pub open spec fn plain_name_bytes(ls: Labels) -> Seq<u8>
    decreases ls.len(),
{
    if ls.len() == 0 {
        seq![0u8]
    } else {
        seq![ls[0].len() as u8] + ls[0] + plain_name_bytes(ls.drop_first())
    }
}

proof fn lemma_plain_from(ls: Labels, i: nat, start: nat, pi: Seq<(Labels, usize)>, out: Seq<u8>)
    requires
        i <= ls.len(),
        forall|e: int| 0 <= e < pi.len() ==> (#[trigger] pi[e]).0.len() > ls.len() - i,
    ensures
        write_labels(ls, i, start, pi, out).0 == out + plain_name_bytes(ls.skip(i as int)),
    decreases ls.len() - i,
{
    let key = ls.skip(i as int);
    if i >= ls.len() {
        assert(key =~= Seq::<Seq<u8>>::empty());
    } else {
        lemma_lookup_shorter(pi, key);
        let pi2 = if i + 1 < ls.len() {
            pi.push((key, (start + out.len()) as usize))
        } else {
            pi
        };
        let l = ls[i as int];
        assert forall|e: int| 0 <= e < pi2.len() implies (#[trigger] pi2[e]).0.len() > ls.len() - (
        i + 1) by {
            if e < pi.len() {
                assert(pi2[e] == pi[e]);
            }
        }
        lemma_plain_from(ls, i + 1, start, pi2, out + seq![l.len() as u8] + l);
        assert(key[0] == l);
        assert(key.drop_first() =~= ls.skip(i as int + 1));
        assert(out + seq![l.len() as u8] + l + plain_name_bytes(ls.skip(i as int + 1)) =~= out
            + plain_name_bytes(key));
    }
}

proof fn lemma_lookup_shorter(p: Seq<(Labels, usize)>, key: Labels)
    requires
        forall|e: int| 0 <= e < p.len() ==> (#[trigger] p[e]).0.len() > key.len(),
    ensures
        lookup(p, key) is None,
    decreases p.len(),
{
    if p.len() > 0 {
        assert(p[0].0.len() > key.len());
        assert forall|e: int| 0 <= e < p.drop_first().len() implies (
        #[trigger] p.drop_first()[e]).0.len() > key.len() by {
            assert(p.drop_first()[e] == p[e + 1]);
        }
        lemma_lookup_shorter(p.drop_first(), key);
    }
}

/// Written against no recorded positions, a name is laid out as RFC 1035
/// section 3.1 says: each label after its length byte, then a zero byte.
pub proof fn lemma_name_plain_layout(ls: Labels, start: nat)
    ensures
        spec_write_name(ls, start, Seq::<(Labels, usize)>::empty()).0 == plain_name_bytes(ls),
{
    lemma_plain_from(ls, 0, start, Seq::<(Labels, usize)>::empty(), seq![]);
    assert(ls.skip(0) =~= ls);
    assert(Seq::<u8>::empty() + plain_name_bytes(ls) =~= plain_name_bytes(ls));
}

/// The OPT record (RFC 6891 section 6.1.2-6.1.3) has the root as owner name,
/// the UDP payload size as its CLASS, and the extended RCODE, version and
/// flags in the top, second and low two bytes of its TTL.
pub proof fn lemma_opt_record_layout(u: u16, e: u8, v: u8, f: u16, o: Seq<(u16, Seq<u8>)>)
    ensures
        ({
            let r = opt_record(u, e, v, f, o);
            &&& r.name.len() == 0
            &&& r.record_type == RecordType::OPT
            &&& class_code(r.class) == u
            &&& r.ttl == e * 0x100_0000 + v * 0x1_0000 + f
        }),
{
    crate::types::lemma_class_code_roundtrip(u, Class::IN);
    assert(((e as u32) << 24u32) | ((v as u32) << 16u32) | (f as u32) == (e as u32) * 0x100_0000u32
        + (v as u32) * 0x1_0000u32 + (f as u32)) by (bit_vector);
}

/// An EDNS option is its code, then the length of its data (2 bytes each,
/// big-endian), then the data (RFC 6891 section 6.1.2); options follow one
/// another.
pub proof fn lemma_option_write_layout(o: Seq<(u16, Seq<u8>)>, code: u16, data: Seq<u8>)
    requires
        data.len() <= 0xFFFF,
    ensures
        ({
            let b = options_bytes(o);
            let w = options_bytes(o.push((code, data)));
            let k = b.len() as int;
            &&& w.len() == k + 4 + data.len()
            &&& w.subrange(0, k) == b
            &&& be16_at(w, k) == code
            &&& be16_at(w, k + 2) == data.len()
            &&& w.subrange(k + 4, w.len() as int) == data
        }),
{
    let b = options_bytes(o);
    let w = options_bytes(o.push((code, data)));
    let k = b.len() as int;
    assert(o.push((code, data)).drop_last() =~= o);
    assert(w.subrange(0, k) =~= b);
    assert(w.subrange(k, k + 2) =~= be16(code));
    assert(w.subrange(k + 2, k + 4) =~= be16(data.len() as u16));
    assert(w.subrange(k + 4, w.len() as int) =~= data);
    lemma_be16_value(w, k, code);
    lemma_be16_value(w, k + 2, data.len() as u16);
}

/// Decoding EDNS options reads the first option's code from its first two
/// bytes and its data from the bytes after the next two, which hold its
/// length.
pub proof fn lemma_option_read_layout(buf: Seq<u8>, p: int, e: int)
    ensures
        opt_options(buf, p, e) matches Ok((o, q)) ==> (p + 4 > e ==> o.len() == 0 && q == p) && (p
            + 4 <= e ==> o.len() >= 1 && o[0] == (
            be16_at(buf, p) as u16,
            buf.subrange(p + 4, p + 4 + be16_at(buf, p + 2)),
        )),
{
}

/// A character string is a length byte, then that many bytes (RFC 1035
/// section 3.3); strings follow one another, and a longer one is cut to 255
/// bytes.
pub proof fn lemma_txt_write_layout(v: Seq<Seq<u8>>, x: Seq<u8>)
    requires
        x.len() <= 255,
    ensures
        ({
            let b = txt_bytes(v);
            let w = txt_bytes(v.push(x));
            &&& w == b + seq![x.len() as u8] + x
            &&& w[b.len() as int] == x.len()
        }),
{
    assert(v.push(x).drop_last() =~= v);
}

/// Decoding character strings reads the first one's length from its first
/// byte and its bytes right after it.
pub proof fn lemma_txt_read_layout(buf: Seq<u8>, p: int, e: int)
    ensures
        txt_strings(buf, p, e) matches Ok(v) ==> (p >= e ==> v.len() == 0) && (p < e ==> v.len() >= 1
            && v[0] == txt_text(buf.subrange(p + 1, p + 1 + buf[p]))),
{
}

/// NSEC3 RDATA (RFC 5155 section 3.2) is read as hash algorithm, flags,
/// iterations (2 bytes), salt after its length byte, next hashed owner name
/// after its length byte, then the type bit maps; NSEC RDATA (RFC 4034
/// section 4.1) as the next domain name, then the type bit maps.
pub proof fn lemma_nsec_read_layout(buf: Seq<u8>, c: Class, ttl: u32, s: int, rdlen: int)
    ensures
        spec_parse_rdata(buf, RecordType::NSEC3, c, ttl, s, rdlen) matches Ok((d, e)) ==> ({
            let se = s + 5 + buf[s + 4];
            let he = se + 1 + buf[se];
            &&& d == (RDataModel::NSEC3 {
                hash_algorithm: buf[s],
                flags: buf[s + 1],
                iterations: be16_at(buf, s + 2) as u16,
                salt: buf.subrange(s + 5, se),
                next_hashed_owner_name: buf.subrange(se + 1, he),
                type_bit_maps: buf.subrange(he, s + rdlen),
            })
            &&& e == s + rdlen
        }),
        spec_parse_rdata(buf, RecordType::NSEC, c, ttl, s, rdlen) matches Ok((d, e)) ==> (rname_at(
            buf,
            s,
        ) matches Ok((x, k)) && d == (RDataModel::NSEC {
            next_domain_name: x,
            type_bit_maps: buf.subrange(s + k, s + rdlen),
        }) && e == s + rdlen),
{
}

/// Writing NSEC RDATA puts the next domain name, then the type bit maps.
pub proof fn lemma_nsec_write_layout(
    n: Labels,
    type_bit_maps: Seq<u8>,
    start: nat,
    p: Seq<(Labels, usize)>,
)
    ensures
        ({
            let w = spec_write_rdata(RDataModel::NSEC { next_domain_name: n, type_bit_maps }, start, p).0;
            let nb = spec_write_name(n, start, p).0;
            &&& w.subrange(0, nb.len() as int) == nb
            &&& w.subrange(nb.len() as int, w.len() as int) == type_bit_maps
        }),
{
    let w = spec_write_rdata(RDataModel::NSEC { next_domain_name: n, type_bit_maps }, start, p).0;
    let nb = spec_write_name(n, start, p).0;
    assert(w.subrange(0, nb.len() as int) =~= nb);
    assert(w.subrange(nb.len() as int, w.len() as int) =~= type_bit_maps);
}

/// A compression pointer (RFC 1035 section 4.1.4) is two bytes whose top two
/// bits are set and whose other 14 bits hold the position pointed to.
pub proof fn lemma_pointer_layout(pos: usize)
    requires
        pos < 0x4000,
    ensures
        ({
            let b = pointer_bytes(pos);
            &&& b.len() == 2
            &&& b[0] & 0xC0 == 0xC0
            &&& (b[0] & 0x3F) * 256 + b[1] == pos
        }),
{
    let q = pos as u16;
    assert(({
        let v: u16 = 0xC000u16 | q;
        let b0 = (v / 256) as u8;
        let b1 = (v % 256) as u8;
        &&& b0 & 0xC0u8 == 0xC0u8
        &&& (b0 & 0x3Fu8) as u16 * 256 + b1 as u16 == q
    })) by (bit_vector)
        requires
            q < 0x4000,
    ;
}

/// A message is its header, then the question section, then the answer,
/// authority and additional sections in that order (RFC 1035 section 4.1),
/// each name compressed against those written before it.
pub proof fn lemma_message_write_layout(m: MessageModel)
    ensures
        ({
            let (q, p1) = write_question_section(m.questions, 12, seq![]);
            let (a, p2) = write_record_section(m.answers, 12 + q.len(), p1);
            let (n, p3) = write_record_section(m.authorities, 12 + q.len() + a.len(), p2);
            let (d, p4) = write_record_section(
                m.additionals,
                12 + q.len() + a.len() + n.len(),
                p3,
            );
            spec_message_bytes(m) == header_bytes(m.header) + q + a + n + d
        }),
{
    reveal(spec_message_bytes);
}

/// The sections of `m` are decoded one after another from the end of the
/// header: questions as many as bytes 4-5 say, answers as many as bytes 6-7
/// say, authority records as bytes 8-9 say, additional records as bytes
/// 10-11 say.
pub open spec fn sections_in_order(buf: Seq<u8>, m: MessageModel) -> bool {
    match parse_question_section(buf, 12, be16_at(buf, 4) as nat) {
        Ok((qs, p1)) => qs == m.questions && match parse_record_section(
            buf,
            p1,
            be16_at(buf, 6) as nat,
        ) {
            Ok((an, p2)) => an == m.answers && match parse_record_section(
                buf,
                p2,
                be16_at(buf, 8) as nat,
            ) {
                Ok((ns, p3)) => ns == m.authorities && match parse_record_section(
                    buf,
                    p3,
                    be16_at(buf, 10) as nat,
                ) {
                    Ok((ad, _)) => ad == m.additionals,
                    Err(_) => false,
                },
                Err(_) => false,
            },
            Err(_) => false,
        },
        Err(_) => false,
    }
}

/// Decoding a message reads as many questions as bytes 4-5 say, starting
/// right after the 12-byte header, then as many answers as bytes 6-7 say,
/// authority records as bytes 8-9 say and additional records as bytes 10-11
/// say, each section right after the one before.
pub proof fn lemma_message_read_layout(buf: Seq<u8>)
    ensures
        spec_parse_message(buf) is Ok ==> buf.len() >= 12,
        spec_parse_message(buf) matches Ok(m) ==> sections_in_order(buf, m),
{
    if buf.len() >= 12 {
        lemma_header_read_layout(buf);
    }
}

} // verus!
