//! The question section entry (RFC 1035, section 4.1.2).
use vstd::prelude::*;

use crate::compress::{lemma_name_roundtrip, name_encodable, name_fits, positions_valid};
use crate::error::{Error, Result};
use crate::name::{spec_parse_name, spec_write_name, DnsName, Labels, NamePositions};
use crate::types::{
    class_canonical, class_code, class_of, record_type_canonical, record_type_code, record_type_of,
    Class, RecordType,
};
use crate::wire::{be16, lemma_be16_roundtrip, push_u16, read_u16, u16_at};

verus! {

/// DNS Question
///
/// ```text
/// +--+--+--+--+--+--+--+--+--+--+--+--+--+--+--+--+
/// /                     QNAME                     /
/// +--+--+--+--+--+--+--+--+--+--+--+--+--+--+--+--+
/// |                     QTYPE                     |
/// +--+--+--+--+--+--+--+--+--+--+--+--+--+--+--+--+
/// |                     QCLASS                    |
/// +--+--+--+--+--+--+--+--+--+--+--+--+--+--+--+--+
/// ```
#[derive(Debug, Clone)]
pub struct Question {
    pub name: DnsName,
    pub qtype: RecordType,
    pub qclass: Class,
}

/// A question seen as its name's labels, its type and its class.
pub type QuestionModel = (Labels, RecordType, Class);

impl View for Question {
    type V = QuestionModel;

    open spec fn view(&self) -> QuestionModel {
        (self.name@, self.qtype, self.qclass)
    }
}

/// Decoding the question at `offset`: its name, then type and class.
pub open spec fn spec_parse_question(buf: Seq<u8>, offset: int) -> Result<(QuestionModel, usize)> {
    match spec_parse_name(buf, offset, buf) {
        Err(e) => Err(e),
        Ok((n, ns)) => {
            let pos = offset + ns;
            if pos + 4 > buf.len() {
                Err(Error::Underrun)
            } else {
                Ok(
                    (
                        (n, record_type_of(u16_at(buf, pos)), class_of(u16_at(buf, pos + 2))),
                        (ns + 4) as usize,
                    ),
                )
            }
        },
    }
}

/// The bytes of a question written at `start`, and the positions recorded.
pub open spec fn spec_write_question(
    q: QuestionModel,
    start: nat,
    p: Seq<(Labels, usize)>,
) -> (Seq<u8>, Seq<(Labels, usize)>) {
    let (nb, p2) = spec_write_name(q.0, start, p);
    (nb + be16(record_type_code(q.1)) + be16(class_code(q.2)), p2)
}

/// A question that reads back as itself: encodable name, canonical codes.
pub open spec fn question_encodable(q: QuestionModel) -> bool {
    name_encodable(q.0) && record_type_canonical(q.1) && class_canonical(q.2)
}

/// A decoding result seen through the question's model.
pub open spec fn question_result_view(r: Result<(Question, usize)>) -> Result<(QuestionModel, usize)> {
    match r {
        Ok((q, c)) => Ok((q@, c)),
        Err(e) => Err(e),
    }
}

impl Question {
    pub fn new(name: DnsName, qtype: RecordType, qclass: Class) -> (q: Self)
        ensures
            q.name == name,
            q.qtype == qtype,
            q.qclass == qclass,
    {
        Question { name, qtype, qclass }
    }

    pub fn parse(buffer: &[u8], offset: usize) -> (res: Result<(Self, usize)>)
        ensures
            question_result_view(res) == spec_parse_question(buffer@, offset as int),
            res matches Ok((_, c)) ==> offset + c <= buffer@.len(),
    {
        let parsed = DnsName::parse(buffer, offset, buffer);
        let (name, name_size) = match parsed {
            Ok(r) => r,
            Err(e) => return Err(e),
        };
        assert(offset + name_size <= buffer.len());
        let pos = offset + name_size;
        if 4 > buffer.len() - pos {
            return Err(Error::Underrun);
        }
        let qtype = RecordType::from_u16(read_u16(buffer, pos));
        let qclass = Class::from_u16(read_u16(buffer, pos + 2));
        let question = Question { name, qtype, qclass };
        Ok((question, name_size + 4))
    }

    /// Appends the question; returns the number of bytes written.
    pub fn write(&self, buffer: &mut Vec<u8>, name_positions: &mut NamePositions) -> (r: usize)
        ensures
            ({
                let (bytes, p) = spec_write_question(self@, old(buffer)@.len(), old(name_positions)@);
                &&& final(buffer)@ == old(buffer)@ + bytes
                &&& final(name_positions)@ == p
                &&& r == bytes.len()
            }),
    {
        let ghost b0 = buffer@;
        let start_len = buffer.len();
        let _name_size = self.name.write(buffer, name_positions);
        push_u16(buffer, self.qtype.to_u16());
        push_u16(buffer, self.qclass.to_u16());
        assert(buffer@ =~= b0 + spec_write_question(self@, b0.len(), old(name_positions)@).0);
        buffer.len() - start_len
    }
}

/// A question written with compression against trustworthy positions reads
/// back as itself, taking exactly the bytes written, as long as its name can
/// be followed back (`name_fits`); the positions stay trustworthy.
pub proof fn lemma_question_roundtrip(
    q: QuestionModel,
    b: Seq<u8>,
    p: Seq<(Labels, usize)>,
    rest: Seq<u8>,
)
    requires
        question_encodable(q),
        positions_valid(p, b),
        name_fits(q.0, b, p),
    ensures
        ({
            let (w, p2) = spec_write_question(q, b.len(), p);
            &&& spec_parse_question(b + w + rest, b.len() as int) == Ok::<(QuestionModel, usize), Error>(
                (q, w.len() as usize),
            )
            &&& positions_valid(p2, b + w)
        }),
{
    let (nb, p1) = spec_write_name(q.0, b.len(), p);
    let (w, p2) = spec_write_question(q, b.len(), p);
    let tail = be16(record_type_code(q.1)) + be16(class_code(q.2));
    assert(w =~= nb + tail);
    lemma_name_roundtrip(q.0, b, p, tail + rest);
    assert(b + w + rest =~= b + nb + (tail + rest));
    let m = b + w + rest;
    let pos = b.len() + nb.len();
    lemma_be16_roundtrip(b + nb, record_type_code(q.1), be16(class_code(q.2)) + rest);
    assert(m =~= (b + nb) + be16(record_type_code(q.1)) + (be16(class_code(q.2)) + rest));
    lemma_be16_roundtrip(b + nb + be16(record_type_code(q.1)), class_code(q.2), rest);
    assert(m =~= (b + nb + be16(record_type_code(q.1))) + be16(class_code(q.2)) + rest);
    crate::compress::lemma_positions_extend(p2, b + nb, tail);
    assert(b + nb + tail =~= b + w);
}

} // verus!
