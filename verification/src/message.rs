//! Whole DNS messages (RFC 1035, section 4.1): a header, a question section
//! and three resource record sections; EDNS(0) options and padding.
use vstd::prelude::*;
use vstd::string::StringSliceAdditionalSpecFns;

use crate::error::{Error, Result};
use crate::header::{header_bytes, header_of_bytes, query_header, response_header, Header};
use crate::name::{spec_new_name, DnsName, Labels, NamePositions};
use crate::question::{spec_parse_question, spec_write_question, Question, QuestionModel};
use crate::resource_record::{
    opt_ttl, options_model, spec_parse_record, spec_write_record, RData, RDataModel, RecordModel,
    ResourceRecord,
};
use crate::types::{class_of, Class, RecordType, ResponseCode};
use crate::wire::copy_range;

verus! {

/// DNS Message
///
/// ```text
/// +---------------------+
/// |        Header       |
/// +---------------------+
/// |       Question      | the question for the name server
/// +---------------------+
/// |        Answer       | RRs answering the question
/// +---------------------+
/// |      Authority      | RRs pointing toward an authority
/// +---------------------+
/// |      Additional     | RRs holding additional information
/// +---------------------+
/// ```
#[derive(Debug, Clone)]
pub struct Message {
    pub header: Header,
    pub questions: Vec<Question>,
    pub answers: Vec<ResourceRecord>,
    pub authorities: Vec<ResourceRecord>,
    pub additionals: Vec<ResourceRecord>,
}

/// A message seen as plain values.
pub struct MessageModel {
    pub header: Header,
    pub questions: Seq<QuestionModel>,
    pub answers: Seq<RecordModel>,
    pub authorities: Seq<RecordModel>,
    pub additionals: Seq<RecordModel>,
}

/// Questions seen as plain values.
pub open spec fn questions_model(v: Seq<Question>) -> Seq<QuestionModel> {
    v.map_values(|q: Question| q@)
}

/// Records seen as plain values.
pub open spec fn records_model(v: Seq<ResourceRecord>) -> Seq<RecordModel> {
    v.map_values(|r: ResourceRecord| r@)
}

impl View for Message {
    type V = MessageModel;

    open spec fn view(&self) -> MessageModel {
        MessageModel {
            header: self.header,
            questions: questions_model(self.questions@),
            answers: records_model(self.answers@),
            authorities: records_model(self.authorities@),
            additionals: records_model(self.additionals@),
        }
    }
}

/// Decoding `n` questions one after another from `pos`; each must start
/// inside the buffer.  Returns them and where they end.
pub open spec fn parse_question_section(buf: Seq<u8>, pos: int, n: nat) -> Result<
    (Seq<QuestionModel>, int),
>
    decreases n,
{
    if n == 0 {
        Ok((seq![], pos))
    } else if pos >= buf.len() {
        Err(Error::Underrun)
    } else {
        match spec_parse_question(buf, pos) {
            Err(x) => Err(x),
            Ok((q, c)) => match parse_question_section(buf, pos + c, (n - 1) as nat) {
                Ok((qs, e)) => Ok((seq![q] + qs, e)),
                Err(x) => Err(x),
            },
        }
    }
}

/// Decoding `n` resource records one after another from `pos`; each must
/// start inside the buffer.  Returns them and where they end.
pub open spec fn parse_record_section(buf: Seq<u8>, pos: int, n: nat) -> Result<
    (Seq<RecordModel>, int),
>
    decreases n,
{
    if n == 0 {
        Ok((seq![], pos))
    } else if pos >= buf.len() {
        Err(Error::Underrun)
    } else {
        match spec_parse_record(buf, pos) {
            Err(x) => Err(x),
            Ok((r, c)) => match parse_record_section(buf, pos + c, (n - 1) as nat) {
                Ok((rs, e)) => Ok((seq![r] + rs, e)),
                Err(x) => Err(x),
            },
        }
    }
}

/// Decoding a message: the header (12 bytes), then as many questions,
/// answers, authority and additional records as its counts say.  Bytes
/// after the last record are ignored.
pub open spec fn spec_parse_message(buf: Seq<u8>) -> Result<MessageModel> {
    if buf.len() < 12 {
        Err(Error::Underrun)
    } else {
        let h = header_of_bytes(buf);
        match parse_question_section(buf, 12, h.question_count as nat) {
            Err(x) => Err(x),
            Ok((qs, p1)) => match parse_record_section(buf, p1, h.answer_count as nat) {
                Err(x) => Err(x),
                Ok((an, p2)) => match parse_record_section(buf, p2, h.nameserver_count as nat) {
                    Err(x) => Err(x),
                    Ok((ns, p3)) => match parse_record_section(
                        buf,
                        p3,
                        h.additional_count as nat,
                    ) {
                        Err(x) => Err(x),
                        Ok((ad, _)) => Ok(
                            MessageModel {
                                header: h,
                                questions: qs,
                                answers: an,
                                authorities: ns,
                                additionals: ad,
                            },
                        ),
                    },
                },
            },
        }
    }
}

/// The bytes of questions written one after another from `start`.
pub open spec fn write_question_section(
    qs: Seq<QuestionModel>,
    start: nat,
    p: Seq<(Labels, usize)>,
) -> (Seq<u8>, Seq<(Labels, usize)>)
    decreases qs.len(),
{
    if qs.len() == 0 {
        (seq![], p)
    } else {
        let (a, p1) = spec_write_question(qs[0], start, p);
        let (b, p2) = write_question_section(qs.drop_first(), start + a.len(), p1);
        (a + b, p2)
    }
}

/// The bytes of records written one after another from `start`.
pub open spec fn write_record_section(
    rs: Seq<RecordModel>,
    start: nat,
    p: Seq<(Labels, usize)>,
) -> (Seq<u8>, Seq<(Labels, usize)>)
    decreases rs.len(),
{
    if rs.len() == 0 {
        (seq![], p)
    } else {
        let (a, p1) = spec_write_record(rs[0], start, p);
        let (b, p2) = write_record_section(rs.drop_first(), start + a.len(), p1);
        (a + b, p2)
    }
}

/// The bytes of a message: the header as it stands, then every section in
/// order, names compressed against all names written before them.
#[verifier::opaque]
pub open spec fn spec_message_bytes(m: MessageModel) -> Seq<u8> {
    let h = header_bytes(m.header);
    let (q, p1) = write_question_section(m.questions, 12, seq![]);
    let (a, p2) = write_record_section(m.answers, 12 + q.len(), p1);
    let (n, p3) = write_record_section(m.authorities, 12 + q.len() + a.len(), p2);
    let (d, p4) = write_record_section(m.additionals, 12 + q.len() + a.len() + n.len(), p3);
    h + q + a + n + d
}

/// The message with no questions and no records and the header of a query
/// with identifier 0.
pub open spec fn empty_message() -> MessageModel {
    MessageModel {
        header: query_header(0),
        questions: seq![],
        answers: seq![],
        authorities: seq![],
        additionals: seq![],
    }
}

/// A question for `name` of type `t` in class IN.
pub open spec fn question_of(name: Labels, t: RecordType) -> QuestionModel {
    (name, t, Class::IN)
}

/// An A record in class IN.
pub open spec fn a_record(name: Labels, ip: Seq<u8>, ttl: u32) -> RecordModel {
    RecordModel {
        name,
        record_type: RecordType::A,
        class: Class::IN,
        ttl,
        data: RDataModel::A(ip),
    }
}

/// An AAAA record in class IN.
pub open spec fn aaaa_record(name: Labels, ip: Seq<u8>, ttl: u32) -> RecordModel {
    RecordModel {
        name,
        record_type: RecordType::AAAA,
        class: Class::IN,
        ttl,
        data: RDataModel::AAAA(ip),
    }
}

/// The OPT record that carries these EDNS values: root owner name, class
/// holding the UDP payload size, TTL holding extended RCODE, version and flags.
pub open spec fn opt_record(
    udp_payload_size: u16,
    extended_rcode: u8,
    version: u8,
    flags: u16,
    options: Seq<(u16, Seq<u8>)>,
) -> RecordModel {
    RecordModel {
        name: seq![],
        record_type: RecordType::OPT,
        class: class_of(udp_payload_size),
        ttl: opt_ttl(extended_rcode, version, flags),
        data: RDataModel::OPT { udp_payload_size, extended_rcode, version, flags, options },
    }
}

/// The first index from `i` on of a record of type OPT, or the length.
pub open spec fn opt_index_from(rs: Seq<RecordModel>, i: int) -> int
    decreases rs.len() - i,
{
    if i >= rs.len() {
        rs.len() as int
    } else if rs[i].record_type == RecordType::OPT {
        i
    } else {
        opt_index_from(rs, i + 1)
    }
}

/// The index of the first record of type OPT, or the length when there is none.
pub open spec fn opt_index(rs: Seq<RecordModel>) -> int {
    opt_index_from(rs, 0)
}

/// The first index from `i` on of a record of type OPT whose data is OPT
/// data, or the length.
pub open spec fn edns_index_from(rs: Seq<RecordModel>, i: int) -> int
    decreases rs.len() - i,
{
    if i >= rs.len() {
        rs.len() as int
    } else if rs[i].record_type == RecordType::OPT && rs[i].data is OPT {
        i
    } else {
        edns_index_from(rs, i + 1)
    }
}

/// The EDNS values of a message: those of its first additional record of type
/// OPT that holds OPT data.
pub open spec fn spec_edns_options(m: MessageModel) -> Option<
    (u16, u8, u8, u16, Seq<(u16, Seq<u8>)>),
> {
    let i = edns_index_from(m.additionals, 0);
    if i < m.additionals.len() {
        match m.additionals[i].data {
            RDataModel::OPT { udp_payload_size, extended_rcode, version, flags, options } => Some(
                (udp_payload_size, extended_rcode, version, flags, options),
            ),
            _ => None,
        }
    } else {
        None
    }
}

/// The result of setting the EDNS values: the first additional record of
/// type OPT is replaced, or an OPT record is added at the end; the
/// additional count becomes the number of additional records.
pub open spec fn with_edns(
    m: MessageModel,
    udp_payload_size: u16,
    extended_rcode: u8,
    version: u8,
    flags: u16,
    options: Seq<(u16, Seq<u8>)>,
) -> MessageModel {
    let opt = opt_record(udp_payload_size, extended_rcode, version, flags, options);
    let i = opt_index(m.additionals);
    let ad = if i < m.additionals.len() {
        m.additionals.update(i, opt)
    } else {
        m.additionals.push(opt)
    };
    MessageModel {
        header: Header { additional_count: ad.len() as u16, ..m.header },
        additionals: ad,
        ..m
    }
}

/// The message with one more question, counted.
pub open spec fn with_question(m: MessageModel, q: QuestionModel) -> MessageModel {
    MessageModel {
        header: Header { question_count: (m.questions.len() + 1) as u16, ..m.header },
        questions: m.questions.push(q),
        ..m
    }
}

/// The message with one more answer, counted.
pub open spec fn with_answer(m: MessageModel, r: RecordModel) -> MessageModel {
    MessageModel {
        header: Header { answer_count: (m.answers.len() + 1) as u16, ..m.header },
        answers: m.answers.push(r),
        ..m
    }
}

/// The message with one more authority record, counted.
pub open spec fn with_authority(m: MessageModel, r: RecordModel) -> MessageModel {
    MessageModel {
        header: Header { nameserver_count: (m.authorities.len() + 1) as u16, ..m.header },
        authorities: m.authorities.push(r),
        ..m
    }
}

/// The message with one more additional record, counted.
pub open spec fn with_additional(m: MessageModel, r: RecordModel) -> MessageModel {
    MessageModel {
        header: Header { additional_count: (m.additionals.len() + 1) as u16, ..m.header },
        additionals: m.additionals.push(r),
        ..m
    }
}

/// The query that `new_query` builds for a name that is valid.
pub open spec fn query_message(id: u16, name: Labels, t: RecordType) -> MessageModel {
    MessageModel {
        header: Header { question_count: 1, ..query_header(id) },
        questions: seq![question_of(name, t)],
        ..empty_message()
    }
}

/// The response that `new_response` builds.
pub open spec fn response_message(id: u16, response_code: ResponseCode) -> MessageModel {
    MessageModel { header: response_header(id, response_code), ..empty_message() }
}

/// The response that `create_a_response` encodes: one A question and one A
/// answer for the same name.
pub open spec fn a_response_message(id: u16, name: Labels, ip: Seq<u8>, ttl: u32) -> MessageModel {
    with_answer(
        with_question(response_message(id, ResponseCode::NoError), question_of(name, RecordType::A)),
        a_record(name, ip, ttl),
    )
}

/// A result of a constructor seen through the model.
pub open spec fn message_result_view(r: Result<Message>) -> Result<MessageModel> {
    match r {
        Ok(m) => Ok(m@),
        Err(e) => Err(e),
    }
}

/// What section writing gives, with bytes already written in front.
pub open spec fn prepend_bytes(out: Seq<u8>, r: (Seq<u8>, Seq<(Labels, usize)>)) -> (
    Seq<u8>,
    Seq<(Labels, usize)>,
) {
    (out + r.0, r.1)
}

/// What section decoding gives, with questions already decoded in front.
pub open spec fn prepend_questions(
    acc: Seq<QuestionModel>,
    r: Result<(Seq<QuestionModel>, int)>,
) -> Result<(Seq<QuestionModel>, int)> {
    match r {
        Ok((v, e)) => Ok((acc + v, e)),
        Err(x) => Err(x),
    }
}

/// What section decoding gives, with records already decoded in front.
pub open spec fn prepend_records(acc: Seq<RecordModel>, r: Result<(Seq<RecordModel>, int)>) -> Result<
    (Seq<RecordModel>, int),
> {
    match r {
        Ok((v, e)) => Ok((acc + v, e)),
        Err(x) => Err(x),
    }
}

proof fn lemma_questions_model_push(v: Seq<Question>, q: Question)
    ensures
        questions_model(v.push(q)) == questions_model(v).push(q@),
{
    assert(questions_model(v.push(q)) =~= questions_model(v).push(q@));
}

proof fn lemma_records_model_push(v: Seq<ResourceRecord>, r: ResourceRecord)
    ensures
        records_model(v.push(r)) == records_model(v).push(r@),
{
    assert(records_model(v.push(r)) =~= records_model(v).push(r@));
}

fn parse_questions(buffer: &[u8], start: usize, count: u16) -> (res: Result<(Vec<Question>, usize)>)
    requires
        start <= buffer@.len(),
    ensures
        match res {
            Ok((v, e)) => parse_question_section(buffer@, start as int, count as nat) == Ok::<
                (Seq<QuestionModel>, int),
                Error,
            >((questions_model(v@), e as int)),
            Err(x) => parse_question_section(buffer@, start as int, count as nat) == Err::<
                (Seq<QuestionModel>, int),
                Error,
            >(x),
        },
        res matches Ok((_, e)) ==> e <= buffer@.len(),
{
    let mut items: Vec<Question> = Vec::new();
    let mut pos: usize = start;
    let mut i: u16 = 0;
    while i < count
        invariant
            i <= count,
            pos <= buffer@.len(),
            parse_question_section(buffer@, start as int, count as nat) == prepend_questions(
                questions_model(items@),
                parse_question_section(buffer@, pos as int, (count - i) as nat),
            ),
        decreases count - i,
    {
        if pos >= buffer.len() {
            return Err(Error::Underrun);
        }
        let (q, size) = match Question::parse(buffer, pos) {
            Ok(r) => r,
            Err(x) => return Err(x),
        };
        let ghost old_items = items@;
        proof {
            lemma_questions_model_push(old_items, q);
            let a = questions_model(old_items);
            match parse_question_section(buffer@, pos + size, (count - i - 1) as nat) {
                Ok((v, e)) => {
                    assert(a + (seq![q@] + v) =~= a.push(q@) + v);
                },
                Err(x) => {},
            }
        }
        items.push(q);
        pos = pos + size;
        i = i + 1;
    }
    assert(questions_model(items@) + Seq::<QuestionModel>::empty() =~= questions_model(items@));
    Ok((items, pos))
}

fn parse_records(buffer: &[u8], start: usize, count: u16) -> (res: Result<
    (Vec<ResourceRecord>, usize),
>)
    requires
        start <= buffer@.len(),
    ensures
        match res {
            Ok((v, e)) => parse_record_section(buffer@, start as int, count as nat) == Ok::<
                (Seq<RecordModel>, int),
                Error,
            >((records_model(v@), e as int)),
            Err(x) => parse_record_section(buffer@, start as int, count as nat) == Err::<
                (Seq<RecordModel>, int),
                Error,
            >(x),
        },
        res matches Ok((_, e)) ==> e <= buffer@.len(),
{
    let mut items: Vec<ResourceRecord> = Vec::new();
    let mut pos: usize = start;
    let mut i: u16 = 0;
    while i < count
        invariant
            i <= count,
            pos <= buffer@.len(),
            parse_record_section(buffer@, start as int, count as nat) == prepend_records(
                records_model(items@),
                parse_record_section(buffer@, pos as int, (count - i) as nat),
            ),
        decreases count - i,
    {
        if pos >= buffer.len() {
            return Err(Error::Underrun);
        }
        let (r, size) = match ResourceRecord::parse(buffer, pos) {
            Ok(x) => x,
            Err(x) => return Err(x),
        };
        let ghost old_items = items@;
        proof {
            lemma_records_model_push(old_items, r);
            let a = records_model(old_items);
            match parse_record_section(buffer@, pos + size, (count - i - 1) as nat) {
                Ok((v, e)) => {
                    assert(a + (seq![r@] + v) =~= a.push(r@) + v);
                },
                Err(x) => {},
            }
        }
        items.push(r);
        pos = pos + size;
        i = i + 1;
    }
    assert(records_model(items@) + Seq::<RecordModel>::empty() =~= records_model(items@));
    Ok((items, pos))
}

fn write_questions(questions: &Vec<Question>, buffer: &mut Vec<u8>, name_positions: &mut NamePositions)
    ensures
        ({
            let (bytes, p) = write_question_section(
                questions_model(questions@),
                old(buffer)@.len(),
                old(name_positions)@,
            );
            &&& final(buffer)@ == old(buffer)@ + bytes
            &&& final(name_positions)@ == p
        }),
{
    let ghost b0 = buffer@;
    let ghost p0 = name_positions@;
    let ghost qs = questions_model(questions@);
    let mut i: usize = 0;
    assert(qs.skip(0) =~= qs);
    assert(buffer@ =~= b0 + Seq::<u8>::empty());
    while i < questions.len()
        invariant
            i <= questions@.len(),
            qs == questions_model(questions@),
            b0 == old(buffer)@,
            p0 == old(name_positions)@,
            buffer@.len() >= b0.len(),
            write_question_section(qs, b0.len(), p0) == prepend_bytes(
                buffer@.subrange(b0.len() as int, buffer@.len() as int),
                write_question_section(qs.skip(i as int), buffer@.len(), name_positions@),
            ),
            buffer@ == b0 + buffer@.subrange(b0.len() as int, buffer@.len() as int),
        decreases questions@.len() - i,
    {
        let ghost b1 = buffer@;
        let ghost rest = qs.skip(i as int);
        assert(rest[0] == questions@[i as int]@);
        assert(rest.drop_first() =~= qs.skip(i + 1));
        questions[i].write(buffer, name_positions);
        proof {
            let out1 = b1.subrange(b0.len() as int, b1.len() as int);
            let out2 = buffer@.subrange(b0.len() as int, buffer@.len() as int);
            let w = buffer@.subrange(b1.len() as int, buffer@.len() as int);
            assert(out2 =~= out1 + w);
            assert(buffer@ =~= b0 + out2);
            let r = write_question_section(qs.skip(i + 1), buffer@.len(), name_positions@);
            assert(out1 + (w + r.0) =~= out2 + r.0);
        }
        i = i + 1;
    }
    assert(qs.skip(i as int) =~= Seq::<QuestionModel>::empty());
    assert(buffer@.subrange(b0.len() as int, buffer@.len() as int) + Seq::<u8>::empty()
        =~= buffer@.subrange(b0.len() as int, buffer@.len() as int));
}

fn write_records(
    records: &Vec<ResourceRecord>,
    buffer: &mut Vec<u8>,
    name_positions: &mut NamePositions,
)
    ensures
        ({
            let (bytes, p) = write_record_section(
                records_model(records@),
                old(buffer)@.len(),
                old(name_positions)@,
            );
            &&& final(buffer)@ == old(buffer)@ + bytes
            &&& final(name_positions)@ == p
        }),
{
    let ghost b0 = buffer@;
    let ghost p0 = name_positions@;
    let ghost rs = records_model(records@);
    let mut i: usize = 0;
    assert(rs.skip(0) =~= rs);
    assert(buffer@ =~= b0 + Seq::<u8>::empty());
    while i < records.len()
        invariant
            i <= records@.len(),
            rs == records_model(records@),
            b0 == old(buffer)@,
            p0 == old(name_positions)@,
            buffer@.len() >= b0.len(),
            write_record_section(rs, b0.len(), p0) == prepend_bytes(
                buffer@.subrange(b0.len() as int, buffer@.len() as int),
                write_record_section(rs.skip(i as int), buffer@.len(), name_positions@),
            ),
            buffer@ == b0 + buffer@.subrange(b0.len() as int, buffer@.len() as int),
        decreases records@.len() - i,
    {
        let ghost b1 = buffer@;
        let ghost rest = rs.skip(i as int);
        assert(rest[0] == records@[i as int]@);
        assert(rest.drop_first() =~= rs.skip(i + 1));
        records[i].write(buffer, name_positions);
        proof {
            let out1 = b1.subrange(b0.len() as int, b1.len() as int);
            let out2 = buffer@.subrange(b0.len() as int, buffer@.len() as int);
            let w = buffer@.subrange(b1.len() as int, buffer@.len() as int);
            assert(out2 =~= out1 + w);
            assert(buffer@ =~= b0 + out2);
            let r = write_record_section(rs.skip(i + 1), buffer@.len(), name_positions@);
            assert(out1 + (w + r.0) =~= out2 + r.0);
        }
        i = i + 1;
    }
    assert(rs.skip(i as int) =~= Seq::<RecordModel>::empty());
    assert(buffer@.subrange(b0.len() as int, buffer@.len() as int) + Seq::<u8>::empty()
        =~= buffer@.subrange(b0.len() as int, buffer@.len() as int));
}

/// The options without those of the padding code.
pub open spec fn drop_padding(o: Seq<(u16, Seq<u8>)>) -> Seq<(u16, Seq<u8>)>
    decreases o.len(),
{
    if o.len() == 0 {
        seq![]
    } else if o.last().0 == PADDING_CODE {
        drop_padding(o.drop_last())
    } else {
        drop_padding(o.drop_last()).push(o.last())
    }
}

/// The option code of EDNS padding (RFC 7830).
pub const PADDING_CODE: u16 = 12;

/// Bytes an OPT record with a root owner name and one option takes besides
/// the data of its options: name (1), type, class, TTL, RDLENGTH (10), and
/// the option's code and length (4).
pub const OPT_OVERHEAD: usize = 15;

/// The EDNS values kept when padding is added: those of the first record of
/// type OPT, if its data is OPT data, without earlier padding.
pub open spec fn kept_edns(m: MessageModel) -> Option<(u16, u8, u8, u16, Seq<(u16, Seq<u8>)>)> {
    let i = opt_index(m.additionals);
    if i < m.additionals.len() {
        match m.additionals[i].data {
            RDataModel::OPT { udp_payload_size, extended_rcode, version, flags, options } => Some(
                (udp_payload_size, extended_rcode, version, flags, drop_padding(options)),
            ),
            _ => None,
        }
    } else {
        None
    }
}

/// The message without its first record of type OPT.
pub open spec fn without_opt(m: MessageModel) -> MessageModel {
    let i = opt_index(m.additionals);
    if i < m.additionals.len() {
        MessageModel { additionals: m.additionals.remove(i), ..m }
    } else {
        m
    }
}

/// How many zero bytes of padding bring the message to `target`, the kept
/// options included; none when it cannot get there.
pub open spec fn padding_len(m: MessageModel, target: nat) -> nat {
    let base = spec_message_bytes(without_opt(m)).len();
    let ex = match kept_edns(m) {
        Some(e) => e.4,
        None => seq![],
    };
    let need = base + OPT_OVERHEAD + crate::rdata_wire::options_bytes(ex).len();
    if target >= need {
        (target - need) as nat
    } else {
        0
    }
}

/// The result of padding a message toward `target` bytes: unchanged when it
/// is already that long; otherwise its first record of type OPT gives way to
/// one at the end that keeps its EDNS values (4096, 0, 0, 0 when there were
/// none) and options other than padding, followed by one padding option of
/// `padding_len` zero bytes; the additional count is brought up to date.
pub open spec fn spec_padded(m: MessageModel, target: nat) -> MessageModel {
    if spec_message_bytes(m).len() >= target {
        m
    } else {
        let m1 = without_opt(m);
        let ex = kept_edns(m);
        let (udp, ext, ver, fl, opts) = match ex {
            Some(e) => e,
            None => (4096u16, 0u8, 0u8, 0u16, seq![]),
        };
        let pad = Seq::new(padding_len(m, target), |k: int| 0u8);
        let ad = m1.additionals.push(opt_record(udp, ext, ver, fl, opts.push((PADDING_CODE, pad))));
        MessageModel {
            header: Header { additional_count: ad.len() as u16, ..m1.header },
            additionals: ad,
            ..m1
        }
    }
}

fn copy_options(options: &Vec<(u16, Vec<u8>)>, skip_padding: bool) -> (r: Vec<(u16, Vec<u8>)>)
    ensures
        options_model(r@) == if skip_padding {
            drop_padding(options_model(options@))
        } else {
            options_model(options@)
        },
{
    let ghost o = options_model(options@);
    let mut r: Vec<(u16, Vec<u8>)> = Vec::new();
    let mut i: usize = 0;
    while i < options.len()
        invariant
            i <= options@.len(),
            o == options_model(options@),
            options_model(r@) == if skip_padding {
                drop_padding(o.subrange(0, i as int))
            } else {
                o.subrange(0, i as int)
            },
        decreases options@.len() - i,
    {
        let code = options[i].0;
        let data = copy_range(options[i].1.as_slice(), 0, options[i].1.len());
        let ghost sub = o.subrange(0, i + 1);
        assert(sub.drop_last() =~= o.subrange(0, i as int));
        assert(sub.last() == o[i as int]);
        assert(o[i as int] == (code, options@[i as int].1@));
        assert(options@[i as int].1@.subrange(0, options@[i as int].1@.len() as int) =~= options@[i as int].1@);
        if !(skip_padding && code == PADDING_CODE) {
            let ghost before = options_model(r@);
            r.push((code, data));
            assert(options_model(r@) =~= before.push((code, data@)));
        }
        i = i + 1;
    }
    assert(o.subrange(0, i as int) =~= o);
    r
}

fn zeros(n: usize) -> (v: Vec<u8>)
    ensures
        v@ == Seq::new(n as nat, |k: int| 0u8),
{
    let mut v: Vec<u8> = Vec::new();
    let mut i: usize = 0;
    while i < n
        invariant
            i <= n,
            v@ == Seq::new(i as nat, |k: int| 0u8),
        decreases n - i,
    {
        v.push(0u8);
        i = i + 1;
        assert(v@ =~= Seq::new(i as nat, |k: int| 0u8));
    }
    v
}

fn options_size(options: &Vec<(u16, Vec<u8>)>, cap: usize) -> (r: usize)
    requires
        cap < usize::MAX,
    ensures
        r == if crate::rdata_wire::options_bytes(options_model(options@)).len() <= cap {
            crate::rdata_wire::options_bytes(options_model(options@)).len() as int
        } else {
            cap + 1
        },
{
    let ghost o = options_model(options@);
    let mut total: usize = 0;
    let mut i: usize = 0;
    assert(o.subrange(0, 0) =~= Seq::<(u16, Seq<u8>)>::empty());
    while i < options.len()
        invariant
            i <= options@.len(),
            cap < usize::MAX,
            o == options_model(options@),
            total == if crate::rdata_wire::options_bytes(o.subrange(0, i as int)).len() <= cap {
                crate::rdata_wire::options_bytes(o.subrange(0, i as int)).len() as int
            } else {
                cap + 1
            },
        decreases options@.len() - i,
    {
        let ghost sub = o.subrange(0, i + 1);
        assert(sub.drop_last() =~= o.subrange(0, i as int));
        assert(sub.last() == o[i as int]);
        let len = options[i].1.len();
        assert(o[i as int].1.len() == len);
        if total <= cap && 4 <= cap - total && len <= cap - total - 4 {
            total = total + 4 + len;
        } else {
            total = cap + 1;
        }
        i = i + 1;
    }
    assert(o.subrange(0, i as int) =~= o);
    total
}

/// The index of the first record of type OPT, or the length.
fn find_opt(records: &Vec<ResourceRecord>) -> (r: usize)
    ensures
        r == opt_index(records_model(records@)),
        r <= records@.len(),
{
    let ghost ad = records_model(records@);
    let mut i: usize = 0;
    while i < records.len()
        invariant
            i <= records@.len(),
            ad == records_model(records@),
            opt_index_from(ad, 0) == opt_index_from(ad, i as int),
        decreases records@.len() - i,
    {
        if records[i].record_type == RecordType::OPT {
            return i;
        }
        i = i + 1;
    }
    i
}

impl Message {
    /// How many zero bytes of padding the message needs, this being `m0`
    /// without its first OPT record and `options` the options kept from it.
    fn padding_for(
        &self,
        options: &Vec<(u16, Vec<u8>)>,
        target_size: usize,
        Ghost(m0): Ghost<MessageModel>,
    ) -> (r: usize)
        requires
            self@ == without_opt(m0),
            options_model(options@) == match kept_edns(m0) {
                Some(e) => e.4,
                None => Seq::<(u16, Seq<u8>)>::empty(),
            },
        ensures
            r == padding_len(m0, target_size as nat),
    {
        let size_without_opt = self.to_bytes().len();
        if size_without_opt <= target_size && OPT_OVERHEAD <= target_size - size_without_opt {
            let room = target_size - size_without_opt - OPT_OVERHEAD;
            let existing_size = options_size(options, room);
            if existing_size <= room {
                room - existing_size
            } else {
                0
            }
        } else {
            0
        }
    }

    /// Removes the first additional record of type OPT and gives back the EDNS
    /// values that padding keeps.
    fn take_opt(&mut self) -> (r: Option<(u16, u8, u8, u16, Vec<(u16, Vec<u8>)>)>)
        ensures
            final(self)@ == without_opt(old(self)@),
            match r {
                Some((u, e, v, f, o)) => kept_edns(old(self)@) == Some((u, e, v, f, options_model(o@))),
                None => kept_edns(old(self)@) is None,
            },
    {
        let ghost ad = records_model(self.additionals@);
        let idx = find_opt(&self.additionals);
        if idx >= self.additionals.len() {
            return None;
        }
        let kept = match &self.additionals[idx].data {
            RData::OPT { udp_payload_size, extended_rcode, version, flags, options } => Some(
                (*udp_payload_size, *extended_rcode, *version, *flags, copy_options(options, true)),
            ),
            _ => None,
        };
        self.additionals.remove(idx);
        assert(records_model(self.additionals@) =~= ad.remove(idx as int));
        kept
    }

    pub fn new() -> (m: Self)
        ensures
            m@ == empty_message(),
    {
        let m = Message {
            header: Header::new_query(0),
            questions: Vec::new(),
            answers: Vec::new(),
            authorities: Vec::new(),
            additionals: Vec::new(),
        };
        assert(m@.questions =~= Seq::<QuestionModel>::empty());
        assert(m@.answers =~= Seq::<RecordModel>::empty());
        assert(m@.authorities =~= Seq::<RecordModel>::empty());
        assert(m@.additionals =~= Seq::<RecordModel>::empty());
        m
    }

    /// A query with one question for `name` of type `record_type` in class IN,
    /// when `name` is a valid name.
    pub fn new_query(id: u16, name: &str, record_type: RecordType) -> (res: Result<Self>)
        ensures
            match spec_new_name(name.spec_bytes()) {
                Ok(n) => message_result_view(res) == Ok::<MessageModel, Error>(
                    query_message(id, n, record_type),
                ),
                Err(e) => message_result_view(res) == Err::<MessageModel, Error>(e),
            },
    {
        let dns_name = match DnsName::new(name) {
            Ok(n) => n,
            Err(e) => return Err(e),
        };
        let question = Question::new(dns_name, record_type, Class::IN);
        let mut message = Message::new();
        message.header = Header::new_query(id);
        message.header.question_count = 1;
        message.questions.push(question);
        assert(message@.questions =~= seq![question_of(dns_name@, record_type)]);
        Ok(message)
    }

    pub fn new_response(id: u16, response_code: ResponseCode) -> (m: Self)
        ensures
            m@ == response_message(id, response_code),
    {
        let mut message = Message::new();
        message.header = Header::new_response(id, response_code);
        message
    }

    pub fn add_question(&mut self, question: Question)
        ensures
            final(self)@ == with_question(old(self)@, question@),
    {
        proof {
            lemma_questions_model_push(self.questions@, question);
        }
        self.questions.push(question);
        self.header.question_count = #[verifier::truncate] (self.questions.len() as u16);
    }

    pub fn add_answer(&mut self, answer: ResourceRecord)
        ensures
            final(self)@ == with_answer(old(self)@, answer@),
    {
        proof {
            lemma_records_model_push(self.answers@, answer);
        }
        self.answers.push(answer);
        self.header.answer_count = #[verifier::truncate] (self.answers.len() as u16);
    }

    pub fn add_authority(&mut self, authority: ResourceRecord)
        ensures
            final(self)@ == with_authority(old(self)@, authority@),
    {
        proof {
            lemma_records_model_push(self.authorities@, authority);
        }
        self.authorities.push(authority);
        self.header.nameserver_count = #[verifier::truncate] (self.authorities.len() as u16);
    }

    pub fn add_additional(&mut self, additional: ResourceRecord)
        ensures
            final(self)@ == with_additional(old(self)@, additional@),
    {
        proof {
            lemma_records_model_push(self.additionals@, additional);
        }
        self.additionals.push(additional);
        self.header.additional_count = #[verifier::truncate] (self.additionals.len() as u16);
    }

    /// Adds an A answer for `name`, when it is a valid name; the message is
    /// unchanged otherwise.
    pub fn add_a_answer(&mut self, name: &str, ip: [u8; 4], ttl: u32) -> (res: Result<()>)
        ensures
            match spec_new_name(name.spec_bytes()) {
                Ok(n) => res is Ok && final(self)@ == with_answer(old(self)@, a_record(n, ip@, ttl)),
                Err(e) => res == Err::<(), Error>(e) && final(self)@ == old(self)@,
            },
    {
        let dns_name = match DnsName::new(name) {
            Ok(n) => n,
            Err(e) => return Err(e),
        };
        let record = ResourceRecord::new(dns_name, RecordType::A, Class::IN, ttl, RData::A(ip));
        self.add_answer(record);
        Ok(())
    }

    /// Adds an AAAA answer for `name`, when it is a valid name; the message is
    /// unchanged otherwise.
    pub fn add_aaaa_answer(&mut self, name: &str, ip: [u8; 16], ttl: u32) -> (res: Result<()>)
        ensures
            match spec_new_name(name.spec_bytes()) {
                Ok(n) => res is Ok && final(self)@ == with_answer(
                    old(self)@,
                    aaaa_record(n, ip@, ttl),
                ),
                Err(e) => res == Err::<(), Error>(e) && final(self)@ == old(self)@,
            },
    {
        let dns_name = match DnsName::new(name) {
            Ok(n) => n,
            Err(e) => return Err(e),
        };
        let record = ResourceRecord::new(
            dns_name,
            RecordType::AAAA,
            Class::IN,
            ttl,
            RData::AAAA(ip),
        );
        self.add_answer(record);
        Ok(())
    }

    /// Decodes a whole message.
    pub fn parse(buffer: &[u8]) -> (res: Result<Self>)
        ensures
            message_result_view(res) == spec_parse_message(buffer@),
    {
        if buffer.len() < 12 {
            return Err(Error::Underrun);
        }
        let (header, _) = match Header::parse(buffer) {
            Ok(r) => r,
            Err(x) => return Err(x),
        };
        let (questions, p1) = match parse_questions(buffer, 12, header.question_count) {
            Ok(r) => r,
            Err(x) => return Err(x),
        };
        let (answers, p2) = match parse_records(buffer, p1, header.answer_count) {
            Ok(r) => r,
            Err(x) => return Err(x),
        };
        let (authorities, p3) = match parse_records(buffer, p2, header.nameserver_count) {
            Ok(r) => r,
            Err(x) => return Err(x),
        };
        let (additionals, _) = match parse_records(buffer, p3, header.additional_count) {
            Ok(r) => r,
            Err(x) => return Err(x),
        };
        Ok(Message { header, questions, answers, authorities, additionals })
    }

    /// Encodes the message.
    pub fn to_bytes(&self) -> (r: Vec<u8>)
        ensures
            r@ == spec_message_bytes(self@),
    {
        let mut buffer: Vec<u8> = Vec::new();
        let mut name_positions = NamePositions::new();
        self.header.write(&mut buffer);
        write_questions(&self.questions, &mut buffer, &mut name_positions);
        write_records(&self.answers, &mut buffer, &mut name_positions);
        write_records(&self.authorities, &mut buffer, &mut name_positions);
        write_records(&self.additionals, &mut buffer, &mut name_positions);
        proof {
            reveal(spec_message_bytes);
            let m = self@;
            let (q, p1) = write_question_section(m.questions, 12, seq![]);
            let (a, p2) = write_record_section(m.answers, 12 + q.len(), p1);
            let (n, p3) = write_record_section(m.authorities, 12 + q.len() + a.len(), p2);
            let (d, p4) = write_record_section(
                m.additionals,
                12 + q.len() + a.len() + n.len(),
                p3,
            );
            assert(buffer@ =~= header_bytes(m.header) + q + a + n + d);
        }
        buffer
    }

    /// The bytes of a query for `hostname`, when it is a valid name.
    pub fn create_query(id: u16, hostname: &str, record_type: RecordType) -> (res: Result<Vec<u8>>)
        ensures
            match spec_new_name(hostname.spec_bytes()) {
                Ok(n) => res matches Ok(b) && b@ == spec_message_bytes(
                    query_message(id, n, record_type),
                ),
                Err(e) => res == Err::<Vec<u8>, Error>(e),
            },
    {
        let message = match Message::new_query(id, hostname, record_type) {
            Ok(m) => m,
            Err(e) => return Err(e),
        };
        Ok(message.to_bytes())
    }

    /// The bytes of a response with one A question and one A answer for
    /// `hostname`, when it is a valid name.
    pub fn create_a_response(id: u16, hostname: &str, ip: [u8; 4], ttl: u32) -> (res: Result<
        Vec<u8>,
    >)
        ensures
            match spec_new_name(hostname.spec_bytes()) {
                Ok(n) => res matches Ok(b) && b@ == spec_message_bytes(
                    a_response_message(id, n, ip@, ttl),
                ),
                Err(e) => res == Err::<Vec<u8>, Error>(e),
            },
    {
        let mut message = Message::new_response(id, ResponseCode::NoError);
        let dns_name = match DnsName::new(hostname) {
            Ok(n) => n,
            Err(e) => return Err(e),
        };
        let question = Question::new(dns_name.clone(), RecordType::A, Class::IN);
        message.add_question(question);
        let record = ResourceRecord::new(dns_name, RecordType::A, Class::IN, ttl, RData::A(ip));
        message.add_answer(record);
        Ok(message.to_bytes())
    }

    /// Adds or replaces the OPT record in the additional section (EDNS(0)):
    /// the first record of type OPT is replaced, or one is added at the end.
    pub fn add_edns_options(
        &mut self,
        udp_payload_size: u16,
        extended_rcode: u8,
        version: u8,
        flags: u16,
        options: Vec<(u16, Vec<u8>)>,
    ) -> (r: &mut Self)
        ensures
            r@ == with_edns(
                old(self)@,
                udp_payload_size,
                extended_rcode,
                version,
                flags,
                options_model(options@),
            ),
            *final(self) == *final(r),
    {
        let ghost ad = records_model(self.additionals@);
        let ghost m0 = self@;
        let opt_index = find_opt(&self.additionals);
        let ghost opts = options_model(options@);
        let opt_data = RData::OPT { udp_payload_size, extended_rcode, version, flags, options };
        let ttl: u32 = ((extended_rcode as u32) << 24u32) | ((version as u32) << 16u32) | (
        flags as u32);
        let opt_record = ResourceRecord::new(
            DnsName::root(),
            RecordType::OPT,
            Class::from_u16(udp_payload_size),
            ttl,
            opt_data,
        );
        assert(opt_record@ == crate::message::opt_record(
            udp_payload_size,
            extended_rcode,
            version,
            flags,
            opts,
        ));
        if opt_index < self.additionals.len() {
            let ghost before = self.additionals@;
            self.additionals.set(opt_index, opt_record);
            assert(records_model(self.additionals@) =~= ad.update(opt_index as int, opt_record@));
        } else {
            proof {
                lemma_records_model_push(self.additionals@, opt_record);
            }
            self.additionals.push(opt_record);
        }
        self.header.additional_count = #[verifier::truncate] (self.additionals.len() as u16);
        proof {
            let w = with_edns(m0, udp_payload_size, extended_rcode, version, flags, opts);
            assert(self@.additionals == w.additionals);
            assert(self@.header == w.header);
            assert(self@ == w);
        }
        self
    }

    /// The EDNS values of the first additional record of type OPT that holds
    /// OPT data, if there is one.
    pub fn get_edns_options(&self) -> (r: Option<(u16, u8, u8, u16, Vec<(u16, Vec<u8>)>)>)
        ensures
            match r {
                Some((u, e, v, f, o)) => spec_edns_options(self@) == Some((u, e, v, f, options_model(o@))),
                None => spec_edns_options(self@) is None,
            },
    {
        let ghost ad = records_model(self.additionals@);
        let mut i: usize = 0;
        while i < self.additionals.len()
            invariant
                i <= self.additionals@.len(),
                ad == records_model(self.additionals@),
                edns_index_from(ad, 0) == edns_index_from(ad, i as int),
            decreases self.additionals@.len() - i,
        {
            let rr = &self.additionals[i];
            if rr.record_type == RecordType::OPT {
                match &rr.data {
                    RData::OPT { udp_payload_size, extended_rcode, version, flags, options } => {
                        return Some(
                            (
                                *udp_payload_size,
                                *extended_rcode,
                                *version,
                                *flags,
                                copy_options(options, false),
                            ),
                        );
                    },
                    _ => {},
                }
            }
            i = i + 1;
        }
        None
    }

    /// Adds EDNS(0) padding (RFC 7830) so that the message comes to
    /// `target_size` bytes; see `spec_padded`.
    pub fn add_padding(&mut self, target_size: usize) -> (res: Result<&mut Self>)
        ensures
            res matches Ok(r) && r@ == spec_padded(old(self)@, target_size as nat) && *final(self)
                == *final(r),
    {
        let current_size = self.to_bytes().len();
        if current_size >= target_size {
            return Ok(self);
        }
        let ghost m0 = self@;
        let (udp_size, ext_rcode, version, flags, mut options) = match self.take_opt() {
            Some(k) => k,
            None => (4096u16, 0u8, 0u8, 0u16, Vec::new()),
        };
        assert(options_model(options@) == match kept_edns(m0) {
            Some(e) => e.4,
            None => Seq::<(u16, Seq<u8>)>::empty(),
        });
        assert(self@ == without_opt(m0));
        let padding_size = self.padding_for(&options, target_size, Ghost(m0));
        assert(padding_size == padding_len(m0, target_size as nat));
        let ghost kept = options_model(options@);
        let pad = zeros(padding_size);
        let ghost padv = pad@;
        proof {
            assert(options_model(options@.push((PADDING_CODE, pad))) =~= kept.push(
                (PADDING_CODE, padv),
            ));
        }
        options.push((PADDING_CODE, pad));
        let ttl: u32 = ((ext_rcode as u32) << 24u32) | ((version as u32) << 16u32) | (flags as u32);
        let opt_record = ResourceRecord::new(
            DnsName::root(),
            RecordType::OPT,
            Class::from_u16(udp_size),
            ttl,
            RData::OPT { udp_payload_size: udp_size, extended_rcode: ext_rcode, version, flags, options },
        );
        proof {
            lemma_records_model_push(self.additionals@, opt_record);
        }
        self.additionals.push(opt_record);
        self.header.additional_count = #[verifier::truncate] (self.additionals.len() as u16);
        assert(self@ == spec_padded(m0, target_size as nat));
        Ok(self)
    }
}

} // verus!
