//! Resource records and whole messages read back as they were written.
use vstd::prelude::*;
use vstd::utf8::valid_utf8;

use crate::compress::{
    lemma_name_roundtrip, lemma_positions_empty, lemma_positions_extend,
    name_encodable, name_fits, positions_valid,
};
use crate::error::Error;
use crate::header::{header_bytes, header_encodable, lemma_header_roundtrip};
use crate::message::{
    parse_question_section, parse_record_section, spec_message_bytes, spec_parse_message,
    write_question_section, write_record_section, MessageModel,
};
use crate::question::{
    lemma_question_roundtrip, question_encodable, spec_write_question, QuestionModel,
};
use crate::name::{spec_write_name, Labels};
use crate::rdata_wire::{opt_options, options_bytes, txt_bytes, txt_strings, txt_text};
use crate::resource_record::{
    opt_ttl, rname_at, spec_parse_rdata, spec_parse_record, spec_write_rdata, spec_write_record,
    ttl_extended_rcode, ttl_flags, ttl_version, RDataModel, RecordModel,
};
use crate::types::{
    class_canonical, class_code, lemma_record_type_roundtrip, record_type_canonical,
    record_type_code, Class, RecordType,
};
use crate::wire::{be16, be32, lemma_be16_roundtrip, lemma_be32_roundtrip, u16_at, u32_at};

verus! {

/// RDATA that reads back as itself under record type `t`, class `c` and TTL
/// `ttl`: the type matches the data, names are encodable, strings and fields
/// with a length byte fit it, TXT strings and CAA tags are UTF-8, EDNS option
/// data fits its 16-bit length, and an OPT record's class and TTL carry its
/// EDNS values.
pub open spec fn rdata_encodable(t: RecordType, c: Class, ttl: u32, d: RDataModel) -> bool {
    match d {
        RDataModel::A(a) => t == RecordType::A && a.len() == 4,
        RDataModel::AAAA(a) => t == RecordType::AAAA && a.len() == 16,
        RDataModel::CNAME(n) => t == RecordType::CNAME && name_encodable(n),
        RDataModel::NS(n) => t == RecordType::NS && name_encodable(n),
        RDataModel::PTR(n) => t == RecordType::PTR && name_encodable(n),
        RDataModel::MX { exchange, .. } => t == RecordType::MX && name_encodable(exchange),
        RDataModel::SOA { mname, rname, .. } => t == RecordType::SOA && name_encodable(mname)
            && name_encodable(rname),
        RDataModel::TXT(v) => t == RecordType::TXT && forall|i: int|
            0 <= i < v.len() ==> (#[trigger] v[i]).len() <= 255 && valid_utf8(v[i]),
        RDataModel::SRV { target, .. } => t == RecordType::SRV && name_encodable(target),
        RDataModel::OPT { udp_payload_size, extended_rcode, version, flags, options } => {
            &&& t == RecordType::OPT
            &&& class_code(c) == udp_payload_size
            &&& ttl == opt_ttl(extended_rcode, version, flags)
            &&& forall|i: int| 0 <= i < options.len() ==> (#[trigger] options[i]).1.len() <= 0xFFFF
        },
        RDataModel::DS { .. } => t == RecordType::DS,
        RDataModel::RRSIG { signer_name, .. } => t == RecordType::RRSIG && name_encodable(
            signer_name,
        ),
        RDataModel::NSEC { next_domain_name, .. } => t == RecordType::NSEC && name_encodable(
            next_domain_name,
        ),
        RDataModel::DNSKEY { .. } => t == RecordType::DNSKEY,
        RDataModel::NSEC3 { salt, next_hashed_owner_name, .. } => t == RecordType::NSEC3
            && salt.len() <= 255 && next_hashed_owner_name.len() <= 255,
        RDataModel::NSEC3PARAM { salt, .. } => t == RecordType::NSEC3PARAM && salt.len() <= 255,
        RDataModel::CAA { tag, .. } => t == RecordType::CAA && tag.len() <= 255 && valid_utf8(tag),
        RDataModel::Unknown(_) => t == RecordType::ANY || (t is Unknown && record_type_canonical(t)),
    }
}

/// A record that reads back as itself: encodable owner name, canonical
/// class, and RDATA encodable under its type, class and TTL.
pub open spec fn record_encodable(r: RecordModel) -> bool {
    &&& name_encodable(r.name)
    &&& class_canonical(r.class)
    &&& rdata_encodable(r.record_type, r.class, r.ttl, r.data)
}

/// The names inside RDATA written after `b` against the positions `p` read
/// back (see `name_fits`), each where it is written.
pub open spec fn rdata_fits(d: RDataModel, b: Seq<u8>, p: Seq<(Labels, usize)>) -> bool {
    match d {
        RDataModel::CNAME(n) => name_fits(n, b, p),
        RDataModel::NS(n) => name_fits(n, b, p),
        RDataModel::PTR(n) => name_fits(n, b, p),
        RDataModel::MX { preference, exchange } => name_fits(exchange, b + be16(preference), p),
        RDataModel::SOA { mname, rname, .. } => {
            let (mb, p1) = spec_write_name(mname, b.len(), p);
            name_fits(mname, b, p) && name_fits(rname, b + mb, p1)
        },
        RDataModel::SRV { priority, weight, port, target } => name_fits(
            target,
            b + be16(priority) + be16(weight) + be16(port),
            p,
        ),
        RDataModel::RRSIG {
            type_covered,
            algorithm,
            labels,
            original_ttl,
            signature_expiration,
            signature_inception,
            key_tag,
            signer_name,
            ..
        } => name_fits(
            signer_name,
            b + be16(type_covered) + seq![algorithm, labels] + be32(original_ttl) + be32(
                signature_expiration,
            ) + be32(signature_inception) + be16(key_tag),
            p,
        ),
        RDataModel::NSEC { next_domain_name, .. } => name_fits(next_domain_name, b, p),
        _ => true,
    }
}

/// A record written after `b` against the positions `p` whose names read
/// back where they are written and whose RDATA length fits its 16-bit field.
pub open spec fn record_fits(r: RecordModel, b: Seq<u8>, p: Seq<(Labels, usize)>) -> bool {
    let (nb, p1) = spec_write_name(r.name, b.len(), p);
    let (rd, p2) = spec_write_rdata(r.data, b.len() + nb.len() + 10, p1);
    let hdr = be16(record_type_code(r.record_type)) + be16(class_code(r.class)) + be32(r.ttl)
        + be16(rd.len() as u16);
    &&& name_fits(r.name, b, p)
    &&& rdata_fits(r.data, b + nb + hdr, p1)
    &&& rd.len() <= 0xFFFF
}

/// Where a run of bytes sits inside `pre + x + post`.
proof fn lemma_piece(pre: Seq<u8>, x: Seq<u8>, post: Seq<u8>, a: int, b: int)
    requires
        0 <= a <= b <= x.len(),
    ensures
        (pre + x + post).subrange(pre.len() + a, pre.len() + b) == x.subrange(a, b),
{
    assert((pre + x + post).subrange(pre.len() + a, pre.len() + b) =~= x.subrange(a, b));
}

/// A big-endian 16-bit value read where its bytes are.
proof fn lemma_u16_in(m: Seq<u8>, i: int, v: u16)
    requires
        0 <= i,
        i + 2 <= m.len(),
        m.subrange(i, i + 2) == be16(v),
    ensures
        u16_at(m, i) == v,
{
    lemma_be16_roundtrip(m.subrange(0, i), v, m.subrange(i + 2, m.len() as int));
    assert(m =~= m.subrange(0, i) + be16(v) + m.subrange(i + 2, m.len() as int));
}

/// A big-endian 32-bit value read where its bytes are.
proof fn lemma_u32_in(m: Seq<u8>, i: int, v: u32)
    requires
        0 <= i,
        i + 4 <= m.len(),
        m.subrange(i, i + 4) == be32(v),
    ensures
        u32_at(m, i) == v,
{
    lemma_be32_roundtrip(m.subrange(0, i), v, m.subrange(i + 4, m.len() as int));
    assert(m =~= m.subrange(0, i) + be32(v) + m.subrange(i + 4, m.len() as int));
}

/// The EDNS values come back out of the TTL that carries them.
proof fn lemma_opt_ttl(e: u8, v: u8, f: u16)
    ensures
        ttl_extended_rcode(opt_ttl(e, v, f)) == e,
        ttl_version(opt_ttl(e, v, f)) == v,
        ttl_flags(opt_ttl(e, v, f)) == f,
{
    assert(((((e as u32) << 24u32) | ((v as u32) << 16u32) | (f as u32)) >> 24u32) & 0xFFu32 == e
        as u32) by (bit_vector);
    assert(((((e as u32) << 24u32) | ((v as u32) << 16u32) | (f as u32)) >> 16u32) & 0xFFu32 == v
        as u32) by (bit_vector);
    assert((((e as u32) << 24u32) | ((v as u32) << 16u32) | (f as u32)) & 0xFFFFu32 == f as u32)
        by (bit_vector);
}

/// The bytes of one character string.
pub open spec fn txt_chunk(s: Seq<u8>) -> Seq<u8> {
    if s.len() > 255 {
        seq![255u8] + s.subrange(0, 255)
    } else {
        seq![s.len() as u8] + s
    }
}

proof fn lemma_txt_bytes_front(x: Seq<u8>, v: Seq<Seq<u8>>)
    ensures
        txt_bytes(seq![x] + v) == txt_chunk(x) + txt_bytes(v),
    decreases v.len(),
{
    if v.len() == 0 {
        assert(seq![x] + v =~= seq![x]);
        assert(seq![x].drop_last() =~= Seq::<Seq<u8>>::empty());
        assert(txt_chunk(x) + txt_bytes(v) =~= txt_chunk(x));
        assert(txt_bytes(seq![x]) =~= txt_bytes(Seq::<Seq<u8>>::empty()) + txt_chunk(x));
    } else {
        assert((seq![x] + v).drop_last() =~= seq![x] + v.drop_last());
        lemma_txt_bytes_front(x, v.drop_last());
        assert((seq![x] + v).last() == v.last());
        assert(txt_bytes(seq![x] + v) =~= txt_chunk(x) + txt_bytes(v));
    }
}

proof fn lemma_txt_roundtrip(pre: Seq<u8>, v: Seq<Seq<u8>>, post: Seq<u8>)
    requires
        forall|i: int| 0 <= i < v.len() ==> (#[trigger] v[i]).len() <= 255 && valid_utf8(v[i]),
    ensures
        txt_strings(pre + txt_bytes(v) + post, pre.len() as int, pre.len() + txt_bytes(v).len() as int)
            == Ok::<Seq<Seq<u8>>, Error>(v),
    decreases v.len(),
{
    let m = pre + txt_bytes(v) + post;
    let p = pre.len() as int;
    if v.len() == 0 {
        assert(txt_bytes(v) =~= Seq::<u8>::empty());
        assert(v =~= Seq::<Seq<u8>>::empty());
    } else {
        let x = v[0];
        let rest = v.drop_first();
        assert(v =~= seq![x] + rest);
        lemma_txt_bytes_front(x, rest);
        let ch = txt_chunk(x);
        assert(ch =~= seq![x.len() as u8] + x);
        assert(forall|i: int| 0 <= i < rest.len() ==> #[trigger] rest[i] == v[i + 1]);
        lemma_txt_roundtrip(pre + ch, rest, post);
        assert(m =~= (pre + ch) + txt_bytes(rest) + post);
        assert(m[p] == x.len() as u8);
        lemma_piece(pre, txt_bytes(v), post, 1, 1 + x.len() as int);
        assert(txt_bytes(v).subrange(1, 1 + x.len() as int) =~= x);
        assert(m.subrange(p + 1, p + 1 + x.len() as int) == x);
        assert(txt_text(x) == x);
        assert(seq![txt_text(m.subrange(p + 1, p + 1 + x.len() as int))] + rest =~= v);
    }
}

/// The bytes of one EDNS option.
pub open spec fn option_chunk(o: (u16, Seq<u8>)) -> Seq<u8> {
    be16(o.0) + be16(o.1.len() as u16) + o.1
}

proof fn lemma_options_bytes_front(x: (u16, Seq<u8>), v: Seq<(u16, Seq<u8>)>)
    ensures
        options_bytes(seq![x] + v) == option_chunk(x) + options_bytes(v),
    decreases v.len(),
{
    if v.len() == 0 {
        assert(seq![x] + v =~= seq![x]);
        assert(seq![x].drop_last() =~= Seq::<(u16, Seq<u8>)>::empty());
        assert(option_chunk(x) + options_bytes(v) =~= option_chunk(x));
        assert(options_bytes(seq![x]) =~= options_bytes(Seq::<(u16, Seq<u8>)>::empty())
            + option_chunk(x));
    } else {
        assert((seq![x] + v).drop_last() =~= seq![x] + v.drop_last());
        lemma_options_bytes_front(x, v.drop_last());
        assert((seq![x] + v).last() == v.last());
        assert(options_bytes(seq![x] + v) =~= option_chunk(x) + options_bytes(v));
    }
}

proof fn lemma_options_roundtrip(pre: Seq<u8>, v: Seq<(u16, Seq<u8>)>, post: Seq<u8>)
    requires
        forall|i: int| 0 <= i < v.len() ==> (#[trigger] v[i]).1.len() <= 0xFFFF,
    ensures
        opt_options(
            pre + options_bytes(v) + post,
            pre.len() as int,
            pre.len() + options_bytes(v).len() as int,
        ) == Ok::<(Seq<(u16, Seq<u8>)>, int), Error>((v, pre.len() + options_bytes(v).len() as int)),
    decreases v.len(),
{
    let m = pre + options_bytes(v) + post;
    let p = pre.len() as int;
    if v.len() == 0 {
        assert(options_bytes(v) =~= Seq::<u8>::empty());
        assert(v =~= Seq::<(u16, Seq<u8>)>::empty());
    } else {
        let x = v[0];
        let rest = v.drop_first();
        assert(v =~= seq![x] + rest);
        lemma_options_bytes_front(x, rest);
        let ch = option_chunk(x);
        assert(forall|i: int| 0 <= i < rest.len() ==> #[trigger] rest[i] == v[i + 1]);
        lemma_options_roundtrip(pre + ch, rest, post);
        assert(m =~= (pre + ch) + options_bytes(rest) + post);
        let ob = options_bytes(v);
        lemma_piece(pre, ob, post, 0, 2);
        assert(ob.subrange(0, 2) =~= be16(x.0));
        lemma_u16_in(m, p, x.0);
        lemma_piece(pre, ob, post, 2, 4);
        assert(ob.subrange(2, 4) =~= be16(x.1.len() as u16));
        lemma_u16_in(m, p + 2, x.1.len() as u16);
        lemma_piece(pre, ob, post, 4, 4 + x.1.len() as int);
        assert(ob.subrange(4, 4 + x.1.len() as int) =~= x.1);
        assert(m.subrange(p + 4, p + 4 + x.1.len() as int) == x.1);
        assert(seq![(u16_at(m, p), m.subrange(p + 4, p + 4 + x.1.len() as int))] + rest =~= v);
    }
}

/// A 16-bit field at offset `i` of `w`, read where `w` was placed.
proof fn lemma_u16_field(b: Seq<u8>, w: Seq<u8>, rest: Seq<u8>, i: int, v: u16)
    requires
        0 <= i,
        i + 2 <= w.len(),
        w.subrange(i, i + 2) == be16(v),
    ensures
        u16_at(b + w + rest, b.len() + i) == v,
{
    lemma_piece(b, w, rest, i, i + 2);
    lemma_u16_in(b + w + rest, b.len() + i, v);
}

/// A 32-bit field at offset `i` of `w`, read where `w` was placed.
proof fn lemma_u32_field(b: Seq<u8>, w: Seq<u8>, rest: Seq<u8>, i: int, v: u32)
    requires
        0 <= i,
        i + 4 <= w.len(),
        w.subrange(i, i + 4) == be32(v),
    ensures
        u32_at(b + w + rest, b.len() + i) == v,
{
    lemma_piece(b, w, rest, i, i + 4);
    lemma_u32_in(b + w + rest, b.len() + i, v);
}

/// A name written at offset `pre.len()` of the RDATA reads back as itself.
proof fn lemma_name_in(
    n: Labels,
    b: Seq<u8>,
    pre: Seq<u8>,
    p: Seq<(Labels, usize)>,
    post: Seq<u8>,
)
    requires
        name_encodable(n),
        positions_valid(p, b),
        name_fits(n, b + pre, p),
    ensures
        ({
            let (nb, p2) = spec_write_name(n, (b.len() + pre.len()) as nat, p);
            &&& rname_at(b + pre + nb + post, b.len() + pre.len() as int) == Ok::<(Labels, usize), Error>(
                (n, nb.len() as usize),
            )
            &&& positions_valid(p2, b + pre + nb)
            &&& nb.len() >= 1
        }),
{
    lemma_positions_extend(p, b, pre);
    assert((b + pre).len() == b.len() + pre.len());
    lemma_name_roundtrip(n, b + pre, p, post);
}

/// RDATA made of one name.
proof fn lemma_rdata_name_only(
    t: RecordType,
    c: Class,
    ttl: u32,
    d: RDataModel,
    b: Seq<u8>,
    p: Seq<(Labels, usize)>,
    rest: Seq<u8>,
)
    requires
        d is CNAME || d is NS || d is PTR,
        rdata_encodable(t, c, ttl, d),
        positions_valid(p, b),
        rdata_fits(d, b, p),
    ensures
        ({
            let (w, p2) = spec_write_rdata(d, b.len(), p);
            &&& spec_parse_rdata(b + w + rest, t, c, ttl, b.len() as int, w.len() as int) == Ok::<
                (RDataModel, int),
                Error,
            >((d, b.len() + w.len() as int))
            &&& positions_valid(p2, b + w)
        }),
{
    let n = match d {
        RDataModel::CNAME(n) => n,
        RDataModel::NS(n) => n,
        RDataModel::PTR(n) => n,
        _ => arbitrary(),
    };
    let (w, p2) = spec_write_rdata(d, b.len(), p);
    assert(w == spec_write_name(n, b.len(), p).0);
    assert(b + Seq::<u8>::empty() =~= b);
    lemma_name_in(n, b, seq![], p, rest);
    assert(b + seq![] =~= b);
    assert(b + w + rest =~= b + Seq::<u8>::empty() + w + rest);
}

/// MX RDATA: a preference, then a name.
proof fn lemma_rdata_mx(
    t: RecordType,
    c: Class,
    ttl: u32,
    d: RDataModel,
    b: Seq<u8>,
    p: Seq<(Labels, usize)>,
    rest: Seq<u8>,
)
    requires
        d is MX,
        rdata_encodable(t, c, ttl, d),
        positions_valid(p, b),
        rdata_fits(d, b, p),
    ensures
        ({
            let (w, p2) = spec_write_rdata(d, b.len(), p);
            &&& spec_parse_rdata(b + w + rest, t, c, ttl, b.len() as int, w.len() as int) == Ok::<
                (RDataModel, int),
                Error,
            >((d, b.len() + w.len() as int))
            &&& positions_valid(p2, b + w)
        }),
{
    if let RDataModel::MX { preference, exchange } = d {
        let (w, p2) = spec_write_rdata(d, b.len(), p);
        let pre = be16(preference);
        let (nb, q2) = spec_write_name(exchange, b.len() + 2, p);
        assert(w == pre + nb);
        lemma_name_in(exchange, b, pre, p, rest);
        assert(b + w + rest =~= b + pre + nb + rest);
        assert(b + w =~= b + pre + nb);
        assert(w.subrange(0, 2) =~= pre);
        lemma_u16_field(b, w, rest, 0, preference);
    }
}

/// RDATA written after `b` reads back from `b + w + rest` as itself, taking
/// exactly the bytes written, and the positions recorded meanwhile stay
/// trustworthy.
spec fn rdata_reads_back(
    t: RecordType,
    c: Class,
    ttl: u32,
    d: RDataModel,
    b: Seq<u8>,
    p: Seq<(Labels, usize)>,
    rest: Seq<u8>,
) -> bool {
    let (w, p2) = spec_write_rdata(d, b.len(), p);
    &&& spec_parse_rdata(b + w + rest, t, c, ttl, b.len() as int, w.len() as int) == Ok::<
        (RDataModel, int),
        Error,
    >((d, b.len() + w.len() as int))
    &&& positions_valid(p2, b + w)
}

/// SOA RDATA: two names, then five 32-bit fields.
#[verifier::spinoff_prover]
#[verifier::rlimit(80)]
proof fn lemma_rdata_soa(
    t: RecordType,
    c: Class,
    ttl: u32,
    d: RDataModel,
    b: Seq<u8>,
    p: Seq<(Labels, usize)>,
    rest: Seq<u8>,
)
    requires
        d is SOA,
        rdata_encodable(t, c, ttl, d),
        positions_valid(p, b),
        rdata_fits(d, b, p),
    ensures
        rdata_reads_back(t, c, ttl, d, b, p, rest),
{
    if let RDataModel::SOA { mname, rname, serial, refresh, retry, expire, minimum } = d {
        let (w, p2) = spec_write_rdata(d, b.len(), p);
        let (mb, p1) = spec_write_name(mname, b.len(), p);
        let (rb, q2) = spec_write_name(rname, b.len() + mb.len(), p1);
        let tail = be32(serial) + be32(refresh) + be32(retry) + be32(expire) + be32(minimum);
        assert(w =~= mb + rb + tail);
        assert(b + Seq::<u8>::empty() =~= b);
        lemma_name_in(mname, b, seq![], p, rb + tail + rest);
        assert(b + seq![] =~= b);
        assert(b + w + rest =~= b + Seq::<u8>::empty() + mb + (rb + tail + rest));
        assert(b + Seq::<u8>::empty() + mb =~= b + mb);
        lemma_name_roundtrip(rname, b + mb, p1, tail + rest);
        assert(b + w + rest =~= b + mb + rb + (tail + rest));
        assert(b + w =~= b + mb + rb + tail);
        crate::compress::lemma_positions_extend(q2, b + mb + rb, tail);
        let k: int = mb.len() + rb.len() as int;
        assert(w.subrange(k, k + 20) =~= tail);
        lemma_five_u32(b, w, rest, k, serial, refresh, retry, expire, minimum);
    }
}

/// Five 32-bit fields in a row at offset `k` of `w`, read where `w` was placed.
proof fn lemma_five_u32(
    b: Seq<u8>,
    w: Seq<u8>,
    rest: Seq<u8>,
    k: int,
    v0: u32,
    v1: u32,
    v2: u32,
    v3: u32,
    v4: u32,
)
    requires
        0 <= k,
        k + 20 <= w.len(),
        w.subrange(k, k + 20) == be32(v0) + be32(v1) + be32(v2) + be32(v3) + be32(v4),
    ensures
        u32_at(b + w + rest, b.len() + k) == v0,
        u32_at(b + w + rest, b.len() + k + 4) == v1,
        u32_at(b + w + rest, b.len() + k + 8) == v2,
        u32_at(b + w + rest, b.len() + k + 12) == v3,
        u32_at(b + w + rest, b.len() + k + 16) == v4,
{
    let f = w.subrange(k, k + 20);
    assert(w.subrange(k, k + 4) =~= f.subrange(0, 4));
    assert(w.subrange(k + 4, k + 8) =~= f.subrange(4, 8));
    assert(w.subrange(k + 8, k + 12) =~= f.subrange(8, 12));
    assert(w.subrange(k + 12, k + 16) =~= f.subrange(12, 16));
    assert(w.subrange(k + 16, k + 20) =~= f.subrange(16, 20));
    assert(f.subrange(0, 4) =~= be32(v0));
    assert(f.subrange(4, 8) =~= be32(v1));
    assert(f.subrange(8, 12) =~= be32(v2));
    assert(f.subrange(12, 16) =~= be32(v3));
    assert(f.subrange(16, 20) =~= be32(v4));
    lemma_u32_field(b, w, rest, k, v0);
    lemma_u32_field(b, w, rest, k + 4, v1);
    lemma_u32_field(b, w, rest, k + 8, v2);
    lemma_u32_field(b, w, rest, k + 12, v3);
    lemma_u32_field(b, w, rest, k + 16, v4);
}

/// SRV RDATA: priority, weight and port, then a name.
proof fn lemma_rdata_srv(
    t: RecordType,
    c: Class,
    ttl: u32,
    d: RDataModel,
    b: Seq<u8>,
    p: Seq<(Labels, usize)>,
    rest: Seq<u8>,
)
    requires
        d is SRV,
        rdata_encodable(t, c, ttl, d),
        positions_valid(p, b),
        rdata_fits(d, b, p),
    ensures
        rdata_reads_back(t, c, ttl, d, b, p, rest),
{
    if let RDataModel::SRV { priority, weight, port, target } = d {
        let (w, p2) = spec_write_rdata(d, b.len(), p);
        let pre = be16(priority) + be16(weight) + be16(port);
        let (nb, q2) = spec_write_name(target, b.len() + 6, p);
        assert(w =~= pre + nb);
        assert(b + pre =~= b + be16(priority) + be16(weight) + be16(port));
        lemma_name_in(target, b, pre, p, rest);
        assert(b + w + rest =~= b + pre + nb + rest);
        assert(b + w =~= b + pre + nb);
        assert(w.subrange(0, 2) =~= be16(priority));
        assert(w.subrange(2, 4) =~= be16(weight));
        assert(w.subrange(4, 6) =~= be16(port));
        lemma_u16_field(b, w, rest, 0, priority);
        lemma_u16_field(b, w, rest, 2, weight);
        lemma_u16_field(b, w, rest, 4, port);
    }
}

/// RRSIG RDATA: eighteen bytes of fields, the signer's name, the signature.
#[verifier::spinoff_prover]
#[verifier::rlimit(40)]
proof fn lemma_rdata_rrsig(
    t: RecordType,
    c: Class,
    ttl: u32,
    d: RDataModel,
    b: Seq<u8>,
    p: Seq<(Labels, usize)>,
    rest: Seq<u8>,
)
    requires
        d is RRSIG,
        rdata_encodable(t, c, ttl, d),
        positions_valid(p, b),
        rdata_fits(d, b, p),
    ensures
        rdata_reads_back(t, c, ttl, d, b, p, rest),
{
    if let RDataModel::RRSIG {
        type_covered,
        algorithm,
        labels,
        original_ttl,
        signature_expiration,
        signature_inception,
        key_tag,
        signer_name,
        signature,
    } = d {
        let (w, p2) = spec_write_rdata(d, b.len(), p);
        let pre = be16(type_covered) + seq![algorithm, labels] + be32(original_ttl) + be32(
            signature_expiration,
        ) + be32(signature_inception) + be16(key_tag);
        let (nb, q2) = spec_write_name(signer_name, b.len() + 18, p);
        assert(w =~= pre + nb + signature);
        assert(b + pre =~= b + be16(type_covered) + seq![algorithm, labels] + be32(original_ttl)
            + be32(signature_expiration) + be32(signature_inception) + be16(key_tag));
        lemma_name_in(signer_name, b, pre, p, signature + rest);
        assert(b + w + rest =~= b + pre + nb + (signature + rest));
        assert(b + w =~= b + pre + nb + signature);
        crate::compress::lemma_positions_extend(q2, b + pre + nb, signature);
        assert(w.subrange(0, 2) =~= be16(type_covered));
        assert(w.subrange(4, 8) =~= be32(original_ttl));
        assert(w.subrange(8, 12) =~= be32(signature_expiration));
        assert(w.subrange(12, 16) =~= be32(signature_inception));
        assert(w.subrange(16, 18) =~= be16(key_tag));
        lemma_u16_field(b, w, rest, 0, type_covered);
        lemma_u32_field(b, w, rest, 4, original_ttl);
        lemma_u32_field(b, w, rest, 8, signature_expiration);
        lemma_u32_field(b, w, rest, 12, signature_inception);
        lemma_u16_field(b, w, rest, 16, key_tag);
        let m = b + w + rest;
        let s0 = b.len() as int;
        assert(m[s0 + 2] == algorithm);
        assert(m[s0 + 3] == labels);
        lemma_piece(b, w, rest, 18 + nb.len() as int, w.len() as int);
        assert(w.subrange(18 + nb.len() as int, w.len() as int) =~= signature);
    }
}

/// NSEC RDATA: a name, then the type bit maps.
proof fn lemma_rdata_nsec(
    t: RecordType,
    c: Class,
    ttl: u32,
    d: RDataModel,
    b: Seq<u8>,
    p: Seq<(Labels, usize)>,
    rest: Seq<u8>,
)
    requires
        d is NSEC,
        rdata_encodable(t, c, ttl, d),
        positions_valid(p, b),
        rdata_fits(d, b, p),
    ensures
        rdata_reads_back(t, c, ttl, d, b, p, rest),
{
    if let RDataModel::NSEC { next_domain_name, type_bit_maps } = d {
        let (w, p2) = spec_write_rdata(d, b.len(), p);
        let (nb, q2) = spec_write_name(next_domain_name, b.len(), p);
        assert(w =~= nb + type_bit_maps);
        assert(b + Seq::<u8>::empty() =~= b);
        lemma_name_in(next_domain_name, b, seq![], p, type_bit_maps + rest);
        assert(b + seq![] =~= b);
        assert(b + w + rest =~= b + Seq::<u8>::empty() + nb + (type_bit_maps + rest));
        assert(b + w =~= b + nb + type_bit_maps);
        assert(b + Seq::<u8>::empty() + nb =~= b + nb);
        crate::compress::lemma_positions_extend(q2, b + nb, type_bit_maps);
        lemma_piece(b, w, rest, nb.len() as int, w.len() as int);
        assert(w.subrange(nb.len() as int, w.len() as int) =~= type_bit_maps);
    }
}

/// RDATA that names nothing: addresses, character strings, EDNS options,
/// keys, digests, hashes, CAA properties and unknown data.
#[verifier::spinoff_prover]
#[verifier::rlimit(40)]
proof fn lemma_rdata_flat(
    t: RecordType,
    c: Class,
    ttl: u32,
    d: RDataModel,
    b: Seq<u8>,
    p: Seq<(Labels, usize)>,
    rest: Seq<u8>,
)
    requires
        d is A || d is AAAA || d is TXT || d is OPT || d is Unknown,
        rdata_encodable(t, c, ttl, d),
        positions_valid(p, b),
    ensures
        rdata_reads_back(t, c, ttl, d, b, p, rest),
{
    let (w, p2) = spec_write_rdata(d, b.len(), p);
    lemma_positions_extend(p, b, w);
    match d {
        RDataModel::A(a) => {
            lemma_piece(b, w, rest, 0, 4);
            assert(w.subrange(0, 4) =~= a);
        },
        RDataModel::AAAA(a) => {
            lemma_piece(b, w, rest, 0, 16);
            assert(w.subrange(0, 16) =~= a);
        },
        RDataModel::TXT(v) => {
            lemma_txt_roundtrip(b, v, rest);
        },
        RDataModel::OPT { udp_payload_size, extended_rcode, version, flags, options } => {
            lemma_options_roundtrip(b, options, rest);
            lemma_opt_ttl(extended_rcode, version, flags);
        },
        RDataModel::Unknown(x) => {
            lemma_piece(b, w, rest, 0, w.len() as int);
            assert(w.subrange(0, w.len() as int) =~= x);
        },
        _ => {},
    }
}

/// DS and DNSKEY RDATA: a 16-bit field, two bytes, then opaque data.
#[verifier::spinoff_prover]
proof fn lemma_rdata_keyed(
    t: RecordType,
    c: Class,
    ttl: u32,
    d: RDataModel,
    b: Seq<u8>,
    p: Seq<(Labels, usize)>,
    rest: Seq<u8>,
)
    requires
        d is DS || d is DNSKEY,
        rdata_encodable(t, c, ttl, d),
        positions_valid(p, b),
    ensures
        rdata_reads_back(t, c, ttl, d, b, p, rest),
{
    let (w, p2) = spec_write_rdata(d, b.len(), p);
    lemma_positions_extend(p, b, w);
    let m = b + w + rest;
    let s0 = b.len() as int;
    match d {
        RDataModel::DS { key_tag, algorithm, digest_type, digest } => {
            assert(w.subrange(0, 2) =~= be16(key_tag));
            lemma_u16_field(b, w, rest, 0, key_tag);
            assert(m[s0 + 2] == algorithm);
            assert(m[s0 + 3] == digest_type);
            lemma_piece(b, w, rest, 4, w.len() as int);
            assert(w.subrange(4, w.len() as int) =~= digest);
        },
        RDataModel::DNSKEY { flags, protocol, algorithm, public_key } => {
            assert(w.subrange(0, 2) =~= be16(flags));
            lemma_u16_field(b, w, rest, 0, flags);
            assert(m[s0 + 2] == protocol);
            assert(m[s0 + 3] == algorithm);
            lemma_piece(b, w, rest, 4, w.len() as int);
            assert(w.subrange(4, w.len() as int) =~= public_key);
        },
        _ => {},
    }
}

/// NSEC3 RDATA: fixed fields, salt and next hashed owner name each after its
/// length byte, then the type bit maps.
#[verifier::spinoff_prover]
#[verifier::rlimit(40)]
proof fn lemma_rdata_nsec3(
    t: RecordType,
    c: Class,
    ttl: u32,
    d: RDataModel,
    b: Seq<u8>,
    p: Seq<(Labels, usize)>,
    rest: Seq<u8>,
)
    requires
        d is NSEC3,
        rdata_encodable(t, c, ttl, d),
        positions_valid(p, b),
    ensures
        rdata_reads_back(t, c, ttl, d, b, p, rest),
{
    if let RDataModel::NSEC3 {
        hash_algorithm,
        flags,
        iterations,
        salt,
        next_hashed_owner_name,
        type_bit_maps,
    } = d {
        let (w, p2) = spec_write_rdata(d, b.len(), p);
        lemma_positions_extend(p, b, w);
        let m = b + w + rest;
        let s0 = b.len() as int;
        let sl = salt.len() as int;
        let hl = next_hashed_owner_name.len() as int;
        assert(w.subrange(2, 4) =~= be16(iterations));
        lemma_u16_field(b, w, rest, 2, iterations);
        assert(m[s0] == hash_algorithm);
        assert(m[s0 + 1] == flags);
        assert(m[s0 + 4] == sl as u8);
        assert(m[s0 + 5 + sl] == hl as u8);
        lemma_piece(b, w, rest, 5, 5 + sl);
        assert(w.subrange(5, 5 + sl) =~= salt);
        lemma_piece(b, w, rest, 6 + sl, 6 + sl + hl);
        assert(w.subrange(6 + sl, 6 + sl + hl) =~= next_hashed_owner_name);
        lemma_piece(b, w, rest, 6 + sl + hl, w.len() as int);
        assert(w.subrange(6 + sl + hl, w.len() as int) =~= type_bit_maps);
    }
}

/// NSEC3PARAM and CAA RDATA: fixed fields, then a run of bytes after its
/// length byte (and, for CAA, the value).
#[verifier::spinoff_prover]
#[verifier::rlimit(40)]
proof fn lemma_rdata_param_caa(
    t: RecordType,
    c: Class,
    ttl: u32,
    d: RDataModel,
    b: Seq<u8>,
    p: Seq<(Labels, usize)>,
    rest: Seq<u8>,
)
    requires
        d is NSEC3PARAM || d is CAA,
        rdata_encodable(t, c, ttl, d),
        positions_valid(p, b),
    ensures
        rdata_reads_back(t, c, ttl, d, b, p, rest),
{
    let (w, p2) = spec_write_rdata(d, b.len(), p);
    lemma_positions_extend(p, b, w);
    let m = b + w + rest;
    let s0 = b.len() as int;
    match d {
        RDataModel::NSEC3PARAM { hash_algorithm, flags, iterations, salt } => {
            let sl = salt.len() as int;
            assert(w.subrange(2, 4) =~= be16(iterations));
            lemma_u16_field(b, w, rest, 2, iterations);
            assert(m[s0] == hash_algorithm);
            assert(m[s0 + 1] == flags);
            assert(m[s0 + 4] == sl as u8);
            lemma_piece(b, w, rest, 5, 5 + sl);
            assert(w.subrange(5, 5 + sl) =~= salt);
        },
        RDataModel::CAA { flags, tag, value } => {
            let tl = tag.len() as int;
            assert(m[s0] == flags);
            assert(m[s0 + 1] == tl as u8);
            lemma_piece(b, w, rest, 2, 2 + tl);
            assert(w.subrange(2, 2 + tl) =~= tag);
            lemma_piece(b, w, rest, 2 + tl, w.len() as int);
            assert(w.subrange(2 + tl, w.len() as int) =~= value);
        },
        _ => {},
    }
}

/// RDATA written with compression against trustworthy positions reads back
/// as itself under its record type, class and TTL, taking exactly the bytes
/// written, whatever follows it, as long as its names can be followed back
/// (`rdata_fits`); the positions recorded meanwhile stay trustworthy.
pub proof fn lemma_rdata_roundtrip(
    t: RecordType,
    c: Class,
    ttl: u32,
    d: RDataModel,
    b: Seq<u8>,
    p: Seq<(Labels, usize)>,
    rest: Seq<u8>,
)
    requires
        rdata_encodable(t, c, ttl, d),
        positions_valid(p, b),
        rdata_fits(d, b, p),
    ensures
        ({
            let (w, p2) = spec_write_rdata(d, b.len(), p);
            &&& spec_parse_rdata(b + w + rest, t, c, ttl, b.len() as int, w.len() as int) == Ok::<
                (RDataModel, int),
                Error,
            >((d, b.len() + w.len() as int))
            &&& positions_valid(p2, b + w)
        }),
{
    match d {
        RDataModel::CNAME(_) | RDataModel::NS(_) | RDataModel::PTR(_) => {
            lemma_rdata_name_only(t, c, ttl, d, b, p, rest);
        },
        RDataModel::MX { .. } => lemma_rdata_mx(t, c, ttl, d, b, p, rest),
        RDataModel::SOA { .. } => lemma_rdata_soa(t, c, ttl, d, b, p, rest),
        RDataModel::SRV { .. } => lemma_rdata_srv(t, c, ttl, d, b, p, rest),
        RDataModel::RRSIG { .. } => lemma_rdata_rrsig(t, c, ttl, d, b, p, rest),
        RDataModel::NSEC { .. } => lemma_rdata_nsec(t, c, ttl, d, b, p, rest),
        RDataModel::DS { .. } | RDataModel::DNSKEY { .. } => {
            lemma_rdata_keyed(t, c, ttl, d, b, p, rest);
        },
        RDataModel::NSEC3 { .. } => lemma_rdata_nsec3(t, c, ttl, d, b, p, rest),
        RDataModel::NSEC3PARAM { .. } | RDataModel::CAA { .. } => {
            lemma_rdata_param_caa(t, c, ttl, d, b, p, rest);
        },
        _ => lemma_rdata_flat(t, c, ttl, d, b, p, rest),
    }
}

/// The ten bytes of type, class, TTL and RDATA length, read where written.
proof fn lemma_record_fields(b: Seq<u8>, t: u16, c: u16, ttl: u32, len: u16, rest: Seq<u8>)
    ensures
        ({
            let m = b + (be16(t) + be16(c) + be32(ttl) + be16(len)) + rest;
            &&& u16_at(m, b.len() as int) == t
            &&& u16_at(m, b.len() + 2int) == c
            &&& u32_at(m, b.len() + 4int) == ttl
            &&& u16_at(m, b.len() + 8int) == len
        }),
{
    let hdr = be16(t) + be16(c) + be32(ttl) + be16(len);
    assert(hdr.subrange(0, 2) =~= be16(t));
    assert(hdr.subrange(2, 4) =~= be16(c));
    assert(hdr.subrange(4, 8) =~= be32(ttl));
    assert(hdr.subrange(8, 10) =~= be16(len));
    lemma_u16_field(b, hdr, rest, 0, t);
    lemma_u16_field(b, hdr, rest, 2, c);
    lemma_u32_field(b, hdr, rest, 4, ttl);
    lemma_u16_field(b, hdr, rest, 8, len);
}

/// A resource record written with compression against trustworthy positions
/// reads back as itself, taking exactly the bytes written, whatever follows
/// it, as long as its names can be followed back and its RDATA length fits
/// in 16 bits (`record_fits`); the positions recorded meanwhile stay
/// trustworthy.
#[verifier::spinoff_prover]
#[verifier::rlimit(80)]
pub proof fn lemma_record_roundtrip(
    r: RecordModel,
    b: Seq<u8>,
    p: Seq<(Labels, usize)>,
    rest: Seq<u8>,
)
    requires
        record_encodable(r),
        positions_valid(p, b),
        record_fits(r, b, p),
    ensures
        ({
            let (w, p2) = spec_write_record(r, b.len(), p);
            &&& spec_parse_record(b + w + rest, b.len() as int) == Ok::<(RecordModel, usize), Error>(
                (r, w.len() as usize),
            )
            &&& positions_valid(p2, b + w)
            &&& w.len() >= 11
        }),
{
    reveal(spec_parse_record);
    reveal(spec_write_record);
    let (w, p2) = spec_write_record(r, b.len(), p);
    let (nb, p1) = spec_write_name(r.name, b.len(), p);
    let fixed = be16(record_type_code(r.record_type)) + be16(class_code(r.class)) + be32(r.ttl);
    let b1 = b + nb + fixed;
    let (rd, q2) = spec_write_rdata(r.data, b.len() + nb.len() + 10, p1);
    let hdr = fixed + be16(rd.len() as u16);
    assert(w =~= nb + hdr + rd);
    lemma_name_roundtrip(r.name, b, p, hdr + rd + rest);
    let m = b + w + rest;
    assert(m =~= b + nb + (hdr + rd + rest));
    let bh = b + nb + hdr;
    lemma_positions_extend(p1, b + nb, hdr);
    assert(bh.len() == b.len() + nb.len() + 10);
    lemma_rdata_roundtrip(r.record_type, r.class, r.ttl, r.data, bh, p1, rest);
    assert(m =~= bh + rd + rest);
    assert(b + w =~= bh + rd);
    lemma_record_fields(
        b + nb,
        record_type_code(r.record_type),
        class_code(r.class),
        r.ttl,
        rd.len() as u16,
        rd + rest,
    );
    assert(b + nb + hdr + (rd + rest) =~= m);
    lemma_record_type_roundtrip(r.record_type);
}

/// A message that reads back as itself: its header fits and counts each
/// section, and every question and record in it is encodable.
pub open spec fn message_encodable(m: MessageModel) -> bool {
    &&& header_encodable(m.header)
    &&& m.header.question_count == m.questions.len()
    &&& m.header.answer_count == m.answers.len()
    &&& m.header.nameserver_count == m.authorities.len()
    &&& m.header.additional_count == m.additionals.len()
    &&& forall|i: int| 0 <= i < m.questions.len() ==> question_encodable(#[trigger] m.questions[i])
    &&& forall|i: int| 0 <= i < m.answers.len() ==> record_encodable(#[trigger] m.answers[i])
    &&& forall|i: int| 0 <= i < m.authorities.len() ==> record_encodable(#[trigger] m.authorities[i])
    &&& forall|i: int| 0 <= i < m.additionals.len() ==> record_encodable(#[trigger] m.additionals[i])
}

/// Questions written one after another from `b` against the positions `p`,
/// each of whose names reads back where it is written, in a buffer that fits
/// in memory.
pub open spec fn questions_fit(qs: Seq<QuestionModel>, b: Seq<u8>, p: Seq<(Labels, usize)>) -> bool
    decreases qs.len(),
{
    if qs.len() == 0 {
        true
    } else {
        let (a, p1) = spec_write_question(qs[0], b.len(), p);
        &&& name_fits(qs[0].0, b, p)
        &&& b.len() + a.len() <= usize::MAX
        &&& questions_fit(qs.drop_first(), b + a, p1)
    }
}

/// Records written one after another from `b` against the positions `p`,
/// each of which fits where it is written (`record_fits`), in a buffer that
/// fits in memory.
pub open spec fn records_fit(rs: Seq<RecordModel>, b: Seq<u8>, p: Seq<(Labels, usize)>) -> bool
    decreases rs.len(),
{
    if rs.len() == 0 {
        true
    } else {
        let (a, p1) = spec_write_record(rs[0], b.len(), p);
        &&& record_fits(rs[0], b, p)
        &&& b.len() + a.len() <= usize::MAX
        &&& records_fit(rs.drop_first(), b + a, p1)
    }
}

/// Every name of a message, written by `to_bytes`, can be followed back
/// where it is written: each compression pointer emitted targets a position
/// below 0x4000 that reads back within the decoder's budget of pointers; and
/// every RDATA length fits its 16-bit field.
pub open spec fn message_fits(m: MessageModel) -> bool {
    let h = header_bytes(m.header);
    let (q, p1) = write_question_section(m.questions, 12, seq![]);
    let (a, p2) = write_record_section(m.answers, 12 + q.len(), p1);
    let (n, p3) = write_record_section(m.authorities, 12 + q.len() + a.len(), p2);
    &&& questions_fit(m.questions, h, seq![])
    &&& records_fit(m.answers, h + q, p1)
    &&& records_fit(m.authorities, h + q + a, p2)
    &&& records_fit(m.additionals, h + q + a + n, p3)
}

/// Questions written one after another read back as themselves, taking
/// exactly the bytes written; the positions stay trustworthy.
proof fn lemma_question_section_roundtrip(
    qs: Seq<QuestionModel>,
    b: Seq<u8>,
    p: Seq<(Labels, usize)>,
    rest: Seq<u8>,
)
    requires
        forall|i: int| 0 <= i < qs.len() ==> question_encodable(#[trigger] qs[i]),
        positions_valid(p, b),
        questions_fit(qs, b, p),
    ensures
        ({
            let (w, p2) = write_question_section(qs, b.len(), p);
            &&& parse_question_section(b + w + rest, b.len() as int, qs.len()) == Ok::<
                (Seq<QuestionModel>, int),
                Error,
            >((qs, b.len() + w.len() as int))
            &&& positions_valid(p2, b + w)
        }),
    decreases qs.len(),
{
    let (w, p2) = write_question_section(qs, b.len(), p);
    if qs.len() == 0 {
        assert(w =~= Seq::<u8>::empty());
        assert(b + w =~= b);
        assert(qs =~= Seq::<QuestionModel>::empty());
    } else {
        let q = qs[0];
        let tail = qs.drop_first();
        let (a, p1) = spec_write_question(q, b.len(), p);
        let (c, q2) = write_question_section(tail, b.len() + a.len(), p1);
        assert(w == a + c);
        lemma_question_roundtrip(q, b, p, c + rest);
        assert(b + w + rest =~= b + a + (c + rest));
        assert(forall|i: int| 0 <= i < tail.len() ==> #[trigger] tail[i] == qs[i + 1]);
        assert((b + a).len() == b.len() + a.len());
        lemma_question_section_roundtrip(tail, b + a, p1, rest);
        assert(b + a + c + rest =~= b + w + rest);
        assert(b + a + c =~= b + w);
        assert(seq![q] + tail =~= qs);
    }
}

/// Records written one after another read back as themselves, taking
/// exactly the bytes written; the positions stay trustworthy.
proof fn lemma_record_section_roundtrip(
    rs: Seq<RecordModel>,
    b: Seq<u8>,
    p: Seq<(Labels, usize)>,
    rest: Seq<u8>,
)
    requires
        forall|i: int| 0 <= i < rs.len() ==> record_encodable(#[trigger] rs[i]),
        positions_valid(p, b),
        records_fit(rs, b, p),
    ensures
        ({
            let (w, p2) = write_record_section(rs, b.len(), p);
            &&& parse_record_section(b + w + rest, b.len() as int, rs.len()) == Ok::<
                (Seq<RecordModel>, int),
                Error,
            >((rs, b.len() + w.len() as int))
            &&& positions_valid(p2, b + w)
        }),
    decreases rs.len(),
{
    let (w, p2) = write_record_section(rs, b.len(), p);
    if rs.len() == 0 {
        assert(w =~= Seq::<u8>::empty());
        assert(b + w =~= b);
        assert(rs =~= Seq::<RecordModel>::empty());
    } else {
        let r = rs[0];
        let tail = rs.drop_first();
        let (a, p1) = spec_write_record(r, b.len(), p);
        let (c, q2) = write_record_section(tail, b.len() + a.len(), p1);
        assert(w == a + c);
        lemma_record_roundtrip(r, b, p, c + rest);
        assert(b + w + rest =~= b + a + (c + rest));
        assert(forall|i: int| 0 <= i < tail.len() ==> #[trigger] tail[i] == rs[i + 1]);
        assert((b + a).len() == b.len() + a.len());
        lemma_record_section_roundtrip(tail, b + a, p1, rest);
        assert(b + a + c + rest =~= b + w + rest);
        assert(b + a + c =~= b + w);
        assert(seq![r] + tail =~= rs);
    }
}

/// What `to_bytes` writes, `parse` reads back: a message whose header fits
/// and counts its sections, whose questions and records are encodable, and
/// whose names can all be followed back where they are written
/// (`message_fits`) decodes to itself.
pub proof fn lemma_message_roundtrip(m: MessageModel)
    requires
        message_encodable(m),
        message_fits(m),
    ensures
        spec_parse_message(spec_message_bytes(m)) == Ok::<MessageModel, Error>(m),
{
    reveal(spec_message_bytes);
    let h = header_bytes(m.header);
    let (q, p1) = write_question_section(m.questions, 12, seq![]);
    let (a, p2) = write_record_section(m.answers, 12 + q.len(), p1);
    let (n, p3) = write_record_section(m.authorities, 12 + q.len() + a.len(), p2);
    let (d, p4) = write_record_section(m.additionals, 12 + q.len() + a.len() + n.len(), p3);
    let buf = h + q + a + n + d;
    assert(buf == spec_message_bytes(m));
    lemma_header_roundtrip(m.header, q + a + n + d);
    assert(buf =~= h + (q + a + n + d));
    assert(h.len() == 12);
    lemma_positions_empty(h);
    lemma_question_section_roundtrip(m.questions, h, seq![], a + n + d);
    assert(buf =~= h + q + (a + n + d));
    lemma_record_section_roundtrip(m.answers, h + q, p1, n + d);
    assert(buf =~= h + q + a + (n + d));
    lemma_record_section_roundtrip(m.authorities, h + q + a, p2, d);
    assert(buf =~= h + q + a + n + d);
    lemma_record_section_roundtrip(m.additionals, h + q + a + n, p3, seq![]);
    assert(buf =~= h + q + a + n + d + Seq::<u8>::empty());
}

} // verus!
