//! What setting EDNS values and padding a message promise.
use vstd::prelude::*;


use crate::message::{
    edns_index_from, kept_edns, opt_index, opt_index_from, opt_record, padding_len,
    spec_edns_options, spec_message_bytes, spec_padded, with_edns, without_opt,
    write_record_section, MessageModel, OPT_OVERHEAD, PADDING_CODE,
};
use crate::name::{lookup, spec_write_name, write_labels, Labels};
use crate::rdata_wire::options_bytes;
use crate::resource_record::{spec_write_rdata, spec_write_record, RDataModel, RecordModel};
use crate::types::RecordType;

verus! {

/// Records before the first of type OPT are of another type; the index found
/// is at least where the search began and at most the length.
proof fn lemma_opt_index_from(rs: Seq<RecordModel>, i: int)
    requires
        0 <= i <= rs.len(),
    ensures
        i <= opt_index_from(rs, i) <= rs.len(),
        forall|j: int| i <= j < opt_index_from(rs, i) ==> #[trigger] rs[j].record_type != RecordType::OPT,
        opt_index_from(rs, i) < rs.len() ==> rs[opt_index_from(rs, i)].record_type == RecordType::OPT,
    decreases rs.len() - i,
{
    if i < rs.len() && rs[i].record_type != RecordType::OPT {
        lemma_opt_index_from(rs, i + 1);
    }
}

/// The EDNS search finds `k` when no record before it has type OPT and the
/// record at `k` is of type OPT with OPT data.
proof fn lemma_edns_index_at(rs: Seq<RecordModel>, i: int, k: int)
    requires
        0 <= i <= k < rs.len(),
        forall|j: int| i <= j < k ==> #[trigger] rs[j].record_type != RecordType::OPT,
        rs[k].record_type == RecordType::OPT,
        rs[k].data is OPT,
    ensures
        edns_index_from(rs, i) == k,
    decreases k - i,
{
    if i < k {
        lemma_edns_index_at(rs, i + 1, k);
    }
}

/// Setting the EDNS values of a message and reading them back gives the
/// values set, whatever the message held before.
pub proof fn lemma_edns_read_back(
    m: MessageModel,
    udp_payload_size: u16,
    extended_rcode: u8,
    version: u8,
    flags: u16,
    options: Seq<(u16, Seq<u8>)>,
)
    ensures
        spec_edns_options(with_edns(m, udp_payload_size, extended_rcode, version, flags, options))
            == Some((udp_payload_size, extended_rcode, version, flags, options)),
{
    let w = with_edns(m, udp_payload_size, extended_rcode, version, flags, options);
    let rs = m.additionals;
    let i = opt_index(rs);
    lemma_opt_index_from(rs, 0);
    let k = if i < rs.len() {
        i
    } else {
        rs.len() as int
    };
    assert forall|j: int| 0 <= j < k implies #[trigger] w.additionals[j].record_type
        != RecordType::OPT by {
        assert(w.additionals[j] == rs[j]);
    }
    lemma_edns_index_at(w.additionals, 0, k);
}

/// Writing one more record at the end of a section appends its bytes.
proof fn lemma_record_section_push(
    rs: Seq<RecordModel>,
    r: RecordModel,
    start: nat,
    p: Seq<(Labels, usize)>,
)
    ensures
        ({
            let (w, p1) = write_record_section(rs, start, p);
            write_record_section(rs.push(r), start, p).0 == w + spec_write_record(
                r,
                start + w.len(),
                p1,
            ).0
        }),
    decreases rs.len(),
{
    let (w, p1) = write_record_section(rs, start, p);
    if rs.len() == 0 {
        assert(rs.push(r).drop_first() =~= Seq::<RecordModel>::empty());
        assert(w =~= Seq::<u8>::empty());
        let a = spec_write_record(r, start, p).0;
        assert(rs.push(r)[0] == r);
        assert(p1 == p);
        let (a2, q1) = spec_write_record(r, start, p);
        assert(write_record_section(rs.push(r).drop_first(), start + a2.len(), q1).0 =~= Seq::<
            u8,
        >::empty());
        assert(write_record_section(rs.push(r), start, p).0 == a + Seq::<u8>::empty());
        assert(a + Seq::<u8>::empty() =~= w + a);
    } else {
        let (a, q1) = spec_write_record(rs[0], start, p);
        assert(rs.push(r)[0] == rs[0]);
        assert(rs.push(r).drop_first() =~= rs.drop_first().push(r));
        lemma_record_section_push(rs.drop_first(), r, start + a.len(), q1);
        let (c, q2) = write_record_section(rs.drop_first(), start + a.len(), q1);
        assert(w == a + c);
        assert(p1 == q2);
        let x = spec_write_record(r, start + a.len() + c.len(), q2).0;
        assert(write_record_section(rs.push(r), start, p).0 == a + write_record_section(
            rs.drop_first().push(r),
            start + a.len(),
            q1,
        ).0);
        assert(a + (c + x) =~= w + x);
    }
}

/// One more EDNS option adds its code, its length and its data.
proof fn lemma_options_bytes_push(o: Seq<(u16, Seq<u8>)>, x: (u16, Seq<u8>))
    ensures
        options_bytes(o.push(x)).len() == options_bytes(o).len() + 4 + x.1.len(),
{
    assert(o.push(x).drop_last() =~= o);
    assert(o.push(x).last() == x);
}

/// An OPT record takes one byte of root name, ten of fixed fields and its
/// options.
proof fn lemma_opt_record_len(
    u: u16,
    e: u8,
    v: u8,
    f: u16,
    o: Seq<(u16, Seq<u8>)>,
    start: nat,
    p: Seq<(Labels, usize)>,
)
    ensures
        spec_write_record(opt_record(u, e, v, f, o), start, p).0.len() == 11 + options_bytes(o).len(),
{
    reveal(spec_write_record);
    let r = opt_record(u, e, v, f, o);
    assert(spec_write_name(r.name, start, p).0 =~= seq![0u8]);
}

/// What `add_padding` promises of the size: a message already as long as the
/// target is left as it is; a shorter one comes to exactly the target, as
/// long as the target leaves room for the OPT record with the options it
/// keeps.
pub proof fn lemma_padded_size(m: MessageModel, target: nat)
    ensures
        spec_message_bytes(m).len() >= target ==> spec_padded(m, target) == m,
        spec_message_bytes(m).len() < target && target >= spec_message_bytes(without_opt(m)).len()
            + OPT_OVERHEAD + options_bytes(
            match kept_edns(m) {
                Some(e) => e.4,
                None => Seq::<(u16, Seq<u8>)>::empty(),
            },
        ).len() ==> spec_message_bytes(spec_padded(m, target)).len() == target,
{
    if spec_message_bytes(m).len() < target {
        reveal(spec_message_bytes);
        let m1 = without_opt(m);
        let pm = spec_padded(m, target);
        let (udp, ext, ver, fl, opts) = match kept_edns(m) {
            Some(e) => e,
            None => (4096u16, 0u8, 0u8, 0u16, Seq::<(u16, Seq<u8>)>::empty()),
        };
        let pad = Seq::new(padding_len(m, target), |k: int| 0u8);
        let all = opts.push((PADDING_CODE, pad));
        let r = opt_record(udp, ext, ver, fl, all);
        assert(pm.additionals == m1.additionals.push(r));
        let (q, p1) = crate::message::write_question_section(m1.questions, 12, seq![]);
        let (a, p2) = write_record_section(m1.answers, 12 + q.len(), p1);
        let (n, p3) = write_record_section(m1.authorities, 12 + q.len() + a.len(), p2);
        let (d, p4) = write_record_section(m1.additionals, 12 + q.len() + a.len() + n.len(), p3);
        lemma_record_section_push(m1.additionals, r, 12 + q.len() + a.len() + n.len(), p3);
        lemma_opt_record_len(udp, ext, ver, fl, all, 12 + q.len() + a.len() + n.len() + d.len(), p4);
        lemma_options_bytes_push(opts, (PADDING_CODE, pad));
        assert(spec_message_bytes(m1).len() == 12 + q.len() + a.len() + n.len() + d.len());
    }
}

/// The EDNS search ends within the records, at one of type OPT with OPT
/// data, or at the length.
proof fn lemma_edns_index_from(rs: Seq<RecordModel>, i: int)
    requires
        0 <= i <= rs.len(),
    ensures
        i <= edns_index_from(rs, i) <= rs.len(),
        edns_index_from(rs, i) < rs.len() ==> rs[edns_index_from(rs, i)].data is OPT,
    decreases rs.len() - i,
{
    if i < rs.len() && !(rs[i].record_type == RecordType::OPT && rs[i].data is OPT) {
        lemma_edns_index_from(rs, i + 1);
    }
}

/// A search that finds nothing from `i` on finds a record of type OPT with
/// OPT data appended at the end.
proof fn lemma_edns_index_push(rs: Seq<RecordModel>, r: RecordModel, i: int)
    requires
        0 <= i <= rs.len(),
        edns_index_from(rs, i) == rs.len(),
        r.record_type == RecordType::OPT,
        r.data is OPT,
    ensures
        edns_index_from(rs.push(r), i) == rs.len(),
    decreases rs.len() - i,
{
    if i < rs.len() {
        assert(rs.push(r)[i] == rs[i]);
        lemma_edns_index_push(rs, r, i + 1);
    } else {
        assert(rs.push(r)[i] == r);
    }
}

/// The EDNS values that padding a shorter message leaves: those kept from its
/// first OPT record (4096, 0, 0, 0 and no options when there were none),
/// followed by one padding option of zero bytes, as long as no other OPT
/// record of the message carries EDNS values.
pub open spec fn padded_edns(m: MessageModel, target: nat) -> (u16, u8, u8, u16, Seq<(u16, Seq<u8>)>) {
    let pad = (PADDING_CODE, Seq::new(padding_len(m, target), |k: int| 0u8));
    match kept_edns(m) {
        Some(e) => (e.0, e.1, e.2, e.3, e.4.push(pad)),
        None => (4096u16, 0u8, 0u8, 0u16, seq![pad]),
    }
}

/// Padding a message that is shorter than the target keeps the EDNS values
/// and options other than padding of its first OPT record, and adds one
/// padding option; reading the EDNS values back gives them, unless another
/// OPT record with EDNS values comes first.
pub proof fn lemma_padding_read_back(m: MessageModel, target: nat)
    requires
        spec_message_bytes(m).len() < target,
        spec_edns_options(without_opt(m)) is None,
    ensures
        spec_edns_options(spec_padded(m, target)) == Some(padded_edns(m, target)),
{
    let m1 = without_opt(m);
    let pm = spec_padded(m, target);
    let (udp, ext, ver, fl, opts) = match kept_edns(m) {
        Some(e) => e,
        None => (4096u16, 0u8, 0u8, 0u16, Seq::<(u16, Seq<u8>)>::empty()),
    };
    let pad = Seq::new(padding_len(m, target), |k: int| 0u8);
    let r = opt_record(udp, ext, ver, fl, opts.push((PADDING_CODE, pad)));
    assert(pm.additionals == m1.additionals.push(r));
    lemma_edns_index_from(m1.additionals, 0);
    lemma_edns_index_push(m1.additionals, r, 0);
    assert(seq![(PADDING_CODE, pad)] =~= Seq::<(u16, Seq<u8>)>::empty().push((PADDING_CODE, pad)));
}

/// Padding a message that is shorter than the target leaves its header
/// (but for the additional count), questions, answers and authority records
/// as they were; its additional records become those other than the first
/// of type OPT, in order, followed by one OPT record holding `padded_edns`,
/// and the additional count counts them.
pub proof fn lemma_padding_frame(m: MessageModel, target: nat)
    requires
        spec_message_bytes(m).len() < target,
    ensures
        ({
            let pm = spec_padded(m, target);
            let e = padded_edns(m, target);
            &&& pm.questions == m.questions
            &&& pm.answers == m.answers
            &&& pm.authorities == m.authorities
            &&& pm.additionals == without_opt(m).additionals.push(opt_record(e.0, e.1, e.2, e.3, e.4))
            &&& pm.header == crate::header::Header { additional_count: pm.additionals.len() as u16, ..m.header }
            &&& without_opt(m).additionals == if opt_index(m.additionals) < m.additionals.len() {
                m.additionals.remove(opt_index(m.additionals))
            } else {
                m.additionals
            }
        }),
{
    let (udp, ext, ver, fl, opts) = match kept_edns(m) {
        Some(e) => e,
        None => (4096u16, 0u8, 0u8, 0u16, Seq::<(u16, Seq<u8>)>::empty()),
    };
    let pad = Seq::new(padding_len(m, target), |k: int| 0u8);
    assert(seq![(PADDING_CODE, pad)] =~= Seq::<(u16, Seq<u8>)>::empty().push((PADDING_CODE, pad)));
}

/// The keys of recorded positions, in order.
pub open spec fn keys(p: Seq<(Labels, usize)>) -> Seq<Labels> {
    p.map_values(|e: (Labels, usize)| e.0)
}

/// Whether a key is recorded depends on the keys alone, not on positions.
proof fn lemma_lookup_keys(p: Seq<(Labels, usize)>, q: Seq<(Labels, usize)>, k: Labels)
    requires
        keys(p) == keys(q),
    ensures
        (lookup(p, k) is Some) == (lookup(q, k) is Some),
    decreases p.len(),
{
    assert(p.len() == keys(p).len());
    assert(q.len() == keys(q).len());
    if p.len() > 0 {
        assert(p[0].0 == keys(p)[0]);
        assert(q[0].0 == keys(q)[0]);
        assert(keys(p.drop_first()) =~= keys(p).drop_first());
        assert(keys(q.drop_first()) =~= keys(q).drop_first());
        lemma_lookup_keys(p.drop_first(), q.drop_first(), k);
    }
}

/// Recording an entry adds its key.
proof fn lemma_keys_push(p: Seq<(Labels, usize)>, e: (Labels, usize))
    ensures
        keys(p.push(e)) == keys(p).push(e.0),
{
    assert(keys(p.push(e)) =~= keys(p).push(e.0));
}

/// How many bytes a name takes, and which keys it records, does not depend on
/// where it is written nor on the recorded positions, only on their keys.
proof fn lemma_write_labels_keys(
    ls: Labels,
    i: nat,
    s1: nat,
    p: Seq<(Labels, usize)>,
    o1: Seq<u8>,
    s2: nat,
    q: Seq<(Labels, usize)>,
    o2: Seq<u8>,
)
    requires
        keys(p) == keys(q),
        o1.len() == o2.len(),
    ensures
        write_labels(ls, i, s1, p, o1).0.len() == write_labels(ls, i, s2, q, o2).0.len(),
        keys(write_labels(ls, i, s1, p, o1).1) == keys(write_labels(ls, i, s2, q, o2).1),
    decreases ls.len() - i,
{
    if i < ls.len() {
        lemma_lookup_keys(p, q, ls.skip(i as int));
        if lookup(p, ls.skip(i as int)) is None {
            let l = ls[i as int];
            if i + 1 < ls.len() {
                lemma_keys_push(p, (ls.skip(i as int), (s1 + o1.len()) as usize));
                lemma_keys_push(q, (ls.skip(i as int), (s2 + o2.len()) as usize));
                lemma_write_labels_keys(
                    ls,
                    i + 1,
                    s1,
                    p.push((ls.skip(i as int), (s1 + o1.len()) as usize)),
                    o1 + seq![l.len() as u8] + l,
                    s2,
                    q.push((ls.skip(i as int), (s2 + o2.len()) as usize)),
                    o2 + seq![l.len() as u8] + l,
                );
            } else {
                lemma_write_labels_keys(
                    ls,
                    i + 1,
                    s1,
                    p,
                    o1 + seq![l.len() as u8] + l,
                    s2,
                    q,
                    o2 + seq![l.len() as u8] + l,
                );
            }
        }
    }
}

/// A name's length and recorded keys depend only on the keys recorded before.
proof fn lemma_write_name_keys(
    ls: Labels,
    s1: nat,
    p: Seq<(Labels, usize)>,
    s2: nat,
    q: Seq<(Labels, usize)>,
)
    requires
        keys(p) == keys(q),
    ensures
        spec_write_name(ls, s1, p).0.len() == spec_write_name(ls, s2, q).0.len(),
        keys(spec_write_name(ls, s1, p).1) == keys(spec_write_name(ls, s2, q).1),
{
    lemma_write_labels_keys(ls, 0, s1, p, seq![], s2, q, seq![]);
}

/// RDATA's length and recorded keys depend only on the keys recorded before.
proof fn lemma_write_rdata_keys(
    d: RDataModel,
    s1: nat,
    p: Seq<(Labels, usize)>,
    s2: nat,
    q: Seq<(Labels, usize)>,
)
    requires
        keys(p) == keys(q),
    ensures
        spec_write_rdata(d, s1, p).0.len() == spec_write_rdata(d, s2, q).0.len(),
        keys(spec_write_rdata(d, s1, p).1) == keys(spec_write_rdata(d, s2, q).1),
{
    match d {
        RDataModel::CNAME(n) => lemma_write_name_keys(n, s1, p, s2, q),
        RDataModel::NS(n) => lemma_write_name_keys(n, s1, p, s2, q),
        RDataModel::PTR(n) => lemma_write_name_keys(n, s1, p, s2, q),
        RDataModel::MX { exchange, .. } => lemma_write_name_keys(exchange, s1 + 2, p, s2 + 2, q),
        RDataModel::SOA { mname, rname, .. } => {
            lemma_write_name_keys(mname, s1, p, s2, q);
            let (m1, p1) = spec_write_name(mname, s1, p);
            let (m2, q1) = spec_write_name(mname, s2, q);
            lemma_write_name_keys(rname, s1 + m1.len(), p1, s2 + m2.len(), q1);
        },
        RDataModel::SRV { target, .. } => lemma_write_name_keys(target, s1 + 6, p, s2 + 6, q),
        RDataModel::RRSIG { signer_name, .. } => lemma_write_name_keys(
            signer_name,
            s1 + 18,
            p,
            s2 + 18,
            q,
        ),
        RDataModel::NSEC { next_domain_name, .. } => lemma_write_name_keys(
            next_domain_name,
            s1,
            p,
            s2,
            q,
        ),
        _ => {},
    }
}

/// A record's length and recorded keys depend only on the keys recorded before.
proof fn lemma_write_record_keys(
    r: RecordModel,
    s1: nat,
    p: Seq<(Labels, usize)>,
    s2: nat,
    q: Seq<(Labels, usize)>,
)
    requires
        keys(p) == keys(q),
    ensures
        spec_write_record(r, s1, p).0.len() == spec_write_record(r, s2, q).0.len(),
        keys(spec_write_record(r, s1, p).1) == keys(spec_write_record(r, s2, q).1),
{
    reveal(spec_write_record);
    lemma_write_name_keys(r.name, s1, p, s2, q);
    let (n1, p1) = spec_write_name(r.name, s1, p);
    let (n2, q1) = spec_write_name(r.name, s2, q);
    lemma_write_rdata_keys(r.data, s1 + n1.len() + 10, p1, s2 + n2.len() + 10, q1);
}

/// A section's length and recorded keys depend only on the keys recorded
/// before.
proof fn lemma_write_section_keys(
    rs: Seq<RecordModel>,
    s1: nat,
    p: Seq<(Labels, usize)>,
    s2: nat,
    q: Seq<(Labels, usize)>,
)
    requires
        keys(p) == keys(q),
    ensures
        write_record_section(rs, s1, p).0.len() == write_record_section(rs, s2, q).0.len(),
        keys(write_record_section(rs, s1, p).1) == keys(write_record_section(rs, s2, q).1),
    decreases rs.len(),
{
    if rs.len() > 0 {
        lemma_write_record_keys(rs[0], s1, p, s2, q);
        let (a1, p1) = spec_write_record(rs[0], s1, p);
        let (a2, q1) = spec_write_record(rs[0], s2, q);
        lemma_write_section_keys(rs.drop_first(), s1 + a1.len(), p1, s2 + a2.len(), q1);
    }
}

/// Writing two runs of records one after the other writes the first, then
/// the second after it, against the positions the first left.
proof fn lemma_record_section_split(
    a: Seq<RecordModel>,
    c: Seq<RecordModel>,
    start: nat,
    p: Seq<(Labels, usize)>,
)
    ensures
        ({
            let (w1, p1) = write_record_section(a, start, p);
            let (w2, p2) = write_record_section(c, start + w1.len(), p1);
            write_record_section(a + c, start, p) == (w1 + w2, p2)
        }),
    decreases a.len(),
{
    let (w1, p1) = write_record_section(a, start, p);
    let (w2, p2) = write_record_section(c, start + w1.len(), p1);
    if a.len() == 0 {
        assert(a + c =~= c);
        assert(w1 =~= Seq::<u8>::empty());
        assert(w1 + w2 =~= w2);
    } else {
        let (x, q1) = spec_write_record(a[0], start, p);
        assert((a + c)[0] == a[0]);
        assert((a + c).drop_first() =~= a.drop_first() + c);
        lemma_record_section_split(a.drop_first(), c, start + x.len(), q1);
        let (y, q2) = write_record_section(a.drop_first(), start + x.len(), q1);
        assert(w1 == x + y);
        assert(x + (y + w2) =~= w1 + w2);
    }
}

/// An OPT record records no position.
proof fn lemma_opt_record_positions(
    u: u16,
    e: u8,
    v: u8,
    f: u16,
    o: Seq<(u16, Seq<u8>)>,
    start: nat,
    p: Seq<(Labels, usize)>,
)
    ensures
        spec_write_record(opt_record(u, e, v, f, o), start, p).1 == p,
{
    reveal(spec_write_record);
}

/// The message whose size `add_padding` aims at: its first OPT record
/// replaced in place (or, without one, an OPT record added at the end) by an
/// OPT record holding the EDNS values padding keeps and one empty padding
/// option.
pub open spec fn with_empty_padding(m: MessageModel) -> MessageModel {
    let (udp, ext, ver, fl, opts) = match kept_edns(m) {
        Some(e) => e,
        None => (4096u16, 0u8, 0u8, 0u16, Seq::<(u16, Seq<u8>)>::empty()),
    };
    let r0 = opt_record(udp, ext, ver, fl, opts.push((PADDING_CODE, Seq::<u8>::empty())));
    let i = opt_index(m.additionals);
    let ad = if i < m.additionals.len() {
        m.additionals.update(i, r0)
    } else {
        m.additionals.push(r0)
    };
    MessageModel {
        header: crate::header::Header { additional_count: ad.len() as u16, ..m.header },
        additionals: ad,
        ..m
    }
}

/// The message with an empty padding option in place of its OPT record takes
/// the bytes of the message without it, plus the OPT record's overhead and
/// the kept options.
proof fn lemma_empty_padding_size(m: MessageModel)
    ensures
        spec_message_bytes(with_empty_padding(m)).len() == spec_message_bytes(without_opt(m)).len()
            + OPT_OVERHEAD + options_bytes(
            match kept_edns(m) {
                Some(e) => e.4,
                None => Seq::<(u16, Seq<u8>)>::empty(),
            },
        ).len(),
{
    reveal(spec_message_bytes);
    let m0 = with_empty_padding(m);
    let m1 = without_opt(m);
    let (udp, ext, ver, fl, opts) = match kept_edns(m) {
        Some(e) => e,
        None => (4096u16, 0u8, 0u8, 0u16, Seq::<(u16, Seq<u8>)>::empty()),
    };
    let all = opts.push((PADDING_CODE, Seq::<u8>::empty()));
    let r0 = opt_record(udp, ext, ver, fl, all);
    lemma_options_bytes_push(opts, (PADDING_CODE, Seq::<u8>::empty()));
    let ad = m.additionals;
    let i = opt_index(ad);
    lemma_opt_index_from(ad, 0);
    let (q, p1) = crate::message::write_question_section(m.questions, 12, seq![]);
    let (a, p2) = write_record_section(m.answers, 12 + q.len(), p1);
    let (n, p3) = write_record_section(m.authorities, 12 + q.len() + a.len(), p2);
    let s: nat = 12 + q.len() + a.len() + n.len();
    if i < ad.len() {
        let pre = ad.subrange(0, i);
        let post = ad.subrange(i + 1, ad.len() as int);
        assert(m0.additionals =~= pre + (seq![r0] + post));
        assert(m1.additionals =~= pre + post);
        lemma_record_section_split(pre, seq![r0] + post, s, p3);
        lemma_record_section_split(pre, post, s, p3);
        let (w1, pa) = write_record_section(pre, s, p3);
        lemma_record_section_split(seq![r0], post, s + w1.len(), pa);
        let (x, px) = spec_write_record(r0, s + w1.len(), pa);
        lemma_opt_record_positions(udp, ext, ver, fl, all, s + w1.len(), pa);
        lemma_opt_record_len(udp, ext, ver, fl, all, s + w1.len(), pa);
        assert(seq![r0].drop_first() =~= Seq::<RecordModel>::empty());
        assert(write_record_section(Seq::<RecordModel>::empty(), s + w1.len() + x.len(), px).0
            =~= Seq::<u8>::empty());
        assert(write_record_section(seq![r0], s + w1.len(), pa).0 =~= x);
        assert(write_record_section(seq![r0], s + w1.len(), pa).1 == pa);
        assert(keys(pa) == keys(pa));
        lemma_write_section_keys(post, s + w1.len() + x.len(), pa, s + w1.len(), pa);
    } else {
        assert(m0.additionals == ad.push(r0));
        assert(m1.additionals == ad);
        lemma_record_section_push(ad, r0, s, p3);
        let (d, p4) = write_record_section(ad, s, p3);
        lemma_opt_record_len(udp, ext, ver, fl, all, s + d.len(), p4);
    }
}

/// What `add_padding` promises of the size, in the terms of its
/// documentation: a message shorter than the target comes out exactly at the
/// target when the message with an empty padding option in place of its OPT
/// record (`with_empty_padding`) is no longer than the target.
pub proof fn lemma_padded_size_in_place(m: MessageModel, target: nat)
    requires
        spec_message_bytes(m).len() < target,
        spec_message_bytes(with_empty_padding(m)).len() <= target,
    ensures
        spec_message_bytes(spec_padded(m, target)).len() == target,
{
    lemma_empty_padding_size(m);
    lemma_padded_size(m, target);
}

} // verus!
