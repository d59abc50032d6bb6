//! Domain names: construction from text, decoding from the wire (with
//! compression pointers) and encoding (with name compression).
use vstd::prelude::*;
use vstd::slice::slice_subrange;
use vstd::string::StringSliceAdditionalSpecFns;

use crate::error::{Error, Result};
use crate::text::{all_ascii, string_bytes, string_from_ascii, text_bytes};
use crate::wire::{be16, push_bytes, push_u16};

verus! {

/// Most compression pointers followed while decoding one name.
pub const MAX_POINTER_DEPTH: usize = 100;

/// Maximum length of a DNS name (RFC 1035 limit)
pub const MAX_NAME_LENGTH: usize = 255;

/// Maximum length of a DNS label (RFC 1035 limit)
pub const MAX_LABEL_LENGTH: usize = 63;

/// A name seen as the sequence of its labels' bytes.
pub type Labels = Seq<Seq<u8>>;

/// Letters, digits, `-` and `_`.
pub open spec fn is_label_byte(b: u8) -> bool {
    (0x30 <= b <= 0x39) || (0x41 <= b <= 0x5A) || (0x61 <= b <= 0x7A) || b == 0x2D || b == 0x5F
}

/// A label of letters, digits, hyphens and underscores; a lone `*` only
/// where it is the leftmost label.
pub open spec fn valid_label(l: Seq<u8>, leftmost: bool) -> bool {
    if l == seq![0x2Au8] {
        leftmost
    } else {
        forall|i: int| 0 <= i < l.len() ==> #[trigger] is_label_byte(l[i])
    }
}

/// Every label has 1 to 63 bytes and is valid at its place.
pub open spec fn labels_ok(ls: Labels) -> bool {
    forall|i: int|
        0 <= i < ls.len() ==> 1 <= (#[trigger] ls[i]).len() <= 63 && valid_label(ls[i], i == 0)
}

/// The sum over the labels of their length plus one.
pub open spec fn text_len(ls: Labels) -> nat
    decreases ls.len(),
{
    if ls.len() == 0 {
        0
    } else {
        text_len(ls.drop_last()) + ls.last().len() + 1
    }
}

/// What every `DnsName` holds: valid labels that, each after its length
/// byte and followed by the terminal zero, take at most 255 bytes (RFC 1035).
pub open spec fn valid_name(ls: Labels) -> bool {
    labels_ok(ls) && text_len(ls) + 1 <= 255
}

/// The pieces of `t` between dots, empty pieces included (as `str::split('.')`).
pub open spec fn dot_parts(t: Seq<u8>) -> Seq<Seq<u8>>
    decreases t.len(),
{
    if t.len() == 0 {
        seq![seq![]]
    } else {
        let p = dot_parts(t.drop_last());
        if t.last() == 0x2Eu8 {
            p.push(seq![])
        } else {
            p.update(p.len() - 1, p.last().push(t.last()))
        }
    }
}

/// The non-empty pieces, in order.
pub open spec fn keep_nonempty(ps: Seq<Seq<u8>>) -> Seq<Seq<u8>>
    decreases ps.len(),
{
    if ps.len() == 0 {
        seq![]
    } else {
        let r = keep_nonempty(ps.drop_last());
        if ps.last().len() > 0 {
            r.push(ps.last())
        } else {
            r
        }
    }
}

/// The labels that a textual name denotes: its non-empty dot-separated pieces.
pub open spec fn text_labels(t: Seq<u8>) -> Labels {
    keep_nonempty(dot_parts(t))
}

/// Building a name from the UTF-8 bytes of its text.
pub open spec fn spec_new_name(t: Seq<u8>) -> Result<Labels> {
    if valid_name(text_labels(t)) {
        Ok(text_labels(t))
    } else {
        Err(Error::InvalidName)
    }
}

/// The labels joined by dots.
pub open spec fn join_dots(ls: Labels) -> Seq<u8>
    decreases ls.len(),
{
    if ls.len() == 0 {
        seq![]
    } else if ls.len() == 1 {
        ls[0]
    } else {
        join_dots(ls.drop_last()) + seq![0x2Eu8] + ls.last()
    }
}

/// The text of a name: its labels joined by dots, or `.` for the root.
pub open spec fn name_text(ls: Labels) -> Seq<u8> {
    if ls.len() == 0 {
        seq![0x2Eu8]
    } else {
        join_dots(ls)
    }
}

/// The labels of a vector of strings, each seen through its UTF-8 bytes.
pub open spec fn labels_of(v: Seq<String>) -> Labels {
    v.map_values(|l: String| text_bytes(l))
}

/// This struct stores the parsed name as a sequence of labels
/// and provides methods to parse and serialize names.
#[derive(Debug, Eq, PartialEq)]
pub struct DnsName {
    labels: Vec<String>,
}

impl View for DnsName {
    type V = Labels;

    closed spec fn view(&self) -> Labels {
        labels_of(self.labels@)
    }
}

/// Positions at which name suffixes were written, for name compression.
/// Entries are looked up in the order in which they were added.
pub struct NamePositions {
    entries: Vec<(Vec<String>, usize)>,
}

impl View for NamePositions {
    type V = Seq<(Labels, usize)>;

    closed spec fn view(&self) -> Seq<(Labels, usize)> {
        self.entries@.map_values(|e: (Vec<String>, usize)| (labels_of(e.0@), e.1))
    }
}

/// The position recorded for `key`, taking the earliest entry.
pub open spec fn lookup(p: Seq<(Labels, usize)>, key: Labels) -> Option<usize>
    decreases p.len(),
{
    if p.len() == 0 {
        None
    } else if p[0].0 == key {
        Some(p[0].1)
    } else {
        lookup(p.drop_first(), key)
    }
}

/// The two bytes of a compression pointer to `pos`.  Positions from 0x4000 on
/// do not fit the 14 bits and are cut off by the 16-bit conversion.
pub open spec fn pointer_bytes(pos: usize) -> Seq<u8> {
    be16(0xC000u16 | (pos as u16))
}

/// Encoding the labels from `i` on, having already produced `out` and
/// starting at absolute position `start`: each suffix already in `p` becomes
/// a pointer and ends the name; otherwise the label is written and the suffix
/// (when it has two labels or more) is recorded at its position.
pub open spec fn write_labels(
    ls: Labels,
    i: nat,
    start: nat,
    p: Seq<(Labels, usize)>,
    out: Seq<u8>,
) -> (Seq<u8>, Seq<(Labels, usize)>)
    decreases ls.len() - i,
{
    if i >= ls.len() {
        (out.push(0u8), p)
    } else {
        match lookup(p, ls.skip(i as int)) {
            Some(pos) => (out + pointer_bytes(pos), p),
            None => write_labels(
                ls,
                i + 1,
                start,
                if i + 1 < ls.len() {
                    p.push((ls.skip(i as int), (start + out.len()) as usize))
                } else {
                    p
                },
                out + seq![ls[i as int].len() as u8] + ls[i as int],
            ),
        }
    }
}

/// The bytes that encode a name written at absolute position `start`, and the
/// recorded positions afterwards.
pub open spec fn spec_write_name(ls: Labels, start: nat, p: Seq<(Labels, usize)>) -> (
    Seq<u8>,
    Seq<(Labels, usize)>,
) {
    write_labels(ls, 0, start, p, seq![])
}

/// One step after another, the loop that decodes a name: `first` tells
/// whether no pointer has been followed yet (reading `buf`) or one has
/// (reading `orig`); `consumed` is fixed when the first pointer is met.
pub open spec fn walk(
    buf: Seq<u8>,
    orig: Seq<u8>,
    offset: int,
    first: bool,
    pos: int,
    depth: nat,
    ls: Labels,
    consumed: int,
) -> Result<(Labels, int)>
    decreases (if depth <= 100 {
        100 - depth
    } else {
        0
    }), (if first {
        buf.len()
    } else {
        orig.len()
    }) - pos,
    when 0 <= pos
{
    let cur = if first {
        buf
    } else {
        orig
    };
    if pos >= cur.len() {
        Err(Error::Underrun)
    } else {
        let b = cur[pos];
        if b & 0xC0u8 == 0xC0u8 {
            if pos + 1 >= cur.len() {
                Err(Error::Underrun)
            } else {
                let po = (b & 0x3Fu8) as int * 256 + cur[pos + 1] as int;
                let c2 = if first {
                    pos - offset + 2
                } else {
                    consumed
                };
                if po >= orig.len() {
                    Err(Error::InvalidCompressionPointer)
                } else if po >= offset && po >= pos {
                    Err(Error::InvalidCompressionPointer)
                } else if depth >= 100 {
                    Err(Error::CompressionLoop)
                } else {
                    walk(buf, orig, offset, false, po, depth + 1, ls, c2)
                }
            }
        } else if b == 0 {
            Ok(
                (
                    ls,
                    if first {
                        pos - offset + 1
                    } else {
                        consumed
                    },
                ),
            )
        } else if b > 63 {
            Err(Error::InvalidName)
        } else if pos + 1 + b > cur.len() {
            Err(Error::Underrun)
        } else {
            let l = cur.subrange(pos + 1, pos + 1 + b);
            if !valid_label(l, ls.len() == 0) {
                Err(Error::InvalidName)
            } else {
                walk(buf, orig, offset, first, pos + 1 + b, depth, ls.push(l), consumed)
            }
        }
    }
}

/// The outcome of decoding a name once the walk is over: the whole name,
/// terminal zero included, must fit in 255 bytes.
pub open spec fn finish_name(r: Result<(Labels, int)>) -> Result<(Labels, usize)> {
    match r {
        Ok((ls, c)) => if text_len(ls) + 1 > 255 {
            Err(Error::InvalidName)
        } else {
            Ok((ls, c as usize))
        },
        Err(e) => Err(e),
    }
}

/// Decoding the name at `offset` of `buf`; pointers lead into `orig`.
pub open spec fn spec_parse_name(buf: Seq<u8>, offset: int, orig: Seq<u8>) -> Result<
    (Labels, usize),
> {
    finish_name(walk(buf, orig, offset, true, offset, 0, seq![], 0))
}

/// A decoding result seen through the name's labels.
pub open spec fn name_result_view(r: Result<(DnsName, usize)>) -> Result<(Labels, usize)> {
    match r {
        Ok((n, c)) => Ok((n@, c)),
        Err(e) => Err(e),
    }
}

proof fn lemma_labels_of_push(v: Seq<String>, x: String)
    ensures
        labels_of(v.push(x)) == labels_of(v).push(text_bytes(x)),
        labels_of(v).len() == v.len(),
{
    let a = labels_of(v.push(x));
    let b = labels_of(v).push(text_bytes(x));
    assert forall|k: int| 0 <= k < a.len() implies a[k] == b[k] by {
        if k < v.len() {
            assert(v.push(x)[k] == v[k]);
        }
    }
    assert(a =~= b);
}

proof fn lemma_text_len_push(ls: Labels, l: Seq<u8>)
    ensures
        text_len(ls.push(l)) == text_len(ls) + l.len() + 1,
{
    assert(ls.push(l).drop_last() =~= ls);
}

proof fn lemma_valid_label_ascii(l: Seq<u8>, leftmost: bool)
    requires
        valid_label(l, leftmost),
    ensures
        all_ascii(l),
{
    if l == seq![0x2Au8] {
        assert(all_ascii(l));
    } else {
        assert forall|i: int| 0 <= i < l.len() implies #[trigger] l[i] < 128 by {
            assert(is_label_byte(l[i]));
        }
    }
}

proof fn lemma_text_bytes_injective(a: String, b: String)
    ensures
        (text_bytes(a) == text_bytes(b)) <==> (a@ == b@),
{
    broadcast use vstd::utf8::encode_utf8_decode_utf8;

    if text_bytes(a) == text_bytes(b) {
        assert(vstd::utf8::decode_utf8(text_bytes(a)) == a@);
        assert(vstd::utf8::decode_utf8(text_bytes(b)) == b@);
    }
}

proof fn lemma_keep_push(ps: Seq<Seq<u8>>, x: Seq<u8>)
    ensures
        keep_nonempty(ps.push(x)) == if x.len() > 0 {
            keep_nonempty(ps).push(x)
        } else {
            keep_nonempty(ps)
        },
{
    assert(ps.push(x).drop_last() =~= ps);
}

proof fn lemma_dot_parts_nonempty(t: Seq<u8>)
    ensures
        dot_parts(t).len() >= 1,
    decreases t.len(),
{
    if t.len() > 0 {
        lemma_dot_parts_nonempty(t.drop_last());
    }
}

proof fn lemma_valid_name_drop_last(ls: Labels)
    requires
        ls.len() > 0,
        valid_name(ls),
    ensures
        valid_name(ls.drop_last()),
{
    assert forall|i: int| 0 <= i < ls.drop_last().len() implies 1 <= (
    #[trigger] ls.drop_last()[i]).len() <= 63 && valid_label(ls.drop_last()[i], i == 0) by {
        assert(ls.drop_last()[i] == ls[i]);
    }
}

/// Validates a label when constructing a name from text.
///
/// Allows letters, digits, hyphen, and underscore (needed for SRV style names).
/// A lone `*` is allowed only as the leftmost label (wildcard names).
fn is_valid_label(part: &[u8], is_leftmost: bool) -> (r: bool)
    ensures
        r == valid_label(part@, is_leftmost),
{
    is_valid_wire_label(part, is_leftmost)
}

/// Validates a label decoded from the wire.
fn is_valid_wire_label(label_bytes: &[u8], is_leftmost: bool) -> (r: bool)
    ensures
        r == valid_label(label_bytes@, is_leftmost),
{
    if label_bytes.len() == 1 && label_bytes[0] == 0x2Au8 {
        assert(label_bytes@ =~= seq![0x2Au8]);
        return is_leftmost;
    }
    assert(label_bytes@ != seq![0x2Au8]) by {
        if label_bytes@ == seq![0x2Au8] {
            assert(label_bytes@.len() == 1 && label_bytes@[0] == 0x2Au8);
        }
    }
    let mut i: usize = 0;
    while i < label_bytes.len()
        invariant
            i <= label_bytes@.len(),
            label_bytes@ != seq![0x2Au8],
            forall|j: int| 0 <= j < i ==> #[trigger] is_label_byte(label_bytes@[j]),
        decreases label_bytes@.len() - i,
    {
        let b = label_bytes[i];
        let ok = (0x30u8 <= b && b <= 0x39u8) || (0x41u8 <= b && b <= 0x5Au8) || (0x61u8 <= b && b
            <= 0x7Au8) || b == 0x2Du8 || b == 0x5Fu8;
        if !ok {
            assert(!is_label_byte(label_bytes@[i as int]));
            return false;
        }
        i = i + 1;
    }
    true
}

/// Takes one dot-separated piece of a textual name into the labels built so
/// far; `ok` turns false for good once the labels cannot make a valid name.
fn add_part(
    labels: &mut Vec<String>,
    ok: &mut bool,
    total: &mut usize,
    part: &[u8],
    Ghost(done): Ghost<Seq<Seq<u8>>>,
)
    requires
        *old(ok) ==> labels_of(old(labels)@) == keep_nonempty(done),
        *old(ok) ==> valid_name(keep_nonempty(done)),
        *old(ok) ==> *old(total) == text_len(keep_nonempty(done)),
        !*old(ok) ==> !valid_name(keep_nonempty(done)),
    ensures
        *final(ok) ==> labels_of(final(labels)@) == keep_nonempty(done.push(part@)),
        *final(ok) ==> valid_name(keep_nonempty(done.push(part@))),
        *final(ok) ==> *final(total) == text_len(keep_nonempty(done.push(part@))),
        !*final(ok) ==> !valid_name(keep_nonempty(done.push(part@))),
{
    proof {
        lemma_keep_push(done, part@);
    }
    let ghost ks = keep_nonempty(done.push(part@));
    if part.len() == 0 {
        return ;
    }
    assert(ks.drop_last() =~= keep_nonempty(done));
    assert(ks[ks.len() - 1] == part@);
    if !*ok {
        proof {
            if valid_name(ks) {
                lemma_valid_name_drop_last(ks);
            }
        }
        return ;
    }
    let leftmost = labels.len() == 0;
    if part.len() > MAX_LABEL_LENGTH || !is_valid_label(part, leftmost) {
        *ok = false;
        return ;
    }
    proof {
        lemma_valid_label_ascii(part@, leftmost);
        lemma_text_len_push(keep_nonempty(done), part@);
    }
    let s = string_from_ascii(part);
    labels.push(s);
    assert(labels_of(labels@) =~= ks);
    *total = *total + part.len() + 1;
    if *total + 1 > MAX_NAME_LENGTH {
        *ok = false;
    } else {
        assert forall|k: int| 0 <= k < ks.len() implies 1 <= (#[trigger] ks[k]).len() <= 63
            && valid_label(ks[k], k == 0) by {
            if k < ks.len() - 1 {
                assert(ks[k] == keep_nonempty(done)[k]);
            }
        }
    }
}

impl DnsName {
    /// What every name holds; `use_type_invariant` brings it into a proof.
    #[verifier::type_invariant]
    pub open spec fn wf(self) -> bool {
        valid_name(self@)
    }

    /// Builds a name from its text: the non-empty dot-separated pieces become
    /// the labels, each of which must be a valid label of at most 63 bytes;
    /// the name on the wire (each label after its length byte, then the
    /// terminal zero) must take at most 255 bytes (RFC 1035).
    pub fn new(name: &str) -> (res: Result<Self>)
        ensures
            match res {
                Ok(n) => spec_new_name(name.spec_bytes()) == Ok::<Labels, Error>(n@),
                Err(e) => spec_new_name(name.spec_bytes()) == Err::<Labels, Error>(e),
            },
    {
        let bytes = name.as_bytes();
        let ghost t = bytes@;
        let mut labels: Vec<String> = Vec::new();
        let mut ok = true;
        let mut total: usize = 0;
        let mut start: usize = 0;
        let mut i: usize = 0;
        let ghost mut done: Seq<Seq<u8>> = seq![];
        assert(t.subrange(0, 0) =~= Seq::<u8>::empty());
        assert(dot_parts(t.subrange(0, 0)) =~= done.push(t.subrange(0, 0)));
        while i < bytes.len()
            invariant
                t == bytes@,
                start <= i <= bytes@.len(),
                dot_parts(t.subrange(0, i as int)) == done.push(t.subrange(start as int, i as int)),
                ok ==> labels_of(labels@) == keep_nonempty(done),
                ok ==> valid_name(keep_nonempty(done)),
                ok ==> total == text_len(keep_nonempty(done)),
                !ok ==> !valid_name(keep_nonempty(done)),
            decreases bytes@.len() - i,
        {
            proof {
                assert(t.subrange(0, i + 1).drop_last() =~= t.subrange(0, i as int));
            }
            if bytes[i] == 0x2Eu8 {
                let piece = slice_subrange(bytes, start, i);
                add_part(&mut labels, &mut ok, &mut total, piece, Ghost(done));
                proof {
                    done = done.push(piece@);
                    assert(t.subrange(i + 1, i + 1) =~= Seq::<u8>::empty());
                }
                start = i + 1;
            } else {
                proof {
                    assert(t.subrange(start as int, i + 1) =~= t.subrange(start as int, i as int).push(
                        t[i as int],
                    ));
                    assert(done.push(t.subrange(start as int, i as int)).update(
                        done.len() as int,
                        t.subrange(start as int, i + 1),
                    ) =~= done.push(t.subrange(start as int, i + 1)));
                }
            }
            i = i + 1;
        }
        let piece = slice_subrange(bytes, start, i);
        add_part(&mut labels, &mut ok, &mut total, piece, Ghost(done));
        proof {
            assert(t.subrange(0, i as int) =~= t);
            done = done.push(piece@);
        }
        if ok {
            Ok(DnsName { labels })
        } else {
            Err(Error::InvalidName)
        }
    }

    /// The root name, which has no labels.
    pub fn root() -> (n: Self)
        ensures
            n@ == Seq::<Seq<u8>>::empty(),
    {
        let n = DnsName { labels: Vec::new() };
        assert(n@ =~= Seq::<Seq<u8>>::empty());
        n
    }

    /// The labels of the name.
    pub fn labels(&self) -> (r: &[String])
        ensures
            labels_of(r@) == self@,
    {
        self.labels.as_slice()
    }

    /// The labels joined by dots, or `.` for the root.
    pub fn to_string(&self) -> (s: String)
        ensures
            text_bytes(s) == name_text(self@),
    {
        proof {
            use_type_invariant(self);
        }
        if self.labels.len() == 0 {
            let dot: [u8; 1] = [0x2Eu8];
            let r = string_from_ascii(&dot);
            assert(dot@ =~= seq![0x2Eu8]);
            return r;
        }
        let ghost ls = self@;
        let mut out: Vec<u8> = Vec::new();
        let mut i: usize = 0;
        while i < self.labels.len()
            invariant
                ls == self@,
                ls == labels_of(self.labels@),
                valid_name(ls),
                0 < ls.len(),
                i <= ls.len(),
                i == 0 ==> out@ == Seq::<u8>::empty(),
                i > 0 ==> out@ == join_dots(ls.subrange(0, i as int)),
                all_ascii(out@),
            decreases ls.len() - i,
        {
            let ghost prev = out@;
            if i > 0 {
                out.push(0x2Eu8);
            }
            let b = string_bytes(&self.labels[i]);
            assert(b@ == ls[i as int]);
            proof {
                lemma_valid_label_ascii(ls[i as int], i == 0);
            }
            push_bytes(&mut out, b);
            proof {
                let sub = ls.subrange(0, i + 1);
                if i == 0 {
                    assert(out@ =~= sub[0]);
                } else {
                    assert(sub.drop_last() =~= ls.subrange(0, i as int));
                    assert(out@ =~= join_dots(sub.drop_last()) + seq![0x2Eu8] + sub.last());
                }
                assert forall|k: int| 0 <= k < out@.len() implies #[trigger] out@[k] < 128 by {
                    if k < prev.len() {
                        assert(out@[k] == prev[k]);
                    } else if i > 0 && k == prev.len() {
                    } else {
                        let off: int = if i > 0 { prev.len() as int + 1 } else { prev.len() as int };
                        assert(out@[k] == ls[i as int][k - off]);
                    }
                }
            }
            i = i + 1;
        }
        assert(ls.subrange(0, i as int) =~= ls);
        string_from_ascii(out.as_slice())
    }
}

impl Clone for DnsName {
    fn clone(&self) -> (r: Self)
        ensures
            r@ == self@,
    {
        proof {
            use_type_invariant(self);
        }
        let mut labels: Vec<String> = Vec::new();
        let mut i: usize = 0;
        while i < self.labels.len()
            invariant
                i <= self.labels@.len(),
                labels_of(labels@) == labels_of(self.labels@).subrange(0, i as int),
            decreases self.labels@.len() - i,
        {
            let l = self.labels[i].clone();
            assert(l == self.labels@[i as int]);
            proof {
                lemma_labels_of_push(labels@, l);
            }
            labels.push(l);
            i = i + 1;
            assert(labels_of(labels@) =~= labels_of(self.labels@).subrange(0, i as int));
        }
        assert(labels_of(self.labels@).subrange(0, i as int) =~= labels_of(self.labels@));
        DnsName { labels }
    }
}

impl DnsName {
    /// Decodes the name at `offset` of `buffer`; compression pointers lead
    /// into `original_buffer`, the whole message.  Returns the name and the
    /// number of bytes it takes at `offset` (up to and including the first
    /// pointer, or the terminal zero).
    pub fn parse(buffer: &[u8], offset: usize, original_buffer: &[u8]) -> (res: Result<
        (Self, usize),
    >)
        ensures
            name_result_view(res) == spec_parse_name(buffer@, offset as int, original_buffer@),
            res matches Ok((_, c)) ==> 1 <= c && offset + c <= buffer@.len(),
    {
        let mut labels: Vec<String> = Vec::new();
        let ghost mut ls: Labels = seq![];
        let mut pos: usize = offset;
        let mut bytes_consumed: usize = 0;
        let mut pointer_depth: usize = 0;
        let mut current_buffer: &[u8] = buffer;
        let mut first = true;
        let mut total: usize = 0;
        loop
            invariant
                current_buffer@ == if first {
                    buffer@
                } else {
                    original_buffer@
                },
                first ==> pos >= offset,
                !first ==> bytes_consumed >= 2,
                !first ==> offset + bytes_consumed <= buffer@.len(),
                pointer_depth <= 100,
                labels_of(labels@) == ls,
                labels_ok(ls),
                total == if text_len(ls) > 256 {
                    256
                } else {
                    text_len(ls)
                },
                spec_parse_name(buffer@, offset as int, original_buffer@) == finish_name(
                    walk(
                        buffer@,
                        original_buffer@,
                        offset as int,
                        first,
                        pos as int,
                        pointer_depth as nat,
                        ls,
                        bytes_consumed as int,
                    ),
                ),
            decreases 100 - pointer_depth, current_buffer@.len() - pos,
        {
            if pos >= current_buffer.len() {
                return Err(Error::Underrun);
            }
            let label_len = current_buffer[pos];
            if (label_len & 0xC0u8) == 0xC0u8 {
                if pos + 1 >= current_buffer.len() {
                    return Err(Error::Underrun);
                }
                let pointer_offset: usize = ((label_len & 0x3Fu8) as usize) * 256
                    + (current_buffer[pos + 1] as usize);
                if first {
                    bytes_consumed = pos - offset + 2;
                }
                if pointer_offset >= original_buffer.len() {
                    return Err(Error::InvalidCompressionPointer);
                }
                if pointer_offset >= offset && pointer_offset >= pos {
                    return Err(Error::InvalidCompressionPointer);
                }
                if pointer_depth >= MAX_POINTER_DEPTH {
                    return Err(Error::CompressionLoop);
                }
                pointer_depth = pointer_depth + 1;
                pos = pointer_offset;
                current_buffer = original_buffer;
                first = false;
                continue ;
            }
            let len = label_len as usize;
            if len == 0 {
                if first {
                    bytes_consumed = pos - offset + 1;
                }
                if total + 1 > MAX_NAME_LENGTH {
                    return Err(Error::InvalidName);
                }
                return Ok((DnsName { labels }, bytes_consumed));
            }
            if len > MAX_LABEL_LENGTH {
                return Err(Error::InvalidName);
            }
            if len > current_buffer.len() - pos - 1 {
                return Err(Error::Underrun);
            }
            let label_bytes = slice_subrange(current_buffer, pos + 1, pos + 1 + len);
            if !is_valid_wire_label(label_bytes, labels.len() == 0) {
                return Err(Error::InvalidName);
            }
            proof {
                lemma_valid_label_ascii(label_bytes@, ls.len() == 0);
                lemma_text_len_push(ls, label_bytes@);
            }
            let label = string_from_ascii(label_bytes);
            labels.push(label);
            proof {
                let old_ls = ls;
                ls = ls.push(label_bytes@);
                assert(labels_of(labels@) =~= ls);
                assert forall|k: int| 0 <= k < ls.len() implies 1 <= (#[trigger] ls[k]).len()
                    <= 63 && valid_label(ls[k], k == 0) by {
                    if k < ls.len() - 1 {
                        assert(ls[k] == old_ls[k]);
                    }
                }
            }
            total = if total + len + 1 > 256 {
                256
            } else {
                total + len + 1
            };
            pos = pos + len + 1;
        }
    }

    /// Writes the name at the end of `buffer`, compressing against the
    /// suffixes recorded in `name_positions` and recording the new ones.
    /// Returns the number of bytes written.
    pub fn write(&self, buffer: &mut Vec<u8>, name_positions: &mut NamePositions) -> (r: usize)
        ensures
            ({
                let (bytes, p) = spec_write_name(
                    self@,
                    old(buffer)@.len(),
                    old(name_positions)@,
                );
                &&& final(buffer)@ == old(buffer)@ + bytes
                &&& final(name_positions)@ == p
                &&& r == bytes.len()
            }),
    {
        proof {
            use_type_invariant(self);
        }
        let ghost ls = self@;
        let ghost b0 = buffer@;
        let ghost p_init = name_positions@;
        let ghost start = b0.len();
        let ghost mut out: Seq<u8> = seq![];
        let start_pos = buffer.len();
        let mut i: usize = 0;
        assert(buffer@ =~= b0 + out);
        while i < self.labels.len()
            invariant
                ls == self@,
                ls == labels_of(self.labels@),
                valid_name(ls),
                i <= ls.len(),
                start == start_pos,
                start == b0.len(),
                b0 == old(buffer)@,
                p_init == old(name_positions)@,
                buffer@ == b0 + out,
                spec_write_name(ls, start, p_init) == write_labels(
                    ls,
                    i as nat,
                    start,
                    name_positions@,
                    out,
                ),
            decreases ls.len() - i,
        {
            match name_positions.find_suffix(self.labels.as_slice(), i) {
                Some(pos) => {
                    let pointer: u16 = 0xC000u16 | (#[verifier::truncate] (pos as u16));
                    push_u16(buffer, pointer);
                    proof {
                        out = out + pointer_bytes(pos);
                        assert(buffer@ =~= b0 + out);
                    }
                    assert(buffer@.len() >= start_pos);
                    return buffer.len() - start_pos;
                },
                None => {},
            }
            let ghost p0 = name_positions@;
            let ghost out0 = out;
            if i + 1 < self.labels.len() {
                let suffix = clone_suffix(&self.labels, i);
                name_positions.push(suffix, buffer.len());
            }
            let b = string_bytes(&self.labels[i]);
            assert(b@ == ls[i as int]);
            buffer.push(b.len() as u8);
            push_bytes(buffer, b);
            proof {
                out = out + seq![ls[i as int].len() as u8] + ls[i as int];
                assert(buffer@ =~= b0 + out);
                assert(name_positions@ == if i + 1 < ls.len() {
                    p0.push((ls.skip(i as int), (start + out0.len()) as usize))
                } else {
                    p0
                });
                assert(write_labels(ls, i as nat, start, p0, out0) == write_labels(
                    ls,
                    (i + 1) as nat,
                    start,
                    name_positions@,
                    out,
                ));
            }
            i = i + 1;
        }
        buffer.push(0u8);
        proof {
            out = out.push(0u8);
            assert(buffer@ =~= b0 + out);
        }
        buffer.len() - start_pos
    }
}

/// A copy of the labels from index `i` on.
fn clone_suffix(labels: &Vec<String>, i: usize) -> (r: Vec<String>)
    requires
        i <= labels@.len(),
    ensures
        labels_of(r@) == labels_of(labels@).skip(i as int),
{
    let mut r: Vec<String> = Vec::new();
    let mut k: usize = i;
    while k < labels.len()
        invariant
            i <= k <= labels@.len(),
            labels_of(r@) == labels_of(labels@).subrange(i as int, k as int),
        decreases labels@.len() - k,
    {
        let l = labels[k].clone();
        assert(l == labels@[k as int]);
        proof {
            lemma_labels_of_push(r@, l);
        }
        r.push(l);
        k = k + 1;
        assert(labels_of(r@) =~= labels_of(labels@).subrange(i as int, k as int));
    }
    assert(labels_of(labels@).subrange(i as int, k as int) =~= labels_of(labels@).skip(i as int));
    r
}

/// Whether `key` holds exactly the labels of `labels` from index `i` on.
fn suffix_equals(key: &Vec<String>, labels: &[String], i: usize) -> (r: bool)
    requires
        i <= labels@.len(),
    ensures
        r == (labels_of(key@) == labels_of(labels@).skip(i as int)),
{
    let ghost k = labels_of(key@);
    let ghost s = labels_of(labels@).skip(i as int);
    if key.len() != labels.len() - i {
        assert(k.len() != s.len());
        return false;
    }
    let mut j: usize = 0;
    while j < key.len()
        invariant
            j <= key@.len(),
            i <= labels@.len(),
            key@.len() == labels@.len() - i,
            k == labels_of(key@),
            s == labels_of(labels@).skip(i as int),
            forall|m: int| 0 <= m < j ==> #[trigger] k[m] == s[m],
        decreases key@.len() - j,
    {
        assert(labels@.len() == labels.len());
        let same = key[j] == labels[i + j];
        proof {
            lemma_text_bytes_injective(key@[j as int], labels@[i + j]);
        }
        if !same {
            assert(k[j as int] != s[j as int]);
            return false;
        }
        j = j + 1;
    }
    assert(k =~= s);
    true
}

impl NamePositions {
    /// No positions recorded.
    pub fn new() -> (r: Self)
        ensures
            r@ == Seq::<(Labels, usize)>::empty(),
    {
        NamePositions { entries: Vec::new() }
    }

    /// The number of recorded positions.
    pub fn len(&self) -> (r: usize)
        ensures
            r == self@.len(),
    {
        self.entries.len()
    }

    /// The position recorded for the name whose labels are `labels`: the
    /// earliest entry with that key, if any.
    pub fn get(&self, labels: &[String]) -> (r: Option<usize>)
        ensures
            r == lookup(self@, labels_of(labels@)),
    {
        let r = self.find_suffix(labels, 0);
        assert(labels_of(labels@).skip(0) =~= labels_of(labels@));
        r
    }

    /// The position recorded for the labels of `labels` from index `i` on.
    fn find_suffix(&self, labels: &[String], i: usize) -> (r: Option<usize>)
        requires
            i <= labels@.len(),
        ensures
            r == lookup(self@, labels_of(labels@).skip(i as int)),
    {
        let ghost key = labels_of(labels@).skip(i as int);
        let mut j: usize = 0;
        assert(self@.skip(0) =~= self@);
        while j < self.entries.len()
            invariant
                i <= labels@.len(),
                j <= self@.len(),
                self@.len() == self.entries@.len(),
                key == labels_of(labels@).skip(i as int),
                lookup(self@, key) == lookup(self@.skip(j as int), key),
            decreases self@.len() - j,
        {
            let ghost rest = self@.skip(j as int);
            assert(rest[0] == self@[j as int]);
            if suffix_equals(&self.entries[j].0, labels, i) {
                return Some(self.entries[j].1);
            }
            assert(rest.drop_first() =~= self@.skip(j + 1));
            j = j + 1;
        }
        assert(self@.skip(j as int) =~= Seq::<(Labels, usize)>::empty());
        None
    }

    /// Records `pos` for the labels `key`, after the existing entries.
    fn push(&mut self, key: Vec<String>, pos: usize)
        ensures
            final(self)@ == old(self)@.push((labels_of(key@), pos)),
    {
        self.entries.push((key, pos));
        assert(self@ =~= old(self)@.push((labels_of(key@), pos)));
    }
}

/// Bytes without a dot extend the last piece.
proof fn lemma_dot_parts_append(t: Seq<u8>, x: Seq<u8>)
    requires
        forall|i: int| 0 <= i < x.len() ==> #[trigger] x[i] != 0x2Eu8,
    ensures
        dot_parts(t + x) == dot_parts(t).update(
            dot_parts(t).len() - 1,
            dot_parts(t).last() + x,
        ),
    decreases x.len(),
{
    lemma_dot_parts_nonempty(t);
    let p = dot_parts(t);
    if x.len() == 0 {
        assert(t + x =~= t);
        assert(p.last() + x =~= p.last());
        assert(p.update(p.len() - 1, p.last()) =~= p);
    } else {
        let y = x.drop_last();
        assert(forall|i: int| 0 <= i < y.len() ==> #[trigger] y[i] == x[i]);
        lemma_dot_parts_append(t, y);
        assert((t + x).drop_last() =~= t + y);
        assert((t + x).last() == x.last());
        let q = dot_parts(t + y);
        assert(q.len() == p.len());
        assert(q.last() == p.last() + y);
        assert(dot_parts(t + x) == q.update(q.len() - 1, q.last().push(x.last())));
        assert(q.last().push(x.last()) =~= p.last() + x);
        assert(dot_parts(t + x) =~= p.update(p.len() - 1, p.last() + x));
    }
}

/// A valid label holds no dot.
proof fn lemma_label_no_dot(l: Seq<u8>, leftmost: bool)
    requires
        valid_label(l, leftmost),
    ensures
        forall|i: int| 0 <= i < l.len() ==> #[trigger] l[i] != 0x2Eu8,
{
    if l != seq![0x2Au8] {
        assert forall|i: int| 0 <= i < l.len() implies #[trigger] l[i] != 0x2Eu8 by {
            assert(is_label_byte(l[i]));
        }
    }
}

/// Splitting labels joined by dots gives the labels back.
proof fn lemma_split_join(ls: Labels)
    requires
        ls.len() >= 1,
        labels_ok(ls),
    ensures
        dot_parts(join_dots(ls)) == ls,
    decreases ls.len(),
{
    let last = ls.last();
    lemma_label_no_dot(last, ls.len() - 1 == 0);
    if ls.len() == 1 {
        lemma_dot_parts_append(seq![], last);
        assert(seq![] + last =~= last);
        assert(dot_parts(Seq::<u8>::empty()).update(0, Seq::<u8>::empty() + last) =~= ls);
    } else {
        let init = ls.drop_last();
        assert forall|i: int| 0 <= i < init.len() implies 1 <= (#[trigger] init[i]).len() <= 63
            && valid_label(init[i], i == 0) by {
            assert(init[i] == ls[i]);
        }
        lemma_split_join(init);
        let j = join_dots(init) + seq![0x2Eu8];
        assert((join_dots(init) + seq![0x2Eu8]).drop_last() =~= join_dots(init));
        assert(dot_parts(j) == init.push(seq![]));
        lemma_dot_parts_append(j, last);
        assert(init.push(seq![]).update(init.len() as int, Seq::<u8>::empty() + last) =~= ls);
    }
}

/// Keeping the non-empty pieces of non-empty pieces keeps them all.
proof fn lemma_keep_all(ls: Labels)
    requires
        forall|i: int| 0 <= i < ls.len() ==> (#[trigger] ls[i]).len() >= 1,
    ensures
        keep_nonempty(ls) == ls,
    decreases ls.len(),
{
    if ls.len() > 0 {
        let init = ls.drop_last();
        assert(forall|i: int| 0 <= i < init.len() ==> #[trigger] init[i] == ls[i]);
        lemma_keep_all(init);
        assert(init.push(ls.last()) =~= ls);
    }
}

/// The text of a valid name builds that name again: what `to_string` gives,
/// `new` turns back into the same labels.
pub proof fn lemma_name_text_roundtrip(ls: Labels)
    requires
        valid_name(ls),
    ensures
        spec_new_name(name_text(ls)) == Ok::<Labels, Error>(ls),
{
    if ls.len() == 0 {
        let t = seq![0x2Eu8];
        assert(t.drop_last() =~= Seq::<u8>::empty());
        assert(dot_parts(Seq::<u8>::empty()) == seq![Seq::<u8>::empty()]);
        assert(dot_parts(t) =~= seq![Seq::<u8>::empty(), Seq::<u8>::empty()]);
        let ps = dot_parts(t);
        assert(ps.drop_last() =~= seq![Seq::<u8>::empty()]);
        assert(ps.drop_last().drop_last() =~= Seq::<Seq<u8>>::empty());
        assert(keep_nonempty(ps.drop_last().drop_last()) =~= Seq::<Seq<u8>>::empty());
        assert(keep_nonempty(ps.drop_last()) =~= Seq::<Seq<u8>>::empty());
        assert(keep_nonempty(ps) =~= ls);
    } else {
        lemma_split_join(ls);
        lemma_keep_all(ls);
    }
}

} // verus!
