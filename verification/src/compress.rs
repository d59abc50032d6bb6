//! Why names written with compression decode to themselves.
//!
//! A recorded position is trustworthy when the labels that can be read from
//! it (following pointers that only lead backwards) are exactly its key,
//! within a bounded number of pointers.  Writing a name keeps every recorded
//! position trustworthy, and the name just written reads back in full.
use vstd::prelude::*;

use crate::name::{
    labels_ok, lookup, pointer_bytes, spec_parse_name, spec_write_name, valid_name, walk,
    write_labels, Labels,
};


verus! {

/// The labels readable at `p`: labels in place, ended by a zero byte or by a
/// pointer to an earlier position; at most `fuel` pointers are followed.
pub open spec fn chain(b: Seq<u8>, p: int, fuel: nat) -> Option<Labels>
    decreases fuel, b.len() - p,
{
    if p < 0 || p >= b.len() {
        None
    } else if b[p] & 0xC0u8 == 0xC0u8 {
        if p + 1 >= b.len() {
            None
        } else {
            let po = (b[p] & 0x3Fu8) as int * 256 + b[p + 1] as int;
            if po >= p || fuel == 0 {
                None
            } else {
                chain(b, po, (fuel - 1) as nat)
            }
        }
    } else if b[p] == 0 {
        Some(seq![])
    } else if b[p] > 63 {
        None
    } else if p + 1 + b[p] > b.len() {
        None
    } else {
        match chain(b, p + 1 + b[p], fuel) {
            Some(r) => Some(seq![b.subrange(p + 1, p + 1 + b[p])] + r),
            None => None,
        }
    }
}

/// How many bytes at `p` belong to the name in place: its labels up to and
/// including the first pointer or the terminal zero.
pub open spec fn chain_span(b: Seq<u8>, p: int) -> int
    decreases b.len() - p,
{
    if p < 0 || p >= b.len() {
        0
    } else if b[p] & 0xC0u8 == 0xC0u8 {
        2
    } else if b[p] == 0 {
        1
    } else if b[p] > 63 || p + 1 + b[p] > b.len() {
        0
    } else {
        1 + b[p] + chain_span(b, p + 1 + b[p])
    }
}

/// Every recorded position that a pointer can reach (below 0x4000) reads
/// back in `b` as its key within the decoder's budget of 100 pointers.
pub open spec fn positions_valid(p: Seq<(Labels, usize)>, b: Seq<u8>) -> bool {
    forall|j: int|
        0 <= j < p.len() ==> {
            let (key, pos) = #[trigger] p[j];
            pos < 0x4000 ==> chain(b, pos as int, 100) == Some(key)
        }
}

/// A name that can be written and read back: its labels are valid and it
/// takes at most 255 bytes on the wire.
pub open spec fn name_encodable(n: Labels) -> bool {
    valid_name(n)
}

/// The first step from `i` on at which writing `n` against the positions `p`
/// finds its remaining suffix recorded (and writes a pointer), or the number
/// of labels when it never does.
pub open spec fn first_hit(n: Labels, i: nat, p: Seq<(Labels, usize)>) -> nat
    decreases n.len() - i,
{
    if i >= n.len() {
        n.len()
    } else if lookup(p, n.skip(i as int)) is Some {
        i
    } else {
        first_hit(n, i + 1, p)
    }
}

/// The pointer that writing `n` from step `i` on ends with, if any, can be
/// followed back: it targets a position below 0x4000 whose labels read back,
/// within the 99 further pointers the decoder still allows, as the suffix.
pub open spec fn pointer_fits(n: Labels, i: nat, b: Seq<u8>, p: Seq<(Labels, usize)>) -> bool {
    let h = first_hit(n, i, p);
    h < n.len() ==> {
        let pos = lookup(p, n.skip(h as int)).unwrap();
        &&& pos < 0x4000
        &&& chain(b, pos as int, 99) == Some(n.skip(h as int))
    }
}

/// Writing `n` after `b` against the positions `p` gives bytes that read back:
/// the pointer it may end with can be followed back, and the bytes fit in
/// memory.
pub open spec fn name_fits(n: Labels, b: Seq<u8>, p: Seq<(Labels, usize)>) -> bool {
    &&& pointer_fits(n, 0, b, p)
    &&& b.len() + spec_write_name(n, b.len(), p).0.len() <= usize::MAX
}

proof fn lemma_pointer_decodes(q: u16)
    requires
        q < 0x4000,
    ensures
        ({
            let v: u16 = 0xC000u16 | q;
            let b0 = (v / 256) as u8;
            let b1 = (v % 256) as u8;
            &&& b0 & 0xC0u8 == 0xC0u8
            &&& (b0 & 0x3Fu8) as int * 256 + b1 as int == q as int
        }),
{
    assert(({
        let v: u16 = 0xC000u16 | q;
        let b0 = (v / 256) as u8;
        let b1 = (v % 256) as u8;
        &&& b0 & 0xC0u8 == 0xC0u8
        &&& (b0 & 0x3Fu8) as u16 * 256 + b1 as u16 == q
    })) by (bit_vector)
        requires
            q < 0x4000,
    ;
}

proof fn lemma_small_byte(b: u8)
    requires
        b < 64,
    ensures
        b & 0xC0u8 != 0xC0u8,
{
    assert(b < 64 ==> b & 0xC0u8 != 0xC0u8) by (bit_vector);
}

/// Bytes appended after a readable name do not change what it reads as.
pub proof fn lemma_chain_extend(b: Seq<u8>, c: Seq<u8>, p: int, fuel: nat)
    requires
        chain(b, p, fuel) is Some,
    ensures
        chain(b + c, p, fuel) == chain(b, p, fuel),
        chain_span(b + c, p) == chain_span(b, p),
    decreases fuel, b.len() - p,
{
    let bc = b + c;
    assert(bc[p] == b[p]);
    if b[p] & 0xC0u8 == 0xC0u8 {
        assert(bc[p + 1] == b[p + 1]);
        let po = (b[p] & 0x3Fu8) as int * 256 + b[p + 1] as int;
        lemma_chain_extend(b, c, po, (fuel - 1) as nat);
    } else if b[p] == 0 {
    } else {
        let q = p + 1 + b[p];
        lemma_chain_extend(b, c, q, fuel);
        assert(bc.subrange(p + 1, q) =~= b.subrange(p + 1, q));
    }
}

/// More pointers allowed read the same labels.
pub proof fn lemma_chain_fuel(b: Seq<u8>, p: int, fuel: nat, more: nat)
    requires
        chain(b, p, fuel) is Some,
        fuel <= more,
    ensures
        chain(b, p, more) == chain(b, p, fuel),
    decreases fuel, b.len() - p,
{
    if b[p] & 0xC0u8 == 0xC0u8 {
        let po = (b[p] & 0x3Fu8) as int * 256 + b[p + 1] as int;
        lemma_chain_fuel(b, po, (fuel - 1) as nat, (more - 1) as nat);
    } else if b[p] == 0 {
    } else {
        lemma_chain_fuel(b, p + 1 + b[p], fuel, more);
    }
}

/// After the first pointer, the decoder reads what `chain` reads.
pub proof fn lemma_walk_after_pointer(
    buf: Seq<u8>,
    orig: Seq<u8>,
    offset: int,
    p: int,
    depth: nat,
    fuel: nat,
    acc: Labels,
    consumed: int,
)
    requires
        chain(orig, p, fuel) is Some,
        depth + fuel <= 100,
        labels_ok(acc + chain(orig, p, fuel).unwrap()),
    ensures
        walk(buf, orig, offset, false, p, depth, acc, consumed) == Ok::<(Labels, int), crate::error::Error>(
            (acc + chain(orig, p, fuel).unwrap(), consumed),
        ),
    decreases fuel, orig.len() - p,
{
    let k = chain(orig, p, fuel).unwrap();
    let b = orig[p];
    if b & 0xC0u8 == 0xC0u8 {
        let po = (b & 0x3Fu8) as int * 256 + orig[p + 1] as int;
        lemma_walk_after_pointer(buf, orig, offset, po, depth + 1, (fuel - 1) as nat, acc, consumed);
    } else if b == 0 {
        assert(acc + k =~= acc);
    } else {
        let q = p + 1 + b;
        let l = orig.subrange(p + 1, q);
        let rest = chain(orig, q, fuel).unwrap();
        assert(k == seq![l] + rest);
        assert(acc + k =~= acc.push(l) + rest);
        assert((acc + k)[acc.len() as int] == l);
        lemma_walk_after_pointer(buf, orig, offset, q, depth, fuel, acc.push(l), consumed);
    }
}

/// From the start of a name, the decoder reads what `chain` reads and takes
/// the bytes of the name in place.
pub proof fn lemma_walk_first(m: Seq<u8>, offset: int, p: int, fuel: nat, acc: Labels)
    requires
        chain(m, p, fuel) is Some,
        fuel <= 100,
        offset <= p,
        labels_ok(acc + chain(m, p, fuel).unwrap()),
    ensures
        walk(m, m, offset, true, p, 0, acc, 0) == Ok::<(Labels, int), crate::error::Error>(
            (acc + chain(m, p, fuel).unwrap(), p - offset + chain_span(m, p)),
        ),
    decreases fuel, m.len() - p,
{
    let k = chain(m, p, fuel).unwrap();
    let b = m[p];
    if b & 0xC0u8 == 0xC0u8 {
        let po = (b & 0x3Fu8) as int * 256 + m[p + 1] as int;
        lemma_walk_after_pointer(m, m, offset, po, 1, (fuel - 1) as nat, acc, p - offset + 2);
    } else if b == 0 {
        assert(acc + k =~= acc);
    } else {
        let q = p + 1 + b;
        let l = m.subrange(p + 1, q);
        let rest = chain(m, q, fuel).unwrap();
        assert(k == seq![l] + rest);
        assert(acc + k =~= acc.push(l) + rest);
        assert((acc + k)[acc.len() as int] == l);
        lemma_walk_first(m, offset, q, fuel, acc.push(l));
    }
}

/// The entry found for a key is one of the recorded entries.
pub proof fn lemma_lookup_found(p: Seq<(Labels, usize)>, key: Labels)
    requires
        lookup(p, key) is Some,
    ensures
        exists|j: int| 0 <= j < p.len() && #[trigger] p[j] == (key, lookup(p, key).unwrap()),
    decreases p.len(),
{
    if p[0].0 != key {
        lemma_lookup_found(p.drop_first(), key);
        let j = choose|j: int|
            0 <= j < p.drop_first().len() && #[trigger] p.drop_first()[j] == (
                key,
                lookup(p.drop_first(), key).unwrap(),
            );
        assert(p[j + 1] == p.drop_first()[j]);
    } else {
        assert(p[0] == (key, lookup(p, key).unwrap()));
    }
}

/// Entries recorded after the ones holding a key do not change its lookup.
pub proof fn lemma_lookup_append(p: Seq<(Labels, usize)>, q: Seq<(Labels, usize)>, key: Labels)
    requires
        forall|e: int| 0 <= e < q.len() ==> (#[trigger] q[e]).0 != key,
    ensures
        lookup(p + q, key) == lookup(p, key),
    decreases p.len(),
{
    if p.len() == 0 {
        assert(p + q =~= q);
        lemma_lookup_absent(q, key);
    } else {
        assert((p + q)[0] == p[0]);
        assert((p + q).drop_first() =~= p.drop_first() + q);
        lemma_lookup_append(p.drop_first(), q, key);
    }
}

proof fn lemma_lookup_absent(q: Seq<(Labels, usize)>, key: Labels)
    requires
        forall|e: int| 0 <= e < q.len() ==> (#[trigger] q[e]).0 != key,
    ensures
        lookup(q, key) is None,
    decreases q.len(),
{
    if q.len() > 0 {
        assert(q[0].0 != key);
        assert forall|e: int| 0 <= e < q.drop_first().len() implies (
        #[trigger] q.drop_first()[e]).0 != key by {
            assert(q.drop_first()[e] == q[e + 1]);
        }
        lemma_lookup_absent(q.drop_first(), key);
    }
}

/// The bytes written from step `i` of writing `n`, and what can be read from
/// them.  `pi` holds the original positions `p0` followed by those recorded
/// in the earlier steps, whose keys are all longer than the rest of `n`.
proof fn lemma_write_labels(
    n: Labels,
    i: nat,
    pi: Seq<(Labels, usize)>,
    out: Seq<u8>,
    b: Seq<u8>,
    p0: Seq<(Labels, usize)>,
)
    requires
        valid_name(n),
        i <= n.len(),
        positions_valid(p0, b),
        p0.len() <= pi.len(),
        pi.subrange(0, p0.len() as int) == p0,
        forall|e: int| p0.len() <= e < pi.len() ==> (#[trigger] pi[e]).0.len() > n.len() - i,
        pointer_fits(n, i, b, p0),
        b.len() + write_labels(n, i, b.len(), pi, out).0.len() <= usize::MAX,
    ensures
        ({
            let (w, p2) = write_labels(n, i, b.len(), pi, out);
            let bw = b + w;
            let at: int = b.len() as int + out.len();
            &&& out.len() <= w.len()
            &&& w.subrange(0, out.len() as int) == out
            &&& pi.len() <= p2.len()
            &&& p2.subrange(0, pi.len() as int) == pi
            &&& positions_valid(p2.subrange(pi.len() as int, p2.len() as int), bw)
            &&& chain(
                bw,
                at,
                if first_hit(n, i, p0) < n.len() {
                    100
                } else {
                    0
                },
            ) == Some(n.skip(i as int))
            &&& chain_span(bw, at) == w.len() - out.len()
        }),
    decreases n.len() - i,
{
    let (w, p2) = write_labels(n, i, b.len(), pi, out);
    let bw = b + w;
    let at: int = b.len() as int + out.len();
    let len = n.len();
    let q = pi.subrange(p0.len() as int, pi.len() as int);
    assert(pi =~= p0 + q);
    if i >= len {
        assert(n.skip(i as int) =~= Seq::<Seq<u8>>::empty());
        assert(w == out.push(0u8));
        assert(bw[at] == 0u8);
        lemma_small_byte(0u8);
        assert(p2.subrange(pi.len() as int, p2.len() as int) =~= Seq::<(Labels, usize)>::empty());
        assert(w.subrange(0, out.len() as int) =~= out);
    } else {
        let key = n.skip(i as int);
        assert forall|e: int| 0 <= e < q.len() implies (#[trigger] q[e]).0 != key by {
            assert(q[e] == pi[p0.len() + e]);
        }
        lemma_lookup_append(p0, q, key);
        match lookup(pi, key) {
            Some(pos) => {
                lemma_lookup_found(p0, key);
                let j = choose|j: int| 0 <= j < p0.len() && #[trigger] p0[j] == (key, pos);
                assert(p0[j] == (key, pos));
                assert(key.len() == len - i);
                assert(first_hit(n, i, p0) == i);
                assert(pos < 0x4000);
                assert(chain(b, pos as int, 99) == Some(key));
                lemma_chain_extend(b, w, pos as int, 99);
                assert(w == out + pointer_bytes(pos));
                lemma_pointer_decodes(pos as u16);
                assert(bw[at] == w[out.len() as int]);
                assert(bw[at + 1] == w[out.len() as int + 1]);
                assert(pos < b.len());
                assert(p2.subrange(pi.len() as int, p2.len() as int) =~= Seq::<
                    (Labels, usize),
                >::empty());
                assert(w.subrange(0, out.len() as int) =~= out);
            },
            None => {
                let pi2 = if i + 1 < len {
                    pi.push((key, (b.len() + out.len()) as usize))
                } else {
                    pi
                };
                let l = n[i as int];
                let out2 = out + seq![l.len() as u8] + l;
                assert(write_labels(n, i, b.len(), pi, out) == write_labels(
                    n,
                    i + 1,
                    b.len(),
                    pi2,
                    out2,
                ));
                assert(pi2.subrange(0, p0.len() as int) =~= p0) by {
                    assert forall|e: int| 0 <= e < p0.len() implies pi2[e] == p0[e] by {
                        assert(pi[e] == p0[e]);
                    }
                }
                assert(first_hit(n, i, p0) == first_hit(n, i + 1, p0));
                assert forall|e: int| p0.len() <= e < pi2.len() implies (
                #[trigger] pi2[e]).0.len() > n.len() - (i + 1) by {
                    if e < pi.len() {
                        assert(pi2[e] == pi[e]);
                    }
                }
                lemma_write_labels(n, i + 1, pi2, out2, b, p0);
                let at2: int = b.len() as int + out2.len();
                // what `w` holds at `at`
                assert(w.subrange(0, out2.len() as int) == out2);
                assert(w.subrange(0, out.len() as int) =~= out) by {
                    assert forall|k: int| 0 <= k < out.len() implies w[k] == out[k] by {
                        assert(w[k] == w.subrange(0, out2.len() as int)[k]);
                        assert(out2[k] == out[k]);
                    }
                }
                assert(bw[at] == l.len() as u8) by {
                    assert(w[out.len() as int] == w.subrange(0, out2.len() as int)[out.len() as int]);
                    assert(out2[out.len() as int] == l.len() as u8);
                }
                assert(1 <= l.len() <= 63);
                lemma_small_byte(l.len() as u8);
                assert(bw.subrange(at + 1, at2) =~= l) by {
                    assert forall|k: int| 0 <= k < l.len() implies bw[at + 1 + k] == l[k] by {
                        assert(bw[at + 1 + k] == w[out.len() + 1 + k]);
                        assert(w[out.len() + 1 + k] == w.subrange(0, out2.len() as int)[out.len()
                            + 1 + k]);
                        assert(out2[out.len() + 1 + k] == l[k]);
                    }
                }
                assert(n.skip(i as int) =~= seq![l] + n.skip(i as int + 1));
                let fuel: nat = if first_hit(n, i, p0) < n.len() {
                    100
                } else {
                    0
                };
                assert(chain(bw, at2, fuel) == Some(n.skip(i as int + 1)));
                assert(chain(bw, at, fuel) == Some(n.skip(i as int)));
                lemma_chain_fuel(bw, at, fuel, 100);
                // the positions recorded from here on
                let new2 = p2.subrange(pi2.len() as int, p2.len() as int);
                let new1 = p2.subrange(pi.len() as int, p2.len() as int);
                assert(p2.subrange(0, pi.len() as int) =~= pi) by {
                    assert forall|e: int| 0 <= e < pi.len() implies p2[e] == pi[e] by {
                        assert(p2[e] == p2.subrange(0, pi2.len() as int)[e]);
                        assert(pi2[e] == pi[e]);
                    }
                }
                assert forall|e: int| 0 <= e < new1.len() implies {
                    let (kk, pp) = #[trigger] new1[e];
                    pp < 0x4000 ==> chain(bw, pp as int, 100) == Some(kk)
                } by {
                    if i + 1 < len && e == 0 {
                        assert(new1[0] == p2[pi.len() as int]);
                        assert(p2[pi.len() as int] == p2.subrange(0, pi2.len() as int)[pi.len()
                            as int]);
                        assert(new1[0] == (key, (b.len() + out.len()) as usize));
                        assert(out2.len() <= w.len());
                        assert(at < bw.len());
                    } else {
                        let off: int = if i + 1 < len {
                            1
                        } else {
                            0
                        };
                        assert(new1[e] == new2[e - off]);
                    }
                }
            },
        }
    }
}

/// The first hit lies between `i` and the number of labels, and there the
/// suffix is recorded.
proof fn lemma_first_hit(n: Labels, i: nat, p: Seq<(Labels, usize)>)
    requires
        i <= n.len(),
    ensures
        i <= first_hit(n, i, p) <= n.len(),
        first_hit(n, i, p) < n.len() ==> lookup(p, n.skip(first_hit(n, i, p) as int)) is Some,
    decreases n.len() - i,
{
    if i < n.len() && lookup(p, n.skip(i as int)) is None {
        lemma_first_hit(n, i + 1, p);
    }
}

/// Against no recorded positions a name is written without pointers, so it
/// fits whatever its number of labels, as long as its bytes fit in memory.
pub proof fn lemma_fresh_name_fits(n: Labels, b: Seq<u8>)
    requires
        b.len() + spec_write_name(n, b.len(), Seq::<(Labels, usize)>::empty()).0.len() <= usize::MAX,
    ensures
        name_fits(n, b, Seq::<(Labels, usize)>::empty()),
{
    lemma_first_hit(n, 0, Seq::<(Labels, usize)>::empty());
}

/// A name written with compression against trustworthy positions reads back
/// as itself from where it was written, whatever follows it, taking exactly
/// the bytes written, as long as the pointer it may end with can be followed
/// back; and all positions recorded afterwards are trustworthy.
pub proof fn lemma_name_roundtrip(
    n: Labels,
    b: Seq<u8>,
    p: Seq<(Labels, usize)>,
    rest: Seq<u8>,
)
    requires
        name_encodable(n),
        positions_valid(p, b),
        name_fits(n, b, p),
    ensures
        ({
            let (w, p2) = spec_write_name(n, b.len(), p);
            &&& spec_parse_name(b + w + rest, b.len() as int, b + w + rest) == Ok::<
                (Labels, usize),
                crate::error::Error,
            >((n, w.len() as usize))
            &&& positions_valid(p2, b + w)
            &&& p2.subrange(0, p.len() as int) == p
            &&& w.len() >= 1
        }),
{
    let (w, p2) = spec_write_name(n, b.len(), p);
    assert(p.subrange(0, p.len() as int) =~= p);
    lemma_write_labels(n, 0, p, seq![], b, p);
    let bw = b + w;
    let m = bw + rest;
    let fuel: nat = if first_hit(n, 0, p) < n.len() {
        100
    } else {
        0
    };
    assert(n.skip(0) =~= n);
    assert(chain(bw, b.len() as int, fuel) == Some(n));
    lemma_chain_extend(bw, rest, b.len() as int, fuel);
    assert(seq![] + n =~= n);
    lemma_walk_first(m, b.len() as int, b.len() as int, fuel, seq![]);
    assert(b + w + rest == m);
    assert(positions_valid(p2, bw)) by {
        let new1 = p2.subrange(p.len() as int, p2.len() as int);
        assert forall|j: int| 0 <= j < p2.len() implies {
            let (key, pos) = #[trigger] p2[j];
            pos < 0x4000 ==> chain(bw, pos as int, 100) == Some(key)
        } by {
            if j < p.len() {
                assert(p2[j] == p2.subrange(0, p.len() as int)[j]);
                assert(p[j] == p2[j]);
                if p[j].1 < 0x4000 {
                    lemma_chain_extend(b, w, p[j].1 as int, 100);
                }
            } else {
                assert(p2[j] == new1[j - p.len()]);
            }
        }
    }
}

/// Trustworthy positions stay trustworthy when bytes are appended.
pub proof fn lemma_positions_extend(p: Seq<(Labels, usize)>, b: Seq<u8>, c: Seq<u8>)
    requires
        positions_valid(p, b),
    ensures
        positions_valid(p, b + c),
{
    assert forall|j: int| 0 <= j < p.len() implies {
        let (key, pos) = #[trigger] p[j];
        pos < 0x4000 ==> chain(b + c, pos as int, 100) == Some(key)
    } by {
        if p[j].1 < 0x4000 {
            lemma_chain_extend(b, c, p[j].1 as int, 100);
        }
    }
}

/// No positions are trivially trustworthy.
pub proof fn lemma_positions_empty(b: Seq<u8>)
    ensures
        positions_valid(Seq::<(Labels, usize)>::empty(), b),
{
}

} // verus!
