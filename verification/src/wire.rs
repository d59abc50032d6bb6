//! Big-endian integers and byte runs as they appear on the wire.
use vstd::prelude::*;

verus! {

/// The two big-endian bytes of a 16-bit value.
pub open spec fn be16(v: u16) -> Seq<u8> {
    seq![(v / 256) as u8, (v % 256) as u8]
}

/// The four big-endian bytes of a 32-bit value.
pub open spec fn be32(v: u32) -> Seq<u8> {
    seq![(v / 0x100_0000) as u8, ((v / 0x1_0000) % 256) as u8, ((v / 256) % 256) as u8, (v % 256) as u8]
}

/// The 16-bit value stored big-endian at index `i` of `s`.
pub open spec fn u16_at(s: Seq<u8>, i: int) -> u16 {
    (s[i] as int * 256 + s[i + 1] as int) as u16
}

/// The 32-bit value stored big-endian at index `i` of `s`.
pub open spec fn u32_at(s: Seq<u8>, i: int) -> u32 {
    (s[i] as int * 0x100_0000 + s[i + 1] as int * 0x1_0000 + s[i + 2] as int * 256 + s[i
        + 3] as int) as u32
}

/// Reading a big-endian value back from where it was written gives it back.
pub proof fn lemma_be16_roundtrip(pre: Seq<u8>, v: u16, post: Seq<u8>)
    ensures
        u16_at(pre + be16(v) + post, pre.len() as int) == v,
{
    let s = pre + be16(v) + post;
    assert(s[pre.len() as int] == (v / 256) as u8);
    assert(s[pre.len() as int + 1] == (v % 256) as u8);
}

/// Reading a big-endian value back from where it was written gives it back.
pub proof fn lemma_be32_roundtrip(pre: Seq<u8>, v: u32, post: Seq<u8>)
    ensures
        u32_at(pre + be32(v) + post, pre.len() as int) == v,
{
    let s = pre + be32(v) + post;
    let n = pre.len() as int;
    assert(s[n] == (v / 0x100_0000) as u8);
    assert(s[n + 1] == ((v / 0x1_0000) % 256) as u8);
    assert(s[n + 2] == ((v / 256) % 256) as u8);
    assert(s[n + 3] == (v % 256) as u8);
}

/// Reads the big-endian 16-bit value at index `i`.
pub fn read_u16(buf: &[u8], i: usize) -> (r: u16)
    requires
        i + 2 <= buf@.len(),
    ensures
        r == u16_at(buf@, i as int),
{
    let hi: u16 = buf[i] as u16;
    let lo: u16 = buf[i + 1] as u16;
    hi * 256 + lo
}

/// Reads the big-endian 32-bit value at index `i`.
pub fn read_u32(buf: &[u8], i: usize) -> (r: u32)
    requires
        i + 4 <= buf@.len(),
    ensures
        r == u32_at(buf@, i as int),
{
    let b0: u32 = buf[i] as u32;
    let b1: u32 = buf[i + 1] as u32;
    let b2: u32 = buf[i + 2] as u32;
    let b3: u32 = buf[i + 3] as u32;
    b0 * 0x100_0000 + b1 * 0x1_0000 + b2 * 256 + b3
}

/// Appends the big-endian bytes of a 16-bit value.
pub fn push_u16(buf: &mut Vec<u8>, v: u16)
    ensures
        final(buf)@ == old(buf)@ + be16(v),
{
    buf.push((v / 256) as u8);
    buf.push((v % 256) as u8);
    assert(buf@ =~= old(buf)@ + be16(v));
}

/// Appends the big-endian bytes of a 32-bit value.
pub fn push_u32(buf: &mut Vec<u8>, v: u32)
    ensures
        final(buf)@ == old(buf)@ + be32(v),
{
    buf.push((v / 0x100_0000) as u8);
    buf.push(((v / 0x1_0000) % 256) as u8);
    buf.push(((v / 256) % 256) as u8);
    buf.push((v % 256) as u8);
    assert(buf@ =~= old(buf)@ + be32(v));
}

/// Appends a run of bytes.
pub fn push_bytes(buf: &mut Vec<u8>, bytes: &[u8])
    ensures
        final(buf)@ == old(buf)@ + bytes@,
{
    let mut i: usize = 0;
    while i < bytes.len()
        invariant
            i <= bytes@.len(),
            buf@ == old(buf)@ + bytes@.subrange(0, i as int),
        decreases bytes@.len() - i,
    {
        buf.push(bytes[i]);
        i = i + 1;
        assert(buf@ =~= old(buf)@ + bytes@.subrange(0, i as int));
    }
    assert(bytes@.subrange(0, i as int) =~= bytes@);
}

/// Copies the bytes `buf[from..to]` into a new vector.
pub fn copy_range(buf: &[u8], from: usize, to: usize) -> (r: Vec<u8>)
    requires
        from <= to <= buf@.len(),
    ensures
        r@ == buf@.subrange(from as int, to as int),
{
    let mut r: Vec<u8> = Vec::new();
    let mut i: usize = from;
    while i < to
        invariant
            from <= i <= to <= buf@.len(),
            r@ == buf@.subrange(from as int, i as int),
        decreases to - i,
    {
        r.push(buf[i]);
        i = i + 1;
        assert(r@ =~= buf@.subrange(from as int, i as int));
    }
    r
}

} // verus!
