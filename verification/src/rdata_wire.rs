//! Pieces of RDATA that repeat: character strings, EDNS options, and the
//! hexadecimal text that stands in for character strings that are not UTF-8.
use vstd::prelude::*;
use vstd::utf8::valid_utf8;

use crate::error::{Error, Result};
use crate::text::{all_ascii, string_from_ascii, text_bytes};
use crate::wire::{be16, u16_at};

verus! {

/// The lowercase hexadecimal digit of a value below 16.
pub open spec fn hex_digit(n: int) -> u8 {
    if n < 10 {
        (0x30 + n) as u8
    } else {
        (0x61 + n - 10) as u8
    }
}

/// Two lowercase hexadecimal digits per byte.
pub open spec fn hex_of(b: Seq<u8>) -> Seq<u8>
    decreases b.len(),
{
    if b.len() == 0 {
        seq![]
    } else {
        hex_of(b.drop_last()) + seq![hex_digit(b.last() as int / 16), hex_digit(b.last() as int % 16)]
    }
}

/// The text a character string decodes to: itself when it is UTF-8, else
/// `0x` followed by its bytes in hexadecimal.
pub open spec fn txt_text(b: Seq<u8>) -> Seq<u8> {
    if valid_utf8(b) {
        b
    } else {
        seq![0x30u8, 0x78u8] + hex_of(b)
    }
}

/// The character strings in `buf[p..e]`, each a length byte and that many bytes.
pub open spec fn txt_strings(buf: Seq<u8>, p: int, e: int) -> Result<Seq<Seq<u8>>>
    decreases e - p,
{
    if p >= e {
        Ok(seq![])
    } else {
        let len = buf[p] as int;
        if p + 1 + len > e {
            Err(Error::InvalidCharacterStringLength)
        } else {
            match txt_strings(buf, p + 1 + len, e) {
                Ok(r) => Ok(seq![txt_text(buf.subrange(p + 1, p + 1 + len))] + r),
                Err(x) => Err(x),
            }
        }
    }
}

/// The EDNS options in `buf[p..e]` (code, length, data each) and where they
/// end: fewer than four bytes left end the list.
pub open spec fn opt_options(buf: Seq<u8>, p: int, e: int) -> Result<(Seq<(u16, Seq<u8>)>, int)>
    decreases e - p,
{
    if p + 4 > e {
        Ok((seq![], p))
    } else {
        let olen = u16_at(buf, p + 2) as int;
        if p + 4 + olen > e {
            Err(Error::Underrun)
        } else {
            match opt_options(buf, p + 4 + olen, e) {
                Ok((r, q)) => Ok((seq![(u16_at(buf, p), buf.subrange(p + 4, p + 4 + olen))] + r, q)),
                Err(x) => Err(x),
            }
        }
    }
}

/// The bytes of character strings: each cut to 255 bytes, after its length.
pub open spec fn txt_bytes(strings: Seq<Seq<u8>>) -> Seq<u8>
    decreases strings.len(),
{
    if strings.len() == 0 {
        seq![]
    } else {
        let s = strings.last();
        txt_bytes(strings.drop_last()) + if s.len() > 255 {
            seq![255u8] + s.subrange(0, 255)
        } else {
            seq![s.len() as u8] + s
        }
    }
}

/// The bytes of EDNS options: code, data length (cut to 16 bits), data.
pub open spec fn options_bytes(options: Seq<(u16, Seq<u8>)>) -> Seq<u8>
    decreases options.len(),
{
    if options.len() == 0 {
        seq![]
    } else {
        let (code, data) = options.last();
        options_bytes(options.drop_last()) + be16(code) + be16(data.len() as u16) + data
    }
}

fn hex_char(n: u8) -> (c: u8)
    requires
        n < 16,
    ensures
        c == hex_digit(n as int),
{
    if n < 10 {
        0x30u8 + n
    } else {
        0x61u8 + n - 10
    }
}

/// The bytes in lowercase hexadecimal, two digits each.
pub fn bytes_to_hex_string(bytes: &[u8]) -> (s: String)
    ensures
        text_bytes(s) == hex_of(bytes@),
{
    let mut out: Vec<u8> = Vec::new();
    let mut i: usize = 0;
    while i < bytes.len()
        invariant
            i <= bytes@.len(),
            out@ == hex_of(bytes@.subrange(0, i as int)),
            all_ascii(out@),
        decreases bytes@.len() - i,
    {
        let b = bytes[i];
        let ghost prev = out@;
        out.push(hex_char(b / 16));
        out.push(hex_char(b % 16));
        proof {
            let sub = bytes@.subrange(0, i + 1);
            assert(sub.drop_last() =~= bytes@.subrange(0, i as int));
            assert(out@ =~= hex_of(sub));
            assert forall|k: int| 0 <= k < out@.len() implies #[trigger] out@[k] < 128 by {
                if k < prev.len() {
                    assert(out@[k] == prev[k]);
                }
            }
        }
        i = i + 1;
    }
    assert(bytes@.subrange(0, i as int) =~= bytes@);
    string_from_ascii(out.as_slice())
}

} // verus!
