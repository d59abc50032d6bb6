//! Text held in `String`s, seen through its UTF-8 bytes.
use vstd::prelude::*;
use vstd::string::StringSliceAdditionalSpecFns;
use vstd::utf8::{encode_utf8, partial_valid_utf8_extend_ascii_block, valid_utf8};

verus! {

/// The UTF-8 bytes of a string.
pub open spec fn text_bytes(s: String) -> Seq<u8> {
    encode_utf8(s@)
}

/// Every byte is 7-bit ASCII.
pub open spec fn all_ascii(b: Seq<u8>) -> bool {
    forall|i: int| 0 <= i < b.len() ==> #[trigger] b[i] < 128
}

/// `std::str::from_utf8`: the slice is accepted exactly when it is well-formed
/// UTF-8, and the string slice handed back consists of the very same bytes.
#[verifier::external_body]
pub(crate) fn str_from_utf8(bytes: &[u8]) -> (res: Option<&str>)
    ensures
        res is Some <==> valid_utf8(bytes@),
        res matches Some(s) ==> s.spec_bytes() == bytes@,
{
    std::str::from_utf8(bytes).ok()
}

/// ASCII bytes are well-formed UTF-8.
pub proof fn lemma_ascii_valid_utf8(b: Seq<u8>)
    requires
        all_ascii(b),
    ensures
        valid_utf8(b),
{
    assert(valid_utf8(b.subrange(0, 0)));
    assert forall|i: int| 0 <= 0 <= i < b.len() <= b.len() implies
        #[trigger] vstd::utf8::is_leading_byte_width_1(b[i]) by {
        assert(b[i] < 128);
    }
    partial_valid_utf8_extend_ascii_block(b, 0, b.len() as int);
    assert(b.subrange(0, b.len() as int) =~= b);
}

/// A string holding the given well-formed UTF-8 bytes.
pub fn string_from_utf8(bytes: &[u8]) -> (s: String)
    requires
        valid_utf8(bytes@),
    ensures
        text_bytes(s) == bytes@,
{
    match str_from_utf8(bytes) {
        Some(t) => t.to_owned(),
        None => {
            proof {
                assert(false);
            }
            String::new()
        },
    }
}

/// A string holding the given ASCII bytes.
pub fn string_from_ascii(bytes: &[u8]) -> (s: String)
    requires
        all_ascii(bytes@),
    ensures
        text_bytes(s) == bytes@,
{
    proof {
        lemma_ascii_valid_utf8(bytes@);
    }
    string_from_utf8(bytes)
}

/// The UTF-8 bytes of a string.
pub fn string_bytes(s: &String) -> (b: &[u8])
    ensures
        b@ == text_bytes(*s),
{
    s.as_str().as_bytes()
}

/// The bytes of joined text are the bytes of its parts, joined.
pub proof fn lemma_text_concat(a: Seq<char>, b: Seq<char>)
    ensures
        encode_utf8(a + b) == encode_utf8(a) + encode_utf8(b),
    decreases a.len(),
{
    if a.len() == 0 {
        assert(a + b =~= b);
        assert(encode_utf8(a) =~= Seq::<u8>::empty());
        assert(encode_utf8(a) + encode_utf8(b) =~= encode_utf8(b));
    } else {
        assert((a + b)[0] == a[0]);
        assert((a + b).drop_first() =~= a.drop_first() + b);
        lemma_text_concat(a.drop_first(), b);
        assert(encode_utf8(a + b) =~= encode_utf8(a) + encode_utf8(b));
    }
}

} // verus!
