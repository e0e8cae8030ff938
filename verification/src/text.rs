//! Strings as bytes: the bridge between names, which the tree holds as
//! strings, and the byte strings of an image.

use vstd::prelude::*;
use vstd::string::StringSliceAdditionalSpecFns;
use vstd::utf8::*;

use crate::util::{first_of, lemma_first_of, lemma_first_of_is};

verus! {

/// The error of `core::str::from_utf8`, carried through as it is.
#[verifier::external_type_specification]
#[verifier::external_body]
pub struct ExUtf8Error(core::str::Utf8Error);

/// `core::str::from_utf8` succeeds on the byte strings that are valid UTF-8,
/// and on no others; the string it returns is made of the bytes it was given.
pub assume_specification[ core::str::from_utf8 ](v: &[u8]) -> (r: Result<
    &str,
    core::str::Utf8Error,
>)
    ensures
        r is Ok <==> valid_utf8(v@),
        r matches Ok(s) ==> s.spec_bytes() == v@,
;

/// Whether two byte strings are equal.
pub fn bytes_eq(a: &[u8], b: &[u8]) -> (r: bool)
    ensures
        r == (a@ == b@),
{
    if a.len() != b.len() {
        return false;
    }
    let mut i: usize = 0;
    while i < a.len()
        invariant
            i <= a@.len(),
            a@.len() == b@.len(),
            forall|j: int| 0 <= j < i ==> a@[j] == b@[j],
        decreases a@.len() - i,
    {
        if a[i] != b[i] {
            return false;
        }
        i += 1;
    }
    assert(a@ =~= b@);
    true
}

/// Whether two strings are equal.
pub fn str_eq(a: &str, b: &str) -> (r: bool)
    ensures
        r == (a@ == b@),
{
    proof {
        encode_utf8_decode_utf8(a@);
        encode_utf8_decode_utf8(b@);
    }
    bytes_eq(a.as_bytes(), b.as_bytes())
}

/// Whether `x` stands nowhere in `s`.
pub open spec fn lacks<T>(s: Seq<T>, x: T) -> bool {
    forall|i: int| 0 <= i < s.len() ==> s[i] != x
}

/// The one byte of an ASCII character is the character's number.
proof fn lemma_bytes_width_1(x: u32, b: u8)
    by (bit_vector)
    requires
        has_width_1_encoding(x),
        b < 0x80,
    ensures
        (leading_byte_width_1(x) == b) == (x == b as u32),
{
}

/// No byte of a character that takes two bytes is an ASCII byte.
proof fn lemma_bytes_width_2(x: u32)
    by (bit_vector)
    ensures
        leading_byte_width_2(x) >= 0x80,
        last_continuation_byte(x) >= 0x80,
{
}

/// No byte of a character that takes three or four bytes is an ASCII byte.
proof fn lemma_bytes_width_3_4(x: u32)
    by (bit_vector)
    ensures
        leading_byte_width_3(x) >= 0x80,
        leading_byte_width_4(x) >= 0x80,
        second_last_continuation_byte(x) >= 0x80,
        third_last_continuation_byte(x) >= 0x80,
{
}

/// An ASCII character is encoded as the one byte of its number, and no
/// other character has that byte anywhere in its encoding.
pub proof fn lemma_scalar_bytes(x: char, c: char, b: u8)
    requires
        c as u32 == b as u32,
        b < 0x80,
    ensures
        x == c ==> encode_scalar(x as u32) == seq![b],
        x != c ==> lacks(encode_scalar(x as u32), b),
        1 <= encode_scalar(x as u32).len() <= 4,
{
    let v = x as u32;
    char_is_scalar(x);
    if has_width_1_encoding(v) {
        lemma_bytes_width_1(v, b);
    }
    lemma_bytes_width_2(v);
    lemma_bytes_width_3_4(v);
    if x != c {
        char_u32_cast(x, v);
        char_u32_cast(c, c as u32);
        assert(v != b as u32);
    }
}

/// The encoding of two strings put together is their encodings put together.
pub proof fn lemma_encode_concat(a: Seq<char>, b: Seq<char>)
    ensures
        encode_utf8(a + b) == encode_utf8(a) + encode_utf8(b),
    decreases a.len(),
{
    if a.len() == 0 {
        assert(a + b =~= b);
        assert(encode_utf8(a) + encode_utf8(b) =~= encode_utf8(b));
    } else {
        assert((a + b).drop_first() =~= a.drop_first() + b);
        lemma_encode_concat(a.drop_first(), b);
        assert(encode_utf8(a + b) =~= encode_utf8(a) + encode_utf8(b));
    }
}

/// A string without the ASCII character `c` has no byte `b` of that
/// character in its encoding.
pub proof fn lemma_encode_without(s: Seq<char>, c: char, b: u8)
    requires
        c as u32 == b as u32,
        b < 0x80,
        lacks(s, c),
    ensures
        lacks(encode_utf8(s), b),
    decreases s.len(),
{
    if s.len() > 0 {
        lemma_scalar_bytes(s[0], c, b);
        lemma_encode_without(s.drop_first(), c, b);
    }
}

/// An encoding has at least as many bytes as the string has characters.
pub proof fn lemma_encode_len(s: Seq<char>)
    ensures
        encode_utf8(s).len() >= s.len(),
    decreases s.len(),
{
    if s.len() > 0 {
        lemma_scalar_bytes(s[0], '\0', 0u8);
        lemma_encode_len(s.drop_first());
    }
}

/// Where the ASCII character `c` first stands in a string, its byte `b`
/// first stands in the encoding: what is before it encodes what is before
/// `c`, and what is after it encodes what is after `c`.
pub proof fn lemma_encode_split(s: Seq<char>, c: char, b: u8)
    requires
        c as u32 == b as u32,
        b < 0x80,
    ensures
        ({
            let i = first_of(s, c, 0);
            let bytes = encode_utf8(s);
            let j = first_of(bytes, b, 0);
            &&& 0 <= i <= j <= bytes.len()
            &&& i <= s.len()
            &&& i < s.len() <==> j < bytes.len()
            &&& bytes.subrange(0, j) == encode_utf8(s.subrange(0, i))
            &&& i < s.len() ==> bytes.subrange(j + 1, bytes.len() as int) == encode_utf8(
                s.subrange(i + 1, s.len() as int),
            )
        }),
{
    let i = first_of(s, c, 0);
    let bytes = encode_utf8(s);
    lemma_first_of(s, c, 0);
    let before = s.subrange(0, i);
    lemma_encode_without(before, c, b);
    lemma_encode_len(before);
    if i < s.len() {
        let after = s.subrange(i + 1, s.len() as int);
        assert(s =~= before + (seq![c] + after));
        lemma_encode_concat(before, seq![c] + after);
        lemma_encode_concat(seq![c], after);
        lemma_scalar_bytes(c, c, b);
        assert(seq![c].drop_first() =~= Seq::<char>::empty());
        assert(encode_utf8(Seq::<char>::empty()) =~= Seq::<u8>::empty());
        assert(encode_utf8(seq![c]) =~= seq![b]);
        let at = encode_utf8(before).len() as int;
        assert(bytes =~= encode_utf8(before) + (seq![b] + encode_utf8(after)));
        lemma_first_of_is(bytes, b, 0, at);
        assert(bytes.subrange(0, at) =~= encode_utf8(before));
        assert(bytes.subrange(at + 1, bytes.len() as int) =~= encode_utf8(after));
    } else {
        assert(s =~= before);
        lemma_first_of_is(bytes, b, 0, bytes.len() as int);
        assert(bytes.subrange(0, bytes.len() as int) =~= bytes);
    }
}

/// Two strings with the same encoding are the same string.
pub proof fn lemma_encode_injective(a: Seq<char>, b: Seq<char>)
    requires
        encode_utf8(a) == encode_utf8(b),
    ensures
        a == b,
{
    encode_utf8_decode_utf8(a);
    encode_utf8_decode_utf8(b);
}

} // verus!
