//! Text as bytes: the step from a byte sequence to a `String` and back, and
//! the facts about UTF-8 that splitting text at ASCII bytes rests on.

use vstd::prelude::*;
use vstd::string::StringSliceAdditionalSpecFns;
use vstd::utf8::*;

verus! {

#[verifier::external_type_specification]
#[verifier::external_body]
pub struct ExFromUtf8Error(std::string::FromUtf8Error);

/// `String::from_utf8` of the standard library.
///
/// Trusted: it succeeds exactly on well-formed UTF-8, and the string it gives
/// is spelled by the very bytes it was given.
pub assume_specification[ String::from_utf8 ](v: Vec<u8>) -> (r: Result<
    String,
    std::string::FromUtf8Error,
>)
    ensures
        r is Ok <==> valid_utf8(v@),
        r matches Ok(s) ==> encode_utf8(s@) == v@,
;

#[verifier::external_type_specification]
#[verifier::external_body]
pub struct ExUtf8Error(core::str::Utf8Error);

/// `core::str::from_utf8` of the standard library.
///
/// Trusted: it succeeds exactly on well-formed UTF-8, and the string slice it
/// gives is spelled by the very bytes it was given.
pub assume_specification[ core::str::from_utf8 ](v: &[u8]) -> (r: Result<&str, core::str::Utf8Error>)
    ensures
        r is Ok <==> valid_utf8(v@),
        r matches Ok(s) ==> s.spec_bytes() == v@,
;

/// Reads bytes as a string slice, or `None` when they are not UTF-8.
pub fn str_from_bytes(v: &[u8]) -> (r: Option<&str>)
    ensures
        r is Some <==> valid_utf8(v@),
        r matches Some(s) ==> s@ == text_of(v@) && encode_utf8(s@) == v@,
{
    broadcast use encode_utf8_decode_utf8;

    match core::str::from_utf8(v) {
        Ok(s) => Some(s),
        Err(_) => None,
    }
}

/// The text that well-formed UTF-8 `bytes` spell.
pub open spec fn text_of(bytes: Seq<u8>) -> Seq<char>
    recommends
        valid_utf8(bytes),
{
    decode_utf8(bytes)
}

/// Turns bytes into a `String`, or `None` when they are not UTF-8.
pub fn string_from_bytes(v: Vec<u8>) -> (r: Option<String>)
    ensures
        r is Some <==> valid_utf8(v@),
        r matches Some(s) ==> s@ == text_of(v@) && encode_utf8(s@) == v@,
{
    broadcast use encode_utf8_decode_utf8;

    match String::from_utf8(v) {
        Ok(s) => Some(s),
        Err(_) => None,
    }
}

/// In well-formed UTF-8 the position after an ASCII byte starts a character
/// (or is the end of the text).
pub proof fn lemma_boundary_after_ascii(bytes: Seq<u8>, i: int)
    requires
        valid_utf8(bytes),
        0 < i <= bytes.len(),
        bytes[i - 1] < 0x80,
    ensures
        is_char_boundary(bytes, i),
    decreases bytes.len(),
{
    let k = length_of_first_scalar(bytes);
    if i - 1 < k {
        if i - 1 > 0 {
            // a later byte of the first scalar is a continuation byte
            assert(is_continuation_byte(bytes[i - 1]));
        }
        assert(k == 1);
        reveal_with_fuel(is_char_boundary, 2);
    } else {
        let rest = pop_first_scalar(bytes);
        assert(rest[i - k - 1] == bytes[i - 1]);
        lemma_boundary_after_ascii(rest, i - k);
    }
}

/// A stretch of well-formed UTF-8 between two character boundaries is
/// well-formed UTF-8.
pub proof fn lemma_valid_between(bytes: Seq<u8>, i: int, j: int)
    requires
        valid_utf8(bytes),
        0 <= i <= j <= bytes.len(),
        is_char_boundary(bytes, i),
        is_char_boundary(bytes, j),
    ensures
        valid_utf8(bytes.subrange(i, j)),
{
    let head = bytes.subrange(0, j);
    valid_utf8_split(bytes, j);
    if i < j {
        is_char_boundary_iff_not_is_continuation_byte(bytes, i);
        is_char_boundary_iff_not_is_continuation_byte(head, i);
    } else {
        is_char_boundary_start_end_of_seq(head);
    }
    valid_utf8_split(head, i);
    assert(head.subrange(i, j) =~= bytes.subrange(i, j));
}

/// A position in well-formed UTF-8 is a character boundary if it is the
/// start, the end, or does not hold a continuation byte.
pub open spec fn is_cut(bytes: Seq<u8>, i: int) -> bool {
    0 <= i <= bytes.len() && (i < bytes.len() ==> !is_continuation_byte(bytes[i]))
}

/// What `is_cut` tests is a character boundary.
pub proof fn lemma_cut_is_boundary(bytes: Seq<u8>, i: int)
    requires
        valid_utf8(bytes),
        is_cut(bytes, i),
    ensures
        is_char_boundary(bytes, i),
{
    if i < bytes.len() {
        is_char_boundary_iff_not_is_continuation_byte(bytes, i);
    } else {
        is_char_boundary_start_end_of_seq(bytes);
    }
}

/// Copies `bytes[from..to]` into a `String`.
pub fn string_between(bytes: &[u8], from: usize, to: usize) -> (r: String)
    requires
        from <= to <= bytes@.len(),
        valid_utf8(bytes@.subrange(from as int, to as int)),
    ensures
        encode_utf8(r@) == bytes@.subrange(from as int, to as int),
        r@ == text_of(bytes@.subrange(from as int, to as int)),
{
    let v = vstd::slice::slice_to_vec(vstd::slice::slice_subrange(bytes, from, to));
    string_from_bytes(v).unwrap()
}

} // verus!
