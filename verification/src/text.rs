//! Bridging between byte payloads and `String` fields: UTF-8 validation on
//! decode, UTF-8 emission on encode, and facts about which bytes can occur in
//! the encoding of a string.

use vstd::prelude::*;
use vstd::utf8::*;

verus! {

#[verifier::external_type_specification]
#[verifier::external_body]
pub struct ExFromUtf8Error(std::string::FromUtf8Error);

/// Relies on std's `String::from_utf8`: it succeeds exactly on valid UTF-8
/// input, and the returned string is backed by the very bytes that were
/// passed in.
pub assume_specification[ String::from_utf8 ](v: Vec<u8>) -> (r: Result<
    String,
    std::string::FromUtf8Error,
>)
    ensures
        r is Ok <==> valid_utf8(v@),
        r matches Ok(s) ==> encode_utf8(s@) == v@,
;

/// Turns raw payload bytes into a string, or nothing if they are not UTF-8.
pub fn bytes_to_string(v: Vec<u8>) -> (r: Option<String>)
    ensures
        r is Some <==> valid_utf8(v@),
        r matches Some(s) ==> encode_utf8(s@) == v@,
{
    match String::from_utf8(v) {
        Ok(s) => Some(s),
        Err(_) => None,
    }
}

/// Appends the UTF-8 bytes of `s` to `out`.
pub fn push_str_bytes(out: &mut Vec<u8>, s: &str)
    ensures
        final(out)@ == old(out)@ + encode_utf8(s@),
{
    out.extend_from_slice(s.as_bytes());
}

/// A low ASCII byte that differs from every character of a string cannot
/// occur anywhere in that string's UTF-8 encoding: a one-byte encoding is the
/// character itself, and every byte of a longer encoding is at least 0x80.
pub proof fn lemma_encode_utf8_absent(chars: Seq<char>, b: u8)
    requires
        b < 128,
        forall|i: int| 0 <= i < chars.len() ==> #[trigger] chars[i] as u32 != b as u32,
    ensures
        forall|j: int|
            0 <= j < encode_utf8(chars).len() ==> #[trigger] encode_utf8(chars)[j] != b,
    decreases chars.len(),
{
    if chars.len() > 0 {
        broadcast use char_is_scalar;

        let c = chars[0] as u32;
        let s = encode_scalar(c);
        assert(chars[0] as u32 != b as u32);
        if has_width_1_encoding(c) {
            assert((c & 0x7F) as u8 != b) by (bit_vector)
                requires
                    c <= 0x7F,
                    c != b as u32,
                    b < 128,
            ;
        } else {
            assert((0xC0u8 | ((c >> 6) & 0x1F) as u8) >= 0x80) by (bit_vector);
            assert((0xE0u8 | ((c >> 12) & 0x0F) as u8) >= 0x80) by (bit_vector);
            assert((0xF0u8 | ((c >> 18) & 0x7) as u8) >= 0x80) by (bit_vector);
            assert((0x80u8 | (c & 0x3F) as u8) >= 0x80) by (bit_vector);
            assert((0x80u8 | ((c >> 6) & 0x3F) as u8) >= 0x80) by (bit_vector);
            assert((0x80u8 | ((c >> 12) & 0x3F) as u8) >= 0x80) by (bit_vector);
        }
        assert(forall|j: int| 0 <= j < s.len() ==> #[trigger] s[j] != b);
        lemma_encode_utf8_absent(chars.drop_first(), b);
        assert(encode_utf8(chars) == s + encode_utf8(chars.drop_first()));
        assert forall|j: int|
            0 <= j < encode_utf8(chars).len() implies #[trigger] encode_utf8(chars)[j] != b by {
            if j < s.len() {
            } else {
                assert(encode_utf8(chars)[j] == encode_utf8(chars.drop_first())[j - s.len()]);
            }
        }
    }
}

/// A byte string below 0x80 throughout is valid UTF-8: every byte is a
/// one-byte scalar of its own.
pub proof fn lemma_low_bytes_valid_utf8(s: Seq<u8>)
    requires
        forall|j: int| 0 <= j < s.len() ==> #[trigger] s[j] < 128,
    ensures
        valid_utf8(s),
    decreases s.len(),
{
    if s.len() > 0 {
        let b = s[0];
        assert(b & 0x80 == 0) by (bit_vector)
            requires
                b < 128,
        ;
        assert(is_leading_byte_width_1(b));
        assert(codepoint_width_1(b) == (b & 0x7F) as u32);
        assert((b & 0x7F) as u32 == b as u32) by (bit_vector)
            requires
                b < 128,
        ;
        assert(length_of_first_codepoint(s) == 1);
        assert(valid_first_scalar(s));
        assert(pop_first_scalar(s) == s.subrange(1, s.len() as int));
        assert(forall|j: int|
            0 <= j < pop_first_scalar(s).len() ==> #[trigger] pop_first_scalar(s)[j] < 128);
        lemma_low_bytes_valid_utf8(pop_first_scalar(s));
    }
}

/// If every byte of a string's UTF-8 encoding is below 0x80, the string is
/// ASCII: a wider character would put its leading byte at 0xC0 or above.
pub proof fn lemma_encoded_low_ascii(chars: Seq<char>)
    requires
        forall|j: int| 0 <= j < encode_utf8(chars).len() ==> #[trigger] encode_utf8(chars)[j]
            < 128,
    ensures
        is_ascii_chars(chars),
    decreases chars.len(),
{
    if chars.len() > 0 {
        broadcast use char_is_scalar;

        let c = chars[0] as u32;
        let s0 = encode_scalar(c);
        let rest = encode_utf8(chars.drop_first());
        assert(encode_utf8(chars) == s0 + rest);
        assert(s0.len() >= 1);
        assert(encode_utf8(chars)[0] == s0[0]);
        assert(s0[0] < 128);
        if !has_width_1_encoding(c) {
            assert((0xC0u8 | ((c >> 6) & 0x1F) as u8) >= 0x80) by (bit_vector);
            assert((0xE0u8 | ((c >> 12) & 0x0F) as u8) >= 0x80) by (bit_vector);
            assert((0xF0u8 | ((c >> 18) & 0x7) as u8) >= 0x80) by (bit_vector);
            assert(false);
        }
        assert(c <= 0x7F);
        assert('\0' <= chars[0] <= '\u{7f}') by {
            char_u32_cast(chars[0], c);
        }
        assert forall|j: int| 0 <= j < rest.len() implies #[trigger] rest[j] < 128 by {
            assert(rest[j] == encode_utf8(chars)[s0.len() + j]);
        }
        lemma_encoded_low_ascii(chars.drop_first());
        assert forall|i: int| 0 <= i < chars.len() implies '\0' <= #[trigger] chars[i]
            <= '\u{7f}' by {
            if i > 0 {
                assert(chars.drop_first()[i - 1] == chars[i]);
            }
        }
    }
}

/// If some character of a string is the low ASCII character `c`, then the
/// byte for `c` occurs in the string's UTF-8 encoding.
pub proof fn lemma_encode_utf8_contains_char(chars: Seq<char>, c: char)
    requires
        (c as u32) < 128,
        exists|i: int| 0 <= i < chars.len() && #[trigger] chars[i] == c,
    ensures
        exists|j: int|
            0 <= j < encode_utf8(chars).len() && #[trigger] encode_utf8(chars)[j] == (
            c as u32) as u8,
    decreases chars.len(),
{
    broadcast use char_is_scalar;

    let i = choose|i: int| 0 <= i < chars.len() && #[trigger] chars[i] == c;
    let c0 = chars[0] as u32;
    let s0 = encode_scalar(c0);
    let rest = encode_utf8(chars.drop_first());
    assert(encode_utf8(chars) == s0 + rest);
    if chars[0] == c {
        assert(has_width_1_encoding(c0));
        assert((c0 & 0x7F) as u8 == (c0 as u8)) by (bit_vector)
            requires
                c0 < 128,
        ;
        assert(s0[0] == (c as u32) as u8);
        assert(encode_utf8(chars)[0] == (c as u32) as u8);
    } else {
        assert(0 <= i - 1 < chars.drop_first().len() && chars.drop_first()[i - 1] == c);
        lemma_encode_utf8_contains_char(chars.drop_first(), c);
        let j = choose|j: int|
            0 <= j < rest.len() && #[trigger] rest[j] == (c as u32) as u8;
        assert(encode_utf8(chars)[s0.len() + j] == rest[j]);
    }
}

/// String equality by comparing UTF-8 bytes, usable in contracts.
pub fn str_eq(a: &str, b: &str) -> (r: bool)
    ensures
        r == (a@ == b@),
{
    let r = crate::scan::bytes_eq(a.as_bytes(), b.as_bytes());
    proof {
        if encode_utf8(a@) == encode_utf8(b@) {
            encode_utf8_decode_utf8(a@);
            encode_utf8_decode_utf8(b@);
        }
    }
    r
}

/// A non-empty string has a non-empty UTF-8 encoding.
pub proof fn lemma_encode_utf8_nonempty(chars: Seq<char>)
    requires
        chars.len() > 0,
    ensures
        encode_utf8(chars).len() > 0,
{
    broadcast use char_is_scalar;

    let c = chars[0] as u32;
    assert(encode_scalar(c).len() >= 1);
    assert(encode_utf8(chars) == encode_scalar(c) + encode_utf8(chars.drop_first()));
}

/// The character-level counterpart of [`lemma_encode_utf8_absent`].
pub proof fn lemma_encode_utf8_absent_char(chars: Seq<char>, c: char)
    requires
        (c as u32) < 128,
        forall|i: int| 0 <= i < chars.len() ==> #[trigger] chars[i] != c,
    ensures
        forall|j: int|
            0 <= j < encode_utf8(chars).len() ==> #[trigger] encode_utf8(chars)[j] != (
            c as u32) as u8,
{
    let b = (c as u32) as u8;
    assert forall|i: int| 0 <= i < chars.len() implies #[trigger] chars[i] as u32 != b as u32 by {
        if chars[i] as u32 == b as u32 {
            char_u32_cast(chars[i], b as u32);
            char_u32_cast(c, b as u32);
        }
    }
    lemma_encode_utf8_absent(chars, b);
}

} // verus!
