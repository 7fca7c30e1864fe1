//! Conversion between raw digest bytes and their 40-character lowercase hex
//! text form. Tree entries store the raw 20 bytes on the wire while the rest
//! of the system passes digests around as hex strings, and this module is the
//! single place where the two representations meet.

use vstd::prelude::*;
use vstd::utf8::*;

verus! {

/// The lowercase hex digit (as an ASCII byte) for a value below 16.
pub open spec fn hex_digit_byte(n: u8) -> u8
    recommends
        n < 16,
{
    if n < 10 {
        (48 + n) as u8
    } else {
        (87 + n) as u8
    }
}

/// The two lowercase hex digits of a byte, as ASCII bytes.
pub open spec fn byte_hex_ascii(b: u8) -> Seq<u8> {
    seq![hex_digit_byte(b / 16), hex_digit_byte(b % 16)]
}

/// The lowercase hex form of a byte string, as ASCII bytes.
pub open spec fn bytes_hex_ascii(s: Seq<u8>) -> Seq<u8>
    decreases s.len(),
{
    if s.len() == 0 {
        Seq::empty()
    } else {
        byte_hex_ascii(s[0]) + bytes_hex_ascii(s.drop_first())
    }
}

/// The lowercase hex form of a byte string, as characters.
pub open spec fn bytes_hex_chars(s: Seq<u8>) -> Seq<char> {
    bytes_hex_ascii(s).map_values(|b: u8| b as char)
}

pub open spec fn is_hex_lower_char(c: char) -> bool {
    ('0' <= c && c <= '9') || ('a' <= c && c <= 'f')
}

/// The value of one lowercase hex digit character.
pub open spec fn hex_val(c: char) -> u8
    recommends
        is_hex_lower_char(c),
{
    if c <= '9' {
        ((c as u32 - 48) as u8)
    } else {
        ((c as u32 - 87) as u8)
    }
}

/// The raw bytes denoted by a string of lowercase hex digit pairs.
pub open spec fn hexstr_to_raw(s: Seq<char>) -> Seq<u8>
    decreases s.len(),
{
    if s.len() < 2 {
        Seq::empty()
    } else {
        seq![(hex_val(s[0]) * 16 + hex_val(s[1])) as u8] + hexstr_to_raw(s.skip(2))
    }
}

/// A 40-character lowercase hex digest string.
pub open spec fn is_hex40(s: Seq<char>) -> bool {
    s.len() == 40 && forall|i: int| 0 <= i < s.len() ==> is_hex_lower_char(#[trigger] s[i])
}

pub proof fn lemma_hex_digit_byte(n: u8)
    requires
        n < 16,
    ensures
        48 <= hex_digit_byte(n) <= 102,
        is_hex_lower_char(hex_digit_byte(n) as char),
        hex_val(hex_digit_byte(n) as char) == n,
        (hex_digit_byte(n) as char) as u32 == hex_digit_byte(n) as u32,
{
}

/// The hex form of a byte string: its length, and that every character is a
/// lowercase hex digit whose UTF-8 encoding is the corresponding ASCII byte.
pub proof fn lemma_bytes_hex_ascii(s: Seq<u8>)
    ensures
        bytes_hex_ascii(s).len() == 2 * s.len(),
        forall|j: int|
            0 <= j < bytes_hex_ascii(s).len() ==> (48 <= #[trigger] bytes_hex_ascii(s)[j] <= 57
                || 97 <= bytes_hex_ascii(s)[j] <= 102),
    decreases s.len(),
{
    if s.len() > 0 {
        lemma_hex_digit_byte(s[0] / 16);
        lemma_hex_digit_byte(s[0] % 16);
        lemma_bytes_hex_ascii(s.drop_first());
    }
}

pub proof fn lemma_bytes_hex_chars(s: Seq<u8>)
    ensures
        bytes_hex_chars(s).len() == 2 * s.len(),
        forall|j: int| 0 <= j < bytes_hex_chars(s).len() ==> is_hex_lower_char(
            #[trigger] bytes_hex_chars(s)[j],
        ),
        is_ascii_chars(bytes_hex_chars(s)),
        encode_utf8(bytes_hex_chars(s)) == bytes_hex_ascii(s),
    decreases s.len(),
{
    lemma_bytes_hex_ascii(s);
    assert forall|j: int| 0 <= j < bytes_hex_chars(s).len() implies is_hex_lower_char(
        #[trigger] bytes_hex_chars(s)[j],
    ) && '\0' <= bytes_hex_chars(s)[j] <= '\u{7f}' by {
        let b = bytes_hex_ascii(s)[j];
        assert(bytes_hex_chars(s)[j] == b as char);
        assert(48 <= b <= 57 || 97 <= b <= 102);
        assert((b as char) as u32 == b as u32);
    }
    assert(is_ascii_chars(bytes_hex_chars(s)));
    is_ascii_chars_encode_utf8(bytes_hex_chars(s));
    assert(encode_utf8(bytes_hex_chars(s)) =~= bytes_hex_ascii(s));
}

/// Appending one byte to the input appends its two hex digits to the output.
pub proof fn lemma_bytes_hex_ascii_snoc(s: Seq<u8>, x: u8)
    ensures
        bytes_hex_ascii(s.push(x)) == bytes_hex_ascii(s) + byte_hex_ascii(x),
    decreases s.len(),
{
    if s.len() == 0 {
        assert(s.push(x)[0] == x);
        assert(s.push(x).drop_first() =~= Seq::<u8>::empty());
        assert(bytes_hex_ascii(s.push(x)) == byte_hex_ascii(x) + bytes_hex_ascii(
            Seq::<u8>::empty(),
        ));
        assert(bytes_hex_ascii(Seq::<u8>::empty()) =~= Seq::<u8>::empty());
        assert(bytes_hex_ascii(s) =~= Seq::<u8>::empty());
        assert(bytes_hex_ascii(s.push(x)) =~= bytes_hex_ascii(s) + byte_hex_ascii(x));
    } else {
        assert(s.push(x).drop_first() =~= s.drop_first().push(x));
        lemma_bytes_hex_ascii_snoc(s.drop_first(), x);
        assert(s.push(x)[0] == s[0]);
        assert(bytes_hex_ascii(s.push(x)) == byte_hex_ascii(s[0]) + bytes_hex_ascii(
            s.drop_first().push(x),
        ));
        assert(bytes_hex_ascii(s.push(x)) =~= bytes_hex_ascii(s) + byte_hex_ascii(x));
    }
}

/// Reading a lowercase hex string back as bytes and re-printing it yields the
/// very same string.
pub proof fn lemma_hex_round_trip(s: Seq<char>)
    requires
        s.len() % 2 == 0,
        forall|i: int| 0 <= i < s.len() ==> is_hex_lower_char(#[trigger] s[i]),
    ensures
        hexstr_to_raw(s).len() == s.len() / 2,
        bytes_hex_chars(hexstr_to_raw(s)) == s,
    decreases s.len(),
{
    if s.len() == 0 {
        assert(bytes_hex_chars(hexstr_to_raw(s)) =~= s);
    } else {
        let c1 = s[0];
        let c2 = s[1];
        let v1 = hex_val(c1);
        let v2 = hex_val(c2);
        assert(v1 < 16 && v2 < 16);
        let b = (v1 * 16 + v2) as u8;
        assert(b / 16 == v1 && b % 16 == v2) by (nonlinear_arith)
            requires
                v1 < 16,
                v2 < 16,
                b == v1 * 16 + v2,
        ;
        assert(hex_digit_byte(v1) as u32 == c1 as u32) by {
            if c1 <= '9' {
            } else {
            }
        }
        char_u32_cast(c1, c1 as u32);
        char_u32_cast(c2, c2 as u32);
        assert(hex_digit_byte(v1) as char == c1);
        assert(hex_digit_byte(v2) as char == c2);
        let rest = s.skip(2);
        assert(forall|i: int| 0 <= i < rest.len() ==> is_hex_lower_char(#[trigger] rest[i]));
        lemma_hex_round_trip(rest);
        assert(hexstr_to_raw(s) == seq![b] + hexstr_to_raw(rest));
        assert(hexstr_to_raw(s)[0] == b);
        assert(hexstr_to_raw(s).drop_first() =~= hexstr_to_raw(rest));
        assert(bytes_hex_ascii(hexstr_to_raw(s)) == byte_hex_ascii(b) + bytes_hex_ascii(
            hexstr_to_raw(rest),
        ));
        lemma_bytes_hex_ascii(hexstr_to_raw(rest));
        let out = bytes_hex_chars(hexstr_to_raw(s));
        assert(out.len() == s.len());
        assert forall|j: int| 0 <= j < s.len() implies out[j] == s[j] by {
            assert(out[j] == bytes_hex_ascii(hexstr_to_raw(s))[j] as char);
            if j == 0 {
                assert(bytes_hex_ascii(hexstr_to_raw(s))[0] == hex_digit_byte(b / 16));
            } else if j == 1 {
                assert(bytes_hex_ascii(hexstr_to_raw(s))[1] == hex_digit_byte(b % 16));
            } else {
                assert(bytes_hex_ascii(hexstr_to_raw(s))[j] == bytes_hex_ascii(
                    hexstr_to_raw(rest),
                )[j - 2]);
                assert(bytes_hex_chars(hexstr_to_raw(rest))[j - 2] == rest[j - 2]);
                assert(rest[j - 2] == s[j]);
            }
        }
        assert(out =~= s);
    }
}

/// Prints a byte string as lowercase hex.
pub fn bytes_to_hex(data: &[u8]) -> (r: String)
    ensures
        r@ == bytes_hex_chars(data@),
        r@.len() == 2 * data@.len(),
{
    let mut out: Vec<u8> = Vec::new();
    let mut i: usize = 0;
    proof {
        assert(data@.take(0) =~= Seq::<u8>::empty());
    }
    while i < data.len()
        invariant
            0 <= i <= data@.len(),
            out@ == bytes_hex_ascii(data@.take(i as int)),
            out@.len() == 2 * i,
        decreases data@.len() - i,
    {
        let b = data[i];
        let hi = b / 16;
        let lo = b % 16;
        let hi_d = if hi < 10 {
            48 + hi
        } else {
            87 + hi
        };
        let lo_d = if lo < 10 {
            48 + lo
        } else {
            87 + lo
        };
        out.push(hi_d);
        out.push(lo_d);
        proof {
            lemma_bytes_hex_ascii_snoc(data@.take(i as int), b);
            assert(data@.take(i + 1) =~= data@.take(i as int).push(b));
        }
        i = i + 1;
    }
    proof {
        assert(data@.take(data@.len() as int) =~= data@);
        lemma_bytes_hex_chars(data@);
        encode_utf8_valid_utf8(bytes_hex_chars(data@));
    }
    let r = crate::text::bytes_to_string(out);
    match r {
        Some(s) => {
            proof {
                encode_utf8_decode_utf8(s@);
                encode_utf8_decode_utf8(bytes_hex_chars(data@));
            }
            s
        },
        None => {
            proof {
                assert(false);
            }
            String::new()
        },
    }
}

/// Reads a string of lowercase hex digit pairs back into raw bytes; nothing
/// if the length is odd or any character is not a lowercase hex digit.
pub fn hex_str_to_bytes(s: &str) -> (r: Option<Vec<u8>>)
    ensures
        r is Some <==> (s@.len() % 2 == 0 && forall|i: int|
            0 <= i < s@.len() ==> is_hex_lower_char(#[trigger] s@[i])),
        r matches Some(v) ==> v@ == hexstr_to_raw(s@) && v@.len() == s@.len() / 2,
{
    let b = s.as_bytes();
    proof {
        if is_ascii_chars(s@) {
            is_ascii_chars_encode_utf8(s@);
        }
    }
    if !s.is_ascii() {
        proof {
            let i = choose|i: int| 0 <= i < s@.len() && !('\0' <= #[trigger] s@[i] <= '\u{7f}');
            assert(!is_hex_lower_char(s@[i]));
        }
        return None;
    }
    if b.len() % 2 != 0 {
        return None;
    }
    let mut out: Vec<u8> = Vec::new();
    let mut i: usize = 0;
    while i + 1 < b.len()
        invariant
            is_ascii_chars(s@),
            b@.len() == s@.len(),
            forall|j: int| 0 <= j < s@.len() ==> #[trigger] s@[j] as u8 == b@[j] && (
            s@[j] as u32) < 128,
            i % 2 == 0,
            0 <= i <= b@.len(),
            b@.len() % 2 == 0,
            forall|j: int| 0 <= j < i ==> is_hex_lower_char(#[trigger] s@[j]),
            out@ == hexstr_to_raw(s@.take(i as int)),
            out@.len() == i / 2,
        decreases b@.len() - i,
    {
        let d1 = b[i];
        let d2 = b[i + 1];
        let v1 = match hex_digit_val(d1) {
            Some(v) => v,
            None => {
                proof {
                    assert(s@[i as int] as u32 == d1 as u32);
                    assert(!is_hex_lower_char(s@[i as int]));
                }
                return None;
            },
        };
        let v2 = match hex_digit_val(d2) {
            Some(v) => v,
            None => {
                proof {
                    assert(s@[i + 1] as u32 == d2 as u32);
                    assert(!is_hex_lower_char(s@[i + 1]));
                }
                return None;
            },
        };
        out.push(v1 * 16 + v2);
        proof {
            assert(s@[i as int] as u32 == d1 as u32 && s@[i + 1] as u32 == d2 as u32);
            assert(is_hex_lower_char(s@[i as int]) && hex_val(s@[i as int]) == v1);
            assert(is_hex_lower_char(s@[i + 1]) && hex_val(s@[i + 1]) == v2);
            lemma_hexstr_to_raw_snoc2(s@.take(i as int), s@[i as int], s@[i + 1]);
            assert(s@.take(i + 2) =~= s@.take(i as int).push(s@[i as int]).push(s@[i + 1]));
        }
        i = i + 2;
    }
    proof {
        assert(i == b@.len());
        assert(s@.take(i as int) =~= s@);
    }
    Some(out)
}

/// The value of one lowercase hex digit given as an ASCII byte.
fn hex_digit_val(d: u8) -> (r: Option<u8>)
    ensures
        r is Some <==> is_hex_lower_char(d as char),
        r matches Some(v) ==> v == hex_val(d as char) && v < 16,
{
    proof {
        assert((d as char) as u32 == d as u32);
    }
    if 48 <= d && d <= 57 {
        Some(d - 48)
    } else if 97 <= d && d <= 102 {
        Some(d - 87)
    } else {
        None
    }
}

/// Appending one lowercase hex digit pair appends one byte to the parse.
pub proof fn lemma_hexstr_to_raw_snoc2(s: Seq<char>, c1: char, c2: char)
    requires
        s.len() % 2 == 0,
    ensures
        hexstr_to_raw(s.push(c1).push(c2)) == hexstr_to_raw(s).push(
            (hex_val(c1) * 16 + hex_val(c2)) as u8,
        ),
    decreases s.len(),
{
    let t = s.push(c1).push(c2);
    if s.len() == 0 {
        assert(t.len() == 2);
        assert(t[0] == c1 && t[1] == c2);
        assert(t.skip(2) =~= Seq::<char>::empty());
        let bx = (hex_val(c1) * 16 + hex_val(c2)) as u8;
        assert(hexstr_to_raw(t) == seq![bx] + hexstr_to_raw(t.skip(2)));
        assert(hexstr_to_raw(t.skip(2)) == Seq::<u8>::empty());
        assert(hexstr_to_raw(s) == Seq::<u8>::empty());
        assert(hexstr_to_raw(t) =~= hexstr_to_raw(s).push(bx));
    } else {
        assert(t[0] == s[0] && t[1] == s[1]);
        assert(t.skip(2) =~= s.skip(2).push(c1).push(c2));
        lemma_hexstr_to_raw_snoc2(s.skip(2), c1, c2);
        let b0 = (hex_val(s[0]) * 16 + hex_val(s[1])) as u8;
        let bx = (hex_val(c1) * 16 + hex_val(c2)) as u8;
        assert(hexstr_to_raw(t) == seq![b0] + hexstr_to_raw(t.skip(2)));
        assert(hexstr_to_raw(t.skip(2)) == hexstr_to_raw(s.skip(2)).push(bx));
        assert(hexstr_to_raw(s) == seq![b0] + hexstr_to_raw(s.skip(2)));
        assert(hexstr_to_raw(t) =~= hexstr_to_raw(s).push(bx));
    }
}

} // verus!
