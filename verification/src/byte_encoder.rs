//! The bijection between the 256 byte values and 256 printable code points.
//!
//! Bytes in the printable ASCII band and two Latin-1 supplement bands map to
//! their own code point; every other byte maps into a contiguous block
//! starting at 256.  This lets arbitrary byte runs be treated as ordinary
//! strings while training and encoding.

use std::collections::HashMap;
use vstd::prelude::*;
use vstd::utf8::is_scalar;

verus! {

/// True for bytes whose own code point is kept by the byte-level mapping.
pub open spec fn printable_byte(b: u8) -> bool {
    (33 <= b <= 126) || (161 <= b <= 172) || 174 <= b
}

/// How many bytes below `b` are not printable (closed form).
pub open spec fn shift_code(b: u8) -> u32 {
    if b < 33 {
        b as u32
    } else if b < 127 {
        33
    } else if b < 161 {
        (33 + (b - 127)) as u32
    } else if b < 174 {
        67
    } else {
        68
    }
}

/// The code point assigned to byte `b`: printable bytes keep their own value,
/// the rest are packed into the contiguous block starting at 256.
pub open spec fn byte_code(b: u8) -> u32 {
    if printable_byte(b) {
        b as u32
    } else {
        (256 + shift_code(b)) as u32
    }
}

/// The character assigned to byte `b`.
pub open spec fn byte_char(b: u8) -> char {
    byte_code(b) as char
}

/// The byte that code point `u` stands for, if any: the exact inverse of
/// `byte_code`.
pub open spec fn code_byte(u: u32) -> Option<u8> {
    if (33 <= u <= 126) || (161 <= u <= 172) || (174 <= u <= 255) {
        Some(u as u8)
    } else if 256 <= u <= 288 {
        Some((u - 256) as u8)
    } else if 289 <= u <= 322 {
        Some((u - 162) as u8)
    } else if u == 323 {
        Some(173u8)
    } else {
        None
    }
}

/// The byte that character `c` stands for, if any.
pub open spec fn char_byte(c: char) -> Option<u8> {
    code_byte(c as u32)
}

/// Every assigned code point is a valid Unicode scalar value.
pub proof fn lemma_byte_code_scalar(b: u8)
    ensures
        is_scalar(byte_code(b)),
        byte_code(b) <= 323,
{
}

/// The mapping is a bijection: decoding inverts encoding, distinct bytes get
/// distinct code points, and only assigned code points decode.
pub proof fn lemma_codec_bijective()
    ensures
        forall|b: u8| #[trigger] code_byte(byte_code(b)) == Some(b),
        forall|b1: u8, b2: u8| b1 != b2 ==> byte_code(b1) != byte_code(b2),
        forall|u: u32| #[trigger] code_byte(u) is Some ==> byte_code(code_byte(u)->Some_0) == u,
{
}

/// Decoding inverts encoding at the character level.
pub proof fn lemma_char_byte_of_byte_char(b: u8)
    ensures
        char_byte(byte_char(b)) == Some(b),
{
    lemma_byte_code_scalar(b);
    assert((byte_code(b) as char) as u32 == byte_code(b));
    lemma_codec_bijective();
}

/// Relies on char::from_u32: returns Some exactly on Unicode scalar values,
/// carrying that code point.
#[verifier::external_body]
fn char_from_u32(u: u32) -> (r: Option<char>)
    ensures
        r matches Some(c) ==> c as u32 == u,
        r is Some <==> is_scalar(u),
{
    char::from_u32(u)
}

/// Maps a byte to its assigned character; total, no error path.
pub fn encode_byte(b: u8) -> (c: char)
    ensures
        c == byte_char(b),
        c as u32 == byte_code(b),
{
    let u: u32 = if (33 <= b && b <= 126) || (161 <= b && b <= 172) || 174 <= b {
        b as u32
    } else if b < 33 {
        256 + b as u32
    } else if b < 161 {
        256 + 33 + (b as u32 - 127)
    } else {
        256 + 67
    };
    assert(u == byte_code(b));
    let c = char_from_u32(u).unwrap();
    proof {
        vstd::utf8::char_u32_cast(c, u);
    }
    c
}

/// Maps a character back to the byte it stands for; `None` exactly on
/// characters outside the mapping's image.
pub fn decode_char(c: char) -> (r: Option<u8>)
    ensures
        r == char_byte(c),
        forall|b: u8| c == byte_char(b) ==> r == Some(b),
{
    let u = c as u32;
    let r: Option<u8> = if (33 <= u && u <= 126) || (161 <= u && u <= 172) || (174 <= u && u
        <= 255) {
        Some(u as u8)
    } else if 256 <= u && u <= 288 {
        Some((u - 256) as u8)
    } else if 289 <= u && u <= 322 {
        Some((u - 162) as u8)
    } else if u == 323 {
        Some(173u8)
    } else {
        None
    };
    proof {
        if exists|b: u8| c == byte_char(b) {
            let b = choose|b: u8| c == byte_char(b);
            vstd::utf8::char_u32_cast((byte_code(b) as char), byte_code(b));
        }
    }
    r
}

/// The table from each byte value to its assigned character, as the encoder
/// consults it.
pub fn bytes_to_unicode() -> (m: HashMap<u8, char>)
    ensures
        forall|b: u8| m@.contains_key(b),
        forall|b: u8| m@[b] == byte_char(b),
{
    broadcast use vstd::std_specs::hash::group_hash_axioms;

    let mut m: HashMap<u8, char> = HashMap::new();
    let mut i: usize = 0;
    while i < 256
        invariant
            i <= 256,
            forall|b: u8| #[trigger] m@.contains_key(b) <==> b < i,
            forall|b: u8| b < i ==> #[trigger] m@[b] == byte_char(b),
        decreases 256 - i,
    {
        let b = i as u8;
        let c = encode_byte(b);
        let ghost prev = m@;
        m.insert(b, c);
        assert forall|k: u8| k < i + 1 implies #[trigger] m@[k] == byte_char(k) by {
            if k != b {
                assert(prev[k] == byte_char(k));
            }
        }
        i = i + 1;
    }
    m
}

/// The inverse table, keyed by code point value: each assigned code point
/// maps back to its byte.
pub fn unicode_to_bytes() -> (m: HashMap<u32, u8>)
    ensures
        forall|u: u32| m@.contains_key(u) <==> code_byte(u) is Some,
        forall|u: u32| #[trigger] code_byte(u) is Some ==> m@.contains_key(u) && m@[u]
            == code_byte(u)->Some_0,
{
    broadcast use vstd::std_specs::hash::group_hash_axioms;

    let mut m: HashMap<u32, u8> = HashMap::new();
    let mut i: usize = 0;
    while i < 256
        invariant
            i <= 256,
            forall|b: u8| b < i ==> m@.contains_key(byte_code(b)),
            forall|u: u32| m@.contains_key(u) ==> exists|b: u8| b < i && byte_code(b) == u,
            forall|b: u8| b < i ==> m@[#[trigger] byte_code(b)] == b,
        decreases 256 - i,
    {
        let b = i as u8;
        let c = encode_byte(b);
        proof {
            lemma_codec_bijective();
        }
        m.insert(c as u32, b);
        i = i + 1;
    }
    proof {
        lemma_codec_bijective();
        assert forall|u: u32| m@.contains_key(u) <==> code_byte(u) is Some by {
            if m@.contains_key(u) {
                let b = choose|b: u8| b < 256 && byte_code(b) == u;
                assert(code_byte(u) == Some(b));
            }
            if code_byte(u) is Some {
                let b = code_byte(u)->Some_0;
                assert(byte_code(b) == u);
            }
        }
    }
    m
}

} // verus!
