//! Hex encoding and decoding of byte strings for wire transport, with exact
//! character-level specifications.

use vstd::prelude::*;

verus! {

/// Whether a character is a hex digit (either case).
pub open spec fn is_hex_digit(c: char) -> bool {
    ('0' <= c && c <= '9') || ('a' <= c && c <= 'f') || ('A' <= c && c <= 'F')
}

/// The value of a hex digit character.
pub open spec fn hex_val(c: char) -> nat {
    if '0' <= c && c <= '9' {
        crate::text::digit_val(c)
    } else if c == 'a' || c == 'A' {
        10
    } else if c == 'b' || c == 'B' {
        11
    } else if c == 'c' || c == 'C' {
        12
    } else if c == 'd' || c == 'D' {
        13
    } else if c == 'e' || c == 'E' {
        14
    } else {
        15
    }
}

/// The lowercase hex digit character for a value below sixteen.
pub open spec fn hex_digit_char(d: nat) -> char {
    if d < 10 {
        crate::text::digit_char(d)
    } else if d == 10 {
        'a'
    } else if d == 11 {
        'b'
    } else if d == 12 {
        'c'
    } else if d == 13 {
        'd'
    } else if d == 14 {
        'e'
    } else {
        'f'
    }
}

/// The lowercase hex rendering of a byte string: two digits per byte, high
/// nibble first.
pub open spec fn hex_chars_of(b: Seq<u8>) -> Seq<char> {
    Seq::new(
        b.len() * 2,
        |i: int|
            if i % 2 == 0 {
                hex_digit_char((b[i / 2] / 16) as nat)
            } else {
                hex_digit_char((b[i / 2] % 16) as nat)
            },
    )
}

/// Whether a character sequence is well-formed hex text: even length, hex
/// digits only.
pub open spec fn hex_ok(s: Seq<char>) -> bool {
    s.len() % 2 == 0 && (forall|i: int| 0 <= i < s.len() ==> is_hex_digit(#[trigger] s[i]))
}

/// The bytes that well-formed hex text denotes.
pub open spec fn hex_bytes_of(s: Seq<char>) -> Seq<u8> {
    Seq::new(s.len() / 2, |i: int| (hex_val(s[2 * i]) * 16 + hex_val(s[2 * i + 1])) as u8)
}

/// Hex encoding round-trips: the rendering of any byte string is well-formed
/// hex text and denotes the original bytes.
pub proof fn lemma_hex_round_trip(b: Seq<u8>)
    ensures
        hex_ok(hex_chars_of(b)),
        hex_bytes_of(hex_chars_of(b)) == b,
{
    let s = hex_chars_of(b);
    assert forall|i: int| 0 <= i < s.len() implies is_hex_digit(#[trigger] s[i]) by {
        if i % 2 == 0 {
            assert(s[i] == hex_digit_char((b[i / 2] / 16) as nat));
        } else {
            assert(s[i] == hex_digit_char((b[i / 2] % 16) as nat));
        }
    }
    assert forall|i: int| 0 <= i < b.len() implies hex_bytes_of(s)[i] == b[i] by {
        assert((2 * i) % 2 == 0 && (2 * i + 1) % 2 == 1);
        assert((2 * i) / 2 == i && (2 * i + 1) / 2 == i);
        assert(s[2 * i] == hex_digit_char((b[i] / 16) as nat));
        assert(s[2 * i + 1] == hex_digit_char((b[i] % 16) as nat));
        assert(hex_val(hex_digit_char((b[i] / 16) as nat)) == (b[i] / 16) as nat);
        assert(hex_val(hex_digit_char((b[i] % 16) as nat)) == (b[i] % 16) as nat);
        assert(hex_bytes_of(s)[i] == (hex_val(s[2 * i]) * 16 + hex_val(s[2 * i + 1])) as u8);
        assert(b[i] / 16 * 16 + b[i] % 16 == b[i]);
    }
    assert(hex_bytes_of(s) =~= b);
}

/// Relies on `hex::encode`: two lowercase hex digits per input byte, high
/// nibble first.
#[verifier::external_body]
pub fn hex_encode(b: &[u8]) -> (r: String)
    ensures
        r@ == hex_chars_of(b@),
{
    hex::encode(b)
}

/// Relies on `hex::decode`: succeeds exactly on even-length text made of hex
/// digits of either case, and returns the denoted bytes.
#[verifier::external_body]
pub fn hex_decode(s: &str) -> (r: Option<Vec<u8>>)
    ensures
        r is Some <==> hex_ok(s@),
        r is Some ==> r->0@ == hex_bytes_of(s@),
{
    match hex::decode(s) {
        Ok(v) => Some(v),
        Err(_) => None,
    }
}

} // verus!
