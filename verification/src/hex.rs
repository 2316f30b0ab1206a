//! Hexadecimal text: how bytes are written as digits and read back.

use rustc_serialize::hex::{FromHex, FromHexError};
use vstd::prelude::*;

verus! {

/// Why a text could not be read as hexadecimal.
#[derive(Clone, Copy, Debug, PartialEq, Eq, Structural)]
pub enum HexError {
    /// A character that is neither a hexadecimal digit nor white space, and the index of its
    /// first byte in the text.
    InvalidCharacter(char, usize),
    /// The digits do not pair up into bytes.
    InvalidLength,
}

/// The lower-case hexadecimal digit for a value below sixteen.
pub open spec fn hex_digit(value: nat) -> char {
    if value < 10 {
        (48 + value) as char
    } else {
        (87 + value) as char
    }
}

/// The value of a hexadecimal digit of either case; `None` for any other character.
pub open spec fn hex_value(digit: char) -> Option<nat> {
    let code = digit as nat;
    if 48 <= code <= 57 {
        Some((code - 48) as nat)
    } else if 97 <= code <= 102 {
        Some((code - 87) as nat)
    } else if 65 <= code <= 70 {
        Some((code - 55) as nat)
    } else {
        None
    }
}

/// The text that writes each byte as two lower-case hexadecimal digits.
pub open spec fn hex_text(bytes: Seq<u8>) -> Seq<char> {
    Seq::new(
        2 * bytes.len(),
        |i: int|
            if i % 2 == 0 {
                hex_digit((bytes[i / 2] / 16) as nat)
            } else {
                hex_digit((bytes[i / 2] % 16) as nat)
            },
    )
}

/// Whether a text is an even number of hexadecimal digits and nothing else.
pub open spec fn is_hex_text(text: Seq<char>) -> bool {
    &&& text.len() % 2 == 0
    &&& forall|i: int| 0 <= i < text.len() ==> hex_value(#[trigger] text[i]) is Some
}

/// The bytes that a text of hexadecimal digits spells, two digits to a byte.
pub open spec fn hex_bytes(text: Seq<char>) -> Seq<u8> {
    Seq::new(
        text.len() / 2,
        |i: int| (16 * hex_value(text[2 * i]).unwrap() + hex_value(text[2 * i + 1]).unwrap()) as u8,
    )
}

/// Whether the character is one of the four white-space characters that may stand between
/// hexadecimal digits: space, carriage return, line feed and tab.
pub open spec fn is_space(character: char) -> bool {
    character == ' ' || character == '\r' || character == '\n' || character == '\t'
}

/// Whether the character is a hexadecimal digit of either case.
pub open spec fn is_digit() -> spec_fn(char) -> bool {
    |character: char| hex_value(character) is Some
}

/// Whether the character may not stand in hexadecimal text: it is neither a digit nor white
/// space.
pub open spec fn is_stray(character: char) -> bool {
    hex_value(character) is None && !is_space(character)
}

/// Where the first character stands that may not stand in hexadecimal text, if there is one.
pub open spec fn first_stray(text: Seq<char>) -> Option<int>
    decreases text.len(),
{
    if text.len() == 0 {
        None
    } else {
        match first_stray(text.drop_last()) {
            Some(at) => Some(at),
            None => if is_stray(text.last()) {
                Some(text.len() - 1)
            } else {
                None
            },
        }
    }
}

/// The digits of a text, without what stands between them.
pub open spec fn digits_of(text: Seq<char>) -> Seq<char> {
    text.filter(is_digit())
}

/// The bytes a text decodes to, or why it does not decode.
///
/// A text with a character that is neither a digit nor white space does not decode, because
/// of the first such character. Any other text decodes just when its digits pair up, to the
/// bytes that its digits spell; white space counts for nothing.
pub open spec fn decoded(text: Seq<char>) -> Result<Seq<u8>, HexError> {
    match first_stray(text) {
        Some(at) => Err(HexError::InvalidCharacter(text[at], at as usize)),
        None => if digits_of(text).len() % 2 == 0 {
            Ok(hex_bytes(digits_of(text)))
        } else {
            Err(HexError::InvalidLength)
        },
    }
}

/// The first stray character of a text is stray, and none before it is. A text without one
/// holds no stray character.
pub proof fn lemma_first_stray(text: Seq<char>)
    ensures
        match first_stray(text) {
            Some(at) => 0 <= at < text.len() && is_stray(text[at]) && forall|i: int|
                0 <= i < at ==> !is_stray(#[trigger] text[i]),
            None => forall|i: int| 0 <= i < text.len() ==> !is_stray(#[trigger] text[i]),
        },
    decreases text.len(),
{
    if text.len() > 0 {
        let front = text.drop_last();
        lemma_first_stray(front);
        match first_stray(front) {
            Some(at) => {
                assert forall|i: int| 0 <= i < at implies !is_stray(#[trigger] text[i]) by {
                    assert(front[i] == text[i]);
                }
                assert(front[at] == text[at]);
            },
            None => {
                assert forall|i: int| 0 <= i < text.len() - 1 implies !is_stray(#[trigger] text[i]) by {
                    assert(front[i] == text[i]);
                }
            },
        }
    }
}

/// A text of nothing but digits has no stray character and is its own digits.
pub proof fn lemma_only_digits(text: Seq<char>)
    requires
        forall|i: int| 0 <= i < text.len() ==> hex_value(#[trigger] text[i]) is Some,
    ensures
        first_stray(text) is None,
        digits_of(text) == text,
    decreases text.len(),
{
    if text.len() == 0 {
        assert(digits_of(text) =~= text) by {
            reveal(Seq::filter);
        }
    } else {
        let front = text.drop_last();
        assert forall|i: int| 0 <= i < front.len() implies hex_value(#[trigger] front[i]) is Some by {
            assert(front[i] == text[i]);
        }
        lemma_only_digits(front);
        assert(text =~= front.push(text.last()));
        front.lemma_filter_push(text.last(), is_digit());
        assert(hex_value(text[text.len() - 1]) is Some);
    }
}

/// A text that is nothing but pairs of digits decodes to the bytes that it spells.
pub proof fn lemma_digit_pairs_decode(text: Seq<char>)
    requires
        is_hex_text(text),
    ensures
        decoded(text) == Ok::<Seq<u8>, HexError>(hex_bytes(text)),
{
    lemma_only_digits(text);
}

/// Writing bytes as hexadecimal gives a text of digits that spells the same bytes.
pub proof fn lemma_hex_text_decodes(bytes: Seq<u8>)
    ensures
        is_hex_text(hex_text(bytes)),
        hex_bytes(hex_text(bytes)) == bytes,
        decoded(hex_text(bytes)) == Ok::<Seq<u8>, HexError>(bytes),
{
    let text = hex_text(bytes);
    assert forall|i: int| 0 <= i < text.len() implies hex_value(#[trigger] text[i]) is Some by {
        let byte = bytes[i / 2];
        assert(byte / 16 < 16 && byte % 16 < 16);
    }
    assert forall|i: int| 0 <= i < bytes.len() implies #[trigger] hex_bytes(text)[i] == bytes[i] by {
        let byte = bytes[i];
        assert((2 * i) / 2 == i && (2 * i + 1) / 2 == i);
        assert(hex_value(hex_digit((byte / 16) as nat)) == Some((byte / 16) as nat));
        assert(hex_value(hex_digit((byte % 16) as nat)) == Some((byte % 16) as nat));
    }
    assert(hex_bytes(text) =~= bytes);
    lemma_digit_pairs_decode(text);
}

/// What a decoding comes to: the bytes, or why there are none.
pub open spec fn outcome_view(outcome: Result<Vec<u8>, HexError>) -> Result<Seq<u8>, HexError> {
    match outcome {
        Ok(bytes) => Ok(bytes@),
        Err(error) => Err(error),
    }
}

/// Decodes a text with `rustc_serialize`'s `from_hex`. The contract claims what the decoder's
/// source shows. It stops at the first byte that is neither a digit nor one of the four
/// white-space characters, and reports the character there and where it stands; every
/// character before it is a single byte, so the place is the same counted in characters. It
/// passes over white space, makes one byte of each two digits, the first digit the upper half,
/// and reports a last digit that is left alone.
#[verifier::external_body]
pub(crate) fn decode_hex(text: &str) -> (outcome: Result<Vec<u8>, HexError>)
    ensures
        outcome_view(outcome) == decoded(text@),
{
    match text.from_hex() {
        Ok(bytes) => Ok(bytes),
        Err(FromHexError::InvalidHexCharacter(character, index)) => Err(
            HexError::InvalidCharacter(character, index),
        ),
        Err(FromHexError::InvalidHexLength) => Err(HexError::InvalidLength),
    }
}

/// `String::push` of the standard library: the character is appended to the text.
#[verifier::external_body]
pub(crate) fn push_char(text: &mut String, character: char)
    ensures
        final(text)@ == old(text)@.push(character),
{
    text.push(character)
}

/// The lower-case hexadecimal digit for a value below sixteen.
fn digit_for(value: u8) -> (digit: char)
    requires
        value < 16,
    ensures
        digit == hex_digit(value as nat),
{
    if value < 10 {
        (48 + value) as char
    } else {
        (87 + value) as char
    }
}

/// Writes each byte as two lower-case hexadecimal digits.
pub fn to_hex(bytes: &[u8]) -> (text: String)
    ensures
        text@ == hex_text(bytes@),
{
    let mut text = String::new();
    let mut i: usize = 0;
    while i < bytes.len()
        invariant
            i <= bytes.len(),
            text@ == hex_text(bytes@.subrange(0, i as int)),
        decreases bytes.len() - i,
    {
        let byte = bytes[i];
        push_char(&mut text, digit_for(byte / 16));
        push_char(&mut text, digit_for(byte % 16));
        i += 1;
        assert(text@ =~= hex_text(bytes@.subrange(0, i as int)));
    }
    assert(bytes@.subrange(0, i as int) =~= bytes@);
    text
}

} // verus!
