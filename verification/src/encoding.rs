//! Text renderings used on the wire: byte strings as lower-case hexadecimal
//! without a prefix, machine integers as base-10 decimal.

use vstd::prelude::*;

verus! {

/// The sixteen lower-case hexadecimal digits, in order of value.
pub open spec fn hex_alphabet() -> Seq<char> {
    seq!['0', '1', '2', '3', '4', '5', '6', '7', '8', '9', 'a', 'b', 'c', 'd', 'e', 'f']
}

/// Lower-case hexadecimal rendering of a byte string: two digits per byte, the
/// high nibble first, no prefix.
pub open spec fn hex_string(bytes: Seq<u8>) -> Seq<char> {
    Seq::new(
        2 * bytes.len(),
        |i: int|
            if i % 2 == 0 {
                hex_alphabet()[bytes[i / 2] as int / 16]
            } else {
                hex_alphabet()[bytes[i / 2] as int % 16]
            },
    )
}

/// Value of a hexadecimal digit of either case, or `None` for any other
/// character.
pub open spec fn hex_value(c: char) -> Option<int> {
    if '0' <= c <= '9' {
        Some(c as int - '0' as int)
    } else if 'a' <= c <= 'f' {
        Some(c as int - 'a' as int + 10)
    } else if 'A' <= c <= 'F' {
        Some(c as int - 'A' as int + 10)
    } else {
        None
    }
}

/// The text without a leading `0x`, if it has one.
pub open spec fn without_hex_prefix(text: Seq<char>) -> Seq<char> {
    if text.len() >= 2 && text[0] == '0' && text[1] == 'x' {
        text.skip(2)
    } else {
        text
    }
}

/// The bytes that a hexadecimal text stands for. The text may start with `0x`;
/// after that it must hold an even number of hexadecimal digits, of either
/// case, and nothing else.
pub open spec fn hex_bytes(text: Seq<char>) -> Option<Seq<u8>> {
    let digits = without_hex_prefix(text);
    if digits.len() % 2 == 0 && (forall|i: int| 0 <= i < digits.len() ==> hex_value(
        #[trigger] digits[i],
    ) is Some) {
        Some(
            Seq::new(
                digits.len() / 2,
                |i: int| (16 * hex_value(digits[2 * i])->0 + hex_value(digits[2 * i + 1])->0) as u8,
            ),
        )
    } else {
        None
    }
}

/// Two byte strings with one hexadecimal rendering are the same byte string.
pub proof fn lemma_hex_injective(first: Seq<u8>, second: Seq<u8>)
    requires
        hex_string(first) == hex_string(second),
    ensures
        first == second,
{
    assert(hex_string(first).len() == 2 * first.len());
    assert(hex_string(second).len() == 2 * second.len());
    assert forall|i: int| 0 <= i < first.len() implies first[i] == second[i] by {
        let high = first[i] as int / 16;
        let low = first[i] as int % 16;
        let other_high = second[i] as int / 16;
        let other_low = second[i] as int % 16;
        assert(hex_string(first)[2 * i] == hex_alphabet()[high]);
        assert(hex_string(second)[2 * i] == hex_alphabet()[other_high]);
        assert(hex_string(first)[2 * i + 1] == hex_alphabet()[low]);
        assert(hex_string(second)[2 * i + 1] == hex_alphabet()[other_low]);
        lemma_digits_differ(high, other_high);
        lemma_digits_differ(low, other_low);
    }
    assert(first =~= second);
}

/// No two places of the alphabet hold the same digit.
proof fn lemma_digits_differ(i: int, j: int)
    requires
        0 <= i < 16,
        0 <= j < 16,
        hex_alphabet()[i] == hex_alphabet()[j],
    ensures
        i == j,
{
}

/// `substreams::Hex::to_string`: every byte becomes its two lower-case
/// hexadecimal digits, in order, and nothing is put before or between them.
#[verifier::external_body]
fn hex_encode(bytes: &[u8]) -> (text: String)
    ensures
        text@ == hex_string(bytes@),
{
    substreams::Hex(bytes).to_string()
}

/// `substreams::Hex::decode`: drops a leading `0x`, then reads two digits per
/// byte and fails on an odd number of digits or on a character that is no
/// hexadecimal digit. It indexes the first two bytes of its input, so a text
/// shorter than that is left out.
#[verifier::external_body]
fn hex_decode(text: &str) -> (bytes: Option<Vec<u8>>)
    requires
        text@.len() >= 2,
    ensures
        bytes is Some <==> hex_bytes(text@) is Some,
        bytes matches Some(b) ==> b@ == hex_bytes(text@)->0,
{
    substreams::Hex::decode(text).ok()
}

/// Renders a byte string as lower-case hexadecimal without a prefix.
pub fn to_hex(bytes: &[u8]) -> (text: String)
    ensures
        text@ == hex_string(bytes@),
{
    hex_encode(bytes)
}

/// Reads a hexadecimal text, with or without a leading `0x`. A text of fewer
/// than two characters holds no byte string and is refused like any other
/// malformed text.
pub fn from_hex(text: &str) -> (bytes: Option<Vec<u8>>)
    ensures
        bytes is Some <==> text@.len() >= 2 && hex_bytes(text@) is Some,
        bytes matches Some(b) ==> b@ == hex_bytes(text@)->0,
{
    if text.unicode_len() < 2 {
        None
    } else {
        hex_decode(text)
    }
}

} // verus!
