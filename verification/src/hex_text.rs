//! Hexadecimal text: its meaning as bytes, and the two calls into the `hex`
//! crate that turn one into the other.

use vstd::prelude::*;

verus! {

/// The lower-case hexadecimal digit that stands for `n`, for `n` below 16.
pub open spec fn hex_digit(n: int) -> char {
    if n < 10 {
        (('0' as u8) + n) as char
    } else {
        (('a' as u8) + n - 10) as char
    }
}

/// Whether `c` is a hexadecimal digit, in either case.
pub open spec fn is_hex_char(c: char) -> bool {
    ('0' <= c && c <= '9') || ('a' <= c && c <= 'f') || ('A' <= c && c <= 'F')
}

/// Whether `c` is a decimal digit or one of the lower-case letters `a` to `f`.
pub open spec fn is_lower_hex_char(c: char) -> bool {
    ('0' <= c && c <= '9') || ('a' <= c && c <= 'f')
}

/// The number that the hexadecimal digit `c` stands for.
pub open spec fn hex_value(c: char) -> int {
    if '0' <= c && c <= '9' {
        (c as u8) - ('0' as u8)
    } else if 'a' <= c && c <= 'f' {
        (c as u8) - ('a' as u8) + 10
    } else {
        (c as u8) - ('A' as u8) + 10
    }
}

/// Whether every character of `text` is a hexadecimal digit.
pub open spec fn all_hex(text: Seq<char>) -> bool {
    forall|i: int| 0 <= i < text.len() ==> is_hex_char(#[trigger] text[i])
}

/// Whether every character of `text` is a lower-case hexadecimal digit.
pub open spec fn all_lower_hex(text: Seq<char>) -> bool {
    forall|i: int| 0 <= i < text.len() ==> is_lower_hex_char(#[trigger] text[i])
}

/// Whether `text` spells a sequence of bytes: an even number of hexadecimal digits.
pub open spec fn is_hex_text(text: Seq<char>) -> bool {
    text.len() % 2 == 0 && all_hex(text)
}

/// The text of `bytes`: two lower-case digits for each byte, the high half first.
pub open spec fn hex_text(bytes: Seq<u8>) -> Seq<char> {
    Seq::new(
        2 * bytes.len(),
        |i: int|
            if i % 2 == 0 {
                hex_digit(bytes[i / 2] as int / 16)
            } else {
                hex_digit(bytes[i / 2] as int % 16)
            },
    )
}

/// The bytes that `text` spells, two digits to a byte.
pub open spec fn hex_bytes(text: Seq<char>) -> Seq<u8> {
    Seq::new(
        text.len() / 2,
        |i: int| (16 * hex_value(text[2 * i]) + hex_value(text[2 * i + 1])) as u8,
    )
}

/// A lower-case digit stands for the number whose digit it is.
pub proof fn lemma_hex_digit(n: int)
    requires
        0 <= n < 16,
    ensures
        is_lower_hex_char(hex_digit(n)),
        hex_value(hex_digit(n)) == n,
        hex_digit(n) == '0' <==> n == 0,
{
}

/// A lower-case digit is the digit of the number that it stands for.
pub proof fn lemma_hex_value(c: char)
    requires
        is_lower_hex_char(c),
    ensures
        0 <= hex_value(c) < 16,
        hex_digit(hex_value(c)) == c,
{
}

/// The text of bytes has two lower-case digits for each byte and spells the
/// bytes.
pub proof fn lemma_hex_text(bytes: Seq<u8>)
    ensures
        hex_text(bytes).len() == 2 * bytes.len(),
        all_lower_hex(hex_text(bytes)),
        is_hex_text(hex_text(bytes)),
        hex_bytes(hex_text(bytes)) == bytes,
{
    let text = hex_text(bytes);
    assert forall|i: int| 0 <= i < text.len() implies is_lower_hex_char(#[trigger] text[i])
        && is_hex_char(text[i]) by {
        lemma_hex_digit(bytes[i / 2] as int / 16);
        lemma_hex_digit(bytes[i / 2] as int % 16);
    }
    assert forall|i: int| 0 <= i < bytes.len() implies #[trigger] hex_bytes(text)[i]
        == bytes[i] by {
        lemma_hex_digit(bytes[i] as int / 16);
        lemma_hex_digit(bytes[i] as int % 16);
        assert(text[2 * i] == hex_digit(bytes[i] as int / 16));
        assert(text[2 * i + 1] == hex_digit(bytes[i] as int % 16));
    }
    assert(hex_bytes(text) =~= bytes);
}

/// An even number of lower-case digits is the text of the bytes that it
/// spells.
pub proof fn lemma_hex_bytes(text: Seq<char>)
    requires
        text.len() % 2 == 0,
        all_lower_hex(text),
    ensures
        is_hex_text(text),
        hex_bytes(text).len() * 2 == text.len(),
        hex_text(hex_bytes(text)) == text,
{
    let bytes = hex_bytes(text);
    assert forall|i: int| 0 <= i < text.len() implies is_hex_char(#[trigger] text[i]) by {
        assert(is_lower_hex_char(text[i]));
    }
    assert forall|i: int| 0 <= i < text.len() implies #[trigger] hex_text(bytes)[i]
        == text[i] by {
        let j = i / 2;
        assert(is_lower_hex_char(text[2 * j]));
        assert(is_lower_hex_char(text[2 * j + 1]));
        lemma_hex_value(text[2 * j]);
        lemma_hex_value(text[2 * j + 1]);
        let high = hex_value(text[2 * j]);
        let low = hex_value(text[2 * j + 1]);
        assert(bytes[j] == 16 * high + low);
        assert((16 * high + low) / 16 == high);
        assert((16 * high + low) % 16 == low);
    }
    assert(hex_text(bytes) =~= text);
}

/// The text of bytes put together is their texts put together.
pub proof fn lemma_hex_text_joined(front: Seq<u8>, back: Seq<u8>)
    ensures
        hex_text(front + back) == hex_text(front) + hex_text(back),
{
    let whole = hex_text(front + back);
    let joined = hex_text(front) + hex_text(back);
    assert forall|i: int| 0 <= i < whole.len() implies whole[i] == joined[i] by {
        if i < 2 * front.len() {
            assert((front + back)[i / 2] == front[i / 2]);
        } else {
            let j = i - 2 * front.len();
            assert(j / 2 == i / 2 - front.len());
            assert(j % 2 == i % 2);
            assert((front + back)[i / 2] == back[j / 2]);
            assert(joined[i] == hex_text(back)[j]);
        }
    }
    assert(whole =~= joined);
}

/// The error of `hex::decode`, carried through unread.
#[verifier::external_type_specification]
#[verifier::external_body]
pub struct ExFromHexError(hex::FromHexError);

/// Calls `hex::encode`, which writes each byte as two digits taken from
/// `0123456789abcdef`, the high four bits first. The contract says exactly
/// that: the result is `hex_text` of the bytes.
#[verifier::external_body]
pub(crate) fn hex_encode(bytes: &[u8]) -> (text: String)
    ensures
        text@ == hex_text(bytes@),
{
    hex::encode(bytes)
}

/// Calls `hex::decode`, which refuses an odd number of bytes and any byte
/// that is not a hexadecimal digit of either case, and otherwise joins each
/// pair of digits into one byte, the first digit being the high half. The
/// contract says on which texts it succeeds and that the bytes are then
/// `hex_bytes` of the text.
#[verifier::external_body]
pub(crate) fn hex_decode(text: &str) -> (bytes: Result<Vec<u8>, hex::FromHexError>)
    ensures
        bytes.is_ok() == is_hex_text(text@),
        bytes matches Ok(b) ==> b@ == hex_bytes(text@),
{
    hex::decode(text)
}

} // verus!
