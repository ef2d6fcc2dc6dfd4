//! The two conversions, and the steps that they are made of.

use crate::base58::{all_symbols, base58_bytes, base58_decode, base58_encode, base58_text, ones};
use crate::checksum::{checksum, checksum_text};
use crate::hex_text::{
    all_hex, all_lower_hex, hex_bytes, hex_decode, hex_encode, hex_text, is_hex_char,
    is_hex_text, is_lower_hex_char,
};
use vstd::prelude::*;
use vstd::string::{StrSliceExecFns, StringExecFns};

verus! {

/// Why a conversion was refused.
#[derive(Debug, Clone, Copy, PartialEq, Eq, Structural)]
pub enum AddressError {
    /// The text does not have the shape of an address.
    InvalidFormat,
    /// The text is well formed, but its checksum is not that of its body.
    ChecksumMismatch,
}

impl AddressError {
    /// The words for this error.
    pub open spec fn message_text(self) -> Seq<char> {
        match self {
            AddressError::InvalidFormat => "Invalid address"@,
            AddressError::ChecksumMismatch => "Invalid checksum"@,
        }
    }

    /// The words for this error: `Invalid address` or `Invalid checksum`.
    pub fn message(&self) -> (text: &'static str)
        ensures
            text@ == self.message_text(),
    {
        match self {
            AddressError::InvalidFormat => "Invalid address",
            AddressError::ChecksumMismatch => "Invalid checksum",
        }
    }
}

/// The length to which the Base58 part of an address is padded.
pub const PADDED_LEN: usize = 33;

/// The length of a full body in hexadecimal digits: 20 bytes.
pub const BODY_LEN: usize = 40;

/// The lower-case form of `c`, for the letters `A` to `Z`; any other
/// character stays.
pub open spec fn lower_char(c: char) -> char {
    if 'A' <= c && c <= 'Z' {
        ((c as u8) + 32) as char
    } else {
        c
    }
}

/// `text` with each character in its lower-case form.
pub open spec fn lower_text(text: Seq<char>) -> Seq<char> {
    Seq::new(text.len(), |i: int| lower_char(text[i]))
}

/// Text in lower case is made of lower-case digits if it was made of
/// hexadecimal digits, and lower-case digits stay as they are.
pub proof fn lemma_lower_text(text: Seq<char>)
    ensures
        lower_text(text).len() == text.len(),
        all_hex(text) ==> all_lower_hex(lower_text(text)),
        all_lower_hex(text) ==> lower_text(text) == text,
{
    if all_hex(text) {
        assert forall|i: int| 0 <= i < text.len() implies is_lower_hex_char(
            #[trigger] lower_text(text)[i],
        ) by {
            assert(is_hex_char(text[i]));
        }
    }
    if all_lower_hex(text) {
        assert forall|i: int| 0 <= i < text.len() implies lower_text(text)[i] == text[i] by {
            assert(is_lower_hex_char(text[i]));
        }
        assert(lower_text(text) =~= text);
    }
}

/// `text` with as many `1` in front as it takes to reach 33 symbols.
pub open spec fn padded(text: Seq<char>) -> Seq<char> {
    if text.len() < 33 {
        ones((33 - text.len()) as nat) + text
    } else {
        text
    }
}

/// The address that carries `body` and `checksum`: both together must spell
/// at least one byte in hexadecimal; the bytes are written in Base58, padded,
/// and prefixed with `V`.
pub open spec fn payload_address(body: Seq<char>, checksum: Seq<char>) -> Result<
    Seq<char>,
    AddressError,
> {
    let digits = body + checksum;
    if is_hex_text(digits) && digits.len() > 0 {
        Ok(seq!['V'] + padded(base58_text(hex_bytes(digits))))
    } else {
        Err(AddressError::InvalidFormat)
    }
}

/// The checksummed form of the hexadecimal `address`: after the prefix `0x`
/// the rest is put in lower case and carried together with its checksum.
pub open spec fn vlx_form(address: Seq<char>) -> Result<Seq<char>, AddressError> {
    if address.len() >= 2 && address[0] == '0' && address[1] == 'x' {
        let body = lower_text(address.skip(2));
        payload_address(body, checksum_text(body))
    } else {
        Err(AddressError::InvalidFormat)
    }
}

/// Whether the first `n` characters of `text` are all `0`.
pub open spec fn zero_prefixed(text: Seq<char>, n: int) -> bool {
    forall|i: int| 0 <= i < n ==> text[i] == '0'
}

/// Body and checksum of the payload `raw`, read in hexadecimal: the last
/// eight digits are the checksum, and at least one digit must stand before
/// them. Of a body longer than 40 digits the surplus at the front must be
/// zeros, which are dropped; a shorter body stays as it is.
pub open spec fn payload_parts(raw: Seq<u8>) -> Result<
    (Seq<char>, Seq<char>),
    AddressError,
> {
    let digits = hex_text(raw);
    let cut = digits.len() - 8;
    if cut < 1 {
        Err(AddressError::InvalidFormat)
    } else if cut > 40 {
        if zero_prefixed(digits, cut - 40) {
            Ok((digits.subrange(cut - 40, cut), digits.subrange(cut, cut + 8)))
        } else {
            Err(AddressError::InvalidFormat)
        }
    } else {
        Ok((digits.subrange(0, cut), digits.subrange(cut, cut + 8)))
    }
}

/// Body and checksum that the checksummed `address` carries: after the
/// prefix `V` at least one symbol must follow, all of the alphabet; their
/// bytes are the payload.
pub open spec fn address_parts(address: Seq<char>) -> Result<
    (Seq<char>, Seq<char>),
    AddressError,
> {
    if address.len() >= 2 && address[0] == 'V' && all_symbols(address.skip(1)) {
        payload_parts(base58_bytes(address.skip(1)))
    } else {
        Err(AddressError::InvalidFormat)
    }
}

/// The hexadecimal form of the checksummed `address`: the body that it
/// carries, prefixed with `0x`, if the checksum that it carries is the
/// body's.
pub open spec fn eth_form(address: Seq<char>) -> Result<Seq<char>, AddressError> {
    match address_parts(address) {
        Err(e) => Err(e),
        Ok((body, sum)) => if checksum_text(body) == sum {
            Ok(seq!['0', 'x'] + body)
        } else {
            Err(AddressError::ChecksumMismatch)
        },
    }
}

/// A result with its text taken by its view.
pub open spec fn text_view(r: Result<String, AddressError>) -> Result<Seq<char>, AddressError> {
    match r {
        Ok(text) => Ok(text@),
        Err(e) => Err(e),
    }
}

/// A result with both of its texts taken by their views.
pub open spec fn parts_view(r: Result<(String, String), AddressError>) -> Result<
    (Seq<char>, Seq<char>),
    AddressError,
> {
    match r {
        Ok((body, sum)) => Ok((body@, sum@)),
        Err(e) => Err(e),
    }
}

/// Calls `str::to_ascii_lowercase`, which maps the letters `A` to `Z` to
/// `a` to `z` and leaves every other character as it is.
#[verifier::external_body]
fn lowercase(text: &str) -> (lower: String)
    ensures
        lower@ == lower_text(text@),
{
    text.to_ascii_lowercase()
}

/// Builds the address that carries `body` and `checksum`.
pub fn encode_payload(body: &str, checksum: &str) -> (r: Result<String, AddressError>)
    ensures
        text_view(r) == payload_address(body@, checksum@),
{
    let digits = String::from_str(body).concat(checksum);
    match hex_decode(digits.as_str()) {
        Err(_) => Err(AddressError::InvalidFormat),
        Ok(raw) => {
            if raw.len() == 0 {
                return Err(AddressError::InvalidFormat);
            }
            let text = base58_encode(raw.as_slice());
            let len = text.as_str().unicode_len();
            let mut out = String::from_str("V");
            proof {
                reveal_strlit("V");
                reveal_strlit("1");
            }
            assert(out@ == seq!['V']);
            let mut n: usize = len;
            while n < PADDED_LEN
                invariant
                    len <= n,
                    len == text@.len(),
                    n <= 33 || n == len,
                    "1"@ == seq!['1'],
                    out@ == seq!['V'] + ones((n - len) as nat),
                decreases 33 - n,
            {
                out.append("1");
                n = n + 1;
            }
            out.append(text.as_str());
            assert(out@ == seq!['V'] + padded(text@)) by {
                if len < 33 {
                    assert(out@ =~= seq!['V'] + (ones((33 - len) as nat) + text@));
                } else {
                    assert(out@ =~= seq!['V'] + text@);
                }
            }
            Ok(out)
        },
    }
}

/// Converts the hexadecimal `address`, prefixed `0x`, to its checksummed
/// form, prefixed `V`.
pub fn eth_to_vlx(address: &str) -> (r: Result<String, AddressError>)
    ensures
        text_view(r) == vlx_form(address@),
{
    let len = address.unicode_len();
    if len < 2 || address.get_char(0) != '0' || address.get_char(1) != 'x' {
        return Err(AddressError::InvalidFormat);
    }
    let body = lowercase(address.substring_char(2, len));
    let sum = checksum(body.as_str());
    encode_payload(body.as_str(), sum.as_str())
}

/// Splits the payload `raw` into the body and the checksum that it carries.
pub fn split_payload(raw: &[u8]) -> (r: Result<(String, String), AddressError>)
    ensures
        parts_view(r) == payload_parts(raw@),
{
    let digits = hex_encode(raw);
    let len = digits.as_str().unicode_len();
    if len < 9 {
        return Err(AddressError::InvalidFormat);
    }
    let cut = len - 8;
    let mut start: usize = 0;
    if cut > BODY_LEN {
        let surplus = cut - BODY_LEN;
        while start < surplus
            invariant
                start <= surplus,
                surplus == cut - 40,
                cut == digits@.len() - 8,
                digits@ == hex_text(raw@),
                zero_prefixed(digits@, start as int),
            decreases surplus - start,
        {
            if digits.as_str().get_char(start) != '0' {
                return Err(AddressError::InvalidFormat);
            }
            start = start + 1;
        }
    }
    let body = digits.as_str().substring_char(start, cut).to_owned();
    let sum = digits.as_str().substring_char(cut, len).to_owned();
    Ok((body, sum))
}

/// Reads the body and the checksum that the checksummed `address` carries,
/// without comparing the checksum with the body's.
pub fn decode_payload(address: &str) -> (r: Result<(String, String), AddressError>)
    ensures
        parts_view(r) == address_parts(address@),
{
    let len = address.unicode_len();
    if len < 1 || address.get_char(0) != 'V' {
        return Err(AddressError::InvalidFormat);
    }
    match base58_decode(address.substring_char(1, len)) {
        None => Err(AddressError::InvalidFormat),
        Some(raw) => split_payload(raw.as_slice()),
    }
}

/// Converts the checksummed `address`, prefixed `V`, to its hexadecimal
/// form, prefixed `0x`.
pub fn vlx_to_eth(address: &str) -> (r: Result<String, AddressError>)
    ensures
        text_view(r) == eth_form(address@),
{
    match decode_payload(address) {
        Err(e) => Err(e),
        Ok((body, sum)) => {
            let expected = checksum(body.as_str());
            if expected == sum {
                proof {
                    reveal_strlit("0x");
                    assert("0x"@ =~= seq!['0', 'x']);
                }
                Ok(String::from_str("0x").concat(body.as_str()))
            } else {
                Err(AddressError::ChecksumMismatch)
            }
        },
    }
}

} // verus!
