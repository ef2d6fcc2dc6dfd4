//! What holds of the two conversions taken together.

use crate::address::{
    address_parts, eth_form, lemma_lower_text, lower_text, padded, payload_address,
    payload_parts, vlx_form, zero_prefixed, AddressError,
};
use crate::base58::{
    all_symbols, base58_bytes, base58_text, bytes_value, is_symbol, leading_ones,
    lemma_base58_text_symbols, lemma_leading_ones, lemma_leading_zeros, lemma_ones_in_front,
    lemma_read_written, lemma_shortest_text, lemma_value_bytes, lemma_value_text,
    lemma_written_read, lemma_zeros_in_front, ones, text_value, value_bytes, zeros,
};
use crate::checksum::{checksum_text, lemma_checksum_shape};
use crate::hex_text::{
    all_hex, all_lower_hex, hex_bytes, hex_text, is_lower_hex_char, lemma_hex_bytes,
    lemma_hex_digit, lemma_hex_text, lemma_hex_text_joined,
};
use vstd::prelude::*;

verus! {

/// The text of zero bytes is made of the digit `0`.
proof fn lemma_zero_text(n: nat)
    ensures
        zero_prefixed(hex_text(zeros(n)), 2 * (n as int)),
{
    lemma_hex_digit(0);
}

/// Where the first `2 * m` digits of the text of `raw` are `0`, the first `m`
/// bytes of `raw` are zero, and the rest of the text is the text of the rest
/// of the bytes.
proof fn lemma_zero_front(raw: Seq<u8>, m: int)
    requires
        0 <= m <= raw.len(),
        zero_prefixed(hex_text(raw), 2 * m),
    ensures
        forall|i: int| 0 <= i < m ==> raw[i] == 0,
        hex_text(raw).subrange(2 * m, 2 * (raw.len() as int)) == hex_text(raw.skip(m)),
{
    let read = hex_text(raw);
    assert forall|i: int| 0 <= i < m implies raw[i] == 0 by {
        lemma_hex_digit(raw[i] as int / 16);
        lemma_hex_digit(raw[i] as int % 16);
        assert(read[2 * i] == '0');
        assert(read[2 * i + 1] == '0');
    }
    let tail = read.subrange(2 * m, 2 * (raw.len() as int));
    assert forall|i: int| 0 <= i < tail.len() implies tail[i] == hex_text(raw.skip(m))[i] by {
        assert((i + 2 * m) / 2 == i / 2 + m);
        assert((i + 2 * m) % 2 == i % 2);
        assert(raw.skip(m)[i / 2] == raw[i / 2 + m]);
    }
    assert(tail =~= hex_text(raw.skip(m)));
}

/// Body and checksum read from a payload build the address of the payload
/// without the `m` zero bytes that reading dropped as padding.
proof fn lemma_parts_rejoined(raw: Seq<u8>, m: int)
    requires
        payload_parts(raw) is Ok,
        m == if raw.len() > 24 { raw.len() - 24 } else { 0 },
    ensures
        forall|i: int| 0 <= i < m ==> raw[i] == 0,
        all_lower_hex(payload_parts(raw)->Ok_0.0),
        payload_address(payload_parts(raw)->Ok_0.0, payload_parts(raw)->Ok_0.1) == Ok::<
            _,
            AddressError,
        >(seq!['V'] + padded(base58_text(raw.skip(m)))),
{
    let read = hex_text(raw);
    let n = raw.len() as int;
    lemma_hex_text(raw);
    assert(zero_prefixed(read, 2 * m));
    lemma_zero_front(raw, m);
    let kept = raw.skip(m);
    let body = read.subrange(2 * m, 2 * n - 8);
    let sum = read.subrange(2 * n - 8, 2 * n);
    assert(payload_parts(raw) == Ok::<_, AddressError>((body, sum)));
    assert forall|i: int| 0 <= i < body.len() implies is_lower_hex_char(#[trigger] body[i]) by {
        assert(body[i] == read[i + 2 * m]);
    }
    assert(body + sum =~= hex_text(kept));
    lemma_hex_text(kept);
}

/// Writing, with padding, the bytes read from 33 symbols gives the symbols
/// back, also after any number of leading zero bytes was dropped.
proof fn lemma_padded_written_read(symbols: Seq<char>, m: int)
    requires
        all_symbols(symbols),
        symbols.len() == 33,
        0 <= m <= base58_bytes(symbols).len(),
        forall|i: int| 0 <= i < m ==> base58_bytes(symbols)[i] == 0,
    ensures
        padded(base58_text(base58_bytes(symbols).skip(m))) == symbols,
{
    let raw = base58_bytes(symbols);
    let kept = raw.skip(m);
    let lo = leading_ones(symbols);
    lemma_leading_ones(symbols);
    if lo == 33 {
        let front = (32 - m) as nat;
        assert(symbols =~= ones(33));
        assert(kept =~= zeros(front) + Seq::<u8>::empty());
        lemma_zeros_in_front(front, Seq::<u8>::empty());
        lemma_value_text(0);
        assert(base58_text(kept) =~= ones(front));
        assert(ones((33 - front) as nat) + ones(front) =~= ones(33));
    } else {
        let rest = symbols.skip(lo as int);
        let v = text_value(symbols);
        let shortest = value_bytes(v);
        lemma_ones_in_front(lo, rest);
        assert(rest[0] == symbols[lo as int]);
        assert(all_symbols(rest)) by {
            assert forall|i: int| 0 <= i < rest.len() implies is_symbol(#[trigger] rest[i]) by {
                assert(rest[i] == symbols[lo + i]);
            }
        }
        lemma_shortest_text(rest);
        lemma_value_bytes(v);
        assert(raw == zeros(lo) + shortest);
        assert(raw[lo as int] == shortest[0]);
        assert(m <= lo);
        let front = (lo - m) as nat;
        assert(kept =~= zeros(front) + shortest);
        lemma_zeros_in_front(front, shortest);
        assert(base58_text(kept) == ones(front) + rest);
        assert(ones(m as nat) + (ones(front) + rest) =~= ones(lo) + rest);
        assert(ones(0) + (ones(front) + rest) =~= ones(front) + rest);
    }
}

/// An address built from a body of 40 lower-case digits and any checksum of
/// eight such digits carries exactly that body and that checksum: the
/// padding that building adds is dropped again by reading.
pub proof fn law_payload_round_trip(body: Seq<char>, sum: Seq<char>)
    requires
        body.len() == 40,
        all_lower_hex(body),
        sum.len() == 8,
        all_lower_hex(sum),
    ensures
        payload_address(body, sum) is Ok,
        address_parts(payload_address(body, sum)->Ok_0) == Ok::<_, AddressError>((body, sum)),
{
    let digits = body + sum;
    assert forall|i: int| 0 <= i < digits.len() implies is_lower_hex_char(#[trigger] digits[i]) by {
        if i < 40 {
            assert(is_lower_hex_char(body[i]));
        } else {
            assert(is_lower_hex_char(sum[i - 40]));
        }
    }
    lemma_hex_bytes(digits);
    let bytes = hex_bytes(digits);
    let text = base58_text(bytes);
    let k: nat = if text.len() < 33 { (33 - text.len()) as nat } else { 0 };
    let symbols = ones(k) + text;
    assert(padded(text) =~= symbols);
    let address = seq!['V'] + symbols;
    assert(payload_address(body, sum) == Ok::<_, AddressError>(address));
    assert(address.skip(1) =~= symbols);
    lemma_base58_text_symbols(bytes);
    assert forall|i: int| 0 <= i < symbols.len() implies is_symbol(#[trigger] symbols[i]) by {
        if i >= k {
            assert(symbols[i] == text[i - k]);
        }
    }
    lemma_read_written(k, bytes);
    let raw = base58_bytes(symbols);
    let j: nat = if bytes_value(bytes) > 0 { k } else { (k - 1) as nat };
    if bytes_value(bytes) == 0 {
        lemma_leading_zeros(bytes);
        lemma_value_text(0);
        assert(text.len() <= 24);
    }
    assert(raw == zeros(j) + bytes);
    lemma_hex_text_joined(zeros(j), bytes);
    lemma_hex_text(zeros(j));
    lemma_zero_text(j);
    let read = hex_text(raw);
    assert(read == hex_text(zeros(j)) + digits);
    assert(read.len() == 2 * j + 48);
    assert(zero_prefixed(read, 2 * (j as int))) by {
        assert forall|i: int| 0 <= i < 2 * j implies read[i] == '0' by {
            assert(read[i] == hex_text(zeros(j))[i]);
        }
    }
    assert(read.subrange(2 * (j as int), 2 * (j as int) + 40) =~= body);
    assert(read.subrange(2 * (j as int) + 40, 2 * (j as int) + 48) =~= sum);
}

/// Converting a hexadecimal address of 40 digits, in either case, to the
/// checksummed form and back gives the address in lower case.
pub proof fn law_eth_round_trip(body: Seq<char>)
    requires
        body.len() == 40,
        all_hex(body),
    ensures
        vlx_form(seq!['0', 'x'] + body) is Ok,
        eth_form(vlx_form(seq!['0', 'x'] + body)->Ok_0) == Ok::<_, AddressError>(
            seq!['0', 'x'] + lower_text(body),
        ),
{
    let address = seq!['0', 'x'] + body;
    assert(address.skip(2) =~= body);
    let lower = lower_text(body);
    lemma_lower_text(body);
    lemma_checksum_shape(lower);
    law_payload_round_trip(lower, checksum_text(lower));
}

/// An address built from a body of 40 lower-case digits and eight such
/// digits that are not the body's checksum is refused for its checksum.
pub proof fn law_wrong_checksum_refused(body: Seq<char>, sum: Seq<char>)
    requires
        body.len() == 40,
        all_lower_hex(body),
        sum.len() == 8,
        all_lower_hex(sum),
        sum != checksum_text(body),
    ensures
        payload_address(body, sum) is Ok,
        eth_form(payload_address(body, sum)->Ok_0) == Err::<Seq<char>, _>(
            AddressError::ChecksumMismatch,
        ),
{
    law_payload_round_trip(body, sum);
}

/// A body that was changed, in one digit or in more, and is sent with the
/// checksum of the body that it was made from is refused for its checksum,
/// as long as the two bodies do not have the same checksum.
pub proof fn law_changed_body_refused(body: Seq<char>, changed: Seq<char>)
    requires
        body.len() == 40,
        all_lower_hex(body),
        changed.len() == 40,
        all_lower_hex(changed),
        checksum_text(changed) != checksum_text(body),
    ensures
        payload_address(changed, checksum_text(body)) is Ok,
        eth_form(payload_address(changed, checksum_text(body))->Ok_0) == Err::<Seq<char>, _>(
            AddressError::ChecksumMismatch,
        ),
{
    lemma_checksum_shape(body);
    law_wrong_checksum_refused(changed, checksum_text(body));
}

/// Converting a checksummed address to the hexadecimal form and back gives
/// the same address, if it carries a body of exactly 40 digits (24 bytes
/// with the checksum, so that reading dropped no padding) and has at least
/// 33 symbols after the prefix. A shorter address that converts comes back
/// padded, and so not as it was.
pub proof fn law_vlx_round_trip(address: Seq<char>)
    requires
        eth_form(address) is Ok,
        base58_bytes(address.skip(1)).len() == 24,
        address.len() >= 34,
    ensures
        vlx_form(eth_form(address)->Ok_0) == Ok::<_, AddressError>(address),
{
    let symbols = address.skip(1);
    let raw = base58_bytes(symbols);
    lemma_parts_rejoined(raw, 0);
    let body = payload_parts(raw)->Ok_0.0;
    let eth = seq!['0', 'x'] + body;
    assert(eth_form(address) == Ok::<_, AddressError>(eth));
    assert(eth.skip(2) =~= body);
    lemma_lower_text(body);
    assert(raw.skip(0) =~= raw);
    lemma_leading_ones(symbols);
    lemma_written_read(symbols);
    assert(seq!['V'] + symbols =~= address);
}

/// Converting a checksummed address of the padded length, 33 symbols after
/// the prefix, to the hexadecimal form and back gives the same address,
/// whether or not reading dropped padding.
pub proof fn law_padded_round_trip(address: Seq<char>)
    requires
        eth_form(address) is Ok,
        address.len() == 34,
    ensures
        vlx_form(eth_form(address)->Ok_0) == Ok::<_, AddressError>(address),
{
    let symbols = address.skip(1);
    let raw = base58_bytes(symbols);
    let m: int = if raw.len() > 24 { raw.len() - 24 } else { 0 };
    lemma_parts_rejoined(raw, m);
    lemma_padded_written_read(symbols, m);
    let body = payload_parts(raw)->Ok_0.0;
    let eth = seq!['0', 'x'] + body;
    assert(eth_form(address) == Ok::<_, AddressError>(eth));
    assert(eth.skip(2) =~= body);
    lemma_lower_text(body);
    assert(seq!['V'] + symbols =~= address);
}

} // verus!
