//! Base58 in the Bitcoin alphabet: what a text means as bytes and what bytes
//! are written as, and the two calls into the `basex_rs` crate.

use basex_rs::{BaseX, Decode, Encode, BITCOIN};
use vstd::prelude::*;

verus! {

/// The symbol of the digit `d`, for `d` below 58. The alphabet is
/// `123456789ABCDEFGHJKLMNPQRSTUVWXYZabcdefghijkmnopqrstuvwxyz`: the digits
/// and letters without `0`, `I`, `O` and `l`.
pub open spec fn symbol(d: int) -> char {
    if d < 9 {
        (('1' as u8) + d) as char
    } else if d < 17 {
        (('A' as u8) + d - 9) as char
    } else if d < 22 {
        (('J' as u8) + d - 17) as char
    } else if d < 33 {
        (('P' as u8) + d - 22) as char
    } else if d < 44 {
        (('a' as u8) + d - 33) as char
    } else {
        (('m' as u8) + d - 44) as char
    }
}

/// Whether `c` belongs to the alphabet.
pub open spec fn is_symbol(c: char) -> bool {
    ||| '1' <= c && c <= '9'
    ||| 'A' <= c && c <= 'H'
    ||| 'J' <= c && c <= 'N'
    ||| 'P' <= c && c <= 'Z'
    ||| 'a' <= c && c <= 'k'
    ||| 'm' <= c && c <= 'z'
}

/// The digit that the symbol `c` stands for.
pub open spec fn symbol_value(c: char) -> int {
    if c <= '9' {
        (c as u8) - ('1' as u8)
    } else if c <= 'H' {
        (c as u8) - ('A' as u8) + 9
    } else if c <= 'N' {
        (c as u8) - ('J' as u8) + 17
    } else if c <= 'Z' {
        (c as u8) - ('P' as u8) + 22
    } else if c <= 'k' {
        (c as u8) - ('a' as u8) + 33
    } else {
        (c as u8) - ('m' as u8) + 44
    }
}

/// Whether every character of `text` belongs to the alphabet.
pub open spec fn all_symbols(text: Seq<char>) -> bool {
    forall|i: int| 0 <= i < text.len() ==> is_symbol(#[trigger] text[i])
}

/// The number that `bytes` spell in base 256, the first byte counting most.
pub open spec fn bytes_value(bytes: Seq<u8>) -> nat
    decreases bytes.len(),
{
    if bytes.len() == 0 {
        0
    } else {
        bytes_value(bytes.drop_last()) * 256 + bytes.last() as nat
    }
}

/// The number that `text` spells in base 58, the first symbol counting most.
pub open spec fn text_value(text: Seq<char>) -> nat
    decreases text.len(),
{
    if text.len() == 0 {
        0
    } else {
        text_value(text.drop_last()) * 58 + symbol_value(text.last()) as nat
    }
}

/// The shortest bytes that spell `n` in base 256: none for zero.
pub open spec fn value_bytes(n: nat) -> Seq<u8>
    decreases n,
{
    if n == 0 {
        Seq::empty()
    } else {
        value_bytes(n / 256).push((n % 256) as u8)
    }
}

/// The shortest text that spells `n` in base 58: empty for zero.
pub open spec fn value_text(n: nat) -> Seq<char>
    decreases n,
{
    if n == 0 {
        Seq::empty()
    } else {
        value_text(n / 58).push(symbol((n % 58) as int))
    }
}

/// How many zero bytes stand at the front of `bytes`.
pub open spec fn leading_zeros(bytes: Seq<u8>) -> nat
    decreases bytes.len(),
{
    if bytes.len() == 0 || bytes[0] != 0 {
        0
    } else {
        1 + leading_zeros(bytes.drop_first())
    }
}

/// How many times the zero symbol `1` stands at the front of `text`.
pub open spec fn leading_ones(text: Seq<char>) -> nat
    decreases text.len(),
{
    if text.len() == 0 || text[0] != '1' {
        0
    } else {
        1 + leading_ones(text.drop_first())
    }
}

/// `n` zero bytes.
pub open spec fn zeros(n: nat) -> Seq<u8> {
    Seq::new(n, |i: int| 0u8)
}

/// `n` times the zero symbol `1`.
pub open spec fn ones(n: nat) -> Seq<char> {
    Seq::new(n, |i: int| '1')
}

/// The Base58 text of `bytes`: one `1` for each leading zero byte, then the
/// shortest spelling in base 58 of the number that the bytes spell.
pub open spec fn base58_text(bytes: Seq<u8>) -> Seq<char> {
    ones(leading_zeros(bytes)) + value_text(bytes_value(bytes))
}

/// The bytes of a Base58 `text`: one zero byte for each leading `1`, then the
/// shortest spelling in base 256 of the number that the text spells. A text
/// made of `1` alone gives one zero byte less than it has symbols.
pub open spec fn base58_bytes(text: Seq<char>) -> Seq<u8> {
    if text.len() > 0 && leading_ones(text) == text.len() {
        zeros((text.len() - 1) as nat)
    } else {
        zeros(leading_ones(text)) + value_bytes(text_value(text))
    }
}

/// A digit's symbol belongs to the alphabet and stands for that digit; only
/// the digit zero has the symbol `1`.
pub proof fn lemma_symbol(d: int)
    requires
        0 <= d < 58,
    ensures
        is_symbol(symbol(d)),
        symbol_value(symbol(d)) == d,
        symbol(d) == '1' <==> d == 0,
{
}

/// A symbol stands for a digit below 58, whose symbol it is; only `1` stands
/// for zero.
pub proof fn lemma_symbol_value(c: char)
    requires
        is_symbol(c),
    ensures
        0 <= symbol_value(c) < 58,
        symbol(symbol_value(c)) == c,
        symbol_value(c) == 0 <==> c == '1',
{
}

/// The shortest spelling of `n` in base 58 is made of symbols, spells `n`,
/// and does not begin with the zero symbol.
pub proof fn lemma_value_text(n: nat)
    ensures
        all_symbols(value_text(n)),
        text_value(value_text(n)) == n,
        n == 0 <==> value_text(n).len() == 0,
        n > 0 ==> value_text(n)[0] != '1',
        leading_ones(value_text(n)) == 0,
    decreases n,
{
    if n > 0 {
        let head = value_text(n / 58);
        let d = (n % 58) as int;
        lemma_value_text(n / 58);
        lemma_symbol(d);
        let text = value_text(n);
        assert(text == head.push(symbol(d)));
        assert(text.drop_last() =~= head);
        assert(text.last() == symbol(d));
        assert(text_value(text) == text_value(head) * 58 + d);
        if n / 58 > 0 {
            assert(text[0] == head[0]);
        } else {
            assert(d == n);
        }
    }
}

/// The shortest spelling of `n` in base 256 spells `n` and does not begin
/// with a zero byte.
pub proof fn lemma_value_bytes(n: nat)
    ensures
        bytes_value(value_bytes(n)) == n,
        n == 0 <==> value_bytes(n).len() == 0,
        n > 0 ==> value_bytes(n)[0] != 0,
        leading_zeros(value_bytes(n)) == 0,
    decreases n,
{
    if n > 0 {
        let head = value_bytes(n / 256);
        let d = (n % 256) as u8;
        lemma_value_bytes(n / 256);
        let bytes = value_bytes(n);
        assert(bytes == head.push(d));
        assert(bytes.drop_last() =~= head);
        assert(bytes.last() == d);
        assert(bytes_value(bytes) == bytes_value(head) * 256 + d);
        if n / 256 > 0 {
            assert(bytes[0] == head[0]);
        } else {
            assert(d == n);
        }
    }
}

/// Zero symbols in front change nothing in the number that a text spells,
/// and count as leading.
pub proof fn lemma_ones_in_front(k: nat, text: Seq<char>)
    ensures
        text_value(ones(k) + text) == text_value(text),
        leading_ones(ones(k) + text) == k + leading_ones(text),
    decreases k, text.len(),
{
    let whole = ones(k) + text;
    if k == 0 {
        assert(whole =~= text);
    } else {
        assert(whole[0] == '1');
        assert(whole.drop_first() =~= ones((k - 1) as nat) + text);
        lemma_ones_in_front((k - 1) as nat, text);
        if text.len() == 0 {
            assert(whole.last() == '1');
            assert(whole.drop_last() =~= ones((k - 1) as nat) + text);
        } else {
            assert(whole.drop_last() =~= ones(k) + text.drop_last());
            assert(whole.last() == text.last());
            lemma_ones_in_front(k, text.drop_last());
        }
    }
}

/// Zero bytes in front change nothing in the number that bytes spell, and
/// count as leading.
pub proof fn lemma_zeros_in_front(k: nat, bytes: Seq<u8>)
    ensures
        bytes_value(zeros(k) + bytes) == bytes_value(bytes),
        leading_zeros(zeros(k) + bytes) == k + leading_zeros(bytes),
    decreases k, bytes.len(),
{
    let whole = zeros(k) + bytes;
    if k == 0 {
        assert(whole =~= bytes);
    } else {
        assert(whole[0] == 0);
        assert(whole.drop_first() =~= zeros((k - 1) as nat) + bytes);
        lemma_zeros_in_front((k - 1) as nat, bytes);
        if bytes.len() == 0 {
            assert(whole.last() == 0);
            assert(whole.drop_last() =~= zeros((k - 1) as nat) + bytes);
        } else {
            assert(whole.drop_last() =~= zeros(k) + bytes.drop_last());
            assert(whole.last() == bytes.last());
            lemma_zeros_in_front(k, bytes.drop_last());
        }
    }
}

/// A text is its leading zero symbols followed by a rest that does not
/// begin with one.
pub proof fn lemma_leading_ones(text: Seq<char>)
    ensures
        leading_ones(text) <= text.len(),
        text == ones(leading_ones(text)) + text.skip(leading_ones(text) as int),
        leading_ones(text) < text.len() ==> text[leading_ones(text) as int] != '1',
    decreases text.len(),
{
    if text.len() == 0 || text[0] != '1' {
        assert(text =~= ones(0) + text.skip(0));
    } else {
        let rest = text.drop_first();
        lemma_leading_ones(rest);
        let k = leading_ones(rest);
        assert(text.skip(k as int + 1) =~= rest.skip(k as int));
        let joined = ones(k + 1) + text.skip(k as int + 1);
        assert forall|i: int| 0 <= i < text.len() implies text[i] == joined[i] by {
            if i >= 1 {
                assert(text[i] == rest[i - 1]);
                assert(rest[i - 1] == (ones(k) + rest.skip(k as int))[i - 1]);
            }
        }
        assert(text =~= joined);
    }
}

/// Bytes are their leading zero bytes followed by a rest that does not
/// begin with one.
pub proof fn lemma_leading_zeros(bytes: Seq<u8>)
    ensures
        leading_zeros(bytes) <= bytes.len(),
        bytes == zeros(leading_zeros(bytes)) + bytes.skip(leading_zeros(bytes) as int),
        leading_zeros(bytes) < bytes.len() ==> bytes[leading_zeros(bytes) as int] != 0,
    decreases bytes.len(),
{
    if bytes.len() == 0 || bytes[0] != 0 {
        assert(bytes =~= zeros(0) + bytes.skip(0));
    } else {
        let rest = bytes.drop_first();
        lemma_leading_zeros(rest);
        let k = leading_zeros(rest);
        assert(bytes.skip(k as int + 1) =~= rest.skip(k as int));
        let joined = zeros(k + 1) + bytes.skip(k as int + 1);
        assert forall|i: int| 0 <= i < bytes.len() implies bytes[i] == joined[i] by {
            if i >= 1 {
                assert(bytes[i] == rest[i - 1]);
                assert(rest[i - 1] == (zeros(k) + rest.skip(k as int))[i - 1]);
            }
        }
        assert(bytes =~= joined);
    }
}

/// Bytes that do not begin with a zero byte are the shortest spelling of
/// their number.
pub proof fn lemma_shortest_bytes(bytes: Seq<u8>)
    requires
        bytes.len() > 0 ==> bytes[0] != 0,
    ensures
        value_bytes(bytes_value(bytes)) == bytes,
        bytes.len() > 0 ==> bytes_value(bytes) > 0,
    decreases bytes.len(),
{
    if bytes.len() == 0 {
        assert(bytes =~= Seq::<u8>::empty());
    } else {
        let head = bytes.drop_last();
        let n = bytes_value(bytes);
        assert(n == bytes_value(head) * 256 + bytes.last());
        if head.len() > 0 {
            assert(head[0] == bytes[0]);
        }
        lemma_shortest_bytes(head);
        assert(n > 0);
        assert(n / 256 == bytes_value(head));
        assert(n % 256 == bytes.last());
        assert(value_bytes(n) == value_bytes(n / 256).push((n % 256) as u8));
        assert(head.push(bytes.last()) =~= bytes);
    }
}

/// A text of symbols that does not begin with the zero symbol is the
/// shortest spelling of its number.
pub proof fn lemma_shortest_text(text: Seq<char>)
    requires
        all_symbols(text),
        text.len() > 0 ==> text[0] != '1',
    ensures
        value_text(text_value(text)) == text,
        text.len() > 0 ==> text_value(text) > 0,
    decreases text.len(),
{
    if text.len() == 0 {
        assert(text =~= Seq::<char>::empty());
    } else {
        let head = text.drop_last();
        let n = text_value(text);
        lemma_symbol_value(text.last());
        assert(n == text_value(head) * 58 + symbol_value(text.last()));
        if head.len() > 0 {
            assert(head[0] == text[0]);
        } else {
            assert(text.last() == text[0]);
        }
        assert(all_symbols(head)) by {
            assert forall|i: int| 0 <= i < head.len() implies is_symbol(#[trigger] head[i]) by {
                assert(head[i] == text[i]);
            }
        }
        lemma_shortest_text(head);
        assert(n > 0);
        assert(n / 58 == text_value(head));
        assert(n % 58 == symbol_value(text.last()));
        assert(value_text(n) == value_text(n / 58).push(symbol((n % 58) as int)));
        assert(head.push(text.last()) =~= text);
    }
}

/// The Base58 text of bytes is made of symbols.
pub proof fn lemma_base58_text_symbols(bytes: Seq<u8>)
    ensures
        all_symbols(base58_text(bytes)),
{
    lemma_value_text(bytes_value(bytes));
    let front = ones(leading_zeros(bytes));
    let back = value_text(bytes_value(bytes));
    assert forall|i: int| 0 <= i < base58_text(bytes).len() implies is_symbol(
        #[trigger] base58_text(bytes)[i],
    ) by {
        if i >= front.len() {
            assert(base58_text(bytes)[i] == back[i - front.len()]);
        }
    }
}

/// Reading back the Base58 text of `bytes` with `k` more zero symbols in
/// front gives `bytes` with `k` zero bytes in front; where all the bytes are
/// zero, one zero byte less.
pub proof fn lemma_read_written(k: nat, bytes: Seq<u8>)
    ensures
        bytes_value(bytes) > 0 ==> base58_bytes(ones(k) + base58_text(bytes)) == zeros(k) + bytes,
        bytes_value(bytes) == 0 ==> bytes == zeros(bytes.len()),
        bytes_value(bytes) == 0 && k > 0 ==> base58_bytes(ones(k) + base58_text(bytes)) == zeros(
            (k - 1) as nat,
        ) + bytes,
{
    let lz = leading_zeros(bytes);
    let v = bytes_value(bytes);
    let rest = bytes.skip(lz as int);
    let text = ones(k) + base58_text(bytes);
    lemma_leading_zeros(bytes);
    lemma_zeros_in_front(lz, rest);
    if rest.len() > 0 {
        assert(rest[0] == bytes[lz as int]);
    }
    lemma_shortest_bytes(rest);
    lemma_value_text(v);
    lemma_ones_in_front(lz, value_text(v));
    lemma_ones_in_front(k, base58_text(bytes));
    assert(text_value(text) == v);
    assert(leading_ones(text) == k + lz);
    if v > 0 {
        assert(text.len() > k + lz);
        assert(zeros(k + lz) + rest =~= zeros(k) + (zeros(lz) + rest));
    } else {
        assert(rest.len() == 0);
        assert(bytes =~= zeros(bytes.len()));
        if k > 0 {
            assert(text.len() == k + lz);
            assert(zeros((k + lz - 1) as nat) =~= zeros((k - 1) as nat) + zeros(lz));
        }
    }
}

/// Writing the bytes read from a text of symbols gives the text back, unless
/// the text is made of zero symbols alone.
pub proof fn lemma_written_read(text: Seq<char>)
    requires
        all_symbols(text),
        leading_ones(text) < text.len(),
    ensures
        base58_text(base58_bytes(text)) == text,
{
    let lo = leading_ones(text);
    let rest = text.skip(lo as int);
    let v = text_value(text);
    lemma_leading_ones(text);
    lemma_ones_in_front(lo, rest);
    assert(rest[0] == text[lo as int]);
    assert(all_symbols(rest)) by {
        assert forall|i: int| 0 <= i < rest.len() implies is_symbol(#[trigger] rest[i]) by {
            assert(rest[i] == text[lo + i]);
        }
    }
    lemma_shortest_text(rest);
    lemma_value_bytes(v);
    lemma_zeros_in_front(lo, value_bytes(v));
}

/// Calls `encode` of `basex_rs::BaseX` with the alphabet `BITCOIN`. For bytes
/// that are not empty (on none it indexes out of bounds) it turns the number
/// that they spell into base 58 by long division, writes one `1` for each
/// leading zero byte and then the digits by their symbols, the highest first.
/// The contract says that the result is `base58_text` of the bytes.
#[verifier::external_body]
pub(crate) fn base58_encode(bytes: &[u8]) -> (text: String)
    requires
        bytes@.len() > 0,
    ensures
        text@ == base58_text(bytes@),
{
    BaseX::new(BITCOIN).encode(bytes)
}

/// Calls `decode` of `basex_rs::BaseX` with the alphabet `BITCOIN`. It gives
/// nothing for the empty text and for a text with a character outside the
/// alphabet. Otherwise it turns the number that the symbols spell into base
/// 256, and puts one zero byte in front for each leading `1` but the last
/// symbol of the text. The contract says when it succeeds and that the bytes
/// are then `base58_bytes` of the text.
#[verifier::external_body]
pub(crate) fn base58_decode(text: &str) -> (bytes: Option<Vec<u8>>)
    ensures
        bytes.is_some() == (text@.len() > 0 && all_symbols(text@)),
        bytes matches Some(b) ==> b@ == base58_bytes(text@),
{
    BaseX::new(BITCOIN).decode(text.to_string())
}

} // verus!
