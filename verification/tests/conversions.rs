use basex_rs::{BaseX, Encode, BITCOIN};
use velas_address_rust::address::{decode_payload, encode_payload, split_payload};
use velas_address_rust::checksum::{checksum, hash_sha256};
use velas_address_rust::{eth_to_vlx, vlx_to_eth, AddressError};

const ETH: [&str; 7] = [
    "0x32Be343B94f860124dC4fEe278FDCBD38C102D88",
    "0x000000000000000000000000000000000000000f",
    "0xf000000000000000000000000000000000000000",
    "0x0000000000000000000000000000000000000001",
    "0x1000000000000000000000000000000000000000",
    "0x0000000000000000000000000000000000000000",
    "0xffffffffffffffffffffffffffffffffffffffff",
];

const VLX: [&str; 7] = [
    "V5dJeCa7bmkqmZF53TqjRbnB4fG6hxuu4f",
    "V111111111111111111111111112jSS6vy",
    "VNt1B3HD3MghPihCxhwMxNKRerBPPbiwvZ",
    "V111111111111111111111111111CdXjnE",
    "V2Tbp525fpnBRiSt4iPxXkxMyf5ZX7bGAJ",
    "V1111111111111111111111111113iMDfC",
    "VQLbz7JHiBTspS962RLKV8GndWFwdcRndD",
];

fn ok(text: &str) -> Result<String, AddressError> {
    Ok(text.to_string())
}

fn parts(body: &str, sum: &str) -> Result<(String, String), AddressError> {
    Ok((body.to_string(), sum.to_string()))
}

#[test]
fn it_works() {
    let eth_addresses = [
        "0x32Be343B94f860124dC4fEe278FDCBD38C102D88",
        "0x000000000000000000000000000000000000000f",
        "0xf000000000000000000000000000000000000000",
        "0x0000000000000000000000000000000000000001",
        "0x1000000000000000000000000000000000000000",
        "0x0000000000000000000000000000000000000000",
        "0xffffffffffffffffffffffffffffffffffffffff",
    ];

    let vlx_addresses = [
        "V5dJeCa7bmkqmZF53TqjRbnB4fG6hxuu4f",
        "V111111111111111111111111112jSS6vy",
        "VNt1B3HD3MghPihCxhwMxNKRerBPPbiwvZ",
        "V111111111111111111111111111CdXjnE",
        "V2Tbp525fpnBRiSt4iPxXkxMyf5ZX7bGAJ",
        "V1111111111111111111111111113iMDfC",
        "VQLbz7JHiBTspS962RLKV8GndWFwdcRndD",
    ];

    for addr in eth_addresses.iter() {
        let vlx_addr = eth_to_vlx(addr).unwrap();
        let eth_addr = vlx_to_eth(&vlx_addr).unwrap();
        assert_eq!(eth_addr.to_string(), addr.to_string().to_lowercase());
    }

    for addr in vlx_addresses.iter() {
        let eth_addr = vlx_to_eth(addr).unwrap();
        let vlx_addr = eth_to_vlx(&eth_addr).unwrap();
        assert_eq!(vlx_addr.to_string(), addr.to_string());
    }
}

#[test]
fn encodes_each_known_address() {
    for i in 0..ETH.len() {
        assert_eq!(eth_to_vlx(ETH[i]), ok(VLX[i]));
    }
}

#[test]
fn decodes_each_known_address() {
    for i in 0..VLX.len() {
        assert_eq!(vlx_to_eth(VLX[i]), Ok(ETH[i].to_lowercase()));
    }
}

#[test]
fn literal_vectors() {
    assert_eq!(
        eth_to_vlx("0x32Be343B94f860124dC4fEe278FDCBD38C102D88"),
        ok("V5dJeCa7bmkqmZF53TqjRbnB4fG6hxuu4f")
    );
    assert_eq!(
        vlx_to_eth("V5dJeCa7bmkqmZF53TqjRbnB4fG6hxuu4f"),
        ok("0x32be343b94f860124dc4fee278fdcbd38c102d88")
    );
    let zero = eth_to_vlx("0x0000000000000000000000000000000000000000").unwrap();
    assert_eq!(zero.len(), 34);
    assert!(zero.starts_with("V1111"));
    assert_eq!(zero, "V1111111111111111111111111113iMDfC");
}

#[test]
fn format_rejection() {
    assert_eq!(vlx_to_eth(""), Err(AddressError::InvalidFormat));
    assert_eq!(vlx_to_eth("Xabc"), Err(AddressError::InvalidFormat));
    assert_eq!(eth_to_vlx(""), Err(AddressError::InvalidFormat));
    assert_eq!(
        eth_to_vlx("32Be343B94f860124dC4fEe278FDCBD38C102D88"),
        Err(AddressError::InvalidFormat)
    );
}

#[test]
fn encode_rejects_malformed_hex() {
    assert_eq!(eth_to_vlx("0"), Err(AddressError::InvalidFormat));
    assert_eq!(eth_to_vlx("0X00"), Err(AddressError::InvalidFormat));
    assert_eq!(eth_to_vlx("0x0"), Err(AddressError::InvalidFormat));
    assert_eq!(eth_to_vlx("0xzz"), Err(AddressError::InvalidFormat));
    assert_eq!(
        eth_to_vlx("0x32Be343B94f860124dC4fEe278FDCBD38C102D8"),
        Err(AddressError::InvalidFormat)
    );
    assert_eq!(
        eth_to_vlx("0x32Be343B94f860124dC4fEe278FDCBD38C102Dg8"),
        Err(AddressError::InvalidFormat)
    );
    assert_eq!(eth_to_vlx("0x\u{e9}\u{e9}"), Err(AddressError::InvalidFormat));
    assert_eq!(eth_to_vlx("0x\u{212a}a"), Err(AddressError::InvalidFormat));
    assert_eq!(eth_to_vlx("\u{e9}x00"), Err(AddressError::InvalidFormat));
}

#[test]
fn encode_does_not_ask_for_forty_digits() {
    assert_eq!(eth_to_vlx("0x"), ok("V1111111111111111111111111116FEztX"));
    assert_eq!(eth_to_vlx("0xabcd"), ok("V1111111111111111111111112UZ2CK1zZ"));
    assert_eq!(eth_to_vlx("0xABCD"), ok("V1111111111111111111111112UZ2CK1zZ"));
}

#[test]
fn decode_rejects_malformed_text() {
    assert_eq!(vlx_to_eth("V"), Err(AddressError::InvalidFormat));
    assert_eq!(vlx_to_eth("v5dJeCa7bmkqmZF53TqjRbnB4fG6hxuu4f"), Err(AddressError::InvalidFormat));
    assert_eq!(vlx_to_eth("V0dJeCa7bmkqmZF53TqjRbnB4fG6hxuu4f"), Err(AddressError::InvalidFormat));
    assert_eq!(vlx_to_eth("V5dJeCa7bmkqmZF53TqjRbnB4fG6hxuu4l"), Err(AddressError::InvalidFormat));
    assert_eq!(vlx_to_eth("V5dJeCa7bmkqmZF53 qjRbnB4fG6hxuu4f"), Err(AddressError::InvalidFormat));
    assert_eq!(vlx_to_eth("V5dJe\u{e9}"), Err(AddressError::InvalidFormat));
    assert_eq!(vlx_to_eth("\u{e9}5dJe"), Err(AddressError::InvalidFormat));
}

#[test]
fn decode_rejects_short_payloads() {
    assert_eq!(vlx_to_eth("V1"), Err(AddressError::InvalidFormat));
    assert_eq!(vlx_to_eth("V2"), Err(AddressError::InvalidFormat));
    assert_eq!(vlx_to_eth("Vzz"), Err(AddressError::InvalidFormat));
    assert_eq!(vlx_to_eth("V11111"), Err(AddressError::InvalidFormat));
    assert_eq!(decode_payload("V11111"), Err(AddressError::InvalidFormat));
    assert_eq!(decode_payload("V111111"), parts("00", "00000000"));
    assert_eq!(decode_payload("V1111111"), parts("0000", "00000000"));
    assert_eq!(vlx_to_eth("V111111"), Err(AddressError::ChecksumMismatch));
}

#[test]
fn decode_rejects_padding_that_is_not_zero() {
    let long = format!("V{}", "z".repeat(33));
    assert_eq!(vlx_to_eth(&long), Err(AddressError::InvalidFormat));
    assert_eq!(decode_payload(&long), Err(AddressError::InvalidFormat));
    let longer = format!("V{}", "z".repeat(35));
    assert_eq!(vlx_to_eth(&longer), Err(AddressError::InvalidFormat));
}

#[test]
fn checksum_mismatch_is_told_apart() {
    assert_eq!(
        vlx_to_eth("V5dJeCa7bmkqmZF53TqjRbnB4fG6hxuu4g"),
        Err(AddressError::ChecksumMismatch)
    );
    assert_eq!(
        decode_payload("V5dJeCa7bmkqmZF53TqjRbnB4fG6hxuu4g"),
        parts("32be343b94f860124dc4fee278fdcbd38c102d88", "6db32c75")
    );
}

#[test]
fn changed_body_with_original_checksum_is_refused() {
    let body = "32be343b94f860124dc4fee278fdcbd38c102d88";
    let sum = checksum(body);
    assert_eq!(sum, "6db32c74");
    assert_eq!(encode_payload(body, &sum), ok("V5dJeCa7bmkqmZF53TqjRbnB4fG6hxuu4f"));
    let digits = "0123456789abcdef";
    for at in 0..body.len() {
        for digit in digits.chars() {
            let mut changed: Vec<char> = body.chars().collect();
            if changed[at] == digit {
                continue;
            }
            changed[at] = digit;
            let changed: String = changed.into_iter().collect();
            let address = encode_payload(&changed, &sum).unwrap();
            assert_eq!(vlx_to_eth(&address), Err(AddressError::ChecksumMismatch));
            assert_eq!(decode_payload(&address), parts(&changed, &sum));
        }
    }
    assert_eq!(
        encode_payload("32be343b94f860124dc4fee278fdcbd38c102d89", "6db32c74"),
        ok("V5dJeCa7bmkqmZF53TqjRbnB4fG6pWSjCw")
    );
}

#[test]
fn bodies_with_one_checksum_are_not_told_apart() {
    let body = "000000000000000002dbc092f9ecb87de128e894";
    let changed = "000000000000000002dbc092f9ecb87de128e899";
    assert_eq!(checksum(body), "70ecc9a7");
    assert_eq!(checksum(changed), "70ecc9a7");
    let address = encode_payload(changed, &checksum(body)).unwrap();
    assert_eq!(address, "V111111111111MUPMS6DXM3MiSb7WEQ1Rp");
    assert_eq!(vlx_to_eth(&address), ok("0x000000000000000002dbc092f9ecb87de128e899"));
    assert_eq!(
        eth_to_vlx("0x000000000000000002dbc092f9ecb87de128e894"),
        ok("V111111111111MUPMS6DXM3MiSb6wWjriS")
    );
}

#[test]
fn hex_round_trip_in_either_case() {
    let mixed = "0xAbCdEf0123456789aBcDeF0123456789AbCdEf01";
    let encoded = eth_to_vlx(mixed).unwrap();
    assert_eq!(vlx_to_eth(&encoded), ok("0xabcdef0123456789abcdef0123456789abcdef01"));
    assert_eq!(eth_to_vlx(&mixed.to_uppercase().replace("0X", "0x")), ok(&encoded));
    assert_eq!(eth_to_vlx(&mixed.to_lowercase()), ok(&encoded));
}

#[test]
fn round_trip_over_many_bodies() {
    let mut state: u64 = 0x2545f4914f6cdd1d;
    for round in 0..200 {
        let mut body = String::new();
        for at in 0..40 {
            state ^= state << 13;
            state ^= state >> 7;
            state ^= state << 17;
            let mut nibble = (state % 16) as u32;
            if at < round % 12 {
                nibble = 0;
            }
            let digit = std::char::from_digit(nibble, 16).unwrap();
            body.push(if state & 0x100 == 0 { digit } else { digit.to_ascii_uppercase() });
        }
        let address = format!("0x{}", body);
        let encoded = eth_to_vlx(&address).unwrap();
        assert_eq!(encoded.len(), 34);
        assert_eq!(vlx_to_eth(&encoded), Ok(address.to_lowercase()));
        assert_eq!(eth_to_vlx(&address.to_lowercase()), ok(&encoded));
    }
}

#[test]
fn padded_vectors_recover_the_body() {
    let cases = [
        ("0x0000000000000000000000000000000000000000", "V1111111111111111111111111113iMDfC"),
        ("0x000000000000000000000000000000000000000f", "V111111111111111111111111112jSS6vy"),
        ("0x1000000000000000000000000000000000000000", "V2Tbp525fpnBRiSt4iPxXkxMyf5ZX7bGAJ"),
    ];
    for (eth, vlx) in cases.iter() {
        assert_eq!(eth_to_vlx(eth), ok(vlx));
        assert_eq!(vlx.len(), 34);
        assert_eq!(vlx_to_eth(vlx), ok(eth));
        let (body, _) = decode_payload(vlx).unwrap();
        assert_eq!(body.len(), 40);
        assert_eq!(format!("0x{}", body), *eth);
    }
    assert_eq!(
        decode_payload("V1111111111111111111111111113iMDfC"),
        parts("0000000000000000000000000000000000000000", "6a225447")
    );
}

#[test]
fn unpadded_address_decodes_and_encodes_to_the_padded_one() {
    let unpadded = "V111111111111111111113iMDfC";
    assert_eq!(vlx_to_eth(unpadded), ok("0x0000000000000000000000000000000000000000"));
    assert_eq!(
        eth_to_vlx(&vlx_to_eth(unpadded).unwrap()),
        ok("V1111111111111111111111111113iMDfC")
    );
}

#[test]
fn short_body_is_not_recovered() {
    let encoded = eth_to_vlx("0xabcd").unwrap();
    assert_eq!(
        decode_payload(&encoded),
        parts("000000000000000000000000000000000000abcd", &checksum("abcd"))
    );
    assert_eq!(vlx_to_eth(&encoded), Err(AddressError::ChecksumMismatch));
    let empty = eth_to_vlx("0x").unwrap();
    assert_eq!(vlx_to_eth(&empty), Err(AddressError::ChecksumMismatch));
}

#[test]
fn short_body_is_kept_as_it_is() {
    let sum = checksum("abcd");
    let raw = [0xab, 0xcd, 0x01, 0x02, 0x03, 0x04];
    assert_eq!(split_payload(&raw), parts("abcd", "01020304"));
    let raw = hex::decode(format!("abcd{}", sum)).unwrap();
    let text = bs58_of(&raw);
    assert_eq!(vlx_to_eth(&format!("V{}", text)), ok("0xabcd"));
}

fn bs58_of(raw: &[u8]) -> String {
    BaseX::new(BITCOIN).encode(raw)
}

#[test]
fn payload_is_split_eight_digits_from_the_end() {
    assert_eq!(split_payload(&[]), Err(AddressError::InvalidFormat));
    assert_eq!(split_payload(&[1, 2, 3, 4]), Err(AddressError::InvalidFormat));
    assert_eq!(split_payload(&[0x12, 0x34, 0x56, 0x78, 0x9a]), parts("12", "3456789a"));
    let mut raw = vec![0u8; 3];
    raw.extend_from_slice(&[0xff; 20]);
    raw.extend_from_slice(&[1, 2, 3, 4]);
    assert_eq!(split_payload(&raw), parts(&"ff".repeat(20), "01020304"));
    raw[2] = 0x10;
    assert_eq!(split_payload(&raw), Err(AddressError::InvalidFormat));
    raw[2] = 0x01;
    assert_eq!(split_payload(&raw), Err(AddressError::InvalidFormat));
    let exact = [0xa5u8; 24];
    assert_eq!(split_payload(&exact), parts(&"a5".repeat(20), "a5a5a5a5"));
}

#[test]
fn payload_is_padded_to_thirty_three_symbols() {
    assert_eq!(encode_payload("", "00000001"), ok("V111111111111111111111111111111112"));
    assert_eq!(encode_payload("", ""), Err(AddressError::InvalidFormat));
    assert_eq!(encode_payload("abc", "00000001"), Err(AddressError::InvalidFormat));
    assert_eq!(encode_payload("abcd", "0000000g"), Err(AddressError::InvalidFormat));
    let long = encode_payload(&"ff".repeat(30), "ffffffff").unwrap();
    assert_eq!(long.len(), 1 + 47);
    assert!(!long[1..].starts_with('1'));
    assert_eq!(decode_payload(&long), Err(AddressError::InvalidFormat));
}

#[test]
fn digest_and_checksum_values() {
    assert_eq!(
        hash_sha256(b""),
        "e3b0c44298fc1c149afbf4c8996fb92427ae41e4649b934ca495991b7852b855"
    );
    assert_eq!(
        hash_sha256(b"abc"),
        "ba7816bf8f01cfea414140de5dae2223b00361a396177a9cb410ff61f20015ad"
    );
    assert_eq!(checksum("32be343b94f860124dc4fee278fdcbd38c102d88"), "6db32c74");
    assert_eq!(checksum(""), "cd372fb8");
    assert_eq!(checksum("0000000000000000000000000000000000000000"), "6a225447");
}

#[test]
fn error_messages() {
    assert_eq!(AddressError::InvalidFormat.message(), "Invalid address");
    assert_eq!(AddressError::ChecksumMismatch.message(), "Invalid checksum");
    assert_ne!(AddressError::InvalidFormat, AddressError::ChecksumMismatch);
}
