use ckb_tx_codec::error::Error;
use ckb_tx_codec::hex::{clean_0x, hex_decode, hex_encode, hex_uint};
use ckb_tx_codec::{GraphqlBytes, Uint128, Uint32, Uint64, H160, H256};

#[test]
fn uint_encoding_is_minimal_lowercase() {
    assert_eq!(Uint32::new(0).to_hex(), "0x0");
    assert_eq!(Uint32::new(0x12345678).to_hex(), "0x12345678");
    assert_eq!(Uint32::new(u32::MAX).to_hex(), "0xffffffff");
    assert_eq!(Uint64::new(255).to_hex(), "0xff");
    assert_eq!(Uint64::new(u64::MAX).to_hex(), "0xffffffffffffffff");
    assert_eq!(Uint128::new(u128::MAX).to_hex(), "0xffffffffffffffffffffffffffffffff");
    assert_eq!(hex_uint(26), "0x1a");
}

#[test]
fn uint_decoding_accepts_either_case() {
    assert_eq!(Uint32::from_hex("0x1a").unwrap(), Uint32(26));
    assert_eq!(Uint32::from_hex("0X1A").unwrap(), Uint32(26));
    assert_eq!(Uint64::from_hex("0x0").unwrap(), Uint64(0));
    assert_eq!(Uint64::from_hex("0x00ff").unwrap(), Uint64(255));
    assert_eq!(Uint128::from_hex("0xffffffffffffffffffffffffffffffff").unwrap(), Uint128(u128::MAX));
}

#[test]
fn uint_round_trip() {
    for v in [0u32, 1, 9, 15, 16, 0xdeadbeef, u32::MAX] {
        assert_eq!(Uint32::from_hex(&Uint32::new(v).to_hex()).unwrap(), Uint32(v));
    }
    for v in [0u64, 7, 1 << 40, u64::MAX] {
        assert_eq!(Uint64::from_hex(&Uint64::new(v).to_hex()).unwrap(), Uint64(v));
    }
    for v in [0u128, 1 << 90, u128::MAX] {
        assert_eq!(Uint128::from_hex(&Uint128::new(v).to_hex()).unwrap(), Uint128(v));
    }
}

#[test]
fn uint_round_trip_random() {
    for _ in 0..64 {
        let v: u64 = rand::random();
        assert_eq!(Uint64::from_hex(&Uint64::new(v).to_hex()).unwrap(), Uint64(v));
        let w: u128 = rand::random();
        assert_eq!(Uint128::from_hex(&Uint128::new(w).to_hex()).unwrap(), Uint128(w));
    }
}

#[test]
fn uint_rejections() {
    assert_eq!(Uint32::from_hex("1a"), Err(Error::HexPrefix));
    assert_eq!(Uint32::from_hex(""), Err(Error::HexPrefix));
    assert_eq!(Uint32::from_hex("0x"), Err(Error::ParseUint));
    assert_eq!(Uint32::from_hex("0xzz"), Err(Error::ParseUint));
    assert_eq!(Uint32::from_hex("0x100000000"), Err(Error::ParseUint));
    assert_eq!(Uint64::from_hex("0x10000000000000000"), Err(Error::ParseUint));
    assert_eq!(Uint128::from_hex("0x100000000000000000000000000000000"), Err(Error::ParseUint));
}

#[test]
fn hash_encoding_is_full_width() {
    let mut raw = [0u8; 32];
    raw[0] = 0x00;
    raw[1] = 0xab;
    raw[31] = 0x01;
    let h = H256::new(raw);
    let text = h.to_hex();
    assert_eq!(text.len(), 66);
    assert!(text.starts_with("0x00ab"));
    assert!(text.ends_with("01"));
    assert_eq!(H256::from_hex(&text).unwrap(), h);

    let h160 = H160::new([0x5a; 20]);
    let text = h160.to_hex();
    assert_eq!(text.len(), 42);
    assert_eq!(H160::from_hex(&text).unwrap(), h160);
}

#[test]
fn hash_round_trip_random() {
    for _ in 0..32 {
        let mut raw = [0u8; 32];
        for byte in raw.iter_mut() {
            *byte = rand::random();
        }
        let h = H256::new(raw);
        assert_eq!(H256::from_hex(&h.to_hex()).unwrap(), h);
    }
}

#[test]
fn hash_length_rejection() {
    // A 31-byte payload must not decode as a 32-byte hash.
    let thirty_one = format!("0x{}", "ab".repeat(31));
    assert_eq!(H256::from_hex(&thirty_one), Err(Error::ParseBytes));
    let thirty_three = format!("0x{}", "ab".repeat(33));
    assert_eq!(H256::from_hex(&thirty_three), Err(Error::ParseBytes));
    assert_eq!(H160::from_hex("0xab"), Err(Error::ParseBytes));
}

#[test]
fn byte_string_round_trip() {
    let cases: Vec<Vec<u8>> = vec![vec![], vec![0], vec![0x00, 0xff, 0x10], (0u8..255).collect()];
    for bytes in cases {
        let g = GraphqlBytes::new(bytes.clone());
        let text = g.to_hex();
        assert_eq!(text.len(), 2 + 2 * bytes.len());
        assert_eq!(GraphqlBytes::from_hex(&text).unwrap(), g);
    }
}

#[test]
fn hex_decode_prefix_rejection() {
    assert_eq!(hex_decode("ff"), Err(Error::HexPrefix));
    assert_eq!(hex_decode("0xz"), Err(Error::FromHex));
    assert_eq!(hex_decode("0xabc"), Err(Error::FromHex));
    assert_eq!(hex_decode("0xgg"), Err(Error::FromHex));
}

#[test]
fn hex_decode_empty_and_prefix_only() {
    assert_eq!(hex_decode(""), Ok(vec![]));
    assert_eq!(hex_decode("0x"), Ok(vec![]));
    assert_eq!(hex_decode("0XAb"), Ok(vec![0xab]));
}

#[test]
fn hex_encode_matches_reference() {
    let cases: Vec<Vec<u8>> = vec![vec![], vec![0x00], vec![0xde, 0xad, 0xbe, 0xef], (0u8..=255).collect()];
    for bytes in cases {
        let expected = format!("0x{}", faster_hex::hex_string(&bytes));
        assert_eq!(hex_encode(&bytes), expected);
    }
}

#[test]
fn clean_0x_strips_prefix() {
    assert_eq!(clean_0x("0xabc").unwrap(), "abc");
    assert_eq!(clean_0x("0X").unwrap(), "");
    assert_eq!(clean_0x("abc"), Err(Error::HexPrefix));
    assert_eq!(clean_0x("x"), Err(Error::HexPrefix));
}

#[test]
fn error_messages_name_the_kind() {
    assert_eq!(Error::HexPrefix.message(), "Invalid hex prefix");
    assert_eq!(Error::ParseBytes.message(), "Parse Bytes error");
}
