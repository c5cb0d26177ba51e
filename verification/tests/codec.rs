use oracle_multicall::abi::{
    decode, encode, selector, AbiType, AbiValue, DecodingError, EncodingError, FunctionSignature,
};

fn sig(name: &[u8], params: Vec<AbiType>) -> FunctionSignature {
    FunctionSignature { name: name.to_vec(), parameter_types: params, return_types: vec![] }
}

fn word_with_low_bytes(low: &[u8]) -> Vec<u8> {
    let mut w = vec![0u8; 32];
    w[32 - low.len()..].copy_from_slice(low);
    w
}

fn addr(fill: u8) -> Vec<u8> {
    vec![fill; 20]
}

#[test]
fn selector_matches_reference_transfer() {
    // keccak256("transfer(address,uint256)") starts with a9 05 9c bb.
    let s = selector(&b"transfer".to_vec(), &vec![AbiType::Address, AbiType::Uint(256)]);
    assert_eq!(s, vec![0xa9, 0x05, 0x9c, 0xbb]);
}

#[test]
fn selector_matches_digest_of_canonical_signature() {
    let s = selector(&b"price".to_vec(), &vec![]);
    let digest = alloy_primitives::keccak256(b"price()");
    assert_eq!(s.as_slice(), &digest[0..4]);
}

#[test]
fn encode_zero_params_is_exactly_the_selector() {
    let r = encode(&sig(b"price", vec![]), &vec![]).unwrap();
    assert_eq!(r.len(), 4);
    assert_eq!(r, selector(&b"price".to_vec(), &vec![]));
    let again = encode(&sig(b"price", vec![]), &vec![]).unwrap();
    assert_eq!(r, again);
}

#[test]
fn encode_lays_out_selector_then_words() {
    let params = vec![AbiType::Address, AbiType::Uint(256)];
    let args = vec![
        AbiValue::Address(addr(0xab)),
        AbiValue::Uint(256, word_with_low_bytes(&[0x01, 0x02])),
    ];
    let payload = encode(&sig(b"transfer", params.clone()), &args).unwrap();
    assert_eq!(payload.len(), 4 + 32 + 32);
    assert_eq!(&payload[0..4], &[0xa9, 0x05, 0x9c, 0xbb]);
    assert_eq!(&payload[4..16], &[0u8; 12]);
    assert_eq!(&payload[16..36], addr(0xab).as_slice());
    assert_eq!(&payload[36..68], word_with_low_bytes(&[0x01, 0x02]).as_slice());
}

#[test]
fn encode_refuses_wrong_arity() {
    let r = encode(&sig(b"transfer", vec![AbiType::Address]), &vec![]);
    assert_eq!(r, Err(EncodingError::Arity { expected: 1, got: 0 }));
}

#[test]
fn encode_refuses_type_mismatch() {
    let params = vec![AbiType::Address, AbiType::Uint(256)];
    let args = vec![
        AbiValue::Address(addr(1)),
        AbiValue::Address(addr(2)),
    ];
    let r = encode(&sig(b"transfer", params.clone()), &args);
    assert_eq!(r, Err(EncodingError::TypeMismatch { index: 1 }));
}

#[test]
fn encode_refuses_short_address() {
    let r = encode(&sig(b"f", vec![AbiType::Address]), &vec![AbiValue::Address(vec![1; 19])]);
    assert_eq!(r, Err(EncodingError::TypeMismatch { index: 0 }));
}

#[test]
fn round_trip_address_and_uints() {
    let params = vec![AbiType::Address, AbiType::Uint(256), AbiType::Uint(128)];
    let args = vec![
        AbiValue::Address(addr(0x6c)),
        AbiValue::Uint(256, word_with_low_bytes(&[0xff; 32])),
        AbiValue::Uint(128, word_with_low_bytes(&[0xde, 0xad, 0xbe, 0xef])),
    ];
    let payload = encode(&sig(b"g", params.clone()), &args).unwrap();
    let words = payload[4..].to_vec();
    let decoded = decode(&params, &words).unwrap();
    assert_eq!(decoded, args);
}

#[test]
fn decode_refuses_unaligned_payload() {
    let r = decode(&vec![AbiType::Uint(256)], &vec![0u8; 31]);
    assert_eq!(r, Err(DecodingError::NotWordAligned { len: 31 }));
}

#[test]
fn decode_refuses_wrong_word_count() {
    let r = decode(&vec![AbiType::Uint(256)], &vec![0u8; 64]);
    assert_eq!(r, Err(DecodingError::WordCountMismatch { expected: 1, got: 2 }));
}

#[test]
fn decode_refuses_nonzero_address_padding() {
    let mut data = word_with_low_bytes(&[0x11; 20]);
    data[5] = 0x01;
    let r = decode(&vec![AbiType::Address], &data);
    assert_eq!(r, Err(DecodingError::AddressPadding { word: 0 }));
}

#[test]
fn decode_refuses_value_wider_than_declared() {
    let data = word_with_low_bytes(&[0x01, 0x00]);
    let r = decode(&vec![AbiType::Uint(8)], &data);
    assert_eq!(r, Err(DecodingError::UintTooWide { word: 0, bits: 8 }));
}

#[test]
fn decode_accepts_any_word_for_uint256() {
    let data = vec![0xffu8; 32];
    let r = decode(&vec![AbiType::Uint(256)], &data).unwrap();
    assert_eq!(r, vec![AbiValue::Uint(256, vec![0xff; 32])]);
}

#[test]
fn decode_empty_payload_for_no_return_types() {
    let r = decode(&vec![], &vec![]).unwrap();
    assert_eq!(r, vec![]);
}
