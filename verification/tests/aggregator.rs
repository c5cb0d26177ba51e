use oracle_multicall::abi::{AbiType, AbiValue, DecodingError, FunctionSignature};
use oracle_multicall::calls::{CallDescriptor, DescriptorError};
use oracle_multicall::multicall::{
    build_request, check_response, decode_results, MulticallError, ProtocolError, ResponseEntry,
};
use oracle_multicall::wire::{encode_aggregate, encode_response, parse_aggregate_response};

fn word_with_low_bytes(low: &[u8]) -> Vec<u8> {
    let mut w = vec![0u8; 32];
    w[32 - low.len()..].copy_from_slice(low);
    w
}

fn addr(fill: u8) -> Vec<u8> {
    vec![fill; 20]
}

fn getter(name: &[u8], ret: AbiType) -> FunctionSignature {
    FunctionSignature {
        name: name.to_vec(),
        parameter_types: vec![],
        return_types: vec![ret],
    }
}

fn view_call(target: Vec<u8>, name: &[u8], ret: AbiType) -> CallDescriptor {
    CallDescriptor::new(target, getter(name, ret), vec![]).unwrap()
}

/// The oracle schema: price, four feed getters, scale factor, vault,
/// vault conversion sample — in this order.
fn oracle_calls(target: Vec<u8>) -> Vec<CallDescriptor> {
    vec![
        view_call(target.clone(), b"price", AbiType::Uint(256)),
        view_call(target.clone(), b"BASE_FEED_1", AbiType::Address),
        view_call(target.clone(), b"BASE_FEED_2", AbiType::Address),
        view_call(target.clone(), b"QUOTE_FEED_1", AbiType::Address),
        view_call(target.clone(), b"QUOTE_FEED_2", AbiType::Address),
        view_call(target.clone(), b"SCALE_FACTOR", AbiType::Uint(256)),
        view_call(target.clone(), b"VAULT", AbiType::Address),
        view_call(target, b"VAULT_CONVERSION_SAMPLE", AbiType::Uint(256)),
    ]
}

#[test]
fn descriptor_construction_validates_target() {
    let r = CallDescriptor::new(vec![0u8; 19], getter(b"price", AbiType::Uint(256)), vec![]);
    assert_eq!(r, Err(DescriptorError::Target { len: 19 }));
}

#[test]
fn descriptor_construction_validates_arity() {
    let r = CallDescriptor::new(
        addr(1),
        getter(b"price", AbiType::Uint(256)),
        vec![AbiValue::Uint(256, word_with_low_bytes(&[1]))],
    );
    assert_eq!(r, Err(DescriptorError::Arity { expected: 0, got: 1 }));
}

#[test]
fn descriptor_construction_validates_types() {
    let sig = FunctionSignature {
        name: b"f".to_vec(),
        parameter_types: vec![AbiType::Uint(256), AbiType::Address],
        return_types: vec![AbiType::Uint(256)],
    };
    let args = vec![
        AbiValue::Uint(256, word_with_low_bytes(&[1])),
        AbiValue::Uint(256, word_with_low_bytes(&[2])),
    ];
    let r = CallDescriptor::new(addr(1), sig, args);
    assert_eq!(r, Err(DescriptorError::TypeMismatch { index: 1 }));
}

#[test]
fn descriptor_construction_keeps_inputs() {
    let sig = getter(b"VAULT", AbiType::Address);
    let d = CallDescriptor::new(addr(7), sig.clone(), vec![]).unwrap();
    assert_eq!(d.target, addr(7));
    assert_eq!(d.signature, sig);
    assert!(d.arguments.is_empty());
}

#[test]
fn build_request_pairs_targets_with_payloads_in_order() {
    let calls = vec![
        view_call(addr(0x11), b"price", AbiType::Uint(256)),
        view_call(addr(0x22), b"VAULT", AbiType::Address),
    ];
    let req = build_request(&calls).unwrap();
    assert_eq!(req.entries.len(), 2);
    assert_eq!(req.entries[0].target, addr(0x11));
    assert_eq!(req.entries[1].target, addr(0x22));
    // zero-parameter calls encode to exactly their 4-byte selector
    assert_eq!(req.entries[0].payload.len(), 4);
    assert_eq!(req.entries[1].payload.len(), 4);
    assert_eq!(
        req.entries[0].payload.as_slice(),
        &alloy_primitives::keccak256(b"price()")[0..4]
    );
    assert_eq!(
        req.entries[1].payload.as_slice(),
        &alloy_primitives::keccak256(b"VAULT()")[0..4]
    );
}

#[test]
fn check_response_hands_payloads_back_in_order() {
    let entries = vec![
        ResponseEntry { success: true, data: vec![1, 2] },
        ResponseEntry { success: true, data: vec![3] },
    ];
    let datas = check_response(2, entries).unwrap();
    assert_eq!(datas, vec![vec![1, 2], vec![3]]);
}

#[test]
fn check_response_refuses_wrong_length() {
    let entries = vec![ResponseEntry { success: true, data: vec![] }];
    let r = check_response(2, entries);
    assert_eq!(r, Err(ProtocolError::LengthMismatch { expected: 2, got: 1 }));
}

#[test]
fn check_response_names_first_failed_call() {
    // Same 8 calls, but the second entry failed: the whole dispatch is
    // refused with the zero-based index 1, before any decoding.
    let entries: Vec<ResponseEntry> = (0..8)
        .map(|i| ResponseEntry { success: i != 1, data: word_with_low_bytes(&[i as u8]) })
        .collect();
    let r = check_response(8, entries);
    assert_eq!(r, Err(ProtocolError::CallFailed { index: 1 }));
}

#[test]
fn decode_results_refuses_short_response() {
    let calls = oracle_calls(addr(0x6c));
    let calls = calls[..7].to_vec();
    let response: Vec<Vec<u8>> = (0..6).map(|i| word_with_low_bytes(&[i as u8 + 1])).collect();
    let r = decode_results(&calls, &response);
    assert_eq!(
        r,
        Err(MulticallError::Protocol(ProtocolError::LengthMismatch { expected: 7, got: 6 }))
    );
}

#[test]
fn decode_results_names_failing_call() {
    let calls = oracle_calls(addr(0x6c));
    let mut response: Vec<Vec<u8>> = (1..=8).map(|i| word_with_low_bytes(&[i as u8])).collect();
    // BASE_FEED_2 (index 2) gets a word with a non-zero padding byte.
    response[2][3] = 0xee;
    let r = decode_results(&calls, &response);
    assert_eq!(
        r,
        Err(MulticallError::Decoding {
            index: 2,
            name: b"BASE_FEED_2".to_vec(),
            source: DecodingError::AddressPadding { word: 0 },
        })
    );
}

#[test]
fn oracle_end_to_end_decodes_all_eight_values() {
    let calls = oracle_calls(addr(0x6c));
    let feed1 = addr(0xa1);
    let feed2 = addr(0xa2);
    let feed3 = addr(0xa3);
    let feed4 = addr(0xa4);
    let vault = addr(0xb0);
    let response = vec![
        word_with_low_bytes(&[0x12, 0x34]),
        word_with_low_bytes(&feed1),
        word_with_low_bytes(&feed2),
        word_with_low_bytes(&feed3),
        word_with_low_bytes(&feed4),
        word_with_low_bytes(&[0x0a]),
        word_with_low_bytes(&vault),
        word_with_low_bytes(&[0x07]),
    ];
    let results = decode_results(&calls, &response).unwrap();
    assert_eq!(results.len(), 8);
    assert_eq!(results[0], vec![AbiValue::Uint(256, word_with_low_bytes(&[0x12, 0x34]))]);
    assert_eq!(results[1], vec![AbiValue::Address(feed1)]);
    assert_eq!(results[2], vec![AbiValue::Address(feed2)]);
    assert_eq!(results[3], vec![AbiValue::Address(feed3)]);
    assert_eq!(results[4], vec![AbiValue::Address(feed4)]);
    assert_eq!(results[5], vec![AbiValue::Uint(256, word_with_low_bytes(&[0x0a]))]);
    assert_eq!(results[6], vec![AbiValue::Address(vault)]);
    assert_eq!(results[7], vec![AbiValue::Uint(256, word_with_low_bytes(&[0x07]))]);
}

#[test]
fn full_pipeline_from_descriptors_to_typed_values() {
    let calls = oracle_calls(addr(0x6c));
    let request = build_request(&calls).unwrap();
    let calldata = encode_aggregate(&request).unwrap();
    assert_eq!(&calldata[0..4], &[0x82, 0xad, 0x56, 0xcb]);

    // A helper that answers each call with one successful word.
    let answer: Vec<ResponseEntry> = (1..=8)
        .map(|i| ResponseEntry { success: true, data: word_with_low_bytes(&[i as u8]) })
        .collect();
    let raw = encode_response(&answer).unwrap();

    let entries = parse_aggregate_response(&raw).unwrap();
    let response = check_response(calls.len(), entries).unwrap();
    let results = decode_results(&calls, &response).unwrap();
    assert_eq!(results.len(), 8);
    assert_eq!(results[0], vec![AbiValue::Uint(256, word_with_low_bytes(&[1]))]);
    assert_eq!(results[6], vec![AbiValue::Address({
        let mut a = vec![0u8; 20];
        a[19] = 7;
        a
    })]);
}

#[test]
fn results_follow_the_input_order_of_a_permuted_call_set() {
    let calls = vec![
        view_call(addr(1), b"price", AbiType::Uint(256)),
        view_call(addr(2), b"VAULT", AbiType::Address),
        view_call(addr(3), b"SCALE_FACTOR", AbiType::Uint(256)),
    ];
    let response = vec![
        word_with_low_bytes(&[0x11]),
        word_with_low_bytes(&addr(0xcc)),
        word_with_low_bytes(&[0x22]),
    ];
    let straight = decode_results(&calls, &response).unwrap();

    // The same call set submitted in another order, with the transport
    // answering in that order too.
    let permuted_calls = vec![calls[2].clone(), calls[0].clone(), calls[1].clone()];
    let permuted_response = vec![response[2].clone(), response[0].clone(), response[1].clone()];
    let permuted = decode_results(&permuted_calls, &permuted_response).unwrap();

    assert_eq!(permuted[0], straight[2]);
    assert_eq!(permuted[1], straight[0]);
    assert_eq!(permuted[2], straight[1]);
}
