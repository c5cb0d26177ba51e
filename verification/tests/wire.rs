use oracle_multicall::multicall::{AggregatedRequest, RequestEntry, ResponseEntry};
use oracle_multicall::wire::{
    encode_aggregate, encode_response, parse_aggregate_response, WireError,
};

fn be_word(n: u64) -> Vec<u8> {
    let mut w = vec![0u8; 32];
    w[24..].copy_from_slice(&n.to_be_bytes());
    w
}

fn padded(data: &[u8]) -> Vec<u8> {
    let mut out = data.to_vec();
    let rem = data.len() % 32;
    if rem != 0 {
        out.extend(std::iter::repeat(0u8).take(32 - rem));
    }
    out
}

/// The canonical wire image of a `{success, returnData}` array, built
/// independently of the library.
fn canonical_response(entries: &[(bool, Vec<u8>)]) -> Vec<u8> {
    let n = entries.len();
    let mut tails: Vec<Vec<u8>> = Vec::new();
    for (success, data) in entries {
        let mut tail = be_word(*success as u64);
        tail.extend(be_word(0x40));
        tail.extend(be_word(data.len() as u64));
        tail.extend(padded(data));
        tails.push(tail);
    }
    let mut out = be_word(0x20);
    out.extend(be_word(n as u64));
    let mut off = 32 * n;
    for tail in &tails {
        out.extend(be_word(off as u64));
        off += tail.len();
    }
    for tail in &tails {
        out.extend(tail);
    }
    out
}

fn request(payloads: &[&[u8]]) -> AggregatedRequest {
    AggregatedRequest {
        entries: payloads
            .iter()
            .enumerate()
            .map(|(i, p)| RequestEntry { target: vec![i as u8 + 1; 20], payload: p.to_vec() })
            .collect(),
    }
}

#[test]
fn aggregate_calldata_starts_with_the_aggregate3_selector() {
    // keccak256("aggregate3((address,bool,bytes)[])") starts with 82 ad 56 cb.
    let calldata = encode_aggregate(&request(&[&[0xaa, 0xbb, 0xcc, 0xdd]])).unwrap();
    assert_eq!(&calldata[0..4], &[0x82, 0xad, 0x56, 0xcb]);
    let digest = alloy_primitives::keccak256(b"aggregate3((address,bool,bytes)[])");
    assert_eq!(&calldata[0..4], &digest[0..4]);
}

#[test]
fn aggregate_calldata_lays_out_heads_and_tails() {
    let calldata = encode_aggregate(&request(&[&[0xaa, 0xbb, 0xcc, 0xdd], &[0x11]])).unwrap();
    let mut expected = vec![0x82, 0xad, 0x56, 0xcb];
    expected.extend(be_word(0x20)); // offset of the array
    expected.extend(be_word(2)); // entry count
    expected.extend(be_word(64)); // first struct: right after the two heads
    expected.extend(be_word(64 + 160)); // second struct: first is 5 words
    // first struct: target word, allowFailure=true, bytes offset, length, padded data
    let mut first = vec![0u8; 12];
    first.extend(vec![1u8; 20]);
    expected.extend(first);
    expected.extend(be_word(1));
    expected.extend(be_word(0x60));
    expected.extend(be_word(4));
    expected.extend(padded(&[0xaa, 0xbb, 0xcc, 0xdd]));
    // second struct
    let mut second = vec![0u8; 12];
    second.extend(vec![2u8; 20]);
    expected.extend(second);
    expected.extend(be_word(1));
    expected.extend(be_word(0x60));
    expected.extend(be_word(1));
    expected.extend(padded(&[0x11]));
    assert_eq!(calldata, expected);
}

#[test]
fn parse_accepts_a_canonical_response() {
    let fixture = canonical_response(&[
        (true, be_word(0x1234)),
        (false, vec![]),
        (true, vec![0xde, 0xad, 0xbe, 0xef, 0x99]),
    ]);
    let entries = parse_aggregate_response(&fixture).unwrap();
    assert_eq!(
        entries,
        vec![
            ResponseEntry { success: true, data: be_word(0x1234) },
            ResponseEntry { success: false, data: vec![] },
            ResponseEntry { success: true, data: vec![0xde, 0xad, 0xbe, 0xef, 0x99] },
        ]
    );
}

#[test]
fn parse_accepts_an_empty_response_array() {
    let fixture = canonical_response(&[]);
    let entries = parse_aggregate_response(&fixture).unwrap();
    assert_eq!(entries, vec![]);
}

#[test]
fn encode_response_matches_the_canonical_image() {
    let entries = vec![
        ResponseEntry { success: true, data: be_word(7) },
        ResponseEntry { success: false, data: vec![0xab; 33] },
    ];
    let encoded = encode_response(&entries).unwrap();
    let expected = canonical_response(&[(true, be_word(7)), (false, vec![0xab; 33])]);
    assert_eq!(encoded, expected);
}

#[test]
fn response_wire_round_trips() {
    let cases: Vec<Vec<ResponseEntry>> = vec![
        vec![],
        vec![ResponseEntry { success: true, data: vec![] }],
        vec![
            ResponseEntry { success: false, data: vec![1] },
            ResponseEntry { success: true, data: vec![2; 32] },
            ResponseEntry { success: true, data: vec![3; 65] },
        ],
    ];
    for entries in cases {
        let encoded = encode_response(&entries).unwrap();
        assert_eq!(parse_aggregate_response(&encoded).unwrap(), entries);
    }
}

#[test]
fn parse_refuses_a_truncated_payload() {
    let r = parse_aggregate_response(&be_word(0x20));
    assert_eq!(r, Err(WireError::TooShort { at: 0 }));
}

#[test]
fn parse_refuses_a_wrong_array_offset() {
    let mut fixture = canonical_response(&[(true, vec![])]);
    fixture[31] = 0x40;
    let r = parse_aggregate_response(&fixture);
    assert_eq!(r, Err(WireError::BadWord { at: 0 }));
}

#[test]
fn parse_refuses_a_non_boolean_success_word() {
    let mut fixture = canonical_response(&[(true, vec![])]);
    // the success word of the first struct sits right after the head
    fixture[96 + 31] = 2;
    let r = parse_aggregate_response(&fixture);
    assert_eq!(r, Err(WireError::BadWord { at: 96 }));
}

#[test]
fn parse_refuses_trailing_bytes() {
    let mut fixture = canonical_response(&[(true, vec![])]);
    fixture.push(0);
    let r = parse_aggregate_response(&fixture);
    let from = fixture.len() - 1;
    assert_eq!(r, Err(WireError::Trailing { from }));
}

#[test]
fn parse_refuses_nonzero_padding() {
    let mut fixture = canonical_response(&[(true, vec![0x55])]);
    let last = fixture.len() - 1;
    fixture[last] = 1;
    let r = parse_aggregate_response(&fixture);
    assert!(matches!(r, Err(WireError::BadWord { .. })));
}
