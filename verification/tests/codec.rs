use block_state::catalog::{compile, Catalog};
use block_state::codec::DecodeError;
use block_state::schema::{BlockDef, PropDef, PropKind};
use block_state::state::BlockState;

/// One kind spanning the whole sixteen-bit id space, so that every id is
/// valid and multi-byte encodings appear.
fn wide_catalog() -> Catalog {
    let digits: Vec<String> = (0..16u32).map(|i| i.to_string()).collect();
    let props = ["a", "b", "c", "d"]
        .iter()
        .map(|n| PropDef { kind: PropKind::Int, name: n.to_string(), vals: digits.clone() })
        .collect();
    let schema = vec![BlockDef {
        name: "everything".to_string(),
        default_state: 0,
        min_state_id: 0,
        max_state_id: 65535,
        props,
    }];
    compile(&schema).expect("schema compiles")
}

fn tiny_catalog() -> Catalog {
    let schema = vec![BlockDef {
        name: "air".to_string(),
        default_state: 0,
        min_state_id: 0,
        max_state_id: 0,
        props: vec![],
    }];
    compile(&schema).expect("schema compiles")
}

#[test]
fn codec_roundtrip() {
    let cat = wide_catalog();
    for id in [0u16, 1, 42, 127, 128, 300, 16383, 16384, 40000, 65535] {
        let s = BlockState::from_raw(&cat, id).unwrap();
        let bytes = s.encode();
        assert_eq!(bytes.len(), s.encoded_len());
        let (back, used) = BlockState::decode(&cat, &bytes).unwrap();
        assert_eq!(back, s);
        assert_eq!(used, bytes.len());
    }
}

#[test]
fn encoded_lengths() {
    let cat = wide_catalog();
    assert_eq!(BlockState::from_raw(&cat, 127).unwrap().encode(), vec![0x7F]);
    assert_eq!(BlockState::from_raw(&cat, 128).unwrap().encode(), vec![0x80, 0x01]);
    assert_eq!(BlockState::from_raw(&cat, 300).unwrap().encode(), vec![0xAC, 0x02]);
    assert_eq!(
        BlockState::from_raw(&cat, 65535).unwrap().encode(),
        vec![0xFF, 0xFF, 0x03]
    );
}

#[test]
fn decode_rejects_out_of_range_ids() {
    let cat = tiny_catalog();
    // The varint reads 300, but only id 0 exists.
    let r = BlockState::decode(&cat, &[0xAC, 0x02]);
    assert_eq!(r, Err(DecodeError::InvalidStateId { value: 300 }));
    // A varint beyond the sixteen-bit domain: 0x10000000.
    let r = BlockState::decode(&cat, &[0x80, 0x80, 0x80, 0x80, 0x01]);
    assert_eq!(r, Err(DecodeError::InvalidStateId { value: 0x10000000 }));
}

#[test]
fn decode_rejects_malformed_varints() {
    let cat = tiny_catalog();
    assert_eq!(BlockState::decode(&cat, &[]), Err(DecodeError::UnexpectedEnd));
    assert_eq!(BlockState::decode(&cat, &[0x80]), Err(DecodeError::UnexpectedEnd));
    assert_eq!(
        BlockState::decode(&cat, &[0x80, 0x80, 0x80, 0x80, 0x80, 0x01]),
        Err(DecodeError::TooLong)
    );
}

#[test]
fn decode_consumes_only_the_varint() {
    let cat = wide_catalog();
    let mut bytes = BlockState::from_raw(&cat, 300).unwrap().encode();
    bytes.push(0x55);
    bytes.push(0x66);
    let (s, used) = BlockState::decode(&cat, &bytes).unwrap();
    assert_eq!(s.to_raw(), 300);
    assert_eq!(used, 2);
}
