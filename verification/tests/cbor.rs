use dgc::cbor::deserialize;
use dgc::cbor::serialize;
use dgc::errors::DgcError;
use dgc::value::ClaimValue;

fn text(s: &str) -> ClaimValue {
    ClaimValue::Text(s.as_bytes().to_vec())
}

#[test]
fn serialize_scalars_exactly() {
    assert_eq!(serialize(&ClaimValue::Null), vec![0xf6]);
    assert_eq!(serialize(&ClaimValue::Bool(false)), vec![0xf4]);
    assert_eq!(serialize(&ClaimValue::Bool(true)), vec![0xf5]);
    assert_eq!(serialize(&ClaimValue::Int(0)), vec![0x00]);
    assert_eq!(serialize(&ClaimValue::Int(23)), vec![0x17]);
    assert_eq!(serialize(&ClaimValue::Int(24)), vec![0x18, 24]);
    assert_eq!(serialize(&ClaimValue::Int(1000)), vec![0x19, 0x03, 0xe8]);
    assert_eq!(serialize(&ClaimValue::Int(-1)), vec![0x20]);
    assert_eq!(serialize(&ClaimValue::Int(-100)), vec![0x38, 0x63]);
    assert_eq!(serialize(&text("a")), vec![0x61, 0x61]);
    let pi_bits = std::f64::consts::PI.to_bits();
    let mut expected = vec![0xfb];
    expected.extend_from_slice(&pi_bits.to_be_bytes());
    assert_eq!(serialize(&ClaimValue::Float(pi_bits)), expected);
}

#[test]
fn serialize_matches_serde_cbor() {
    let mine = serialize(&ClaimValue::Arr(vec![
        ClaimValue::Int(1),
        text("two"),
        ClaimValue::Bool(true),
        ClaimValue::Null,
    ]));
    let expected = serde_cbor::to_vec(&serde_cbor::Value::Array(vec![
        serde_cbor::Value::Integer(1),
        serde_cbor::Value::Text("two".to_string()),
        serde_cbor::Value::Bool(true),
        serde_cbor::Value::Null,
    ]))
    .unwrap();
    assert_eq!(mine, expected);

    let mut map = std::collections::BTreeMap::new();
    map.insert(
        serde_cbor::Value::Text("dob".to_string()),
        serde_cbor::Value::Text("1990-01-01".to_string()),
    );
    let mine_map = serialize(&ClaimValue::Obj(vec![(b"dob".to_vec(), text("1990-01-01"))]));
    let expected_map = serde_cbor::to_vec(&serde_cbor::Value::Map(map)).unwrap();
    assert_eq!(mine_map, expected_map);
}

#[test]
fn round_trips_nested_values() {
    let value = ClaimValue::Obj(vec![
        (b"name".to_vec(), text("Alice")),
        (
            b"scores".to_vec(),
            ClaimValue::Arr(vec![
                ClaimValue::Int(-7),
                ClaimValue::Int(9007199254740993),
                ClaimValue::Float(2.5f64.to_bits()),
                ClaimValue::Null,
                ClaimValue::Bool(false),
            ]),
        ),
        (b"".to_vec(), ClaimValue::Obj(vec![])),
        (b"empty".to_vec(), ClaimValue::Arr(vec![])),
    ]);
    let bytes = serialize(&value);
    assert_eq!(deserialize(&bytes).unwrap(), value);
}

#[test]
fn round_trips_extreme_integers() {
    for n in [i64::MIN, i64::MIN + 1, -256, -24, -23, 0, 23, 24, 255, 256, i64::MAX] {
        let bytes = serialize(&ClaimValue::Int(n));
        assert_eq!(deserialize(&bytes).unwrap(), ClaimValue::Int(n));
    }
}

#[test]
fn rejects_malformed_input() {
    // Empty input, a bare byte-string tag, a truncated text, a truncated
    // count, trailing bytes, and a non-minimal count are all structural
    // errors.
    assert_eq!(deserialize(&[]), Err(DgcError::MalformedInput));
    assert_eq!(deserialize(&[0x41, 0x00]), Err(DgcError::MalformedInput));
    assert_eq!(deserialize(&[0x62, 0x61]), Err(DgcError::MalformedInput));
    assert_eq!(deserialize(&[0x19, 0x03]), Err(DgcError::MalformedInput));
    assert_eq!(deserialize(&[0x00, 0x00]), Err(DgcError::MalformedInput));
    assert_eq!(deserialize(&[0x18, 0x00]), Err(DgcError::MalformedInput));
}
