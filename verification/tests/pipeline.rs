use dgc::errors::DgcError;
use dgc::read;
use dgc::sign;
use dgc::value::ClaimValue;
use std::io::Write;

fn text(s: &str) -> ClaimValue {
    ClaimValue::Text(s.as_bytes().to_vec())
}

/// A fresh P-256 key pair: the certificate PEM and the private key PEM.
fn test_key_pair() -> (Vec<u8>, Vec<u8>) {
    let group =
        openssl::ec::EcGroup::from_curve_name(openssl::nid::Nid::X9_62_PRIME256V1).unwrap();
    let ec = openssl::ec::EcKey::generate(&group).unwrap();
    let key = openssl::pkey::PKey::from_ec_key(ec).unwrap();
    let mut name = openssl::x509::X509NameBuilder::new().unwrap();
    name.append_entry_by_text("CN", "dgc test").unwrap();
    let name = name.build();
    let mut builder = openssl::x509::X509::builder().unwrap();
    builder.set_version(2).unwrap();
    builder.set_subject_name(&name).unwrap();
    builder.set_issuer_name(&name).unwrap();
    builder.set_pubkey(&key).unwrap();
    let not_before = openssl::asn1::Asn1Time::days_from_now(0).unwrap();
    builder.set_not_before(&not_before).unwrap();
    let not_after = openssl::asn1::Asn1Time::days_from_now(365).unwrap();
    builder.set_not_after(&not_after).unwrap();
    builder
        .sign(&key, openssl::hash::MessageDigest::sha256())
        .unwrap();
    let cert = builder.build();
    (
        cert.to_pem().unwrap(),
        key.private_key_to_pem_pkcs8().unwrap(),
    )
}

fn sample_claims() -> ClaimValue {
    ClaimValue::Obj(vec![
        (b"name".to_vec(), text("Alice")),
        (b"dob".to_vec(), text("1990-01-01")),
    ])
}

#[test]
fn scenario_encode_decode_and_reject_wrong_certificate() {
    let (cert, key) = test_key_pair();
    let value = sample_claims();
    let token = sign(cert.clone(), key, &value).unwrap();
    assert!(token.starts_with("HC1:"));
    let decoded = read(&cert, token.as_bytes()).unwrap();
    assert_eq!(decoded, value);

    let (other_cert, _) = test_key_pair();
    assert_eq!(
        read(&other_cert, token.as_bytes()),
        Err(DgcError::Verification)
    );
}

#[test]
fn round_trips_every_value_kind() {
    let (cert, key) = test_key_pair();
    let value = ClaimValue::Obj(vec![
        (b"s".to_vec(), text("héllo")),
        (
            b"a".to_vec(),
            ClaimValue::Arr(vec![
                ClaimValue::Int(42),
                ClaimValue::Int(-42),
                ClaimValue::Float(0.1f64.to_bits()),
                ClaimValue::Bool(true),
                ClaimValue::Null,
                ClaimValue::Obj(vec![]),
            ]),
        ),
    ]);
    let token = sign(cert.clone(), key, &value).unwrap();
    let decoded = read(&cert, token.as_bytes()).unwrap();
    assert_eq!(decoded, value);
}

#[test]
fn scenario_empty_text_after_prefix() {
    let (cert, _) = test_key_pair();
    let outcome = read(&cert, b"HC1:");
    assert!(matches!(
        outcome,
        Err(DgcError::Encoding) | Err(DgcError::Compression)
    ));
}

#[test]
fn rejects_key_material_errors() {
    let (cert, key) = test_key_pair();
    // A certificate shorter than a key identifier.
    assert_eq!(
        sign(b"short".to_vec(), key.clone(), &sample_claims()),
        Err(DgcError::Key)
    );
    // A private key that is not PEM key material.
    assert_eq!(
        sign(cert.clone(), b"not a key".to_vec(), &sample_claims()),
        Err(DgcError::Key)
    );
    // A certificate that is not PEM certificate material.
    let token = sign(cert, key, &sample_claims()).unwrap();
    assert_eq!(
        read(&b"not a certificate".to_vec(), token.as_bytes()),
        Err(DgcError::Key)
    );
}

#[test]
fn tampering_any_text_character_fails_decode() {
    let (cert, key) = test_key_pair();
    let token = sign(cert.clone(), key, &sample_claims()).unwrap();
    let bytes = token.as_bytes();
    for i in 4..bytes.len() {
        let mut tampered = bytes.to_vec();
        // Replace with a different symbol of the alphabet so only the
        // carried value changes, never the alphabet membership.
        tampered[i] = if bytes[i] == b'0' { b'1' } else { b'0' };
        if tampered[i] == bytes[i] {
            continue;
        }
        let outcome = read(&cert, &tampered);
        assert!(matches!(
            outcome,
            Err(DgcError::Encoding) | Err(DgcError::Compression) | Err(DgcError::Verification)
        ));
    }
}

#[test]
fn truncated_compressed_stream_fails_decode() {
    let (cert, key) = test_key_pair();
    let token = sign(cert.clone(), key, &sample_claims()).unwrap();
    // Cut whole 3-symbol groups off the end: the alphabet grouping stays
    // valid, so the failure must come from the decompressor's checksum.
    let cut = token.len() - 6;
    let outcome = read(&cert, &token.as_bytes()[..cut]);
    assert!(matches!(
        outcome,
        Err(DgcError::Encoding) | Err(DgcError::Compression)
    ));
}

#[test]
fn short_signature_envelope_is_rejected_not_aborted() {
    // A parseable envelope whose signature field is a single byte: the
    // protected header claims ES256 ({1: -7}), the payload is empty. Its
    // signature cannot split into two curve components, so decoding must
    // report a verification failure rather than abort.
    let (cert, _) = test_key_pair();
    let fields = vec![
        serde_cbor::Value::Bytes(vec![0xa1, 0x01, 0x26]),
        serde_cbor::Value::Map(std::collections::BTreeMap::new()),
        serde_cbor::Value::Bytes(Vec::new()),
        serde_cbor::Value::Bytes(vec![0x00]),
    ];
    let envelope = serde_cbor::to_vec(&serde_cbor::Value::Array(fields)).unwrap();
    let mut enc = flate2::write::ZlibEncoder::new(Vec::new(), flate2::Compression::default());
    enc.write_all(&envelope).unwrap();
    let compressed = enc.finish().unwrap();
    let token = format!("HC1:{}", base45::encode(&compressed));
    assert_eq!(read(&cert, token.as_bytes()), Err(DgcError::Verification));
}

#[test]
fn embedded_kid_is_first_eight_certificate_bytes() {
    let (cert, key) = test_key_pair();
    let token = sign(cert.clone(), key, &sample_claims()).unwrap();
    let compressed = base45::decode(&token[4..]).unwrap();
    let mut z = flate2::write::ZlibDecoder::new(Vec::new());
    z.write_all(&compressed).unwrap();
    let envelope = z.finish().unwrap();
    // The envelope is an array of four items; the first holds the
    // serialized protected header map.
    let parsed: serde_cbor::Value = serde_cbor::from_slice(&envelope).unwrap();
    let items = match parsed {
        serde_cbor::Value::Array(items) => items,
        other => panic!("not an envelope array: {:?}", other),
    };
    let protected = match &items[0] {
        serde_cbor::Value::Bytes(b) => b.clone(),
        other => panic!("protected header is not a byte string: {:?}", other),
    };
    let header: serde_cbor::Value = serde_cbor::from_slice(&protected).unwrap();
    let map = match header {
        serde_cbor::Value::Map(m) => m,
        other => panic!("protected header is not a map: {:?}", other),
    };
    let kid = map
        .get(&serde_cbor::Value::Text("kid".to_string()))
        .expect("kid missing from protected header");
    assert_eq!(kid, &serde_cbor::Value::Bytes(cert[..8].to_vec()));
}

#[test]
fn error_descriptions_are_nonempty() {
    for e in [
        DgcError::MalformedInput,
        DgcError::Key,
        DgcError::Compression,
        DgcError::Encoding,
        DgcError::Verification,
    ] {
        assert!(!e.describe().is_empty());
    }
}
