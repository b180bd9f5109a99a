use dgc::errors::DgcError;
use dgc::textcodec::base45_decode;
use dgc::textcodec::base45_encode;

#[test]
fn encode_known_vectors() {
    assert_eq!(base45_encode(b"AB"), b"BB8".to_vec());
    assert_eq!(base45_encode(b"Hello!!"), b"%69 VD92EX0".to_vec());
    assert_eq!(base45_encode(b"base-45"), b"UJCLQE7W581".to_vec());
    assert_eq!(base45_encode(b""), Vec::<u8>::new());
    assert_eq!(base45_encode(b"a"), b"72".to_vec());
}

#[test]
fn encode_matches_base45_crate() {
    let samples: Vec<Vec<u8>> = vec![
        b"".to_vec(),
        b"\x00".to_vec(),
        b"\x00\x00".to_vec(),
        b"ietf!".to_vec(),
        b"base-45".to_vec(),
        vec![0xff, 0xff, 0xff, 0xff, 0x01],
        (0u8..=255).collect(),
    ];
    for sample in samples {
        let mine = String::from_utf8(base45_encode(&sample)).unwrap();
        let theirs = base45::encode(&sample);
        assert_eq!(mine, theirs);
    }
}

#[test]
fn decode_known_vectors() {
    assert_eq!(base45_decode(b"QED8WEX0").unwrap(), b"ietf!".to_vec());
    assert_eq!(base45_decode(b"BB8").unwrap(), b"AB".to_vec());
    assert_eq!(base45_decode(b"").unwrap(), Vec::<u8>::new());
}

#[test]
fn decode_round_trips_encode() {
    let samples: Vec<Vec<u8>> = vec![
        b"".to_vec(),
        b"x".to_vec(),
        b"xy".to_vec(),
        b"xyz".to_vec(),
        (0u8..=255).collect(),
    ];
    for sample in samples {
        assert_eq!(base45_decode(&base45_encode(&sample)).unwrap(), sample);
    }
}

#[test]
fn decode_rejects_bad_grouping() {
    // Any length leaving a remainder of 1 modulo 3 is an invalid grouping.
    assert_eq!(base45_decode(b"A"), Err(DgcError::Encoding));
    assert_eq!(base45_decode(b"AAAA"), Err(DgcError::Encoding));
}

#[test]
fn decode_rejects_foreign_characters() {
    // Lower-case letters and most punctuation are outside the alphabet.
    assert_eq!(base45_decode(b"ab"), Err(DgcError::Encoding));
    assert_eq!(base45_decode(b"A!C"), Err(DgcError::Encoding));
    assert_eq!(base45_decode(b"AB\x00"), Err(DgcError::Encoding));
}

#[test]
fn decode_rejects_out_of_range_groups() {
    // "ZZ" holds 44 + 45*44 = 2024, too large for a single byte.
    assert_eq!(base45_decode(b"ZZ"), Err(DgcError::Encoding));
    // ":::" holds 44 + 45*44 + 2025*44 = 91124, too large for two bytes.
    assert_eq!(base45_decode(b":::"), Err(DgcError::Encoding));
}
