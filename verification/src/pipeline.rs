use vstd::prelude::*;

use crate::cbor;
use crate::cbor::cbor_dec_full;
use crate::cbor::cbor_of;
use crate::cbor::value_wf;
use crate::cose;
use crate::cose::cert_matches_key;
use crate::cose::cert_parses;
use crate::cose::cose_auth;
use crate::cose::cose_kid;
use crate::cose::env_parses;
use crate::cose::key_usable;
use crate::errors::DgcError;
use crate::textcodec;
use crate::textcodec::b45_decode;
use crate::textcodec::b45_encode;
use crate::value::ClaimValue;
use crate::value::ValModel;
use crate::zlib;
use crate::zlib::inflate_of;
use crate::zlib::zlib_of;

verus! {

/// The fixed four-byte scheme prefix that opens every token.
pub open spec fn prefix_bytes() -> Seq<u8> {
    seq![72u8, 67u8, 49u8, 58u8]  // "HC1:"
}

/// The characters that a sequence of ASCII bytes spells.
pub open spec fn ascii_seq(s: Seq<u8>) -> Seq<char> {
    Seq::new(s.len(), |i: int| s[i] as char)
}

/// What decoding a token yields: a structured value, or the failing
/// stage's error.
pub enum DecodeOutcome {
    Val(ValModel),
    Fail(DgcError),
}

/// The decode pipeline as a function of the token bytes and the
/// certificate bytes: strip the four-byte prefix, decode the restricted
/// alphabet, decompress, verify the envelope, deserialize the payload.
pub open spec fn read_spec(token: Seq<u8>, cert: Seq<u8>) -> DecodeOutcome {
    if token.len() < 4 {
        DecodeOutcome::Fail(DgcError::Encoding)
    } else {
        match b45_decode(token.skip(4)) {
            None => DecodeOutcome::Fail(DgcError::Encoding),
            Some(z) => match inflate_of(z) {
                None => DecodeOutcome::Fail(DgcError::Compression),
                Some(env) => if !cert_parses(cert) {
                    DecodeOutcome::Fail(DgcError::Key)
                } else if !env_parses(env) {
                    DecodeOutcome::Fail(DgcError::MalformedInput)
                } else {
                    match cose_auth(cert, env) {
                        None => DecodeOutcome::Fail(DgcError::Verification),
                        Some(p) => match cbor_dec_full(p) {
                            None => DecodeOutcome::Fail(DgcError::MalformedInput),
                            Some(v) => DecodeOutcome::Val(v),
                        },
                    }
                },
            },
        }
    }
}

/// What the encode pipeline guarantees of a token it produced: the token
/// is the prefixed text encoding of the compressed envelope `env`, the
/// envelope parses, its embedded key identifier is the first 8 bytes of
/// the signing certificate, and its payload authenticates as the
/// serialization of `v` under every certificate matching the signing key.
pub open spec fn token_for(
    tb: Seq<u8>,
    env: Seq<u8>,
    cert: Seq<u8>,
    key: Seq<u8>,
    v: ValModel,
) -> bool {
    &&& tb == prefix_bytes() + b45_encode(zlib_of(env))
    &&& inflate_of(zlib_of(env)) == Some(env)
    &&& env_parses(env)
    &&& cose_kid(env) == Some(cert.take(8))
    &&& forall|c: Seq<u8>|
        cert_matches_key(c, key) ==> cert_parses(c) && cose_auth(c, env) == Some(cbor_of(v))
}

/// Relies on `String::from_utf8`: bytes below 128 are valid UTF-8 and
/// become exactly one character each.
#[verifier::external_body]
fn ascii_to_string(bytes: Vec<u8>) -> (r: String)
    requires
        forall|i: int| 0 <= i < bytes@.len() ==> bytes@[i] < 128,
    ensures
        r@ == ascii_seq(bytes@),
{
    String::from_utf8(bytes).expect("ASCII bytes are valid UTF-8")
}

/// Encodes a structured claim value as a signed, compressed, text-safe
/// token: serialize, sign into an envelope carrying the certificate's
/// 8-byte key identifier, compress, render in the 45-symbol alphabet, and
/// prepend the scheme prefix. Every failure is the key error — a
/// certificate shorter than a key identifier, or key material the signer
/// rejects — and a token is only ever produced with a private key that
/// parses as a supported key.
pub fn sign(cert: Vec<u8>, private_key: Vec<u8>, value: &ClaimValue) -> (r: Result<
    String,
    DgcError,
>)
    ensures
        match r {
            Ok(token) => cert@.len() >= 8 && key_usable(private_key@) && exists|tb: Seq<u8>, env: Seq<u8>|
                #[trigger] token_for(tb, env, cert@, private_key@, value@) && token@ == ascii_seq(
                    tb,
                ),
            Err(e) => e == DgcError::Key,
        },
        cert@.len() < 8 ==> r is Err,
        value_wf(value@),
{
    proof {
        cbor::lemma_claim_wf(*value);
    }
    if cert.len() < 8 {
        return Err(DgcError::Key);
    }
    let payload = cbor::serialize(value);
    let mut kid: Vec<u8> = Vec::new();
    let mut i: usize = 0;
    while i < 8
        invariant
            i <= 8,
            cert@.len() >= 8,
            kid@ == cert@.take(i as int),
        decreases 8 - i,
    {
        kid.push(cert[i]);
        assert(kid@ =~= cert@.take(i as int + 1));
        i = i + 1;
    }
    let env = match cose::cose_sign1(payload.as_slice(), kid.as_slice(), private_key.as_slice()) {
        Ok(e) => e,
        Err(_) => {
            return Err(DgcError::Key);
        },
    };
    let compressed = zlib::deflate(env.as_slice());
    let text = textcodec::base45_encode(compressed.as_slice());
    let mut tb: Vec<u8> = Vec::new();
    tb.push(72);
    tb.push(67);
    tb.push(49);
    tb.push(58);
    let ghost after_prefix = tb@;
    let mut k: usize = 0;
    while k < text.len()
        invariant
            k <= text@.len(),
            tb@ == after_prefix + text@.take(k as int),
        decreases text.len() - k,
    {
        tb.push(text[k]);
        assert(tb@ =~= after_prefix + text@.take(k as int + 1));
        k = k + 1;
    }
    proof {
        assert(text@.take(text@.len() as int) =~= text@);
        assert(after_prefix =~= prefix_bytes());
        textcodec::lemma_b45_encode_ascii(compressed@);
        assert(forall|i: int| 0 <= i < tb@.len() ==> tb@[i] < 128);
        assert(tb@ =~= prefix_bytes() + b45_encode(zlib_of(env@)));
        assert(token_for(tb@, env@, cert@, private_key@, value@));
    }
    let token = ascii_to_string(tb);
    Ok(token)
}

/// Decodes a token back to the structured claim value it carries,
/// authenticating it against the given certificate: strip the four-byte
/// prefix, decode the restricted alphabet, decompress, verify the
/// envelope's signature, deserialize the payload. Each stage's failure is
/// reported as that stage's error, exactly as the decode pipeline function
/// states.
pub fn read(certificate: &Vec<u8>, data: &[u8]) -> (r: Result<ClaimValue, DgcError>)
    ensures
        match r {
            Ok(v) => read_spec(data@, certificate@) == DecodeOutcome::Val(v@),
            Err(e) => read_spec(data@, certificate@) == DecodeOutcome::Fail(e),
        },
{
    if data.len() < 4 {
        return Err(DgcError::Encoding);
    }
    let mut body: Vec<u8> = Vec::new();
    let mut i: usize = 4;
    proof {
        assert(body@ =~= data@.subrange(4, 4));
    }
    while i < data.len()
        invariant
            4 <= i <= data@.len(),
            body@ == data@.subrange(4, i as int),
        decreases data.len() - i,
    {
        body.push(data[i]);
        assert(body@ =~= data@.subrange(4, i as int + 1));
        i = i + 1;
    }
    proof {
        assert(body@ =~= data@.skip(4));
    }
    let z = match textcodec::base45_decode(body.as_slice()) {
        Ok(z) => z,
        Err(e) => {
            return Err(e);
        },
    };
    let env = match zlib::inflate(z.as_slice()) {
        Ok(env) => env,
        Err(_) => {
            return Err(DgcError::Compression);
        },
    };
    if !cose::sig_guard(certificate.as_slice(), env.as_slice()) {
        return Err(DgcError::Verification);
    }
    let payload = match cose::cose_verify(certificate.as_slice(), env.as_slice()) {
        Ok(p) => p,
        Err(e) => {
            return Err(e);
        },
    };
    match cbor::deserialize(payload.as_slice()) {
        Ok(v) => Ok(v),
        Err(e) => Err(e),
    }
}

// ---------------------------------------------------------------------------
// Laws of the pipeline.
// ---------------------------------------------------------------------------

/// Round trip: any token that the encode pipeline can produce for a
/// well-formed value, signed with a key that the certificate matches,
/// decodes under that certificate to exactly that value.
pub proof fn lemma_round_trip(tb: Seq<u8>, env: Seq<u8>, cert: Seq<u8>, key: Seq<u8>, v: ValModel)
    requires
        value_wf(v),
        cert_matches_key(cert, key),
        token_for(tb, env, cert, key, v),
    ensures
        read_spec(tb, cert) == DecodeOutcome::Val(v),
{
    assert(tb.skip(4) =~= b45_encode(zlib_of(env)));
    textcodec::lemma_b45_round_trip(zlib_of(env));
    cbor::lemma_cbor_complete(v, Seq::empty());
    assert(cbor_of(v) + Seq::<u8>::empty() =~= cbor_of(v));
    assert(cbor_dec_full(cbor_of(v)) == Some(v));
}

/// Authenticity: a decode that succeeds did verify an envelope whose
/// authenticated payload, under the given certificate, is exactly the
/// serialization of the returned value. A tampered token can therefore
/// only fail, never yield a value that no signed envelope carried.
pub proof fn lemma_decode_authentic(token: Seq<u8>, cert: Seq<u8>, v: ValModel)
    requires
        read_spec(token, cert) == DecodeOutcome::Val(v),
    ensures
        value_wf(v),
        exists|env: Seq<u8>|
            env_parses(env) && #[trigger] cose_auth(cert, env) == Some(cbor_of(v)),
{
    let z = b45_decode(token.skip(4)).unwrap();
    let env = inflate_of(z).unwrap();
    let p = cose_auth(cert, env).unwrap();
    cbor::lemma_cbor_sound(p, v, p.len() as int);
    assert(p.subrange(0, p.len() as int) =~= p);
    assert(env_parses(env) && cose_auth(cert, env) == Some(cbor_of(v)));
}

/// Wrong-certificate rejection: when every earlier stage passes but the
/// envelope's signature does not verify under the given certificate,
/// decoding fails with the verification error.
pub proof fn lemma_wrong_certificate(token: Seq<u8>, cert: Seq<u8>, z: Seq<u8>, env: Seq<u8>)
    requires
        token.len() >= 4,
        b45_decode(token.skip(4)) == Some(z),
        inflate_of(z) == Some(env),
        cert_parses(cert),
        env_parses(env),
        cose_auth(cert, env) is None,
    ensures
        read_spec(token, cert) == DecodeOutcome::Fail(DgcError::Verification),
{
}

} // verus!
