use vstd::prelude::*;

use crate::errors::DgcError;
use aws_nitro_enclaves_cose::crypto::Openssl;
use aws_nitro_enclaves_cose::crypto::SigningPublicKey;
use aws_nitro_enclaves_cose::header_map::CborValue;
use aws_nitro_enclaves_cose::header_map::HeaderMap;
use aws_nitro_enclaves_cose::sign::CoseSign1;
use ciborium::de::from_reader;
use openssl::pkey::PKey;
use openssl::x509::X509;

verus! {

/// Whether the PEM certificate parses and yields a public key.
pub uninterp spec fn cert_parses(cert: Seq<u8>) -> bool;

/// Whether the bytes parse as a single-signer signed envelope.
pub uninterp spec fn env_parses(env: Seq<u8>) -> bool;

/// The payload of the envelope, if the envelope parses and its signature
/// verifies under the certificate's public key; nothing otherwise.
/// Parsing and signature verification are deterministic in the bytes.
pub uninterp spec fn cose_auth(cert: Seq<u8>, env: Seq<u8>) -> Option<Seq<u8>>;

/// The key identifier held in the envelope's protected header, if any.
pub uninterp spec fn cose_kid(env: Seq<u8>) -> Option<Seq<u8>>;

/// Whether the PEM certificate carries the public counterpart of the PEM
/// private key, of a key type the envelope implementation supports.
pub uninterp spec fn cert_matches_key(cert: Seq<u8>, key: Seq<u8>) -> bool;

/// Whether the bytes parse as a PEM private key of a type the envelope
/// implementation supports (an EC key on a named curve). PEM parsing is
/// deterministic in the bytes.
pub uninterp spec fn key_usable(key: Seq<u8>) -> bool;

/// False when the certificate parses to a supported EC key, the envelope
/// parses, and the envelope's signature field is shorter than one
/// signature component for the certificate's curve — the one shape of
/// envelope on which the envelope implementation aborts instead of
/// reporting a mismatch; true of every other pair of byte strings.
/// Deterministic in the bytes.
pub uninterp spec fn sig_plausible(cert: Seq<u8>, env: Seq<u8>) -> bool;

/// Relies on openssl's `PKey::private_key_from_pem` and
/// aws_nitro_enclaves_cose's `CoseSign1::new_with_protected`: the envelope
/// carries the payload and, in its protected header, the signature
/// algorithm and the given key identifier under the text key "kid"; its
/// signature verifies under the public key of any certificate that matches
/// the signing key, so `get_payload` with such a certificate's key returns
/// the payload. Success requires that the private key parsed as a
/// supported key: every path to an envelope goes through the PEM parse
/// and the key's curve parameters.
#[verifier::external_body]
pub(crate) fn cose_sign1(payload: &[u8], kid: &[u8], key_pem: &[u8]) -> (r: Result<Vec<u8>, ()>)
    ensures
        match r {
            Ok(env) => key_usable(key_pem@) && env_parses(env@) && cose_kid(env@) == Some(kid@)
                && forall|c: Seq<u8>|
                cert_matches_key(c, key_pem@) ==> cert_parses(c) && cose_auth(c, env@) == Some(
                    payload@,
                ),
            Err(_) => true,
        },
{
    let key = PKey::private_key_from_pem(key_pem).map_err(|_| ())?;
    let alg = key.get_parameters().map_err(|_| ())?.0;
    let mut protected = HeaderMap::new();
    protected.insert(1.into(), (alg as i8).into());
    protected.insert("kid".into(), kid.into());
    let env = CoseSign1::new_with_protected::<Openssl>(payload, &protected, &HeaderMap::new(), &key)
        .map_err(|_| ())?;
    env.as_bytes(false).map_err(|_| ())
}

/// Relies on openssl's `X509::from_pem`/`public_key`,
/// `CoseSign1::from_bytes`/`as_bytes`, and ciborium (the parser the
/// envelope implementation itself uses): detects the envelopes whose
/// signature field is too short to split into the curve's two signature
/// components, by re-reading the envelope's own canonical serialization.
/// Such a signature is no component pair at all, so it verifies under no
/// key.
#[verifier::external_body]
pub(crate) fn sig_guard(cert_pem: &[u8], env: &[u8]) -> (r: bool)
    ensures
        r == sig_plausible(cert_pem@, env@),
        !r ==> cert_parses(cert_pem@) && env_parses(env@) && cose_auth(cert_pem@, env@) is None,
{
    let params = X509::from_pem(cert_pem).ok().and_then(|c| c.public_key().ok()).and_then(
        |k| k.get_parameters().ok());
    let min = match params {
        Some(p) => p.0.key_length(),
        None => return true,
    };
    let b = match CoseSign1::from_bytes(env).ok().and_then(|p| p.as_bytes(false).ok()) {
        Some(b) => b,
        None => return true,
    };
    match from_reader(b.as_slice()) {
        Ok(CborValue::Array(f)) => !(matches!(f.get(3), Some(CborValue::Bytes(s)) if s.len() < min)),
        _ => true,
    }
}

/// Relies on openssl's `X509::from_pem` and `X509::public_key`, and
/// aws_nitro_enclaves_cose's `CoseSign1::from_bytes` and `get_payload`:
/// reports an unparsable certificate, an unparsable envelope, and a
/// signature that does not verify under the certificate's key, in that
/// order, and otherwise returns the envelope's payload; each step is a
/// deterministic function of the bytes. The envelope implementation
/// aborts on the envelopes that `sig_plausible` rules out, so callers
/// must rule them out first.
#[verifier::external_body]
pub(crate) fn cose_verify(cert_pem: &[u8], env: &[u8]) -> (r: Result<Vec<u8>, DgcError>)
    requires
        sig_plausible(cert_pem@, env@),
    ensures
        match r {
            Ok(p) => cert_parses(cert_pem@) && env_parses(env@) && cose_auth(cert_pem@, env@)
                == Some(p@),
            Err(e) => cose_auth(cert_pem@, env@) is None && (e == DgcError::Key <==> !cert_parses(
                cert_pem@,
            )) && (e == DgcError::MalformedInput <==> cert_parses(cert_pem@) && !env_parses(env@))
                && (e == DgcError::Verification <==> cert_parses(cert_pem@) && env_parses(env@)),
        },
{
    let cert = X509::from_pem(cert_pem).map_err(|_| DgcError::Key)?;
    let key = cert.public_key().map_err(|_| DgcError::Key)?;
    let parsed = CoseSign1::from_bytes(env).map_err(|_| DgcError::MalformedInput)?;
    parsed.get_payload::<Openssl>(Some(&key)).map_err(|_| DgcError::Verification)
}

} // verus!
