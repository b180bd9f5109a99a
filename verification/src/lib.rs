//! A compact, text-safe, digitally-signed certificate encoding for a
//! structured claim set. Encoding serializes the claims to a compact
//! binary form, wraps them in a single-signer signed envelope carrying the
//! certificate's key identifier, compresses the envelope, and renders the
//! result in a 45-symbol text alphabet behind a fixed scheme prefix;
//! decoding reverses every stage and authenticates the payload.

pub mod cbor;
pub mod cose;
pub mod errors;
pub mod pipeline;
pub mod textcodec;
pub mod value;
pub mod zlib;

pub use errors::DgcError;
pub use pipeline::read;
pub use pipeline::sign;
pub use value::ClaimValue;
