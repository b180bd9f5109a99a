use vstd::prelude::*;

verus! {

/// The error taxonomy of the certificate pipeline. Every fallible stage
/// reports exactly one of these; the orchestrator passes them through
/// unchanged.
#[derive(Clone, Copy, Debug, PartialEq, Eq, Structural)]
pub enum DgcError {
    /// Structural parse failure in the structured data or in the envelope.
    MalformedInput,
    /// Unparsable or unsupported key or certificate material.
    Key,
    /// Corrupt or truncated compressed stream.
    Compression,
    /// Text outside the restricted alphabet or with an invalid grouping.
    Encoding,
    /// Signature mismatch during envelope verification.
    Verification,
}

impl DgcError {
    /// A short diagnostic name for the error, for callers that report it.
    pub fn describe(&self) -> (r: &'static str)
        ensures
            r@.len() > 0,
            self is MalformedInput ==> r@ == "malformed input"@,
            self is Key ==> r@ == "bad key material"@,
            self is Compression ==> r@ == "corrupt compressed stream"@,
            self is Encoding ==> r@ == "invalid text encoding"@,
            self is Verification ==> r@ == "signature verification failed"@,
    {
        proof {
            reveal_strlit("malformed input");
            reveal_strlit("bad key material");
            reveal_strlit("corrupt compressed stream");
            reveal_strlit("invalid text encoding");
            reveal_strlit("signature verification failed");
        }
        match self {
            DgcError::MalformedInput => "malformed input",
            DgcError::Key => "bad key material",
            DgcError::Compression => "corrupt compressed stream",
            DgcError::Encoding => "invalid text encoding",
            DgcError::Verification => "signature verification failed",
        }
    }
}

} // verus!
