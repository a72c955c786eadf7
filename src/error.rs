//! The error conditions that frame handling reports.
use vstd::prelude::*;

verus! {

/// What went wrong with a frame.
#[derive(PartialEq, Eq, Structural, Clone, Copy, Debug, Hash)]
pub enum ErrorKind {
    /// The first header field is none of the verb tokens.
    UnknownVerb,
    /// The peer address is not a dotted-quad IPv4 literal.
    MalformedAddress,
    /// The header lacks the peer identifier or the peer address.
    TruncatedHeader,
    /// The frame-size field is there but is not a decimal number that fits in
    /// a `usize`. The size is what tells where a frame ends on the stream, so
    /// a frame that declares an unusable one is rejected rather than read as
    /// if it declared none (an absent size field is accepted).
    MalformedSize,
    /// A later frame names another peer address than the connection's.
    IdentityMismatch,
}

/// An error with the place that raised it and a reason in words.
#[derive(Debug)]
pub struct DIDError {
    pub kind: ErrorKind,
    pub source: String,
    pub reason: String,
}

impl DIDError {
    pub fn new(kind: ErrorKind, source: &str, reason: &str) -> (r: DIDError)
        ensures
            r.kind == kind,
            r.source@ == source@,
            r.reason@ == reason@,
    {
        DIDError { kind, source: source.to_string(), reason: reason.to_string() }
    }

    /// The error as `source: reason`.
    pub fn to_string(&self) -> (r: String)
        ensures
            r@ == self.source@ + seq![':', ' '] + self.reason@,
    {
        let mut r = self.source.clone();
        r.append(": ");
        proof {
            reveal_strlit(": ");
        }
        r.append(self.reason.as_str());
        r
    }
}

} // verus!
