use vstd::prelude::*;

verus! {

/// What can go wrong while sealing or opening a stream.
#[derive(Clone, Copy, Debug, PartialEq, Eq, Structural)]
pub enum StreamError {
    /// Bad key length, unknown cipher or an invalid chunk size.
    Configuration,
    /// A chunk's tag did not verify: the data was altered or damaged.
    Integrity,
    /// The store is shorter than the layout it announces.
    TruncatedStream,
    /// A position outside the stream, or more chunks than can be indexed.
    Bounds,
    /// A chunk was re-sealed so often that its version counter ran out.
    NonceExhausted,
}

/// The description of each error.
pub open spec fn error_text(e: StreamError) -> Seq<char> {
    match e {
        StreamError::Configuration => "invalid configuration"@,
        StreamError::Integrity => "integrity check failed"@,
        StreamError::TruncatedStream => "truncated stream"@,
        StreamError::Bounds => "position out of bounds"@,
        StreamError::NonceExhausted => "nonce versions exhausted"@,
    }
}

impl StreamError {
    /// A short description of the error, without any secret material.
    pub fn describe(&self) -> (r: String)
        ensures
            r@ == error_text(*self),
    {
        let s = match self {
            StreamError::Configuration => "invalid configuration",
            StreamError::Integrity => "integrity check failed",
            StreamError::TruncatedStream => "truncated stream",
            StreamError::Bounds => "position out of bounds",
            StreamError::NonceExhausted => "nonce versions exhausted",
        };
        s.to_string()
    }
}

} // verus!
