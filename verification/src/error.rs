use vstd::prelude::*;

verus! {

/// The error cases of the codec and of its byte-buffer adapters.
///
/// All three are terminal validation failures: none is transient and none
/// leaves a partial result behind.
#[derive(Clone, Copy, Debug, PartialEq, Eq, Structural)]
pub enum Base62Error {
    /// A byte buffer handed to an adapter did not hold exactly 16 bytes.
    InvalidInput,
    /// The destination buffer was too small for the digits of the value.
    EncodeError,
    /// The input string held a character outside the alphabet, or the
    /// magnitude it denotes does not fit in 128 bits.
    DecodeError,
}

impl Base62Error {
    /// A short human-readable description of the error.
    pub fn message(&self) -> (m: &'static str)
        ensures
            *self == Base62Error::InvalidInput ==> m@ == "unexpected input length"@,
            *self == Base62Error::EncodeError ==> m@ == "error encoding value"@,
            *self == Base62Error::DecodeError ==> m@ == "error decoding value"@,
    {
        match self {
            Base62Error::InvalidInput => "unexpected input length",
            Base62Error::EncodeError => "error encoding value",
            Base62Error::DecodeError => "error decoding value",
        }
    }
}

} // verus!
