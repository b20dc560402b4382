//! Validation failures of the Reed-Solomon codec.

use vstd::prelude::*;

verus! {

/// Everything that can go wrong while constructing a codec or handing it a
/// message. All of these are immediate validation failures; the codec has no
/// transient error states.
#[derive(Debug, PartialEq, Eq, Structural, Clone, Copy)]
pub enum Errors {
    /// The requested codeword length was zero.
    TooFewNumbers,
    /// The requested parity count was zero.
    TooFewParity,
    /// The requested codeword length exceeds the order of the field.
    TooManyNumbers,
    /// An empty message was handed to `encode` or `check`.
    InvalidMessage,
}

impl Errors {
    /// A human-readable description of the failure.
    pub fn to_string(&self) -> (r: &'static str)
        ensures
            self is TooFewNumbers ==> r@ == "Total number provided is less than one"@,
            self is TooFewParity ==> r@ == "Total parity number provided is less than one"@,
            self is TooManyNumbers ==> r@ == "Total number provided is greater than order of the field"@,
            self is InvalidMessage ==> r@ == "Invalid message to encode"@,
    {
        match *self {
            Self::TooFewNumbers => "Total number provided is less than one",
            Self::TooFewParity => "Total parity number provided is less than one",
            Self::TooManyNumbers => "Total number provided is greater than order of the field",
            Self::InvalidMessage => "Invalid message to encode",
        }
    }
}

} // verus!
