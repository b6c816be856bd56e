//! Error values of the library.

use vstd::prelude::*;

verus! {

/// A code table that cannot be built, or a stream that cannot be decoded.
#[derive(Debug)]
pub struct DecodeError {
    message: String,
}

/// A symbol that cannot be encoded.
#[derive(Debug)]
pub struct EncodeError {
    message: String,
}

impl DecodeError {
    pub fn new(message: &str) -> (r: Self) {
        DecodeError { message: message.to_owned() }
    }

    /// The text that describes the error.
    pub fn message(&self) -> (r: String) {
        self.message.clone()
    }
}

impl EncodeError {
    pub fn new(message: &str) -> (r: Self) {
        EncodeError { message: message.to_owned() }
    }

    /// The text that describes the error.
    pub fn message(&self) -> (r: String) {
        self.message.clone()
    }
}

} // verus!
