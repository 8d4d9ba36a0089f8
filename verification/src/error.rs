//! Failures that the cipher reports to its callers.

use vstd::prelude::*;

verus! {

/// Everything that can go wrong while a key is expanded or a buffer is
/// transformed. No failure leaves anything behind: a call either returns its
/// full result or one of these.
#[derive(Debug, Clone, Copy, PartialEq, Eq)]
pub enum Error {
    /// The key is longer than 256 bytes.
    InvalidKeySize,
    /// A rotation amount could not be read from a register.
    InvalidWordSize,
    /// A byte string that is to become a register does not have the
    /// register's width.
    InvalidBytes,
    /// A buffer's length is no multiple of the block size.
    InvalidInputLength,
    /// More than 256 rounds were asked for.
    InvalidRoundsCount,
}

impl Error {
    /// The text that describes this failure.
    pub open spec fn spec_message(self) -> Seq<char> {
        match self {
            Error::InvalidKeySize => "Invalid key size"@,
            Error::InvalidWordSize => "Invalid word size"@,
            Error::InvalidBytes => "Invalid bytes. Can't convert to a word."@,
            Error::InvalidInputLength =>
                "Invalid plaintext or cyphertext length. Must be a multiple of the block size"@,
            Error::InvalidRoundsCount => "Invalid number of rounds"@,
        }
    }

    /// A human-readable description of this failure.
    pub fn message(&self) -> (text: String)
        ensures
            text@ == self.spec_message(),
    {
        match self {
            Error::InvalidKeySize => "Invalid key size".to_owned(),
            Error::InvalidWordSize => "Invalid word size".to_owned(),
            Error::InvalidBytes => "Invalid bytes. Can't convert to a word.".to_owned(),
            Error::InvalidInputLength => {
                "Invalid plaintext or cyphertext length. Must be a multiple of the block size"
                    .to_owned()
            },
            Error::InvalidRoundsCount => "Invalid number of rounds".to_owned(),
        }
    }
}

} // verus!
