//! Why a numeric field of an update is refused.

use vstd::prelude::*;

verus! {

/// A numeric field that does not encode a finite, non-negative number.
/// An update that holds one is refused as a whole and leaves the book as it
/// was.
#[derive(Clone, Copy, Debug, PartialEq, Eq, Structural)]
pub enum BookError {
    /// The price is negative, infinite or not a number.
    InvalidPrice,
    /// The size is negative, infinite or not a number.
    InvalidVolume,
}

impl BookError {
    /// A short description for logs.
    pub fn as_str(&self) -> (text: &'static str)
        ensures
            text@ == (match *self {
                BookError::InvalidPrice => "invalid price"@,
                BookError::InvalidVolume => "invalid volume"@,
            }),
    {
        match self {
            BookError::InvalidPrice => "invalid price",
            BookError::InvalidVolume => "invalid volume",
        }
    }
}

} // verus!
