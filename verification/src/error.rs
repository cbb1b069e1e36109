//! The ways in which decoding, reading, writing and encoding can fail.

use vstd::prelude::*;

verus! {

/// Why an operation on a message failed.
#[derive(Debug, Clone, Copy, PartialEq, Eq, Structural)]
pub enum IsoError {
    /// The payload holds a malformed bitmap or length prefix, or ends before
    /// a field that it announces.
    DecodeError,
    /// The field is not present.
    FieldAbsent,
    /// The buffer cannot hold the result.
    BufferTooSmall,
    /// The content is longer than the field's maximum length.
    FieldTooLong,
    /// The position lies outside the specification, or the specification
    /// reaches further than a bitmap can.
    InvalidPosition,
}

impl IsoError {
    /// A short description of the error.
    pub fn as_str(&self) -> (s: &'static str)
        ensures
            s@ == (match *self {
                IsoError::DecodeError => "Malformed payload"@,
                IsoError::FieldAbsent => "Field not set"@,
                IsoError::BufferTooSmall => "Input buffer is smaller than field value"@,
                IsoError::FieldTooLong => "Field value is longer than the field allows"@,
                IsoError::InvalidPosition => "Field position is out of range"@,
            }),
    {
        match *self {
            IsoError::DecodeError => "Malformed payload",
            IsoError::FieldAbsent => "Field not set",
            IsoError::BufferTooSmall => "Input buffer is smaller than field value",
            IsoError::FieldTooLong => "Field value is longer than the field allows",
            IsoError::InvalidPosition => "Field position is out of range",
        }
    }
}

} // verus!
