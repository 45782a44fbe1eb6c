//! Errors of decoding and encoding.
use vstd::prelude::*;

verus! {

/// A decoding error.
#[derive(Debug, Clone, PartialEq)]
pub enum DecodeError {
    /// The input ended before the value did.
    UnexpectedEof,
    /// A string is not valid UTF-8.
    String,
    /// Unknown marker.
    Unknown {
        /// The unknown marker.
        marker: u8,
    },
    /// A recognised marker of a type that is not supported.
    Unsupported {
        /// The marker of the unsupported type.
        marker: u8,
    },
    /// An object-end marker outside the members of an object (AMF0 only).
    UnexpectedObjectEnd,
    /// A reference to a value that is still being decoded.
    CircularReference {
        /// The index of the reference.
        index: usize,
    },
    /// A reference beyond the end of its table.
    OutOfRangeReference {
        /// The index of the reference.
        index: usize,
    },
    /// A date with a non-zero time zone (AMF0 only).
    NonZeroTimeZone {
        /// The time zone offset.
        offset: i16,
    },
    /// A date whose milliseconds are infinite, NaN or negative.
    InvalidDate {
        /// The milliseconds, as the bits of an IEEE-754 binary64.
        millis: u64,
    },
    /// An externalizable object, which is not supported (AMF3 only).
    ExternalizableType {
        /// The class name of the object.
        name: String,
    },
}

/// The model of a decoding error.
pub enum ErrorModel {
    UnexpectedEof,
    String,
    Unknown { marker: u8 },
    Unsupported { marker: u8 },
    UnexpectedObjectEnd,
    CircularReference { index: nat },
    OutOfRangeReference { index: nat },
    NonZeroTimeZone { offset: i16 },
    InvalidDate { millis: u64 },
    ExternalizableType { name: Seq<char> },
}

impl View for DecodeError {
    type V = ErrorModel;

    open spec fn view(&self) -> ErrorModel {
        match self {
            DecodeError::UnexpectedEof => ErrorModel::UnexpectedEof,
            DecodeError::String => ErrorModel::String,
            DecodeError::Unknown { marker } => ErrorModel::Unknown { marker: *marker },
            DecodeError::Unsupported { marker } => ErrorModel::Unsupported { marker: *marker },
            DecodeError::UnexpectedObjectEnd => ErrorModel::UnexpectedObjectEnd,
            DecodeError::CircularReference { index } => ErrorModel::CircularReference {
                index: *index as nat,
            },
            DecodeError::OutOfRangeReference { index } => ErrorModel::OutOfRangeReference {
                index: *index as nat,
            },
            DecodeError::NonZeroTimeZone { offset } => ErrorModel::NonZeroTimeZone {
                offset: *offset,
            },
            DecodeError::InvalidDate { millis } => ErrorModel::InvalidDate { millis: *millis },
            DecodeError::ExternalizableType { name } => ErrorModel::ExternalizableType {
                name: name@,
            },
        }
    }
}

/// An encoding error: a length, a count or an integer does not fit the field
/// that the format gives it.
#[derive(Debug, Clone, Copy, PartialEq, Eq)]
pub enum EncodeError {
    /// A value lies outside the domain of its field.
    OutOfRange,
}

} // verus!
