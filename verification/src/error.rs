//! The error type of the library and the faults a decoder reports.

use vstd::prelude::*;

verus! {

/// `std::str::Utf8Error`, carried opaquely inside [`MsgpackError::Utf8`].
#[verifier::external_type_specification]
#[verifier::external_body]
pub struct ExUtf8Error(core::str::Utf8Error);

/// `serde_json::Error`, carried opaquely inside [`MsgpackError::Schema`].
#[verifier::external_type_specification]
#[verifier::external_body]
pub struct ExSerdeJsonError(serde_json::Error);

/// Everything that can go wrong while encoding, decoding or checking a message.
#[derive(Debug)]
pub enum MsgpackError {
    /// A malformed MessagePack stream; the text says what was wrong.
    Msgpack(&'static str),
    /// A string field whose bytes are not UTF-8.
    Utf8(core::str::Utf8Error),
    /// A schema document that is not the expected JSON.
    Schema(serde_json::Error),
    /// An integer that does not fit the width it is read into or written with.
    IntConversion(core::num::TryFromIntError),
    /// A response whose status code is not the success code `0`.
    ResponseCode(i32),
}

/// The result type of the library.
pub type Result<T> = core::result::Result<T, MsgpackError>;

impl From<core::str::Utf8Error> for MsgpackError {
    fn from(e: core::str::Utf8Error) -> (r: Self) {
        MsgpackError::Utf8(e)
    }
}

impl vstd::std_specs::convert::FromSpecImpl<core::str::Utf8Error> for MsgpackError {
    open spec fn obeys_from_spec() -> bool {
        true
    }

    open spec fn from_spec(e: core::str::Utf8Error) -> Self {
        MsgpackError::Utf8(e)
    }
}

impl From<serde_json::Error> for MsgpackError {
    fn from(e: serde_json::Error) -> (r: Self) {
        MsgpackError::Schema(e)
    }
}

impl vstd::std_specs::convert::FromSpecImpl<serde_json::Error> for MsgpackError {
    open spec fn obeys_from_spec() -> bool {
        true
    }

    open spec fn from_spec(e: serde_json::Error) -> Self {
        MsgpackError::Schema(e)
    }
}

impl From<core::num::TryFromIntError> for MsgpackError {
    fn from(e: core::num::TryFromIntError) -> (r: Self) {
        MsgpackError::IntConversion(e)
    }
}

impl vstd::std_specs::convert::FromSpecImpl<core::num::TryFromIntError> for MsgpackError {
    open spec fn obeys_from_spec() -> bool {
        true
    }

    open spec fn from_spec(e: core::num::TryFromIntError) -> Self {
        MsgpackError::IntConversion(e)
    }
}

/// The kinds of decoding failure, as the contracts name them.
#[derive(Debug, Clone, Copy, PartialEq, Eq)]
pub enum Fault {
    /// The stream ended before the item did.
    UnexpectedEnd,
    /// A length would carry the read position past `usize::MAX`.
    LengthOverflow,
    /// The marker byte is not that of a boolean.
    ExpectedBool,
    /// The marker byte is not that of an integer.
    ExpectedInteger,
    /// The marker byte is not that of a floating-point number.
    ExpectedFloat,
    /// The marker byte is not that of a string.
    ExpectedString,
    /// The marker byte is not that of a binary blob.
    ExpectedBinary,
    /// The marker byte is not that of an array header.
    ExpectedArray,
    /// The bytes of a string are not valid UTF-8.
    InvalidUtf8,
    /// An integer is outside the range of the width it is read into.
    OutOfRange,
}

impl MsgpackError {
    /// The error that a decoder returns for the fault `f`.
    pub open spec fn reports(self, f: Fault) -> bool {
        match f {
            Fault::UnexpectedEnd => self == MsgpackError::Msgpack("unexpected end of buffer"),
            Fault::LengthOverflow => self == MsgpackError::Msgpack("length overflow"),
            Fault::ExpectedBool => self == MsgpackError::Msgpack("expected bool"),
            Fault::ExpectedInteger => self == MsgpackError::Msgpack("expected integer"),
            Fault::ExpectedFloat => self == MsgpackError::Msgpack("expected float"),
            Fault::ExpectedString => self == MsgpackError::Msgpack("expected string"),
            Fault::ExpectedBinary => self == MsgpackError::Msgpack("expected binary"),
            Fault::ExpectedArray => self == MsgpackError::Msgpack("expected array"),
            Fault::InvalidUtf8 => self is Utf8,
            Fault::OutOfRange => self is IntConversion,
        }
    }

    /// Whether an outcome of a decoder agrees with the outcome `expected` that the
    /// model gives: the same value, or an error that reports the same fault.
    pub open spec fn agrees<T: View>(r: Result<T>, expected: core::result::Result<T::V, Fault>) -> bool {
        match expected {
            Ok(v) => r matches Ok(x) && x@ == v,
            Err(f) => r matches Err(e) && e.reports(f),
        }
    }
}

} // verus!
