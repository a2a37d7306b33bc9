use vstd::prelude::*;

use crate::digits::{dec_digits, dec_text, hex_digits, hex_text};

verus! {

/// A failure while writing or reading Universal Binary JSON. Every failure ends
/// the call that met it.
#[derive(Debug)]
pub enum UbjError {
    /// A value that the format has no representation for (128-bit integers,
    /// `u64` above `i64::MAX`, over-long strings).
    Unsupported(&'static str),
    /// A map key that does not reduce to a string; the kind of the key is named.
    IllegalKeyType(&'static str),
    /// A character outside the ASCII range, by code point.
    CharNotAscii(u32),
    /// A marker byte that was not the one expected.
    UnexpectedMarker(u8),
    /// The input ended in the middle of a value.
    UnexpectedEof,
    /// Text that is not well-formed UTF-8; the offset of the first byte in error.
    Utf8Error(usize),
    /// Kept for borrowing readers: the capacity that would have been needed.
    BufferTooSmall(usize),
    /// Kept for index-tagged unions: an index too large for the format.
    EnumVariantIndexTooLarge(u32),
    /// A fault of the underlying transport, as the transport reported it.
    IO(std::io::Error),
    /// Any other failure, described by the caller.
    Other(String),
}

/// The result of every fallible operation of this crate.
pub type UbjResult<T> = Result<T, UbjError>;

/// `std::io::Error` is carried through unchanged as the cause of `UbjError::IO`.
#[verifier::external_type_specification]
#[verifier::external_body]
pub struct ExIoError(std::io::Error);

impl UbjError {
    /// Wraps a transport fault, keeping it as the cause.
    pub fn from_io_error(err: std::io::Error) -> (r: UbjError)
        ensures
            r == UbjError::IO(err),
    {
        UbjError::IO(err)
    }
}

/// Relies on the `Display` of `std::io::Error`: the text that a transport
/// fault gives of itself.
#[verifier::external_body]
fn io_error_text(e: &std::io::Error) -> (r: String) {
    e.to_string()
}

/// The message that describes a failure.
pub open spec fn message_of(e: UbjError, m: Seq<char>) -> bool {
    match e {
        UbjError::Unsupported(what) => m == "Unsupported: "@ + what@,
        UbjError::IllegalKeyType(kind) => m == "Illegal key type: "@ + kind@,
        UbjError::CharNotAscii(c) => m == "Char not within ASCII range: 0x"@ + hex_digits(c as nat),
        UbjError::UnexpectedMarker(b) => m == "Unexpected marker: 0x"@ + hex_digits(b as nat),
        UbjError::UnexpectedEof => m == "Unexpected end of file"@,
        UbjError::Utf8Error(at) => m == "UTF-8 error occurred: invalid utf-8 from index "@
            + dec_digits(at as nat),
        UbjError::BufferTooSmall(n) => m
            == "Buffer too small. Consider increasing its capacity to at least "@ + dec_digits(
            n as nat,
        ),
        UbjError::EnumVariantIndexTooLarge(v) => m == "Enum variant index is too large: "@
            + dec_digits(v as nat),
        UbjError::IO(_) => exists|t: Seq<char>| m == "IO error occurred: "@ + t,
        UbjError::Other(text) => m == text@,
    }
}

impl UbjError {
    /// A human-readable description of the failure.
    pub fn message(&self) -> (r: String)
        ensures
            message_of(*self, r@),
    {
        match self {
            UbjError::Unsupported(what) => {
                let mut r = String::from_str("Unsupported: ");
                r.append(what);
                r
            },
            UbjError::IllegalKeyType(kind) => {
                let mut r = String::from_str("Illegal key type: ");
                r.append(kind);
                r
            },
            UbjError::CharNotAscii(c) => {
                let mut r = String::from_str("Char not within ASCII range: 0x");
                let digits = hex_text(*c as u64);
                r.append(digits.as_str());
                r
            },
            UbjError::UnexpectedMarker(b) => {
                let mut r = String::from_str("Unexpected marker: 0x");
                let digits = hex_text(*b as u64);
                r.append(digits.as_str());
                r
            },
            UbjError::UnexpectedEof => String::from_str("Unexpected end of file"),
            UbjError::Utf8Error(at) => {
                let mut r = String::from_str("UTF-8 error occurred: invalid utf-8 from index ");
                let digits = dec_text(*at as u64);
                r.append(digits.as_str());
                r
            },
            UbjError::BufferTooSmall(n) => {
                let mut r = String::from_str(
                    "Buffer too small. Consider increasing its capacity to at least ",
                );
                let digits = dec_text(*n as u64);
                r.append(digits.as_str());
                r
            },
            UbjError::EnumVariantIndexTooLarge(v) => {
                let mut r = String::from_str("Enum variant index is too large: ");
                let digits = dec_text(*v as u64);
                r.append(digits.as_str());
                r
            },
            UbjError::IO(e) => {
                let mut r = String::from_str("IO error occurred: ");
                let text = io_error_text(e);
                r.append(text.as_str());
                r
            },
            UbjError::Other(text) => text.clone(),
        }
    }
}

} // verus!
