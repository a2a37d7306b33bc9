use vstd::prelude::*;

use crate::error::UbjError;

verus! {

/// The one-byte tags that open every value on the wire.
#[derive(Clone, Copy, Debug, PartialEq, Eq, Structural)]
pub enum UbjMarker {
    Null,
    True,
    False,
    Int8,
    Uint8,
    Int16,
    Int32,
    Int64,
    Float32,
    Float64,
    Char,
    Str,
    StartArray,
    EndArray,
    StartObject,
    EndObject,
}

impl UbjMarker {
    /// The byte that stands for this marker on the wire.
    pub open spec fn spec_byte(self) -> u8 {
        match self {
            UbjMarker::Null => 0x5A,
            UbjMarker::True => 0x54,
            UbjMarker::False => 0x46,
            UbjMarker::Int8 => 0x69,
            UbjMarker::Uint8 => 0x55,
            UbjMarker::Int16 => 0x49,
            UbjMarker::Int32 => 0x6C,
            UbjMarker::Int64 => 0x4C,
            UbjMarker::Float32 => 0x64,
            UbjMarker::Float64 => 0x44,
            UbjMarker::Char => 0x43,
            UbjMarker::Str => 0x53,
            UbjMarker::StartArray => 0x5B,
            UbjMarker::EndArray => 0x5D,
            UbjMarker::StartObject => 0x7B,
            UbjMarker::EndObject => 0x7D,
        }
    }

    /// The marker that a byte stands for, if any.
    pub open spec fn spec_from_byte(b: u8) -> Option<UbjMarker> {
        if b == 0x5A {
            Some(UbjMarker::Null)
        } else if b == 0x54 {
            Some(UbjMarker::True)
        } else if b == 0x46 {
            Some(UbjMarker::False)
        } else if b == 0x69 {
            Some(UbjMarker::Int8)
        } else if b == 0x55 {
            Some(UbjMarker::Uint8)
        } else if b == 0x49 {
            Some(UbjMarker::Int16)
        } else if b == 0x6C {
            Some(UbjMarker::Int32)
        } else if b == 0x4C {
            Some(UbjMarker::Int64)
        } else if b == 0x64 {
            Some(UbjMarker::Float32)
        } else if b == 0x44 {
            Some(UbjMarker::Float64)
        } else if b == 0x43 {
            Some(UbjMarker::Char)
        } else if b == 0x53 {
            Some(UbjMarker::Str)
        } else if b == 0x5B {
            Some(UbjMarker::StartArray)
        } else if b == 0x5D {
            Some(UbjMarker::EndArray)
        } else if b == 0x7B {
            Some(UbjMarker::StartObject)
        } else if b == 0x7D {
            Some(UbjMarker::EndObject)
        } else {
            None
        }
    }

    pub fn byte(self) -> (r: u8)
        ensures
            r == self.spec_byte(),
    {
        match self {
            UbjMarker::Null => 0x5A,
            UbjMarker::True => 0x54,
            UbjMarker::False => 0x46,
            UbjMarker::Int8 => 0x69,
            UbjMarker::Uint8 => 0x55,
            UbjMarker::Int16 => 0x49,
            UbjMarker::Int32 => 0x6C,
            UbjMarker::Int64 => 0x4C,
            UbjMarker::Float32 => 0x64,
            UbjMarker::Float64 => 0x44,
            UbjMarker::Char => 0x43,
            UbjMarker::Str => 0x53,
            UbjMarker::StartArray => 0x5B,
            UbjMarker::EndArray => 0x5D,
            UbjMarker::StartObject => 0x7B,
            UbjMarker::EndObject => 0x7D,
        }
    }

    /// Reads a byte as a marker; a byte outside the table is an `UnexpectedMarker`.
    pub fn from_byte(b: u8) -> (r: Result<UbjMarker, UbjError>)
        ensures
            match UbjMarker::spec_from_byte(b) {
                Some(m) => r == Ok::<UbjMarker, UbjError>(m),
                None => r matches Err(UbjError::UnexpectedMarker(x)) && x == b,
            },
    {
        if b == 0x5A {
            Ok(UbjMarker::Null)
        } else if b == 0x54 {
            Ok(UbjMarker::True)
        } else if b == 0x46 {
            Ok(UbjMarker::False)
        } else if b == 0x69 {
            Ok(UbjMarker::Int8)
        } else if b == 0x55 {
            Ok(UbjMarker::Uint8)
        } else if b == 0x49 {
            Ok(UbjMarker::Int16)
        } else if b == 0x6C {
            Ok(UbjMarker::Int32)
        } else if b == 0x4C {
            Ok(UbjMarker::Int64)
        } else if b == 0x64 {
            Ok(UbjMarker::Float32)
        } else if b == 0x44 {
            Ok(UbjMarker::Float64)
        } else if b == 0x43 {
            Ok(UbjMarker::Char)
        } else if b == 0x53 {
            Ok(UbjMarker::Str)
        } else if b == 0x5B {
            Ok(UbjMarker::StartArray)
        } else if b == 0x5D {
            Ok(UbjMarker::EndArray)
        } else if b == 0x7B {
            Ok(UbjMarker::StartObject)
        } else if b == 0x7D {
            Ok(UbjMarker::EndObject)
        } else {
            Err(UbjError::UnexpectedMarker(b))
        }
    }
}

} // verus!
