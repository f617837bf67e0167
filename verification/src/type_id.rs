//! The type-tag registry: six one-byte sigils identifying value kinds,
//! with a bidirectional byte-to-kind mapping.

use vstd::prelude::*;

use crate::error::DecodeError;

verus! {

/// Tag byte for a nil value (`'-'`).
pub const TAG_NIL: u8 = 0x2D;

/// Tag byte for a false boolean (`'0'`).
pub const TAG_FALSE: u8 = 0x30;

/// Tag byte for a true boolean (`'1'`).
pub const TAG_TRUE: u8 = 0x31;

/// Tag byte for a number (`'N'`).
pub const TAG_NUMBER: u8 = 0x4E;

/// Tag byte for a string (`'S'`).
pub const TAG_STRING: u8 = 0x53;

/// Tag byte for a table (`'T'`).
pub const TAG_TABLE: u8 = 0x54;

/// The kind of a value on the wire, one per tag byte.
#[derive(Debug, Clone, Copy, PartialEq, Eq, Structural)]
pub enum TypeIdentifier {
    NIL,
    FALSE,
    TRUE,
    NUMBER,
    STRING,
    TABLE,
}

/// The tag byte that stands for a kind; total and injective.
pub open spec fn spec_tag_byte(t: TypeIdentifier) -> u8 {
    match t {
        TypeIdentifier::NIL => TAG_NIL,
        TypeIdentifier::FALSE => TAG_FALSE,
        TypeIdentifier::TRUE => TAG_TRUE,
        TypeIdentifier::NUMBER => TAG_NUMBER,
        TypeIdentifier::STRING => TAG_STRING,
        TypeIdentifier::TABLE => TAG_TABLE,
    }
}

/// Whether a byte is one of the six tags.
pub open spec fn spec_is_tag(value: u8) -> bool {
    value == TAG_NIL || value == TAG_FALSE || value == TAG_TRUE || value == TAG_NUMBER
        || value == TAG_STRING || value == TAG_TABLE
}

impl TypeIdentifier {
    /// The tag byte this kind is written as.
    pub fn tag_byte(self) -> (r: u8)
        ensures
            r == spec_tag_byte(self),
    {
        match self {
            TypeIdentifier::NIL => TAG_NIL,
            TypeIdentifier::FALSE => TAG_FALSE,
            TypeIdentifier::TRUE => TAG_TRUE,
            TypeIdentifier::NUMBER => TAG_NUMBER,
            TypeIdentifier::STRING => TAG_STRING,
            TypeIdentifier::TABLE => TAG_TABLE,
        }
    }

    /// Decodes a tag byte; fails with `UnknownTypeTag` exactly when the
    /// byte matches none of the six tag constants.
    pub fn try_from(value: u8) -> (r: Result<TypeIdentifier, DecodeError>)
        ensures
            spec_is_tag(value) <==> r is Ok,
            r matches Ok(t) ==> spec_tag_byte(t) == value,
            !spec_is_tag(value) ==> r == Err::<TypeIdentifier, DecodeError>(
                DecodeError::UnknownTypeTag,
            ),
    {
        if value == TAG_NIL {
            Ok(TypeIdentifier::NIL)
        } else if value == TAG_FALSE {
            Ok(TypeIdentifier::FALSE)
        } else if value == TAG_TRUE {
            Ok(TypeIdentifier::TRUE)
        } else if value == TAG_NUMBER {
            Ok(TypeIdentifier::NUMBER)
        } else if value == TAG_STRING {
            Ok(TypeIdentifier::STRING)
        } else if value == TAG_TABLE {
            Ok(TypeIdentifier::TABLE)
        } else {
            Err(DecodeError::UnknownTypeTag)
        }
    }
}

} // verus!
