//! The target logical type of a column.
//!
//! The logical type flows strictly top-down through the interpreter: a child
//! node is given the type appropriate to what it represents (a dictionary
//! node passes its value type to the items child, a packed struct passes each
//! field's type to the matching child, every other node passes the type
//! through unchanged).

use vstd::prelude::*;

verus! {

/// A named field of a struct type.
#[derive(Debug)]
pub struct Field {
    pub name: String,
    pub data_type: LogicalType,
}

/// The semantic type a column is declared as, independent of how it is
/// physically stored. Only the shape the interpreter reads is modelled:
/// integer widths, boolean, binary against large-binary, dictionary value
/// types, struct field lists and fixed-size-list dimensions.
#[derive(Debug)]
pub enum LogicalType {
    Boolean,
    Int8,
    Int16,
    Int32,
    Int64,
    UInt8,
    UInt16,
    UInt32,
    UInt64,
    Binary,
    LargeBinary,
    Utf8,
    LargeUtf8,
    /// Key type and value type of a dictionary-encoded column.
    Dictionary(Box<LogicalType>, Box<LogicalType>),
    Struct(Vec<Field>),
    FixedSizeList(Box<LogicalType>, u32),
    List(Box<LogicalType>),
}

impl LogicalType {
    /// Whether the type is itself a dictionary type.
    pub open spec fn spec_is_dictionary(&self) -> bool {
        self is Dictionary
    }

    /// Whether the type is itself a dictionary type.
    #[verifier::when_used_as_spec(spec_is_dictionary)]
    pub fn is_dictionary(&self) -> (r: bool)
        ensures
            r == self.spec_is_dictionary(),
    {
        match self {
            LogicalType::Dictionary(_, _) => true,
            _ => false,
        }
    }

    /// Whether binary offsets for this type are 8 bytes wide rather than 4.
    pub open spec fn spec_is_large_binary_like(&self) -> bool {
        self is LargeBinary || self is LargeUtf8
    }

    /// Whether binary offsets for this type are 8 bytes wide rather than 4.
    #[verifier::when_used_as_spec(spec_is_large_binary_like)]
    pub fn is_large_binary_like(&self) -> (r: bool)
        ensures
            r == self.spec_is_large_binary_like(),
    {
        match self {
            LogicalType::LargeBinary => true,
            LogicalType::LargeUtf8 => true,
            _ => false,
        }
    }

    /// Whether the type is a regular (4-byte offset) binary or utf8 type.
    pub open spec fn spec_is_small_binary_like(&self) -> bool {
        self is Binary || self is Utf8
    }

    /// Whether the type is a regular (4-byte offset) binary or utf8 type.
    #[verifier::when_used_as_spec(spec_is_small_binary_like)]
    pub fn is_small_binary_like(&self) -> (r: bool)
        ensures
            r == self.spec_is_small_binary_like(),
    {
        match self {
            LogicalType::Binary => true,
            LogicalType::Utf8 => true,
            _ => false,
        }
    }

    /// The fixed byte width of a value of this type, for the types a packed
    /// struct may hold; `None` for variable-width and nested types.
    pub open spec fn spec_fixed_byte_width(&self) -> Option<u64> {
        match self {
            LogicalType::Int8 => Some(1u64),
            LogicalType::UInt8 => Some(1u64),
            LogicalType::Int16 => Some(2u64),
            LogicalType::UInt16 => Some(2u64),
            LogicalType::Int32 => Some(4u64),
            LogicalType::UInt32 => Some(4u64),
            LogicalType::Int64 => Some(8u64),
            LogicalType::UInt64 => Some(8u64),
            _ => None,
        }
    }

    /// The fixed byte width of a value of this type, for the types a packed
    /// struct may hold; `None` for variable-width and nested types.
    #[verifier::when_used_as_spec(spec_fixed_byte_width)]
    pub fn fixed_byte_width(&self) -> (r: Option<u64>)
        ensures
            r == self.spec_fixed_byte_width(),
    {
        match self {
            LogicalType::Int8 => Some(1u64),
            LogicalType::UInt8 => Some(1u64),
            LogicalType::Int16 => Some(2u64),
            LogicalType::UInt16 => Some(2u64),
            LogicalType::Int32 => Some(4u64),
            LogicalType::UInt32 => Some(4u64),
            LogicalType::Int64 => Some(8u64),
            LogicalType::UInt64 => Some(8u64),
            _ => None,
        }
    }

}

} // verus!
