//! The two error classes of the decode layer.
//!
//! Construction errors are fatal: they mean the descriptor tree, the buffer
//! address tables or the logical type are malformed or unsupported, and the
//! page's decode must be aborted before any I/O is planned. Execution errors
//! arise later, when fetched bytes are turned into values, and are reported
//! to the caller, which may retry the fetch.

use vstd::prelude::*;

verus! {

/// A fatal error raised while a page scheduler is being constructed.
///
/// Every variant indicates a corrupt file or a forward-incompatible format
/// version; none of them is retried.
#[derive(Debug, Clone, Copy, PartialEq, Eq, Structural)]
pub enum ConstructionError {
    /// A node that needs a buffer reference carries none.
    MissingBuffer,
    /// A buffer reference's index lies outside its address table.
    BufferIndexOutOfBounds { buffer_index: u64, table_len: usize },
    /// A flat encoding declares a bit width that is neither 1 nor a
    /// positive multiple of 8.
    UnsupportedBitWidth { bits_per_value: u64 },
    /// A compression descriptor names a scheme this layer does not know.
    UnknownCompressionScheme,
    /// A bit-packed encoding declares widths the unpacker cannot honour.
    UnsupportedBitpackWidth { compressed_bits_per_value: u64, uncompressed_bits_per_value: u64 },
    /// A bare struct node was reached; struct nullability is carried by a
    /// header column with no payload, so this node is never materialized.
    UnexpectedStructNode,
    /// A packed-struct node was applied to a logical type that is not a
    /// struct type.
    NotAStructType,
    /// A packed-struct node's child count differs from the struct type's
    /// field count.
    FieldCountMismatch { num_fields: usize, num_encodings: usize },
    /// A packed-struct field's logical type has no fixed byte width.
    UnsupportedPackedFieldType,
    /// A fixed-size-binary node was applied to a logical type that is not a
    /// binary or utf8 type.
    UnsupportedFixedSizeBinaryType,
}

/// An error raised while scheduling byte ranges or decoding fetched bytes.
///
/// These are distinguished from [`ConstructionError`] because they may be
/// transient (a fetch handed back the wrong bytes) or reflect corrupt data
/// rather than a malformed descriptor.
#[derive(Debug, Clone, Copy, PartialEq, Eq, Structural)]
pub enum ExecutionError {
    /// A byte range the decoder needs was not among the fetched ranges.
    MissingData { offset: u64, length: u64 },
    /// An arithmetic bound of the format was exceeded while planning ranges.
    RangeOverflow,
    /// A row range reaches past the rows the page holds.
    RowRangeOutOfBounds,
    /// A child strategy handed back values of a shape its parent cannot use.
    UnexpectedArrayLayout,
    /// An offset read from an index buffer points outside the data bytes.
    CorruptOffsets,
    /// A dictionary index points past the end of the dictionary items.
    DictionaryIndexOutOfBounds,
    /// A binary encoding carries a null adjustment of zero.
    ZeroNullAdjustment,
    /// A compressed symbol or symbol table could not be interpreted.
    CorruptSymbolTable,
    /// The codec for this scheme is supplied by the surrounding runtime and
    /// is not embedded in this layer.
    NoEmbeddedCodec,
}

} // verus!
