//! The encoding descriptor tree, as read from a page's serialized metadata.
//!
//! A descriptor arrives once per column per data page. Each node tags its
//! kind and carries kind-specific fields, some of which are themselves
//! descriptors (children). The tree is produced by the writer and is
//! read-only at decode time; this layer only interprets it.

use vstd::prelude::*;

verus! {

/// The addressing scope of a buffer reference.
///
/// A page may refer to its own buffers, to buffers shared by its column, or
/// to buffers shared by the whole file; each scope has its own address table.
#[derive(Debug, Clone, Copy, PartialEq, Eq, Structural)]
pub enum BufferType {
    Page,
    Column,
    File,
}

/// A reference to a byte-range buffer: a scope and an index into the address
/// table of that scope. It carries no byte offset itself.
#[derive(Debug, Clone, Copy, PartialEq, Eq, Structural)]
pub struct Buffer {
    pub buffer_index: u64,
    pub buffer_type: BufferType,
}

/// A compression descriptor: a free-form scheme name and an optional level.
/// The name is resolved at construction time; an unknown name is fatal.
#[derive(Debug)]
pub struct Compression {
    pub scheme: String,
    pub level: Option<i32>,
}

/// A flat encoding: fixed-width values packed back to back in one buffer.
/// A bit width of exactly 1 is the sentinel for a packed boolean bitmap.
#[derive(Debug)]
pub struct Flat {
    pub buffer: Option<Buffer>,
    pub bits_per_value: u64,
    pub compression: Option<Compression>,
}

/// A bit-packed encoding: values narrower than their storage width, packed
/// at `compressed_bits_per_value` bits each, optionally sign-extended on
/// decode when `signed` is set.
#[derive(Debug)]
pub struct Bitpacked {
    pub buffer: Option<Buffer>,
    pub compressed_bits_per_value: u64,
    pub uncompressed_bits_per_value: u64,
    pub signed: bool,
}

/// The bit-packed encoding restricted to non-negative values; it omits the
/// sign flag and always zero-extends.
#[derive(Debug)]
pub struct BitpackedForNonNeg {
    pub buffer: Option<Buffer>,
    pub compressed_bits_per_value: u64,
    pub uncompressed_bits_per_value: u64,
}

/// The nullability variant carried by a nullable wrapper node.
#[derive(Debug)]
#[allow(inconsistent_fields)]
pub enum Nullability {
    /// Every row is defined; the wrapper delegates entirely to the values.
    NoNulls { values: Box<ArrayEncoding> },
    /// A validity strategy says which rows are defined by the values.
    SomeNulls { validity: Box<ArrayEncoding>, values: Box<ArrayEncoding> },
    /// Every row is null; there is no inner strategy.
    AllNulls,
}

/// A packed-struct encoding: one inner encoding per struct field, all fields
/// interleaved row by row in one shared buffer.
#[derive(Debug)]
pub struct PackedStruct {
    pub inner: Vec<ArrayEncoding>,
    pub buffer: Option<Buffer>,
}

/// One node of the encoding descriptor tree.
///
/// A node's children are defined by its kind; the tree is finite and rooted.
#[derive(Debug)]
#[allow(inconsistent_fields)]
pub enum ArrayEncoding {
    Flat(Flat),
    Bitpacked(Bitpacked),
    BitpackedForNonNeg(BitpackedForNonNeg),
    /// A nullable wrapper; the wrapper itself holds no buffer reference.
    Nullable(Nullability),
    /// Each logical row occupies `dimension` consecutive item rows.
    FixedSizeList { items: Box<ArrayEncoding>, dimension: u32 },
    /// A transparent wrapper that only carries the list-offsets encoding;
    /// the row's list-ness is already known from the logical type.
    List { offsets: Box<ArrayEncoding> },
    /// An offsets encoding (`indices`) beside raw byte data (`bytes`).
    /// `null_adjustment` reconciles offset encoding with null semantics:
    /// nulls do not consume distinct offset slots in the adjusted scheme.
    Binary { indices: Box<ArrayEncoding>, bytes: Box<ArrayEncoding>, null_adjustment: u64 },
    /// A binary-like inner encoding whose decoded values are expanded
    /// through an inline symbol table to reverse substring substitution.
    Fsst { binary: Box<ArrayEncoding>, symbol_table: Vec<u8> },
    /// An indices encoding beside an items encoding;
    /// `num_dictionary_items` bounds the items strategy's row count.
    Dictionary { indices: Box<ArrayEncoding>, items: Box<ArrayEncoding>, num_dictionary_items: u32 },
    /// Byte data of a fixed element width.
    FixedSizeBinary { bytes: Box<ArrayEncoding>, byte_width: u32 },
    PackedStruct(PackedStruct),
    /// Struct nullability is represented by a header column with no payload,
    /// so this node is never materialized into a strategy; reaching it during
    /// interpretation is a defect, not a recoverable condition.
    Struct,
}

} // verus!
