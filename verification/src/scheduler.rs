//! The physical strategy family: one page scheduler per encoding kind.
//!
//! A page scheduler is a composed, immutable object graph; constructing one
//! performs no I/O. Every strategy answers the same two questions: which
//! byte ranges does a row range need (`schedule`), and what values do fetched
//! bytes hold for that range (`decode`). Composite strategies own their
//! children exclusively; nothing is mutated after construction.

use vstd::prelude::*;

use crate::compression::CompressionConfig;
use crate::datatype::LogicalType;

verus! {

/// Fixed-width values read from one resolved buffer, optionally passed
/// through the codec before being reinterpreted as typed values.
#[derive(Debug)]
pub struct ValuePageScheduler {
    pub bytes_per_value: u64,
    pub buffer_offset: u64,
    pub buffer_size: u64,
    pub compression_config: CompressionConfig,
}

impl ValuePageScheduler {
    pub fn new(
        bytes_per_value: u64,
        buffer_offset: u64,
        buffer_size: u64,
        compression_config: CompressionConfig,
    ) -> (r: ValuePageScheduler)
        ensures
            r == (ValuePageScheduler { bytes_per_value, buffer_offset, buffer_size, compression_config }),
    {
        ValuePageScheduler { bytes_per_value, buffer_offset, buffer_size, compression_config }
    }
}

/// One resolved buffer interpreted as a packed boolean bitmap; no codec is
/// applied, booleans are not separately compressed.
#[derive(Debug)]
pub struct DenseBitmapScheduler {
    pub buffer_offset: u64,
}

impl DenseBitmapScheduler {
    pub fn new(buffer_offset: u64) -> (r: DenseBitmapScheduler)
        ensures
            r == (DenseBitmapScheduler { buffer_offset }),
    {
        DenseBitmapScheduler { buffer_offset }
    }
}

/// Values narrower than their storage width, packed at
/// `compressed_bits_per_value` bits each; decode unpacks to
/// `uncompressed_bits_per_value`, sign-extending when `signed` is set.
#[derive(Debug)]
pub struct BitpackedScheduler {
    pub compressed_bits_per_value: u64,
    pub uncompressed_bits_per_value: u64,
    pub buffer_offset: u64,
    pub signed: bool,
}

impl BitpackedScheduler {
    pub fn new(
        compressed_bits_per_value: u64,
        uncompressed_bits_per_value: u64,
        buffer_offset: u64,
        signed: bool,
    ) -> (r: BitpackedScheduler)
        ensures
            r == (BitpackedScheduler {
                compressed_bits_per_value,
                uncompressed_bits_per_value,
                buffer_offset,
                signed,
            }),
    {
        BitpackedScheduler { compressed_bits_per_value, uncompressed_bits_per_value, buffer_offset, signed }
    }
}

/// The bit-packed strategy restricted to non-negative values; it always
/// zero-extends.
#[derive(Debug)]
pub struct BitpackedForNonNegScheduler {
    pub compressed_bits_per_value: u64,
    pub uncompressed_bits_per_value: u64,
    pub buffer_offset: u64,
}

impl BitpackedForNonNegScheduler {
    pub fn new(
        compressed_bits_per_value: u64,
        uncompressed_bits_per_value: u64,
        buffer_offset: u64,
    ) -> (r: BitpackedForNonNegScheduler)
        ensures
            r == (BitpackedForNonNegScheduler {
                compressed_bits_per_value,
                uncompressed_bits_per_value,
                buffer_offset,
            }),
    {
        BitpackedForNonNegScheduler { compressed_bits_per_value, uncompressed_bits_per_value, buffer_offset }
    }
}

/// The nullable wrapper. It holds no buffer reference of its own.
#[derive(Debug)]
#[allow(inconsistent_fields)]
pub enum BasicPageScheduler {
    /// Delegates entirely to the inner values strategy.
    NoNulls { values: Box<PageScheduler> },
    /// A validity strategy beside a values strategy; a row's value is
    /// defined only where the validity bit is set.
    SomeNulls { validity: Box<PageScheduler>, values: Box<PageScheduler> },
    /// No inner strategy; every row decodes to null.
    AllNulls,
}

impl BasicPageScheduler {
    /// Wrap a values strategy whose every row is defined.
    pub fn new_non_nullable(values: PageScheduler) -> (r: BasicPageScheduler)
        ensures
            r == (BasicPageScheduler::NoNulls { values: Box::new(values) }),
    {
        BasicPageScheduler::NoNulls { values: Box::new(values) }
    }

    /// Compose a validity strategy and a values strategy.
    pub fn new_nullable(validity: PageScheduler, values: PageScheduler) -> (r: BasicPageScheduler)
        ensures
            r == (BasicPageScheduler::SomeNulls {
                validity: Box::new(validity),
                values: Box::new(values),
            }),
    {
        BasicPageScheduler::SomeNulls { validity: Box::new(validity), values: Box::new(values) }
    }

    /// A page whose every row is null.
    pub fn new_all_null() -> (r: BasicPageScheduler)
        ensures
            r == BasicPageScheduler::AllNulls,
    {
        BasicPageScheduler::AllNulls
    }
}

/// Each logical row occupies `dimension` consecutive item rows; requested
/// row ranges are multiplied by `dimension` before delegating.
#[derive(Debug)]
pub struct FixedListScheduler {
    pub items: Box<PageScheduler>,
    pub dimension: u32,
}

impl FixedListScheduler {
    pub fn new(items: PageScheduler, dimension: u32) -> (r: FixedListScheduler)
        ensures
            r == (FixedListScheduler { items: Box::new(items), dimension }),
    {
        FixedListScheduler { items: Box::new(items), dimension }
    }
}

/// An offsets strategy (`indices`) beside a raw byte strategy (`bytes`).
/// `offset_type` records whether consumers see 4-byte or 8-byte offsets;
/// `null_adjustment` reconciles offset encoding with null semantics: a
/// stored offset at or above it marks the row null, and every stored offset
/// is reduced modulo it.
#[derive(Debug)]
pub struct BinaryPageScheduler {
    pub indices: Box<PageScheduler>,
    pub bytes: Box<PageScheduler>,
    pub offset_type: LogicalType,
    pub null_adjustment: u64,
}

impl BinaryPageScheduler {
    pub fn new(
        indices: PageScheduler,
        bytes: PageScheduler,
        offset_type: LogicalType,
        null_adjustment: u64,
    ) -> (r: BinaryPageScheduler)
        ensures
            r == (BinaryPageScheduler {
                indices: Box::new(indices),
                bytes: Box::new(bytes),
                offset_type,
                null_adjustment,
            }),
    {
        BinaryPageScheduler {
            indices: Box::new(indices),
            bytes: Box::new(bytes),
            offset_type,
            null_adjustment,
        }
    }
}

/// A binary-like inner strategy beside an inline symbol table; decoded
/// values are expanded through the table to reverse substring substitution.
#[derive(Debug)]
pub struct FsstPageScheduler {
    pub inner: Box<PageScheduler>,
    pub symbol_table: Vec<u8>,
}

impl FsstPageScheduler {
    pub fn new(inner: PageScheduler, symbol_table: Vec<u8>) -> (r: FsstPageScheduler)
        ensures
            r.inner == Box::new(inner),
            r.symbol_table@ == symbol_table@,
    {
        FsstPageScheduler { inner: Box::new(inner), symbol_table }
    }
}

/// An indices strategy beside an items strategy. `num_dictionary_items`
/// bounds the items strategy's row count; `should_decode_dict` says whether
/// decode materializes values through the dictionary or hands back the raw
/// index/items pair.
#[derive(Debug)]
pub struct DictionaryPageScheduler {
    pub indices: Box<PageScheduler>,
    pub items: Box<PageScheduler>,
    pub num_dictionary_items: u32,
    pub should_decode_dict: bool,
}

impl DictionaryPageScheduler {
    pub fn new(
        indices: PageScheduler,
        items: PageScheduler,
        num_dictionary_items: u32,
        should_decode_dict: bool,
    ) -> (r: DictionaryPageScheduler)
        ensures
            r == (DictionaryPageScheduler {
                indices: Box::new(indices),
                items: Box::new(items),
                num_dictionary_items,
                should_decode_dict,
            }),
    {
        DictionaryPageScheduler {
            indices: Box::new(indices),
            items: Box::new(items),
            num_dictionary_items,
            should_decode_dict,
        }
    }
}

/// A bytes strategy whose rows all have the same width; `bytes_per_offset`
/// records the offset width (4 or 8) consumers will use downstream.
#[derive(Debug)]
pub struct FixedSizeBinaryPageScheduler {
    pub bytes: Box<PageScheduler>,
    pub byte_width: u32,
    pub bytes_per_offset: u32,
}

impl FixedSizeBinaryPageScheduler {
    pub fn new(bytes: PageScheduler, byte_width: u32, bytes_per_offset: u32) -> (r:
        FixedSizeBinaryPageScheduler)
        ensures
            r == (FixedSizeBinaryPageScheduler { bytes: Box::new(bytes), byte_width, bytes_per_offset }),
    {
        FixedSizeBinaryPageScheduler { bytes: Box::new(bytes), byte_width, bytes_per_offset }
    }
}

/// One strategy per struct field, in schema order, all fields sharing one
/// interleaved buffer. `field_widths` is the fixed byte width of each field,
/// derived from the struct's logical type at construction.
#[derive(Debug)]
pub struct PackedStructPageScheduler {
    pub inner: Vec<PageScheduler>,
    pub field_widths: Vec<u64>,
    pub buffer_offset: u64,
}

impl PackedStructPageScheduler {
    pub fn new(inner: Vec<PageScheduler>, field_widths: Vec<u64>, buffer_offset: u64) -> (r:
        PackedStructPageScheduler)
        ensures
            r.inner@ == inner@,
            r.field_widths@ == field_widths@,
            r.buffer_offset == buffer_offset,
    {
        PackedStructPageScheduler { inner, field_widths, buffer_offset }
    }
}

/// The page scheduler contract: the closed family of physical strategies.
///
/// Every strategy answers `schedule` and `decode`; composing them behind one
/// type lets parents own children without knowing their concrete shapes.
#[derive(Debug)]
pub enum PageScheduler {
    Value(ValuePageScheduler),
    DenseBitmap(DenseBitmapScheduler),
    Bitpacked(BitpackedScheduler),
    BitpackedForNonNeg(BitpackedForNonNegScheduler),
    Basic(BasicPageScheduler),
    FixedList(FixedListScheduler),
    Binary(BinaryPageScheduler),
    Fsst(FsstPageScheduler),
    Dictionary(DictionaryPageScheduler),
    FixedSizeBinary(FixedSizeBinaryPageScheduler),
    PackedStruct(PackedStructPageScheduler),
}

} // verus!
