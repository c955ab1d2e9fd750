//! The encoding-tree interpreter.
//!
//! One recursive dispatch keyed on descriptor kind. For every node it
//! resolves any direct buffer reference (fatal on an out-of-range index),
//! resolves any compression config (fatal on an unknown scheme), recurses
//! into child descriptors threading the logical type downward, and composes
//! the matching strategy. Unknown or structurally invalid node and type
//! combinations fail fast: they are defects in the writer or a
//! forward-incompatible format version, never a condition to default around.

use vstd::prelude::*;

use crate::buffers::{get_buffer, spec_get_buffer, PageBuffers};
use crate::compression::{
    parse_compression_scheme, spec_scheme_of, CompressionConfig, CompressionScheme,
};
use crate::datatype::{Field, LogicalType};
use crate::errors::ConstructionError;
use crate::format::{ArrayEncoding, Bitpacked, BitpackedForNonNeg, Flat, Nullability, PackedStruct};
use crate::scheduler::{
    BasicPageScheduler, BinaryPageScheduler, BitpackedForNonNegScheduler, BitpackedScheduler,
    DenseBitmapScheduler, DictionaryPageScheduler, FixedListScheduler,
    FixedSizeBinaryPageScheduler, FsstPageScheduler, PackedStructPageScheduler, PageScheduler,
    ValuePageScheduler,
};

verus! {

/// The configuration a compression descriptor resolves to, assuming its
/// scheme name is known (an unknown name is rejected before this is used).
pub open spec fn spec_compression_config(compression: Option<crate::format::Compression>)
    -> CompressionConfig {
    match compression {
        None => CompressionConfig { scheme: CompressionScheme::NoCompression, level: None },
        Some(c) => CompressionConfig {
            scheme: match spec_scheme_of(c.scheme@) {
                Some(s) => s,
                // never reached where the scheme name was accepted
                None => CompressionScheme::NoCompression,
            },
            level: c.level,
        },
    }
}

/// What interpreting a flat node yields: a dense bitmap strategy for bit
/// width 1, a value strategy for positive multiples of 8, and a fatal error
/// for a missing buffer, an out-of-range index, an unknown compression
/// scheme, or any other bit width, in that order.
pub open spec fn spec_flat_decoder(flat: Flat, buffers: &PageBuffers) -> Result<
    PageScheduler,
    ConstructionError,
> {
    match flat.buffer {
        None => Err(ConstructionError::MissingBuffer),
        Some(b) => match spec_get_buffer(b, buffers) {
            Err(e) => Err(e),
            Ok((buffer_offset, buffer_size)) => {
                let scheme_known = match flat.compression {
                    None => true,
                    Some(c) => spec_scheme_of(c.scheme@) is Some,
                };
                if !scheme_known {
                    Err(ConstructionError::UnknownCompressionScheme)
                } else if flat.bits_per_value == 1 {
                    Ok(PageScheduler::DenseBitmap(DenseBitmapScheduler { buffer_offset }))
                } else if flat.bits_per_value == 0 || flat.bits_per_value % 8 != 0 {
                    Err(ConstructionError::UnsupportedBitWidth { bits_per_value: flat.bits_per_value })
                } else {
                    Ok(
                        PageScheduler::Value(
                            ValuePageScheduler {
                                bytes_per_value: flat.bits_per_value / 8,
                                buffer_offset,
                                buffer_size,
                                compression_config: spec_compression_config(flat.compression),
                            },
                        ),
                    )
                }
            },
        },
    }
}

/// Whether a bit-packed node declares widths the unpacker honours: a storage
/// width of 8, 16, 32 or 64 bits and a packed width between 1 and the
/// storage width.
pub open spec fn spec_bitpack_widths_ok(compressed: u64, uncompressed: u64) -> bool {
    &&& (uncompressed == 8 || uncompressed == 16 || uncompressed == 32 || uncompressed == 64)
    &&& 1 <= compressed <= uncompressed
}

/// What interpreting a bit-packed node yields.
pub open spec fn spec_bitpacked_decoder(encoding: Bitpacked, buffers: &PageBuffers) -> Result<
    PageScheduler,
    ConstructionError,
> {
    match encoding.buffer {
        None => Err(ConstructionError::MissingBuffer),
        Some(b) => match spec_get_buffer(b, buffers) {
            Err(e) => Err(e),
            Ok((buffer_offset, _buffer_size)) => {
                if !spec_bitpack_widths_ok(
                    encoding.compressed_bits_per_value,
                    encoding.uncompressed_bits_per_value,
                ) {
                    Err(
                        ConstructionError::UnsupportedBitpackWidth {
                            compressed_bits_per_value: encoding.compressed_bits_per_value,
                            uncompressed_bits_per_value: encoding.uncompressed_bits_per_value,
                        },
                    )
                } else {
                    Ok(
                        PageScheduler::Bitpacked(
                            BitpackedScheduler {
                                compressed_bits_per_value: encoding.compressed_bits_per_value,
                                uncompressed_bits_per_value: encoding.uncompressed_bits_per_value,
                                buffer_offset,
                                signed: encoding.signed,
                            },
                        ),
                    )
                }
            },
        },
    }
}

/// What interpreting a non-negative bit-packed node yields.
pub open spec fn spec_bitpacked_for_non_neg_decoder(
    encoding: BitpackedForNonNeg,
    buffers: &PageBuffers,
) -> Result<PageScheduler, ConstructionError> {
    match encoding.buffer {
        None => Err(ConstructionError::MissingBuffer),
        Some(b) => match spec_get_buffer(b, buffers) {
            Err(e) => Err(e),
            Ok((buffer_offset, _buffer_size)) => {
                if !spec_bitpack_widths_ok(
                    encoding.compressed_bits_per_value,
                    encoding.uncompressed_bits_per_value,
                ) {
                    Err(
                        ConstructionError::UnsupportedBitpackWidth {
                            compressed_bits_per_value: encoding.compressed_bits_per_value,
                            uncompressed_bits_per_value: encoding.uncompressed_bits_per_value,
                        },
                    )
                } else {
                    Ok(
                        PageScheduler::BitpackedForNonNeg(
                            BitpackedForNonNegScheduler {
                                compressed_bits_per_value: encoding.compressed_bits_per_value,
                                uncompressed_bits_per_value: encoding.uncompressed_bits_per_value,
                                buffer_offset,
                            },
                        ),
                    )
                }
            },
        },
    }
}

/// The fatal error interpreting a node yields, or `None` where construction
/// succeeds. Children are visited in the order the interpreter visits them,
/// so the first failure in that order is the one reported.
pub open spec fn build_err(
    encoding: ArrayEncoding,
    buffers: &PageBuffers,
    data_type: &LogicalType,
) -> Option<ConstructionError>
    decreases encoding,
{
    match encoding {
        ArrayEncoding::Flat(flat) => match spec_flat_decoder(flat, buffers) {
            Ok(_) => None,
            Err(e) => Some(e),
        },
        ArrayEncoding::Bitpacked(bp) => match spec_bitpacked_decoder(bp, buffers) {
            Ok(_) => None,
            Err(e) => Some(e),
        },
        ArrayEncoding::BitpackedForNonNeg(bp) => match spec_bitpacked_for_non_neg_decoder(
            bp,
            buffers,
        ) {
            Ok(_) => None,
            Err(e) => Some(e),
        },
        ArrayEncoding::Nullable(n) => match n {
            Nullability::NoNulls { values } => build_err(*values, buffers, data_type),
            Nullability::SomeNulls { validity, values } => match build_err(
                *validity,
                buffers,
                data_type,
            ) {
                Some(e) => Some(e),
                None => build_err(*values, buffers, data_type),
            },
            Nullability::AllNulls => None,
        },
        ArrayEncoding::FixedSizeList { items, dimension: _ } => build_err(
            *items,
            buffers,
            data_type,
        ),
        ArrayEncoding::List { offsets } => build_err(*offsets, buffers, data_type),
        ArrayEncoding::Binary { indices, bytes, null_adjustment: _ } => match build_err(
            *indices,
            buffers,
            data_type,
        ) {
            Some(e) => Some(e),
            None => build_err(*bytes, buffers, data_type),
        },
        ArrayEncoding::Fsst { binary, symbol_table: _ } => build_err(*binary, buffers, data_type),
        ArrayEncoding::Dictionary { indices, items, num_dictionary_items: _ } => match build_err(
            *indices,
            buffers,
            data_type,
        ) {
            Some(e) => Some(e),
            None => match data_type {
                LogicalType::Dictionary(_, value_type) => build_err(*items, buffers, value_type),
                _ => build_err(*items, buffers, data_type),
            },
        },
        ArrayEncoding::FixedSizeBinary { bytes, byte_width: _ } => match build_err(
            *bytes,
            buffers,
            data_type,
        ) {
            Some(e) => Some(e),
            None => {
                if data_type.spec_is_large_binary_like() || data_type.spec_is_small_binary_like() {
                    None
                } else {
                    Some(ConstructionError::UnsupportedFixedSizeBinaryType)
                }
            },
        },
        ArrayEncoding::PackedStruct(ps) => packed_build_err(ps, buffers, data_type),
        ArrayEncoding::Struct => Some(ConstructionError::UnexpectedStructNode),
    }
}

/// The fatal error interpreting a packed-struct node yields: a non-struct
/// logical type, a field count mismatch, the first failing child, a missing
/// or out-of-range buffer, or a field without a fixed byte width, in that
/// order.
pub open spec fn packed_build_err(
    ps: PackedStruct,
    buffers: &PageBuffers,
    data_type: &LogicalType,
) -> Option<ConstructionError>
    decreases ps,
{
    match data_type {
        LogicalType::Struct(fields) => {
            if ps.inner@.len() != fields@.len() {
                Some(
                    ConstructionError::FieldCountMismatch {
                        num_fields: fields@.len() as usize,
                        num_encodings: ps.inner@.len() as usize,
                    },
                )
            } else {
                match children_build_err(ps.inner@, buffers, fields@) {
                    Some(e) => Some(e),
                    None => match ps.buffer {
                        None => Some(ConstructionError::MissingBuffer),
                        Some(b) => match spec_get_buffer(b, buffers) {
                            Err(e) => Some(e),
                            Ok(_) => {
                                if exists|j: int|
                                    0 <= j < fields@.len()
                                        && (#[trigger] fields@[j].data_type.spec_fixed_byte_width())
                                        is None {
                                    Some(ConstructionError::UnsupportedPackedFieldType)
                                } else {
                                    None
                                }
                            },
                        },
                    },
                }
            }
        },
        _ => Some(ConstructionError::NotAStructType),
    }
}

/// The first fatal error among a packed struct's children, each interpreted
/// under its field's logical type, in schema order.
pub open spec fn children_build_err(
    encodings: Seq<ArrayEncoding>,
    buffers: &PageBuffers,
    fields: Seq<Field>,
) -> Option<ConstructionError>
    decreases encodings,
{
    if encodings.len() == 0 {
        None
    } else {
        match build_err(encodings[0], buffers, &fields[0].data_type) {
            Some(e) => Some(e),
            None => children_build_err(encodings.drop_first(), buffers, fields.drop_first()),
        }
    }
}

/// Whether `s` is the strategy that interpreting `encoding` under
/// `data_type` composes. Only queried where `build_err` is `None`.
pub open spec fn scheduler_matches(
    s: PageScheduler,
    encoding: ArrayEncoding,
    buffers: &PageBuffers,
    data_type: &LogicalType,
) -> bool
    decreases encoding,
{
    match encoding {
        ArrayEncoding::Flat(flat) => spec_flat_decoder(flat, buffers) == Ok::<
            PageScheduler,
            ConstructionError,
        >(s),
        ArrayEncoding::Bitpacked(bp) => spec_bitpacked_decoder(bp, buffers) == Ok::<
            PageScheduler,
            ConstructionError,
        >(s),
        ArrayEncoding::BitpackedForNonNeg(bp) => spec_bitpacked_for_non_neg_decoder(bp, buffers)
            == Ok::<PageScheduler, ConstructionError>(s),
        ArrayEncoding::Nullable(n) => match n {
            Nullability::NoNulls { values } => s matches PageScheduler::Basic(
                BasicPageScheduler::NoNulls { values: v },
            ) && scheduler_matches(*v, *values, buffers, data_type),
            Nullability::SomeNulls { validity, values } => s matches PageScheduler::Basic(
                BasicPageScheduler::SomeNulls { validity: va, values: ve },
            ) && scheduler_matches(*va, *validity, buffers, data_type) && scheduler_matches(
                *ve,
                *values,
                buffers,
                data_type,
            ),
            Nullability::AllNulls => s == PageScheduler::Basic(BasicPageScheduler::AllNulls),
        },
        ArrayEncoding::FixedSizeList { items, dimension } => s matches PageScheduler::FixedList(
            f,
        ) && scheduler_matches(*f.items, *items, buffers, data_type) && f.dimension == dimension,
        ArrayEncoding::List { offsets } => scheduler_matches(s, *offsets, buffers, data_type),
        ArrayEncoding::Binary { indices, bytes, null_adjustment } => s
            matches PageScheduler::Binary(b) && scheduler_matches(
            *b.indices,
            *indices,
            buffers,
            data_type,
        ) && scheduler_matches(*b.bytes, *bytes, buffers, data_type) && b.offset_type == (
        if data_type.spec_is_large_binary_like() {
            LogicalType::Int64
        } else {
            LogicalType::Int32
        }) && b.null_adjustment == null_adjustment,
        ArrayEncoding::Fsst { binary, symbol_table } => s matches PageScheduler::Fsst(f)
            && scheduler_matches(*f.inner, *binary, buffers, data_type) && f.symbol_table@
            == symbol_table@,
        ArrayEncoding::Dictionary { indices, items, num_dictionary_items } => s
            matches PageScheduler::Dictionary(d) && scheduler_matches(
            *d.indices,
            *indices,
            buffers,
            data_type,
        ) && (match data_type {
            LogicalType::Dictionary(_, value_type) => scheduler_matches(
                *d.items,
                *items,
                buffers,
                value_type,
            ),
            _ => scheduler_matches(*d.items, *items, buffers, data_type),
        }) && d.num_dictionary_items == num_dictionary_items && d.should_decode_dict
            == !data_type.spec_is_dictionary(),
        ArrayEncoding::FixedSizeBinary { bytes, byte_width } => s
            matches PageScheduler::FixedSizeBinary(f) && scheduler_matches(
            *f.bytes,
            *bytes,
            buffers,
            data_type,
        ) && f.byte_width == byte_width && f.bytes_per_offset == (
        if data_type.spec_is_large_binary_like() {
            8u32
        } else {
            4u32
        }),
        ArrayEncoding::PackedStruct(ps) => packed_matches(s, ps, buffers, data_type),
        ArrayEncoding::Struct => false,
    }
}

/// Whether `s` is the packed-struct strategy that interpreting `ps` under
/// `data_type` composes: one child strategy per field in schema order, the
/// fields' fixed byte widths, and the resolved shared buffer's offset.
pub open spec fn packed_matches(
    s: PageScheduler,
    ps: PackedStruct,
    buffers: &PageBuffers,
    data_type: &LogicalType,
) -> bool
    decreases ps,
{
    match data_type {
        LogicalType::Struct(fields) => s matches PageScheduler::PackedStruct(p) && ({
            &&& p.inner@.len() == ps.inner@.len()
            &&& forall|j: int|
                0 <= j < ps.inner@.len() ==> scheduler_matches(
                    #[trigger] p.inner@[j],
                    ps.inner@[j],
                    buffers,
                    &fields@[j].data_type,
                )
            &&& p.field_widths@.len() == fields@.len()
            &&& forall|j: int|
                0 <= j < fields@.len() ==> Some(#[trigger] p.field_widths@[j])
                    == fields@[j].data_type.spec_fixed_byte_width()
            &&& match ps.buffer {
                Some(b) => match spec_get_buffer(b, buffers) {
                    Ok((buffer_offset, _)) => p.buffer_offset == buffer_offset,
                    Err(_) => false,
                },
                None => false,
            }
        }),
        _ => false,
    }
}

/// Convert a buffer encoding into a physical page scheduler: a dense bitmap
/// strategy where the bit width is 1, a value strategy where it is a
/// positive multiple of 8, optionally behind the resolved codec. Any other
/// bit width, a missing or out-of-range buffer, and an unknown compression
/// scheme are fatal construction errors.
pub fn get_buffer_decoder(encoding: &Flat, buffers: &PageBuffers) -> (r: Result<
    PageScheduler,
    ConstructionError,
>)
    ensures
        r == spec_flat_decoder(*encoding, buffers),
{
    let buffer = match &encoding.buffer {
        Some(b) => b,
        None => {
            return Err(ConstructionError::MissingBuffer);
        },
    };
    let (buffer_offset, buffer_size) = match get_buffer(buffer, buffers) {
        Ok(p) => p,
        Err(e) => {
            return Err(e);
        },
    };
    let compression_config: CompressionConfig = match &encoding.compression {
        None => CompressionConfig::new(CompressionScheme::NoCompression, None),
        Some(compression) => {
            let scheme = match parse_compression_scheme(compression.scheme.as_str()) {
                Ok(s) => s,
                Err(e) => {
                    return Err(e);
                },
            };
            CompressionConfig::new(scheme, compression.level)
        },
    };
    if encoding.bits_per_value == 1 {
        Ok(PageScheduler::DenseBitmap(DenseBitmapScheduler::new(buffer_offset)))
    } else if encoding.bits_per_value == 0 || encoding.bits_per_value % 8 != 0 {
        Err(ConstructionError::UnsupportedBitWidth { bits_per_value: encoding.bits_per_value })
    } else {
        Ok(
            PageScheduler::Value(
                ValuePageScheduler::new(
                    encoding.bits_per_value / 8,
                    buffer_offset,
                    buffer_size,
                    compression_config,
                ),
            ),
        )
    }
}

/// Convert a bit-packed encoding into its page scheduler. The buffer's size
/// is resolved but unused: the packed width and the row range alone say
/// which bytes are read.
pub fn get_bitpacked_buffer_decoder(encoding: &Bitpacked, buffers: &PageBuffers) -> (r: Result<
    PageScheduler,
    ConstructionError,
>)
    ensures
        r == spec_bitpacked_decoder(*encoding, buffers),
{
    let buffer = match &encoding.buffer {
        Some(b) => b,
        None => {
            return Err(ConstructionError::MissingBuffer);
        },
    };
    let (buffer_offset, _buffer_size) = match get_buffer(buffer, buffers) {
        Ok(p) => p,
        Err(e) => {
            return Err(e);
        },
    };
    if !bitpack_widths_ok(encoding.compressed_bits_per_value, encoding.uncompressed_bits_per_value)
    {
        return Err(
            ConstructionError::UnsupportedBitpackWidth {
                compressed_bits_per_value: encoding.compressed_bits_per_value,
                uncompressed_bits_per_value: encoding.uncompressed_bits_per_value,
            },
        );
    }
    Ok(
        PageScheduler::Bitpacked(
            BitpackedScheduler::new(
                encoding.compressed_bits_per_value,
                encoding.uncompressed_bits_per_value,
                buffer_offset,
                encoding.signed,
            ),
        ),
    )
}

/// Convert a non-negative bit-packed encoding into its page scheduler.
pub fn get_bitpacked_for_non_neg_buffer_decoder(
    encoding: &BitpackedForNonNeg,
    buffers: &PageBuffers,
) -> (r: Result<PageScheduler, ConstructionError>)
    ensures
        r == spec_bitpacked_for_non_neg_decoder(*encoding, buffers),
{
    let buffer = match &encoding.buffer {
        Some(b) => b,
        None => {
            return Err(ConstructionError::MissingBuffer);
        },
    };
    let (buffer_offset, _buffer_size) = match get_buffer(buffer, buffers) {
        Ok(p) => p,
        Err(e) => {
            return Err(e);
        },
    };
    if !bitpack_widths_ok(encoding.compressed_bits_per_value, encoding.uncompressed_bits_per_value)
    {
        return Err(
            ConstructionError::UnsupportedBitpackWidth {
                compressed_bits_per_value: encoding.compressed_bits_per_value,
                uncompressed_bits_per_value: encoding.uncompressed_bits_per_value,
            },
        );
    }
    Ok(
        PageScheduler::BitpackedForNonNeg(
            BitpackedForNonNegScheduler::new(
                encoding.compressed_bits_per_value,
                encoding.uncompressed_bits_per_value,
                buffer_offset,
            ),
        ),
    )
}

/// Whether a bit-packed node declares widths the unpacker honours.
pub fn bitpack_widths_ok(compressed: u64, uncompressed: u64) -> (r: bool)
    ensures
        r == spec_bitpack_widths_ok(compressed, uncompressed),
{
    (uncompressed == 8 || uncompressed == 16 || uncompressed == 32 || uncompressed == 64)
        && 1 <= compressed && compressed <= uncompressed
}

/// Interpret a packed-struct node: the logical type must be a struct type
/// whose field count matches the number of inner encodings; each child is
/// interpreted under its field's type; every field must have a fixed byte
/// width so the shared buffer can be split row by row.
#[verifier::loop_isolation(false)]
fn decoder_from_packed_struct(
    packed_struct: &PackedStruct,
    buffers: &PageBuffers,
    data_type: &LogicalType,
) -> (r: Result<PageScheduler, ConstructionError>)
    ensures
        (match r {
            Ok(s) => packed_build_err(*packed_struct, buffers, data_type) is None
                && packed_matches(s, *packed_struct, buffers, data_type),
            Err(e) => packed_build_err(*packed_struct, buffers, data_type) == Some(e),
        }),
    decreases packed_struct,
{
    let inner_encodings = &packed_struct.inner;
    let fields = match data_type {
        LogicalType::Struct(fields) => fields,
        _ => {
            return Err(ConstructionError::NotAStructType);
        },
    };
    if inner_encodings.len() != fields.len() {
        return Err(
            ConstructionError::FieldCountMismatch {
                num_fields: fields.len(),
                num_encodings: inner_encodings.len(),
            },
        );
    }
    let mut inner_schedulers: Vec<PageScheduler> = Vec::new();
    let mut i: usize = 0;
    proof {
        assert(inner_encodings@.skip(0) =~= inner_encodings@);
        assert(fields@.skip(0) =~= fields@);
    }
    while i < fields.len()
        invariant
            i <= fields.len(),
            inner_schedulers@.len() == i as nat,
            forall|j: int|
                0 <= j < i as int ==> scheduler_matches(
                    #[trigger] inner_schedulers@[j],
                    inner_encodings@[j],
                    buffers,
                    &fields@[j].data_type,
                ),
            children_build_err(inner_encodings@, buffers, fields@) == children_build_err(
                inner_encodings@.skip(i as int),
                buffers,
                fields@.skip(i as int),
            ),
        decreases fields.len() - i,
    {
        let inner_encoding = &inner_encodings[i];
        let ghost prev_encs = inner_encodings@.skip(i as int);
        let ghost prev_fields = fields@.skip(i as int);
        proof {
            assert(prev_encs[0] == inner_encodings@[i as int]);
            assert(prev_fields[0] == fields@[i as int]);
        }
        let inner_scheduler = match decoder_from_array_encoding(
            inner_encoding,
            buffers,
            &fields[i].data_type,
        ) {
            Ok(s) => s,
            Err(e) => {
                return Err(e);
            },
        };
        proof {
            assert(prev_encs.drop_first() =~= inner_encodings@.skip(i + 1));
            assert(prev_fields.drop_first() =~= fields@.skip(i + 1));
        }
        inner_schedulers.push(inner_scheduler);
        i = i + 1;
    }
    proof {
        assert(inner_encodings@.skip(i as int).len() == 0);
    }
    let packed_buffer = match &packed_struct.buffer {
        Some(b) => b,
        None => {
            return Err(ConstructionError::MissingBuffer);
        },
    };
    let (buffer_offset, _) = match get_buffer(packed_buffer, buffers) {
        Ok(p) => p,
        Err(e) => {
            return Err(e);
        },
    };
    let mut field_widths: Vec<u64> = Vec::new();
    let mut k: usize = 0;
    while k < fields.len()
        invariant
            k <= fields.len(),
            field_widths@.len() == k as nat,
            forall|j: int|
                0 <= j < k as int ==> Some(#[trigger] field_widths@[j])
                    == fields@[j].data_type.spec_fixed_byte_width(),
        decreases fields.len() - k,
    {
        match fields[k].data_type.fixed_byte_width() {
            Some(w) => field_widths.push(w),
            None => {
                return Err(ConstructionError::UnsupportedPackedFieldType);
            },
        }
        k = k + 1;
    }
    proof {
        assert(!(exists|j: int|
            0 <= j < fields@.len() && (#[trigger] fields@[j].data_type.spec_fixed_byte_width())
                is None)) by {
            assert forall|j: int| 0 <= j < fields@.len() implies !((
            #[trigger] fields@[j].data_type.spec_fixed_byte_width()) is None) by {
                assert(Some(field_widths@[j]) == fields@[j].data_type.spec_fixed_byte_width());
            }
        }
    }
    Ok(
        PageScheduler::PackedStruct(
            PackedStructPageScheduler::new(inner_schedulers, field_widths, buffer_offset),
        ),
    )
}

/// Convert an array encoding into a physical page scheduler.
///
/// This is the single recursive dispatch of the interpreter: it resolves
/// buffers and compression, recurses into children threading the logical
/// type downward, and composes the matching strategy. On success the result
/// is exactly the strategy `scheduler_matches` describes; on failure the
/// error is exactly the first one `build_err` describes, and nothing has
/// been scheduled.
pub fn decoder_from_array_encoding(
    encoding: &ArrayEncoding,
    buffers: &PageBuffers,
    data_type: &LogicalType,
) -> (r: Result<PageScheduler, ConstructionError>)
    ensures
        (match r {
            Ok(s) => build_err(*encoding, buffers, data_type) is None && scheduler_matches(
                s,
                *encoding,
                buffers,
                data_type,
            ),
            Err(e) => build_err(*encoding, buffers, data_type) == Some(e),
        }),
    decreases encoding,
{
    match encoding {
        ArrayEncoding::Nullable(basic) => match basic {
            Nullability::NoNulls { values } => {
                let inner = decoder_from_array_encoding(values, buffers, data_type)?;
                Ok(PageScheduler::Basic(BasicPageScheduler::new_non_nullable(inner)))
            },
            Nullability::SomeNulls { validity, values } => {
                let validity_scheduler = decoder_from_array_encoding(validity, buffers, data_type)?;
                let values_scheduler = decoder_from_array_encoding(values, buffers, data_type)?;
                Ok(
                    PageScheduler::Basic(
                        BasicPageScheduler::new_nullable(validity_scheduler, values_scheduler),
                    ),
                )
            },
            Nullability::AllNulls => Ok(PageScheduler::Basic(BasicPageScheduler::new_all_null())),
        },
        ArrayEncoding::Bitpacked(bitpacked) => get_bitpacked_buffer_decoder(bitpacked, buffers),
        ArrayEncoding::Flat(flat) => get_buffer_decoder(flat, buffers),
        ArrayEncoding::FixedSizeList { items, dimension } => {
            let item_scheduler = decoder_from_array_encoding(items, buffers, data_type)?;
            Ok(PageScheduler::FixedList(FixedListScheduler::new(item_scheduler, *dimension)))
        },
        // This is a column containing the list offsets. The wrapper is
        // superfluous at the moment, since the row's list-ness is already
        // known from the schema; it exists for forward compatibility with
        // other ways of storing the list offsets.
        ArrayEncoding::List { offsets } => decoder_from_array_encoding(offsets, buffers, data_type),
        ArrayEncoding::Binary { indices, bytes, null_adjustment } => {
            let indices_scheduler = decoder_from_array_encoding(indices, buffers, data_type)?;
            let bytes_scheduler = decoder_from_array_encoding(bytes, buffers, data_type)?;
            let offset_type = if data_type.is_large_binary_like() {
                LogicalType::Int64
            } else {
                LogicalType::Int32
            };
            Ok(
                PageScheduler::Binary(
                    BinaryPageScheduler::new(
                        indices_scheduler,
                        bytes_scheduler,
                        offset_type,
                        *null_adjustment,
                    ),
                ),
            )
        },
        ArrayEncoding::Fsst { binary, symbol_table } => {
            let inner = decoder_from_array_encoding(binary, buffers, data_type)?;
            let table = copy_bytes(symbol_table);
            Ok(PageScheduler::Fsst(FsstPageScheduler::new(inner, table)))
        },
        ArrayEncoding::Dictionary { indices, items, num_dictionary_items } => {
            // The page can be reached two ways: the caller wants the
            // dictionary itself, or the dictionary is only a storage
            // optimization and the caller wants the value type. The items
            // child is interpreted under the value type either way.
            let indices_scheduler = decoder_from_array_encoding(indices, buffers, data_type)?;
            let value_type: &LogicalType = match data_type {
                LogicalType::Dictionary(_, value_type) => value_type,
                _ => data_type,
            };
            let items_scheduler = decoder_from_array_encoding(items, buffers, value_type)?;
            let should_decode_dict = !data_type.is_dictionary();
            Ok(
                PageScheduler::Dictionary(
                    DictionaryPageScheduler::new(
                        indices_scheduler,
                        items_scheduler,
                        *num_dictionary_items,
                        should_decode_dict,
                    ),
                ),
            )
        },
        ArrayEncoding::FixedSizeBinary { bytes, byte_width } => {
            let bytes_scheduler = decoder_from_array_encoding(bytes, buffers, data_type)?;
            let bytes_per_offset: u32 = if data_type.is_large_binary_like() {
                8
            } else if data_type.is_small_binary_like() {
                4
            } else {
                return Err(ConstructionError::UnsupportedFixedSizeBinaryType);
            };
            Ok(
                PageScheduler::FixedSizeBinary(
                    FixedSizeBinaryPageScheduler::new(bytes_scheduler, *byte_width, bytes_per_offset),
                ),
            )
        },
        ArrayEncoding::PackedStruct(packed_struct) => decoder_from_packed_struct(
            packed_struct,
            buffers,
            data_type,
        ),
        ArrayEncoding::BitpackedForNonNeg(bitpacked) => get_bitpacked_for_non_neg_buffer_decoder(
            bitpacked,
            buffers,
        ),
        // Struct nullability is carried by a header column with no payload,
        // which is never decoded, so this node is never materialized into a
        // strategy; reaching it is a defect of the writer, reported loudly.
        ArrayEncoding::Struct => Err(ConstructionError::UnexpectedStructNode),
    }
}

/// A copy of a byte vector with the same contents.
fn copy_bytes(v: &Vec<u8>) -> (r: Vec<u8>)
    ensures
        r@ == v@,
{
    let mut out: Vec<u8> = Vec::new();
    let mut i: usize = 0;
    while i < v.len()
        invariant
            i <= v.len(),
            out@ =~= v@.subrange(0, i as int),
        decreases v.len() - i,
    {
        out.push(v[i]);
        i = i + 1;
    }
    proof {
        assert(out@ =~= v@);
    }
    out
}

} // verus!
