//! Scheduling and decoding: what bytes a row range needs, and what values
//! those bytes hold.
//!
//! `schedule` is side-effect-free: it only computes byte ranges. `decode` is
//! pure computation over already-fetched bytes: for the same bytes and row
//! range it returns the same values. The spec functions here say, over a
//! mathematical file image, exactly which ranges are planned and which
//! values come back; the executable methods are proved against them for
//! every fetched-data value that agrees with the file and covers the plan.

use vstd::prelude::*;
use vstd::arithmetic::power2::pow2;

use crate::bits::{bits_value, file_bit, le_bytes, le_value};
use crate::compression::CompressionScheme;
use crate::decoded::{decode_result_matches, var_bin_views, ArrayModel, DecodedArray};
use crate::errors::ExecutionError;
use crate::scheduler::{BasicPageScheduler, PageScheduler};

verus! {

/// The sum of a sequence of byte widths.
pub open spec fn sum_widths(widths: Seq<u64>) -> nat
    decreases widths.len(),
{
    if widths.len() == 0 {
        0
    } else {
        (widths[0] + sum_widths(widths.drop_first())) as nat
    }
}

/// The byte range covering the bits of rows `[start, end)` packed at `bits`
/// bits per row after `buffer_offset`.
pub open spec fn spec_bit_range(buffer_offset: u64, bits: u64, start: u64, end: u64) -> Result<
    Seq<(u64, u64)>,
    ExecutionError,
> {
    if bits == 0 {
        Err(ExecutionError::UnexpectedArrayLayout)
    } else if start == end {
        Ok(Seq::empty())
    } else if end * bits > u64::MAX {
        Err(ExecutionError::RangeOverflow)
    } else if buffer_offset + (end * bits - 1) / 8 + 1 > u64::MAX {
        Err(ExecutionError::RangeOverflow)
    } else {
        Ok(
            seq![
                (
                    (buffer_offset + (start * bits) / 8) as u64,
                    ((end * bits - 1) / 8 + 1 - (start * bits) / 8) as u64,
                ),
            ],
        )
    }
}

/// The unsigned integers a fixed-width array holds, little-endian, one per
/// row; defined for widths of 1, 2, 4 or 8 bytes.
pub open spec fn model_as_u64s(m: ArrayModel) -> Result<Seq<u64>, ExecutionError> {
    match m {
        ArrayModel::Fixed { bytes_per_value: bpv, data } => {
            if (bpv == 1 || bpv == 2 || bpv == 4 || bpv == 8) && (data.len() as int) % (bpv as int) == 0 {
                Ok(
                    Seq::new(
                        ((data.len() as int) / (bpv as int)) as nat,
                        |i: int|
                            le_value(
                                data.subrange(i * (bpv as int), (i + 1) * (bpv as int)),
                            ) as u64,
                    ),
                )
            } else {
                Err(ExecutionError::UnexpectedArrayLayout)
            }
        },
        _ => Err(ExecutionError::UnexpectedArrayLayout),
    }
}

/// The array holding row `idxs[i]` of `items` at each position `i`: the
/// materialization of a dictionary through its indices. Defined for item
/// layouts a dictionary can hold; an index at or past the item count is a
/// data error.
pub open spec fn model_take(items: ArrayModel, idxs: Seq<u64>) -> Result<
    ArrayModel,
    ExecutionError,
>
    decreases items,
{
    match items {
        ArrayModel::Fixed { bytes_per_value: bpv, data } => {
            if bpv == 0 || (data.len() as int) % (bpv as int) != 0 {
                Err(ExecutionError::UnexpectedArrayLayout)
            } else if exists|i: int|
                0 <= i < idxs.len() && (#[trigger] idxs[i]) >= (data.len() as int) / (bpv as int) {
                Err(ExecutionError::DictionaryIndexOutOfBounds)
            } else {
                Ok(
                    ArrayModel::Fixed {
                        bytes_per_value: bpv,
                        data: Seq::new(
                            (idxs.len() * bpv) as nat,
                            |j: int|
                                data[(idxs[j / (bpv as int)] as int) * (bpv as int) + (j % (
                                bpv as int))],
                        ),
                    },
                )
            }
        },
        ArrayModel::Boolean { values } => {
            if exists|i: int| 0 <= i < idxs.len() && (#[trigger] idxs[i]) >= values.len() {
                Err(ExecutionError::DictionaryIndexOutOfBounds)
            } else {
                Ok(
                    ArrayModel::Boolean {
                        values: Seq::new(idxs.len(), |i: int| values[idxs[i] as int]),
                    },
                )
            }
        },
        ArrayModel::VarBin { values } => {
            if exists|i: int| 0 <= i < idxs.len() && (#[trigger] idxs[i]) >= values.len() {
                Err(ExecutionError::DictionaryIndexOutOfBounds)
            } else {
                Ok(
                    ArrayModel::VarBin {
                        values: Seq::new(idxs.len(), |i: int| values[idxs[i] as int]),
                    },
                )
            }
        },
        ArrayModel::AllNull { num_rows } => {
            if exists|i: int| 0 <= i < idxs.len() && (#[trigger] idxs[i]) >= num_rows {
                Err(ExecutionError::DictionaryIndexOutOfBounds)
            } else {
                Ok(ArrayModel::AllNull { num_rows: idxs.len() })
            }
        },
        ArrayModel::Nullable { validity, values } => {
            if exists|i: int| 0 <= i < idxs.len() && (#[trigger] idxs[i]) >= validity.len() {
                Err(ExecutionError::DictionaryIndexOutOfBounds)
            } else {
                match model_take(*values, idxs) {
                    Err(e) => Err(e),
                    Ok(taken) => Ok(
                        ArrayModel::Nullable {
                            validity: Seq::new(idxs.len(), |i: int| validity[idxs[i] as int]),
                            values: Box::new(taken),
                        },
                    ),
                }
            }
        },
        _ => Err(ExecutionError::UnexpectedArrayLayout),
    }
}

/// The adjusted end offset of a binary row: its stored offset reduced modulo
/// the null adjustment.
pub open spec fn bin_end_off(offs: Seq<u64>, null_adjustment: u64, s0: int, r: int) -> nat {
    (offs[r - s0] as nat) % (null_adjustment as nat)
}

/// The adjusted start offset of a binary row: zero for the first row of the
/// page, else the previous row's adjusted end.
pub open spec fn bin_start_off(offs: Seq<u64>, null_adjustment: u64, s0: int, r: int) -> nat {
    if r == 0 {
        0nat
    } else {
        bin_end_off(offs, null_adjustment, s0, r - 1)
    }
}

/// Whether every row of the range has a well-formed extent within the data.
pub open spec fn bin_rows_ok(
    offs: Seq<u64>,
    null_adjustment: u64,
    s0: int,
    start: int,
    end: int,
    data_len: nat,
) -> bool {
    forall|r: int|
        start <= r < end ==> #[trigger] bin_start_off(offs, null_adjustment, s0, r) <= bin_end_off(
            offs,
            null_adjustment,
            s0,
            r,
        ) && bin_end_off(offs, null_adjustment, s0, r) <= data_len
}

/// The value of one binary row: null where the stored offset is at or above
/// the null adjustment, else the data bytes between the row's adjusted
/// offsets.
pub open spec fn bin_row_value(
    offs: Seq<u64>,
    null_adjustment: u64,
    s0: int,
    r: int,
    data: Seq<u8>,
) -> Option<Seq<u8>> {
    if offs[r - s0] >= null_adjustment {
        None
    } else {
        Some(
            data.subrange(
                bin_start_off(offs, null_adjustment, s0, r) as int,
                bin_end_off(offs, null_adjustment, s0, r) as int,
            ),
        )
    }
}

/// The symbols of an inline symbol table. The first byte counts the symbols
/// (at most 254, since byte 255 is the escape); each entry is one length
/// byte between 1 and 8 followed by that many symbol bytes, with nothing
/// left over.
pub open spec fn parse_symbol_table(table: Seq<u8>) -> Option<Seq<Seq<u8>>> {
    if table.len() < 1 {
        None
    } else if table[0] == 255 {
        None
    } else {
        parse_symbol_entries(table.drop_first(), table[0] as nat)
    }
}

/// The remaining symbol entries of a table, or `None` where they are
/// malformed.
pub open spec fn parse_symbol_entries(bytes: Seq<u8>, n: nat) -> Option<Seq<Seq<u8>>>
    decreases n,
{
    if n == 0 {
        if bytes.len() == 0 {
            Some(Seq::empty())
        } else {
            None
        }
    } else if bytes.len() < 1 {
        None
    } else {
        let l = bytes[0] as int;
        if l < 1 || l > 8 || bytes.len() < 1 + l {
            None
        } else {
            match parse_symbol_entries(bytes.skip(1 + l), (n - 1) as nat) {
                None => None,
                Some(rest) => Some(seq![bytes.subrange(1, 1 + l)] + rest),
            }
        }
    }
}

/// Reverse the substring substitution of one compressed value: byte 255
/// escapes the next byte, every other byte names a symbol of the table.
pub open spec fn fsst_expand(syms: Seq<Seq<u8>>, input: Seq<u8>) -> Option<Seq<u8>>
    decreases input.len(),
{
    if input.len() == 0 {
        Some(Seq::empty())
    } else if input[0] == 255 {
        if input.len() < 2 {
            None
        } else {
            match fsst_expand(syms, input.skip(2)) {
                None => None,
                Some(rest) => Some(seq![input[1]] + rest),
            }
        }
    } else if (input[0] as int) < syms.len() {
        match fsst_expand(syms, input.drop_first()) {
            None => None,
            Some(rest) => Some(syms[input[0] as int] + rest),
        }
    } else {
        None
    }
}

/// Expansion of one possibly-null row: a null row stays null.
pub open spec fn fsst_expand_row(syms: Seq<Seq<u8>>, row: Option<Seq<u8>>) -> Option<
    Option<Seq<u8>>,
> {
    match row {
        None => Some(None),
        Some(b) => match fsst_expand(syms, b) {
            None => None,
            Some(x) => Some(Some(x)),
        },
    }
}

/// The value of one bit-packed row, widened to `ub` bits: the `cb` packed
/// bits, plus sign extension where `signed` is set and the top packed bit is.
pub open spec fn unpacked_value(
    file: Seq<u8>,
    offset: int,
    cb: nat,
    ub: nat,
    signed: bool,
    row: int,
) -> nat {
    let raw = bits_value(file, offset, row * cb, cb);
    if signed && cb >= 1 && file_bit(file, offset, row * cb + cb - 1) {
        ((raw + pow2(ub)) - pow2(cb)) as nat
    } else {
        raw
    }
}

/// The little-endian bytes of `count` consecutive unpacked rows starting at
/// `row_start`.
pub open spec fn packed_rows_bytes(
    file: Seq<u8>,
    offset: int,
    cb: nat,
    ub: nat,
    signed: bool,
    row_start: int,
    count: nat,
) -> Seq<u8>
    decreases count,
{
    if count == 0 {
        Seq::empty()
    } else {
        le_bytes(unpacked_value(file, offset, cb, ub, signed, row_start), ub / 8)
            + packed_rows_bytes(file, offset, cb, ub, signed, row_start + 1, (count - 1) as nat)
    }
}

/// Appending a row appends its bytes.
pub proof fn lemma_packed_rows_snoc(
    file: Seq<u8>,
    offset: int,
    cb: nat,
    ub: nat,
    signed: bool,
    row_start: int,
    count: nat,
)
    ensures
        packed_rows_bytes(file, offset, cb, ub, signed, row_start, count + 1) == packed_rows_bytes(
            file,
            offset,
            cb,
            ub,
            signed,
            row_start,
            count,
        ) + le_bytes(unpacked_value(file, offset, cb, ub, signed, row_start + count), ub / 8),
    decreases count,
{
    if count == 0 {
        assert(packed_rows_bytes(file, offset, cb, ub, signed, row_start + 1, 0nat)
            =~= Seq::<u8>::empty());
        assert(packed_rows_bytes(file, offset, cb, ub, signed, row_start, 1nat) =~= le_bytes(
            unpacked_value(file, offset, cb, ub, signed, row_start),
            ub / 8,
        ) + Seq::<u8>::empty());
        assert(packed_rows_bytes(file, offset, cb, ub, signed, row_start, 0nat) + le_bytes(
            unpacked_value(file, offset, cb, ub, signed, row_start),
            ub / 8,
        ) =~= le_bytes(unpacked_value(file, offset, cb, ub, signed, row_start), ub / 8)
            + Seq::<u8>::empty());
    } else {
        lemma_packed_rows_snoc(file, offset, cb, ub, signed, row_start + 1, (count - 1) as nat);
        assert(packed_rows_bytes(file, offset, cb, ub, signed, row_start, count + 1)
            =~= packed_rows_bytes(file, offset, cb, ub, signed, row_start, count) + le_bytes(
            unpacked_value(file, offset, cb, ub, signed, row_start + count),
            ub / 8,
        ));
    }
}

/// The field arrays a packed-struct page decodes to: for each field, its
/// fixed-width bytes gathered row by row out of the interleaved data.
pub open spec fn packed_fields_model(
    file: Seq<u8>,
    offset: int,
    widths: Seq<u64>,
    start: int,
    end: int,
) -> Seq<ArrayModel> {
    let stride = sum_widths(widths) as int;
    Seq::new(
        widths.len(),
        |f: int|
            ArrayModel::Fixed {
                bytes_per_value: widths[f] as nat,
                data: Seq::new(
                    ((end - start) * widths[f]) as nat,
                    |j: int|
                        file[offset + (start + j / (widths[f] as int)) * stride + (sum_widths(
                            widths.subrange(0, f),
                        ) as int) + (j % (widths[f] as int))],
                ),
            },
    )
}

impl PageScheduler {
    /// The row count a strategy knows without decoding: only an
    /// uncompressed value strategy can say, from its buffer size and value
    /// width, how many rows its buffer holds.
    pub open spec fn spec_known_row_count(&self) -> Option<u64> {
        match self {
            PageScheduler::Value(v) => {
                if v.compression_config.scheme != CompressionScheme::NoCompression {
                    None
                } else if v.bytes_per_value == 0 {
                    None
                } else {
                    Some((v.buffer_size / v.bytes_per_value) as u64)
                }
            },
            _ => None,
        }
    }

    /// The byte ranges a row range needs. A variable-length strategy plans
    /// its whole data buffer, since the extents are known only once the
    /// offsets are decoded; a compressed value strategy plans its whole
    /// buffer, since the block must be decompressed as one.
    pub open spec fn schedule_spec(&self, start: u64, end: u64) -> Result<
        Seq<(u64, u64)>,
        ExecutionError,
    >
        decreases self,
    {
        match self {
            PageScheduler::Value(v) => {
                if v.compression_config.scheme != CompressionScheme::NoCompression {
                    Ok(seq![(v.buffer_offset, v.buffer_size)])
                } else if v.bytes_per_value == 0 {
                    Err(ExecutionError::UnexpectedArrayLayout)
                } else if end > v.buffer_size / v.bytes_per_value {
                    Err(ExecutionError::RowRangeOutOfBounds)
                } else if v.buffer_offset + end * v.bytes_per_value > u64::MAX {
                    Err(ExecutionError::RangeOverflow)
                } else {
                    Ok(
                        seq![
                            (
                                (v.buffer_offset + start * v.bytes_per_value) as u64,
                                ((end - start) * v.bytes_per_value) as u64,
                            ),
                        ],
                    )
                }
            },
            PageScheduler::DenseBitmap(b) => spec_bit_range(b.buffer_offset, 1, start, end),
            PageScheduler::Bitpacked(bp) => spec_bit_range(
                bp.buffer_offset,
                bp.compressed_bits_per_value,
                start,
                end,
            ),
            PageScheduler::BitpackedForNonNeg(bp) => spec_bit_range(
                bp.buffer_offset,
                bp.compressed_bits_per_value,
                start,
                end,
            ),
            PageScheduler::Basic(b) => match b {
                BasicPageScheduler::NoNulls { values } => values.schedule_spec(start, end),
                BasicPageScheduler::SomeNulls { validity, values } => match validity.schedule_spec(
                    start,
                    end,
                ) {
                    Err(e) => Err(e),
                    Ok(a) => match values.schedule_spec(start, end) {
                        Err(e) => Err(e),
                        Ok(c) => Ok(a + c),
                    },
                },
                BasicPageScheduler::AllNulls => Ok(Seq::empty()),
            },
            PageScheduler::FixedList(f) => {
                if end * f.dimension > u64::MAX {
                    Err(ExecutionError::RangeOverflow)
                } else {
                    f.items.schedule_spec(
                        (start * f.dimension) as u64,
                        (end * f.dimension) as u64,
                    )
                }
            },
            PageScheduler::Binary(b) => {
                let s0: u64 = if start == 0 {
                    0u64
                } else {
                    (start - 1) as u64
                };
                match b.indices.schedule_spec(s0, end) {
                    Err(e) => Err(e),
                    Ok(a) => match b.bytes.spec_known_row_count() {
                        None => Err(ExecutionError::UnexpectedArrayLayout),
                        Some(n) => match b.bytes.schedule_spec(0, n) {
                            Err(e) => Err(e),
                            Ok(c) => Ok(a + c),
                        },
                    },
                }
            },
            PageScheduler::Fsst(f) => f.inner.schedule_spec(start, end),
            PageScheduler::Dictionary(d) => match d.indices.schedule_spec(start, end) {
                Err(e) => Err(e),
                Ok(a) => match d.items.schedule_spec(0, d.num_dictionary_items as u64) {
                    Err(e) => Err(e),
                    Ok(c) => Ok(a + c),
                },
            },
            PageScheduler::FixedSizeBinary(f) => {
                if end * f.byte_width > u64::MAX {
                    Err(ExecutionError::RangeOverflow)
                } else {
                    f.bytes.schedule_spec((start * f.byte_width) as u64, (end * f.byte_width) as u64)
                }
            },
            PageScheduler::PackedStruct(p) => {
                let stride = sum_widths(p.field_widths@);
                if p.buffer_offset + end * stride > u64::MAX {
                    Err(ExecutionError::RangeOverflow)
                } else {
                    Ok(
                        seq![
                            (
                                (p.buffer_offset + start * stride) as u64,
                                ((end - start) * stride) as u64,
                            ),
                        ],
                    )
                }
            },
        }
    }

    /// The values rows `[start, end)` decode to over the file image, or the
    /// data-dependent error decoding reports. Meaningful wherever the
    /// strategy's plan was fetched from a file this is applied to.
    pub open spec fn decoded_spec(&self, file: Seq<u8>, start: int, end: int) -> Result<
        ArrayModel,
        ExecutionError,
    >
        decreases self,
    {
        match self {
            PageScheduler::Value(v) => {
                if v.compression_config.scheme != CompressionScheme::NoCompression {
                    Err(ExecutionError::NoEmbeddedCodec)
                } else {
                    Ok(
                        ArrayModel::Fixed {
                            bytes_per_value: v.bytes_per_value as nat,
                            data: file.subrange(
                                v.buffer_offset + start * v.bytes_per_value,
                                v.buffer_offset + end * v.bytes_per_value,
                            ),
                        },
                    )
                }
            },
            PageScheduler::DenseBitmap(b) => Ok(
                ArrayModel::Boolean {
                    values: Seq::new(
                        (end - start) as nat,
                        |i: int| file_bit(file, b.buffer_offset as int, start + i),
                    ),
                },
            ),
            PageScheduler::Bitpacked(bp) => {
                if !crate::physical::spec_bitpack_widths_ok(
                    bp.compressed_bits_per_value,
                    bp.uncompressed_bits_per_value,
                ) {
                    Err(ExecutionError::UnexpectedArrayLayout)
                } else {
                    Ok(
                        ArrayModel::Fixed {
                            bytes_per_value: (bp.uncompressed_bits_per_value / 8) as nat,
                            data: packed_rows_bytes(
                                file,
                                bp.buffer_offset as int,
                                bp.compressed_bits_per_value as nat,
                                bp.uncompressed_bits_per_value as nat,
                                bp.signed,
                                start,
                                (end - start) as nat,
                            ),
                        },
                    )
                }
            },
            PageScheduler::BitpackedForNonNeg(bp) => {
                if !crate::physical::spec_bitpack_widths_ok(
                    bp.compressed_bits_per_value,
                    bp.uncompressed_bits_per_value,
                ) {
                    Err(ExecutionError::UnexpectedArrayLayout)
                } else {
                    Ok(
                        ArrayModel::Fixed {
                            bytes_per_value: (bp.uncompressed_bits_per_value / 8) as nat,
                            data: packed_rows_bytes(
                                file,
                                bp.buffer_offset as int,
                                bp.compressed_bits_per_value as nat,
                                bp.uncompressed_bits_per_value as nat,
                                false,
                                start,
                                (end - start) as nat,
                            ),
                        },
                    )
                }
            },
            PageScheduler::Basic(b) => match b {
                BasicPageScheduler::NoNulls { values } => values.decoded_spec(file, start, end),
                BasicPageScheduler::SomeNulls { validity, values } => match validity.decoded_spec(
                    file,
                    start,
                    end,
                ) {
                    Err(e) => Err(e),
                    Ok(vm) => match values.decoded_spec(file, start, end) {
                        Err(e) => Err(e),
                        Ok(wm) => match vm {
                            ArrayModel::Boolean { values: bits } => {
                                if bits.len() == end - start && wm.rows() == (end - start) as nat {
                                    Ok(
                                        ArrayModel::Nullable {
                                            validity: bits,
                                            values: Box::new(wm),
                                        },
                                    )
                                } else {
                                    Err(ExecutionError::UnexpectedArrayLayout)
                                }
                            },
                            _ => Err(ExecutionError::UnexpectedArrayLayout),
                        },
                    },
                },
                BasicPageScheduler::AllNulls => Ok(
                    ArrayModel::AllNull { num_rows: (end - start) as nat },
                ),
            },
            PageScheduler::FixedList(f) => match f.items.decoded_spec(
                file,
                start * f.dimension,
                end * f.dimension,
            ) {
                Err(e) => Err(e),
                Ok(m) => {
                    if m.rows() == ((end - start) * f.dimension) as nat {
                        Ok(
                            ArrayModel::FixedSizeListArray {
                                dimension: f.dimension as nat,
                                items: Box::new(m),
                            },
                        )
                    } else {
                        Err(ExecutionError::UnexpectedArrayLayout)
                    }
                },
            },
            PageScheduler::Binary(b) => {
                if b.null_adjustment == 0 {
                    Err(ExecutionError::ZeroNullAdjustment)
                } else {
                    let s0: int = if start == 0 {
                        0
                    } else {
                        start - 1
                    };
                    match b.indices.decoded_spec(file, s0, end) {
                        Err(e) => Err(e),
                        Ok(im) => match model_as_u64s(im) {
                            Err(e) => Err(e),
                            Ok(offs) => {
                                if offs.len() != end - s0 {
                                    Err(ExecutionError::UnexpectedArrayLayout)
                                } else {
                                    match b.bytes.spec_known_row_count() {
                                        None => Err(ExecutionError::UnexpectedArrayLayout),
                                        Some(n) => match b.bytes.decoded_spec(file, 0, n as int) {
                                            Err(e) => Err(e),
                                            Ok(bm) => match bm {
                                                ArrayModel::Fixed { bytes_per_value: b1, data } => {
                                                    if b1 != 1 {
                                                        Err(ExecutionError::UnexpectedArrayLayout)
                                                    } else if !bin_rows_ok(
                                                        offs,
                                                        b.null_adjustment,
                                                        s0,
                                                        start,
                                                        end,
                                                        data.len(),
                                                    ) {
                                                        Err(ExecutionError::CorruptOffsets)
                                                    } else {
                                                        Ok(
                                                            ArrayModel::VarBin {
                                                                values: Seq::new(
                                                                    (end - start) as nat,
                                                                    |i: int|
                                                                        bin_row_value(
                                                                            offs,
                                                                            b.null_adjustment,
                                                                            s0,
                                                                            start + i,
                                                                            data,
                                                                        ),
                                                                ),
                                                            },
                                                        )
                                                    }
                                                },
                                                _ => Err(ExecutionError::UnexpectedArrayLayout),
                                            },
                                        },
                                    }
                                }
                            },
                        },
                    }
                }
            },
            PageScheduler::Fsst(f) => match f.inner.decoded_spec(file, start, end) {
                Err(e) => Err(e),
                Ok(m) => match m {
                    ArrayModel::VarBin { values } => match parse_symbol_table(f.symbol_table@) {
                        None => Err(ExecutionError::CorruptSymbolTable),
                        Some(syms) => {
                            if forall|i: int|
                                0 <= i < values.len() ==> (#[trigger] fsst_expand_row(
                                    syms,
                                    values[i],
                                )) is Some {
                                Ok(
                                    ArrayModel::VarBin {
                                        values: Seq::new(
                                            values.len(),
                                            |i: int|
                                                match fsst_expand_row(syms, values[i]) {
                                                    Some(x) => x,
                                                    None => None,
                                                },
                                        ),
                                    },
                                )
                            } else {
                                Err(ExecutionError::CorruptSymbolTable)
                            }
                        },
                    },
                    _ => Err(ExecutionError::UnexpectedArrayLayout),
                },
            },
            PageScheduler::Dictionary(d) => match d.indices.decoded_spec(file, start, end) {
                Err(e) => Err(e),
                Ok(im) => match model_as_u64s(im) {
                    Err(e) => Err(e),
                    Ok(idxs) => {
                        if idxs.len() != end - start {
                            Err(ExecutionError::UnexpectedArrayLayout)
                        } else {
                            match d.items.decoded_spec(file, 0, d.num_dictionary_items as int) {
                                Err(e) => Err(e),
                                Ok(items_m) => {
                                    if d.should_decode_dict {
                                        model_take(items_m, idxs)
                                    } else {
                                        Ok(
                                            ArrayModel::DictionaryArray {
                                                indices: Box::new(im),
                                                items: Box::new(items_m),
                                            },
                                        )
                                    }
                                },
                            }
                        }
                    },
                },
            },
            PageScheduler::FixedSizeBinary(f) => match f.bytes.decoded_spec(
                file,
                start * f.byte_width,
                end * f.byte_width,
            ) {
                Err(e) => Err(e),
                Ok(m) => match m {
                    ArrayModel::Fixed { bytes_per_value: b1, data } => {
                        if f.byte_width == 0 || b1 != 1 || data.len() != (end - start)
                            * f.byte_width {
                            Err(ExecutionError::UnexpectedArrayLayout)
                        } else {
                            Ok(
                                ArrayModel::Fixed {
                                    bytes_per_value: f.byte_width as nat,
                                    data,
                                },
                            )
                        }
                    },
                    _ => Err(ExecutionError::UnexpectedArrayLayout),
                },
            },
            PageScheduler::PackedStruct(p) => {
                if exists|j: int|
                    0 <= j < p.field_widths@.len() && #[trigger] p.field_widths@[j] == 0 {
                    Err(ExecutionError::UnexpectedArrayLayout)
                } else {
                    Ok(
                        ArrayModel::StructArray {
                            fields: packed_fields_model(
                                file,
                                p.buffer_offset as int,
                                p.field_widths@,
                                start,
                                end,
                            ),
                        },
                    )
                }
            },
        }
    }
}

/// Multiplying by at least one cannot pass a bound its quotient respects.
pub proof fn lemma_mul_le_iff(a: int, b: int, m: int)
    requires
        a >= 0,
        b >= 1,
        m >= 0,
    ensures
        (a * b <= m) <==> (a <= m / b),
{
    vstd::arithmetic::div_mod::lemma_fundamental_div_mod(m, b);
    vstd::arithmetic::div_mod::lemma_mod_bound(m, b);
    vstd::arithmetic::mul::lemma_mul_is_commutative(b, m / b);
    if a <= m / b {
        vstd::arithmetic::mul::lemma_mul_inequality(a, m / b, b);
    } else {
        vstd::arithmetic::mul::lemma_mul_inequality(m / b + 1, a, b);
        vstd::arithmetic::mul::lemma_mul_is_distributive_add_other_way(b, m / b, 1);
    }
}

/// Dividing respects order.
pub proof fn lemma_div_monotone(a: int, b: int, d: int)
    requires
        0 <= a <= b,
        d >= 1,
    ensures
        a / d <= b / d,
{
    vstd::arithmetic::div_mod::lemma_div_is_ordered(a, b, d);
}

/// Whether a product of two words passes the word bound.
fn mul_overflows(a: u64, b: u64) -> (r: bool)
    ensures
        r == (a as nat * b as nat > u64::MAX),
{
    if a == 0 || b == 0 {
        proof {
            vstd::arithmetic::mul::lemma_mul_by_zero_is_zero(a as int);
        }
        false
    } else {
        proof {
            lemma_mul_le_iff(a as int, b as int, u64::MAX as int);
        }
        a > u64::MAX / b
    }
}

/// Append the elements of one plan to another.
fn append_ranges(out: &mut Vec<(u64, u64)>, more: Vec<(u64, u64)>) -> (nothing: ())
    ensures
        final(out)@ == old(out)@ + more@,
{
    let mut i: usize = 0;
    while i < more.len()
        invariant
            i <= more@.len(),
            out@ =~= old(out)@ + more@.subrange(0, i as int),
        decreases more@.len() - i,
    {
        proof {
            assert((old(out)@ + more@.subrange(0, i as int)).push(more@[i as int]) =~= old(out)@
                + more@.subrange(0, i + 1));
        }
        out.push(more[i]);
        i = i + 1;
    }
    proof {
        assert(old(out)@ + more@.subrange(0, more@.len() as int) =~= old(out)@ + more@);
    }
}

/// A plan of one byte range.
fn single_range(offset: u64, length: u64) -> (r: Vec<(u64, u64)>)
    ensures
        r@ =~= seq![(offset, length)],
{
    let mut v: Vec<(u64, u64)> = Vec::new();
    v.push((offset, length));
    v
}

/// The byte range covering packed bits, executably.
fn bit_range(buffer_offset: u64, bits: u64, start: u64, end: u64) -> (r: Result<
    Vec<(u64, u64)>,
    ExecutionError,
>)
    requires
        start <= end,
    ensures
        (match r {
            Ok(v) => spec_bit_range(buffer_offset, bits, start, end) == Ok::<
                Seq<(u64, u64)>,
                ExecutionError,
            >(v@),
            Err(e) => spec_bit_range(buffer_offset, bits, start, end) == Err::<
                Seq<(u64, u64)>,
                ExecutionError,
            >(e),
        }),
{
    if bits == 0 {
        return Err(ExecutionError::UnexpectedArrayLayout);
    }
    if start == end {
        let v: Vec<(u64, u64)> = Vec::new();
        proof {
            assert(v@ =~= Seq::<(u64, u64)>::empty());
        }
        return Ok(v);
    }
    if mul_overflows(end, bits) {
        return Err(ExecutionError::RangeOverflow);
    }
    proof {
        vstd::arithmetic::mul::lemma_mul_inequality(1, end as int, bits as int);
        vstd::arithmetic::mul::lemma_mul_inequality(start as int, end as int, bits as int);
        assert(start as int * bits as int <= end as int * bits as int - 1) by {
            vstd::arithmetic::mul::lemma_mul_inequality(start as int + 1, end as int, bits as int);
            vstd::arithmetic::mul::lemma_mul_is_distributive_add_other_way(
                bits as int,
                start as int,
                1,
            );
        }
    }
    let end_bits = end * bits;
    let last_byte = (end_bits - 1) / 8;
    if last_byte + 1 > u64::MAX - buffer_offset {
        return Err(ExecutionError::RangeOverflow);
    }
    let start_bits = start * bits;
    proof {
        lemma_div_monotone(start_bits as int, (end_bits - 1) as int, 8);
    }
    let first_byte = start_bits / 8;
    Ok(single_range(buffer_offset + first_byte, last_byte + 1 - first_byte))
}

impl PageScheduler {
    /// The row count the strategy knows without decoding.
    pub fn known_row_count(&self) -> (r: Option<u64>)
        ensures
            r == self.spec_known_row_count(),
    {
        match self {
            PageScheduler::Value(v) => {
                if !(v.compression_config.scheme == CompressionScheme::NoCompression) {
                    None
                } else if v.bytes_per_value == 0 {
                    None
                } else {
                    Some(v.buffer_size / v.bytes_per_value)
                }
            },
            _ => None,
        }
    }

    /// Compute which byte ranges rows `[start, end)` need. No I/O happens
    /// here; the plan is handed to the execution runtime.
    pub fn schedule(&self, start: u64, end: u64) -> (r: Result<Vec<(u64, u64)>, ExecutionError>)
        requires
            start <= end,
        ensures
            (match r {
                Ok(v) => self.schedule_spec(start, end) == Ok::<Seq<(u64, u64)>, ExecutionError>(
                    v@,
                ),
                Err(e) => self.schedule_spec(start, end) == Err::<Seq<(u64, u64)>, ExecutionError>(
                    e,
                ),
            }),
        decreases self,
    {
        match self {
            PageScheduler::Value(v) => {
                if !(v.compression_config.scheme == CompressionScheme::NoCompression) {
                    return Ok(single_range(v.buffer_offset, v.buffer_size));
                }
                if v.bytes_per_value == 0 {
                    return Err(ExecutionError::UnexpectedArrayLayout);
                }
                if end > v.buffer_size / v.bytes_per_value {
                    return Err(ExecutionError::RowRangeOutOfBounds);
                }
                proof {
                    lemma_mul_le_iff(end as int, v.bytes_per_value as int, v.buffer_size as int);
                    vstd::arithmetic::mul::lemma_mul_inequality(
                        start as int,
                        end as int,
                        v.bytes_per_value as int,
                    );
                    assert((end - start) * v.bytes_per_value == end * v.bytes_per_value - start
                        * v.bytes_per_value) by {
                        vstd::arithmetic::mul::lemma_mul_is_distributive_sub_other_way(
                            v.bytes_per_value as int,
                            end as int,
                            start as int,
                        );
                    }
                }
                let total = end * v.bytes_per_value;
                if v.buffer_offset > u64::MAX - total {
                    return Err(ExecutionError::RangeOverflow);
                }
                Ok(
                    single_range(
                        v.buffer_offset + start * v.bytes_per_value,
                        (end - start) * v.bytes_per_value,
                    ),
                )
            },
            PageScheduler::DenseBitmap(b) => bit_range(b.buffer_offset, 1, start, end),
            PageScheduler::Bitpacked(bp) => bit_range(
                bp.buffer_offset,
                bp.compressed_bits_per_value,
                start,
                end,
            ),
            PageScheduler::BitpackedForNonNeg(bp) => bit_range(
                bp.buffer_offset,
                bp.compressed_bits_per_value,
                start,
                end,
            ),
            PageScheduler::Basic(b) => match b {
                BasicPageScheduler::NoNulls { values } => values.schedule(start, end),
                BasicPageScheduler::SomeNulls { validity, values } => {
                    let mut plan = match validity.schedule(start, end) {
                        Ok(p) => p,
                        Err(e) => {
                            return Err(e);
                        },
                    };
                    let more = match values.schedule(start, end) {
                        Ok(p) => p,
                        Err(e) => {
                            return Err(e);
                        },
                    };
                    append_ranges(&mut plan, more);
                    Ok(plan)
                },
                BasicPageScheduler::AllNulls => {
                    let v: Vec<(u64, u64)> = Vec::new();
                    proof {
                        assert(v@ =~= Seq::<(u64, u64)>::empty());
                    }
                    Ok(v)
                },
            },
            PageScheduler::FixedList(f) => {
                let d = f.dimension as u64;
                if mul_overflows(end, d) {
                    return Err(ExecutionError::RangeOverflow);
                }
                proof {
                    vstd::arithmetic::mul::lemma_mul_inequality(start as int, end as int, d as int);
                }
                f.items.schedule(start * d, end * d)
            },
            PageScheduler::Binary(b) => {
                let s0: u64 = if start == 0 {
                    0
                } else {
                    start - 1
                };
                let mut plan = match b.indices.schedule(s0, end) {
                    Ok(p) => p,
                    Err(e) => {
                        return Err(e);
                    },
                };
                let n = match b.bytes.known_row_count() {
                    Some(n) => n,
                    None => {
                        return Err(ExecutionError::UnexpectedArrayLayout);
                    },
                };
                let more = match b.bytes.schedule(0, n) {
                    Ok(p) => p,
                    Err(e) => {
                        return Err(e);
                    },
                };
                append_ranges(&mut plan, more);
                Ok(plan)
            },
            PageScheduler::Fsst(f) => f.inner.schedule(start, end),
            PageScheduler::Dictionary(d) => {
                let mut plan = match d.indices.schedule(start, end) {
                    Ok(p) => p,
                    Err(e) => {
                        return Err(e);
                    },
                };
                let more = match d.items.schedule(0, d.num_dictionary_items as u64) {
                    Ok(p) => p,
                    Err(e) => {
                        return Err(e);
                    },
                };
                append_ranges(&mut plan, more);
                Ok(plan)
            },
            PageScheduler::FixedSizeBinary(f) => {
                let w = f.byte_width as u64;
                if mul_overflows(end, w) {
                    return Err(ExecutionError::RangeOverflow);
                }
                proof {
                    vstd::arithmetic::mul::lemma_mul_inequality(start as int, end as int, w as int);
                }
                f.bytes.schedule(start * w, end * w)
            },
            PageScheduler::PackedStruct(p) => {
                let (stride, fits) = checked_sum(&p.field_widths);
                if !fits {
                    // the true stride passes the word bound; any row makes
                    // the plan pass it too
                    if end == 0 {
                        proof {
                            vstd::arithmetic::mul::lemma_mul_by_zero_is_zero(
                                sum_widths(p.field_widths@) as int,
                            );
                        }
                        return Ok(single_range(p.buffer_offset, 0));
                    }
                    proof {
                        vstd::arithmetic::mul::lemma_mul_inequality(
                            1,
                            end as int,
                            sum_widths(p.field_widths@) as int,
                        );
                    }
                    return Err(ExecutionError::RangeOverflow);
                }
                if stride == 0 {
                    proof {
                        vstd::arithmetic::mul::lemma_mul_by_zero_is_zero(end as int);
                        vstd::arithmetic::mul::lemma_mul_by_zero_is_zero(start as int);
                        vstd::arithmetic::mul::lemma_mul_by_zero_is_zero((end - start) as int);
                    }
                    return Ok(single_range(p.buffer_offset, 0));
                }
                if mul_overflows(end, stride) {
                    return Err(ExecutionError::RangeOverflow);
                }
                let total = end * stride;
                if p.buffer_offset > u64::MAX - total {
                    return Err(ExecutionError::RangeOverflow);
                }
                proof {
                    vstd::arithmetic::mul::lemma_mul_inequality(
                        start as int,
                        end as int,
                        stride as int,
                    );
                    assert((end - start) * stride == end * stride - start * stride) by {
                        vstd::arithmetic::mul::lemma_mul_is_distributive_sub_other_way(
                            stride as int,
                            end as int,
                            start as int,
                        );
                    }
                }
                Ok(single_range(p.buffer_offset + start * stride, (end - start) * stride))
            },
        }
    }
}

/// The sum of the widths as a word, with a flag saying whether it fits.
fn checked_sum(widths: &Vec<u64>) -> (r: (u64, bool))
    ensures
        r.1 ==> r.0 as nat == sum_widths(widths@),
        !r.1 ==> sum_widths(widths@) > u64::MAX,
{
    let mut acc: u64 = 0;
    let mut i: usize = 0;
    proof {
        assert(widths@.skip(0) =~= widths@);
    }
    while i < widths.len()
        invariant
            i <= widths@.len(),
            sum_widths(widths@) == acc + sum_widths(widths@.skip(i as int)),
        decreases widths@.len() - i,
    {
        let w = widths[i];
        proof {
            let suffix = widths@.skip(i as int);
            assert(suffix[0] == widths@[i as int]);
            assert(suffix.drop_first() =~= widths@.skip(i + 1));
            assert(sum_widths(suffix) == w + sum_widths(widths@.skip(i + 1)));
        }
        if w > u64::MAX - acc {
            proof {
                lemma_sum_widths_nonneg(widths@.skip(i + 1));
            }
            return (0, false);
        }
        acc = acc + w;
        i = i + 1;
    }
    proof {
        assert(widths@.skip(i as int).len() == 0);
    }
    (acc, true)
}

/// A widths sum is never negative (it is a count of bytes).
pub proof fn lemma_sum_widths_nonneg(widths: Seq<u64>)
    ensures
        sum_widths(widths) >= 0,
{
}

/// Whether the fetched data covers everything the strategy's plan for the
/// row range names.
pub open spec fn covered(
    s: PageScheduler,
    fd: &crate::fetched::FetchedData,
    start: u64,
    end: u64,
) -> bool {
    match s.schedule_spec(start, end) {
        Ok(rs) => fd.covers_all(rs),
        Err(_) => false,
    }
}

/// Covering a concatenated plan covers both halves.
pub proof fn lemma_covers_all_concat(
    fd: &crate::fetched::FetchedData,
    a: Seq<(u64, u64)>,
    b: Seq<(u64, u64)>,
)
    requires
        fd.covers_all(a + b),
    ensures
        fd.covers_all(a),
        fd.covers_all(b),
{
    assert forall|j: int| 0 <= j < a.len() implies fd.covers(
        (#[trigger] a[j]).0,
        a[j].1,
    ) by {
        assert((a + b)[j] == a[j]);
        assert(fd.covers((a + b)[j].0, (a + b)[j].1));
    }
    assert forall|j: int| 0 <= j < b.len() implies fd.covers(
        (#[trigger] b[j]).0,
        b[j].1,
    ) by {
        assert((a + b)[a.len() + j] == b[j]);
        assert(fd.covers((a + b)[a.len() + j].0, (a + b)[a.len() + j].1));
    }
}

/// The bytes between two positions, copied out.
fn copy_range(data: &Vec<u8>, a: usize, b: usize) -> (r: Vec<u8>)
    requires
        a <= b <= data@.len(),
    ensures
        r@ == data@.subrange(a as int, b as int),
{
    let mut out: Vec<u8> = Vec::new();
    let mut i: usize = a;
    while i < b
        invariant
            a <= i <= b <= data@.len(),
            out@ =~= data@.subrange(a as int, i as int),
        decreases b - i,
    {
        proof {
            assert(data@.subrange(a as int, i as int).push(data@[i as int]) =~= data@.subrange(
                a as int,
                i + 1,
            ));
        }
        out.push(data[i]);
        i = i + 1;
    }
    proof {
        assert(out@ =~= data@.subrange(a as int, b as int));
    }
    out
}

/// The unsigned integers a fixed-width array holds, one per row.
#[verifier::loop_isolation(false)]
fn as_u64s(arr: &DecodedArray) -> (r: Result<Vec<u64>, ExecutionError>)
    ensures
        (match r {
            Ok(v) => model_as_u64s(arr@) == Ok::<Seq<u64>, ExecutionError>(v@),
            Err(e) => model_as_u64s(arr@) == Err::<Seq<u64>, ExecutionError>(e),
        }),
{
    match arr {
        DecodedArray::Fixed { bytes_per_value, data } => {
            let bpv = *bytes_per_value;
            if !(bpv == 1 || bpv == 2 || bpv == 4 || bpv == 8) {
                return Err(ExecutionError::UnexpectedArrayLayout);
            }
            let bpvu = bpv as usize;
            if data.len() % bpvu != 0 {
                return Err(ExecutionError::UnexpectedArrayLayout);
            }
            let n = data.len() / bpvu;
            let data_len: usize = data.len();
            proof {
                vstd::arithmetic::div_mod::lemma_fundamental_div_mod(
                    data@.len() as int,
                    bpvu as int,
                );
                vstd::arithmetic::mul::lemma_mul_is_commutative(
                    bpvu as int,
                    (data@.len() as int) / (bpvu as int),
                );
            }
            let mut out: Vec<u64> = Vec::new();
            let mut i: usize = 0;
            while i < n
                invariant
                    bpvu == bpv,
                    (bpv == 1 || bpv == 2 || bpv == 4 || bpv == 8),
                    n == (data@.len() as int) / (bpvu as int),
                    n * bpvu == data@.len(),
                    data@.len() == data_len,
                    i <= n,
                    out@.len() == i as nat,
                    forall|j: int|
                        0 <= j < i as int ==> out@[j] == le_value(
                            data@.subrange(j * (bpv as int), (j + 1) * (bpv as int)),
                        ) as u64,
                decreases n - i,
            {
                proof {
                    vstd::arithmetic::mul::lemma_mul_inequality(
                        i as int + 1,
                        n as int,
                        bpvu as int,
                    );
                    vstd::arithmetic::mul::lemma_mul_is_distributive_add_other_way(
                        bpvu as int,
                        i as int,
                        1,
                    );
                }
                let v = crate::bits::read_le_u64(data, i * bpvu, bpvu);
                out.push(v);
                i = i + 1;
            }
            proof {
                let expected = Seq::new(
                    ((data@.len() as int) / (bpv as int)) as nat,
                    |j: int|
                        le_value(data@.subrange(j * (bpv as int), (j + 1) * (bpv as int))) as u64,
                );
                assert(out@ =~= expected);
            }
            Ok(out)
        },
        _ => Err(ExecutionError::UnexpectedArrayLayout),
    }
}

/// The rows of `items` at the given indices, in order: the materialization
/// of a dictionary through its decoded indices.
#[verifier::loop_isolation(false)]
fn take_rows(items: &DecodedArray, idxs: &Vec<u64>) -> (r: Result<DecodedArray, ExecutionError>)
    ensures
        decode_result_matches(r, model_take(items@, idxs@)),
    decreases items,
{
    match items {
        DecodedArray::Fixed { bytes_per_value, data } => {
            let bpv = *bytes_per_value;
            if bpv == 0 {
                return Err(ExecutionError::UnexpectedArrayLayout);
            }
            let data_len: usize = data.len();
            if (data_len as u64) % bpv != 0 {
                return Err(ExecutionError::UnexpectedArrayLayout);
            }
            let rows = (data_len as u64) / bpv;
            proof {
                vstd::arithmetic::div_mod::lemma_fundamental_div_mod(
                    data@.len() as int,
                    bpv as int,
                );
                vstd::arithmetic::mul::lemma_mul_is_commutative(
                    bpv as int,
                    (data@.len() as int) / (bpv as int),
                );
            }
            let mut out: Vec<u8> = Vec::new();
            let mut i: usize = 0;
            while i < idxs.len()
                invariant
                    bpv >= 1,
                    rows == (data@.len() as int) / (bpv as int),
                    (rows as int) * (bpv as int) == data@.len(),
                    data@.len() == data_len,
                    i <= idxs@.len(),
                    forall|j: int| 0 <= j < i as int ==> (#[trigger] idxs@[j]) < rows,
                    out@.len() == i as nat * bpv as nat,
                    forall|j: int|
                        0 <= j < out@.len() ==> out@[j] == data@[(idxs@[j / (bpv as int)] as int)
                            * (bpv as int) + (j % (bpv as int))],
                decreases idxs@.len() - i,
            {
                let idx = idxs[i];
                if idx >= rows {
                    proof {
                        assert(0 <= (i as int) < idxs@.len() && (#[trigger] idxs@[i as int])
                            >= (data@.len() as int) / (bpv as int));
                    }
                    return Err(ExecutionError::DictionaryIndexOutOfBounds);
                }
                proof {
                    vstd::arithmetic::mul::lemma_mul_inequality(
                        idx as int + 1,
                        rows as int,
                        bpv as int,
                    );
                    vstd::arithmetic::mul::lemma_mul_is_distributive_add_other_way(
                        bpv as int,
                        idx as int,
                        1,
                    );
                }
                let base: u64 = idx * bpv;
                let mut k: u64 = 0;
                while k < bpv
                    invariant
                        bpv >= 1,
                        rows == (data@.len() as int) / (bpv as int),
                        (rows as int) * (bpv as int) == data@.len(),
                        data@.len() == data_len,
                        i < idxs@.len(),
                        idx == idxs@[i as int],
                        idx < rows,
                        base == idx * bpv,
                        base + bpv <= data@.len(),
                        k <= bpv,
                        forall|j: int| 0 <= j < i as int ==> (#[trigger] idxs@[j]) < rows,
                        out@.len() == i as nat * bpv as nat + k as nat,
                        forall|j: int|
                            0 <= j < i as int * bpv as int ==> out@[j] == data@[(idxs@[j / (
                            bpv as int)] as int) * (bpv as int) + (j % (bpv as int))],
                        forall|j: int|
                            i as int * bpv as int <= j < out@.len() ==> out@[j] == data@[base + (j
                                - i as int * bpv as int)],
                    decreases bpv - k,
                {
                    out.push(data[(base + k) as usize]);
                    k = k + 1;
                }
                proof {
                    assert forall|j: int|
                        i as int * bpv as int <= j < (i + 1) * bpv as int implies out@[j] == data@[(
                    idxs@[j / (bpv as int)] as int) * (bpv as int) + (j % (bpv as int))] by {
                        vstd::arithmetic::mul::lemma_mul_is_distributive_add_other_way(
                            bpv as int,
                            i as int,
                            1,
                        );
                        vstd::arithmetic::mul::lemma_mul_is_commutative(bpv as int, i as int);
                        assert(j == (i as int) * (bpv as int) + (j - i as int * bpv as int));
                        vstd::arithmetic::div_mod::lemma_fundamental_div_mod_converse(
                            j,
                            bpv as int,
                            i as int,
                            j - i as int * bpv as int,
                        );
                    }
                    vstd::arithmetic::mul::lemma_mul_is_distributive_add_other_way(
                        bpv as int,
                        i as int,
                        1,
                    );
                }
                i = i + 1;
            }
            proof {
                let expected = Seq::new(
                    (idxs@.len() * bpv as nat) as nat,
                    |j: int|
                        data@[(idxs@[j / (bpv as int)] as int) * (bpv as int) + (j % (
                        bpv as int))],
                );
                assert(out@ =~= expected);
            }
            Ok(DecodedArray::Fixed { bytes_per_value: bpv, data: out })
        },
        DecodedArray::Boolean { values } => {
            let mut out: Vec<bool> = Vec::new();
            let mut i: usize = 0;
            while i < idxs.len()
                invariant
                    i <= idxs@.len(),
                    out@.len() == i as nat,
                    forall|j: int| 0 <= j < i as int ==> (#[trigger] idxs@[j]) < values@.len(),
                    forall|j: int|
                        0 <= j < i as int ==> out@[j] == values@[idxs@[j] as int],
                decreases idxs@.len() - i,
            {
                let idx = idxs[i];
                if idx >= values.len() as u64 {
                    proof {
                        assert(0 <= (i as int) < idxs@.len() && (#[trigger] idxs@[i as int])
                            >= values@.len());
                    }
                    return Err(ExecutionError::DictionaryIndexOutOfBounds);
                }
                out.push(values[idx as usize]);
                i = i + 1;
            }
            proof {
                assert(out@ =~= Seq::new(idxs@.len(), |j: int| values@[idxs@[j] as int]));
            }
            Ok(DecodedArray::Boolean { values: out })
        },
        DecodedArray::VarBin { values } => {
            let mut out: Vec<Option<Vec<u8>>> = Vec::new();
            let mut i: usize = 0;
            while i < idxs.len()
                invariant
                    i <= idxs@.len(),
                    out@.len() == i as nat,
                    forall|j: int| 0 <= j < i as int ==> (#[trigger] idxs@[j]) < values@.len(),
                    forall|j: int|
                        0 <= j < i as int ==> var_bin_views(out@)[j] == var_bin_views(values@)[
                            idxs@[j] as int
                        ],
                decreases idxs@.len() - i,
            {
                let idx = idxs[i];
                if idx >= values.len() as u64 {
                    proof {
                        assert(0 <= (i as int) < idxs@.len() && (#[trigger] idxs@[i as int])
                            >= var_bin_views(values@).len());
                    }
                    return Err(ExecutionError::DictionaryIndexOutOfBounds);
                }
                let row: Option<Vec<u8>> = match &values[idx as usize] {
                    Some(b) => {
                        let c = copy_range(b, 0, b.len());
                        proof {
                            assert(c@ =~= b@);
                        }
                        Some(c)
                    },
                    None => None,
                };
                proof {
                    assert((match row {
                        Some(c) => Some(c@),
                        None => None::<Seq<u8>>,
                    }) == (match values@[idx as int] {
                        Some(b) => Some(b@),
                        None => None::<Seq<u8>>,
                    }));
                }
                let ghost prev_out = out@;
                out.push(row);
                proof {
                    assert forall|j: int| 0 <= j < i as int + 1 implies var_bin_views(out@)[j]
                        == var_bin_views(values@)[idxs@[j] as int] by {
                        assert(var_bin_views(out@)[j] == (match out@[j] {
                            Some(c) => Some(c@),
                            None => None::<Seq<u8>>,
                        }));
                        assert(var_bin_views(values@)[idxs@[j] as int] == (match values@[idxs@[j] as int] {
                            Some(c) => Some(c@),
                            None => None::<Seq<u8>>,
                        }));
                        if j < i as int {
                            assert(out@[j] == prev_out[j]);
                            assert(var_bin_views(prev_out)[j] == (match prev_out[j] {
                                Some(c) => Some(c@),
                                None => None::<Seq<u8>>,
                            }));
                        } else {
                            assert(out@[j] == row);
                        }
                    }
                }
                i = i + 1;
            }
            proof {
                assert(var_bin_views(out@) =~= Seq::new(
                    idxs@.len(),
                    |j: int| var_bin_views(values@)[idxs@[j] as int],
                ));
                assert(Seq::new(idxs@.len(), |j: int| var_bin_views(values@)[idxs@[j] as int])
                    =~= Seq::new(
                    idxs@.len(),
                    |j: int|
                        match values@[idxs@[j] as int] {
                            Some(b) => Some(b@),
                            None => None,
                        },
                ));
            }
            Ok(DecodedArray::VarBin { values: out })
        },
        DecodedArray::AllNull { num_rows } => {
            let mut i: usize = 0;
            while i < idxs.len()
                invariant
                    i <= idxs@.len(),
                    forall|j: int| 0 <= j < i as int ==> (#[trigger] idxs@[j]) < *num_rows,
                decreases idxs@.len() - i,
            {
                if idxs[i] >= *num_rows {
                    proof {
                        assert(0 <= (i as int) < idxs@.len() && (#[trigger] idxs@[i as int])
                            >= *num_rows as nat);
                    }
                    return Err(ExecutionError::DictionaryIndexOutOfBounds);
                }
                i = i + 1;
            }
            Ok(DecodedArray::AllNull { num_rows: idxs.len() as u64 })
        },
        DecodedArray::Nullable { validity, values } => {
            let mut out_validity: Vec<bool> = Vec::new();
            let mut i: usize = 0;
            while i < idxs.len()
                invariant
                    i <= idxs@.len(),
                    out_validity@.len() == i as nat,
                    forall|j: int| 0 <= j < i as int ==> (#[trigger] idxs@[j]) < validity@.len(),
                    forall|j: int|
                        0 <= j < i as int ==> out_validity@[j] == validity@[idxs@[j] as int],
                decreases idxs@.len() - i,
            {
                let idx = idxs[i];
                if idx >= validity.len() as u64 {
                    proof {
                        assert(0 <= (i as int) < idxs@.len() && (#[trigger] idxs@[i as int])
                            >= validity@.len());
                    }
                    return Err(ExecutionError::DictionaryIndexOutOfBounds);
                }
                out_validity.push(validity[idx as usize]);
                i = i + 1;
            }
            let taken = match take_rows(values, idxs) {
                Ok(t) => t,
                Err(e) => {
                    return Err(e);
                },
            };
            proof {
                assert(out_validity@ =~= Seq::new(
                    idxs@.len(),
                    |j: int| validity@[idxs@[j] as int],
                ));
            }
            Ok(DecodedArray::Nullable { validity: out_validity, values: Box::new(taken) })
        },
        _ => Err(ExecutionError::UnexpectedArrayLayout),
    }
}

/// The byte sequences of a vector of symbols.
pub open spec fn syms_views(syms: Seq<Vec<u8>>) -> Seq<Seq<u8>> {
    syms.map_values(|v: Vec<u8>| v@)
}

/// Parse an inline symbol table.
#[verifier::loop_isolation(false)]
fn parse_symbol_table_exec(table: &Vec<u8>) -> (r: Option<Vec<Vec<u8>>>)
    ensures
        (match r {
            Some(v) => parse_symbol_table(table@) == Some(syms_views(v@)),
            None => parse_symbol_table(table@) is None,
        }),
{
    if table.len() < 1 {
        return None;
    }
    let n = table[0];
    if n == 255 {
        return None;
    }
    let mut out: Vec<Vec<u8>> = Vec::new();
    let mut pos: usize = 1;
    let mut left: u8 = n;
    proof {
        assert(table@.skip(1) =~= table@.drop_first());
        assert(syms_views(out@) =~= Seq::<Seq<u8>>::empty());
    }
    while left > 0
        invariant
            1 <= pos <= table@.len(),
            left <= n,
            ({
                let top = parse_symbol_entries(table@.drop_first(), n as nat);
                match parse_symbol_entries(table@.skip(pos as int), left as nat) {
                    Some(rest) => top == Some(syms_views(out@) + rest),
                    None => top is None,
                }
            }),
        decreases left,
    {
        let ghost suffix = table@.skip(pos as int);
        if table.len() - pos < 1 {
            return None;
        }
        let l = table[pos];
        proof {
            assert(suffix[0] == table@[pos as int]);
        }
        if l < 1 || l > 8 {
            return None;
        }
        if table.len() - pos - 1 < l as usize {
            proof {
                assert(suffix.len() < 1 + l);
            }
            return None;
        }
        let sym = copy_range(table, pos + 1, pos + 1 + l as usize);
        proof {
            assert(suffix.skip(1 + l as int) =~= table@.skip(pos + 1 + l as int));
            assert(suffix.subrange(1, 1 + l as int) =~= table@.subrange(
                pos + 1,
                pos + 1 + l as int,
            ));
            assert(sym@ == suffix.subrange(1, 1 + l as int));
            match parse_symbol_entries(table@.skip(pos + 1 + l as int), (left - 1) as nat) {
                Some(rest2) => {
                    assert(parse_symbol_entries(suffix, left as nat) == Some(
                        seq![sym@] + rest2,
                    ));
                    assert(syms_views(out@.push(sym)) =~= syms_views(out@).push(sym@));
                    assert(syms_views(out@) + (seq![sym@] + rest2) =~= syms_views(out@).push(sym@)
                        + rest2);
                },
                None => {
                    assert(parse_symbol_entries(suffix, left as nat) is None);
                },
            }
        }
        out.push(sym);
        pos = pos + 1 + l as usize;
        left = left - 1;
    }
    if pos != table.len() {
        proof {
            assert(table@.skip(pos as int).len() != 0);
        }
        return None;
    }
    proof {
        assert(table@.skip(pos as int).len() == 0);
        assert(syms_views(out@) + Seq::<Seq<u8>>::empty() =~= syms_views(out@));
    }
    Some(out)
}

/// Expand one compressed value through the symbol table.
#[verifier::loop_isolation(false)]
fn fsst_expand_exec(syms: &Vec<Vec<u8>>, input: &Vec<u8>) -> (r: Option<Vec<u8>>)
    ensures
        (match r {
            Some(v) => fsst_expand(syms_views(syms@), input@) == Some(v@),
            None => fsst_expand(syms_views(syms@), input@) is None,
        }),
{
    let mut out: Vec<u8> = Vec::new();
    let mut pos: usize = 0;
    proof {
        assert(input@.skip(0) =~= input@);
        assert(out@ =~= Seq::<u8>::empty());
    }
    while pos < input.len()
        invariant
            pos <= input@.len(),
            ({
                let top = fsst_expand(syms_views(syms@), input@);
                match fsst_expand(syms_views(syms@), input@.skip(pos as int)) {
                    Some(rest) => top == Some(out@ + rest),
                    None => top is None,
                }
            }),
        decreases input@.len() - pos,
    {
        let ghost suffix = input@.skip(pos as int);
        proof {
            assert(suffix[0] == input@[pos as int]);
        }
        let b = input[pos];
        if b == 255 {
            if input.len() - pos < 2 {
                proof {
                    assert(suffix.len() < 2);
                }
                return None;
            }
            let lit = input[pos + 1];
            proof {
                assert(suffix[1] == input@[pos + 1]);
                assert(suffix.skip(2) =~= input@.skip(pos + 2));
                match fsst_expand(syms_views(syms@), input@.skip(pos + 2)) {
                    Some(rest2) => {
                        assert(fsst_expand(syms_views(syms@), suffix) == Some(
                            seq![suffix[1]] + rest2,
                        ));
                        assert(out@ + (seq![suffix[1]] + rest2) =~= out@.push(lit) + rest2);
                    },
                    None => {},
                }
            }
            out.push(lit);
            pos = pos + 2;
        } else {
            let c = b as usize;
            if c >= syms.len() {
                return None;
            }
            let sym = &syms[c];
            proof {
                assert(syms_views(syms@)[c as int] == sym@);
                assert(suffix.drop_first() =~= input@.skip(pos + 1));
                match fsst_expand(syms_views(syms@), input@.skip(pos + 1)) {
                    Some(rest2) => {
                        assert(fsst_expand(syms_views(syms@), suffix) == Some(sym@ + rest2));
                        assert(out@ + (sym@ + rest2) =~= (out@ + sym@) + rest2);
                    },
                    None => {},
                }
            }
            let mut k: usize = 0;
            let ghost prev_out = out@;
            while k < sym.len()
                invariant
                    k <= sym@.len(),
                    out@ =~= prev_out + sym@.subrange(0, k as int),
                decreases sym@.len() - k,
            {
                proof {
                    assert(prev_out + sym@.subrange(0, k + 1) =~= (prev_out + sym@.subrange(
                        0,
                        k as int,
                    )).push(sym@[k as int]));
                }
                out.push(sym[k]);
                k = k + 1;
            }
            proof {
                assert(sym@.subrange(0, sym@.len() as int) =~= sym@);
            }
            pos = pos + 1;
        }
    }
    proof {
        assert(input@.skip(pos as int).len() == 0);
        assert(out@ + Seq::<u8>::empty() =~= out@);
    }
    Some(out)
}

/// Whether the plan covers the one range a single-buffer strategy reads.
pub proof fn lemma_single_covered(fd: &crate::fetched::FetchedData, rs: Seq<(u64, u64)>, j: int)
    requires
        fd.covers_all(rs),
        0 <= j < rs.len(),
    ensures
        fd.covers(rs[j].0, rs[j].1),
{
    assert(fd.covers((#[trigger] rs[j]).0, rs[j].1));
}

/// Decode fixed-width values: the fetched bytes, passed through the codec,
/// reinterpreted as rows of `bytes_per_value` bytes.
fn decode_value(
    v: &crate::scheduler::ValuePageScheduler,
    fd: &crate::fetched::FetchedData,
    start: u64,
    end: u64,
) -> (r: Result<DecodedArray, ExecutionError>)
    requires
        fd.wf(),
        start <= end,
    ensures
        forall|file: Seq<u8>|
            (#[trigger] fd.agrees_with(file)) && covered(
                PageScheduler::Value(*v),
                fd,
                start,
                end,
            ) ==> decode_result_matches(
                r,
                PageScheduler::Value(*v).decoded_spec(file, start as int, end as int),
            ),
{
    let ghost me = PageScheduler::Value(*v);
    if !(v.compression_config.scheme == CompressionScheme::NoCompression) {
        let block = match fd.get(v.buffer_offset, v.buffer_size) {
            Ok(c) => c,
            Err(e) => {
                proof {
                    assert forall|file: Seq<u8>|
                        (#[trigger] fd.agrees_with(file)) && covered(me, fd, start, end)
                            implies false by {
                        let rs = me.schedule_spec(start, end)->Ok_0;
                        lemma_single_covered(fd, rs, 0);
                    }
                }
                return Err(e);
            },
        };
        match v.compression_config.decode_block(block) {
            Ok(_) => {
                // the `none` scheme is the only embedded codec, and it was
                // ruled out above
                proof {
                    assert(false);
                }
                Err(ExecutionError::NoEmbeddedCodec)
            },
            Err(e) => Err(e),
        }
    } else {
        if v.bytes_per_value == 0 {
            return Err(ExecutionError::UnexpectedArrayLayout);
        }
        if end > v.buffer_size / v.bytes_per_value {
            return Err(ExecutionError::RowRangeOutOfBounds);
        }
        proof {
            lemma_mul_le_iff(end as int, v.bytes_per_value as int, v.buffer_size as int);
            vstd::arithmetic::mul::lemma_mul_inequality(
                start as int,
                end as int,
                v.bytes_per_value as int,
            );
            vstd::arithmetic::mul::lemma_mul_is_distributive_sub_other_way(
                v.bytes_per_value as int,
                end as int,
                start as int,
            );
        }
        let total = end * v.bytes_per_value;
        if v.buffer_offset > u64::MAX - total {
            return Err(ExecutionError::RangeOverflow);
        }
        let begin = v.buffer_offset + start * v.bytes_per_value;
        let len = (end - start) * v.bytes_per_value;
        let chunk = match fd.get(begin, len) {
            Ok(c) => c,
            Err(e) => {
                proof {
                    assert forall|file: Seq<u8>|
                        (#[trigger] fd.agrees_with(file)) && covered(me, fd, start, end)
                            implies false by {
                        let rs = me.schedule_spec(start, end)->Ok_0;
                        lemma_single_covered(fd, rs, 0);
                    }
                }
                return Err(e);
            },
        };
        let data = match v.compression_config.decode_block(chunk) {
            Ok(d) => d,
            Err(_) => {
                proof {
                    assert(false);
                }
                return Err(ExecutionError::NoEmbeddedCodec);
            },
        };
        let res = DecodedArray::Fixed { bytes_per_value: v.bytes_per_value, data };
        proof {
            assert forall|file: Seq<u8>|
                (#[trigger] fd.agrees_with(file)) && covered(me, fd, start, end)
                    implies decode_result_matches(
                Ok::<DecodedArray, ExecutionError>(res),
                me.decoded_spec(file, start as int, end as int),
            ) by {
                assert(res@->Fixed_data =~= file.subrange(
                    v.buffer_offset + start as int * v.bytes_per_value as int,
                    v.buffer_offset + end as int * v.bytes_per_value as int,
                ));
            }
        }
        Ok(res)
    }
}

/// Decode a packed boolean bitmap: one boolean per row, read bit by bit.
#[verifier::loop_isolation(false)]
fn decode_bitmap(
    bm: &crate::scheduler::DenseBitmapScheduler,
    fd: &crate::fetched::FetchedData,
    start: u64,
    end: u64,
) -> (r: Result<DecodedArray, ExecutionError>)
    requires
        fd.wf(),
        start <= end,
    ensures
        forall|file: Seq<u8>|
            (#[trigger] fd.agrees_with(file)) && covered(
                PageScheduler::DenseBitmap(*bm),
                fd,
                start,
                end,
            ) ==> decode_result_matches(
                r,
                PageScheduler::DenseBitmap(*bm).decoded_spec(file, start as int, end as int),
            ),
{
    let ghost me = PageScheduler::DenseBitmap(*bm);
    proof {
        vstd::arithmetic::mul::lemma_mul_basics(start as int);
        vstd::arithmetic::mul::lemma_mul_basics(end as int);
    }
    if start == end {
        let res = DecodedArray::Boolean { values: Vec::new() };
        proof {
            assert(res@->Boolean_values =~= Seq::new(
                0nat,
                |i: int| file_bit(Seq::<u8>::empty(), 0, 0),
            ));
            assert forall|file: Seq<u8>|
                (#[trigger] fd.agrees_with(file)) && covered(me, fd, start, end)
                    implies decode_result_matches(
                Ok::<DecodedArray, ExecutionError>(res),
                me.decoded_spec(file, start as int, end as int),
            ) by {
                assert(res@->Boolean_values =~= Seq::new(
                    (end - start) as nat,
                    |i: int| file_bit(file, bm.buffer_offset as int, start + i),
                ));
            }
        }
        return Ok(res);
    }
    let first_byte = start / 8;
    let last_byte = (end - 1) / 8;
    proof {
        lemma_div_monotone(start as int, (end - 1) as int, 8);
    }
    if last_byte + 1 > u64::MAX - bm.buffer_offset {
        return Err(ExecutionError::RangeOverflow);
    }
    let len_bytes = last_byte + 1 - first_byte;
    let chunk = match fd.get(bm.buffer_offset + first_byte, len_bytes) {
        Ok(c) => c,
        Err(e) => {
            proof {
                assert forall|file: Seq<u8>|
                    (#[trigger] fd.agrees_with(file)) && covered(me, fd, start, end)
                        implies false by {
                    let rs = me.schedule_spec(start, end)->Ok_0;
                    lemma_single_covered(fd, rs, 0);
                }
            }
            return Err(e);
        },
    };
    let count = end - start;
    let mut out: Vec<bool> = Vec::new();
    let mut i: u64 = 0;
    while i < count
        invariant
            i <= count,
            out@.len() == i as nat,
            chunk@.len() == len_bytes,
            forall|j: int|
                0 <= j < i as int ==> out@[j] == file_bit(
                    chunk@,
                    -(first_byte as int),
                    start + j,
                ),
        decreases count - i,
    {
        let g = start + i;
        proof {
            lemma_div_monotone(start as int, g as int, 8);
            lemma_div_monotone(g as int, (end - 1) as int, 8);
            vstd::arithmetic::div_mod::lemma_mod_bound(g as int, 8);
        }
        let byte_idx = (g / 8 - first_byte) as usize;
        let shift = (g % 8) as u8;
        let bit = (chunk[byte_idx] / crate::bits::pow2_u8(shift)) % 2 == 1;
        proof {
            assert(file_bit(chunk@, -(first_byte as int), g as int) == ((chunk@[g as int / 8
                - first_byte as int] as nat) / pow2((g as int % 8) as nat) % 2 == 1));
        }
        out.push(bit);
        i = i + 1;
    }
    let res = DecodedArray::Boolean { values: out };
    proof {
        assert forall|file: Seq<u8>|
            (#[trigger] fd.agrees_with(file)) && covered(me, fd, start, end)
                implies decode_result_matches(
            Ok::<DecodedArray, ExecutionError>(res),
            me.decoded_spec(file, start as int, end as int),
        ) by {
            let rs = me.schedule_spec(start, end)->Ok_0;
            lemma_single_covered(fd, rs, 0);
            assert(chunk@ == file.subrange(
                bm.buffer_offset + first_byte as int,
                bm.buffer_offset + first_byte as int + len_bytes as int,
            ));
            assert forall|j: int| 0 <= j < count as int implies out@[j] == file_bit(
                file,
                bm.buffer_offset as int,
                start + j,
            ) by {
                let g = start as int + j;
                lemma_div_monotone(start as int, g, 8);
                lemma_div_monotone(g, (end - 1) as int, 8);
                assert(chunk@[g / 8 - first_byte as int] == file[bm.buffer_offset + g / 8]);
            }
            assert(res@->Boolean_values =~= Seq::new(
                (end - start) as nat,
                |j: int| file_bit(file, bm.buffer_offset as int, start + j),
            ));
        }
    }
    Ok(res)
}

/// Decode a nullable wrapper.
fn decode_basic(
    b: &BasicPageScheduler,
    fd: &crate::fetched::FetchedData,
    start: u64,
    end: u64,
) -> (r: Result<DecodedArray, ExecutionError>)
    requires
        fd.wf(),
        start <= end,
    ensures
        forall|file: Seq<u8>|
            (#[trigger] fd.agrees_with(file)) && covered(
                PageScheduler::Basic(*b),
                fd,
                start,
                end,
            ) ==> decode_result_matches(
                r,
                PageScheduler::Basic(*b).decoded_spec(file, start as int, end as int),
            ),
    decreases b,
{
    let ghost me = PageScheduler::Basic(*b);
    match b {
        BasicPageScheduler::NoNulls { values } => values.decode(fd, start, end),
        BasicPageScheduler::SomeNulls { validity, values } => {
            proof {
                if covered(me, fd, start, end) {
                    let a = validity.schedule_spec(start, end)->Ok_0;
                    let c = values.schedule_spec(start, end)->Ok_0;
                    lemma_covers_all_concat(fd, a, c);
                }
            }
            let v_arr = match validity.decode(fd, start, end) {
                Ok(a) => a,
                Err(e) => {
                    return Err(e);
                },
            };
            let w_arr = match values.decode(fd, start, end) {
                Ok(a) => a,
                Err(e) => {
                    return Err(e);
                },
            };
            let bits = match v_arr {
                DecodedArray::Boolean { values: bits } => bits,
                _ => {
                    return Err(ExecutionError::UnexpectedArrayLayout);
                },
            };
            if bits.len() as u64 != end - start {
                return Err(ExecutionError::UnexpectedArrayLayout);
            }
            let wrows = w_arr.row_count();
            if wrows != end - start {
                return Err(ExecutionError::UnexpectedArrayLayout);
            }
            Ok(DecodedArray::Nullable { validity: bits, values: Box::new(w_arr) })
        },
        BasicPageScheduler::AllNulls => Ok(DecodedArray::AllNull { num_rows: end - start }),
    }
}

/// Decode a fixed-size list: decode the item rows and expose them in groups
/// of `dimension`.
fn decode_fixed_list(
    f: &crate::scheduler::FixedListScheduler,
    fd: &crate::fetched::FetchedData,
    start: u64,
    end: u64,
) -> (r: Result<DecodedArray, ExecutionError>)
    requires
        fd.wf(),
        start <= end,
    ensures
        forall|file: Seq<u8>|
            (#[trigger] fd.agrees_with(file)) && covered(
                PageScheduler::FixedList(*f),
                fd,
                start,
                end,
            ) ==> decode_result_matches(
                r,
                PageScheduler::FixedList(*f).decoded_spec(file, start as int, end as int),
            ),
    decreases f,
{
    let ghost me = PageScheduler::FixedList(*f);
    let d = f.dimension as u64;
    if mul_overflows(end, d) {
        return Err(ExecutionError::RangeOverflow);
    }
    proof {
        vstd::arithmetic::mul::lemma_mul_inequality(start as int, end as int, d as int);
        vstd::arithmetic::mul::lemma_mul_inequality((end - start) as int, end as int, d as int);
    }
    let inner = match f.items.decode(fd, start * d, end * d) {
        Ok(a) => a,
        Err(e) => {
            return Err(e);
        },
    };
    let rc = inner.row_count();
    if rc != (end - start) * d {
        return Err(ExecutionError::UnexpectedArrayLayout);
    }
    Ok(DecodedArray::FixedSizeListArray { dimension: d, items: Box::new(inner) })
}

/// Decode a symbol-compressed page: decode the inner binary rows, then
/// expand each defined row through the symbol table.
#[verifier::loop_isolation(false)]
fn decode_fsst(
    f: &crate::scheduler::FsstPageScheduler,
    fd: &crate::fetched::FetchedData,
    start: u64,
    end: u64,
) -> (r: Result<DecodedArray, ExecutionError>)
    requires
        fd.wf(),
        start <= end,
    ensures
        forall|file: Seq<u8>|
            (#[trigger] fd.agrees_with(file)) && covered(
                PageScheduler::Fsst(*f),
                fd,
                start,
                end,
            ) ==> decode_result_matches(
                r,
                PageScheduler::Fsst(*f).decoded_spec(file, start as int, end as int),
            ),
    decreases f,
{
    let ghost me = PageScheduler::Fsst(*f);
    let inner = match f.inner.decode(fd, start, end) {
        Ok(a) => a,
        Err(e) => {
            return Err(e);
        },
    };
    let vals = match inner {
        DecodedArray::VarBin { values } => values,
        _ => {
            return Err(ExecutionError::UnexpectedArrayLayout);
        },
    };
    let syms = match parse_symbol_table_exec(&f.symbol_table) {
        Some(sy) => sy,
        None => {
            return Err(ExecutionError::CorruptSymbolTable);
        },
    };
    let ghost sv = syms_views(syms@);
    let ghost views = var_bin_views(vals@);
    let mut out: Vec<Option<Vec<u8>>> = Vec::new();
    let mut i: usize = 0;
    while i < vals.len()
        invariant
            i <= vals@.len(),
            out@.len() == i as nat,
            forall|j: int|
                0 <= j < i as int ==> ((#[trigger] fsst_expand_row(sv, views[j])) matches Some(x)
                    && var_bin_views(out@)[j] == x),
        decreases vals@.len() - i,
    {
        let row: Option<Vec<u8>> = match &vals[i] {
            None => None,
            Some(bytes) => match fsst_expand_exec(&syms, bytes) {
                Some(x) => Some(x),
                None => {
                    proof {
                        assert(views[i as int] == Some(bytes@));
                        assert(fsst_expand_row(sv, views[i as int]) is None);
                    }
                    return Err(ExecutionError::CorruptSymbolTable);
                },
            },
        };
        let ghost prev_out = out@;
        out.push(row);
        proof {
            assert(views[i as int] == (match vals@[i as int] {
                Some(bb) => Some(bb@),
                None => None::<Seq<u8>>,
            }));
            assert(var_bin_views(out@)[i as int] == (match row {
                Some(bb) => Some(bb@),
                None => None::<Seq<u8>>,
            }));
            assert forall|j: int| 0 <= j < i as int implies ((#[trigger] fsst_expand_row(
                sv,
                views[j],
            )) matches Some(x) && var_bin_views(out@)[j] == x) by {
                assert(out@[j] == prev_out[j]);
                assert(var_bin_views(prev_out)[j] == (match prev_out[j] {
                    Some(bb) => Some(bb@),
                    None => None::<Seq<u8>>,
                }));
                assert(var_bin_views(out@)[j] == (match out@[j] {
                    Some(bb) => Some(bb@),
                    None => None::<Seq<u8>>,
                }));
            }
        }
        i = i + 1;
    }
    let res = DecodedArray::VarBin { values: out };
    proof {
        assert forall|j: int| 0 <= j < views.len() implies (#[trigger] fsst_expand_row(
            sv,
            views[j],
        )) is Some by {}
        assert(res@->VarBin_values =~= Seq::new(
            views.len(),
            |j: int|
                match fsst_expand_row(sv, views[j]) {
                    Some(x) => x,
                    None => None,
                },
        ));
    }
    Ok(res)
}

/// Decode a dictionary page: decode the indices and the items, then either
/// materialize values through the dictionary or hand back the raw pair.
fn decode_dictionary(
    d: &crate::scheduler::DictionaryPageScheduler,
    fd: &crate::fetched::FetchedData,
    start: u64,
    end: u64,
) -> (r: Result<DecodedArray, ExecutionError>)
    requires
        fd.wf(),
        start <= end,
    ensures
        forall|file: Seq<u8>|
            (#[trigger] fd.agrees_with(file)) && covered(
                PageScheduler::Dictionary(*d),
                fd,
                start,
                end,
            ) ==> decode_result_matches(
                r,
                PageScheduler::Dictionary(*d).decoded_spec(file, start as int, end as int),
            ),
    decreases d,
{
    let ghost me = PageScheduler::Dictionary(*d);
    proof {
        if covered(me, fd, start, end) {
            let a = d.indices.schedule_spec(start, end)->Ok_0;
            let c = d.items.schedule_spec(0, d.num_dictionary_items as u64)->Ok_0;
            lemma_covers_all_concat(fd, a, c);
        }
    }
    let idx_arr = match d.indices.decode(fd, start, end) {
        Ok(a) => a,
        Err(e) => {
            return Err(e);
        },
    };
    let idxs = match as_u64s(&idx_arr) {
        Ok(v) => v,
        Err(e) => {
            return Err(e);
        },
    };
    if idxs.len() as u64 != end - start {
        return Err(ExecutionError::UnexpectedArrayLayout);
    }
    let items_arr = match d.items.decode(fd, 0, d.num_dictionary_items as u64) {
        Ok(a) => a,
        Err(e) => {
            return Err(e);
        },
    };
    if d.should_decode_dict {
        take_rows(&items_arr, &idxs)
    } else {
        Ok(DecodedArray::DictionaryArray { indices: Box::new(idx_arr), items: Box::new(items_arr) })
    }
}

/// Decode fixed-size binary rows: the byte rows regrouped at the declared
/// element width.
fn decode_fixed_size_binary(
    f: &crate::scheduler::FixedSizeBinaryPageScheduler,
    fd: &crate::fetched::FetchedData,
    start: u64,
    end: u64,
) -> (r: Result<DecodedArray, ExecutionError>)
    requires
        fd.wf(),
        start <= end,
    ensures
        forall|file: Seq<u8>|
            (#[trigger] fd.agrees_with(file)) && covered(
                PageScheduler::FixedSizeBinary(*f),
                fd,
                start,
                end,
            ) ==> decode_result_matches(
                r,
                PageScheduler::FixedSizeBinary(*f).decoded_spec(file, start as int, end as int),
            ),
    decreases f,
{
    let ghost me = PageScheduler::FixedSizeBinary(*f);
    let w = f.byte_width as u64;
    if mul_overflows(end, w) {
        return Err(ExecutionError::RangeOverflow);
    }
    proof {
        vstd::arithmetic::mul::lemma_mul_inequality(start as int, end as int, w as int);
        vstd::arithmetic::mul::lemma_mul_inequality((end - start) as int, end as int, w as int);
    }
    let inner = match f.bytes.decode(fd, start * w, end * w) {
        Ok(a) => a,
        Err(e) => {
            return Err(e);
        },
    };
    match inner {
        DecodedArray::Fixed { bytes_per_value, data } => {
            if f.byte_width == 0 || bytes_per_value != 1 || data.len() as u64 != (end - start)
                * w {
                return Err(ExecutionError::UnexpectedArrayLayout);
            }
            Ok(DecodedArray::Fixed { bytes_per_value: w, data })
        },
        _ => Err(ExecutionError::UnexpectedArrayLayout),
    }
}

/// Decode a binary page: decode the offsets and the data bytes, then slice
/// each row's extent out of the data, marking adjusted rows null.
#[verifier::loop_isolation(false)]
#[verifier::rlimit(100)]
#[verifier::spinoff_prover]
fn decode_binary(
    b: &crate::scheduler::BinaryPageScheduler,
    fd: &crate::fetched::FetchedData,
    start: u64,
    end: u64,
) -> (r: Result<DecodedArray, ExecutionError>)
    requires
        fd.wf(),
        start <= end,
    ensures
        forall|file: Seq<u8>|
            (#[trigger] fd.agrees_with(file)) && covered(
                PageScheduler::Binary(*b),
                fd,
                start,
                end,
            ) ==> decode_result_matches(
                r,
                PageScheduler::Binary(*b).decoded_spec(file, start as int, end as int),
            ),
    decreases b,
{
    let ghost me = PageScheduler::Binary(*b);
    if b.null_adjustment == 0 {
        return Err(ExecutionError::ZeroNullAdjustment);
    }
    let na = b.null_adjustment;
    let s0: u64 = if start == 0 {
        0
    } else {
        start - 1
    };
    proof {
        if covered(me, fd, start, end) {
            let a = b.indices.schedule_spec(s0, end)->Ok_0;
            let n = b.bytes.spec_known_row_count()->Some_0;
            let c = b.bytes.schedule_spec(0, n)->Ok_0;
            lemma_covers_all_concat(fd, a, c);
        }
    }
    let idx_arr = match b.indices.decode(fd, s0, end) {
        Ok(a) => a,
        Err(e) => {
            return Err(e);
        },
    };
    let offs = match as_u64s(&idx_arr) {
        Ok(v) => v,
        Err(e) => {
            return Err(e);
        },
    };
    if offs.len() as u64 != end - s0 {
        return Err(ExecutionError::UnexpectedArrayLayout);
    }
    let n = match b.bytes.known_row_count() {
        Some(n) => n,
        None => {
            return Err(ExecutionError::UnexpectedArrayLayout);
        },
    };
    let bytes_arr = match b.bytes.decode(fd, 0, n) {
        Ok(a) => a,
        Err(e) => {
            return Err(e);
        },
    };
    let data = match bytes_arr {
        DecodedArray::Fixed { bytes_per_value, data } => {
            if bytes_per_value != 1 {
                return Err(ExecutionError::UnexpectedArrayLayout);
            }
            data
        },
        _ => {
            return Err(ExecutionError::UnexpectedArrayLayout);
        },
    };
    let count = end - start;
    let base_off: u64 = start - s0;
    let data_len: usize = data.len();
    let mut rows: Vec<Option<Vec<u8>>> = Vec::new();
    let mut i: u64 = 0;
    while i < count
        invariant
            i <= count,
            rows@.len() == i as nat,
            forall|rr: int|
                start <= rr < start + i ==> (#[trigger] bin_start_off(offs@, na, s0 as int, rr))
                    <= bin_end_off(offs@, na, s0 as int, rr) && bin_end_off(
                    offs@,
                    na,
                    s0 as int,
                    rr,
                ) <= data@.len(),
            forall|rr: int|
                start <= rr < start + i ==> (#[trigger] bin_row_value(
                    offs@,
                    na,
                    s0 as int,
                    rr,
                    data@,
                )) == var_bin_views(rows@)[rr - start],
        decreases count - i,
    {
        let r_row = start + i;
        let cur_raw = offs[(base_off + i) as usize];
        let cur = cur_raw % na;
        let prev: u64 = if r_row == 0 {
            0
        } else {
            offs[(base_off + i - 1) as usize] % na
        };
        proof {
            assert(bin_end_off(offs@, na, s0 as int, r_row as int) == cur as nat);
            assert(bin_start_off(offs@, na, s0 as int, r_row as int) == prev as nat);
        }
        if prev > cur || cur > data_len as u64 {
            proof {
                assert(!bin_rows_ok(
                    offs@,
                    na,
                    s0 as int,
                    start as int,
                    end as int,
                    data@.len(),
                ));
            }
            return Err(ExecutionError::CorruptOffsets);
        }
        let row: Option<Vec<u8>> = if cur_raw >= na {
            None
        } else {
            Some(copy_range(&data, prev as usize, cur as usize))
        };
        proof {
            assert((match row {
                Some(c) => Some(c@),
                None => None::<Seq<u8>>,
            }) == bin_row_value(offs@, na, s0 as int, r_row as int, data@));
        }
        let ghost prev_rows = rows@;
        rows.push(row);
        proof {
            assert forall|rr: int|
                start <= rr < start + i + 1 implies (#[trigger] bin_start_off(
                offs@,
                na,
                s0 as int,
                rr,
            )) <= bin_end_off(offs@, na, s0 as int, rr) && bin_end_off(offs@, na, s0 as int, rr)
                <= data@.len() by {
                if rr == start + i {
                    assert(rr == r_row as int);
                    assert(bin_start_off(offs@, na, s0 as int, r_row as int) == prev as nat);
                    assert(bin_end_off(offs@, na, s0 as int, r_row as int) == cur as nat);
                }
            }
            assert forall|rr: int| start <= rr < start + i + 1 implies (#[trigger] bin_row_value(
                offs@,
                na,
                s0 as int,
                rr,
                data@,
            )) == var_bin_views(rows@)[rr - start] by {
                let j = rr - start as int;
                assert(var_bin_views(rows@)[j] == (match rows@[j] {
                    Some(c) => Some(c@),
                    None => None::<Seq<u8>>,
                }));
                if j < i as int {
                    assert(rows@[j] == prev_rows[j]);
                    assert(var_bin_views(prev_rows)[j] == (match prev_rows[j] {
                        Some(c) => Some(c@),
                        None => None::<Seq<u8>>,
                    }));
                } else {
                    assert(rows@[j] == row);
                    assert(rr == r_row as int);
                }
            }
        }
        i = i + 1;
    }
    let res = DecodedArray::VarBin { values: rows };
    proof {
        assert(bin_rows_ok(offs@, na, s0 as int, start as int, end as int, data@.len()));
        assert forall|j: int| 0 <= j < (end - start) as int implies var_bin_views(rows@)[j]
            == bin_row_value(offs@, na, s0 as int, start + j, data@) by {
            assert((#[trigger] bin_row_value(offs@, na, s0 as int, start + j, data@))
                == var_bin_views(rows@)[(start + j) - start]);
        }
        assert(res@->VarBin_values =~= Seq::new(
            (end - start) as nat,
            |j: int| bin_row_value(offs@, na, s0 as int, start + j, data@),
        ));
    }
    Ok(res)
}

/// Two images with equal bits over a range pack the same values.
pub proof fn lemma_bits_value_eq(
    a: Seq<u8>,
    oa: int,
    b: Seq<u8>,
    ob: int,
    bit_start: int,
    count: nat,
)
    requires
        forall|g: int|
            bit_start <= g < bit_start + count ==> #[trigger] file_bit(a, oa, g) == file_bit(
                b,
                ob,
                g,
            ),
    ensures
        bits_value(a, oa, bit_start, count) == bits_value(b, ob, bit_start, count),
    decreases count,
{
    if count > 0 {
        lemma_bits_value_eq(a, oa, b, ob, bit_start + 1, (count - 1) as nat);
        assert(file_bit(a, oa, bit_start) == file_bit(b, ob, bit_start));
    }
}

/// Two images with equal bits over the packed range unpack to the same rows.
pub proof fn lemma_packed_rows_eq(
    a: Seq<u8>,
    oa: int,
    b: Seq<u8>,
    ob: int,
    cb: nat,
    ub: nat,
    signed: bool,
    row_start: int,
    count: nat,
)
    requires
        cb >= 1,
        forall|g: int|
            row_start * cb <= g < (row_start + count) * cb ==> #[trigger] file_bit(a, oa, g)
                == file_bit(b, ob, g),
    ensures
        packed_rows_bytes(a, oa, cb, ub, signed, row_start, count) == packed_rows_bytes(
            b,
            ob,
            cb,
            ub,
            signed,
            row_start,
            count,
        ),
    decreases count,
{
    if count > 0 {
        assert((row_start + 1) * cb == row_start * cb + cb) by {
            vstd::arithmetic::mul::lemma_mul_is_distributive_add_other_way(
                cb as int,
                row_start,
                1,
            );
        }
        assert((row_start + 1) * cb <= (row_start + count) * cb) by {
            vstd::arithmetic::mul::lemma_mul_inequality(
                row_start + 1,
                row_start + count,
                cb as int,
            );
        }
        assert forall|g: int|
            row_start * cb <= g < row_start * cb + cb implies #[trigger] file_bit(a, oa, g)
            == file_bit(b, ob, g) by {
            assert(file_bit(a, oa, g) == file_bit(b, ob, g));
        }
        lemma_bits_value_eq(a, oa, b, ob, row_start * cb, cb);
        assert(file_bit(a, oa, row_start * cb + cb - 1) == file_bit(b, ob, row_start * cb + cb
            - 1));
        assert(unpacked_value(a, oa, cb, ub, signed, row_start) == unpacked_value(
            b,
            ob,
            cb,
            ub,
            signed,
            row_start,
        ));
        assert forall|g: int|
            (row_start + 1) * cb <= g < ((row_start + 1) + (count - 1)) * cb implies #[trigger]
        file_bit(a, oa, g) == file_bit(b, ob, g) by {
            assert(file_bit(a, oa, g) == file_bit(b, ob, g));
        }
        lemma_packed_rows_eq(a, oa, b, ob, cb, ub, signed, row_start + 1, (count - 1) as nat);
    }
}

/// Unpack bit-packed rows into their little-endian widened bytes.
#[verifier::loop_isolation(false)]
fn unpack_rows(
    cb: u64,
    ub: u64,
    buffer_offset: u64,
    signed: bool,
    fd: &crate::fetched::FetchedData,
    start: u64,
    end: u64,
) -> (r: Result<Vec<u8>, ExecutionError>)
    requires
        fd.wf(),
        start <= end,
        crate::physical::spec_bitpack_widths_ok(cb, ub),
    ensures
        forall|file: Seq<u8>|
            (#[trigger] fd.agrees_with(file)) && (match spec_bit_range(
                buffer_offset,
                cb,
                start,
                end,
            ) {
                Ok(rs) => fd.covers_all(rs),
                Err(_) => false,
            }) ==> (r matches Ok(data) && data@ == packed_rows_bytes(
                file,
                buffer_offset as int,
                cb as nat,
                ub as nat,
                signed,
                start as int,
                (end - start) as nat,
            )),
{
    if start == end {
        let out: Vec<u8> = Vec::new();
        proof {
            assert(out@ =~= Seq::<u8>::empty());
        }
        return Ok(out);
    }
    if mul_overflows(end, cb) {
        return Err(ExecutionError::RangeOverflow);
    }
    proof {
        vstd::arithmetic::mul::lemma_mul_inequality(1, end as int, cb as int);
        vstd::arithmetic::mul::lemma_mul_inequality(start as int, end as int, cb as int);
        assert(start as int * cb as int <= end as int * cb as int - 1) by {
            vstd::arithmetic::mul::lemma_mul_inequality(start as int + 1, end as int, cb as int);
            vstd::arithmetic::mul::lemma_mul_is_distributive_add_other_way(
                cb as int,
                start as int,
                1,
            );
        }
    }
    let end_bits = end * cb;
    let last_byte = (end_bits - 1) / 8;
    if last_byte + 1 > u64::MAX - buffer_offset {
        return Err(ExecutionError::RangeOverflow);
    }
    let start_bits = start * cb;
    proof {
        lemma_div_monotone(start_bits as int, (end_bits - 1) as int, 8);
    }
    let first_byte = start_bits / 8;
    let len_bytes = last_byte + 1 - first_byte;
    let chunk = match fd.get(buffer_offset + first_byte, len_bytes) {
        Ok(c) => c,
        Err(e) => {
            proof {
                assert forall|file: Seq<u8>|
                    (#[trigger] fd.agrees_with(file)) && (match spec_bit_range(
                        buffer_offset,
                        cb,
                        start,
                        end,
                    ) {
                        Ok(rs) => fd.covers_all(rs),
                        Err(_) => false,
                    }) implies false by {
                    let rs = spec_bit_range(buffer_offset, cb, start, end)->Ok_0;
                    lemma_single_covered(fd, rs, 0);
                }
            }
            return Err(e);
        },
    };
    let count = end - start;
    let wbytes = (ub / 8) as usize;
    let ghost oa: int = -(first_byte as int);
    let mut out: Vec<u8> = Vec::new();
    let mut rowi: u64 = 0;
    proof {
        vstd::arithmetic::power2::lemma2_to64();
        vstd::arithmetic::power2::lemma2_to64_rest();
    }
    while rowi < count
        invariant
            rowi <= count,
            chunk@.len() == len_bytes,
            out@ == packed_rows_bytes(
                chunk@,
                oa,
                cb as nat,
                ub as nat,
                signed,
                start as int,
                rowi as nat,
            ),
        decreases count - rowi,
    {
        let row = start + rowi;
        proof {
            vstd::arithmetic::mul::lemma_mul_inequality(row as int + 1, end as int, cb as int);
            vstd::arithmetic::mul::lemma_mul_is_distributive_add_other_way(
                cb as int,
                row as int,
                1,
            );
            vstd::arithmetic::mul::lemma_mul_inequality(start as int, row as int, cb as int);
        }
        let base = row * cb;
        let mut acc: u64 = 0;
        let mut p: u64 = 1;
        let mut k: u64 = 0;
        while k < cb
            invariant
                k <= cb,
                base == row as int * cb as int,
                start_bits <= base,
                base + cb <= end_bits,
                acc as nat == bits_value(chunk@, oa, base as int, k as nat),
                (acc as nat) < pow2(k as nat),
                k < cb ==> p as nat == pow2(k as nat),
            decreases cb - k,
        {
            let g = base + k;
            proof {
                lemma_div_monotone(start_bits as int, g as int, 8);
                lemma_div_monotone(g as int, (end_bits - 1) as int, 8);
                vstd::arithmetic::div_mod::lemma_mod_bound(g as int, 8);
            }
            let byte_idx = (g / 8 - first_byte) as usize;
            let shift = (g % 8) as u8;
            let bit = (chunk[byte_idx] / crate::bits::pow2_u8(shift)) % 2 == 1;
            proof {
                assert(file_bit(chunk@, oa, g as int) == bit);
                crate::bits::lemma_bits_value_snoc(chunk@, oa, base as int, k as nat);
                assert(pow2((k + 1) as nat) == 2 * pow2(k as nat)) by {
                    vstd::arithmetic::power2::lemma_pow2_unfold((k + 1) as nat);
                }
                if k as nat + 1 < 64 {
                    vstd::arithmetic::power2::lemma_pow2_strictly_increases(k as nat + 1, 64);
                }
            }
            if bit {
                acc = acc + p;
            }
            if k + 1 < cb {
                proof {
                    assert(k as nat + 1 < 64);
                    if k as nat + 1 < 63 {
                        vstd::arithmetic::power2::lemma_pow2_strictly_increases(k as nat + 1, 63);
                    }
                }
                p = p * 2;
            }
            k = k + 1;
        }
        let gt = base + cb - 1;
        proof {
            lemma_div_monotone(start_bits as int, gt as int, 8);
            lemma_div_monotone(gt as int, (end_bits - 1) as int, 8);
            vstd::arithmetic::div_mod::lemma_mod_bound(gt as int, 8);
        }
        let top = (chunk[((gt / 8) - first_byte) as usize] / crate::bits::pow2_u8((gt % 8) as u8))
            % 2 == 1;
        proof {
            assert(file_bit(chunk@, oa, base as int + cb as int - 1) == top);
            vstd::arithmetic::power2::lemma_pow2_adds((ub - cb) as nat, cb as nat);
            if cb < ub {
                vstd::arithmetic::power2::lemma_pow2_strictly_increases(cb as nat, ub as nat);
            }
        }
        let value: u64 = if signed && top && cb < ub {
            let mask: u64 = if ub == 64 {
                (u64::MAX - crate::bits::pow2_u64(cb)) + 1
            } else {
                crate::bits::pow2_u64(ub) - crate::bits::pow2_u64(cb)
            };
            proof {
                assert(mask as nat == pow2(ub as nat) - pow2(cb as nat));
            }
            acc + mask
        } else {
            acc
        };
        proof {
            assert(value as nat == unpacked_value(
                chunk@,
                oa,
                cb as nat,
                ub as nat,
                signed,
                row as int,
            ));
            lemma_packed_rows_snoc(
                chunk@,
                oa,
                cb as nat,
                ub as nat,
                signed,
                start as int,
                rowi as nat,
            );
        }
        crate::bits::push_le_bytes(&mut out, value, wbytes);
        rowi = rowi + 1;
    }
    proof {
        assert forall|file: Seq<u8>|
            (#[trigger] fd.agrees_with(file)) && (match spec_bit_range(
                buffer_offset,
                cb,
                start,
                end,
            ) {
                Ok(rs) => fd.covers_all(rs),
                Err(_) => false,
            }) implies out@ == packed_rows_bytes(
            file,
            buffer_offset as int,
            cb as nat,
            ub as nat,
            signed,
            start as int,
            (end - start) as nat,
        ) by {
            let rs = spec_bit_range(buffer_offset, cb, start, end)->Ok_0;
            lemma_single_covered(fd, rs, 0);
            assert(chunk@ == file.subrange(
                buffer_offset + first_byte as int,
                buffer_offset + first_byte as int + len_bytes as int,
            ));
            assert forall|g: int|
                start as int * cb as int <= g < (start as int + (end - start) as int) * (
            cb as int) implies #[trigger] file_bit(chunk@, oa, g) == file_bit(
                file,
                buffer_offset as int,
                g,
            ) by {
                assert((start as int + (end - start) as int) * (cb as int) == end as int
                    * cb as int);
                lemma_div_monotone(start_bits as int, g, 8);
                lemma_div_monotone(g, (end_bits - 1) as int, 8);
                assert(chunk@[g / 8 - first_byte as int] == file[buffer_offset + g / 8]);
            }
            lemma_packed_rows_eq(
                chunk@,
                oa,
                file,
                buffer_offset as int,
                cb as nat,
                ub as nat,
                signed,
                start as int,
                (end - start) as nat,
            );
        }
    }
    Ok(out)
}

/// Decode bit-packed rows, honouring the sign flag.
fn decode_bitpacked(
    bp: &crate::scheduler::BitpackedScheduler,
    fd: &crate::fetched::FetchedData,
    start: u64,
    end: u64,
) -> (r: Result<DecodedArray, ExecutionError>)
    requires
        fd.wf(),
        start <= end,
    ensures
        forall|file: Seq<u8>|
            (#[trigger] fd.agrees_with(file)) && covered(
                PageScheduler::Bitpacked(*bp),
                fd,
                start,
                end,
            ) ==> decode_result_matches(
                r,
                PageScheduler::Bitpacked(*bp).decoded_spec(file, start as int, end as int),
            ),
{
    if !crate::physical::bitpack_widths_ok(
        bp.compressed_bits_per_value,
        bp.uncompressed_bits_per_value,
    ) {
        return Err(ExecutionError::UnexpectedArrayLayout);
    }
    match unpack_rows(
        bp.compressed_bits_per_value,
        bp.uncompressed_bits_per_value,
        bp.buffer_offset,
        bp.signed,
        fd,
        start,
        end,
    ) {
        Ok(data) => Ok(
            DecodedArray::Fixed {
                bytes_per_value: bp.uncompressed_bits_per_value / 8,
                data,
            },
        ),
        Err(e) => Err(e),
    }
}

/// Decode non-negative bit-packed rows; they always zero-extend.
fn decode_bitpacked_for_non_neg(
    bp: &crate::scheduler::BitpackedForNonNegScheduler,
    fd: &crate::fetched::FetchedData,
    start: u64,
    end: u64,
) -> (r: Result<DecodedArray, ExecutionError>)
    requires
        fd.wf(),
        start <= end,
    ensures
        forall|file: Seq<u8>|
            (#[trigger] fd.agrees_with(file)) && covered(
                PageScheduler::BitpackedForNonNeg(*bp),
                fd,
                start,
                end,
            ) ==> decode_result_matches(
                r,
                PageScheduler::BitpackedForNonNeg(*bp).decoded_spec(
                    file,
                    start as int,
                    end as int,
                ),
            ),
{
    if !crate::physical::bitpack_widths_ok(
        bp.compressed_bits_per_value,
        bp.uncompressed_bits_per_value,
    ) {
        return Err(ExecutionError::UnexpectedArrayLayout);
    }
    match unpack_rows(
        bp.compressed_bits_per_value,
        bp.uncompressed_bits_per_value,
        bp.buffer_offset,
        false,
        fd,
        start,
        end,
    ) {
        Ok(data) => Ok(
            DecodedArray::Fixed {
                bytes_per_value: bp.uncompressed_bits_per_value / 8,
                data,
            },
        ),
        Err(e) => Err(e),
    }
}

impl PageScheduler {
    /// Turn fetched bytes into the decoded values of rows `[start, end)`.
    ///
    /// Decoding is deterministic: for every file image the fetched data
    /// agrees with, and whose plan for this range it covers, the result is
    /// exactly what `decoded_spec` says over that image.
    pub fn decode(
        &self,
        fd: &crate::fetched::FetchedData,
        start: u64,
        end: u64,
    ) -> (r: Result<DecodedArray, ExecutionError>)
        requires
            fd.wf(),
            start <= end,
        ensures
            forall|file: Seq<u8>|
                (#[trigger] fd.agrees_with(file)) && covered(*self, fd, start, end)
                    ==> decode_result_matches(
                    r,
                    self.decoded_spec(file, start as int, end as int),
                ),
        decreases self,
    {
        match self {
            PageScheduler::Value(v) => decode_value(v, fd, start, end),
            PageScheduler::DenseBitmap(bm) => decode_bitmap(bm, fd, start, end),
            PageScheduler::Bitpacked(bp) => decode_bitpacked(bp, fd, start, end),
            PageScheduler::BitpackedForNonNeg(bp) => decode_bitpacked_for_non_neg(
                bp,
                fd,
                start,
                end,
            ),
            PageScheduler::Basic(b) => decode_basic(b, fd, start, end),
            PageScheduler::FixedList(f) => decode_fixed_list(f, fd, start, end),
            PageScheduler::Binary(b) => decode_binary(b, fd, start, end),
            PageScheduler::Fsst(f) => decode_fsst(f, fd, start, end),
            PageScheduler::Dictionary(d) => decode_dictionary(d, fd, start, end),
            PageScheduler::FixedSizeBinary(f) => decode_fixed_size_binary(f, fd, start, end),
            PageScheduler::PackedStruct(p) => decode_packed(p, fd, start, end),
        }
    }
}

/// Decode a packed struct: read the interleaved buffer once and split it
/// into one fixed-width array per field at the layout the field widths give.
#[verifier::loop_isolation(false)]
fn decode_packed(
    p: &crate::scheduler::PackedStructPageScheduler,
    fd: &crate::fetched::FetchedData,
    start: u64,
    end: u64,
) -> (r: Result<DecodedArray, ExecutionError>)
    requires
        fd.wf(),
        start <= end,
    ensures
        forall|file: Seq<u8>|
            (#[trigger] fd.agrees_with(file)) && covered(
                PageScheduler::PackedStruct(*p),
                fd,
                start,
                end,
            ) ==> decode_result_matches(
                r,
                PageScheduler::PackedStruct(*p).decoded_spec(file, start as int, end as int),
            ),
{
    let ghost me = PageScheduler::PackedStruct(*p);
    let widths = &p.field_widths;
    let nf = widths.len();
    let mut z: usize = 0;
    while z < nf
        invariant
            z <= nf,
            nf == widths@.len(),
            forall|j: int| 0 <= j < z as int ==> (#[trigger] widths@[j]) != 0,
        decreases nf - z,
    {
        if widths[z] == 0 {
            proof {
                assert(0 <= (z as int) < widths@.len() && #[trigger] widths@[z as int] == 0);
            }
            return Err(ExecutionError::UnexpectedArrayLayout);
        }
        z = z + 1;
    }
    let count = end - start;
    if count == 0 {
        let mut fields: Vec<DecodedArray> = Vec::new();
        let mut f: usize = 0;
        while f < nf
            invariant
                f <= nf,
                nf == widths@.len(),
                fields@.len() == f as nat,
                forall|j: int|
                    0 <= j < f as int ==> fields@[j] == (DecodedArray::Fixed {
                        bytes_per_value: widths@[j],
                        data: fields@[j]->Fixed_data,
                    }) && (#[trigger] fields@[j])->Fixed_data@ =~= Seq::<u8>::empty(),
            decreases nf - f,
        {
            fields.push(DecodedArray::Fixed { bytes_per_value: widths[f], data: Vec::new() });
            f = f + 1;
        }
        let res = DecodedArray::StructArray { fields };
        proof {
            assert forall|file: Seq<u8>|
                (#[trigger] fd.agrees_with(file)) && covered(me, fd, start, end)
                    implies decode_result_matches(
                Ok::<DecodedArray, ExecutionError>(res),
                me.decoded_spec(file, start as int, end as int),
            ) by {
                let expected = packed_fields_model(
                    file,
                    p.buffer_offset as int,
                    widths@,
                    start as int,
                    end as int,
                );
                crate::decoded::lemma_models_of_len(res->StructArray_fields@);
                assert forall|j: int| 0 <= j < nf as int implies crate::decoded::models_of(
                    res->StructArray_fields@,
                )[j] == expected[j] by {
                    crate::decoded::lemma_models_of_index(res->StructArray_fields@, j);
                    assert(expected[j]->Fixed_data =~= Seq::<u8>::empty());
                }
                assert(crate::decoded::models_of(res->StructArray_fields@) =~= expected);
            }
        }
        return Ok(res);
    }
    let (stride, fits) = checked_sum(widths);
    if !fits {
        proof {
            vstd::arithmetic::mul::lemma_mul_inequality(
                1,
                end as int,
                sum_widths(widths@) as int,
            );
        }
        return Err(ExecutionError::RangeOverflow);
    }
    if stride == 0 {
        proof {
            if widths@.len() > 0 {
                lemma_sum_widths_nonneg(widths@.drop_first());
                assert(sum_widths(widths@) >= widths@[0]);
                assert(false);
            }
        }
        let res = DecodedArray::StructArray { fields: Vec::new() };
        proof {
            assert forall|file: Seq<u8>|
                (#[trigger] fd.agrees_with(file)) && covered(me, fd, start, end)
                    implies decode_result_matches(
                Ok::<DecodedArray, ExecutionError>(res),
                me.decoded_spec(file, start as int, end as int),
            ) by {
                let expected = packed_fields_model(
                    file,
                    p.buffer_offset as int,
                    widths@,
                    start as int,
                    end as int,
                );
                assert(crate::decoded::models_of(res->StructArray_fields@) =~= expected);
            }
        }
        return Ok(res);
    }
    if mul_overflows(end, stride) {
        return Err(ExecutionError::RangeOverflow);
    }
    let total = end * stride;
    if p.buffer_offset > u64::MAX - total {
        return Err(ExecutionError::RangeOverflow);
    }
    proof {
        vstd::arithmetic::mul::lemma_mul_inequality(start as int, end as int, stride as int);
        vstd::arithmetic::mul::lemma_mul_is_distributive_sub_other_way(
            stride as int,
            end as int,
            start as int,
        );
    }
    let chunk_len = count * stride;
    let chunk = match fd.get(p.buffer_offset + start * stride, chunk_len) {
        Ok(c) => c,
        Err(e) => {
            proof {
                assert forall|file: Seq<u8>|
                    (#[trigger] fd.agrees_with(file)) && covered(me, fd, start, end)
                        implies false by {
                    let rs = me.schedule_spec(start, end)->Ok_0;
                    lemma_single_covered(fd, rs, 0);
                }
            }
            return Err(e);
        },
    };
    let mut fields: Vec<DecodedArray> = Vec::new();
    let mut prefix: u64 = 0;
    let mut f: usize = 0;
    proof {
        assert(widths@.skip(0) =~= widths@);
    }
    while f < nf
        invariant
            f <= nf,
            nf == widths@.len(),
            forall|j: int| 0 <= j < nf as int ==> (#[trigger] widths@[j]) != 0,
            stride as nat == sum_widths(widths@),
            count == end - start,
            count >= 1,
            (count as int) * (stride as int) == chunk_len,
            chunk@.len() == chunk_len,
            prefix as nat + sum_widths(widths@.skip(f as int)) == stride as nat,
            fields@.len() == f as nat,
            forall|fi: int|
                0 <= fi < f as int ==> crate::decoded::model_of(#[trigger] fields@[fi]) == (
                ArrayModel::Fixed {
                    bytes_per_value: widths@[fi] as nat,
                    data: Seq::new(
                        (count as nat) * (widths@[fi] as nat),
                        |j: int|
                            chunk@[(j / (widths@[fi] as int)) * (stride as int) + (sum_widths(
                                widths@.subrange(0, fi),
                            ) as int) + (j % (widths@[fi] as int))],
                    ),
                }),
        decreases nf - f,
    {
        let w = widths[f];
        let ghost suffix = widths@.skip(f as int);
        proof {
            assert(suffix[0] == widths@[f as int]);
            assert(suffix.drop_first() =~= widths@.skip(f as int + 1));
            lemma_sum_widths_nonneg(widths@.skip(f as int + 1));
            assert(prefix + w <= stride);
            assert(widths@.subrange(0, f as int).push(w) =~= widths@.subrange(0, f as int + 1));
        }
        let ghost this_prefix = prefix as nat;
        let mut data_f: Vec<u8> = Vec::new();
        let mut r_i: u64 = 0;
        while r_i < count
            invariant
                r_i <= count,
                w == widths@[f as int],
                f < nf,
                w >= 1,
                prefix + w <= stride,
                this_prefix == prefix as nat,
                (count as int) * (stride as int) == chunk_len,
                chunk@.len() == chunk_len,
                data_f@.len() == r_i as nat * w as nat,
                forall|j: int|
                    0 <= j < data_f@.len() ==> data_f@[j] == chunk@[(j / (w as int)) * (
                    stride as int) + (prefix as int) + (j % (w as int))],
            decreases count - r_i,
        {
            proof {
                vstd::arithmetic::mul::lemma_mul_inequality(
                    r_i as int + 1,
                    count as int,
                    stride as int,
                );
                vstd::arithmetic::mul::lemma_mul_is_distributive_add_other_way(
                    stride as int,
                    r_i as int,
                    1,
                );
                vstd::arithmetic::mul::lemma_mul_inequality(
                    r_i as int,
                    count as int,
                    stride as int,
                );
            }
            let row_base = r_i * stride;
            let mut k: u64 = 0;
            while k < w
                invariant
                    k <= w,
                    w == widths@[f as int],
                    f < nf,
                    w >= 1,
                    prefix + w <= stride,
                    this_prefix == prefix as nat,
                    r_i < count,
                    row_base == r_i as int * stride as int,
                    row_base + stride <= chunk_len,
                    (count as int) * (stride as int) == chunk_len,
                    chunk@.len() == chunk_len,
                    data_f@.len() == r_i as nat * w as nat + k as nat,
                    forall|j: int|
                        0 <= j < r_i as int * w as int ==> data_f@[j] == chunk@[(j / (w as int))
                            * (stride as int) + (prefix as int) + (j % (w as int))],
                    forall|j: int|
                        r_i as int * w as int <= j < data_f@.len() ==> data_f@[j] == chunk@[
                            row_base + prefix + (j - r_i as int * w as int)
                        ],
                decreases w - k,
            {
                data_f.push(chunk[(row_base + prefix + k) as usize]);
                k = k + 1;
            }
            proof {
                assert forall|j: int|
                    r_i as int * w as int <= j < (r_i + 1) * (w as int) implies data_f@[j]
                    == chunk@[(j / (w as int)) * (stride as int) + (prefix as int) + (j % (
                w as int))] by {
                    vstd::arithmetic::mul::lemma_mul_is_distributive_add_other_way(
                        w as int,
                        r_i as int,
                        1,
                    );
                    vstd::arithmetic::mul::lemma_mul_is_commutative(w as int, r_i as int);
                    assert(j == (r_i as int) * (w as int) + (j - r_i as int * w as int));
                    vstd::arithmetic::div_mod::lemma_fundamental_div_mod_converse(
                        j,
                        w as int,
                        r_i as int,
                        j - r_i as int * w as int,
                    );
                }
                vstd::arithmetic::mul::lemma_mul_is_distributive_add_other_way(
                    w as int,
                    r_i as int,
                    1,
                );
            }
            r_i = r_i + 1;
        }
        let field_arr = DecodedArray::Fixed { bytes_per_value: w, data: data_f };
        proof {
            lemma_sum_widths_split(widths@, f as int);
            assert(this_prefix == sum_widths(widths@.subrange(0, f as int)));
            assert(crate::decoded::model_of(field_arr)->Fixed_data =~= Seq::new(
                (count as nat) * (w as nat),
                |j: int|
                    chunk@[(j / (w as int)) * (stride as int) + (sum_widths(
                        widths@.subrange(0, f as int),
                    ) as int) + (j % (w as int))],
            ));
            assert(crate::decoded::model_of(field_arr) == (ArrayModel::Fixed {
                bytes_per_value: widths@[f as int] as nat,
                data: Seq::new(
                    (count as nat) * (widths@[f as int] as nat),
                    |j: int|
                        chunk@[(j / (widths@[f as int] as int)) * (stride as int) + (sum_widths(
                            widths@.subrange(0, f as int),
                        ) as int) + (j % (widths@[f as int] as int))],
                ),
            }));
        }
        fields.push(field_arr);
        proof {
            assert(sum_widths(widths@.subrange(0, f as int + 1)) == this_prefix + w) by {
                lemma_sum_widths_snoc(widths@.subrange(0, f as int), w);
            }
        }
        prefix = prefix + w;
        f = f + 1;
    }
    let res = DecodedArray::StructArray { fields };
    proof {
        assert forall|file: Seq<u8>|
            (#[trigger] fd.agrees_with(file)) && covered(me, fd, start, end)
                implies decode_result_matches(
            Ok::<DecodedArray, ExecutionError>(res),
            me.decoded_spec(file, start as int, end as int),
        ) by {
            let rs = me.schedule_spec(start, end)->Ok_0;
            lemma_single_covered(fd, rs, 0);
            assert(chunk@ == file.subrange(
                p.buffer_offset + start as int * stride as int,
                p.buffer_offset + start as int * stride as int + chunk_len as int,
            ));
            let expected = packed_fields_model(
                file,
                p.buffer_offset as int,
                widths@,
                start as int,
                end as int,
            );
            crate::decoded::lemma_models_of_len(res->StructArray_fields@);
            assert forall|fi: int| 0 <= fi < nf as int implies crate::decoded::models_of(
                res->StructArray_fields@,
            )[fi] == expected[fi] by {
                crate::decoded::lemma_models_of_index(res->StructArray_fields@, fi);
                let w = widths@[fi] as int;
                let pre = sum_widths(widths@.subrange(0, fi)) as int;
                let a = crate::decoded::model_of(fields@[fi])->Fixed_data;
                let b = expected[fi]->Fixed_data;
                assert(pre + w <= stride) by {
                    lemma_sum_widths_split(widths@, fi);
                    assert(widths@.skip(fi)[0] == widths@[fi]);
                    assert(widths@.skip(fi).drop_first() =~= widths@.skip(fi + 1));
                    lemma_sum_widths_nonneg(widths@.skip(fi + 1));
                }
                assert(pre >= 0) by {
                    lemma_sum_widths_nonneg(widths@.subrange(0, fi));
                }
                assert forall|j: int| 0 <= j < a.len() implies #[trigger] a[j] == b[j] by {
                    vstd::arithmetic::div_mod::lemma_mod_bound(j, w);
                    assert(0 <= j / w < count as int) by {
                        vstd::arithmetic::div_mod::lemma_div_is_ordered(
                            j,
                            (count as int) * w - 1,
                            w,
                        );
                        lemma_mul_le_iff(count as int, w, (count as int) * w - 1);
                        vstd::arithmetic::div_mod::lemma_div_pos_is_pos(j, w);
                    }
                    lemma_packed_byte_in_row(j / w, j % w, w, stride as int, pre, count as int);
                    assert(a[j] == chunk@[(j / w) * (stride as int) + pre + (j % w)]);
                    assert(chunk@[(j / w) * (stride as int) + pre + (j % w)] == file[
                        p.buffer_offset + start as int * stride as int + ((j / w) * (stride as int)
                            + pre + (j % w))
                    ]);
                    vstd::arithmetic::mul::lemma_mul_is_distributive_add_other_way(
                        stride as int,
                        start as int,
                        j / w,
                    );
                }
                assert(a =~= b);
            }
            assert(crate::decoded::models_of(res->StructArray_fields@) =~= expected);
        }
    }
    Ok(res)
}

/// A byte of one field of one row lies inside the fetched interleaved block.
pub proof fn lemma_packed_byte_in_row(r: int, k: int, w: int, stride: int, pre: int, count: int)
    requires
        0 <= r < count,
        0 <= k < w,
        w >= 1,
        pre + w <= stride,
        pre >= 0,
    ensures
        0 <= r * stride + pre + k < count * stride,
{
    vstd::arithmetic::mul::lemma_mul_inequality(r + 1, count, stride);
    vstd::arithmetic::mul::lemma_mul_is_distributive_add_other_way(stride, r, 1);
    vstd::arithmetic::mul::lemma_mul_nonnegative(r, stride);
}

/// A widths sum splits at any point into a prefix sum and a suffix sum.
pub proof fn lemma_sum_widths_split(ws: Seq<u64>, m: int)
    requires
        0 <= m <= ws.len(),
    ensures
        sum_widths(ws.subrange(0, m)) + sum_widths(ws.skip(m)) == sum_widths(ws),
    decreases m,
{
    if m == 0 {
        assert(ws.subrange(0, 0) =~= Seq::<u64>::empty());
        assert(ws.skip(0) =~= ws);
    } else {
        let pre = ws.subrange(0, m);
        assert(pre[0] == ws[0]);
        assert(pre.drop_first() =~= ws.drop_first().subrange(0, m - 1));
        assert(ws.skip(m) =~= ws.drop_first().skip(m - 1));
        lemma_sum_widths_split(ws.drop_first(), m - 1);
    }
}

/// Appending one width adds it to the sum.
pub proof fn lemma_sum_widths_snoc(ws: Seq<u64>, v: u64)
    ensures
        sum_widths(ws.push(v)) == sum_widths(ws) + v,
    decreases ws.len(),
{
    if ws.len() == 0 {
        assert(ws.push(v)[0] == v);
        assert(ws.push(v).drop_first() =~= Seq::<u64>::empty());
        assert(sum_widths(Seq::<u64>::empty()) == 0);
        assert(sum_widths(ws) == 0);
    } else {
        assert(ws.push(v).drop_first() =~= ws.drop_first().push(v));
        lemma_sum_widths_snoc(ws.drop_first(), v);
    }
}

/// The total byte length of the defined rows among the first `k`.
pub open spec fn bin_cum_len(vals: Seq<Option<Seq<u8>>>, k: int) -> nat
    decreases k,
{
    if k <= 0 {
        0
    } else {
        bin_cum_len(vals, k - 1) + (match vals[k - 1] {
            Some(b) => b.len(),
            None => 0nat,
        })
    }
}

/// The data bytes of the first `k` rows: the defined rows back to back.
pub open spec fn bin_data(vals: Seq<Option<Seq<u8>>>, k: int) -> Seq<u8>
    decreases k,
{
    if k <= 0 {
        Seq::empty()
    } else {
        bin_data(vals, k - 1) + (match vals[k - 1] {
            Some(b) => b,
            None => Seq::empty(),
        })
    }
}

/// The adjusted offsets that encode the rows: each row's cumulative end,
/// with the null adjustment added on null rows, which therefore consume no
/// distinct offset slot.
pub open spec fn bin_encode_offsets(vals: Seq<Option<Seq<u8>>>, null_adjustment: u64) -> Seq<
    u64,
> {
    Seq::new(
        vals.len(),
        |r: int|
            ((bin_cum_len(vals, r + 1) + (if vals[r] is None {
                null_adjustment as nat
            } else {
                0nat
            })) as u64),
    )
}

/// Cumulative lengths grow with the row count.
pub proof fn lemma_bin_cum_len_monotone(vals: Seq<Option<Seq<u8>>>, a: int, b: int)
    requires
        a <= b,
    ensures
        bin_cum_len(vals, a) <= bin_cum_len(vals, b),
    decreases b - a,
{
    if a < b {
        lemma_bin_cum_len_monotone(vals, a, b - 1);
    }
}

/// The data of the first `k` rows is as long as their cumulative length.
pub proof fn lemma_bin_data_len(vals: Seq<Option<Seq<u8>>>, k: int)
    ensures
        bin_data(vals, k).len() == bin_cum_len(vals, k),
    decreases k,
{
    if k > 0 {
        lemma_bin_data_len(vals, k - 1);
    }
}

/// A defined row's bytes sit between its cumulative offsets in the data.
pub proof fn lemma_bin_data_row(vals: Seq<Option<Seq<u8>>>, n: int, r: int)
    requires
        0 <= r < n,
        vals[r] is Some,
    ensures
        bin_data(vals, n).subrange(
            bin_cum_len(vals, r) as int,
            bin_cum_len(vals, r + 1) as int,
        ) == vals[r]->Some_0,
    decreases n,
{
    lemma_bin_data_len(vals, n - 1);
    lemma_bin_data_len(vals, r);
    lemma_bin_data_len(vals, r + 1);
    if r == n - 1 {
        assert(bin_data(vals, n).subrange(
            bin_cum_len(vals, r) as int,
            bin_cum_len(vals, r + 1) as int,
        ) =~= vals[r]->Some_0);
    } else {
        lemma_bin_data_row(vals, n - 1, r);
        lemma_bin_cum_len_monotone(vals, r + 1, n - 1);
        assert(bin_data(vals, n).subrange(
            bin_cum_len(vals, r) as int,
            bin_cum_len(vals, r + 1) as int,
        ) =~= bin_data(vals, n - 1).subrange(
            bin_cum_len(vals, r) as int,
            bin_cum_len(vals, r + 1) as int,
        ));
    }
}

} // verus!
