//! Laws of the physical strategies: properties that hold of every page, not
//! of chosen values. Each is stated over the same spec functions the
//! strategies' own contracts use.

use vstd::prelude::*;

use crate::bits::{file_bit, le_bytes, le_value, lemma_le_bytes_len, pow256};
use crate::compression::CompressionScheme;
use crate::decode::{
    bin_cum_len, bin_data, bin_encode_offsets, bin_row_value, bin_rows_ok, model_as_u64s,
    model_take,
};
use crate::decoded::ArrayModel;
use crate::errors::ExecutionError;
use crate::scheduler::{
    BasicPageScheduler, DenseBitmapScheduler, FixedListScheduler, PageScheduler,
    ValuePageScheduler,
};

verus! {

/// Law: for an uncompressed value page, the plan for any row range within
/// the page is exactly the matching byte range of its buffer, and decoding
/// reproduces exactly the bytes written there, reinterpreted at the declared
/// width — including for empty ranges.
pub proof fn lemma_value_round_trip(v: ValuePageScheduler, file: Seq<u8>, start: u64, end: u64)
    requires
        v.compression_config.scheme == CompressionScheme::NoCompression,
        v.bytes_per_value >= 1,
        start <= end,
        end <= v.buffer_size / v.bytes_per_value,
        v.buffer_offset + v.buffer_size <= u64::MAX,
        v.buffer_offset + v.buffer_size <= file.len(),
    ensures
        PageScheduler::Value(v).schedule_spec(start, end) == Ok::<Seq<(u64, u64)>, ExecutionError>(
            seq![
                (
                    (v.buffer_offset + start * v.bytes_per_value) as u64,
                    ((end - start) * v.bytes_per_value) as u64,
                ),
            ],
        ),
        PageScheduler::Value(v).decoded_spec(file, start as int, end as int) == Ok::<
            ArrayModel,
            ExecutionError,
        >(
            ArrayModel::Fixed {
                bytes_per_value: v.bytes_per_value as nat,
                data: file.subrange(
                    v.buffer_offset + start as int * v.bytes_per_value as int,
                    v.buffer_offset + end as int * v.bytes_per_value as int,
                ),
            },
        ),
{
    crate::decode::lemma_mul_le_iff(end as int, v.bytes_per_value as int, v.buffer_size as int);
    vstd::arithmetic::mul::lemma_mul_inequality(start as int, end as int, v.bytes_per_value as int);
}

/// Law: a fixed-size-list page translates a logical row range to the item
/// row range multiplied by its dimension, both in what it plans and in what
/// it decodes; a decoded range exposes exactly its logical rows.
pub proof fn lemma_fixed_size_list_translation(
    f: FixedListScheduler,
    file: Seq<u8>,
    start: u64,
    end: u64,
)
    requires
        f.dimension >= 1,
        start <= end,
        end * f.dimension <= u64::MAX,
    ensures
        PageScheduler::FixedList(f).schedule_spec(start, end) == f.items.schedule_spec(
            (start * f.dimension) as u64,
            (end * f.dimension) as u64,
        ),
        (match PageScheduler::FixedList(f).decoded_spec(file, start as int, end as int) {
            Ok(m) => m.rows() == end - start,
            Err(_) => true,
        }),
{
    match PageScheduler::FixedList(f).decoded_spec(file, start as int, end as int) {
        Ok(m) => {
            let inner = f.items.decoded_spec(file, start as int * f.dimension as int, end as int * f.dimension as int);
            assert(inner is Ok);
            let im = inner->Ok_0;
            assert(im.rows() == (end - start) as int * f.dimension as int);
            assert(m.rows() == im.rows() / (f.dimension as nat));
            vstd::arithmetic::div_mod::lemma_div_multiples_vanish(
                (end - start) as int,
                f.dimension as int,
            );
            vstd::arithmetic::mul::lemma_mul_is_commutative((end - start) as int, f.dimension as int);
        },
        Err(_) => {},
    }
}

/// Law: where a nullable page's validity is a dense bitmap, a decoded row is
/// null exactly where its bitmap bit is clear, and the values strategy plays
/// no part in which rows are null: the nullness of row `i` is the bit
/// `start + i` of the bitmap's buffer alone.
pub proof fn lemma_some_nulls_bitmap(
    bm: DenseBitmapScheduler,
    values: Box<PageScheduler>,
    file: Seq<u8>,
    start: u64,
    end: u64,
)
    requires
        start <= end,
        (match values.decoded_spec(file, start as int, end as int) {
            Ok(wm) => wm.rows() == end - start,
            Err(_) => false,
        }),
    ensures
        ({
            let s = PageScheduler::Basic(
                BasicPageScheduler::SomeNulls {
                    validity: Box::new(PageScheduler::DenseBitmap(bm)),
                    values,
                },
            );
            match s.decoded_spec(file, start as int, end as int) {
                Ok(m) => m matches ArrayModel::Nullable { validity, values: inner }
                    && validity.len() == end - start && (forall|i: int|
                    0 <= i < end - start ==> validity[i] == file_bit(
                        file,
                        bm.buffer_offset as int,
                        start + i,
                    )) && *inner == values.decoded_spec(file, start as int, end as int)->Ok_0,
                Err(_) => false,
            }
        }),
{
    let s = PageScheduler::Basic(
        BasicPageScheduler::SomeNulls {
            validity: Box::new(PageScheduler::DenseBitmap(bm)),
            values,
        },
    );
    let vm = PageScheduler::DenseBitmap(bm).decoded_spec(file, start as int, end as int);
    assert(vm is Ok);
    assert(vm->Ok_0 matches ArrayModel::Boolean { values: bits } && bits.len() == end - start);
}

/// Law: materializing a dictionary takes, for every row, exactly the item at
/// its index: fixed-width rows are the item's bytes, boolean and
/// variable-width rows are the item itself.
pub proof fn lemma_dictionary_materializes(items: ArrayModel, idxs: Seq<u64>)
    requires
        model_take(items, idxs) is Ok,
    ensures
        (match (items, model_take(items, idxs)->Ok_0) {
            (
                ArrayModel::Fixed { bytes_per_value: bpv, data },
                ArrayModel::Fixed { bytes_per_value: obpv, data: odata },
            ) => obpv == bpv && odata.len() == idxs.len() * bpv && (forall|j: int|
                0 <= j < idxs.len() ==> #[trigger] odata.subrange(j * bpv, (j + 1) * bpv)
                    == data.subrange(
                    (idxs[j] as int) * bpv,
                    (idxs[j] as int + 1) * bpv,
                )),
            (
                ArrayModel::Boolean { values },
                ArrayModel::Boolean { values: ovalues },
            ) => ovalues.len() == idxs.len() && (forall|j: int|
                0 <= j < idxs.len() ==> #[trigger] ovalues[j] == values[idxs[j] as int]),
            (
                ArrayModel::VarBin { values },
                ArrayModel::VarBin { values: ovalues },
            ) => ovalues.len() == idxs.len() && (forall|j: int|
                0 <= j < idxs.len() ==> #[trigger] ovalues[j] == values[idxs[j] as int]),
            (ArrayModel::Fixed { .. }, _) => false,
            (ArrayModel::Boolean { .. }, _) => false,
            (ArrayModel::VarBin { .. }, _) => false,
            (_, _) => true,
        }),
{
    match items {
        ArrayModel::Fixed { bytes_per_value: bpv, data } => {
            let taken = model_take(items, idxs)->Ok_0;
            let odata = taken->Fixed_data;
            assert forall|j: int| 0 <= j < idxs.len() implies #[trigger] odata.subrange(
                j * (bpv as int),
                (j + 1) * (bpv as int),
            ) == data.subrange(
                (idxs[j] as int) * (bpv as int),
                (idxs[j] as int + 1) * (bpv as int),
            ) by {
                vstd::arithmetic::mul::lemma_mul_inequality(j + 1, idxs.len() as int, bpv as int);
                vstd::arithmetic::mul::lemma_mul_is_distributive_add_other_way(
                    bpv as int,
                    j,
                    1,
                );
                vstd::arithmetic::mul::lemma_mul_is_distributive_add_other_way(
                    bpv as int,
                    idxs[j] as int,
                    1,
                );
                vstd::arithmetic::mul::lemma_mul_nonnegative(j, bpv as int);
                let osub = odata.subrange(j * (bpv as int), (j + 1) * (bpv as int));
                let dsub = data.subrange(
                    (idxs[j] as int) * (bpv as int),
                    (idxs[j] as int + 1) * (bpv as int),
                );
                assert(idxs[j] < (data.len() as int) / (bpv as int));
                vstd::arithmetic::div_mod::lemma_fundamental_div_mod(
                    data.len() as int,
                    bpv as int,
                );
                vstd::arithmetic::mul::lemma_mul_is_commutative(
                    bpv as int,
                    (data.len() as int) / (bpv as int),
                );
                vstd::arithmetic::mul::lemma_mul_inequality(
                    idxs[j] as int + 1,
                    (data.len() as int) / (bpv as int),
                    bpv as int,
                );
                assert forall|k: int| 0 <= k < osub.len() implies #[trigger] osub[k] == dsub[k] by {
                    assert(osub[k] == odata[j * (bpv as int) + k]);
                    vstd::arithmetic::div_mod::lemma_fundamental_div_mod_converse(
                        j * (bpv as int) + k,
                        bpv as int,
                        j,
                        k,
                    );
                }
                assert(osub =~= dsub);
            }
        },
        _ => {},
    }
}

/// Law: where the caller wants the dictionary itself, decoding hands back
/// the raw pair: the decoded indices unchanged, beside the items array.
pub proof fn lemma_dictionary_raw_pair(
    d: crate::scheduler::DictionaryPageScheduler,
    file: Seq<u8>,
    start: int,
    end: int,
)
    requires
        !d.should_decode_dict,
        d.indices.decoded_spec(file, start, end) is Ok,
        (match model_as_u64s(d.indices.decoded_spec(file, start, end)->Ok_0) {
            Ok(idxs) => idxs.len() == end - start,
            Err(_) => false,
        }),
        d.items.decoded_spec(file, 0, d.num_dictionary_items as int) is Ok,
    ensures
        PageScheduler::Dictionary(d).decoded_spec(file, start, end) == Ok::<
            ArrayModel,
            ExecutionError,
        >(
            ArrayModel::DictionaryArray {
                indices: Box::new(d.indices.decoded_spec(file, start, end)->Ok_0),
                items: Box::new(d.items.decoded_spec(file, 0, d.num_dictionary_items as int)->Ok_0),
            },
        ),
{
}

/// Law: encoding variable-width rows into adjusted offsets and data bytes
/// and decoding them back recovers every row byte for byte, nulls included —
/// empty rows and rows holding any byte value among them.
pub proof fn lemma_binary_round_trip(vals: Seq<Option<Seq<u8>>>, null_adjustment: u64)
    requires
        bin_cum_len(vals, vals.len() as int) < null_adjustment,
        null_adjustment + bin_cum_len(vals, vals.len() as int) <= u64::MAX,
    ensures
        bin_rows_ok(
            bin_encode_offsets(vals, null_adjustment),
            null_adjustment,
            0,
            0,
            vals.len() as int,
            bin_data(vals, vals.len() as int).len(),
        ),
        forall|r: int|
            0 <= r < vals.len() ==> #[trigger] bin_row_value(
                bin_encode_offsets(vals, null_adjustment),
                null_adjustment,
                0,
                r,
                bin_data(vals, vals.len() as int),
            ) == vals[r],
{
    let offs = bin_encode_offsets(vals, null_adjustment);
    let data = bin_data(vals, vals.len() as int);
    let na = null_adjustment;
    crate::decode::lemma_bin_data_len(vals, vals.len() as int);
    assert forall|r: int| 0 <= r < vals.len() implies {
        &&& crate::decode::bin_start_off(offs, na, 0, r) == bin_cum_len(vals, r)
        &&& crate::decode::bin_end_off(offs, na, 0, r) == bin_cum_len(vals, r + 1)
        &&& bin_cum_len(vals, r) <= bin_cum_len(vals, r + 1)
        &&& bin_cum_len(vals, r + 1) <= bin_cum_len(vals, vals.len() as int)
    } by {
        crate::decode::lemma_bin_cum_len_monotone(vals, r, vals.len() as int);
        crate::decode::lemma_bin_cum_len_monotone(vals, r + 1, vals.len() as int);
        if r > 0 {
            crate::decode::lemma_bin_cum_len_monotone(vals, r - 1, vals.len() as int);
        }
        assert(offs[r] as nat % na as nat == bin_cum_len(vals, r + 1)) by {
            if vals[r] is None {
                assert(offs[r] == bin_cum_len(vals, r + 1) + na);
                vstd::arithmetic::div_mod::lemma_mod_adds(
                    bin_cum_len(vals, r + 1) as int,
                    na as int,
                    na as int,
                );
                vstd::arithmetic::div_mod::lemma_small_mod(bin_cum_len(vals, r + 1), na as nat);
                vstd::arithmetic::div_mod::lemma_mod_self_0(na as int);
            } else {
                assert(offs[r] == bin_cum_len(vals, r + 1));
                vstd::arithmetic::div_mod::lemma_small_mod(bin_cum_len(vals, r + 1), na as nat);
            }
        }
        if r > 0 {
            assert(offs[r - 1] as nat % na as nat == bin_cum_len(vals, r)) by {
                if vals[r - 1] is None {
                    assert(offs[r - 1] == bin_cum_len(vals, r) + na);
                    vstd::arithmetic::div_mod::lemma_mod_add_multiples_vanish(
                        bin_cum_len(vals, r) as int,
                        na as int,
                    );
                    vstd::arithmetic::div_mod::lemma_small_mod(bin_cum_len(vals, r), na as nat);
                } else {
                    assert(offs[r - 1] == bin_cum_len(vals, r));
                    vstd::arithmetic::div_mod::lemma_small_mod(bin_cum_len(vals, r), na as nat);
                }
            }
        }
    }
    assert forall|r: int| 0 <= r < vals.len() implies #[trigger] bin_row_value(
        offs,
        na,
        0,
        r,
        data,
    ) == vals[r] by {
        crate::decode::lemma_bin_cum_len_monotone(vals, r, vals.len() as int);
        crate::decode::lemma_bin_cum_len_monotone(vals, r + 1, vals.len() as int);
        match vals[r] {
            None => {
                assert(offs[r] == bin_cum_len(vals, r + 1) + na);
                assert(offs[r] >= na);
            },
            Some(b) => {
                assert(offs[r] == bin_cum_len(vals, r + 1));
                assert(offs[r] < na);
                crate::decode::lemma_bin_data_row(vals, vals.len() as int, r);
            },
        }
    }
}

/// Law: the little-endian widening the strategies write and the
/// little-endian reading the consumers perform invert each other, for every
/// value that fits the width.
pub proof fn lemma_le_round_trip(v: nat, width: nat)
    requires
        v < pow256(width),
    ensures
        le_value(le_bytes(v, width)) == v,
    decreases width,
{
    if width == 0 {
    } else {
        assert(v / 256 < pow256((width - 1) as nat)) by (nonlinear_arith)
            requires
                v < pow256(width),
                pow256(width) == 256 * pow256((width - 1) as nat),
        ;
        lemma_le_round_trip(v / 256, (width - 1) as nat);
        lemma_le_bytes_len(v / 256, (width - 1) as nat);
        assert(le_bytes(v, width).drop_first() =~= le_bytes(v / 256, (width - 1) as nat));
        assert(v % 256 + 256 * (v / 256) == v);
    }
}

} // verus!
