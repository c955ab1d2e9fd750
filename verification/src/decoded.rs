//! Decoded typed arrays and their mathematical models.
//!
//! `DecodedArray` is what `decode` hands back: plain values grouped the way
//! the logical type will consume them. `ArrayModel` is the same shape over
//! mathematical sequences; every contract about decoding speaks of models.

use vstd::prelude::*;

use crate::errors::ExecutionError;

verus! {

/// The mathematical model of a decoded array.
#[allow(inconsistent_fields)]
pub enum ArrayModel {
    /// Fixed-width rows of `bytes_per_value` bytes, packed back to back.
    Fixed { bytes_per_value: nat, data: Seq<u8> },
    /// Boolean rows, one per bit of the source bitmap.
    Boolean { values: Seq<bool> },
    /// Rows of an inner array, each defined only where its validity bit is
    /// set.
    Nullable { validity: Seq<bool>, values: Box<ArrayModel> },
    /// Rows that are all null.
    AllNull { num_rows: nat },
    /// Variable-width byte rows; a `None` row is null.
    VarBin { values: Seq<Option<Seq<u8>>> },
    /// Rows of `dimension` consecutive items each.
    FixedSizeListArray { dimension: nat, items: Box<ArrayModel> },
    /// Raw dictionary indices beside the dictionary items.
    DictionaryArray { indices: Box<ArrayModel>, items: Box<ArrayModel> },
    /// One inner array per struct field, in schema order.
    StructArray { fields: Seq<ArrayModel> },
}

impl ArrayModel {
    /// The number of logical rows the array holds.
    pub open spec fn rows(self) -> nat
        decreases self,
    {
        match self {
            ArrayModel::Fixed { bytes_per_value, data } => if bytes_per_value == 0 {
                0
            } else {
                data.len() / bytes_per_value
            },
            ArrayModel::Boolean { values } => values.len(),
            ArrayModel::Nullable { validity, values: _ } => validity.len(),
            ArrayModel::AllNull { num_rows } => num_rows,
            ArrayModel::VarBin { values } => values.len(),
            ArrayModel::FixedSizeListArray { dimension, items } => if dimension == 0 {
                0
            } else {
                items.rows() / dimension
            },
            ArrayModel::DictionaryArray { indices, items: _ } => indices.rows(),
            ArrayModel::StructArray { fields } => if fields.len() == 0 {
                0
            } else {
                fields[0].rows()
            },
        }
    }
}

/// A decoded typed array: the values a page scheduler materializes for one
/// row range.
#[derive(Debug)]
#[allow(inconsistent_fields)]
pub enum DecodedArray {
    /// Fixed-width rows of `bytes_per_value` bytes, packed back to back.
    Fixed { bytes_per_value: u64, data: Vec<u8> },
    /// Boolean rows, one per bit of the source bitmap.
    Boolean { values: Vec<bool> },
    /// Rows of an inner array, each defined only where its validity bit is
    /// set.
    Nullable { validity: Vec<bool>, values: Box<DecodedArray> },
    /// Rows that are all null.
    AllNull { num_rows: u64 },
    /// Variable-width byte rows; a `None` row is null.
    VarBin { values: Vec<Option<Vec<u8>>> },
    /// Rows of `dimension` consecutive items each.
    FixedSizeListArray { dimension: u64, items: Box<DecodedArray> },
    /// Raw dictionary indices beside the dictionary items.
    DictionaryArray { indices: Box<DecodedArray>, items: Box<DecodedArray> },
    /// One inner array per struct field, in schema order.
    StructArray { fields: Vec<DecodedArray> },
}

/// The model of one decoded array.
pub open spec fn model_of(a: DecodedArray) -> ArrayModel
    decreases a,
{
    match a {
        DecodedArray::Fixed { bytes_per_value, data } => ArrayModel::Fixed {
            bytes_per_value: bytes_per_value as nat,
            data: data@,
        },
        DecodedArray::Boolean { values } => ArrayModel::Boolean { values: values@ },
        DecodedArray::Nullable { validity, values } => ArrayModel::Nullable {
            validity: validity@,
            values: Box::new(model_of(*values)),
        },
        DecodedArray::AllNull { num_rows } => ArrayModel::AllNull { num_rows: num_rows as nat },
        DecodedArray::VarBin { values } => ArrayModel::VarBin { values: var_bin_views(values@) },
        DecodedArray::FixedSizeListArray { dimension, items } => ArrayModel::FixedSizeListArray {
            dimension: dimension as nat,
            items: Box::new(model_of(*items)),
        },
        DecodedArray::DictionaryArray { indices, items } => ArrayModel::DictionaryArray {
            indices: Box::new(model_of(*indices)),
            items: Box::new(model_of(*items)),
        },
        DecodedArray::StructArray { fields } => ArrayModel::StructArray {
            fields: models_of(fields@),
        },
    }
}

/// The views of a sequence of optional byte rows.
pub open spec fn var_bin_views(values: Seq<Option<Vec<u8>>>) -> Seq<Option<Seq<u8>>> {
    values.map_values(
        |v: Option<Vec<u8>>|
            match v {
                Some(b) => Some(b@),
                None => None,
            },
    )
}

/// The models of a sequence of decoded arrays, in order.
pub open spec fn models_of(list: Seq<DecodedArray>) -> Seq<ArrayModel>
    decreases list,
{
    if list.len() == 0 {
        Seq::empty()
    } else {
        models_of(list.drop_last()).push(model_of(list.last()))
    }
}

/// Each model in `models_of` is the model of the array at its position.
pub proof fn lemma_models_of_index(list: Seq<DecodedArray>, i: int)
    requires
        0 <= i < list.len(),
    ensures
        models_of(list).len() == list.len(),
        models_of(list)[i] == model_of(list[i]),
    decreases list.len(),
{
    lemma_models_of_len(list);
    if i == list.len() - 1 {
    } else {
        lemma_models_of_index(list.drop_last(), i);
    }
}

/// `models_of` preserves length.
pub proof fn lemma_models_of_len(list: Seq<DecodedArray>)
    ensures
        models_of(list).len() == list.len(),
    decreases list.len(),
{
    if list.len() > 0 {
        lemma_models_of_len(list.drop_last());
    }
}

impl View for DecodedArray {
    type V = ArrayModel;

    open spec fn view(&self) -> ArrayModel {
        model_of(*self)
    }
}

/// Whether an executable decode result carries the model result: equal
/// errors, or a value whose model is the specified one.
pub open spec fn decode_result_matches(
    r: Result<DecodedArray, ExecutionError>,
    m: Result<ArrayModel, ExecutionError>,
) -> bool {
    match r {
        Ok(a) => m == Ok::<ArrayModel, ExecutionError>(a@),
        Err(e) => m == Err::<ArrayModel, ExecutionError>(e),
    }
}

impl DecodedArray {
    /// The number of logical rows the array holds.
    pub fn row_count(&self) -> (r: u64)
        ensures
            r as nat == self@.rows(),
        decreases self,
    {
        match self {
            DecodedArray::Fixed { bytes_per_value, data } => {
                if *bytes_per_value == 0 {
                    0
                } else {
                    (data.len() as u64) / *bytes_per_value
                }
            },
            DecodedArray::Boolean { values } => values.len() as u64,
            DecodedArray::Nullable { validity, values: _ } => validity.len() as u64,
            DecodedArray::AllNull { num_rows } => *num_rows,
            DecodedArray::VarBin { values } => values.len() as u64,
            DecodedArray::FixedSizeListArray { dimension, items } => {
                if *dimension == 0 {
                    0
                } else {
                    items.row_count() / *dimension
                }
            },
            DecodedArray::DictionaryArray { indices, items: _ } => indices.row_count(),
            DecodedArray::StructArray { fields } => {
                if fields.len() == 0 {
                    proof {
                        lemma_models_of_len(fields@);
                    }
                    0
                } else {
                    proof {
                        lemma_models_of_index(fields@, 0);
                    }
                    fields[0].row_count()
                }
            },
        }
    }
}

} // verus!
