//! Fragment layouts and the decisions of the hostile-layout generator.
//!
//! A fragment is a set of data files; each file stores a subset of the
//! schema's fields, identified by field id. The generator that exercises
//! storage against unusual layouts needs a handful of pure decisions — how
//! field ids get a hole and a new order, how columns are assigned to files,
//! when a drawn layout must be rejected — which live here; drawing random
//! numbers and writing files stay with the caller.

use vstd::prelude::*;

verus! {

/// One data file of a fragment: the ids of the fields it stores, in the
/// order it stores them.
#[derive(Debug)]
pub struct DataFile {
    pub fields: Vec<i32>,
}

/// One fragment: its id, its data files, and its physical row count where
/// known.
#[derive(Debug)]
pub struct Fragment {
    pub id: u64,
    pub files: Vec<DataFile>,
    pub physical_rows: Option<usize>,
}

/// The field-id structure of one fragment: per file, its field ids.
pub open spec fn spec_field_structure(fragment: &Fragment) -> Seq<Seq<i32>> {
    fragment.files@.map_values(|f: DataFile| f.fields@)
}

/// The field ids of each of a fragment's files, in file order.
pub fn field_structure(fragment: &Fragment) -> (r: Vec<Vec<i32>>)
    ensures
        r@.map_values(|v: Vec<i32>| v@) == spec_field_structure(fragment),
{
    let mut out: Vec<Vec<i32>> = Vec::new();
    let mut i: usize = 0;
    while i < fragment.files.len()
        invariant
            i <= fragment.files@.len(),
            out@.len() == i as nat,
            forall|j: int| 0 <= j < i as int ==> (#[trigger] out@[j])@ == fragment.files@[j].fields@,
        decreases fragment.files@.len() - i,
    {
        let file = &fragment.files[i];
        let mut ids: Vec<i32> = Vec::new();
        let mut k: usize = 0;
        while k < file.fields.len()
            invariant
                k <= file.fields@.len(),
                ids@ =~= file.fields@.subrange(0, k as int),
            decreases file.fields@.len() - k,
        {
            proof {
                assert(file.fields@.subrange(0, k as int).push(file.fields@[k as int])
                    =~= file.fields@.subrange(0, k + 1));
            }
            ids.push(file.fields[k]);
            k = k + 1;
        }
        proof {
            assert(ids@ =~= file.fields@);
        }
        out.push(ids);
        i = i + 1;
    }
    proof {
        assert(out@.map_values(|v: Vec<i32>| v@) =~= spec_field_structure(fragment));
    }
    out
}

/// The field-id structure of every fragment, in order.
pub fn get_field_structure(fragments: &Vec<Fragment>) -> (r: Vec<Vec<Vec<i32>>>)
    ensures
        r@.len() == fragments@.len(),
        forall|i: int|
            0 <= i < fragments@.len() ==> (#[trigger] r@[i])@.map_values(|v: Vec<i32>| v@)
                == spec_field_structure(&fragments@[i]),
{
    let mut out: Vec<Vec<Vec<i32>>> = Vec::new();
    let mut i: usize = 0;
    while i < fragments.len()
        invariant
            i <= fragments@.len(),
            out@.len() == i as nat,
            forall|j: int|
                0 <= j < i as int ==> (#[trigger] out@[j])@.map_values(|v: Vec<i32>| v@)
                    == spec_field_structure(&fragments@[j]),
        decreases fragments@.len() - i,
    {
        out.push(field_structure(&fragments[i]));
        i = i + 1;
    }
    out
}

/// A number of fragments.
#[derive(Debug)]
pub struct FragmentCount(pub u32);

impl From<u32> for FragmentCount {
    fn from(value: u32) -> (r: Self) {
        FragmentCount(value)
    }
}

impl vstd::std_specs::convert::FromSpecImpl<u32> for FragmentCount {
    open spec fn obeys_from_spec() -> bool {
        true
    }

    open spec fn from_spec(value: u32) -> Self {
        FragmentCount(value)
    }
}

/// A number of rows per fragment.
#[derive(Debug)]
pub struct FragmentRowCount(pub u32);

impl From<u32> for FragmentRowCount {
    fn from(value: u32) -> (r: Self) {
        FragmentRowCount(value)
    }
}

impl vstd::std_specs::convert::FromSpecImpl<u32> for FragmentRowCount {
    open spec fn obeys_from_spec() -> bool {
        true
    }

    open spec fn from_spec(value: u32) -> Self {
        FragmentRowCount(value)
    }
}

/// Add a hole to a run of field ids: every id at or after the hole position
/// moves up by one, so the ids are no longer consecutive there.
pub fn add_id_hole(ids: &Vec<i32>, hole_pos: usize) -> (r: Vec<i32>)
    requires
        forall|j: int| 0 <= j < ids@.len() ==> (#[trigger] ids@[j]) < i32::MAX,
    ensures
        r@.len() == ids@.len(),
        forall|j: int| 0 <= j < ids@.len() ==> #[trigger] r@[j] == ids@[j] + (if j >= hole_pos {
            1int
        } else {
            0int
        }),
{
    let mut out: Vec<i32> = Vec::new();
    let mut i: usize = 0;
    while i < ids.len()
        invariant
            forall|j: int| 0 <= j < ids@.len() ==> (#[trigger] ids@[j]) < i32::MAX,
            i <= ids@.len(),
            out@.len() == i as nat,
            forall|j: int|
                0 <= j < i as int ==> #[trigger] out@[j] == ids@[j] + (if j >= hole_pos {
                    1int
                } else {
                    0int
                }),
        decreases ids@.len() - i,
    {
        if i >= hole_pos {
            out.push(ids[i] + 1);
        } else {
            out.push(ids[i]);
        }
        i = i + 1;
    }
    out
}

/// Whether a drawn order is accepted: an order over more than one id must
/// differ from the original, else the generator draws again.
pub fn shuffle_accepted(new_ids: &Vec<i32>, old_ids: &Vec<i32>) -> (r: bool)
    ensures
        r == (new_ids@.len() <= 1 || new_ids@ != old_ids@),
{
    if new_ids.len() <= 1 {
        return true;
    }
    if new_ids.len() != old_ids.len() {
        proof {
            assert(new_ids@ != old_ids@) by {
                assert(new_ids@.len() != old_ids@.len());
            }
        }
        return true;
    }
    let mut i: usize = 0;
    while i < new_ids.len()
        invariant
            new_ids@.len() == old_ids@.len(),
            i <= new_ids@.len(),
            forall|j: int| 0 <= j < i as int ==> new_ids@[j] == old_ids@[j],
        decreases new_ids@.len() - i,
    {
        if new_ids[i] != old_ids[i] {
            proof {
                assert(new_ids@ != old_ids@) by {
                    assert(new_ids@[i as int] != old_ids@[i as int]);
                }
            }
            return true;
        }
        i = i + 1;
    }
    proof {
        assert(new_ids@ =~= old_ids@);
    }
    false
}

/// Assign columns to files round-robin: column `i` goes to file `i` modulo
/// the file count. The caller shuffles the result before using it.
pub fn cycle_assignments(num_files: usize, num_columns: usize) -> (r: Vec<usize>)
    requires
        num_files >= 1,
    ensures
        r@.len() == num_columns,
        forall|j: int| 0 <= j < num_columns ==> #[trigger] r@[j] == j % (num_files as int),
{
    let mut out: Vec<usize> = Vec::new();
    let mut i: usize = 0;
    while i < num_columns
        invariant
            num_files >= 1,
            i <= num_columns,
            out@.len() == i as nat,
            forall|j: int| 0 <= j < i as int ==> #[trigger] out@[j] == j % (num_files as int),
        decreases num_columns - i,
    {
        out.push(i % num_files);
        i = i + 1;
    }
    out
}

/// The indices of the columns one file stores, in schema order: exactly
/// those whose assignment equals the file id, in increasing order.
pub fn columns_for_file(assignments: &Vec<usize>, file_id: usize) -> (r: Vec<usize>)
    ensures
        forall|k: int|
            0 <= k < r@.len() ==> (#[trigger] r@[k]) < assignments@.len() && assignments@[
                r@[k] as int
            ] == file_id,
        forall|k1: int, k2: int| 0 <= k1 < k2 < r@.len() ==> r@[k1] < r@[k2],
        forall|j: int|
            0 <= j < assignments@.len() && assignments@[j] == file_id ==> r@.contains(j as usize),
{
    let mut out: Vec<usize> = Vec::new();
    let mut i: usize = 0;
    while i < assignments.len()
        invariant
            i <= assignments@.len(),
            forall|k: int|
                0 <= k < out@.len() ==> (#[trigger] out@[k]) < i as int && assignments@[
                    out@[k] as int
                ] == file_id,
            forall|k1: int, k2: int| 0 <= k1 < k2 < out@.len() ==> out@[k1] < out@[k2],
            forall|j: int|
                0 <= j < i as int && assignments@[j] == file_id ==> out@.contains(j as usize),
        decreases assignments@.len() - i,
    {
        if assignments[i] == file_id {
            let ghost prev = out@;
            out.push(i);
            proof {
                assert forall|j: int|
                    0 <= j < i as int + 1 && assignments@[j] == file_id implies out@.contains(
                    j as usize,
                ) by {
                    if j < i as int {
                        let w = choose|w: int| 0 <= w < prev.len() && prev[w] == j as usize;
                        assert(out@[w] == j as usize);
                    } else {
                        assert(out@[out@.len() - 1] == j as usize);
                    }
                }
            }
        }
        i = i + 1;
    }
    out
}

/// Whether the first two files must be swapped: the files' field ids, read
/// in file order, coincide with the schema's order, and there is more than
/// one file to swap.
pub fn should_swap_first_two(files_fields: &Vec<Vec<i32>>, schema_ids: &Vec<i32>) -> (r: bool)
    ensures
        r == (flatten_ids(files_fields@) == schema_ids@ && files_fields@.len() > 1),
{
    let flat = flatten_files(files_fields);
    let same = ids_equal(&flat, schema_ids);
    same && files_fields.len() > 1
}

/// The field ids of all files, concatenated in file order.
pub open spec fn flatten_ids(files: Seq<Vec<i32>>) -> Seq<i32>
    decreases files.len(),
{
    if files.len() == 0 {
        Seq::empty()
    } else {
        flatten_ids(files.drop_last()) + files.last()@
    }
}

/// Concatenate the files' field ids in file order.
fn flatten_files(files_fields: &Vec<Vec<i32>>) -> (r: Vec<i32>)
    ensures
        r@ == flatten_ids(files_fields@),
{
    let mut out: Vec<i32> = Vec::new();
    let mut i: usize = 0;
    proof {
        assert(files_fields@.subrange(0, 0) =~= Seq::<Vec<i32>>::empty());
    }
    while i < files_fields.len()
        invariant
            i <= files_fields@.len(),
            out@ == flatten_ids(files_fields@.subrange(0, i as int)),
        decreases files_fields@.len() - i,
    {
        let file = &files_fields[i];
        let mut k: usize = 0;
        let ghost prev = out@;
        while k < file.len()
            invariant
                k <= file@.len(),
                file == &files_fields@[i as int],
                out@ =~= prev + file@.subrange(0, k as int),
            decreases file@.len() - k,
        {
            proof {
                assert((prev + file@.subrange(0, k as int)).push(file@[k as int]) =~= prev
                    + file@.subrange(0, k + 1));
            }
            out.push(file[k]);
            k = k + 1;
        }
        proof {
            assert(file@.subrange(0, file@.len() as int) =~= file@);
            assert(files_fields@.subrange(0, i + 1).drop_last() =~= files_fields@.subrange(
                0,
                i as int,
            ));
            assert(files_fields@.subrange(0, i + 1).last() == files_fields@[i as int]);
        }
        i = i + 1;
    }
    proof {
        assert(files_fields@.subrange(0, files_fields@.len() as int) =~= files_fields@);
    }
    out
}

/// Whether two runs of field ids are equal.
fn ids_equal(a: &Vec<i32>, b: &Vec<i32>) -> (r: bool)
    ensures
        r == (a@ == b@),
{
    if a.len() != b.len() {
        proof {
            assert(a@ != b@) by {
                assert(a@.len() != b@.len());
            }
        }
        return false;
    }
    let mut i: usize = 0;
    while i < a.len()
        invariant
            a@.len() == b@.len(),
            i <= a@.len(),
            forall|j: int| 0 <= j < i as int ==> a@[j] == b@[j],
        decreases a@.len() - i,
    {
        if a[i] != b[i] {
            proof {
                assert(a@ != b@) by {
                    assert(a@[i as int] != b@[i as int]);
                }
            }
            return false;
        }
        i = i + 1;
    }
    proof {
        assert(a@ =~= b@);
    }
    true
}

/// Whether a fragment's layout repeats the first fragment's: the generator
/// rejects a drawn layout that equals the first one while the schema has
/// more than one field, since such a layout is not hostile.
pub fn layout_repeats(
    fields: &Vec<Vec<i32>>,
    first_fields: &Vec<Vec<i32>>,
    num_schema_fields: usize,
) -> (r: bool)
    ensures
        r == (structures_equal_spec(fields@, first_fields@) && num_schema_fields > 1),
{
    structures_equal(fields, first_fields) && num_schema_fields > 1
}

/// Whether two field structures hold the same ids file by file.
pub open spec fn structures_equal_spec(a: Seq<Vec<i32>>, b: Seq<Vec<i32>>) -> bool {
    a.map_values(|v: Vec<i32>| v@) == b.map_values(|v: Vec<i32>| v@)
}

/// Compare two field structures file by file.
fn structures_equal(a: &Vec<Vec<i32>>, b: &Vec<Vec<i32>>) -> (r: bool)
    ensures
        r == structures_equal_spec(a@, b@),
{
    let ghost av = a@.map_values(|v: Vec<i32>| v@);
    let ghost bv = b@.map_values(|v: Vec<i32>| v@);
    if a.len() != b.len() {
        proof {
            assert(av != bv) by {
                assert(av.len() != bv.len());
            }
        }
        return false;
    }
    let mut i: usize = 0;
    while i < a.len()
        invariant
            av == a@.map_values(|v: Vec<i32>| v@),
            bv == b@.map_values(|v: Vec<i32>| v@),
            a@.len() == b@.len(),
            i <= a@.len(),
            forall|j: int| 0 <= j < i as int ==> av[j] == bv[j],
        decreases a@.len() - i,
    {
        if !ids_equal(&a[i], &b[i]) {
            proof {
                assert(av != bv) by {
                    assert(av[i as int] != bv[i as int]);
                }
            }
            return false;
        }
        i = i + 1;
    }
    proof {
        assert(av =~= bv);
    }
    true
}

} // verus!
