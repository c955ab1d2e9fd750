//! The buffer address tables and the buffer locator.
//!
//! Three independent ordered tables of `(offset, length)` pairs arrive with
//! each page, one per addressing scope: page-local buffers, column-shared
//! buffers and file-shared buffers. A buffer reference is resolved by
//! indexing into the table of its scope; an out-of-bounds index is a fatal
//! construction error, raised before any I/O is planned.

use vstd::prelude::*;

use crate::errors::ConstructionError;
use crate::format::{Buffer, BufferType};

verus! {

/// The `(offset, length)` table of the buffers shared by the whole file.
#[derive(Debug)]
pub struct FileBuffers {
    pub positions_and_sizes: Vec<(u64, u64)>,
}

/// The `(offset, length)` table of the buffers shared by one column, beside
/// the file-scope tables.
#[derive(Debug)]
pub struct ColumnBuffers {
    pub file_buffers: FileBuffers,
    pub positions_and_sizes: Vec<(u64, u64)>,
}

/// The `(offset, length)` table of one page's own buffers, beside the
/// column- and file-scope tables.
#[derive(Debug)]
pub struct PageBuffers {
    pub column_buffers: ColumnBuffers,
    pub positions_and_sizes: Vec<(u64, u64)>,
}

impl PageBuffers {
    /// The address table that serves the given scope.
    pub open spec fn table_for(&self, buffer_type: BufferType) -> Seq<(u64, u64)> {
        match buffer_type {
            BufferType::Page => self.positions_and_sizes@,
            BufferType::Column => self.column_buffers.positions_and_sizes@,
            BufferType::File => self.column_buffers.file_buffers.positions_and_sizes@,
        }
    }
}

/// What resolving a buffer reference yields: the `(offset, length)` pair at
/// its index in the table of its scope, or a bounds error.
pub open spec fn spec_get_buffer(buffer_desc: Buffer, buffers: &PageBuffers) -> Result<
    (u64, u64),
    ConstructionError,
> {
    let table = buffers.table_for(buffer_desc.buffer_type);
    if buffer_desc.buffer_index < table.len() {
        Ok(table[buffer_desc.buffer_index as int])
    } else {
        Err(
            ConstructionError::BufferIndexOutOfBounds {
                buffer_index: buffer_desc.buffer_index,
                table_len: table.len() as usize,
            },
        )
    }
}

/// Translate a buffer reference into a position in the file. This could be a
/// page buffer, a column buffer, or a file buffer. A reference whose index
/// lies outside its table is a fatal construction error, raised before any
/// scheduling occurs.
pub fn get_buffer(buffer_desc: &Buffer, buffers: &PageBuffers) -> (r: Result<
    (u64, u64),
    ConstructionError,
>)
    ensures
        r == spec_get_buffer(*buffer_desc, buffers),
{
    let table: &Vec<(u64, u64)> = match buffer_desc.buffer_type {
        BufferType::Page => &buffers.positions_and_sizes,
        BufferType::Column => &buffers.column_buffers.positions_and_sizes,
        BufferType::File => &buffers.column_buffers.file_buffers.positions_and_sizes,
    };
    if buffer_desc.buffer_index < table.len() as u64 {
        Ok(table[buffer_desc.buffer_index as usize])
    } else {
        Err(
            ConstructionError::BufferIndexOutOfBounds {
                buffer_index: buffer_desc.buffer_index,
                table_len: table.len(),
            },
        )
    }
}

} // verus!
