//! The plain settings a dataset loader is built from.
//!
//! Opening a table starts from a URI and a handful of knobs: cache sizes,
//! a block size, a version or tag to pin. The builder here holds those
//! settings as plain values; resolving the URI against a store and loading
//! the manifest are the surrounding runtime's work.

use vstd::prelude::*;
use vstd::string::StrSliceExecFns;
use vstd::string::StringExecFns;

use crate::compression::str_eq;

verus! {

/// A reference to a version of the table: by number, or by tag name.
#[derive(Debug)]
pub enum VersionRef {
    Version(u64),
    Tag(String),
}

/// Builder for loading a dataset: the table's URI and the settings the
/// loader honours.
#[derive(Debug)]
pub struct DatasetBuilder {
    /// Cache size for the index cache, in bytes. Zero disables the cache.
    pub index_cache_size_bytes: usize,
    /// Cache size for the fragment metadata, in bytes. Zero disables it.
    pub metadata_cache_size_bytes: usize,
    /// The block size passed to the underlying store reader, where set.
    pub block_size: Option<usize>,
    /// The version to load, where pinned.
    pub version: Option<VersionRef>,
    /// Options handed to the storage backend, in insertion order, one value
    /// per key.
    pub storage_options: Vec<(String, String)>,
    pub table_uri: String,
}

/// The default index cache size, in bytes.
pub const DEFAULT_INDEX_CACHE_SIZE: usize = 0x18000000;

/// The default metadata cache size, in bytes.
pub const DEFAULT_METADATA_CACHE_SIZE: usize = 0x40000000;

/// Bytes assumed per index cache entry by the entry-counted setter.
pub const ASSUMED_INDEX_ENTRY_SIZE: usize = 0x1400000;

/// Bytes assumed per metadata cache entry by the entry-counted setter.
pub const ASSUMED_METADATA_ENTRY_SIZE: usize = 0x400000;

impl DatasetBuilder {
    /// A builder for the table at the given URI, with default cache sizes
    /// and nothing else set.
    pub fn from_uri(table_uri: &str) -> (r: DatasetBuilder)
        ensures
            r.index_cache_size_bytes == DEFAULT_INDEX_CACHE_SIZE,
            r.metadata_cache_size_bytes == DEFAULT_METADATA_CACHE_SIZE,
            r.block_size is None,
            r.version is None,
            r.storage_options@.len() == 0,
            r.table_uri@ == table_uri@,
    {
        DatasetBuilder {
            index_cache_size_bytes: DEFAULT_INDEX_CACHE_SIZE,
            metadata_cache_size_bytes: DEFAULT_METADATA_CACHE_SIZE,
            block_size: None,
            version: None,
            storage_options: Vec::new(),
            table_uri: String::from_str(table_uri),
        }
    }

    /// Set the cache size for indices, in bytes. Zero disables the cache.
    pub fn with_index_cache_size_bytes(self, cache_size: usize) -> (r: DatasetBuilder)
        ensures
            r == (DatasetBuilder { index_cache_size_bytes: cache_size, ..self }),
    {
        DatasetBuilder { index_cache_size_bytes: cache_size, ..self }
    }

    /// Set the cache size for indices by entry count, at the assumed size
    /// per entry; saturates rather than overflows.
    pub fn with_index_cache_size(self, cache_size: usize) -> (r: DatasetBuilder)
        ensures
            r.index_cache_size_bytes == (if cache_size * ASSUMED_INDEX_ENTRY_SIZE
                <= usize::MAX {
                cache_size * ASSUMED_INDEX_ENTRY_SIZE
            } else {
                usize::MAX as int
            }),
            r.metadata_cache_size_bytes == self.metadata_cache_size_bytes,
            r.block_size == self.block_size,
            r.version == self.version,
            r.storage_options == self.storage_options,
            r.table_uri == self.table_uri,
    {
        let bytes: usize = if cache_size <= usize::MAX / ASSUMED_INDEX_ENTRY_SIZE {
            proof {
                crate::decode::lemma_mul_le_iff(
                    cache_size as int,
                    ASSUMED_INDEX_ENTRY_SIZE as int,
                    usize::MAX as int,
                );
            }
            cache_size * ASSUMED_INDEX_ENTRY_SIZE
        } else {
            proof {
                crate::decode::lemma_mul_le_iff(
                    cache_size as int,
                    ASSUMED_INDEX_ENTRY_SIZE as int,
                    usize::MAX as int,
                );
            }
            usize::MAX
        };
        DatasetBuilder { index_cache_size_bytes: bytes, ..self }
    }

    /// Set the metadata cache size in bytes. Zero disables the cache.
    pub fn with_metadata_cache_size_bytes(self, cache_size: usize) -> (r: DatasetBuilder)
        ensures
            r == (DatasetBuilder { metadata_cache_size_bytes: cache_size, ..self }),
    {
        DatasetBuilder { metadata_cache_size_bytes: cache_size, ..self }
    }

    /// Set the metadata cache size by entry count, at the assumed size per
    /// entry; saturates rather than overflows.
    pub fn with_metadata_cache_size(self, cache_size: usize) -> (r: DatasetBuilder)
        ensures
            r.metadata_cache_size_bytes == (if cache_size * ASSUMED_METADATA_ENTRY_SIZE
                <= usize::MAX {
                cache_size * ASSUMED_METADATA_ENTRY_SIZE
            } else {
                usize::MAX as int
            }),
            r.index_cache_size_bytes == self.index_cache_size_bytes,
            r.block_size == self.block_size,
            r.version == self.version,
            r.storage_options == self.storage_options,
            r.table_uri == self.table_uri,
    {
        let bytes: usize = if cache_size <= usize::MAX / ASSUMED_METADATA_ENTRY_SIZE {
            proof {
                crate::decode::lemma_mul_le_iff(
                    cache_size as int,
                    ASSUMED_METADATA_ENTRY_SIZE as int,
                    usize::MAX as int,
                );
            }
            cache_size * ASSUMED_METADATA_ENTRY_SIZE
        } else {
            proof {
                crate::decode::lemma_mul_le_iff(
                    cache_size as int,
                    ASSUMED_METADATA_ENTRY_SIZE as int,
                    usize::MAX as int,
                );
            }
            usize::MAX
        };
        DatasetBuilder { metadata_cache_size_bytes: bytes, ..self }
    }

    /// The block size passed to the underlying store reader: the minimal
    /// request size.
    pub fn with_block_size(self, block_size: usize) -> (r: DatasetBuilder)
        ensures
            r == (DatasetBuilder { block_size: Some(block_size), ..self }),
    {
        DatasetBuilder { block_size: Some(block_size), ..self }
    }

    /// Pin the version to load by version number.
    pub fn with_version(self, version: u64) -> (r: DatasetBuilder)
        ensures
            r == (DatasetBuilder { version: Some(VersionRef::Version(version)), ..self }),
    {
        DatasetBuilder { version: Some(VersionRef::Version(version)), ..self }
    }

    /// Pin the version to load by tag name.
    pub fn with_tag(self, tag: &str) -> (r: DatasetBuilder)
        ensures
            r.version matches Some(VersionRef::Tag(t)) && t@ == tag@,
            r.index_cache_size_bytes == self.index_cache_size_bytes,
            r.metadata_cache_size_bytes == self.metadata_cache_size_bytes,
            r.block_size == self.block_size,
            r.storage_options == self.storage_options,
            r.table_uri == self.table_uri,
    {
        DatasetBuilder { version: Some(VersionRef::Tag(String::from_str(tag))), ..self }
    }

    /// Replace the options used to initialize the storage backend.
    pub fn with_storage_options(self, storage_options: Vec<(String, String)>) -> (r:
        DatasetBuilder)
        ensures
            r == (DatasetBuilder { storage_options, ..self }),
    {
        DatasetBuilder { storage_options, ..self }
    }

    /// Set a single storage-backend option: replaces the value where the key
    /// is already set, appends it otherwise.
    pub fn with_storage_option(self, key: &str, value: &str) -> (r: DatasetBuilder)
        ensures
            r.index_cache_size_bytes == self.index_cache_size_bytes,
            r.metadata_cache_size_bytes == self.metadata_cache_size_bytes,
            r.block_size == self.block_size,
            r.version == self.version,
            r.table_uri == self.table_uri,
            (match key_index_from(self.storage_options@, key@, 0) {
                Some(i) => {
                    &&& r.storage_options@.len() == self.storage_options@.len()
                    &&& r.storage_options@[i].0@ == key@
                    &&& r.storage_options@[i].1@ == value@
                    &&& forall|j: int|
                        0 <= j < self.storage_options@.len() && j != i
                            ==> r.storage_options@[j] == self.storage_options@[j]
                },
                None => {
                    &&& r.storage_options@.len() == self.storage_options@.len() + 1
                    &&& r.storage_options@.last().0@ == key@
                    &&& r.storage_options@.last().1@ == value@
                    &&& forall|j: int|
                        0 <= j < self.storage_options@.len() ==> r.storage_options@[j]
                            == self.storage_options@[j]
                },
            }),
    {
        let mut options = self.storage_options;
        let ghost orig = options@;
        let mut i: usize = 0;
        let mut found: bool = false;
        while i < options.len() && !found
            invariant
                options@ == orig,
                i <= orig.len(),
                !found ==> key_index_from(orig, key@, 0) == key_index_from(orig, key@, i as int),
                found ==> i < orig.len() && key_index_from(orig, key@, 0) == Some(i as int),
            decreases orig.len() - i, (if found { 0int } else { 1int }),
        {
            if str_eq(options[i].0.as_str(), key) {
                found = true;
            } else {
                i = i + 1;
            }
        }
        if found {
            options[i] = (String::from_str(key), String::from_str(value));
        } else {
            options.push((String::from_str(key), String::from_str(value)));
        }
        DatasetBuilder { storage_options: options, ..self }
    }
}

/// The position of the first entry at or after `i` whose key matches.
pub open spec fn key_index_from(options: Seq<(String, String)>, key: Seq<char>, i: int) -> Option<
    int,
>
    decreases options.len() - i,
{
    if i < 0 || i >= options.len() {
        None
    } else if options[i].0@ == key {
        Some(i)
    } else {
        key_index_from(options, key, i + 1)
    }
}

} // verus!
