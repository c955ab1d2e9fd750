//! Decode-side physical encoding layer of a columnar table-storage format.
//!
//! A column's values are stored under one of several physical representations
//! (raw fixed-width values, bit-packed integers, dictionary compression,
//! binary offset/data splitting, fixed-size lists, packed structs, nullable
//! wrappers, ...). The writer records its choice as a small encoding
//! descriptor tree beside the data. This crate interprets such a descriptor
//! tree against a target logical type and a set of buffer address tables and
//! composes a page scheduler: an immutable object graph that can say which
//! byte ranges a row range needs (`schedule`) and turn fetched bytes into
//! decoded values (`decode`), without performing any I/O itself.

pub mod bits;
pub mod buffers;
pub mod builder;
pub mod compression;
pub mod datatype;
pub mod decode;
pub mod decoded;
pub mod errors;
pub mod fetched;
pub mod format;
pub mod iostats;
pub mod laws;
pub mod layout;
pub mod physical;
pub mod scheduler;
pub mod strutil;
