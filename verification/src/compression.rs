//! The compression codec contract.
//!
//! A compression descriptor carries a free-form scheme name and an optional
//! level. The name is resolved to a scheme at construction time; an unknown
//! name is a fatal construction error. The `none` scheme hands bytes through
//! unchanged. The concrete codecs for the other schemes are collaborators of
//! this layer, not part of it: asking this layer to run one is reported as an
//! execution error, distinct from the construction error for an unknown name.

use vstd::prelude::*;
use vstd::string::StrSliceExecFns;

use crate::errors::{ConstructionError, ExecutionError};

verus! {

/// A compression scheme this layer can name.
#[derive(Debug, Clone, Copy, PartialEq, Eq, Structural)]
pub enum CompressionScheme {
    /// Bytes are used as-is.
    NoCompression,
    /// A general-purpose block codec, supplied by the surrounding runtime.
    Zstd,
}

/// A resolved compression configuration: a scheme and an optional level.
#[derive(Debug, Clone, Copy, PartialEq, Eq, Structural)]
pub struct CompressionConfig {
    pub scheme: CompressionScheme,
    pub level: Option<i32>,
}

impl CompressionConfig {
    /// A configuration with the given scheme and level.
    pub fn new(scheme: CompressionScheme, level: Option<i32>) -> (r: CompressionConfig)
        ensures
            r == (CompressionConfig { scheme, level }),
    {
        CompressionConfig { scheme, level }
    }

    /// What decoding one fetched block under this configuration yields: the
    /// block unchanged for the `none` scheme; for every other scheme the
    /// codec lives outside this layer, which is reported loudly.
    pub open spec fn spec_decode_block(&self, block: Seq<u8>) -> Result<Seq<u8>, ExecutionError> {
        match self.scheme {
            CompressionScheme::NoCompression => Ok(block),
            CompressionScheme::Zstd => Err(ExecutionError::NoEmbeddedCodec),
        }
    }

    /// Pass one fetched block through the configured codec.
    pub fn decode_block(&self, block: Vec<u8>) -> (r: Result<Vec<u8>, ExecutionError>)
        ensures
            match r {
                Ok(out) => self.spec_decode_block(block@) == Ok::<Seq<u8>, ExecutionError>(out@),
                Err(e) => self.spec_decode_block(block@) == Err::<Seq<u8>, ExecutionError>(e),
            },
    {
        match self.scheme {
            CompressionScheme::NoCompression => Ok(block),
            CompressionScheme::Zstd => Err(ExecutionError::NoEmbeddedCodec),
        }
    }
}

/// The scheme a name resolves to, or `None` for an unrecognized name.
pub open spec fn spec_scheme_of(name: Seq<char>) -> Option<CompressionScheme> {
    if name == "none"@ {
        Some(CompressionScheme::NoCompression)
    } else if name == "zstd"@ {
        Some(CompressionScheme::Zstd)
    } else {
        None
    }
}

/// Whether two strings hold the same characters.
pub fn str_eq(a: &str, b: &str) -> (r: bool)
    ensures
        r == (a@ == b@),
{
    let a_len = a.unicode_len();
    let b_len = b.unicode_len();
    if a_len != b_len {
        proof {
            assert(a@ != b@) by {
                assert(a@.len() != b@.len());
            }
        }
        return false;
    }
    let mut i: usize = 0;
    while i < a_len
        invariant
            a_len == a@.len(),
            b_len == b@.len(),
            a_len == b_len,
            i <= a_len,
            forall|j: int| 0 <= j < i as int ==> a@[j] == b@[j],
        decreases a_len - i,
    {
        let ca = a.get_char(i);
        let cb = b.get_char(i);
        if ca != cb {
            proof {
                assert(a@ != b@) by {
                    assert(a@[i as int] != b@[i as int]);
                }
            }
            return false;
        }
        i = i + 1;
    }
    proof {
        assert(a@ =~= b@);
    }
    true
}

/// Resolve a scheme name. `none` and `zstd` are the names this layer knows;
/// any other name is a fatal construction error.
pub fn parse_compression_scheme(name: &str) -> (r: Result<CompressionScheme, ConstructionError>)
    ensures
        match r {
            Ok(scheme) => spec_scheme_of(name@) == Some(scheme),
            Err(e) => spec_scheme_of(name@) is None && e == ConstructionError::UnknownCompressionScheme,
        },
{
    if str_eq(name, "none") {
        Ok(CompressionScheme::NoCompression)
    } else if str_eq(name, "zstd") {
        Ok(CompressionScheme::Zstd)
    } else {
        Err(ConstructionError::UnknownCompressionScheme)
    }
}

} // verus!
