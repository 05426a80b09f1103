//! Compression types kept for catalog compatibility; compression itself is
//! left to the key-value store.
use vstd::prelude::*;

verus! {

/// Compression codec (kept for existing catalog entries)
#[derive(Debug, Clone, Copy, PartialEq, Eq, Structural)]
pub enum CompressionCodec {
    /// No codec
    Uncompressed,
    /// Adaptive lossless floating point
    ALP,
    /// Fast static symbol table
    FSST,
    /// Delta encoding
    Delta,
    /// Dictionary encoding
    Dictionary,
    /// Run-length encoding
    RLE,
}

impl Default for CompressionCodec {
    fn default() -> (c: Self)
        ensures
            c == CompressionCodec::Uncompressed,
    {
        CompressionCodec::Uncompressed
    }
}

/// Errors of compression bookkeeping
#[derive(Debug, Clone)]
pub enum CompressionError {
    /// A failure, with its message
    Failed(String),
}

/// Compression manager (a stub: the key-value store compresses)
#[derive(Debug, Clone, Copy)]
pub struct CompressionManager;

impl CompressionManager {
    /// Create a new compression manager
    pub fn new() -> (m: Self) {
        CompressionManager
    }

    /// Rename table resources: nothing to do, so it always succeeds
    pub fn rename_table(&self, _old_name: &str, _new_name: &str) -> (r: Result<(), CompressionError>)
        ensures
            r is Ok,
    {
        Ok(())
    }
}

impl Default for CompressionManager {
    fn default() -> (m: Self) {
        CompressionManager
    }
}

} // verus!
