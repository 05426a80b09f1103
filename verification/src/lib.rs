//! Storage structures of an embedded database, verified: an adaptive radix
//! tree index, a GIN index over JSON documents, bloom filters and zone
//! summaries for skipping data, dictionary, content-addressed and columnar
//! column storage, copy-on-write branch bookkeeping, change tracking for
//! incremental dumps, and the binary and SQL dump formats.
use vstd::prelude::*;

pub mod text;
pub mod value;
pub mod art_node;
pub mod art_index;
pub mod art_laws;
pub mod branch;
pub mod branch_scan;
pub mod dump_format;
pub mod dump_file;
pub mod dump_manager;
pub mod dump_build;
pub mod consolidation;
pub mod dump_sql;
pub mod zone_summary;
pub mod zone_blocks;
pub mod zone_laws;
pub mod dictionary;
pub mod columnar;
pub mod compression;
pub mod content_addr;
pub mod dirty_tracker;
pub mod clock;
pub mod filter_delta;
pub mod gin_index;
pub mod bloom_filter;
pub mod delta_tracker;
pub mod engine_types;
pub mod column_storage;

verus! {
} // verus!
