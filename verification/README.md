# heliosdb_lite storage structures

The storage layer of an embedded database, written in Verus: each public
function states what it returns or changes, and Verus proves it.

Layout:

- `src/` — the verified library. One module per structure: the adaptive
  radix tree index (`art_node`, `art_index`, `art_laws`), the GIN index
  (`gin_index`), bloom filters (`bloom_filter`), zone summaries and their
  skip rules (`zone_summary`, `zone_blocks`, `zone_laws`), column storage
  modes (`column_storage`, `dictionary`, `content_addr`, `columnar`),
  branches (`branch`), change tracking (`dirty_tracker`, `delta_tracker`,
  `filter_delta`), dumps (`dump_format`, `dump_file`, `dump_manager`,
  `dump_build`, `dump_sql`), the choices of filter consolidation
  (`consolidation`) and the key layout of the engine (`engine_types`).
- `tests/` — tests run against the compiled library.
- `app/` — the parts that are not verified: locking around shared state,
  file I/O for dumps, JSON and serde conversions, and the floating-point
  estimates (false-positive rates, selectivities, cardinality).
