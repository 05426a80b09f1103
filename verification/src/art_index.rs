//! Adaptive radix tree index.
//!
//! An in-memory index from byte-string keys to row ids with lookups in
//! time proportional to the key length. Nodes adapt their size (4, 16, 48
//! or 256 children) and compress common paths. Primary-key and unique
//! indexes refuse a key that is already present; foreign-key and manual
//! indexes replace its value.
use vstd::prelude::*;
use crate::art_node::{ArtNode, LeafNode, NodeHeader, Node4, Node16, Node48, Node256, RowId, add_child_grow, bytes_to_vec};

verus! {

/// Type of ART index
#[derive(Debug, Clone, Copy, PartialEq, Eq, Structural)]
pub enum ArtIndexType {
    /// Primary key index (enforces uniqueness, no empty key)
    PrimaryKey,
    /// Foreign key index
    ForeignKey,
    /// Unique constraint index (enforces uniqueness)
    Unique,
    /// Manually created index
    Manual,
}

impl ArtIndexType {
    /// Does this index refuse a key that is already present?
    pub open spec fn is_unique_spec(self) -> bool {
        self is PrimaryKey || self is Unique
    }

    /// The display label of the index type.
    pub open spec fn label_spec(self) -> Seq<char> {
        match self {
            ArtIndexType::PrimaryKey => "PRIMARY KEY"@,
            ArtIndexType::ForeignKey => "FOREIGN KEY"@,
            ArtIndexType::Unique => "UNIQUE"@,
            ArtIndexType::Manual => "MANUAL"@,
        }
    }

    /// The display label of the index type ("PRIMARY KEY", "FOREIGN KEY", "UNIQUE", "MANUAL").
    pub fn label(&self) -> (r: &'static str)
        ensures
            r@ == self.label_spec(),
    {
        match self {
            ArtIndexType::PrimaryKey => "PRIMARY KEY",
            ArtIndexType::ForeignKey => "FOREIGN KEY",
            ArtIndexType::Unique => "UNIQUE",
            ArtIndexType::Manual => "MANUAL",
        }
    }

    /// The display text of the index type, as a `String`.
    pub fn to_display_string(&self) -> (r: String)
        ensures
            r@ == self.label_spec(),
    {
        String::from_str(self.label())
    }
}

/// Error types for ART index operations
#[derive(Debug, Clone, PartialEq, Eq)]
pub enum ArtIndexError {
    /// Duplicate key in unique index
    DuplicateKey(String),
    /// Key not found
    KeyNotFound,
    /// Referenced key not found (FK violation)
    ForeignKeyViolation(String),
    /// Empty key in primary key
    NullPrimaryKey,
    /// Index already exists
    IndexAlreadyExists(String),
    /// Index not found
    IndexNotFound(String),
    /// Internal error
    Internal(String),
}

impl ArtIndexError {
    /// The display text of the error.
    pub fn message(&self) -> (r: String)
        ensures
            r@ == match self {
                ArtIndexError::DuplicateKey(key) => "Duplicate key: "@ + key@,
                ArtIndexError::KeyNotFound => "Key not found"@,
                ArtIndexError::ForeignKeyViolation(msg) => "Foreign key violation: "@ + msg@,
                ArtIndexError::NullPrimaryKey => "NULL value not allowed in primary key"@,
                ArtIndexError::IndexAlreadyExists(name) => "Index '"@ + name@ + "' already exists"@,
                ArtIndexError::IndexNotFound(name) => "Index '"@ + name@ + "' not found"@,
                ArtIndexError::Internal(msg) => "Internal error: "@ + msg@,
            },
    {
        match self {
            ArtIndexError::DuplicateKey(key) => String::from_str("Duplicate key: ").concat(key.as_str()),
            ArtIndexError::KeyNotFound => String::from_str("Key not found"),
            ArtIndexError::ForeignKeyViolation(msg) => String::from_str("Foreign key violation: ").concat(msg.as_str()),
            ArtIndexError::NullPrimaryKey => String::from_str("NULL value not allowed in primary key"),
            ArtIndexError::IndexAlreadyExists(name) => String::from_str("Index '").concat(name.as_str()).concat("' already exists"),
            ArtIndexError::IndexNotFound(name) => String::from_str("Index '").concat(name.as_str()).concat("' not found"),
            ArtIndexError::Internal(msg) => String::from_str("Internal error: ").concat(msg.as_str()),
        }
    }
}

/// Result type for ART operations
pub type ArtResult<T> = Result<T, ArtIndexError>;

/// Statistics for an ART index
#[derive(Debug, Clone)]
pub struct ArtIndexStats {
    /// Total number of keys in the index
    pub key_count: u64,
    /// Number of Node4 nodes
    pub node4_count: u64,
    /// Number of Node16 nodes
    pub node16_count: u64,
    /// Number of Node48 nodes
    pub node48_count: u64,
    /// Number of Node256 nodes
    pub node256_count: u64,
    /// Number of leaf nodes
    pub leaf_count: u64,
    /// Estimated memory usage in bytes
    pub memory_bytes: u64,
    /// Number of lookups performed
    pub lookup_count: u64,
    /// Number of inserts performed
    pub insert_count: u64,
    /// Number of deletes performed
    pub delete_count: u64,
}

impl ArtIndexStats {
    /// All counters zero.
    pub open spec fn is_zero(&self) -> bool {
        &&& self.key_count == 0
        &&& self.node4_count == 0
        &&& self.node16_count == 0
        &&& self.node48_count == 0
        &&& self.node256_count == 0
        &&& self.leaf_count == 0
        &&& self.memory_bytes == 0
        &&& self.lookup_count == 0
        &&& self.insert_count == 0
        &&& self.delete_count == 0
    }

    /// Statistics with every counter zero.
    pub fn new() -> (s: Self)
        ensures
            s.is_zero(),
    {
        ArtIndexStats {
            key_count: 0,
            node4_count: 0,
            node16_count: 0,
            node48_count: 0,
            node256_count: 0,
            leaf_count: 0,
            memory_bytes: 0,
            lookup_count: 0,
            insert_count: 0,
            delete_count: 0,
        }
    }

    /// Total number of internal nodes
    pub fn total_nodes(&self) -> (r: u64)
        requires
            self.node4_count + self.node16_count + self.node48_count + self.node256_count <= u64::MAX,
        ensures
            r == self.node4_count + self.node16_count + self.node48_count + self.node256_count,
    {
        self.node4_count + self.node16_count + self.node48_count + self.node256_count
    }
}

impl Default for ArtIndexStats {
    fn default() -> (s: Self)
        ensures
            s.is_zero(),
    {
        Self::new()
    }
}

/// The value a map of keys to row ids holds for `k`, if any.
pub open spec fn map_get(m: Map<Seq<u8>, RowId>, k: Seq<u8>) -> Option<RowId> {
    if m.dom().contains(k) {
        Some(m[k])
    } else {
        None
    }
}

/// Does an index of type `t` holding `m` accept an insert of key `k`?
/// A primary-key index refuses the empty key; primary-key and unique
/// indexes refuse a key they already hold.
pub open spec fn insert_accepts(t: ArtIndexType, m: Map<Seq<u8>, RowId>, k: Seq<u8>) -> bool {
    &&& !(t is PrimaryKey && k.len() == 0)
    &&& !(t.is_unique_spec() && m.dom().contains(k))
}

/// Adaptive Radix Tree Index
pub struct AdaptiveRadixTree {
    /// Root node of the tree
    root: Option<ArtNode>,
    /// Index name
    name: String,
    /// Table this index belongs to
    table: String,
    /// Columns covered by this index
    columns: Vec<String>,
    /// Type of index
    index_type: ArtIndexType,
    /// Number of keys in the tree
    size: u64,
    /// Operation counters
    stats: ArtIndexStats,
    /// The keys and values the tree holds
    contents: Ghost<Map<Seq<u8>, RowId>>,
}

impl View for AdaptiveRadixTree {
    type V = Map<Seq<u8>, RowId>;

    closed spec fn view(&self) -> Map<Seq<u8>, RowId> {
        self.contents@
    }
}

impl AdaptiveRadixTree {
    /// The tree is consistent and holds exactly the keys and values of its view.
    pub closed spec fn wf(&self) -> bool {
        &&& self.contents@.dom().finite()
        &&& self.size == self.contents@.len()
        &&& match self.root {
            Some(r) => crate::art_node::tree_wf(r, Seq::<u8>::empty()),
            None => true,
        }
        &&& forall|k: Seq<u8>|
            #![trigger crate::art_node::lookup_opt(self.root, 0, k)]
            #![trigger self.contents@.dom().contains(k)]
            crate::art_node::lookup_opt(self.root, 0, k) == if self.contents@.dom().contains(k) {
                Some(self.contents@[k])
            } else {
                None
            }
    }

    /// A well-formed tree holds finitely many keys: its key count is the
    /// size of its view.
    pub proof fn lemma_view_finite(&self)
        requires
            self.wf(),
        ensures
            self@.dom().finite(),
    {
    }

    /// Index name
    pub closed spec fn name_spec(&self) -> Seq<char> {
        self.name@
    }

    /// Table name
    pub closed spec fn table_spec(&self) -> Seq<char> {
        self.table@
    }

    /// Covered columns
    pub closed spec fn columns_spec(&self) -> Seq<String> {
        self.columns@
    }

    /// Index type
    pub closed spec fn index_type_spec(&self) -> ArtIndexType {
        self.index_type
    }

    /// Number of inserts attempted
    pub closed spec fn insert_count_spec(&self) -> u64 {
        self.stats.insert_count
    }

    /// Number of removals attempted
    pub closed spec fn delete_count_spec(&self) -> u64 {
        self.stats.delete_count
    }

    /// Create a new ART index
    pub fn new(name: &str, table: &str, columns: Vec<String>, index_type: ArtIndexType) -> (t: Self)
        ensures
            t.wf(),
            t@ == Map::<Seq<u8>, RowId>::empty(),
            t.name_spec() == name@,
            t.table_spec() == table@,
            t.columns_spec() == columns@,
            t.index_type_spec() == index_type,
            t.insert_count_spec() == 0,
            t.delete_count_spec() == 0,
    {
        AdaptiveRadixTree {
            root: None,
            name: String::from_str(name),
            table: String::from_str(table),
            columns,
            index_type,
            size: 0,
            stats: ArtIndexStats::new(),
            contents: Ghost(Map::empty()),
        }
    }

    /// Get the index name
    pub fn name(&self) -> (r: &str)
        ensures
            r@ == self.name_spec(),
    {
        self.name.as_str()
    }

    /// Get the table name
    pub fn table(&self) -> (r: &str)
        ensures
            r@ == self.table_spec(),
    {
        self.table.as_str()
    }

    /// Get the columns
    pub fn columns(&self) -> (r: &[String])
        ensures
            r@ == self.columns_spec(),
    {
        self.columns.as_slice()
    }

    /// Get the index type
    pub fn index_type(&self) -> (r: ArtIndexType)
        ensures
            r == self.index_type_spec(),
    {
        self.index_type
    }

    /// Rename this index (for table rename operations)
    pub fn rename(&mut self, new_table: String, new_name: String)
        requires
            old(self).wf(),
        ensures
            final(self).wf(),
            final(self)@ == old(self)@,
            final(self).table_spec() == new_table@,
            final(self).name_spec() == new_name@,
            final(self).columns_spec() == old(self).columns_spec(),
            final(self).index_type_spec() == old(self).index_type_spec(),
            final(self).insert_count_spec() == old(self).insert_count_spec(),
            final(self).delete_count_spec() == old(self).delete_count_spec(),
    {
        self.table = new_table;
        self.name = new_name;
    }

    /// Get the number of keys
    pub fn len(&self) -> (r: u64)
        requires
            self.wf(),
        ensures
            r == self@.len(),
    {
        self.size
    }

    /// Check if the index is empty
    pub fn is_empty(&self) -> (r: bool)
        requires
            self.wf(),
        ensures
            r == (self@.len() == 0),
    {
        self.size == 0
    }

    /// Get the value for a key
    pub fn get(&self, key: &[u8]) -> (r: Option<RowId>)
        requires
            self.wf(),
        ensures
            r == map_get(self@, key@),
    {
        match &self.root {
            Some(node) => {
                let r = get_recursive(node, key, 0);
                proof {
                    assert(crate::art_node::lookup_opt(self.root, 0, key@) == crate::art_node::lookup(*node, 0, key@));
                }
                r
            },
            None => {
                proof {
                    assert(crate::art_node::lookup_opt(self.root, 0, key@) is None);
                }
                None
            },
        }
    }

    /// The message of the error refusing a key already present.
    pub open spec fn duplicate_message(t: ArtIndexType) -> Seq<char> {
        "Key already exists in "@ + t.label_spec() + " index"@
    }

    /// Insert a key-value pair.
    ///
    /// Primary-key indexes refuse an empty key; primary-key and unique
    /// indexes refuse a key already present; other indexes replace its value.
    pub fn insert(&mut self, key: &[u8], value: RowId) -> (r: ArtResult<()>)
        requires
            old(self).wf(),
            old(self)@.len() < u64::MAX,
        ensures
            final(self).wf(),
            final(self).name_spec() == old(self).name_spec(),
            final(self).table_spec() == old(self).table_spec(),
            final(self).columns_spec() == old(self).columns_spec(),
            final(self).index_type_spec() == old(self).index_type_spec(),
            final(self).insert_count_spec() == if old(self).insert_count_spec() < u64::MAX {
                old(self).insert_count_spec() + 1
            } else {
                old(self).insert_count_spec() as int
            },
            final(self).delete_count_spec() == old(self).delete_count_spec(),
            old(self).index_type_spec() is PrimaryKey && key@.len() == 0 ==> r == Err::<(), ArtIndexError>(ArtIndexError::NullPrimaryKey),
            !(old(self).index_type_spec() is PrimaryKey && key@.len() == 0) && old(self).index_type_spec().is_unique_spec()
                && old(self)@.dom().contains(key@) ==> (r matches Err(ArtIndexError::DuplicateKey(msg)) && msg@ == Self::duplicate_message(old(self).index_type_spec())),
            r is Ok <==> insert_accepts(old(self).index_type_spec(), old(self)@, key@),
            r is Ok ==> final(self)@ == old(self)@.insert(key@, value),
            r is Ok ==> final(self)@.len() == old(self)@.len() + if old(self)@.dom().contains(key@) { 0int } else { 1int },
            r is Err ==> final(self)@ == old(self)@,
    {
        if self.stats.insert_count < u64::MAX {
            self.stats.insert_count = self.stats.insert_count + 1;
        }
        if key.len() == 0 && self.index_type == ArtIndexType::PrimaryKey {
            return Err(ArtIndexError::NullPrimaryKey);
        }
        let existed = self.contains(key);
        if existed && (self.index_type == ArtIndexType::PrimaryKey || self.index_type == ArtIndexType::Unique) {
            let msg = String::from_str("Key already exists in ").concat(self.index_type.label()).concat(" index");
            return Err(ArtIndexError::DuplicateKey(msg));
        }
        let root = self.root.take();
        let ghost old_root = root;
        let new_root = match root {
            None => ArtNode::Leaf(LeafNode::new(bytes_to_vec(key), value)),
            Some(n) => {
                proof {
                    assert(key@.subrange(0, 0) =~= Seq::<u8>::empty());
                }
                insert_into_node(n, key, value, 0)
            },
        };
        self.root = Some(new_root);
        if !existed {
            self.size = self.size + 1;
        }
        proof {
            let c0 = self.contents@;
            self.contents = Ghost(c0.insert(key@, value));
            assert(key@.subrange(0, 0) =~= Seq::<u8>::empty());
            assert forall|k: Seq<u8>| #[trigger] crate::art_node::lookup_opt(self.root, 0, k) == if self.contents@.dom().contains(k) {
                Some(self.contents@[k])
            } else {
                None
            } by {
                assert(k.subrange(0, 0) =~= key@.subrange(0, 0));
                assert(same_path(k, key@, 0));
                assert(crate::art_node::lookup_opt(old_root, 0, k) == if c0.dom().contains(k) {
                    Some(c0[k])
                } else {
                    None
                });
            }
        }
        Ok(())
    }

    /// Remove a key from the index, returning its value if it was present
    pub fn remove(&mut self, key: &[u8]) -> (r: ArtResult<Option<RowId>>)
        requires
            old(self).wf(),
        ensures
            final(self).wf(),
            final(self).name_spec() == old(self).name_spec(),
            final(self).table_spec() == old(self).table_spec(),
            final(self).columns_spec() == old(self).columns_spec(),
            final(self).index_type_spec() == old(self).index_type_spec(),
            final(self).insert_count_spec() == old(self).insert_count_spec(),
            final(self).delete_count_spec() == if old(self).delete_count_spec() < u64::MAX {
                old(self).delete_count_spec() + 1
            } else {
                old(self).delete_count_spec() as int
            },
            r == Ok::<Option<RowId>, ArtIndexError>(map_get(old(self)@, key@)),
            final(self)@ == old(self)@.remove(key@),
            final(self)@.len() == old(self)@.len() - if old(self)@.dom().contains(key@) { 1int } else { 0int },
    {
        if self.stats.delete_count < u64::MAX {
            self.stats.delete_count = self.stats.delete_count + 1;
        }
        let root = self.root.take();
        let ghost old_root = root;
        let c0 = self.contents;
        match root {
            None => {
                proof {
                    assert(!c0@.dom().contains(key@)) by {
                        assert(crate::art_node::lookup_opt(old_root, 0, key@) is None);
                    }
                    assert(c0@.remove(key@) =~= c0@);
                }
                Ok(None)
            },
            Some(n) => {
                proof {
                    assert(key@.subrange(0, 0) =~= Seq::<u8>::empty());
                }
                let (new_root, removed) = remove_recursive(n, key, 0);
                self.root = new_root;
                if removed.is_some() {
                    self.size = self.size - 1;
                }
                proof {
                    assert(crate::art_node::lookup_opt(old_root, 0, key@) == removed);
                    self.contents = Ghost(c0@.remove(key@));
                    assert forall|k: Seq<u8>| #[trigger] crate::art_node::lookup_opt(self.root, 0, k) == if self.contents@.dom().contains(k) {
                        Some(self.contents@[k])
                    } else {
                        None
                    } by {
                        assert(k.subrange(0, 0) =~= key@.subrange(0, 0));
                        assert(same_path(k, key@, 0));
                        assert(crate::art_node::lookup_opt(old_root, 0, k) == if c0@.dom().contains(k) {
                            Some(c0@[k])
                        } else {
                            None
                        });
                    }
                }
                Ok(removed)
            },
        }
    }

    /// Clear all entries from the index
    pub fn clear(&mut self)
        requires
            old(self).wf(),
        ensures
            final(self).wf(),
            final(self)@ == Map::<Seq<u8>, RowId>::empty(),
            final(self).name_spec() == old(self).name_spec(),
            final(self).table_spec() == old(self).table_spec(),
            final(self).columns_spec() == old(self).columns_spec(),
            final(self).index_type_spec() == old(self).index_type_spec(),
            final(self).insert_count_spec() == 0,
            final(self).delete_count_spec() == 0,
            forall|kind: int| #[trigger] final(self).node_count_spec(kind) == 0,
    {
        self.root = None;
        self.size = 0;
        self.stats = ArtIndexStats::new();
        self.contents = Ghost(Map::empty());
    }

    /// The pairs of the tree that a filter keeps (all of them without one), in increasing key order
    fn listing(&self, filter: Option<KeyFilter>) -> (it: ArtIterator)
        requires
            self.wf(),
        ensures
            it.wf(),
            sorted_listing(it.remaining(), filtered(self@, filter)),
    {
        let mut all: Vec<(Vec<u8>, RowId)> = Vec::new();
        match &self.root {
            Some(root) => {
                let empty: Vec<u8> = Vec::new();
                collect_entries(root, &empty, &mut all);
            },
            None => {},
        }
        let ghost m = self@;
        proof {
            assert forall|i: int| 0 <= i < all@.len() implies m.dom().contains((#[trigger] all@[i]).0@) && m[all@[i].0@] == all@[i].1 by {
                assert(crate::art_node::lookup_opt(self.root, 0, all@[i].0@) == Some(all@[i].1));
            }
            assert forall|k: Seq<u8>| #[trigger] m.dom().contains(k) implies exists|i: int| 0 <= i < all@.len() && all@[i].0@ == k by {
                assert(crate::art_node::lookup_opt(self.root, 0, k) is Some);
                assert(Seq::<u8>::empty().is_prefix_of(k));
            }
        }
        let mut out: Vec<(Vec<u8>, RowId)> = Vec::new();
        let ghost mut idx: Seq<int> = Seq::empty();
        let n: usize = all.len();
        let mut i: usize = 0;
        let ghost mm = filtered(m, filter);
        while i < n
            invariant
                n == all@.len(),
                i <= n,
                forall|a: int| 0 <= a < all@.len() ==> m.dom().contains((#[trigger] all@[a]).0@) && m[all@[a].0@] == all@[a].1,
                forall|a: int, b: int| 0 <= a < b < all@.len() ==> lex_lt((#[trigger] all@[a]).0@, (#[trigger] all@[b]).0@),
                idx.len() == out@.len(),
                forall|t: int| 0 <= t < idx.len() ==> 0 <= #[trigger] idx[t] < i && entry_view(out@[t]) == entry_view(all@[idx[t]]) && keeps(
                    filter,
                    all@[idx[t]].0@,
                ),
                forall|t: int, u: int| 0 <= t < u < idx.len() ==> #[trigger] idx[t] < #[trigger] idx[u],
                forall|a: int| 0 <= a < i && keeps(filter, #[trigger] all@[a].0@) ==> exists|t: int| 0 <= t < idx.len() && idx[t] == a,
            decreases n - i,
        {
            let e = &all[i];
            let take = match &filter {
                Some(f) => f.accepts(e.0.as_slice()),
                None => true,
            };
            proof {
                assert(take == keeps(filter, all@[i as int].0@));
            }
            if take {
                out.push((bytes_to_vec(e.0.as_slice()), e.1));
                proof {
                    let idx_old = idx;
                    idx = idx.push(i as int);
                    assert forall|a: int| 0 <= a < i + 1 && keeps(filter, #[trigger] all@[a].0@) implies exists|t: int| 0 <= t < idx.len() && idx[t] == a by {
                        if a == i as int {
                            assert(idx[idx.len() - 1] == a);
                        } else {
                            let t = choose|t: int| 0 <= t < idx_old.len() && idx_old[t] == a;
                            assert(idx[t] == a);
                        }
                    }
                }
            }
            i = i + 1;
        }
        let it = ArtIterator { entries: out, pos: 0 };
        proof {
            let es = it.remaining();
            assert(out@.subrange(0, out@.len() as int) =~= out@);
            assert forall|t: int| 0 <= t < es.len() implies mm.dom().contains((#[trigger] es[t]).0) && mm[es[t].0] == es[t].1 by {
                assert(es[t] == entry_view(out@[t]));
                let a = idx[t];
                assert(0 <= a < all@.len());
                assert(entry_view(out@[t]) == entry_view(all@[a]));
                assert(keeps(filter, all@[a].0@));
                assert(m.dom().contains(all@[a].0@) && m[all@[a].0@] == all@[a].1);
                lemma_filtered(m, filter, es[t].0);
            }
            assert forall|k: Seq<u8>| #[trigger] mm.dom().contains(k) implies exists|t: int| 0 <= t < es.len() && es[t].0 == k by {
                lemma_filtered(m, filter, k);
                let a = choose|a: int| 0 <= a < all@.len() && all@[a].0@ == k;
                assert(keeps(filter, all@[a].0@));
                let t = choose|t: int| 0 <= t < idx.len() && idx[t] == a;
                assert(es[t] == entry_view(out@[t]));
            }
            assert forall|t: int, u: int| 0 <= t < u < es.len() implies lex_lt((#[trigger] es[t]).0, (#[trigger] es[u]).0) by {
                assert(es[t] == entry_view(out@[t]));
                assert(es[u] == entry_view(out@[u]));
                assert(idx[t] < idx[u]);
            }
        }
        it
    }

    /// Iterate over all key-value pairs in increasing key order
    pub fn iter(&self) -> (it: ArtIterator)
        requires
            self.wf(),
        ensures
            it.wf(),
            sorted_listing(it.remaining(), self@),
    {
        ArtIterator::new(self)
    }

    /// Range scan from start (inclusive) to end (exclusive), in increasing key order
    pub fn range(&self, start: &[u8], end: &[u8]) -> (it: ArtIterator)
        requires
            self.wf(),
        ensures
            it.wf(),
            sorted_listing(it.remaining(), self@.restrict(Set::new(|k: Seq<u8>| in_range(k, start@, end@)))),
    {
        let it = self.listing(Some(KeyFilter::Range { start, end }));
        proof {
            let f = KeyFilter::Range { start, end };
            assert(Set::new(|k: Seq<u8>| f.accepts_spec(k)) =~= Set::new(|k: Seq<u8>| in_range(k, start@, end@)));
            assert(filtered(self@, Some(f)) == self@.restrict(Set::new(|k: Seq<u8>| in_range(k, start@, end@))));
        }
        it
    }

    /// Prefix scan - all keys with the given prefix, in increasing key order
    pub fn prefix_scan(&self, prefix: &[u8]) -> (it: ArtIterator)
        requires
            self.wf(),
        ensures
            it.wf(),
            sorted_listing(it.remaining(), self@.restrict(Set::new(|k: Seq<u8>| prefix@.is_prefix_of(k)))),
    {
        let it = self.listing(Some(KeyFilter::Prefix(prefix)));
        proof {
            let f = KeyFilter::Prefix(prefix);
            assert(Set::new(|k: Seq<u8>| f.accepts_spec(k)) =~= Set::new(|k: Seq<u8>| prefix@.is_prefix_of(k)));
            assert(filtered(self@, Some(f)) == self@.restrict(Set::new(|k: Seq<u8>| prefix@.is_prefix_of(k))));
        }
        it
    }

    /// Number of nodes of the given kind (see `ArtNode::kind`) in the tree.
    pub closed spec fn node_count_spec(&self, kind: int) -> nat {
        tree_kind_count(self.root, kind)
    }

    /// Get index statistics: the key count, the nodes of each kind (counted by
    /// a walk of the tree, each count capped at `u64::MAX`) and the operation counters
    pub fn stats(&self) -> (s: ArtIndexStats)
        requires
            self.wf(),
        ensures
            s.key_count == self@.len(),
            s.node4_count == capped(self.node_count_spec(4)),
            s.node16_count == capped(self.node_count_spec(16)),
            s.node48_count == capped(self.node_count_spec(48)),
            s.node256_count == capped(self.node_count_spec(256)),
            s.leaf_count == capped(self.node_count_spec(0)),
            s.memory_bytes == 0,
            s.lookup_count == 0,
            s.insert_count == self.insert_count_spec(),
            s.delete_count == self.delete_count_spec(),
    {
        let t = match &self.root {
            Some(r) => tally_subtree(r, Ghost(Seq::<u8>::empty())),
            None => Tally { n4: 0, n16: 0, n48: 0, n256: 0, leaves: 0 },
        };
        ArtIndexStats {
            key_count: self.size,
            node4_count: t.n4,
            node16_count: t.n16,
            node48_count: t.n48,
            node256_count: t.n256,
            leaf_count: t.leaves,
            memory_bytes: 0,
            lookup_count: 0,
            insert_count: self.stats.insert_count,
            delete_count: self.stats.delete_count,
        }
    }

    /// Check if a key exists in the index
    pub fn contains(&self, key: &[u8]) -> (r: bool)
        requires
            self.wf(),
        ensures
            r == self@.dom().contains(key@),
    {
        self.get(key).is_some()
    }
}

/// Does `key[depth..]` start with `prefix`? Returns the answer and, when it
/// does not, how many bytes matched.
fn prefix_matches(prefix: &Vec<u8>, key: &[u8], depth: usize) -> (r: (bool, usize))
    requires
        depth <= key@.len(),
    ensures
        r.0 == (depth + prefix@.len() <= key@.len() && key@.subrange(depth as int, depth + prefix@.len()) == prefix@),
        r.1 <= prefix@.len(),
        depth + r.1 <= key@.len(),
        key@.subrange(depth as int, depth + r.1) == prefix@.subrange(0, r.1 as int),
        r.0 ==> r.1 == prefix@.len(),
        !r.0 ==> r.1 < prefix@.len() && (depth + r.1 == key@.len() || key@[depth + r.1] != prefix@[r.1 as int]),
{
    let klen: usize = key.len();
    let mut i: usize = 0;
    while i < prefix.len() && i < klen - depth && prefix[i] == key[depth + i]
        invariant
            klen == key@.len(),
            depth <= key@.len(),
            i <= prefix@.len(),
            depth + i <= key@.len(),
            key@.subrange(depth as int, depth + i) == prefix@.subrange(0, i as int),
        decreases prefix@.len() - i,
    {
        proof {
            assert(key@.subrange(depth as int, depth + i + 1) =~= key@.subrange(depth as int, depth + i).push(key@[depth + i]));
            assert(prefix@.subrange(0, i + 1) =~= prefix@.subrange(0, i as int).push(prefix@[i as int]));
        }
        i = i + 1;
    }
    if i == prefix.len() {
        proof {
            assert(prefix@.subrange(0, i as int) =~= prefix@);
        }
        (true, i)
    } else {
        proof {
            if depth + prefix@.len() <= key@.len() && key@.subrange(depth as int, depth + prefix@.len()) == prefix@ {
                assert(key@[depth + i] == key@.subrange(depth as int, depth + prefix@.len())[i as int]);
            }
        }
        (false, i)
    }
}

/// Internal recursive get
fn get_recursive(node: &ArtNode, key: &[u8], depth: usize) -> (r: Option<RowId>)
    requires
        depth <= key@.len(),
        node.local_wf(),
        crate::art_node::tree_wf(*node, key@.subrange(0, depth as int)),
    ensures
        r == crate::art_node::lookup(*node, depth as int, key@),
    decreases node,
{
    match node {
        ArtNode::Leaf(leaf) => {
            if leaf.matches(key) {
                Some(leaf.value())
            } else {
                None
            }
        },
        _ => {
            let klen: usize = key.len();
            let header = node.header();
            let (ok, _) = prefix_matches(&header.prefix, key, depth);
            if !ok {
                return None;
            }
            let new_depth = depth + header.prefix.len();
            if new_depth >= klen {
                if header.values.len() > 0 {
                    return Some(header.values[0]);
                } else {
                    return None;
                }
            }
            let next_byte = key[new_depth];
            match node.get_child(next_byte) {
                Some(child) => {
                    proof {
                        crate::art_node::lemma_child_decreases(*node, next_byte);
                        assert(key@.subrange(0, new_depth + 1) =~= key@.subrange(0, depth as int) + node.hdr().prefix@ + seq![next_byte]);
                        lemma_tree_wf_local(*child, key@.subrange(0, new_depth + 1));
                    }
                    get_recursive(child, key, new_depth + 1)
                },
                None => None,
            }
        },
    }
}

/// A consistent subtree has consistent slots at its root.
pub proof fn lemma_tree_wf_local(node: ArtNode, path: Seq<u8>)
    requires
        crate::art_node::tree_wf(node, path),
    ensures
        node.local_wf(),
{
}


/// The keys `k` that agree with `key` on the first `d` bytes.
pub open spec fn same_path(k: Seq<u8>, key: Seq<u8>, d: int) -> bool {
    d <= k.len() && k.subrange(0, d) == key.subrange(0, d)
}

/// Insert below a leaf: the same key gets the new value; another key makes a
/// Node4 holding both
fn insert_at_leaf(leaf: LeafNode, key: &[u8], value: RowId, depth: usize) -> (r: ArtNode)
    requires
        depth <= key@.len(),
        crate::art_node::tree_wf(ArtNode::Leaf(leaf), key@.subrange(0, depth as int)),
    ensures
        crate::art_node::tree_wf(r, key@.subrange(0, depth as int)),
        forall|k: Seq<u8>|
            same_path(k, key@, depth as int) ==> #[trigger] crate::art_node::lookup(r, depth as int, k) == if k == key@ {
                Some(value)
            } else {
                crate::art_node::lookup(ArtNode::Leaf(leaf), depth as int, k)
            },
{
    let ghost path = key@.subrange(0, depth as int);
    let klen: usize = key.len();
    if leaf.matches(key) {
        let r = ArtNode::Leaf(LeafNode::new(bytes_to_vec(key), value));
        return r;
    }
    let ghost lk = leaf.key_spec();
    let ghost lv = leaf.primary_spec();
    let lklen = leaf.key_ref().len();
    let mut p: usize = 0;
    while p < klen - depth && p < lklen - depth && key[depth + p] == leaf.key_ref()[depth + p]
        invariant
            klen == key@.len(),
            lklen == lk.len(),
            lk == leaf.key_spec(),
            depth <= klen,
            depth <= lklen,
            path.is_prefix_of(lk),
            depth + p <= klen,
            depth + p <= lklen,
            key@.subrange(depth as int, depth + p) == lk.subrange(depth as int, depth + p),
        decreases klen - depth - p,
    {
        proof {
            assert(key@.subrange(depth as int, depth + p + 1) =~= key@.subrange(depth as int, depth + p).push(key@[depth + p]));
            assert(lk.subrange(depth as int, depth + p + 1) =~= lk.subrange(depth as int, depth + p).push(lk[depth + p]));
        }
        p = p + 1;
    }
    let nd = depth + p;
    let old_byte: Option<u8> = if nd < lklen { Some(leaf.key_ref()[nd]) } else { None };
    let mut new_node = Node4::with_prefix(&key[depth..nd]);
    let ghost pre = key@.subrange(depth as int, nd as int);
    match old_byte {
        Some(b) => {
            new_node.add_child(b, ArtNode::Leaf(leaf));
        },
        None => {
            let mut vals: Vec<RowId> = Vec::new();
            vals.push(leaf.value());
            new_node.header.values = vals;
        },
    }
    let ghost mid = new_node;
    let ghost new_leaf_opt: Option<LeafNode> = None;
    if nd < klen {
        let nl = LeafNode::new(bytes_to_vec(key), value);
        proof {
            new_leaf_opt = Some(nl);
        }
        new_node.add_child(key[nd], ArtNode::Leaf(nl));
    } else {
        let mut vals: Vec<RowId> = Vec::new();
        vals.push(value);
        new_node.header.values = vals;
    }
    let r = ArtNode::Node4(Box::new(new_node));
    proof {
        assert(key@.subrange(0, nd as int) =~= path + pre);
        assert(lk.subrange(0, nd as int) =~= key@.subrange(0, nd as int)) by {
            assert forall|i: int| 0 <= i < nd implies lk[i] == key@[i] by {
                if i < depth {
                    assert(lk[i] == path[i]);
                } else {
                    assert(lk.subrange(depth as int, nd as int)[i - depth] == key@.subrange(depth as int, nd as int)[i - depth]);
                }
            }
        }
        if nd < klen && nd < lklen {
            assert(key@[nd as int] != lk[nd as int]);
        }
        assert(r.hdr().prefix@ == pre);
        assert forall|x: u8| #[trigger] r.child(x) is Some implies crate::art_node::tree_wf(r.child(x)->Some_0, path + r.hdr().prefix@ + seq![x]) by {
            if nd < klen && x == key@[nd as int] {
                assert(path + pre + seq![x] =~= key@.subrange(0, nd + 1));
            } else {
                assert(old_byte == Some(x));
                assert(path + pre + seq![x] =~= lk.subrange(0, nd + 1));
            }
        }
        assert forall|k: Seq<u8>| same_path(k, key@, depth as int) implies #[trigger] crate::art_node::lookup(r, depth as int, k) == if k == key@ {
            Some(value)
        } else {
            crate::art_node::lookup(ArtNode::Leaf(leaf), depth as int, k)
        } by {
            lemma_insert_leaf_split_lookup(k, key@, lk, lv, value, depth as int, nd as int, r, leaf);
        }
    }
    r
    
}

/// Insert into a node, returning the node that replaces it
fn insert_into_node(node: ArtNode, key: &[u8], value: RowId, depth: usize) -> (r: ArtNode)
    requires
        depth <= key@.len(),
        crate::art_node::tree_wf(node, key@.subrange(0, depth as int)),
    ensures
        crate::art_node::tree_wf(r, key@.subrange(0, depth as int)),
        forall|k: Seq<u8>|
            same_path(k, key@, depth as int) ==> #[trigger] crate::art_node::lookup(r, depth as int, k) == if k == key@ {
                Some(value)
            } else {
                crate::art_node::lookup(node, depth as int, k)
            },
    decreases node,
{
    let ghost path = key@.subrange(0, depth as int);
    let klen: usize = key.len();
    match node {
        ArtNode::Leaf(leaf) => insert_at_leaf(leaf, key, value, depth),
        _ => {
            let ghost old_node = node;
            let (ok, m) = prefix_matches(&node.header().prefix, key, depth);
            if !ok {
                return split_node(node, key, value, depth, m);
            }
            let nd = depth + node.header().prefix.len();
            let mut node = node;
            if nd == klen {
                let mut vals: Vec<RowId> = Vec::new();
                vals.push(value);
                node.header_mut().values = vals;
                proof {
                    assert forall|x: u8| #[trigger] node.child(x) == old_node.child(x) by {}
                    assert forall|x: u8| #[trigger] node.child(x) is Some implies crate::art_node::tree_wf(node.child(x)->Some_0, path + node.hdr().prefix@ + seq![x]) by {
                        assert(node.child(x) == old_node.child(x));
                    }
                    assert forall|k: Seq<u8>| same_path(k, key@, depth as int) implies #[trigger] crate::art_node::lookup(node, depth as int, k) == if k == key@ {
                        Some(value)
                    } else {
                        crate::art_node::lookup(old_node, depth as int, k)
                    } by {
                        let e = depth + node.hdr().prefix@.len();
                        if e <= k.len() && k.subrange(depth as int, e) == node.hdr().prefix@ {
                            if e == k.len() {
                                assert(k =~= key@) by {
                                    assert(k =~= k.subrange(0, depth as int) + k.subrange(depth as int, e));
                                    assert(key@ =~= key@.subrange(0, depth as int) + key@.subrange(depth as int, e));
                                }
                            } else {
                                assert(node.child(k[e]) == old_node.child(k[e]));
                            }
                        }
                    }
                }
                return node;
            }
            let b = key[nd];
            let ghost before_remove = node;
            match node.remove_child(b) {
                Some(child) => {
                    proof {
                        crate::art_node::lemma_child_decreases(old_node, b);
                        assert(path + old_node.hdr().prefix@ + seq![b] =~= key@.subrange(0, nd + 1));
                    }
                    let new_child = insert_into_node(child, key, value, nd + 1);
                    let r = add_child_grow(node, b, new_child);
                    proof {
                        lemma_replaced_child(old_node, r, b, key@, Some(value), depth as int, nd as int, Some(child), Some(new_child));
                    }
                    r
                },
                None => {
                    let new_leaf = ArtNode::Leaf(LeafNode::new(bytes_to_vec(key), value));
                    let r = add_child_grow(node, b, new_leaf);
                    proof {
                        assert(path + old_node.hdr().prefix@ + seq![b] =~= key@.subrange(0, nd + 1));
                        lemma_replaced_child(old_node, r, b, key@, Some(value), depth as int, nd as int, None, Some(new_leaf));
                    }
                    r
                },
            }
        },
    }
}

/// What a fresh Node4 made from a leaf and a new key holds.
proof fn lemma_insert_leaf_split_lookup(
    k: Seq<u8>,
    key: Seq<u8>,
    lk: Seq<u8>,
    lv: RowId,
    value: RowId,
    depth: int,
    nd: int,
    r: ArtNode,
    leaf: LeafNode,
)
    requires
        0 <= depth <= nd,
        nd <= key.len(),
        nd <= lk.len(),
        key != lk,
        leaf.key_spec() == lk,
        leaf.primary_spec() == lv,
        key.subrange(0, nd) == lk.subrange(0, nd),
        nd < key.len() && nd < lk.len() ==> key[nd] != lk[nd],
        same_path(k, key, depth),
        r is Node4,
        r.hdr().prefix@ == key.subrange(depth, nd),
        r.hdr().value_spec() == if nd == key.len() {
            Some(value)
        } else if nd == lk.len() {
            Some(lv)
        } else {
            None
        },
        forall|x: u8|
            nd < key.len() && x == key[nd] ==> (#[trigger] r.child(x) matches Some(ArtNode::Leaf(l2)) && l2.key_spec() == key && l2.primary_spec() == value),
        forall|x: u8|
            nd < lk.len() && x == lk[nd] ==> #[trigger] r.child(x) == Some(ArtNode::Leaf(leaf)),
        forall|x: u8|
            !(nd < key.len() && x == key[nd]) && !(nd < lk.len() && x == lk[nd]) ==> #[trigger] r.child(x) is None,
    ensures
        crate::art_node::lookup(r, depth, k) == if k == key {
            Some(value)
        } else {
            crate::art_node::lookup(ArtNode::Leaf(leaf), depth, k)
        },
{
    let pre = key.subrange(depth, nd);
    let lhs = crate::art_node::lookup(r, depth, k);
    let rhs = if k == key {
        Some(value)
    } else {
        crate::art_node::lookup(ArtNode::Leaf(leaf), depth, k)
    };
    assert(crate::art_node::lookup(ArtNode::Leaf(leaf), depth, k) == if lk == k { Some(lv) } else { None });
    if nd <= k.len() && k.subrange(depth, nd) == pre {
        assert(k.subrange(0, nd) =~= key.subrange(0, nd)) by {
            assert(k.subrange(0, nd) =~= k.subrange(0, depth) + k.subrange(depth, nd));
            assert(key.subrange(0, nd) =~= key.subrange(0, depth) + key.subrange(depth, nd));
        }
        if nd == k.len() {
            assert(lhs == r.hdr().value_spec());
            assert(k =~= k.subrange(0, nd));
            if nd == key.len() {
                assert(key =~= key.subrange(0, nd));
                assert(k == key);
            } else if nd == lk.len() {
                assert(lk =~= lk.subrange(0, nd));
                assert(k == lk);
                assert(k != key);
            } else {
                assert(k != key);
                assert(k != lk);
            }
        } else {
            let x = k[nd];
            assert(lhs == crate::art_node::lookup(r.child(x)->Some_0, nd + 1, k) || r.child(x) is None);
            if nd < key.len() && x == key[nd] {
                if k == lk {
                    assert(lk[nd] == key[nd]);
                    assert(false);
                }
            } else if nd < lk.len() && x == lk[nd] {
                if k == key {
                    assert(false);
                }
            } else {
                assert(r.child(x) is None);
                if k == key {
                    assert(false);
                }
                if k == lk {
                    assert(false);
                }
            }
        }
    } else {
        if k == key {
            assert(false);
        }
        if k == lk {
            assert(k.subrange(depth, nd) =~= lk.subrange(0, nd).subrange(depth, nd));
            assert(key.subrange(0, nd).subrange(depth, nd) =~= pre);
            assert(false);
        }
    }
}

/// Replacing one child of an inner node by a child (or by nothing) whose
/// keys differ only at `key` makes the node differ only at `key` too.
proof fn lemma_replaced_child(
    old_node: ArtNode,
    r: ArtNode,
    b: u8,
    key: Seq<u8>,
    target: Option<RowId>,
    depth: int,
    nd: int,
    old_child: Option<ArtNode>,
    new_child: Option<ArtNode>,
)
    requires
        !(old_node is Leaf),
        !(r is Leaf),
        0 <= depth <= nd < key.len(),
        crate::art_node::tree_wf(old_node, key.subrange(0, depth)),
        old_node.hdr().prefix@ == key.subrange(depth, nd),
        b == key[nd],
        old_node.child(b) == old_child,
        r.local_wf(),
        r.hdr().prefix@ == old_node.hdr().prefix@,
        r.hdr().values@ == old_node.hdr().values@,
        r.child(b) == new_child,
        forall|x: u8| x != b ==> #[trigger] r.child(x) == old_node.child(x),
        new_child matches Some(c) ==> crate::art_node::tree_wf(c, key.subrange(0, nd + 1)),
        forall|k: Seq<u8>|
            same_path(k, key, nd + 1) ==> #[trigger] crate::art_node::lookup_opt(new_child, nd + 1, k) == if k == key {
                target
            } else {
                crate::art_node::lookup_opt(old_child, nd + 1, k)
            },
    ensures
        crate::art_node::tree_wf(r, key.subrange(0, depth)),
        forall|k: Seq<u8>|
            same_path(k, key, depth) ==> #[trigger] crate::art_node::lookup(r, depth, k) == if k == key {
                target
            } else {
                crate::art_node::lookup(old_node, depth, k)
            },
{
    let path = key.subrange(0, depth);
    let pre = old_node.hdr().prefix@;
    assert(path + pre + seq![b] =~= key.subrange(0, nd + 1));
    assert forall|x: u8| #[trigger] r.child(x) is Some implies crate::art_node::tree_wf(r.child(x)->Some_0, path + r.hdr().prefix@ + seq![x]) by {
        if x != b {
            assert(r.child(x) == old_node.child(x));
        }
    }
    assert forall|k: Seq<u8>| same_path(k, key, depth) implies #[trigger] crate::art_node::lookup(r, depth, k) == if k == key {
        target
    } else {
        crate::art_node::lookup(old_node, depth, k)
    } by {
        crate::art_node::lemma_lookup_inner(r, depth, k);
        crate::art_node::lemma_lookup_inner(old_node, depth, k);
        assert(key.subrange(depth, nd) == pre);
        if nd <= k.len() && k.subrange(depth, nd) == pre {
            assert(k.subrange(0, nd) =~= key.subrange(0, nd)) by {
                assert(k.subrange(0, nd) =~= k.subrange(0, depth) + k.subrange(depth, nd));
                assert(key.subrange(0, nd) =~= key.subrange(0, depth) + key.subrange(depth, nd));
            }
            if nd == k.len() {
                assert(k != key);
            } else {
                let x = k[nd];
                if x == b {
                    assert(k.subrange(0, nd + 1) =~= k.subrange(0, nd).push(x));
                    assert(key.subrange(0, nd + 1) =~= key.subrange(0, nd).push(b));
                    assert(same_path(k, key, nd + 1));
                    assert(crate::art_node::lookup_opt(new_child, nd + 1, k) == if k == key {
                        target
                    } else {
                        crate::art_node::lookup_opt(old_child, nd + 1, k)
                    });
                } else {
                    assert(r.child(x) == old_node.child(x));
                    assert(k != key);
                }
            }
        } else {
            assert(k != key);
        }
    }
}

/// Split a node whose prefix differs from the key at position `m`
fn split_node(node: ArtNode, key: &[u8], value: RowId, depth: usize, m: usize) -> (r: ArtNode)
    requires
        !(node is Leaf),
        depth <= key@.len(),
        crate::art_node::tree_wf(node, key@.subrange(0, depth as int)),
        m < node.hdr().prefix@.len(),
        depth + m <= key@.len(),
        key@.subrange(depth as int, depth + m) == node.hdr().prefix@.subrange(0, m as int),
        depth + m == key@.len() || key@[depth + m] != node.hdr().prefix@[m as int],
    ensures
        crate::art_node::tree_wf(r, key@.subrange(0, depth as int)),
        forall|k: Seq<u8>|
            same_path(k, key@, depth as int) ==> #[trigger] crate::art_node::lookup(r, depth as int, k) == if k == key@ {
                Some(value)
            } else {
                crate::art_node::lookup(node, depth as int, k)
            },
{
    let ghost path = key@.subrange(0, depth as int);
    let ghost old_node = node;
    let ghost pre = node.hdr().prefix@;
    let old_prefix = bytes_to_vec(node.header().prefix.as_slice());
    let plen: usize = old_prefix.len();
    let mut new_parent = Node4::with_prefix(&old_prefix.as_slice()[0..m]);
    let old_key = old_prefix[m];
    let mut node = node;
    node.header_mut().set_prefix(&old_prefix.as_slice()[m + 1..plen]);
    let ghost moved = node;
    proof {
        assert(pre =~= pre.subrange(0, m + 1) + pre.subrange(m + 1, pre.len() as int));
        crate::art_node::lemma_shift_prefix(old_node, node.hdr(), path, pre.subrange(0, m + 1));
        assert(old_node.with_hdr(node.hdr()) == node);
    }
    new_parent.add_child(old_key, node);
    let ghost new_leaf_opt: Option<LeafNode> = None;
    if m < key.len() - depth {
        let nl = LeafNode::new(bytes_to_vec(key), value);
        proof {
            new_leaf_opt = Some(nl);
        }
        new_parent.add_child(key[depth + m], ArtNode::Leaf(nl));
    } else {
        let mut vals: Vec<RowId> = Vec::new();
        vals.push(value);
        new_parent.header.values = vals;
    }
    let r = ArtNode::Node4(Box::new(new_parent));
    proof {
        let q = pre.subrange(0, m as int);
        let dm = depth + m;
        assert(r.hdr().prefix@ == q);
        assert(path + q + seq![old_key] =~= path + pre.subrange(0, m + 1));
        assert forall|x: u8| #[trigger] r.child(x) is Some implies crate::art_node::tree_wf(r.child(x)->Some_0, path + r.hdr().prefix@ + seq![x]) by {
            if x == old_key {
            } else {
                assert(dm < key@.len() && x == key@[dm]);
                assert(path + q + seq![x] =~= key@.subrange(0, dm + 1)) by {
                    assert(key@.subrange(0, dm + 1) =~= key@.subrange(0, depth as int) + key@.subrange(depth as int, dm) + seq![key@[dm]]);
                }
            }
        }
        assert(key@.subrange(depth as int, dm) == q);
        assert forall|k: Seq<u8>| same_path(k, key@, depth as int) implies #[trigger] crate::art_node::lookup(r, depth as int, k) == if k == key@ {
            Some(value)
        } else {
            crate::art_node::lookup(old_node, depth as int, k)
        } by {
            let e = depth + pre.len();
            crate::art_node::lemma_lookup_inner(r, depth as int, k);
            crate::art_node::lemma_lookup_inner(old_node, depth as int, k);
            if e <= k.len() && k.subrange(depth as int, e) == pre {
                assert(k.subrange(depth as int, dm) =~= k.subrange(depth as int, e).subrange(0, m as int));
                assert(k[dm] == k.subrange(depth as int, e)[m as int]);
            }
            if dm <= k.len() && k.subrange(depth as int, dm) == q {
                assert(k.subrange(0, dm) =~= key@.subrange(0, dm)) by {
                    assert(k.subrange(0, dm) =~= k.subrange(0, depth as int) + k.subrange(depth as int, dm));
                    assert(key@.subrange(0, dm) =~= key@.subrange(0, depth as int) + key@.subrange(depth as int, dm));
                }
                if dm == k.len() {
                    if dm == key@.len() {
                        assert(k =~= k.subrange(0, dm));
                        assert(key@ =~= key@.subrange(0, dm));
                    } else {
                        assert(k != key@);
                    }
                } else {
                    let x = k[dm];
                    if x == old_key {
                        assert(k.subrange(depth as int, dm + 1) =~= k.subrange(depth as int, dm).push(x));
                        assert(pre.subrange(0, m + 1) =~= q.push(old_key));
                        assert(crate::art_node::lookup(moved, dm + 1, k) == crate::art_node::lookup(old_node, depth as int, k));
                        assert(k != key@);
                    } else if dm < key@.len() && x == key@[dm] {
                        let nl = new_leaf_opt->Some_0;
                        assert(r.child(x) == Some(ArtNode::Leaf(nl)));
                        assert(crate::art_node::lookup(ArtNode::Leaf(nl), dm + 1, k) == if nl.key_spec() == k { Some(value) } else { None });
                    } else {
                        assert(r.child(x) is None);
                        assert(k != key@);
                    }
                }
            } else {
                assert(k != key@);
            }
        }
    }
    r
}


/// Shrink a node to the next smaller size when it has few enough children
fn maybe_shrink_node(node: ArtNode) -> (r: ArtNode)
    requires
        node.local_wf(),
    ensures
        r.local_wf(),
        (r is Leaf) == (node is Leaf),
        node is Leaf ==> r == node,
        !(node is Leaf) ==> r.hdr().prefix@ == node.hdr().prefix@ && r.hdr().values@ == node.hdr().values@,
        forall|x: u8| #[trigger] r.child(x) == node.child(x),
        node is Node4 ==> r == node,
        node is Node16 ==> if node.hdr().num_children <= 4 { r is Node4 } else { r == node },
        node is Node48 ==> if node.hdr().num_children <= 16 { r is Node16 } else { r == node },
        node is Node256 ==> if node.hdr().num_children <= 48 { r is Node48 } else { r == node },
{
    match node {
        ArtNode::Node16(bx) => {
            if bx.should_shrink() {
                ArtNode::Node4(Box::new((*bx).shrink()))
            } else {
                ArtNode::Node16(bx)
            }
        },
        ArtNode::Node48(bx) => {
            if bx.should_shrink() {
                ArtNode::Node16(Box::new((*bx).shrink()))
            } else {
                ArtNode::Node48(bx)
            }
        },
        ArtNode::Node256(bx) => {
            if bx.should_shrink() {
                ArtNode::Node48(Box::new((*bx).shrink()))
            } else {
                ArtNode::Node256(bx)
            }
        },
        other => other,
    }
}

/// Remove `key` below a node; returns the node that replaces it (None when
/// the node goes away) and the removed value
fn remove_recursive(node: ArtNode, key: &[u8], depth: usize) -> (r: (Option<ArtNode>, Option<RowId>))
    requires
        depth <= key@.len(),
        crate::art_node::tree_wf(node, key@.subrange(0, depth as int)),
    ensures
        r.1 == crate::art_node::lookup(node, depth as int, key@),
        r.0 matches Some(n) ==> crate::art_node::tree_wf(n, key@.subrange(0, depth as int)),
        forall|k: Seq<u8>|
            same_path(k, key@, depth as int) ==> #[trigger] crate::art_node::lookup_opt(r.0, depth as int, k) == if k == key@ {
                None
            } else {
                crate::art_node::lookup(node, depth as int, k)
            },
    decreases node,
{
    let ghost path = key@.subrange(0, depth as int);
    let klen: usize = key.len();
    match node {
        ArtNode::Leaf(leaf) => {
            if leaf.matches(key) {
                (None, Some(leaf.value()))
            } else {
                (Some(ArtNode::Leaf(leaf)), None)
            }
        },
        _ => {
            let ghost old_node = node;
            let (ok, _) = prefix_matches(&node.header().prefix, key, depth);
            if !ok {
                proof {
                    assert forall|k: Seq<u8>| same_path(k, key@, depth as int) implies #[trigger] crate::art_node::lookup_opt(Some(old_node), depth as int, k) == if k == key@ {
                        None
                    } else {
                        crate::art_node::lookup(old_node, depth as int, k)
                    } by {
                        crate::art_node::lemma_lookup_inner(old_node, depth as int, k);
                    }
                    crate::art_node::lemma_lookup_inner(old_node, depth as int, key@);
                }
                return (Some(node), None);
            }
            let nd = depth + node.header().prefix.len();
            let mut node = node;
            if nd == klen {
                let v = if node.header().values.len() > 0 { Some(node.header().values[0]) } else { None };
                node.header_mut().values = Vec::new();
                proof {
                    crate::art_node::lemma_lookup_inner(old_node, depth as int, key@);
                    assert forall|x: u8| #[trigger] node.child(x) == old_node.child(x) by {}
                    assert forall|x: u8| #[trigger] node.child(x) is Some implies crate::art_node::tree_wf(node.child(x)->Some_0, path + node.hdr().prefix@ + seq![x]) by {
                        assert(node.child(x) == old_node.child(x));
                    }
                    assert forall|k: Seq<u8>| same_path(k, key@, depth as int) implies #[trigger] crate::art_node::lookup_opt(Some(node), depth as int, k) == if k == key@ {
                        None
                    } else {
                        crate::art_node::lookup(old_node, depth as int, k)
                    } by {
                        crate::art_node::lemma_lookup_inner(node, depth as int, k);
                        crate::art_node::lemma_lookup_inner(old_node, depth as int, k);
                        let e = depth + node.hdr().prefix@.len();
                        if e <= k.len() && k.subrange(depth as int, e) == node.hdr().prefix@ {
                            if e == k.len() {
                                assert(k =~= key@) by {
                                    assert(k =~= k.subrange(0, depth as int) + k.subrange(depth as int, e));
                                    assert(key@ =~= key@.subrange(0, depth as int) + key@.subrange(depth as int, e));
                                }
                            } else {
                                assert(node.child(k[e]) == old_node.child(k[e]));
                            }
                        }
                    }
                }
                return (Some(node), v);
            }
            let b = key[nd];
            match node.remove_child(b) {
                Some(child) => {
                    proof {
                        crate::art_node::lemma_child_decreases(old_node, b);
                        assert(path + old_node.hdr().prefix@ + seq![b] =~= key@.subrange(0, nd + 1));
                    }
                    let (new_child, v) = remove_recursive(child, key, nd + 1);
                    let ghost nc = new_child;
                    let node2 = match new_child {
                        Some(c) => add_child_grow(node, b, c),
                        None => node,
                    };
                    let final_node = maybe_shrink_node(node2);
                    proof {
                        crate::art_node::lemma_lookup_inner(old_node, depth as int, key@);
                        lemma_replaced_child(old_node, final_node, b, key@, None, depth as int, nd as int, Some(child), nc);
                    }
                    (Some(final_node), v)
                },
                None => {
                    proof {
                        crate::art_node::lemma_lookup_inner(old_node, depth as int, key@);
                        crate::art_node::lemma_same_shape(node, old_node, path);
                        assert forall|k: Seq<u8>| same_path(k, key@, depth as int) implies #[trigger] crate::art_node::lookup_opt(Some(node), depth as int, k) == if k == key@ {
                            None
                        } else {
                            crate::art_node::lookup(old_node, depth as int, k)
                        } by {
                            assert(crate::art_node::lookup(node, depth as int, k) == crate::art_node::lookup(old_node, depth as int, k));
                        }
                    }
                    (Some(node), None)
                },
            }
        },
    }
}


/// `a` comes strictly before `b` in byte-wise lexicographic order.
pub open spec fn lex_lt(a: Seq<u8>, b: Seq<u8>) -> bool {
    exists|i: int|
        #![trigger a.subrange(0, i), b.subrange(0, i)]
        0 <= i <= a.len() && i <= b.len() && a.subrange(0, i) == b.subrange(0, i) && ((i == a.len() && i < b.len()) || (i
            < a.len() && i < b.len() && a[i] < b[i]))
}

/// The key and value of an entry, as plain values.
pub open spec fn entry_view(e: (Vec<u8>, RowId)) -> (Seq<u8>, RowId) {
    (e.0@, e.1)
}

/// The entries `s[lo..]` are exactly what `node`, reached along `path`, holds,
/// in strictly increasing key order.
pub open spec fn entries_of(s: Seq<(Vec<u8>, RowId)>, lo: int, node: ArtNode, path: Seq<u8>) -> bool {
    &&& forall|i: int|
        lo <= i < s.len() ==> path.is_prefix_of((#[trigger] s[i]).0@) && crate::art_node::lookup(node, path.len() as int, s[i].0@)
            == Some(s[i].1)
    &&& forall|k: Seq<u8>|
        path.is_prefix_of(k) && (#[trigger] crate::art_node::lookup(node, path.len() as int, k)) is Some ==> exists|i: int|
            lo <= i < s.len() && s[i].0@ == k
    &&& forall|i: int, j: int| lo <= i < j < s.len() ==> lex_lt((#[trigger] s[i]).0@, (#[trigger] s[j]).0@)
}

/// A key that extends `p` at a smaller byte comes before one that extends it at a larger byte;
/// `p` itself comes before any key that extends it.
pub proof fn lemma_lex_branch(p: Seq<u8>, a: Seq<u8>, b: Seq<u8>)
    requires
        p.is_prefix_of(a),
        p.is_prefix_of(b),
        p.len() < b.len(),
        a.len() == p.len() || (p.len() < a.len() && a[p.len() as int] < b[p.len() as int]),
    ensures
        lex_lt(a, b),
{
    let i: int = p.len() as int;
    assert(a.subrange(0, i) =~= p);
    assert(b.subrange(0, i) =~= p);
}

/// Append, in increasing key order, every key and value held below `node`
/// (reached along `path`) to `out`
fn collect_entries(node: &ArtNode, path: &Vec<u8>, out: &mut Vec<(Vec<u8>, RowId)>)
    requires
        crate::art_node::tree_wf(*node, path@),
    ensures
        final(out)@.len() >= old(out)@.len(),
        final(out)@.subrange(0, old(out)@.len() as int) == old(out)@,
        entries_of(final(out)@, old(out)@.len() as int, *node, path@),
    decreases node,
{
    let ghost lo = out@.len() as int;
    let ghost out0 = out@;
    match node {
        ArtNode::Leaf(leaf) => {
            out.push((bytes_to_vec(leaf.key_ref().as_slice()), leaf.value()));
            proof {
                assert(out@.subrange(0, lo) =~= out0);
                assert forall|k: Seq<u8>|
                    path@.is_prefix_of(k) && (#[trigger] crate::art_node::lookup(*node, path@.len() as int, k)) is Some implies exists|i: int|
                        lo <= i < out@.len() && out@[i].0@ == k by {
                    assert(out@[lo].0@ == k);
                }
            }
        },
        _ => {
            let header = node.header();
            let mut nk = bytes_to_vec(path.as_slice());
            let mut t: usize = 0;
            while t < header.prefix.len()
                invariant
                    t <= header.prefix@.len(),
                    nk@ == path@ + header.prefix@.subrange(0, t as int),
                decreases header.prefix@.len() - t,
            {
                nk.push(header.prefix[t]);
                t = t + 1;
                proof {
                    assert(nk@ =~= path@ + header.prefix@.subrange(0, t as int));
                }
            }
            proof {
                assert(header.prefix@.subrange(0, header.prefix@.len() as int) =~= header.prefix@);
            }
            let ghost pl = path@.len() as int;
            let ghost nkl = nk@.len() as int;
            if header.values.len() > 0 {
                out.push((bytes_to_vec(nk.as_slice()), header.values[0]));
                proof {
                    let k = nk@;
                    crate::art_node::lemma_lookup_inner(*node, pl, k);
                    assert(k.subrange(pl, nkl) =~= header.prefix@);
                    assert(path@.is_prefix_of(k));
                }
            }
            proof {
                assert(out@.subrange(0, lo) =~= out0);
                assert forall|k: Seq<u8>|
                    path@.is_prefix_of(k) && (#[trigger] crate::art_node::lookup(*node, pl, k)) is Some && nk@.is_prefix_of(k)
                        && (k.len() == nkl || (nkl < k.len() && (k[nkl] as int) < 0)) implies exists|i: int|
                        lo <= i < out@.len() && out@[i].0@ == k by {
                    crate::art_node::lemma_lookup_inner(*node, pl, k);
                    assert(k =~= nk@);
                    assert(k.subrange(pl, nkl) =~= header.prefix@);
                    assert(out@[lo].0@ == k);
                }
            }
            let mut b: usize = 0;
            while b < 256
                invariant
                    crate::art_node::tree_wf(*node, path@),
                    *header == node.hdr(),
                    !(*node is Leaf),
                    nk@ == path@ + header.prefix@,
                    pl == path@.len(),
                    nkl == nk@.len(),
                    b <= 256,
                    lo == out0.len(),
                    out@.len() >= lo,
                    out@.subrange(0, lo) == out0,
                    forall|i: int|
                        lo <= i < out@.len() ==> path@.is_prefix_of((#[trigger] out@[i]).0@) && crate::art_node::lookup(*node, pl, out@[i].0@)
                            == Some(out@[i].1),
                    forall|i: int|
                        lo <= i < out@.len() ==> nk@.is_prefix_of((#[trigger] out@[i]).0@) && (out@[i].0@.len() == nkl || (nkl
                            < out@[i].0@.len() && (out@[i].0@[nkl] as int) < b)),
                    forall|k: Seq<u8>|
                        path@.is_prefix_of(k) && (#[trigger] crate::art_node::lookup(*node, pl, k)) is Some && nk@.is_prefix_of(k)
                            && (k.len() == nkl || (nkl < k.len() && (k[nkl] as int) < b)) ==> exists|i: int|
                            lo <= i < out@.len() && out@[i].0@ == k,
                    forall|i: int, j: int| lo <= i < j < out@.len() ==> lex_lt((#[trigger] out@[i]).0@, (#[trigger] out@[j]).0@),
                decreases 256 - b,
            {
                let ghost lo_b = out@.len() as int;
                let ghost out_b = out@;
                match node.get_child(b as u8) {
                    Some(c) => {
                        let mut cp = bytes_to_vec(nk.as_slice());
                        cp.push(b as u8);
                        proof {
                            crate::art_node::lemma_child_decreases(*node, b as u8);
                            assert(cp@ == path@ + node.hdr().prefix@ + seq![b as u8]);
                        }
                        collect_entries(c, &cp, out);
                        proof {
                            assert forall|i: int| lo_b <= i < out@.len() implies nk@.is_prefix_of((#[trigger] out@[i]).0@) && (out@[i].0@[nkl] as int) == b && nkl < out@[i].0@.len() by {
                                assert(cp@.is_prefix_of(out@[i].0@));
                                assert(out@[i].0@[nkl] == cp@[nkl]);
                                assert forall|z: int| 0 <= z < nkl implies out@[i].0@[z] == nk@[z] by {
                                    assert(out@[i].0@[z] == cp@[z]);
                                }
                            }
                            assert(out@.subrange(0, lo_b) == out_b);
                            assert forall|i: int| lo <= i < lo_b implies (#[trigger] out@[i]) == out_b[i] by {
                                assert(out@.subrange(0, lo_b)[i] == out@[i]);
                                assert(out@.subrange(0, lo_b)[i] == out_b[i]);
                            }
                            assert(out@.subrange(0, lo) =~= out@.subrange(0, lo_b).subrange(0, lo));
                            assert(out_b.subrange(0, lo) == out0);
                            assert forall|i: int|
                                lo <= i < out@.len() implies path@.is_prefix_of((#[trigger] out@[i]).0@) && crate::art_node::lookup(*node, pl, out@[i].0@)
                                    == Some(out@[i].1) by {
                                if i >= lo_b {
                                    let k = out@[i].0@;
                                    crate::art_node::lemma_lookup_inner(*node, pl, k);
                                    assert(k.subrange(pl, nkl) =~= header.prefix@) by {
                                        assert forall|z: int| 0 <= z < nkl - pl implies k.subrange(pl, nkl)[z] == header.prefix@[z] by {
                                            assert(k[pl + z] == nk@[pl + z]);
                                        }
                                    }
                                    assert(path@.is_prefix_of(k)) by {
                                        assert forall|z: int| 0 <= z < pl implies k[z] == path@[z] by {
                                            assert(k[z] == nk@[z]);
                                        }
                                    }
                                }
                            }
                            assert forall|i: int, j: int| lo <= i < j < out@.len() implies lex_lt((#[trigger] out@[i]).0@, (#[trigger] out@[j]).0@) by {
                                if j >= lo_b && i < lo_b {
                                    lemma_lex_branch(nk@, out@[i].0@, out@[j].0@);
                                }
                            }
                            assert forall|k: Seq<u8>|
                                path@.is_prefix_of(k) && (#[trigger] crate::art_node::lookup(*node, pl, k)) is Some && nk@.is_prefix_of(k)
                                    && (k.len() == nkl || (nkl < k.len() && (k[nkl] as int) < b + 1)) implies exists|i: int|
                                    lo <= i < out@.len() && out@[i].0@ == k by {
                                if nkl < k.len() && (k[nkl] as int) == b {
                                    crate::art_node::lemma_lookup_inner(*node, pl, k);
                                    assert(k.subrange(pl, nkl) =~= header.prefix@) by {
                                        assert forall|z: int| 0 <= z < nkl - pl implies k.subrange(pl, nkl)[z] == header.prefix@[z] by {
                                            assert(k[pl + z] == nk@[pl + z]);
                                        }
                                    }
                                    assert(cp@.is_prefix_of(k)) by {
                                        assert forall|z: int| 0 <= z < nkl + 1 implies k[z] == cp@[z] by {
                                            if z < nkl {
                                                assert(k[z] == nk@[z]);
                                            }
                                        }
                                    }
                                    assert(crate::art_node::lookup(*c, cp@.len() as int, k) is Some);
                                } else {
                                    let i = choose|i: int| lo <= i < lo_b && out_b[i].0@ == k;
                                    assert(out@[i] == out_b[i]);
                                }
                            }
                        }
                    },
                    None => {
                        proof {
                            assert forall|k: Seq<u8>|
                                path@.is_prefix_of(k) && (#[trigger] crate::art_node::lookup(*node, pl, k)) is Some && nk@.is_prefix_of(k)
                                    && (k.len() == nkl || (nkl < k.len() && (k[nkl] as int) < b + 1)) implies exists|i: int|
                                    lo <= i < out@.len() && out@[i].0@ == k by {
                                if nkl < k.len() && (k[nkl] as int) == b {
                                    crate::art_node::lemma_lookup_inner(*node, pl, k);
                                    assert(k.subrange(pl, nkl) =~= header.prefix@) by {
                                        assert forall|z: int| 0 <= z < nkl - pl implies k.subrange(pl, nkl)[z] == header.prefix@[z] by {
                                            assert(k[pl + z] == nk@[pl + z]);
                                        }
                                    }
                                    assert(node.child(k[nkl]) is None);
                                }
                            }
                        }
                    },
                }
                b = b + 1;
            }
            proof {
                assert forall|k: Seq<u8>|
                    path@.is_prefix_of(k) && (#[trigger] crate::art_node::lookup(*node, pl, k)) is Some implies exists|i: int|
                        lo <= i < out@.len() && out@[i].0@ == k by {
                    crate::art_node::lemma_lookup_inner(*node, pl, k);
                    assert(nk@.is_prefix_of(k)) by {
                        assert forall|z: int| 0 <= z < nkl implies k[z] == nk@[z] by {
                            if z < pl {
                                assert(k[z] == path@[z]);
                            } else {
                                assert(k.subrange(pl, nkl)[z - pl] == header.prefix@[z - pl]);
                            }
                        }
                    }
                }
            }
        },
    }
}


/// `es` lists every key and value of `m` once, in strictly increasing key order.
pub open spec fn sorted_listing(es: Seq<(Seq<u8>, RowId)>, m: Map<Seq<u8>, RowId>) -> bool {
    &&& forall|i: int| 0 <= i < es.len() ==> m.dom().contains((#[trigger] es[i]).0) && m[es[i].0] == es[i].1
    &&& forall|k: Seq<u8>| #[trigger] m.dom().contains(k) ==> exists|i: int| 0 <= i < es.len() && es[i].0 == k
    &&& forall|i: int, j: int| 0 <= i < j < es.len() ==> lex_lt((#[trigger] es[i]).0, (#[trigger] es[j]).0)
}

/// Key `k` lies in `[start, end)`.
pub open spec fn in_range(k: Seq<u8>, start: Seq<u8>, end: Seq<u8>) -> bool {
    !lex_lt(k, start) && lex_lt(k, end)
}

/// Byte-wise lexicographic comparison: is `a` before `b`?
pub fn bytes_lt(a: &[u8], b: &[u8]) -> (r: bool)
    ensures
        r == lex_lt(a@, b@),
{
    let alen: usize = a.len();
    let blen: usize = b.len();
    let mut i: usize = 0;
    while i < alen && i < blen && a[i] == b[i]
        invariant
            alen == a@.len(),
            blen == b@.len(),
            i <= alen,
            i <= blen,
            a@.subrange(0, i as int) == b@.subrange(0, i as int),
        decreases alen - i,
    {
        proof {
            assert(a@.subrange(0, i + 1) =~= a@.subrange(0, i as int).push(a@[i as int]));
            assert(b@.subrange(0, i + 1) =~= b@.subrange(0, i as int).push(b@[i as int]));
        }
        i = i + 1;
    }
    let r = if i < alen && i < blen {
        a[i] < b[i]
    } else {
        i == alen && i < blen
    };
    proof {
        if r {
            assert(a@.subrange(0, i as int) == b@.subrange(0, i as int));
        } else {
            if lex_lt(a@, b@) {
                let j = choose|j: int|
                    #![trigger a@.subrange(0, j), b@.subrange(0, j)]
                    0 <= j <= a@.len() && j <= b@.len() && a@.subrange(0, j) == b@.subrange(0, j) && ((j == a@.len() && j < b@.len()) || (j
                        < a@.len() && j < b@.len() && a@[j] < b@[j]));
                if j < i {
                    assert(a@[j] == a@.subrange(0, i as int)[j]);
                    assert(b@[j] == b@.subrange(0, i as int)[j]);
                } else if j > i {
                    assert(a@[i as int] == a@.subrange(0, j)[i as int]);
                    assert(b@[i as int] == b@.subrange(0, j)[i as int]);
                }
            }
        }
    }
    r
}

/// Does `k` start with `prefix`?
pub fn bytes_starts_with(k: &[u8], prefix: &[u8]) -> (r: bool)
    ensures
        r == prefix@.is_prefix_of(k@),
{
    if prefix.len() > k.len() {
        return false;
    }
    let mut i: usize = 0;
    while i < prefix.len()
        invariant
            prefix@.len() <= k@.len(),
            i <= prefix@.len(),
            forall|j: int| 0 <= j < i ==> k@[j] == prefix@[j],
        decreases prefix@.len() - i,
    {
        if k[i] != prefix[i] {
            return false;
        }
        i = i + 1;
    }
    proof {
        assert(prefix@ =~= k@.subrange(0, prefix@.len() as int));
    }
    true
}

/// Which keys a scan keeps.
#[derive(Clone, Copy)]
enum KeyFilter<'a> {
    /// Keys in `[start, end)`
    Range { start: &'a [u8], end: &'a [u8] },
    /// Keys that start with the given bytes
    Prefix(&'a [u8]),
}

impl<'a> KeyFilter<'a> {
    spec fn accepts_spec(&self, k: Seq<u8>) -> bool {
        match self {
            KeyFilter::Range { start, end } => in_range(k, start@, end@),
            KeyFilter::Prefix(p) => p@.is_prefix_of(k),
        }
    }

    fn accepts(&self, k: &[u8]) -> (r: bool)
        ensures
            r == self.accepts_spec(k@),
    {
        match self {
            KeyFilter::Range { start, end } => !bytes_lt(k, start) && bytes_lt(k, end),
            KeyFilter::Prefix(p) => bytes_starts_with(k, p),
        }
    }
}

/// Does the optional filter keep key `k`?
spec fn keeps(filter: Option<KeyFilter>, k: Seq<u8>) -> bool {
    match filter {
        Some(f) => f.accepts_spec(k),
        None => true,
    }
}

/// The part of `m` that the optional filter keeps.
spec fn filtered(m: Map<Seq<u8>, RowId>, filter: Option<KeyFilter>) -> Map<Seq<u8>, RowId> {
    match filter {
        Some(f) => m.restrict(Set::new(|k: Seq<u8>| f.accepts_spec(k))),
        None => m,
    }
}

proof fn lemma_filtered(m: Map<Seq<u8>, RowId>, filter: Option<KeyFilter>, k: Seq<u8>)
    ensures
        filtered(m, filter).dom().contains(k) == (m.dom().contains(k) && keeps(filter, k)),
        filtered(m, filter).dom().contains(k) ==> filtered(m, filter)[k] == m[k],
{
}

/// Number of nodes of the given kind (see `ArtNode::kind`) in the subtree of `node`.
pub open spec fn kind_count(node: ArtNode, kind: int) -> nat
    decreases node, 257int,
{
    match node {
        ArtNode::Leaf(_) => if kind == 0 { 1nat } else { 0nat },
        _ => (if node.kind() == kind { 1nat } else { 0nat }) + kids_kind_count(node, kind, 256),
    }
}

/// Number of nodes of the given kind below the children of `node` reached by bytes under `b`.
pub open spec fn kids_kind_count(node: ArtNode, kind: int, b: int) -> nat
    decreases node, b,
{
    if b <= 0 || b > 256 {
        0
    } else {
        kids_kind_count(node, kind, b - 1) + match node.child((b - 1) as u8) {
            Some(c) => {
                proof {
                    crate::art_node::lemma_child_decreases(node, (b - 1) as u8);
                }
                kind_count(c, kind)
            },
            None => 0,
        }
    }
}

/// Number of nodes of the given kind in an optional tree.
pub open spec fn tree_kind_count(root: Option<ArtNode>, kind: int) -> nat {
    match root {
        Some(r) => kind_count(r, kind),
        None => 0,
    }
}

/// A count as a `u64` counter shows it: at most `u64::MAX`.
pub open spec fn capped(n: nat) -> u64 {
    if n > u64::MAX { u64::MAX } else { n as u64 }
}

/// Node counts of a subtree, by kind.
struct Tally {
    n4: u64,
    n16: u64,
    n48: u64,
    n256: u64,
    leaves: u64,
}

impl Tally {
    spec fn counts(&self, node: ArtNode) -> bool {
        &&& self.n4 == capped(kind_count(node, 4))
        &&& self.n16 == capped(kind_count(node, 16))
        &&& self.n48 == capped(kind_count(node, 48))
        &&& self.n256 == capped(kind_count(node, 256))
        &&& self.leaves == capped(kind_count(node, 0))
    }
}

/// Count the nodes of each kind in the subtree of `node`.
fn tally_subtree(node: &ArtNode, Ghost(path): Ghost<Seq<u8>>) -> (t: Tally)
    requires
        crate::art_node::tree_wf(*node, path),
    ensures
        t.counts(*node),
    decreases node,
{
    match node {
        ArtNode::Leaf(_) => {
            return Tally { n4: 0, n16: 0, n48: 0, n256: 0, leaves: 1 };
        },
        _ => {},
    }
    let mut t = Tally {
        n4: if node.kind_is(4) { 1 } else { 0 },
        n16: if node.kind_is(16) { 1 } else { 0 },
        n48: if node.kind_is(48) { 1 } else { 0 },
        n256: if node.kind_is(256) { 1 } else { 0 },
        leaves: 0,
    };
    let mut b: usize = 0;
    while b < 256
        invariant
            crate::art_node::tree_wf(*node, path),
            !(*node is Leaf),
            b <= 256,
            t.n4 == capped((if node.kind() == 4 { 1nat } else { 0nat }) + kids_kind_count(*node, 4, b as int)),
            t.n16 == capped((if node.kind() == 16 { 1nat } else { 0nat }) + kids_kind_count(*node, 16, b as int)),
            t.n48 == capped((if node.kind() == 48 { 1nat } else { 0nat }) + kids_kind_count(*node, 48, b as int)),
            t.n256 == capped((if node.kind() == 256 { 1nat } else { 0nat }) + kids_kind_count(*node, 256, b as int)),
            t.leaves == capped(kids_kind_count(*node, 0, b as int)),
        decreases 256 - b,
    {
        match node.get_child(b as u8) {
            Some(c) => {
                proof {
                    crate::art_node::lemma_child_decreases(*node, b as u8);
                }
                let ct = tally_subtree(c, Ghost(path + node.hdr().prefix@ + seq![b as u8]));
                t.n4 = t.n4.saturating_add(ct.n4);
                t.n16 = t.n16.saturating_add(ct.n16);
                t.n48 = t.n48.saturating_add(ct.n48);
                t.n256 = t.n256.saturating_add(ct.n256);
                t.leaves = t.leaves.saturating_add(ct.leaves);
            },
            None => {},
        }
        b = b + 1;
    }
    t
}

/// Iterator over ART key-value pairs, in increasing key order
pub struct ArtIterator {
    /// The pairs, in order
    entries: Vec<(Vec<u8>, RowId)>,
    /// How many have been handed out
    pos: usize,
}

impl ArtIterator {
    /// The pairs still to come, in order.
    pub closed spec fn remaining(&self) -> Seq<(Seq<u8>, RowId)> {
        self.entries@.subrange(self.pos as int, self.entries@.len() as int).map_values(|e: (Vec<u8>, RowId)| entry_view(e))
    }

    /// The position is within the pairs.
    pub closed spec fn wf(&self) -> bool {
        self.pos <= self.entries@.len()
    }

    /// An iterator over the whole tree
    pub(crate) fn new(tree: &AdaptiveRadixTree) -> (it: Self)
        requires
            tree.wf(),
        ensures
            it.wf(),
            sorted_listing(it.remaining(), tree@),
    {
        tree.listing(None)
    }

    /// The next pair, if any
    pub fn next(&mut self) -> (r: Option<(Vec<u8>, RowId)>)
        requires
            old(self).wf(),
        ensures
            final(self).wf(),
            old(self).remaining().len() == 0 ==> r is None && final(self).remaining() == old(self).remaining(),
            old(self).remaining().len() > 0 ==> (r matches Some(e) && entry_view(e) == old(self).remaining()[0]
                && final(self).remaining() == old(self).remaining().drop_first()),
    {
        if self.pos < self.entries.len() {
            let e = &self.entries[self.pos];
            let r = (bytes_to_vec(e.0.as_slice()), e.1);
            proof {
                assert(entry_view(r) == old(self).remaining()[0]);
            }
            self.pos = self.pos + 1;
            proof {
                assert(self.remaining() =~= old(self).remaining().drop_first());
            }
            Some(r)
        } else {
            None
        }
    }

    /// All pairs still to come, in order
    pub fn collect(self) -> (r: Vec<(Vec<u8>, RowId)>)
        requires
            self.wf(),
        ensures
            r@.map_values(|e: (Vec<u8>, RowId)| entry_view(e)) == self.remaining(),
    {
        let mut r: Vec<(Vec<u8>, RowId)> = Vec::new();
        let mut i: usize = self.pos;
        while i < self.entries.len()
            invariant
                self.pos <= i <= self.entries@.len(),
                r@.len() == i - self.pos,
                forall|j: int| 0 <= j < r@.len() ==> entry_view(#[trigger] r@[j]) == entry_view(self.entries@[self.pos + j]),
            decreases self.entries@.len() - i,
        {
            let e = &self.entries[i];
            r.push((bytes_to_vec(e.0.as_slice()), e.1));
            i = i + 1;
        }
        proof {
            assert(r@.map_values(|e: (Vec<u8>, RowId)| entry_view(e)) =~= self.remaining());
        }
        r
    }
}


/// The key bytes that reach a child of an inner node.
pub open spec fn child_bytes(node: ArtNode) -> Set<u8> {
    Set::new(|b: u8| node.child(b) is Some)
}

/// A consistent inner node other than a `Node256` has children under at
/// most 48 key bytes.
proof fn lemma_child_bytes_bound(node: ArtNode)
    requires
        node.local_wf(),
        !(node is Leaf),
        !(node is Node256),
    ensures
        child_bytes(node).finite(),
        child_bytes(node).len() <= 48,
{
    let c = child_bytes(node);
    let slots = vstd::set_lib::set_int_range(0, 48);
    vstd::set_lib::lemma_int_range(0, 48);
    let g = match node {
        ArtNode::Node4(n) => |i: int| if 0 <= i < n.keys@.len() { n.keys@[i] } else { 0u8 },
        ArtNode::Node16(n) => |i: int| if 0 <= i < n.keys@.len() { n.keys@[i] } else { 0u8 },
        ArtNode::Node48(n) => |s: int| choose|b: u8| n.child_index@[b as int] == s,
        _ => |i: int| 0u8,
    };
    let img = slots.map(g);
    vstd::set_lib::lemma_map_size_bound(slots, img, g);
    assert(c.subset_of(img)) by {
        assert forall|b: u8| c.contains(b) implies img.contains(b) by {
            match node {
                ArtNode::Node4(n) => {
                    let k = n.header.num_children as int;
                    let i = slots_index_of(n.keys@, k, b);
                    assert(slots.contains(i) && g(i) == b);
                },
                ArtNode::Node16(n) => {
                    let k = n.header.num_children as int;
                    let i = slots_index_of(n.keys@, k, b);
                    assert(slots.contains(i) && g(i) == b);
                },
                ArtNode::Node48(n) => {
                    let s = n.child_index@[b as int] as int;
                    assert(n.child_index@[b as int] != 255);
                    let b2 = choose|b2: u8| n.child_index@[b2 as int] == s;
                    assert(n.child_index@[b as int] == s);
                    assert(n.child_index@[b2 as int] == s);
                    if b2 != b {
                        assert(n.child_index@[b as int] != n.child_index@[b2 as int]);
                    }
                    assert(slots.contains(s) && g(s) == b);
                },
                _ => {},
            }
        }
    }
    vstd::set_lib::lemma_len_subset(c, img);
}

/// The slot of a slotted node that holds key byte `b`, when some slot does.
spec fn slots_index_of(keys: Seq<u8>, n: int, b: u8) -> int {
    crate::art_node::slots_index(keys, n, b)
}

impl AdaptiveRadixTree {
    /// Nodes grow with their children: a tree holding more than 48 one-byte
    /// keys has a `Node256` (its root; no smaller node has room for that many
    /// children).
    pub proof fn law_wide_tree_has_node256(&self, bytes: Set<u8>)
        requires
            self.wf(),
            bytes.finite(),
            bytes.len() > 48,
            forall|b: u8| #[trigger] bytes.contains(b) ==> self@.dom().contains(seq![b]),
        ensures
            self.node_count_spec(256) > 0,
    {
        let b1 = bytes.choose();
        assert(bytes.contains(b1)) by {
            if !bytes.contains(b1) {
                assert(bytes =~= Set::<u8>::empty());
            }
        }
        let rest = bytes.remove(b1);
        let b2 = rest.choose();
        assert(rest.contains(b2)) by {
            if !rest.contains(b2) {
                assert(rest =~= Set::<u8>::empty());
            }
        }
        assert(b1 != b2);
        let k1: Seq<u8> = seq![b1];
        let k2: Seq<u8> = seq![b2];
        assert(self@.dom().contains(k1));
        assert(self@.dom().contains(k2));
        assert(crate::art_node::lookup_opt(self.root, 0, k1) is Some);
        assert(crate::art_node::lookup_opt(self.root, 0, k2) is Some);
        let root = self.root->0;
        assert(crate::art_node::lookup(root, 0, k1) is Some);
        assert(crate::art_node::lookup(root, 0, k2) is Some);
        match root {
            ArtNode::Leaf(l) => {
                assert(l.key_spec() == k1);
                assert(l.key_spec() == k2);
                assert(k1[0] == k2[0]);
            },
            _ => {
                assert(crate::art_node::tree_wf(root, Seq::<u8>::empty()));
                assert(root.local_wf());
                let pre = root.hdr().prefix@;
                if pre.len() > 0 {
                    assert(k1.subrange(0, pre.len() as int) == pre);
                    assert(k2.subrange(0, pre.len() as int) == pre);
                    assert(pre[0] == k1[0]);
                    assert(pre[0] == k2[0]);
                }
                assert forall|b: u8| #[trigger] bytes.contains(b) implies child_bytes(root).contains(b) by {
                    let k: Seq<u8> = seq![b];
                    assert(self@.dom().contains(k));
                    assert(crate::art_node::lookup_opt(self.root, 0, k) is Some);
                    assert(k.subrange(0, 0) =~= pre);
                    assert(k[0] == b);
                }
                if !(root is Node256) {
                    lemma_child_bytes_bound(root);
                    vstd::set_lib::lemma_len_subset(bytes, child_bytes(root));
                }
                assert(root.kind() == 256);
            },
        }
    }
}

} // verus!
