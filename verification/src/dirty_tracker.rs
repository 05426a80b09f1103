//! Tracking of uncommitted changes for incremental dumps.
//!
//! Every tracked change gets a sequence number; a bounded buffer keeps the
//! most recent changes. A dump records the last sequence number it covered,
//! and the changes after it are the dirty ones.
use vstd::prelude::*;
use std::collections::VecDeque;
use std::time::Instant;
use crate::art_index::{bytes_lt, lex_lt};
use crate::text::str_eq;

verus! {

/// `std::time::Instant`, the moment a change was tracked.
#[verifier::external_type_specification]
#[verifier::external_body]
pub struct ExInstant(Instant);

/// `Instant::now()`. Nothing is stated of the value: it is the clock's.
#[verifier::external_body]
pub(crate) fn instant_now() -> Instant {
    Instant::now()
}

/// `Instant::elapsed`: the time since the instant. Nothing is stated of the
/// value: it is the clock's.
#[verifier::external_body]
pub(crate) fn instant_elapsed(t: &Instant) -> std::time::Duration {
    t.elapsed()
}

/// Type of change operation
#[derive(Debug, Clone, Copy, PartialEq, Eq, Structural)]
pub enum ChangeType {
    /// A row was inserted
    Insert,
    /// A row was updated
    Update,
    /// A row was deleted
    Delete,
}

/// A single tracked change
#[derive(Debug)]
pub struct Change {
    /// Unique sequence number for ordering
    pub sequence_number: u64,
    /// Timestamp when the change occurred
    pub timestamp: Instant,
    /// Type of change operation
    pub change_type: ChangeType,
    /// Table name
    pub table_name: String,
    /// Row key (primary key or unique identifier)
    pub row_key: String,
    /// Old values (None for Insert, Some for Update/Delete)
    pub old_values: Option<Vec<u8>>,
    /// New values (None for Delete, Some for Insert/Update)
    pub new_values: Option<Vec<u8>>,
}

/// The view of an optional byte string.
pub open spec fn opt_bytes(o: Option<Vec<u8>>) -> Option<Seq<u8>> {
    match o {
        Some(v) => Some(v@),
        None => None,
    }
}

/// A change as mathematics sees it.
pub struct ChangeView {
    /// Sequence number
    pub sequence_number: u64,
    /// Type of change
    pub change_type: ChangeType,
    /// Table name
    pub table_name: Seq<char>,
    /// Row key
    pub row_key: Seq<char>,
    /// Old values
    pub old_values: Option<Seq<u8>>,
    /// New values
    pub new_values: Option<Seq<u8>>,
}

impl View for Change {
    type V = ChangeView;

    open spec fn view(&self) -> ChangeView {
        ChangeView {
            sequence_number: self.sequence_number,
            change_type: self.change_type,
            table_name: self.table_name@,
            row_key: self.row_key@,
            old_values: opt_bytes(self.old_values),
            new_values: opt_bytes(self.new_values),
        }
    }
}

fn copy_opt(o: &Option<Vec<u8>>) -> (r: Option<Vec<u8>>)
    ensures
        opt_bytes(r) == opt_bytes(*o),
{
    match o {
        Some(v) => Some(crate::art_node::bytes_to_vec(v.as_slice())),
        None => None,
    }
}

impl Change {
    /// A copy of the change.
    pub fn duplicate(&self) -> (c: Change)
        ensures
            c@ == self@,
            c.timestamp == self.timestamp,
    {
        Change {
            sequence_number: self.sequence_number,
            timestamp: self.timestamp,
            change_type: self.change_type,
            table_name: self.table_name.clone(),
            row_key: self.row_key.clone(),
            old_values: copy_opt(&self.old_values),
            new_values: copy_opt(&self.new_values),
        }
    }
}

impl Clone for Change {
    fn clone(&self) -> (c: Change)
        ensures
            c@ == self@,
    {
        self.duplicate()
    }
}

/// Error types for the change tracker
#[derive(Debug, Clone)]
pub enum DirtyTrackerError {
    /// Buffer overflow - max change buffer size exceeded
    BufferOverflow { max_size: usize, current_size: usize },
    /// Lock contention error
    LockError(String),
    /// Invalid parameters
    InvalidParameter(String),
}

impl DirtyTrackerError {
    /// The display text of the error.
    pub fn message(&self) -> (r: String)
        ensures
            r@ == match self {
                DirtyTrackerError::BufferOverflow { max_size, current_size } => "Buffer overflow: current size "@
                    + crate::text::decimal_spec(*current_size as nat) + " exceeds max "@ + crate::text::decimal_spec(
                    *max_size as nat,
                ),
                DirtyTrackerError::LockError(m) => "Lock error: "@ + m@,
                DirtyTrackerError::InvalidParameter(m) => "Invalid parameter: "@ + m@,
            },
    {
        match self {
            DirtyTrackerError::BufferOverflow { max_size, current_size } => String::from_str("Buffer overflow: current size ").concat(
                crate::text::decimal(*current_size as u64).as_str(),
            ).concat(" exceeds max ").concat(crate::text::decimal(*max_size as u64).as_str()),
            DirtyTrackerError::LockError(m) => String::from_str("Lock error: ").concat(m.as_str()),
            DirtyTrackerError::InvalidParameter(m) => String::from_str("Invalid parameter: ").concat(m.as_str()),
        }
    }
}

/// Maximum number of changes to buffer in memory
pub const DEFAULT_MAX_BUFFER_SIZE: usize = 100000;

/// Circular buffer of the most recent changes
pub struct ChangeBuffer {
    /// The changes, oldest first
    changes: VecDeque<Change>,
    /// Maximum buffer size before the oldest change is dropped
    max_size: usize,
    /// Next sequence number to assign
    next_sequence: u64,
}

/// The views of a list of changes.
pub open spec fn changes_view(s: Seq<Change>) -> Seq<ChangeView> {
    s.map_values(|c: Change| c@)
}

/// The buffer after adding a change: the oldest change leaves first when the
/// buffer is full.
pub open spec fn buffer_after_add(cs: Seq<ChangeView>, max_size: usize, c: ChangeView) -> Seq<ChangeView> {
    if cs.len() >= max_size && cs.len() > 0 {
        cs.drop_first().push(c)
    } else {
        cs.push(c)
    }
}

/// Is a change newer than the given sequence number?
pub open spec fn newer_than(c: ChangeView, seq_num: u64) -> bool {
    c.sequence_number > seq_num
}

impl ChangeBuffer {
    /// The buffered changes, oldest first.
    pub closed spec fn changes_spec(&self) -> Seq<ChangeView> {
        changes_view(self.changes@)
    }

    /// The buffer limit.
    pub closed spec fn max_size_spec(&self) -> usize {
        self.max_size
    }

    /// The next sequence number.
    pub closed spec fn next_sequence_spec(&self) -> u64 {
        self.next_sequence
    }

    /// An empty buffer; numbering starts at 1.
    pub fn new(max_size: usize) -> (b: Self)
        ensures
            b.changes_spec() == Seq::<ChangeView>::empty(),
            b.max_size_spec() == max_size,
            b.next_sequence_spec() == 1,
    {
        let b = ChangeBuffer { changes: VecDeque::new(), max_size, next_sequence: 1 };
        proof {
            assert(changes_view(b.changes@) =~= Seq::<ChangeView>::empty());
        }
        b
    }

    /// Add a change, dropping the oldest one when the buffer is full.
    pub fn add_change(&mut self, change: Change) -> (r: Result<(), DirtyTrackerError>)
        requires
            old(self).next_sequence_spec() < u64::MAX,
        ensures
            r is Ok,
            final(self).changes_spec() == buffer_after_add(old(self).changes_spec(), old(self).max_size_spec(), change@),
            final(self).max_size_spec() == old(self).max_size_spec(),
            final(self).next_sequence_spec() == old(self).next_sequence_spec() + 1,
    {
        let ghost c0 = self.changes@;
        if self.changes.len() >= self.max_size {
            let _ = self.changes.pop_front();
        }
        self.changes.push_back(change);
        self.next_sequence = self.next_sequence + 1;
        proof {
            if c0.len() >= self.max_size && c0.len() > 0 {
                assert(changes_view(self.changes@) =~= changes_view(c0).drop_first().push(change@));
            } else {
                assert(changes_view(self.changes@) =~= changes_view(c0).push(change@));
            }
        }
        Ok(())
    }

    /// Copies of the changes newer than `seq_num`, oldest first.
    pub fn get_changes_since(&self, seq_num: u64) -> (r: Vec<Change>)
        ensures
            changes_view(r@) == self.changes_spec().filter(|c: ChangeView| newer_than(c, seq_num)),
    {
        let ghost f = |c: ChangeView| newer_than(c, seq_num);
        let mut r: Vec<Change> = Vec::new();
        let mut i: usize = 0;
        while i < self.changes.len()
            invariant
                i <= self.changes@.len(),
                f == (|c: ChangeView| newer_than(c, seq_num)),
                changes_view(r@) == changes_view(self.changes@.subrange(0, i as int)).filter(f),
            decreases self.changes@.len() - i,
        {
            let c = &self.changes[i];
            proof {
                let cv = changes_view(self.changes@.subrange(0, i as int));
                assert(changes_view(self.changes@.subrange(0, i + 1)) =~= cv.push(c@));
                crate::text::lemma_filter_push(cv, f, c@);
            }
            if c.sequence_number > seq_num {
                let ghost r0 = r@;
                r.push(c.duplicate());
                proof {
                    assert(changes_view(r@) =~= changes_view(r0).push(c@));
                }
            }
            i = i + 1;
        }
        proof {
            assert(self.changes@.subrange(0, i as int) =~= self.changes@);
        }
        r
    }

    /// How many buffered changes are newer than `seq_num`.
    pub fn count_since(&self, seq_num: u64) -> (r: u64)
        ensures
            r == self.changes_spec().filter(|c: ChangeView| newer_than(c, seq_num)).len(),
    {
        let ghost f = |c: ChangeView| newer_than(c, seq_num);
        let mut n: u64 = 0;
        let mut i: usize = 0;
        while i < self.changes.len()
            invariant
                i <= self.changes@.len(),
                f == (|c: ChangeView| newer_than(c, seq_num)),
                n == changes_view(self.changes@.subrange(0, i as int)).filter(f).len(),
                n <= i,
            decreases self.changes@.len() - i,
        {
            let c = &self.changes[i];
            proof {
                let cv = changes_view(self.changes@.subrange(0, i as int));
                assert(changes_view(self.changes@.subrange(0, i + 1)) =~= cv.push(c@));
                crate::text::lemma_filter_push(cv, f, c@);
            }
            if c.sequence_number > seq_num {
                n = n + 1;
            }
            i = i + 1;
        }
        proof {
            assert(self.changes@.subrange(0, i as int) =~= self.changes@);
        }
        n
    }

    /// Drop all buffered changes (numbering continues).
    pub fn clear(&mut self)
        ensures
            final(self).changes_spec() == Seq::<ChangeView>::empty(),
            final(self).max_size_spec() == old(self).max_size_spec(),
            final(self).next_sequence_spec() == old(self).next_sequence_spec(),
    {
        self.changes.clear();
        proof {
            assert(changes_view(self.changes@) =~= Seq::<ChangeView>::empty());
        }
    }

    /// Number of buffered changes.
    pub fn len(&self) -> (r: usize)
        ensures
            r == self.changes_spec().len(),
    {
        self.changes.len()
    }

    /// The next sequence number to assign.
    pub fn next_sequence_number(&self) -> (r: u64)
        ensures
            r == self.next_sequence_spec(),
    {
        self.next_sequence
    }
}

/// The UTF-8 bytes of a name, the order names are sorted in.
pub open spec fn name_bytes(s: Seq<char>) -> Seq<u8> {
    vstd::utf8::encode_utf8(s)
}

/// The names of tables changed after `seq_num`.
pub open spec fn dirty_table_set(cs: Seq<ChangeView>, seq_num: u64) -> Set<Seq<char>> {
    Set::new(|t: Seq<char>| exists|i: int| 0 <= i < cs.len() && newer_than(cs[i], seq_num) && cs[i].table_name == t)
}

/// The change-tracking state of an in-memory database: the change buffer,
/// the last sequence number a dump covered, and whether anything changed since.
pub struct DirtyState {
    /// Change history buffer
    buffer: ChangeBuffer,
    /// Sequence number of last dump
    last_dump_seq: u64,
    /// Dirty flag
    is_dirty: bool,
}

impl DirtyState {
    /// The buffered changes.
    pub closed spec fn changes_spec(&self) -> Seq<ChangeView> {
        self.buffer.changes_spec()
    }

    /// The next sequence number.
    pub closed spec fn next_sequence_spec(&self) -> u64 {
        self.buffer.next_sequence_spec()
    }

    /// The buffer limit.
    pub closed spec fn max_size_spec(&self) -> usize {
        self.buffer.max_size_spec()
    }

    /// The last sequence number a dump covered.
    pub closed spec fn last_dump_spec(&self) -> u64 {
        self.last_dump_seq
    }

    /// Whether anything changed since the last dump.
    pub closed spec fn dirty_spec(&self) -> bool {
        self.is_dirty
    }

    /// A clean state with the given buffer limit.
    pub fn with_max_buffer_size(max_size: usize) -> (d: Self)
        ensures
            d.changes_spec() == Seq::<ChangeView>::empty(),
            d.max_size_spec() == max_size,
            d.next_sequence_spec() == 1,
            d.last_dump_spec() == 0,
            !d.dirty_spec(),
    {
        DirtyState { buffer: ChangeBuffer::new(max_size), last_dump_seq: 0, is_dirty: false }
    }

    /// A clean state with the default buffer limit.
    pub fn new() -> (d: Self)
        ensures
            d.changes_spec() == Seq::<ChangeView>::empty(),
            d.max_size_spec() == DEFAULT_MAX_BUFFER_SIZE,
            d.next_sequence_spec() == 1,
            d.last_dump_spec() == 0,
            !d.dirty_spec(),
    {
        Self::with_max_buffer_size(DEFAULT_MAX_BUFFER_SIZE)
    }

    /// Track a change of a row: refused when the table name or row key is empty.
    pub fn track(
        &mut self,
        change_type: ChangeType,
        table: &str,
        row_key: &str,
        old_values: Option<&[u8]>,
        new_values: Option<&[u8]>,
    ) -> (r: Result<(), DirtyTrackerError>)
        requires
            old(self).next_sequence_spec() < u64::MAX,
        ensures
            r is Err <==> table@.len() == 0 || row_key@.len() == 0,
            r matches Err(e) ==> (e matches DirtyTrackerError::InvalidParameter(m) && m@ == "Table name and row key cannot be empty"@),
            r is Err ==> final(self).changes_spec() == old(self).changes_spec() && final(self).next_sequence_spec()
                == old(self).next_sequence_spec() && final(self).dirty_spec() == old(self).dirty_spec(),
            r is Ok ==> final(self).changes_spec() == buffer_after_add(
                old(self).changes_spec(),
                old(self).max_size_spec(),
                ChangeView {
                    sequence_number: old(self).next_sequence_spec(),
                    change_type,
                    table_name: table@,
                    row_key: row_key@,
                    old_values: match old_values {
                        Some(v) => Some(v@),
                        None => None,
                    },
                    new_values: match new_values {
                        Some(v) => Some(v@),
                        None => None,
                    },
                },
            ),
            r is Ok ==> final(self).next_sequence_spec() == old(self).next_sequence_spec() + 1,
            r is Ok ==> final(self).dirty_spec(),
            final(self).max_size_spec() == old(self).max_size_spec(),
            final(self).last_dump_spec() == old(self).last_dump_spec(),
    {
        if table.unicode_len() == 0 || row_key.unicode_len() == 0 {
            return Err(DirtyTrackerError::InvalidParameter(String::from_str("Table name and row key cannot be empty")));
        }
        let sequence = self.buffer.next_sequence_number();
        let change = Change {
            sequence_number: sequence,
            timestamp: instant_now(),
            change_type,
            table_name: String::from_str(table),
            row_key: String::from_str(row_key),
            old_values: match old_values {
                Some(v) => Some(crate::art_node::bytes_to_vec(v)),
                None => None,
            },
            new_values: match new_values {
                Some(v) => Some(crate::art_node::bytes_to_vec(v)),
                None => None,
            },
        };
        let _ = self.buffer.add_change(change);
        self.is_dirty = true;
        Ok(())
    }

    /// Track an insert operation
    pub fn track_insert(&mut self, table: &str, row_key: &str, values: &[u8]) -> (r: Result<(), DirtyTrackerError>)
        requires
            old(self).next_sequence_spec() < u64::MAX,
        ensures
            r is Err <==> table@.len() == 0 || row_key@.len() == 0,
            r is Ok ==> final(self).changes_spec() == buffer_after_add(
                old(self).changes_spec(),
                old(self).max_size_spec(),
                ChangeView {
                    sequence_number: old(self).next_sequence_spec(),
                    change_type: ChangeType::Insert,
                    table_name: table@,
                    row_key: row_key@,
                    old_values: None,
                    new_values: Some(values@),
                },
            ),
            r is Ok ==> final(self).next_sequence_spec() == old(self).next_sequence_spec() + 1 && final(self).dirty_spec(),
            r is Err ==> final(self).changes_spec() == old(self).changes_spec() && final(self).next_sequence_spec()
                == old(self).next_sequence_spec() && final(self).dirty_spec() == old(self).dirty_spec(),
            final(self).max_size_spec() == old(self).max_size_spec(),
            final(self).last_dump_spec() == old(self).last_dump_spec(),
    {
        self.track(ChangeType::Insert, table, row_key, None, Some(values))
    }

    /// Track an update operation
    pub fn track_update(&mut self, table: &str, row_key: &str, old_values: &[u8], new_values: &[u8]) -> (r: Result<
        (),
        DirtyTrackerError,
    >)
        requires
            old(self).next_sequence_spec() < u64::MAX,
        ensures
            r is Err <==> table@.len() == 0 || row_key@.len() == 0,
            r is Ok ==> final(self).changes_spec() == buffer_after_add(
                old(self).changes_spec(),
                old(self).max_size_spec(),
                ChangeView {
                    sequence_number: old(self).next_sequence_spec(),
                    change_type: ChangeType::Update,
                    table_name: table@,
                    row_key: row_key@,
                    old_values: Some(old_values@),
                    new_values: Some(new_values@),
                },
            ),
            r is Ok ==> final(self).next_sequence_spec() == old(self).next_sequence_spec() + 1 && final(self).dirty_spec(),
            r is Err ==> final(self).changes_spec() == old(self).changes_spec() && final(self).next_sequence_spec()
                == old(self).next_sequence_spec() && final(self).dirty_spec() == old(self).dirty_spec(),
            final(self).max_size_spec() == old(self).max_size_spec(),
            final(self).last_dump_spec() == old(self).last_dump_spec(),
    {
        self.track(ChangeType::Update, table, row_key, Some(old_values), Some(new_values))
    }

    /// Track a delete operation
    pub fn track_delete(&mut self, table: &str, row_key: &str, values: &[u8]) -> (r: Result<(), DirtyTrackerError>)
        requires
            old(self).next_sequence_spec() < u64::MAX,
        ensures
            r is Err <==> table@.len() == 0 || row_key@.len() == 0,
            r is Ok ==> final(self).changes_spec() == buffer_after_add(
                old(self).changes_spec(),
                old(self).max_size_spec(),
                ChangeView {
                    sequence_number: old(self).next_sequence_spec(),
                    change_type: ChangeType::Delete,
                    table_name: table@,
                    row_key: row_key@,
                    old_values: Some(values@),
                    new_values: None,
                },
            ),
            r is Ok ==> final(self).next_sequence_spec() == old(self).next_sequence_spec() + 1 && final(self).dirty_spec(),
            r is Err ==> final(self).changes_spec() == old(self).changes_spec() && final(self).next_sequence_spec()
                == old(self).next_sequence_spec() && final(self).dirty_spec() == old(self).dirty_spec(),
            final(self).max_size_spec() == old(self).max_size_spec(),
            final(self).last_dump_spec() == old(self).last_dump_spec(),
    {
        self.track(ChangeType::Delete, table, row_key, Some(values), None)
    }

    /// Check if there are uncommitted changes
    pub fn is_dirty(&self) -> (r: bool)
        ensures
            r == self.dirty_spec(),
    {
        self.is_dirty
    }

    /// Count of buffered changes since the last dump
    pub fn get_dirty_count(&self) -> (r: u64)
        ensures
            r == self.changes_spec().filter(|c: ChangeView| newer_than(c, self.last_dump_spec())).len(),
    {
        self.buffer.count_since(self.last_dump_seq)
    }

    /// Names of the tables changed since the last dump, sorted, each once
    pub fn get_dirty_tables(&self) -> (r: Vec<String>)
        ensures
            r@.map_values(|s: String| s@).to_set() == dirty_table_set(self.changes_spec(), self.last_dump_spec()),
            forall|i: int, j: int| 0 <= i < j < r@.len() ==> lex_lt(name_bytes((#[trigger] r@[i])@), name_bytes((#[trigger] r@[j])@)),
    {
        let changes = self.buffer.get_changes_since(self.last_dump_seq);
        let ghost cs = self.changes_spec();
        let ghost since = cs.filter(|c: ChangeView| newer_than(c, self.last_dump_spec()));
        let mut tables: Vec<String> = Vec::new();
        let mut i: usize = 0;
        proof {
            assert(tables@.map_values(|s: String| s@).to_set() =~= tables_in(since, 0));
        }
        while i < changes.len()
            invariant
                i <= changes@.len(),
                changes_view(changes@) == since,
                tables@.map_values(|s: String| s@).to_set() == tables_in(since, i as int),
                forall|a: int, b: int| 0 <= a < b < tables@.len() ==> lex_lt(name_bytes((#[trigger] tables@[a])@), name_bytes((#[trigger] tables@[b])@)),
            decreases changes@.len() - i,
        {
            let name = &changes[i].table_name;
            proof {
                assert(changes_view(changes@)[i as int] == changes@[i as int]@);
                lemma_tables_in_step(since, i as int);
            }
            insert_sorted(&mut tables, name);
            i = i + 1;
        }
        proof {
            lemma_dirty_tables(cs, self.last_dump_spec());
        }
        tables
    }

    /// Mark the current point as dumped: the last used sequence number becomes
    /// the last dump point and the state is clean.
    pub fn clear_dirty_state(&mut self) -> (r: Result<(), DirtyTrackerError>)
        ensures
            r is Ok,
            final(self).last_dump_spec() == if old(self).next_sequence_spec() > 0 { old(self).next_sequence_spec() - 1 } else { 0 },
            !final(self).dirty_spec(),
            final(self).changes_spec() == old(self).changes_spec(),
            final(self).next_sequence_spec() == old(self).next_sequence_spec(),
            final(self).max_size_spec() == old(self).max_size_spec(),
    {
        let last_used_seq = self.buffer.next_sequence_number().saturating_sub(1);
        self.last_dump_seq = last_used_seq;
        self.is_dirty = false;
        Ok(())
    }

    /// Copies of the changes after a sequence number, oldest first
    pub fn get_changes_since(&self, seq_num: u64) -> (r: Vec<Change>)
        ensures
            changes_view(r@) == self.changes_spec().filter(|c: ChangeView| newer_than(c, seq_num)),
    {
        self.buffer.get_changes_since(seq_num)
    }

    /// The next sequence number to be assigned
    pub fn current_sequence_number(&self) -> (r: u64)
        ensures
            r == self.next_sequence_spec(),
    {
        self.buffer.next_sequence_number()
    }

    /// The last dump sequence number
    pub fn last_dump_sequence_number(&self) -> (r: u64)
        ensures
            r == self.last_dump_spec(),
    {
        self.last_dump_seq
    }
}

/// The table names of the first `n` changes.
pub open spec fn tables_in(cs: Seq<ChangeView>, n: int) -> Set<Seq<char>> {
    Set::new(|t: Seq<char>| exists|k: int| 0 <= k < n && #[trigger] cs[k].table_name == t)
}

proof fn lemma_tables_in_step(cs: Seq<ChangeView>, i: int)
    requires
        0 <= i < cs.len(),
    ensures
        tables_in(cs, i + 1) == tables_in(cs, i).insert(cs[i].table_name),
{
    assert forall|t: Seq<char>| #[trigger] tables_in(cs, i + 1).contains(t) <==> tables_in(cs, i).insert(cs[i].table_name).contains(t) by {
        if tables_in(cs, i + 1).contains(t) {
            let k = choose|k: int| 0 <= k < i + 1 && #[trigger] cs[k].table_name == t;
            if k < i {
                assert(tables_in(cs, i).contains(t));
            }
        }
        if tables_in(cs, i).contains(t) {
            let k = choose|k: int| 0 <= k < i && #[trigger] cs[k].table_name == t;
            assert(0 <= k < i + 1 && cs[k].table_name == t);
        }
    }
    assert(tables_in(cs, i + 1) =~= tables_in(cs, i).insert(cs[i].table_name));
}

proof fn lemma_dirty_tables(cs: Seq<ChangeView>, seq_num: u64)
    ensures
        tables_in(cs.filter(|c: ChangeView| newer_than(c, seq_num)), cs.filter(|c: ChangeView| newer_than(c, seq_num)).len() as int)
            == dirty_table_set(cs, seq_num),
{
    let f = |c: ChangeView| newer_than(c, seq_num);
    let since = cs.filter(f);
    assert forall|t: Seq<char>| #[trigger] dirty_table_set(cs, seq_num).contains(t) <==> tables_in(since, since.len() as int).contains(t) by {
        if dirty_table_set(cs, seq_num).contains(t) {
            let j = choose|j: int| 0 <= j < cs.len() && newer_than(cs[j], seq_num) && cs[j].table_name == t;
            cs.lemma_filter_contains(f, j);
            let k = choose|k: int| 0 <= k < since.len() && since[k] == cs[j];
            assert(since[k].table_name == t);
        }
        if tables_in(since, since.len() as int).contains(t) {
            let k = choose|k: int| 0 <= k < since.len() && #[trigger] since[k].table_name == t;
            cs.lemma_filter_pred(f, k);
            assert(since.contains(since[k]));
            cs.lemma_filter_contains_rev(f, since[k]);
            let j = choose|j: int| 0 <= j < cs.len() && cs[j] == since[k];
            assert(newer_than(cs[j], seq_num) && cs[j].table_name == t);
        }
    }
    assert(tables_in(since, since.len() as int) =~= dirty_table_set(cs, seq_num));
}

/// Insert a name into a strictly sorted list of names, unless it is there already.
fn insert_sorted(names: &mut Vec<String>, name: &String)
    requires
        forall|a: int, b: int| 0 <= a < b < old(names)@.len() ==> lex_lt(name_bytes((#[trigger] old(names)@[a])@), name_bytes((#[trigger] old(names)@[b])@)),
    ensures
        final(names)@.map_values(|s: String| s@).to_set() == old(names)@.map_values(|s: String| s@).to_set().insert(name@),
        forall|a: int, b: int| 0 <= a < b < final(names)@.len() ==> lex_lt(name_bytes((#[trigger] final(names)@[a])@), name_bytes((#[trigger] final(names)@[b])@)),
{
    let ghost n0 = names@;
    let mut i: usize = 0;
    while i < names.len() && bytes_lt(names[i].as_str().as_bytes(), name.as_str().as_bytes())
        invariant
            names@ == n0,
            i <= names@.len(),
            forall|a: int| 0 <= a < i ==> lex_lt(name_bytes((#[trigger] names@[a])@), name_bytes(name@)),
        decreases names@.len() - i,
    {
        i = i + 1;
    }
    if i < names.len() && str_eq(names[i].as_str(), name.as_str()) {
        proof {
            assert(n0.map_values(|s: String| s@).to_set() =~= n0.map_values(|s: String| s@).to_set().insert(name@)) by {
                assert(n0.map_values(|s: String| s@)[i as int] == name@);
            }
        }
        return;
    }
    proof {
        if i < n0.len() {
            assert(!lex_lt(name_bytes(n0[i as int]@), name_bytes(name@)));
            assert(n0[i as int]@ != name@);
            crate::art_laws::lemma_lex_total(name_bytes(n0[i as int]@), name_bytes(name@));
            vstd::utf8::encode_utf8_decode_utf8(n0[i as int]@);
            vstd::utf8::encode_utf8_decode_utf8(name@);
        }
    }
    names.insert(i, name.clone());
    proof {
        assert forall|a: int, b: int| 0 <= a < b < names@.len() implies lex_lt(name_bytes((#[trigger] names@[a])@), name_bytes((#[trigger] names@[b])@)) by {
            if b < i {
                assert(names@[a] == n0[a] && names@[b] == n0[b]);
            } else if b == i {
                assert(names@[a] == n0[a]);
            } else if a == i {
                assert(names@[b] == n0[b - 1]);
                if b - 1 > i {
                    crate::art_laws::lemma_lex_transitive(name_bytes(name@), name_bytes(n0[i as int]@), name_bytes(n0[b - 1]@));
                }
            } else if a < i {
                assert(names@[a] == n0[a] && names@[b] == n0[b - 1]);
                if b - 1 > i {
                    crate::art_laws::lemma_lex_transitive(name_bytes(name@), name_bytes(n0[i as int]@), name_bytes(n0[b - 1]@));
                }
                crate::art_laws::lemma_lex_transitive(name_bytes(n0[a]@), name_bytes(name@), name_bytes(n0[b - 1]@));
            } else {
                assert(names@[a] == n0[a - 1] && names@[b] == n0[b - 1]);
            }
        }
        let mv1 = names@.map_values(|s: String| s@);
        let mv0 = n0.map_values(|s: String| s@);
        assert(mv1.to_set() =~= mv0.to_set().insert(name@)) by {
            assert forall|t: Seq<char>| mv1.to_set().contains(t) <==> mv0.to_set().insert(name@).contains(t) by {
                if mv1.to_set().contains(t) {
                    let k = choose|k: int| 0 <= k < mv1.len() && mv1[k] == t;
                    if k < i {
                        assert(mv0[k] == t);
                    } else if k > i {
                        assert(mv0[k - 1] == t);
                    }
                }
                if mv0.to_set().contains(t) {
                    let k = choose|k: int| 0 <= k < mv0.len() && mv0[k] == t;
                    if k < i {
                        assert(mv1[k] == t);
                    } else {
                        assert(mv1[k + 1] == t);
                    }
                }
                if t == name@ {
                    assert(mv1[i as int] == t);
                }
            }
        }
    }
}

} // verus!
