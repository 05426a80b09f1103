//! Column-grouped storage: the values of one column are kept in batches of
//! `BATCH_SIZE`, batch `b` holding rows `b * BATCH_SIZE ..` under the key
//! `col:{table}:{column}:{b}`.
use vstd::prelude::*;
use crate::value::{Value, ValueView};
use crate::text::{decimal, decimal_spec, extend_bytes};

verus! {

/// Number of values per columnar batch
pub const BATCH_SIZE: usize = 1024;

/// A batch of column values stored together
#[derive(Debug, Clone)]
pub struct ColumnBatch {
    /// Column name (for verification)
    pub column: String,
    /// Starting row_id for this batch (row_id = start_row_id + index)
    pub start_row_id: u64,
    /// Values in order, indexed by (row_id - start_row_id)
    pub values: Vec<Value>,
}

/// The views of a list of values.
pub open spec fn values_view(v: Seq<Value>) -> Seq<ValueView> {
    v.map_values(|x: Value| x@)
}

/// How many of the values are not null.
pub open spec fn non_null_count(v: Seq<ValueView>) -> nat
    decreases v.len(),
{
    if v.len() == 0 {
        0
    } else {
        non_null_count(v.drop_last()) + if v.last() is Null { 0nat } else { 1nat }
    }
}

impl ColumnBatch {
    /// The value in the slot of a row, if the row has a slot in the batch.
    pub open spec fn slot(&self, row_id: u64) -> Option<Value> {
        if self.start_row_id <= row_id && row_id - self.start_row_id < self.values@.len() {
            Some(self.values@[row_id - self.start_row_id])
        } else {
            None
        }
    }

    /// The view of the value in the slot of a row, if the row has a slot.
    pub open spec fn slot_view(&self, row_id: u64) -> Option<ValueView> {
        match self.slot(row_id) {
            Some(v) => Some(v@),
            None => None,
        }
    }

    /// Create a new batch with every slot null
    pub fn new(column: &str, start_row_id: u64) -> (b: Self)
        ensures
            b.column@ == column@,
            b.start_row_id == start_row_id,
            values_view(b.values@) == Seq::new(BATCH_SIZE as nat, |i: int| ValueView::Null),
    {
        let mut values: Vec<Value> = Vec::new();
        let mut i: usize = 0;
        while i < BATCH_SIZE
            invariant
                i <= BATCH_SIZE,
                values_view(values@) == Seq::new(i as nat, |j: int| ValueView::Null),
            decreases BATCH_SIZE - i,
        {
            let ghost v0 = values@;
            values.push(Value::Null);
            i = i + 1;
            proof {
                assert(values_view(v0).len() == v0.len());
                assert(v0.len() == i - 1);
                assert(values@ == v0.push(Value::Null));
                assert forall|j: int| 0 <= j < i implies #[trigger] values_view(values@)[j] == ValueView::Null by {
                    if j < i - 1 {
                        assert(values@[j] == v0[j]);
                        assert(values_view(v0)[j] == ValueView::Null);
                    } else {
                        assert(values@[j] == Value::Null);
                    }
                }
                assert(values_view(values@) =~= Seq::new(i as nat, |j: int| ValueView::Null));
            }
        }
        ColumnBatch { column: String::from_str(column), start_row_id, values }
    }

    /// Get value at a specific row_id (None outside the batch's slots)
    pub fn get(&self, row_id: u64) -> (r: Option<&Value>)
        ensures
            r is Some <==> self.start_row_id <= row_id && row_id - self.start_row_id < self.values@.len(),
            r matches Some(v) ==> *v == self.values@[row_id - self.start_row_id],
            r matches Some(v) ==> self.slot(row_id) == Some(*v),
            r is None ==> self.slot(row_id) is None,
    {
        if row_id < self.start_row_id {
            return None;
        }
        let offset: u64 = row_id - self.start_row_id;
        if offset >= self.values.len() as u64 {
            return None;
        }
        Some(&self.values[offset as usize])
    }

    /// Set value at a specific row_id; false (and nothing changed) outside the batch
    pub fn set(&mut self, row_id: u64, value: Value) -> (r: bool)
        ensures
            r == (old(self).start_row_id <= row_id && row_id - old(self).start_row_id < BATCH_SIZE),
            final(self).column@ == old(self).column@,
            final(self).start_row_id == old(self).start_row_id,
            old(self).values@.len() <= BATCH_SIZE ==> final(self).values@.len() <= BATCH_SIZE,
            !r ==> final(self).values@ == old(self).values@,
            r ==> {
                let off = row_id - old(self).start_row_id;
                let n = if off < old(self).values@.len() { old(self).values@.len() as int } else { off + 1 };
                &&& final(self).values@.len() == n
                &&& final(self).values@[off] == value
                &&& forall|i: int| 0 <= i < n && i != off ==> #[trigger] values_view(final(self).values@)[i] == if i < old(self).values@.len() {
                    old(self).values@[i]@
                } else {
                    ValueView::Null
                }
            },
    {
        if row_id < self.start_row_id {
            return false;
        }
        let offset: u64 = row_id - self.start_row_id;
        if offset >= BATCH_SIZE as u64 {
            return false;
        }
        let off: usize = offset as usize;
        let ghost v0 = self.values@;
        while self.values.len() <= off
            invariant
                off < BATCH_SIZE,
                v0.len() <= self.values@.len() <= if off < v0.len() { v0.len() as int } else { off + 1 },
                forall|i: int| 0 <= i < self.values@.len() ==> #[trigger] values_view(self.values@)[i] == if i < v0.len() {
                    v0[i]@
                } else {
                    ValueView::Null
                },
                forall|i: int| 0 <= i < v0.len() ==> #[trigger] self.values@[i] == v0[i],
                self.start_row_id == old(self).start_row_id,
                self.column == old(self).column,
            decreases off + 1 - self.values@.len(),
        {
            let ghost w0 = self.values@;
            self.values.push(Value::Null);
            proof {
                assert forall|i: int| 0 <= i < self.values@.len() implies #[trigger] values_view(self.values@)[i] == if i < v0.len() {
                    v0[i]@
                } else {
                    ValueView::Null
                } by {
                    if i < w0.len() {
                        assert(self.values@[i] == w0[i]);
                        assert(values_view(w0)[i] == w0[i]@);
                    } else {
                        assert(self.values@[i] == Value::Null);
                    }
                }
            }
        }
        let ghost w1 = self.values@;
        self.values.set(off, value);
        proof {
            assert forall|i: int| 0 <= i < self.values@.len() && i != off implies #[trigger] values_view(self.values@)[i] == if i < v0.len() {
                v0[i]@
            } else {
                ValueView::Null
            } by {
                assert(self.values@[i] == w1[i]);
                assert(values_view(w1)[i] == w1[i]@);
            }
        }
        true
    }

    /// Count non-null values in batch
    pub fn count_non_null(&self) -> (r: usize)
        ensures
            r == non_null_count(values_view(self.values@)),
    {
        let mut n: usize = 0;
        let mut i: usize = 0;
        while i < self.values.len()
            invariant
                i <= self.values@.len(),
                n == non_null_count(values_view(self.values@.subrange(0, i as int))),
                n <= i,
            decreases self.values@.len() - i,
        {
            proof {
                let s = values_view(self.values@.subrange(0, i + 1));
                assert(s.drop_last() =~= values_view(self.values@.subrange(0, i as int)));
            }
            if !self.values[i].is_null() {
                n = n + 1;
            }
            i = i + 1;
        }
        proof {
            assert(self.values@.subrange(0, i as int) =~= self.values@);
        }
        n
    }

    /// The non-null values with their row ids, in row order (what a column
    /// scan collects from the batch).
    pub fn non_null_values(&self) -> (r: Vec<(u64, Value)>)
        requires
            self.start_row_id + self.values@.len() <= u64::MAX,
        ensures
            r@.len() == non_null_count(values_view(self.values@)),
            forall|k: int| 0 <= k < r@.len() ==> exists|i: int|
                0 <= i < self.values@.len() && (#[trigger] r@[k]).0 == self.start_row_id + i && r@[k].1@ == self.values@[i]@
                    && !(self.values@[i]@ is Null),
            forall|k: int, l: int| 0 <= k < l < r@.len() ==> (#[trigger] r@[k]).0 < (#[trigger] r@[l]).0,
    {
        let mut r: Vec<(u64, Value)> = Vec::new();
        let mut i: usize = 0;
        while i < self.values.len()
            invariant
                i <= self.values@.len(),
                self.start_row_id + self.values@.len() <= u64::MAX,
                r@.len() == non_null_count(values_view(self.values@.subrange(0, i as int))),
                forall|k: int| 0 <= k < r@.len() ==> exists|j: int|
                    0 <= j < i && (#[trigger] r@[k]).0 == self.start_row_id + j && r@[k].1@ == self.values@[j]@ && !(
                    self.values@[j]@ is Null),
                forall|k: int| 0 <= k < r@.len() ==> (#[trigger] r@[k]).0 < self.start_row_id + i,
                forall|k: int, l: int| 0 <= k < l < r@.len() ==> (#[trigger] r@[k]).0 < (#[trigger] r@[l]).0,
            decreases self.values@.len() - i,
        {
            proof {
                let s = values_view(self.values@.subrange(0, i + 1));
                assert(s.drop_last() =~= values_view(self.values@.subrange(0, i as int)));
            }
            if !self.values[i].is_null() {
                let v = self.values[i].duplicate();
                let ghost r0 = r@;
                r.push((self.start_row_id + i as u64, v));
                proof {
                    assert forall|k: int| 0 <= k < r@.len() implies exists|j: int|
                        0 <= j < i + 1 && (#[trigger] r@[k]).0 == self.start_row_id + j && r@[k].1@ == self.values@[j]@ && !(
                        self.values@[j]@ is Null) by {
                        if k == r0.len() {
                            assert(r@[k].0 == self.start_row_id + i);
                        } else {
                            assert(r@[k] == r0[k]);
                        }
                    }
                }
            }
            i = i + 1;
        }
        proof {
            assert(self.values@.subrange(0, i as int) =~= self.values@);
        }
        r
    }
}

/// The key prefix of a column's batches: `col:{table}:{column}:`.
pub open spec fn column_prefix_spec(table: Seq<char>, column: Seq<char>) -> Seq<char> {
    "col:"@ + table + ":"@ + column + ":"@
}

/// Columnar storage manager
pub struct ColumnarStore;

impl ColumnarStore {
    /// The key of a column batch: `col:{table}:{column}:{batch_id}`, as bytes.
    pub fn batch_key(table: &str, column: &str, batch_id: u64) -> (r: Vec<u8>)
        ensures
            r@ == vstd::utf8::encode_utf8(column_prefix_spec(table@, column@) + decimal_spec(batch_id as nat)),
    {
        let s = String::from_str("col:").concat(table).concat(":").concat(column).concat(":").concat(decimal(batch_id).as_str());
        let mut r: Vec<u8> = Vec::new();
        extend_bytes(&mut r, s.as_str().as_bytes());
        r
    }

    /// The prefix of all batch keys of a column: `col:{table}:{column}:`, as bytes.
    pub fn column_prefix(table: &str, column: &str) -> (r: Vec<u8>)
        ensures
            r@ == vstd::utf8::encode_utf8(column_prefix_spec(table@, column@)),
    {
        let s = String::from_str("col:").concat(table).concat(":").concat(column).concat(":");
        let mut r: Vec<u8> = Vec::new();
        extend_bytes(&mut r, s.as_str().as_bytes());
        r
    }

    /// Calculate batch_id and offset for a row_id
    pub fn batch_location(row_id: u64) -> (r: (u64, usize))
        ensures
            r.0 == row_id / (BATCH_SIZE as u64),
            r.1 == row_id % (BATCH_SIZE as u64),
            r.0 * (BATCH_SIZE as u64) + r.1 == row_id,
    {
        let batch_id = row_id / (BATCH_SIZE as u64);
        let offset = (row_id % (BATCH_SIZE as u64)) as usize;
        (batch_id, offset)
    }
}

/// Statistics for columnar storage of a column
#[derive(Debug, Clone)]
pub struct ColumnarStats {
    /// Number of batches stored
    pub batch_count: usize,
    /// Total slots across all batches
    pub total_slots: usize,
    /// Number of non-null values
    pub non_null_values: usize,
    /// Values per batch
    pub batch_size: usize,
}


/// The message refusing a row outside the batch it was sent to.
pub open spec fn invalid_row_message(row_id: u64, start: u64) -> Seq<char> {
    "Invalid row_id "@ + decimal_spec(row_id as nat) + " for batch starting at "@ + decimal_spec(start as nat)
}

impl ColumnarStore {
    /// Store a value of a row into its column batch: `loaded` is the batch
    /// found under the row's batch key, if any (a new, all-null batch
    /// starting at the batch's first row otherwise). Gives the batch to save
    /// back, or refuses a row outside the batch.
    pub fn place(loaded: Option<ColumnBatch>, column: &str, row_id: u64, value: Value) -> (r: Result<ColumnBatch, String>)
        ensures
            ({
                let start = match loaded {
                    Some(b) => b.start_row_id,
                    None => ((row_id / (BATCH_SIZE as u64)) * (BATCH_SIZE as u64)) as u64,
                };
                &&& r is Ok <==> (start <= row_id && row_id - start < BATCH_SIZE)
                &&& r matches Err(m) ==> m@ == invalid_row_message(row_id, start)
                &&& r matches Ok(b) ==> b.start_row_id == start && b.slot(row_id) == Some(value)
                &&& r matches Ok(b) ==> loaded is None ==> b.column@ == column@
                &&& r matches Ok(b) ==> loaded matches Some(l) ==> b.column@ == l.column@
            }),
            r matches Ok(b) ==> loaded matches Some(l) ==> forall|x: u64|
                x != row_id && l.slot(x) is Some ==> #[trigger] b.slot_view(x) == l.slot_view(x),
            r matches Ok(b) ==> loaded is None ==> forall|x: u64|
                x != row_id && #[trigger] b.slot_view(x) is Some ==> b.slot_view(x) == Some(ValueView::Null),
    {
        let (batch_id, _offset) = Self::batch_location(row_id);
        let ghost was_none = loaded is None;
        let mut batch = match loaded {
            Some(b) => b,
            None => {
                proof {
                    assert(batch_id * (BATCH_SIZE as u64) <= row_id);
                }
                let fresh = ColumnBatch::new(column, batch_id * (BATCH_SIZE as u64));
                assert(values_view(fresh.values@) == Seq::new(BATCH_SIZE as nat, |i: int| ValueView::Null));
                fresh
            },
        };
        assert(was_none ==> values_view(batch.values@) == Seq::new(BATCH_SIZE as nat, |i: int| ValueView::Null));
        let start = batch.start_row_id;
        let ghost before = batch;
        if batch.set(row_id, value) {
            proof {
                assert forall|x: u64| x != row_id && #[trigger] batch.slot_view(x) is Some implies batch.slot_view(x) == (if x
                    - start < before.values@.len() {
                    before.slot_view(x)
                } else {
                    Some(ValueView::Null)
                }) by {
                    let i = x - start;
                    assert(values_view(batch.values@)[i] == batch.values@[i]@);
                    if i < before.values@.len() {
                        assert(values_view(before.values@)[i] == before.values@[i]@);
                    }
                }
                if was_none {
                    assert forall|x: u64| x != row_id && #[trigger] batch.slot_view(x) is Some implies batch.slot_view(x)
                        == Some(ValueView::Null) by {
                        let i = x - start;
                        assert(values_view(batch.values@)[i] == batch.values@[i]@);
                        if i < before.values@.len() {
                            assert(values_view(before.values@)[i] == before.values@[i]@);
                            assert(values_view(before.values@)[i] == ValueView::Null);
                        }
                    }
                }
            }
            Ok(batch)
        } else {
            Err(
                String::from_str("Invalid row_id ").concat(decimal(row_id).as_str()).concat(" for batch starting at ").concat(
                    decimal(start).as_str(),
                ),
            )
        }
    }
}

} // verus!
