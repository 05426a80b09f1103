//! Dictionary encoding for low-cardinality text columns: each distinct value
//! gets a compact integer id, in the order values are first seen.
use vstd::prelude::*;
use crate::text::{str_eq, decimal, decimal_spec, extend_bytes};

verus! {

/// Single column dictionary mapping strings to compact IDs
#[derive(Debug, Clone)]
pub struct ColumnDictionary {
    /// Reverse mapping: dict_id -> string value (index = dict_id)
    id_to_value: Vec<String>,
}

/// The values of a dictionary, by id.
pub open spec fn dict_values(v: Seq<String>) -> Seq<Seq<char>> {
    v.map_values(|s: String| s@)
}

/// What encoding `v` does to a dictionary holding `d` (by id): the id of
/// `v`, and the values afterwards. A value already present keeps its id; a
/// new value gets the next id.
pub open spec fn encode_spec(d: Seq<Seq<char>>, v: Seq<char>) -> (int, Seq<Seq<char>>) {
    if d.contains(v) {
        (d.index_of(v), d)
    } else {
        (d.len() as int, d.push(v))
    }
}

impl View for ColumnDictionary {
    type V = Seq<Seq<char>>;

    closed spec fn view(&self) -> Seq<Seq<char>> {
        dict_values(self.id_to_value@)
    }
}

impl ColumnDictionary {
    /// No value occurs twice, and every id fits in a `u32`.
    pub closed spec fn wf(&self) -> bool {
        &&& self@.no_duplicates()
        &&& self@.len() <= 0x1_0000_0000
    }

    /// A well-formed dictionary holds each value once, and its ids fit a `u32`.
    pub proof fn lemma_wf_facts(&self)
        requires
            self.wf(),
        ensures
            self@.no_duplicates(),
            self@.len() <= 0x1_0000_0000,
    {
    }

    /// Create a new empty dictionary
    pub fn new() -> (d: Self)
        ensures
            d.wf(),
            d@ == Seq::<Seq<char>>::empty(),
    {
        let d = ColumnDictionary { id_to_value: Vec::new() };
        proof {
            assert(d@ =~= Seq::<Seq<char>>::empty());
        }
        d
    }

    /// The id of `value`, if present.
    fn find(&self, value: &str) -> (r: Option<usize>)
        requires
            self.wf(),
        ensures
            r is Some <==> self@.contains(value@),
            r matches Some(i) ==> i < self@.len() && self@[i as int] == value@ && i == self@.index_of(value@),
    {
        let mut i: usize = 0;
        while i < self.id_to_value.len()
            invariant
                i <= self.id_to_value@.len(),
                self@ == dict_values(self.id_to_value@),
                self@.no_duplicates(),
                forall|j: int| 0 <= j < i ==> self@[j] != value@,
            decreases self.id_to_value@.len() - i,
        {
            if str_eq(self.id_to_value[i].as_str(), value) {
                proof {
                    assert(self@[i as int] == value@);
                    assert(self@.contains(value@));
                    let k = self@.index_of(value@);
                    assert(self@[k] == value@);
                    assert(k == i as int);
                }
                return Some(i);
            }
            i = i + 1;
        }
        proof {
            if self@.contains(value@) {
                let k = choose|k: int| 0 <= k < self@.len() && self@[k] == value@;
                assert(self@[k] == value@);
            }
        }
        None
    }

    /// Encode a string value to its dict_id, inserting it if new
    pub fn encode(&mut self, value: &str) -> (id: u32)
        requires
            old(self).wf(),
            old(self)@.contains(value@) || old(self)@.len() <= u32::MAX,
        ensures
            final(self).wf(),
            id as int == encode_spec(old(self)@, value@).0,
            final(self)@ == encode_spec(old(self)@, value@).1,
    {
        match self.find(value) {
            Some(i) => i as u32,
            None => {
                let id = self.id_to_value.len() as u32;
                let ghost d0 = self@;
                self.id_to_value.push(String::from_str(value));
                proof {
                    assert(self@ =~= d0.push(value@));
                    assert forall|a: int, b: int| 0 <= a < b < self@.len() implies self@[a] != self@[b] by {
                        if b == d0.len() {
                            assert(!d0.contains(value@));
                            assert(d0[a] == self@[a]);
                        }
                    }
                }
                id
            },
        }
    }

    /// Decode a dict_id back to its string value (None for an unknown id)
    pub fn decode(&self, id: u32) -> (r: Option<&str>)
        ensures
            r is Some <==> (id as int) < self@.len(),
            r matches Some(s) ==> s@ == self@[id as int],
    {
        if (id as usize) < self.id_to_value.len() {
            Some(self.id_to_value[id as usize].as_str())
        } else {
            None
        }
    }

    /// Get the number of unique values in the dictionary
    pub fn len(&self) -> (r: usize)
        ensures
            r == self@.len(),
    {
        self.id_to_value.len()
    }

    /// Check if dictionary is empty
    pub fn is_empty(&self) -> (r: bool)
        ensures
            r == (self@.len() == 0),
    {
        self.id_to_value.len() == 0
    }

    /// Check if dictionary contains a value
    pub fn contains(&self, value: &str) -> (r: bool)
        requires
            self.wf(),
        ensures
            r == self@.contains(value@),
    {
        self.find(value).is_some()
    }

    /// Get all values in the dictionary, by id
    pub fn values(&self) -> (r: &[String])
        ensures
            dict_values(r@) == self@,
    {
        self.id_to_value.as_slice()
    }
}

impl Default for ColumnDictionary {
    fn default() -> (d: Self)
        ensures
            d.wf(),
            d@ == Seq::<Seq<char>>::empty(),
    {
        Self::new()
    }
}

/// Statistics for a dictionary
#[derive(Debug, Clone)]
pub struct DictionaryStats {
    /// Number of unique values in the dictionary
    pub unique_values: usize,
    /// Whether the dictionary has unsaved changes
    pub dirty: bool,
}

/// Decoding the id that encoding gave back yields the encoded value; ids
/// handed out before stay with their values; encoding a value again gives
/// the same id and changes nothing.
pub proof fn law_dictionary_roundtrip(d: Seq<Seq<char>>, v: Seq<char>, w: Seq<char>)
    requires
        d.no_duplicates(),
    ensures
        0 <= encode_spec(d, v).0 < encode_spec(d, v).1.len(),
        encode_spec(d, v).1[encode_spec(d, v).0] == v,
        forall|i: int| 0 <= i < d.len() ==> #[trigger] encode_spec(d, v).1[i] == d[i],
        encode_spec(d, v).1.no_duplicates(),
        encode_spec(encode_spec(d, v).1, v) == (encode_spec(d, v).0, encode_spec(d, v).1),
        encode_spec(d, v).1.contains(w) && w != v ==> encode_spec(encode_spec(d, v).1, w).0 != encode_spec(d, v).0,
{
    let (id, d2) = encode_spec(d, v);
    if d.contains(v) {
        let k = d.index_of(v);
        assert(d[k] == v);
    } else {
        assert(d2[d.len() as int] == v);
        assert forall|a: int, b: int| 0 <= a < b < d2.len() implies d2[a] != d2[b] by {
            if b == d.len() {
                assert(d2[a] == d[a]);
                assert(d.contains(d[a]));
            }
        }
        assert(d2.contains(v));
        assert(d2.index_of(v) == d.len() as int) by {
            let k = d2.index_of(v);
            assert(d2[k] == v);
            if k != d.len() as int {
                assert(d[k] == v);
                assert(d.contains(v));
            }
        }
    }
    if d2.contains(w) && w != v {
        let kw = d2.index_of(w);
        assert(d2[kw] == w);
    }
}


/// A cached column dictionary as the specifications see it.
pub struct CacheEntryView {
    /// Table name
    pub table: Seq<char>,
    /// Column name
    pub column: Seq<char>,
    /// The values, by id
    pub values: Seq<Seq<char>>,
    /// Whether it has changes not yet saved
    pub dirty: bool,
}

/// A cached column dictionary.
pub struct DictCacheEntry {
    table: String,
    column: String,
    dict: ColumnDictionary,
    dirty: bool,
}

/// The view of a cache entry.
pub closed spec fn entry_view(e: DictCacheEntry) -> CacheEntryView {
    CacheEntryView { table: e.table@, column: e.column@, values: e.dict@, dirty: e.dirty }
}

/// Is the entry the one of the column?
pub open spec fn is_entry_of(e: CacheEntryView, t: Seq<char>, c: Seq<char>) -> bool {
    e.table == t && e.column == c
}

/// No column has two entries.
pub open spec fn unique_columns(vs: Seq<CacheEntryView>) -> bool {
    forall|i: int, j: int|
        0 <= i < j < vs.len() ==> !is_entry_of(#[trigger] vs[i], (#[trigger] vs[j]).table, vs[j].column)
}

/// The dictionary of a column among the entries, with its unsaved flag.
pub open spec fn cached_in(vs: Seq<CacheEntryView>, t: Seq<char>, c: Seq<char>) -> Option<(Seq<Seq<char>>, bool)> {
    if exists|i: int| 0 <= i < vs.len() && is_entry_of(vs[i], t, c) {
        let i = choose|i: int| 0 <= i < vs.len() && is_entry_of(vs[i], t, c);
        Some((vs[i].values, vs[i].dirty))
    } else {
        None
    }
}

proof fn lemma_cached_in_at(vs: Seq<CacheEntryView>, i: int)
    requires
        unique_columns(vs),
        0 <= i < vs.len(),
    ensures
        cached_in(vs, vs[i].table, vs[i].column) == Some((vs[i].values, vs[i].dirty)),
{
    let t = vs[i].table;
    let c = vs[i].column;
    assert(is_entry_of(vs[i], t, c));
    let j = choose|j: int| 0 <= j < vs.len() && is_entry_of(vs[j], t, c);
    if j < i {
        assert(!is_entry_of(vs[j], vs[i].table, vs[i].column));
    } else if j > i {
        assert(!is_entry_of(vs[i], vs[j].table, vs[j].column));
    }
}

/// Replacing an entry by one of the same column keeps the columns unique,
/// gives that column the new entry and leaves the others.
proof fn lemma_cached_update(vs: Seq<CacheEntryView>, i: int, e: CacheEntryView)
    requires
        unique_columns(vs),
        0 <= i < vs.len(),
        is_entry_of(e, vs[i].table, vs[i].column),
    ensures
        unique_columns(vs.update(i, e)),
        cached_in(vs.update(i, e), e.table, e.column) == Some((e.values, e.dirty)),
        forall|t: Seq<char>, c: Seq<char>|
            !(t == e.table && c == e.column) ==> #[trigger] cached_in(vs.update(i, e), t, c) == cached_in(vs, t, c),
{
    let ws = vs.update(i, e);
    assert forall|a: int, b: int| 0 <= a < b < ws.len() implies !is_entry_of(#[trigger] ws[a], (#[trigger] ws[b]).table, ws[b].column) by {
        assert(!is_entry_of(vs[a], vs[b].table, vs[b].column));
    }
    lemma_cached_in_at(ws, i);
    assert forall|t: Seq<char>, c: Seq<char>| !(t == e.table && c == e.column) implies #[trigger] cached_in(ws, t, c) == cached_in(vs, t, c) by {
        if exists|k: int| 0 <= k < vs.len() && is_entry_of(vs[k], t, c) {
            let k = choose|k: int| 0 <= k < vs.len() && is_entry_of(vs[k], t, c);
            lemma_cached_in_at(vs, k);
            assert(ws[k] == vs[k]);
            lemma_cached_in_at(ws, k);
        } else {
            assert forall|k: int| 0 <= k < ws.len() implies !is_entry_of(#[trigger] ws[k], t, c) by {
                if k != i {
                    assert(ws[k] == vs[k]);
                }
            }
        }
    }
}

/// Adding an entry of a column without one keeps the columns unique, gives
/// that column the entry and leaves the others.
proof fn lemma_cached_push(vs: Seq<CacheEntryView>, e: CacheEntryView)
    requires
        unique_columns(vs),
        forall|k: int| 0 <= k < vs.len() ==> !is_entry_of(#[trigger] vs[k], e.table, e.column),
    ensures
        unique_columns(vs.push(e)),
        cached_in(vs.push(e), e.table, e.column) == Some((e.values, e.dirty)),
        forall|t: Seq<char>, c: Seq<char>|
            !(t == e.table && c == e.column) ==> #[trigger] cached_in(vs.push(e), t, c) == cached_in(vs, t, c),
{
    let ws = vs.push(e);
    let n = vs.len() as int;
    assert forall|a: int, b: int| 0 <= a < b < ws.len() implies !is_entry_of(#[trigger] ws[a], (#[trigger] ws[b]).table, ws[b].column) by {
        if b == n {
            assert(!is_entry_of(vs[a], e.table, e.column));
        } else {
            assert(!is_entry_of(vs[a], vs[b].table, vs[b].column));
        }
    }
    lemma_cached_in_at(ws, n);
    assert forall|t: Seq<char>, c: Seq<char>| !(t == e.table && c == e.column) implies #[trigger] cached_in(ws, t, c) == cached_in(vs, t, c) by {
        if exists|k: int| 0 <= k < vs.len() && is_entry_of(vs[k], t, c) {
            let k = choose|k: int| 0 <= k < vs.len() && is_entry_of(vs[k], t, c);
            lemma_cached_in_at(vs, k);
            assert(ws[k] == vs[k]);
            lemma_cached_in_at(ws, k);
        } else {
            assert forall|k: int| 0 <= k < ws.len() implies !is_entry_of(#[trigger] ws[k], t, c) by {
                if k < n {
                    assert(ws[k] == vs[k]);
                }
            }
        }
    }
}

/// Removing an entry keeps the columns unique, leaves its column without
/// one and leaves the others.
proof fn lemma_cached_remove(vs: Seq<CacheEntryView>, i: int)
    requires
        unique_columns(vs),
        0 <= i < vs.len(),
    ensures
        unique_columns(vs.remove(i)),
        cached_in(vs.remove(i), vs[i].table, vs[i].column) is None,
        forall|t: Seq<char>, c: Seq<char>|
            !(t == vs[i].table && c == vs[i].column) ==> #[trigger] cached_in(vs.remove(i), t, c) == cached_in(vs, t, c),
{
    let ws = vs.remove(i);
    assert forall|a: int, b: int| 0 <= a < b < ws.len() implies !is_entry_of(#[trigger] ws[a], (#[trigger] ws[b]).table, ws[b].column) by {
        let a0 = if a < i { a } else { a + 1 };
        let b0 = if b < i { b } else { b + 1 };
        assert(ws[a] == vs[a0] && ws[b] == vs[b0]);
        assert(!is_entry_of(vs[a0], vs[b0].table, vs[b0].column));
    }
    assert forall|k: int| 0 <= k < ws.len() implies !is_entry_of(#[trigger] ws[k], vs[i].table, vs[i].column) by {
        let k0 = if k < i { k } else { k + 1 };
        assert(ws[k] == vs[k0]);
        if k0 < i {
            assert(!is_entry_of(vs[k0], vs[i].table, vs[i].column));
        } else {
            assert(!is_entry_of(vs[i], vs[k0].table, vs[k0].column));
        }
    }
    assert forall|t: Seq<char>, c: Seq<char>| !(t == vs[i].table && c == vs[i].column) implies #[trigger] cached_in(ws, t, c) == cached_in(vs, t, c) by {
        if exists|k: int| 0 <= k < vs.len() && is_entry_of(vs[k], t, c) {
            let k = choose|k: int| 0 <= k < vs.len() && is_entry_of(vs[k], t, c);
            lemma_cached_in_at(vs, k);
            assert(k != i);
            let k1 = if k < i { k } else { k - 1 };
            assert(ws[k1] == vs[k]);
            lemma_cached_in_at(ws, k1);
        } else {
            assert forall|k: int| 0 <= k < ws.len() implies !is_entry_of(#[trigger] ws[k], t, c) by {
                let k0 = if k < i { k } else { k + 1 };
                assert(ws[k] == vs[k0]);
            }
        }
    }
}

/// The message for an id a column's dictionary does not have.
pub open spec fn invalid_dict_id_message(id: u32, t: Seq<char>, c: Seq<char>) -> Seq<char> {
    "Invalid dict_id "@ + decimal_spec(id as nat) + " for "@ + t + "."@ + c
}

/// The storage key of a column's dictionary: `dict:{table}:{column}`.
pub open spec fn dict_key_text(t: Seq<char>, c: Seq<char>) -> Seq<char> {
    "dict:"@ + t + ":"@ + c
}

/// The dictionaries of the columns in use, kept in memory with a flag for
/// unsaved changes. Loading a dictionary from storage and saving it back is
/// the caller's: a column whose dictionary is not cached answers `None`, and
/// the caller installs the stored one (or an empty one) and asks again.
pub struct DictionaryManager {
    entries: Vec<DictCacheEntry>,
}

impl DictionaryManager {
    /// The cache entries.
    pub closed spec fn views(&self) -> Seq<CacheEntryView> {
        self.entries@.map_values(|e: DictCacheEntry| entry_view(e))
    }

    /// One entry per column, each dictionary well formed.
    pub closed spec fn wf(&self) -> bool {
        &&& unique_columns(self.views())
        &&& forall|i: int| 0 <= i < self.entries@.len() ==> (#[trigger] self.entries@[i]).dict.wf()
    }

    /// The cached dictionary of a column (its values by id) and whether it
    /// has unsaved changes; `None` when it is not cached.
    pub closed spec fn cached(&self, t: Seq<char>, c: Seq<char>) -> Option<(Seq<Seq<char>>, bool)> {
        cached_in(self.views(), t, c)
    }

    /// An empty cache.
    pub fn new() -> (m: Self)
        ensures
            m.wf(),
            forall|t: Seq<char>, c: Seq<char>| #[trigger] m.cached(t, c) is None,
    {
        let m = DictionaryManager { entries: Vec::new() };
        proof {
            assert(m.views().len() == 0);
        }
        m
    }

    /// The storage key of a column's dictionary: `dict:{table}:{column}`, as bytes.
    pub fn dict_key(table: &str, column: &str) -> (r: Vec<u8>)
        ensures
            r@ == vstd::utf8::encode_utf8(dict_key_text(table@, column@)),
    {
        let s = String::from_str("dict:").concat(table).concat(":").concat(column);
        proof {
            reveal_strlit("dict:");
            reveal_strlit(":");
        }
        let mut r: Vec<u8> = Vec::new();
        extend_bytes(&mut r, s.as_str().as_bytes());
        r
    }

    /// The position of a column's entry.
    fn find(&self, table: &str, column: &str) -> (r: Option<usize>)
        requires
            self.wf(),
        ensures
            match r {
                Some(i) => i < self.views().len() && is_entry_of(self.views()[i as int], table@, column@),
                None => self.cached(table@, column@) is None && forall|i: int|
                    0 <= i < self.views().len() ==> !is_entry_of(#[trigger] self.views()[i], table@, column@),
            },
    {
        let mut i: usize = 0;
        while i < self.entries.len()
            invariant
                i <= self.entries@.len(),
                forall|j: int| 0 <= j < i ==> !is_entry_of(#[trigger] self.views()[j], table@, column@),
            decreases self.entries@.len() - i,
        {
            proof {
                assert(self.views()[i as int] == entry_view(self.entries@[i as int]));
            }
            if str_eq(self.entries[i].table.as_str(), table) && str_eq(self.entries[i].column.as_str(), column) {
                return Some(i);
            }
            i = i + 1;
        }
        None
    }

    /// Is a column's dictionary cached?
    pub fn is_cached(&self, table: &str, column: &str) -> (r: bool)
        requires
            self.wf(),
        ensures
            r == self.cached(table@, column@) is Some,
    {
        match self.find(table, column) {
            Some(i) => {
                proof {
                    lemma_cached_in_at(self.views(), i as int);
                }
                true
            },
            None => false,
        }
    }

    /// Cache a column's dictionary as loaded from storage (clean), unless
    /// one is cached already.
    pub fn install(&mut self, table: &str, column: &str, dict: ColumnDictionary)
        requires
            old(self).wf(),
            dict.wf(),
        ensures
            final(self).wf(),
            final(self).cached(table@, column@) == match old(self).cached(table@, column@) {
                Some(x) => Some(x),
                None => Some((dict@, false)),
            },
            forall|t: Seq<char>, c: Seq<char>|
                !(t == table@ && c == column@) ==> #[trigger] final(self).cached(t, c) == old(self).cached(t, c),
    {
        if let Some(i) = self.find(table, column) {
            proof {
                lemma_cached_in_at(self.views(), i as int);
            }
            return;
        }
        let ghost v0 = self.views();
        let e = DictCacheEntry { table: String::from_str(table), column: String::from_str(column), dict, dirty: false };
        self.entries.push(e);
        proof {
            assert(self.views() =~= v0.push(entry_view(e)));
            lemma_cached_push(v0, entry_view(e));
            assert forall|i: int| 0 <= i < self.entries@.len() implies (#[trigger] self.entries@[i]).dict.wf() by {
                if i < v0.len() {
                    assert(self.entries@[i] == old(self).entries@[i]);
                }
            }
        }
    }

    /// Encode a text value of a column: its id in the column's dictionary,
    /// added if new (which marks the dictionary as changed); `None`, with
    /// nothing changed, when the dictionary is not cached.
    pub fn encode(&mut self, table: &str, column: &str, value: &str) -> (r: Option<u32>)
        requires
            old(self).wf(),
            old(self).cached(table@, column@) matches Some((d, _)) ==> d.contains(value@) || d.len() <= u32::MAX,
        ensures
            final(self).wf(),
            match old(self).cached(table@, column@) {
                None => r is None && final(self).cached(table@, column@) is None,
                Some((d, dirty)) => r == Some(encode_spec(d, value@).0 as u32) && final(self).cached(table@, column@) == Some(
                    (encode_spec(d, value@).1, dirty || encode_spec(d, value@).1.len() > d.len()),
                ),
            },
            forall|t: Seq<char>, c: Seq<char>|
                !(t == table@ && c == column@) ==> #[trigger] final(self).cached(t, c) == old(self).cached(t, c),
    {
        match self.find(table, column) {
            None => None,
            Some(i) => {
                let ghost v0 = self.views();
                proof {
                    lemma_cached_in_at(v0, i as int);
                    assert(self.entries@[i as int].dict.wf());
                    assert(v0[i as int] == entry_view(self.entries@[i as int]));
                }
                let mut e = self.entries.remove(i);
                let before = e.dict.len();
                let id = e.dict.encode(value);
                if e.dict.len() > before {
                    e.dirty = true;
                }
                let ghost ev = entry_view(e);
                self.entries.insert(i, e);
                proof {
                    assert(self.entries@ =~= old(self).entries@.update(i as int, e));
                    assert(self.views() =~= v0.update(i as int, ev));
                    lemma_cached_update(v0, i as int, ev);
                    assert forall|k: int| 0 <= k < self.entries@.len() implies (#[trigger] self.entries@[k]).dict.wf() by {
                        if k != i {
                            assert(self.entries@[k] == old(self).entries@[k]);
                        }
                    }
                }
                Some(id)
            },
        }
    }

    /// Decode an id of a column's dictionary: its value, or an error for an
    /// id the dictionary does not have; `None` when the dictionary is not cached.
    pub fn decode(&self, table: &str, column: &str, dict_id: u32) -> (r: Option<Result<String, String>>)
        requires
            self.wf(),
        ensures
            match self.cached(table@, column@) {
                None => r is None,
                Some((d, _)) => if (dict_id as int) < d.len() {
                    r matches Some(Ok(s)) && s@ == d[dict_id as int]
                } else {
                    r matches Some(Err(m)) && m@ == invalid_dict_id_message(dict_id, table@, column@)
                },
            },
    {
        match self.find(table, column) {
            None => None,
            Some(i) => {
                proof {
                    lemma_cached_in_at(self.views(), i as int);
                    assert(self.views()[i as int] == entry_view(self.entries@[i as int]));
                }
                match self.entries[i].dict.decode(dict_id) {
                    Some(s) => Some(Ok(String::from_str(s))),
                    None => Some(
                        Err(
                            String::from_str("Invalid dict_id ").concat(decimal(dict_id as u64).as_str()).concat(" for ").concat(
                                table,
                            ).concat(".").concat(column),
                        ),
                    ),
                }
            },
        }
    }

    /// The columns whose cached dictionary has unsaved changes: what a flush
    /// saves.
    pub fn dirty_columns(&self) -> (r: Vec<(String, String)>)
        requires
            self.wf(),
        ensures
            forall|k: int| 0 <= k < r@.len() ==> #[trigger] self.cached(r@[k].0@, r@[k].1@) matches Some((_, true)),
            forall|t: Seq<char>, c: Seq<char>|
                #[trigger] self.cached(t, c) matches Some((_, true)) ==> exists|k: int|
                    0 <= k < r@.len() && r@[k].0@ == t && r@[k].1@ == c,
    {
        let mut r: Vec<(String, String)> = Vec::new();
        let mut i: usize = 0;
        while i < self.entries.len()
            invariant
                i <= self.entries@.len(),
                self.wf(),
                forall|k: int| 0 <= k < r@.len() ==> #[trigger] self.cached(r@[k].0@, r@[k].1@) matches Some((_, true)),
                forall|j: int| 0 <= j < i && #[trigger] self.views()[j].dirty ==> exists|k: int|
                    0 <= k < r@.len() && r@[k].0@ == self.views()[j].table && r@[k].1@ == self.views()[j].column,
            decreases self.entries@.len() - i,
        {
            proof {
                assert(self.views()[i as int] == entry_view(self.entries@[i as int]));
                lemma_cached_in_at(self.views(), i as int);
            }
            if self.entries[i].dirty {
                let ghost r0 = r@;
                r.push((self.entries[i].table.clone(), self.entries[i].column.clone()));
                proof {
                    assert(r@[r@.len() - 1].0@ == self.views()[i as int].table);
                    assert forall|k: int| 0 <= k < r@.len() implies #[trigger] self.cached(r@[k].0@, r@[k].1@) matches Some(
                        (_, true),
                    ) by {
                        if k < r0.len() {
                            assert(r@[k] == r0[k]);
                        }
                    }
                    assert forall|j: int| 0 <= j < i + 1 && #[trigger] self.views()[j].dirty implies exists|k: int|
                        0 <= k < r@.len() && r@[k].0@ == self.views()[j].table && r@[k].1@ == self.views()[j].column by {
                        if j < i {
                            let k = choose|k: int|
                                0 <= k < r0.len() && r0[k].0@ == self.views()[j].table && r0[k].1@ == self.views()[j].column;
                            assert(r@[k] == r0[k]);
                        } else {
                            assert(r@[r0.len() as int].0@ == self.views()[j].table);
                        }
                    }
                }
            }
            i = i + 1;
        }
        proof {
            assert forall|t: Seq<char>, c: Seq<char>| #[trigger] self.cached(t, c) matches Some((_, true)) implies exists|k: int|
                0 <= k < r@.len() && r@[k].0@ == t && r@[k].1@ == c by {
                let vs = self.views();
                let j = choose|j: int| 0 <= j < vs.len() && is_entry_of(vs[j], t, c);
                assert(vs[j].dirty);
            }
        }
        r
    }

    /// Record that a column's dictionary was saved: it has no unsaved
    /// changes. Nothing happens for a column that is not cached.
    pub fn mark_saved(&mut self, table: &str, column: &str)
        requires
            old(self).wf(),
        ensures
            final(self).wf(),
            final(self).cached(table@, column@) == match old(self).cached(table@, column@) {
                Some((d, _)) => Some((d, false)),
                None => None,
            },
            forall|t: Seq<char>, c: Seq<char>|
                !(t == table@ && c == column@) ==> #[trigger] final(self).cached(t, c) == old(self).cached(t, c),
    {
        match self.find(table, column) {
            None => {},
            Some(i) => {
                let ghost v0 = self.views();
                proof {
                    lemma_cached_in_at(v0, i as int);
                    assert(v0[i as int] == entry_view(self.entries@[i as int]));
                }
                let mut e = self.entries.remove(i);
                e.dirty = false;
                let ghost ev = entry_view(e);
                self.entries.insert(i, e);
                proof {
                    assert(self.entries@ =~= old(self).entries@.update(i as int, e));
                    assert(self.views() =~= v0.update(i as int, ev));
                    lemma_cached_update(v0, i as int, ev);
                    assert forall|k: int| 0 <= k < self.entries@.len() implies (#[trigger] self.entries@[k]).dict.wf() by {
                        if k != i {
                            assert(self.entries@[k] == old(self).entries@[k]);
                        }
                    }
                }
            },
        }
    }

    /// Does a flush of this column save its dictionary? When it is cached
    /// with unsaved changes.
    pub fn needs_save(&self, table: &str, column: &str) -> (r: bool)
        requires
            self.wf(),
        ensures
            r == (self.cached(table@, column@) matches Some((_, true))),
    {
        match self.find(table, column) {
            None => false,
            Some(i) => {
                proof {
                    lemma_cached_in_at(self.views(), i as int);
                    assert(self.views()[i as int] == entry_view(self.entries@[i as int]));
                }
                self.entries[i].dirty
            },
        }
    }

    /// The number of values and the unsaved flag of a cached dictionary;
    /// `None` when it is not cached (the caller then reads the stored one).
    pub fn stats(&self, table: &str, column: &str) -> (r: Option<DictionaryStats>)
        requires
            self.wf(),
        ensures
            match self.cached(table@, column@) {
                None => r is None,
                Some((d, dirty)) => r matches Some(s) && s.unique_values == d.len() && s.dirty == dirty,
            },
    {
        match self.find(table, column) {
            None => None,
            Some(i) => {
                proof {
                    lemma_cached_in_at(self.views(), i as int);
                    assert(self.views()[i as int] == entry_view(self.entries@[i as int]));
                }
                Some(DictionaryStats { unique_values: self.entries[i].dict.len(), dirty: self.entries[i].dirty })
            },
        }
    }

    /// Forget every cached dictionary.
    pub fn clear_cache(&mut self)
        ensures
            final(self).wf(),
            forall|t: Seq<char>, c: Seq<char>| #[trigger] final(self).cached(t, c) is None,
    {
        self.entries = Vec::new();
        proof {
            assert(self.views().len() == 0);
        }
    }

    /// Forget a column's dictionary (the caller deletes the stored one).
    pub fn drop_dictionary(&mut self, table: &str, column: &str)
        requires
            old(self).wf(),
        ensures
            final(self).wf(),
            final(self).cached(table@, column@) is None,
            forall|t: Seq<char>, c: Seq<char>|
                !(t == table@ && c == column@) ==> #[trigger] final(self).cached(t, c) == old(self).cached(t, c),
    {
        match self.find(table, column) {
            None => {},
            Some(i) => {
                let ghost v0 = self.views();
                let _e = self.entries.remove(i);
                proof {
                    assert(self.views() =~= v0.remove(i as int));
                    lemma_cached_remove(v0, i as int);
                    assert forall|k: int| 0 <= k < self.entries@.len() implies (#[trigger] self.entries@[k]).dict.wf() by {
                        let k0 = if k < i { k } else { k + 1 };
                        assert(self.entries@[k] == old(self).entries@[k0]);
                    }
                }
            },
        }
    }
}

impl Default for DictionaryManager {
    /// An empty cache.
    fn default() -> (m: Self)
        ensures
            m.wf(),
            forall|t: Seq<char>, c: Seq<char>| #[trigger] m.cached(t, c) is None,
    {
        Self::new()
    }
}

/// Encoding a value through the cache and decoding the id it gave back
/// yields the value, and the column's dictionary is then one with unsaved
/// changes exactly when the value was new to it.
pub proof fn law_cached_encode_decode(d: Seq<Seq<char>>, dirty: bool, v: Seq<char>)
    requires
        d.no_duplicates(),
    ensures
        0 <= encode_spec(d, v).0 < encode_spec(d, v).1.len(),
        encode_spec(d, v).1[encode_spec(d, v).0] == v,
        (dirty || encode_spec(d, v).1.len() > d.len()) == (dirty || !d.contains(v)),
{
    law_dictionary_roundtrip(d, v, v);
}

} // verus!
