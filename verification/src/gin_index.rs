//! GIN (generalized inverted index) for JSON columns.
//!
//! The index maps every object key found anywhere in a row's JSON value, every
//! path to a member or element (`a.b`, `a[0]`, `[1].c`), and every leaf value
//! (by its JSON text) to the set of rows that contain it.
use vstd::prelude::*;
use crate::text::{decimal, decimal_spec, str_eq};

verus! {

/// A JSON value.
#[derive(Debug)]
pub enum Json {
    /// `null`
    Null,
    /// `true` or `false`
    Bool(bool),
    /// A number, held as its JSON text
    Number(String),
    /// A string
    Str(String),
    /// An array
    Array(Vec<Json>),
    /// An object: its members in order
    Object(Vec<(String, Json)>),
}

/// A lower-case hexadecimal digit of value `d` (below 16).
pub open spec fn hex_digit_char(d: u32) -> char {
    if d < 10 {
        (48 + d) as char
    } else {
        (87 + d) as char
    }
}

/// How a JSON string writes one character: `"` and `\` escaped, the
/// control characters below 0x20 escaped (the short forms `\b \t \n \f
/// \r`, otherwise `\u00` and two lower-case hexadecimal digits), every
/// other character as it is.
pub open spec fn json_escape_char(c: char) -> Seq<char> {
    let x = c as u32;
    if x == 34 {
        seq!['\\', '"']
    } else if x == 92 {
        seq!['\\', '\\']
    } else if x == 8 {
        seq!['\\', 'b']
    } else if x == 9 {
        seq!['\\', 't']
    } else if x == 10 {
        seq!['\\', 'n']
    } else if x == 12 {
        seq!['\\', 'f']
    } else if x == 13 {
        seq!['\\', 'r']
    } else if x < 32 {
        seq!['\\', 'u', '0', '0', hex_digit_char(x / 16), hex_digit_char(x % 16)]
    } else {
        seq![c]
    }
}

/// The characters of a JSON string body: each character escaped in turn.
pub open spec fn json_escaped(s: Seq<char>) -> Seq<char>
    decreases s.len(),
{
    if s.len() == 0 {
        Seq::empty()
    } else {
        json_escaped(s.drop_last()) + json_escape_char(s.last())
    }
}

/// The JSON text of a string, as `serde_json` writes it: the escaped
/// characters between double quotes.
pub open spec fn json_quoted(s: Seq<char>) -> Seq<char> {
    seq!['"'] + json_escaped(s) + seq!['"']
}

/// `serde_json::to_string` of a string: its JSON text, the characters
/// escaped as serde_json's escape table does.
#[verifier::external_body]
fn quote_json_string(s: &str) -> (r: String)
    ensures
        r@ == json_quoted(s@),
{
    serde_json::Value::String(s.to_string()).to_string()
}

/// The text a leaf value is indexed under: its JSON text.
pub open spec fn leaf_text(j: Json) -> Seq<char> {
    match j {
        Json::Null => "null"@,
        Json::Bool(b) => if b { "true"@ } else { "false"@ },
        Json::Number(n) => n@,
        Json::Str(s) => json_quoted(s@),
        _ => Seq::empty(),
    }
}

/// The path of an object member below `current`.
pub open spec fn member_path(current: Seq<char>, key: Seq<char>) -> Seq<char> {
    if current.len() == 0 {
        key
    } else {
        current + "."@ + key
    }
}

/// The path of an array element below `current`.
pub open spec fn element_path(current: Seq<char>, idx: nat) -> Seq<char> {
    current + "["@ + decimal_spec(idx) + "]"@
}

pub proof fn lemma_element_decreases(j: Json, i: int)
    requires
        j matches Json::Array(a) && 0 <= i < a@.len(),
    ensures
        j matches Json::Array(a) && decreases_to!(j => a@[i]),
{
    if let Json::Array(a) = j {
        assert(decreases_to!(j => a));
        assert(decreases_to!(a => a@));
        assert(decreases_to!(a@ => a@[i]));
    }
}

pub proof fn lemma_member_decreases(j: Json, i: int)
    requires
        j matches Json::Object(m) && 0 <= i < m@.len(),
    ensures
        j matches Json::Object(m) && decreases_to!(j => m@[i].1),
{
    if let Json::Object(m) = j {
        assert(decreases_to!(j => m));
        assert(decreases_to!(m => m@));
        assert(decreases_to!(m@ => m@[i]));
        assert(decreases_to!(m@[i] => m@[i].1));
    }
}

/// Number of children of an array or object (0 for a leaf).
pub open spec fn child_count(j: Json) -> int {
    match j {
        Json::Array(a) => a@.len() as int,
        Json::Object(m) => m@.len() as int,
        _ => 0,
    }
}

/// The object keys found anywhere in a JSON value.
pub open spec fn keys_of(j: Json) -> Set<Seq<char>>
    decreases j, child_count(j) + 1,
{
    keys_below(j, child_count(j))
}

/// The object keys found in the first `n` children of `j` (member names included).
pub open spec fn keys_below(j: Json, n: int) -> Set<Seq<char>>
    decreases j, n,
{
    if n <= 0 {
        Set::empty()
    } else {
        match j {
            Json::Array(a) => if n <= a@.len() {
                proof {
                    lemma_element_decreases(j, n - 1);
                }
                keys_below(j, n - 1) + keys_of(a@[n - 1])
            } else {
                Set::empty()
            },
            Json::Object(m) => if n <= m@.len() {
                proof {
                    lemma_member_decreases(j, n - 1);
                }
                keys_below(j, n - 1).insert(m@[n - 1].0@) + keys_of(m@[n - 1].1)
            } else {
                Set::empty()
            },
            _ => Set::empty(),
        }
    }
}

/// Does the object key `k` occur anywhere in `j`: as the name of a member of
/// an object inside it, at any depth, under objects and arrays alike?
pub open spec fn key_occurs(j: Json, k: Seq<char>) -> bool
    decreases j,
{
    match j {
        Json::Array(a) => {
            proof {
                assert(decreases_to!(j => a));
                assert(decreases_to!(a => a@));
            }
            key_occurs_in_elements(a@, k)
        },
        Json::Object(m) => {
            proof {
                assert(decreases_to!(j => m));
                assert(decreases_to!(m => m@));
            }
            key_occurs_in_members(m@, k)
        },
        _ => false,
    }
}

/// Does `k` occur in one of the elements?
pub open spec fn key_occurs_in_elements(s: Seq<Json>, k: Seq<char>) -> bool
    decreases s,
{
    if s.len() == 0 {
        false
    } else {
        key_occurs_in_elements(s.drop_last(), k) || key_occurs(s.last(), k)
    }
}

/// Is `k` the name of one of the members, or does it occur in one of their values?
pub open spec fn key_occurs_in_members(s: Seq<(String, Json)>, k: Seq<char>) -> bool
    decreases s,
{
    if s.len() == 0 {
        false
    } else {
        proof {
            assert(decreases_to!(s => s[s.len() - 1]));
            assert(decreases_to!(s[s.len() - 1] => s[s.len() - 1].1));
        }
        key_occurs_in_members(s.drop_last(), k) || s.last().0@ == k || key_occurs(s.last().1, k)
    }
}

proof fn lemma_occurs_below(j: Json, n: int, k: Seq<char>)
    requires
        0 <= n <= child_count(j),
    ensures
        match j {
            Json::Array(a) => key_occurs_in_elements(a@.subrange(0, n), k) <==> keys_below(j, n).contains(k),
            Json::Object(m) => key_occurs_in_members(m@.subrange(0, n), k) <==> keys_below(j, n).contains(k),
            _ => true,
        },
    decreases j, n,
{
    if n > 0 {
        lemma_occurs_below(j, n - 1, k);
        match j {
            Json::Array(a) => {
                lemma_element_decreases(j, n - 1);
                lemma_keys_occur(a@[n - 1], k);
                assert(a@.subrange(0, n).drop_last() =~= a@.subrange(0, n - 1));
                assert(a@.subrange(0, n).last() == a@[n - 1]);
            },
            Json::Object(m) => {
                lemma_member_decreases(j, n - 1);
                lemma_keys_occur(m@[n - 1].1, k);
                assert(m@.subrange(0, n).drop_last() =~= m@.subrange(0, n - 1));
                assert(m@.subrange(0, n).last() == m@[n - 1]);
            },
            _ => {},
        }
    } else {
        match j {
            Json::Array(a) => {
                assert(a@.subrange(0, 0).len() == 0);
            },
            Json::Object(m) => {
                assert(m@.subrange(0, 0).len() == 0);
            },
            _ => {},
        }
    }
}

proof fn lemma_keys_occur(j: Json, k: Seq<char>)
    ensures
        keys_of(j).contains(k) <==> key_occurs(j, k),
    decreases j, child_count(j) + 1,
{
    lemma_occurs_below(j, child_count(j), k);
    match j {
        Json::Array(a) => {
            assert(a@.subrange(0, a@.len() as int) =~= a@);
        },
        Json::Object(m) => {
            assert(m@.subrange(0, m@.len() as int) =~= m@);
        },
        _ => {},
    }
}

/// The keys an insert indexes are exactly the object keys that occur in
/// the document, at any depth and under any array.
pub proof fn law_indexed_keys_are_occurring_keys(j: Json, k: Seq<char>)
    ensures
        keys_of(j).contains(k) <==> key_occurs(j, k),
{
    lemma_keys_occur(j, k);
}

/// The paths of all members and elements of a JSON value reached at `current`.
pub open spec fn paths_of(j: Json, current: Seq<char>) -> Set<Seq<char>>
    decreases j, child_count(j) + 1,
{
    paths_below(j, current, child_count(j))
}

/// The paths found in the first `n` children of `j` (reached at `current`).
pub open spec fn paths_below(j: Json, current: Seq<char>, n: int) -> Set<Seq<char>>
    decreases j, n,
{
    if n <= 0 {
        Set::empty()
    } else {
        match j {
            Json::Array(a) => if n <= a@.len() {
                proof {
                    lemma_element_decreases(j, n - 1);
                }
                let p = element_path(current, (n - 1) as nat);
                paths_below(j, current, n - 1).insert(p) + paths_of(a@[n - 1], p)
            } else {
                Set::empty()
            },
            Json::Object(m) => if n <= m@.len() {
                proof {
                    lemma_member_decreases(j, n - 1);
                }
                let p = member_path(current, m@[n - 1].0@);
                paths_below(j, current, n - 1).insert(p) + paths_of(m@[n - 1].1, p)
            } else {
                Set::empty()
            },
            _ => Set::empty(),
        }
    }
}

/// The JSON texts of the leaves of a JSON value.
pub open spec fn leaves_of(j: Json) -> Set<Seq<char>>
    decreases j, child_count(j) + 1,
{
    match j {
        Json::Array(_) => leaves_below(j, child_count(j)),
        Json::Object(_) => leaves_below(j, child_count(j)),
        _ => set![leaf_text(j)],
    }
}

/// The leaf texts found in the first `n` children of `j`.
pub open spec fn leaves_below(j: Json, n: int) -> Set<Seq<char>>
    decreases j, n,
{
    if n <= 0 {
        Set::empty()
    } else {
        match j {
            Json::Array(a) => if n <= a@.len() {
                proof {
                    lemma_element_decreases(j, n - 1);
                }
                leaves_below(j, n - 1) + leaves_of(a@[n - 1])
            } else {
                Set::empty()
            },
            Json::Object(m) => if n <= m@.len() {
                proof {
                    lemma_member_decreases(j, n - 1);
                }
                leaves_below(j, n - 1) + leaves_of(m@[n - 1].1)
            } else {
                Set::empty()
            },
            _ => Set::empty(),
        }
    }
}

/// An inverted list: entries of a text and the rows holding it.
#[derive(Debug)]
pub struct Postings {
    entries: Vec<(String, Vec<u64>)>,
}

/// The texts of the entries are distinct.
pub open spec fn distinct_texts(e: Seq<(String, Vec<u64>)>) -> bool {
    forall|a: int, b: int| 0 <= a < b < e.len() ==> (#[trigger] e[a]).0@ != (#[trigger] e[b]).0@
}

/// Does an entry hold the text?
pub open spec fn holds_text(e: Seq<(String, Vec<u64>)>, t: Seq<char>) -> bool {
    exists|i: int| 0 <= i < e.len() && (#[trigger] e[i]).0@ == t
}

/// The index of the entry holding the text.
pub open spec fn index_of_text(e: Seq<(String, Vec<u64>)>, t: Seq<char>) -> int {
    choose|i: int| 0 <= i < e.len() && (#[trigger] e[i]).0@ == t
}

/// The entries as a map from text to row set.
pub open spec fn postings_map(e: Seq<(String, Vec<u64>)>) -> Map<Seq<char>, Set<u64>> {
    Map::new(|t: Seq<char>| holds_text(e, t), |t: Seq<char>| e[index_of_text(e, t)].1@.to_set())
}

/// With distinct texts, the entry of a text is the one that holds it.
proof fn lemma_index_of_text(e: Seq<(String, Vec<u64>)>, k: int)
    requires
        distinct_texts(e),
        0 <= k < e.len(),
    ensures
        holds_text(e, e[k].0@),
        index_of_text(e, e[k].0@) == k,
        postings_map(e).dom().contains(e[k].0@),
        postings_map(e)[e[k].0@] == e[k].1@.to_set(),
{
    let t = e[k].0@;
    assert(holds_text(e, t));
    let j = index_of_text(e, t);
    if j != k {
        if j < k {
            assert(e[j].0@ != e[k].0@);
        } else {
            assert(e[k].0@ != e[j].0@);
        }
    }
}

impl Postings {
    /// The entries as a map from text to row set.
    pub closed spec fn map(&self) -> Map<Seq<char>, Set<u64>> {
        postings_map(self.entries@)
    }

    /// No text occurs twice, no row list is empty or holds a row twice.
    pub closed spec fn wf(&self) -> bool {
        &&& distinct_texts(self.entries@)
        &&& forall|a: int| 0 <= a < self.entries@.len() ==> (#[trigger] self.entries@[a]).1@.len() > 0 && self.entries@[a].1@.no_duplicates()
    }

    /// Number of texts.
    pub closed spec fn len_spec(&self) -> nat {
        self.entries@.len()
    }

    /// The number of texts is the size of the map's domain.
    pub proof fn lemma_len(&self)
        requires
            self.wf(),
        ensures
            self.map().dom().finite(),
            self.map().dom().len() == self.len_spec(),
    {
        let e = self.entries@;
        let names = e.map_values(|x: (String, Vec<u64>)| x.0@);
        assert(names.no_duplicates()) by {
            assert forall|a: int, b: int| 0 <= a < names.len() && 0 <= b < names.len() && a != b implies names[a] != names[b] by {
                if a < b {
                    assert(e[a].0@ != e[b].0@);
                } else {
                    assert(e[b].0@ != e[a].0@);
                }
            }
        }
        assert(self.map().dom() =~= names.to_set()) by {
            assert forall|t: Seq<char>| self.map().dom().contains(t) <==> names.to_set().contains(t) by {
                if self.map().dom().contains(t) {
                    let i = index_of_text(e, t);
                    assert(names[i] == t);
                }
                if names.to_set().contains(t) {
                    let i = choose|i: int| 0 <= i < names.len() && names[i] == t;
                    assert(e[i].0@ == t);
                }
            }
        }
        names.unique_seq_to_set();
    }

    /// Empty lists.
    pub fn new() -> (p: Self)
        ensures
            p.wf(),
            p.map() == Map::<Seq<char>, Set<u64>>::empty(),
            p.len_spec() == 0,
    {
        let p = Postings { entries: Vec::new() };
        proof {
            assert(p.map() =~= Map::<Seq<char>, Set<u64>>::empty());
        }
        p
    }

    /// Number of texts.
    pub fn len(&self) -> (r: usize)
        ensures
            r == self.len_spec(),
    {
        self.entries.len()
    }

    /// Where the text is, if present.
    fn find(&self, t: &str) -> (r: Option<usize>)
        requires
            self.wf(),
        ensures
            r is Some <==> self.map().dom().contains(t@),
            r matches Some(i) ==> i < self.entries@.len() && self.entries@[i as int].0@ == t@ && self.map()[t@]
                == self.entries@[i as int].1@.to_set(),
    {
        let mut i: usize = 0;
        while i < self.entries.len()
            invariant
                self.wf(),
                i <= self.entries@.len(),
                forall|j: int| 0 <= j < i ==> (#[trigger] self.entries@[j]).0@ != t@,
            decreases self.entries@.len() - i,
        {
            if str_eq(self.entries[i].0.as_str(), t) {
                proof {
                    lemma_index_of_text(self.entries@, i as int);
                }
                return Some(i);
            }
            i = i + 1;
        }
        proof {
            if self.map().dom().contains(t@) {
                let k = index_of_text(self.entries@, t@);
                assert(self.entries@[k].0@ == t@);
            }
        }
        None
    }

    /// The rows holding the text, if any.
    pub fn rows(&self, t: &str) -> (r: Option<&Vec<u64>>)
        requires
            self.wf(),
        ensures
            r is Some <==> self.map().dom().contains(t@),
            r matches Some(v) ==> v@.to_set() == self.map()[t@] && v@.no_duplicates() && v@.len() > 0,
    {
        match self.find(t) {
            Some(i) => Some(&self.entries[i].1),
            None => None,
        }
    }

    /// Add a row to the text's list.
    pub fn add(&mut self, t: &str, row: u64)
        requires
            old(self).wf(),
        ensures
            final(self).wf(),
            final(self).map() == old(self).map().insert(
                t@,
                if old(self).map().dom().contains(t@) { old(self).map()[t@].insert(row) } else { set![row] },
            ),
    {
        let ghost m0 = self.map();
        let ghost e0 = self.entries@;
        let ghost target = old(self).map().insert(
            t@,
            if old(self).map().dom().contains(t@) { old(self).map()[t@].insert(row) } else { set![row] },
        );
        match self.find(t) {
            Some(i) => {
                let mut rows: Vec<u64> = Vec::new();
                let mut present = false;
                let mut j: usize = 0;
                while j < self.entries[i].1.len()
                    invariant
                        self.entries@ == e0,
                        i < e0.len(),
                        j <= e0[i as int].1@.len(),
                        rows@ == e0[i as int].1@.subrange(0, j as int),
                        present <==> exists|k: int| 0 <= k < j && e0[i as int].1@[k] == row,
                    decreases e0[i as int].1@.len() - j,
                {
                    let x = self.entries[i].1[j];
                    if x == row {
                        present = true;
                    }
                    rows.push(x);
                    j = j + 1;
                    proof {
                        assert(rows@ =~= e0[i as int].1@.subrange(0, j as int));
                    }
                }
                let ghost r0 = e0[i as int].1@;
                proof {
                    assert(rows@ =~= r0);
                }
                if !present {
                    rows.push(row);
                }
                let name = self.entries[i].0.clone();
                let ghost rows_v = rows@;
                self.entries.set(i, (name, rows));
                proof {
                    let e1 = self.entries@;
                    assert(rows_v.to_set() =~= r0.to_set().insert(row)) by {
                        if !present {
                            assert forall|x: u64| rows_v.to_set().contains(x) <==> r0.to_set().insert(row).contains(x) by {
                                if rows_v.to_set().contains(x) {
                                    let k = choose|k: int| 0 <= k < rows_v.len() && rows_v[k] == x;
                                    if k < r0.len() {
                                        assert(r0[k] == x);
                                    }
                                }
                                if r0.to_set().contains(x) {
                                    let k = choose|k: int| 0 <= k < r0.len() && r0[k] == x;
                                    assert(rows_v[k] == x);
                                }
                                if x == row {
                                    assert(rows_v[r0.len() as int] == x);
                                }
                            }
                        } else {
                            let k = choose|k: int| 0 <= k < r0.len() && r0[k] == row;
                            assert(r0.to_set().contains(row));
                        }
                    }
                    assert(rows_v.no_duplicates()) by {
                        if !present {
                            assert forall|a: int, b: int| 0 <= a < rows_v.len() && 0 <= b < rows_v.len() && a != b implies rows_v[a] != rows_v[b] by {
                                if a < r0.len() && b < r0.len() {
                                } else if a < r0.len() {
                                    assert(rows_v[b] == row);
                                    assert(r0[a] != row);
                                } else {
                                    assert(rows_v[a] == row);
                                    assert(r0[b] != row);
                                }
                            }
                        }
                    }
                    assert(distinct_texts(e1)) by {
                        assert forall|a: int, b: int| 0 <= a < b < e1.len() implies (#[trigger] e1[a]).0@ != (#[trigger] e1[b]).0@ by {
                            assert(e1[a].0@ == e0[a].0@);
                            assert(e1[b].0@ == e0[b].0@);
                        }
                    }
                    assert(self.map() =~= target) by {
                        assert forall|u: Seq<char>| self.map().dom().contains(u) <==> target.dom().contains(u) by {
                            if holds_text(e1, u) {
                                let k = index_of_text(e1, u);
                                assert(e0[k].0@ == u);
                            }
                            if holds_text(e0, u) {
                                let k = index_of_text(e0, u);
                                assert(e1[k].0@ == u);
                            }
                            if u == t@ {
                                assert(e1[i as int].0@ == u);
                            }
                        }
                        assert forall|u: Seq<char>| self.map().dom().contains(u) implies self.map()[u] == target[u] by {
                            let k = index_of_text(e1, u);
                            lemma_index_of_text(e1, k);
                            if k == i as int {
                                lemma_index_of_text(e0, k);
                            } else {
                                assert(e1[k] == e0[k]);
                                lemma_index_of_text(e0, k);
                                assert(u != t@);
                            }
                        }
                    }
                }
            },
            None => {
                let mut rows: Vec<u64> = Vec::new();
                rows.push(row);
                self.entries.push((String::from_str(t), rows));
                proof {
                    let e1 = self.entries@;
                    assert(distinct_texts(e1)) by {
                        assert forall|a: int, b: int| 0 <= a < b < e1.len() implies (#[trigger] e1[a]).0@ != (#[trigger] e1[b]).0@ by {
                            if b == e0.len() {
                                assert(e1[a] == e0[a]);
                                assert(!holds_text(e0, t@));
                            } else {
                                assert(e1[a] == e0[a] && e1[b] == e0[b]);
                            }
                        }
                    }
                    assert(e1[e0.len() as int].1@.to_set() =~= set![row]) by {
                        let r = e1[e0.len() as int].1@;
                        assert(r =~= seq![row]);
                        assert forall|x: u64| r.to_set().contains(x) <==> set![row].contains(x) by {
                            if x == row {
                                assert(r[0] == x);
                            }
                        }
                    }
                    assert(self.map() =~= target) by {
                        assert forall|u: Seq<char>| self.map().dom().contains(u) <==> target.dom().contains(u) by {
                            if holds_text(e1, u) {
                                let k = index_of_text(e1, u);
                                if k < e0.len() {
                                    assert(e0[k] == e1[k]);
                                }
                            }
                            if holds_text(e0, u) {
                                let k = index_of_text(e0, u);
                                assert(e1[k] == e0[k]);
                            }
                            if u == t@ {
                                assert(e1[e0.len() as int].0@ == u);
                            }
                        }
                        assert forall|u: Seq<char>| self.map().dom().contains(u) implies self.map()[u] == target[u] by {
                            let k = index_of_text(e1, u);
                            lemma_index_of_text(e1, k);
                            if k < e0.len() {
                                assert(e1[k] == e0[k]);
                                lemma_index_of_text(e0, k);
                                assert(u != t@);
                            }
                        }
                    }
                }
            },
        }
    }

    /// Remove a row from the text's list; a list left empty is dropped.
    pub fn remove(&mut self, t: &str, row: u64)
        requires
            old(self).wf(),
        ensures
            final(self).wf(),
            final(self).map() == if !old(self).map().dom().contains(t@) {
                old(self).map()
            } else if old(self).map()[t@].remove(row) == Set::<u64>::empty() {
                old(self).map().remove(t@)
            } else {
                old(self).map().insert(t@, old(self).map()[t@].remove(row))
            },
    {
        let ghost e0 = self.entries@;
        let ghost m0 = self.map();
        match self.find(t) {
            None => {},
            Some(i) => {
                let ghost r0 = e0[i as int].1@;
                let mut rows: Vec<u64> = Vec::new();
                let mut j: usize = 0;
                while j < self.entries[i].1.len()
                    invariant
                        self.entries@ == e0,
                        i < e0.len(),
                        r0 == e0[i as int].1@,
                        r0.no_duplicates(),
                        j <= r0.len(),
                        rows@ == r0.subrange(0, j as int).filter(|x: u64| x != row),
                        rows@.no_duplicates(),
                    decreases r0.len() - j,
                {
                    let x = self.entries[i].1[j];
                    proof {
                        assert(r0.subrange(0, j + 1) =~= r0.subrange(0, j as int).push(x));
                        crate::text::lemma_filter_push(r0.subrange(0, j as int), |x: u64| x != row, x);
                    }
                    if x != row {
                        let ghost rows0 = rows@;
                        proof {
                            if rows0.contains(x) {
                                r0.subrange(0, j as int).lemma_filter_contains_rev(|x: u64| x != row, x);
                                let k = choose|k: int| 0 <= k < j && r0.subrange(0, j as int)[k] == x;
                                assert(r0[k] == r0[j as int]);
                            }
                        }
                        rows.push(x);
                        proof {
                            assert forall|a: int, b: int| 0 <= a < rows@.len() && 0 <= b < rows@.len() && a != b implies rows@[a] != rows@[b] by {
                                if a < rows0.len() && b < rows0.len() {
                                } else if a < rows0.len() {
                                    assert(rows0.contains(rows0[a]));
                                } else {
                                    assert(rows0.contains(rows0[b]));
                                }
                            }
                        }
                    }
                    j = j + 1;
                }
                proof {
                    assert(r0.subrange(0, r0.len() as int) =~= r0);
                    let f = |x: u64| x != row;
                    assert(rows@.to_set() =~= r0.to_set().remove(row)) by {
                        assert forall|x: u64| rows@.to_set().contains(x) <==> r0.to_set().remove(row).contains(x) by {
                            if rows@.to_set().contains(x) {
                                let k = choose|k: int| 0 <= k < rows@.len() && rows@[k] == x;
                                r0.lemma_filter_pred(f, k);
                                assert(rows@.contains(rows@[k]));
                                r0.lemma_filter_contains_rev(f, rows@[k]);
                            }
                            if r0.to_set().remove(row).contains(x) {
                                let k = choose|k: int| 0 <= k < r0.len() && r0[k] == x;
                                r0.lemma_filter_contains(f, k);
                            }
                        }
                    }
                }
                if rows.len() == 0 {
                    self.entries.remove(i);
                    proof {
                        let e1 = self.entries@;
                        assert(r0.to_set().remove(row) =~= Set::<u64>::empty()) by {
                            assert(rows@ =~= Seq::<u64>::empty());
                        }
                        assert(distinct_texts(e1)) by {
                            assert forall|a: int, b: int| 0 <= a < b < e1.len() implies (#[trigger] e1[a]).0@ != (#[trigger] e1[b]).0@ by {
                                let a0 = if a < i { a } else { a + 1 };
                                let b0 = if b < i { b } else { b + 1 };
                                assert(e1[a] == e0[a0] && e1[b] == e0[b0]);
                            }
                        }
                        assert(self.map() =~= m0.remove(t@)) by {
                            assert forall|u: Seq<char>| self.map().dom().contains(u) <==> m0.remove(t@).dom().contains(u) by {
                                if holds_text(e1, u) {
                                    let k = index_of_text(e1, u);
                                    let k0 = if k < i { k } else { k + 1 };
                                    assert(e1[k] == e0[k0]);
                                    lemma_index_of_text(e0, k0);
                                    lemma_index_of_text(e0, i as int);
                                }
                                if holds_text(e0, u) && u != t@ {
                                    let k = index_of_text(e0, u);
                                    if k < i {
                                        assert(e1[k] == e0[k]);
                                    } else if k > i {
                                        assert(e1[k - 1] == e0[k]);
                                    }
                                }
                            }
                            assert forall|u: Seq<char>| self.map().dom().contains(u) implies self.map()[u] == m0.remove(t@)[u] by {
                                let k = index_of_text(e1, u);
                                lemma_index_of_text(e1, k);
                                let k0 = if k < i { k } else { k + 1 };
                                assert(e1[k] == e0[k0]);
                                lemma_index_of_text(e0, k0);
                            }
                        }
                    }
                } else {
                    let name = self.entries[i].0.clone();
                    let ghost rows_v = rows@;
                    self.entries.set(i, (name, rows));
                    proof {
                        let e1 = self.entries@;
                        assert(rows_v.to_set() != Set::<u64>::empty()) by {
                            assert(rows_v.to_set().contains(rows_v[0]));
                        }
                        assert(distinct_texts(e1)) by {
                            assert forall|a: int, b: int| 0 <= a < b < e1.len() implies (#[trigger] e1[a]).0@ != (#[trigger] e1[b]).0@ by {
                                assert(e1[a].0@ == e0[a].0@);
                                assert(e1[b].0@ == e0[b].0@);
                            }
                        }
                        let target = m0.insert(t@, m0[t@].remove(row));
                        assert(self.map() =~= target) by {
                            assert forall|u: Seq<char>| self.map().dom().contains(u) <==> target.dom().contains(u) by {
                                if holds_text(e1, u) {
                                    let k = index_of_text(e1, u);
                                    assert(e0[k].0@ == u);
                                }
                                if holds_text(e0, u) {
                                    let k = index_of_text(e0, u);
                                    assert(e1[k].0@ == u);
                                }
                            }
                            assert forall|u: Seq<char>| self.map().dom().contains(u) implies self.map()[u] == target[u] by {
                                let k = index_of_text(e1, u);
                                lemma_index_of_text(e1, k);
                                lemma_index_of_text(e0, k);
                                if k != i as int {
                                    assert(e1[k] == e0[k]);
                                    assert(u != t@);
                                }
                            }
                        }
                    }
                }
            },
        }
    }
}

/// The texts of a list of strings.
pub open spec fn strs(v: Seq<String>) -> Set<Seq<char>> {
    v.map_values(|s: String| s@).to_set()
}

proof fn lemma_strs_push(v: Seq<String>, s: String)
    ensures
        strs(v.push(s)) == strs(v).insert(s@),
{
    let a = v.push(s).map_values(|x: String| x@);
    let b = v.map_values(|x: String| x@);
    assert forall|t: Seq<char>| a.to_set().contains(t) <==> b.to_set().insert(s@).contains(t) by {
        if a.to_set().contains(t) {
            let k = choose|k: int| 0 <= k < a.len() && a[k] == t;
            if k < v.len() {
                assert(b[k] == t);
            }
        }
        if b.to_set().contains(t) {
            let k = choose|k: int| 0 <= k < b.len() && b[k] == t;
            assert(a[k] == t);
        }
        if t == s@ {
            assert(a[v.len() as int] == t);
        }
    }
    assert(strs(v.push(s)) =~= strs(v).insert(s@));
}

/// The text a leaf is indexed under.
fn leaf_text_of(j: &Json) -> (r: String)
    requires
        !(*j is Array) && !(*j is Object),
    ensures
        r@ == leaf_text(*j),
{
    match j {
        Json::Null => String::from_str("null"),
        Json::Bool(b) => if *b {
            String::from_str("true")
        } else {
            String::from_str("false")
        },
        Json::Number(n) => n.clone(),
        Json::Str(t) => quote_json_string(t.as_str()),
        _ => String::new(),
    }
}

/// Collect the keys, paths (below `current`) and leaf texts of a JSON value.
fn collect(j: &Json, current: &String, keys: &mut Vec<String>, paths: &mut Vec<String>, leaves: &mut Vec<String>)
    ensures
        strs(final(keys)@) == strs(old(keys)@) + keys_of(*j),
        strs(final(paths)@) == strs(old(paths)@) + paths_of(*j, current@),
        strs(final(leaves)@) == strs(old(leaves)@) + leaves_of(*j),
    decreases j,
{
    let ghost k0 = strs(keys@);
    let ghost p0 = strs(paths@);
    let ghost l0 = strs(leaves@);
    match j {
        Json::Array(a) => {
            let mut i: usize = 0;
            proof {
                assert(k0 + keys_below(*j, 0) =~= k0);
                assert(p0 + paths_below(*j, current@, 0) =~= p0);
                assert(l0 + leaves_below(*j, 0) =~= l0);
            }
            while i < a.len()
                invariant
                    *j == Json::Array(*a),
                    i <= a@.len(),
                    strs(keys@) == k0 + keys_below(*j, i as int),
                    strs(paths@) == p0 + paths_below(*j, current@, i as int),
                    strs(leaves@) == l0 + leaves_below(*j, i as int),
                decreases a@.len() - i,
            {
                let path = current.clone().concat("[").concat(decimal(i as u64).as_str()).concat("]");
                let ghost ks = strs(keys@);
                let ghost ps = strs(paths@);
                let ghost ls = strs(leaves@);
                proof {
                    assert(path@ == element_path(current@, i as nat));
                    lemma_strs_push(paths@, path);
                    lemma_element_decreases(*j, i as int);
                }
                paths.push(path.clone());
                collect(&a[i], &path, keys, paths, leaves);
                proof {
                    let c = a@[i as int];
                    assert(keys_below(*j, i + 1) == keys_below(*j, i as int) + keys_of(c));
                    assert(paths_below(*j, current@, i + 1) == paths_below(*j, current@, i as int).insert(path@) + paths_of(c, path@));
                    assert(leaves_below(*j, i + 1) == leaves_below(*j, i as int) + leaves_of(c));
                    assert(strs(keys@) =~= k0 + keys_below(*j, i + 1));
                    assert(strs(paths@) =~= p0 + paths_below(*j, current@, i + 1));
                    assert(strs(leaves@) =~= l0 + leaves_below(*j, i + 1));
                }
                i = i + 1;
            }
        },
        Json::Object(m) => {
            let mut i: usize = 0;
            proof {
                assert(k0 + keys_below(*j, 0) =~= k0);
                assert(p0 + paths_below(*j, current@, 0) =~= p0);
                assert(l0 + leaves_below(*j, 0) =~= l0);
            }
            while i < m.len()
                invariant
                    *j == Json::Object(*m),
                    i <= m@.len(),
                    strs(keys@) == k0 + keys_below(*j, i as int),
                    strs(paths@) == p0 + paths_below(*j, current@, i as int),
                    strs(leaves@) == l0 + leaves_below(*j, i as int),
                decreases m@.len() - i,
            {
                let key = &m[i].0;
                let path = if current.as_str().unicode_len() == 0 {
                    key.clone()
                } else {
                    current.clone().concat(".").concat(key.as_str())
                };
                proof {
                    assert(path@ == member_path(current@, key@));
                    assert(key@ == m@[i as int].0@);
                    lemma_strs_push(keys@, *key);
                    lemma_strs_push(paths@, path);
                    lemma_member_decreases(*j, i as int);
                }
                keys.push(key.clone());
                paths.push(path.clone());
                collect(&m[i].1, &path, keys, paths, leaves);
                proof {
                    let c = m@[i as int].1;
                    assert(keys_below(*j, i + 1) == keys_below(*j, i as int).insert(key@) + keys_of(c));
                    assert(paths_below(*j, current@, i + 1) == paths_below(*j, current@, i as int).insert(path@) + paths_of(c, path@));
                    assert(leaves_below(*j, i + 1) == leaves_below(*j, i as int) + leaves_of(c));
                    assert(strs(keys@) =~= k0 + keys_below(*j, i + 1));
                    assert(strs(paths@) =~= p0 + paths_below(*j, current@, i + 1));
                    assert(strs(leaves@) =~= l0 + leaves_below(*j, i + 1));
                }
                i = i + 1;
            }
        },
        _ => {
            let t = leaf_text_of(j);
            proof {
                lemma_strs_push(leaves@, t);
            }
            leaves.push(t);
            proof {
                assert(keys_of(*j) =~= Set::empty());
                assert(paths_of(*j, current@) =~= Set::empty());
                assert(strs(keys@) =~= k0 + keys_of(*j));
                assert(strs(paths@) =~= p0 + paths_of(*j, current@));
                assert(strs(leaves@) =~= l0 + leaves_of(*j));
            }
        },
    }
}

/// Every text of `ts` gets `row` added to its row set.
pub open spec fn with_row(m: Map<Seq<char>, Set<u64>>, ts: Set<Seq<char>>, row: u64) -> Map<Seq<char>, Set<u64>> {
    Map::new(
        |t: Seq<char>| m.dom().contains(t) || ts.contains(t),
        |t: Seq<char>| if !ts.contains(t) {
            m[t]
        } else if m.dom().contains(t) {
            m[t].insert(row)
        } else {
            set![row]
        },
    )
}

/// Every text of `ts` loses `row` from its row set; a set left empty is dropped.
pub open spec fn without_row(m: Map<Seq<char>, Set<u64>>, ts: Set<Seq<char>>, row: u64) -> Map<Seq<char>, Set<u64>> {
    Map::new(
        |t: Seq<char>| m.dom().contains(t) && !(ts.contains(t) && m[t].remove(row) == Set::<u64>::empty()),
        |t: Seq<char>| if ts.contains(t) { m[t].remove(row) } else { m[t] },
    )
}

/// The rows holding at least one of the texts.
pub open spec fn any_rows(m: Map<Seq<char>, Set<u64>>, ts: Seq<Seq<char>>) -> Set<u64> {
    Set::new(|r: u64| exists|i: int| 0 <= i < ts.len() && m.dom().contains(ts[i]) && #[trigger] m[ts[i]].contains(r))
}

/// When every indexed text has a row, the texts have no row exactly when
/// none of them is indexed.
proof fn lemma_any_rows_empty(m: Map<Seq<char>, Set<u64>>, ts: Seq<Seq<char>>)
    requires
        forall|t: Seq<char>| #[trigger] m.dom().contains(t) ==> m[t] != Set::<u64>::empty(),
    ensures
        (any_rows(m, ts) == Set::<u64>::empty()) <==> forall|i: int| 0 <= i < ts.len() ==> !m.dom().contains(#[trigger] ts[i]),
{
    if exists|i: int| 0 <= i < ts.len() && m.dom().contains(#[trigger] ts[i]) {
        let i = choose|i: int| 0 <= i < ts.len() && m.dom().contains(#[trigger] ts[i]);
        let x = m[ts[i]].choose();
        assert(m[ts[i]].contains(x)) by {
            if !m[ts[i]].contains(x) {
                assert(m[ts[i]] =~= Set::<u64>::empty());
            }
        }
        assert(any_rows(m, ts).contains(x));
    } else {
        assert(any_rows(m, ts) =~= Set::<u64>::empty());
    }
}

/// Every one of the texts is indexed.
pub open spec fn all_present(m: Map<Seq<char>, Set<u64>>, ts: Seq<Seq<char>>) -> bool {
    forall|i: int| 0 <= i < ts.len() ==> m.dom().contains(#[trigger] ts[i])
}

/// The rows holding every one of the texts.
pub open spec fn all_rows(m: Map<Seq<char>, Set<u64>>, ts: Seq<Seq<char>>) -> Set<u64> {
    Set::new(|r: u64| forall|i: int| 0 <= i < ts.len() ==> #[trigger] m[ts[i]].contains(r))
}

/// The texts of a slice of strings, in order.
pub open spec fn texts(v: Seq<String>) -> Seq<Seq<char>> {
    v.map_values(|s: String| s@)
}

/// Adding the row for a set grown by one text is adding it for the set, then for the text.
proof fn lemma_with_row_step(m: Map<Seq<char>, Set<u64>>, ts: Set<Seq<char>>, t: Seq<char>, row: u64)
    ensures
        ({
            let w = with_row(m, ts, row);
            with_row(m, ts.insert(t), row) == w.insert(
                t,
                if w.dom().contains(t) { w[t].insert(row) } else { set![row] },
            )
        }),
{
    let w = with_row(m, ts, row);
    let target = w.insert(t, if w.dom().contains(t) { w[t].insert(row) } else { set![row] });
    assert forall|u: Seq<char>| #[trigger] with_row(m, ts.insert(t), row).dom().contains(u) implies with_row(m, ts.insert(t), row)[u] == target[u] by {
        if u == t && ts.contains(t) && m.dom().contains(t) {
            assert(m[t].insert(row).insert(row) =~= m[t].insert(row));
        }
        if u == t && ts.contains(t) && !m.dom().contains(t) {
            assert(set![row].insert(row) =~= set![row]);
        }
    }
    assert(with_row(m, ts.insert(t), row) =~= target);
}

/// Removing the row for a set grown by one text is removing it for the set, then for the text.
proof fn lemma_without_row_step(m: Map<Seq<char>, Set<u64>>, ts: Set<Seq<char>>, t: Seq<char>, row: u64)
    ensures
        ({
            let w = without_row(m, ts, row);
            without_row(m, ts.insert(t), row) == if !w.dom().contains(t) {
                w
            } else if w[t].remove(row) == Set::<u64>::empty() {
                w.remove(t)
            } else {
                w.insert(t, w[t].remove(row))
            }
        }),
{
    let w = without_row(m, ts, row);
    let target = if !w.dom().contains(t) {
        w
    } else if w[t].remove(row) == Set::<u64>::empty() {
        w.remove(t)
    } else {
        w.insert(t, w[t].remove(row))
    };
    let r = without_row(m, ts.insert(t), row);
    if m.dom().contains(t) {
        assert(m[t].remove(row).remove(row) =~= m[t].remove(row));
    }
    assert forall|u: Seq<char>| r.dom().contains(u) <==> target.dom().contains(u) by {}
    assert forall|u: Seq<char>| #[trigger] r.dom().contains(u) implies r[u] == target[u] by {}
    assert(r =~= target);
}

/// An inverted index over a JSON column: keys, paths and leaf values to rows.
#[derive(Debug)]
pub struct GinIndex {
    /// Index name
    pub name: String,
    /// Table the index belongs to
    pub table_name: String,
    /// Column being indexed
    pub column_name: String,
    /// Object key to rows
    index: Postings,
    /// Member or element path to rows
    path_index: Postings,
    /// Leaf JSON text to rows
    value_index: Postings,
    /// Number of distinct keys indexed
    pub total_keys: usize,
    /// Number of distinct paths indexed
    pub total_paths: usize,
    /// Number of rows inserted less the rows deleted
    pub indexed_rows: usize,
}

/// Counters of a GIN index.
#[derive(Debug, Clone)]
pub struct GinIndexStats {
    pub name: String,
    pub table_name: String,
    pub column_name: String,
    pub total_keys: usize,
    pub total_paths: usize,
    pub total_values: usize,
    pub indexed_rows: usize,
}

/// Add `row` to the lists of all texts of `ts`.
fn add_all(p: &mut Postings, ts: &Vec<String>, row: u64)
    requires
        old(p).wf(),
    ensures
        final(p).wf(),
        final(p).map() == with_row(old(p).map(), strs(ts@), row),
{
    let ghost m0 = p.map();
    let mut i: usize = 0;
    proof {
        assert(strs(ts@.subrange(0, 0)) =~= Set::<Seq<char>>::empty());
        assert(with_row(m0, Set::<Seq<char>>::empty(), row) =~= m0);
    }
    while i < ts.len()
        invariant
            p.wf(),
            i <= ts@.len(),
            p.map() == with_row(m0, strs(ts@.subrange(0, i as int)), row),
        decreases ts@.len() - i,
    {
        proof {
            assert(ts@.subrange(0, i + 1) =~= ts@.subrange(0, i as int).push(ts@[i as int]));
            lemma_strs_push(ts@.subrange(0, i as int), ts@[i as int]);
            lemma_with_row_step(m0, strs(ts@.subrange(0, i as int)), ts@[i as int]@, row);
        }
        p.add(ts[i].as_str(), row);
        i = i + 1;
    }
    proof {
        assert(ts@.subrange(0, ts@.len() as int) =~= ts@);
    }
}

/// Remove `row` from the lists of all texts of `ts`.
fn remove_all(p: &mut Postings, ts: &Vec<String>, row: u64)
    requires
        old(p).wf(),
    ensures
        final(p).wf(),
        final(p).map() == without_row(old(p).map(), strs(ts@), row),
{
    let ghost m0 = p.map();
    let mut i: usize = 0;
    proof {
        assert(strs(ts@.subrange(0, 0)) =~= Set::<Seq<char>>::empty());
        assert(without_row(m0, Set::<Seq<char>>::empty(), row) =~= m0);
    }
    while i < ts.len()
        invariant
            p.wf(),
            i <= ts@.len(),
            p.map() == without_row(m0, strs(ts@.subrange(0, i as int)), row),
        decreases ts@.len() - i,
    {
        proof {
            assert(ts@.subrange(0, i + 1) =~= ts@.subrange(0, i as int).push(ts@[i as int]));
            lemma_strs_push(ts@.subrange(0, i as int), ts@[i as int]);
            lemma_without_row_step(m0, strs(ts@.subrange(0, i as int)), ts@[i as int]@, row);
        }
        p.remove(ts[i].as_str(), row);
        i = i + 1;
    }
    proof {
        assert(ts@.subrange(0, ts@.len() as int) =~= ts@);
    }
}

impl GinIndex {
    /// Object key to rows.
    pub closed spec fn key_map(&self) -> Map<Seq<char>, Set<u64>> {
        self.index.map()
    }

    /// Path to rows.
    pub closed spec fn path_map(&self) -> Map<Seq<char>, Set<u64>> {
        self.path_index.map()
    }

    /// Leaf JSON text to rows.
    pub closed spec fn value_map(&self) -> Map<Seq<char>, Set<u64>> {
        self.value_index.map()
    }

    /// Name, table and column of the index.
    pub closed spec fn ident(&self) -> (String, String, String) {
        (self.name, self.table_name, self.column_name)
    }

    /// The distinct-key counter.
    pub closed spec fn keys_counter(&self) -> usize {
        self.total_keys
    }

    /// The distinct-path counter.
    pub closed spec fn paths_counter(&self) -> usize {
        self.total_paths
    }

    /// The row counter.
    pub closed spec fn rows_counter(&self) -> usize {
        self.indexed_rows
    }

    /// The three lists are well formed.
    pub closed spec fn wf(&self) -> bool {
        &&& self.index.wf()
        &&& self.path_index.wf()
        &&& self.value_index.wf()
    }

    /// Number of distinct leaf texts.
    pub closed spec fn value_count(&self) -> nat {
        self.value_map().dom().len()
    }


    /// An empty index.
    pub fn new(name: String, table_name: String, column_name: String) -> (g: Self)
        ensures
            g.wf(),
            g.ident() == (name, table_name, column_name),
            g.key_map() == Map::<Seq<char>, Set<u64>>::empty(),
            g.path_map() == Map::<Seq<char>, Set<u64>>::empty(),
            g.value_map() == Map::<Seq<char>, Set<u64>>::empty(),
            g.keys_counter() == 0,
            g.paths_counter() == 0,
            g.rows_counter() == 0,
    {
        GinIndex {
            name,
            table_name,
            column_name,
            index: Postings::new(),
            path_index: Postings::new(),
            value_index: Postings::new(),
            total_keys: 0,
            total_paths: 0,
            indexed_rows: 0,
        }
    }

    /// Index a row: every key, path and leaf value of the JSON value gets the row.
    pub fn insert(&mut self, row_id: u64, json_value: &Json) -> (r: Result<(), String>)
        requires
            old(self).wf(),
            old(self).rows_counter() < usize::MAX,
        ensures
            r is Ok,
            final(self).wf(),
            final(self).keys_counter() == final(self).key_map().dom().len(),
            final(self).paths_counter() == final(self).path_map().dom().len(),
            final(self).key_map() == with_row(old(self).key_map(), keys_of(*json_value), row_id),
            final(self).path_map() == with_row(old(self).path_map(), paths_of(*json_value, Seq::empty()), row_id),
            final(self).value_map() == with_row(old(self).value_map(), leaves_of(*json_value), row_id),
            final(self).rows_counter() == old(self).rows_counter() + 1,
            final(self).ident() == old(self).ident(),
            forall|k: Seq<char>| #[trigger] key_occurs(*json_value, k) ==> final(self).key_map().dom().contains(k)
                && final(self).key_map()[k].contains(row_id),
    {
        let mut keys: Vec<String> = Vec::new();
        let mut paths: Vec<String> = Vec::new();
        let mut values: Vec<String> = Vec::new();
        let root = String::new();
        proof {
            assert(strs(keys@) =~= Set::<Seq<char>>::empty());
            assert(strs(paths@) =~= Set::<Seq<char>>::empty());
            assert(strs(values@) =~= Set::<Seq<char>>::empty());
        }
        collect(json_value, &root, &mut keys, &mut paths, &mut values);
        proof {
            assert(strs(keys@) =~= keys_of(*json_value));
            assert(strs(paths@) =~= paths_of(*json_value, Seq::empty()));
            assert(strs(values@) =~= leaves_of(*json_value));
        }
        add_all(&mut self.index, &keys, row_id);
        add_all(&mut self.path_index, &paths, row_id);
        add_all(&mut self.value_index, &values, row_id);
        self.indexed_rows = self.indexed_rows + 1;
        proof {
            self.index.lemma_len();
            self.path_index.lemma_len();
        }
        self.total_keys = self.index.len();
        self.total_paths = self.path_index.len();
        proof {
            assert forall|k: Seq<char>| #[trigger] key_occurs(*json_value, k) implies self.key_map().dom().contains(k)
                && self.key_map()[k].contains(row_id) by {
                lemma_keys_occur(*json_value, k);
            }
        }
        Ok(())
    }

    /// Unindex a row: every key, path and leaf value of the JSON value loses the row,
    /// and a text left with no rows is dropped.
    pub fn delete(&mut self, row_id: u64, json_value: &Json) -> (r: Result<(), String>)
        requires
            old(self).wf(),
        ensures
            r is Ok,
            final(self).wf(),
            final(self).keys_counter() == final(self).key_map().dom().len(),
            final(self).paths_counter() == final(self).path_map().dom().len(),
            final(self).key_map() == without_row(old(self).key_map(), keys_of(*json_value), row_id),
            final(self).path_map() == without_row(old(self).path_map(), paths_of(*json_value, Seq::empty()), row_id),
            final(self).value_map() == without_row(old(self).value_map(), leaves_of(*json_value), row_id),
            final(self).rows_counter() == if old(self).rows_counter() == 0 { 0 } else { old(self).rows_counter() - 1 },
            final(self).ident() == old(self).ident(),
    {
        let mut keys: Vec<String> = Vec::new();
        let mut paths: Vec<String> = Vec::new();
        let mut values: Vec<String> = Vec::new();
        let root = String::new();
        proof {
            assert(strs(keys@) =~= Set::<Seq<char>>::empty());
            assert(strs(paths@) =~= Set::<Seq<char>>::empty());
            assert(strs(values@) =~= Set::<Seq<char>>::empty());
        }
        collect(json_value, &root, &mut keys, &mut paths, &mut values);
        proof {
            assert(strs(keys@) =~= keys_of(*json_value));
            assert(strs(paths@) =~= paths_of(*json_value, Seq::empty()));
            assert(strs(values@) =~= leaves_of(*json_value));
        }
        remove_all(&mut self.index, &keys, row_id);
        remove_all(&mut self.path_index, &paths, row_id);
        remove_all(&mut self.value_index, &values, row_id);
        self.indexed_rows = self.indexed_rows.saturating_sub(1);
        proof {
            self.index.lemma_len();
            self.path_index.lemma_len();
        }
        self.total_keys = self.index.len();
        self.total_paths = self.path_index.len();
        Ok(())
    }

    /// The rows holding an object key.
    pub fn search_key(&self, key: &str) -> (r: Option<Vec<u64>>)
        requires
            self.wf(),
        ensures
            r is Some <==> self.key_map().dom().contains(key@),
            r matches Some(v) ==> v@.to_set() == self.key_map()[key@] && v@.no_duplicates(),
    {
        match self.index.rows(key) {
            Some(v) => Some(v.clone()),
            None => None,
        }
    }

    /// The rows at a member or element path.
    pub fn search_path(&self, path: &str) -> (r: Option<Vec<u64>>)
        requires
            self.wf(),
        ensures
            r is Some <==> self.path_map().dom().contains(path@),
            r matches Some(v) ==> v@.to_set() == self.path_map()[path@] && v@.no_duplicates(),
    {
        match self.path_index.rows(path) {
            Some(v) => Some(v.clone()),
            None => None,
        }
    }

    /// The rows holding a leaf equal to the value; an array or object is never
    /// a leaf, so it finds no rows.
    pub fn search_value(&self, value: &Json) -> (r: Option<Vec<u64>>)
        requires
            self.wf(),
        ensures
            (value is Array || value is Object) ==> r is None,
            !(value is Array || value is Object) ==> {
                &&& r is Some <==> self.value_map().dom().contains(leaf_text(*value))
                &&& r matches Some(v) ==> v@.to_set() == self.value_map()[leaf_text(*value)] && v@.no_duplicates()
            },
    {
        match value {
            Json::Array(_) => None,
            Json::Object(_) => None,
            _ => {
                let t = leaf_text_of(value);
                match self.value_index.rows(t.as_str()) {
                    Some(v) => Some(v.clone()),
                    None => None,
                }
            },
        }
    }

    /// The rows holding at least one of the keys; `None` when there is none.
    pub fn search_any_key(&self, keys: &[String]) -> (r: Option<Vec<u64>>)
        requires
            self.wf(),
        ensures
            r is Some <==> any_rows(self.key_map(), texts(keys@)) != Set::<u64>::empty(),
            r matches Some(v) ==> v@.to_set() == any_rows(self.key_map(), texts(keys@)) && v@.no_duplicates(),
            r is None <==> forall|i: int| 0 <= i < keys@.len() ==> !self.key_map().dom().contains(#[trigger] keys@[i]@),
    {
        proof {
            self.lemma_rows_nonempty();
            lemma_any_rows_empty(self.key_map(), texts(keys@));
        }
        let ghost m = self.key_map();
        let ghost ts = texts(keys@);
        let mut result: Vec<u64> = Vec::new();
        let mut i: usize = 0;
        while i < keys.len()
            invariant
                self.wf(),
                m == self.key_map(),
                ts == texts(keys@),
                i <= keys@.len(),
                result@.no_duplicates(),
                result@.to_set() == any_rows(m, ts.subrange(0, i as int)),
            decreases keys@.len() - i,
        {
            let ghost before = result@;
            match self.index.rows(keys[i].as_str()) {
                Some(rows) => {
                    let mut j: usize = 0;
                    while j < rows.len()
                        invariant
                            i < keys@.len(),
                            m.dom().contains(ts[i as int]),
                            rows@.to_set() == m[ts[i as int]],
                            j <= rows@.len(),
                            result@.no_duplicates(),
                            result@.to_set() == before.to_set() + rows@.subrange(0, j as int).to_set(),
                        decreases rows@.len() - j,
                    {
                        let x = rows[j];
                        let ghost r0 = result@;
                        if !contains_u64(&result, x) {
                            result.push(x);
                        }
                        proof {
                            assert(rows@.subrange(0, j + 1) =~= rows@.subrange(0, j as int).push(x));
                            assert(rows@.subrange(0, j + 1).to_set() =~= rows@.subrange(0, j as int).to_set().insert(x)) by {
                                rows@.subrange(0, j as int).lemma_push_to_set_commute(x);
                            }
                            if !r0.contains(x) {
                                assert(result@ == r0.push(x));
                                r0.lemma_push_to_set_commute(x);
                            }
                            assert(result@.to_set() =~= before.to_set() + rows@.subrange(0, j + 1).to_set());
                        }
                        j = j + 1;
                    }
                    proof {
                        assert(rows@.subrange(0, rows@.len() as int) =~= rows@);
                        assert forall|r: u64| result@.to_set().contains(r) <==> #[trigger] any_rows(m, ts.subrange(0, i + 1)).contains(r) by {
                            let s1 = ts.subrange(0, i + 1);
                            let s0 = ts.subrange(0, i as int);
                            if any_rows(m, s1).contains(r) {
                                let k = choose|k: int| 0 <= k < s1.len() && m.dom().contains(s1[k]) && #[trigger] m[s1[k]].contains(r);
                                if k < i {
                                    assert(s0[k] == s1[k]);
                                    assert(any_rows(m, s0).contains(r));
                                }
                            }
                            if before.to_set().contains(r) {
                                let k = choose|k: int| 0 <= k < s0.len() && m.dom().contains(s0[k]) && #[trigger] m[s0[k]].contains(r);
                                assert(s1[k] == s0[k]);
                            }
                            if m[ts[i as int]].contains(r) {
                                assert(s1[i as int] == ts[i as int]);
                            }
                        }
                        assert(result@.to_set() =~= any_rows(m, ts.subrange(0, i + 1)));
                    }
                },
                None => {
                    proof {
                        assert forall|r: u64| result@.to_set().contains(r) <==> #[trigger] any_rows(m, ts.subrange(0, i + 1)).contains(r) by {
                            let s1 = ts.subrange(0, i + 1);
                            let s0 = ts.subrange(0, i as int);
                            if any_rows(m, s1).contains(r) {
                                let k = choose|k: int| 0 <= k < s1.len() && m.dom().contains(s1[k]) && #[trigger] m[s1[k]].contains(r);
                                assert(k != i);
                                assert(s0[k] == s1[k]);
                                assert(any_rows(m, s0).contains(r));
                            }
                            if any_rows(m, s0).contains(r) {
                                let k = choose|k: int| 0 <= k < s0.len() && m.dom().contains(s0[k]) && #[trigger] m[s0[k]].contains(r);
                                assert(s1[k] == s0[k]);
                            }
                        }
                        assert(result@.to_set() =~= any_rows(m, ts.subrange(0, i + 1)));
                    }
                },
            }
            i = i + 1;
        }
        proof {
            assert(ts.subrange(0, keys@.len() as int) =~= ts);
            assert forall|i: int| 0 <= i < keys@.len() implies #[trigger] ts[i] == keys@[i]@ by {}
            if exists|i: int| 0 <= i < keys@.len() && m.dom().contains(#[trigger] keys@[i]@) {
                let i = choose|i: int| 0 <= i < keys@.len() && m.dom().contains(#[trigger] keys@[i]@);
                assert(m.dom().contains(ts[i]));
            }
        }
        if result.len() == 0 {
            proof {
                assert(result@.to_set() =~= Set::<u64>::empty());
            }
            None
        } else {
            proof {
                assert(result@.to_set().contains(result@[0]));
            }
            Some(result)
        }
    }

    /// The rows holding every one of the keys; `None` when no key is given, a key
    /// is not indexed, or no row holds them all.
    pub fn search_all_keys(&self, keys: &[String]) -> (r: Option<Vec<u64>>)
        requires
            self.wf(),
        ensures
            r is Some <==> keys@.len() > 0 && all_present(self.key_map(), texts(keys@)) && all_rows(
                self.key_map(),
                texts(keys@),
            ) != Set::<u64>::empty(),
            r matches Some(v) ==> v@.to_set() == all_rows(self.key_map(), texts(keys@)) && v@.no_duplicates(),
    {
        let ghost m = self.key_map();
        let ghost ts = texts(keys@);
        if keys.len() == 0 {
            return None;
        }
        let mut result: Vec<u64> = match self.index.rows(keys[0].as_str()) {
            Some(v) => v.clone(),
            None => {
                proof {
                    assert(!m.dom().contains(ts[0]));
                }
                return None;
            },
        };
        proof {
            let s1 = ts.subrange(0, 1);
            assert(all_present(m, s1));
            assert forall|r: u64| result@.to_set().contains(r) <==> #[trigger] all_rows(m, s1).contains(r) by {
                if result@.to_set().contains(r) {
                    assert forall|k: int| 0 <= k < s1.len() implies #[trigger] m[s1[k]].contains(r) by {
                        assert(k == 0);
                    }
                }
                if all_rows(m, s1).contains(r) {
                    assert(m[s1[0]].contains(r));
                }
            }
            assert(result@.to_set() =~= all_rows(m, s1));
        }
        let mut i: usize = 1;
        while i < keys.len()
            invariant
                self.wf(),
                m == self.key_map(),
                ts == texts(keys@),
                1 <= i <= keys@.len(),
                all_present(m, ts.subrange(0, i as int)),
                result@.no_duplicates(),
                result@.to_set() == all_rows(m, ts.subrange(0, i as int)),
            decreases keys@.len() - i,
        {
            let rows = match self.index.rows(keys[i].as_str()) {
                Some(v) => v,
                None => {
                    proof {
                        assert(!m.dom().contains(ts[i as int]));
                    }
                    return None;
                },
            };
            let ghost before = result@;
            let mut kept: Vec<u64> = Vec::new();
            let mut j: usize = 0;
            while j < result.len()
                invariant
                    result@ == before,
                    before.no_duplicates(),
                    j <= before.len(),
                    kept@ == before.subrange(0, j as int).filter(|x: u64| rows@.contains(x)),
                    kept@.no_duplicates(),
                decreases before.len() - j,
            {
                let x = result[j];
                proof {
                    assert(before.subrange(0, j + 1) =~= before.subrange(0, j as int).push(x));
                    crate::text::lemma_filter_push(before.subrange(0, j as int), |x: u64| rows@.contains(x), x);
                }
                if contains_u64(rows, x) {
                    let ghost k0 = kept@;
                    proof {
                        if k0.contains(x) {
                            before.subrange(0, j as int).lemma_filter_contains_rev(|x: u64| rows@.contains(x), x);
                            let k = choose|k: int| 0 <= k < j && before.subrange(0, j as int)[k] == x;
                            assert(before[k] == before[j as int]);
                        }
                    }
                    kept.push(x);
                    proof {
                        assert forall|a: int, b: int| 0 <= a < kept@.len() && 0 <= b < kept@.len() && a != b implies kept@[a] != kept@[b] by {
                            if a < k0.len() && b < k0.len() {
                            } else if a < k0.len() {
                                assert(k0.contains(k0[a]));
                            } else {
                                assert(k0.contains(k0[b]));
                            }
                        }
                    }
                }
                j = j + 1;
            }
            proof {
                let f = |x: u64| rows@.contains(x);
                assert(before.subrange(0, before.len() as int) =~= before);
                let s0 = ts.subrange(0, i as int);
                let s1 = ts.subrange(0, i + 1);
                assert(all_present(m, s1)) by {
                    assert forall|k: int| 0 <= k < s1.len() implies m.dom().contains(#[trigger] s1[k]) by {
                        if k < i {
                            assert(s1[k] == s0[k]);
                        }
                    }
                }
                assert forall|r: u64| kept@.to_set().contains(r) <==> #[trigger] all_rows(m, s1).contains(r) by {
                    if kept@.to_set().contains(r) {
                        let k = choose|k: int| 0 <= k < kept@.len() && kept@[k] == r;
                        before.lemma_filter_pred(f, k);
                        assert(kept@.contains(r));
                        before.lemma_filter_contains_rev(f, r);
                        assert(before.to_set().contains(r));
                        assert(rows@.to_set().contains(r));
                        assert forall|q: int| 0 <= q < s1.len() implies #[trigger] m[s1[q]].contains(r) by {
                            if q < i {
                                assert(s1[q] == s0[q]);
                                assert(m[s0[q]].contains(r));
                            }
                        }
                    }
                    if all_rows(m, s1).contains(r) {
                        assert forall|q: int| 0 <= q < s0.len() implies #[trigger] m[s0[q]].contains(r) by {
                            assert(s1[q] == s0[q]);
                            assert(m[s1[q]].contains(r));
                        }
                        assert(all_rows(m, s0).contains(r));
                        assert(m[s1[i as int]].contains(r));
                        assert(rows@.to_set().contains(r));
                        let k = choose|k: int| 0 <= k < before.len() && before[k] == r;
                        before.lemma_filter_contains(f, k);
                    }
                }
                assert(kept@.to_set() =~= all_rows(m, s1));
            }
            result = kept;
            i = i + 1;
        }
        proof {
            assert(ts.subrange(0, keys@.len() as int) =~= ts);
        }
        if result.len() == 0 {
            proof {
                assert(result@.to_set() =~= Set::<u64>::empty());
            }
            None
        } else {
            proof {
                assert(result@.to_set().contains(result@[0]));
            }
            Some(result)
        }
    }

    /// Counters of the index.
    pub fn statistics(&self) -> (s: GinIndexStats)
        requires
            self.wf(),
        ensures
            (s.name, s.table_name, s.column_name) == self.ident(),
            s.total_keys == self.keys_counter(),
            s.total_paths == self.paths_counter(),
            s.total_values == self.value_count(),
            s.indexed_rows == self.rows_counter(),
    {
        proof {
            self.value_index.lemma_len();
        }
        GinIndexStats {
            name: self.name.clone(),
            table_name: self.table_name.clone(),
            column_name: self.column_name.clone(),
            total_keys: self.total_keys,
            total_paths: self.total_paths,
            total_values: self.value_index.len(),
            indexed_rows: self.indexed_rows,
        }
    }
}

/// Is `x` in the list?
fn contains_u64(v: &Vec<u64>, x: u64) -> (r: bool)
    ensures
        r == v@.contains(x),
{
    let mut i: usize = 0;
    while i < v.len()
        invariant
            i <= v@.len(),
            forall|k: int| 0 <= k < i ==> v@[k] != x,
        decreases v@.len() - i,
    {
        if v[i] == x {
            return true;
        }
        i = i + 1;
    }
    false
}

/// After a row is indexed under a set of texts, every one of those texts finds
/// the row, and every other text keeps its rows.
pub proof fn law_insert_indexes(m: Map<Seq<char>, Set<u64>>, ts: Set<Seq<char>>, row: u64)
    ensures
        forall|t: Seq<char>| #[trigger] ts.contains(t) ==> with_row(m, ts, row).dom().contains(t) && with_row(m, ts, row)[t].contains(row),
        forall|t: Seq<char>| !ts.contains(t) ==> (#[trigger] with_row(m, ts, row).dom().contains(t) <==> m.dom().contains(t)),
        forall|t: Seq<char>| !ts.contains(t) && m.dom().contains(t) ==> #[trigger] with_row(m, ts, row)[t] == m[t],
{
}

/// Deleting a row under the texts it was just indexed under gives back the index
/// as it was, when no list held that row before.
pub proof fn law_delete_undoes_insert(m: Map<Seq<char>, Set<u64>>, ts: Set<Seq<char>>, row: u64)
    requires
        forall|t: Seq<char>| #[trigger] m.dom().contains(t) ==> m[t] != Set::<u64>::empty() && !m[t].contains(row),
    ensures
        without_row(with_row(m, ts, row), ts, row) == m,
{
    let w = with_row(m, ts, row);
    let r = without_row(w, ts, row);
    assert forall|t: Seq<char>| r.dom().contains(t) <==> m.dom().contains(t) by {
        if ts.contains(t) {
            if m.dom().contains(t) {
                assert(w[t].remove(row) =~= m[t]);
            } else {
                assert(w[t].remove(row) =~= Set::<u64>::empty());
            }
        }
    }
    assert forall|t: Seq<char>| #[trigger] r.dom().contains(t) implies r[t] == m[t] by {
        if ts.contains(t) {
            assert(w[t].remove(row) =~= m[t]);
        }
    }
    assert(r =~= m);
}

impl GinIndex {
    /// No text of a well-formed index is held with an empty row set.
    pub proof fn lemma_rows_nonempty(&self)
        requires
            self.wf(),
        ensures
            forall|t: Seq<char>| #[trigger] self.key_map().dom().contains(t) ==> self.key_map()[t] != Set::<u64>::empty(),
            forall|t: Seq<char>| #[trigger] self.path_map().dom().contains(t) ==> self.path_map()[t] != Set::<u64>::empty(),
            forall|t: Seq<char>| #[trigger] self.value_map().dom().contains(t) ==> self.value_map()[t] != Set::<u64>::empty(),
    {
        self.index.lemma_nonempty();
        self.path_index.lemma_nonempty();
        self.value_index.lemma_nonempty();
    }
}

impl Postings {
    /// No text of well-formed lists is held with an empty row set.
    pub proof fn lemma_nonempty(&self)
        requires
            self.wf(),
        ensures
            forall|t: Seq<char>| #[trigger] self.map().dom().contains(t) ==> self.map()[t] != Set::<u64>::empty(),
    {
        assert forall|t: Seq<char>| #[trigger] self.map().dom().contains(t) implies self.map()[t] != Set::<u64>::empty() by {
            let e = self.entries@;
            let k = index_of_text(e, t);
            assert(e[k].1@.len() > 0);
            assert(e[k].1@.to_set().contains(e[k].1@[0]));
        }
    }
}

/// Every row holding all of the keys holds at least one of them, when at
/// least one key is given.
pub proof fn law_all_within_any(m: Map<Seq<char>, Set<u64>>, ts: Seq<Seq<char>>)
    requires
        ts.len() > 0,
        all_present(m, ts),
    ensures
        all_rows(m, ts).subset_of(any_rows(m, ts)),
{
    assert forall|r: u64| all_rows(m, ts).contains(r) implies any_rows(m, ts).contains(r) by {
        assert(m.dom().contains(ts[0]));
        assert(m[ts[0]].contains(r));
    }
}

} // verus!
