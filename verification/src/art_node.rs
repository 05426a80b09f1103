//! Node types of the adaptive radix tree.
//!
//! Four inner node kinds hold 4, 16, 48 and 256 children; a leaf holds a
//! full key and its row ids. Every inner node carries a header with the
//! compressed path (prefix) and the value of a key that ends at the node.
use vstd::prelude::*;

verus! {

/// Number of prefix bytes that `NodeHeader::get_prefix` reports.
pub const MAX_PREFIX_LEN: usize = 10;

/// Row id stored in the index.
pub type RowId = u64;

/// The smaller of two lengths.
pub open spec fn min_len(a: int, b: int) -> int {
    if a < b { a } else { b }
}

/// Byte-wise equality of two slices.
pub fn bytes_eq(a: &[u8], b: &[u8]) -> (r: bool)
    ensures
        r == (a@ == b@),
{
    if a.len() != b.len() {
        return false;
    }
    let mut i: usize = 0;
    while i < a.len()
        invariant
            a@.len() == b@.len(),
            i <= a@.len(),
            forall|j: int| 0 <= j < i ==> a@[j] == b@[j],
        decreases a@.len() - i,
    {
        if a[i] != b[i] {
            return false;
        }
        i = i + 1;
    }
    assert(a@ =~= b@);
    true
}

/// Copies a byte slice into a fresh vector.
pub fn bytes_to_vec(a: &[u8]) -> (r: Vec<u8>)
    ensures
        r@ == a@,
{
    let mut r: Vec<u8> = Vec::new();
    let mut i: usize = 0;
    while i < a.len()
        invariant
            i <= a@.len(),
            r@ == a@.subrange(0, i as int),
        decreases a@.len() - i,
    {
        r.push(a[i]);
        i = i + 1;
    }
    assert(r@ =~= a@);
    r
}

/// Header shared by the inner node kinds.
#[derive(Debug, Clone)]
pub struct NodeHeader {
    /// Number of children currently stored
    pub num_children: u16,
    /// Length of the compressed path
    pub prefix_len: u32,
    /// The compressed path, all of its bytes
    pub prefix: Vec<u8>,
    /// Value of the key that ends at this node (at most one is kept by the tree)
    pub values: Vec<RowId>,
}

impl NodeHeader {
    /// The value of the key that ends at this node, if any.
    pub open spec fn value_spec(&self) -> Option<RowId> {
        if self.values@.len() > 0 {
            Some(self.values@[0])
        } else {
            None
        }
    }

    /// The prefix bytes that `get_prefix` reports.
    pub open spec fn shown_prefix(&self) -> Seq<u8> {
        self.prefix@.subrange(0, min_len(self.prefix@.len() as int, MAX_PREFIX_LEN as int))
    }

    /// A header with no children, an empty prefix and no value.
    pub fn new() -> (h: Self)
        ensures
            h.num_children == 0,
            h.prefix_len == 0,
            h.prefix@ == Seq::<u8>::empty(),
            h.values@ == Seq::<RowId>::empty(),
    {
        NodeHeader { num_children: 0, prefix_len: 0, prefix: Vec::new(), values: Vec::new() }
    }

    /// Create a new header with the given prefix
    pub fn with_prefix(prefix: &[u8]) -> (h: Self)
        ensures
            h.num_children == 0,
            h.prefix@ == prefix@,
            h.prefix_len == prefix@.len() as u32,
            h.values@ == Seq::<RowId>::empty(),
    {
        let mut header = Self::new();
        header.set_prefix(prefix);
        header
    }

    /// Set the prefix
    pub fn set_prefix(&mut self, prefix: &[u8])
        ensures
            final(self).prefix@ == prefix@,
            final(self).prefix_len == prefix@.len() as u32,
            final(self).num_children == old(self).num_children,
            final(self).values@ == old(self).values@,
    {
        self.prefix_len = #[verifier::truncate] (prefix.len() as u32);
        self.prefix = bytes_to_vec(prefix);
    }

    /// Get the prefix bytes (up to MAX_PREFIX_LEN)
    pub fn get_prefix(&self) -> (r: Vec<u8>)
        ensures
            r@ == self.shown_prefix(),
    {
        let len = if self.prefix.len() < MAX_PREFIX_LEN { self.prefix.len() } else { MAX_PREFIX_LEN };
        let mut r: Vec<u8> = Vec::new();
        let mut i: usize = 0;
        while i < len
            invariant
                len <= self.prefix@.len(),
                len == min_len(self.prefix@.len() as int, MAX_PREFIX_LEN as int),
                i <= len,
                r@ == self.prefix@.subrange(0, i as int),
            decreases len - i,
        {
            r.push(self.prefix[i]);
            i = i + 1;
        }
        r
    }
}

impl Default for NodeHeader {
    fn default() -> (h: Self)
        ensures
            h.num_children == 0,
            h.prefix_len == 0,
            h.prefix@ == Seq::<u8>::empty(),
            h.values@ == Seq::<RowId>::empty(),
    {
        Self::new()
    }
}

/// Leaf node: the full key and its row ids (the primary one and any others)
#[derive(Debug, Clone)]
pub struct LeafNode {
    /// The full key for this leaf
    pub key: Vec<u8>,
    /// Primary row ID value
    primary: RowId,
    /// Additional row IDs for non-unique indexes
    extra: Vec<RowId>,
}

impl LeafNode {
    /// The full key.
    pub closed spec fn key_spec(&self) -> Seq<u8> {
        self.key@
    }

    /// The primary row id.
    pub closed spec fn primary_spec(&self) -> RowId {
        self.primary
    }

    /// The additional row ids, in order.
    pub closed spec fn extra_spec(&self) -> Seq<RowId> {
        self.extra@
    }

    /// All row ids: the primary one first, then the others.
    pub open spec fn values_spec(&self) -> Seq<RowId> {
        seq![self.primary_spec()] + self.extra_spec()
    }

    /// Create a new leaf node with a single value
    pub fn new(key: Vec<u8>, value: RowId) -> (l: Self)
        ensures
            l.key_spec() == key@,
            l.primary_spec() == value,
            l.extra_spec() == Seq::<RowId>::empty(),
    {
        LeafNode { key, primary: value, extra: Vec::new() }
    }

    /// Create a leaf node from multiple values
    pub fn from_values(key: Vec<u8>, primary: RowId, extra: Vec<RowId>) -> (l: Self)
        ensures
            l.key_spec() == key@,
            l.primary_spec() == primary,
            l.extra_spec() == extra@,
    {
        LeafNode { key, primary, extra }
    }

    /// Get the first (primary) value
    pub fn value(&self) -> (v: RowId)
        ensures
            v == self.primary_spec(),
    {
        self.primary
    }

    /// Get the total number of values
    pub fn values_count(&self) -> (n: usize)
        requires
            self.extra_spec().len() < usize::MAX,
        ensures
            n == self.values_spec().len(),
    {
        1 + self.extra.len()
    }

    /// Add an additional value
    pub fn push_value(&mut self, value: RowId)
        ensures
            final(self).key_spec() == old(self).key_spec(),
            final(self).primary_spec() == old(self).primary_spec(),
            final(self).extra_spec() == old(self).extra_spec().push(value),
    {
        self.extra.push(value);
    }

    /// All values in order: the primary one, then the others
    pub fn values_iter(&self) -> (r: Vec<RowId>)
        ensures
            r@ == self.values_spec(),
    {
        self.all_values()
    }

    /// Collect all values into a Vec
    pub fn all_values(&self) -> (r: Vec<RowId>)
        ensures
            r@ == self.values_spec(),
    {
        let mut v: Vec<RowId> = Vec::new();
        v.push(self.primary);
        let mut i: usize = 0;
        while i < self.extra.len()
            invariant
                i <= self.extra@.len(),
                v@ == seq![self.primary] + self.extra@.subrange(0, i as int),
            decreases self.extra@.len() - i,
        {
            v.push(self.extra[i]);
            i = i + 1;
            assert(v@ =~= seq![self.primary] + self.extra@.subrange(0, i as int));
        }
        assert(self.extra@.subrange(0, self.extra@.len() as int) =~= self.extra@);
        v
    }

    /// Take all values out, leaving primary 0 and no other values.
    /// Returns (primary, other values)
    pub fn take_values(&mut self) -> (r: (RowId, Vec<RowId>))
        ensures
            r.0 == old(self).primary_spec(),
            r.1@ == old(self).extra_spec(),
            final(self).key_spec() == old(self).key_spec(),
            final(self).primary_spec() == 0,
            final(self).extra_spec() == Seq::<RowId>::empty(),
    {
        let primary = self.primary;
        self.primary = 0;
        let mut extra: Vec<RowId> = Vec::new();
        std::mem::swap(&mut extra, &mut self.extra);
        (primary, extra)
    }

    /// Remove a specific row id. Returns (removed, now_empty).
    /// If the primary value is removed, the last other value takes its place;
    /// an other value is removed by moving the last one into its slot.
    pub fn remove_value(&mut self, row_id: RowId) -> (r: (bool, bool))
        ensures
            final(self).key_spec() == old(self).key_spec(),
            old(self).primary_spec() == row_id && old(self).extra_spec().len() > 0 ==> {
                &&& r == (true, false)
                &&& final(self).primary_spec() == old(self).extra_spec().last()
                &&& final(self).extra_spec() == old(self).extra_spec().drop_last()
            },
            old(self).primary_spec() == row_id && old(self).extra_spec().len() == 0 ==> {
                &&& r == (true, true)
                &&& final(self).primary_spec() == old(self).primary_spec()
                &&& final(self).extra_spec() == old(self).extra_spec()
            },
            old(self).primary_spec() != row_id && old(self).extra_spec().contains(row_id) ==> {
                &&& r == (true, false)
                &&& final(self).primary_spec() == old(self).primary_spec()
                &&& exists|pos: int|
                    0 <= pos < old(self).extra_spec().len() && old(self).extra_spec()[pos] == row_id
                        && (forall|j: int| 0 <= j < pos ==> old(self).extra_spec()[j] != row_id)
                        && final(self).extra_spec() == old(self).extra_spec().update(
                        pos,
                        old(self).extra_spec().last(),
                    ).drop_last()
            },
            old(self).primary_spec() != row_id && !old(self).extra_spec().contains(row_id) ==> {
                &&& r == (false, false)
                &&& final(self).primary_spec() == old(self).primary_spec()
                &&& final(self).extra_spec() == old(self).extra_spec()
            },
    {
        if self.primary == row_id {
            match self.extra.pop() {
                Some(replacement) => {
                    self.primary = replacement;
                    return (true, false);
                },
                None => {
                    return (true, true);
                },
            }
        }
        let mut i: usize = 0;
        while i < self.extra.len()
            invariant
                i <= self.extra@.len(),
                self.extra@ == old(self).extra@,
                self.primary == old(self).primary,
                self.key@ == old(self).key@,
                self.primary != row_id,
                forall|j: int| 0 <= j < i ==> self.extra@[j] != row_id,
            decreases self.extra@.len() - i,
        {
            if self.extra[i] == row_id {
                let ghost pos = i as int;
                self.extra.swap_remove(i);
                assert(self.extra@ =~= old(self).extra@.update(pos, old(self).extra@.last()).drop_last());
                return (true, false);
            }
            i = i + 1;
        }
        (false, false)
    }

    /// The key, as stored.
    pub fn key_ref(&self) -> (r: &Vec<u8>)
        ensures
            r@ == self.key_spec(),
    {
        &self.key
    }

    /// Check if the key matches
    pub fn matches(&self, key: &[u8]) -> (r: bool)
        ensures
            r == (self.key_spec() == key@),
    {
        bytes_eq(self.key.as_slice(), key)
    }
}


/// Slots `0..n` of `keys`/`children` hold the children, with distinct key bytes;
/// the slots from `n` up to the capacity are empty.
pub open spec fn slots_wf(keys: Seq<u8>, children: Seq<Option<ArtNode>>, n: int, cap: int) -> bool {
    &&& keys.len() == cap
    &&& children.len() == cap
    &&& 0 <= n <= cap
    &&& forall|i: int| 0 <= i < cap ==> (#[trigger] children[i] is Some <==> i < n)
    &&& forall|i: int, j: int| 0 <= i < j < n ==> keys[i] != keys[j]
}

/// Some slot below `n` holds key byte `b`.
pub open spec fn slots_has(keys: Seq<u8>, n: int, b: u8) -> bool {
    exists|i: int| 0 <= i < n && keys[i] == b
}

/// The slot below `n` that holds key byte `b`.
pub open spec fn slots_index(keys: Seq<u8>, n: int, b: u8) -> int {
    choose|i: int| 0 <= i < n && keys[i] == b
}

/// The child reached by key byte `b` in a slotted node.
pub open spec fn slots_child(keys: Seq<u8>, children: Seq<Option<ArtNode>>, n: int, b: u8) -> Option<ArtNode> {
    if slots_has(keys, n, b) && 0 <= slots_index(keys, n, b) < children.len() {
        children[slots_index(keys, n, b)]
    } else {
        None
    }
}

/// Number of occupied slots.
pub open spec fn count_some(s: Seq<Option<ArtNode>>) -> nat
    decreases s.len(),
{
    if s.len() == 0 {
        0
    } else {
        count_some(s.drop_last()) + if s.last() is Some { 1nat } else { 0nat }
    }
}

/// ART node
#[derive(Debug)]
pub enum ArtNode {
    /// Node with 1-4 children
    Node4(Box<Node4>),
    /// Node with 5-16 children
    Node16(Box<Node16>),
    /// Node with 17-48 children
    Node48(Box<Node48>),
    /// Node with 49-256 children
    Node256(Box<Node256>),
    /// Leaf node containing a value
    Leaf(LeafNode),
}

/// Node4: Compact node for 1-4 children
#[derive(Debug)]
pub struct Node4 {
    pub header: NodeHeader,
    /// Key bytes for each child
    pub keys: Vec<u8>,
    /// Child slots
    pub children: Vec<Option<ArtNode>>,
}

/// Node16: node for 5-16 children
#[derive(Debug)]
pub struct Node16 {
    pub header: NodeHeader,
    /// Key bytes for each child
    pub keys: Vec<u8>,
    /// Child slots
    pub children: Vec<Option<ArtNode>>,
}

/// Node48: node for 17-48 children with key index array
#[derive(Debug)]
pub struct Node48 {
    pub header: NodeHeader,
    /// Index array: maps key byte to child slot (255 = empty)
    pub child_index: Vec<u8>,
    /// Child slots (48)
    pub children: Vec<Option<ArtNode>>,
}

/// Node256: Node for 49-256 children with direct lookup
#[derive(Debug)]
pub struct Node256 {
    pub header: NodeHeader,
    /// Direct child array indexed by key byte
    pub children: Vec<Option<ArtNode>>,
}

impl Node48 {
    /// The index array and the child slots agree.
    pub open spec fn wf(&self) -> bool {
        &&& self.child_index@.len() == 256
        &&& self.children@.len() == 48
        &&& forall|b: int|
            0 <= b < 256 && #[trigger] self.child_index@[b] != 255 ==> self.child_index@[b] < 48
                && self.children@[self.child_index@[b] as int] is Some
        &&& forall|b1: int, b2: int|
            0 <= b1 < 256 && 0 <= b2 < 256 && b1 != b2 && #[trigger] self.child_index@[b1] != 255
                ==> self.child_index@[b1] != #[trigger] self.child_index@[b2]
        &&& forall|s: int|
            0 <= s < 48 && #[trigger] self.children@[s] is Some ==> exists|b: int|
                0 <= b < 256 && self.child_index@[b] == s
        &&& self.header.num_children == count_some(self.children@)
        &&& self.header.num_children == count_mapped(self.child_index@)
    }

    /// The child reached by key byte `b`.
    pub open spec fn child_spec(&self, b: u8) -> Option<ArtNode> {
        let s = self.child_index@[b as int];
        if (b as int) < self.child_index@.len() && s != 255 && s < self.children@.len() {
            self.children@[s as int]
        } else {
            None
        }
    }
}

impl Node256 {
    /// The child count matches the occupied slots.
    pub open spec fn wf(&self) -> bool {
        &&& self.children@.len() == 256
        &&& self.header.num_children == count_some(self.children@)
    }

    /// The child reached by key byte `b`.
    pub open spec fn child_spec(&self, b: u8) -> Option<ArtNode> {
        if (b as int) < self.children@.len() {
            self.children@[b as int]
        } else {
            None
        }
    }
}

impl ArtNode {
    /// The slots of an inner node are consistent.
    pub open spec fn local_wf(self) -> bool {
        match self {
            ArtNode::Node4(n) => slots_wf(n.keys@, n.children@, n.header.num_children as int, 4),
            ArtNode::Node16(n) => slots_wf(n.keys@, n.children@, n.header.num_children as int, 16),
            ArtNode::Node48(n) => n.wf(),
            ArtNode::Node256(n) => n.wf(),
            ArtNode::Leaf(_) => true,
        }
    }

    /// The header of an inner node.
    pub open spec fn hdr(self) -> NodeHeader {
        match self {
            ArtNode::Node4(n) => n.header,
            ArtNode::Node16(n) => n.header,
            ArtNode::Node48(n) => n.header,
            ArtNode::Node256(n) => n.header,
            ArtNode::Leaf(_) => arbitrary(),
        }
    }

    /// The child reached by key byte `b`.
    pub open spec fn child(self, b: u8) -> Option<ArtNode> {
        match self {
            ArtNode::Node4(n) => n.child_spec(b),
            ArtNode::Node16(n) => n.child_spec(b),
            ArtNode::Node48(n) => n.child_spec(b),
            ArtNode::Node256(n) => n.child_spec(b),
            ArtNode::Leaf(_) => None,
        }
    }
}

/// A child is smaller than its parent.
pub proof fn lemma_child_decreases(node: ArtNode, b: u8)
    ensures
        node.child(b) matches Some(c) ==> decreases_to!(node => c),
{
    match node {
        ArtNode::Node4(n) => {
            let k = n.header.num_children as int;
            if slots_has(n.keys@, k, b) {
                let i = slots_index(n.keys@, k, b);
                if 0 <= i < n.children@.len() {
                    lemma_slot_decreases(node, n.children, i);
                }
            }
        },
        ArtNode::Node16(n) => {
            let k = n.header.num_children as int;
            if slots_has(n.keys@, k, b) {
                let i = slots_index(n.keys@, k, b);
                if 0 <= i < n.children@.len() {
                    lemma_slot_decreases(node, n.children, i);
                }
            }
        },
        ArtNode::Node48(n) => {
            let s = n.child_index@[b as int];
            if (b as int) < n.child_index@.len() && s != 255 && s < n.children@.len() {
                lemma_slot_decreases(node, n.children, s as int);
            }
        },
        ArtNode::Node256(n) => {
            if (b as int) < n.children@.len() {
                lemma_slot_decreases(node, n.children, b as int);
            }
        },
        ArtNode::Leaf(_) => {},
    }
}

/// A child held in a slot of an inner node is smaller than the node.
proof fn lemma_slot_decreases(node: ArtNode, children: Vec<Option<ArtNode>>, i: int)
    requires
        0 <= i < children@.len(),
        match node {
            ArtNode::Node4(n) => n.children == children,
            ArtNode::Node16(n) => n.children == children,
            ArtNode::Node48(n) => n.children == children,
            ArtNode::Node256(n) => n.children == children,
            ArtNode::Leaf(_) => false,
        },
    ensures
        children@[i] matches Some(c) ==> decreases_to!(node => c),
{
    assert(decreases_to!(children => children@));
    assert(decreases_to!(children@ => children@[i]));
    if let Some(c) = children@[i] {
        assert(decreases_to!(children@[i] => c));
    }
    match node {
        ArtNode::Node4(n) => {
            assert(decreases_to!(node => n));
            assert(decreases_to!(n => n.children));
        },
        ArtNode::Node16(n) => {
            assert(decreases_to!(node => n));
            assert(decreases_to!(n => n.children));
        },
        ArtNode::Node48(n) => {
            assert(decreases_to!(node => n));
            assert(decreases_to!(n => n.children));
        },
        ArtNode::Node256(n) => {
            assert(decreases_to!(node => n));
            assert(decreases_to!(n => n.children));
        },
        ArtNode::Leaf(_) => {},
    }
}

/// The value stored for `key`, searching from `node` with `d` key bytes consumed.
pub open spec fn lookup(node: ArtNode, d: int, key: Seq<u8>) -> Option<RowId>
    decreases node,
{
    match node {
        ArtNode::Leaf(l) => if l.key_spec() == key {
            Some(l.primary_spec())
        } else {
            None
        },
        _ => {
            let pre = node.hdr().prefix@;
            let e = d + pre.len();
            if 0 <= d && e <= key.len() && key.subrange(d, e) == pre {
                if e == key.len() {
                    node.hdr().value_spec()
                } else {
                    match node.child(key[e]) {
                        Some(c) => {
                            proof {
                                lemma_child_decreases(node, key[e]);
                            }
                            lookup(c, e + 1, key)
                        },
                        None => None,
                    }
                }
            } else {
                None
            }
        },
    }
}


/// Every key in the subtree of `node`, reached along `path`, starts with `path`,
/// and every inner node's slots are consistent.
pub open spec fn tree_wf(node: ArtNode, path: Seq<u8>) -> bool
    decreases node,
    via tree_wf_decreases
{
    match node {
        ArtNode::Leaf(l) => path.is_prefix_of(l.key_spec()),
        _ => {
            &&& node.local_wf()
            &&& forall|b: u8| #[trigger] node.child(b) matches Some(c) ==> tree_wf(c, path + node.hdr().prefix@ + seq![b])
        },
    }
}

#[via_fn]
proof fn tree_wf_decreases(node: ArtNode, path: Seq<u8>) {
    assert forall|b: u8| #[trigger] node.child(b) is Some implies decreases_to!(node => node.child(b)->Some_0) by {
        lemma_child_decreases(node, b);
    }
}


/// `r` refers to the node that `o` holds.
pub open spec fn ref_matches(r: Option<&ArtNode>, o: Option<ArtNode>) -> bool {
    match r {
        Some(c) => o == Some(*c),
        None => o is None,
    }
}

/// The headers agree in everything but the child count.
pub open spec fn same_header_but_count(h1: NodeHeader, h2: NodeHeader) -> bool {
    &&& h1.prefix@ == h2.prefix@
    &&& h1.prefix_len == h2.prefix_len
    &&& h1.values@ == h2.values@
}

/// The child in slot `i` of a consistent slotted node is the one its key byte reaches.
pub proof fn lemma_slots_child_at(keys: Seq<u8>, ch: Seq<Option<ArtNode>>, n: int, cap: int, i: int)
    requires
        slots_wf(keys, ch, n, cap),
        0 <= i < n,
    ensures
        slots_has(keys, n, keys[i]),
        slots_index(keys, n, keys[i]) == i,
        slots_child(keys, ch, n, keys[i]) == ch[i],
{
    let b = keys[i];
    assert(0 <= i < n && keys[i] == b);
    let j = slots_index(keys, n, b);
    if j != i {
        if j < i {
            assert(keys[j] != keys[i]);
        } else {
            assert(keys[i] != keys[j]);
        }
    }
}

/// A byte that no slot holds reaches no child.
pub proof fn lemma_slots_child_none(keys: Seq<u8>, ch: Seq<Option<ArtNode>>, n: int, b: u8)
    requires
        forall|i: int| 0 <= i < n ==> keys[i] != b,
    ensures
        !slots_has(keys, n, b),
        slots_child(keys, ch, n, b) is None,
{
}

/// Number of occupied slots after one slot changes.
pub proof fn lemma_count_some_update(s: Seq<Option<ArtNode>>, i: int, x: Option<ArtNode>)
    requires
        0 <= i < s.len(),
    ensures
        count_some(s.update(i, x)) + (if s[i] is Some { 1int } else { 0int }) == count_some(s) + (if x is Some { 1int } else { 0int }),
    decreases s.len(),
{
    let t = s.update(i, x);
    if i == s.len() - 1 {
        assert(t.drop_last() =~= s.drop_last());
    } else {
        lemma_count_some_update(s.drop_last(), i, x);
        assert(t.drop_last() =~= s.drop_last().update(i, x));
    }
}

/// The occupied slots are no more than the slots; when fewer, a slot is free.
pub proof fn lemma_count_some_bound(s: Seq<Option<ArtNode>>)
    ensures
        count_some(s) <= s.len(),
        count_some(s) < s.len() ==> exists|i: int| 0 <= i < s.len() && s[i] is None,
        count_some(s) == s.len() ==> forall|i: int| 0 <= i < s.len() ==> s[i] is Some,
    decreases s.len(),
{
    if s.len() > 0 {
        lemma_count_some_bound(s.drop_last());
        if count_some(s) < s.len() {
            if s.last() is None {
                assert(s[s.len() - 1] is None);
            } else {
                let i = choose|i: int| 0 <= i < s.drop_last().len() && s.drop_last()[i] is None;
                assert(s[i] is None);
            }
        }
        if count_some(s) == s.len() {
            assert forall|i: int| 0 <= i < s.len() implies s[i] is Some by {
                if i < s.len() - 1 {
                    assert(s.drop_last()[i] is Some);
                }
            }
        }
    }
}

/// A sequence of empty slots holds no child.
pub proof fn lemma_count_some_none(s: Seq<Option<ArtNode>>)
    requires
        forall|i: int| 0 <= i < s.len() ==> s[i] is None,
    ensures
        count_some(s) == 0,
    decreases s.len(),
{
    if s.len() > 0 {
        lemma_count_some_none(s.drop_last());
    }
}

/// `cap` empty child slots.
pub fn empty_slots(cap: usize) -> (r: Vec<Option<ArtNode>>)
    ensures
        r@.len() == cap,
        forall|i: int| 0 <= i < cap ==> #[trigger] r@[i] is None,
        count_some(r@) == 0,
{
    let mut r: Vec<Option<ArtNode>> = Vec::new();
    let mut i: usize = 0;
    while i < cap
        invariant
            i <= cap,
            r@.len() == i,
            forall|j: int| 0 <= j < i ==> #[trigger] r@[j] is None,
        decreases cap - i,
    {
        r.push(None);
        i = i + 1;
    }
    proof {
        lemma_count_some_none(r@);
    }
    r
}

/// `cap` copies of byte `v`.
pub fn filled_bytes(cap: usize, v: u8) -> (r: Vec<u8>)
    ensures
        r@.len() == cap,
        forall|i: int| 0 <= i < cap ==> #[trigger] r@[i] == v,
{
    let mut r: Vec<u8> = Vec::new();
    let mut i: usize = 0;
    while i < cap
        invariant
            i <= cap,
            r@.len() == i,
            forall|j: int| 0 <= j < i ==> #[trigger] r@[j] == v,
        decreases cap - i,
    {
        r.push(v);
        i = i + 1;
    }
    r
}

/// The slot below `n` whose key byte is `b`.
fn slots_find(keys: &Vec<u8>, n: u16, b: u8) -> (r: Option<usize>)
    requires
        n as int <= keys@.len(),
    ensures
        r matches Some(i) ==> i < n && keys@[i as int] == b,
        r is None ==> forall|i: int| 0 <= i < n ==> keys@[i] != b,
{
    let mut i: usize = 0;
    while i < n as usize
        invariant
            n as int <= keys@.len(),
            i <= n,
            forall|j: int| 0 <= j < i ==> keys@[j] != b,
        decreases n - i,
    {
        if keys[i] == b {
            return Some(i);
        }
        i = i + 1;
    }
    None
}


impl Node4 {
    /// The child reached by key byte `b`.
    pub open spec fn child_spec(&self, b: u8) -> Option<ArtNode> {
        slots_child(self.keys@, self.children@, self.header.num_children as int, b)
    }

    /// Slots `0..num_children` hold the children, with distinct key bytes.
    pub open spec fn wf(&self) -> bool {
        slots_wf(self.keys@, self.children@, self.header.num_children as int, 4)
    }

    /// Create a new empty node
    pub fn new() -> (n: Self)
        ensures
            n.wf(),
            n.header.num_children == 0,
            n.header.prefix_len == 0,
            n.header.prefix@ == Seq::<u8>::empty(),
            n.header.values@ == Seq::<RowId>::empty(),
            forall|b: u8| #[trigger] n.child_spec(b) is None,
    {
        Node4 { header: NodeHeader::new(), keys: filled_bytes(4, 0), children: empty_slots(4) }
    }

    /// Create a node with a prefix
    pub fn with_prefix(prefix: &[u8]) -> (n: Self)
        ensures
            n.wf(),
            n.header.num_children == 0,
            n.header.prefix@ == prefix@,
            n.header.prefix_len == prefix@.len() as u32,
            n.header.values@ == Seq::<RowId>::empty(),
            forall|b: u8| #[trigger] n.child_spec(b) is None,
    {
        Node4 { header: NodeHeader::with_prefix(prefix), keys: filled_bytes(4, 0), children: empty_slots(4) }
    }

    /// Check if the node is full
    pub fn is_full(&self) -> (r: bool)
        ensures
            r == (self.header.num_children >= 4),
    {
        self.header.num_children >= 4
    }

    /// Find the slot for a key byte
    pub fn find_child_index(&self, key: u8) -> (r: Option<usize>)
        requires
            self.header.num_children as int <= self.keys@.len(),
        ensures
            r matches Some(i) ==> i < self.header.num_children && self.keys@[i as int] == key
                && forall|j: int| 0 <= j < i ==> self.keys@[j] != key,
            r is None ==> forall|j: int| 0 <= j < self.header.num_children ==> self.keys@[j] != key,
    {
        let n = self.header.num_children as usize;
        let mut i: usize = 0;
        while i < n
            invariant
                n == self.header.num_children,
                n <= self.keys@.len(),
                i <= n,
                forall|j: int| 0 <= j < i ==> self.keys@[j] != key,
            decreases n - i,
        {
            if self.keys[i] == key {
                return Some(i);
            }
            i = i + 1;
        }
        None
    }

    /// Get a child by key byte
    pub fn get_child(&self, key: u8) -> (r: Option<&ArtNode>)
        requires
            self.wf(),
        ensures
            ref_matches(r, self.child_spec(key)),
    {
        match self.find_child_index(key) {
            Some(i) => {
                proof {
                    lemma_slots_child_at(self.keys@, self.children@, self.header.num_children as int, 4, i as int);
                }
                self.children[i].as_ref()
            },
            None => {
                proof {
                    lemma_slots_child_none(self.keys@, self.children@, self.header.num_children as int, key);
                }
                None
            },
        }
    }

    /// Get a mutable child by key byte
    pub fn get_child_mut(&mut self, key: u8) -> (r: Option<&mut ArtNode>)
        requires
            old(self).wf(),
        ensures
            r is Some <==> old(self).child_spec(key) is Some,
            r matches Some(c) ==> {
                &&& old(self).child_spec(key) == Some(*c)
                &&& final(self).child_spec(key) == Some(*final(c))
            },
            final(self).wf(),
            final(self).header == old(self).header,
            forall|b: u8| b != key ==> #[trigger] final(self).child_spec(b) == old(self).child_spec(b),
    {
        match self.find_child_index(key) {
            Some(i) => {
                proof {
                    lemma_slots_child_at(self.keys@, self.children@, self.header.num_children as int, 4, i as int);
                }
                let r = self.children[i].as_mut();
                r
            },
            None => {
                proof {
                    lemma_slots_child_none(self.keys@, self.children@, self.header.num_children as int, key);
                }
                None
            },
        }
    }

    /// Add a child (returns false if full); a child already held for the
    /// same key byte is replaced.
    pub fn add_child(&mut self, key: u8, child: ArtNode) -> (r: bool)
        requires
            old(self).wf(),
        ensures
            r == (old(self).header.num_children < 4),
            !r ==> *final(self) == *old(self),
            r ==> {
                &&& final(self).wf()
                &&& same_header_but_count(final(self).header, old(self).header)
                &&& final(self).child_spec(key) == Some(child)
                &&& forall|b: u8| b != key ==> #[trigger] final(self).child_spec(b) == old(self).child_spec(b)
                &&& final(self).header.num_children == old(self).header.num_children + if old(self).child_spec(key) is Some { 0int } else { 1int }
            },
    {
        if self.is_full() {
            return false;
        }
        let ghost n0 = self.header.num_children as int;
        let ghost keys0 = self.keys@;
        let ghost ch0 = self.children@;
        match self.find_child_index(key) {
            Some(i) => {
                proof {
                    lemma_slots_child_at(keys0, ch0, n0, 4, i as int);
                }
                self.children.set(i, Some(child));
                proof {
                    lemma_slots_child_at(self.keys@, self.children@, n0, 4, i as int);
                    assert forall|b: u8| b != key implies #[trigger] self.child_spec(b) == old(self).child_spec(b) by {
                        if slots_has(keys0, n0, b) {
                            let j = slots_index(keys0, n0, b);
                            lemma_slots_child_at(keys0, ch0, n0, 4, j);
                            lemma_slots_child_at(self.keys@, self.children@, n0, 4, j);
                        } else {
                            lemma_slots_child_none(self.keys@, self.children@, n0, b);
                        }
                    }
                }
            },
            None => {
                proof {
                    lemma_slots_child_none(keys0, ch0, n0, key);
                }
                let idx = self.header.num_children as usize;
                self.keys.set(idx, key);
                self.children.set(idx, Some(child));
                self.header.num_children = self.header.num_children + 1;
                proof {
                    let n1 = n0 + 1;
                    assert(slots_wf(self.keys@, self.children@, n1, 4));
                    lemma_slots_child_at(self.keys@, self.children@, n1, 4, n0);
                    assert forall|b: u8| b != key implies #[trigger] self.child_spec(b) == old(self).child_spec(b) by {
                        if slots_has(keys0, n0, b) {
                            let j = slots_index(keys0, n0, b);
                            lemma_slots_child_at(keys0, ch0, n0, 4, j);
                            lemma_slots_child_at(self.keys@, self.children@, n1, 4, j);
                        } else {
                            lemma_slots_child_none(self.keys@, self.children@, n1, b);
                        }
                    }
                }
            },
        }
        true
    }

    /// Remove a child; the last child moves into the freed slot
    pub fn remove_child(&mut self, key: u8) -> (r: Option<ArtNode>)
        requires
            old(self).wf(),
        ensures
            r == old(self).child_spec(key),
            final(self).wf(),
            same_header_but_count(final(self).header, old(self).header),
            final(self).child_spec(key) is None,
            forall|b: u8| b != key ==> #[trigger] final(self).child_spec(b) == old(self).child_spec(b),
            final(self).header.num_children == old(self).header.num_children - if r is Some { 1int } else { 0int },
    {
        let ghost n0 = self.header.num_children as int;
        let ghost keys0 = self.keys@;
        let ghost ch0 = self.children@;
        match self.find_child_index(key) {
            Some(idx) => {
                proof {
                    lemma_slots_child_at(keys0, ch0, n0, 4, idx as int);
                }
                let child = self.children[idx].take();
                let last_idx = (self.header.num_children - 1) as usize;
                if idx != last_idx {
                    let k = self.keys[last_idx];
                    self.keys.set(idx, k);
                    let moved = self.children[last_idx].take();
                    self.children.set(idx, moved);
                }
                self.header.num_children = self.header.num_children - 1;
                proof {
                    let n1 = n0 - 1;
                    assert forall|i: int| 0 <= i < 4 implies (#[trigger] self.children@[i] is Some <==> i < n1) by {
                        if i == last_idx as int {
                        } else if i == idx as int {
                        } else {
                            assert(self.children@[i] == ch0[i]);
                        }
                    }
                    assert forall|i: int, j: int| 0 <= i < j < n1 implies self.keys@[i] != self.keys@[j] by {
                        let oi = if i == idx as int { last_idx as int } else { i };
                        let oj = if j == idx as int { last_idx as int } else { j };
                        assert(self.keys@[i] == keys0[oi]);
                        assert(self.keys@[j] == keys0[oj]);
                    }
                    assert(slots_wf(self.keys@, self.children@, n1, 4));
                    assert forall|i: int| 0 <= i < n1 implies self.keys@[i] != key by {
                        let oi = if i == idx as int { last_idx as int } else { i };
                        assert(self.keys@[i] == keys0[oi]);
                    }
                    lemma_slots_child_none(self.keys@, self.children@, n1, key);
                    assert forall|b: u8| b != key implies #[trigger] self.child_spec(b) == old(self).child_spec(b) by {
                        if slots_has(keys0, n0, b) {
                            let j = slots_index(keys0, n0, b);
                            lemma_slots_child_at(keys0, ch0, n0, 4, j);
                            let nj = if j == last_idx as int { idx as int } else { j };
                            assert(self.keys@[nj] == b);
                            lemma_slots_child_at(self.keys@, self.children@, n1, 4, nj);
                        } else {
                            assert forall|i: int| 0 <= i < n1 implies self.keys@[i] != b by {
                                let oi = if i == idx as int { last_idx as int } else { i };
                                assert(self.keys@[i] == keys0[oi]);
                            }
                            lemma_slots_child_none(self.keys@, self.children@, n1, b);
                        }
                    }
                }
                child
            },
            None => {
                proof {
                    lemma_slots_child_none(keys0, ch0, n0, key);
                }
                None
            },
        }
    }

    /// The children with their key bytes, in slot order
    pub fn iter_children(&self) -> (r: Vec<(u8, &ArtNode)>)
        requires
            self.wf(),
        ensures
            r@.len() == self.header.num_children,
            forall|i: int| 0 <= i < r@.len() ==> (#[trigger] r@[i]).0 == self.keys@[i] && self.children@[i] == Some(*r@[i].1),
    {
        let n = self.header.num_children as usize;
        let mut r: Vec<(u8, &ArtNode)> = Vec::new();
        let mut i: usize = 0;
        while i < n
            invariant
                self.wf(),
                n == self.header.num_children,
                i <= n,
                r@.len() == i,
                forall|j: int| 0 <= j < i ==> (#[trigger] r@[j]).0 == self.keys@[j] && self.children@[j] == Some(*r@[j].1),
            decreases n - i,
        {
            match self.children[i].as_ref() {
                Some(c) => {
                    r.push((self.keys[i], c));
                },
                None => {},
            }
            i = i + 1;
        }
        r
    }
}

impl Default for Node4 {
    fn default() -> (n: Self)
        ensures
            n.wf(),
            n.header.num_children == 0,
            n.header.prefix_len == 0,
            n.header.prefix@ == Seq::<u8>::empty(),
            n.header.values@ == Seq::<RowId>::empty(),
    {
        Self::new()
    }
}


/// Number of index entries that name a slot (are not 255).
pub open spec fn count_mapped(s: Seq<u8>) -> nat
    decreases s.len(),
{
    if s.len() == 0 {
        0
    } else {
        count_mapped(s.drop_last()) + if s.last() != 255 { 1nat } else { 0nat }
    }
}

/// Number of mapped entries after one entry changes.
pub proof fn lemma_count_mapped_update(s: Seq<u8>, i: int, x: u8)
    requires
        0 <= i < s.len(),
    ensures
        count_mapped(s.update(i, x)) + (if s[i] != 255 { 1int } else { 0int }) == count_mapped(s) + (if x != 255 { 1int } else { 0int }),
    decreases s.len(),
{
    let t = s.update(i, x);
    if i == s.len() - 1 {
        assert(t.drop_last() =~= s.drop_last());
    } else {
        lemma_count_mapped_update(s.drop_last(), i, x);
        assert(t.drop_last() =~= s.drop_last().update(i, x));
    }
}

/// An index with no mapped entries counts zero.
pub proof fn lemma_count_mapped_none(s: Seq<u8>)
    requires
        forall|i: int| 0 <= i < s.len() ==> s[i] == 255,
    ensures
        count_mapped(s) == 0,
    decreases s.len(),
{
    if s.len() > 0 {
        lemma_count_mapped_none(s.drop_last());
    }
}

/// Slots that are occupied exactly below `n` count `n`.
pub proof fn lemma_count_some_prefix(s: Seq<Option<ArtNode>>, n: int)
    requires
        0 <= n <= s.len(),
        forall|i: int| 0 <= i < s.len() ==> (#[trigger] s[i] is Some <==> i < n),
    ensures
        count_some(s) == n,
    decreases s.len(),
{
    if s.len() > 0 {
        if n == s.len() {
            lemma_count_some_prefix(s.drop_last(), n - 1);
        } else {
            lemma_count_some_prefix(s.drop_last(), n);
        }
    }
}

/// Counting mapped entries one more step along.
pub proof fn lemma_count_mapped_step(s: Seq<u8>, k: int)
    requires
        0 <= k < s.len(),
    ensures
        count_mapped(s.subrange(0, k + 1)) == count_mapped(s.subrange(0, k)) + if s[k] != 255 { 1int } else { 0int },
{
    assert(s.subrange(0, k + 1).drop_last() =~= s.subrange(0, k));
}

/// Counting occupied slots one more step along.
pub proof fn lemma_count_some_step(s: Seq<Option<ArtNode>>, k: int)
    requires
        0 <= k < s.len(),
    ensures
        count_some(s.subrange(0, k + 1)) == count_some(s.subrange(0, k)) + if s[k] is Some { 1int } else { 0int },
{
    assert(s.subrange(0, k + 1).drop_last() =~= s.subrange(0, k));
}

impl Node16 {
    /// The child reached by key byte `b`.
    pub open spec fn child_spec(&self, b: u8) -> Option<ArtNode> {
        slots_child(self.keys@, self.children@, self.header.num_children as int, b)
    }

    /// Slots `0..num_children` hold the children, with distinct key bytes.
    pub open spec fn wf(&self) -> bool {
        slots_wf(self.keys@, self.children@, self.header.num_children as int, 16)
    }

    /// The key bytes of the children are in increasing order.
    pub open spec fn keys_sorted(&self) -> bool {
        forall|i: int, j: int| 0 <= i < j < self.header.num_children ==> self.keys@[i] < self.keys@[j]
    }

    /// Create a new empty node
    pub fn new() -> (n: Self)
        ensures
            n.wf(),
            n.header.num_children == 0,
            n.header.prefix_len == 0,
            n.header.prefix@ == Seq::<u8>::empty(),
            n.header.values@ == Seq::<RowId>::empty(),
            forall|b: u8| #[trigger] n.child_spec(b) is None,
            n.keys_sorted(),
    {
        Node16 { header: NodeHeader::new(), keys: filled_bytes(16, 0), children: empty_slots(16) }
    }

    /// Create a node with a prefix
    pub fn with_prefix(prefix: &[u8]) -> (n: Self)
        ensures
            n.wf(),
            n.header.num_children == 0,
            n.header.prefix@ == prefix@,
            n.header.prefix_len == prefix@.len() as u32,
            n.header.values@ == Seq::<RowId>::empty(),
            forall|b: u8| #[trigger] n.child_spec(b) is None,
            n.keys_sorted(),
    {
        Node16 { header: NodeHeader::with_prefix(prefix), keys: filled_bytes(16, 0), children: empty_slots(16) }
    }

    /// Check if the node is full
    pub fn is_full(&self) -> (r: bool)
        ensures
            r == (self.header.num_children >= 16),
    {
        self.header.num_children >= 16
    }

    /// Find the slot for a key byte
    pub fn find_child_index(&self, key: u8) -> (r: Option<usize>)
        requires
            self.header.num_children as int <= self.keys@.len(),
        ensures
            r matches Some(i) ==> i < self.header.num_children && self.keys@[i as int] == key
                && forall|j: int| 0 <= j < i ==> self.keys@[j] != key,
            r is None ==> forall|j: int| 0 <= j < self.header.num_children ==> self.keys@[j] != key,
    {
        let n = self.header.num_children as usize;
        let mut i: usize = 0;
        while i < n
            invariant
                n == self.header.num_children,
                n <= self.keys@.len(),
                i <= n,
                forall|j: int| 0 <= j < i ==> self.keys@[j] != key,
            decreases n - i,
        {
            if self.keys[i] == key {
                return Some(i);
            }
            i = i + 1;
        }
        None
    }

    /// Get a child by key byte
    pub fn get_child(&self, key: u8) -> (r: Option<&ArtNode>)
        requires
            self.wf(),
        ensures
            ref_matches(r, self.child_spec(key)),
    {
        match self.find_child_index(key) {
            Some(i) => {
                proof {
                    lemma_slots_child_at(self.keys@, self.children@, self.header.num_children as int, 16, i as int);
                }
                self.children[i].as_ref()
            },
            None => {
                proof {
                    lemma_slots_child_none(self.keys@, self.children@, self.header.num_children as int, key);
                }
                None
            },
        }
    }

    /// Get a mutable child by key byte
    pub fn get_child_mut(&mut self, key: u8) -> (r: Option<&mut ArtNode>)
        requires
            old(self).wf(),
        ensures
            r is Some <==> old(self).child_spec(key) is Some,
            r matches Some(c) ==> {
                &&& old(self).child_spec(key) == Some(*c)
                &&& final(self).child_spec(key) == Some(*final(c))
            },
            final(self).wf(),
            final(self).header == old(self).header,
            forall|b: u8| b != key ==> #[trigger] final(self).child_spec(b) == old(self).child_spec(b),
    {
        match self.find_child_index(key) {
            Some(i) => {
                proof {
                    lemma_slots_child_at(self.keys@, self.children@, self.header.num_children as int, 16, i as int);
                }
                let r = self.children[i].as_mut();
                r
            },
            None => {
                proof {
                    lemma_slots_child_none(self.keys@, self.children@, self.header.num_children as int, key);
                }
                None
            },
        }
    }

    /// Add a child (returns false if full); a child already held for the
    /// same key byte is replaced. A new key byte takes its place in order,
    /// so keys in increasing order stay so.
    pub fn add_child(&mut self, key: u8, child: ArtNode) -> (r: bool)
        requires
            old(self).wf(),
        ensures
            r == (old(self).header.num_children < 16),
            !r ==> *final(self) == *old(self),
            r ==> {
                &&& final(self).wf()
                &&& same_header_but_count(final(self).header, old(self).header)
                &&& final(self).child_spec(key) == Some(child)
                &&& forall|b: u8| b != key ==> #[trigger] final(self).child_spec(b) == old(self).child_spec(b)
                &&& final(self).header.num_children == old(self).header.num_children + if old(self).child_spec(key) is Some { 0int } else { 1int }
                &&& (old(self).keys_sorted() ==> final(self).keys_sorted())
                &&& final(self).header == (NodeHeader { num_children: final(self).header.num_children, ..old(self).header })
            },
    {
        if self.is_full() {
            return false;
        }
        let ghost n0 = self.header.num_children as int;
        let ghost keys0 = self.keys@;
        let ghost ch0 = self.children@;
        match self.find_child_index(key) {
            Some(i) => {
                proof {
                    lemma_slots_child_at(keys0, ch0, n0, 16, i as int);
                }
                self.children.set(i, Some(child));
                proof {
                    lemma_slots_child_at(self.keys@, self.children@, n0, 16, i as int);
                    assert forall|b: u8| b != key implies #[trigger] self.child_spec(b) == old(self).child_spec(b) by {
                        if slots_has(keys0, n0, b) {
                            let j = slots_index(keys0, n0, b);
                            lemma_slots_child_at(keys0, ch0, n0, 16, j);
                            lemma_slots_child_at(self.keys@, self.children@, n0, 16, j);
                        } else {
                            lemma_slots_child_none(self.keys@, self.children@, n0, b);
                        }
                    }
                }
            },
            None => {
                proof {
                    lemma_slots_child_none(keys0, ch0, n0, key);
                }
                let n = self.header.num_children as usize;
                let mut p: usize = 0;
                while p < n && self.keys[p] < key
                    invariant
                        p <= n,
                        n == n0,
                        n0 < 16,
                        self.keys@ == keys0,
                        self.children@ == ch0,
                        keys0.len() == 16,
                        forall|q: int| 0 <= q < p ==> keys0[q] < key,
                    decreases n - p,
                {
                    p = p + 1;
                }
                let mut j: usize = n;
                while j > p
                    invariant
                        p <= j <= n,
                        n == n0,
                        n0 < 16,
                        self.header == old(self).header,
                        slots_wf(keys0, ch0, n0, 16),
                        self.keys@.len() == 16,
                        self.children@.len() == 16,
                        forall|i: int| 0 <= i < j ==> self.keys@[i] == keys0[i] && self.children@[i] == ch0[i],
                        self.children@[j as int] is None,
                        forall|i: int| j < i <= n ==> self.keys@[i] == keys0[i - 1] && self.children@[i] == ch0[i - 1],
                        forall|i: int| n < i < 16 ==> self.children@[i] == ch0[i],
                    decreases j,
                {
                    let k = self.keys[j - 1];
                    self.keys.set(j, k);
                    let moved = self.children[j - 1].take();
                    self.children.set(j, moved);
                    j = j - 1;
                }
                self.keys.set(p, key);
                self.children.set(p, Some(child));
                self.header.num_children = self.header.num_children + 1;
                proof {
                    let n1 = n0 + 1;
                    let pp = p as int;
                    let nk = self.keys@;
                    let nc = self.children@;
                    assert forall|i: int| 0 <= i < 16 implies (#[trigger] nc[i] is Some <==> i < n1) by {
                        if i < pp {
                            assert(nc[i] == ch0[i]);
                            assert(ch0[i] is Some);
                        } else if i == pp {
                            assert(nc[i] == Some(child));
                        } else if i <= n0 {
                            assert(nc[i] == ch0[i - 1]);
                            assert(ch0[i - 1] is Some);
                        } else {
                            assert(nc[i] == ch0[i]);
                            assert(!(ch0[i] is Some));
                        }
                    }
                    assert forall|i: int| 0 <= i < n1 implies #[trigger] nk[i] == (if i < pp { keys0[i] } else if i == pp { key } else { keys0[i - 1] }) by {}
                    assert forall|i: int, k: int| 0 <= i < k < n1 implies nk[i] != nk[k] by {
                        assert(nk[i] == (if i < pp { keys0[i] } else if i == pp { key } else { keys0[i - 1] }));
                        assert(nk[k] == (if k < pp { keys0[k] } else if k == pp { key } else { keys0[k - 1] }));
                    }
                    assert(slots_wf(nk, nc, n1, 16));
                    lemma_slots_child_at(nk, nc, n1, 16, pp);
                    assert(nk[pp] == key);
                    assert forall|b: u8| b != key implies #[trigger] self.child_spec(b) == old(self).child_spec(b) by {
                        if slots_has(keys0, n0, b) {
                            let q = slots_index(keys0, n0, b);
                            lemma_slots_child_at(keys0, ch0, n0, 16, q);
                            let nq = if q < pp { q } else { q + 1 };
                            assert(nk[nq] == (if nq < pp { keys0[nq] } else if nq == pp { key } else { keys0[nq - 1] }));
                            assert(nk[nq] == b);
                            lemma_slots_child_at(nk, nc, n1, 16, nq);
                        } else {
                            assert forall|i: int| 0 <= i < n1 implies nk[i] != b by {
                                assert(nk[i] == (if i < pp { keys0[i] } else if i == pp { key } else { keys0[i - 1] }));
                            }
                            lemma_slots_child_none(nk, nc, n1, b);
                        }
                    }
                    if old(self).keys_sorted() {
                        if pp < n0 {
                            assert(keys0[pp] != key);
                        }
                        assert forall|i: int, k: int| 0 <= i < k < n1 implies nk[i] < nk[k] by {
                            assert(nk[i] == (if i < pp { keys0[i] } else if i == pp { key } else { keys0[i - 1] }));
                            assert(nk[k] == (if k < pp { keys0[k] } else if k == pp { key } else { keys0[k - 1] }));
                            if i < pp && k > pp {
                                assert(keys0[i] < key);
                            }
                            if i == pp && k > pp {
                                if k - 1 > pp {
                                    assert(keys0[pp] < keys0[k - 1]);
                                }
                            }
                        }
                    }
                }
            },
        }
        true
    }

    /// Remove a child; the later children move down one slot, so keys in
    /// increasing order stay so.
    pub fn remove_child(&mut self, key: u8) -> (r: Option<ArtNode>)
        requires
            old(self).wf(),
        ensures
            r == old(self).child_spec(key),
            final(self).wf(),
            same_header_but_count(final(self).header, old(self).header),
            final(self).child_spec(key) is None,
            forall|b: u8| b != key ==> #[trigger] final(self).child_spec(b) == old(self).child_spec(b),
            final(self).header.num_children == old(self).header.num_children - if r is Some { 1int } else { 0int },
            old(self).keys_sorted() ==> final(self).keys_sorted(),
    {
        let ghost n0 = self.header.num_children as int;
        let ghost keys0 = self.keys@;
        let ghost ch0 = self.children@;
        match self.find_child_index(key) {
            Some(idx) => {
                proof {
                    lemma_slots_child_at(keys0, ch0, n0, 16, idx as int);
                }
                let child = self.children[idx].take();
                let n = self.header.num_children as usize;
                let mut j: usize = idx;
                while j + 1 < n
                    invariant
                        idx <= j < n,
                        n == n0,
                        n0 <= 16,
                        idx < n0,
                        self.header == old(self).header,
                        slots_wf(keys0, ch0, n0, 16),
                        self.keys@.len() == 16,
                        self.children@.len() == 16,
                        forall|i: int| 0 <= i < idx ==> self.keys@[i] == keys0[i] && self.children@[i] == ch0[i],
                        forall|i: int| idx <= i < j ==> self.keys@[i] == keys0[i + 1] && self.children@[i] == ch0[i + 1],
                        self.children@[j as int] is None,
                        forall|i: int| j < i < 16 ==> self.keys@[i] == keys0[i] && self.children@[i] == ch0[i],
                    decreases n - j,
                {
                    let k = self.keys[j + 1];
                    self.keys.set(j, k);
                    let moved = self.children[j + 1].take();
                    self.children.set(j, moved);
                    j = j + 1;
                }
                self.header.num_children = self.header.num_children - 1;
                proof {
                    let n1 = n0 - 1;
                    let ii = idx as int;
                    let nk = self.keys@;
                    let nc = self.children@;
                    assert(j == n1);
                    assert forall|i: int| 0 <= i < 16 implies (#[trigger] nc[i] is Some <==> i < n1) by {
                        if i < ii {
                            assert(nc[i] == ch0[i]);
                            assert(ch0[i] is Some);
                        } else if i < n1 {
                            assert(nc[i] == ch0[i + 1]);
                            assert(ch0[i + 1] is Some);
                        } else if i == n1 {
                        } else {
                            assert(nc[i] == ch0[i]);
                            assert(!(ch0[i] is Some));
                        }
                    }
                    assert forall|i: int| 0 <= i < n1 implies #[trigger] nk[i] == (if i < ii { keys0[i] } else { keys0[i + 1] }) by {}
                    assert forall|i: int, k: int| 0 <= i < k < n1 implies nk[i] != nk[k] by {
                        assert(nk[i] == (if i < ii { keys0[i] } else { keys0[i + 1] }));
                        assert(nk[k] == (if k < ii { keys0[k] } else { keys0[k + 1] }));
                    }
                    assert(slots_wf(nk, nc, n1, 16));
                    assert forall|i: int| 0 <= i < n1 implies nk[i] != key by {
                        assert(nk[i] == (if i < ii { keys0[i] } else { keys0[i + 1] }));
                    }
                    lemma_slots_child_none(nk, nc, n1, key);
                    assert forall|b: u8| b != key implies #[trigger] self.child_spec(b) == old(self).child_spec(b) by {
                        if slots_has(keys0, n0, b) {
                            let q = slots_index(keys0, n0, b);
                            lemma_slots_child_at(keys0, ch0, n0, 16, q);
                            let nq = if q < ii { q } else { q - 1 };
                            assert(q != ii);
                            assert(nk[nq] == (if nq < ii { keys0[nq] } else { keys0[nq + 1] }));
                            assert(nk[nq] == b);
                            lemma_slots_child_at(nk, nc, n1, 16, nq);
                        } else {
                            assert forall|i: int| 0 <= i < n1 implies nk[i] != b by {
                                assert(nk[i] == (if i < ii { keys0[i] } else { keys0[i + 1] }));
                            }
                            lemma_slots_child_none(nk, nc, n1, b);
                        }
                    }
                    if old(self).keys_sorted() {
                        assert forall|i: int, k: int| 0 <= i < k < n1 implies nk[i] < nk[k] by {
                            assert(nk[i] == (if i < ii { keys0[i] } else { keys0[i + 1] }));
                            assert(nk[k] == (if k < ii { keys0[k] } else { keys0[k + 1] }));
                        }
                    }
                }
                child
            },
            None => {
                proof {
                    lemma_slots_child_none(keys0, ch0, n0, key);
                }
                None
            },
        }
    }

    /// The children with their key bytes, in slot order
    pub fn iter_children(&self) -> (r: Vec<(u8, &ArtNode)>)
        requires
            self.wf(),
        ensures
            r@.len() == self.header.num_children,
            forall|i: int| 0 <= i < r@.len() ==> (#[trigger] r@[i]).0 == self.keys@[i] && self.children@[i] == Some(*r@[i].1),
    {
        let n = self.header.num_children as usize;
        let mut r: Vec<(u8, &ArtNode)> = Vec::new();
        let mut i: usize = 0;
        while i < n
            invariant
                self.wf(),
                n == self.header.num_children,
                i <= n,
                r@.len() == i,
                forall|j: int| 0 <= j < i ==> (#[trigger] r@[j]).0 == self.keys@[j] && self.children@[j] == Some(*r@[j].1),
            decreases n - i,
        {
            match self.children[i].as_ref() {
                Some(c) => {
                    r.push((self.keys[i], c));
                },
                None => {},
            }
            i = i + 1;
        }
        r
    }
}

impl Default for Node16 {
    fn default() -> (n: Self)
        ensures
            n.wf(),
            n.header.num_children == 0,
            n.header.prefix_len == 0,
            n.header.prefix@ == Seq::<u8>::empty(),
            n.header.values@ == Seq::<RowId>::empty(),
    {
        Self::new()
    }
}


impl Node48 {
    /// Create a new empty Node48
    pub fn new() -> (n: Self)
        ensures
            n.wf(),
            n.header.num_children == 0,
            n.header.prefix_len == 0,
            n.header.prefix@ == Seq::<u8>::empty(),
            n.header.values@ == Seq::<RowId>::empty(),
            forall|b: u8| #[trigger] n.child_spec(b) is None,
    {
        Self::with_prefix(&[])
    }

    /// Create a Node48 with a prefix
    pub fn with_prefix(prefix: &[u8]) -> (n: Self)
        ensures
            n.wf(),
            n.header.num_children == 0,
            n.header.prefix@ == prefix@,
            n.header.prefix_len == prefix@.len() as u32,
            n.header.values@ == Seq::<RowId>::empty(),
            forall|b: u8| #[trigger] n.child_spec(b) is None,
    {
        let n = Node48 { header: NodeHeader::with_prefix(prefix), child_index: filled_bytes(256, 255), children: empty_slots(48) };
        proof {
            lemma_count_mapped_none(n.child_index@);
        }
        n
    }

    /// Check if the node is full
    pub fn is_full(&self) -> (r: bool)
        ensures
            r == (self.header.num_children >= 48),
    {
        self.header.num_children >= 48
    }

    /// Check if the node should shrink
    pub fn should_shrink(&self) -> (r: bool)
        ensures
            r == (self.header.num_children <= 16),
    {
        self.header.num_children <= 16
    }

    /// Get a child by key byte
    pub fn get_child(&self, key: u8) -> (r: Option<&ArtNode>)
        requires
            self.wf(),
        ensures
            ref_matches(r, self.child_spec(key)),
    {
        let idx = self.child_index[key as usize];
        if idx != 255 {
            self.children[idx as usize].as_ref()
        } else {
            None
        }
    }

    /// Get a mutable child by key byte
    pub fn get_child_mut(&mut self, key: u8) -> (r: Option<&mut ArtNode>)
        requires
            old(self).wf(),
        ensures
            r is Some <==> old(self).child_spec(key) is Some,
            r matches Some(c) ==> {
                &&& old(self).child_spec(key) == Some(*c)
                &&& final(self).child_spec(key) == Some(*final(c))
            },
            final(self).wf(),
            final(self).header == old(self).header,
            forall|b: u8| b != key ==> #[trigger] final(self).child_spec(b) == old(self).child_spec(b),
    {
        let idx = self.child_index[key as usize];
        if idx != 255 {
            let ghost ch0 = self.children@;
            match self.children[idx as usize].as_mut() {
                Some(c) => {
                    proof {
                        lemma_count_some_update(ch0, idx as int, Some(*final(c)));
                    }
                    Some(c)
                },
                None => None,
            }
        } else {
            None
        }
    }

    /// Find the next free slot
    fn find_free_slot(&self) -> (r: Option<usize>)
        requires
            self.children@.len() == 48,
        ensures
            r matches Some(i) ==> i < 48 && self.children@[i as int] is None,
            r is None ==> forall|i: int| 0 <= i < 48 ==> self.children@[i] is Some,
    {
        let mut i: usize = 0;
        while i < 48
            invariant
                self.children@.len() == 48,
                i <= 48,
                forall|j: int| 0 <= j < i ==> self.children@[j] is Some,
            decreases 48 - i,
        {
            if self.children[i].is_none() {
                return Some(i);
            }
            i = i + 1;
        }
        None
    }

    /// Add a child (returns false if full); a child already held for the
    /// same key byte is replaced.
    pub fn add_child(&mut self, key: u8, child: ArtNode) -> (r: bool)
        requires
            old(self).wf(),
        ensures
            r == (old(self).header.num_children < 48),
            !r ==> *final(self) == *old(self),
            r ==> {
                &&& final(self).wf()
                &&& same_header_but_count(final(self).header, old(self).header)
                &&& final(self).child_spec(key) == Some(child)
                &&& forall|b: u8| b != key ==> #[trigger] final(self).child_spec(b) == old(self).child_spec(b)
                &&& final(self).header.num_children == old(self).header.num_children + if old(self).child_spec(key) is Some { 0int } else { 1int }
            },
    {
        if self.is_full() {
            return false;
        }
        let ghost ci0 = self.child_index@;
        let ghost ch0 = self.children@;
        let idx = self.child_index[key as usize];
        if idx != 255 {
            self.children.set(idx as usize, Some(child));
            proof {
                lemma_count_some_update(ch0, idx as int, Some(child));
                assert forall|b: u8| b != key implies #[trigger] self.child_spec(b) == old(self).child_spec(b) by {
                    if ci0[b as int] != 255 {
                        assert(ci0[b as int] != ci0[key as int]);
                    }
                }
                assert forall|s: int| 0 <= s < 48 && #[trigger] self.children@[s] is Some implies exists|b: int|
                    0 <= b < 256 && self.child_index@[b] == s by {
                    if s == idx as int {
                        assert(self.child_index@[key as int] == s);
                    } else {
                        assert(ch0[s] is Some);
                    }
                }
            }
            return true;
        }
        proof {
            lemma_count_some_bound(ch0);
        }
        match self.find_free_slot() {
            Some(slot) => {
                self.child_index.set(key as usize, slot as u8);
                self.children.set(slot, Some(child));
                self.header.num_children = self.header.num_children + 1;
                proof {
                    lemma_count_some_update(ch0, slot as int, Some(child));
                    lemma_count_mapped_update(ci0, key as int, slot as u8);
                    assert forall|b: int| 0 <= b < 256 && #[trigger] self.child_index@[b] != 255 implies self.child_index@[b] < 48
                        && self.children@[self.child_index@[b] as int] is Some by {
                        if b != key as int {
                            assert(ci0[b] != slot as u8);
                        }
                    }
                    assert forall|b1: int, b2: int|
                        0 <= b1 < 256 && 0 <= b2 < 256 && b1 != b2 && #[trigger] self.child_index@[b1] != 255
                            implies self.child_index@[b1] != #[trigger] self.child_index@[b2] by {
                        if b1 != key as int && b2 != key as int {
                            assert(ci0[b1] != ci0[b2]);
                        } else if b1 == key as int {
                            if ci0[b2] != 255 {
                                assert(ch0[ci0[b2] as int] is Some);
                            }
                        } else {
                            assert(ch0[ci0[b1] as int] is Some);
                        }
                    }
                    assert forall|s: int| 0 <= s < 48 && #[trigger] self.children@[s] is Some implies exists|b: int|
                        0 <= b < 256 && self.child_index@[b] == s by {
                        if s == slot as int {
                            assert(self.child_index@[key as int] == s);
                        } else {
                            assert(ch0[s] is Some);
                            let b = choose|b: int| 0 <= b < 256 && ci0[b] == s;
                            assert(b != key as int);
                            assert(self.child_index@[b] == s);
                        }
                    }
                    assert forall|b: u8| b != key implies #[trigger] self.child_spec(b) == old(self).child_spec(b) by {
                        if ci0[b as int] != 255 {
                            assert(ci0[b as int] != slot as u8);
                        }
                    }
                }
                true
            },
            None => false,
        }
    }

    /// Remove a child
    pub fn remove_child(&mut self, key: u8) -> (r: Option<ArtNode>)
        requires
            old(self).wf(),
        ensures
            r == old(self).child_spec(key),
            final(self).wf(),
            same_header_but_count(final(self).header, old(self).header),
            final(self).child_spec(key) is None,
            forall|b: u8| b != key ==> #[trigger] final(self).child_spec(b) == old(self).child_spec(b),
            final(self).header.num_children == old(self).header.num_children - if r is Some { 1int } else { 0int },
    {
        let ghost ci0 = self.child_index@;
        let ghost ch0 = self.children@;
        let idx = self.child_index[key as usize];
        if idx != 255 {
            proof {
                lemma_count_some_update(ch0, idx as int, None);
                lemma_count_mapped_update(ci0, key as int, 255);
            }
            self.child_index.set(key as usize, 255);
            self.header.num_children = self.header.num_children - 1;
            let child = self.children[idx as usize].take();
            proof {
                assert forall|b: int| 0 <= b < 256 && #[trigger] self.child_index@[b] != 255 implies self.child_index@[b] < 48
                    && self.children@[self.child_index@[b] as int] is Some by {
                    assert(ci0[b] != ci0[key as int]);
                }
                assert forall|s: int| 0 <= s < 48 && #[trigger] self.children@[s] is Some implies exists|b: int|
                    0 <= b < 256 && self.child_index@[b] == s by {
                    assert(ch0[s] is Some);
                    let b = choose|b: int| 0 <= b < 256 && ci0[b] == s;
                    assert(b != key as int);
                    assert(self.child_index@[b] == s);
                }
                assert forall|b: u8| b != key implies #[trigger] self.child_spec(b) == old(self).child_spec(b) by {
                    if ci0[b as int] != 255 {
                        assert(ci0[b as int] != idx);
                    }
                }
            }
            child
        } else {
            None
        }
    }
}

impl Default for Node48 {
    fn default() -> (n: Self)
        ensures
            n.wf(),
            n.header.num_children == 0,
            n.header.prefix_len == 0,
            n.header.prefix@ == Seq::<u8>::empty(),
            n.header.values@ == Seq::<RowId>::empty(),
    {
        Self::new()
    }
}

impl Node256 {
    /// Create a new empty Node256
    pub fn new() -> (n: Self)
        ensures
            n.wf(),
            n.header.num_children == 0,
            n.header.prefix_len == 0,
            n.header.prefix@ == Seq::<u8>::empty(),
            n.header.values@ == Seq::<RowId>::empty(),
            forall|b: u8| #[trigger] n.child_spec(b) is None,
    {
        Node256 { header: NodeHeader::new(), children: empty_slots(256) }
    }

    /// Create a Node256 with a prefix
    pub fn with_prefix(prefix: &[u8]) -> (n: Self)
        ensures
            n.wf(),
            n.header.num_children == 0,
            n.header.prefix@ == prefix@,
            n.header.prefix_len == prefix@.len() as u32,
            n.header.values@ == Seq::<RowId>::empty(),
            forall|b: u8| #[trigger] n.child_spec(b) is None,
    {
        Node256 { header: NodeHeader::with_prefix(prefix), children: empty_slots(256) }
    }

    /// Check if the node should shrink
    pub fn should_shrink(&self) -> (r: bool)
        ensures
            r == (self.header.num_children <= 48),
    {
        self.header.num_children <= 48
    }

    /// Get a child by key byte
    pub fn get_child(&self, key: u8) -> (r: Option<&ArtNode>)
        requires
            self.wf(),
        ensures
            ref_matches(r, self.child_spec(key)),
    {
        self.children[key as usize].as_ref()
    }

    /// Get a mutable child by key byte
    pub fn get_child_mut(&mut self, key: u8) -> (r: Option<&mut ArtNode>)
        requires
            old(self).wf(),
        ensures
            r is Some <==> old(self).child_spec(key) is Some,
            r matches Some(c) ==> {
                &&& old(self).child_spec(key) == Some(*c)
                &&& final(self).child_spec(key) == Some(*final(c))
            },
            final(self).wf(),
            final(self).header == old(self).header,
            forall|b: u8| b != key ==> #[trigger] final(self).child_spec(b) == old(self).child_spec(b),
    {
        let ghost ch0 = self.children@;
        match self.children[key as usize].as_mut() {
            Some(c) => {
                proof {
                    lemma_count_some_update(ch0, key as int, Some(*final(c)));
                }
                Some(c)
            },
            None => {
                proof {
                    lemma_count_some_update(ch0, key as int, None);
                }
                None
            },
        }
    }

    /// Add a child (always succeeds; a child already held for the key byte is replaced)
    pub fn add_child(&mut self, key: u8, child: ArtNode) -> (r: bool)
        requires
            old(self).wf(),
        ensures
            r,
            final(self).wf(),
            same_header_but_count(final(self).header, old(self).header),
            final(self).child_spec(key) == Some(child),
            forall|b: u8| b != key ==> #[trigger] final(self).child_spec(b) == old(self).child_spec(b),
            final(self).header.num_children == old(self).header.num_children + if old(self).child_spec(key) is Some { 0int } else { 1int },
    {
        proof {
            lemma_count_some_update(self.children@, key as int, Some(child));
            lemma_count_some_bound(self.children@.update(key as int, Some(child)));
        }
        if self.children[key as usize].is_none() {
            self.header.num_children = self.header.num_children + 1;
        }
        self.children.set(key as usize, Some(child));
        true
    }

    /// Remove a child
    pub fn remove_child(&mut self, key: u8) -> (r: Option<ArtNode>)
        requires
            old(self).wf(),
        ensures
            r == old(self).child_spec(key),
            final(self).wf(),
            same_header_but_count(final(self).header, old(self).header),
            final(self).child_spec(key) is None,
            forall|b: u8| b != key ==> #[trigger] final(self).child_spec(b) == old(self).child_spec(b),
            final(self).header.num_children == old(self).header.num_children - if r is Some { 1int } else { 0int },
    {
        proof {
            lemma_count_some_update(self.children@, key as int, None);
        }
        let child = self.children[key as usize].take();
        if child.is_some() {
            self.header.num_children = self.header.num_children - 1;
        }
        child
    }
}

impl Default for Node256 {
    fn default() -> (n: Self)
        ensures
            n.wf(),
            n.header.num_children == 0,
            n.header.prefix_len == 0,
            n.header.prefix@ == Seq::<u8>::empty(),
            n.header.values@ == Seq::<RowId>::empty(),
    {
        Self::new()
    }
}


/// Two consistent slotted nodes whose first `n` slots agree reach the same children.
pub proof fn lemma_slots_same(
    keys1: Seq<u8>,
    ch1: Seq<Option<ArtNode>>,
    cap1: int,
    keys2: Seq<u8>,
    ch2: Seq<Option<ArtNode>>,
    cap2: int,
    n: int,
    b: u8,
)
    requires
        slots_wf(keys1, ch1, n, cap1),
        slots_wf(keys2, ch2, n, cap2),
        forall|j: int| 0 <= j < n ==> keys1[j] == keys2[j] && ch1[j] == ch2[j],
    ensures
        slots_child(keys1, ch1, n, b) == slots_child(keys2, ch2, n, b),
        slots_has(keys1, n, b) == slots_has(keys2, n, b),
{
    if slots_has(keys1, n, b) {
        let j = slots_index(keys1, n, b);
        lemma_slots_child_at(keys1, ch1, n, cap1, j);
        lemma_slots_child_at(keys2, ch2, n, cap2, j);
    } else {
        assert forall|j: int| 0 <= j < n implies keys2[j] != b by {
            if keys2[j] == b {
                assert(keys1[j] == b);
            }
        }
        lemma_slots_child_none(keys2, ch2, n, b);
    }
}

/// Key bytes in increasing order, each reaching a child.
pub open spec fn sorted_children(r: Seq<(u8, &ArtNode)>, node: ArtNode) -> bool {
    &&& forall|i: int| 0 <= i < r.len() ==> node.child((#[trigger] r[i]).0) == Some(*r[i].1)
    &&& forall|i: int, j: int| 0 <= i < j < r.len() ==> (#[trigger] r[i]).0 < (#[trigger] r[j]).0
    &&& forall|b: u8| #[trigger] node.child(b) is Some ==> exists|i: int| 0 <= i < r.len() && r[i].0 == b
}

impl Node4 {
    /// Grow to Node16: the children are added one by one, so their key
    /// bytes are in increasing order
    pub fn grow(self) -> (r: Node16)
        requires
            self.wf(),
        ensures
            r.wf(),
            r.header == self.header,
            forall|b: u8| #[trigger] r.child_spec(b) == self.child_spec(b),
            r.keys_sorted(),
    {
        let ghost old_node = self;
        let ghost keys0 = self.keys@;
        let ghost ch0 = self.children@;
        let Node4 { header, keys, mut children } = self;
        let ghost h0 = header;
        let n = header.num_children as usize;
        let mut h = header;
        h.num_children = 0;
        let mut r = Node16 { header: h, keys: filled_bytes(16, 0), children: empty_slots(16) };
        proof {
            assert forall|b: u8| #[trigger] r.child_spec(b) == (if slots_has(keys0, 0, b) { old_node.child_spec(b) } else { None }) by {
                lemma_slots_child_none(r.keys@, r.children@, 0, b);
            }
        }
        let mut i: usize = 0;
        while i < n
            invariant
                n == h0.num_children,
                old_node.keys@ == keys0,
                old_node.children@ == ch0,
                old_node.header == h0,
                slots_wf(keys0, ch0, n as int, 4),
                keys@ == keys0,
                children@.len() == 4,
                i <= n,
                forall|j: int| i <= j < 4 ==> #[trigger] children@[j] == ch0[j],
                r.wf(),
                r.keys_sorted(),
                r.header == (NodeHeader { num_children: i as u16, ..h0 }),
                forall|b: u8| #[trigger] r.child_spec(b) == (if slots_has(keys0, i as int, b) { old_node.child_spec(b) } else { None }),
            decreases n - i,
        {
            let c = children[i].take();
            proof {
                assert(ch0[i as int] is Some);
                lemma_slots_child_at(keys0, ch0, n as int, 4, i as int);
            }
            let ghost r0 = r;
            let kb = keys[i];
            match c {
                Some(child) => {
                    proof {
                        assert(!slots_has(keys0, i as int, kb)) by {
                            if slots_has(keys0, i as int, kb) {
                                let q = choose|q: int| 0 <= q < i && keys0[q] == kb;
                                assert(keys0[q] != keys0[i as int]);
                            }
                        }
                        assert(r0.child_spec(kb) is None);
                    }
                    let ok = r.add_child(kb, child);
                    proof {
                        assert(ok);
                        assert forall|b: u8| #[trigger] r.child_spec(b) == (if slots_has(keys0, i + 1, b) { old_node.child_spec(b) } else { None }) by {
                            if b == kb {
                                assert(keys0[i as int] == b);
                            } else {
                                assert(r.child_spec(b) == r0.child_spec(b));
                                if slots_has(keys0, i + 1, b) {
                                    let q = choose|q: int| 0 <= q < i + 1 && keys0[q] == b;
                                    assert(q != i);
                                    assert(slots_has(keys0, i as int, b));
                                } else {
                                    assert(!slots_has(keys0, i as int, b));
                                }
                            }
                        }
                    }
                },
                None => {
                    proof {
                        assert(false);
                    }
                },
            }
            i = i + 1;
        }
        proof {
            assert(r.header =~= h0);
            assert forall|b: u8| #[trigger] r.child_spec(b) == old_node.child_spec(b) by {
                if !slots_has(keys0, n as int, b) {
                    lemma_slots_child_none(keys0, ch0, n as int, b);
                }
            }
        }
        r
    }
}

impl Node16 {
    /// Check if the node should shrink
    pub fn should_shrink(&self) -> (r: bool)
        ensures
            r == (self.header.num_children <= 4),
    {
        self.header.num_children <= 4
    }

    /// Shrink to Node4, keeping the children of the first four slots
    pub fn shrink(self) -> (r: Node4)
        requires
            self.wf(),
        ensures
            r.wf(),
            same_header_but_count(r.header, self.header),
            r.header.num_children == min_len(self.header.num_children as int, 4),
            forall|b: u8| #[trigger] r.child_spec(b) == if slots_has(self.keys@, min_len(self.header.num_children as int, 4), b) {
                self.child_spec(b)
            } else {
                None
            },
            self.header.num_children <= 4 ==> forall|b: u8| #[trigger] r.child_spec(b) == self.child_spec(b),
    {
        let ghost keys0 = self.keys@;
        let ghost ch0 = self.children@;
        let ghost n0 = self.header.num_children as int;
        let Node16 { mut header, keys, mut children } = self;
        let m: usize = if header.num_children < 4 { header.num_children as usize } else { 4 };
        let mut k4 = filled_bytes(4, 0);
        let mut c4 = empty_slots(4);
        let mut i: usize = 0;
        while i < m
            invariant
                m == min_len(n0, 4),
                slots_wf(keys0, ch0, n0, 16),
                keys@ == keys0,
                children@.len() == 16,
                k4@.len() == 4,
                c4@.len() == 4,
                i <= m,
                forall|j: int| 0 <= j < i ==> k4@[j] == keys0[j] && c4@[j] == ch0[j],
                forall|j: int| i <= j < 4 ==> c4@[j] is None,
                forall|j: int| i <= j < 16 ==> children@[j] == ch0[j],
            decreases m - i,
        {
            let c = children[i].take();
            k4.set(i, keys[i]);
            c4.set(i, c);
            i = i + 1;
        }
        header.num_children = m as u16;
        let r = Node4 { header, keys: k4, children: c4 };
        proof {
            let mm = m as int;
            assert forall|j: int| 0 <= j < 4 implies (#[trigger] r.children@[j] is Some <==> j < mm) by {
                if j < mm {
                    assert(ch0[j] is Some);
                }
            }
            assert forall|i: int, j: int| 0 <= i < j < mm implies r.keys@[i] != r.keys@[j] by {
                assert(keys0[i] != keys0[j]);
            }
            assert(slots_wf(r.keys@, r.children@, mm, 4));
            assert forall|b: u8| #[trigger] r.child_spec(b) == if slots_has(keys0, mm, b) {
                slots_child(keys0, ch0, n0, b)
            } else {
                None
            } by {
                if slots_has(keys0, mm, b) {
                    let j = slots_index(keys0, mm, b);
                    assert(r.keys@[j] == b);
                    lemma_slots_child_at(r.keys@, r.children@, mm, 4, j);
                    lemma_slots_child_at(keys0, ch0, n0, 16, j);
                } else {
                    assert forall|j: int| 0 <= j < mm implies r.keys@[j] != b by {
                        if r.keys@[j] == b {
                            assert(keys0[j] == b);
                        }
                    }
                    lemma_slots_child_none(r.keys@, r.children@, mm, b);
                }
            }
            if n0 <= 4 {
                assert forall|b: u8| #[trigger] r.child_spec(b) == slots_child(keys0, ch0, n0, b) by {
                    if !slots_has(keys0, mm, b) {
                        lemma_slots_child_none(keys0, ch0, n0, b);
                    }
                }
            }
        }
        r
    }

    /// Grow to Node48
    pub fn grow(self) -> (r: Node48)
        requires
            self.wf(),
        ensures
            r.wf(),
            r.header == self.header,
            forall|b: u8| #[trigger] r.child_spec(b) == self.child_spec(b),
    {
        let ghost keys0 = self.keys@;
        let ghost ch0 = self.children@;
        let Node16 { header, keys, mut children } = self;
        let n = header.num_children as usize;
        let ghost nn = n as int;
        let mut ci = filled_bytes(256, 255);
        let mut c48 = empty_slots(48);
        proof {
            lemma_count_mapped_none(ci@);
        }
        let mut i: usize = 0;
        while i < n
            invariant
                n == header.num_children,
                nn == n,
                slots_wf(keys0, ch0, nn, 16),
                keys@ == keys0,
                children@.len() == 16,
                ci@.len() == 256,
                c48@.len() == 48,
                i <= n,
                forall|j: int| 0 <= j < i ==> #[trigger] c48@[j] == ch0[j],
                forall|j: int| 0 <= j < i ==> ci@[#[trigger] keys0[j] as int] == j,
                forall|j: int| i <= j < 48 ==> c48@[j] is None,
                forall|j: int| i <= j < 16 ==> children@[j] == ch0[j],
                forall|b: int| 0 <= b < 256 && #[trigger] ci@[b] != 255 ==> ci@[b] < i && keys0[ci@[b] as int] == b,
                count_mapped(ci@) == i,
            decreases n - i,
        {
            let c = children[i].take();
            let k = keys[i];
            proof {
                assert(ci@[k as int] == 255) by {
                    if ci@[k as int] != 255 {
                        let j = ci@[k as int] as int;
                        assert(keys0[j] == k);
                        assert(keys0[j] != keys0[i as int]);
                    }
                }
                lemma_count_mapped_update(ci@, k as int, i as u8);
            }
            ci.set(k as usize, i as u8);
            c48.set(i, c);
            i = i + 1;
        }
        let r = Node48 { header, child_index: ci, children: c48 };
        proof {
            assert forall|j: int| 0 <= j < 48 implies (#[trigger] r.children@[j] is Some <==> j < nn) by {
                if j < 16 {
                    assert(ch0[j] is Some <==> j < nn);
                }
            }
            lemma_count_some_prefix(r.children@, nn);
            assert forall|s: int| 0 <= s < 48 && #[trigger] r.children@[s] is Some implies exists|b: int|
                0 <= b < 256 && r.child_index@[b] == s by {
                assert(s < nn);
                assert(r.child_index@[keys0[s] as int] == s);
            }
            assert forall|b1: int, b2: int|
                0 <= b1 < 256 && 0 <= b2 < 256 && b1 != b2 && #[trigger] r.child_index@[b1] != 255
                    implies r.child_index@[b1] != #[trigger] r.child_index@[b2] by {
            }
            assert forall|b: u8| #[trigger] r.child_spec(b) == slots_child(keys0, ch0, nn, b) by {
                if r.child_index@[b as int] != 255 {
                    let j = r.child_index@[b as int] as int;
                    lemma_slots_child_at(keys0, ch0, nn, 16, j);
                } else {
                    assert forall|j: int| 0 <= j < nn implies keys0[j] != b by {
                        if keys0[j] == b {
                            assert(r.child_index@[keys0[j] as int] == j);
                        }
                    }
                    lemma_slots_child_none(keys0, ch0, nn, b);
                }
            }
        }
        r
    }
}


impl Node48 {
    /// Grow to Node256
    pub fn grow(self) -> (r: Node256)
        requires
            self.wf(),
        ensures
            r.wf(),
            r.header == self.header,
            forall|b: u8| #[trigger] r.child_spec(b) == self.child_spec(b),
    {
        let ghost old_node = self;
        let ghost ci0 = self.child_index@;
        let ghost ch0 = self.children@;
        let Node48 { header, child_index, mut children } = self;
        let mut c256 = empty_slots(256);
        let mut key: usize = 0;
        while key < 256
            invariant
                old_node.wf(),
                old_node.child_index@ == ci0,
                old_node.children@ == ch0,
                header == old_node.header,
                child_index@ == ci0,
                children@.len() == 48,
                c256@.len() == 256,
                key <= 256,
                forall|b: int| 0 <= b < key ==> #[trigger] c256@[b] == old_node.child_spec(b as u8),
                forall|b: int| key <= b < 256 ==> #[trigger] c256@[b] is None,
                forall|b: int| key <= b < 256 && ci0[b] != 255 ==> children@[#[trigger] ci0[b] as int] == ch0[ci0[b] as int],
                forall|t: int| 0 <= t < 48 && #[trigger] children@[t] is Some ==> exists|b: int| key <= b < 256 && ci0[b] == t,
                count_some(c256@) + count_some(children@) == header.num_children,
            decreases 256 - key,
        {
            let idx = child_index[key];
            if idx != 255 {
                let ghost before = children@;
                proof {
                    assert(ci0[key as int] != 255);
                }
                let c = children[idx as usize].take();
                proof {
                    lemma_count_some_update(before, idx as int, None);
                    lemma_count_some_update(c256@, key as int, c);
                }
                c256.set(key, c);
                proof {
                    assert forall|b: int| key + 1 <= b < 256 && ci0[b] != 255 implies children@[#[trigger] ci0[b] as int] == ch0[ci0[b] as int] by {
                        assert(ci0[b] != ci0[key as int]);
                    }
                    assert forall|t: int| 0 <= t < 48 && #[trigger] children@[t] is Some implies exists|b: int| key + 1 <= b < 256 && ci0[b] == t by {
                        assert(before[t] is Some);
                        let b = choose|b: int| key <= b < 256 && ci0[b] == t;
                        assert(b != key as int);
                    }
                }
            } else {
                proof {
                    assert forall|t: int| 0 <= t < 48 && #[trigger] children@[t] is Some implies exists|b: int| key + 1 <= b < 256 && ci0[b] == t by {
                        let b = choose|b: int| key <= b < 256 && ci0[b] == t;
                        assert(b != key as int);
                    }
                }
            }
            key = key + 1;
        }
        proof {
            assert forall|t: int| 0 <= t < children@.len() implies children@[t] is None by {
                if children@[t] is Some {
                    let b = choose|b: int| 256 <= b < 256 && ci0[b] == t;
                }
            }
            lemma_count_some_none(children@);
        }
        let r = Node256 { header, children: c256 };
        proof {
            assert forall|b: u8| #[trigger] r.child_spec(b) == old_node.child_spec(b) by {
                assert(r.children@[b as int] == old_node.child_spec(b));
            }
        }
        r
    }

    /// Shrink to Node16, keeping the children of the sixteen smallest key bytes
    pub fn shrink(self) -> (r: Node16)
        requires
            self.wf(),
        ensures
            r.wf(),
            same_header_but_count(r.header, self.header),
            r.header.num_children == min_len(self.header.num_children as int, 16),
            forall|b: u8| #[trigger] r.child_spec(b) is Some ==> r.child_spec(b) == self.child_spec(b),
            self.header.num_children <= 16 ==> forall|b: u8| #[trigger] r.child_spec(b) == self.child_spec(b),
            r.keys_sorted(),
    {
        let ghost old_node = self;
        let ghost ci0 = self.child_index@;
        let ghost ch0 = self.children@;
        let ghost n0 = self.header.num_children as int;
        let Node48 { mut header, child_index, mut children } = self;
        let mut k16 = filled_bytes(16, 0);
        let mut c16 = empty_slots(16);
        let mut idx: usize = 0;
        let mut dropped: usize = 0;
        let mut key: usize = 0;
        while key < 256
            invariant
                old_node.wf(),
                old_node.child_index@ == ci0,
                old_node.children@ == ch0,
                n0 == old_node.header.num_children,
                child_index@ == ci0,
                children@.len() == 48,
                k16@.len() == 16,
                c16@.len() == 16,
                key <= 256,
                idx <= 16,
                dropped <= key,
                dropped > 0 ==> idx == 16,
                idx + dropped == count_mapped(ci0.subrange(0, key as int)),
                forall|j: int| 0 <= j < 16 ==> (#[trigger] c16@[j] is Some <==> j < idx),
                forall|j: int| 0 <= j < idx ==> (#[trigger] k16@[j] as int) < key,
                forall|i: int, j: int| 0 <= i < j < idx ==> k16@[i] < k16@[j],
                forall|j: int| 0 <= j < idx ==> #[trigger] c16@[j] == old_node.child_spec(k16@[j]),
                dropped == 0 ==> forall|b: int| 0 <= b < key && ci0[b] != 255 ==> slots_has(k16@, idx as int, b as u8),
                forall|b: int| key <= b < 256 && ci0[b] != 255 ==> children@[#[trigger] ci0[b] as int] == ch0[ci0[b] as int],
            decreases 256 - key,
        {
            proof {
                lemma_count_mapped_step(ci0, key as int);
            }
            let slot = child_index[key];
            if slot != 255 {
                let c = children[slot as usize].take();
                proof {
                    assert(c == old_node.child_spec(key as u8));
                    assert forall|b: int| key + 1 <= b < 256 && ci0[b] != 255 implies children@[#[trigger] ci0[b] as int] == ch0[ci0[b] as int] by {
                        assert(ci0[b] != ci0[key as int]);
                    }
                }
                if idx < 16 {
                    let ghost k_old = k16@;
                    let ghost idx_old = idx as int;
                    k16.set(idx, key as u8);
                    c16.set(idx, c);
                    idx = idx + 1;
                    proof {
                        if dropped == 0 {
                            assert forall|b: int| 0 <= b < key + 1 && ci0[b] != 255 implies slots_has(k16@, idx as int, b as u8) by {
                                if b == key as int {
                                    assert(k16@[idx - 1] == b as u8);
                                } else {
                                    assert(slots_has(k_old, idx_old, b as u8));
                                    let j = slots_index(k_old, idx_old, b as u8);
                                    assert(k16@[j] == b as u8);
                                }
                            }
                        }
                    }
                } else {
                    dropped = dropped + 1;
                }
            }
            key = key + 1;
        }
        header.num_children = idx as u16;
        let r = Node16 { header, keys: k16, children: c16 };
        proof {
            assert(ci0.subrange(0, 256) =~= ci0);
            assert forall|i: int, j: int| 0 <= i < j < idx implies r.keys@[i] != r.keys@[j] by {
                assert(k16@[i] < k16@[j]);
            }
            assert(slots_wf(r.keys@, r.children@, idx as int, 16));
            assert forall|b: u8| #[trigger] r.child_spec(b) is Some implies r.child_spec(b) == old_node.child_spec(b) by {
                let j = slots_index(r.keys@, idx as int, b);
                lemma_slots_child_at(r.keys@, r.children@, idx as int, 16, j);
            }
            if n0 <= 16 {
                assert(dropped == 0);
                assert forall|b: u8| #[trigger] r.child_spec(b) == old_node.child_spec(b) by {
                    if ci0[b as int] != 255 {
                        assert(slots_has(k16@, idx as int, b));
                        let j = slots_index(r.keys@, idx as int, b);
                        lemma_slots_child_at(r.keys@, r.children@, idx as int, 16, j);
                    } else {
                        if slots_has(r.keys@, idx as int, b) {
                            let j = slots_index(r.keys@, idx as int, b);
                            lemma_slots_child_at(r.keys@, r.children@, idx as int, 16, j);
                        }
                    }
                }
            }
        }
        r
    }

    /// The children with their key bytes, in key byte order
    pub fn iter_children(&self) -> (r: Vec<(u8, &ArtNode)>)
        requires
            self.wf(),
        ensures
            sorted_children(r@, ArtNode::Node48(Box::new(*self))),
            r@.len() == self.header.num_children,
    {
        let ghost node = ArtNode::Node48(Box::new(*self));
        let mut r: Vec<(u8, &ArtNode)> = Vec::new();
        let mut key: usize = 0;
        while key < 256
            invariant
                self.wf(),
                node == ArtNode::Node48(Box::new(*self)),
                key <= 256,
                forall|i: int| 0 <= i < r@.len() ==> node.child((#[trigger] r@[i]).0) == Some(*r@[i].1),
                forall|i: int| 0 <= i < r@.len() ==> ((#[trigger] r@[i]).0 as int) < key,
                forall|i: int, j: int| 0 <= i < j < r@.len() ==> (#[trigger] r@[i]).0 < (#[trigger] r@[j]).0,
                forall|b: u8| (b as int) < key && #[trigger] node.child(b) is Some ==> exists|i: int| 0 <= i < r@.len() && r@[i].0 == b,
                r@.len() == count_mapped(self.child_index@.subrange(0, key as int)),
            decreases 256 - key,
        {
            let ghost r_old = r@;
            proof {
                lemma_count_mapped_step(self.child_index@, key as int);
            }
            let idx = self.child_index[key];
            if idx != 255 {
                match self.children[idx as usize].as_ref() {
                    Some(c) => {
                        r.push((key as u8, c));
                    },
                    None => {},
                }
            }
            proof {
                assert forall|b: u8| (b as int) < key + 1 && #[trigger] node.child(b) is Some implies exists|i: int| 0 <= i < r@.len() && r@[i].0 == b by {
                    if b as int == key as int {
                        assert(r@[r@.len() - 1].0 == b);
                    } else {
                        let i = choose|i: int| 0 <= i < r_old.len() && r_old[i].0 == b;
                        assert(r@[i].0 == b);
                    }
                }
            }
            key = key + 1;
        }
        proof {
            assert(self.child_index@.subrange(0, 256) =~= self.child_index@);
        }
        r
    }
}

impl Node256 {
    /// Shrink to Node48, keeping the children of the forty-eight smallest key bytes
    pub fn shrink(self) -> (r: Node48)
        requires
            self.wf(),
        ensures
            r.wf(),
            same_header_but_count(r.header, self.header),
            r.header.num_children == min_len(self.header.num_children as int, 48),
            forall|b: u8| #[trigger] r.child_spec(b) is Some ==> r.child_spec(b) == self.child_spec(b),
            self.header.num_children <= 48 ==> forall|b: u8| #[trigger] r.child_spec(b) == self.child_spec(b),
    {
        let ghost old_node = self;
        let ghost ch0 = self.children@;
        let ghost n0 = self.header.num_children as int;
        let Node256 { mut header, mut children } = self;
        let mut ci = filled_bytes(256, 255);
        let mut c48 = empty_slots(48);
        proof {
            lemma_count_mapped_none(ci@);
        }
        let mut slot: usize = 0;
        let mut dropped: usize = 0;
        let mut key: usize = 0;
        let ghost mut owner: Seq<int> = Seq::empty();
        while key < 256
            invariant
                old_node.wf(),
                old_node.children@ == ch0,
                owner.len() == slot,
                forall|j: int| 0 <= j < slot ==> 0 <= #[trigger] owner[j] < key && ci@[owner[j]] == j,
                n0 == old_node.header.num_children,
                children@.len() == 256,
                ci@.len() == 256,
                c48@.len() == 48,
                key <= 256,
                slot <= 48,
                dropped <= key,
                dropped > 0 ==> slot == 48,
                slot + dropped == count_some(ch0.subrange(0, key as int)),
                count_mapped(ci@) == slot,
                forall|j: int| 0 <= j < 48 ==> (#[trigger] c48@[j] is Some <==> j < slot),
                forall|b: int| 0 <= b < 256 && #[trigger] ci@[b] != 255 ==> ci@[b] < slot && b < key && c48@[ci@[b] as int] == ch0[b] && owner[ci@[b] as int] == b,
                dropped == 0 ==> forall|b: int| 0 <= b < key && #[trigger] ch0[b] is Some ==> ci@[b] != 255,
                forall|b: int| key <= b < 256 ==> #[trigger] children@[b] == ch0[b],
            decreases 256 - key,
        {
            proof {
                lemma_count_some_step(ch0, key as int);
            }
            let c = children[key].take();
            if c.is_some() {
                if slot < 48 {
                    proof {
                        lemma_count_mapped_update(ci@, key as int, slot as u8);
                    }
                    ci.set(key, slot as u8);
                    c48.set(slot, c);
                    slot = slot + 1;
                    proof {
                        owner = owner.push(key as int);
                    }
                } else {
                    dropped = dropped + 1;
                }
            }
            key = key + 1;
        }
        header.num_children = slot as u16;
        let r = Node48 { header, child_index: ci, children: c48 };
        proof {
            assert(ch0.subrange(0, 256) =~= ch0);
            lemma_count_some_prefix(r.children@, slot as int);
            assert forall|t: int| 0 <= t < 48 && #[trigger] r.children@[t] is Some implies exists|b: int|
                0 <= b < 256 && r.child_index@[b] == t by {
                assert(r.child_index@[owner[t]] == t);
            }
            assert forall|b1: int, b2: int|
                0 <= b1 < 256 && 0 <= b2 < 256 && b1 != b2 && #[trigger] r.child_index@[b1] != 255
                    implies r.child_index@[b1] != #[trigger] r.child_index@[b2] by {
                if r.child_index@[b2] != 255 && r.child_index@[b1] == r.child_index@[b2] {
                    assert(owner[r.child_index@[b1] as int] == b1);
                }
            }
            assert forall|b: u8| #[trigger] r.child_spec(b) is Some implies r.child_spec(b) == old_node.child_spec(b) by {
            }
            if n0 <= 48 {
                assert(dropped == 0);
                assert forall|b: u8| #[trigger] r.child_spec(b) == old_node.child_spec(b) by {
                    if ch0[b as int] is Some {
                        assert(ci@[b as int] != 255);
                    }
                }
            }
        }
        r
    }

    /// The children with their key bytes, in key byte order
    pub fn iter_children(&self) -> (r: Vec<(u8, &ArtNode)>)
        requires
            self.wf(),
        ensures
            sorted_children(r@, ArtNode::Node256(Box::new(*self))),
    {
        let ghost node = ArtNode::Node256(Box::new(*self));
        let mut r: Vec<(u8, &ArtNode)> = Vec::new();
        let mut key: usize = 0;
        while key < 256
            invariant
                self.wf(),
                node == ArtNode::Node256(Box::new(*self)),
                key <= 256,
                forall|i: int| 0 <= i < r@.len() ==> node.child((#[trigger] r@[i]).0) == Some(*r@[i].1),
                forall|i: int| 0 <= i < r@.len() ==> ((#[trigger] r@[i]).0 as int) < key,
                forall|i: int, j: int| 0 <= i < j < r@.len() ==> (#[trigger] r@[i]).0 < (#[trigger] r@[j]).0,
                forall|b: u8| (b as int) < key && #[trigger] node.child(b) is Some ==> exists|i: int| 0 <= i < r@.len() && r@[i].0 == b,
            decreases 256 - key,
        {
            let ghost r_old = r@;
            match self.children[key].as_ref() {
                Some(c) => {
                    r.push((key as u8, c));
                },
                None => {},
            }
            proof {
                assert forall|b: u8| (b as int) < key + 1 && #[trigger] node.child(b) is Some implies exists|i: int| 0 <= i < r@.len() && r@[i].0 == b by {
                    if b as int == key as int {
                        assert(r@[r@.len() - 1].0 == b);
                    } else {
                        let i = choose|i: int| 0 <= i < r_old.len() && r_old[i].0 == b;
                        assert(r@[i].0 == b);
                    }
                }
            }
            key = key + 1;
        }
        r
    }
}


impl ArtNode {
    /// The node with its header replaced (a leaf stays as it is).
    pub open spec fn with_hdr(self, h: NodeHeader) -> ArtNode {
        match self {
            ArtNode::Node4(n) => ArtNode::Node4(Box::new(Node4 { header: h, ..*n })),
            ArtNode::Node16(n) => ArtNode::Node16(Box::new(Node16 { header: h, ..*n })),
            ArtNode::Node48(n) => ArtNode::Node48(Box::new(Node48 { header: h, ..*n })),
            ArtNode::Node256(n) => ArtNode::Node256(Box::new(Node256 { header: h, ..*n })),
            ArtNode::Leaf(l) => ArtNode::Leaf(l),
        }
    }

    /// Get the header of an inner node.
    pub fn header(&self) -> (r: &NodeHeader)
        requires
            !(self is Leaf),
        ensures
            *r == self.hdr(),
    {
        match self {
            ArtNode::Node4(n) => &n.header,
            ArtNode::Node16(n) => &n.header,
            ArtNode::Node48(n) => &n.header,
            ArtNode::Node256(n) => &n.header,
            ArtNode::Leaf(_) => vstd::pervasive::unreached(),
        }
    }

    /// Get the mutable header of an inner node.
    pub fn header_mut(&mut self) -> (r: &mut NodeHeader)
        requires
            !(*old(self) is Leaf),
        ensures
            *r == old(self).hdr(),
            *final(self) == old(self).with_hdr(*final(r)),
    {
        match self {
            ArtNode::Node4(n) => &mut n.header,
            ArtNode::Node16(n) => &mut n.header,
            ArtNode::Node48(n) => &mut n.header,
            ArtNode::Node256(n) => &mut n.header,
            ArtNode::Leaf(_) => vstd::pervasive::unreached(),
        }
    }

    /// The header of any node (None for a leaf)
    pub fn try_header(&self) -> (r: Option<&NodeHeader>)
        ensures
            r is None <==> self is Leaf,
            r matches Some(h) ==> *h == self.hdr(),
    {
        match self {
            ArtNode::Node4(n) => Some(&n.header),
            ArtNode::Node16(n) => Some(&n.header),
            ArtNode::Node48(n) => Some(&n.header),
            ArtNode::Node256(n) => Some(&n.header),
            ArtNode::Leaf(_) => None,
        }
    }

    /// The mutable header of any node (None for a leaf)
    pub fn try_header_mut(&mut self) -> (r: Option<&mut NodeHeader>)
        ensures
            r is None <==> *old(self) is Leaf,
            r is None ==> *final(self) == *old(self),
            r matches Some(h) ==> *h == old(self).hdr() && *final(self) == old(self).with_hdr(*final(h)),
    {
        match self {
            ArtNode::Node4(n) => Some(&mut n.header),
            ArtNode::Node16(n) => Some(&mut n.header),
            ArtNode::Node48(n) => Some(&mut n.header),
            ArtNode::Node256(n) => Some(&mut n.header),
            ArtNode::Leaf(_) => None,
        }
    }

    /// Check if this is a leaf node
    pub fn is_leaf(&self) -> (r: bool)
        ensures
            r == (self is Leaf),
    {
        match self {
            ArtNode::Leaf(_) => true,
            _ => false,
        }
    }

    /// The leaf, if this is one
    pub fn as_leaf(&self) -> (r: Option<&LeafNode>)
        ensures
            r is None <==> !(self is Leaf),
            r matches Some(l) ==> self == ArtNode::Leaf(*l),
    {
        match self {
            ArtNode::Leaf(leaf) => Some(leaf),
            _ => None,
        }
    }

    /// The leaf, mutably, if this is one
    pub fn as_leaf_mut(&mut self) -> (r: Option<&mut LeafNode>)
        ensures
            r is None <==> !(*old(self) is Leaf),
            r is None ==> *final(self) == *old(self),
            r matches Some(l) ==> *old(self) == ArtNode::Leaf(*l) && *final(self) == ArtNode::Leaf(*final(l)),
    {
        match self {
            ArtNode::Leaf(leaf) => Some(leaf),
            _ => None,
        }
    }

    /// Get a child by key byte
    pub fn get_child(&self, key: u8) -> (r: Option<&ArtNode>)
        requires
            self.local_wf(),
        ensures
            ref_matches(r, self.child(key)),
    {
        match self {
            ArtNode::Node4(n) => n.get_child(key),
            ArtNode::Node16(n) => n.get_child(key),
            ArtNode::Node48(n) => n.get_child(key),
            ArtNode::Node256(n) => n.get_child(key),
            ArtNode::Leaf(_) => None,
        }
    }

    /// Get a mutable child by key byte
    pub fn get_child_mut(&mut self, key: u8) -> (r: Option<&mut ArtNode>)
        requires
            old(self).local_wf(),
        ensures
            r is Some <==> old(self).child(key) is Some,
            r matches Some(c) ==> {
                &&& old(self).child(key) == Some(*c)
                &&& final(self).child(key) == Some(*final(c))
            },
            final(self).local_wf(),
            final(self).kind() == old(self).kind(),
            !(*old(self) is Leaf) ==> final(self).hdr() == old(self).hdr(),
            *old(self) is Leaf ==> *final(self) == *old(self),
            forall|b: u8| b != key ==> #[trigger] final(self).child(b) == old(self).child(b),
    {
        match self {
            ArtNode::Node4(n) => n.get_child_mut(key),
            ArtNode::Node16(n) => n.get_child_mut(key),
            ArtNode::Node48(n) => n.get_child_mut(key),
            ArtNode::Node256(n) => n.get_child_mut(key),
            ArtNode::Leaf(_) => None,
        }
    }

    /// Number of children
    pub fn num_children(&self) -> (r: u16)
        ensures
            r == if self is Leaf { 0 } else { self.hdr().num_children },
    {
        match self {
            ArtNode::Node4(n) => n.header.num_children,
            ArtNode::Node16(n) => n.header.num_children,
            ArtNode::Node48(n) => n.header.num_children,
            ArtNode::Node256(n) => n.header.num_children,
            ArtNode::Leaf(_) => 0,
        }
    }
}


impl ArtNode {
    /// Which of the five node kinds this is.
    pub open spec fn kind(self) -> int {
        match self {
            ArtNode::Node4(_) => 4,
            ArtNode::Node16(_) => 16,
            ArtNode::Node48(_) => 48,
            ArtNode::Node256(_) => 256,
            ArtNode::Leaf(_) => 0,
        }
    }

    /// Is this node of the given kind (4, 16, 48 or 256 children, or 0 for a leaf)?
    pub fn kind_is(&self, k: u16) -> (r: bool)
        ensures
            r == (self.kind() == k),
    {
        match self {
            ArtNode::Node4(_) => k == 4,
            ArtNode::Node16(_) => k == 16,
            ArtNode::Node48(_) => k == 48,
            ArtNode::Node256(_) => k == 256,
            ArtNode::Leaf(_) => k == 0,
        }
    }

    /// Remove the child reached by a key byte, if any (a leaf has none)
    pub fn remove_child(&mut self, key: u8) -> (r: Option<ArtNode>)
        requires
            old(self).local_wf(),
        ensures
            r == old(self).child(key),
            final(self).local_wf(),
            final(self).kind() == old(self).kind(),
            final(self).child(key) is None,
            forall|b: u8| b != key ==> #[trigger] final(self).child(b) == old(self).child(b),
            !(*old(self) is Leaf) ==> same_header_but_count(final(self).hdr(), old(self).hdr()),
            *old(self) is Leaf ==> *final(self) == *old(self),
    {
        match self {
            ArtNode::Node4(n) => n.remove_child(key),
            ArtNode::Node16(n) => n.remove_child(key),
            ArtNode::Node48(n) => n.remove_child(key),
            ArtNode::Node256(n) => n.remove_child(key),
            ArtNode::Leaf(_) => None,
        }
    }
}

/// Add a child to an inner node, growing it to the next size when it is full;
/// a child already held for the key byte is replaced.
pub fn add_child_grow(node: ArtNode, key: u8, child: ArtNode) -> (r: ArtNode)
    requires
        node.local_wf(),
        !(node is Leaf),
    ensures
        r.local_wf(),
        !(r is Leaf),
        same_header_but_count(r.hdr(), node.hdr()),
        r.child(key) == Some(child),
        forall|b: u8| b != key ==> #[trigger] r.child(b) == node.child(b),
        r.kind() >= node.kind(),
{
    match node {
        ArtNode::Node4(bx) => {
            let mut n = *bx;
            if n.is_full() {
                let mut g = n.grow();
                g.add_child(key, child);
                ArtNode::Node16(Box::new(g))
            } else {
                n.add_child(key, child);
                ArtNode::Node4(Box::new(n))
            }
        },
        ArtNode::Node16(bx) => {
            let mut n = *bx;
            if n.is_full() {
                let mut g = n.grow();
                g.add_child(key, child);
                ArtNode::Node48(Box::new(g))
            } else {
                n.add_child(key, child);
                ArtNode::Node16(Box::new(n))
            }
        },
        ArtNode::Node48(bx) => {
            let mut n = *bx;
            if n.is_full() {
                let mut g = n.grow();
                g.add_child(key, child);
                ArtNode::Node256(Box::new(g))
            } else {
                n.add_child(key, child);
                ArtNode::Node48(Box::new(n))
            }
        },
        ArtNode::Node256(bx) => {
            let mut n = *bx;
            n.add_child(key, child);
            ArtNode::Node256(Box::new(n))
        },
        ArtNode::Leaf(_) => vstd::pervasive::unreached(),
    }
}

/// Two inner nodes with the same prefix, value and children hold the same keys
/// and are consistent together.
pub proof fn lemma_same_shape(a: ArtNode, b: ArtNode, path: Seq<u8>)
    requires
        !(a is Leaf),
        !(b is Leaf),
        a.local_wf(),
        b.local_wf(),
        a.hdr().prefix@ == b.hdr().prefix@,
        a.hdr().value_spec() == b.hdr().value_spec(),
        forall|x: u8| #[trigger] a.child(x) == b.child(x),
    ensures
        tree_wf(a, path) == tree_wf(b, path),
        forall|d: int, k: Seq<u8>| #[trigger] lookup(a, d, k) == lookup(b, d, k),
{
    assert forall|d: int, k: Seq<u8>| #[trigger] lookup(a, d, k) == lookup(b, d, k) by {
        let pre = a.hdr().prefix@;
        let e = d + pre.len();
        if 0 <= d && e <= k.len() && k.subrange(d, e) == pre && e < k.len() {
            assert(a.child(k[e]) == b.child(k[e]));
        }
    }
    if tree_wf(a, path) {
        assert forall|x: u8| #[trigger] b.child(x) is Some implies tree_wf(b.child(x)->Some_0, path + b.hdr().prefix@ + seq![x]) by {
            assert(a.child(x) == b.child(x));
        }
    }
    if tree_wf(b, path) {
        assert forall|x: u8| #[trigger] a.child(x) is Some implies tree_wf(a.child(x)->Some_0, path + a.hdr().prefix@ + seq![x]) by {
            assert(a.child(x) == b.child(x));
        }
    }
}

/// Cutting bytes off the front of a node's prefix and moving them onto its path
/// keeps it consistent and keeps what it holds.
pub proof fn lemma_shift_prefix(a: ArtNode, h: NodeHeader, path: Seq<u8>, q: Seq<u8>)
    requires
        !(a is Leaf),
        tree_wf(a, path),
        h.num_children == a.hdr().num_children,
        h.values@ == a.hdr().values@,
        a.hdr().prefix@ == q + h.prefix@,
    ensures
        tree_wf(a.with_hdr(h), path + q),
        a.with_hdr(h).local_wf(),
        a.with_hdr(h).kind() == a.kind(),
        forall|x: u8| #[trigger] a.with_hdr(h).child(x) == a.child(x),
        forall|d: int, k: Seq<u8>|
            0 <= d && d + q.len() <= k.len() && k.subrange(d, d + q.len()) == q ==> #[trigger] lookup(a.with_hdr(h), d + q.len(), k) == lookup(a, d, k),
{
    let a2 = a.with_hdr(h);
    assert(a2.hdr() == h);
    assert forall|x: u8| #[trigger] a2.child(x) == a.child(x) by {}
    assert(a2.local_wf());
    assert((path + q) + h.prefix@ =~= path + a.hdr().prefix@);
    assert forall|x: u8| #[trigger] a2.child(x) is Some implies tree_wf(a2.child(x)->Some_0, (path + q) + a2.hdr().prefix@ + seq![x]) by {
        assert(a.child(x) == a2.child(x));
    }
    assert forall|d: int, k: Seq<u8>|
        0 <= d && d + q.len() <= k.len() && k.subrange(d, d + q.len()) == q implies #[trigger] lookup(a2, d + q.len(), k) == lookup(a, d, k) by {
        let pre = a.hdr().prefix@;
        let e = d + pre.len();
        let d2 = d + q.len();
        assert(d2 + h.prefix@.len() == e);
        if e <= k.len() {
            assert(k.subrange(d, e) =~= k.subrange(d, d2) + k.subrange(d2, e));
            if k.subrange(d2, e) == h.prefix@ {
                assert(k.subrange(d, e) == pre);
            }
            if k.subrange(d, e) == pre {
                assert(k.subrange(d2, e) =~= pre.subrange(q.len() as int, pre.len() as int));
                assert(pre.subrange(q.len() as int, pre.len() as int) =~= h.prefix@);
            }
            if e < k.len() {
                assert(a2.child(k[e]) == a.child(k[e]));
            }
        }
    }
}


/// The value stored for `key` below an optional node.
pub open spec fn lookup_opt(node: Option<ArtNode>, d: int, key: Seq<u8>) -> Option<RowId> {
    match node {
        Some(n) => lookup(n, d, key),
        None => None,
    }
}

/// One step of a lookup at an inner node.
pub proof fn lemma_lookup_inner(node: ArtNode, d: int, k: Seq<u8>)
    requires
        !(node is Leaf),
    ensures
        lookup(node, d, k) == {
            let pre = node.hdr().prefix@;
            let e = d + pre.len();
            if 0 <= d && e <= k.len() && k.subrange(d, e) == pre {
                if e == k.len() {
                    node.hdr().value_spec()
                } else {
                    lookup_opt(node.child(k[e]), e + 1, k)
                }
            } else {
                None
            }
        },
{
}

} // verus!
