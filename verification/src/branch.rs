//! Branch bookkeeping for copy-on-write database branches.
//!
//! A branch is identified by a number and a name. Branch data lives under
//! keys of the form `bdata:<branch id, 8 bytes big-endian>:<user key>`.
//! Merging a source branch into a target branch is a three-way merge
//! against the snapshot the two branches share; dropped branches are
//! garbage-collected immediately or after a retention period.
use vstd::prelude::*;
use std::collections::HashMap;
use crate::text::{decimal, starts_with_bytes, extend_bytes};
use crate::text::decimal_spec;

verus! {

broadcast use {vstd::std_specs::hash::group_hash_axioms, vstd::utf8::encode_utf8_valid_utf8, vstd::utf8::encode_utf8_decode_utf8};

/// Snapshot identifier (timestamp-based versioning)
pub type SnapshotId = u64;

/// Branch identifier (globally unique)
pub type BranchId = u64;

/// Branch state
#[derive(Debug, Clone, Copy, PartialEq, Eq, Structural)]
pub enum BranchState {
    /// Branch is active
    Active,
    /// Branch has been merged
    Merged {
        /// Target branch ID
        into_branch: BranchId,
        /// Merge timestamp
        at_timestamp: u64,
    },
    /// Branch has been dropped
    Dropped {
        /// Drop timestamp
        at_timestamp: u64,
    },
}

/// Merge strategy for resolving conflicts
#[derive(Debug, Clone, Copy, PartialEq, Eq, Structural)]
pub enum MergeStrategy {
    /// Automatically resolve conflicts (prefer source)
    Auto,
    /// Fail on any conflict
    Manual,
    /// Always prefer source branch changes
    Theirs,
    /// Always prefer target branch changes
    Ours,
}

impl Default for MergeStrategy {
    fn default() -> (s: Self)
        ensures
            s == MergeStrategy::Auto,
    {
        MergeStrategy::Auto
    }
}

/// Conflict information for a key
#[derive(Debug, Clone)]
pub struct MergeConflict {
    /// Key that has conflict
    pub key: String,
    /// Value in merge base (common ancestor)
    pub base_value: Option<Vec<u8>>,
    /// Value in source branch
    pub source_value: Option<Vec<u8>>,
    /// Value in target branch
    pub target_value: Option<Vec<u8>>,
    /// Timestamp in source
    pub source_timestamp: u64,
    /// Timestamp in target
    pub target_timestamp: u64,
}

/// Result of merge operation
#[derive(Debug, Clone)]
pub struct MergeResult {
    /// Merge commit timestamp
    pub merge_timestamp: u64,
    /// Number of keys merged
    pub merged_keys: usize,
    /// Conflicts detected
    pub conflicts: Vec<MergeConflict>,
    /// Whether merge was completed
    pub completed: bool,
}

/// Git integration metadata for linking database branches to Git branches
#[derive(Debug, Clone)]
pub struct GitLinkMetadata {
    /// Git branch name (e.g., "feature/user-auth")
    pub git_branch: String,
    /// Last synced Git commit SHA
    pub last_commit: Option<String>,
    /// Auto-sync enabled (switch DB branch on git checkout)
    pub auto_sync: bool,
    /// Git provider (e.g., "github", "gitlab", "generic")
    pub provider: Option<String>,
    /// Associated PR/MR number (for preview branches)
    pub pr_number: Option<u64>,
    /// Repository path (for local detection)
    pub repo_path: Option<String>,
    /// Link creation timestamp
    pub linked_at: u64,
}

impl Default for GitLinkMetadata {
    fn default() -> (g: Self)
        ensures
            g.git_branch@ == Seq::<char>::empty(),
            g.last_commit is None,
            g.auto_sync,
            g.provider is None,
            g.pr_number is None,
            g.repo_path is None,
            g.linked_at == 0,
    {
        GitLinkMetadata {
            git_branch: String::new(),
            last_commit: None,
            auto_sync: true,
            provider: None,
            pr_number: None,
            repo_path: None,
            linked_at: 0,
        }
    }
}

/// Branch creation/merge options
#[derive(Debug, Clone)]
pub struct BranchOptions {
    /// Replication factor (for distributed mode)
    pub replication_factor: Option<usize>,
    /// Region hint (for distributed mode)
    pub region: Option<String>,
    /// Custom metadata
    pub metadata: HashMap<String, String>,
    /// Git integration link (links this DB branch to a Git branch)
    pub git_link: Option<GitLinkMetadata>,
}

impl Default for BranchOptions {
    fn default() -> (o: Self)
        ensures
            o.replication_factor is None,
            o.region is None,
            o.metadata@ == Map::<String, String>::empty(),
            o.git_link is None,
    {
        BranchOptions { replication_factor: None, region: None, metadata: HashMap::new(), git_link: None }
    }
}

/// Branch statistics
#[derive(Debug, Clone)]
pub struct BranchStats {
    /// Number of modified keys in this branch
    pub modified_keys: u64,
    /// Approximate storage size (bytes)
    pub storage_bytes: u64,
    /// Number of commits in this branch
    pub commit_count: u64,
    /// Last activity timestamp
    pub last_modified: u64,
}

impl Default for BranchStats {
    fn default() -> (s: Self)
        ensures
            s.modified_keys == 0,
            s.storage_bytes == 0,
            s.commit_count == 0,
            s.last_modified == 0,
    {
        BranchStats { modified_keys: 0, storage_bytes: 0, commit_count: 0, last_modified: 0 }
    }
}

/// Branch metadata
#[derive(Debug, Clone)]
pub struct BranchMetadata {
    /// Branch name (user-visible)
    pub name: String,
    /// Unique branch ID
    pub branch_id: BranchId,
    /// Parent branch ID (None for root)
    pub parent_id: Option<BranchId>,
    /// Creation timestamp
    pub created_at: u64,
    /// Snapshot at branch point
    pub created_from_snapshot: SnapshotId,
    /// Current state
    pub state: BranchState,
    /// Last merge base (for three-way merge)
    pub merge_base: Option<SnapshotId>,
    /// Additional metadata
    pub options: BranchOptions,
    /// Statistics
    pub stats: BranchStats,
}

/// Branch registry
#[derive(Debug, Clone)]
pub struct BranchRegistry {
    /// Map of branch ID -> branch name
    pub branches: HashMap<BranchId, String>,
    /// Main branch ID
    pub main_branch: BranchId,
    /// Next available branch ID
    pub next_branch_id: u64,
}

/// The names a registry holds, by branch id.
pub open spec fn registry_names(m: Map<BranchId, String>) -> Map<BranchId, Seq<char>> {
    m.map_values(|s: String| s@)
}

impl BranchRegistry {
    /// Create a new registry with the main branch
    pub fn new() -> (r: Self)
        ensures
            registry_names(r.branches@) == map![1u64 => "main"@],
            r.main_branch == 1,
            r.next_branch_id == 2,
    {
        let mut branches: HashMap<BranchId, String> = HashMap::new();
        branches.insert(1, String::from_str("main"));
        let r = BranchRegistry { branches, main_branch: 1, next_branch_id: 2 };
        proof {
            assert(registry_names(r.branches@) =~= map![1u64 => "main"@]);
        }
        r
    }

    /// Get next branch ID (auto-increment)
    pub fn next_id(&mut self) -> (id: BranchId)
        requires
            old(self).next_branch_id < u64::MAX,
        ensures
            id == old(self).next_branch_id,
            final(self).next_branch_id == old(self).next_branch_id + 1,
            final(self).branches@ == old(self).branches@,
            final(self).main_branch == old(self).main_branch,
    {
        let id = self.next_branch_id;
        self.next_branch_id = self.next_branch_id + 1;
        id
    }

    /// Add a branch
    pub fn add_branch(&mut self, branch_id: BranchId, name: String)
        ensures
            final(self).branches@ == old(self).branches@.insert(branch_id, name),
            final(self).main_branch == old(self).main_branch,
            final(self).next_branch_id == old(self).next_branch_id,
    {
        self.branches.insert(branch_id, name);
    }

    /// Remove a branch
    pub fn remove_branch(&mut self, branch_id: BranchId)
        ensures
            final(self).branches@ == old(self).branches@.remove(branch_id),
            final(self).main_branch == old(self).main_branch,
            final(self).next_branch_id == old(self).next_branch_id,
    {
        self.branches.remove(&branch_id);
    }

    /// Check if branch exists
    pub fn contains(&self, branch_id: BranchId) -> (r: bool)
        ensures
            r == self.branches@.contains_key(branch_id),
    {
        self.branches.contains_key(&branch_id)
    }

    /// Get branch name
    pub fn get_name(&self, branch_id: BranchId) -> (r: Option<&str>)
        ensures
            r is Some <==> self.branches@.contains_key(branch_id),
            r matches Some(s) ==> s@ == self.branches@[branch_id]@,
    {
        match self.branches.get(&branch_id) {
            Some(s) => Some(s.as_str()),
            None => None,
        }
    }
}

impl Default for BranchRegistry {
    fn default() -> (r: Self)
        ensures
            registry_names(r.branches@) == map![1u64 => "main"@],
            r.main_branch == 1,
            r.next_branch_id == 2,
    {
        Self::new()
    }
}

/// Branch garbage collection mode
#[derive(Debug, Clone, Copy, PartialEq, Eq, Structural)]
pub enum BranchGcMode {
    /// Immediate deletion (fast but may block)
    Immediate,
    /// Deferred deletion (non-blocking, GC runs later)
    Deferred,
}

/// Branch garbage collection configuration
#[derive(Debug, Clone, Copy)]
pub struct BranchGcConfig {
    /// Minimum retention period (seconds) before GC can delete branch data
    pub min_retention_seconds: u64,
    /// Whether to enable automatic GC on branch drop
    pub auto_gc_enabled: bool,
    /// GC mode: Immediate or Deferred
    pub gc_mode: BranchGcMode,
}

impl Default for BranchGcConfig {
    fn default() -> (c: Self)
        ensures
            c.min_retention_seconds == 300,
            c.auto_gc_enabled,
            c.gc_mode == BranchGcMode::Deferred,
    {
        BranchGcConfig { min_retention_seconds: 300, auto_gc_enabled: true, gc_mode: BranchGcMode::Deferred }
    }
}

/// What to do with a branch's data when the branch is dropped.
#[derive(Debug, Clone, Copy, PartialEq, Eq, Structural)]
pub enum GcAction {
    /// Automatic collection is off: leave the data
    Skip,
    /// Delete the branch's data now
    CollectNow,
    /// Queue the branch, stamped with the drop time, for a later collection run
    Queue { dropped_at: u64 },
}

/// The collection step that follows dropping a branch at time `now`.
pub fn gc_action_on_drop(config: &BranchGcConfig, now: u64) -> (a: GcAction)
    ensures
        !config.auto_gc_enabled ==> a == GcAction::Skip,
        config.auto_gc_enabled && config.gc_mode == BranchGcMode::Immediate ==> a == GcAction::CollectNow,
        config.auto_gc_enabled && config.gc_mode == BranchGcMode::Deferred ==> a == (GcAction::Queue { dropped_at: now }),
{
    if !config.auto_gc_enabled {
        GcAction::Skip
    } else {
        match config.gc_mode {
            BranchGcMode::Immediate => GcAction::CollectNow,
            BranchGcMode::Deferred => GcAction::Queue { dropped_at: now },
        }
    }
}

/// Has a branch dropped at `dropped_at` been queued at least `min_retention`
/// seconds by time `now`? (A drop time after `now` counts as age zero.)
pub open spec fn gc_due(now: u64, dropped_at: u64, min_retention: u64) -> bool {
    (if now >= dropped_at { now - dropped_at } else { 0 }) >= min_retention
}

/// Is a queued branch old enough to be collected?
pub fn gc_eligible(now: u64, dropped_at: u64, min_retention: u64) -> (r: bool)
    ensures
        r == gc_due(now, dropped_at, min_retention),
{
    now.saturating_sub(dropped_at) >= min_retention
}

/// The queued branches (id, drop time) that are old enough to be collected, in queue order.
pub fn gc_due_branches(pending: &Vec<(BranchId, u64)>, now: u64, min_retention: u64) -> (r: Vec<BranchId>)
    ensures
        r@ == pending@.filter(|e: (BranchId, u64)| gc_due(now, e.1, min_retention)).map_values(|e: (BranchId, u64)| e.0),
{
    let mut r: Vec<BranchId> = Vec::new();
    let mut i: usize = 0;
    while i < pending.len()
        invariant
            i <= pending@.len(),
            r@ == pending@.subrange(0, i as int).filter(|e: (BranchId, u64)| gc_due(now, e.1, min_retention)).map_values(
                |e: (BranchId, u64)| e.0,
            ),
        decreases pending@.len() - i,
    {
        let e = pending[i];
        proof {
            let f = |e: (BranchId, u64)| gc_due(now, e.1, min_retention);
            assert(pending@.subrange(0, i + 1) =~= pending@.subrange(0, i as int).push(e));
            crate::text::lemma_filter_push(pending@.subrange(0, i as int), f, e);
        }
        if gc_eligible(now, e.1, min_retention) {
            r.push(e.0);
        }
        i = i + 1;
        proof {
            let f = |e: (BranchId, u64)| gc_due(now, e.1, min_retention);
            let g = |e: (BranchId, u64)| e.0;
            let prev = pending@.subrange(0, i - 1).filter(f);
            if f(e) {
                assert(pending@.subrange(0, i as int).filter(f) == prev.push(e));
                assert(prev.push(e).map_values(g) =~= prev.map_values(g).push(e.0));
            } else {
                assert(pending@.subrange(0, i as int).filter(f) == prev);
            }
        }
    }
    proof {
        assert(pending@.subrange(0, pending@.len() as int) =~= pending@);
    }
    r
}

/// Errors of branch operations
#[derive(Debug, Clone)]
pub enum BranchError {
    /// A storage-level failure or a refused request
    Storage(String),
    /// A merge that cannot proceed
    Merge(String),
}

impl BranchError {
    /// The display text of the error.
    pub fn message(&self) -> (r: String)
        ensures
            r@ == match self {
                BranchError::Storage(m) => "Storage error: "@ + m@,
                BranchError::Merge(m) => "Branch merge error: "@ + m@,
            },
    {
        match self {
            BranchError::Storage(m) => String::from_str("Storage error: ").concat(m.as_str()),
            BranchError::Merge(m) => String::from_str("Branch merge error: ").concat(m.as_str()),
        }
    }
}

/// The message refusing to drop a branch that still has children.
pub open spec fn has_children_message(name: Seq<char>, children: nat) -> Seq<char> {
    "Cannot drop branch '"@ + name + "': has "@ + decimal_spec(children) + " child branch(es)"@
}

/// Decide whether a branch may be dropped: `found` says whether the branch
/// exists, `is_main` whether it is the main branch, `children` how many child
/// branches it has. `Ok(true)` means drop it, `Ok(false)` that there is
/// nothing to do (a missing branch with `if_exists`).
pub fn check_drop(name: &str, found: bool, if_exists: bool, is_main: bool, children: u64) -> (r: Result<bool, BranchError>)
    ensures
        !found && if_exists ==> r == Ok::<bool, BranchError>(false),
        !found && !if_exists ==> (r matches Err(BranchError::Storage(m)) && m@ == "Branch '"@ + name@ + "' not found"@),
        found && is_main ==> (r matches Err(BranchError::Storage(m)) && m@ == "Cannot drop main branch"@),
        found && !is_main && children > 0 ==> (r matches Err(BranchError::Storage(m)) && m@ == has_children_message(
            name@,
            children as nat,
        )),
        found && !is_main && children == 0 ==> r == Ok::<bool, BranchError>(true),
{
    if !found {
        if if_exists {
            return Ok(false);
        }
        return Err(BranchError::Storage(String::from_str("Branch '").concat(name).concat("' not found")));
    }
    if is_main {
        return Err(BranchError::Storage(String::from_str("Cannot drop main branch")));
    }
    if children > 0 {
        let count = decimal(children);
        return Err(
            BranchError::Storage(
                String::from_str("Cannot drop branch '").concat(name).concat("': has ").concat(count.as_str()).concat(
                    " child branch(es)",
                ),
            ),
        );
    }
    Ok(true)
}

/// The snapshot of the first entry of `target` (in order) whose snapshot also
/// occurs in `source`, if any.
pub open spec fn first_common_snapshot(source: Seq<(BranchId, SnapshotId)>, target: Seq<(BranchId, SnapshotId)>) -> Option<SnapshotId>
    decreases target.len(),
{
    if target.len() == 0 {
        None
    } else if exists|i: int| 0 <= i < source.len() && source[i].1 == target[0].1 {
        Some(target[0].1)
    } else {
        first_common_snapshot(source, target.drop_first())
    }
}

/// The merge base of two branches: the most recent snapshot on both parent
/// chains; failing that the shared creation snapshot; failing that the
/// earlier creation snapshot.
pub open spec fn merge_base_spec(
    source_chain: Seq<(BranchId, SnapshotId)>,
    target_chain: Seq<(BranchId, SnapshotId)>,
    source_created: SnapshotId,
    target_created: SnapshotId,
) -> SnapshotId {
    match first_common_snapshot(source_chain, target_chain) {
        Some(s) => s,
        None => if source_created <= target_created { source_created } else { target_created },
    }
}

/// Find the merge base of two branches from their parent chains (each a list
/// of (parent id, snapshot) from the branch up to the root) and their creation snapshots.
pub fn find_merge_base(
    source_chain: &Vec<(BranchId, SnapshotId)>,
    target_chain: &Vec<(BranchId, SnapshotId)>,
    source_created: SnapshotId,
    target_created: SnapshotId,
) -> (r: SnapshotId)
    ensures
        r == merge_base_spec(source_chain@, target_chain@, source_created, target_created),
{
    let mut j: usize = 0;
    proof {
        assert(target_chain@.subrange(0, target_chain@.len() as int) =~= target_chain@);
    }
    while j < target_chain.len()
        invariant
            j <= target_chain@.len(),
            first_common_snapshot(source_chain@, target_chain@) == first_common_snapshot(
                source_chain@,
                target_chain@.subrange(j as int, target_chain@.len() as int),
            ),
        decreases target_chain@.len() - j,
    {
        let ghost rest = target_chain@.subrange(j as int, target_chain@.len() as int);
        let snap = target_chain[j].1;
        let mut found = false;
        let mut i: usize = 0;
        while i < source_chain.len()
            invariant
                i <= source_chain@.len(),
                found <==> exists|k: int| 0 <= k < i && source_chain@[k].1 == snap,
            decreases source_chain@.len() - i,
        {
            if source_chain[i].1 == snap {
                found = true;
            }
            i = i + 1;
        }
        if found {
            return snap;
        }
        proof {
            assert(rest.drop_first() =~= target_chain@.subrange(j + 1, target_chain@.len() as int));
        }
        j = j + 1;
    }
    proof {
        assert(target_chain@.subrange(j as int, target_chain@.len() as int).len() == 0);
    }
    if source_created == target_created {
        source_created
    } else if source_created <= target_created {
        source_created
    } else {
        target_created
    }
}

/// The view of an optional value.
pub open spec fn opt_bytes(o: Option<Vec<u8>>) -> Option<Seq<u8>> {
    match o {
        Some(v) => Some(v@),
        None => None,
    }
}

/// Are two optional values equal?
fn opt_bytes_eq(a: &Option<Vec<u8>>, b: &Option<Vec<u8>>) -> (r: bool)
    ensures
        r == (opt_bytes(*a) == opt_bytes(*b)),
{
    match (a, b) {
        (Some(x), Some(y)) => crate::text::same_bytes(x.as_slice(), y.as_slice()),
        (None, None) => true,
        _ => false,
    }
}

/// Do the three versions of a key conflict: both branches changed it from the
/// base, and to different values?
pub open spec fn conflicts_spec(base: Option<Seq<u8>>, source: Option<Seq<u8>>, target: Option<Seq<u8>>) -> bool {
    source != base && target != base && source != target
}

/// A key is a conflict exactly when it is in the target and both branches
/// changed it from the base, to different values. In particular both
/// branches changing a key to the same value is never a conflict.
pub proof fn law_conflict_is_divergent_change(e: KeyVersions)
    ensures
        is_conflict_entry(e) <==> (e.in_target && opt_bytes(e.source) != opt_bytes(e.base) && opt_bytes(e.target) != opt_bytes(
            e.base,
        ) && opt_bytes(e.source) != opt_bytes(e.target)),
        opt_bytes(e.source) == opt_bytes(e.target) ==> !is_conflict_entry(e),
{
}

/// No element passes the filter: it keeps nothing.
proof fn lemma_filter_len_zero<A>(s: Seq<A>, f: spec_fn(A) -> bool)
    requires
        forall|i: int| 0 <= i < s.len() ==> !f(#[trigger] s[i]),
    ensures
        s.filter(f).len() == 0,
    decreases s.len(),
{
    if s.len() > 0 {
        let d = s.drop_last();
        assert forall|i: int| 0 <= i < d.len() implies !f(#[trigger] d[i]) by {
            assert(d[i] == s[i]);
        }
        lemma_filter_len_zero(d, f);
        assert(s =~= d.push(s.last()));
        assert(!f(s[s.len() - 1]));
        crate::text::lemma_filter_push(d, f, s.last());
    }
}

/// What a merge reads of one key of the source branch.
#[derive(Debug, Clone)]
pub struct KeyVersions {
    /// The user key
    pub key: String,
    /// Whether the target branch also has the key
    pub in_target: bool,
    /// Value at the merge base
    pub base: Option<Vec<u8>>,
    /// Latest value in the source branch
    pub source: Option<Vec<u8>>,
    /// Latest value in the target branch
    pub target: Option<Vec<u8>>,
}

/// Is this key a conflict of the merge?
pub open spec fn is_conflict_entry(e: KeyVersions) -> bool {
    e.in_target && conflicts_spec(opt_bytes(e.base), opt_bytes(e.source), opt_bytes(e.target))
}

/// Does the merge copy the source's value of this key into the target?
/// Keys only in the source are copied; a conflict is copied unless the
/// strategy keeps the target's side; any other key is copied when the source
/// changed it from the base.
pub open spec fn copies_entry(e: KeyVersions, strategy: MergeStrategy) -> bool {
    if !e.in_target {
        true
    } else if is_conflict_entry(e) {
        strategy == MergeStrategy::Auto || strategy == MergeStrategy::Theirs
    } else {
        opt_bytes(e.source) != opt_bytes(e.base)
    }
}

/// The plan of a merge: the conflicts found, the keys whose source value is
/// copied into the target, and whether the merge goes ahead.
#[derive(Debug, Clone)]
pub struct MergePlan {
    /// Conflicting keys with their three versions
    pub conflicts: Vec<MergeConflict>,
    /// Keys to copy from the source into the target
    pub copy_keys: Vec<String>,
    /// Whether the merge goes ahead (a manual merge with conflicts does not)
    pub completed: bool,
}

/// The conflict record of a key.
pub open spec fn conflict_of(e: KeyVersions) -> (Seq<char>, Option<Seq<u8>>, Option<Seq<u8>>, Option<Seq<u8>>) {
    (e.key@, opt_bytes(e.base), opt_bytes(e.source), opt_bytes(e.target))
}

/// The view of a conflict record.
pub open spec fn conflict_view(c: MergeConflict) -> (Seq<char>, Option<Seq<u8>>, Option<Seq<u8>>, Option<Seq<u8>>) {
    (c.key@, opt_bytes(c.base_value), opt_bytes(c.source_value), opt_bytes(c.target_value))
}

fn clone_opt(o: &Option<Vec<u8>>) -> (r: Option<Vec<u8>>)
    ensures
        opt_bytes(r) == opt_bytes(*o),
{
    match o {
        Some(v) => Some(crate::art_node::bytes_to_vec(v.as_slice())),
        None => None,
    }
}

/// Plan a three-way merge of the source branch's keys (`entries`, one per
/// key of the source) with the given strategy.
pub fn plan_merge(entries: &Vec<KeyVersions>, strategy: MergeStrategy) -> (p: MergePlan)
    ensures
        p.conflicts@.map_values(|c: MergeConflict| conflict_view(c)) == entries@.filter(|e: KeyVersions| is_conflict_entry(e)).map_values(
            |e: KeyVersions| conflict_of(e),
        ),
        forall|i: int| 0 <= i < p.conflicts@.len() ==> (#[trigger] p.conflicts@[i]).source_timestamp == 0
            && p.conflicts@[i].target_timestamp == 0,
        p.completed == !(strategy == MergeStrategy::Manual && p.conflicts@.len() > 0),
        p.completed ==> p.copy_keys@.map_values(|k: String| k@) == entries@.filter(|e: KeyVersions| copies_entry(e, strategy)).map_values(
            |e: KeyVersions| e.key@,
        ),
        !p.completed ==> p.copy_keys@.len() == 0,
        (forall|i: int| 0 <= i < entries@.len() ==> opt_bytes((#[trigger] entries@[i]).source) == opt_bytes(entries@[i].target))
            ==> p.conflicts@.len() == 0 && p.completed,
        (exists|i: int| 0 <= i < entries@.len() && (#[trigger] entries@[i]).in_target && opt_bytes(entries@[i].source) != opt_bytes(
            entries@[i].base,
        ) && opt_bytes(entries@[i].target) != opt_bytes(entries@[i].base) && opt_bytes(entries@[i].source) != opt_bytes(
            entries@[i].target,
        )) ==> p.conflicts@.len() > 0,
{
    let ghost fc = |e: KeyVersions| is_conflict_entry(e);
    let ghost fk = |e: KeyVersions| copies_entry(e, strategy);
    let ghost gc = |e: KeyVersions| conflict_of(e);
    let ghost gk = |e: KeyVersions| e.key@;
    let ghost vc = |c: MergeConflict| conflict_view(c);
    let ghost vk = |k: String| k@;
    let mut conflicts: Vec<MergeConflict> = Vec::new();
    let mut copy_keys: Vec<String> = Vec::new();
    let mut i: usize = 0;
    while i < entries.len()
        invariant
            i <= entries@.len(),
            conflicts@.map_values(vc) == entries@.subrange(0, i as int).filter(fc).map_values(gc),
            copy_keys@.map_values(vk) == entries@.subrange(0, i as int).filter(fk).map_values(gk),
            forall|t: int| 0 <= t < conflicts@.len() ==> (#[trigger] conflicts@[t]).source_timestamp == 0
                && conflicts@[t].target_timestamp == 0,
            fc == (|e: KeyVersions| is_conflict_entry(e)),
            fk == (|e: KeyVersions| copies_entry(e, strategy)),
            gc == (|e: KeyVersions| conflict_of(e)),
            gk == (|e: KeyVersions| e.key@),
            vc == (|c: MergeConflict| conflict_view(c)),
            vk == (|k: String| k@),
        decreases entries@.len() - i,
    {
        let e = &entries[i];
        let ghost ev = entries@[i as int];
        proof {
            assert(entries@.subrange(0, i + 1) =~= entries@.subrange(0, i as int).push(ev));
            crate::text::lemma_filter_push(entries@.subrange(0, i as int), fc, ev);
            crate::text::lemma_filter_push(entries@.subrange(0, i as int), fk, ev);
        }
        let changed_source = !opt_bytes_eq(&e.source, &e.base);
        let conflict = e.in_target && changed_source && !opt_bytes_eq(&e.target, &e.base) && !opt_bytes_eq(&e.source, &e.target);
        let ghost c0 = conflicts@;
        let ghost k0 = copy_keys@;
        if conflict {
            conflicts.push(
                MergeConflict {
                    key: e.key.clone(),
                    base_value: clone_opt(&e.base),
                    source_value: clone_opt(&e.source),
                    target_value: clone_opt(&e.target),
                    source_timestamp: 0,
                    target_timestamp: 0,
                },
            );
            proof {
                assert(conflicts@ == c0.push(conflicts@[conflicts@.len() - 1]));
                assert(conflicts@.map_values(vc) =~= c0.map_values(vc).push(gc(ev)));
            }
        }
        let copy = if !e.in_target {
            true
        } else if conflict {
            match strategy {
                MergeStrategy::Auto => true,
                MergeStrategy::Theirs => true,
                _ => false,
            }
        } else {
            changed_source
        };
        if copy {
            copy_keys.push(e.key.clone());
            proof {
                assert(copy_keys@ == k0.push(copy_keys@[copy_keys@.len() - 1]));
                assert(copy_keys@.map_values(vk) =~= k0.map_values(vk).push(gk(ev)));
            }
        }
        i = i + 1;
    }
    proof {
        assert(entries@.subrange(0, entries@.len() as int) =~= entries@);
        if forall|i: int| 0 <= i < entries@.len() ==> opt_bytes((#[trigger] entries@[i]).source) == opt_bytes(entries@[i].target) {
            assert forall|i: int| 0 <= i < entries@.len() implies !fc(#[trigger] entries@[i]) by {
                law_conflict_is_divergent_change(entries@[i]);
            }
            lemma_filter_len_zero(entries@, fc);
            assert(conflicts@.map_values(vc).len() == 0);
        }
        if exists|i: int| 0 <= i < entries@.len() && (#[trigger] entries@[i]).in_target && opt_bytes(entries@[i].source) != opt_bytes(
            entries@[i].base,
        ) && opt_bytes(entries@[i].target) != opt_bytes(entries@[i].base) && opt_bytes(entries@[i].source) != opt_bytes(
            entries@[i].target,
        ) {
            let i = choose|i: int| 0 <= i < entries@.len() && (#[trigger] entries@[i]).in_target && opt_bytes(entries@[i].source)
                != opt_bytes(entries@[i].base) && opt_bytes(entries@[i].target) != opt_bytes(entries@[i].base) && opt_bytes(
                entries@[i].source,
            ) != opt_bytes(entries@[i].target);
            law_conflict_is_divergent_change(entries@[i]);
            assert(fc(entries@[i]));
            entries@.lemma_filter_contains(fc, i);
            assert(conflicts@.map_values(vc).len() > 0);
        }
    }
    let completed = !(match strategy {
        MergeStrategy::Manual => true,
        _ => false,
    } && conflicts.len() > 0);
    if !completed {
        copy_keys = Vec::new();
    }
    MergePlan { conflicts, copy_keys, completed }
}

/// The bytes every branch data key starts with: `bdata:`.
pub open spec fn branch_data_prefix() -> Seq<u8> {
    seq![98u8, 100u8, 97u8, 116u8, 97u8, 58u8]
}

/// The eight big-endian bytes of `x`.
pub open spec fn be_bytes(x: u64) -> Seq<u8> {
    seq![
        (x >> 56u64) as u8,
        (x >> 48u64) as u8,
        (x >> 40u64) as u8,
        (x >> 32u64) as u8,
        (x >> 24u64) as u8,
        (x >> 16u64) as u8,
        (x >> 8u64) as u8,
        x as u8,
    ]
}

/// The number that eight big-endian bytes encode.
pub open spec fn be_u64(b: Seq<u8>) -> u64 {
    ((b[0] as u64) << 56u64) | ((b[1] as u64) << 48u64) | ((b[2] as u64) << 40u64) | ((b[3] as u64) << 32u64) | ((
    b[4] as u64) << 24u64) | ((b[5] as u64) << 16u64) | ((b[6] as u64) << 8u64) | (b[7] as u64)
}

/// Big-endian bytes give back the number they encode.
pub proof fn lemma_be_roundtrip(x: u64)
    ensures
        be_u64(be_bytes(x)) == x,
{
    let b = be_bytes(x);
    assert(((((x >> 56u64) as u8) as u64) << 56u64) | ((((x >> 48u64) as u8) as u64) << 48u64) | ((((x >> 40u64) as u8) as u64)
        << 40u64) | ((((x >> 32u64) as u8) as u64) << 32u64) | ((((x >> 24u64) as u8) as u64) << 24u64) | ((((x >> 16u64) as u8)
        as u64) << 16u64) | ((((x >> 8u64) as u8) as u64) << 8u64) | ((x as u8) as u64) == x) by (bit_vector);
}

/// The key under which branch `branch_id` stores `user_key`.
pub open spec fn branch_data_key_spec(branch_id: BranchId, user_key: Seq<char>) -> Seq<u8> {
    branch_data_prefix() + be_bytes(branch_id) + seq![58u8] + vstd::utf8::encode_utf8(user_key)
}

/// What a branch data key names: the branch and the user key, or nothing for
/// bytes that are not such a key (wrong prefix, too short, no separator, or a
/// user key that is not UTF-8).
pub open spec fn decode_branch_data_key_spec(key: Seq<u8>) -> Option<(BranchId, Seq<char>)> {
    if key.len() >= 15 && branch_data_prefix().is_prefix_of(key) && key[14] == 58u8 && vstd::utf8::valid_utf8(
        key.subrange(15, key.len() as int),
    ) {
        Some((be_u64(key.subrange(6, 14)), vstd::utf8::decode_utf8(key.subrange(15, key.len() as int))))
    } else {
        None
    }
}

/// The prefix of branch metadata keys: `branch:meta:`.
pub open spec fn branch_meta_prefix() -> Seq<u8> {
    "branch:meta:"@.map_values(|c: char| c as u8)
}

/// The prefix of branch children keys: `branch:children:`.
pub open spec fn branch_children_prefix() -> Seq<u8> {
    "branch:children:"@.map_values(|c: char| c as u8)
}

/// The bytes of an ASCII text.
fn ascii_bytes(t: &str) -> (r: Vec<u8>)
    requires
        forall|i: int| 0 <= i < t@.len() ==> (t@[i] as u32) < 128,
    ensures
        r@ == t@.map_values(|c: char| c as u8),
{
    let mut r: Vec<u8> = Vec::new();
    let n = t.unicode_len();
    let mut i: usize = 0;
    while i < n
        invariant
            n == t@.len(),
            i <= n,
            forall|j: int| 0 <= j < t@.len() ==> (t@[j] as u32) < 128,
            r@ == t@.subrange(0, i as int).map_values(|c: char| c as u8),
        decreases n - i,
    {
        let c = t.get_char(i);
        r.push(c as u8);
        proof {
            assert(t@.subrange(0, i + 1) =~= t@.subrange(0, i as int).push(c));
            assert(r@ =~= t@.subrange(0, i + 1).map_values(|c: char| c as u8));
        }
        i = i + 1;
    }
    proof {
        assert(t@.subrange(0, n as int) =~= t@);
    }
    r
}

/// The key of a branch's metadata: `branch:meta:` then the branch name.
pub fn encode_branch_meta_key(branch_name: &str) -> (key: Vec<u8>)
    ensures
        key@ == branch_meta_prefix() + vstd::utf8::encode_utf8(branch_name@),
{
    proof {
        reveal_strlit("branch:meta:");
    }
    let mut key = ascii_bytes("branch:meta:");
    extend_bytes(&mut key, branch_name.as_bytes());
    key
}

/// The key of a branch's child list: `branch:children:` then the parent id
/// as eight big-endian bytes.
pub fn encode_branch_children_key(parent_id: BranchId) -> (key: Vec<u8>)
    ensures
        key@ == branch_children_prefix() + be_bytes(parent_id),
{
    proof {
        reveal_strlit("branch:children:");
    }
    let mut key = ascii_bytes("branch:children:");
    let ghost p = key@;
    key.push((parent_id >> 56u64) as u8);
    key.push((parent_id >> 48u64) as u8);
    key.push((parent_id >> 40u64) as u8);
    key.push((parent_id >> 32u64) as u8);
    key.push((parent_id >> 24u64) as u8);
    key.push((parent_id >> 16u64) as u8);
    key.push((parent_id >> 8u64) as u8);
    key.push(parent_id as u8);
    proof {
        assert(key@ =~= p + be_bytes(parent_id));
    }
    key
}

/// Encode a branch data key
///
/// Format: bdata:<branch_id>:<user_key>
/// Note: timestamp parameter is kept for backward compatibility but not used in the key
pub fn encode_branch_data_key(branch_id: BranchId, user_key: &str, _timestamp: u64) -> (key: Vec<u8>)
    ensures
        key@ == branch_data_key_spec(branch_id, user_key@),
{
    let mut key: Vec<u8> = Vec::new();
    key.push(98u8);
    key.push(100u8);
    key.push(97u8);
    key.push(116u8);
    key.push(97u8);
    key.push(58u8);
    key.push((branch_id >> 56u64) as u8);
    key.push((branch_id >> 48u64) as u8);
    key.push((branch_id >> 40u64) as u8);
    key.push((branch_id >> 32u64) as u8);
    key.push((branch_id >> 24u64) as u8);
    key.push((branch_id >> 16u64) as u8);
    key.push((branch_id >> 8u64) as u8);
    key.push(branch_id as u8);
    key.push(58u8);
    extend_bytes(&mut key, user_key.as_bytes());
    proof {
        assert(key@ =~= branch_data_key_spec(branch_id, user_key@));
    }
    key
}

/// Decode a branch data key, returning (branch_id, user_key)
pub fn decode_branch_data_key(key: &[u8]) -> (r: Option<(BranchId, String)>)
    ensures
        match r {
            Some((id, s)) => decode_branch_data_key_spec(key@) == Some((id, s@)),
            None => decode_branch_data_key_spec(key@) is None,
        },
{
    let prefix: [u8; 6] = [98u8, 100u8, 97u8, 116u8, 97u8, 58u8];
    proof {
        assert(prefix@ =~= branch_data_prefix());
    }
    if !starts_with_bytes(key, prefix.as_slice()) {
        return None;
    }
    if key.len() < 15 {
        return None;
    }
    let id: u64 = ((key[6] as u64) << 56u64) | ((key[7] as u64) << 48u64) | ((key[8] as u64) << 40u64) | ((key[9] as u64)
        << 32u64) | ((key[10] as u64) << 24u64) | ((key[11] as u64) << 16u64) | ((key[12] as u64) << 8u64) | (key[13] as u64);
    if key[14] != 58u8 {
        return None;
    }
    let mut rest: Vec<u8> = Vec::new();
    extend_bytes(&mut rest, key.split_at(15).1);
    proof {
        assert(key@.subrange(6, 14)[0] == key@[6]);
        assert(key@.subrange(6, 14)[1] == key@[7]);
        assert(key@.subrange(6, 14)[2] == key@[8]);
        assert(key@.subrange(6, 14)[3] == key@[9]);
        assert(key@.subrange(6, 14)[4] == key@[10]);
        assert(key@.subrange(6, 14)[5] == key@[11]);
        assert(key@.subrange(6, 14)[6] == key@[12]);
        assert(key@.subrange(6, 14)[7] == key@[13]);
        assert(rest@ =~= key@.subrange(15, key@.len() as int));
    }
    match utf8_string(rest) {
        Ok(s) => Some((id, s)),
        Err(_) => None,
    }
}

/// `String::from_utf8`: the bytes as a string when they are valid UTF-8, else
/// the display text of the conversion error (nothing is stated of that text).
#[verifier::external_body]
pub(crate) fn utf8_string(bytes: Vec<u8>) -> (r: Result<String, String>)
    ensures
        r is Ok <==> vstd::utf8::valid_utf8(bytes@),
        r matches Ok(s) ==> s@ == vstd::utf8::decode_utf8(bytes@),
{
    match String::from_utf8(bytes) {
        Ok(s) => Ok(s),
        Err(e) => Err(e.to_string()),
    }
}

/// A branch data key decodes to the branch and user key it was encoded from.
pub proof fn law_branch_key_roundtrip(branch_id: BranchId, user_key: Seq<char>)
    ensures
        decode_branch_data_key_spec(branch_data_key_spec(branch_id, user_key)) == Some((branch_id, user_key)),
{
    let k = branch_data_key_spec(branch_id, user_key);
    let enc = vstd::utf8::encode_utf8(user_key);
    assert(k.subrange(0, 6) =~= branch_data_prefix());
    assert(k.subrange(6, 14) =~= be_bytes(branch_id));
    assert(k.subrange(15, k.len() as int) =~= enc);
    lemma_be_roundtrip(branch_id);
}


/// `String::from_utf8_lossy`: the text of the bytes, exactly their decoding
/// when they are valid UTF-8 (for other bytes, where each invalid sequence
/// becomes U+FFFD, nothing is stated).
#[verifier::external_body]
fn utf8_lossy(bytes: &[u8]) -> (r: String)
    ensures
        vstd::utf8::valid_utf8(bytes@) ==> r@ == vstd::utf8::decode_utf8(bytes@),
{
    String::from_utf8_lossy(bytes).into_owned()
}

/// The key under which an ancestor holds a user key: the raw key itself on
/// the main branch (id 1), the ancestor's branch data key elsewhere.
pub open spec fn ancestor_key(parent_id: BranchId, user_key: Seq<char>, raw_key: Seq<u8>) -> Seq<u8> {
    if parent_id == 1 {
        raw_key
    } else {
        branch_data_key_spec(parent_id, user_key)
    }
}

/// The keys a read on a branch tries, in order: the branch's own data key,
/// then each ancestor's key, nearest ancestor first.
pub open spec fn read_path_spec(
    branch_id: BranchId,
    user_key: Seq<char>,
    raw_key: Seq<u8>,
    chain: Seq<(BranchId, SnapshotId)>,
) -> Seq<Seq<u8>> {
    seq![branch_data_key_spec(branch_id, user_key)] + chain.map_values(
        |p: (BranchId, SnapshotId)| ancestor_key(p.0, user_key, raw_key),
    )
}

/// The storage keys a read of `key` on a branch tries, in order, with its
/// parent chain (nearest ancestor first): copy-on-write reads take the
/// first of them that holds a value. The user key is the text of the key
/// bytes.
pub fn branch_read_keys(branch_id: BranchId, key: &[u8], parent_chain: &Vec<(BranchId, SnapshotId)>) -> (r: Vec<Vec<u8>>)
    ensures
        r@.len() == parent_chain@.len() + 1,
        exists|u: Seq<char>|
            #![trigger read_path_spec(branch_id, u, key@, parent_chain@)]
            (vstd::utf8::valid_utf8(key@) ==> u == vstd::utf8::decode_utf8(key@)) && r@.map_values(|k: Vec<u8>| k@)
                == read_path_spec(branch_id, u, key@, parent_chain@),
{
    let user_key = utf8_lossy(key);
    let ghost u = user_key@;
    let ghost f = |p: (BranchId, SnapshotId)| ancestor_key(p.0, u, key@);
    let ghost g = |k: Vec<u8>| k@;
    let mut r: Vec<Vec<u8>> = Vec::new();
    r.push(encode_branch_data_key(branch_id, user_key.as_str(), 0));
    let mut i: usize = 0;
    while i < parent_chain.len()
        invariant
            i <= parent_chain@.len(),
            u == user_key@,
            f == (|p: (BranchId, SnapshotId)| ancestor_key(p.0, u, key@)),
            g == (|k: Vec<u8>| k@),
            r@.map_values(g) == seq![branch_data_key_spec(branch_id, u)] + parent_chain@.subrange(0, i as int).map_values(f),
        decreases parent_chain@.len() - i,
    {
        let (pid, _snap) = parent_chain[i];
        let k = if pid == 1 {
            crate::art_node::bytes_to_vec(key)
        } else {
            encode_branch_data_key(pid, user_key.as_str(), 0)
        };
        let ghost r0 = r@;
        r.push(k);
        proof {
            assert(parent_chain@.subrange(0, i + 1) =~= parent_chain@.subrange(0, i as int).push(parent_chain@[i as int]));
            assert(r@ == r0.push(k));
            assert(r@.map_values(g) =~= r0.map_values(g).push(k@));
            assert(k@ == f(parent_chain@[i as int]));
            assert(seq![branch_data_key_spec(branch_id, u)] + parent_chain@.subrange(0, i + 1).map_values(f) =~= (seq![
                branch_data_key_spec(branch_id, u),
            ] + parent_chain@.subrange(0, i as int).map_values(f)).push(f(parent_chain@[i as int])));
        }
        i = i + 1;
    }
    proof {
        assert(parent_chain@.subrange(0, i as int) =~= parent_chain@);
        assert(r@.map_values(g) == read_path_spec(branch_id, u, key@, parent_chain@));
    }
    r
}

/// The metadata of branch `id` among `bs`: the first entry with that id.
pub open spec fn branch_lookup(bs: Seq<BranchMetadata>, id: BranchId) -> Option<BranchMetadata>
    decreases bs.len(),
{
    if bs.len() == 0 {
        None
    } else if bs[0].branch_id == id {
        Some(bs[0])
    } else {
        branch_lookup(bs.drop_first(), id)
    }
}

/// The parent chain of branch `id`, following at most `steps` branches:
/// `None` when it is longer, `Some(Err(missing))` when a branch on it is
/// unknown, else the (parent id, creation snapshot of the child) pairs,
/// nearest ancestor first.
pub open spec fn chain_spec(bs: Seq<BranchMetadata>, id: BranchId, steps: nat) -> Option<Result<Seq<(BranchId, SnapshotId)>, BranchId>>
    decreases steps,
{
    if steps == 0 {
        None
    } else {
        match branch_lookup(bs, id) {
            None => Some(Err(id)),
            Some(m) => match m.parent_id {
                None => Some(Ok(Seq::empty())),
                Some(p) => match chain_spec(bs, p, (steps - 1) as nat) {
                    None => None,
                    Some(Err(x)) => Some(Err(x)),
                    Some(Ok(c)) => Some(Ok(seq![(p, m.created_from_snapshot)] + c)),
                },
            },
        }
    }
}

/// The message for an unknown branch id.
pub open spec fn unknown_branch_id_message(id: BranchId) -> Seq<char> {
    "Branch ID "@ + decimal_spec(id as nat) + " not found"@
}

fn find_branch(bs: &Vec<BranchMetadata>, id: BranchId) -> (r: Option<usize>)
    ensures
        match r {
            Some(i) => i < bs@.len() && branch_lookup(bs@, id) == Some(bs@[i as int]),
            None => branch_lookup(bs@, id) is None,
        },
{
    let mut i: usize = 0;
    proof {
        assert(bs@.subrange(0, bs@.len() as int) =~= bs@);
    }
    while i < bs.len()
        invariant
            i <= bs@.len(),
            branch_lookup(bs@, id) == branch_lookup(bs@.subrange(i as int, bs@.len() as int), id),
        decreases bs@.len() - i,
    {
        let ghost rest = bs@.subrange(i as int, bs@.len() as int);
        proof {
            assert(rest.drop_first() =~= bs@.subrange(i + 1, bs@.len() as int));
            assert(rest[0] == bs@[i as int]);
        }
        if bs[i].branch_id == id {
            return Some(i);
        }
        i = i + 1;
    }
    None
}

proof fn lemma_chain_more_steps(bs: Seq<BranchMetadata>, id: BranchId, steps: nat, more: nat)
    requires
        chain_spec(bs, id, steps) is Some,
        steps <= more,
    ensures
        chain_spec(bs, id, more) == chain_spec(bs, id, steps),
    decreases steps,
{
    if let Some(m) = branch_lookup(bs, id) {
        if let Some(p) = m.parent_id {
            lemma_chain_more_steps(bs, p, (steps - 1) as nat, (more - 1) as nat);
        }
    }
}

/// The parent chain of a branch, from the metadata of the known branches:
/// for each ancestor, nearest first, its id and the snapshot its child was
/// created from. An unknown branch on the way is an error. The chain must
/// end (no branch is its own ancestor).
pub fn build_parent_chain(branches: &Vec<BranchMetadata>, branch_id: BranchId) -> (r: Result<Vec<(BranchId, SnapshotId)>, BranchError>)
    requires
        chain_spec(branches@, branch_id, (branches@.len() + 1) as nat) is Some,
    ensures
        match chain_spec(branches@, branch_id, (branches@.len() + 1) as nat) {
            Some(Ok(c)) => r matches Ok(v) && v@ == c,
            Some(Err(x)) => r matches Err(e) && e matches BranchError::Storage(m) && m@ == unknown_branch_id_message(x),
            None => false,
        },
{
    let ghost fuel: nat = (branches@.len() + 1) as nat;
    let mut chain: Vec<(BranchId, SnapshotId)> = Vec::new();
    let mut current = branch_id;
    let ghost mut steps: nat = 0;
    proof {
        assert(chain@ =~= Seq::<(BranchId, SnapshotId)>::empty());
    }
    loop
        invariant
            steps <= branches@.len() + 1,
            chain_spec(branches@, current, (fuel - steps) as nat) is Some,
            fuel == branches@.len() + 1,
            chain_spec(branches@, branch_id, fuel) == match chain_spec(branches@, current, (fuel - steps) as nat) {
                Some(Ok(c)) => Some(Ok(chain@ + c)),
                other => other,
            },
        decreases fuel - steps,
    {
        let found = find_branch(branches, current);
        match found {
            None => {
                return Err(
                    BranchError::Storage(String::from_str("Branch ID ").concat(decimal(current).as_str()).concat(" not found")),
                );
            },
            Some(i) => {
                match branches[i].parent_id {
                    None => {
                        proof {
                            assert(chain@ + Seq::<(BranchId, SnapshotId)>::empty() =~= chain@);
                        }
                        return Ok(chain);
                    },
                    Some(p) => {
                        let snap = branches[i].created_from_snapshot;
                        let ghost c0 = chain@;
                        chain.push((p, snap));
                        proof {
                            let c = chain_spec(branches@, p, (fuel - steps - 1) as nat);
                            if let Some(Ok(cc)) = c {
                                assert(c0 + (seq![(p, snap)] + cc) =~= chain@ + cc);
                            }
                        }
                        current = p;
                        proof {
                            steps = steps + 1;
                        }
                    },
                }
            },
        }
    }
}


/// Check that a merge may proceed: both branches must be active. The error
/// names the first branch that is not.
pub fn check_merge(source_name: &str, source_state: BranchState, target_name: &str, target_state: BranchState) -> (r: Result<(), BranchError>)
    ensures
        r is Ok <==> (source_state == BranchState::Active && target_state == BranchState::Active),
        source_state != BranchState::Active ==> (r matches Err(BranchError::Merge(m)) && m@ == "Source branch '"@ + source_name@
            + "' is not active"@),
        source_state == BranchState::Active && target_state != BranchState::Active ==> (r matches Err(BranchError::Merge(m))
            && m@ == "Target branch '"@ + target_name@ + "' is not active"@),
{
    proof {
        reveal_strlit("Source branch '");
        reveal_strlit("Target branch '");
        reveal_strlit("' is not active");
    }
    match source_state {
        BranchState::Active => {},
        _ => {
            return Err(BranchError::Merge(String::from_str("Source branch '").concat(source_name).concat("' is not active")));
        },
    }
    match target_state {
        BranchState::Active => {},
        _ => {
            return Err(BranchError::Merge(String::from_str("Target branch '").concat(target_name).concat("' is not active")));
        },
    }
    Ok(())
}

/// The branch states after a completed merge: the source is merged into the
/// target at the merge time, and the merge time becomes the target's merge
/// base for the next merge.
pub fn record_merge(source: &mut BranchMetadata, target: &mut BranchMetadata, merge_timestamp: u64)
    ensures
        final(source).state == (BranchState::Merged { into_branch: old(target).branch_id, at_timestamp: merge_timestamp }),
        final(target).merge_base == Some(merge_timestamp),
        final(source).name == old(source).name,
        final(source).branch_id == old(source).branch_id,
        final(source).parent_id == old(source).parent_id,
        final(source).created_from_snapshot == old(source).created_from_snapshot,
        final(source).merge_base == old(source).merge_base,
        final(target).name == old(target).name,
        final(target).branch_id == old(target).branch_id,
        final(target).parent_id == old(target).parent_id,
        final(target).created_from_snapshot == old(target).created_from_snapshot,
        final(target).state == old(target).state,
{
    source.state = BranchState::Merged { into_branch: target.branch_id, at_timestamp: merge_timestamp };
    target.merge_base = Some(merge_timestamp);
}


/// The state of a dropped branch: soft-deleted at the given time, all else kept.
pub fn record_drop(meta: &mut BranchMetadata, now: u64)
    ensures
        final(meta).state == (BranchState::Dropped { at_timestamp: now }),
        final(meta).name == old(meta).name,
        final(meta).branch_id == old(meta).branch_id,
        final(meta).parent_id == old(meta).parent_id,
        final(meta).created_at == old(meta).created_at,
        final(meta).created_from_snapshot == old(meta).created_from_snapshot,
        final(meta).merge_base == old(meta).merge_base,
{
    meta.state = BranchState::Dropped { at_timestamp: now };
}

} // verus!
