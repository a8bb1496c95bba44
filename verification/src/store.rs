//! Content-addressed snapshot store.
//!
//! An in-memory store of AST trees keyed by commit hash, with parent
//! links forming a Merkle DAG. The commit hash mixes the tree's root
//! subtree hash with the parent hashes, so a commit in a different
//! history position gets a different id even when its tree coincides.

use vstd::prelude::*;

use crate::ast::{spec_subtree_hash, AstTree, NodeId, NodeView};

verus! {

/// Content hash (FNV-1a 64-bit).
pub type Hash = u64;

/// One stored snapshot.
struct StoreEntry {
    hash: u64,
    tree: AstTree,
    parents: Vec<u64>,
}

/// Content-addressed snapshot store.
pub struct SnapshotStore {
    entries: Vec<StoreEntry>,
}

/// The commit hash of a tree hash mixed with its parent hashes: fold
/// `c = (c xor p) * 0x100000001b3` (wrapping) over the parents in
/// order, starting from the tree hash.
pub open spec fn spec_commit_hash(h: u64, parents: Seq<u64>) -> u64
    decreases parents.len(),
{
    if parents.len() == 0 {
        h
    } else {
        spec_commit_hash(
            ((((h ^ parents[0]) as nat) * 0x100000001b3) % 0x10000000000000000) as u64,
            parents.skip(1),
        )
    }
}

impl SnapshotStore {
    /// The stored hashes, oldest first, each at most once.
    pub closed spec fn hashes(self) -> Seq<u64> {
        self.entries@.map_values(|e: StoreEntry| e.hash)
    }

    /// Whether a snapshot is stored under `h`.
    pub open spec fn contains_spec(self, h: u64) -> bool {
        self.hashes().contains(h)
    }

    /// The index of the entry stored under `h`.
    pub closed spec fn idx_of_hash(self, h: u64) -> int {
        choose|i: int| 0 <= i < self.entries@.len() && self.entries@[i].hash == h
    }

    /// The tree stored under `h`.
    pub closed spec fn tree_of(self, h: u64) -> Seq<NodeView> {
        self.entries@[self.idx_of_hash(h)].tree@
    }

    /// The parent hashes stored under `h`.
    pub closed spec fn parents_of(self, h: u64) -> Seq<u64> {
        self.entries@[self.idx_of_hash(h)].parents@
    }

    /// The id allocator of the tree stored under `h`: the next id a
    /// script applied to that snapshot would assign.
    pub closed spec fn next_of(self, h: u64) -> NodeId {
        self.entries@[self.idx_of_hash(h)].tree.spec_next_id()
    }

    /// The number of stored snapshots.
    pub open spec fn count(self) -> int {
        self.hashes().len() as int
    }

    /// Well-formedness: hashes are unique and every stored tree is a
    /// well-formed AST.
    pub closed spec fn wf(self) -> bool {
        &&& forall|i: int, j: int|
            0 <= i < j < self.entries@.len() ==> self.entries@[i].hash != self.entries@[j].hash
        &&& forall|i: int| 0 <= i < self.entries@.len() ==> (#[trigger] self.entries@[i]).tree.wf()
    }

    /// Scan for the entry stored under `h`.
    fn find_entry(&self, h: u64) -> (r: Option<usize>)
        requires
            self.wf(),
        ensures
            match r {
                Some(i) => i < self.hashes().len() && self.hashes()[i as int] == h
                    && self.idx_of_hash(h) == i,
                None => !self.contains_spec(h),
            },
    {
        let mut i: usize = 0;
        while i < self.entries.len()
            invariant
                self.wf(),
                i <= self.entries@.len(),
                forall|j: int| 0 <= j < i ==> self.hashes()[j] != h,
            decreases self.entries@.len() - i,
        {
            if self.entries[i].hash == h {
                proof {
                    assert(self.hashes()[i as int] == h);
                    let k = self.idx_of_hash(h);
                    assert(0 <= k < self.entries@.len() && self.entries@[k].hash == h);
                    if k < i as int {
                        assert(self.hashes()[k] == h);
                    } else if k > i as int {
                        assert(self.entries@[i as int].hash != self.entries@[k].hash);
                    }
                }
                return Some(i);
            }
            i += 1;
        }
        proof {
            if self.contains_spec(h) {
                let j = choose|j: int| 0 <= j < self.hashes().len() && self.hashes()[j] == h;
            }
        }
        None
    }

    /// An empty store.
    pub fn new() -> (r: Self)
        ensures
            r.wf(),
            r.count() == 0,
            forall|h: u64| !r.contains_spec(h),
    {
        let r = SnapshotStore { entries: Vec::new() };
        proof {
            assert(r.hashes() =~= Seq::<u64>::empty());
        }
        r
    }

    /// Store a snapshot; returns its commit hash. Storing under an
    /// already-present hash replaces the earlier snapshot.
    pub fn store(&mut self, tree: &AstTree, parents: Vec<u64>) -> (r: u64)
        requires
            old(self).wf(),
            tree.wf(),
        ensures
            final(self).wf(),
            r == spec_commit_hash(spec_subtree_hash(tree@, 0), parents@),
            final(self).contains_spec(r),
            final(self).tree_of(r) == tree@,
            final(self).parents_of(r) == parents@,
            final(self).next_of(r) == tree.spec_next_id(),
            forall|h: u64|
                h != r ==> final(self).contains_spec(h) == old(self).contains_spec(h),
            forall|h: u64|
                h != r && old(self).contains_spec(h) ==> final(self).tree_of(h) == old(
                    self,
                ).tree_of(h) && final(self).parents_of(h) == old(self).parents_of(h)
                    && final(self).next_of(h) == old(self).next_of(h),
            final(self).count() == old(self).count() + (if old(self).contains_spec(r) {
                0int
            } else {
                1int
            }),
    {
        let base = tree.subtree_hash(0);
        let mut commit_hash = base;
        let mut i: usize = 0;
        proof {
            assert(parents@.skip(0) =~= parents@);
        }
        while i < parents.len()
            invariant
                i <= parents@.len(),
                spec_commit_hash(base, parents@) == spec_commit_hash(
                    commit_hash,
                    parents@.skip(i as int),
                ),
            decreases parents@.len() - i,
        {
            let ghost pre = commit_hash;
            commit_hash = (commit_hash ^ parents[i]).wrapping_mul(0x100000001b3);
            proof {
                let rest = parents@.skip(i as int);
                assert(rest[0] == parents@[i as int]);
                assert(rest.skip(1) =~= parents@.skip(i as int + 1));
            }
            i += 1;
        }
        proof {
            assert(parents@.skip(parents@.len() as int) =~= Seq::<u64>::empty());
        }
        let entry = StoreEntry { hash: commit_hash, tree: tree.clone_tree(), parents };
        let ghost pre_store = *self;
        match self.find_entry(commit_hash) {
            Some(at) => {
                self.entries[at] = entry;
                proof {
                    assert(self.hashes() =~= pre_store.hashes());
                    lemma_store_lookup(*self, pre_store, commit_hash, at as int);
                }
            },
            None => {
                self.entries.push(entry);
                proof {
                    assert(self.hashes() =~= pre_store.hashes().push(commit_hash));
                    lemma_store_lookup_push(*self, pre_store, commit_hash);
                }
            },
        }
        commit_hash
    }

    /// Retrieve a snapshot's tree by hash.
    pub fn get(&self, hash: u64) -> (r: Option<&AstTree>)
        requires
            self.wf(),
        ensures
            r is Some <==> self.contains_spec(hash),
            r matches Some(t) ==> t@ == self.tree_of(hash) && t.wf() && t.spec_next_id()
                == self.next_of(hash),
    {
        match self.find_entry(hash) {
            Some(i) => Some(&self.entries[i].tree),
            None => None,
        }
    }

    /// Get a snapshot's parent hashes.
    pub fn parents(&self, hash: u64) -> (r: Option<&Vec<u64>>)
        requires
            self.wf(),
        ensures
            r is Some <==> self.contains_spec(hash),
            r matches Some(p) ==> p@ == self.parents_of(hash),
    {
        match self.find_entry(hash) {
            Some(i) => Some(&self.entries[i].parents),
            None => None,
        }
    }

    /// Check whether a hash is stored.
    pub fn contains(&self, hash: u64) -> (r: bool)
        requires
            self.wf(),
        ensures
            r == self.contains_spec(hash),
    {
        self.find_entry(hash).is_some()
    }

    /// Total stored snapshots.
    pub fn len(&self) -> (r: usize)
        ensures
            r == self.count(),
    {
        self.entries.len()
    }

    /// Whether the store is empty.
    pub fn is_empty(&self) -> (r: bool)
        ensures
            r == (self.count() == 0),
    {
        self.entries.len() == 0
    }

    /// List all stored snapshot hashes.
    pub fn all_hashes(&self) -> (r: Vec<u64>)
        ensures
            r@ == self.hashes(),
            forall|h: u64| r@.contains(h) == self.contains_spec(h),
    {
        let mut out: Vec<u64> = Vec::new();
        let mut i: usize = 0;
        while i < self.entries.len()
            invariant
                i <= self.entries@.len(),
                out@ =~= self.hashes().take(i as int),
            decreases self.entries@.len() - i,
        {
            out.push(self.entries[i].hash);
            proof {
                assert(out@ =~= self.hashes().take(i as int + 1));
            }
            i += 1;
        }
        proof {
            assert(self.hashes().take(self.entries@.len() as int) =~= self.hashes());
        }
        out
    }

    /// A well-formed store lists each hash once.
    pub proof fn lemma_hashes_distinct(&self)
        requires
            self.wf(),
        ensures
            self.hashes().no_duplicates(),
    {
        assert forall|i: int, j: int|
            0 <= i < j < self.hashes().len() implies self.hashes()[i] != self.hashes()[j] by {
            assert(self.entries@[i].hash != self.entries@[j].hash);
        }
    }

    /// Remove a snapshot by hash; reports whether it existed.
    pub fn remove(&mut self, hash: u64) -> (r: bool)
        requires
            old(self).wf(),
        ensures
            final(self).wf(),
            r == old(self).contains_spec(hash),
            !final(self).contains_spec(hash),
            forall|h: u64|
                h != hash ==> final(self).contains_spec(h) == old(self).contains_spec(h),
            forall|h: u64|
                h != hash && old(self).contains_spec(h) ==> final(self).tree_of(h) == old(
                    self,
                ).tree_of(h) && final(self).parents_of(h) == old(self).parents_of(h),
            final(self).count() == old(self).count() - (if old(self).contains_spec(hash) {
                1int
            } else {
                0int
            }),
    {
        let ghost pre_store = *self;
        match self.find_entry(hash) {
            Some(i) => {
                self.entries.remove(i);
                proof {
                    assert(self.hashes() =~= pre_store.hashes().remove(i as int));
                    lemma_store_lookup_remove(*self, pre_store, hash, i as int);
                }
                true
            },
            None => false,
        }
    }
}

impl Default for SnapshotStore {
    /// An empty store, as [`SnapshotStore::new`] builds.
    fn default() -> (r: Self)
        ensures
            r.wf(),
            r.count() == 0,
            forall|h: u64| !r.contains_spec(h),
    {
        Self::new()
    }
}

/// After replacing the entry at `at` with one keyed `h`, lookups of `h`
/// find the new entry and all other lookups are unchanged.
proof fn lemma_store_lookup(cur: SnapshotStore, pre: SnapshotStore, h: u64, at: int)
    requires
        pre.wf(),
        0 <= at < pre.entries@.len(),
        pre.entries@[at].hash == h,
        cur.entries@.len() == pre.entries@.len(),
        cur.entries@[at].hash == h,
        cur.entries@[at].tree.wf(),
        forall|i: int| 0 <= i < pre.entries@.len() && i != at ==> cur.entries@[i] == pre.entries@[i],
    ensures
        cur.wf(),
        cur.idx_of_hash(h) == at,
        forall|g: u64| cur.contains_spec(g) == pre.contains_spec(g),
        forall|g: u64|
            g != h && pre.contains_spec(g) ==> cur.idx_of_hash(g) == pre.idx_of_hash(g)
                && cur.tree_of(g) == pre.tree_of(g) && cur.parents_of(g) == pre.parents_of(g),
{
    assert(cur.hashes() =~= pre.hashes());
    assert forall|i: int, j: int|
        0 <= i < j < cur.entries@.len() implies cur.entries@[i].hash != cur.entries@[j].hash by {
        assert(pre.entries@[i].hash != pre.entries@[j].hash);
        assert(cur.entries@[i].hash == pre.entries@[i].hash);
        assert(cur.entries@[j].hash == pre.entries@[j].hash);
    }
    assert forall|i: int| 0 <= i < cur.entries@.len() implies (
    #[trigger] cur.entries@[i]).tree.wf() by {
        if i != at {
            assert(cur.entries@[i] == pre.entries@[i]);
        }
    }
    assert(cur.idx_of_hash(h) == at) by {
        let k = cur.idx_of_hash(h);
        assert(0 <= k < cur.entries@.len() && cur.entries@[k].hash == h);
        if k != at {
            assert(cur.entries@[k].hash == pre.entries@[k].hash);
            if k < at {
                assert(pre.entries@[k].hash != pre.entries@[at].hash);
            } else {
                assert(pre.entries@[at].hash != pre.entries@[k].hash);
            }
        }
    }
    assert forall|g: u64|
        g != h && pre.contains_spec(g) implies cur.idx_of_hash(g) == pre.idx_of_hash(g)
        && cur.tree_of(g) == pre.tree_of(g) && cur.parents_of(g) == pre.parents_of(g) by {
        let k = choose|k: int| 0 <= k < pre.hashes().len() && pre.hashes()[k] == g;
        assert(pre.entries@[k].hash == g);
        assert(k != at);
        assert(cur.entries@[k].hash == g);
        lemma_hash_idx_unique(pre, k, g);
        lemma_hash_idx_unique(cur, k, g);
    }
}

/// After pushing a fresh entry keyed `h`, lookups of `h` find it and
/// all other lookups are unchanged.
proof fn lemma_store_lookup_push(cur: SnapshotStore, pre: SnapshotStore, h: u64)
    requires
        pre.wf(),
        !pre.contains_spec(h),
        cur.entries@.len() == pre.entries@.len() + 1,
        cur.entries@[pre.entries@.len() as int].hash == h,
        cur.entries@[pre.entries@.len() as int].tree.wf(),
        forall|i: int| 0 <= i < pre.entries@.len() ==> cur.entries@[i] == pre.entries@[i],
    ensures
        cur.wf(),
        cur.idx_of_hash(h) == pre.entries@.len(),
        forall|g: u64| g != h ==> cur.contains_spec(g) == pre.contains_spec(g),
        cur.contains_spec(h),
        forall|g: u64|
            g != h && pre.contains_spec(g) ==> cur.idx_of_hash(g) == pre.idx_of_hash(g)
                && cur.tree_of(g) == pre.tree_of(g) && cur.parents_of(g) == pre.parents_of(g),
{
    let n = pre.entries@.len() as int;
    assert(cur.hashes() =~= pre.hashes().push(h));
    assert forall|i: int, j: int|
        0 <= i < j < cur.entries@.len() implies cur.entries@[i].hash != cur.entries@[j].hash by {
        if j < n {
            assert(pre.entries@[i].hash != pre.entries@[j].hash);
            assert(cur.entries@[i] == pre.entries@[i] && cur.entries@[j] == pre.entries@[j]);
        } else {
            assert(cur.entries@[i] == pre.entries@[i]);
            if pre.entries@[i].hash == h {
                assert(pre.hashes()[i] == h);
            }
        }
    }
    assert forall|i: int| 0 <= i < cur.entries@.len() implies (
    #[trigger] cur.entries@[i]).tree.wf() by {
        if i < n {
            assert(cur.entries@[i] == pre.entries@[i]);
        }
    }
    assert(cur.entries@[n].hash == h);
    lemma_hash_idx_unique(cur, n, h);
    assert(cur.hashes()[n] == h);
    assert forall|g: u64| g != h implies cur.contains_spec(g) == pre.contains_spec(g) by {
        if cur.contains_spec(g) {
            let k = choose|k: int| 0 <= k < cur.hashes().len() && cur.hashes()[k] == g;
            assert(k != n);
            assert(pre.hashes()[k] == g);
        }
        if pre.contains_spec(g) {
            let k = choose|k: int| 0 <= k < pre.hashes().len() && pre.hashes()[k] == g;
            assert(cur.hashes()[k] == g);
        }
    }
    assert forall|g: u64|
        g != h && pre.contains_spec(g) implies cur.idx_of_hash(g) == pre.idx_of_hash(g)
        && cur.tree_of(g) == pre.tree_of(g) && cur.parents_of(g) == pre.parents_of(g) by {
        let k = choose|k: int| 0 <= k < pre.hashes().len() && pre.hashes()[k] == g;
        assert(pre.entries@[k].hash == g);
        assert(cur.entries@[k].hash == g);
        lemma_hash_idx_unique(pre, k, g);
        lemma_hash_idx_unique(cur, k, g);
    }
}

/// After removing the entry at `at` keyed `h`, no lookup finds `h` and
/// all other lookups are unchanged.
proof fn lemma_store_lookup_remove(cur: SnapshotStore, pre: SnapshotStore, h: u64, at: int)
    requires
        pre.wf(),
        0 <= at < pre.entries@.len(),
        pre.entries@[at].hash == h,
        cur.entries@ == pre.entries@.remove(at),
    ensures
        cur.wf(),
        !cur.contains_spec(h),
        forall|g: u64| g != h ==> cur.contains_spec(g) == pre.contains_spec(g),
        forall|g: u64|
            g != h && pre.contains_spec(g) ==> cur.tree_of(g) == pre.tree_of(g) && cur.parents_of(
                g,
            ) == pre.parents_of(g),
{
    let n = pre.entries@.len() as int;
    pre.entries@.remove_ensures(at);
    assert(cur.entries@.len() == n - 1);
    assert forall|i: int| 0 <= i < n - 1 implies #[trigger] cur.entries@[i] == (if i < at {
        pre.entries@[i]
    } else {
        pre.entries@[i + 1]
    }) by {
    }
    assert forall|i: int, j: int|
        0 <= i < j < cur.entries@.len() implies cur.entries@[i].hash != cur.entries@[j].hash by {
        let i2 = if i < at {
            i
        } else {
            i + 1
        };
        let j2 = if j < at {
            j
        } else {
            j + 1
        };
        assert(pre.entries@[i2].hash != pre.entries@[j2].hash);
    }
    assert forall|i: int| 0 <= i < cur.entries@.len() implies (
    #[trigger] cur.entries@[i]).tree.wf() by {
        let i2 = if i < at {
            i
        } else {
            i + 1
        };
        assert(pre.entries@[i2].tree.wf());
    }
    assert forall|g: u64| cur.contains_spec(g) implies g == h || pre.contains_spec(g) by {
        let k = choose|k: int| 0 <= k < cur.hashes().len() && cur.hashes()[k] == g;
        let k2 = if k < at {
            k
        } else {
            k + 1
        };
        assert(pre.entries@[k2].hash == g);
        assert(pre.hashes()[k2] == g);
    }
    assert(!cur.contains_spec(h)) by {
        if cur.contains_spec(h) {
            let k = choose|k: int| 0 <= k < cur.hashes().len() && cur.hashes()[k] == h;
            let k2 = if k < at {
                k
            } else {
                k + 1
            };
            assert(pre.entries@[k2].hash == h);
            assert(k2 != at);
            if k2 < at {
                assert(pre.entries@[k2].hash != pre.entries@[at].hash);
            } else {
                assert(pre.entries@[at].hash != pre.entries@[k2].hash);
            }
        }
    }
    assert forall|g: u64| g != h && pre.contains_spec(g) implies cur.contains_spec(g)
        && cur.tree_of(g) == pre.tree_of(g) && cur.parents_of(g) == pre.parents_of(g) by {
        let k = choose|k: int| 0 <= k < pre.hashes().len() && pre.hashes()[k] == g;
        assert(pre.entries@[k].hash == g);
        assert(k != at);
        let k2 = if k < at {
            k
        } else {
            k - 1
        };
        assert(cur.entries@[k2].hash == g);
        assert(cur.hashes()[k2] == g);
        lemma_hash_idx_unique(pre, k, g);
        lemma_hash_idx_unique(cur, k2, g);
    }
}

/// With unique hashes, the looked-up index of a stored hash is the
/// position that carries it.
proof fn lemma_hash_idx_unique(st: SnapshotStore, i: int, h: u64)
    requires
        forall|i2: int, j2: int|
            0 <= i2 < j2 < st.entries@.len() ==> st.entries@[i2].hash != st.entries@[j2].hash,
        0 <= i < st.entries@.len(),
        st.entries@[i].hash == h,
    ensures
        st.idx_of_hash(h) == i,
        st.contains_spec(h),
{
    assert(st.hashes()[i] == h);
    let k = st.idx_of_hash(h);
    assert(0 <= k < st.entries@.len() && st.entries@[k].hash == h);
    if k < i {
        assert(st.entries@[k].hash != st.entries@[i].hash);
    } else if i < k {
        assert(st.entries@[i].hash != st.entries@[k].hash);
    }
}

} // verus!
