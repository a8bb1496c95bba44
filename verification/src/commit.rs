//! Commit and branch model.
//!
//! A Git-like layer over the snapshot store: commits are immutable
//! records keyed by commit hash, branches are movable pointers, and a
//! three-way merge combines the current branch with another against the
//! first parent of HEAD.

use vstd::prelude::*;

use crate::ast::{empty_tree_view, spec_subtree_hash, AstTree};

use crate::diff::{apply_ops_view, apply_patch, diff_trees, ops_view, spec_diff_at, DiffOp, OpView};
use crate::merge::{
    conflict_ids, conflict_nids, dedup_targets, merge_patches, merged_spec, MergeResult,
};
use crate::store::{spec_commit_hash, SnapshotStore};

verus! {

use vstd::string::StringExecFns;

/// A commit in the history DAG.
#[derive(Debug)]
pub struct Commit {
    /// Content hash
    pub hash: u64,
    /// Parent commit hash(es)
    pub parents: Vec<u64>,
    /// Commit message
    pub message: String,
    /// Author
    pub author: String,
    /// Edit-script from the first parent to this commit; empty for the
    /// initial commit
    pub patch: Vec<DiffOp>,
}

/// Branch pointer.
#[derive(Debug, Clone)]
pub struct Branch {
    /// Branch name
    pub name: String,
    /// Points to the current commit hash
    pub head: u64,
}

/// Repository: manages branches, commits, and snapshots.
pub struct Repository {
    store: SnapshotStore,
    commits: Vec<Commit>,
    branches: Vec<Branch>,
    current_branch: String,
}

impl Repository {
    /// The snapshot store's state.
    pub closed spec fn store_spec(self) -> SnapshotStore {
        self.store
    }

    /// The hashes of the recorded commits, oldest first.
    pub closed spec fn commit_hashes(self) -> Seq<u64> {
        self.commits@.map_values(|c: Commit| c.hash)
    }

    /// Whether a commit is recorded under `h`.
    pub open spec fn has_commit(self, h: u64) -> bool {
        self.commit_hashes().contains(h)
    }

    /// The index of the commit recorded under `h`.
    pub closed spec fn commit_idx(self, h: u64) -> int {
        choose|i: int| 0 <= i < self.commits@.len() && self.commits@[i].hash == h
    }

    /// The commit recorded under `h`.
    pub closed spec fn commit_at(self, h: u64) -> (u64, Seq<u64>, Seq<char>, Seq<char>, Seq<OpView>) {
        let c = self.commits@[self.commit_idx(h)];
        (c.hash, c.parents@, c.message@, c.author@, ops_view(c.patch@))
    }

    /// The branch names, in creation order.
    pub closed spec fn branch_names_spec(self) -> Seq<Seq<char>> {
        self.branches@.map_values(|b: Branch| b.name@)
    }

    /// Whether a branch of that name exists.
    pub open spec fn has_branch(self, name: Seq<char>) -> bool {
        self.branch_names_spec().contains(name)
    }

    /// The head hash of the named branch.
    pub closed spec fn branch_head(self, name: Seq<char>) -> u64 {
        let i = choose|i: int| 0 <= i < self.branches@.len() && self.branches@[i].name@ == name;
        self.branches@[i].head
    }

    /// The name of the checked-out branch.
    pub closed spec fn current_branch_spec(self) -> Seq<char> {
        self.current_branch@
    }

    /// The number of recorded commits.
    pub open spec fn commit_count_spec(self) -> int {
        self.commit_hashes().len() as int
    }

    /// Well-formedness: the store is sound, commit hashes and branch
    /// names are unique, the checked-out branch exists, and every
    /// branch head is a stored, recorded commit.
    pub closed spec fn wf(self) -> bool {
        &&& self.store.wf()
        &&& forall|i: int, j: int|
            0 <= i < j < self.commits@.len() ==> self.commits@[i].hash != self.commits@[j].hash
        &&& forall|i: int, j: int|
            0 <= i < j < self.branches@.len() ==> self.branches@[i].name@
                != self.branches@[j].name@
        &&& self.has_branch(self.current_branch@)
        &&& forall|i: int|
            0 <= i < self.branches@.len() ==> self.store.contains_spec(
                (#[trigger] self.branches@[i]).head,
            ) && self.commit_hashes().contains(self.branches@[i].head)
    }

    /// The head hash of the checked-out branch.
    pub open spec fn head_spec(self) -> u64 {
        self.branch_head(self.current_branch_spec())
    }

    /// Scan for a branch by name.
    fn find_branch(&self, name: &str) -> (r: Option<usize>)
        requires
            self.wf(),
        ensures
            match r {
                Some(i) => i < self.branches@.len() && self.branches@[i as int].name@ == name@
                    && self.has_branch(name@) && self.branch_head(name@)
                    == self.branches@[i as int].head,
                None => !self.has_branch(name@),
            },
    {
        let name_owned = name.to_owned();
        let mut i: usize = 0;
        while i < self.branches.len()
            invariant
                self.wf(),
                name_owned@ == name@,
                i <= self.branches@.len(),
                forall|j: int| 0 <= j < i ==> (#[trigger] self.branches@[j]).name@ != name@,
            decreases self.branches@.len() - i,
        {
            if self.branches[i].name == name_owned {
                proof {
                    assert(self.branches@[i as int].name@ == name@);
                    assert(self.branch_names_spec()[i as int] == name@);
                    let k = choose|k: int|
                        0 <= k < self.branches@.len() && self.branches@[k].name@ == name@;
                    if k != i as int {
                        if k < i as int {
                            assert(self.branches@[k].name@ != self.branches@[i as int].name@);
                        } else {
                            assert(self.branches@[i as int].name@ != self.branches@[k].name@);
                        }
                    }
                }
                return Some(i);
            }
            i += 1;
        }
        proof {
            if self.has_branch(name@) {
                let j = choose|j: int|
                    0 <= j < self.branch_names_spec().len() && self.branch_names_spec()[j]
                        == name@;
                assert(self.branches@[j].name@ == name@);
            }
        }
        None
    }

    /// Scan for a commit by hash.
    fn find_commit(&self, hash: u64) -> (r: Option<usize>)
        requires
            self.wf(),
        ensures
            match r {
                Some(i) => i < self.commits@.len() && self.commits@[i as int].hash == hash
                    && self.has_commit(hash) && self.commit_idx(hash) == i,
                None => !self.has_commit(hash),
            },
    {
        let mut i: usize = 0;
        while i < self.commits.len()
            invariant
                self.wf(),
                i <= self.commits@.len(),
                forall|j: int| 0 <= j < i ==> (#[trigger] self.commits@[j]).hash != hash,
            decreases self.commits@.len() - i,
        {
            if self.commits[i].hash == hash {
                proof {
                    assert(self.commit_hashes()[i as int] == hash);
                    let k = self.commit_idx(hash);
                    assert(0 <= k < self.commits@.len() && self.commits@[k].hash == hash);
                    if k < i as int {
                        assert(self.commits@[k].hash != self.commits@[i as int].hash);
                    } else if k > i as int {
                        assert(self.commits@[i as int].hash != self.commits@[k].hash);
                    }
                }
                return Some(i);
            }
            i += 1;
        }
        proof {
            if self.has_commit(hash) {
                let j = choose|j: int|
                    0 <= j < self.commit_hashes().len() && self.commit_hashes()[j] == hash;
                assert(self.commits@[j].hash == hash);
            }
        }
        None
    }

    /// A fresh repository: the empty tree stored as the initial commit,
    /// one branch named "main" pointing at it, checked out. The initial
    /// commit has no parents, an empty patch, message "initial commit"
    /// and author "system".
    pub fn new() -> (r: Self)
        ensures
            r.wf(),
            r.commit_count_spec() == 1,
            r.current_branch_spec() == "main"@,
            r.has_branch("main"@),
            r.branch_names_spec() == seq!["main"@],
            r.head_spec() == spec_commit_hash(
                spec_subtree_hash(empty_tree_view(), 0),
                Seq::<u64>::empty(),
            ),
            r.store_spec().count() == 1,
            r.store_spec().contains_spec(r.head_spec()),
            r.store_spec().tree_of(r.head_spec()) == empty_tree_view(),
            r.store_spec().parents_of(r.head_spec()) == Seq::<u64>::empty(),
            r.store_spec().next_of(r.head_spec()) == 1,
            r.commit_at(r.head_spec()) == (
                r.head_spec(),
                Seq::<u64>::empty(),
                "initial commit"@,
                "system"@,
                Seq::<OpView>::empty(),
            ),
    {
        let tree = AstTree::new();
        let mut store = SnapshotStore::new();
        let empty_parents: Vec<u64> = Vec::new();
        proof {
            assert(empty_parents@ =~= Seq::<u64>::empty());
        }
        let hash = store.store(&tree, empty_parents);
        let commit = Commit {
            hash,
            parents: Vec::new(),
            message: "initial commit".to_owned(),
            author: "system".to_owned(),
            patch: Vec::new(),
        };
        let mut commits: Vec<Commit> = Vec::new();
        commits.push(commit);
        let branch = Branch { name: "main".to_owned(), head: hash };
        let mut branches: Vec<Branch> = Vec::new();
        branches.push(branch);
        let r = Repository { store, commits, branches, current_branch: "main".to_owned() };
        proof {
            assert(r.branch_names_spec()[0] == "main"@);
            assert(r.branch_names_spec() =~= seq!["main"@]);
            assert(r.commit_hashes() =~= seq![hash]);
            assert(r.branches@[0].head == hash);
            assert(r.commit_hashes().contains(hash)) by {
                assert(r.commit_hashes()[0] == hash);
            }
            assert(r.head_spec() == hash) by {
                let i = choose|i: int|
                    0 <= i < r.branches@.len() && r.branches@[i].name@ == r.current_branch@;
                assert(r.branches@[0].name@ == r.current_branch@);
            }
            assert(r.commit_at(hash) == (
                hash,
                Seq::<u64>::empty(),
                "initial commit"@,
                "system"@,
                Seq::<OpView>::empty(),
            )) by {
                let k = r.commit_idx(hash);
                assert(r.commits@[0].hash == hash);
                assert(0 <= k < 1);
                assert(ops_view(r.commits@[0].patch@) =~= Seq::<OpView>::empty());
                assert(r.commits@[0].parents@ =~= Seq::<u64>::empty());
            }
        }
        r
    }

    /// Get current HEAD hash; 0 if the checked-out branch is missing.
    pub fn head_hash(&self) -> (r: u64)
        requires
            self.wf(),
        ensures
            r == self.head_spec(),
            self.store_spec().contains_spec(r),
            self.has_commit(r),
    {
        match self.find_branch(self.current_branch.as_str()) {
            Some(i) => {
                proof {
                    let k = choose|k: int|
                        0 <= k < self.branches@.len() && self.branches@[k].name@
                            == self.current_branch@;
                }
                self.branches[i].head
            },
            None => {
                proof {
                    assert(false);
                }
                0
            },
        }
    }

    /// Get the current HEAD tree.
    pub fn head_tree(&self) -> (r: Option<&AstTree>)
        requires
            self.wf(),
        ensures
            r is Some,
            r matches Some(t) ==> t@ == self.store_spec().tree_of(self.head_spec()) && t.wf(),
    {
        let h = self.head_hash();
        self.store.get(h)
    }

    /// Commit a new tree state: diff it against the parent tree, store
    /// it with HEAD as sole parent, record the commit, and advance the
    /// current branch.
    pub fn commit(&mut self, tree: &AstTree, message: &str, author: &str) -> (r: u64)
        requires
            old(self).wf(),
            tree.wf(),
        ensures
            final(self).wf(),
            r == spec_commit_hash(
                crate::ast::spec_subtree_hash(tree@, 0),
                seq![old(self).head_spec()],
            ),
            final(self).store_spec().contains_spec(r),
            final(self).store_spec().tree_of(r) == tree@,
            final(self).store_spec().parents_of(r) =~= seq![old(self).head_spec()],
            final(self).has_commit(r),
            final(self).commit_at(r).1 =~= seq![old(self).head_spec()],
            final(self).commit_at(r).2 == message@,
            final(self).commit_at(r).3 == author@,
            final(self).head_spec() == r,
            final(self).current_branch_spec() == old(self).current_branch_spec(),
            old(self).has_commit(r) ==> final(self).commit_count_spec() == old(self).commit_count_spec(),
            !old(self).has_commit(r) ==> final(self).commit_count_spec() == old(self).commit_count_spec() + 1,
            final(self).commit_at(r).4 == spec_diff_at(
                old(self).store_spec().tree_of(old(self).head_spec()),
                tree@,
                0,
                0,
            ),
            old(self).store_spec().tree_of(old(self).head_spec()) == tree@
                && crate::diff::values_self_eq(tree@) ==> final(self).commit_at(r).4
                == Seq::<OpView>::empty(),
            final(self).store_spec().next_of(r) == tree.spec_next_id(),
            forall|h: u64|
                h != r && old(self).has_commit(h) ==> final(self).has_commit(h) && final(self).commit_at(h) == old(self).commit_at(h),
            forall|n: Seq<char>| final(self).has_branch(n) == old(self).has_branch(n),
            forall|n: Seq<char>|
                n != old(self).current_branch_spec() && old(self).has_branch(n) ==> final(self).branch_head(n) == old(self).branch_head(n),
            forall|h: u64|
                h != r && old(self).store_spec().contains_spec(h) ==> final(self).store_spec().contains_spec(h) && final(self).store_spec().tree_of(h) == old(
                    self,
                ).store_spec().tree_of(h) && final(self).store_spec().parents_of(h) == old(
                    self,
                ).store_spec().parents_of(h),
    {
        let parent_hash = self.head_hash();
        let patch = match self.store.get(parent_hash) {
            Some(parent_tree) => diff_trees(parent_tree, tree),
            None => {
                proof {
                    assert(false);
                }
                Vec::new()
            },
        };
        let ghost patch_view = ops_view(patch@);
        let mut parents: Vec<u64> = Vec::new();
        parents.push(parent_hash);
        proof {
            assert(parents@ =~= seq![parent_hash]);
        }
        let hash = self.store.store(tree, parents);
        let ghost s1 = *self;
        let mut cparents: Vec<u64> = Vec::new();
        cparents.push(parent_hash);
        let commit = Commit {
            hash,
            parents: cparents,
            message: message.to_owned(),
            author: author.to_owned(),
            patch,
        };
        self.record_commit(commit);
        proof {
            assert forall|h: u64|
                h != hash && old(self).has_commit(h) implies self.has_commit(h) && self.commit_at(
                h,
            ) == old(self).commit_at(h) by {
                assert(s1.commits == old(self).commits);
                assert(s1.has_commit(h) == old(self).has_commit(h));
                assert(s1.commit_idx(h) == old(self).commit_idx(h));
                assert(self.commits@[self.commit_idx(h)] == s1.commits@[s1.commit_idx(h)]);
            }
        }
        proof {
            assert forall|i: int|
                0 <= i < self.branches@.len() implies self.store.contains_spec(
                (#[trigger] self.branches@[i]).head,
            ) && self.commit_hashes().contains(self.branches@[i].head) by {
                assert(self.branches@[i] == old(self).branches@[i]);
                let head = old(self).branches@[i].head;
                assert(old(self).store.contains_spec(head));
                assert(old(self).commit_hashes().contains(head));
                assert(old(self).has_commit(head));
                if head == hash {
                    assert(self.store.contains_spec(head));
                    assert(self.has_commit(head));
                } else {
                    assert(self.store.contains_spec(head) == old(self).store.contains_spec(head));
                    assert(self.has_commit(head) == old(self).has_commit(head));
                }
            }
            assert(self.branches == old(self).branches);
            assert(self.current_branch == old(self).current_branch);
            assert(self.has_branch(self.current_branch@)) by {
                assert(self.branch_names_spec() =~= old(self).branch_names_spec());
            }
        }
        self.advance_current_branch(hash);
        hash
    }

    /// Record a commit, replacing any earlier commit under the same
    /// hash.
    fn record_commit(&mut self, commit: Commit)
        requires
            old(self).store.wf(),
            forall|i: int, j: int|
                0 <= i < j < old(self).commits@.len() ==> old(self).commits@[i].hash != old(self).commits@[j].hash,
        ensures
            final(self).store == old(self).store,
            final(self).branches == old(self).branches,
            final(self).current_branch == old(self).current_branch,
            forall|i: int, j: int|
                0 <= i < j < final(self).commits@.len() ==> final(self).commits@[i].hash != final(self).commits@[j].hash,
            final(self).has_commit(commit.hash),
            final(self).commits@[final(self).commit_idx(commit.hash)] == commit,
            forall|h: u64|
                h != commit.hash ==> final(self).has_commit(h) == old(self).has_commit(h),
            forall|h: u64|
                h != commit.hash && old(self).has_commit(h) ==> final(self).commits@[final(self).commit_idx(h)] == old(self).commits@[old(self).commit_idx(h)],
            old(self).has_commit(commit.hash) ==> final(self).commit_count_spec() == old(self).commit_count_spec(),
            !old(self).has_commit(commit.hash) ==> final(self).commit_count_spec() == old(self).commit_count_spec() + 1,
    {
        let ghost pre = *self;
        let h = commit.hash;
        let mut at_opt: Option<usize> = None;
        let mut i: usize = 0;
        while i < self.commits.len()
            invariant
                *self == pre,
                i <= self.commits@.len(),
                match at_opt {
                    Some(a) => a < i && self.commits@[a as int].hash == h,
                    None => forall|j: int|
                        0 <= j < i ==> (#[trigger] self.commits@[j]).hash != h,
                },
            decreases self.commits@.len() - i,
        {
            if at_opt.is_none() && self.commits[i].hash == h {
                at_opt = Some(i);
            }
            i += 1;
        }
        match at_opt {
            Some(at) => {
                self.commits[at] = commit;
                proof {
                    lemma_commit_lookup_replace(*self, pre, h, at as int);
                }
            },
            None => {
                self.commits.push(commit);
                proof {
                    lemma_commit_lookup_push(*self, pre, h);
                }
            },
        }
    }

    /// Point the checked-out branch at a new head.
    fn advance_current_branch(&mut self, hash: u64)
        requires
            old(self).store.wf(),
            old(self).store.contains_spec(hash),
            old(self).has_commit(hash),
            forall|i: int, j: int|
                0 <= i < j < old(self).commits@.len() ==> old(self).commits@[i].hash != old(self).commits@[j].hash,
            forall|i: int, j: int|
                0 <= i < j < old(self).branches@.len() ==> old(self).branches@[i].name@ != old(self).branches@[j].name@,
            old(self).has_branch(old(self).current_branch@),
            forall|i: int|
                0 <= i < old(self).branches@.len() ==> old(self).store.contains_spec(
                    (#[trigger] old(self).branches@[i]).head,
                ) && old(self).commit_hashes().contains(old(self).branches@[i].head),
        ensures
            final(self).wf(),
            final(self).store == old(self).store,
            final(self).commits == old(self).commits,
            final(self).current_branch == old(self).current_branch,
            final(self).head_spec() == hash,
            forall|n: Seq<char>| final(self).has_branch(n) == old(self).has_branch(n),
            forall|n: Seq<char>|
                n != old(self).current_branch@ && old(self).has_branch(n) ==> final(self).branch_head(n) == old(self).branch_head(n),
    {
        let ghost pre = *self;
        let name = self.current_branch.clone();
        let mut i: usize = 0;
        let n = self.branches.len();
        while i < n
            invariant
                *self == pre,
                pre == *old(self),
                pre.store.wf(),
                pre.store.contains_spec(hash),
                pre.has_commit(hash),
                forall|i2: int, j2: int|
                    0 <= i2 < j2 < pre.commits@.len() ==> pre.commits@[i2].hash
                        != pre.commits@[j2].hash,
                forall|i2: int, j2: int|
                    0 <= i2 < j2 < pre.branches@.len() ==> pre.branches@[i2].name@
                        != pre.branches@[j2].name@,
                pre.has_branch(pre.current_branch@),
                forall|i2: int|
                    0 <= i2 < pre.branches@.len() ==> pre.store.contains_spec(
                        (#[trigger] pre.branches@[i2]).head,
                    ) && pre.commit_hashes().contains(pre.branches@[i2].head),
                name@ == pre.current_branch@,
                n == self.branches@.len(),
                i <= n,
                forall|j: int| 0 <= j < i ==> (#[trigger] self.branches@[j]).name@ != name@,
            decreases n - i,
        {
            if self.branches[i].name == name {
                proof {
                    assert(self.branches@[i as int].name@ == name@);
                }
                self.branches[i].head = hash;
                proof {
                    lemma_branch_update(*self, pre, hash, i as int);
                }
                return ;
            }
            i += 1;
        }
        proof {
            assert(pre.has_branch(pre.current_branch@));
            let j = choose|j: int|
                0 <= j < pre.branch_names_spec().len() && pre.branch_names_spec()[j]
                    == pre.current_branch@;
            assert(pre.branches@[j].name@ == pre.current_branch@);
            assert(false);
        }
    }

    /// Create a branch at the current HEAD; an existing branch of the
    /// same name is repointed.
    pub fn create_branch(&mut self, name: &str)
        requires
            old(self).wf(),
        ensures
            final(self).wf(),
            final(self).has_branch(name@),
            final(self).branch_head(name@) == old(self).head_spec(),
            final(self).current_branch_spec() == old(self).current_branch_spec(),
            final(self).commit_count_spec() == old(self).commit_count_spec(),
            forall|n: Seq<char>|
                n != name@ ==> final(self).has_branch(n) == old(self).has_branch(n),
            forall|n: Seq<char>|
                n != name@ && old(self).has_branch(n) ==> final(self).branch_head(n) == old(self).branch_head(n),
    {
        let head = self.head_hash();
        let ghost pre = *self;
        match self.find_branch(name) {
            Some(i) => {
                self.branches[i].head = head;
                proof {
                    lemma_branch_repoint(*self, pre, name@, head, i as int);
                }
            },
            None => {
                self.branches.push(Branch { name: name.to_owned(), head });
                proof {
                    lemma_branch_push(*self, pre, name@, head);
                }
            },
        }
    }

    /// Switch to a branch; reports whether it exists.
    pub fn checkout(&mut self, name: &str) -> (r: bool)
        requires
            old(self).wf(),
        ensures
            final(self).wf(),
            r == old(self).has_branch(name@),
            r ==> final(self).current_branch_spec() == name@,
            !r ==> *final(self) == *old(self),
            final(self).store_spec() == old(self).store_spec(),
            final(self).commit_count_spec() == old(self).commit_count_spec(),
            forall|h: u64| final(self).has_commit(h) == old(self).has_commit(h),
            forall|h: u64|
                old(self).has_commit(h) ==> final(self).commit_at(h) == old(self).commit_at(h),
            forall|n: Seq<char>| final(self).has_branch(n) == old(self).has_branch(n),
            forall|n: Seq<char>|
                old(self).has_branch(n) ==> final(self).branch_head(n) == old(self).branch_head(
                    n,
                ),
    {
        match self.find_branch(name) {
            Some(_) => {
                self.current_branch = name.to_owned();
                true
            },
            None => false,
        }
    }

    /// Get a commit by hash.
    pub fn get_commit(&self, hash: u64) -> (r: Option<&Commit>)
        requires
            self.wf(),
        ensures
            r is Some <==> self.has_commit(hash),
            r matches Some(c) ==> c.hash == hash && (
            c.hash,
            c.parents@,
            c.message@,
            c.author@,
            ops_view(c.patch@),
            ) == self.commit_at(hash),
    {
        match self.find_commit(hash) {
            Some(i) => Some(&self.commits[i]),
            None => None,
        }
    }

    /// List the branch names.
    pub fn branch_names(&self) -> (r: Vec<String>)
        ensures
            r@.len() == self.branch_names_spec().len(),
            forall|i: int|
                0 <= i < r@.len() ==> (#[trigger] r@[i])@ == self.branch_names_spec()[i],
    {
        let mut out: Vec<String> = Vec::new();
        let mut i: usize = 0;
        while i < self.branches.len()
            invariant
                i <= self.branches@.len(),
                out@.len() == i,
                forall|j: int|
                    0 <= j < i ==> (#[trigger] out@[j])@ == self.branch_names_spec()[j],
            decreases self.branches@.len() - i,
        {
            out.push(self.branches[i].name.clone());
            i += 1;
        }
        out
    }

    /// The name of the checked-out branch.
    pub fn current_branch(&self) -> (r: &str)
        ensures
            r@ == self.current_branch_spec(),
    {
        self.current_branch.as_str()
    }

    /// Total commit count.
    pub fn commit_count(&self) -> (r: usize)
        ensures
            r == self.commit_count_spec(),
    {
        self.commits.len()
    }

    /// Diff the snapshots of two commits; absent when either hash is
    /// unknown to the store.
    pub fn diff(&self, from: u64, to: u64) -> (r: Option<Vec<DiffOp>>)
        requires
            self.wf(),
        ensures
            r is Some <==> (self.store_spec().contains_spec(from)
                && self.store_spec().contains_spec(to)),
            r matches Some(ops) ==> ops_view(ops@) == spec_diff_at(
                self.store_spec().tree_of(from),
                self.store_spec().tree_of(to),
                0,
                0,
            ),
            r matches Some(ops) ==> (forall|j: int|
                0 <= j < ops@.len() ==> !((#[trigger] ops@[j])@ is Move)),
            r matches Some(ops) ==> (self.store_spec().tree_of(from) == self.store_spec().tree_of(
                to,
            ) && crate::diff::values_self_eq(self.store_spec().tree_of(from)) ==> ops@.len()
                == 0),
    {
        let from_tree = match self.store.get(from) {
            Some(t) => t,
            None => {
                return None;
            },
        };
        let to_tree = match self.store.get(to) {
            Some(t) => t,
            None => {
                return None;
            },
        };
        Some(diff_trees(from_tree, to_tree))
    }

    /// Merge another branch into the current one: three-way merge of
    /// the two heads against the first parent of HEAD. On a clean merge
    /// the combined script is applied to the ancestor tree and the
    /// result is committed with author "system". Absent exactly when
    /// the other branch is missing, HEAD has no parent, or the parent
    /// snapshot is missing.
    pub fn merge(&mut self, other_branch: &str) -> (r: Option<MergeResult>)
        requires
            old(self).wf(),
        ensures
            final(self).wf(),
            r is None ==> *final(self) == *old(self),
            r matches Some(m) ==> (m.conflicts@.len() != 0 ==> *final(self) == *old(self)),
            r is Some <==> (old(self).has_branch(other_branch@) && old(self).commit_at(
                old(self).head_spec(),
            ).1.len() > 0 && old(self).store_spec().contains_spec(
                old(self).commit_at(old(self).head_spec()).1[0],
            )),
            r matches Some(m) ==> ({
                let anc = old(self).commit_at(old(self).head_spec()).1[0];
                let anc_t = old(self).store_spec().tree_of(anc);
                let pa = spec_diff_at(
                    anc_t,
                    old(self).store_spec().tree_of(old(self).head_spec()),
                    0,
                    0,
                );
                let pb = spec_diff_at(
                    anc_t,
                    old(self).store_spec().tree_of(old(self).branch_head(other_branch@)),
                    0,
                    0,
                );
                &&& ops_view(m.merged_ops@) == merged_spec(pa, pb)
                &&& conflict_nids(m.conflicts@) == conflict_ids(pa, pb, dedup_targets(pa))
                &&& (m.conflicts@.len() == 0 ==> ({
                    let mt = apply_ops_view(
                        anc_t,
                        old(self).store_spec().next_of(anc),
                        merged_spec(pa, pb),
                    ).0;
                    let h = spec_commit_hash(
                        spec_subtree_hash(mt, 0),
                        seq![old(self).head_spec()],
                    );
                    &&& final(self).head_spec() == h
                    &&& final(self).store_spec().contains_spec(h)
                    &&& final(self).store_spec().tree_of(h) == mt
                    &&& final(self).store_spec().parents_of(h) == seq![old(self).head_spec()]
                    &&& final(self).has_commit(h)
                    &&& final(self).commit_at(h).1 == seq![old(self).head_spec()]
                    &&& final(self).commit_at(h).2 == "merge branch '"@ + other_branch@ + "'"@
                    &&& final(self).commit_at(h).3 == "system"@
                    &&& final(self).commit_at(h).4 == spec_diff_at(
                        old(self).store_spec().tree_of(old(self).head_spec()),
                        mt,
                        0,
                        0,
                    )
                    &&& final(self).current_branch_spec() == old(self).current_branch_spec()
                    &&& (!old(self).has_commit(h) ==> final(self).commit_count_spec() == old(
                        self,
                    ).commit_count_spec() + 1)
                }))
            }),
    {
        let current_hash = self.head_hash();
        let other_i = match self.find_branch(other_branch) {
            Some(i) => i,
            None => {
                return None;
            },
        };
        let other_hash = self.branches[other_i].head;
        let commit_i = match self.find_commit(current_hash) {
            Some(i) => i,
            None => {
                proof {
                    assert(false);
                }
                return None;
            },
        };
        if self.commits[commit_i].parents.len() == 0 {
            return None;
        }
        let ancestor_hash = self.commits[commit_i].parents[0];
        let ancestor_tree = match self.store.get(ancestor_hash) {
            Some(t) => t.clone_tree(),
            None => {
                return None;
            },
        };
        let current_tree = match self.store.get(current_hash) {
            Some(t) => t,
            None => {
                proof {
                    assert(false);
                }
                return None;
            },
        };
        let patch_a = diff_trees(&ancestor_tree, current_tree);
        let other_tree = match self.store.get(other_hash) {
            Some(t) => t,
            None => {
                proof {
                    assert(false);
                }
                return None;
            },
        };
        let patch_b = diff_trees(&ancestor_tree, other_tree);
        let merge_result = merge_patches(patch_a.as_slice(), patch_b.as_slice());
        if merge_result.is_clean() {
            let mut result_tree = ancestor_tree;
            apply_patch(&mut result_tree, merge_result.merged_ops.as_slice());
            let mut message = String::new();
            message.append("merge branch '");
            message.append(other_branch);
            message.append("'");
            self.commit(&result_tree, message.as_str(), "system");
        }
        Some(merge_result)
    }
}

impl Default for Repository {
    /// A fresh repository, as [`Repository::new`] builds.
    fn default() -> (r: Self)
        ensures
            r.wf(),
            r.commit_count_spec() == 1,
            r.current_branch_spec() == "main"@,
    {
        Self::new()
    }
}

/// After replacing the commit at `at` with one keyed `h`, lookups of
/// `h` find the new record and all other lookups are unchanged.
proof fn lemma_commit_lookup_replace(cur: Repository, pre: Repository, h: u64, at: int)
    requires
        forall|i: int, j: int|
            0 <= i < j < pre.commits@.len() ==> pre.commits@[i].hash != pre.commits@[j].hash,
        0 <= at < pre.commits@.len(),
        pre.commits@[at].hash == h,
        cur.commits@.len() == pre.commits@.len(),
        cur.commits@[at].hash == h,
        forall|i: int| 0 <= i < pre.commits@.len() && i != at ==> cur.commits@[i] == pre.commits@[i],
    ensures
        forall|i: int, j: int|
            0 <= i < j < cur.commits@.len() ==> cur.commits@[i].hash != cur.commits@[j].hash,
        cur.commit_idx(h) == at,
        cur.has_commit(h),
        forall|g: u64| cur.has_commit(g) == pre.has_commit(g),
        forall|g: u64|
            g != h && pre.has_commit(g) ==> cur.commits@[cur.commit_idx(g)] == pre.commits@[pre.commit_idx(g)],
        cur.commit_count_spec() == pre.commit_count_spec(),
{
    assert(cur.commit_hashes() =~= pre.commit_hashes());
    assert forall|i: int, j: int|
        0 <= i < j < cur.commits@.len() implies cur.commits@[i].hash != cur.commits@[j].hash by {
        assert(pre.commits@[i].hash != pre.commits@[j].hash);
        assert(cur.commits@[i].hash == pre.commits@[i].hash);
        assert(cur.commits@[j].hash == pre.commits@[j].hash);
    }
    assert(cur.commit_hashes()[at] == h);
    lemma_commit_idx_unique(cur, at, h);
    assert forall|g: u64|
        g != h && pre.has_commit(g) implies cur.commits@[cur.commit_idx(g)] == pre.commits@[pre.commit_idx(g)] by {
        let k = choose|k: int| 0 <= k < pre.commit_hashes().len() && pre.commit_hashes()[k] == g;
        assert(pre.commits@[k].hash == g);
        assert(k != at);
        assert(cur.commits@[k].hash == g);
        lemma_commit_idx_unique(pre, k, g);
        lemma_commit_idx_unique(cur, k, g);
    }
}

/// After pushing a fresh commit keyed `h`, lookups of `h` find it and
/// all other lookups are unchanged.
proof fn lemma_commit_lookup_push(cur: Repository, pre: Repository, h: u64)
    requires
        forall|i: int, j: int|
            0 <= i < j < pre.commits@.len() ==> pre.commits@[i].hash != pre.commits@[j].hash,
        !pre.has_commit(h),
        cur.commits@.len() == pre.commits@.len() + 1,
        cur.commits@[pre.commits@.len() as int].hash == h,
        forall|i: int| 0 <= i < pre.commits@.len() ==> cur.commits@[i] == pre.commits@[i],
    ensures
        forall|i: int, j: int|
            0 <= i < j < cur.commits@.len() ==> cur.commits@[i].hash != cur.commits@[j].hash,
        cur.commit_idx(h) == pre.commits@.len(),
        cur.has_commit(h),
        forall|g: u64| g != h ==> cur.has_commit(g) == pre.has_commit(g),
        forall|g: u64|
            g != h && pre.has_commit(g) ==> cur.commits@[cur.commit_idx(g)] == pre.commits@[pre.commit_idx(g)],
        cur.commit_count_spec() == pre.commit_count_spec() + 1,
{
    let n = pre.commits@.len() as int;
    assert(cur.commit_hashes() =~= pre.commit_hashes().push(h));
    assert forall|i: int, j: int|
        0 <= i < j < cur.commits@.len() implies cur.commits@[i].hash != cur.commits@[j].hash by {
        if j < n {
            assert(pre.commits@[i].hash != pre.commits@[j].hash);
            assert(cur.commits@[i] == pre.commits@[i] && cur.commits@[j] == pre.commits@[j]);
        } else {
            assert(cur.commits@[i] == pre.commits@[i]);
            if pre.commits@[i].hash == h {
                assert(pre.commit_hashes()[i] == h);
            }
        }
    }
    assert(cur.commit_hashes()[n] == h);
    lemma_commit_idx_unique(cur, n, h);
    assert forall|g: u64| g != h implies cur.has_commit(g) == pre.has_commit(g) by {
        if cur.has_commit(g) {
            let k = choose|k: int|
                0 <= k < cur.commit_hashes().len() && cur.commit_hashes()[k] == g;
            assert(k != n);
            assert(pre.commit_hashes()[k] == g);
        }
        if pre.has_commit(g) {
            let k = choose|k: int|
                0 <= k < pre.commit_hashes().len() && pre.commit_hashes()[k] == g;
            assert(cur.commit_hashes()[k] == g);
        }
    }
    assert forall|g: u64|
        g != h && pre.has_commit(g) implies cur.commits@[cur.commit_idx(g)] == pre.commits@[pre.commit_idx(g)] by {
        let k = choose|k: int| 0 <= k < pre.commit_hashes().len() && pre.commit_hashes()[k] == g;
        assert(pre.commits@[k].hash == g);
        assert(cur.commits@[k].hash == g);
        lemma_commit_idx_unique(pre, k, g);
        lemma_commit_idx_unique(cur, k, g);
    }
}

/// With unique hashes, the looked-up index of a recorded commit is the
/// position that carries it.
proof fn lemma_commit_idx_unique(rep: Repository, i: int, h: u64)
    requires
        forall|i2: int, j2: int|
            0 <= i2 < j2 < rep.commits@.len() ==> rep.commits@[i2].hash != rep.commits@[j2].hash,
        0 <= i < rep.commits@.len(),
        rep.commits@[i].hash == h,
    ensures
        rep.commit_idx(h) == i,
        rep.has_commit(h),
{
    assert(rep.commit_hashes()[i] == h);
    let k = rep.commit_idx(h);
    assert(0 <= k < rep.commits@.len() && rep.commits@[k].hash == h);
    if k < i {
        assert(rep.commits@[k].hash != rep.commits@[i].hash);
    } else if i < k {
        assert(rep.commits@[i].hash != rep.commits@[k].hash);
    }
}

/// Repointing the branch at position `at` keeps the branch set and all
/// other heads.
proof fn lemma_branch_update(cur: Repository, pre: Repository, hash: u64, at: int)
    requires
        pre.store.wf(),
        pre.store.contains_spec(hash),
        pre.has_commit(hash),
        forall|i: int, j: int|
            0 <= i < j < pre.commits@.len() ==> pre.commits@[i].hash != pre.commits@[j].hash,
        forall|i: int, j: int|
            0 <= i < j < pre.branches@.len() ==> pre.branches@[i].name@ != pre.branches@[j].name@,
        forall|i: int|
            0 <= i < pre.branches@.len() ==> pre.store.contains_spec(
                (#[trigger] pre.branches@[i]).head,
            ) && pre.commit_hashes().contains(pre.branches@[i].head),
        pre.has_branch(pre.current_branch@),
        0 <= at < pre.branches@.len(),
        pre.branches@[at].name@ == pre.current_branch@,
        cur.store == pre.store,
        cur.commits == pre.commits,
        cur.current_branch == pre.current_branch,
        cur.branches@.len() == pre.branches@.len(),
        cur.branches@[at].name@ == pre.branches@[at].name@,
        cur.branches@[at].head == hash,
        forall|i: int|
            0 <= i < pre.branches@.len() && i != at ==> cur.branches@[i] == pre.branches@[i],
    ensures
        cur.wf(),
        cur.head_spec() == hash,
        forall|n: Seq<char>| cur.has_branch(n) == pre.has_branch(n),
        forall|n: Seq<char>|
            n != pre.current_branch@ && pre.has_branch(n) ==> cur.branch_head(n)
                == pre.branch_head(n),
{
    assert(cur.branch_names_spec() =~= pre.branch_names_spec());
    assert forall|i: int, j: int|
        0 <= i < j < cur.branches@.len() implies cur.branches@[i].name@
        != cur.branches@[j].name@ by {
        assert(pre.branches@[i].name@ != pre.branches@[j].name@);
        assert(cur.branches@[i].name@ == pre.branches@[i].name@);
        assert(cur.branches@[j].name@ == pre.branches@[j].name@);
    }
    assert forall|i: int|
        0 <= i < cur.branches@.len() implies cur.store.contains_spec(
        (#[trigger] cur.branches@[i]).head,
    ) && cur.commit_hashes().contains(cur.branches@[i].head) by {
        if i != at {
            assert(cur.branches@[i] == pre.branches@[i]);
        }
    }
    assert(cur.branches@[at].name@ == cur.current_branch@);
    lemma_branch_idx_unique(cur, at, cur.current_branch@);
    assert(cur.head_spec() == hash);
    assert(cur.branch_names_spec()[at] == cur.current_branch@);
    assert(cur.has_branch(cur.current_branch@));
    assert forall|n: Seq<char>|
        n != pre.current_branch@ && pre.has_branch(n) implies cur.branch_head(n)
        == pre.branch_head(n) by {
        let k = choose|k: int|
            0 <= k < pre.branches@.len() && pre.branches@[k].name@ == n;
        assert(k != at);
        assert(cur.branches@[k].name@ == n);
        lemma_branch_idx_unique(pre, k, n);
        lemma_branch_idx_unique(cur, k, n);
    }
}

/// Repointing the named branch at `at` keeps every other branch.
proof fn lemma_branch_repoint(cur: Repository, pre: Repository, name: Seq<char>, hash: u64, at: int)
    requires
        pre.wf(),
        pre.store.contains_spec(hash),
        pre.has_commit(hash),
        0 <= at < pre.branches@.len(),
        pre.branches@[at].name@ == name,
        cur.store == pre.store,
        cur.commits == pre.commits,
        cur.current_branch == pre.current_branch,
        cur.branches@.len() == pre.branches@.len(),
        cur.branches@[at].name@ == name,
        cur.branches@[at].head == hash,
        forall|i: int|
            0 <= i < pre.branches@.len() && i != at ==> cur.branches@[i] == pre.branches@[i],
    ensures
        cur.wf(),
        cur.has_branch(name),
        cur.branch_head(name) == hash,
        cur.commit_count_spec() == pre.commit_count_spec(),
        forall|n: Seq<char>| cur.has_branch(n) == pre.has_branch(n),
        forall|n: Seq<char>|
            n != name && pre.has_branch(n) ==> cur.branch_head(n) == pre.branch_head(n),
        cur.current_branch_spec() == pre.current_branch_spec(),
{
    assert(cur.branch_names_spec() =~= pre.branch_names_spec());
    assert forall|i: int, j: int|
        0 <= i < j < cur.branches@.len() implies cur.branches@[i].name@
        != cur.branches@[j].name@ by {
        assert(pre.branches@[i].name@ != pre.branches@[j].name@);
        assert(cur.branches@[i].name@ == pre.branches@[i].name@);
        assert(cur.branches@[j].name@ == pre.branches@[j].name@);
    }
    assert forall|i: int|
        0 <= i < cur.branches@.len() implies cur.store.contains_spec(
        (#[trigger] cur.branches@[i]).head,
    ) && cur.commit_hashes().contains(cur.branches@[i].head) by {
        if i != at {
            assert(cur.branches@[i] == pre.branches@[i]);
        }
    }
    assert(cur.branch_names_spec()[at] == name);
    lemma_branch_idx_unique(cur, at, name);
    assert forall|n: Seq<char>|
        n != name && pre.has_branch(n) implies cur.branch_head(n) == pre.branch_head(n) by {
        let k = choose|k: int| 0 <= k < pre.branches@.len() && pre.branches@[k].name@ == n;
        assert(k != at);
        assert(cur.branches@[k].name@ == n);
        lemma_branch_idx_unique(pre, k, n);
        lemma_branch_idx_unique(cur, k, n);
    }
}

/// Pushing a branch with a fresh name keeps every other branch.
proof fn lemma_branch_push(cur: Repository, pre: Repository, name: Seq<char>, hash: u64)
    requires
        pre.wf(),
        pre.store.contains_spec(hash),
        pre.has_commit(hash),
        !pre.has_branch(name),
        cur.store == pre.store,
        cur.commits == pre.commits,
        cur.current_branch == pre.current_branch,
        cur.branches@.len() == pre.branches@.len() + 1,
        cur.branches@[pre.branches@.len() as int].name@ == name,
        cur.branches@[pre.branches@.len() as int].head == hash,
        forall|i: int| 0 <= i < pre.branches@.len() ==> cur.branches@[i] == pre.branches@[i],
    ensures
        cur.wf(),
        cur.has_branch(name),
        cur.branch_head(name) == hash,
        cur.commit_count_spec() == pre.commit_count_spec(),
        forall|n: Seq<char>| n != name ==> cur.has_branch(n) == pre.has_branch(n),
        forall|n: Seq<char>|
            n != name && pre.has_branch(n) ==> cur.branch_head(n) == pre.branch_head(n),
        cur.current_branch_spec() == pre.current_branch_spec(),
{
    let m = pre.branches@.len() as int;
    assert(cur.branch_names_spec() =~= pre.branch_names_spec().push(name));
    assert forall|i: int, j: int|
        0 <= i < j < cur.branches@.len() implies cur.branches@[i].name@
        != cur.branches@[j].name@ by {
        if j < m {
            assert(pre.branches@[i].name@ != pre.branches@[j].name@);
            assert(cur.branches@[i] == pre.branches@[i] && cur.branches@[j] == pre.branches@[j]);
        } else {
            assert(cur.branches@[i] == pre.branches@[i]);
            if pre.branches@[i].name@ == name {
                assert(pre.branch_names_spec()[i] == name);
            }
        }
    }
    assert forall|i: int|
        0 <= i < cur.branches@.len() implies cur.store.contains_spec(
        (#[trigger] cur.branches@[i]).head,
    ) && cur.commit_hashes().contains(cur.branches@[i].head) by {
        if i < m {
            assert(cur.branches@[i] == pre.branches@[i]);
        }
    }
    assert(cur.branch_names_spec()[m] == name);
    lemma_branch_idx_unique(cur, m, name);
    assert forall|n: Seq<char>| n != name implies cur.has_branch(n) == pre.has_branch(n) by {
        if cur.has_branch(n) {
            let k = choose|k: int|
                0 <= k < cur.branch_names_spec().len() && cur.branch_names_spec()[k] == n;
            assert(k != m);
            assert(pre.branch_names_spec()[k] == n);
        }
        if pre.has_branch(n) {
            let k = choose|k: int|
                0 <= k < pre.branch_names_spec().len() && pre.branch_names_spec()[k] == n;
            assert(cur.branch_names_spec()[k] == n);
        }
    }
    assert forall|n: Seq<char>|
        n != name && pre.has_branch(n) implies cur.branch_head(n) == pre.branch_head(n) by {
        let k = choose|k: int| 0 <= k < pre.branches@.len() && pre.branches@[k].name@ == n;
        assert(cur.branches@[k].name@ == n);
        lemma_branch_idx_unique(pre, k, n);
        lemma_branch_idx_unique(cur, k, n);
    }
    assert(pre.has_branch(pre.current_branch@));
    assert(cur.has_branch(cur.current_branch@)) by {
        assert(pre.current_branch@ != name);
    }
}

/// With unique names, the looked-up index of a branch is the position
/// that carries it.
proof fn lemma_branch_idx_unique(rep: Repository, i: int, n: Seq<char>)
    requires
        forall|i2: int, j2: int|
            0 <= i2 < j2 < rep.branches@.len() ==> rep.branches@[i2].name@
                != rep.branches@[j2].name@,
        0 <= i < rep.branches@.len(),
        rep.branches@[i].name@ == n,
    ensures
        rep.has_branch(n),
        rep.branch_head(n) == rep.branches@[i].head,
{
    assert(rep.branch_names_spec()[i] == n);
    let k = choose|k: int| 0 <= k < rep.branches@.len() && rep.branches@[k].name@ == n;
    assert(0 <= k < rep.branches@.len() && rep.branches@[k].name@ == n);
    if k < i {
        assert(rep.branches@[k].name@ != rep.branches@[i].name@);
    } else if i < k {
        assert(rep.branches@[i].name@ != rep.branches@[k].name@);
    }
}

} // verus!
