//! Mark-sweep garbage collection for the snapshot store.
//!
//! Starting from a set of root hashes (typically all branch heads), the
//! collector walks the parent DAG, marks every reachable snapshot, and
//! removes the rest.

use vstd::prelude::*;

use crate::store::SnapshotStore;

verus! {

broadcast use vstd::seq_lib::group_seq_properties;

/// Statistics from a garbage collection run.
#[derive(Debug, Clone, PartialEq, Eq, Structural)]
pub struct GcResult {
    /// Number of snapshots retained (reachable from roots).
    pub retained: usize,
    /// Number of snapshots collected (removed).
    pub collected: usize,
    /// Total snapshots before GC.
    pub total_before: usize,
}

impl GcResult {
    /// True if any snapshots were collected.
    pub fn did_collect(&self) -> (r: bool)
        ensures
            r == (self.collected > 0),
    {
        self.collected > 0
    }
}

/// A walk through the parent DAG: it starts at a root, every hash on it
/// is stored, and each hash is a parent of the one before it.
pub open spec fn is_reach_path(st: SnapshotStore, roots: Seq<u64>, path: Seq<u64>) -> bool {
    &&& path.len() > 0
    &&& roots.contains(path[0])
    &&& forall|i: int| 0 <= i < path.len() ==> st.contains_spec(#[trigger] path[i])
    &&& forall|i: int| 0 < i < path.len() ==> st.parents_of(path[i - 1]).contains(#[trigger] path[i])
}

/// `h` is reachable from the roots through the parent DAG.
pub open spec fn reachable(st: SnapshotStore, roots: Seq<u64>, h: u64) -> bool {
    exists|path: Seq<u64>| #[trigger] is_reach_path(st, roots, path) && path.last() == h
}

/// Membership scan in a hash list.
fn hashes_contain(v: &Vec<u64>, t: u64) -> (r: bool)
    ensures
        r == v@.contains(t),
{
    let mut i: usize = 0;
    while i < v.len()
        invariant
            i <= v@.len(),
            forall|j: int| 0 <= j < i ==> v@[j] != t,
        decreases v@.len() - i,
    {
        if v[i] == t {
            return true;
        }
        i += 1;
    }
    proof {
        if v@.contains(t) {
            let j = choose|j: int| 0 <= j < v@.len() && v@[j] == t;
        }
    }
    false
}

/// Any visited set that holds the stored roots and is closed under
/// stored parent links holds the last hash of every reach path.
proof fn lemma_mark_complete(st: SnapshotStore, roots: Seq<u64>, visited: Seq<u64>, path: Seq<u64>)
    requires
        forall|r: u64| roots.contains(r) && st.contains_spec(r) ==> visited.contains(r),
        forall|g: u64, p: u64|
            visited.contains(g) && #[trigger] st.parents_of(g).contains(p) && st.contains_spec(p)
                ==> visited.contains(p),
        is_reach_path(st, roots, path),
    ensures
        visited.contains(path.last()),
    decreases path.len(),
{
    if path.len() == 1 {
        assert(path.last() == path[0]);
    } else {
        let pre = path.drop_last();
        assert(is_reach_path(st, roots, pre)) by {
            assert(forall|i: int| 0 <= i < pre.len() ==> pre[i] == path[i]);
        }
        lemma_mark_complete(st, roots, visited, pre);
        assert(pre.last() == path[path.len() - 2]);
        assert(st.parents_of(path[path.len() - 2]).contains(path[path.len() - 1]));
    }
}

/// A distinct hash list drawn from the store is no longer than the
/// store.
proof fn lemma_visited_bound(st: SnapshotStore, visited: Seq<u64>)
    requires
        st.wf(),
        visited.no_duplicates(),
        forall|h: u64| visited.contains(h) ==> st.contains_spec(h),
    ensures
        visited.len() <= st.count(),
{
    broadcast use vstd::seq_lib::seq_to_set_is_finite;

    visited.unique_seq_to_set();
    st.hashes().lemma_cardinality_of_set();
    assert(visited.to_set().subset_of(st.hashes().to_set())) by {
        assert forall|h: u64| visited.to_set().contains(h) implies st.hashes().to_set().contains(
            h,
        ) by {
            assert(visited.contains(h));
            assert(st.hashes().contains(h));
        }
    }
    vstd::set_lib::lemma_len_subset(visited.to_set(), st.hashes().to_set());
}

/// Mark all snapshots reachable from the roots.
fn mark(store: &SnapshotStore, root_hashes: &[u64]) -> (r: Vec<u64>)
    requires
        store.wf(),
    ensures
        r@.no_duplicates(),
        forall|h: u64| r@.contains(h) <==> reachable(*store, root_hashes@, h),
{
    let mut visited: Vec<u64> = Vec::new();
    let mut queue: Vec<u64> = Vec::new();

    // seed with the roots that are present in the store
    let mut i: usize = 0;
    while i < root_hashes.len()
        invariant
            store.wf(),
            i <= root_hashes@.len(),
            visited@.no_duplicates(),
            forall|h: u64| visited@.contains(h) ==> store.contains_spec(h),
            forall|h: u64| visited@.contains(h) ==> reachable(*store, root_hashes@, h),
            forall|j: int|
                0 <= j < i && store.contains_spec(#[trigger] root_hashes@[j])
                    ==> visited@.contains(root_hashes@[j]),
            forall|h: u64| queue@.contains(h) ==> visited@.contains(h),
            forall|h: u64| visited@.contains(h) ==> queue@.contains(h),
        decreases root_hashes@.len() - i,
    {
        let root = root_hashes[i];
        if store.contains(root) && !hashes_contain(&visited, root) {
            visited.push(root);
            queue.push(root);
            proof {
                assert(root_hashes@[i as int] == root);
                assert(root_hashes@.contains(root));
                let path = seq![root];
                assert(is_reach_path(*store, root_hashes@, path));
                assert(path.last() == root);
                assert(reachable(*store, root_hashes@, root));
            }
        }
        i += 1;
    }
    proof {
        lemma_visited_bound(*store, visited@);
    }

    // walk parent links until the frontier is exhausted
    loop
        invariant
            store.wf(),
            visited@.no_duplicates(),
            forall|h: u64| visited@.contains(h) ==> store.contains_spec(h),
            forall|h: u64| visited@.contains(h) ==> reachable(*store, root_hashes@, h),
            forall|j: int|
                0 <= j < root_hashes@.len() && store.contains_spec(#[trigger] root_hashes@[j])
                    ==> visited@.contains(root_hashes@[j]),
            forall|h: u64| queue@.contains(h) ==> visited@.contains(h),
            forall|g: u64, p: u64|
                visited@.contains(g) && !queue@.contains(g) && #[trigger] store.parents_of(
                    g,
                ).contains(p) && store.contains_spec(p) ==> visited@.contains(p),
            visited@.len() <= store.count(),
        ensures
            queue@.len() == 0,
        decreases store.count() - visited@.len(), queue@.len(),
    {
        let ghost pre_visited = visited@;
        let ghost pre_queue = queue@;
        let hash = match queue.pop() {
            Some(h) => h,
            None => {
                break ;
            },
        };
        proof {
            assert(pre_queue.contains(hash)) by {
                assert(pre_queue[pre_queue.len() - 1] == hash);
            }
            assert(queue@ =~= pre_queue.drop_last());
        }
        match store.parents(hash) {
            Some(parents_ref) => {
                let parents = crate::ast::copy_u64s(parents_ref);
                let pn = parents.len();
                let mut k: usize = 0;
                while k < pn
                    invariant
                        store.wf(),
                        k <= pn,
                        pn == parents@.len(),
                        parents@ == store.parents_of(hash),
                        visited@.contains(hash),
                        reachable(*store, root_hashes@, hash),
                        visited@.no_duplicates(),
                        forall|h: u64| visited@.contains(h) ==> store.contains_spec(h),
                        forall|h: u64|
                            visited@.contains(h) ==> reachable(*store, root_hashes@, h),
                        forall|j: int|
                            0 <= j < root_hashes@.len() && store.contains_spec(
                                #[trigger] root_hashes@[j],
                            ) ==> visited@.contains(root_hashes@[j]),
                        forall|h: u64| queue@.contains(h) ==> visited@.contains(h),
                        forall|g: u64, p: u64|
                            visited@.contains(g) && !queue@.contains(g) && g != hash
                                && #[trigger] store.parents_of(g).contains(p)
                                && store.contains_spec(p) ==> visited@.contains(p),
                        forall|j: int|
                            0 <= j < k && store.contains_spec(#[trigger] parents@[j])
                                ==> visited@.contains(parents@[j]),
                        pre_visited.len() <= visited@.len(),
                        visited@.len() > pre_visited.len() || (visited@ == pre_visited
                            && queue@.len() < pre_queue.len()),
                        visited@.len() <= store.count(),
                        forall|h: u64| pre_visited.contains(h) ==> visited@.contains(h),
                    decreases pn - k,
                {
                    let p = parents[k];
                    if store.contains(p) && !hashes_contain(&visited, p) {
                        visited.push(p);
                        queue.push(p);
                        proof {
                            let base = choose|path: Seq<u64>|
                                #[trigger] is_reach_path(*store, root_hashes@, path) && path.last()
                                    == hash;
                            let path = base.push(p);
                            assert(is_reach_path(*store, root_hashes@, path)) by {
                                assert(forall|i0: int|
                                    0 <= i0 < base.len() ==> path[i0] == base[i0]);
                                assert(path[path.len() - 1] == p);
                                assert(path[0] == base[0]);
                                assert(store.parents_of(hash).contains(p)) by {
                                    assert(parents@[k as int] == p);
                                }
                                assert(path[path.len() - 2] == base.last());
                            }
                            assert(path.last() == p);
                            assert(reachable(*store, root_hashes@, p));
                            lemma_visited_bound(*store, visited@);
                        }
                    }
                    k += 1;
                }
                proof {
                    assert forall|g: u64, p: u64|
                        visited@.contains(g) && !queue@.contains(g) && #[trigger] store.parents_of(
                            g,
                        ).contains(p) && store.contains_spec(p) implies visited@.contains(p) by {
                        if g == hash {
                            let j = choose|j: int|
                                0 <= j < store.parents_of(hash).len() && store.parents_of(hash)[j]
                                    == p;
                        }
                    }
                }
            },
            None => {
                proof {
                    assert(store.contains_spec(hash));
                    assert(false);
                }
            },
        }
    }
    proof {
        assert forall|h: u64|
            visited@.contains(h) <==> reachable(*store, root_hashes@, h) by {
            if reachable(*store, root_hashes@, h) {
                let path = choose|path: Seq<u64>|
                    #[trigger] is_reach_path(*store, root_hashes@, path) && path.last() == h;
                assert forall|r: u64|
                    root_hashes@.contains(r) && store.contains_spec(r) implies visited@.contains(
                    r,
                ) by {
                    let j = choose|j: int| 0 <= j < root_hashes@.len() && root_hashes@[j] == r;
                }
                lemma_mark_complete(*store, root_hashes@, visited@, path);
            }
        }
    }
    visited
}

/// Reachability from the roots, as a predicate on hashes.
pub open spec fn reach_pred(st: SnapshotStore, roots: Seq<u64>) -> spec_fn(u64) -> bool {
    |h: u64| reachable(st, roots, h)
}

/// The number of stored snapshots that are reachable from the roots.
pub open spec fn reach_count(st: SnapshotStore, roots: Seq<u64>) -> int {
    st.hashes().filter(reach_pred(st, roots)).len() as int
}

/// Two duplicate-free hash lists with the same members have the same
/// length.
proof fn lemma_same_members_same_len(a: Seq<u64>, b: Seq<u64>)
    requires
        a.no_duplicates(),
        b.no_duplicates(),
        forall|h: u64| a.contains(h) <==> b.contains(h),
    ensures
        a.len() == b.len(),
{
    broadcast use vstd::seq_lib::seq_to_set_is_finite;

    a.unique_seq_to_set();
    b.unique_seq_to_set();
    assert(a.to_set() =~= b.to_set()) by {
        assert forall|h: u64| a.to_set().contains(h) <==> b.to_set().contains(h) by {
            assert(a.contains(h) <==> b.contains(h));
        }
    }
}

/// A filter of a duplicate-free sequence is duplicate-free and keeps
/// exactly the members satisfying the predicate.
proof fn lemma_filter_members(s: Seq<u64>, pred: spec_fn(u64) -> bool)
    requires
        s.no_duplicates(),
    ensures
        s.filter(pred).no_duplicates(),
        forall|h: u64| s.filter(pred).contains(h) <==> s.contains(h) && pred(h),
    decreases s.len(),
{
    reveal(Seq::filter);
    if s.len() > 0 {
        let sub = s.drop_last();
        assert(sub.no_duplicates());
        lemma_filter_members(sub, pred);
        let fs = s.filter(pred);
        let fsub = sub.filter(pred);
        assert forall|h: u64| fs.contains(h) implies s.contains(h) && pred(h) by {
            let i = choose|i: int| 0 <= i < fs.len() && fs[i] == h;
            if pred(s.last()) && i == fs.len() - 1 {
                assert(fs == fsub.push(s.last()));
                assert(s[s.len() - 1] == h);
            } else {
                if pred(s.last()) {
                    assert(fs == fsub.push(s.last()));
                    assert(fs[i] == fsub[i]);
                } else {
                    assert(fs == fsub);
                }
                assert(fsub[i] == h);
                assert(fsub.contains(h));
                assert(sub.contains(h) && pred(h));
                let j = choose|j: int| 0 <= j < sub.len() && sub[j] == h;
                assert(sub[j] == s[j]);
                assert(s[j] == h);
            }
        }
        assert forall|h: u64| s.contains(h) && pred(h) implies fs.contains(h) by {
            let i = choose|i: int| 0 <= i < s.len() && s[i] == h;
            if i == s.len() - 1 {
                assert(fs == fsub.push(s.last()));
                assert(fs[fs.len() - 1] == h);
            } else {
                assert(sub[i] == h);
                assert(fsub.contains(h));
                let j = choose|j: int| 0 <= j < fsub.len() && fsub[j] == h;
                assert(fs[j] == h);
            }
        }
        if pred(s.last()) {
            assert(fs == fsub.push(s.last()));
            assert(!fsub.contains(s.last())) by {
                if fsub.contains(s.last()) {
                    assert(sub.contains(s.last()));
                    let j = choose|j: int| 0 <= j < sub.len() && sub[j] == s.last();
                    assert(s[j] == s[s.len() - 1]);
                }
            }
            assert(fs.no_duplicates()) by {
                assert forall|i: int, j: int| 0 <= i < j < fs.len() implies fs[i] != fs[j] by {
                    if j < fs.len() - 1 {
                        assert(fsub[i] != fsub[j]);
                    } else {
                        assert(fs[i] == fsub[i]);
                        if fs[i] == s.last() {
                            assert(fsub.contains(s.last()));
                        }
                    }
                }
            }
        }
    }
}

/// Run mark-sweep garbage collection on the snapshot store.
///
/// After the run, a snapshot is stored exactly when it was stored
/// before and is reachable from some root via the parent DAG; retained
/// snapshots keep their tree and parent links unchanged, and
/// `retained + collected == total_before`.
pub fn collect_garbage(store: &mut SnapshotStore, root_hashes: &[u64]) -> (r: GcResult)
    requires
        old(store).wf(),
    ensures
        final(store).wf(),
        r.total_before == old(store).count(),
        r.retained + r.collected == r.total_before,
        r.retained == final(store).count(),
        r.retained == reach_count(*old(store), root_hashes@),
        forall|h: u64|
            final(store).contains_spec(h) <==> (old(store).contains_spec(h) && reachable(
                *old(store),
                root_hashes@,
                h,
            )),
        forall|h: u64|
            final(store).contains_spec(h) ==> final(store).tree_of(h) == old(store).tree_of(h)
                && final(store).parents_of(h) == old(store).parents_of(h),
{
    let ghost st0 = *store;
    let all = store.all_hashes();
    let total_before = all.len();
    let marked = mark(store, root_hashes);
    let mut collected: usize = 0;
    let mut i: usize = 0;
    proof {
        st0.lemma_hashes_distinct();
    }
    while i < all.len()
        invariant
            store.wf(),
            i <= all@.len(),
            all@ == st0.hashes(),
            all@.no_duplicates(),
            marked@.no_duplicates(),
            forall|h: u64| marked@.contains(h) <==> reachable(st0, root_hashes@, h),
            collected <= i,
            store.count() == st0.count() - collected,
            forall|h: u64|
                store.contains_spec(h) ==> st0.contains_spec(h) && store.tree_of(h)
                    == st0.tree_of(h) && store.parents_of(h) == st0.parents_of(h),
            forall|j: int|
                0 <= j < i ==> (store.contains_spec(#[trigger] all@[j]) <==> reachable(
                    st0,
                    root_hashes@,
                    all@[j],
                )),
            forall|j: int| i <= j < all@.len() ==> store.contains_spec(#[trigger] all@[j]),
        decreases all@.len() - i,
    {
        let h = all[i];
        if !hashes_contain(&marked, h) {
            proof {
                assert(all@[i as int] == h);
            }
            let existed = store.remove(h);
            proof {
                assert(existed);
                assert forall|j: int|
                    i as int + 1 <= j < all@.len() implies store.contains_spec(
                    #[trigger] all@[j],
                ) by {
                    assert(all@[j] != h);
                }
            }
            collected += 1;
        } else {
            proof {
                assert(all@[i as int] == h);
            }
        }
        i += 1;
    }
    let retained = total_before - collected;
    proof {
        assert forall|h: u64|
            store.contains_spec(h) <==> (st0.contains_spec(h) && reachable(
                st0,
                root_hashes@,
                h,
            )) by {
            if store.contains_spec(h) {
                assert(st0.contains_spec(h));
                let j = choose|j: int| 0 <= j < all@.len() && all@[j] == h;
            }
            if st0.contains_spec(h) && reachable(st0, root_hashes@, h) {
                let j = choose|j: int| 0 <= j < all@.len() && all@[j] == h;
            }
        }
        lemma_filter_members(st0.hashes(), reach_pred(st0, root_hashes@));
        store.lemma_hashes_distinct();
        assert forall|h: u64|
            store.hashes().contains(h) <==> st0.hashes().filter(
                reach_pred(st0, root_hashes@),
            ).contains(h) by {
            assert(reach_pred(st0, root_hashes@)(h) == reachable(st0, root_hashes@, h));
            if store.hashes().contains(h) {
                assert(store.contains_spec(h));
                assert(st0.contains_spec(h));
                let j = choose|j: int| 0 <= j < all@.len() && all@[j] == h;
                assert(store.contains_spec(all@[j]) <==> reachable(st0, root_hashes@, all@[j]));
                assert(reachable(st0, root_hashes@, h));
                assert(st0.hashes().contains(h));
            }
            if st0.hashes().filter(reach_pred(st0, root_hashes@)).contains(h) {
                assert(st0.hashes().contains(h) && reachable(st0, root_hashes@, h));
                assert(st0.contains_spec(h));
                let j = choose|j: int| 0 <= j < all@.len() && all@[j] == h;
                assert(store.contains_spec(all@[j]) <==> reachable(st0, root_hashes@, all@[j]));
                assert(store.contains_spec(h));
            }
        }
        lemma_same_members_same_len(
            store.hashes(),
            st0.hashes().filter(reach_pred(st0, root_hashes@)),
        );
    }
    GcResult { retained, collected, total_before }
}

/// Dry-run: compute what a collection would do without removing
/// anything.
pub fn dry_run(store: &SnapshotStore, root_hashes: &[u64]) -> (r: GcResult)
    requires
        store.wf(),
    ensures
        r.total_before == store.count(),
        r.retained + r.collected == r.total_before,
        r.retained == reach_count(*store, root_hashes@),
{
    let total_before = store.len();
    let marked = mark(store, root_hashes);
    let retained = marked.len();
    proof {
        store.lemma_hashes_distinct();
        lemma_filter_members(store.hashes(), reach_pred(*store, root_hashes@));
        assert forall|h: u64|
            marked@.contains(h) <==> store.hashes().filter(
                reach_pred(*store, root_hashes@),
            ).contains(h) by {
            assert(reach_pred(*store, root_hashes@)(h) == reachable(*store, root_hashes@, h));
            if marked@.contains(h) {
                assert(reachable(*store, root_hashes@, h));
                let path = choose|path: Seq<u64>|
                    #[trigger] is_reach_path(*store, root_hashes@, path) && path.last() == h;
                assert(store.contains_spec(path.last()));
            }
        }
        lemma_same_members_same_len(
            marked@,
            store.hashes().filter(reach_pred(*store, root_hashes@)),
        );
        store.hashes().lemma_filter_len(reach_pred(*store, root_hashes@));
    }
    let collected = total_before - retained;
    GcResult { retained, collected, total_before }
}

/// Collecting garbage is idempotent: every snapshot that survives one
/// collection is reachable in the collected store itself, so a second
/// collection with the same roots removes nothing.
pub proof fn lemma_gc_idempotent(pre: SnapshotStore, post: SnapshotStore, roots: Seq<u64>, h: u64)
    requires
        forall|g: u64|
            post.contains_spec(g) <==> (pre.contains_spec(g) && reachable(pre, roots, g)),
        forall|g: u64| post.contains_spec(g) ==> post.parents_of(g) == pre.parents_of(g),
        post.contains_spec(h),
    ensures
        reachable(post, roots, h),
{
    assert(reachable(pre, roots, h));
    let path = choose|path: Seq<u64>|
        #[trigger] is_reach_path(pre, roots, path) && path.last() == h;
    assert forall|i: int| 0 <= i < path.len() implies post.contains_spec(#[trigger] path[i]) by {
        let prefix = path.take(i + 1);
        assert(is_reach_path(pre, roots, prefix)) by {
            assert(forall|j: int| 0 <= j < prefix.len() ==> prefix[j] == path[j]);
        }
        assert(prefix.last() == path[i]);
        assert(reachable(pre, roots, path[i]));
    }
    assert(is_reach_path(post, roots, path)) by {
        assert forall|i: int|
            0 < i < path.len() implies post.parents_of(path[i - 1]).contains(
            #[trigger] path[i],
        ) by {
            assert(pre.parents_of(path[i - 1]).contains(path[i]));
            assert(post.contains_spec(path[i - 1]));
        }
    }
    assert(reachable(post, roots, h)) by {
        assert(is_reach_path(post, roots, path) && path.last() == h);
    }
}

} // verus!
