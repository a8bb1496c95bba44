//! Three-way structural merge.
//!
//! Merges two edit-scripts taken against a common ancestor.
//! Non-overlapping edits are combined; edits on the same target node
//! are kept when both sides agree and reported as conflicts otherwise.

use vstd::prelude::*;

use crate::ast::{spec_value_eq, NodeId};
use crate::diff::{ops_view, DiffOp, OpView};

verus! {

/// Merge conflict.
#[derive(Debug, Clone)]
pub struct Conflict {
    /// Node that has conflicting edits
    pub node_id: NodeId,
    /// Description of the conflict
    pub description: String,
    /// Operations from branch A
    pub ops_a: Vec<DiffOp>,
    /// Operations from branch B
    pub ops_b: Vec<DiffOp>,
}

/// Merge result.
#[derive(Debug)]
pub struct MergeResult {
    /// Successfully merged operations
    pub merged_ops: Vec<DiffOp>,
    /// Conflicts that need manual resolution
    pub conflicts: Vec<Conflict>,
}

impl MergeResult {
    /// True if the merge is clean (no conflicts).
    pub fn is_clean(&self) -> (r: bool)
        ensures
            r == (self.conflicts@.len() == 0),
    {
        self.conflicts.len() == 0
    }
}

/// The target node of an operation: the parent for an insert, the
/// node itself for every other operation.
pub open spec fn op_target(o: OpView) -> NodeId {
    match o {
        OpView::Insert { parent_id, .. } => parent_id,
        OpView::Delete { node_id } => node_id,
        OpView::Update { node_id, .. } => node_id,
        OpView::Relabel { node_id, .. } => node_id,
        OpView::Move { node_id, .. } => node_id,
    }
}

/// Some operation in the script targets `id`.
pub open spec fn has_target(ops: Seq<OpView>, id: NodeId) -> bool {
    exists|i: int| 0 <= i < ops.len() && op_target(ops[i]) == id
}

/// The subsequence of operations targeting `id`, in script order.
pub open spec fn group_of(ops: Seq<OpView>, id: NodeId) -> Seq<OpView> {
    ops.filter(|o: OpView| op_target(o) == id)
}

/// Operation equality as the merge sees it: structural, except that
/// float values compare by IEEE `==`.
pub open spec fn op_sem_eq(a: OpView, b: OpView) -> bool {
    match a {
        OpView::Insert { parent_id, index, kind, label, value } => match b {
            OpView::Insert {
                parent_id: p2,
                index: i2,
                kind: k2,
                label: l2,
                value: v2,
            } => parent_id == p2 && index == i2 && kind == k2 && label == l2 && spec_value_eq(
                value,
                v2,
            ),
            _ => false,
        },
        OpView::Delete { node_id } => match b {
            OpView::Delete { node_id: n2 } => node_id == n2,
            _ => false,
        },
        OpView::Update { node_id, old_value, new_value } => match b {
            OpView::Update { node_id: n2, old_value: o2, new_value: v2 } => node_id == n2
                && spec_value_eq(old_value, o2) && spec_value_eq(new_value, v2),
            _ => false,
        },
        OpView::Relabel { node_id, old_label, new_label } => match b {
            OpView::Relabel { node_id: n2, old_label: o2, new_label: l2 } => node_id == n2
                && old_label == o2 && new_label == l2,
            _ => false,
        },
        OpView::Move { node_id, new_parent_id, new_index } => match b {
            OpView::Move { node_id: n2, new_parent_id: p2, new_index: i2 } => node_id == n2
                && new_parent_id == p2 && new_index == i2,
            _ => false,
        },
    }
}

/// Pointwise [`op_sem_eq`] of two scripts.
pub open spec fn ops_sem_eq(a: Seq<OpView>, b: Seq<OpView>) -> bool {
    a.len() == b.len() && forall|i: int| 0 <= i < a.len() ==> op_sem_eq(#[trigger] a[i], b[i])
}

/// The target ids of a script, first occurrence first, no duplicates.
pub open spec fn dedup_targets_from(ops: Seq<OpView>, i: int, seen: Seq<NodeId>) -> Seq<NodeId>
    decreases ops.len() - i,
{
    if i < 0 || i >= ops.len() {
        Seq::empty()
    } else {
        let t = op_target(ops[i]);
        if seen.contains(t) {
            dedup_targets_from(ops, i + 1, seen)
        } else {
            seq![t] + dedup_targets_from(ops, i + 1, seen.push(t))
        }
    }
}

/// The target ids of a script, first occurrence first, no duplicates.
pub open spec fn dedup_targets(ops: Seq<OpView>) -> Seq<NodeId> {
    dedup_targets_from(ops, 0, Seq::empty())
}

/// The auto-resolved part of a merge: for each shared target id, both
/// sides' groups when they agree.
pub open spec fn resolved_groups(va: Seq<OpView>, vb: Seq<OpView>, ids: Seq<NodeId>) -> Seq<OpView>
    decreases ids.len(),
{
    if ids.len() == 0 {
        Seq::empty()
    } else {
        let id = ids[0];
        (if has_target(vb, id) && ops_sem_eq(group_of(va, id), group_of(vb, id)) {
            group_of(va, id)
        } else {
            Seq::empty()
        }) + resolved_groups(va, vb, ids.skip(1))
    }
}

/// The conflicting target ids of a merge, in first-occurrence order.
pub open spec fn conflict_ids(va: Seq<OpView>, vb: Seq<OpView>, ids: Seq<NodeId>) -> Seq<NodeId>
    decreases ids.len(),
{
    if ids.len() == 0 {
        Seq::empty()
    } else {
        let id = ids[0];
        (if has_target(vb, id) && !ops_sem_eq(group_of(va, id), group_of(vb, id)) {
            seq![id]
        } else {
            Seq::empty()
        }) + conflict_ids(va, vb, ids.skip(1))
    }
}

/// The merged script: ops of A whose targets B does not touch, ops of B
/// whose targets A does not touch, then the agreed groups of the shared
/// targets.
pub open spec fn merged_spec(va: Seq<OpView>, vb: Seq<OpView>) -> Seq<OpView> {
    va.filter(|o: OpView| !has_target(vb, op_target(o))) + vb.filter(
        |o: OpView| !has_target(va, op_target(o)),
    ) + resolved_groups(va, vb, dedup_targets(va))
}

// ── Small filter lemmas ───────────────────────────────────────────────

/// A filter whose predicate holds of every element keeps the sequence.
proof fn lemma_filter_all(s: Seq<OpView>, pred: spec_fn(OpView) -> bool)
    requires
        forall|i: int| 0 <= i < s.len() ==> pred(#[trigger] s[i]),
    ensures
        s.filter(pred) == s,
    decreases s.len(),
{
    reveal(Seq::filter);
    if s.len() > 0 {
        lemma_filter_all(s.drop_last(), pred);
        assert(s.drop_last().push(s.last()) =~= s);
    }
}

/// A filter whose predicate holds of no element drops everything.
proof fn lemma_filter_none(s: Seq<OpView>, pred: spec_fn(OpView) -> bool)
    requires
        forall|i: int| 0 <= i < s.len() ==> !pred(#[trigger] s[i]),
    ensures
        s.filter(pred) == Seq::<OpView>::empty(),
    decreases s.len(),
{
    reveal(Seq::filter);
    if s.len() > 0 {
        lemma_filter_none(s.drop_last(), pred);
    }
}

/// Every element of a filtered sequence occurs in the original.
proof fn lemma_filter_origin(s: Seq<OpView>, pred: spec_fn(OpView) -> bool, i: int)
    requires
        0 <= i < s.filter(pred).len(),
    ensures
        exists|j: int| 0 <= j < s.len() && s[j] == s.filter(pred)[i],
    decreases s.len(),
{
    reveal(Seq::filter);
    if s.len() > 0 {
        let sub = s.drop_last().filter(pred);
        if i < sub.len() {
            lemma_filter_origin(s.drop_last(), pred, i);
            let j = choose|j: int| 0 <= j < s.drop_last().len() && s.drop_last()[j] == sub[i];
            assert(s[j] == s.filter(pred)[i]);
        } else {
            assert(s[s.len() - 1] == s.filter(pred)[i]);
        }
    }
}

/// A filtered singleton.
proof fn lemma_filter_one(x: OpView, pred: spec_fn(OpView) -> bool)
    ensures
        seq![x].filter(pred) == if pred(x) {
            seq![x]
        } else {
            Seq::<OpView>::empty()
        },
{
    reveal(Seq::filter);
    assert(seq![x].drop_last() =~= Seq::<OpView>::empty());
    assert(Seq::<OpView>::empty().filter(pred) == Seq::<OpView>::empty());
    if pred(x) {
        assert(seq![x].filter(pred) =~= seq![x]);
    }
}

/// The deduplicated target list carries exactly the targets that are
/// not already in `seen`.
proof fn lemma_dedup_contains_from(ops: Seq<OpView>, i: int, seen: Seq<NodeId>, t: NodeId)
    requires
        0 <= i <= ops.len(),
    ensures
        dedup_targets_from(ops, i, seen).contains(t) <==> (!seen.contains(t) && exists|j: int|
            i <= j < ops.len() && op_target(#[trigger] ops[j]) == t),
    decreases ops.len() - i,
{
    if i < ops.len() {
        let t0 = op_target(ops[i]);
        if seen.contains(t0) {
            lemma_dedup_contains_from(ops, i + 1, seen, t);
        } else {
            lemma_dedup_contains_from(ops, i + 1, seen.push(t0), t);
            let tail = dedup_targets_from(ops, i + 1, seen.push(t0));
            let whole = seq![t0] + tail;
            if t == t0 {
                assert(whole[0] == t);
                assert(whole.contains(t));
            } else {
                assert(seen.push(t0).contains(t) <==> seen.contains(t)) by {
                    if seen.contains(t) {
                        let k = choose|k: int| 0 <= k < seen.len() && seen[k] == t;
                        assert(seen.push(t0)[k] == t);
                    }
                    if seen.push(t0).contains(t) {
                        let k = choose|k: int|
                            0 <= k < seen.push(t0).len() && seen.push(t0)[k] == t;
                        assert(k < seen.len());
                        assert(seen[k] == t);
                    }
                }
                assert(whole.contains(t) <==> tail.contains(t)) by {
                    if tail.contains(t) {
                        let k = choose|k: int| 0 <= k < tail.len() && tail[k] == t;
                        assert(whole[1 + k] == t);
                    }
                    if whole.contains(t) {
                        let k = choose|k: int| 0 <= k < whole.len() && whole[k] == t;
                        assert(k >= 1);
                        assert(tail[k - 1] == t);
                    }
                }
            }
        }
    }
}

/// The deduplicated target list carries exactly the script's targets.
pub proof fn lemma_dedup_contains(ops: Seq<OpView>, t: NodeId)
    ensures
        dedup_targets(ops).contains(t) <==> has_target(ops, t),
{
    lemma_dedup_contains_from(ops, 0, Seq::empty(), t);
}

// ── Executable helpers ────────────────────────────────────────────────

/// The target node of an operation.
fn op_target_node(op: &DiffOp) -> (r: NodeId)
    ensures
        r == op_target(op@),
{
    match op {
        DiffOp::Insert { parent_id, .. } => *parent_id,
        DiffOp::Delete { node_id } => *node_id,
        DiffOp::Update { node_id, .. } => *node_id,
        DiffOp::Relabel { node_id, .. } => *node_id,
        DiffOp::Move { node_id, .. } => *node_id,
    }
}

/// Membership scan in an id list.
fn ids_contain(v: &Vec<NodeId>, t: NodeId) -> (r: bool)
    ensures
        r == v@.contains(t),
{
    let mut i: usize = 0;
    while i < v.len()
        invariant
            i <= v@.len(),
            forall|j: int| 0 <= j < i ==> v@[j] != t,
        decreases v@.len() - i,
    {
        if v[i] == t {
            return true;
        }
        i += 1;
    }
    proof {
        if v@.contains(t) {
            let j = choose|j: int| 0 <= j < v@.len() && v@[j] == t;
        }
    }
    false
}

/// Collect all node ids a script targets, first occurrence first.
fn affected_nodes(ops: &[DiffOp]) -> (r: Vec<NodeId>)
    ensures
        r@ == dedup_targets(ops_view(ops@)),
{
    let ghost vs = ops_view(ops@);
    let mut out: Vec<NodeId> = Vec::new();
    let mut i: usize = 0;
    while i < ops.len()
        invariant
            i <= ops@.len(),
            vs == ops_view(ops@),
            dedup_targets(vs) == out@ + dedup_targets_from(vs, i as int, out@),
        decreases ops@.len() - i,
    {
        let t = op_target_node(&ops[i]);
        proof {
            assert(op_target(vs[i as int]) == t);
        }
        if !ids_contain(&out, t) {
            let ghost pre = out@;
            out.push(t);
            proof {
                assert(dedup_targets_from(vs, i as int, pre) == seq![t] + dedup_targets_from(
                    vs,
                    i as int + 1,
                    pre.push(t),
                ));
                assert(pre + (seq![t] + dedup_targets_from(vs, i as int + 1, out@)) =~= out@
                    + dedup_targets_from(vs, i as int + 1, out@));
            }
        }
        i += 1;
    }
    proof {
        assert(dedup_targets_from(vs, ops@.len() as int, out@) =~= Seq::<NodeId>::empty());
        assert(out@ + Seq::<NodeId>::empty() =~= out@);
    }
    out
}

/// Collect the subsequence of `ops` targeting `id`.
fn collect_group(ops: &[DiffOp], id: NodeId) -> (r: Vec<DiffOp>)
    ensures
        ops_view(r@) == group_of(ops_view(ops@), id),
{
    let ghost vs = ops_view(ops@);
    let ghost pred = |o: OpView| op_target(o) == id;
    let mut out: Vec<DiffOp> = Vec::new();
    let mut i: usize = 0;
    proof {
        assert(vs.take(0) =~= Seq::<OpView>::empty());
        reveal(Seq::filter);
        assert(ops_view(out@) =~= vs.take(0).filter(pred));
    }
    while i < ops.len()
        invariant
            i <= ops@.len(),
            vs == ops_view(ops@),
            ops_view(out@) == vs.take(i as int).filter(|o: OpView| op_target(o) == id),
        decreases ops@.len() - i,
    {
        let ghost pre = ops_view(out@);
        let t = op_target_node(&ops[i]);
        if t == id {
            out.push(ops[i].duplicate());
        }
        proof {
            let p = |o: OpView| op_target(o) == id;
            assert(vs.take(i as int + 1) =~= vs.take(i as int) + seq![vs[i as int]]);
            Seq::filter_distributes_over_add(vs.take(i as int), seq![vs[i as int]], p);
            lemma_filter_one(vs[i as int], p);
            assert(op_target(vs[i as int]) == t);
            if t == id {
                assert(ops_view(out@) =~= pre + seq![vs[i as int]]);
            } else {
                assert(pre + Seq::<OpView>::empty() =~= pre);
            }
        }
        i += 1;
    }
    proof {
        assert(vs.take(ops@.len() as int) =~= vs);
    }
    out
}

/// Operation equality as the merge sees it.
fn op_eq_exec(a: &DiffOp, b: &DiffOp) -> (r: bool)
    ensures
        r == op_sem_eq(a@, b@),
{
    match a {
        DiffOp::Insert { parent_id, index, kind, label, value } => match b {
            DiffOp::Insert { parent_id: p2, index: i2, kind: k2, label: l2, value: v2 } => *parent_id
                == *p2 && *index == *i2 && *kind == *k2 && *label == *l2 && crate::ast::value_eq(
                value,
                v2,
            ),
            _ => false,
        },
        DiffOp::Delete { node_id } => match b {
            DiffOp::Delete { node_id: n2 } => *node_id == *n2,
            _ => false,
        },
        DiffOp::Update { node_id, old_value, new_value } => match b {
            DiffOp::Update { node_id: n2, old_value: o2, new_value: v2 } => *node_id == *n2
                && crate::ast::value_eq(old_value, o2) && crate::ast::value_eq(new_value, v2),
            _ => false,
        },
        DiffOp::Relabel { node_id, old_label, new_label } => match b {
            DiffOp::Relabel { node_id: n2, old_label: o2, new_label: l2 } => *node_id == *n2
                && *old_label == *o2 && *new_label == *l2,
            _ => false,
        },
        DiffOp::Move { node_id, new_parent_id, new_index } => match b {
            DiffOp::Move { node_id: n2, new_parent_id: p2, new_index: i2 } => *node_id == *n2
                && *new_parent_id == *p2 && *new_index == *i2,
            _ => false,
        },
    }
}

/// Pointwise operation equality of two scripts.
fn groups_eq_exec(a: &Vec<DiffOp>, b: &Vec<DiffOp>) -> (r: bool)
    ensures
        r == ops_sem_eq(ops_view(a@), ops_view(b@)),
{
    if a.len() != b.len() {
        return false;
    }
    let mut i: usize = 0;
    while i < a.len()
        invariant
            i <= a@.len(),
            a@.len() == b@.len(),
            forall|j: int|
                0 <= j < i ==> op_sem_eq(#[trigger] ops_view(a@)[j], ops_view(b@)[j]),
        decreases a@.len() - i,
    {
        if !op_eq_exec(&a[i], &b[i]) {
            proof {
                assert(ops_view(a@)[i as int] == a@[i as int]@);
                assert(ops_view(b@)[i as int] == b@[i as int]@);
            }
            return false;
        }
        i += 1;
    }
    true
}

// ── The merge ─────────────────────────────────────────────────────────

/// Every operation equals itself under the merge's equality; false only
/// in the presence of NaN float values.
pub open spec fn ops_self_eq(ops: Seq<OpView>) -> bool {
    forall|i: int| 0 <= i < ops.len() ==> op_sem_eq(#[trigger] ops[i], ops[i])
}

/// The node ids of a conflict list.
pub open spec fn conflict_nids(cs: Seq<Conflict>) -> Seq<NodeId> {
    cs.map_values(|c: Conflict| c.node_id)
}

/// Merge two scripts taken against a common ancestor.
///
/// Operations whose target only one side touches are kept; for every
/// shared target, the two sides' operation groups are kept when they
/// agree and reported as one conflict otherwise. Disjoint scripts merge
/// to their concatenation with no conflicts; a NaN-free script merged
/// with itself is conflict-free.
#[verifier::rlimit(100)]
pub fn merge_patches(patch_a: &[DiffOp], patch_b: &[DiffOp]) -> (r: MergeResult)
    ensures
        ops_view(r.merged_ops@) == merged_spec(ops_view(patch_a@), ops_view(patch_b@)),
        conflict_nids(r.conflicts@) == conflict_ids(
            ops_view(patch_a@),
            ops_view(patch_b@),
            dedup_targets(ops_view(patch_a@)),
        ),
        forall|i: int|
            0 <= i < r.conflicts@.len() ==> {
                let c = #[trigger] r.conflicts@[i];
                ops_view(c.ops_a@) == group_of(ops_view(patch_a@), c.node_id) && ops_view(c.ops_b@)
                    == group_of(ops_view(patch_b@), c.node_id)
            },
        (forall|id: NodeId|
            !(has_target(ops_view(patch_a@), id) && has_target(ops_view(patch_b@), id)))
            ==> r.conflicts@.len() == 0 && ops_view(r.merged_ops@) == ops_view(patch_a@)
            + ops_view(patch_b@),
        ops_view(patch_a@) == ops_view(patch_b@) && ops_self_eq(ops_view(patch_a@))
            ==> r.conflicts@.len() == 0,
{
    let ghost va = ops_view(patch_a@);
    let ghost vb = ops_view(patch_b@);
    let affected_a = affected_nodes(patch_a);
    let affected_b = affected_nodes(patch_b);
    let mut merged_ops: Vec<DiffOp> = Vec::new();
    let mut conflicts: Vec<Conflict> = Vec::new();

    // ops of A whose targets B does not touch
    let ghost pa = |o: OpView| !has_target(vb, op_target(o));
    let mut i: usize = 0;
    proof {
        assert(va.take(0) =~= Seq::<OpView>::empty());
        reveal(Seq::filter);
        assert(ops_view(merged_ops@) =~= va.take(0).filter(pa));
    }
    while i < patch_a.len()
        invariant
            i <= patch_a@.len(),
            va == ops_view(patch_a@),
            vb == ops_view(patch_b@),
            affected_b@ == dedup_targets(vb),
            pa == (|o: OpView| !has_target(vb, op_target(o))),
            ops_view(merged_ops@) == va.take(i as int).filter(pa),
        decreases patch_a@.len() - i,
    {
        let ghost pre = ops_view(merged_ops@);
        let t = op_target_node(&patch_a[i]);
        proof {
            assert(op_target(va[i as int]) == t);
            lemma_dedup_contains(vb, t);
        }
        if !ids_contain(&affected_b, t) {
            merged_ops.push(patch_a[i].duplicate());
        }
        proof {
            assert(va.take(i as int + 1) =~= va.take(i as int) + seq![va[i as int]]);
            Seq::filter_distributes_over_add(va.take(i as int), seq![va[i as int]], pa);
            lemma_filter_one(va[i as int], pa);
            if !vb.contains(va[i as int]) || true {
                if pa(va[i as int]) {
                    assert(ops_view(merged_ops@) =~= pre + seq![va[i as int]]);
                } else {
                    assert(pre + Seq::<OpView>::empty() =~= pre);
                }
            }
        }
        i += 1;
    }
    proof {
        assert(va.take(patch_a@.len() as int) =~= va);
    }
    let ghost seg_a = ops_view(merged_ops@);

    // ops of B whose targets A does not touch
    let ghost pb = |o: OpView| !has_target(va, op_target(o));
    let mut i2: usize = 0;
    proof {
        assert(vb.take(0) =~= Seq::<OpView>::empty());
        reveal(Seq::filter);
        assert(seg_a + vb.take(0).filter(pb) =~= seg_a);
    }
    while i2 < patch_b.len()
        invariant
            i2 <= patch_b@.len(),
            va == ops_view(patch_a@),
            vb == ops_view(patch_b@),
            affected_a@ == dedup_targets(va),
            seg_a == va.filter(|o: OpView| !has_target(vb, op_target(o))),
            pb == (|o: OpView| !has_target(va, op_target(o))),
            ops_view(merged_ops@) == seg_a + vb.take(i2 as int).filter(pb),
        decreases patch_b@.len() - i2,
    {
        let ghost pre = ops_view(merged_ops@);
        let t = op_target_node(&patch_b[i2]);
        proof {
            assert(op_target(vb[i2 as int]) == t);
            lemma_dedup_contains(va, t);
        }
        if !ids_contain(&affected_a, t) {
            merged_ops.push(patch_b[i2].duplicate());
        }
        proof {
            assert(vb.take(i2 as int + 1) =~= vb.take(i2 as int) + seq![vb[i2 as int]]);
            Seq::filter_distributes_over_add(vb.take(i2 as int), seq![vb[i2 as int]], pb);
            lemma_filter_one(vb[i2 as int], pb);
            if pb(vb[i2 as int]) {
                assert(ops_view(merged_ops@) =~= pre + seq![vb[i2 as int]]);
                assert(pre + seq![vb[i2 as int]] =~= seg_a + (vb.take(i2 as int).filter(pb)
                    + seq![vb[i2 as int]]));
            } else {
                assert(pre + Seq::<OpView>::empty() =~= pre);
            }
        }
        i2 += 1;
    }
    proof {
        assert(vb.take(patch_b@.len() as int) =~= vb);
    }
    let ghost seg_ab = ops_view(merged_ops@);
    let ghost ids = affected_a@;

    // shared targets: keep agreed groups, report the rest as conflicts
    let mut k: usize = 0;
    proof {
        assert(ids.skip(0) =~= ids);
        assert(conflict_nids(conflicts@) =~= Seq::<NodeId>::empty());
    }
    while k < affected_a.len()
        invariant
            k <= affected_a@.len(),
            va == ops_view(patch_a@),
            vb == ops_view(patch_b@),
            ids == affected_a@,
            affected_b@ == dedup_targets(vb),
            seg_ab == va.filter(|o: OpView| !has_target(vb, op_target(o))) + vb.filter(
                |o: OpView| !has_target(va, op_target(o)),
            ),
            ops_view(merged_ops@) + resolved_groups(va, vb, ids.skip(k as int)) == seg_ab
                + resolved_groups(va, vb, ids),
            conflict_nids(conflicts@) + conflict_ids(va, vb, ids.skip(k as int)) == conflict_ids(
                va,
                vb,
                ids,
            ),
            forall|i0: int|
                0 <= i0 < conflicts@.len() ==> {
                    let c = #[trigger] conflicts@[i0];
                    ops_view(c.ops_a@) == group_of(va, c.node_id) && ops_view(c.ops_b@)
                        == group_of(vb, c.node_id)
                },
        decreases affected_a@.len() - k,
    {
        let id = affected_a[k];
        let ghost rest = ids.skip(k as int);
        proof {
            assert(rest.len() > 0);
            assert(rest[0] == id);
            assert(rest.skip(1) =~= ids.skip(k as int + 1));
            lemma_dedup_contains(vb, id);
        }
        if ids_contain(&affected_b, id) {
            let ops_a = collect_group(patch_a, id);
            let ops_b = collect_group(patch_b, id);
            if groups_eq_exec(&ops_a, &ops_b) {
                let ghost pre = ops_view(merged_ops@);
                let mut ga = ops_a;
                merged_ops.append(&mut ga);
                proof {
                    assert(ops_view(merged_ops@) =~= pre + group_of(va, id));
                    assert(pre + group_of(va, id) + resolved_groups(va, vb, ids.skip(k as int + 1))
                        =~= pre + (group_of(va, id) + resolved_groups(
                        va,
                        vb,
                        ids.skip(k as int + 1),
                    )));
                }
            } else {
                let ghost pre_c = conflicts@;
                conflicts.push(
                    Conflict {
                        node_id: id,
                        description: "conflicting edits on same node".to_owned(),
                        ops_a,
                        ops_b,
                    },
                );
                proof {
                    assert(conflict_nids(conflicts@) =~= conflict_nids(pre_c).push(id));
                    assert(conflict_nids(pre_c).push(id) + conflict_ids(
                        va,
                        vb,
                        ids.skip(k as int + 1),
                    ) =~= conflict_nids(pre_c) + (seq![id] + conflict_ids(
                        va,
                        vb,
                        ids.skip(k as int + 1),
                    )));
                }
            }
        } else {
            proof {
                assert(Seq::<OpView>::empty() + resolved_groups(va, vb, ids.skip(k as int + 1))
                    =~= resolved_groups(va, vb, ids.skip(k as int + 1)));
                assert(Seq::<NodeId>::empty() + conflict_ids(va, vb, ids.skip(k as int + 1))
                    =~= conflict_ids(va, vb, ids.skip(k as int + 1)));
            }
        }
        k += 1;
    }
    proof {
        assert(ids.skip(affected_a@.len() as int) =~= Seq::<NodeId>::empty());
        assert(ops_view(merged_ops@) + Seq::<OpView>::empty() =~= ops_view(merged_ops@));
        assert(conflict_nids(conflicts@) + Seq::<NodeId>::empty() =~= conflict_nids(conflicts@));

        // disjoint targets: both filters keep everything, nothing is shared
        if forall|id: NodeId| !(has_target(va, id) && has_target(vb, id)) {
            assert forall|i0: int| 0 <= i0 < va.len() implies !has_target(
                vb,
                op_target(#[trigger] va[i0]),
            ) by {
                assert(has_target(va, op_target(va[i0])));
            }
            lemma_filter_all(va, |o: OpView| !has_target(vb, op_target(o)));
            assert forall|i0: int| 0 <= i0 < vb.len() implies !has_target(
                va,
                op_target(#[trigger] vb[i0]),
            ) by {
                assert(has_target(vb, op_target(vb[i0])));
            }
            lemma_filter_all(vb, |o: OpView| !has_target(va, op_target(o)));
            lemma_dedup_sound(va);
            lemma_resolved_not_shared(va, vb, ids);
            lemma_conflicts_not_shared(va, vb, ids);
            assert(va + vb + Seq::<OpView>::empty() =~= va + vb);
            assert(conflict_nids(conflicts@).len() == 0);
            assert(conflicts@.len() == 0);
        }

        // a script merged with itself is conflict-free when NaN-free
        if va == vb && ops_self_eq(va) {
            lemma_conflicts_self(va, ids);
            assert(conflict_nids(conflicts@).len() == 0);
            assert(conflicts@.len() == 0);
        }
    }
    MergeResult { merged_ops, conflicts }
}

/// With no shared targets, nothing is auto-resolved.
proof fn lemma_resolved_not_shared(va: Seq<OpView>, vb: Seq<OpView>, ids: Seq<NodeId>)
    requires
        forall|id: NodeId| !(has_target(va, id) && has_target(vb, id)),
        forall|j: int| 0 <= j < ids.len() ==> has_target(va, #[trigger] ids[j]),
    ensures
        resolved_groups(va, vb, ids) == Seq::<OpView>::empty(),
    decreases ids.len(),
{
    if ids.len() > 0 {
        assert(forall|j: int| 0 <= j < ids.skip(1).len() ==> has_target(va, #[trigger] ids.skip(1)[j]));
        lemma_resolved_not_shared(va, vb, ids.skip(1));
        assert(Seq::<OpView>::empty() + Seq::<OpView>::empty() =~= Seq::<OpView>::empty());
    }
}

/// With no shared targets, nothing conflicts.
proof fn lemma_conflicts_not_shared(va: Seq<OpView>, vb: Seq<OpView>, ids: Seq<NodeId>)
    requires
        forall|id: NodeId| !(has_target(va, id) && has_target(vb, id)),
        forall|j: int| 0 <= j < ids.len() ==> has_target(va, #[trigger] ids[j]),
    ensures
        conflict_ids(va, vb, ids) == Seq::<NodeId>::empty(),
    decreases ids.len(),
{
    if ids.len() > 0 {
        assert(forall|j: int| 0 <= j < ids.skip(1).len() ==> has_target(va, #[trigger] ids.skip(1)[j]));
        lemma_conflicts_not_shared(va, vb, ids.skip(1));
        assert(Seq::<NodeId>::empty() + Seq::<NodeId>::empty() =~= Seq::<NodeId>::empty());
    }
}

/// A NaN-free script never conflicts with itself: each shared group is
/// pointwise equal to itself.
proof fn lemma_conflicts_self(va: Seq<OpView>, ids: Seq<NodeId>)
    requires
        ops_self_eq(va),
    ensures
        conflict_ids(va, va, ids) == Seq::<NodeId>::empty(),
    decreases ids.len(),
{
    if ids.len() > 0 {
        let id = ids[0];
        let g = group_of(va, id);
        assert forall|i: int| 0 <= i < g.len() implies op_sem_eq(#[trigger] g[i], g[i]) by {
            lemma_filter_origin(va, |o: OpView| op_target(o) == id, i);
            let j = choose|j: int| 0 <= j < va.len() && va[j] == g[i];
            assert(op_sem_eq(va[j], va[j]));
        }
        assert(ops_sem_eq(g, g));
        lemma_conflicts_self(va, ids.skip(1));
        assert(Seq::<NodeId>::empty() + Seq::<NodeId>::empty() =~= Seq::<NodeId>::empty());
    }
}

/// Every id in a script's deduplicated target list is one of its
/// targets.
proof fn lemma_dedup_sound(ops: Seq<OpView>)
    ensures
        forall|j: int|
            0 <= j < dedup_targets(ops).len() ==> has_target(ops, #[trigger] dedup_targets(ops)[j]),
{
    assert forall|j: int|
        0 <= j < dedup_targets(ops).len() implies has_target(
        ops,
        #[trigger] dedup_targets(ops)[j],
    ) by {
        assert(dedup_targets(ops).contains(dedup_targets(ops)[j]));
        lemma_dedup_contains(ops, dedup_targets(ops)[j]);
    }
}

// ── Self-merge keeps every group ──────────────────────────────────────

/// The deduplicated target list has no duplicates.
proof fn lemma_dedup_distinct(ops: Seq<OpView>, i: int, seen: Seq<NodeId>)
    requires
        0 <= i <= ops.len(),
    ensures
        dedup_targets_from(ops, i, seen).no_duplicates(),
    decreases ops.len() - i,
{
    if i < ops.len() {
        let t = op_target(ops[i]);
        if seen.contains(t) {
            lemma_dedup_distinct(ops, i + 1, seen);
        } else {
            lemma_dedup_distinct(ops, i + 1, seen.push(t));
            let tail = dedup_targets_from(ops, i + 1, seen.push(t));
            let whole = seq![t] + tail;
            assert(!tail.contains(t)) by {
                lemma_dedup_contains_from(ops, i + 1, seen.push(t), t);
                assert(seen.push(t)[seen.len() as int] == t);
            }
            assert forall|a: int, b: int| 0 <= a < b < whole.len() implies whole[a]
                != whole[b] by {
                if a == 0 {
                    if whole[0] == whole[b] {
                        assert(tail[b - 1] == t);
                    }
                } else {
                    assert(tail[a - 1] != tail[b - 1]);
                }
            }
        }
    }
}

/// Every element of a group targets its id.
proof fn lemma_group_targets(ops: Seq<OpView>, id: NodeId)
    ensures
        forall|i: int|
            0 <= i < group_of(ops, id).len() ==> op_target(#[trigger] group_of(ops, id)[i]) == id,
{
    assert forall|i: int|
        0 <= i < group_of(ops, id).len() implies op_target(#[trigger] group_of(ops, id)[i])
        == id by {
        Seq::lemma_filter_pred(ops, |o: OpView| op_target(o) == id, i);
    }
}

/// Filtering the self-merge's resolved part by a target id gives back
/// that id's group (or nothing, when the id is not in the list).
proof fn lemma_resolved_filter_self(va: Seq<OpView>, ids: Seq<NodeId>, id: NodeId)
    requires
        ops_self_eq(va),
        ids.no_duplicates(),
        forall|j: int| 0 <= j < ids.len() ==> has_target(va, #[trigger] ids[j]),
    ensures
        resolved_groups(va, va, ids).filter(|o: OpView| op_target(o) == id) == if ids.contains(
            id,
        ) {
            group_of(va, id)
        } else {
            Seq::<OpView>::empty()
        },
    decreases ids.len(),
{
    reveal(Seq::filter);
    let p = |o: OpView| op_target(o) == id;
    if ids.len() == 0 {
        assert(resolved_groups(va, va, ids) == Seq::<OpView>::empty());
    } else {
        let t = ids[0];
        let g0 = group_of(va, t);
        assert(ops_sem_eq(g0, g0)) by {
            assert forall|i: int| 0 <= i < g0.len() implies op_sem_eq(#[trigger] g0[i], g0[i]) by {
                lemma_filter_origin(va, |o: OpView| op_target(o) == t, i);
                let j = choose|j: int| 0 <= j < va.len() && va[j] == g0[i];
                assert(op_sem_eq(va[j], va[j]));
            }
        }
        let rest = resolved_groups(va, va, ids.skip(1));
        assert(resolved_groups(va, va, ids) == g0 + rest);
        Seq::filter_distributes_over_add(g0, rest, p);
        lemma_group_targets(va, t);
        assert(ids.skip(1).no_duplicates());
        assert(forall|j: int| 0 <= j < ids.skip(1).len() ==> has_target(va, #[trigger] ids.skip(1)[j]));
        lemma_resolved_filter_self(va, ids.skip(1), id);
        if t == id {
            lemma_filter_all(g0, p);
            assert(!ids.skip(1).contains(id)) by {
                if ids.skip(1).contains(id) {
                    let k = choose|k: int| 0 <= k < ids.skip(1).len() && ids.skip(1)[k] == id;
                    assert(ids[k + 1] == id && ids[0] == id);
                }
            }
            assert(g0 + Seq::<OpView>::empty() =~= g0);
            assert(ids.contains(id)) by {
                assert(ids[0] == id);
            }
        } else {
            lemma_filter_none(g0, p);
            assert(Seq::<OpView>::empty() + rest.filter(p) =~= rest.filter(p));
            assert(ids.contains(id) == ids.skip(1).contains(id)) by {
                if ids.contains(id) {
                    let k = choose|k: int| 0 <= k < ids.len() && ids[k] == id;
                    assert(k >= 1);
                    assert(ids.skip(1)[k - 1] == id);
                }
                if ids.skip(1).contains(id) {
                    let k = choose|k: int| 0 <= k < ids.skip(1).len() && ids.skip(1)[k] == id;
                    assert(ids[k + 1] == id);
                }
            }
        }
    }
}

/// Merging a NaN-free script with itself keeps, for every target id,
/// exactly that id's operation group: the merged script is the script
/// itself regrouped by target, so the two agree as multisets over
/// targets.
pub proof fn lemma_merge_self_groups(va: Seq<OpView>, id: NodeId)
    requires
        ops_self_eq(va),
    ensures
        group_of(merged_spec(va, va), id) == group_of(va, id),
{
    reveal(Seq::filter);
    let p = |o: OpView| op_target(o) == id;
    let not_shared = |o: OpView| !has_target(va, op_target(o));
    assert forall|i: int| 0 <= i < va.len() implies !not_shared(#[trigger] va[i]) by {
        assert(has_target(va, op_target(va[i])));
    }
    lemma_filter_none(va, not_shared);
    let ids = dedup_targets(va);
    lemma_dedup_distinct(va, 0, Seq::empty());
    lemma_dedup_sound(va);
    let r = resolved_groups(va, va, ids);
    assert(merged_spec(va, va) == Seq::<OpView>::empty() + Seq::<OpView>::empty() + r);
    assert(Seq::<OpView>::empty() + Seq::<OpView>::empty() + r =~= r);
    lemma_resolved_filter_self(va, ids, id);
    lemma_dedup_contains(va, id);
    if !ids.contains(id) {
        assert(!has_target(va, id));
        assert forall|i: int| 0 <= i < va.len() implies !p(#[trigger] va[i]) by {
            assert(has_target(va, op_target(va[i])));
        }
        lemma_filter_none(va, p);
    }
}

} // verus!
