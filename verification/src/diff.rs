//! AST diff engine.
//!
//! Computes operation-based edit-scripts between two AST trees and
//! applies such scripts to a tree. A script produced here never moves
//! nodes; `Move` exists for manually constructed patches.

use vstd::prelude::*;

use crate::ast::{
    add_node_view, can_move, child_ok, children_ordered, has_id, ids_distinct, idx_of,
    lemma_idx_of_unique, move_view, node_of, remove_subtree_view, spec_value_eq, spec_value_size,
    str_bytes_len_of, value_eq, AstNodeKind, AstTree, NodeId, NodeValue, NodeView, ValueView,
};

verus! {

/// Diff operation on AST nodes.
#[derive(Debug, Clone, PartialEq)]
pub enum DiffOp {
    /// Insert a new node
    Insert {
        /// Parent (in the tree being patched) that gains the child
        parent_id: NodeId,
        /// Position among the new parent's children; advisory
        index: u32,
        /// Kind of the inserted node
        kind: AstNodeKind,
        /// Label of the inserted node
        label: String,
        /// Value of the inserted node
        value: NodeValue,
    },
    /// Delete a node (and its subtree)
    Delete {
        /// The node to remove
        node_id: NodeId,
    },
    /// Update a node's value
    Update {
        /// The node to update
        node_id: NodeId,
        /// Value before the edit
        old_value: NodeValue,
        /// Value after the edit
        new_value: NodeValue,
    },
    /// Update a node's label
    Relabel {
        /// The node to relabel
        node_id: NodeId,
        /// Label before the edit
        old_label: String,
        /// Label after the edit
        new_label: String,
    },
    /// Move a node to a new parent
    Move {
        /// The node to move
        node_id: NodeId,
        /// The parent it moves under
        new_parent_id: NodeId,
        /// Position among the new parent's children; advisory
        new_index: u32,
    },
}

/// The mathematical shape of a [`DiffOp`].
pub enum OpView {
    /// Insert a new node
    Insert { parent_id: NodeId, index: u32, kind: AstNodeKind, label: Seq<char>, value: ValueView },
    /// Delete a node
    Delete { node_id: NodeId },
    /// Update a node's value
    Update { node_id: NodeId, old_value: ValueView, new_value: ValueView },
    /// Update a node's label
    Relabel { node_id: NodeId, old_label: Seq<char>, new_label: Seq<char> },
    /// Move a node
    Move { node_id: NodeId, new_parent_id: NodeId, new_index: u32 },
}

impl View for DiffOp {
    type V = OpView;

    open spec fn view(&self) -> OpView {
        match self {
            DiffOp::Insert { parent_id, index, kind, label, value } => OpView::Insert {
                parent_id: *parent_id,
                index: *index,
                kind: *kind,
                label: label@,
                value: value@,
            },
            DiffOp::Delete { node_id } => OpView::Delete { node_id: *node_id },
            DiffOp::Update { node_id, old_value, new_value } => OpView::Update {
                node_id: *node_id,
                old_value: old_value@,
                new_value: new_value@,
            },
            DiffOp::Relabel { node_id, old_label, new_label } => OpView::Relabel {
                node_id: *node_id,
                old_label: old_label@,
                new_label: new_label@,
            },
            DiffOp::Move { node_id, new_parent_id, new_index } => OpView::Move {
                node_id: *node_id,
                new_parent_id: *new_parent_id,
                new_index: *new_index,
            },
        }
    }
}

/// The views of a slice of operations.
pub open spec fn ops_view(ops: Seq<DiffOp>) -> Seq<OpView> {
    ops.map_values(|o: DiffOp| o@)
}

/// Estimated serialized size of an operation, saturating at
/// `usize::MAX`.
pub open spec fn spec_op_size(o: OpView) -> usize {
    match o {
        OpView::Insert { label, value, .. } => {
            let total = 8 + str_bytes_len_of(label) + spec_value_size(value);
            if total <= usize::MAX {
                total as usize
            } else {
                usize::MAX
            }
        },
        OpView::Delete { .. } => 5,
        OpView::Update { new_value, .. } => {
            let total = 5 + spec_value_size(new_value);
            if total <= usize::MAX {
                total as usize
            } else {
                usize::MAX
            }
        },
        OpView::Relabel { new_label, .. } => {
            let total = 5 + str_bytes_len_of(new_label);
            if total <= usize::MAX {
                total as usize
            } else {
                usize::MAX
            }
        },
        OpView::Move { .. } => 12,
    }
}

impl DiffOp {
    /// A copy of this operation whose view is provably the same.
    pub fn duplicate(&self) -> (r: DiffOp)
        ensures
            r@ == self@,
    {
        match self {
            DiffOp::Insert { parent_id, index, kind, label, value } => DiffOp::Insert {
                parent_id: *parent_id,
                index: *index,
                kind: *kind,
                label: label.clone(),
                value: value.duplicate(),
            },
            DiffOp::Delete { node_id } => DiffOp::Delete { node_id: *node_id },
            DiffOp::Update { node_id, old_value, new_value } => DiffOp::Update {
                node_id: *node_id,
                old_value: old_value.duplicate(),
                new_value: new_value.duplicate(),
            },
            DiffOp::Relabel { node_id, old_label, new_label } => DiffOp::Relabel {
                node_id: *node_id,
                old_label: old_label.clone(),
                new_label: new_label.clone(),
            },
            DiffOp::Move { node_id, new_parent_id, new_index } => DiffOp::Move {
                node_id: *node_id,
                new_parent_id: *new_parent_id,
                new_index: *new_index,
            },
        }
    }

    /// Estimated serialized size in bytes.
    pub fn serialized_size(&self) -> (r: usize)
        ensures
            r == spec_op_size(self@),
    {
        match self {
            DiffOp::Insert { label, value, .. } => {
                let ln = crate::ast::str_byte_len(label.as_str());
                let vn = value.serialized_size();
                if ln <= usize::MAX - 8 && vn <= usize::MAX - 8 - ln {
                    8 + ln + vn
                } else {
                    usize::MAX
                }
            },
            DiffOp::Delete { .. } => 5,
            DiffOp::Update { new_value, .. } => {
                let vn = new_value.serialized_size();
                if vn <= usize::MAX - 5 {
                    5 + vn
                } else {
                    usize::MAX
                }
            },
            DiffOp::Relabel { new_label, .. } => {
                let ln = crate::ast::str_byte_len(new_label.as_str());
                if ln <= usize::MAX - 5 {
                    5 + ln
                } else {
                    usize::MAX
                }
            },
            DiffOp::Move { .. } => 12,
        }
    }
}

/// Total estimated patch size in bytes, saturating at `usize::MAX`.
pub open spec fn spec_patch_size(ops: Seq<OpView>) -> int
    decreases ops.len(),
{
    if ops.len() == 0 {
        0
    } else {
        spec_op_size(ops[0]) + spec_patch_size(ops.skip(1))
    }
}

/// Total patch size in bytes.
pub fn patch_size_bytes(ops: &[DiffOp]) -> (r: usize)
    ensures
        spec_patch_size(ops_view(ops@)) <= usize::MAX ==> r == spec_patch_size(ops_view(ops@)),
        spec_patch_size(ops_view(ops@)) > usize::MAX ==> r == usize::MAX,
{
    let mut total: usize = 0;
    let mut i: usize = 0;
    proof {
        assert(ops_view(ops@).skip(0) =~= ops_view(ops@));
    }
    while i < ops.len()
        invariant
            i <= ops@.len(),
            spec_patch_size(ops_view(ops@)) == total + spec_patch_size(ops_view(ops@).skip(
                i as int,
            )) || (total == usize::MAX && spec_patch_size(ops_view(ops@)) > usize::MAX),
            total <= usize::MAX,
        decreases ops@.len() - i,
    {
        let sz = ops[i].serialized_size();
        proof {
            let vs = ops_view(ops@);
            assert(vs.skip(i as int)[0] == ops@[i as int]@);
            assert(vs.skip(i as int).skip(1) =~= vs.skip(i as int + 1));
            lemma_patch_size_nonneg(vs.skip(i as int + 1));
        }
        if sz <= usize::MAX - total {
            total = total + sz;
        } else {
            total = usize::MAX;
        }
        i += 1;
    }
    proof {
        assert(ops_view(ops@).skip(ops@.len() as int) =~= Seq::<OpView>::empty());
        lemma_patch_size_nonneg(ops_view(ops@));
    }
    total
}

/// Patch sizes are never negative.
proof fn lemma_patch_size_nonneg(ops: Seq<OpView>)
    ensures
        spec_patch_size(ops) >= 0,
    decreases ops.len(),
{
    if ops.len() > 0 {
        lemma_patch_size_nonneg(ops.skip(1));
    }
}

// ── Applying a patch ──────────────────────────────────────────────────

/// The effect of one operation on a stored node sequence and its id
/// allocator. Operations whose targets are missing, and operations the
/// tree cannot perform without breaking its invariants (moving the
/// root, moving a node under its own descendant, or inserting with the
/// id space exhausted), leave the tree unchanged.
pub open spec fn apply_op_view(s: Seq<NodeView>, next: NodeId, op: OpView) -> (Seq<NodeView>, NodeId) {
    match op {
        OpView::Insert { parent_id, index, kind, label, value } => {
            if has_id(s, parent_id) && next < NodeId::MAX {
                (add_node_view(s, kind, label, value, parent_id, next), (next + 1) as NodeId)
            } else {
                (s, next)
            }
        },
        OpView::Delete { node_id } => (remove_subtree_view(s, node_id), next),
        OpView::Update { node_id, new_value, .. } => {
            if has_id(s, node_id) {
                (
                    s.update(
                        idx_of(s, node_id),
                        NodeView { value: new_value, ..node_of(s, node_id) },
                    ),
                    next,
                )
            } else {
                (s, next)
            }
        },
        OpView::Relabel { node_id, new_label, .. } => {
            if has_id(s, node_id) {
                (
                    s.update(
                        idx_of(s, node_id),
                        NodeView { label: new_label, ..node_of(s, node_id) },
                    ),
                    next,
                )
            } else {
                (s, next)
            }
        },
        OpView::Move { node_id, new_parent_id, .. } => {
            if can_move(s, node_id, new_parent_id) {
                (move_view(s, node_id, new_parent_id), next)
            } else {
                (s, next)
            }
        },
    }
}

/// The effect of a whole script, operation by operation in order.
pub open spec fn apply_ops_view(s: Seq<NodeView>, next: NodeId, ops: Seq<OpView>) -> (
    Seq<NodeView>,
    NodeId,
)
    decreases ops.len(),
{
    if ops.len() == 0 {
        (s, next)
    } else {
        let st = apply_op_view(s, next, ops[0]);
        apply_ops_view(st.0, st.1, ops.skip(1))
    }
}

/// Apply a script to a tree, in order; the tree stays well-formed, and
/// the result is exactly the per-operation fold of [`apply_op_view`].
/// No operation fails: missing targets are skipped.
pub fn apply_patch(tree: &mut AstTree, ops: &[DiffOp])
    requires
        old(tree).wf(),
    ensures
        final(tree).wf(),
        (final(tree)@, final(tree).spec_next_id()) == apply_ops_view(
            old(tree)@,
            old(tree).spec_next_id(),
            ops_view(ops@),
        ),
{
    let ghost vs = ops_view(ops@);
    let ghost goal = apply_ops_view(old(tree)@, old(tree).spec_next_id(), vs);
    let mut i: usize = 0;
    proof {
        assert(vs.skip(0) =~= vs);
    }
    while i < ops.len()
        invariant
            tree.wf(),
            i <= ops@.len(),
            vs == ops_view(ops@),
            goal == apply_ops_view(tree@, tree.spec_next_id(), vs.skip(i as int)),
        decreases ops@.len() - i,
    {
        let ghost pre = tree@;
        let ghost pre_next = tree.spec_next_id();
        let ghost rest = vs.skip(i as int);
        proof {
            assert(rest.len() > 0);
            assert(rest[0] == ops@[i as int]@);
            assert(rest.skip(1) =~= vs.skip(i as int + 1));
        }
        match &ops[i] {
            DiffOp::Insert { parent_id, kind, label, value, .. } => {
                if tree.get_node(*parent_id).is_some() && tree.peek_next_id() < NodeId::MAX {
                    tree.add_node_with_value(*kind, label.as_str(), value.duplicate(), *parent_id);
                }
            },
            DiffOp::Delete { node_id } => {
                tree.remove_subtree(*node_id);
            },
            DiffOp::Update { node_id, new_value, .. } => {
                tree.set_node_value(*node_id, new_value.duplicate());
            },
            DiffOp::Relabel { node_id, new_label, .. } => {
                tree.set_node_label(*node_id, new_label.as_str());
            },
            DiffOp::Move { node_id, new_parent_id, .. } => {
                tree.move_node(*node_id, *new_parent_id);
            },
        }
        proof {
            assert((tree@, tree.spec_next_id()) == apply_op_view(pre, pre_next, rest[0]));
        }
        i += 1;
    }
    proof {
        assert(vs.skip(ops@.len() as int) =~= Seq::<OpView>::empty());
    }
}

// ── Computing a diff ──────────────────────────────────────────────────

/// No value in the sequence is unequal to itself: rules out NaN floats,
/// the one case where the diff of a tree against itself is not empty.
pub open spec fn values_self_eq(s: Seq<NodeView>) -> bool {
    forall|i: int| 0 <= i < s.len() ==> spec_value_eq((#[trigger] s[i]).value, s[i].value)
}

/// The recursion rank of a node for the depth-first walk: positions
/// grow strictly along child edges, so the remaining suffix shrinks.
pub open spec fn walk_rank(s: Seq<NodeView>, id: NodeId) -> int {
    if has_id(s, id) {
        s.len() - idx_of(s, id)
    } else {
        0
    }
}

/// The child `id` matches the key `(kind, label)` and is present.
pub open spec fn kid_matches(s: Seq<NodeView>, id: NodeId, kind: AstNodeKind, label: Seq<char>) -> bool {
    has_id(s, id) && node_of(s, id).kind == kind && node_of(s, id).label == label
}

/// The first position at or after `j` of an unmatched new child whose
/// node carries the key `(kind, label)`.
pub open spec fn spec_first_match(
    new_s: Seq<NodeView>,
    kids: Seq<NodeId>,
    used: Seq<bool>,
    kind: AstNodeKind,
    label: Seq<char>,
    j: int,
) -> Option<int>
    decreases kids.len() - j,
{
    if j < 0 || j >= kids.len() {
        None
    } else if !used[j] && kid_matches(new_s, kids[j], kind, label) {
        Some(j)
    } else {
        spec_first_match(new_s, kids, used, kind, label, j + 1)
    }
}

/// The `Relabel` / `Update` operations a matched pair itself produces:
/// a `Relabel` when the labels differ, then an `Update` when the values
/// differ under IEEE value equality.
pub open spec fn spec_pair_head(
    old_s: Seq<NodeView>,
    new_s: Seq<NodeView>,
    old_id: NodeId,
    new_id: NodeId,
) -> Seq<OpView> {
    let on = node_of(old_s, old_id);
    let nn = node_of(new_s, new_id);
    (if on.label != nn.label {
        seq![OpView::Relabel { node_id: old_id, old_label: on.label, new_label: nn.label }]
    } else {
        Seq::empty()
    }) + (if !spec_value_eq(on.value, nn.value) {
        seq![OpView::Update { node_id: old_id, old_value: on.value, new_value: nn.value }]
    } else {
        Seq::empty()
    })
}

/// A `Delete` for every unmatched old child, in child-list order.
pub open spec fn spec_deletes(old_kids: Seq<NodeId>, matched: Seq<bool>, i: int) -> Seq<OpView>
    decreases old_kids.len() - i,
{
    if i < 0 || i >= old_kids.len() {
        Seq::empty()
    } else {
        let rest = spec_deletes(old_kids, matched, i + 1);
        if matched[i] {
            rest
        } else {
            seq![OpView::Delete { node_id: old_kids[i] }] + rest
        }
    }
}

/// An `Insert` under the old parent for every unmatched new child, in
/// child-list order, carrying the child's position in the new parent's
/// child list.
pub open spec fn spec_inserts(
    new_s: Seq<NodeView>,
    parent: NodeId,
    new_kids: Seq<NodeId>,
    used: Seq<bool>,
    i: int,
) -> Seq<OpView>
    decreases new_kids.len() - i,
{
    if i < 0 || i >= new_kids.len() {
        Seq::empty()
    } else {
        let rest = spec_inserts(new_s, parent, new_kids, used, i + 1);
        if used[i] || !has_id(new_s, new_kids[i]) {
            rest
        } else {
            let nc = node_of(new_s, new_kids[i]);
            seq![
                OpView::Insert {
                    parent_id: parent,
                    index: ((i as u64) % 0x100000000u64) as u32,
                    kind: nc.kind,
                    label: nc.label,
                    value: nc.value,
                },
            ] + rest
        }
    }
}

/// The matching pass over the old children of the node at `opos`: each
/// old child claims the first unmatched new child with its `(kind,
/// label)` key and the claimed pair is diffed recursively. Returns the
/// recursive operations, the final new-side mask and the final old-side
/// mask.
pub open spec fn spec_diff_pass(
    old_s: Seq<NodeView>,
    new_s: Seq<NodeView>,
    opos: int,
    new_kids: Seq<NodeId>,
    used: Seq<bool>,
    matched: Seq<bool>,
    i: int,
) -> (Seq<OpView>, Seq<bool>, Seq<bool>)
    decreases old_s.len() - opos, 0int, old_s[opos].children.len() - i,
        when ids_distinct(old_s) && children_ordered(old_s) && 0 <= opos < old_s.len()
    via spec_diff_pass_decreases
{
    let old_kids = old_s[opos].children;
    if i < 0 || i >= old_kids.len() {
        (Seq::empty(), used, matched)
    } else {
        let oc = old_kids[i];
        if !has_id(old_s, oc) {
            spec_diff_pass(old_s, new_s, opos, new_kids, used, matched, i + 1)
        } else {
            let on = node_of(old_s, oc);
            match spec_first_match(new_s, new_kids, used, on.kind, on.label, 0) {
                Some(ni) => {
                    let sub = spec_diff_at(old_s, new_s, oc, new_kids[ni]);
                    let r = spec_diff_pass(
                        old_s,
                        new_s,
                        opos,
                        new_kids,
                        used.update(ni, true),
                        matched.update(i, true),
                        i + 1,
                    );
                    (sub + r.0, r.1, r.2)
                },
                None => spec_diff_pass(old_s, new_s, opos, new_kids, used, matched, i + 1),
            }
        }
    }
}

#[via_fn]
proof fn spec_diff_pass_decreases(
    old_s: Seq<NodeView>,
    new_s: Seq<NodeView>,
    opos: int,
    new_kids: Seq<NodeId>,
    used: Seq<bool>,
    matched: Seq<bool>,
    i: int,
) {
    let old_kids = old_s[opos].children;
    if 0 <= i < old_kids.len() {
        let oc = old_kids[i];
        if has_id(old_s, oc) {
            assert(child_ok(old_s, opos, i));
            let j = choose|j: int| opos < j < old_s.len() && old_s[j].id == old_s[opos].children[i];
            lemma_idx_of_unique(old_s, j, oc);
        }
    }
}

/// The edit-script the diff algorithm produces for a matched pair: the
/// pair's own `Relabel` / `Update`, the recursive scripts of the
/// matched children in old child-list order, the `Delete`s of the
/// unmatched old children, then the `Insert`s of the unmatched new
/// children. An absent endpoint produces nothing.
pub open spec fn spec_diff_at(
    old_s: Seq<NodeView>,
    new_s: Seq<NodeView>,
    old_id: NodeId,
    new_id: NodeId,
) -> Seq<OpView>
    decreases old_s.len() - idx_of(old_s, old_id), 1int, 0int,
        when ids_distinct(old_s) && children_ordered(old_s)
    via spec_diff_at_decreases
{
    if !has_id(old_s, old_id) || !has_id(new_s, new_id) {
        Seq::empty()
    } else {
        let on = node_of(old_s, old_id);
        let nn = node_of(new_s, new_id);
        let pass = spec_diff_pass(
            old_s,
            new_s,
            idx_of(old_s, old_id),
            nn.children,
            Seq::new(nn.children.len(), |x: int| false),
            Seq::new(on.children.len(), |x: int| false),
            0,
        );
        spec_pair_head(old_s, new_s, old_id, new_id) + pass.0 + spec_deletes(on.children, pass.2, 0)
            + spec_inserts(new_s, old_id, nn.children, pass.1, 0)
    }
}

#[via_fn]
proof fn spec_diff_at_decreases(
    old_s: Seq<NodeView>,
    new_s: Seq<NodeView>,
    old_id: NodeId,
    new_id: NodeId,
) {
}

/// Find the first unmatched child of `kids` whose node carries the key
/// `(kind, label)`.
fn find_first_match(
    new_t: &AstTree,
    kids: &Vec<NodeId>,
    used: &Vec<bool>,
    kind: AstNodeKind,
    label: &String,
) -> (r: Option<usize>)
    requires
        new_t.wf(),
        used@.len() == kids@.len(),
    ensures
        match r {
            Some(ni) => ni < kids@.len() && !used@[ni as int] && kid_matches(
                new_t@,
                kids@[ni as int],
                kind,
                label@,
            ) && (forall|j: int|
                0 <= j < ni ==> !(!used@[j] && kid_matches(new_t@, kids@[j], kind, label@))),
            None => forall|j: int|
                0 <= j < kids@.len() ==> !(!used@[j] && kid_matches(new_t@, kids@[j], kind, label@)),
        },
{
    let mut j: usize = 0;
    while j < kids.len()
        invariant
            new_t.wf(),
            used@.len() == kids@.len(),
            j <= kids@.len(),
            forall|j0: int| 0 <= j0 < j ==> !(!used@[j0] && kid_matches(new_t@, kids@[j0], kind, label@)),
        decreases kids@.len() - j,
    {
        if !used[j] {
            match new_t.get_node(kids[j]) {
                Some(n) => {
                    if n.kind == kind && n.label == *label {
                        return Some(j);
                    }
                },
                None => {},
            }
        }
        j += 1;
    }
    None
}

/// Diff the subtrees rooted at a matched pair: emit `Relabel` and
/// `Update` for the pair itself, match children by `(kind, label)` in
/// order, recurse into matched pairs, and emit `Delete` / `Insert` for
/// the unmatched children.
#[verifier::rlimit(100)]
fn diff_subtree(
    old_t: &AstTree,
    new_t: &AstTree,
    old_id: NodeId,
    new_id: NodeId,
    ops: &mut Vec<DiffOp>,
)
    requires
        old_t.wf(),
        new_t.wf(),
    ensures
        old(ops)@.is_prefix_of(final(ops)@),
        forall|j: int|
            old(ops)@.len() <= j < final(ops)@.len() ==> !((#[trigger] final(ops)@[j])@ is Move),
        old_t@ == new_t@ && old_id == new_id && values_self_eq(old_t@) ==> final(ops)@ == old(
            ops,
        )@,
        ops_view(final(ops)@) == ops_view(old(ops)@) + spec_diff_at(old_t@, new_t@, old_id, new_id),
    decreases walk_rank(old_t@, old_id),
{
    let ghost ident = old_t@ == new_t@ && old_id == new_id && values_self_eq(old_t@);
    let ghost sd = spec_diff_at(old_t@, new_t@, old_id, new_id);
    let old_node = match old_t.get_node(old_id) {
        Some(n) => n,
        None => {
            proof {
                assert(old(ops)@.is_prefix_of(ops@));
                assert(sd == Seq::<OpView>::empty());
                assert(ops_view(ops@) =~= ops_view(old(ops)@) + sd);
            }
            return ;
        },
    };
    let new_node = match new_t.get_node(new_id) {
        Some(n) => n,
        None => {
            proof {
                assert(old(ops)@.is_prefix_of(ops@));
                assert(sd == Seq::<OpView>::empty());
                assert(ops_view(ops@) =~= ops_view(old(ops)@) + sd);
            }
            return ;
        },
    };
    let ghost head = spec_pair_head(old_t@, new_t@, old_id, new_id);
    if !(old_node.label == new_node.label) {
        ops.push(
            DiffOp::Relabel {
                node_id: old_id,
                old_label: old_node.label.clone(),
                new_label: new_node.label.clone(),
            },
        );
    }
    if !value_eq(&old_node.value, &new_node.value) {
        proof {
            if ident {
                assert(node_of(old_t@, old_id) == node_of(new_t@, new_id));
                let i = idx_of(old_t@, old_id);
                lemma_idx_of_unique(old_t@, i, old_id);
                assert(spec_value_eq(old_t@[i].value, old_t@[i].value));
            }
        }
        ops.push(
            DiffOp::Update {
                node_id: old_id,
                old_value: old_node.value.duplicate(),
                new_value: new_node.value.duplicate(),
            },
        );
    }
    proof {
        assert(ops_view(ops@) =~= ops_view(old(ops)@) + head);
    }
    let old_children = crate::ast::copy_ids(&old_node.children);
    let new_children = crate::ast::copy_ids(&new_node.children);
    proof {
        if ident {
            assert(ops@ == old(ops)@);
            assert(old_children@ == new_children@);
        }
    }

    let on = old_children.len();
    let nn = new_children.len();
    let mut matched_new: Vec<bool> = Vec::new();
    let mut t: usize = 0;
    while t < nn
        invariant
            t <= nn,
            matched_new@.len() == t,
            forall|x: int| 0 <= x < t ==> !matched_new@[x],
        decreases nn - t,
    {
        matched_new.push(false);
        t += 1;
    }
    let mut matched_old: Vec<bool> = Vec::new();
    let mut t2: usize = 0;
    while t2 < on
        invariant
            t2 <= on,
            matched_old@.len() == t2,
            forall|x: int| 0 <= x < t2 ==> !matched_old@[x],
        decreases on - t2,
    {
        matched_old.push(false);
        t2 += 1;
    }

    let ghost opos = idx_of(old_t@, old_id);
    let ghost used0: Seq<bool> = Seq::new(new_children@.len(), |x: int| false);
    let ghost matched0: Seq<bool> = Seq::new(old_children@.len(), |x: int| false);
    let ghost pass = spec_diff_pass(old_t@, new_t@, opos, new_children@, used0, matched0, 0);
    let ghost delfull = spec_deletes(old_children@, pass.2, 0);
    let ghost insfull = spec_inserts(new_t@, old_id, new_children@, pass.1, 0);
    proof {
        assert(matched_new@ =~= used0);
        assert(matched_old@ =~= matched0);
        assert(node_of(old_t@, old_id).children == old_children@);
        assert(node_of(new_t@, new_id).children == new_children@);
        assert(sd == head + pass.0 + delfull + insfull);
    }
    let ghost mut emitted: Seq<OpView> = Seq::empty();
    // first pass: match old children, in order, to the first unmatched
    // new child with the same (kind, label) key, and recurse
    let mut oi: usize = 0;
    proof {
        assert(ops_view(ops@) =~= ops_view(old(ops)@) + head + emitted);
        let cur = spec_diff_pass(
            old_t@,
            new_t@,
            opos,
            new_children@,
            matched_new@,
            matched_old@,
            0,
        );
        assert(emitted + cur.0 =~= cur.0);
        assert(pass == (emitted + cur.0, cur.1, cur.2));
    }
    while oi < on
        invariant
            old_t.wf(),
            new_t.wf(),
            ident == (old_t@ == new_t@ && old_id == new_id && values_self_eq(old_t@)),
            oi <= on,
            on == old_children@.len(),
            nn == new_children@.len(),
            matched_old@.len() == on,
            matched_new@.len() == nn,
            has_id(old_t@, old_id),
            opos == idx_of(old_t@, old_id),
            old_children@ == old_t@[opos].children,
            old(ops)@.is_prefix_of(ops@),
            forall|j: int|
                old(ops)@.len() <= j < ops@.len() ==> !((#[trigger] ops@[j])@ is Move),
            ident ==> ops@ == old(ops)@ && on == nn && old_children@ == new_children@ && (forall|
                x: int,
            |
                0 <= x < nn ==> matched_new@[x] == (x < oi)) && (forall|x: int|
                0 <= x < on ==> matched_old@[x] == (x < oi)),
            ops_view(ops@) == ops_view(old(ops)@) + head + emitted,
            pass == ({
                let cur = spec_diff_pass(
                    old_t@,
                    new_t@,
                    opos,
                    new_children@,
                    matched_new@,
                    matched_old@,
                    oi as int,
                );
                (emitted + cur.0, cur.1, cur.2)
            }),
        decreases on - oi,
    {
        let oc = old_children[oi];
        proof {
            assert(child_ok(old_t@, opos, oi as int));
            let j = choose|j: int|
                opos < j < old_t@.len() && old_t@[j].id == old_t@[opos].children[oi as int];
            lemma_idx_of_unique(old_t@, j, oc);
        }
        match old_t.get_node(oc) {
            Some(oc_node) => {
                let ghost used_pre = matched_new@;
                let ghost mold_pre = matched_old@;
                let ghost cur = spec_diff_pass(
                    old_t@,
                    new_t@,
                    opos,
                    new_children@,
                    used_pre,
                    mold_pre,
                    oi as int,
                );
                match find_first_match(
                    new_t,
                    &new_children,
                    &matched_new,
                    oc_node.kind,
                    &oc_node.label,
                ) {
                    Some(ni) => {
                        proof {
                            if ident {
                                assert(kid_matches(
                                    new_t@,
                                    new_children@[oi as int],
                                    oc_node.kind,
                                    oc_node.label@,
                                ));
                                if ni as int != oi as int {
                                    if (ni as int) < oi as int {
                                        assert(matched_new@[ni as int]);
                                    } else {
                                        assert(!matched_new@[oi as int]);
                                        assert(false);
                                    }
                                }
                                assert(ni == oi);
                            }
                            lemma_spec_first_match_some(
                                new_t@,
                                new_children@,
                                used_pre,
                                node_of(old_t@, oc).kind,
                                node_of(old_t@, oc).label,
                                0,
                                ni as int,
                            );
                        }
                        matched_new[ni] = true;
                        matched_old[oi] = true;
                        let ghost pre_ops = ops@;
                        let ghost emitted_pre = emitted;
                        let nc = new_children[ni];
                        proof {
                            if ident {
                                assert(nc == oc);
                            }
                        }
                        diff_subtree(old_t, new_t, oc, nc, ops);
                        proof {
                            lemma_prefix_trans(old(ops)@, pre_ops, ops@);
                            assert forall|j: int|
                                old(ops)@.len() <= j < ops@.len() implies !((#[trigger] ops@[j])@
                                is Move) by {
                                if j < pre_ops.len() {
                                    lemma_prefix_index(pre_ops, ops@, j);
                                }
                            }
                            if ident {
                                assert(ops@ == pre_ops);
                            }
                            let sub = spec_diff_at(old_t@, new_t@, oc, new_children@[ni as int]);
                            let r = spec_diff_pass(
                                old_t@,
                                new_t@,
                                opos,
                                new_children@,
                                used_pre.update(ni as int, true),
                                mold_pre.update(oi as int, true),
                                oi as int + 1,
                            );
                            assert(cur == (sub + r.0, r.1, r.2));
                            emitted = emitted_pre + sub;
                            assert(matched_new@ =~= used_pre.update(ni as int, true));
                            assert(matched_old@ =~= mold_pre.update(oi as int, true));
                            assert(ops_view(ops@) =~= ops_view(old(ops)@) + head + emitted) by {
                                assert(ops_view(pre_ops) == ops_view(old(ops)@) + head
                                    + emitted_pre);
                                assert(ops_view(ops@) == ops_view(pre_ops) + sub);
                                assert((ops_view(old(ops)@) + head + emitted_pre) + sub
                                    =~= ops_view(old(ops)@) + head + (emitted_pre + sub));
                            }
                            assert(emitted_pre + (sub + r.0) =~= emitted + r.0);
                            assert(pass == (emitted + r.0, r.1, r.2));
                        }
                    },
                    None => {
                        proof {
                            if ident {
                                assert(kid_matches(
                                    new_t@,
                                    new_children@[oi as int],
                                    oc_node.kind,
                                    oc_node.label@,
                                ));
                                assert(!matched_new@[oi as int]);
                                assert(false);
                            }
                            lemma_spec_first_match_none(
                                new_t@,
                                new_children@,
                                used_pre,
                                node_of(old_t@, oc).kind,
                                node_of(old_t@, oc).label,
                                0,
                            );
                            let r = spec_diff_pass(
                                old_t@,
                                new_t@,
                                opos,
                                new_children@,
                                used_pre,
                                mold_pre,
                                oi as int + 1,
                            );
                            assert(cur == r);
                        }
                    },
                }
            },
            None => {
                proof {
                    assert(false);
                }
            },
        }
        oi += 1;
    }
    proof {
        let cur = spec_diff_pass(
            old_t@,
            new_t@,
            opos,
            new_children@,
            matched_new@,
            matched_old@,
            on as int,
        );
        assert(cur == (Seq::<OpView>::empty(), matched_new@, matched_old@));
        assert(emitted + Seq::<OpView>::empty() =~= emitted);
        assert(pass.0 == emitted && pass.1 == matched_new@ && pass.2 == matched_old@);
    }

    // second pass: unmatched old children are deleted
    let ghost mut dels: Seq<OpView> = Seq::empty();
    let mut oi2: usize = 0;
    proof {
        assert(dels + spec_deletes(old_children@, matched_old@, 0) =~= spec_deletes(
            old_children@,
            matched_old@,
            0,
        ));
        assert(ops_view(ops@) =~= ops_view(old(ops)@) + head + pass.0 + dels);
    }
    while oi2 < on
        invariant
            oi2 <= on,
            on == old_children@.len(),
            matched_old@.len() == on,
            matched_old@ == pass.2,
            matched_new@ == pass.1,
            old(ops)@.is_prefix_of(ops@),
            forall|j: int|
                old(ops)@.len() <= j < ops@.len() ==> !((#[trigger] ops@[j])@ is Move),
            ident ==> ops@ == old(ops)@ && (forall|x: int| 0 <= x < on ==> matched_old@[x]),
            ops_view(ops@) == ops_view(old(ops)@) + head + pass.0 + dels,
            delfull == dels + spec_deletes(old_children@, matched_old@, oi2 as int),
        decreases on - oi2,
    {
        let ghost dels_pre = dels;
        let ghost ops_pre = ops@;
        if !matched_old[oi2] {
            ops.push(DiffOp::Delete { node_id: old_children[oi2] });
            proof {
                let d = OpView::Delete { node_id: old_children@[oi2 as int] };
                assert(spec_deletes(old_children@, matched_old@, oi2 as int) == seq![d]
                    + spec_deletes(old_children@, matched_old@, oi2 as int + 1));
                dels = dels_pre.push(d);
                assert(dels_pre + (seq![d] + spec_deletes(old_children@, matched_old@, oi2 as int
                    + 1)) =~= dels + spec_deletes(old_children@, matched_old@, oi2 as int + 1));
                assert(ops_view(ops@) =~= ops_view(old(ops)@) + head + pass.0 + dels) by {
                    assert(ops_view(ops@) =~= ops_view(ops_pre).push(d));
                    assert((ops_view(old(ops)@) + head + pass.0 + dels_pre).push(d)
                        =~= ops_view(old(ops)@) + head + pass.0 + dels_pre.push(d));
                }
            }
        }
        oi2 += 1;
    }
    proof {
        assert(spec_deletes(old_children@, matched_old@, on as int) == Seq::<OpView>::empty());
        assert(dels + Seq::<OpView>::empty() =~= dels);
        assert(delfull == dels);
    }

    // third pass: unmatched new children are inserted under the old
    // parent, carrying their position in the new child list
    let ghost mut inss: Seq<OpView> = Seq::empty();
    let mut ni2: usize = 0;
    proof {
        assert(inss + spec_inserts(new_t@, old_id, new_children@, matched_new@, 0) =~= spec_inserts(
            new_t@,
            old_id,
            new_children@,
            matched_new@,
            0,
        ));
        assert(ops_view(ops@) =~= ops_view(old(ops)@) + head + pass.0 + delfull + inss);
    }
    while ni2 < nn
        invariant
            new_t.wf(),
            ni2 <= nn,
            nn == new_children@.len(),
            matched_new@.len() == nn,
            matched_new@ == pass.1,
            old(ops)@.is_prefix_of(ops@),
            forall|j: int|
                old(ops)@.len() <= j < ops@.len() ==> !((#[trigger] ops@[j])@ is Move),
            ident ==> ops@ == old(ops)@ && (forall|x: int| 0 <= x < nn ==> matched_new@[x]),
            ops_view(ops@) == ops_view(old(ops)@) + head + pass.0 + delfull + inss,
            insfull == inss + spec_inserts(new_t@, old_id, new_children@, matched_new@, ni2 as int),
        decreases nn - ni2,
    {
        let ghost inss_pre = inss;
        let ghost ops_pre = ops@;
        if !matched_new[ni2] {
            match new_t.get_node(new_children[ni2]) {
                Some(nc_node) => {
                    let index: u32 = ((ni2 as u64) % 0x100000000) as u32;
                    ops.push(
                        DiffOp::Insert {
                            parent_id: old_id,
                            index,
                            kind: nc_node.kind,
                            label: nc_node.label.clone(),
                            value: nc_node.value.duplicate(),
                        },
                    );
                    proof {
                        let nc = node_of(new_t@, new_children@[ni2 as int]);
                        let iv = OpView::Insert {
                            parent_id: old_id,
                            index: ((ni2 as u64) % 0x100000000u64) as u32,
                            kind: nc.kind,
                            label: nc.label,
                            value: nc.value,
                        };
                        assert(spec_inserts(new_t@, old_id, new_children@, matched_new@, ni2 as int)
                            == seq![iv] + spec_inserts(
                            new_t@,
                            old_id,
                            new_children@,
                            matched_new@,
                            ni2 as int + 1,
                        ));
                        inss = inss_pre.push(iv);
                        assert(inss_pre + (seq![iv] + spec_inserts(
                            new_t@,
                            old_id,
                            new_children@,
                            matched_new@,
                            ni2 as int + 1,
                        )) =~= inss + spec_inserts(
                            new_t@,
                            old_id,
                            new_children@,
                            matched_new@,
                            ni2 as int + 1,
                        ));
                        assert(ops_view(ops@) =~= ops_view(old(ops)@) + head + pass.0 + delfull
                            + inss) by {
                            assert(ops_view(ops@) =~= ops_view(ops_pre).push(iv));
                            assert((ops_view(old(ops)@) + head + pass.0 + delfull
                                + inss_pre).push(iv) =~= ops_view(old(ops)@) + head + pass.0
                                + delfull + inss_pre.push(iv));
                        }
                    }
                },
                None => {
                    proof {
                        assert(!has_id(new_t@, new_children@[ni2 as int]));
                    }
                },
            }
        }
        ni2 += 1;
    }
    proof {
        assert(spec_inserts(new_t@, old_id, new_children@, matched_new@, nn as int)
            == Seq::<OpView>::empty());
        assert(inss + Seq::<OpView>::empty() =~= inss);
        assert(insfull == inss);
        assert(ops_view(ops@) =~= ops_view(old(ops)@) + sd) by {
            assert(sd == head + pass.0 + delfull + insfull);
            assert(ops_view(old(ops)@) + head + pass.0 + delfull + insfull =~= ops_view(old(ops)@)
                + (head + pass.0 + delfull + insfull));
        }
    }
}

/// A scan that stops at `ni` after rejecting everything before it
/// computes the first match.
proof fn lemma_spec_first_match_some(
    new_s: Seq<NodeView>,
    kids: Seq<NodeId>,
    used: Seq<bool>,
    kind: AstNodeKind,
    label: Seq<char>,
    j: int,
    ni: int,
)
    requires
        0 <= j <= ni < kids.len(),
        !used[ni],
        kid_matches(new_s, kids[ni], kind, label),
        forall|j0: int| j <= j0 < ni ==> !(!used[j0] && kid_matches(new_s, kids[j0], kind, label)),
    ensures
        spec_first_match(new_s, kids, used, kind, label, j) == Some(ni),
    decreases ni - j,
{
    if j < ni {
        lemma_spec_first_match_some(new_s, kids, used, kind, label, j + 1, ni);
    }
}

/// A scan that rejects every position finds no match.
proof fn lemma_spec_first_match_none(
    new_s: Seq<NodeView>,
    kids: Seq<NodeId>,
    used: Seq<bool>,
    kind: AstNodeKind,
    label: Seq<char>,
    j: int,
)
    requires
        0 <= j <= kids.len(),
        forall|j0: int|
            j <= j0 < kids.len() ==> !(!used[j0] && kid_matches(new_s, kids[j0], kind, label)),
    ensures
        spec_first_match(new_s, kids, used, kind, label, j) is None,
    decreases kids.len() - j,
{
    if j < kids.len() {
        lemma_spec_first_match_none(new_s, kids, used, kind, label, j + 1);
    }
}

/// A prefix gives back its entries.
proof fn lemma_prefix_index(a: Seq<DiffOp>, b: Seq<DiffOp>, j: int)
    requires
        a.is_prefix_of(b),
        0 <= j < a.len(),
    ensures
        b[j] == a[j],
{
    assert(b.subrange(0, a.len() as int)[j] == a[j]);
}

/// Prefix order is transitive.
proof fn lemma_prefix_trans(a: Seq<DiffOp>, b: Seq<DiffOp>, c: Seq<DiffOp>)
    requires
        a.is_prefix_of(b),
        b.is_prefix_of(c),
    ensures
        a.is_prefix_of(c),
{
    assert(c.subrange(0, a.len() as int) =~= b.subrange(0, a.len() as int));
}

/// An operation is grounded in the old tree: it is not a `Move`, its
/// target (the parent for `Insert`, the node for the rest) is an id of
/// the old tree, and `Update` / `Relabel` record the old tree's value /
/// label as the old field.
pub open spec fn op_grounded(old_s: Seq<NodeView>, o: OpView) -> bool {
    match o {
        OpView::Insert { parent_id, .. } => has_id(old_s, parent_id),
        OpView::Delete { node_id } => has_id(old_s, node_id),
        OpView::Update { node_id, old_value, .. } => has_id(old_s, node_id) && old_value == node_of(
            old_s,
            node_id,
        ).value,
        OpView::Relabel { node_id, old_label, .. } => has_id(old_s, node_id) && old_label
            == node_of(old_s, node_id).label,
        OpView::Move { .. } => false,
    }
}

/// Every `Delete` of unmatched old children is grounded when those
/// children are ids of the old tree.
proof fn lemma_deletes_grounded(
    old_s: Seq<NodeView>,
    old_kids: Seq<NodeId>,
    matched: Seq<bool>,
    i: int,
)
    requires
        forall|k: int| i <= k < old_kids.len() ==> has_id(old_s, #[trigger] old_kids[k]),
    ensures
        forall|j: int|
            0 <= j < spec_deletes(old_kids, matched, i).len() ==> op_grounded(
                old_s,
                #[trigger] spec_deletes(old_kids, matched, i)[j],
            ),
    decreases old_kids.len() - i,
{
    if 0 <= i < old_kids.len() {
        lemma_deletes_grounded(old_s, old_kids, matched, i + 1);
        let rest = spec_deletes(old_kids, matched, i + 1);
        let cur = spec_deletes(old_kids, matched, i);
        assert forall|j: int| 0 <= j < cur.len() implies op_grounded(old_s, #[trigger] cur[j]) by {
            if matched[i] {
                assert(cur[j] == rest[j]);
            } else {
                assert(cur == seq![OpView::Delete { node_id: old_kids[i] }] + rest);
                if j == 0 {
                    assert(cur[0] == OpView::Delete { node_id: old_kids[i] });
                } else {
                    assert(cur[j] == rest[j - 1]);
                }
            }
        }
    }
}

/// Every `Insert` under a grounded parent is grounded.
proof fn lemma_inserts_grounded(
    old_s: Seq<NodeView>,
    new_s: Seq<NodeView>,
    parent: NodeId,
    new_kids: Seq<NodeId>,
    used: Seq<bool>,
    i: int,
)
    requires
        has_id(old_s, parent),
    ensures
        forall|j: int|
            0 <= j < spec_inserts(new_s, parent, new_kids, used, i).len() ==> op_grounded(
                old_s,
                #[trigger] spec_inserts(new_s, parent, new_kids, used, i)[j],
            ),
    decreases new_kids.len() - i,
{
    if 0 <= i < new_kids.len() {
        lemma_inserts_grounded(old_s, new_s, parent, new_kids, used, i + 1);
        let rest = spec_inserts(new_s, parent, new_kids, used, i + 1);
        let cur = spec_inserts(new_s, parent, new_kids, used, i);
        assert forall|j: int| 0 <= j < cur.len() implies op_grounded(old_s, #[trigger] cur[j]) by {
            if used[i] || !has_id(new_s, new_kids[i]) {
                assert(cur[j] == rest[j]);
            } else {
                if j == 0 {
                } else {
                    assert(cur[j] == rest[j - 1]);
                }
            }
        }
    }
}

/// The recursive matching pass emits only grounded operations.
proof fn lemma_diff_pass_grounded(
    old_s: Seq<NodeView>,
    new_s: Seq<NodeView>,
    opos: int,
    new_kids: Seq<NodeId>,
    used: Seq<bool>,
    matched: Seq<bool>,
    i: int,
)
    requires
        ids_distinct(old_s),
        children_ordered(old_s),
        0 <= opos < old_s.len(),
    ensures
        forall|j: int|
            0 <= j < spec_diff_pass(old_s, new_s, opos, new_kids, used, matched, i).0.len()
                ==> op_grounded(
                old_s,
                #[trigger] spec_diff_pass(old_s, new_s, opos, new_kids, used, matched, i).0[j],
            ),
    decreases old_s.len() - opos, 0int, old_s[opos].children.len() - i,
{
    let old_kids = old_s[opos].children;
    if !(0 <= i < old_kids.len()) {
        assert(spec_diff_pass(old_s, new_s, opos, new_kids, used, matched, i).0
            == Seq::<OpView>::empty());
    } else {
        let oc = old_kids[i];
        if !has_id(old_s, oc) {
            lemma_diff_pass_grounded(old_s, new_s, opos, new_kids, used, matched, i + 1);
            assert(spec_diff_pass(old_s, new_s, opos, new_kids, used, matched, i)
                == spec_diff_pass(old_s, new_s, opos, new_kids, used, matched, i + 1));
        } else {
            let on = node_of(old_s, oc);
            match spec_first_match(new_s, new_kids, used, on.kind, on.label, 0) {
                Some(ni) => {
                    assert(child_ok(old_s, opos, i));
                    let j = choose|j: int|
                        opos < j < old_s.len() && old_s[j].id == old_s[opos].children[i];
                    lemma_idx_of_unique(old_s, j, oc);
                    lemma_diff_grounded(old_s, new_s, oc, new_kids[ni]);
                    lemma_diff_pass_grounded(
                        old_s,
                        new_s,
                        opos,
                        new_kids,
                        used.update(ni, true),
                        matched.update(i, true),
                        i + 1,
                    );
                    let sub = spec_diff_at(old_s, new_s, oc, new_kids[ni]);
                    let r = spec_diff_pass(
                        old_s,
                        new_s,
                        opos,
                        new_kids,
                        used.update(ni, true),
                        matched.update(i, true),
                        i + 1,
                    );
                    let cur = spec_diff_pass(old_s, new_s, opos, new_kids, used, matched, i);
                    assert(cur.0 == sub + r.0);
                    assert forall|x: int| 0 <= x < cur.0.len() implies op_grounded(
                        old_s,
                        #[trigger] cur.0[x],
                    ) by {
                        if x < sub.len() {
                            assert(cur.0[x] == sub[x]);
                        } else {
                            assert(cur.0[x] == r.0[x - sub.len()]);
                        }
                    }
                },
                None => {
                    lemma_diff_pass_grounded(old_s, new_s, opos, new_kids, used, matched, i + 1);
                    assert(spec_diff_pass(old_s, new_s, opos, new_kids, used, matched, i)
                        == spec_diff_pass(old_s, new_s, opos, new_kids, used, matched, i + 1));
                },
            }
        }
    }
}

/// Every operation the diff walk emits is grounded in the old tree:
/// no `Move` is produced, every `Insert` parent and every `Delete` /
/// `Update` / `Relabel` target is an id of the old tree, and `Update` /
/// `Relabel` record the old tree's value / label as the old field.
pub proof fn lemma_diff_grounded(
    old_s: Seq<NodeView>,
    new_s: Seq<NodeView>,
    old_id: NodeId,
    new_id: NodeId,
)
    requires
        ids_distinct(old_s),
        children_ordered(old_s),
    ensures
        forall|j: int|
            0 <= j < spec_diff_at(old_s, new_s, old_id, new_id).len() ==> op_grounded(
                old_s,
                #[trigger] spec_diff_at(old_s, new_s, old_id, new_id)[j],
            ),
    decreases old_s.len() - idx_of(old_s, old_id), 1int, 0int,
{
    if has_id(old_s, old_id) && has_id(new_s, new_id) {
        let opos = idx_of(old_s, old_id);
        assert(0 <= opos < old_s.len() && old_s[opos].id == old_id);
        let on = node_of(old_s, old_id);
        let nn = node_of(new_s, new_id);
        let head = spec_pair_head(old_s, new_s, old_id, new_id);
        let pass = spec_diff_pass(
            old_s,
            new_s,
            opos,
            nn.children,
            Seq::new(nn.children.len(), |x: int| false),
            Seq::new(on.children.len(), |x: int| false),
            0,
        );
        let dels = spec_deletes(on.children, pass.2, 0);
        let inss = spec_inserts(new_s, old_id, nn.children, pass.1, 0);
        assert(spec_diff_at(old_s, new_s, old_id, new_id) == head + pass.0 + dels + inss);
        assert(forall|j: int| 0 <= j < head.len() ==> op_grounded(old_s, #[trigger] head[j]));
        lemma_diff_pass_grounded(
            old_s,
            new_s,
            opos,
            nn.children,
            Seq::new(nn.children.len(), |x: int| false),
            Seq::new(on.children.len(), |x: int| false),
            0,
        );
        assert forall|k: int| 0 <= k < on.children.len() implies has_id(
            old_s,
            #[trigger] on.children[k],
        ) by {
            assert(child_ok(old_s, opos, k));
            let j = choose|j: int|
                opos < j < old_s.len() && old_s[j].id == old_s[opos].children[k];
        }
        lemma_deletes_grounded(old_s, on.children, pass.2, 0);
        lemma_inserts_grounded(old_s, new_s, old_id, nn.children, pass.1, 0);
        let all = head + pass.0 + dels + inss;
        assert forall|j: int| 0 <= j < all.len() implies op_grounded(old_s, #[trigger] all[j]) by {
            if j < head.len() {
                assert(all[j] == head[j]);
            } else if j < head.len() + pass.0.len() {
                assert(all[j] == pass.0[j - head.len()]);
            } else if j < head.len() + pass.0.len() + dels.len() {
                assert(all[j] == dels[j - head.len() - pass.0.len()]);
            } else {
                assert(all[j] == inss[j - head.len() - pass.0.len() - dels.len()]);
            }
        }
    }
}

/// Compute the edit-script that transforms `old` into `new`: exactly
/// the script of the label-keyed matching walk [`spec_diff_at`] over
/// the two roots.
///
/// The script never contains `Move`; the diff of a tree against itself
/// is empty whenever no node value is a NaN float.
pub fn diff_trees(old_t: &AstTree, new_t: &AstTree) -> (r: Vec<DiffOp>)
    requires
        old_t.wf(),
        new_t.wf(),
    ensures
        ops_view(r@) == spec_diff_at(old_t@, new_t@, 0, 0),
        forall|j: int| 0 <= j < r@.len() ==> !((#[trigger] r@[j])@ is Move),
        old_t@ == new_t@ && values_self_eq(old_t@) ==> r@.len() == 0,
{
    let mut ops: Vec<DiffOp> = Vec::new();
    diff_subtree(old_t, new_t, 0, 0, &mut ops);
    proof {
        assert(ops_view(Seq::<DiffOp>::empty()) =~= Seq::<OpView>::empty());
        assert(Seq::<OpView>::empty() + spec_diff_at(old_t@, new_t@, 0, 0) =~= spec_diff_at(
            old_t@,
            new_t@,
            0,
            0,
        ));
    }
    ops
}

} // verus!
