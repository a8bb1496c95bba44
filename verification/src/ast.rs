//! AST tree representation.
//!
//! A generic tree for procedural data (CSG scenes, scene graphs, panel
//! layouts). Each node has a kind, a label, an optional value, and an
//! ordered list of child ids. Nodes are stored flat with parents strictly
//! before their children, so the structure is acyclic by construction and
//! every structural walk terminates.

use vstd::prelude::*;

verus! {

use vstd::string::StringSliceAdditionalSpecFns;

/// Unique node identifier within one tree.
pub type NodeId = u32;

/// What type of procedural entity a node represents.
#[derive(Debug, Clone, Copy, PartialEq, Eq, Structural, Hash)]
pub enum AstNodeKind {
    /// Root of the tree
    Root,
    /// CSG operation (union, subtract, intersect)
    CsgOp,
    /// Geometric primitive (sphere, box, cylinder)
    Primitive,
    /// Transform (translate, rotate, scale)
    Transform,
    /// Numeric parameter (radius, width, angle)
    Parameter,
    /// Scene/group node
    Group,
    /// Material / shader definition
    Material,
    /// Animation keyframe
    Keyframe,
    /// Custom / extension node
    Custom,
}

/// The one-byte wire discriminant of a node kind.
pub open spec fn kind_byte(k: AstNodeKind) -> u8 {
    match k {
        AstNodeKind::Root => 0,
        AstNodeKind::CsgOp => 1,
        AstNodeKind::Primitive => 2,
        AstNodeKind::Transform => 3,
        AstNodeKind::Parameter => 4,
        AstNodeKind::Group => 5,
        AstNodeKind::Material => 6,
        AstNodeKind::Keyframe => 7,
        AstNodeKind::Custom => 255,
    }
}

/// The node kind a wire byte decodes to; unknown bytes map to `Custom`.
pub open spec fn spec_kind_from_u8(v: u8) -> AstNodeKind {
    if v == 0 {
        AstNodeKind::Root
    } else if v == 1 {
        AstNodeKind::CsgOp
    } else if v == 2 {
        AstNodeKind::Primitive
    } else if v == 3 {
        AstNodeKind::Transform
    } else if v == 4 {
        AstNodeKind::Parameter
    } else if v == 5 {
        AstNodeKind::Group
    } else if v == 6 {
        AstNodeKind::Material
    } else if v == 7 {
        AstNodeKind::Keyframe
    } else {
        AstNodeKind::Custom
    }
}

impl AstNodeKind {
    /// Decode a kind from its wire byte; unknown bytes map to `Custom`.
    pub fn from_u8(v: u8) -> (r: Self)
        ensures
            r == spec_kind_from_u8(v),
    {
        match v {
            0 => Self::Root,
            1 => Self::CsgOp,
            2 => Self::Primitive,
            3 => Self::Transform,
            4 => Self::Parameter,
            5 => Self::Group,
            6 => Self::Material,
            7 => Self::Keyframe,
            _ => Self::Custom,
        }
    }

    /// The wire byte of this kind.
    pub fn to_u8(self) -> (r: u8)
        ensures
            r == kind_byte(self),
    {
        match self {
            Self::Root => 0,
            Self::CsgOp => 1,
            Self::Primitive => 2,
            Self::Transform => 3,
            Self::Parameter => 4,
            Self::Group => 5,
            Self::Material => 6,
            Self::Keyframe => 7,
            Self::Custom => 255,
        }
    }
}

/// Decoding the wire byte of any kind yields that kind back.
pub proof fn lemma_kind_byte_roundtrip(k: AstNodeKind)
    ensures
        spec_kind_from_u8(kind_byte(k)) == k,
{
}

/// Value attached to a node.
///
/// `Float` carries the IEEE-754 binary64 bit pattern of the value, which
/// is also its exact wire form; [`float_eq_bits`] gives IEEE `==` on such
/// bit patterns.
#[derive(Debug, Clone, PartialEq)]
pub enum NodeValue {
    /// No value
    Nil,
    /// Integer value
    Int(i64),
    /// Float value, as IEEE-754 binary64 bits
    Float(u64),
    /// String value
    Text(String),
    /// Named identifier (e.g. "sphere", "union")
    Ident(String),
    /// Raw bytes
    Bytes(Vec<u8>),
}

/// The mathematical shape of a [`NodeValue`]: strings become character
/// sequences, byte buffers become byte sequences.
pub enum ValueView {
    /// No value
    Nil,
    /// Integer value
    Int(i64),
    /// Float value, as IEEE-754 binary64 bits
    Float(u64),
    /// String value
    Text(Seq<char>),
    /// Named identifier
    Ident(Seq<char>),
    /// Raw bytes
    Bytes(Seq<u8>),
}

impl View for NodeValue {
    type V = ValueView;

    open spec fn view(&self) -> ValueView {
        match self {
            NodeValue::Nil => ValueView::Nil,
            NodeValue::Int(x) => ValueView::Int(*x),
            NodeValue::Float(x) => ValueView::Float(*x),
            NodeValue::Text(s) => ValueView::Text(s@),
            NodeValue::Ident(s) => ValueView::Ident(s@),
            NodeValue::Bytes(b) => ValueView::Bytes(b@),
        }
    }
}

/// Whether a binary64 bit pattern encodes a NaN.
pub open spec fn spec_f64_bits_is_nan(b: u64) -> bool {
    b & 0x7ff0000000000000 == 0x7ff0000000000000 && b & 0x000fffffffffffff != 0
}

/// Whether a binary64 bit pattern encodes a zero (of either sign).
pub open spec fn spec_f64_bits_is_zero(b: u64) -> bool {
    b & 0x7fffffffffffffff == 0
}

/// IEEE-754 `==` on binary64 bit patterns: NaN equals nothing, the two
/// zeros equal each other, and every other value equals only itself.
pub open spec fn spec_float_eq_bits(a: u64, b: u64) -> bool {
    &&& !spec_f64_bits_is_nan(a)
    &&& !spec_f64_bits_is_nan(b)
    &&& (a == b || (spec_f64_bits_is_zero(a) && spec_f64_bits_is_zero(b)))
}

/// IEEE-754 `==` on binary64 bit patterns.
pub fn float_eq_bits(a: u64, b: u64) -> (r: bool)
    ensures
        r == spec_float_eq_bits(a, b),
{
    let a_nan = a & 0x7ff0000000000000 == 0x7ff0000000000000 && a & 0x000fffffffffffff != 0;
    let b_nan = b & 0x7ff0000000000000 == 0x7ff0000000000000 && b & 0x000fffffffffffff != 0;
    !a_nan && !b_nan && (a == b || (a & 0x7fffffffffffffff == 0 && b & 0x7fffffffffffffff == 0))
}

/// Value equality as the diff engine sees it: structural on every variant,
/// IEEE `==` on floats (so NaN is unequal to itself and `+0.0 == -0.0`).
pub open spec fn spec_value_eq(a: ValueView, b: ValueView) -> bool {
    match a {
        ValueView::Nil => b is Nil,
        ValueView::Int(x) => match b {
            ValueView::Int(y) => x == y,
            _ => false,
        },
        ValueView::Float(x) => match b {
            ValueView::Float(y) => spec_float_eq_bits(x, y),
            _ => false,
        },
        ValueView::Text(x) => match b {
            ValueView::Text(y) => x == y,
            _ => false,
        },
        ValueView::Ident(x) => match b {
            ValueView::Ident(y) => x == y,
            _ => false,
        },
        ValueView::Bytes(x) => match b {
            ValueView::Bytes(y) => x == y,
            _ => false,
        },
    }
}

/// Value equality as the diff engine sees it.
pub fn value_eq(a: &NodeValue, b: &NodeValue) -> (r: bool)
    ensures
        r == spec_value_eq(a@, b@),
{
    match a {
        NodeValue::Nil => match b {
            NodeValue::Nil => true,
            _ => false,
        },
        NodeValue::Int(x) => match b {
            NodeValue::Int(y) => *x == *y,
            _ => false,
        },
        NodeValue::Float(x) => match b {
            NodeValue::Float(y) => float_eq_bits(*x, *y),
            _ => false,
        },
        NodeValue::Text(x) => match b {
            NodeValue::Text(y) => *x == *y,
            _ => false,
        },
        NodeValue::Ident(x) => match b {
            NodeValue::Ident(y) => *x == *y,
            _ => false,
        },
        NodeValue::Bytes(x) => match b {
            NodeValue::Bytes(y) => compare_byte_vecs(x, y),
            _ => false,
        },
    }
}

/// A copy of a byte vector.
pub fn copy_bytes(v: &Vec<u8>) -> (r: Vec<u8>)
    ensures
        r@ == v@,
{
    let mut out: Vec<u8> = Vec::new();
    let mut i: usize = 0;
    while i < v.len()
        invariant
            i <= v@.len(),
            out@ =~= v@.subrange(0, i as int),
        decreases v@.len() - i,
    {
        out.push(v[i]);
        proof {
            assert(out@ =~= v@.subrange(0, i as int + 1));
        }
        i += 1;
    }
    proof {
        assert(out@ =~= v@);
    }
    out
}

/// A copy of a hash vector.
pub fn copy_u64s(v: &Vec<u64>) -> (r: Vec<u64>)
    ensures
        r@ == v@,
{
    let mut out: Vec<u64> = Vec::new();
    let mut i: usize = 0;
    while i < v.len()
        invariant
            i <= v@.len(),
            out@ =~= v@.subrange(0, i as int),
        decreases v@.len() - i,
    {
        out.push(v[i]);
        proof {
            assert(out@ =~= v@.subrange(0, i as int + 1));
        }
        i += 1;
    }
    proof {
        assert(out@ =~= v@);
    }
    out
}

/// A copy of an id vector.
pub fn copy_ids(v: &Vec<NodeId>) -> (r: Vec<NodeId>)
    ensures
        r@ == v@,
{
    let mut out: Vec<NodeId> = Vec::new();
    let mut i: usize = 0;
    while i < v.len()
        invariant
            i <= v@.len(),
            out@ =~= v@.subrange(0, i as int),
        decreases v@.len() - i,
    {
        out.push(v[i]);
        proof {
            assert(out@ =~= v@.subrange(0, i as int + 1));
        }
        i += 1;
    }
    proof {
        assert(out@ =~= v@);
    }
    out
}

/// Byte-vector equality.
fn compare_byte_vecs(a: &Vec<u8>, b: &Vec<u8>) -> (r: bool)
    ensures
        r == (a@ == b@),
{
    if a.len() != b.len() {
        return false;
    }
    let mut i: usize = 0;
    while i < a.len()
        invariant
            i <= a.len(),
            a.len() == b.len(),
            forall|j: int| 0 <= j < i ==> a@[j] == b@[j],
        decreases a.len() - i,
    {
        if a[i] != b[i] {
            return false;
        }
        i += 1;
    }
    proof {
        assert(a@ =~= b@);
    }
    true
}

/// Byte length of the UTF-8 encoding of a character sequence.
pub open spec fn str_bytes_len_of(s: Seq<char>) -> int {
    vstd::utf8::encode_utf8(s).len() as int
}

/// Byte length of a string slice.
pub fn str_byte_len(s: &str) -> (r: usize)
    ensures
        r == str_bytes_len_of(s@),
{
    let bytes = s.as_bytes();
    proof {
        assert(bytes@ == s.spec_bytes());
        assert(s.spec_bytes() == vstd::utf8::encode_utf8(s@));
    }
    bytes.len()
}

/// Estimated serialized size of a value, saturating at `usize::MAX`.
pub open spec fn spec_value_size(v: ValueView) -> usize {
    match v {
        ValueView::Nil => 1,
        ValueView::Int(_) => 9,
        ValueView::Float(_) => 9,
        ValueView::Text(s) => if str_bytes_len_of(s) + 3 <= usize::MAX {
            (3 + str_bytes_len_of(s)) as usize
        } else {
            usize::MAX
        },
        ValueView::Ident(s) => if str_bytes_len_of(s) + 3 <= usize::MAX {
            (3 + str_bytes_len_of(s)) as usize
        } else {
            usize::MAX
        },
        ValueView::Bytes(b) => if b.len() + 3 <= usize::MAX {
            (3 + b.len()) as usize
        } else {
            usize::MAX
        },
    }
}

impl NodeValue {
    /// A copy of this value whose view is provably the same.
    pub fn duplicate(&self) -> (r: NodeValue)
        ensures
            r@ == self@,
    {
        match self {
            NodeValue::Nil => NodeValue::Nil,
            NodeValue::Int(x) => NodeValue::Int(*x),
            NodeValue::Float(x) => NodeValue::Float(*x),
            NodeValue::Text(s) => NodeValue::Text(s.clone()),
            NodeValue::Ident(s) => NodeValue::Ident(s.clone()),
            NodeValue::Bytes(b) => NodeValue::Bytes(copy_bytes(b)),
        }
    }

    /// Estimated size in bytes when serialized.
    pub fn serialized_size(&self) -> (r: usize)
        ensures
            r == spec_value_size(self@),
    {
        match self {
            NodeValue::Nil => 1,
            NodeValue::Int(_) => 9,
            NodeValue::Float(_) => 9,
            NodeValue::Text(s) => {
                let n = str_byte_len(s.as_str());
                if n <= usize::MAX - 3 {
                    3 + n
                } else {
                    usize::MAX
                }
            },
            NodeValue::Ident(s) => {
                let n = str_byte_len(s.as_str());
                if n <= usize::MAX - 3 {
                    3 + n
                } else {
                    usize::MAX
                }
            },
            NodeValue::Bytes(b) => {
                let n = b.len();
                if n <= usize::MAX - 3 {
                    3 + n
                } else {
                    usize::MAX
                }
            },
        }
    }
}

/// AST node.
#[derive(Debug, Clone)]
pub struct AstNode {
    /// Unique identifier within the tree
    pub id: NodeId,
    /// Node kind
    pub kind: AstNodeKind,
    /// Node label (e.g. "sphere", "translate")
    pub label: String,
    /// Attached value
    pub value: NodeValue,
    /// Child node IDs
    pub children: Vec<NodeId>,
}

/// The mathematical shape of an [`AstNode`].
pub struct NodeView {
    /// Unique identifier within the tree
    pub id: NodeId,
    /// Node kind
    pub kind: AstNodeKind,
    /// Node label
    pub label: Seq<char>,
    /// Attached value
    pub value: ValueView,
    /// Child node IDs
    pub children: Seq<NodeId>,
}

impl View for AstNode {
    type V = NodeView;

    open spec fn view(&self) -> NodeView {
        NodeView {
            id: self.id,
            kind: self.kind,
            label: self.label@,
            value: self.value@,
            children: self.children@,
        }
    }
}

impl AstNode {
    /// A copy of this node whose view is provably the same.
    pub fn duplicate(&self) -> (r: AstNode)
        ensures
            r@ == self@,
    {
        AstNode {
            id: self.id,
            kind: self.kind,
            label: self.label.clone(),
            value: self.value.duplicate(),
            children: copy_ids(&self.children),
        }
    }

    /// A fresh node with no value and no children.
    pub fn new(id: NodeId, kind: AstNodeKind, label: &str) -> (r: Self)
        ensures
            r@ == (NodeView {
                id,
                kind,
                label: label@,
                value: ValueView::Nil,
                children: Seq::<NodeId>::empty(),
            }),
    {
        Self {
            id,
            kind,
            label: label.to_owned(),
            value: NodeValue::Nil,
            children: Vec::new(),
        }
    }

    /// The same node with its value replaced.
    pub fn with_value(self, value: NodeValue) -> (r: Self)
        ensures
            r@ == (NodeView { value: value@, ..self@ }),
    {
        let mut n = self;
        n.value = value;
        n
    }

    /// The same node with its children replaced.
    pub fn with_children(self, children: Vec<NodeId>) -> (r: Self)
        ensures
            r@ == (NodeView { children: children@, ..self@ }),
    {
        let mut n = self;
        n.children = children;
        n
    }
}

// ── Tree structure predicates ─────────────────────────────────────────

/// Whether some node in `s` carries the id.
pub open spec fn has_id(s: Seq<NodeView>, id: NodeId) -> bool {
    exists|i: int| 0 <= i < s.len() && s[i].id == id
}

/// The position of the node carrying `id` (meaningful when ids are
/// distinct and the id is present).
pub open spec fn idx_of(s: Seq<NodeView>, id: NodeId) -> int {
    choose|i: int| 0 <= i < s.len() && s[i].id == id
}

/// The node carrying `id`.
pub open spec fn node_of(s: Seq<NodeView>, id: NodeId) -> NodeView {
    s[idx_of(s, id)]
}

/// No two nodes share an id.
pub open spec fn ids_distinct(s: Seq<NodeView>) -> bool {
    forall|i: int, j: int| 0 <= i < j < s.len() ==> s[i].id != s[j].id
}

/// The node at position 0 is the root: id 0, kind `Root`.
pub open spec fn root_ok(s: Seq<NodeView>) -> bool {
    s.len() >= 1 && s[0].id == 0 && s[0].kind == AstNodeKind::Root
}

/// The child in slot `k` of the node at position `i` names a node stored
/// strictly after position `i`.
pub open spec fn child_ok(s: Seq<NodeView>, i: int, k: int) -> bool {
    exists|j: int| i < j < s.len() && s[j].id == s[i].children[k]
}

/// Every child id names a node stored strictly after its parent. This
/// single ordering fact makes the child relation acyclic.
pub open spec fn children_ordered(s: Seq<NodeView>) -> bool {
    forall|i: int, k: int|
        0 <= i < s.len() && 0 <= k < s[i].children.len() ==> #[trigger] child_ok(s, i, k)
}

/// Position `i`, slot `k` holds a child edge to `id`.
pub open spec fn edge_at(s: Seq<NodeView>, i: int, k: int, id: NodeId) -> bool {
    0 <= i < s.len() && 0 <= k < s[i].children.len() && s[i].children[k] == id
}

/// No id occurs in two different child slots.
pub open spec fn edges_unique(s: Seq<NodeView>) -> bool {
    forall|i: int, k: int, i2: int, k2: int|
        edge_at(s, i, k, #[trigger] s[i].children[k]) && edge_at(
            s,
            i2,
            k2,
            #[trigger] s[i2].children[k2],
        ) && s[i].children[k] == s[i2].children[k2] ==> i == i2 && k == k2
}

/// `id` occurs in some child slot.
pub open spec fn is_child_anywhere(s: Seq<NodeView>, id: NodeId) -> bool {
    exists|i: int, k: int| edge_at(s, i, k, id)
}

/// Every node except the root is somebody's child.
pub open spec fn nonroot_is_child(s: Seq<NodeView>) -> bool {
    forall|j: int| 1 <= j < s.len() ==> is_child_anywhere(s, #[trigger] s[j].id)
}

/// Every stored id is below the allocation bound.
pub open spec fn ids_below(s: Seq<NodeView>, bound: NodeId) -> bool {
    forall|i: int| 0 <= i < s.len() ==> (#[trigger] s[i].id) < bound
}

/// Full well-formedness of a stored node sequence: the invariants the
/// tree maintains across every public mutation.
pub open spec fn wf_seq(s: Seq<NodeView>, next_id: NodeId) -> bool {
    &&& root_ok(s)
    &&& ids_distinct(s)
    &&& children_ordered(s)
    &&& edges_unique(s)
    &&& nonroot_is_child(s)
    &&& ids_below(s, next_id)
}

/// The parent of `id`: the id of the unique node holding a child edge to
/// it, absent for the root and for unknown ids.
pub open spec fn spec_parent_of(s: Seq<NodeView>, id: NodeId) -> Option<NodeId> {
    if is_child_anywhere(s, id) {
        let (i, k) = choose|i: int, k: int| edge_at(s, i, k, id);
        Some(s[i].id)
    } else {
        None
    }
}

/// The stored sequence after adding a fresh node under a parent.
pub open spec fn add_node_view(
    s: Seq<NodeView>,
    kind: AstNodeKind,
    label: Seq<char>,
    value: ValueView,
    parent_id: NodeId,
    id: NodeId,
) -> Seq<NodeView> {
    let p = idx_of(s, parent_id);
    s.update(p, NodeView { children: s[p].children.push(id), ..s[p] }).push(
        NodeView { id, kind, label, value, children: Seq::<NodeId>::empty() },
    )
}

/// If position `i` carries `id` and ids are distinct, then `idx_of`
/// resolves to exactly `i`.
pub proof fn lemma_idx_of_unique(s: Seq<NodeView>, i: int, id: NodeId)
    requires
        ids_distinct(s),
        0 <= i < s.len(),
        s[i].id == id,
    ensures
        has_id(s, id),
        idx_of(s, id) == i,
{
    assert(has_id(s, id));
    let j = idx_of(s, id);
    assert(0 <= j < s.len() && s[j].id == id);
    if i < j {
        assert(s[i].id != s[j].id);
    } else if j < i {
        assert(s[j].id != s[i].id);
    }
}

// ── The tree ──────────────────────────────────────────────────────────

/// The stored node sequence of a freshly built tree: just the root.
pub open spec fn empty_tree_view() -> Seq<NodeView> {
    seq![
        NodeView {
            id: 0,
            kind: AstNodeKind::Root,
            label: "root"@,
            value: ValueView::Nil,
            children: Seq::<NodeId>::empty(),
        },
    ]
}

/// AST tree: flat node storage in parent-before-child order, with a
/// monotone id allocator. Ids are never reused, even after removal.
#[derive(Debug, Clone)]
pub struct AstTree {
    nodes: Vec<AstNode>,
    next_id: NodeId,
}

impl AstTree {
    /// The stored node sequence, as node views.
    pub closed spec fn nodes_view(&self) -> Seq<NodeView> {
        self.nodes@.map_values(|n: AstNode| n@)
    }
}

impl View for AstTree {
    type V = Seq<NodeView>;

    open spec fn view(&self) -> Seq<NodeView> {
        self.nodes_view()
    }
}

impl AstTree {
    /// The id allocator's state: strictly above every id ever issued.
    pub closed spec fn spec_next_id(self) -> NodeId {
        self.next_id
    }

    /// Well-formedness: the invariants that hold after construction and
    /// after every public mutation.
    pub open spec fn wf(self) -> bool {
        &&& wf_seq(self@, self.spec_next_id())
        &&& self.spec_next_id() >= 1
    }

    /// A tree holding just the root node.
    pub fn new() -> (r: Self)
        ensures
            r.wf(),
            r@ == empty_tree_view(),
            r@.len() == 1,
            r@[0] == (NodeView {
                id: 0,
                kind: AstNodeKind::Root,
                label: "root"@,
                value: ValueView::Nil,
                children: Seq::<NodeId>::empty(),
            }),
            r.spec_next_id() == 1,
    {
        let root = AstNode::new(0, AstNodeKind::Root, "root");
        let mut nodes: Vec<AstNode> = Vec::new();
        nodes.push(root);
        let r = Self { nodes, next_id: 1 };
        proof {
            assert(r@ =~= seq![
                NodeView {
                    id: 0,
                    kind: AstNodeKind::Root,
                    label: "root"@,
                    value: ValueView::Nil,
                    children: Seq::<NodeId>::empty(),
                },
            ]);
        }
        r
    }

    /// A copy of this tree whose view is provably the same.
    pub fn clone_tree(&self) -> (r: AstTree)
        ensures
            r@ == self@,
            r.spec_next_id() == self.spec_next_id(),
            self.wf() ==> r.wf(),
    {
        let mut nodes: Vec<AstNode> = Vec::new();
        let mut i: usize = 0;
        while i < self.nodes.len()
            invariant
                i <= self.nodes@.len(),
                nodes@.len() == i,
                forall|j: int| 0 <= j < i ==> (#[trigger] nodes@[j])@ == self.nodes@[j]@,
            decreases self.nodes@.len() - i,
        {
            nodes.push(self.nodes[i].duplicate());
            i += 1;
        }
        let r = AstTree { nodes, next_id: self.next_id };
        proof {
            assert(r@ =~= self@);
        }
        r
    }

    /// The next id the tree will assign.
    pub fn peek_next_id(&self) -> (r: NodeId)
        ensures
            r == self.spec_next_id(),
    {
        self.next_id
    }

    /// Root node ID.
    pub fn root_id(&self) -> (r: NodeId)
        ensures
            r == 0,
    {
        0
    }

    /// Total node count.
    pub fn node_count(&self) -> (r: usize)
        ensures
            r == self@.len(),
    {
        self.nodes.len()
    }

    /// All nodes, in storage order (parents before children).
    pub fn nodes(&self) -> (r: &[AstNode])
        ensures
            r@.len() == self@.len(),
            forall|i: int| 0 <= i < r@.len() ==> (#[trigger] r@[i])@ == self@[i],
    {
        self.nodes.as_slice()
    }

    /// The storage position of the node carrying `id`, if any.
    fn find_index(&self, id: NodeId) -> (r: Option<usize>)
        ensures
            match r {
                Some(i) => i < self@.len() && self@[i as int].id == id && (forall|j: int|
                    0 <= j < i ==> self@[j].id != id),
                None => !has_id(self@, id),
            },
    {
        let mut i: usize = 0;
        while i < self.nodes.len()
            invariant
                i <= self@.len(),
                self@.len() == self.nodes@.len(),
                forall|j: int| 0 <= j < i ==> self@[j].id != id,
            decreases self@.len() - i,
        {
            if self.nodes[i].id == id {
                return Some(i);
            }
            i += 1;
        }
        None
    }

    /// Get a node by ID.
    pub fn get_node(&self, id: NodeId) -> (r: Option<&AstNode>)
        requires
            self.wf(),
        ensures
            match r {
                Some(n) => has_id(self@, id) && n@ == node_of(self@, id),
                None => !has_id(self@, id),
            },
    {
        match self.find_index(id) {
            Some(i) => {
                proof {
                    lemma_idx_of_unique(self@, i as int, id);
                }
                Some(&self.nodes[i])
            },
            None => None,
        }
    }

    /// Add a node, returns its ID.
    ///
    /// The parent must exist; the id space must not be exhausted.
    pub fn add_node(&mut self, kind: AstNodeKind, label: &str, parent_id: NodeId) -> (r: NodeId)
        requires
            old(self).wf(),
            has_id(old(self)@, parent_id),
            old(self).spec_next_id() < NodeId::MAX,
        ensures
            final(self).wf(),
            r == old(self).spec_next_id(),
            final(self).spec_next_id() == old(self).spec_next_id() + 1,
            final(self)@ == add_node_view(old(self)@, kind, label@, ValueView::Nil, parent_id, r),
    {
        self.add_node_inner(kind, label, NodeValue::Nil, parent_id)
    }

    /// Add a node with a value, returns its ID.
    pub fn add_node_with_value(
        &mut self,
        kind: AstNodeKind,
        label: &str,
        value: NodeValue,
        parent_id: NodeId,
    ) -> (r: NodeId)
        requires
            old(self).wf(),
            has_id(old(self)@, parent_id),
            old(self).spec_next_id() < NodeId::MAX,
        ensures
            final(self).wf(),
            r == old(self).spec_next_id(),
            final(self).spec_next_id() == old(self).spec_next_id() + 1,
            final(self)@ == add_node_view(old(self)@, kind, label@, value@, parent_id, r),
    {
        self.add_node_inner(kind, label, value, parent_id)
    }

    /// Shared body of the two node-adding operations.
    fn add_node_inner(
        &mut self,
        kind: AstNodeKind,
        label: &str,
        value: NodeValue,
        parent_id: NodeId,
    ) -> (r: NodeId)
        requires
            old(self).wf(),
            has_id(old(self)@, parent_id),
            old(self).spec_next_id() < NodeId::MAX,
        ensures
            final(self).wf(),
            r == old(self).spec_next_id(),
            final(self).spec_next_id() == old(self).spec_next_id() + 1,
            final(self)@ == add_node_view(old(self)@, kind, label@, value@, parent_id, r),
    {
        let ghost v = value@;
        let id = self.next_id;
        self.next_id = id + 1;
        let node = AstNode::new(id, kind, label).with_value(value);
        let pidx = match self.find_index(parent_id) {
            Some(i) => i,
            None => {
                proof {
                    assert(false);
                }
                0
            },
        };
        proof {
            lemma_idx_of_unique(self@, pidx as int, parent_id);
        }
        self.nodes[pidx].children.push(id);
        self.nodes.push(node);
        proof {
            let s = old(self)@;
            let p = idx_of(s, parent_id);
            assert(final(self)@ =~= add_node_view(s, kind, label@, v, parent_id, id));
            lemma_add_node_wf(s, kind, label@, v, parent_id, id, old(self).spec_next_id());
        }
        id
    }

    /// Remove a node and all its descendants.
    ///
    /// A no-op for unknown ids and for the root: a tree always keeps its
    /// root node. Surviving ids are never renumbered.
    #[verifier::rlimit(100)]
    pub fn remove_subtree(&mut self, id: NodeId)
        requires
            old(self).wf(),
        ensures
            final(self).wf(),
            final(self).spec_next_id() == old(self).spec_next_id(),
            final(self)@ == remove_subtree_view(old(self)@, id),
            id == 0 || !has_id(old(self)@, id) ==> final(self)@ == old(self)@,
            forall|x: NodeId|
                has_id(final(self)@, x) <==> (has_id(old(self)@, x) && !(id != 0 && in_subtree(
                    old(self)@,
                    id,
                    x,
                ))),
    {
        if id == 0 {
            return ;
        }
        let rpos = match self.find_index(id) {
            Some(i) => i,
            None => {
                return ;
            },
        };
        proof {
            lemma_idx_of_unique(self@, rpos as int, id);
        }
        let ghost s = self@;
        let n = self.nodes.len();

        // mark phase: one forward sweep marks the whole rooted subtree,
        // because every child sits strictly after its parent in storage
        let mut marked: Vec<bool> = Vec::new();
        let mut t: usize = 0;
        while t < n
            invariant
                t <= n,
                marked@.len() == t,
                forall|x: int| 0 <= x < t ==> !marked@[x],
            decreases n - t,
        {
            marked.push(false);
            t += 1;
        }
        marked[rpos] = true;
        let mut p = rpos;
        while p < n
            invariant
                self.wf(),
                s == self@,
                n == s.len(),
                marked@.len() == n,
                rpos <= p <= n,
                rpos < n,
                s[rpos as int].id == id,
                idx_of(s, id) == rpos as int,
                marked@[rpos as int],
                forall|x: int| 0 <= x < n ==> (marked@[x] ==> descends(s, x, rpos as int)),
                marks_closed_upto(s, marked@, p as int),
            decreases n - p,
        {
            let p_marked = marked[p];
            if p_marked {
                let cn = self.nodes[p].children.len();
                let mut k: usize = 0;
                while k < cn
                    invariant
                        self.wf(),
                        s == self@,
                        n == s.len(),
                        marked@.len() == n,
                        rpos <= p < n,
                        s[rpos as int].id == id,
                        idx_of(s, id) == rpos as int,
                        marked@[rpos as int],
                        marked@[p as int],
                        k <= cn,
                        cn == s[p as int].children.len(),
                        forall|x: int| 0 <= x < n ==> (marked@[x] ==> descends(s, x, rpos as int)),
                        marks_closed_upto(s, marked@, p as int),
                        forall|k0: int|
                            0 <= k0 < k ==> {
                                let ci = idx_of(s, #[trigger] s[p as int].children[k0]);
                                0 <= ci < n && marked@[ci]
                            },
                    decreases cn - k,
                {
                    let c = self.nodes[p].children[k];
                    proof {
                        assert(child_ok(s, p as int, k as int));
                        let j = choose|j: int|
                            p < j < s.len() && s[j].id == s[p as int].children[k as int];
                        lemma_idx_of_unique(s, j, c);
                        lemma_descends_step(s, p as int, rpos as int, k as int);
                    }
                    let cpos = match self.find_index(c) {
                        Some(i) => i,
                        None => {
                            proof {
                                assert(false);
                            }
                            0
                        },
                    };
                    proof {
                        lemma_idx_of_unique(s, cpos as int, c);
                    }
                    marked[cpos] = true;
                    k += 1;
                }
            }
            proof {
                assert(marks_closed_upto(s, marked@, p as int + 1));
            }
            p += 1;
        }
        proof {
            assert forall|x: int, k: int|
                0 <= x < s.len() && marked@[x] && 0 <= k < s[x].children.len() implies marked@[idx_of(
                s,
                #[trigger] s[x].children[k],
            )] by {
                assert(marks_closed_upto(s, marked@, n as int));
            }
            assert forall|q: int| 0 <= q < n implies marked@[q] == descends(
                s,
                q,
                rpos as int,
            ) by {
                if descends(s, q, rpos as int) {
                    lemma_descends_ge(s, q, rpos as int);
                    lemma_descends_minimal(s, marked@, rpos as int, q);
                }
            }
        }

        // detach: remove the unique child edge pointing at the node
        self.detach_child_edge(id);

        let ghost d = detach_view(s, id);
        let ghost km = keep_mask(s, rpos as int);

        // sweep: drop the marked positions, walking from the tail so the
        // positions still to visit keep their indices
        let mut q = n;
        while q > 0
            invariant
                q <= n,
                n == s.len(),
                marked@.len() == n,
                d.len() == n,
                km.len() == n,
                forall|x: int| 0 <= x < n ==> marked@[x] == !km[x],
                self@ =~= d.subrange(0, q as int) + mask_keep(d, km, q as int),
                self.spec_next_id() == old(self).spec_next_id(),
            decreases q,
        {
            q -= 1;
            let ghost pre = self@;
            let ghost qi = q as int;
            proof {
                lemma_mask_keep_len(d, km, qi + 1);
                lemma_count_true_nonneg(km, qi + 1, n as int);
                assert(pre.len() == qi + 1 + mask_keep(d, km, qi + 1).len());
            }
            if marked[q] {
                self.nodes.remove(q);
                proof {
                    let tail = mask_keep(d, km, qi + 1);
                    assert(!km[qi]);
                    assert(mask_keep(d, km, qi) == Seq::<NodeView>::empty() + tail);
                    assert(Seq::<NodeView>::empty() + tail =~= tail);
                    assert(self@ == pre.remove(qi));
                    pre.remove_ensures(qi);
                    assert forall|j: int| 0 <= j < self@.len() implies self@[j] == (d.subrange(
                        0,
                        qi,
                    ) + tail)[j] by {
                        if j < qi {
                            assert(self@[j] == pre[j]);
                            assert(pre[j] == d.subrange(0, qi + 1)[j]);
                        } else {
                            assert(self@[j] == pre[j + 1]);
                            assert(pre[j + 1] == tail[j + 1 - (qi + 1)]);
                        }
                    }
                    assert(self@ =~= d.subrange(0, qi) + mask_keep(d, km, qi));
                }
            } else {
                proof {
                    let tail = mask_keep(d, km, qi + 1);
                    assert(km[qi]);
                    assert(mask_keep(d, km, qi) == seq![d[qi]] + tail);
                    assert forall|j: int| 0 <= j < pre.len() implies pre[j] == (d.subrange(0, qi)
                        + mask_keep(d, km, qi))[j] by {
                        if j < qi {
                            assert(pre[j] == d.subrange(0, qi + 1)[j]);
                        } else if j == qi {
                            assert(pre[j] == d.subrange(0, qi + 1)[j]);
                            assert((seq![d[qi]] + tail)[0] == d[qi]);
                        } else {
                            assert(pre[j] == tail[j - (qi + 1)]);
                            assert((seq![d[qi]] + tail)[j - qi] == tail[j - qi - 1]);
                        }
                    }
                    assert(self@ =~= d.subrange(0, qi) + mask_keep(d, km, qi));
                }
            }
        }
        proof {
            assert(self@ =~= mask_keep(d, km, 0));
            assert(self@ == remove_subtree_view(s, id));
            lemma_remove_subtree_wf(s, id, old(self).spec_next_id());
        }
    }

    /// Remove the unique child edge pointing at `id` from its parent's
    /// child list.
    #[verifier::rlimit(50)]
    fn detach_child_edge(&mut self, id: NodeId)
        requires
            old(self).wf(),
            has_id(old(self)@, id),
            id != 0,
        ensures
            final(self)@ == detach_view(old(self)@, id),
            final(self).spec_next_id() == old(self).spec_next_id(),
    {
        let ghost s = self@;
        let n = self.nodes.len();
        let mut i: usize = 0;
        while i < n
            invariant
                self.wf(),
                s == self@,
                s == old(self)@,
                n == s.len(),
                i <= n,
                has_id(s, id),
                id != 0,
                self.spec_next_id() == old(self).spec_next_id(),
                forall|i0: int, k0: int| 0 <= i0 < i && 0 <= k0 ==> !edge_at(s, i0, k0, id),
            decreases n - i,
        {
            let cn = self.nodes[i].children.len();
            let mut k: usize = 0;
            while k < cn
                invariant
                    self.wf(),
                    s == self@,
                    s == old(self)@,
                    n == s.len(),
                    i < n,
                    k <= cn,
                    cn == s[i as int].children.len(),
                    self.spec_next_id() == old(self).spec_next_id(),
                    forall|k0: int| 0 <= k0 < k ==> s[i as int].children[k0] != id,
                decreases cn - k,
            {
                if self.nodes[i].children[k] == id {
                    proof {
                        assert(edge_at(s, i as int, k as int, id));
                        assert(is_child_anywhere(s, id));
                        let (ci, ck) = parent_edge(s, id);
                        assert(edge_at(s, ci, ck, id));
                        assert(edge_at(s, ci, ck, s[ci].children[ck]));
                        assert(edge_at(s, i as int, k as int, s[i as int].children[k as int]));
                        assert(ci == i as int && ck == k as int);
                    }
                    self.nodes[i].children.remove(k);
                    proof {
                        assert(self@ =~= detach_view(s, id));
                    }
                    return ;
                }
                k += 1;
            }
            proof {
                assert forall|k0: int| 0 <= k0 implies !edge_at(s, i as int, k0, id) by {
                    if 0 <= k0 < s[i as int].children.len() {
                        assert(s[i as int].children[k0] != id);
                    }
                }
            }
            i += 1;
        }
        proof {
            assert(!is_child_anywhere(s, id));
            let j = idx_of(s, id);
            assert(0 <= j < s.len() && s[j].id == id);
            assert(j != 0) by {
                assert(s[0].id == 0);
            }
            assert(is_child_anywhere(s, s[j].id));
            assert(false);
        }
    }

    /// Move a node under a new parent: detach it from its current
    /// parent's child list and append it to the new parent's, relocating
    /// the moved subtree behind the remaining nodes so that the
    /// parent-before-child storage order is kept.
    ///
    /// The move is performed when both nodes exist, the node is not the
    /// root, and the destination is not inside the moved subtree (such a
    /// move would create a cycle). Any other move is skipped and
    /// reported as `false`.
    pub fn move_node(&mut self, id: NodeId, new_parent_id: NodeId) -> (r: bool)
        requires
            old(self).wf(),
        ensures
            final(self).wf(),
            final(self).spec_next_id() == old(self).spec_next_id(),
            r == can_move(old(self)@, id, new_parent_id),
            r ==> final(self)@ == move_view(old(self)@, id, new_parent_id),
            !r ==> final(self)@ == old(self)@,
    {
        if id == 0 || id == new_parent_id {
            return false;
        }
        let rpos = match self.find_index(id) {
            Some(i) => i,
            None => {
                return false;
            },
        };
        let parent_pos = match self.find_index(new_parent_id) {
            Some(i) => i,
            None => {
                return false;
            },
        };
        proof {
            lemma_idx_of_unique(self@, rpos as int, id);
            lemma_idx_of_unique(self@, parent_pos as int, new_parent_id);
        }
        let ghost s = self@;
        let n = self.nodes.len();

        // mark phase: one forward sweep marks the whole moved subtree,
        // because every child sits strictly after its parent in storage
        let mut marked: Vec<bool> = Vec::new();
        let mut t: usize = 0;
        while t < n
            invariant
                t <= n,
                marked@.len() == t,
                forall|x: int| 0 <= x < t ==> !marked@[x],
            decreases n - t,
        {
            marked.push(false);
            t += 1;
        }
        marked[rpos] = true;
        let mut p = rpos;
        while p < n
            invariant
                self.wf(),
                s == self@,
                n == s.len(),
                marked@.len() == n,
                rpos <= p <= n,
                rpos < n,
                s[rpos as int].id == id,
                idx_of(s, id) == rpos as int,
                marked@[rpos as int],
                forall|x: int| 0 <= x < n ==> (marked@[x] ==> descends(s, x, rpos as int)),
                marks_closed_upto(s, marked@, p as int),
            decreases n - p,
        {
            let p_marked = marked[p];
            if p_marked {
                let cn = self.nodes[p].children.len();
                let mut k: usize = 0;
                while k < cn
                    invariant
                        self.wf(),
                        s == self@,
                        n == s.len(),
                        marked@.len() == n,
                        rpos <= p < n,
                        s[rpos as int].id == id,
                        idx_of(s, id) == rpos as int,
                        marked@[rpos as int],
                        marked@[p as int],
                        k <= cn,
                        cn == s[p as int].children.len(),
                        forall|x: int| 0 <= x < n ==> (marked@[x] ==> descends(s, x, rpos as int)),
                        marks_closed_upto(s, marked@, p as int),
                        forall|k0: int|
                            0 <= k0 < k ==> {
                                let ci = idx_of(s, #[trigger] s[p as int].children[k0]);
                                0 <= ci < n && marked@[ci]
                            },
                    decreases cn - k,
                {
                    let c = self.nodes[p].children[k];
                    proof {
                        assert(child_ok(s, p as int, k as int));
                        let j = choose|j: int|
                            p < j < s.len() && s[j].id == s[p as int].children[k as int];
                        lemma_idx_of_unique(s, j, c);
                        lemma_descends_step(s, p as int, rpos as int, k as int);
                    }
                    let cpos = match self.find_index(c) {
                        Some(i) => i,
                        None => {
                            proof {
                                assert(false);
                            }
                            0
                        },
                    };
                    proof {
                        lemma_idx_of_unique(s, cpos as int, c);
                    }
                    marked[cpos] = true;
                    k += 1;
                }
            }
            proof {
                assert(marks_closed_upto(s, marked@, p as int + 1));
            }
            p += 1;
        }
        proof {
            assert forall|x: int, k: int|
                0 <= x < s.len() && marked@[x] && 0 <= k < s[x].children.len() implies marked@[idx_of(
                s,
                #[trigger] s[x].children[k],
            )] by {
                assert(marks_closed_upto(s, marked@, n as int));
            }
            assert forall|q: int| 0 <= q < n implies marked@[q] == descends(
                s,
                q,
                rpos as int,
            ) by {
                if descends(s, q, rpos as int) {
                    lemma_descends_ge(s, q, rpos as int);
                    lemma_descends_minimal(s, marked@, rpos as int, q);
                }
            }
        }

        // cycle check: the destination must not be inside the subtree
        if marked[parent_pos] {
            proof {
                assert(in_subtree(s, id, new_parent_id));
            }
            return false;
        }
        proof {
            assert(!descends(s, parent_pos as int, rpos as int));
            assert(!in_subtree(s, id, new_parent_id));
            assert(can_move(s, id, new_parent_id));
        }

        // detach: remove the unique child edge pointing at the node
        self.detach_child_edge(id);
        let ghost d = detach_view(s, id);
        let ghost km = keep_mask(s, rpos as int);
        let ghost sm = sub_mask(s, rpos as int);

        // relocate: walk the storage once, sending subtree nodes to the
        // back and everything else to the front, order kept in each part
        let mut front: Vec<AstNode> = Vec::new();
        let mut back: Vec<AstNode> = Vec::new();
        proof {
            assert(self@ == d);
            assert(self.nodes@.len() == self@.len());
            assert forall|j: int| 0 <= j < n implies (#[trigger] self.nodes@[j])@ == d[j] by {
                assert(self@[j] == self.nodes@[j]@);
            }
            assert(front@.map_values(|a: AstNode| a@) =~= Seq::<NodeView>::empty());
            assert(back@.map_values(|a: AstNode| a@) =~= Seq::<NodeView>::empty());
            assert(Seq::<NodeView>::empty() + mask_keep(d, km, 0) =~= mask_keep(d, km, 0));
            assert(Seq::<NodeView>::empty() + mask_keep(d, sm, 0) =~= mask_keep(d, sm, 0));
        }
        let mut q: usize = 0;
        while q < n
            invariant
                n == s.len(),
                d.len() == n,
                km.len() == n,
                sm.len() == n,
                marked@.len() == n,
                forall|x: int| 0 <= x < n ==> marked@[x] == !km[x] && marked@[x] == sm[x],
                q <= n,
                self.nodes@.len() == n - q,
                forall|j: int| 0 <= j < n - q ==> (#[trigger] self.nodes@[j])@ == d[q + j],
                front@.map_values(|a: AstNode| a@) + mask_keep(d, km, q as int) == mask_keep(
                    d,
                    km,
                    0,
                ),
                back@.map_values(|a: AstNode| a@) + mask_keep(d, sm, q as int) == mask_keep(
                    d,
                    sm,
                    0,
                ),
                self.spec_next_id() == old(self).spec_next_id(),
            decreases n - q,
        {
            let ghost frontv = front@.map_values(|a: AstNode| a@);
            let ghost backv = back@.map_values(|a: AstNode| a@);
            let ghost pre_nodes = self.nodes@;
            let node = self.nodes.remove(0);
            proof {
                assert(node@ == d[q as int]);
                assert forall|j: int| 0 <= j < n - q - 1 implies (#[trigger] self.nodes@[j])@
                    == d[q + 1 + j] by {
                    assert(self.nodes@[j] == pre_nodes[j + 1]);
                }
            }
            if marked[q] {
                back.push(node);
                proof {
                    assert(back@.map_values(|a: AstNode| a@) =~= backv.push(d[q as int]));
                    assert(mask_keep(d, sm, q as int) == seq![d[q as int]] + mask_keep(
                        d,
                        sm,
                        q as int + 1,
                    ));
                    assert(backv.push(d[q as int]) + mask_keep(d, sm, q as int + 1) =~= backv + (
                    seq![d[q as int]] + mask_keep(d, sm, q as int + 1)));
                    assert(front@.map_values(|a: AstNode| a@) == frontv);
                    assert(mask_keep(d, km, q as int) == Seq::<NodeView>::empty() + mask_keep(
                        d,
                        km,
                        q as int + 1,
                    ));
                    assert(frontv + (Seq::<NodeView>::empty() + mask_keep(d, km, q as int + 1))
                        =~= frontv + mask_keep(d, km, q as int + 1));
                }
            } else {
                front.push(node);
                proof {
                    assert(front@.map_values(|a: AstNode| a@) =~= frontv.push(d[q as int]));
                    assert(mask_keep(d, km, q as int) == seq![d[q as int]] + mask_keep(
                        d,
                        km,
                        q as int + 1,
                    ));
                    assert(frontv.push(d[q as int]) + mask_keep(d, km, q as int + 1) =~= frontv + (
                    seq![d[q as int]] + mask_keep(d, km, q as int + 1)));
                    assert(back@.map_values(|a: AstNode| a@) == backv);
                    assert(mask_keep(d, sm, q as int) == Seq::<NodeView>::empty() + mask_keep(
                        d,
                        sm,
                        q as int + 1,
                    ));
                    assert(backv + (Seq::<NodeView>::empty() + mask_keep(d, sm, q as int + 1))
                        =~= backv + mask_keep(d, sm, q as int + 1));
                }
            }
            q += 1;
        }
        proof {
            assert(mask_keep(d, km, n as int) =~= Seq::<NodeView>::empty());
            assert(mask_keep(d, sm, n as int) =~= Seq::<NodeView>::empty());
            assert(front@.map_values(|a: AstNode| a@) + Seq::<NodeView>::empty() =~= front@
                .map_values(|a: AstNode| a@));
            assert(back@.map_values(|a: AstNode| a@) + Seq::<NodeView>::empty() =~= back@
                .map_values(|a: AstNode| a@));
            assert(front@.map_values(|a: AstNode| a@) == mask_keep(d, km, 0));
            assert(back@.map_values(|a: AstNode| a@) == mask_keep(d, sm, 0));
        }
        while back.len() > 0
            invariant
                front@.map_values(|a: AstNode| a@) + back@.map_values(|a: AstNode| a@)
                    == relocated_view(s, id),
            decreases back@.len(),
        {
            let ghost frontv = front@.map_values(|a: AstNode| a@);
            let ghost backv = back@.map_values(|a: AstNode| a@);
            let node = back.remove(0);
            front.push(node);
            proof {
                assert(front@.map_values(|a: AstNode| a@) =~= frontv.push(backv[0]));
                assert(back@.map_values(|a: AstNode| a@) =~= backv.skip(1));
                assert(frontv.push(backv[0]) + backv.skip(1) =~= frontv + backv);
            }
        }
        self.nodes = front;
        proof {
            assert(back@.map_values(|a: AstNode| a@) =~= Seq::<NodeView>::empty());
            assert(self@ + Seq::<NodeView>::empty() =~= self@);
            assert(self@ == relocated_view(s, id));
            lemma_move_wf(s, id, new_parent_id, old(self).spec_next_id());
        }
        let p0 = match self.find_index(new_parent_id) {
            Some(i) => i,
            None => {
                proof {
                    assert(has_id(self@, new_parent_id));
                    assert(false);
                }
                0
            },
        };
        proof {
            lemma_idx_of_unique(self@, p0 as int, new_parent_id);
        }
        self.nodes[p0].children.push(id);
        proof {
            assert(final(self)@ =~= move_view(s, id, new_parent_id));
        }
        true
    }

    /// Find the parent of a node; absent for the root and for unknown ids.
    pub fn parent_of(&self, id: NodeId) -> (r: Option<NodeId>)
        requires
            self.wf(),
        ensures
            r == spec_parent_of(self@, id),
            id == 0 ==> r is None,
            !has_id(self@, id) ==> r is None,
            has_id(self@, id) && id != 0 ==> r is Some,
    {
        let ghost s = self@;
        let n = self.nodes.len();
        let mut i: usize = 0;
        while i < n
            invariant
                self.wf(),
                s == self@,
                n == s.len(),
                i <= n,
                forall|i0: int, k0: int| 0 <= i0 < i && 0 <= k0 ==> !edge_at(s, i0, k0, id),
            decreases n - i,
        {
            let m = self.nodes[i].children.len();
            let mut k: usize = 0;
            while k < m
                invariant
                    self.wf(),
                    s == self@,
                    n == s.len(),
                    i < n,
                    m == s[i as int].children.len(),
                    k <= m,
                    forall|i0: int, k0: int| 0 <= i0 < i && 0 <= k0 ==> !edge_at(s, i0, k0, id),
                    forall|k0: int| 0 <= k0 < k ==> s[i as int].children[k0] != id,
                decreases m - k,
            {
                if self.nodes[i].children[k] == id {
                    proof {
                        assert(edge_at(s, i as int, k as int, id));
                        assert(is_child_anywhere(s, id));
                        let (ci, ck) = choose|ci: int, ck: int| edge_at(s, ci, ck, id);
                        assert(edge_at(s, ci, ck, s[ci].children[ck]));
                        assert(edge_at(s, i as int, k as int, s[i as int].children[k as int]));
                        assert(ci == i as int && ck == k as int);
                        lemma_edge_target_not_root(s, i as int, k as int);
                        assert(child_ok(s, i as int, k as int));
                        let j = choose|j: int|
                            i < j < s.len() && s[j].id == s[i as int].children[k as int];
                        assert(has_id(s, id));
                    }
                    return Some(self.nodes[i].id);
                }
                k += 1;
            }
            proof {
                assert forall|k0: int| 0 <= k0 implies !edge_at(s, i as int, k0, id) by {
                    if k0 < s[i as int].children.len() {
                        assert(s[i as int].children[k0] != id);
                    }
                }
            }
            i += 1;
        }
        proof {
            assert(!is_child_anywhere(s, id));
            if has_id(s, id) && id != 0 {
                let j = idx_of(s, id);
                lemma_idx_of_unique(s, j, id);
                assert(j != 0) by {
                    assert(s[0].id == 0);
                }
                assert(is_child_anywhere(s, s[j].id));
            }
        }
        None
    }

    /// Replace the value of the node carrying `id`; reports whether the
    /// node exists. Unknown ids leave the tree unchanged.
    pub fn set_node_value(&mut self, id: NodeId, value: NodeValue) -> (r: bool)
        requires
            old(self).wf(),
        ensures
            final(self).wf(),
            r == has_id(old(self)@, id),
            final(self).spec_next_id() == old(self).spec_next_id(),
            r ==> final(self)@ == old(self)@.update(
                idx_of(old(self)@, id),
                NodeView { value: value@, ..node_of(old(self)@, id) },
            ),
            !r ==> final(self)@ == old(self)@,
    {
        let ghost v = value@;
        match self.find_index(id) {
            Some(i) => {
                proof {
                    lemma_idx_of_unique(self@, i as int, id);
                }
                self.nodes[i].value = value;
                proof {
                    let s = old(self)@;
                    let fin = s.update(idx_of(s, id), NodeView { value: v, ..node_of(s, id) });
                    assert(self@ =~= fin);
                    lemma_wf_update_data(s, fin, old(self).spec_next_id());
                }
                true
            },
            None => false,
        }
    }

    /// Replace the label of the node carrying `id`; reports whether the
    /// node exists. Unknown ids leave the tree unchanged.
    pub fn set_node_label(&mut self, id: NodeId, label: &str) -> (r: bool)
        requires
            old(self).wf(),
        ensures
            final(self).wf(),
            r == has_id(old(self)@, id),
            final(self).spec_next_id() == old(self).spec_next_id(),
            r ==> final(self)@ == old(self)@.update(
                idx_of(old(self)@, id),
                NodeView { label: label@, ..node_of(old(self)@, id) },
            ),
            !r ==> final(self)@ == old(self)@,
    {
        match self.find_index(id) {
            Some(i) => {
                proof {
                    lemma_idx_of_unique(self@, i as int, id);
                }
                self.nodes[i].label = label.to_owned();
                proof {
                    let s = old(self)@;
                    let fin = s.update(idx_of(s, id), NodeView { label: label@, ..node_of(s, id) });
                    assert(self@ =~= fin);
                    lemma_wf_update_data(s, fin, old(self).spec_next_id());
                }
                true
            },
            None => false,
        }
    }
}

/// A child edge never points at the root.
proof fn lemma_edge_target_not_root(s: Seq<NodeView>, i: int, k: int)
    requires
        root_ok(s),
        ids_distinct(s),
        children_ordered(s),
        0 <= i < s.len(),
        0 <= k < s[i].children.len(),
    ensures
        s[i].children[k] != 0,
{
    assert(child_ok(s, i, k));
    let j = choose|j: int| i < j < s.len() && s[j].id == s[i].children[k];
    assert(i < j < s.len() && s[j].id == s[i].children[k]);
    if s[i].children[k] == 0 {
        assert(s[0].id == s[j].id);
    }
}

/// Changing only labels and values of nodes (ids, kinds and child lists
/// held fixed) preserves every tree invariant.
proof fn lemma_wf_update_data(s: Seq<NodeView>, s2: Seq<NodeView>, next_id: NodeId)
    requires
        wf_seq(s, next_id),
        s2.len() == s.len(),
        forall|i: int|
            0 <= i < s.len() ==> (#[trigger] s2[i]).id == s[i].id && s2[i].children == s[i].children
                && s2[i].kind == s[i].kind,
    ensures
        wf_seq(s2, next_id),
{
    assert(root_ok(s2));
    assert(ids_distinct(s2));
    assert forall|i: int, k: int|
        0 <= i < s2.len() && 0 <= k < s2[i].children.len() implies #[trigger] child_ok(
        s2,
        i,
        k,
    ) by {
        assert(child_ok(s, i, k));
        assert(s[i].children[k] == s2[i].children[k]);
        let j = choose|j: int| i < j < s.len() && s[j].id == s[i].children[k];
        assert(i < j < s2.len() && s2[j].id == s2[i].children[k]);
    }
    assert forall|i: int, k: int, i2: int, k2: int|
        edge_at(s2, i, k, #[trigger] s2[i].children[k]) && edge_at(
            s2,
            i2,
            k2,
            #[trigger] s2[i2].children[k2],
        ) && s2[i].children[k] == s2[i2].children[k2] implies i == i2 && k == k2 by {
        assert(edge_at(s, i, k, s[i].children[k]));
        assert(edge_at(s, i2, k2, s[i2].children[k2]));
    }
    assert forall|j: int| 1 <= j < s2.len() implies is_child_anywhere(s2, #[trigger] s2[j].id) by {
        assert(is_child_anywhere(s, s[j].id));
        let (i, k) = choose|i: int, k: int| edge_at(s, i, k, s[j].id);
        assert(edge_at(s2, i, k, s2[j].id));
    }
    assert(ids_below(s2, next_id));
}

/// Adding a fresh node under an existing parent preserves every tree
/// invariant.
proof fn lemma_add_node_wf(
    s: Seq<NodeView>,
    kind: AstNodeKind,
    label: Seq<char>,
    value: ValueView,
    parent_id: NodeId,
    id: NodeId,
    next_id: NodeId,
)
    requires
        wf_seq(s, next_id),
        has_id(s, parent_id),
        id == next_id,
        next_id < NodeId::MAX,
    ensures
        wf_seq(add_node_view(s, kind, label, value, parent_id, id), (next_id + 1) as NodeId),
{
    let p = idx_of(s, parent_id);
    assert(0 <= p < s.len() && s[p].id == parent_id);
    let s2 = add_node_view(s, kind, label, value, parent_id, id);
    let n = s.len() as int;
    assert(s2.len() == n + 1);
    assert(forall|i: int| 0 <= i < n && i != p ==> s2[i] == s[i]);
    assert(s2[p].id == s[p].id && s2[p].kind == s[p].kind);
    assert(s2[p].children == s[p].children.push(id));
    assert(s2[n].id == id && s2[n].children.len() == 0);

    assert(root_ok(s2));
    assert forall|i: int, j: int| 0 <= i < j < s2.len() implies s2[i].id != s2[j].id by {
        if j < n {
            assert(s[i].id != s[j].id);
        } else {
            assert(s2[i].id == s[i].id && s[i].id < next_id);
        }
    }
    assert forall|i: int, k: int|
        0 <= i < s2.len() && 0 <= k < s2[i].children.len() implies #[trigger] child_ok(
        s2,
        i,
        k,
    ) by {
        if i == p && k == s[p].children.len() {
            assert(i < n < s2.len() && s2[n].id == s2[i].children[k]);
        } else if i < n {
            assert(child_ok(s, i, k));
            assert(s[i].children[k] == s2[i].children[k]);
            let j = choose|j: int| i < j < s.len() && s[j].id == s[i].children[k];
            assert(i < j < s2.len() && s2[j].id == s2[i].children[k]);
        }
    }
    assert forall|i: int, k: int, i2: int, k2: int|
        edge_at(s2, i, k, #[trigger] s2[i].children[k]) && edge_at(
            s2,
            i2,
            k2,
            #[trigger] s2[i2].children[k2],
        ) && s2[i].children[k] == s2[i2].children[k2] implies i == i2 && k == k2 by {
        let c = s2[i].children[k];
        let new_edge1 = i == p && k == s[p].children.len();
        let new_edge2 = i2 == p && k2 == s[p].children.len();
        if new_edge1 && new_edge2 {
        } else if new_edge1 {
            assert(c == id);
            assert(edge_at(s, i2, k2, c));
            assert(child_ok(s, i2, k2));
            let j = choose|j: int| i2 < j < s.len() && s[j].id == s[i2].children[k2];
            assert(s[j].id == id && s[j].id < next_id);
            assert(false);
        } else if new_edge2 {
            assert(c == id);
            assert(edge_at(s, i, k, c));
            assert(child_ok(s, i, k));
            let j = choose|j: int| i < j < s.len() && s[j].id == s[i].children[k];
            assert(s[j].id == id && s[j].id < next_id);
            assert(false);
        } else {
            assert(edge_at(s, i, k, c) && edge_at(s, i2, k2, c));
        }
    }
    assert forall|j: int| 1 <= j < s2.len() implies is_child_anywhere(s2, #[trigger] s2[j].id) by {
        if j < n {
            assert(is_child_anywhere(s, s[j].id));
            let (i, k) = choose|i: int, k: int| edge_at(s, i, k, s[j].id);
            assert(edge_at(s2, i, k, s[j].id));
        } else {
            assert(edge_at(s2, p, s[p].children.len() as int, id));
        }
    }
    assert(ids_below(s2, (next_id + 1) as NodeId));
}

/// Ids are never reused: every stored id lies strictly below the
/// allocator, removal keeps the allocator, and a fresh node always
/// takes the allocator's current value — so an id added after any
/// removal exceeds every id the tree ever issued.
pub proof fn lemma_ids_never_reused(t: AstTree, id: NodeId)
    requires
        t.wf(),
        has_id(t@, id),
    ensures
        id < t.spec_next_id(),
{
    let i = choose|i: int| 0 <= i < t@.len() && t@[i].id == id;
    assert(t@[i].id < t.spec_next_id());
}

impl Default for AstTree {
    /// A tree holding just the root node, as [`AstTree::new`] builds.
    fn default() -> (r: Self)
        ensures
            r.wf(),
            r@.len() == 1,
            r.spec_next_id() == 1,
    {
        Self::new()
    }
}

// ── Subtree membership ────────────────────────────────────────────────

/// Position `q` lies in the subtree rooted at position `p` (reflexive).
///
/// Well-behaved only on sequences where children point strictly forward;
/// the explicit `p < cp` guard keeps the recursion well-founded on any
/// input.
pub open spec fn descends(s: Seq<NodeView>, q: int, p: int) -> bool
    decreases q - p,
{
    q == p || exists|k: int|
        0 <= k < s[p].children.len() && p < idx_of(s, #[trigger] s[p].children[k]) <= q
            && descends(s, q, idx_of(s, s[p].children[k]))
}

/// `id` lies in the subtree rooted at the node carrying `anc`.
pub open spec fn in_subtree(s: Seq<NodeView>, anc: NodeId, id: NodeId) -> bool {
    has_id(s, anc) && has_id(s, id) && descends(s, idx_of(s, id), idx_of(s, anc))
}

/// Subtree members never precede the subtree root.
proof fn lemma_descends_ge(s: Seq<NodeView>, q: int, p: int)
    requires
        descends(s, q, p),
    ensures
        q >= p,
    decreases q - p,
{
}

/// A child of a subtree member is a subtree member.
proof fn lemma_descends_step(s: Seq<NodeView>, q: int, p: int, k: int)
    requires
        ids_distinct(s),
        children_ordered(s),
        0 <= p <= q < s.len(),
        descends(s, q, p),
        0 <= k < s[q].children.len(),
    ensures
        descends(s, idx_of(s, s[q].children[k]), p),
    decreases q - p,
{
    assert(child_ok(s, q, k));
    let j = choose|j: int| q < j < s.len() && s[j].id == s[q].children[k];
    lemma_idx_of_unique(s, j, s[q].children[k]);
    let cq = idx_of(s, s[q].children[k]);
    assert(q < cq < s.len());
    if q == p {
        assert(p < cq <= cq && descends(s, cq, cq));
        assert(descends(s, cq, p));
    } else {
        let k0 = choose|k0: int|
            0 <= k0 < s[p].children.len() && p < idx_of(s, #[trigger] s[p].children[k0]) <= q
                && descends(s, q, idx_of(s, s[p].children[k0]));
        let cp = idx_of(s, s[p].children[k0]);
        lemma_descends_step(s, q, cp, k);
        assert(p < cp <= cq);
        assert(descends(s, cq, p));
    }
}

/// Subtree membership is transitive.
proof fn lemma_descends_trans(s: Seq<NodeView>, a: int, b: int, c: int)
    requires
        ids_distinct(s),
        children_ordered(s),
        0 <= c <= b <= a < s.len(),
        descends(s, a, b),
        descends(s, b, c),
    ensures
        descends(s, a, c),
    decreases a - b,
{
    if a == b {
    } else {
        let k = choose|k: int|
            0 <= k < s[b].children.len() && b < idx_of(s, #[trigger] s[b].children[k]) <= a
                && descends(s, a, idx_of(s, s[b].children[k]));
        let cb = idx_of(s, s[b].children[k]);
        lemma_descends_step(s, b, c, k);
        lemma_descends_trans(s, a, cb, c);
    }
}

/// A proper subtree member's parent edge starts inside the subtree.
proof fn lemma_descends_parent(s: Seq<NodeView>, q: int, p: int, i: int, k: int)
    requires
        ids_distinct(s),
        children_ordered(s),
        edges_unique(s),
        0 <= p <= q < s.len(),
        descends(s, q, p),
        q != p,
        edge_at(s, i, k, s[q].id),
    ensures
        descends(s, i, p),
    decreases q - p,
{
    let k0 = choose|k0: int|
        0 <= k0 < s[p].children.len() && p < idx_of(s, #[trigger] s[p].children[k0]) <= q
            && descends(s, q, idx_of(s, s[p].children[k0]));
    let cp = idx_of(s, s[p].children[k0]);
    assert(child_ok(s, p, k0));
    let j = choose|j: int| p < j < s.len() && s[j].id == s[p].children[k0];
    lemma_idx_of_unique(s, j, s[p].children[k0]);
    assert(cp == j);
    if q == cp {
        assert(edge_at(s, p, k0, s[p].children[k0]));
        assert(s[p].children[k0] == s[q].id);
        assert(edge_at(s, i, k, s[i].children[k]));
        assert(edge_at(s, p, k0, s[p].children[k0]));
        assert(s[i].children[k] == s[p].children[k0]);
        assert(i == p && k == k0);
        assert(descends(s, p, p));
    } else {
        lemma_descends_parent(s, q, cp, i, k);
        assert(descends(s, cp, p)) by {
            assert(p < cp <= cp && descends(s, cp, cp));
        }
        lemma_descends_ge(s, i, cp);
        lemma_descends_trans(s, i, cp, p);
    }
}

/// Any marking that contains the subtree root and is closed under child
/// edges contains the whole subtree.
proof fn lemma_descends_minimal(s: Seq<NodeView>, m: Seq<bool>, p: int, q: int)
    requires
        ids_distinct(s),
        children_ordered(s),
        m.len() == s.len(),
        0 <= p <= q < s.len(),
        m[p],
        forall|x: int, k: int|
            0 <= x < s.len() && m[x] && 0 <= k < s[x].children.len() ==> m[idx_of(
                s,
                #[trigger] s[x].children[k],
            )],
        descends(s, q, p),
    ensures
        m[q],
    decreases q - p,
{
    if q != p {
        let k = choose|k: int|
            0 <= k < s[p].children.len() && p < idx_of(s, #[trigger] s[p].children[k]) <= q
                && descends(s, q, idx_of(s, s[p].children[k]));
        let cp = idx_of(s, s[p].children[k]);
        assert(m[cp]);
        assert(child_ok(s, p, k));
        let j = choose|j: int| p < j < s.len() && s[j].id == s[p].children[k];
        lemma_idx_of_unique(s, j, s[p].children[k]);
        lemma_descends_minimal(s, m, cp, q);
    }
}

// ── Keeping the unmarked positions of a sequence ──────────────────────

/// The number of `true` entries of `m` in `[from, to)`.
pub open spec fn count_true(m: Seq<bool>, from: int, to: int) -> int
    decreases to - from,
{
    if from >= to {
        0
    } else {
        (if m[from] {
            1int
        } else {
            0int
        }) + count_true(m, from + 1, to)
    }
}

/// The elements of `t` at positions in `[from, len)` whose mask entry is
/// `true`, in order.
pub open spec fn mask_keep(t: Seq<NodeView>, m: Seq<bool>, from: int) -> Seq<NodeView>
    decreases t.len() - from,
{
    if from < 0 || from >= t.len() {
        Seq::empty()
    } else {
        (if m[from] {
            seq![t[from]]
        } else {
            Seq::empty()
        }) + mask_keep(t, m, from + 1)
    }
}

proof fn lemma_count_true_nonneg(m: Seq<bool>, from: int, to: int)
    ensures
        count_true(m, from, to) >= 0,
    decreases to - from,
{
    if from < to {
        lemma_count_true_nonneg(m, from + 1, to);
    }
}

proof fn lemma_count_true_split(m: Seq<bool>, a: int, b: int, c: int)
    requires
        a <= b <= c,
    ensures
        count_true(m, a, c) == count_true(m, a, b) + count_true(m, b, c),
    decreases b - a,
{
    if a < b {
        lemma_count_true_split(m, a + 1, b, c);
    }
}

proof fn lemma_mask_keep_len(t: Seq<NodeView>, m: Seq<bool>, from: int)
    requires
        0 <= from <= t.len(),
    ensures
        mask_keep(t, m, from).len() == count_true(m, from, t.len() as int),
    decreases t.len() - from,
{
    if from < t.len() {
        lemma_mask_keep_len(t, m, from + 1);
    }
}

/// A kept element of `t` lands in the result at the index given by the
/// count of kept positions before it.
proof fn lemma_mask_keep_index(t: Seq<NodeView>, m: Seq<bool>, from: int, q: int)
    requires
        0 <= from <= q < t.len(),
        m[q],
    ensures
        count_true(m, from, q) < mask_keep(t, m, from).len(),
        mask_keep(t, m, from)[count_true(m, from, q)] == t[q],
    decreases q - from,
{
    lemma_count_true_nonneg(m, from, q);
    lemma_mask_keep_len(t, m, from);
    lemma_count_true_split(m, from, q, t.len() as int);
    assert(count_true(m, q, t.len() as int) >= 1) by {
        lemma_count_true_split(m, q, q + 1, t.len() as int);
        lemma_count_true_nonneg(m, q + 1, t.len() as int);
    }
    if from < q {
        lemma_mask_keep_index(t, m, from + 1, q);
        lemma_count_true_nonneg(m, from + 1, q);
        let rest = mask_keep(t, m, from + 1);
        let r2 = count_true(m, from + 1, q);
        if m[from] {
            assert(mask_keep(t, m, from) == seq![t[from]] + rest);
            assert(count_true(m, from, q) == 1 + r2);
            assert((seq![t[from]] + rest)[1 + r2] == rest[r2]);
        } else {
            assert(mask_keep(t, m, from) == Seq::<NodeView>::empty() + rest);
            assert(Seq::<NodeView>::empty() + rest =~= rest);
        }
    } else {
        let rest = mask_keep(t, m, from + 1);
        assert((seq![t[from]] + rest)[0] == t[from]);
    }
}

/// Every result index comes from a kept position of `t`.
proof fn lemma_mask_keep_origin(t: Seq<NodeView>, m: Seq<bool>, from: int, r: int)
    requires
        0 <= from <= t.len(),
        0 <= r < mask_keep(t, m, from).len(),
    ensures
        exists|q: int|
            from <= q < t.len() && m[q] && #[trigger] count_true(m, from, q) == r && t[q]
                == mask_keep(t, m, from)[r],
    decreases t.len() - from,
{
    if from < t.len() {
        if m[from] && r == 0 {
            assert(count_true(m, from, from) == 0 && t[from] == mask_keep(t, m, from)[0]);
        } else {
            let r2 = if m[from] {
                r - 1
            } else {
                r
            };
            lemma_mask_keep_origin(t, m, from + 1, r2);
            let q = choose|q: int|
                from + 1 <= q < t.len() && m[q] && #[trigger] count_true(m, from + 1, q) == r2
                    && t[q] == mask_keep(t, m, from + 1)[r2];
            assert(count_true(m, from, q) == r) by {
                lemma_count_true_split(m, from, from + 1, q);
            }
            assert(t[q] == mask_keep(t, m, from)[r]);
        }
    }
}

// ── Subtree removal ───────────────────────────────────────────────────

/// Every child of a marked node among the first `upto` nodes is itself
/// marked (positions measured in `s`, marks in `m`).
pub open spec fn marks_closed_upto(s: Seq<NodeView>, m: Seq<bool>, upto: int) -> bool {
    forall|x: int, k0: int|
        0 <= x < upto && m[x] && 0 <= k0 < s[x].children.len() ==> {
            let ci = idx_of(s, #[trigger] s[x].children[k0]);
            0 <= ci < m.len() && m[ci]
        }
}

/// The position/slot pair of the unique child edge pointing at `id`.
pub open spec fn parent_edge(s: Seq<NodeView>, id: NodeId) -> (int, int) {
    choose|i: int, k: int| edge_at(s, i, k, id)
}

/// `s` with the unique child edge pointing at `id` removed; unchanged if
/// no such edge exists.
pub open spec fn detach_view(s: Seq<NodeView>, id: NodeId) -> Seq<NodeView> {
    if is_child_anywhere(s, id) {
        let (i, k) = parent_edge(s, id);
        s.update(i, NodeView { children: s[i].children.remove(k), ..s[i] })
    } else {
        s
    }
}

/// The keep-mask of subtree removal: a position survives iff it is not
/// in the subtree rooted at `rpos`.
pub open spec fn keep_mask(s: Seq<NodeView>, rpos: int) -> Seq<bool> {
    Seq::new(s.len(), |q: int| !descends(s, q, rpos))
}

/// The stored sequence after removing the subtree rooted at `id`: the
/// node is detached from its parent's child list and the whole rooted
/// subtree is dropped. The root and unknown ids leave the tree as it is.
pub open spec fn remove_subtree_view(s: Seq<NodeView>, id: NodeId) -> Seq<NodeView> {
    if id == 0 || !has_id(s, id) {
        s
    } else {
        mask_keep(detach_view(s, id), keep_mask(s, idx_of(s, id)), 0)
    }
}

/// Removing a rooted subtree preserves every tree invariant, keeps
/// exactly the ids outside the subtree, and leaves the surviving nodes'
/// data unchanged apart from the detached child entry.
proof fn lemma_remove_subtree_wf(s: Seq<NodeView>, id: NodeId, next_id: NodeId)
    requires
        wf_seq(s, next_id),
        has_id(s, id),
        id != 0,
    ensures
        wf_seq(remove_subtree_view(s, id), next_id),
        forall|x: NodeId|
            has_id(remove_subtree_view(s, id), x) <==> (has_id(s, x) && !in_subtree(s, id, x)),
        forall|x: NodeId|
            has_id(remove_subtree_view(s, id), x) ==> node_of(remove_subtree_view(s, id), x)
                == (if x == s[parent_edge(s, id).0].id {
                detach_view(s, id)[parent_edge(s, id).0]
            } else {
                node_of(s, x)
            }),
{
    let rpos = idx_of(s, id);
    assert(0 <= rpos < s.len() && s[rpos].id == id);
    assert(rpos != 0) by {
        assert(s[0].id == 0);
    }
    assert(is_child_anywhere(s, s[rpos].id));
    let (pi, pk) = parent_edge(s, id);
    assert(edge_at(s, pi, pk, id));
    let d = detach_view(s, id);
    let m = keep_mask(s, rpos);
    let res = remove_subtree_view(s, id);
    assert(res == mask_keep(d, m, 0));
    assert(d.len() == s.len());
    assert(m.len() == s.len());
    let n = s.len() as int;

    // the detached parent keeps its identity and loses exactly slot pk
    assert(forall|q: int| 0 <= q < n && q != pi ==> d[q] == s[q]);
    assert(d[pi].id == s[pi].id && d[pi].kind == s[pi].kind && d[pi].label == s[pi].label);
    assert(d[pi].children == s[pi].children.remove(pk));
    s[pi].children.remove_ensures(pk);
    assert(d[pi].children.len() == s[pi].children.len() - 1);

    // every edge of d maps back to an edge of s with the same target,
    // and that target is never `id`
    assert forall|q: int, k: int| 0 <= q < n && 0 <= k < d[q].children.len() implies exists|
        k2: int,
    |
        edge_at(s, q, k2, #[trigger] d[q].children[k]) && !(q == pi && k2 == pk) by {
        if q == pi {
            if k < pk {
                assert(d[q].children[k] == s[q].children[k]);
                assert(edge_at(s, q, k, d[q].children[k]) && !(q == pi && k == pk));
            } else {
                assert(d[q].children[k] == s[q].children[k + 1]);
                assert(edge_at(s, q, k + 1, d[q].children[k]) && !(q == pi && k + 1 == pk));
            }
        } else {
            assert(edge_at(s, q, k, d[q].children[k]));
            assert(!(q == pi && k == pk));
        }
    }
    assert forall|q: int, k: int| 0 <= q < n && 0 <= k < d[q].children.len() implies #[trigger] d[q].children[k] != id by {
        let k2 = choose|k2: int| edge_at(s, q, k2, d[q].children[k]) && !(q == pi && k2 == pk);
        if d[q].children[k] == id {
            assert(edge_at(s, q, k2, s[q].children[k2]));
            assert(edge_at(s, pi, pk, s[pi].children[pk]));
            assert(s[q].children[k2] == s[pi].children[pk]);
            assert(q == pi && k2 == pk);
        }
    }

    // position 0 survives
    assert(m[0]) by {
        if descends(s, 0, rpos) {
            lemma_descends_ge(s, 0, rpos);
        }
    }
    lemma_mask_keep_index(d, m, 0, 0);
    assert(count_true(m, 0, 0) == 0);
    assert(res[0] == d[0]);
    lemma_mask_keep_len(d, m, 0);

    // counts are strictly monotone over surviving positions
    assert forall|q1: int, q2: int|
        0 <= q1 < q2 <= n && m[q1] implies #[trigger] count_true(m, 0, q1) < #[trigger] count_true(
        m,
        0,
        q2,
    ) by {
        lemma_count_true_split(m, 0, q1, q2);
        lemma_count_true_split(m, q1, q1 + 1, q2);
        lemma_count_true_nonneg(m, q1 + 1, q2);
    }
    assert forall|q: int| 0 <= q < n && m[q] implies #[trigger] count_true(m, 0, q) < res.len()
        && res[count_true(m, 0, q)] == d[q] by {
        lemma_mask_keep_index(d, m, 0, q);
        lemma_count_true_nonneg(m, 0, q);
    }

    assert(root_ok(res));

    assert forall|r1: int, r2: int| 0 <= r1 < r2 < res.len() implies res[r1].id != res[r2].id by {
        lemma_mask_keep_origin(d, m, 0, r1);
        lemma_mask_keep_origin(d, m, 0, r2);
        let q1 = choose|q: int| 0 <= q < n && m[q] && count_true(m, 0, q) == r1 && res[r1] == d[q];
        let q2 = choose|q: int| 0 <= q < n && m[q] && count_true(m, 0, q) == r2 && res[r2] == d[q];
        assert(q1 != q2);
        if q1 < q2 {
            assert(s[q1].id != s[q2].id);
        } else {
            assert(s[q2].id != s[q1].id);
        }
    }
    assert(ids_distinct(res));

    // a surviving node's children all survive
    assert forall|q: int, k: int|
        0 <= q < n && m[q] && 0 <= k < d[q].children.len() implies {
        let cq = idx_of(s, #[trigger] d[q].children[k]);
        q < cq < n && m[cq] && s[cq].id == d[q].children[k]
    } by {
        let c = d[q].children[k];
        let k2 = choose|k2: int| edge_at(s, q, k2, c) && !(q == pi && k2 == pk);
        assert(child_ok(s, q, k2));
        let j = choose|j: int| q < j < s.len() && s[j].id == s[q].children[k2];
        lemma_idx_of_unique(s, j, c);
        let cq = idx_of(s, c);
        assert(q < cq < n && s[cq].id == c);
        if descends(s, cq, rpos) {
            assert(cq != rpos) by {
                assert(c != id);
            }
            lemma_descends_parent(s, cq, rpos, q, k2);
            assert(!m[q]);
        }
    }

    assert forall|r: int, k: int|
        0 <= r < res.len() && 0 <= k < res[r].children.len() implies #[trigger] child_ok(
        res,
        r,
        k,
    ) by {
        lemma_mask_keep_origin(d, m, 0, r);
        let q = choose|q: int| 0 <= q < n && m[q] && count_true(m, 0, q) == r && res[r] == d[q];
        let c = res[r].children[k];
        assert(c == d[q].children[k]);
        let cq = idx_of(s, c);
        assert(q < cq < n && m[cq] && s[cq].id == c);
        let rc = count_true(m, 0, cq);
        assert(res[rc] == d[cq] && rc < res.len());
        assert(count_true(m, 0, q) < count_true(m, 0, cq));
        assert(r < rc < res.len() && res[rc].id == c);
    }
    assert(children_ordered(res));

    // slot maps back injectively, giving unique edges
    assert forall|r1: int, k1: int, r2: int, k2: int|
        edge_at(res, r1, k1, #[trigger] res[r1].children[k1]) && edge_at(
            res,
            r2,
            k2,
            #[trigger] res[r2].children[k2],
        ) && res[r1].children[k1] == res[r2].children[k2] implies r1 == r2 && k1 == k2 by {
        lemma_mask_keep_origin(d, m, 0, r1);
        lemma_mask_keep_origin(d, m, 0, r2);
        let q1 = choose|q: int| 0 <= q < n && m[q] && count_true(m, 0, q) == r1 && res[r1] == d[q];
        let q2 = choose|q: int| 0 <= q < n && m[q] && count_true(m, 0, q) == r2 && res[r2] == d[q];
        let c = res[r1].children[k1];
        let s1 = choose|k: int| edge_at(s, q1, k, c) && !(q1 == pi && k == pk);
        let s2 = choose|k: int| edge_at(s, q2, k, c) && !(q2 == pi && k == pk);
        assert(edge_at(s, q1, s1, s[q1].children[s1]));
        assert(edge_at(s, q2, s2, s[q2].children[s2]));
        assert(s[q1].children[s1] == s[q2].children[s2]);
        assert(q1 == q2 && s1 == s2);
        assert(r1 == r2);
        if q1 == pi {
            if k1 < pk && k2 < pk {
                assert(s1 == k1 && s2 == k2);
            } else if k1 >= pk && k2 >= pk {
                assert(s1 == k1 + 1 && s2 == k2 + 1);
            } else {
                assert(s1 == if k1 < pk { k1 } else { k1 + 1 });
                assert(s2 == if k2 < pk { k2 } else { k2 + 1 });
            }
            assert(k1 == k2);
        } else {
            assert(s1 == k1 && s2 == k2);
            assert(k1 == k2);
        }
    }
    assert(edges_unique(res));

    assert forall|r: int| 1 <= r < res.len() implies is_child_anywhere(
        res,
        #[trigger] res[r].id,
    ) by {
        lemma_mask_keep_origin(d, m, 0, r);
        let q = choose|q: int| 0 <= q < n && m[q] && count_true(m, 0, q) == r && res[r] == d[q];
        assert(q != 0) by {
            if q == 0 {
                assert(count_true(m, 0, 0) == 0);
            }
        }
        let x = s[q].id;
        assert(res[r].id == x);
        assert(is_child_anywhere(s, x));
        let (i, k0) = choose|i: int, k0: int| edge_at(s, i, k0, x);
        assert(edge_at(s, i, k0, s[i].children[k0]));
        assert(x != id) by {
            if x == id {
                lemma_idx_of_unique(s, q, x);
                assert(q == rpos);
                assert(descends(s, rpos, rpos));
                assert(!m[q]);
            }
        }
        assert(!(i == pi && k0 == pk)) by {
            assert(edge_at(s, pi, pk, s[pi].children[pk]));
            if i == pi && k0 == pk {
                assert(x == id);
            }
        }
        assert(m[i]) by {
            if descends(s, i, rpos) {
                lemma_descends_ge(s, i, rpos);
                lemma_descends_step(s, i, rpos, k0);
                assert(child_ok(s, i, k0));
                let j = choose|j: int| i < j < s.len() && s[j].id == s[i].children[k0];
                lemma_idx_of_unique(s, j, x);
                lemma_idx_of_unique(s, q, x);
                assert(descends(s, q, rpos));
                assert(!m[q]);
            }
        }
        let ri = count_true(m, 0, i);
        assert(res[ri] == d[i] && ri < res.len());
        if i == pi {
            let slot = if k0 < pk {
                k0
            } else {
                k0 - 1
            };
            assert(d[i].children[slot] == s[i].children[k0]);
            assert(edge_at(res, ri, slot, x));
        } else {
            assert(d[i].children[k0] == s[i].children[k0]);
            assert(edge_at(res, ri, k0, x));
        }
    }
    assert(nonroot_is_child(res));

    assert forall|r: int| 0 <= r < res.len() implies (#[trigger] res[r].id) < next_id by {
        lemma_mask_keep_origin(d, m, 0, r);
        let q = choose|q: int| 0 <= q < n && m[q] && count_true(m, 0, q) == r && res[r] == d[q];
        assert(s[q].id < next_id);
    }
    assert(ids_below(res, next_id));

    // membership: exactly the ids outside the subtree survive
    assert forall|x: NodeId| has_id(res, x) implies (has_id(s, x) && !in_subtree(s, id, x)) by {
        let r = choose|r: int| 0 <= r < res.len() && res[r].id == x;
        lemma_mask_keep_origin(d, m, 0, r);
        let q = choose|q: int| 0 <= q < n && m[q] && count_true(m, 0, q) == r && res[r] == d[q];
        assert(s[q].id == x);
        assert(has_id(s, x));
        lemma_idx_of_unique(s, q, x);
        assert(!descends(s, q, rpos));
    }
    assert forall|x: NodeId| has_id(s, x) && !in_subtree(s, id, x) implies has_id(res, x) by {
        let qx = idx_of(s, x);
        assert(0 <= qx < n && s[qx].id == x);
        assert(m[qx]);
        let rx = count_true(m, 0, qx);
        assert(res[rx] == d[qx] && rx < res.len());
        assert(res[rx].id == x);
    }

    // surviving nodes keep their data; only the detached parent changes
    assert forall|x: NodeId| has_id(res, x) implies node_of(res, x) == (if x == s[pi].id {
        d[pi]
    } else {
        node_of(s, x)
    }) by {
        let qx = idx_of(s, x);
        assert(has_id(s, x) && !in_subtree(s, id, x));
        assert(0 <= qx < n && s[qx].id == x);
        assert(m[qx]);
        let rx = count_true(m, 0, qx);
        assert(res[rx] == d[qx] && rx < res.len());
        assert(res[rx].id == x);
        lemma_idx_of_unique(res, rx, x);
        assert(node_of(res, x) == d[qx]);
        if x == s[pi].id {
            lemma_idx_of_unique(s, pi, x);
            assert(qx == pi);
        } else {
            assert(qx != pi);
            assert(node_of(s, x) == s[qx]);
        }
    }
}

// ── Subtree Merkle hash ───────────────────────────────────────────────

/// The FNV-1a offset basis.
pub open spec fn fnv_offset() -> u64 {
    0xcbf29ce484222325
}

/// One FNV-1a step: xor the byte in, multiply by the prime (wrapping).
pub open spec fn fnv_step(h: u64, b: u64) -> u64 {
    (((h ^ b) as nat * 0x100000001b3) % 0x10000000000000000) as u64
}

/// FNV-1a folded over a byte sequence.
pub open spec fn fnv_bytes(bytes: Seq<u8>, h: u64) -> u64
    decreases bytes.len(),
{
    if bytes.len() <= 0 {
        h
    } else {
        fnv_bytes(bytes.skip(1), fnv_step(h, bytes[0] as u64))
    }
}

/// The hash contribution of the subtree at position `p`, folded onto
/// `h`: the kind byte, the label bytes, then each child subtree in
/// order.
pub open spec fn spec_hash_node(s: Seq<NodeView>, p: int, h: u64) -> u64
    decreases s.len() - p, s[p].children.len() + 1,
{
    if 0 <= p < s.len() {
        let h1 = fnv_step(h, kind_byte(s[p].kind) as u64);
        let h2 = fnv_bytes(vstd::utf8::encode_utf8(s[p].label), h1);
        spec_hash_kids(s, p, 0, h2)
    } else {
        h
    }
}

/// The hash contributions of the children of `p` from slot `k` on.
pub open spec fn spec_hash_kids(s: Seq<NodeView>, p: int, k: int, h: u64) -> u64
    decreases s.len() - p, s[p].children.len() - k,
{
    if 0 <= p < s.len() && 0 <= k < s[p].children.len() {
        let cp = idx_of(s, s[p].children[k]);
        if p < cp < s.len() {
            spec_hash_kids(s, p, k + 1, spec_hash_node(s, cp, h))
        } else {
            h
        }
    } else {
        h
    }
}

/// The Merkle hash of the subtree rooted at `id`: the FNV-1a offset
/// basis folded over kind bytes and label bytes in depth-first order.
/// Node values and ids contribute nothing.
pub open spec fn spec_subtree_hash(s: Seq<NodeView>, id: NodeId) -> u64 {
    if has_id(s, id) {
        spec_hash_node(s, idx_of(s, id), fnv_offset())
    } else {
        fnv_offset()
    }
}

impl AstTree {
    /// Compute the Merkle hash of a subtree (FNV-1a over the kind+label
    /// topology; values do not contribute).
    pub fn subtree_hash(&self, id: NodeId) -> (r: u64)
        requires
            self.wf(),
        ensures
            r == spec_subtree_hash(self@, id),
    {
        match self.find_index(id) {
            Some(p) => {
                proof {
                    lemma_idx_of_unique(self@, p as int, id);
                }
                self.hash_node_at(p, 0xcbf29ce484222325)
            },
            None => 0xcbf29ce484222325,
        }
    }

    /// Fold the subtree at position `p` onto the running hash `h`.
    fn hash_node_at(&self, p: usize, h: u64) -> (r: u64)
        requires
            self.wf(),
            p < self@.len(),
        ensures
            r == spec_hash_node(self@, p as int, h),
        decreases self@.len() - p,
    {
        let ghost s = self@;
        let mut acc = (h ^ self.nodes[p].kind.to_u8() as u64).wrapping_mul(0x100000001b3);
        proof {
            assert(acc == fnv_step(h, kind_byte(s[p as int].kind) as u64));
        }
        let ghost h1 = acc;
        let bytes = self.nodes[p].label.as_str().as_bytes();
        proof {
            assert(bytes@ == vstd::utf8::encode_utf8(s[p as int].label));
        }
        let bn = bytes.len();
        let mut bi: usize = 0;
        proof {
            assert(bytes@.skip(0) =~= bytes@);
        }
        while bi < bn
            invariant
                bi <= bn,
                bn == bytes@.len(),
                fnv_bytes(bytes@, h1) == fnv_bytes(bytes@.skip(bi as int), acc),
            decreases bn - bi,
        {
            let ghost pre = acc;
            acc = (acc ^ bytes[bi] as u64).wrapping_mul(0x100000001b3);
            proof {
                let rest = bytes@.skip(bi as int);
                assert(rest.len() > 0);
                assert(rest[0] == bytes@[bi as int]);
                assert(rest.skip(1) =~= bytes@.skip(bi as int + 1));
                assert(acc == fnv_step(pre, rest[0] as u64));
                assert(fnv_bytes(rest, pre) == fnv_bytes(bytes@.skip(bi as int + 1), acc));
            }
            bi += 1;
        }
        proof {
            assert(bytes@.skip(bn as int) =~= Seq::<u8>::empty());
            assert(fnv_bytes(bytes@.skip(bn as int), acc) == acc);
            assert(acc == fnv_bytes(vstd::utf8::encode_utf8(s[p as int].label), h1));
        }
        let ghost h2 = acc;
        let cn = self.nodes[p].children.len();
        let mut k: usize = 0;
        while k < cn
            invariant
                self.wf(),
                s == self@,
                k <= cn,
                p < s.len(),
                cn == s[p as int].children.len(),
                spec_hash_kids(s, p as int, 0, h2) == spec_hash_kids(s, p as int, k as int, acc),
            decreases cn - k,
        {
            let c = self.nodes[p].children[k];
            proof {
                assert(child_ok(s, p as int, k as int));
                let j = choose|j: int| p < j < s.len() && s[j].id == s[p as int].children[k as int];
                lemma_idx_of_unique(s, j, c);
            }
            let cpos = match self.find_index(c) {
                Some(i) => i,
                None => {
                    proof {
                        assert(false);
                    }
                    0
                },
            };
            proof {
                lemma_idx_of_unique(s, cpos as int, c);
            }
            acc = self.hash_node_at(cpos, acc);
            k += 1;
        }
        proof {
            assert(spec_hash_kids(s, p as int, cn as int, acc) == acc);
            assert(spec_hash_node(s, p as int, h) == spec_hash_kids(s, p as int, 0, h2));
        }
        acc
    }
}

/// Two stored sequences with the same kind+label topology: equal ids,
/// kinds, labels and child lists everywhere — node values free.
pub open spec fn same_topology(s1: Seq<NodeView>, s2: Seq<NodeView>) -> bool {
    &&& s1.len() == s2.len()
    &&& forall|i: int|
        0 <= i < s1.len() ==> (#[trigger] s1[i]).id == s2[i].id && s1[i].kind == s2[i].kind
            && s1[i].label == s2[i].label && s1[i].children == s2[i].children
}

proof fn lemma_hash_node_value_indep(s1: Seq<NodeView>, s2: Seq<NodeView>, p: int, h: u64)
    requires
        ids_distinct(s1),
        children_ordered(s1),
        same_topology(s1, s2),
        0 <= p < s1.len(),
    ensures
        spec_hash_node(s1, p, h) == spec_hash_node(s2, p, h),
    decreases s1.len() - p, s1[p].children.len() + 1,
{
    let h1 = fnv_step(h, kind_byte(s1[p].kind) as u64);
    let h2 = fnv_bytes(vstd::utf8::encode_utf8(s1[p].label), h1);
    lemma_hash_kids_value_indep(s1, s2, p, 0, h2);
}

proof fn lemma_hash_kids_value_indep(
    s1: Seq<NodeView>,
    s2: Seq<NodeView>,
    p: int,
    k: int,
    h: u64,
)
    requires
        ids_distinct(s1),
        children_ordered(s1),
        same_topology(s1, s2),
        0 <= p < s1.len(),
        0 <= k,
    ensures
        spec_hash_kids(s1, p, k, h) == spec_hash_kids(s2, p, k, h),
    decreases s1.len() - p, s1[p].children.len() - k,
{
    assert forall|i: int, j: int| 0 <= i < j < s2.len() implies s2[i].id != s2[j].id by {
        assert(s1[i].id != s1[j].id);
        assert(s2[i].id == s1[i].id && s2[j].id == s1[j].id);
    }
    if k < s1[p].children.len() {
        let c = s1[p].children[k];
        assert(s2[p].children[k] == c);
        assert(child_ok(s1, p, k));
        let j = choose|j: int| p < j < s1.len() && s1[j].id == s1[p].children[k];
        lemma_idx_of_unique(s1, j, c);
        assert(s2[j].id == c);
        lemma_idx_of_unique(s2, j, c);
        assert(idx_of(s1, c) == j && idx_of(s2, c) == j);
        lemma_hash_node_value_indep(s1, s2, j, h);
        lemma_hash_kids_value_indep(s1, s2, p, k + 1, spec_hash_node(s1, j, h));
    }
}

/// The subtree hash depends only on the kind+label topology: replacing
/// any node values leaves every subtree hash unchanged.
pub proof fn lemma_subtree_hash_value_independent(
    s1: Seq<NodeView>,
    s2: Seq<NodeView>,
    id: NodeId,
)
    requires
        ids_distinct(s1),
        children_ordered(s1),
        same_topology(s1, s2),
    ensures
        spec_subtree_hash(s1, id) == spec_subtree_hash(s2, id),
{
    assert forall|i: int, j: int| 0 <= i < j < s2.len() implies s2[i].id != s2[j].id by {
        assert(s1[i].id != s1[j].id);
        assert(s2[i].id == s1[i].id && s2[j].id == s1[j].id);
    }
    if has_id(s1, id) {
        let j = idx_of(s1, id);
        assert(0 <= j < s1.len() && s1[j].id == id);
        assert(s2[j].id == id);
        lemma_idx_of_unique(s2, j, id);
        lemma_idx_of_unique(s1, j, id);
        assert(has_id(s2, id));
        lemma_hash_node_value_indep(s1, s2, j, fnv_offset());
    } else {
        if has_id(s2, id) {
            let j = idx_of(s2, id);
            assert(s1[j].id == id);
        }
    }
}

/// The subtree hash is a pure function of the stored node sequence:
/// trees built by the same sequence of mutations hash identically,
/// because every mutation pins the resulting sequence exactly.
pub proof fn lemma_subtree_hash_deterministic(t1: AstTree, t2: AstTree, id: NodeId)
    requires
        t1@ == t2@,
    ensures
        spec_subtree_hash(t1@, id) == spec_subtree_hash(t2@, id),
{
}


// ── Moving a subtree ──────────────────────────────────────────────────

/// The mask of positions inside the subtree rooted at position `rpos`.
pub open spec fn sub_mask(s: Seq<NodeView>, rpos: int) -> Seq<bool> {
    Seq::new(s.len(), |q: int| descends(s, q, rpos))
}

/// Whether a move of `id` under `new_parent_id` is performed: both
/// exist, the node is not the root, and the destination does not lie
/// inside the moved subtree (a move under a descendant would create a
/// cycle).
pub open spec fn can_move(s: Seq<NodeView>, id: NodeId, new_parent_id: NodeId) -> bool {
    &&& id != 0
    &&& id != new_parent_id
    &&& has_id(s, id)
    &&& has_id(s, new_parent_id)
    &&& !in_subtree(s, id, new_parent_id)
}

/// The stored sequence after detaching `id` from its parent's child
/// list and relocating the whole subtree rooted at `id` behind the
/// remaining nodes, both parts keeping their relative storage order.
/// The relocation re-establishes parent-before-child storage order for
/// any destination outside the moved subtree.
pub open spec fn relocated_view(s: Seq<NodeView>, id: NodeId) -> Seq<NodeView> {
    let d = detach_view(s, id);
    let rpos = idx_of(s, id);
    mask_keep(d, keep_mask(s, rpos), 0) + mask_keep(d, sub_mask(s, rpos), 0)
}

/// The stored sequence after moving `id` under `new_parent_id`: the old
/// parent edge is removed, the moved subtree is relocated behind every
/// remaining node, and the id is appended to the new parent's child
/// list.
pub open spec fn move_view(s: Seq<NodeView>, id: NodeId, new_parent_id: NodeId) -> Seq<NodeView> {
    let r0 = relocated_view(s, id);
    let p = idx_of(r0, new_parent_id);
    r0.update(p, NodeView { children: r0[p].children.push(id), ..r0[p] })
}

/// Where position `q` of the detached sequence lands after relocation:
/// kept positions pack to the front, subtree positions to the back.
spec fn reloc_pos(km: Seq<bool>, sm: Seq<bool>, kleft: int, q: int) -> int {
    if km[q] {
        count_true(km, 0, q)
    } else {
        kleft + count_true(sm, 0, q)
    }
}

/// Some detached position lands at relocation index `r`.
spec fn reloc_hits(km: Seq<bool>, sm: Seq<bool>, kleft: int, n: int, r: int) -> bool {
    exists|q: int| 0 <= q < n && #[trigger] reloc_pos(km, sm, kleft, q) == r
}

/// Node `q` holds a child edge to `c` other than the detached slot
/// `(pi, pk)`.
spec fn has_origin(s: Seq<NodeView>, pi: int, pk: int, c: NodeId, q: int) -> bool {
    exists|k2: int| #[trigger] edge_at(s, q, k2, c) && !(q == pi && k2 == pk)
}

/// Complementary masks split every range's count.
proof fn lemma_count_complement(a: Seq<bool>, b: Seq<bool>, from: int, to: int)
    requires
        a.len() == b.len(),
        0 <= from <= to <= a.len(),
        forall|q: int| 0 <= q < a.len() ==> a[q] == !b[q],
    ensures
        count_true(a, from, to) + count_true(b, from, to) == to - from,
    decreases to - from,
{
    if from < to {
        lemma_count_complement(a, b, from + 1, to);
    }
}

/// A range with no marked position counts zero.
proof fn lemma_count_zero(m: Seq<bool>, from: int, to: int)
    requires
        forall|q: int| from <= q < to ==> !m[q],
    ensures
        count_true(m, from, to) == 0,
    decreases to - from,
{
    if from < to {
        lemma_count_zero(m, from + 1, to);
    }
}

/// The shared groundwork of the move proof: the shape of the detached
/// sequence, and the relocation index as a bijection that sends kept
/// positions to the front and subtree positions to the back.
#[verifier::rlimit(100)]
proof fn lemma_move_prelims(
    s: Seq<NodeView>,
    id: NodeId,
    new_parent_id: NodeId,
    next_id: NodeId,
    d: Seq<NodeView>,
    km: Seq<bool>,
    sm: Seq<bool>,
    kleft: int,
    r0: Seq<NodeView>,
    pi: int,
    pk: int,
)
    requires
        wf_seq(s, next_id),
        can_move(s, id, new_parent_id),
        d == detach_view(s, id),
        km == keep_mask(s, idx_of(s, id)),
        sm == sub_mask(s, idx_of(s, id)),
        kleft == mask_keep(d, km, 0).len(),
        r0 == relocated_view(s, id),
        (pi, pk) == parent_edge(s, id),
    ensures
        edge_at(s, pi, pk, id),
        0 <= pi < idx_of(s, id) < s.len(),
        idx_of(s, id) != 0,
        s[idx_of(s, id)].id == id,
        d.len() == s.len(),
        km.len() == s.len(),
        sm.len() == s.len(),
        r0.len() == s.len(),
        0 < kleft <= s.len(),
        forall|q: int| 0 <= q < s.len() ==> km[q] == !sm[q],
        forall|q: int| 0 <= q < s.len() && q != pi ==> #[trigger] d[q] == s[q],
        d[pi].id == s[pi].id && d[pi].kind == s[pi].kind && d[pi].label == s[pi].label,
        d[pi].children == s[pi].children.remove(pk),
        d[pi].children.len() == s[pi].children.len() - 1,
        forall|q: int, k: int|
            0 <= q < s.len() && 0 <= k < d[q].children.len() ==> (#[trigger] d[q].children[k])
                != id,
        forall|q: int, k: int|
            0 <= q < s.len() && 0 <= k < d[q].children.len() ==> has_origin(
                s,
                pi,
                pk,
                #[trigger] d[q].children[k],
                q,
            ),
        forall|q: int|
            0 <= q < s.len() ==> ({
                let r = #[trigger] reloc_pos(km, sm, kleft, q);
                0 <= r < s.len() && r0[r] == d[q] && (km[q] ==> r < kleft) && (!km[q] ==> r
                    >= kleft)
            }),
        forall|q1: int, q2: int|
            0 <= q1 < q2 <= s.len() && km[q1] ==> #[trigger] count_true(km, 0, q1)
                < #[trigger] count_true(km, 0, q2),
        forall|q1: int, q2: int|
            0 <= q1 < q2 <= s.len() && sm[q1] ==> #[trigger] count_true(sm, 0, q1)
                < #[trigger] count_true(sm, 0, q2),
        forall|q1: int, q2: int|
            0 <= q1 < s.len() && 0 <= q2 < s.len() && q1 != q2 ==> #[trigger] reloc_pos(
                km,
                sm,
                kleft,
                q1,
            ) != #[trigger] reloc_pos(km, sm, kleft, q2),
        forall|r: int| 0 <= r < s.len() ==> #[trigger] reloc_hits(km, sm, kleft, s.len() as int, r),
        sm[idx_of(s, id)],
        reloc_pos(km, sm, kleft, idx_of(s, id)) == kleft,
        r0[kleft] == s[idx_of(s, id)],
        km[idx_of(s, new_parent_id)],
        reloc_pos(km, sm, kleft, idx_of(s, new_parent_id)) < kleft,
        r0[reloc_pos(km, sm, kleft, idx_of(s, new_parent_id))] == d[idx_of(s, new_parent_id)],
        d[idx_of(s, new_parent_id)].id == new_parent_id,
        ids_distinct(r0),
        idx_of(r0, new_parent_id) == reloc_pos(km, sm, kleft, idx_of(s, new_parent_id)),
        km[0],
        reloc_pos(km, sm, kleft, 0) == 0,
        r0[0] == d[0],
{
    let rpos = idx_of(s, id);
    let ppos = idx_of(s, new_parent_id);
    assert(0 <= rpos < s.len() && s[rpos].id == id);
    assert(0 <= ppos < s.len() && s[ppos].id == new_parent_id);
    assert(rpos != 0) by {
        assert(s[0].id == 0);
    }
    assert(is_child_anywhere(s, s[rpos].id));
    assert(edge_at(s, pi, pk, id));
    assert(pi < rpos) by {
        assert(child_ok(s, pi, pk));
        let j = choose|j: int| pi < j < s.len() && s[j].id == s[pi].children[pk];
        lemma_idx_of_unique(s, j, id);
    }
    let kept = mask_keep(d, km, 0);
    let sub = mask_keep(d, sm, 0);
    assert(r0 == kept + sub);
    let n = s.len() as int;
    assert(d.len() == n && km.len() == n && sm.len() == n);
    assert(forall|q: int| 0 <= q < n ==> km[q] == !sm[q]);

    // the detached parent keeps its identity and loses exactly slot pk
    assert(forall|q: int| 0 <= q < n && q != pi ==> #[trigger] d[q] == s[q]);
    assert(d[pi].id == s[pi].id && d[pi].kind == s[pi].kind && d[pi].label == s[pi].label);
    assert(d[pi].children == s[pi].children.remove(pk));
    s[pi].children.remove_ensures(pk);
    assert(d[pi].children.len() == s[pi].children.len() - 1);

    // every edge of d maps back to an edge of s with the same target,
    // and that target is never `id`
    assert forall|q: int, k: int|
        0 <= q < n && 0 <= k < d[q].children.len() implies has_origin(
        s,
        pi,
        pk,
        #[trigger] d[q].children[k],
        q,
    ) by {
        if q == pi {
            if k < pk {
                assert(d[q].children[k] == s[q].children[k]);
                assert(edge_at(s, q, k, d[q].children[k]) && !(q == pi && k == pk));
            } else {
                assert(d[q].children[k] == s[q].children[k + 1]);
                assert(edge_at(s, q, k + 1, d[q].children[k]) && !(q == pi && k + 1 == pk));
            }
        } else {
            assert(edge_at(s, q, k, d[q].children[k]));
            assert(!(q == pi && k == pk));
        }
    }
    assert forall|q: int, k: int|
        0 <= q < n && 0 <= k < d[q].children.len() implies #[trigger] d[q].children[k] != id by {
        assert(has_origin(s, pi, pk, d[q].children[k], q));
        let k2 = choose|k2: int| edge_at(s, q, k2, d[q].children[k]) && !(q == pi && k2 == pk);
        if d[q].children[k] == id {
            assert(edge_at(s, q, k2, s[q].children[k2]));
            assert(edge_at(s, pi, pk, s[pi].children[pk]));
            assert(s[q].children[k2] == s[pi].children[pk]);
            assert(q == pi && k2 == pk);
        }
    }

    lemma_mask_keep_len(d, km, 0);
    lemma_mask_keep_len(d, sm, 0);
    lemma_count_complement(km, sm, 0, n);
    assert(r0.len() == n);

    // forward placement: every detached position lands at its
    // relocation index with its node unchanged
    assert forall|q: int| 0 <= q < n implies {
        let r = #[trigger] reloc_pos(km, sm, kleft, q);
        0 <= r < n && r0[r] == d[q] && (km[q] ==> r < kleft) && (!km[q] ==> r >= kleft)
    } by {
        lemma_count_true_nonneg(km, 0, q);
        lemma_count_true_nonneg(sm, 0, q);
        if km[q] {
            lemma_mask_keep_index(d, km, 0, q);
            assert(r0[count_true(km, 0, q)] == kept[count_true(km, 0, q)]);
        } else {
            lemma_mask_keep_index(d, sm, 0, q);
            assert(r0[kleft + count_true(sm, 0, q)] == sub[count_true(sm, 0, q)]);
        }
    }

    // counts are strictly monotone over marked positions, for each mask
    assert forall|q1: int, q2: int|
        0 <= q1 < q2 <= n && km[q1] implies #[trigger] count_true(km, 0, q1)
        < #[trigger] count_true(km, 0, q2) by {
        lemma_count_true_split(km, 0, q1, q2);
        lemma_count_true_split(km, q1, q1 + 1, q2);
        lemma_count_true_nonneg(km, q1 + 1, q2);
    }
    assert forall|q1: int, q2: int|
        0 <= q1 < q2 <= n && sm[q1] implies #[trigger] count_true(sm, 0, q1)
        < #[trigger] count_true(sm, 0, q2) by {
        lemma_count_true_split(sm, 0, q1, q2);
        lemma_count_true_split(sm, q1, q1 + 1, q2);
        lemma_count_true_nonneg(sm, q1 + 1, q2);
    }

    // the relocation index is injective
    assert forall|q1: int, q2: int|
        0 <= q1 < n && 0 <= q2 < n && q1 != q2 implies #[trigger] reloc_pos(km, sm, kleft, q1)
        != #[trigger] reloc_pos(km, sm, kleft, q2) by {
        if km[q1] == km[q2] {
            if q1 < q2 {
            } else {
            }
        }
    }

    // every relocation index is hit: the map is a bijection on [0, n)
    assert forall|r: int| 0 <= r < n implies #[trigger] reloc_hits(km, sm, kleft, n, r) by {
        if r < kleft {
            lemma_mask_keep_origin(d, km, 0, r);
            let q = choose|q: int|
                0 <= q < n && km[q] && #[trigger] count_true(km, 0, q) == r && d[q] == kept[r];
            assert(reloc_pos(km, sm, kleft, q) == r);
        } else {
            lemma_mask_keep_origin(d, sm, 0, r - kleft);
            let q = choose|q: int|
                0 <= q < n && sm[q] && #[trigger] count_true(sm, 0, q) == r - kleft && d[q]
                    == sub[r - kleft];
            assert(!km[q]);
            assert(reloc_pos(km, sm, kleft, q) == r);
        }
    }

    // the moved node itself lands exactly at the split point
    assert(sm[rpos]) by {
        assert(descends(s, rpos, rpos));
    }
    assert(count_true(sm, 0, rpos) == 0) by {
        assert forall|x: int| 0 <= x < rpos implies !sm[x] by {
            if descends(s, x, rpos) {
                lemma_descends_ge(s, x, rpos);
            }
        }
        lemma_count_zero(sm, 0, rpos);
    }
    assert(reloc_pos(km, sm, kleft, rpos) == kleft);
    assert(r0[kleft] == d[rpos] && d[rpos] == s[rpos]);

    // the destination stays in the kept part
    assert(km[ppos]) by {
        assert(!in_subtree(s, id, new_parent_id));
        assert(!descends(s, ppos, rpos));
    }
    let p0 = reloc_pos(km, sm, kleft, ppos);
    assert(p0 < kleft && r0[p0] == d[ppos]);
    assert(d[ppos].id == new_parent_id);

    // the root stays in place
    assert(km[0]) by {
        if descends(s, 0, rpos) {
            lemma_descends_ge(s, 0, rpos);
        }
    }
    assert(reloc_pos(km, sm, kleft, 0) == 0) by {
        lemma_count_zero(km, 0, 0);
    }
    assert(r0[0] == d[0]);
    assert(0 < kleft);

    // ids stay distinct across the permutation
    assert forall|r1: int, r2: int| 0 <= r1 < r2 < n implies r0[r1].id != r0[r2].id by {
        assert(reloc_hits(km, sm, kleft, n, r1));
        assert(reloc_hits(km, sm, kleft, n, r2));
        let q1 = choose|q: int| 0 <= q < n && #[trigger] reloc_pos(km, sm, kleft, q) == r1;
        let q2 = choose|q: int| 0 <= q < n && #[trigger] reloc_pos(km, sm, kleft, q) == r2;
        assert(r0[r1] == d[q1] && r0[r2] == d[q2]);
        assert(q1 != q2);
        if q1 < q2 {
            assert(s[q1].id != s[q2].id);
        } else {
            assert(s[q2].id != s[q1].id);
        }
    }
    assert(ids_distinct(r0));
    lemma_idx_of_unique(r0, p0, new_parent_id);
}

/// After a permitted move every child edge still points forward in
/// storage, the root is in place, and ids stay distinct and bounded.
#[verifier::rlimit(100)]
proof fn lemma_move_ordered(
    s: Seq<NodeView>,
    id: NodeId,
    new_parent_id: NodeId,
    next_id: NodeId,
)
    requires
        wf_seq(s, next_id),
        can_move(s, id, new_parent_id),
    ensures
        root_ok(move_view(s, id, new_parent_id)),
        ids_distinct(move_view(s, id, new_parent_id)),
        ids_below(move_view(s, id, new_parent_id), next_id),
        children_ordered(move_view(s, id, new_parent_id)),
        move_view(s, id, new_parent_id).len() == s.len(),
{
    let rpos = idx_of(s, id);
    let ppos = idx_of(s, new_parent_id);
    let (pi, pk) = parent_edge(s, id);
    let d = detach_view(s, id);
    let km = keep_mask(s, rpos);
    let sm = sub_mask(s, rpos);
    let kleft = mask_keep(d, km, 0).len() as int;
    let r0 = relocated_view(s, id);
    let n = s.len() as int;
    lemma_move_prelims(s, id, new_parent_id, next_id, d, km, sm, kleft, r0, pi, pk);
    let p0 = reloc_pos(km, sm, kleft, ppos);
    let res = move_view(s, id, new_parent_id);
    assert(res == r0.update(p0, NodeView { children: r0[p0].children.push(id), ..r0[p0] }));
    assert(res.len() == n);
    assert(forall|r: int| 0 <= r < n ==> (#[trigger] res[r]).id == r0[r].id);
    assert(forall|r: int| 0 <= r < n && r != p0 ==> #[trigger] res[r] == r0[r]);
    let newk = r0[p0].children.len() as int;
    assert(res[p0].children.len() == newk + 1 && res[p0].children[newk] == id);
    assert(forall|k: int| 0 <= k < newk ==> #[trigger] res[p0].children[k] == r0[p0].children[k]);

    assert(ids_distinct(res));
    assert(root_ok(res));

    assert forall|r: int| 0 <= r < n implies (#[trigger] res[r].id) < next_id by {
        assert(reloc_hits(km, sm, kleft, n, r));
        let q = choose|q: int| 0 <= q < n && #[trigger] reloc_pos(km, sm, kleft, q) == r;
        assert(r0[r] == d[q]);
        assert(s[q].id < next_id);
    }
    assert(ids_below(res, next_id));

    assert forall|r: int, k: int|
        0 <= r < n && 0 <= k < res[r].children.len() implies #[trigger] child_ok(res, r, k) by {
        if r == p0 && k == newk {
            assert(res[kleft].id == id);
            assert(p0 < kleft < n);
        } else {
            assert(reloc_hits(km, sm, kleft, n, r));
            let q = choose|q: int| 0 <= q < n && #[trigger] reloc_pos(km, sm, kleft, q) == r;
            assert(r0[r] == d[q]);
            let c = res[r].children[k];
            assert(c == d[q].children[k]);
            assert(has_origin(s, pi, pk, c, q));
            let k2 = choose|k2: int| edge_at(s, q, k2, c) && !(q == pi && k2 == pk);
            assert(child_ok(s, q, k2));
            let j = choose|j: int| q < j < s.len() && s[j].id == s[q].children[k2];
            lemma_idx_of_unique(s, j, c);
            let cq = idx_of(s, c);
            assert(q < cq < n && s[cq].id == c);
            assert(cq != rpos) by {
                assert(c != id);
            }
            let rc = reloc_pos(km, sm, kleft, cq);
            assert(r0[rc] == d[cq] && res[rc].id == c);
            if km[q] {
                assert(km[cq]) by {
                    if descends(s, cq, rpos) {
                        lemma_descends_parent(s, cq, rpos, q, k2);
                    }
                }
                assert(count_true(km, 0, q) < count_true(km, 0, cq));
            } else {
                assert(descends(s, q, rpos));
                lemma_descends_step(s, q, rpos, k2);
                assert(sm[cq]);
                assert(count_true(sm, 0, q) < count_true(sm, 0, cq));
            }
            assert(r < rc < n);
        }
    }
    assert(children_ordered(res));
}

/// After a permitted move no id occupies two child slots.
#[verifier::rlimit(100)]
proof fn lemma_move_unique(s: Seq<NodeView>, id: NodeId, new_parent_id: NodeId, next_id: NodeId)
    requires
        wf_seq(s, next_id),
        can_move(s, id, new_parent_id),
    ensures
        edges_unique(move_view(s, id, new_parent_id)),
{
    let rpos = idx_of(s, id);
    let ppos = idx_of(s, new_parent_id);
    let (pi, pk) = parent_edge(s, id);
    let d = detach_view(s, id);
    let km = keep_mask(s, rpos);
    let sm = sub_mask(s, rpos);
    let kleft = mask_keep(d, km, 0).len() as int;
    let r0 = relocated_view(s, id);
    let n = s.len() as int;
    lemma_move_prelims(s, id, new_parent_id, next_id, d, km, sm, kleft, r0, pi, pk);
    let p0 = reloc_pos(km, sm, kleft, ppos);
    let res = move_view(s, id, new_parent_id);
    assert(res == r0.update(p0, NodeView { children: r0[p0].children.push(id), ..r0[p0] }));
    let newk = r0[p0].children.len() as int;
    assert(res[p0].children.len() == newk + 1 && res[p0].children[newk] == id);
    assert(forall|k: int| 0 <= k < newk ==> #[trigger] res[p0].children[k] == r0[p0].children[k]);
    assert(forall|r: int| 0 <= r < n && r != p0 ==> #[trigger] res[r] == r0[r]);

    assert forall|r1: int, k1: int, r2: int, k2: int|
        edge_at(res, r1, k1, #[trigger] res[r1].children[k1]) && edge_at(
            res,
            r2,
            k2,
            #[trigger] res[r2].children[k2],
        ) && res[r1].children[k1] == res[r2].children[k2] implies r1 == r2 && k1 == k2 by {
        let c = res[r1].children[k1];
        let fresh1 = r1 == p0 && k1 == newk;
        let fresh2 = r2 == p0 && k2 == newk;
        if fresh1 && fresh2 {
        } else if fresh1 || fresh2 {
            let (ro, ko) = if fresh1 {
                (r2, k2)
            } else {
                (r1, k1)
            };
            assert(reloc_hits(km, sm, kleft, n, ro));
            let q = choose|q: int| 0 <= q < n && #[trigger] reloc_pos(km, sm, kleft, q) == ro;
            assert(r0[ro] == d[q]);
            assert(res[ro].children[ko] == d[q].children[ko]);
            assert(d[q].children[ko] != id);
            assert(c == id);
            assert(false);
        } else {
            assert(reloc_hits(km, sm, kleft, n, r1));
            assert(reloc_hits(km, sm, kleft, n, r2));
            let q1 = choose|q: int| 0 <= q < n && #[trigger] reloc_pos(km, sm, kleft, q) == r1;
            let q2 = choose|q: int| 0 <= q < n && #[trigger] reloc_pos(km, sm, kleft, q) == r2;
            assert(r0[r1] == d[q1] && r0[r2] == d[q2]);
            assert(res[r1].children[k1] == d[q1].children[k1]);
            assert(res[r2].children[k2] == d[q2].children[k2]);
            assert(has_origin(s, pi, pk, c, q1));
            assert(has_origin(s, pi, pk, c, q2));
            let s1 = choose|k: int| edge_at(s, q1, k, c) && !(q1 == pi && k == pk);
            let s2 = choose|k: int| edge_at(s, q2, k, c) && !(q2 == pi && k == pk);
            assert(edge_at(s, q1, s1, s[q1].children[s1]));
            assert(edge_at(s, q2, s2, s[q2].children[s2]));
            assert(s[q1].children[s1] == s[q2].children[s2]);
            assert(q1 == q2 && s1 == s2);
            assert(r1 == r2);
            if q1 == pi {
                if k1 < pk && k2 < pk {
                    assert(s1 == k1 && s2 == k2);
                } else if k1 >= pk && k2 >= pk {
                    assert(s1 == k1 + 1 && s2 == k2 + 1);
                } else {
                    assert(s1 == if k1 < pk {
                        k1
                    } else {
                        k1 + 1
                    });
                    assert(s2 == if k2 < pk {
                        k2
                    } else {
                        k2 + 1
                    });
                }
                assert(k1 == k2);
            } else {
                assert(s1 == k1 && s2 == k2);
                assert(k1 == k2);
            }
        }
    }
}

/// After a permitted move every non-root node is still somebody's
/// child, and exactly the original ids are stored.
#[verifier::rlimit(100)]
proof fn lemma_move_reach(s: Seq<NodeView>, id: NodeId, new_parent_id: NodeId, next_id: NodeId)
    requires
        wf_seq(s, next_id),
        can_move(s, id, new_parent_id),
    ensures
        nonroot_is_child(move_view(s, id, new_parent_id)),
        forall|x: NodeId| has_id(move_view(s, id, new_parent_id), x) <==> has_id(s, x),
{
    let rpos = idx_of(s, id);
    let ppos = idx_of(s, new_parent_id);
    let (pi, pk) = parent_edge(s, id);
    let d = detach_view(s, id);
    let km = keep_mask(s, rpos);
    let sm = sub_mask(s, rpos);
    let kleft = mask_keep(d, km, 0).len() as int;
    let r0 = relocated_view(s, id);
    let n = s.len() as int;
    lemma_move_prelims(s, id, new_parent_id, next_id, d, km, sm, kleft, r0, pi, pk);
    let p0 = reloc_pos(km, sm, kleft, ppos);
    let res = move_view(s, id, new_parent_id);
    assert(res == r0.update(p0, NodeView { children: r0[p0].children.push(id), ..r0[p0] }));
    let newk = r0[p0].children.len() as int;
    assert(res[p0].children.len() == newk + 1 && res[p0].children[newk] == id);
    assert(forall|k: int| 0 <= k < newk ==> #[trigger] res[p0].children[k] == r0[p0].children[k]);
    assert(forall|r: int| 0 <= r < n && r != p0 ==> #[trigger] res[r] == r0[r]);
    assert(forall|r: int| 0 <= r < n ==> (#[trigger] res[r]).id == r0[r].id);

    assert forall|r: int| 1 <= r < n implies is_child_anywhere(res, #[trigger] res[r].id) by {
        assert(reloc_hits(km, sm, kleft, n, r));
        let q = choose|q: int| 0 <= q < n && #[trigger] reloc_pos(km, sm, kleft, q) == r;
        assert(r0[r] == d[q]);
        let x = res[r].id;
        assert(x == s[q].id);
        assert(q != 0) by {
            if q == 0 {
                assert(reloc_pos(km, sm, kleft, 0) == 0);
            }
        }
        if q == rpos {
            assert(res[kleft].id == id);
            assert(x == id);
            assert(edge_at(res, p0, newk, id));
        } else {
            assert(x != id) by {
                if q < rpos {
                    assert(s[q].id != s[rpos].id);
                } else {
                    assert(s[rpos].id != s[q].id);
                }
            }
            assert(is_child_anywhere(s, x));
            let (i, k0) = choose|i: int, k0: int| edge_at(s, i, k0, x);
            assert(edge_at(s, i, k0, s[i].children[k0]));
            assert(!(i == pi && k0 == pk)) by {
                assert(edge_at(s, pi, pk, s[pi].children[pk]));
                if i == pi && k0 == pk {
                    assert(x == id);
                }
            }
            let ri = reloc_pos(km, sm, kleft, i);
            assert(r0[ri] == d[i]);
            let slot = if i == pi && k0 > pk {
                k0 - 1
            } else {
                k0
            };
            assert(d[i].children[slot] == x) by {
                if i == pi {
                    assert(k0 != pk);
                    if k0 < pk {
                        assert(d[i].children[k0] == s[i].children[k0]);
                    } else {
                        assert(d[i].children[k0 - 1] == s[i].children[k0]);
                    }
                } else {
                    assert(d[i].children[k0] == s[i].children[k0]);
                }
            }
            assert(0 <= slot < d[i].children.len());
            if ri == p0 {
                assert(res[ri].children[slot] == r0[ri].children[slot]);
                assert(edge_at(res, ri, slot, x));
            } else {
                assert(res[ri] == r0[ri]);
                assert(edge_at(res, ri, slot, x));
            }
        }
    }

    assert forall|x: NodeId| has_id(res, x) implies has_id(s, x) by {
        let r = choose|r: int| 0 <= r < res.len() && res[r].id == x;
        assert(reloc_hits(km, sm, kleft, n, r));
        let q = choose|q: int| 0 <= q < n && #[trigger] reloc_pos(km, sm, kleft, q) == r;
        assert(r0[r] == d[q]);
        assert(s[q].id == x);
    }
    assert forall|x: NodeId| has_id(s, x) implies has_id(res, x) by {
        let qx = choose|q: int| 0 <= q < s.len() && s[q].id == x;
        let rx = reloc_pos(km, sm, kleft, qx);
        assert(r0[rx] == d[qx]);
        assert(res[rx].id == x);
    }
}

/// A permitted move preserves every tree invariant and every stored id;
/// the relocated sequence it builds on is an id-preserving permutation.
#[verifier::rlimit(100)]
proof fn lemma_move_wf(s: Seq<NodeView>, id: NodeId, new_parent_id: NodeId, next_id: NodeId)
    requires
        wf_seq(s, next_id),
        can_move(s, id, new_parent_id),
    ensures
        wf_seq(move_view(s, id, new_parent_id), next_id),
        move_view(s, id, new_parent_id).len() == s.len(),
        relocated_view(s, id).len() == s.len(),
        ids_distinct(relocated_view(s, id)),
        has_id(relocated_view(s, id), new_parent_id),
        forall|x: NodeId| has_id(move_view(s, id, new_parent_id), x) <==> has_id(s, x),
{
    let rpos = idx_of(s, id);
    let ppos = idx_of(s, new_parent_id);
    let (pi, pk) = parent_edge(s, id);
    let d = detach_view(s, id);
    let km = keep_mask(s, rpos);
    let sm = sub_mask(s, rpos);
    let kleft = mask_keep(d, km, 0).len() as int;
    let r0 = relocated_view(s, id);
    lemma_move_prelims(s, id, new_parent_id, next_id, d, km, sm, kleft, r0, pi, pk);
    lemma_move_ordered(s, id, new_parent_id, next_id);
    lemma_move_unique(s, id, new_parent_id, next_id);
    lemma_move_reach(s, id, new_parent_id, next_id);
    let p0 = reloc_pos(km, sm, kleft, ppos);
    assert(has_id(r0, new_parent_id)) by {
        assert(r0[p0].id == new_parent_id);
    }
}

} // verus!
