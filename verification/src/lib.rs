//! Semantic version control for tree-structured procedural data.
//!
//! Instead of diffing textual serializations, this library diffs the tree
//! itself: it computes compact operation-based patches between two AST
//! trees, serializes them with a varint codec, combines them through a
//! structural three-way merge, and layers a commit/branch model with a
//! content-addressed snapshot store and mark-sweep garbage collection on
//! top.
//!
//! Floating-point node values are carried as their IEEE-754 binary64 bit
//! patterns (`u64`), which is also exactly what the wire format stores.

pub mod ast;
pub mod codec;
pub mod commit;
pub mod diff;
pub mod gc;
pub mod merge;
pub mod store;

pub use ast::{AstNode, AstNodeKind, AstTree, NodeId, NodeValue};
pub use codec::{decode_patch, encode_patch, encoded_patch_size};
pub use commit::{Branch, Commit, Repository};
pub use diff::{diff_trees, DiffOp};
pub use gc::{collect_garbage, dry_run, GcResult};
pub use merge::{merge_patches, Conflict, MergeResult};
pub use store::SnapshotStore;
