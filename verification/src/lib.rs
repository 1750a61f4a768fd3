//! Vec-backed ID-tree.
//!
//! # Behavior
//!
//! - Trees have at least a root node;
//! - Nodes have zero or more ordered children;
//! - Nodes have at most one parent;
//! - Nodes can be detached (orphaned) but not removed;
//! - Node parent, next sibling, previous sibling, first child and last child
//!   can be accessed in constant time.
//!
//! A [`Tree`] owns an arena of nodes addressed by stable [`NodeId`] handles.
//! A [`NodeRef`] reads one node and walks to its neighbours; a [`NodeMut`]
//! changes the shape of the tree around one node.
//!
//! # Model
//!
//! The view of a tree is a [`Forest`]: for each node its value, its parent
//! and the ordered sequence of its children. Every operation states its
//! effect on that view, and a tree that is well-formed before an operation
//! is well-formed after it: the parent and child relations agree, the
//! sibling links run along the child lists, the root has no parent, and no
//! node is its own ancestor.
//!
//! - `forest`: the model, its operations and what they preserve;
//! - `theorems`: what holds of every well-formed forest;
//! - `walks`: the walks over a forest as sequences;
//! - `tree`: the arena and how its records encode a forest;
//! - `node_ref`, `node_mut`, `iter`: the operations on trees;
//! - `render`: the pieces of the nested rendering of a tree.

pub mod forest;
pub mod iter;
pub mod node_mut;
pub mod node_ref;
pub mod render;
pub mod theorems;
pub mod tree;
pub mod walks;

pub use forest::Forest;
pub use iter::Edge;
pub use node_mut::NodeMut;
pub use node_ref::NodeRef;
pub use render::Mark;
pub use render::Piece;
pub use tree::NodeId;
pub use tree::Tree;
pub use walks::Step;
