//! Read access to one node of a tree: its value and its nearest neighbours.

use crate::tree::opt_index;
use crate::tree::Node;
use crate::tree::NodeId;
use crate::tree::Tree;
use vstd::prelude::*;

verus! {

/// Node reference.
#[derive(Debug)]
pub struct NodeRef<'a, T: 'a> {
    /// Node ID.
    pub id: NodeId,
    /// Tree containing the node.
    pub tree: &'a Tree<T>,
}

impl<'a, T: 'a> Clone for NodeRef<'a, T> {
    fn clone(&self) -> (r: Self)
        ensures
            r == *self,
    {
        *self
    }
}

impl<'a, T: 'a> Copy for NodeRef<'a, T> {

}

/// Whether `a` and `b` are one and the same tree in memory.
///
/// Calls `std::ptr::eq`, which compares the two addresses. All that is
/// claimed of the answer is that one tree in memory has one value: nothing is
/// said of two trees that hold equal nodes at different places.
#[verifier::external_body]
pub(crate) fn same_tree<T>(a: &Tree<T>, b: &Tree<T>) -> (same: bool)
    ensures
        same ==> *a == *b,
{
    std::ptr::eq(a, b)
}

impl<'a, T: 'a> PartialEq for NodeRef<'a, T> {
    /// Two references are equal when they name the same node of one and the
    /// same tree in memory.
    ///
    /// Whether the two trees are one is decided by identity in memory;
    /// `same_node` says what is returned once that is known.
    fn eq(&self, other: &Self) -> (r: bool)
        ensures
            r ==> self.id == other.id && *self.tree == *other.tree,
    {
        let same = same_tree(self.tree, other.tree);
        self.same_node(other, same)
    }
}

impl<'a, T: 'a> vstd::std_specs::cmp::PartialEqSpecImpl for NodeRef<'a, T> {
    /// Identity in memory has no mathematical counterpart, so `==` on
    /// references promises only what `eq` states itself.
    open spec fn obeys_eq_spec() -> bool {
        false
    }

    open spec fn eq_spec(&self, other: &Self) -> bool {
        self.id == other.id && *self.tree == *other.tree
    }
}

impl<'a, T: 'a> Eq for NodeRef<'a, T> {

}

impl<'a, T: 'a> NodeRef<'a, T> {
    /// The reference names a node of a well-formed tree.
    pub open spec fn wf(&self) -> bool {
        &&& self.tree.wf()
        &&& self.tree@.has(self.id@)
    }

    /// Whether `r` is a valid reference into `tree` to the node `target`, or
    /// absent where there is no target.
    pub open spec fn points_to(r: Option<Self>, tree: &Tree<T>, target: Option<int>) -> bool {
        match r {
            Some(n) => n.wf() && *n.tree == *tree && target == Some(n.id@),
            None => target is None,
        }
    }

    /// Whether `r` lists valid references into `tree` to the nodes of
    /// `nodes`, in their order.
    pub open spec fn lists(r: Seq<Self>, tree: &Tree<T>, nodes: Seq<int>) -> bool {
        &&& r.len() == nodes.len()
        &&& forall|j: int|
            0 <= j < r.len() ==> (#[trigger] r[j]).wf() && *r[j].tree == *tree && r[j].id@
                == nodes[j]
    }

    /// The record of this node.
    pub(crate) fn node(&self) -> (node: &'a Node<T>)
        requires
            self.wf(),
        ensures
            *node == self.tree.vec@[self.id@],
    {
        proof {
            self.tree.lemma_view();
        }
        &self.tree.vec[self.id.index()]
    }

    /// Whether this reference and `other` name the same node, where
    /// `same_tree` tells that the two refer to one and the same tree.
    pub fn same_node(&self, other: &Self, same_tree: bool) -> (r: bool)
        ensures
            r == (same_tree && self.id == other.id),
    {
        same_tree && self.id == other.id
    }

    /// Returns the value of this node.
    pub fn value(&self) -> (v: &'a T)
        requires
            self.wf(),
        ensures
            *v == self.tree@.values[self.id@],
    {
        proof {
            self.tree.lemma_links(self.id@);
        }
        &self.node().value
    }

    /// The reference into this node's tree to the node that `id` names.
    fn at(&self, id: Option<NodeId>) -> (r: Option<Self>)
        requires
            self.wf(),
            id is Some ==> self.tree@.has(id.unwrap()@),
        ensures
            Self::points_to(r, self.tree, opt_index(id)),
    {
        match id {
            Some(id) => Some(self.tree.get_unchecked(id)),
            None => None,
        }
    }

    /// Returns the parent of this node.
    pub fn parent(&self) -> (r: Option<Self>)
        requires
            self.wf(),
        ensures
            Self::points_to(r, self.tree, self.tree@.parents[self.id@]),
    {
        proof {
            self.tree.lemma_links(self.id@);
        }
        self.at(self.node().parent)
    }

    /// Returns the previous sibling of this node.
    pub fn prev_sibling(&self) -> (r: Option<Self>)
        requires
            self.wf(),
        ensures
            Self::points_to(r, self.tree, self.tree@.prev_sibling(self.id@)),
    {
        proof {
            self.tree.lemma_links(self.id@);
        }
        self.at(self.node().prev_sibling)
    }

    /// Returns the next sibling of this node.
    pub fn next_sibling(&self) -> (r: Option<Self>)
        requires
            self.wf(),
        ensures
            Self::points_to(r, self.tree, self.tree@.next_sibling(self.id@)),
    {
        proof {
            self.tree.lemma_links(self.id@);
        }
        self.at(self.node().next_sibling)
    }

    /// Returns the first child of this node.
    pub fn first_child(&self) -> (r: Option<Self>)
        requires
            self.wf(),
        ensures
            Self::points_to(r, self.tree, self.tree@.first_child(self.id@)),
    {
        proof {
            self.tree.lemma_links(self.id@);
        }
        match self.node().children {
            Some((id, _)) => Some(self.tree.get_unchecked(id)),
            None => None,
        }
    }

    /// Returns the last child of this node.
    pub fn last_child(&self) -> (r: Option<Self>)
        requires
            self.wf(),
        ensures
            Self::points_to(r, self.tree, self.tree@.last_child(self.id@)),
    {
        proof {
            self.tree.lemma_links(self.id@);
        }
        match self.node().children {
            Some((_, id)) => Some(self.tree.get_unchecked(id)),
            None => None,
        }
    }

    /// Returns true if this node has siblings.
    pub fn has_siblings(&self) -> (r: bool)
        requires
            self.wf(),
        ensures
            r == (self.tree@.prev_sibling(self.id@) is Some || self.tree@.next_sibling(
                self.id@,
            ) is Some),
    {
        proof {
            self.tree.lemma_links(self.id@);
        }
        self.node().prev_sibling.is_some() || self.node().next_sibling.is_some()
    }

    /// Returns true if this node has children.
    pub fn has_children(&self) -> (r: bool)
        requires
            self.wf(),
        ensures
            r == (self.tree@.kids[self.id@].len() > 0),
    {
        proof {
            self.tree.lemma_links(self.id@);
        }
        self.node().children.is_some()
    }

    /// Returns the index of the given child or None if child doesn't exist.
    ///
    /// A reference into another tree is no child of this node, whatever its
    /// handle. Whether `child` refers to this node's tree is decided by
    /// identity in memory; `index_of_child_id` says what is returned once
    /// that is known.
    pub fn index_of_child(&self, child: &NodeRef<T>) -> (r: Option<usize>)
        requires
            self.wf(),
        ensures
            r is Some ==> *child.tree == *self.tree && r == self.tree@.child_index(
                self.id@,
                child.id@,
            ),
            self.tree@.child_index(self.id@, child.id@) is None ==> r is None,
    {
        let same = same_tree(self.tree, child.tree);
        self.index_of_child_id(child.id, same)
    }

    /// Returns the index of the child with the given handle, where
    /// `same_tree` tells that the handle is one of this node's tree; None if
    /// it is not, or if no child of this node has that handle.
    pub fn index_of_child_id(&self, child: NodeId, same_tree: bool) -> (r: Option<usize>)
        requires
            self.wf(),
        ensures
            r == (if same_tree {
                self.tree@.child_index(self.id@, child@)
            } else {
                None
            }),
    {
        if !same_tree {
            return None;
        }
        let ghost f = self.tree@;
        let ghost s = f.kids[self.id@];
        proof {
            self.tree.lemma_links(self.id@);
            f.lemma_kids_bounded(self.id@);
            self.tree.lemma_len_bounded();
            if s.len() > 0 {
                f.lemma_siblings_at(self.id@, 0);
            }
        }
        let mut cur: Option<NodeId> = match self.node().children {
            Some((first, _)) => Some(first),
            None => None,
        };
        let mut i: usize = 0;
        while cur.is_some()
            invariant
                self.wf(),
                f == self.tree@,
                f.wf(),
                s == f.kids[self.id@],
                0 <= i <= s.len(),
                s.len() <= f.len() <= usize::MAX,
                opt_index(cur) == (if i < s.len() {
                    Some(s[i as int])
                } else {
                    None
                }),
                forall|j: int| 0 <= j < i ==> s[j] != child@,
                same_tree,
            decreases s.len() - i,
        {
            let each = cur.unwrap();
            proof {
                each.lemma_same(child);
                f.lemma_siblings_at(self.id@, i as int);
                self.tree.lemma_links(each@);
                assert(s.no_duplicates());
            }
            if each == child {
                proof {
                    f.lemma_position(self.id@, i as int);
                    assert(s[i as int] == child@);
                }
                return Some(i);
            }
            cur = self.tree.vec[each.index()].next_sibling;
            i += 1;
        }
        None
    }
}

} // verus!
