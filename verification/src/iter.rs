//! Walks from a node over its neighbours, each returned as a vector in the
//! order of the walk.

use crate::node_ref::same_tree;
use crate::node_ref::NodeRef;
use crate::tree::NodeId;
use crate::tree::Tree;
use crate::walks::opened;
use crate::walks::Step;
use vstd::prelude::*;

verus! {

/// Open or close edge of a node.
#[derive(Debug)]
pub enum Edge<'a, T: 'a> {
    /// Open.
    Open(NodeRef<'a, T>),
    /// Close.
    Close(NodeRef<'a, T>),
}

impl<'a, T: 'a> Clone for Edge<'a, T> {
    fn clone(&self) -> (r: Self)
        ensures
            r == *self,
    {
        *self
    }
}

impl<'a, T: 'a> Copy for Edge<'a, T> {

}

impl<'a, T: 'a> PartialEq for Edge<'a, T> {
    /// Two edges are equal when both open, or both close, the same node of
    /// one and the same tree in memory.
    ///
    /// Whether the two trees are one is decided by identity in memory;
    /// `same_edge` says what is returned once that is known.
    fn eq(&self, other: &Self) -> (r: bool)
        ensures
            r ==> self.step() == other.step() && *self.node().tree == *other.node().tree,
    {
        let same = same_tree(self.target().tree, other.target().tree);
        self.same_edge(other, same)
    }
}

impl<'a, T: 'a> vstd::std_specs::cmp::PartialEqSpecImpl for Edge<'a, T> {
    /// Identity in memory has no mathematical counterpart, so `==` on edges
    /// promises only what `eq` states itself.
    open spec fn obeys_eq_spec() -> bool {
        false
    }

    open spec fn eq_spec(&self, other: &Self) -> bool {
        self.step() == other.step() && *self.node().tree == *other.node().tree
    }
}

impl<'a, T: 'a> Eq for Edge<'a, T> {

}

impl<'a, T: 'a> Edge<'a, T> {
    /// The node that the edge opens or closes.
    pub open spec fn node(self) -> NodeRef<'a, T> {
        match self {
            Edge::Open(n) => n,
            Edge::Close(n) => n,
        }
    }

    /// Returns the node that the edge opens or closes.
    pub fn target(&self) -> (n: NodeRef<'a, T>)
        ensures
            n == self.node(),
    {
        match self {
            Edge::Open(n) => *n,
            Edge::Close(n) => *n,
        }
    }

    /// Whether this edge and `other` are of the same kind and at the same
    /// node, where `same_tree` tells that the two refer to one and the same
    /// tree.
    pub fn same_edge(&self, other: &Self, same_tree: bool) -> (r: bool)
        ensures
            r == (same_tree && self.step() == other.step()),
    {
        proof {
            self.node().id.lemma_same(other.node().id);
        }
        match (self, other) {
            (Edge::Open(a), Edge::Open(b)) => a.same_node(b, same_tree),
            (Edge::Close(a), Edge::Close(b)) => a.same_node(b, same_tree),
            _ => false,
        }
    }

    /// The edge as a step of a walk over node numbers.
    pub open spec fn step(self) -> Step {
        match self {
            Edge::Open(n) => Step::Open(n.id@),
            Edge::Close(n) => Step::Close(n.id@),
        }
    }

    /// Whether `r` lists edges of valid references into `tree` that make the
    /// steps of `steps`, in their order.
    pub open spec fn walks(r: Seq<Self>, tree: &Tree<T>, steps: Seq<Step>) -> bool {
        &&& r.len() == steps.len()
        &&& forall|j: int|
            0 <= j < r.len() ==> (#[trigger] r[j]).node().wf() && *r[j].node().tree == *tree
                && r[j].step() == steps[j]
    }
}

impl<'a, T: 'a> NodeRef<'a, T> {
    /// Returns the children of this node, first to last.
    pub fn children(&self) -> (r: Vec<NodeRef<'a, T>>)
        requires
            self.wf(),
        ensures
            Self::lists(r@, self.tree, self.tree@.kids[self.id@]),
    {
        let ghost f = self.tree@;
        let ghost s = f.kids[self.id@];
        proof {
            self.tree.lemma_view_wf();
            if s.len() > 0 {
                f.lemma_siblings_at(self.id@, 0);
            }
        }
        let mut cur = self.first_child();
        let mut out: Vec<NodeRef<'a, T>> = Vec::new();
        while cur.is_some()
            invariant
                self.wf(),
                f == self.tree@,
                f.wf(),
                s == f.kids[self.id@],
                out@.len() <= s.len(),
                Self::points_to(
                    cur,
                    self.tree,
                    if out@.len() < s.len() {
                        Some(s[out@.len() as int])
                    } else {
                        None
                    },
                ),
                Self::lists(out@, self.tree, s.take(out@.len() as int)),
            decreases s.len() - out@.len(),
        {
            let each = cur.unwrap();
            proof {
                f.lemma_siblings_at(self.id@, out@.len() as int);
            }
            cur = each.next_sibling();
            out.push(each);
        }
        proof {
            assert(s.take(out@.len() as int) =~= s);
        }
        out
    }

    /// Returns the siblings that follow this node, nearest first.
    pub fn next_siblings(&self) -> (r: Vec<NodeRef<'a, T>>)
        requires
            self.wf(),
        ensures
            Self::lists(r@, self.tree, self.tree@.next_siblings(self.id@)),
    {
        let ghost f = self.tree@;
        let ghost all = f.next_siblings(self.id@);
        proof {
            self.tree.lemma_view_wf();
            if f.parents[self.id@] is Some {
                f.lemma_child_at_position(self.id@);
                f.lemma_siblings_at(f.parents[self.id@].unwrap(), f.position(self.id@));
            }
        }
        let mut cur = self.next_sibling();
        let mut out: Vec<NodeRef<'a, T>> = Vec::new();
        while cur.is_some()
            invariant
                self.wf(),
                f == self.tree@,
                f.wf(),
                all == f.next_siblings(self.id@),
                out@.len() <= all.len(),
                Self::points_to(
                    cur,
                    self.tree,
                    if out@.len() < all.len() {
                        Some(all[out@.len() as int])
                    } else {
                        None
                    },
                ),
                Self::lists(out@, self.tree, all.take(out@.len() as int)),
            decreases all.len() - out@.len(),
        {
            let each = cur.unwrap();
            proof {
                let p = f.parents[self.id@].unwrap();
                f.lemma_child_at_position(self.id@);
                f.lemma_siblings_at(p, f.position(self.id@) + 1 + out@.len());
            }
            cur = each.next_sibling();
            out.push(each);
        }
        proof {
            assert(all.take(out@.len() as int) =~= all);
        }
        out
    }

    /// Returns the siblings that precede this node, nearest first.
    pub fn prev_siblings(&self) -> (r: Vec<NodeRef<'a, T>>)
        requires
            self.wf(),
        ensures
            Self::lists(r@, self.tree, self.tree@.prev_siblings(self.id@)),
    {
        let ghost f = self.tree@;
        let ghost all = f.prev_siblings(self.id@);
        proof {
            self.tree.lemma_view_wf();
            if f.parents[self.id@] is Some {
                f.lemma_child_at_position(self.id@);
                f.lemma_siblings_at(f.parents[self.id@].unwrap(), f.position(self.id@));
            }
        }
        let mut cur = self.prev_sibling();
        let mut out: Vec<NodeRef<'a, T>> = Vec::new();
        while cur.is_some()
            invariant
                self.wf(),
                f == self.tree@,
                f.wf(),
                all == f.prev_siblings(self.id@),
                out@.len() <= all.len(),
                Self::points_to(
                    cur,
                    self.tree,
                    if out@.len() < all.len() {
                        Some(all[out@.len() as int])
                    } else {
                        None
                    },
                ),
                Self::lists(out@, self.tree, all.take(out@.len() as int)),
            decreases all.len() - out@.len(),
        {
            let each = cur.unwrap();
            proof {
                let p = f.parents[self.id@].unwrap();
                f.lemma_child_at_position(self.id@);
                f.lemma_siblings_at(p, f.position(self.id@) - 1 - out@.len());
            }
            cur = each.prev_sibling();
            out.push(each);
        }
        proof {
            assert(all.take(out@.len() as int) =~= all);
        }
        out
    }

    /// Returns the ancestors of this node, from its parent up to the node
    /// that has none.
    pub fn ancestors(&self) -> (r: Vec<NodeRef<'a, T>>)
        requires
            self.wf(),
        ensures
            Self::lists(r@, self.tree, self.tree@.ancestors(self.id@)),
    {
        let ghost f = self.tree@;
        let ghost all = f.ancestors(self.id@);
        let ghost mut rest = all;
        proof {
            self.tree.lemma_view_wf();
            f.lemma_ancestors_step(self.id@);
            f.lemma_ranks();
        }
        let mut cur = self.parent();
        let mut out: Vec<NodeRef<'a, T>> = Vec::new();
        while cur.is_some()
            invariant
                self.wf(),
                f == self.tree@,
                f.wf(),
                all == f.ancestors(self.id@),
                cur is Some ==> cur.unwrap().wf() && *cur.unwrap().tree == *self.tree,
                rest == (match cur {
                    Some(n) => seq![n.id@] + f.ancestors(n.id@),
                    None => Seq::empty(),
                }),
                out@.len() + rest.len() == all.len(),
                Self::lists(out@, self.tree, all.take(out@.len() as int)),
                all.skip(out@.len() as int) == rest,
            decreases
                    (match cur {
                        Some(n) => f.some_ranks().0[n.id@] + 1,
                        None => 0,
                    }),
        {
            let each = cur.unwrap();
            proof {
                f.lemma_ancestors_step(each.id@);
                f.lemma_ranks();
                assert(all[out@.len() as int] == rest[0]);
                assert(all.skip(out@.len() as int + 1) =~= rest.skip(1));
                rest = rest.skip(1);
            }
            cur = each.parent();
            out.push(each);
        }
        proof {
            assert(all.take(out@.len() as int) =~= all);
        }
        out
    }

    /// Returns true if this node is `top` or lies below it: the test that
    /// tells whether `top` may be moved below this node.
    ///
    /// Walks up from this node, so the cost grows with its depth.
    pub fn is_within(&self, top: NodeId) -> (r: bool)
        requires
            self.wf(),
        ensures
            r == self.tree@.in_subtree(top@, self.id@),
    {
        let ghost f = self.tree@;
        proof {
            self.tree.lemma_view_wf();
        }
        let mut cur = *self;
        loop
            invariant
                self.wf(),
                f == self.tree@,
                f.wf(),
                cur.wf(),
                *cur.tree == *self.tree,
                f.in_subtree(top@, cur.id@) == f.in_subtree(top@, self.id@),
            decreases f.some_ranks().0[cur.id@],
        {
            proof {
                cur.id.lemma_same(top);
                f.lemma_in_subtree_step(top@, cur.id@);
                f.lemma_ranks();
            }
            if cur.id == top {
                return true;
            }
            match cur.parent() {
                Some(parent) => {
                    cur = parent;
                },
                None => {
                    return false;
                },
            }
        }
    }

    /// Returns the edges of the depth-first walk of the subtree of this
    /// node: the node is opened, its children are walked in turn, and it is
    /// closed.
    pub fn traverse(&self) -> (r: Vec<Edge<'a, T>>)
        requires
            self.wf(),
        ensures
            Edge::walks(r@, self.tree, self.tree@.traverse(self.id@)),
    {
        let ghost f = self.tree@;
        let ghost top = self.id@;
        let ghost all = f.traverse(top);
        proof {
            self.tree.lemma_view_wf();
            f.lemma_pending_start(top);
        }
        let mut out: Vec<Edge<'a, T>> = Vec::new();
        let mut edge = Edge::Open(*self);
        loop
            invariant_except_break
                edge.node().wf(),
                *edge.node().tree == *self.tree,
                f.in_subtree(top, edge.node().id@),
                out@.len() < all.len(),
                all.skip(out@.len() as int) == f.pending(top, edge.step()),
            invariant
                self.wf(),
                f == self.tree@,
                f.wf(),
                top == self.id@,
                all == f.traverse(top),
                out@.len() <= all.len(),
                Edge::walks(out@, self.tree, all.take(out@.len() as int)),
            ensures
                out@.len() == all.len(),
            decreases all.len() - out@.len(),
        {
            let ghost before = f.pending(top, edge.step());
            proof {
                f.lemma_pending_step(top, edge.step());
                assert(all[out@.len() as int] == before[0]);
                assert(all.skip(out@.len() as int + 1) =~= before.skip(1));
                assert(all.take(out@.len() as int + 1) =~= all.take(out@.len() as int).push(
                    edge.step(),
                ));
            }
            out.push(edge);
            match edge {
                Edge::Open(node) => {
                    match node.first_child() {
                        Some(child) => {
                            edge = Edge::Open(child);
                        },
                        None => {
                            edge = Edge::Close(node);
                        },
                    }
                },
                Edge::Close(node) => {
                    proof {
                        node.id.lemma_same(self.id);
                    }
                    if node.id == self.id {
                        proof {
                            assert(all.skip(out@.len() as int).len() == 0);
                        }
                        break ;
                    }
                    proof {
                        f.lemma_in_subtree_step(top, node.id@);
                    }
                    match node.next_sibling() {
                        Some(sibling) => {
                            edge = Edge::Open(sibling);
                        },
                        None => {
                            let parent = node.parent();
                            edge = Edge::Close(parent.unwrap());
                        },
                    }
                },
            }
            proof {
                assert(f.pending(top, edge.step()).len() > 0);
            }
        }
        proof {
            assert(all.take(out@.len() as int) =~= all);
        }
        out
    }

    /// Returns this node and its descendants in preorder: each node before
    /// its children, the children first to last.
    pub fn descendants(&self) -> (r: Vec<NodeRef<'a, T>>)
        requires
            self.wf(),
        ensures
            Self::lists(r@, self.tree, self.tree@.descendants(self.id@)),
    {
        let ghost f = self.tree@;
        let edges = self.traverse();
        let ghost all = f.traverse(self.id@);
        let mut out: Vec<NodeRef<'a, T>> = Vec::new();
        let mut i: usize = 0;
        proof {
            self.tree.lemma_view_wf();
            f.lemma_opened_traverse(self.id@);
            assert(all.take(0) =~= Seq::<Step>::empty());
        }
        while i < edges.len()
            invariant
                i <= edges@.len(),
                Edge::walks(edges@, self.tree, all),
                Self::lists(out@, self.tree, opened(all.take(i as int))),
            decreases edges@.len() - i,
        {
            proof {
                assert(all.take(i + 1).drop_last() =~= all.take(i as int));
                assert(all.take(i + 1).last() == all[i as int]);
            }
            match edges[i] {
                Edge::Open(node) => {
                    out.push(node);
                },
                Edge::Close(_) => {},
            }
            i += 1;
        }
        proof {
            assert(all.take(i as int) =~= all);
        }
        out
    }
}

} // verus!
