//! Write access to one node of a tree: the operations that change the
//! tree's shape.

use crate::node_ref::NodeRef;
use crate::tree::encodes;
use crate::tree::opt_index;
use crate::tree::represents;
use crate::tree::Node;
use crate::tree::NodeId;
use crate::tree::Tree;
use vstd::prelude::*;

verus! {

/// Node mutator.
#[derive(Debug)]
pub struct NodeMut<'a, T: 'a> {
    /// Node ID.
    pub id: NodeId,
    /// Tree containing the node.
    pub tree: &'a mut Tree<T>,
}

/// Links the parentless node `c` into the child list of `p` at index `k`,
/// between `prev` and `next`, the children that stand on either side of
/// that place.
fn link<T>(
    tree: &mut Tree<T>,
    p: NodeId,
    c: NodeId,
    prev: Option<NodeId>,
    next: Option<NodeId>,
    Ghost(k): Ghost<int>,
)
    requires
        old(tree).wf(),
        old(tree)@.has(p@),
        old(tree)@.has(c@),
        c@ != 0,
        old(tree)@.parents[c@] is None,
        !old(tree)@.in_subtree(c@, p@),
        0 <= k <= old(tree)@.kids[p@].len(),
        opt_index(prev) == (if k == 0 {
            None
        } else {
            Some(old(tree)@.kids[p@][k - 1])
        }),
        opt_index(next) == (if k == old(tree)@.kids[p@].len() {
            None
        } else {
            Some(old(tree)@.kids[p@][k])
        }),
    ensures
        final(tree).wf(),
        final(tree)@ == old(tree)@.attach(p@, k, c@),
{
    let ghost f = tree@;
    let ghost vec0 = tree.vec@;
    let ghost s = f.kids[p@];
    proof {
        tree.lemma_view();
        tree.lemma_links(p@);
        tree.lemma_links(c@);
        f.lemma_attach_wf(p@, k, c@);
        if k > 0 {
            f.lemma_siblings_at(p@, k - 1);
        }
        if k < s.len() {
            f.lemma_siblings_at(p@, k);
        }
    }
    tree.vec[c.index()].parent = Some(p);
    tree.vec[c.index()].prev_sibling = prev;
    tree.vec[c.index()].next_sibling = next;
    if let Some(before) = prev {
        tree.vec[before.index()].next_sibling = Some(c);
    }
    if let Some(after) = next {
        tree.vec[after.index()].prev_sibling = Some(c);
    }
    let bounds = match tree.vec[p.index()].children {
        Some((first, last)) => (
            if prev.is_none() {
                c
            } else {
                first
            },
            if next.is_none() {
                c
            } else {
                last
            },
        ),
        None => (c, c),
    };
    tree.vec[p.index()].children = Some(bounds);
    proof {
        let g = f.attach(p@, k, c@);
        let vec1 = tree.vec@;
        assert forall|n: int| 0 <= n < vec1.len() implies encodes(#[trigger] vec1[n], g, n) by {
            assert(encodes(vec0[n], f, n));
            f.lemma_attach_links(p@, k, c@, n);
        }
        tree.lemma_encodes(g);
    }
}

/// Makes `dst` the parent of every child of `src`, walking the list of
/// `src` from its first child. The lists themselves are left as they are.
fn hand_over<T>(tree: &mut Tree<T>, dst: NodeId, src: NodeId, first: NodeId)
    requires
        old(tree).wf(),
        old(tree)@.has(dst@),
        old(tree)@.has(src@),
        old(tree)@.kids[src@].len() > 0,
        first@ == old(tree)@.kids[src@][0],
    ensures
        final(tree).vec@.len() == old(tree).vec@.len(),
        forall|n: int|
            0 <= n < old(tree).vec@.len() ==> #[trigger] final(tree).vec@[n] == (if old(
                tree,
            )@.parents[n] == Some(src@) {
                Node { parent: Some(dst), ..old(tree).vec@[n] }
            } else {
                old(tree).vec@[n]
            }),
{
    let ghost f = tree@;
    let ghost vec0 = tree.vec@;
    let ghost ss = f.kids[src@];
    let mut cur: Option<NodeId> = Some(first);
    let ghost mut i: int = 0;
    proof {
        tree.lemma_view();
    }
    while cur.is_some()
        invariant
            f.wf(),
            represents(vec0, f),
            f.has(src@),
            ss == f.kids[src@],
            0 <= i <= ss.len(),
            opt_index(cur) == (if i < ss.len() {
                Some(ss[i])
            } else {
                None
            }),
            tree.vec@.len() == vec0.len(),
            forall|n: int|
                0 <= n < vec0.len() ==> #[trigger] tree.vec@[n] == (if f.parents[n] == Some(src@)
                    && f.position(n) < i {
                    Node { parent: Some(dst), ..vec0[n] }
                } else {
                    vec0[n]
                }),
        decreases ss.len() - i,
    {
        let c = cur.unwrap();
        let ghost vec1 = tree.vec@;
        proof {
            f.lemma_siblings_at(src@, i);
            assert(encodes(vec0[c@], f, c@));
        }
        tree.vec[c.index()].parent = Some(dst);
        cur = tree.vec[c.index()].next_sibling;
        proof {
            assert forall|n: int| 0 <= n < vec0.len() implies #[trigger] tree.vec@[n] == (if f.parents[n]
                == Some(src@) && f.position(n) < i + 1 {
                Node { parent: Some(dst), ..vec0[n] }
            } else {
                vec0[n]
            }) by {
                assert(vec1[n] == (if f.parents[n] == Some(src@) && f.position(n) < i {
                    Node { parent: Some(dst), ..vec0[n] }
                } else {
                    vec0[n]
                }));
                if f.parents[n] == Some(src@) {
                    f.lemma_child_at_position(n);
                }
            }
            i = i + 1;
        }
    }
    proof {
        assert forall|n: int| 0 <= n < vec0.len() implies #[trigger] tree.vec@[n] == (if f.parents[n]
            == Some(src@) {
            Node { parent: Some(dst), ..vec0[n] }
        } else {
            vec0[n]
        }) by {
            if f.parents[n] == Some(src@) {
                f.lemma_child_at_position(n);
            }
        }
    }
}

impl<'a, T: 'a> NodeMut<'a, T> {
    /// The mutator names a node of a well-formed tree.
    pub open spec fn wf(&self) -> bool {
        &&& self.tree.wf()
        &&& self.tree@.has(self.id@)
    }

    /// Whether `r` is a valid mutator on `tree` at the node `target`, or
    /// absent where there is no target.
    pub open spec fn points_to(r: Option<Self>, tree: Tree<T>, target: Option<int>) -> bool {
        match r {
            Some(m) => m.wf() && *m.tree == tree && target == Some(m.id@),
            None => target is None,
        }
    }

    /// The mutator on this node's tree at the node that `id` names.
    fn at(&mut self, id: Option<NodeId>) -> (r: Option<NodeMut<'_, T>>)
        requires
            old(self).wf(),
            id is Some ==> old(self).tree@.has(id.unwrap()@),
        ensures
            Self::points_to(r, *old(self).tree, opt_index(id)),
            r is Some ==> *final(r.unwrap().tree) == *final(self).tree,
            r is None ==> *final(self).tree == *old(self).tree,
            final(self).id == old(self).id,
            *final(final(self).tree) == *final(old(self).tree),
    {
        match id {
            Some(id) => Some(self.tree.get_unchecked_mut(id)),
            None => None,
        }
    }

    /// Returns the parent of this node.
    pub fn parent(&mut self) -> (r: Option<NodeMut<'_, T>>)
        requires
            old(self).wf(),
        ensures
            Self::points_to(r, *old(self).tree, old(self).tree@.parents[old(self).id@]),
            r is Some ==> *final(r.unwrap().tree) == *final(self).tree,
            r is None ==> *final(self).tree == *old(self).tree,
            final(self).id == old(self).id,
            *final(final(self).tree) == *final(old(self).tree),
    {
        proof {
            self.tree.lemma_links(self.id@);
        }
        let id = self.tree.vec[self.id.index()].parent;
        self.at(id)
    }

    /// Returns the previous sibling of this node.
    pub fn prev_sibling(&mut self) -> (r: Option<NodeMut<'_, T>>)
        requires
            old(self).wf(),
        ensures
            Self::points_to(r, *old(self).tree, old(self).tree@.prev_sibling(old(self).id@)),
            r is Some ==> *final(r.unwrap().tree) == *final(self).tree,
            r is None ==> *final(self).tree == *old(self).tree,
            final(self).id == old(self).id,
            *final(final(self).tree) == *final(old(self).tree),
    {
        proof {
            self.tree.lemma_links(self.id@);
        }
        let id = self.tree.vec[self.id.index()].prev_sibling;
        self.at(id)
    }

    /// Returns the next sibling of this node.
    pub fn next_sibling(&mut self) -> (r: Option<NodeMut<'_, T>>)
        requires
            old(self).wf(),
        ensures
            Self::points_to(r, *old(self).tree, old(self).tree@.next_sibling(old(self).id@)),
            r is Some ==> *final(r.unwrap().tree) == *final(self).tree,
            r is None ==> *final(self).tree == *old(self).tree,
            final(self).id == old(self).id,
            *final(final(self).tree) == *final(old(self).tree),
    {
        proof {
            self.tree.lemma_links(self.id@);
        }
        let id = self.tree.vec[self.id.index()].next_sibling;
        self.at(id)
    }

    /// Returns the first child of this node.
    pub fn first_child(&mut self) -> (r: Option<NodeMut<'_, T>>)
        requires
            old(self).wf(),
        ensures
            Self::points_to(r, *old(self).tree, old(self).tree@.first_child(old(self).id@)),
            r is Some ==> *final(r.unwrap().tree) == *final(self).tree,
            r is None ==> *final(self).tree == *old(self).tree,
            final(self).id == old(self).id,
            *final(final(self).tree) == *final(old(self).tree),
    {
        proof {
            self.tree.lemma_links(self.id@);
        }
        let id = match self.tree.vec[self.id.index()].children {
            Some((id, _)) => Some(id),
            None => None,
        };
        self.at(id)
    }

    /// Returns the last child of this node.
    pub fn last_child(&mut self) -> (r: Option<NodeMut<'_, T>>)
        requires
            old(self).wf(),
        ensures
            Self::points_to(r, *old(self).tree, old(self).tree@.last_child(old(self).id@)),
            r is Some ==> *final(r.unwrap().tree) == *final(self).tree,
            r is None ==> *final(self).tree == *old(self).tree,
            final(self).id == old(self).id,
            *final(final(self).tree) == *final(old(self).tree),
    {
        proof {
            self.tree.lemma_links(self.id@);
        }
        let id = match self.tree.vec[self.id.index()].children {
            Some((_, id)) => Some(id),
            None => None,
        };
        self.at(id)
    }

    /// Returns true if this node has siblings.
    pub fn has_siblings(&self) -> (r: bool)
        requires
            self.wf(),
        ensures
            r == (old(self.tree)@.prev_sibling(self.id@) is Some || old(self.tree)@.next_sibling(
                self.id@,
            ) is Some),
    {
        self.tree.get_unchecked(self.id).has_siblings()
    }

    /// Returns true if this node has children.
    pub fn has_children(&self) -> (r: bool)
        requires
            self.wf(),
        ensures
            r == (old(self.tree)@.kids[self.id@].len() > 0),
    {
        self.tree.get_unchecked(self.id).has_children()
    }

    /// Appends a new child to this node.
    pub fn append(&mut self, value: T) -> (r: NodeMut<'_, T>)
        requires
            old(self).wf(),
        ensures
            r.wf(),
            r.id@ == old(self).tree@.len(),
            r.tree@ == old(self).tree@.append(old(self).id@, value),
            final(self).id == old(self).id,
            *final(r.tree) == *final(self).tree,
            *final(final(self).tree) == *final(old(self).tree),
    {
        proof {
            self.tree.lemma_view();
            self.tree@.lemma_fresh_orphan(value, self.id@);
        }
        let id = self.tree.orphan(value).id;
        self.append_id(id)
    }

    /// Prepends a new child to this node.
    pub fn prepend(&mut self, value: T) -> (r: NodeMut<'_, T>)
        requires
            old(self).wf(),
        ensures
            r.wf(),
            r.id@ == old(self).tree@.len(),
            r.tree@ == old(self).tree@.prepend(old(self).id@, value),
            final(self).id == old(self).id,
            *final(r.tree) == *final(self).tree,
            *final(final(self).tree) == *final(old(self).tree),
    {
        proof {
            self.tree.lemma_view();
            self.tree@.lemma_fresh_orphan(value, self.id@);
        }
        let id = self.tree.orphan(value).id;
        self.prepend_id(id)
    }

    /// Insert a new child into this node at given index.
    /// This function may take up to linear time in worst case scenarios.
    ///
    /// The index must not exceed the number of children.
    pub fn insert(&mut self, value: T, index: usize) -> (r: NodeMut<'_, T>)
        requires
            old(self).wf(),
            index <= old(self).tree@.kids[old(self).id@].len(),
        ensures
            r.wf(),
            r.id@ == old(self).tree@.len(),
            r.tree@ == old(self).tree@.insert(old(self).id@, value, index as int),
            final(self).id == old(self).id,
            *final(r.tree) == *final(self).tree,
            *final(final(self).tree) == *final(old(self).tree),
    {
        proof {
            self.tree.lemma_view();
            self.tree@.lemma_fresh_orphan(value, self.id@);
            if index > 0 {
                assert(self.tree@.has(self.tree@.kids[self.id@][index - 1]));
            }
        }
        let id = self.tree.orphan(value).id;
        self.insert_id(id, index)
    }

    /// Inserts a new sibling before this node, which must have a parent.
    pub fn insert_before(&mut self, value: T) -> (r: NodeMut<'_, T>)
        requires
            old(self).wf(),
            old(self).tree@.parents[old(self).id@] is Some,
        ensures
            r.wf(),
            r.id@ == old(self).tree@.len(),
            r.tree@ == old(self).tree@.insert_before(old(self).id@, value),
            final(self).id == old(self).id,
            *final(r.tree) == *final(self).tree,
            *final(final(self).tree) == *final(old(self).tree),
    {
        proof {
            self.tree.lemma_view();
            self.tree@.lemma_fresh_orphan(value, self.id@);
        }
        let id = self.tree.orphan(value).id;
        self.insert_id_before(id)
    }

    /// Inserts a new sibling after this node, which must have a parent.
    pub fn insert_after(&mut self, value: T) -> (r: NodeMut<'_, T>)
        requires
            old(self).wf(),
            old(self).tree@.parents[old(self).id@] is Some,
        ensures
            r.wf(),
            r.id@ == old(self).tree@.len(),
            r.tree@ == old(self).tree@.insert_after(old(self).id@, value),
            final(self).id == old(self).id,
            *final(r.tree) == *final(self).tree,
            *final(final(self).tree) == *final(old(self).tree),
    {
        proof {
            self.tree.lemma_view();
            self.tree@.lemma_fresh_orphan(value, self.id@);
        }
        let id = self.tree.orphan(value).id;
        self.insert_id_after(id)
    }

    /// Returns the value of this node.
    pub fn value(&mut self) -> (v: &mut T)
        requires
            old(self).wf(),
        ensures
            *v == old(self).tree@.values[old(self).id@],
            final(self).id == old(self).id,
            final(self).wf(),
            final(self).tree@ == old(self).tree@.with_value(old(self).id@, *final(v)),
            *final(final(self).tree) == *final(old(self).tree),
    {
        let ghost before = *self.tree;
        proof {
            self.tree.lemma_links(self.id@);
        }
        let v = &mut self.tree.vec[self.id.index()].value;
        proof {
            before.lemma_revalued(after_borrow(self).tree, old(self).id@);
        }
        v
    }

    /// Detaches this node from its parent.
    ///
    /// A node without a parent, the root among them, stays as it is. The
    /// node keeps its children.
    pub fn detach(&mut self)
        requires
            old(self).wf(),
        ensures
            final(self).wf(),
            final(self).id == old(self).id,
            final(self).tree@ == old(self).tree@.detach(old(self).id@),
            old(self).tree@.parents[old(self).id@] is None ==> *final(self).tree == *old(
                self,
            ).tree,
            *final(final(self).tree) == *final(old(self).tree),
    {
        let ghost f = self.tree@;
        let ghost vec0 = self.tree.vec@;
        let ghost c = self.id@;
        proof {
            self.tree.lemma_view();
            self.tree.lemma_links(c);
            f.lemma_detach_wf(c);
        }
        let id = self.id.index();
        let parent_id = match self.tree.vec[id].parent {
            Some(id) => id,
            None => {
                return ;
            },
        };
        let prev_sibling_id = self.tree.vec[id].prev_sibling;
        let next_sibling_id = self.tree.vec[id].next_sibling;
        let ghost p = parent_id@;
        let ghost j = f.position(c);
        let ghost s = f.kids[p];
        proof {
            f.lemma_child_at_position(c);
            f.lemma_siblings_at(p, j);
            self.tree.lemma_links(p);
            if j > 0 {
                f.lemma_siblings_at(p, j - 1);
            }
            if j + 1 < s.len() {
                f.lemma_siblings_at(p, j + 1);
            }
            assert(s.no_duplicates());
        }

        self.tree.vec[id].parent = None;
        self.tree.vec[id].prev_sibling = None;
        self.tree.vec[id].next_sibling = None;

        if let Some(prev) = prev_sibling_id {
            self.tree.vec[prev.index()].next_sibling = next_sibling_id;
        }
        if let Some(next) = next_sibling_id {
            self.tree.vec[next.index()].prev_sibling = prev_sibling_id;
        }
        let (first_child_id, last_child_id) = self.tree.vec[parent_id.index()].children.unwrap();
        proof {
            first_child_id.lemma_same(last_child_id);
            first_child_id.lemma_same(self.id);
            last_child_id.lemma_same(self.id);
        }
        if first_child_id == last_child_id {
            self.tree.vec[parent_id.index()].children = None;
        } else if first_child_id == self.id {
            self.tree.vec[parent_id.index()].children = Some(
                (next_sibling_id.unwrap(), last_child_id),
            );
        } else if last_child_id == self.id {
            self.tree.vec[parent_id.index()].children = Some(
                (first_child_id, prev_sibling_id.unwrap()),
            );
        }
        proof {
            let g = f.detach(c);
            let vec1 = self.tree.vec@;
            assert forall|n: int| 0 <= n < vec1.len() implies encodes(#[trigger] vec1[n], g, n) by {
                assert(encodes(vec0[n], f, n));
                f.lemma_detach_links(c, n);
            }
            self.tree.lemma_encodes(g);
        }
    }

    /// Appends a child to this node.
    ///
    /// The child is first detached from where it was. It must exist, must
    /// not be the root and must be neither this node nor above it.
    pub fn append_id(&mut self, new_child_id: NodeId) -> (r: NodeMut<'_, T>)
        requires
            old(self).wf(),
            old(self).tree@.can_adopt(old(self).id@, new_child_id@),
        ensures
            r.wf(),
            r.id == new_child_id,
            r.tree@ == old(self).tree@.append_id(old(self).id@, new_child_id@),
            final(self).id == old(self).id,
            *final(r.tree) == *final(self).tree,
            *final(final(self).tree) == *final(old(self).tree),
    {
        let ghost f = self.tree@;
        proof {
            self.tree.lemma_view();
            f.lemma_detach_then_attach_wf(self.id@, 0, new_child_id@);
            f.lemma_detach_subtree(new_child_id@, self.id@);
        }
        {
            let mut new_child = self.tree.get_unchecked_mut(new_child_id);
            new_child.detach();
        }
        proof {
            self.tree.lemma_links(self.id@);
        }
        let last_child_id = match self.tree.vec[self.id.index()].children {
            Some((_, id)) => Some(id),
            None => None,
        };
        link(
            &mut *self.tree,
            self.id,
            new_child_id,
            last_child_id,
            None,
            Ghost(f.detach(new_child_id@).kids[self.id@].len() as int),
        );
        self.tree.get_unchecked_mut(new_child_id)
    }

    /// Prepends a child to this node.
    ///
    /// The child is first detached from where it was. It must exist, must
    /// not be the root and must be neither this node nor above it.
    pub fn prepend_id(&mut self, new_child_id: NodeId) -> (r: NodeMut<'_, T>)
        requires
            old(self).wf(),
            old(self).tree@.can_adopt(old(self).id@, new_child_id@),
        ensures
            r.wf(),
            r.id == new_child_id,
            r.tree@ == old(self).tree@.prepend_id(old(self).id@, new_child_id@),
            final(self).id == old(self).id,
            *final(r.tree) == *final(self).tree,
            *final(final(self).tree) == *final(old(self).tree),
    {
        let ghost f = self.tree@;
        proof {
            self.tree.lemma_view();
            f.lemma_detach_then_attach_wf(self.id@, 0, new_child_id@);
            f.lemma_detach_subtree(new_child_id@, self.id@);
        }
        {
            let mut new_child = self.tree.get_unchecked_mut(new_child_id);
            new_child.detach();
        }
        proof {
            self.tree.lemma_links(self.id@);
        }
        let first_child_id = match self.tree.vec[self.id.index()].children {
            Some((id, _)) => Some(id),
            None => None,
        };
        link(&mut *self.tree, self.id, new_child_id, None, first_child_id, Ghost(0));
        self.tree.get_unchecked_mut(new_child_id)
    }

    /// Inserts a sibling before this node.
    ///
    /// The sibling is first detached from where it was. This node must have
    /// a parent; the sibling must exist, must not be the root and must be
    /// neither this node nor above it.
    pub fn insert_id_before(&mut self, new_sibling_id: NodeId) -> (r: NodeMut<'_, T>)
        requires
            old(self).wf(),
            old(self).tree@.parents[old(self).id@] is Some,
            old(self).tree@.can_adopt(old(self).id@, new_sibling_id@),
        ensures
            r.wf(),
            r.id == new_sibling_id,
            r.tree@ == old(self).tree@.insert_id_before(old(self).id@, new_sibling_id@),
            final(self).id == old(self).id,
            *final(r.tree) == *final(self).tree,
            *final(final(self).tree) == *final(old(self).tree),
    {
        let ghost f = self.tree@;
        let ghost g = f.detach(new_sibling_id@);
        proof {
            self.tree.lemma_view();
            f.lemma_detach_wf(new_sibling_id@);
            f.lemma_detach_subtree(new_sibling_id@, self.id@);
            g.lemma_in_subtree_step(new_sibling_id@, self.id@);
            g.lemma_child_at_position(self.id@);
            g.lemma_siblings_at(g.parents[self.id@].unwrap(), g.position(self.id@));
        }
        {
            let mut new_sibling = self.tree.get_unchecked_mut(new_sibling_id);
            new_sibling.detach();
        }
        proof {
            self.tree.lemma_links(self.id@);
        }
        let parent_id = self.tree.vec[self.id.index()].parent.unwrap();
        let prev_sibling_id = self.tree.vec[self.id.index()].prev_sibling;
        link(
            &mut *self.tree,
            parent_id,
            new_sibling_id,
            prev_sibling_id,
            Some(self.id),
            Ghost(g.position(self.id@)),
        );
        self.tree.get_unchecked_mut(new_sibling_id)
    }

    /// Inserts a sibling after this node.
    ///
    /// The sibling is first detached from where it was. This node must have
    /// a parent; the sibling must exist, must not be the root and must be
    /// neither this node nor above it.
    pub fn insert_id_after(&mut self, new_sibling_id: NodeId) -> (r: NodeMut<'_, T>)
        requires
            old(self).wf(),
            old(self).tree@.parents[old(self).id@] is Some,
            old(self).tree@.can_adopt(old(self).id@, new_sibling_id@),
        ensures
            r.wf(),
            r.id == new_sibling_id,
            r.tree@ == old(self).tree@.insert_id_after(old(self).id@, new_sibling_id@),
            final(self).id == old(self).id,
            *final(r.tree) == *final(self).tree,
            *final(final(self).tree) == *final(old(self).tree),
    {
        let ghost f = self.tree@;
        let ghost g = f.detach(new_sibling_id@);
        proof {
            self.tree.lemma_view();
            f.lemma_detach_wf(new_sibling_id@);
            f.lemma_detach_subtree(new_sibling_id@, self.id@);
            g.lemma_in_subtree_step(new_sibling_id@, self.id@);
            g.lemma_child_at_position(self.id@);
            g.lemma_siblings_at(g.parents[self.id@].unwrap(), g.position(self.id@));
        }
        {
            let mut new_sibling = self.tree.get_unchecked_mut(new_sibling_id);
            new_sibling.detach();
        }
        proof {
            self.tree.lemma_links(self.id@);
        }
        let parent_id = self.tree.vec[self.id.index()].parent.unwrap();
        let next_sibling_id = self.tree.vec[self.id.index()].next_sibling;
        link(
            &mut *self.tree,
            parent_id,
            new_sibling_id,
            Some(self.id),
            next_sibling_id,
            Ghost(g.position(self.id@) + 1),
        );
        self.tree.get_unchecked_mut(new_sibling_id)
    }

    /// Insert a child into this node at given index.
    /// This function may take up to linear time in worst case scenarios.
    ///
    /// At index zero the child is prepended; at any other index it is
    /// inserted after the child that now stands just before that index,
    /// which must not be the new child itself. The index must not exceed the
    /// number of children; the child must exist, must not be the root and
    /// must be neither this node nor above it.
    pub fn insert_id(&mut self, new_child_id: NodeId, index: usize) -> (r: NodeMut<'_, T>)
        requires
            old(self).wf(),
            old(self).tree@.can_adopt(old(self).id@, new_child_id@),
            index <= old(self).tree@.kids[old(self).id@].len(),
            index > 0 ==> old(self).tree@.kids[old(self).id@][index - 1] != new_child_id@,
        ensures
            r.wf(),
            r.id == new_child_id,
            r.tree@ == old(self).tree@.insert_id(old(self).id@, new_child_id@, index as int),
            final(self).id == old(self).id,
            *final(r.tree) == *final(self).tree,
            *final(final(self).tree) == *final(old(self).tree),
    {
        if index == 0 {
            return self.prepend_id(new_child_id);
        }
        let pre_sibling_id = self.tree.child_at(self.id, index - 1);
        proof {
            let f = self.tree@;
            self.tree.lemma_view();
            f.lemma_siblings_at(self.id@, index - 1);
            f.lemma_in_subtree_step(new_child_id@, pre_sibling_id@);
        }
        {
            let mut pre_sibling = self.tree.get_unchecked_mut(pre_sibling_id);
            pre_sibling.insert_id_after(new_child_id);
        }
        self.tree.get_unchecked_mut(new_child_id)
    }

    /// Reparents the children of a node, appending them to this node.
    ///
    /// The node must exist and must not be above this node. Every child
    /// that moves has this node as its parent afterwards.
    pub fn reparent_from_id_append(&mut self, from_id: NodeId)
        requires
            old(self).wf(),
            old(self).tree@.can_take_children(old(self).id@, from_id@),
        ensures
            final(self).wf(),
            final(self).id == old(self).id,
            final(self).tree@ == old(self).tree@.reparent_append(old(self).id@, from_id@),
            *final(final(self).tree) == *final(old(self).tree),
    {
        let ghost f = self.tree@;
        let ghost vec0 = self.tree.vec@;
        let ghost dst = self.id@;
        let ghost src = from_id@;
        proof {
            self.tree.lemma_view();
            self.tree.lemma_links(src);
            self.tree.lemma_links(dst);
            from_id.lemma_same(self.id);
            f.lemma_take_children_wf(dst, src, false);
        }
        if from_id == self.id {
            return ;
        }
        let new_child_ids = match self.tree.vec[from_id.index()].children {
            Some(ids) => ids,
            None => {
                proof {
                    f.lemma_take_no_children(dst, src, false);
                }
                return ;
            },
        };
        hand_over(&mut *self.tree, self.id, from_id, new_child_ids.0);
        self.tree.vec[from_id.index()].children = None;
        match self.tree.vec[self.id.index()].children {
            None => {
                self.tree.vec[self.id.index()].children = Some(new_child_ids);
            },
            Some(old_child_ids) => {
                self.tree.vec[old_child_ids.1.index()].next_sibling = Some(new_child_ids.0);
                self.tree.vec[new_child_ids.0.index()].prev_sibling = Some(old_child_ids.1);
                self.tree.vec[self.id.index()].children = Some(
                    (old_child_ids.0, new_child_ids.1),
                );
            },
        }
        proof {
            let g = f.take_children(dst, src, false);
            let vec1 = self.tree.vec@;
            assert forall|n: int| 0 <= n < vec1.len() implies encodes(#[trigger] vec1[n], g, n) by {
                assert(encodes(vec0[n], f, n));
                f.lemma_take_children_links(dst, src, false, n);
            }
            self.tree.lemma_encodes(g);
        }
    }

    /// Reparents the children of a node, prepending them to this node.
    ///
    /// The node must exist and must not be above this node. Every child
    /// that moves has this node as its parent afterwards.
    pub fn reparent_from_id_prepend(&mut self, from_id: NodeId)
        requires
            old(self).wf(),
            old(self).tree@.can_take_children(old(self).id@, from_id@),
        ensures
            final(self).wf(),
            final(self).id == old(self).id,
            final(self).tree@ == old(self).tree@.reparent_prepend(old(self).id@, from_id@),
            *final(final(self).tree) == *final(old(self).tree),
    {
        let ghost f = self.tree@;
        let ghost vec0 = self.tree.vec@;
        let ghost dst = self.id@;
        let ghost src = from_id@;
        proof {
            self.tree.lemma_view();
            self.tree.lemma_links(src);
            self.tree.lemma_links(dst);
            from_id.lemma_same(self.id);
            f.lemma_take_children_wf(dst, src, true);
        }
        if from_id == self.id {
            return ;
        }
        let new_child_ids = match self.tree.vec[from_id.index()].children {
            Some(ids) => ids,
            None => {
                proof {
                    f.lemma_take_no_children(dst, src, true);
                }
                return ;
            },
        };
        hand_over(&mut *self.tree, self.id, from_id, new_child_ids.0);
        self.tree.vec[from_id.index()].children = None;
        match self.tree.vec[self.id.index()].children {
            None => {
                self.tree.vec[self.id.index()].children = Some(new_child_ids);
            },
            Some(old_child_ids) => {
                self.tree.vec[old_child_ids.0.index()].prev_sibling = Some(new_child_ids.1);
                self.tree.vec[new_child_ids.1.index()].next_sibling = Some(old_child_ids.0);
                self.tree.vec[self.id.index()].children = Some(
                    (new_child_ids.0, old_child_ids.1),
                );
            },
        }
        proof {
            let g = f.take_children(dst, src, true);
            let vec1 = self.tree.vec@;
            assert forall|n: int| 0 <= n < vec1.len() implies encodes(#[trigger] vec1[n], g, n) by {
                assert(encodes(vec0[n], f, n));
                f.lemma_take_children_links(dst, src, true, n);
            }
            self.tree.lemma_encodes(g);
        }
    }
}

impl<'a, T: 'a> From<NodeMut<'a, T>> for NodeRef<'a, T> {
    /// Gives up write access: the reference names the same node of the same
    /// tree.
    fn from(node: NodeMut<'a, T>) -> (r: Self) {
        NodeRef { id: node.id, tree: node.tree }
    }
}

impl<'a, T: 'a> vstd::std_specs::convert::FromSpecImpl<NodeMut<'a, T>> for NodeRef<'a, T> {
    open spec fn obeys_from_spec() -> bool {
        true
    }

    open spec fn from_spec(node: NodeMut<'a, T>) -> Self {
        NodeRef { id: node.id, tree: &*node.tree }
    }
}

} // verus!
