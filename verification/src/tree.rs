//! The arena itself: node records linked by handles, and the relation that
//! ties the records to the forest they stand for.

use crate::forest::Forest;
use crate::node_mut::NodeMut;
use crate::node_ref::NodeRef;
use vstd::prelude::*;
use vstd::std_specs::cmp::PartialEqSpec;

verus! {

/// Node ID.
///
/// Index into a `Tree`-internal `Vec`. Handles are ordered by the order in
/// which their nodes were created.
#[derive(Debug, Clone, Copy, PartialEq, Eq, PartialOrd, Ord, Hash, Structural)]
pub struct NodeId(pub(crate) usize);

impl View for NodeId {
    type V = int;

    /// The number of the node that the handle names.
    closed spec fn view(&self) -> int {
        self.0 as int
    }
}

impl NodeId {
    /// Handles are the same exactly when they name the same node.
    pub proof fn lemma_same(self, other: NodeId)
        ensures
            (self == other) <==> (self@ == other@),
    {
    }

    /// The index of the node in its arena.
    pub(crate) fn index(&self) -> (i: usize)
        ensures
            i as int == self@,
    {
        self.0
    }
}

/// One record of the arena: the links of a node and its value.
#[derive(Debug, Clone, Hash)]
pub(crate) struct Node<T> {
    pub(crate) parent: Option<NodeId>,
    pub(crate) prev_sibling: Option<NodeId>,
    pub(crate) next_sibling: Option<NodeId>,
    pub(crate) children: Option<(NodeId, NodeId)>,
    pub(crate) value: T,
}

impl<T> Node<T> {
    /// The record of a node that has no parent, no siblings and no children.
    pub(crate) fn new(value: T) -> (node: Self)
        ensures
            node.parent is None,
            node.prev_sibling is None,
            node.next_sibling is None,
            node.children is None,
            node.value == value,
    {
        Node { parent: None, prev_sibling: None, next_sibling: None, children: None, value }
    }
}

/// The node number behind an optional handle.
pub open spec fn opt_index(o: Option<NodeId>) -> Option<int> {
    match o {
        Some(id) => Some(id@),
        None => None,
    }
}

/// The node numbers behind an optional pair of handles.
pub open spec fn pair_index(o: Option<(NodeId, NodeId)>) -> Option<(int, int)> {
    match o {
        Some((a, b)) => Some((a@, b@)),
        None => None,
    }
}

/// Whether `node` is the record of node `i` of the forest `f`: it holds the
/// node's value and the handles of its parent, of its two neighbours among
/// its siblings and of its first and last child.
pub(crate) open spec fn encodes<T>(node: Node<T>, f: Forest<T>, i: int) -> bool {
    &&& node.value == f.values[i]
    &&& opt_index(node.parent) == f.parents[i]
    &&& opt_index(node.prev_sibling) == f.prev_sibling(i)
    &&& opt_index(node.next_sibling) == f.next_sibling(i)
    &&& pair_index(node.children) == f.child_bounds(i)
}

/// Whether the records `nodes` encode the forest `f`, node by node.
pub(crate) open spec fn represents<T>(nodes: Seq<Node<T>>, f: Forest<T>) -> bool {
    &&& nodes.len() == f.len()
    &&& forall|i: int| 0 <= i < nodes.len() ==> encodes(#[trigger] nodes[i], f, i)
}

/// Two well-formed forests encoded by the same records list the same
/// children up to any index.
proof fn lemma_kids_agree<T>(nodes: Seq<Node<T>>, f: Forest<T>, g: Forest<T>, p: int, j: int)
    requires
        f.wf(),
        g.wf(),
        represents(nodes, f),
        represents(nodes, g),
        f.has(p),
        0 <= j,
    ensures
        j < f.kids[p].len() <==> j < g.kids[p].len(),
        j < f.kids[p].len() ==> f.kids[p][j] == g.kids[p][j],
    decreases j,
{
    assert(encodes(nodes[p], f, p));
    assert(encodes(nodes[p], g, p));
    if j > 0 {
        lemma_kids_agree(nodes, f, g, p, j - 1);
        if j - 1 < f.kids[p].len() {
            let c = f.kids[p][j - 1];
            f.lemma_siblings_at(p, j - 1);
            g.lemma_siblings_at(p, j - 1);
            assert(encodes(nodes[c], f, c));
            assert(encodes(nodes[c], g, c));
        }
    }
}

/// The records determine the forest that they encode.
pub(crate) proof fn lemma_represents_unique<T>(nodes: Seq<Node<T>>, f: Forest<T>, g: Forest<T>)
    requires
        f.wf(),
        g.wf(),
        represents(nodes, f),
        represents(nodes, g),
    ensures
        f == g,
{
    assert(f.values =~= g.values) by {
        assert forall|i: int| 0 <= i < f.values.len() implies f.values[i] == g.values[i] by {
            assert(encodes(nodes[i], f, i));
            assert(encodes(nodes[i], g, i));
        }
    }
    assert(f.parents =~= g.parents) by {
        assert forall|i: int| 0 <= i < f.parents.len() implies f.parents[i] == g.parents[i] by {
            assert(encodes(nodes[i], f, i));
            assert(encodes(nodes[i], g, i));
        }
    }
    assert(f.kids =~= g.kids) by {
        assert forall|p: int| 0 <= p < f.kids.len() implies f.kids[p] == g.kids[p] by {
            lemma_kids_agree(nodes, f, g, p, f.kids[p].len() as int);
            lemma_kids_agree(nodes, f, g, p, g.kids[p].len() as int);
            assert forall|j: int| 0 <= j < f.kids[p].len() implies f.kids[p][j] == g.kids[p][j] by {
                lemma_kids_agree(nodes, f, g, p, j);
            }
            assert(f.kids[p] =~= g.kids[p]);
        }
    }
}

/// Vec-backed ID-tree.
///
/// Always contains at least a root node.
#[derive(Debug, Clone, Hash)]
pub struct Tree<T> {
    pub(crate) vec: Vec<Node<T>>,
}

/// Whether two records hold the same links and values that `==` takes for
/// equal.
pub(crate) open spec fn same_record<T: PartialEq>(a: Node<T>, b: Node<T>) -> bool {
    &&& a.parent == b.parent
    &&& a.prev_sibling == b.prev_sibling
    &&& a.next_sibling == b.next_sibling
    &&& a.children == b.children
    &&& a.value.eq_spec(&b.value)
}

/// Whether two optional handles are the same.
fn same_handle(a: Option<NodeId>, b: Option<NodeId>) -> (r: bool)
    ensures
        r == (a == b),
{
    match (a, b) {
        (Some(x), Some(y)) => x == y,
        (None, None) => true,
        _ => false,
    }
}

/// Whether two optional pairs of handles are the same.
fn same_bounds(a: Option<(NodeId, NodeId)>, b: Option<(NodeId, NodeId)>) -> (r: bool)
    ensures
        r == (a == b),
{
    match (a, b) {
        (Some((x, y)), Some((u, v))) => x == u && y == v,
        (None, None) => true,
        _ => false,
    }
}

impl<T: PartialEq> PartialEq for Tree<T> {
    /// Two trees are equal when their arenas hold equal records, node by
    /// node: the same links and equal values.
    fn eq(&self, other: &Self) -> (r: bool) {
        if self.vec.len() != other.vec.len() {
            return false;
        }
        let mut i: usize = 0;
        while i < self.vec.len()
            invariant
                i <= self.vec@.len(),
                self.vec@.len() == other.vec@.len(),
                T::obeys_eq_spec() ==> forall|j: int|
                    0 <= j < i ==> same_record(#[trigger] self.vec@[j], other.vec@[j]),
            decreases self.vec@.len() - i,
        {
            let a = &self.vec[i];
            let b = &other.vec[i];
            if !(same_handle(a.parent, b.parent) && same_handle(a.prev_sibling, b.prev_sibling)
                && same_handle(a.next_sibling, b.next_sibling) && same_bounds(
                a.children,
                b.children,
            ) && a.value == b.value) {
                return false;
            }
            i += 1;
        }
        true
    }
}

impl<T: PartialEq> vstd::std_specs::cmp::PartialEqSpecImpl for Tree<T> {
    open spec fn obeys_eq_spec() -> bool {
        T::obeys_eq_spec()
    }

    /// The arenas have the same length and hold equal records at every
    /// index.
    closed spec fn eq_spec(&self, other: &Self) -> bool {
        &&& self.vec@.len() == other.vec@.len()
        &&& forall|j: int|
            0 <= j < self.vec@.len() ==> same_record(#[trigger] self.vec@[j], other.vec@[j])
    }
}

impl<T: Eq> Eq for Tree<T> {

}

impl<T: PartialEq> Tree<T> {
    /// What `==` means for well-formed trees: the two have the same shape,
    /// node by node the same parent and the same children, and hold values
    /// that `==` takes for equal.
    pub proof fn lemma_eq_spec(&self, other: &Self)
        requires
            self.wf(),
            other.wf(),
        ensures
            self.eq_spec(other) <==> ({
                &&& self@.parents == other@.parents
                &&& self@.kids == other@.kids
                &&& forall|i: int|
                    0 <= i < self@.len() ==> (#[trigger] self@.values[i]).eq_spec(
                        &other@.values[i],
                    )
            }),
    {
        let f = self@;
        let g = other@;
        if self.eq_spec(other) {
            let h = Forest { values: f.values, parents: g.parents, kids: g.kids };
            g.lemma_ranks();
            assert(h.ranked_by(g.some_ranks().0, g.some_ranks().1));
            assert(h.wf());
            assert forall|j: int| 0 <= j < self.vec@.len() implies encodes(
                #[trigger] self.vec@[j],
                h,
                j,
            ) by {
                assert(same_record(self.vec@[j], other.vec@[j]));
                assert(encodes(other.vec@[j], g, j));
            }
            lemma_represents_unique(self.vec@, h, f);
            assert forall|i: int| 0 <= i < f.len() implies (#[trigger] f.values[i]).eq_spec(
                &g.values[i],
            ) by {
                assert(same_record(self.vec@[i], other.vec@[i]));
                assert(encodes(other.vec@[i], g, i));
                assert(encodes(self.vec@[i], f, i));
            }
        }
        if f.parents == g.parents && f.kids == g.kids && (forall|i: int|
            0 <= i < f.len() ==> (#[trigger] f.values[i]).eq_spec(&g.values[i])) {
            assert forall|j: int| 0 <= j < self.vec@.len() implies same_record(
                #[trigger] self.vec@[j],
                other.vec@[j],
            ) by {
                assert(encodes(self.vec@[j], f, j));
                assert(encodes(other.vec@[j], g, j));
                assert(f.values[j].eq_spec(&g.values[j]));
            }
        }
    }
}

impl<T> View for Tree<T> {
    type V = Forest<T>;

    /// The forest that the arena encodes.
    closed spec fn view(&self) -> Forest<T> {
        choose|f: Forest<T>| f.wf() && #[trigger] represents(self.vec@, f)
    }
}

impl<T> Tree<T> {
    /// The records of the arena encode the view.
    pub closed spec fn encoded(&self) -> bool {
        represents(self.vec@, self@)
    }

    /// The arena encodes a well-formed forest, which is its view.
    pub open spec fn wf(&self) -> bool {
        &&& self@.wf()
        &&& self.encoded()
    }

    /// The view of a well-formed tree is a well-formed forest.
    pub proof fn lemma_view_wf(&self)
        requires
            self.wf(),
        ensures
            self@.wf(),
    {
    }

    /// A tree has no more nodes than a machine word can count.
    pub proof fn lemma_len_bounded(&self)
        requires
            self.wf(),
        ensures
            1 <= self@.len() <= usize::MAX,
    {
        assert(self.vec.len() == self.vec@.len());
    }

    /// The view of a well-formed tree is encoded by its records.
    pub(crate) proof fn lemma_view(&self)
        requires
            self.wf(),
        ensures
            self@.wf(),
            represents(self.vec@, self@),
            self.vec@.len() == self@.len(),
    {
    }

    /// The record of node `n` holds what the view says of `n`, and every
    /// handle in it names a node.
    pub(crate) proof fn lemma_links(&self, n: int)
        requires
            self.wf(),
            self@.has(n),
        ensures
            self@.wf(),
            self.vec@.len() == self@.len(),
            encodes(self.vec@[n], self@, n),
            self@.parents[n] is Some ==> self@.has(self@.parents[n].unwrap()),
            self@.prev_sibling(n) is Some ==> self@.has(self@.prev_sibling(n).unwrap()),
            self@.next_sibling(n) is Some ==> self@.has(self@.next_sibling(n).unwrap()),
            self@.kids[n].len() > 0 ==> self@.has(self@.kids[n].first()) && self@.has(
                self@.kids[n].last(),
            ),
    {
        let f = self@;
        assert(encodes(self.vec@[n], f, n));
        if f.parents[n] is Some {
            f.lemma_child_at_position(n);
            let p = f.parents[n].unwrap();
            let j = f.position(n);
            if j > 0 {
                assert(f.has(f.kids[p][j - 1]));
            }
            if j + 1 < f.kids[p].len() {
                assert(f.has(f.kids[p][j + 1]));
            }
        }
        if f.kids[n].len() > 0 {
            assert(f.has(f.kids[n][0]));
            assert(f.has(f.kids[n][f.kids[n].len() - 1]));
        }
    }

    /// Records that encode a well-formed forest make a well-formed tree with
    /// that forest as its view.
    pub(crate) proof fn lemma_encodes(&self, f: Forest<T>)
        requires
            f.wf(),
            represents(self.vec@, f),
        ensures
            self.wf(),
            self@ == f,
    {
        lemma_represents_unique(self.vec@, f, self@);
    }

    /// A tree whose records differ from those of `self` in the value of
    /// node `n` alone encodes the same forest but for that value.
    pub(crate) proof fn lemma_revalued(&self, other: &Self, n: int)
        requires
            self.wf(),
            self@.has(n),
            other.vec@.len() == self.vec@.len(),
            forall|i: int| 0 <= i < self.vec@.len() && i != n ==> other.vec@[i] == self.vec@[i],
            other.vec@[n].parent == self.vec@[n].parent,
            other.vec@[n].prev_sibling == self.vec@[n].prev_sibling,
            other.vec@[n].next_sibling == self.vec@[n].next_sibling,
            other.vec@[n].children == self.vec@[n].children,
        ensures
            other.wf(),
            other@ == self@.with_value(n, other.vec@[n].value),
    {
        let f = self@;
        let g = f.with_value(n, other.vec@[n].value);
        assert(g.wf()) by {
            f.lemma_ranks();
            assert(g.ranked_by(f.some_ranks().0, f.some_ranks().1));
        }
        assert forall|i: int| 0 <= i < other.vec@.len() implies encodes(
            #[trigger] other.vec@[i],
            g,
            i,
        ) by {
            assert(encodes(self.vec@[i], f, i));
        }
        other.lemma_encodes(g);
    }

    /// Creates a tree with a root node.
    pub fn new(root: T) -> (tree: Self)
        ensures
            tree.wf(),
            tree@ == Forest::single(root),
    {
        let mut vec = Vec::new();
        vec.push(Node::new(root));
        let tree = Tree { vec };
        proof {
            let f = Forest::single(root);
            Forest::lemma_single_wf(root);
            assert(represents(tree.vec@, f));
            tree.lemma_encodes(f);
        }
        tree
    }

    /// Creates a tree with a root node and the specified capacity.
    pub fn with_capacity(root: T, capacity: usize) -> (tree: Self)
        ensures
            tree.wf(),
            tree@ == Forest::single(root),
    {
        let mut vec = Vec::with_capacity(capacity);
        vec.push(Node::new(root));
        let tree = Tree { vec };
        proof {
            let f = Forest::single(root);
            Forest::lemma_single_wf(root);
            assert(represents(tree.vec@, f));
            tree.lemma_encodes(f);
        }
        tree
    }

    /// Returns a reference to the specified node.
    pub fn get(&self, id: NodeId) -> (r: Option<NodeRef<'_, T>>)
        requires
            self.wf(),
        ensures
            r is Some <==> self@.has(id@),
            r is Some ==> r.unwrap().wf() && r.unwrap().id == id && *r.unwrap().tree == *self,
    {
        if id.0 < self.vec.len() {
            Some(NodeRef { id, tree: self })
        } else {
            None
        }
    }

    /// Returns a mutator of the specified node.
    pub fn get_mut(&mut self, id: NodeId) -> (r: Option<NodeMut<'_, T>>)
        requires
            old(self).wf(),
        ensures
            r is Some <==> old(self)@.has(id@),
            match r {
                Some(m) => m.wf() && m.id == id && *m.tree == *old(self) && *final(m.tree)
                    == *final(self),
                None => *final(self) == *old(self),
            },
    {
        if id.0 < self.vec.len() {
            Some(NodeMut { id, tree: self })
        } else {
            None
        }
    }

    /// Returns a reference to the specified node, which must exist.
    pub fn get_unchecked(&self, id: NodeId) -> (r: NodeRef<'_, T>)
        requires
            self.wf(),
            self@.has(id@),
        ensures
            r.wf(),
            r.id == id,
            *r.tree == *self,
    {
        NodeRef { id, tree: self }
    }

    /// Returns a mutator of the specified node, which must exist.
    pub fn get_unchecked_mut(&mut self, id: NodeId) -> (m: NodeMut<'_, T>)
        requires
            old(self).wf(),
            old(self)@.has(id@),
        ensures
            m.wf(),
            m.id == id,
            *m.tree == *old(self),
            *final(m.tree) == *final(self),
    {
        NodeMut { id, tree: self }
    }

    /// Returns a reference to the root node.
    pub fn root(&self) -> (r: NodeRef<'_, T>)
        requires
            self.wf(),
        ensures
            r.wf(),
            r.id@ == 0,
            *r.tree == *self,
    {
        proof {
            self.lemma_view();
        }
        self.get_unchecked(NodeId(0))
    }

    /// Returns a mutator of the root node.
    pub fn root_mut(&mut self) -> (m: NodeMut<'_, T>)
        requires
            old(self).wf(),
        ensures
            m.wf(),
            m.id@ == 0,
            *m.tree == *old(self),
            *final(m.tree) == *final(self),
    {
        proof {
            self.lemma_view();
        }
        self.get_unchecked_mut(NodeId(0))
    }

    /// Creates an orphan node.
    pub fn orphan(&mut self, value: T) -> (m: NodeMut<'_, T>)
        requires
            old(self).wf(),
        ensures
            m.wf(),
            m.id@ == old(self)@.len(),
            m.tree@ == old(self)@.orphan(value),
            *final(m.tree) == *final(self),
    {
        let ghost f = self@;
        proof {
            self.lemma_view();
            f.lemma_orphan_wf(value);
        }
        let id = NodeId(self.vec.len());
        self.vec.push(Node::new(value));
        proof {
            let g = f.orphan(value);
            assert forall|i: int| 0 <= i < self.vec@.len() implies encodes(
                #[trigger] self.vec@[i],
                g,
                i,
            ) by {
                if i < f.len() {
                    assert(encodes(old(self).vec@[i], f, i));
                }
            }
            self.lemma_encodes(g);
        }
        NodeMut { id, tree: self }
    }

    /// The handle of the child that stands at `index` in the list of
    /// `parent`, found by walking the list from its first child.
    pub(crate) fn child_at(&self, parent: NodeId, index: usize) -> (id: NodeId)
        requires
            self.wf(),
            self@.has(parent@),
            index < self@.kids[parent@].len(),
        ensures
            id@ == self@.kids[parent@][index as int],
            self@.has(id@),
    {
        proof {
            self.lemma_links(parent@);
            self@.lemma_siblings_at(parent@, 0);
        }
        let mut cur = self.vec[parent.0].children.unwrap().0;
        let mut i: usize = 0;
        while i < index
            invariant
                self.wf(),
                self@.has(parent@),
                i <= index < self@.kids[parent@].len(),
                cur@ == self@.kids[parent@][i as int],
                self@.has(cur@),
            decreases index - i,
        {
            proof {
                self.lemma_links(cur@);
                self@.lemma_siblings_at(parent@, i as int);
                self@.lemma_siblings_at(parent@, i + 1);
            }
            cur = self.vec[cur.0].next_sibling.unwrap();
            i += 1;
        }
        cur
    }
}

} // verus!
