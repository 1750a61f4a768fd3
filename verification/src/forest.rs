//! The mathematical model of a tree arena: for each node its value, its
//! parent and the ordered sequence of its children.

use vstd::prelude::*;

verus! {

/// Abstract state of an arena of `len()` nodes, numbered from zero.
///
/// Node `0` is the root. A node without a parent is the root or an orphan.
pub struct Forest<T> {
    /// The value held by each node.
    pub values: Seq<T>,
    /// The parent of each node, if it has one.
    pub parents: Seq<Option<int>>,
    /// The children of each node, first to last.
    pub kids: Seq<Seq<int>>,
}

impl<T> Forest<T> {
    /// Number of nodes in the arena.
    pub open spec fn len(self) -> int {
        self.parents.len() as int
    }

    /// Whether `n` names a node of the arena.
    pub open spec fn has(self, n: int) -> bool {
        0 <= n < self.len()
    }

    /// `up` strictly grows from every parent to its child and `down` strictly
    /// shrinks: a pair of witnesses that the parent relation has no cycle.
    pub open spec fn ranked_by(self, up: Seq<nat>, down: Seq<nat>) -> bool {
        &&& up.len() == self.len()
        &&& down.len() == self.len()
        &&& forall|c: int|
            self.has(c) && (#[trigger] self.parents[c]) is Some ==> {
                let p = self.parents[c].unwrap();
                up[p] < up[c] && down[c] < down[p]
            }
    }

    /// No node is its own ancestor.
    pub open spec fn acyclic(self) -> bool {
        exists|up: Seq<nat>, down: Seq<nat>| #[trigger] self.ranked_by(up, down)
    }

    /// The parent and child relations describe the same edges, every child
    /// list is free of repetitions, the root has no parent, and no node is its
    /// own ancestor.
    pub open spec fn wf(self) -> bool {
        &&& self.len() >= 1
        &&& self.values.len() == self.len()
        &&& self.kids.len() == self.len()
        &&& self.parents[0] is None
        &&& forall|p: int, j: int|
            self.has(p) && 0 <= j < self.kids[p].len() ==> self.has(#[trigger] self.kids[p][j])
                && self.parents[self.kids[p][j]] == Some(p)
        &&& forall|p: int| self.has(p) ==> (#[trigger] self.kids[p]).no_duplicates()
        &&& forall|c: int|
            self.has(c) && (#[trigger] self.parents[c]) is Some ==> self.has(
                self.parents[c].unwrap(),
            ) && self.kids[self.parents[c].unwrap()].contains(c)
        &&& self.acyclic()
    }

    /// The forest that holds a lone root with the given value.
    pub open spec fn single(root: T) -> Self {
        Forest { values: seq![root], parents: seq![None], kids: seq![Seq::empty()] }
    }

    /// Position of `n` among the children of its parent.
    pub open spec fn position(self, n: int) -> int
        recommends
            self.has(n),
            self.parents[n] is Some,
    {
        self.kids[self.parents[n].unwrap()].index_of(n)
    }

    /// The index at which `c` stands among the children of `p`, if it is one
    /// of them.
    pub open spec fn child_index(self, p: int, c: int) -> Option<usize> {
        if self.kids[p].contains(c) {
            Some(self.kids[p].index_of(c) as usize)
        } else {
            None
        }
    }

    /// The sibling that directly precedes `n`.
    pub open spec fn prev_sibling(self, n: int) -> Option<int> {
        match self.parents[n] {
            Some(p) => if self.position(n) > 0 {
                Some(self.kids[p][self.position(n) - 1])
            } else {
                None
            },
            None => None,
        }
    }

    /// The sibling that directly follows `n`.
    pub open spec fn next_sibling(self, n: int) -> Option<int> {
        match self.parents[n] {
            Some(p) => if self.position(n) + 1 < self.kids[p].len() {
                Some(self.kids[p][self.position(n) + 1])
            } else {
                None
            },
            None => None,
        }
    }

    /// The first child of `n`.
    pub open spec fn first_child(self, n: int) -> Option<int> {
        if self.kids[n].len() > 0 {
            Some(self.kids[n].first())
        } else {
            None
        }
    }

    /// The last child of `n`.
    pub open spec fn last_child(self, n: int) -> Option<int> {
        if self.kids[n].len() > 0 {
            Some(self.kids[n].last())
        } else {
            None
        }
    }

    /// First and last child of `n` together.
    pub open spec fn child_bounds(self, n: int) -> Option<(int, int)> {
        if self.kids[n].len() > 0 {
            Some((self.kids[n].first(), self.kids[n].last()))
        } else {
            None
        }
    }

    /// Some pair of witnesses of acyclicity (meaningful when `acyclic()`).
    pub open spec fn some_ranks(self) -> (Seq<nat>, Seq<nat>) {
        choose|r: (Seq<nat>, Seq<nat>)| self.ranked_by(r.0, r.1)
    }

    /// Whether `n` is `top` itself or lies below it.
    pub open spec fn in_subtree(self, top: int, n: int) -> bool
        decreases
            (if self.has(n) {
                self.some_ranks().0[n]
            } else {
                0
            }),
    {
        n == top || (self.has(n) && match self.parents[n] {
            Some(p) => self.has(p) && self.some_ranks().0[p] < self.some_ranks().0[n]
                && self.in_subtree(top, p),
            None => false,
        })
    }

    /// In a well-formed forest the ranks can be taken for granted.
    pub proof fn lemma_ranks(self)
        requires
            self.wf(),
        ensures
            self.ranked_by(self.some_ranks().0, self.some_ranks().1),
    {
        let (up, down) = choose|up: Seq<nat>, down: Seq<nat>| self.ranked_by(up, down);
        assert(self.ranked_by((up, down).0, (up, down).1));
    }

    /// One step of the definition of `in_subtree`, without the ranks.
    pub proof fn lemma_in_subtree_step(self, top: int, n: int)
        requires
            self.wf(),
            self.has(n),
        ensures
            self.in_subtree(top, n) == (n == top || (self.parents[n] is Some && self.in_subtree(
                top,
                self.parents[n].unwrap(),
            ))),
    {
        self.lemma_ranks();
    }

    /// In a well-formed forest a child's position is the index at which it
    /// stands in its parent's list.
    pub proof fn lemma_position(self, p: int, j: int)
        requires
            self.wf(),
            self.has(p),
            0 <= j < self.kids[p].len(),
        ensures
            self.position(self.kids[p][j]) == j,
            self.parents[self.kids[p][j]] == Some(p),
    {
        let c = self.kids[p][j];
        let i = self.kids[p].index_of(c);
        assert(self.kids[p].no_duplicates());
    }

    /// The siblings of the child that stands at index `j` of a list are its
    /// neighbours in the list.
    pub proof fn lemma_siblings_at(self, p: int, j: int)
        requires
            self.wf(),
            self.has(p),
            0 <= j < self.kids[p].len(),
        ensures
            self.has(self.kids[p][j]),
            self.parents[self.kids[p][j]] == Some(p),
            self.position(self.kids[p][j]) == j,
            self.prev_sibling(self.kids[p][j]) == (if j == 0 {
                None
            } else {
                Some(self.kids[p][j - 1])
            }),
            self.next_sibling(self.kids[p][j]) == (if j + 1 == self.kids[p].len() {
                None
            } else {
                Some(self.kids[p][j + 1])
            }),
    {
        self.lemma_position(p, j);
    }

    /// A node has no more children than there are nodes.
    pub proof fn lemma_kids_bounded(self, p: int)
        requires
            self.wf(),
            self.has(p),
        ensures
            self.kids[p].len() <= self.len(),
    {
        let s = self.kids[p];
        let all = vstd::set_lib::set_int_range(0, self.len());
        s.unique_seq_to_set();
        vstd::set_lib::lemma_int_range(0, self.len());
        assert forall|x: int| s.to_set().contains(x) implies all.contains(x) by {
            let i = s.index_of(x);
            assert(self.has(s[i]));
        }
        vstd::set_lib::lemma_len_subset(s.to_set(), all);
    }

    /// A node with a parent stands in that parent's list at its position.
    pub proof fn lemma_child_at_position(self, c: int)
        requires
            self.wf(),
            self.has(c),
            self.parents[c] is Some,
        ensures
            self.has(self.parents[c].unwrap()),
            0 <= self.position(c) < self.kids[self.parents[c].unwrap()].len(),
            self.kids[self.parents[c].unwrap()][self.position(c)] == c,
    {
    }

    /// The forest with one more node: an orphan that holds `value`.
    pub open spec fn orphan(self, value: T) -> Self {
        Forest {
            values: self.values.push(value),
            parents: self.parents.push(None),
            kids: self.kids.push(Seq::empty()),
        }
    }

    /// The forest in which node `n` holds `value` and nothing else differs.
    pub open spec fn with_value(self, n: int, value: T) -> Self {
        Forest { values: self.values.update(n, value), parents: self.parents, kids: self.kids }
    }

    /// The forest in which `c` has left its parent's list and has no parent.
    /// A node without a parent stays as it is.
    pub open spec fn detach(self, c: int) -> Self {
        match self.parents[c] {
            Some(p) => Forest {
                values: self.values,
                parents: self.parents.update(c, None),
                kids: self.kids.update(p, self.kids[p].remove(self.position(c))),
            },
            None => self,
        }
    }

    /// The forest in which the parentless node `c` has become the child of `p`
    /// at index `k` of its list.
    pub open spec fn attach(self, p: int, k: int, c: int) -> Self {
        Forest {
            values: self.values,
            parents: self.parents.update(c, Some(p)),
            kids: self.kids.update(p, self.kids[p].insert(k, c)),
        }
    }

    /// A single root is a well-formed forest.
    pub proof fn lemma_single_wf(root: T)
        ensures
            Self::single(root).wf(),
    {
        let f = Self::single(root);
        let zeros = seq![0nat];
        assert(f.ranked_by(zeros, zeros));
        assert(f.kids[0].no_duplicates());
    }

    /// Adding an orphan keeps a forest well-formed.
    pub proof fn lemma_orphan_wf(self, value: T)
        requires
            self.wf(),
        ensures
            self.orphan(value).wf(),
    {
        let g = self.orphan(value);
        self.lemma_ranks();
        let (up, down) = self.some_ranks();
        assert(g.ranked_by(up.push(0), down.push(0)));
        assert forall|p: int, j: int| g.has(p) && 0 <= j < g.kids[p].len() implies g.has(
            #[trigger] g.kids[p][j],
        ) && g.parents[g.kids[p][j]] == Some(p) by {
            assert(self.has(self.kids[p][j]));
        }
        assert forall|p: int| g.has(p) implies (#[trigger] g.kids[p]).no_duplicates() by {
            if p < self.len() {
                assert(self.kids[p].no_duplicates());
            }
        }
        assert forall|c: int| g.has(c) && (#[trigger] g.parents[c]) is Some implies g.has(
            g.parents[c].unwrap(),
        ) && g.kids[g.parents[c].unwrap()].contains(c) by {
            assert(self.parents[c] is Some);
        }
    }

    /// Detaching keeps a forest well-formed.
    pub proof fn lemma_detach_wf(self, c: int)
        requires
            self.wf(),
            self.has(c),
        ensures
            self.detach(c).wf(),
    {
        let g = self.detach(c);
        if self.parents[c] is Some {
            let p = self.parents[c].unwrap();
            let j = self.position(c);
            let s = self.kids[p];
            self.lemma_child_at_position(c);
            assert(s.no_duplicates());
            self.lemma_ranks();
            assert(g.ranked_by(self.some_ranks().0, self.some_ranks().1));
            assert forall|q: int, i: int| g.has(q) && 0 <= i < g.kids[q].len() implies g.has(
                #[trigger] g.kids[q][i],
            ) && g.parents[g.kids[q][i]] == Some(q) by {
                if q == p {
                    if i < j {
                        assert(g.kids[q][i] == s[i]);
                    } else {
                        assert(g.kids[q][i] == s[i + 1]);
                    }
                } else {
                    assert(g.kids[q][i] == self.kids[q][i]);
                }
            }
            assert forall|q: int| g.has(q) implies (#[trigger] g.kids[q]).no_duplicates() by {
                assert(self.kids[q].no_duplicates());
                if q == p {
                    s.remove_ensures(j);
                }
            }
            assert forall|n: int| g.has(n) && (#[trigger] g.parents[n]) is Some implies g.has(
                g.parents[n].unwrap(),
            ) && g.kids[g.parents[n].unwrap()].contains(n) by {
                let q = self.parents[n].unwrap();
                self.lemma_child_at_position(n);
                let i = self.position(n);
                if q == p {
                    if i < j {
                        assert(g.kids[q][i] == n);
                    } else {
                        assert(g.kids[q][i - 1] == n);
                    }
                } else {
                    assert(g.kids[q][i] == n);
                }
            }
        }
    }

    /// A node of a subtree ranks no higher than the subtree's top.
    pub proof fn lemma_in_subtree_ranks(self, top: int, n: int)
        requires
            self.wf(),
            self.has(n),
            self.in_subtree(top, n),
        ensures
            self.has(top),
            self.some_ranks().0[top] <= self.some_ranks().0[n],
            self.some_ranks().1[n] <= self.some_ranks().1[top],
        decreases self.some_ranks().0[n],
    {
        self.lemma_ranks();
        if n != top {
            self.lemma_in_subtree_ranks(top, self.parents[n].unwrap());
        }
    }

    /// What lies below a node lies below that node's parent.
    pub proof fn lemma_in_subtree_of_parent(self, m: int, n: int)
        requires
            self.wf(),
            self.has(m),
            self.has(n),
            self.parents[m] is Some,
            self.in_subtree(m, n),
        ensures
            self.in_subtree(self.parents[m].unwrap(), n),
        decreases self.some_ranks().0[n],
    {
        self.lemma_ranks();
        let q = self.parents[m].unwrap();
        if n == m {
            assert(self.in_subtree(q, q));
        } else {
            self.lemma_in_subtree_of_parent(m, self.parents[n].unwrap());
        }
    }

    /// No node lies below itself: a node's parent is outside its subtree.
    pub proof fn lemma_parent_outside(self, n: int)
        requires
            self.wf(),
            self.has(n),
            self.parents[n] is Some,
        ensures
            !self.in_subtree(n, self.parents[n].unwrap()),
    {
        self.lemma_ranks();
        let q = self.parents[n].unwrap();
        if self.in_subtree(n, q) {
            self.lemma_in_subtree_ranks(n, q);
        }
    }

    /// Nothing lies below a node without children but the node itself.
    pub proof fn lemma_leaf_subtree(self, leaf: int, n: int)
        requires
            self.wf(),
            self.has(leaf),
            self.has(n),
            self.kids[leaf].len() == 0,
        ensures
            self.in_subtree(leaf, n) == (n == leaf),
        decreases self.some_ranks().0[n],
    {
        self.lemma_ranks();
        if n != leaf && self.parents[n] is Some {
            let q = self.parents[n].unwrap();
            assert(self.kids[q].contains(n));
            self.lemma_leaf_subtree(leaf, q);
        }
    }

    /// A fresh orphan can be adopted by every node that was there before it,
    /// and the nodes that were there keep their parents and children.
    pub proof fn lemma_fresh_orphan(self, value: T, p: int)
        requires
            self.wf(),
            self.has(p),
        ensures
            self.orphan(value).wf(),
            self.orphan(value).can_adopt(p, self.len()),
            self.orphan(value).parents[p] == self.parents[p],
            self.orphan(value).kids[p] == self.kids[p],
    {
        self.lemma_orphan_wf(value);
        self.orphan(value).lemma_leaf_subtree(self.len(), p);
    }

    /// Detaching `c` does not change what lies below `c`.
    pub proof fn lemma_detach_subtree(self, c: int, n: int)
        requires
            self.wf(),
            self.has(c),
            self.has(n),
        ensures
            self.detach(c).in_subtree(c, n) == self.in_subtree(c, n),
        decreases self.some_ranks().0[n],
    {
        let g = self.detach(c);
        self.lemma_detach_wf(c);
        self.lemma_ranks();
        self.lemma_in_subtree_step(c, n);
        g.lemma_in_subtree_step(c, n);
        if n != c && self.parents[n] is Some {
            self.lemma_detach_subtree(c, self.parents[n].unwrap());
        }
    }

    /// Attaching a parentless node that is neither the root nor above its new
    /// parent keeps a forest well-formed.
    pub proof fn lemma_attach_wf(self, p: int, k: int, c: int)
        requires
            self.wf(),
            self.has(p),
            self.has(c),
            c != 0,
            self.parents[c] is None,
            0 <= k <= self.kids[p].len(),
            !self.in_subtree(c, p),
        ensures
            self.attach(p, k, c).wf(),
    {
        let g = self.attach(p, k, c);
        let s = self.kids[p];
        self.lemma_ranks();
        let (up, down) = self.some_ranks();
        s.insert_ensures(k, c);
        assert forall|i: int| 0 <= i < s.len() implies s[i] != c by {
            assert(self.parents[s[i]] == Some(p));
        }
        assert forall|q: int, i: int| g.has(q) && 0 <= i < g.kids[q].len() implies g.has(
            #[trigger] g.kids[q][i],
        ) && g.parents[g.kids[q][i]] == Some(q) by {
            if q == p {
                if i < k {
                    assert(g.kids[q][i] == s[i]);
                } else if i > k {
                    assert(g.kids[q][i] == s[i - 1]);
                }
            } else {
                assert(g.kids[q][i] == self.kids[q][i]);
                assert(self.parents[self.kids[q][i]] == Some(q));
            }
        }
        assert forall|q: int| g.has(q) implies (#[trigger] g.kids[q]).no_duplicates() by {
            assert(self.kids[q].no_duplicates());
            if q == p {
                let t = g.kids[p];
                assert forall|a: int, b: int| 0 <= a < t.len() && 0 <= b < t.len() && a != b implies t[a] != t[b] by {
                    let a0 = if a < k { a } else { a - 1 };
                    let b0 = if b < k { b } else { b - 1 };
                    if a != k && b != k {
                        assert(t[a] == s[a0]);
                        assert(t[b] == s[b0]);
                    } else if a == k {
                        assert(t[b] == s[b0]);
                    } else {
                        assert(t[a] == s[a0]);
                    }
                }
            }
        }
        assert forall|n: int| g.has(n) && (#[trigger] g.parents[n]) is Some implies g.has(
            g.parents[n].unwrap(),
        ) && g.kids[g.parents[n].unwrap()].contains(n) by {
            if n == c {
                assert(g.kids[p][k] == c);
            } else {
                let q = self.parents[n].unwrap();
                self.lemma_child_at_position(n);
                let i = self.position(n);
                if q == p {
                    if i < k {
                        assert(g.kids[q][i] == n);
                    } else {
                        assert(g.kids[q][i + 1] == n);
                    }
                } else {
                    assert(g.kids[q][i] == n);
                }
            }
        }
        let up1 = Seq::new(
            self.len() as nat,
            |n: int|
                if self.in_subtree(c, n) {
                    up[n] + up[p] + 1
                } else {
                    up[n]
                },
        );
        let down1 = Seq::new(
            self.len() as nat,
            |n: int|
                if self.in_subtree(n, p) {
                    down[n] + down[c] + 1
                } else {
                    down[n]
                },
        );
        assert forall|n: int| g.has(n) && (#[trigger] g.parents[n]) is Some implies ({
            let q = g.parents[n].unwrap();
            up1[q] < up1[n] && down1[n] < down1[q]
        }) by {
            let q = g.parents[n].unwrap();
            if n == c {
                assert(self.in_subtree(p, p));
                assert(self.in_subtree(c, c));
            } else {
                self.lemma_in_subtree_step(c, n);
                if self.in_subtree(n, p) {
                    self.lemma_in_subtree_of_parent(n, p);
                }
            }
        }
        assert(g.ranked_by(up1, down1));
    }

    /// The links of node `n` after `c` is detached: `c` has no parent and no
    /// siblings, its former neighbours are joined to each other, and its
    /// former parent's list has lost it; the other links are unchanged.
    pub proof fn lemma_detach_links(self, c: int, n: int)
        requires
            self.wf(),
            self.has(c),
            self.has(n),
            self.parents[c] is Some,
        ensures
            ({
                let g = self.detach(c);
                let p = self.parents[c].unwrap();
                let s = self.kids[p];
                let j = self.position(c);
                &&& g.values[n] == self.values[n]
                &&& g.parents[n] == (if n == c {
                    None
                } else {
                    self.parents[n]
                })
                &&& g.prev_sibling(n) == (if n == c {
                    None
                } else if self.next_sibling(c) == Some(n) {
                    self.prev_sibling(c)
                } else {
                    self.prev_sibling(n)
                })
                &&& g.next_sibling(n) == (if n == c {
                    None
                } else if self.prev_sibling(c) == Some(n) {
                    self.next_sibling(c)
                } else {
                    self.next_sibling(n)
                })
                &&& g.child_bounds(n) == (if n != p {
                    self.child_bounds(n)
                } else if s.len() == 1 {
                    None
                } else if j == 0 {
                    Some((s[1], s.last()))
                } else if j == s.len() - 1 {
                    Some((s[0], s[s.len() - 2]))
                } else {
                    self.child_bounds(n)
                })
            }),
    {
        let g = self.detach(c);
        let p = self.parents[c].unwrap();
        let s = self.kids[p];
        let j = self.position(c);
        self.lemma_detach_wf(c);
        self.lemma_child_at_position(c);
        self.lemma_siblings_at(p, j);
        s.remove_ensures(j);
        assert(s.no_duplicates());
        if n != c && self.parents[n] is Some {
            let q = self.parents[n].unwrap();
            self.lemma_child_at_position(n);
            let i = self.position(n);
            self.lemma_siblings_at(q, i);
            if q == p {
                let i1 = if i < j {
                    i
                } else {
                    i - 1
                };
                assert(g.kids[p][i1] == n);
                g.lemma_siblings_at(p, i1);
                if i1 > 0 {
                    assert(g.kids[p][i1 - 1] == if i1 - 1 < j { s[i1 - 1] } else { s[i1] });
                }
                if i1 + 1 < g.kids[p].len() {
                    assert(g.kids[p][i1 + 1] == if i1 + 1 < j { s[i1 + 1] } else { s[i1 + 2] });
                }
            } else {
                assert(g.kids[q] == self.kids[q]);
            }
        }
        if n == p {
            if s.len() > 1 {
                assert(g.kids[p][0] == if j == 0 { s[1] } else { s[0] });
                assert(g.kids[p][s.len() - 2] == if j == s.len() - 1 { s[s.len() - 2] } else { s[s.len() - 1] });
            }
        } else {
            assert(g.kids[n] == self.kids[n]);
        }
    }

    /// The links of node `n` after the parentless `c` is attached at index
    /// `k` below `p`: `c` stands between the children that were on either
    /// side of that place; the other links are unchanged.
    pub proof fn lemma_attach_links(self, p: int, k: int, c: int, n: int)
        requires
            self.wf(),
            self.has(p),
            self.has(c),
            self.has(n),
            c != 0,
            self.parents[c] is None,
            0 <= k <= self.kids[p].len(),
            !self.in_subtree(c, p),
        ensures
            ({
                let g = self.attach(p, k, c);
                let s = self.kids[p];
                &&& g.values[n] == self.values[n]
                &&& g.parents[n] == (if n == c {
                    Some(p)
                } else {
                    self.parents[n]
                })
                &&& g.prev_sibling(n) == (if n == c {
                    if k == 0 {
                        None
                    } else {
                        Some(s[k - 1])
                    }
                } else if k < s.len() && n == s[k] {
                    Some(c)
                } else {
                    self.prev_sibling(n)
                })
                &&& g.next_sibling(n) == (if n == c {
                    if k == s.len() {
                        None
                    } else {
                        Some(s[k])
                    }
                } else if k > 0 && n == s[k - 1] {
                    Some(c)
                } else {
                    self.next_sibling(n)
                })
                &&& g.child_bounds(n) == (if n != p {
                    self.child_bounds(n)
                } else {
                    Some(
                        (
                            if k == 0 {
                                c
                            } else {
                                s[0]
                            },
                            if k == s.len() {
                                c
                            } else {
                                s.last()
                            },
                        ),
                    )
                })
            }),
    {
        let g = self.attach(p, k, c);
        let s = self.kids[p];
        self.lemma_attach_wf(p, k, c);
        s.insert_ensures(k, c);
        assert(g.kids[p][k] == c);
        if n == c {
            g.lemma_siblings_at(p, k);
            if k > 0 {
                assert(g.kids[p][k - 1] == s[k - 1]);
            }
            if k < s.len() {
                assert(g.kids[p][k + 1] == s[k]);
            }
        } else if self.parents[n] is Some {
            let q = self.parents[n].unwrap();
            self.lemma_child_at_position(n);
            let i = self.position(n);
            self.lemma_siblings_at(q, i);
            if q == p {
                let i1 = if i < k {
                    i
                } else {
                    i + 1
                };
                assert(g.kids[p][i1] == n);
                g.lemma_siblings_at(p, i1);
                if i1 > 0 {
                    assert(g.kids[p][i1 - 1] == if i1 - 1 < k { s[i1 - 1] } else if i1 - 1 == k { c } else { s[i1 - 2] });
                }
                if i1 + 1 < g.kids[p].len() {
                    assert(g.kids[p][i1 + 1] == if i1 + 1 < k { s[i1 + 1] } else if i1 + 1 == k { c } else { s[i1] });
                }
            } else {
                assert(g.kids[q] == self.kids[q]);
            }
        }
        if n == p {
            assert(g.kids[p][0] == if k == 0 { c } else { s[0] });
            assert(g.kids[p][s.len() as int] == if k == s.len() { c } else { s[s.len() - 1] });
        } else {
            assert(g.kids[n] == self.kids[n]);
        }
    }

    /// Whether `c` may become a child of `p`, or a sibling of `p`: it is not
    /// the root and is neither `p` nor above `p`.
    pub open spec fn can_adopt(self, p: int, c: int) -> bool {
        &&& self.has(p)
        &&& self.has(c)
        &&& c != 0
        &&& !self.in_subtree(c, p)
    }

    /// `c`, taken from where it was, as the last child of `p`.
    pub open spec fn append_id(self, p: int, c: int) -> Self {
        let g = self.detach(c);
        g.attach(p, g.kids[p].len() as int, c)
    }

    /// `c`, taken from where it was, as the first child of `p`.
    pub open spec fn prepend_id(self, p: int, c: int) -> Self {
        self.detach(c).attach(p, 0, c)
    }

    /// `c`, taken from where it was, as the sibling just before `s`.
    pub open spec fn insert_id_before(self, s: int, c: int) -> Self {
        let g = self.detach(c);
        g.attach(g.parents[s].unwrap(), g.position(s), c)
    }

    /// `c`, taken from where it was, as the sibling just after `s`.
    pub open spec fn insert_id_after(self, s: int, c: int) -> Self {
        let g = self.detach(c);
        g.attach(g.parents[s].unwrap(), g.position(s) + 1, c)
    }

    /// `c` placed among the children of `p`: first where `index` is zero, else
    /// just after the child that stands at `index - 1`.
    pub open spec fn insert_id(self, p: int, c: int, index: int) -> Self {
        if index == 0 {
            self.prepend_id(p, c)
        } else {
            self.insert_id_after(self.kids[p][index - 1], c)
        }
    }

    /// A new node with `value` as the last child of `p`.
    pub open spec fn append(self, p: int, value: T) -> Self {
        self.orphan(value).append_id(p, self.len())
    }

    /// A new node with `value` as the first child of `p`.
    pub open spec fn prepend(self, p: int, value: T) -> Self {
        self.orphan(value).prepend_id(p, self.len())
    }

    /// A new node with `value` among the children of `p`, see `insert_id`.
    pub open spec fn insert(self, p: int, value: T, index: int) -> Self {
        self.orphan(value).insert_id(p, self.len(), index)
    }

    /// A new node with `value` as the sibling just before `s`.
    pub open spec fn insert_before(self, s: int, value: T) -> Self {
        self.orphan(value).insert_id_before(s, self.len())
    }

    /// A new node with `value` as the sibling just after `s`.
    pub open spec fn insert_after(self, s: int, value: T) -> Self {
        self.orphan(value).insert_id_after(s, self.len())
    }

    /// After `c` is detached it can be attached below any node that it could
    /// adopt before, at any index of that node's list.
    pub proof fn lemma_detach_then_attach_wf(self, p: int, k: int, c: int)
        requires
            self.wf(),
            self.can_adopt(p, c),
            0 <= k <= self.detach(c).kids[p].len(),
        ensures
            self.detach(c).wf(),
            self.detach(c).attach(p, k, c).wf(),
    {
        let g = self.detach(c);
        self.lemma_detach_wf(c);
        self.lemma_detach_subtree(c, p);
        g.lemma_attach_wf(p, k, c);
    }

    /// Whether `dst` may take over the children of `src`: both exist, and
    /// `src` is `dst` itself or is not above `dst`.
    pub open spec fn can_take_children(self, dst: int, src: int) -> bool {
        &&& self.has(dst)
        &&& self.has(src)
        &&& (src == dst || !self.in_subtree(src, dst))
    }

    /// The forest in which the children of `src` have become children of
    /// `dst`, in their order: before the children that `dst` had where
    /// `front` holds, after them where it does not. `src` is left without
    /// children. Nothing changes where `src` is `dst`.
    pub open spec fn take_children(self, dst: int, src: int, front: bool) -> Self {
        if src == dst {
            self
        } else {
            Forest {
                values: self.values,
                parents: Seq::new(
                    self.parents.len(),
                    |n: int|
                        if self.parents[n] == Some(src) {
                            Some(dst)
                        } else {
                            self.parents[n]
                        },
                ),
                kids: self.kids.update(
                    dst,
                    if front {
                        self.kids[src] + self.kids[dst]
                    } else {
                        self.kids[dst] + self.kids[src]
                    },
                ).update(src, Seq::empty()),
            }
        }
    }

    /// The children of `src` appended to those of `dst`.
    pub open spec fn reparent_append(self, dst: int, src: int) -> Self {
        self.take_children(dst, src, false)
    }

    /// The children of `src` prepended to those of `dst`.
    pub open spec fn reparent_prepend(self, dst: int, src: int) -> Self {
        self.take_children(dst, src, true)
    }

    /// Taking over the children of a node that has none changes nothing.
    pub proof fn lemma_take_no_children(self, dst: int, src: int, front: bool)
        requires
            self.wf(),
            self.has(dst),
            self.has(src),
            self.kids[src].len() == 0,
        ensures
            self.take_children(dst, src, front) == self,
    {
        let g = self.take_children(dst, src, front);
        if src != dst {
            assert(g.parents =~= self.parents) by {
                assert forall|n: int| 0 <= n < self.len() implies g.parents[n]
                    == self.parents[n] by {
                    if self.parents[n] == Some(src) {
                        assert(self.kids[src].contains(n));
                    }
                }
            }
            assert(self.kids[src] + self.kids[dst] =~= self.kids[dst]);
            assert(self.kids[dst] + self.kids[src] =~= self.kids[dst]);
            assert(self.kids[src] =~= Seq::empty());
            assert(g.kids =~= self.kids);
        }
    }

    /// Taking over children keeps a forest well-formed.
    pub proof fn lemma_take_children_wf(self, dst: int, src: int, front: bool)
        requires
            self.wf(),
            self.can_take_children(dst, src),
        ensures
            self.take_children(dst, src, front).wf(),
    {
        let g = self.take_children(dst, src, front);
        if src != dst {
            let sd = self.kids[dst];
            let ss = self.kids[src];
            let t = g.kids[dst];
            self.lemma_ranks();
            let (up, down) = self.some_ranks();
            assert forall|q: int, i: int| g.has(q) && 0 <= i < g.kids[q].len() implies g.has(
                #[trigger] g.kids[q][i],
            ) && g.parents[g.kids[q][i]] == Some(q) by {
                if q == dst {
                    if front {
                        if i < ss.len() {
                            assert(t[i] == ss[i]);
                        } else {
                            assert(t[i] == sd[i - ss.len()]);
                        }
                    } else {
                        if i < sd.len() {
                            assert(t[i] == sd[i]);
                        } else {
                            assert(t[i] == ss[i - sd.len()]);
                        }
                    }
                } else {
                    assert(g.kids[q][i] == self.kids[q][i]);
                    assert(self.parents[self.kids[q][i]] == Some(q));
                }
            }
            assert forall|q: int| g.has(q) implies (#[trigger] g.kids[q]).no_duplicates() by {
                assert(self.kids[q].no_duplicates());
                if q == dst {
                    assert(ss.no_duplicates());
                    assert forall|a: int, b: int|
                        0 <= a < t.len() && 0 <= b < t.len() && a != b implies t[a] != t[b] by {
                        let (first, second) = if front {
                            (ss, sd)
                        } else {
                            (sd, ss)
                        };
                        let ea = if a < first.len() {
                            first[a]
                        } else {
                            second[a - first.len()]
                        };
                        let eb = if b < first.len() {
                            first[b]
                        } else {
                            second[b - first.len()]
                        };
                        assert(t[a] == ea);
                        assert(t[b] == eb);
                        if a < first.len() && b >= first.len() {
                            assert(self.parents[first[a]] != self.parents[second[b - first.len()]]);
                        }
                        if b < first.len() && a >= first.len() {
                            assert(self.parents[first[b]] != self.parents[second[a - first.len()]]);
                        }
                    }
                }
            }
            assert forall|n: int| g.has(n) && (#[trigger] g.parents[n]) is Some implies g.has(
                g.parents[n].unwrap(),
            ) && g.kids[g.parents[n].unwrap()].contains(n) by {
                let q = self.parents[n].unwrap();
                self.lemma_child_at_position(n);
                let i = self.position(n);
                if q == src {
                    let i1 = if front {
                        i
                    } else {
                        i + sd.len()
                    };
                    assert(t[i1] == n);
                } else if q == dst {
                    let i1 = if front {
                        i + ss.len()
                    } else {
                        i
                    };
                    assert(t[i1] == n);
                } else {
                    assert(g.kids[q][i] == n);
                }
            }
            let up1 = Seq::new(
                self.len() as nat,
                |n: int|
                    if n != src && self.in_subtree(src, n) {
                        up[n] + up[dst] + 1
                    } else {
                        up[n]
                    },
            );
            let down1 = Seq::new(
                self.len() as nat,
                |n: int|
                    if self.in_subtree(n, dst) {
                        down[n] + down[src]
                    } else {
                        down[n]
                    },
            );
            assert forall|n: int| g.has(n) && (#[trigger] g.parents[n]) is Some implies ({
                let q = g.parents[n].unwrap();
                up1[q] < up1[n] && down1[n] < down1[q]
            }) by {
                let q0 = self.parents[n].unwrap();
                self.lemma_in_subtree_step(src, n);
                self.lemma_parent_outside(n);
                assert(self.in_subtree(dst, dst));
                if self.in_subtree(n, dst) {
                    self.lemma_in_subtree_of_parent(n, dst);
                }
                if q0 == src {
                    assert(self.in_subtree(src, src));
                }
            }
            assert(g.ranked_by(up1, down1));
        }
    }

    /// The links of node `n` after `dst` has taken over the children of
    /// another node `src` that has some: the two lists are joined end to end
    /// below `dst`, the moved children have `dst` as their parent, and `src`
    /// has no children; the other links are unchanged.
    pub proof fn lemma_take_children_links(self, dst: int, src: int, front: bool, n: int)
        requires
            self.wf(),
            self.can_take_children(dst, src),
            src != dst,
            self.kids[src].len() > 0,
            self.has(n),
        ensures
            ({
                let g = self.take_children(dst, src, front);
                let sd = self.kids[dst];
                let ss = self.kids[src];
                let (head, tail) = if front {
                    (ss, sd)
                } else {
                    (sd, ss)
                };
                &&& g.values[n] == self.values[n]
                &&& g.parents[n] == (if self.parents[n] == Some(src) {
                    Some(dst)
                } else {
                    self.parents[n]
                })
                &&& g.prev_sibling(n) == (if sd.len() > 0 && n == tail[0] {
                    Some(head.last())
                } else {
                    self.prev_sibling(n)
                })
                &&& g.next_sibling(n) == (if sd.len() > 0 && n == head.last() {
                    Some(tail[0])
                } else {
                    self.next_sibling(n)
                })
                &&& g.child_bounds(n) == (if n == src {
                    None
                } else if n == dst {
                    Some(((head + tail).first(), (head + tail).last()))
                } else {
                    self.child_bounds(n)
                })
            }),
    {
        let g = self.take_children(dst, src, front);
        let sd = self.kids[dst];
        let ss = self.kids[src];
        let t = g.kids[dst];
        let (head, tail) = if front {
            (ss, sd)
        } else {
            (sd, ss)
        };
        self.lemma_take_children_wf(dst, src, front);
        assert(t == head + tail);
        assert(t.len() == sd.len() + ss.len());
        if self.parents[n] is Some {
            let q = self.parents[n].unwrap();
            self.lemma_child_at_position(n);
            let i = self.position(n);
            self.lemma_siblings_at(q, i);
            if q == src || q == dst {
                let i1 = if (q == src) == front {
                    i
                } else {
                    i + head.len()
                };
                assert(t[i1] == n);
                g.lemma_siblings_at(dst, i1);
                if i1 > 0 {
                    assert(t[i1 - 1] == if i1 - 1 < head.len() {
                        head[i1 - 1]
                    } else {
                        tail[i1 - 1 - head.len()]
                    });
                }
                if i1 + 1 < t.len() {
                    assert(t[i1 + 1] == if i1 + 1 < head.len() {
                        head[i1 + 1]
                    } else {
                        tail[i1 + 1 - head.len()]
                    });
                }
                if sd.len() > 0 {
                    self.lemma_siblings_at(if front { dst } else { src }, 0);
                    self.lemma_siblings_at(if front { src } else { dst }, head.len() - 1);
                }
            } else {
                assert(g.kids[q] == self.kids[q]);
                if sd.len() > 0 {
                    self.lemma_siblings_at(if front { dst } else { src }, 0);
                    self.lemma_siblings_at(if front { src } else { dst }, head.len() - 1);
                }
            }
        } else {
            if sd.len() > 0 {
                self.lemma_siblings_at(if front { dst } else { src }, 0);
                self.lemma_siblings_at(if front { src } else { dst }, head.len() - 1);
            }
        }
        if n == dst {
            assert(t[0] == if head.len() > 0 { head[0] } else { tail[0] });
            assert(t[t.len() - 1] == if tail.len() > 0 { tail[tail.len() - 1] } else { head[head.len() - 1] });
        } else if n != src {
            assert(g.kids[n] == self.kids[n]);
        }
    }
}

} // verus!
