//! What holds of every well-formed forest and of the operations on it.

use crate::forest::Forest;
use vstd::prelude::*;

verus! {

impl<T> Forest<T> {
    /// The root has no parent and no siblings.
    pub proof fn theorem_root_stands_alone(self)
        requires
            self.wf(),
        ensures
            self.parents[0] is None,
            self.prev_sibling(0) is None,
            self.next_sibling(0) is None,
    {
    }

    /// A node without a parent has no siblings.
    pub proof fn theorem_orphan_stands_alone(self, n: int)
        requires
            self.wf(),
            self.has(n),
            self.parents[n] is None,
        ensures
            self.prev_sibling(n) is None,
            self.next_sibling(n) is None,
    {
    }

    /// Sibling links are symmetric: `b` follows `a` exactly when `a`
    /// precedes `b`, and then the two have the same parent.
    pub proof fn theorem_sibling_symmetry(self, a: int, b: int)
        requires
            self.wf(),
            self.has(a),
            self.has(b),
        ensures
            self.next_sibling(a) == Some(b) <==> self.prev_sibling(b) == Some(a),
            self.next_sibling(a) == Some(b) ==> self.parents[a] == self.parents[b]
                && self.parents[a] is Some,
    {
        if self.parents[a] is Some {
            self.lemma_child_at_position(a);
            let p = self.parents[a].unwrap();
            let j = self.position(a);
            self.lemma_siblings_at(p, j);
            if j + 1 < self.kids[p].len() {
                self.lemma_siblings_at(p, j + 1);
            }
        }
        if self.parents[b] is Some {
            self.lemma_child_at_position(b);
            let p = self.parents[b].unwrap();
            let j = self.position(b);
            self.lemma_siblings_at(p, j);
            if j > 0 {
                self.lemma_siblings_at(p, j - 1);
            }
        }
    }

    /// The next sibling of a node is a node.
    pub proof fn theorem_siblings_exist(self, a: int)
        requires
            self.wf(),
            self.has(a),
        ensures
            self.next_sibling(a) is Some ==> self.has(self.next_sibling(a).unwrap()),
            self.prev_sibling(a) is Some ==> self.has(self.prev_sibling(a).unwrap()),
    {
        if self.parents[a] is Some {
            self.lemma_child_at_position(a);
            let p = self.parents[a].unwrap();
            let j = self.position(a);
            if j + 1 < self.kids[p].len() {
                self.lemma_siblings_at(p, j + 1);
            }
            if j > 0 {
                self.lemma_siblings_at(p, j - 1);
            }
        }
    }

    /// The children of a node run from its first child to its last child
    /// along the sibling links, and each of them has the node as its parent:
    /// the list starts at the first child, each child but the last is
    /// followed by the next one of the list, and the last child, which is
    /// followed by none, ends it.
    pub proof fn theorem_child_bounds(self, p: int)
        requires
            self.wf(),
            self.has(p),
            self.kids[p].len() > 0,
        ensures
            self.first_child(p) == Some(self.kids[p][0]),
            self.last_child(p) == Some(self.kids[p][self.kids[p].len() - 1]),
            self.prev_sibling(self.kids[p][0]) is None,
            forall|j: int|
                0 <= j < self.kids[p].len() ==> self.has(#[trigger] self.kids[p][j])
                    && self.parents[self.kids[p][j]] == Some(p),
            forall|j: int|
                0 <= j < self.kids[p].len() ==> #[trigger] self.next_sibling(self.kids[p][j]) == (
                if j + 1 < self.kids[p].len() {
                    Some(self.kids[p][j + 1])
                } else {
                    None
                }),
            forall|j: int|
                0 <= j < self.kids[p].len() ==> ((#[trigger] self.next_sibling(self.kids[p][j]))
                    is None <==> Some(self.kids[p][j]) == self.last_child(p)),
    {
        self.lemma_siblings_at(p, 0);
        assert forall|j: int| 0 <= j < self.kids[p].len() implies #[trigger] self.next_sibling(
            self.kids[p][j],
        ) == (if j + 1 < self.kids[p].len() {
            Some(self.kids[p][j + 1])
        } else {
            None
        }) && (self.next_sibling(self.kids[p][j]) is None <==> Some(self.kids[p][j])
            == self.last_child(p)) by {
            self.lemma_siblings_at(p, j);
            assert(self.kids[p].no_duplicates());
        }
    }

    /// The ancestors of a node are nodes, and the last of them has no
    /// parent. A node lies below `top` exactly when `top` is one of its
    /// ancestors.
    pub proof fn theorem_ancestors(self, n: int, top: int)
        requires
            self.wf(),
            self.has(n),
        ensures
            self.ancestors(n).len() == 0 <==> self.parents[n] is None,
            forall|j: int|
                0 <= j < self.ancestors(n).len() ==> self.has(#[trigger] self.ancestors(n)[j]),
            self.ancestors(n).len() > 0 ==> self.parents[self.ancestors(n).last()] is None,
            self.in_subtree(top, n) <==> top == n || self.ancestors(n).contains(top),
        decreases self.some_ranks().0[n],
    {
        self.lemma_ranks();
        self.lemma_ancestors_step(n);
        self.lemma_in_subtree_step(top, n);
        match self.parents[n] {
            Some(p) => {
                self.theorem_ancestors(p, top);
                let above = self.ancestors(p);
                let all = self.ancestors(n);
                assert(all == seq![p] + above);
                assert(all[0] == p);
                assert forall|j: int| 0 <= j < all.len() implies self.has(#[trigger] all[j]) by {
                    if j > 0 {
                        assert(all[j] == above[j - 1]);
                    }
                }
                if above.len() > 0 {
                    assert(all.last() == above.last());
                }
                if above.contains(top) {
                    let i = above.index_of(top);
                    assert(all[i + 1] == top);
                }
                if all.contains(top) {
                    let i = all.index_of(top);
                    if i > 0 {
                        assert(above[i - 1] == top);
                    }
                }
            },
            None => {},
        }
    }

    /// Detaching a node that has no parent, the root among them, changes
    /// nothing.
    pub proof fn theorem_detach_orphan(self, c: int)
        requires
            self.parents[c] is None,
        ensures
            self.detach(c) == self,
    {
    }

    /// Detaching twice is detaching once.
    pub proof fn theorem_detach_idempotent(self, c: int)
        requires
            self.wf(),
            self.has(c),
        ensures
            self.detach(c).parents[c] is None,
            self.detach(c).detach(c) == self.detach(c),
    {
    }

    /// A detached node keeps its children, and every other node but its
    /// former parent keeps its own.
    pub proof fn theorem_detach_keeps_subtree(self, c: int, n: int)
        requires
            self.wf(),
            self.has(c),
            self.has(n),
            self.parents[c] != Some(n),
        ensures
            self.detach(c).kids[n] == self.kids[n],
            n != c ==> self.detach(c).parents[n] == self.parents[n],
    {
    }

    /// Appending a new child and detaching it again leaves the forest as it
    /// was, but for the new node, which is now an orphan: every node that was
    /// there has the parent, the children and the value that it had.
    pub proof fn theorem_append_detach(self, p: int, value: T)
        requires
            self.wf(),
            self.has(p),
        ensures
            self.append(p, value).detach(self.len()) == self.orphan(value),
            self.orphan(value).parents.take(self.len()) == self.parents,
            self.orphan(value).kids.take(self.len()) == self.kids,
            self.orphan(value).values.take(self.len()) == self.values,
    {
        let f1 = self.orphan(value);
        let c = self.len();
        self.lemma_fresh_orphan(value, p);
        assert(f1.detach(c) == f1);
        let s = f1.kids[p];
        let f2 = f1.attach(p, s.len() as int, c);
        assert(f2 == self.append(p, value));
        f1.lemma_attach_wf(p, s.len() as int, c);
        s.insert_ensures(s.len() as int, c);
        f2.lemma_position(p, s.len() as int);
        let f3 = f2.detach(c);
        assert(f2.kids[p].remove(s.len() as int) =~= s);
        assert(f3.parents =~= f1.parents);
        assert(f3.kids =~= f1.kids);
        assert(f1.parents.take(self.len()) =~= self.parents);
        assert(f1.kids.take(self.len()) =~= self.kids);
        assert(f1.values.take(self.len()) =~= self.values);
    }

    /// The forest after the values of `values` have been appended, one after
    /// the other, as new children of `p`.
    pub open spec fn append_all(self, p: int, values: Seq<T>) -> Self
        decreases values.len(),
    {
        if values.len() == 0 {
            self
        } else {
            self.append_all(p, values.drop_last()).append(p, values.last())
        }
    }

    /// The forest after the values of `values` have been prepended, one after
    /// the other, as new children of `p`.
    pub open spec fn prepend_all(self, p: int, values: Seq<T>) -> Self
        decreases values.len(),
    {
        if values.len() == 0 {
            self
        } else {
            self.prepend_all(p, values.drop_last()).prepend(p, values.last())
        }
    }

    /// Appending one new child puts it last and leaves the others in place.
    pub proof fn theorem_append(self, p: int, value: T)
        requires
            self.wf(),
            self.has(p),
        ensures
            self.append(p, value).wf(),
            self.append(p, value).len() == self.len() + 1,
            self.append(p, value).kids[p] == self.kids[p].push(self.len()),
            self.append(p, value).values == self.values.push(value),
            self.append(p, value).parents == self.parents.push(Some(p)),
    {
        let f1 = self.orphan(value);
        let c = self.len();
        self.lemma_fresh_orphan(value, p);
        assert(f1.detach(c) == f1);
        let s = f1.kids[p];
        f1.lemma_attach_wf(p, s.len() as int, c);
        assert(s.insert(s.len() as int, c) =~= s.push(c));
        assert(self.append(p, value).parents =~= self.parents.push(Some(p)));
    }

    /// Prepending one new child puts it first and leaves the others in place.
    pub proof fn theorem_prepend(self, p: int, value: T)
        requires
            self.wf(),
            self.has(p),
        ensures
            self.prepend(p, value).wf(),
            self.prepend(p, value).len() == self.len() + 1,
            self.prepend(p, value).kids[p] == seq![self.len()] + self.kids[p],
            self.prepend(p, value).values == self.values.push(value),
            self.prepend(p, value).parents == self.parents.push(Some(p)),
    {
        let f1 = self.orphan(value);
        let c = self.len();
        self.lemma_fresh_orphan(value, p);
        assert(f1.detach(c) == f1);
        let s = f1.kids[p];
        f1.lemma_attach_wf(p, 0, c);
        assert(s.insert(0, c) =~= seq![c] + s);
        assert(self.prepend(p, value).parents =~= self.parents.push(Some(p)));
    }

    /// Inserting a new child at an index puts it at that index among the
    /// children and leaves the others in their order.
    pub proof fn theorem_insert(self, p: int, value: T, index: int)
        requires
            self.wf(),
            self.has(p),
            0 <= index <= self.kids[p].len(),
        ensures
            self.insert(p, value, index).wf(),
            self.insert(p, value, index).len() == self.len() + 1,
            self.insert(p, value, index).kids[p] == self.kids[p].insert(index, self.len()),
            self.insert(p, value, index).values == self.values.push(value),
            self.insert(p, value, index).parents == self.parents.push(Some(p)),
    {
        let f1 = self.orphan(value);
        let c = self.len();
        self.lemma_fresh_orphan(value, p);
        assert(f1.detach(c) == f1);
        f1.lemma_attach_wf(p, index, c);
        if index > 0 {
            f1.lemma_position(p, index - 1);
        }
        assert(self.insert(p, value, index).parents =~= self.parents.push(Some(p)));
    }

    /// Inserting a new sibling before a node puts it at that node's place
    /// among the children of its parent, the node and those after it moving
    /// one place on.
    pub proof fn theorem_insert_before(self, s: int, value: T)
        requires
            self.wf(),
            self.has(s),
            self.parents[s] is Some,
        ensures
            self.insert_before(s, value).wf(),
            self.insert_before(s, value).len() == self.len() + 1,
            self.insert_before(s, value).kids[self.parents[s].unwrap()]
                == self.kids[self.parents[s].unwrap()].insert(self.position(s), self.len()),
            self.insert_before(s, value).prev_sibling(s) == Some(self.len()),
            self.insert_before(s, value).values == self.values.push(value),
            self.insert_before(s, value).parents == self.parents.push(self.parents[s]),
    {
        let f1 = self.orphan(value);
        let c = self.len();
        let p = self.parents[s].unwrap();
        self.lemma_child_at_position(s);
        self.lemma_fresh_orphan(value, s);
        self.lemma_fresh_orphan(value, p);
        assert(f1.detach(c) == f1);
        f1.lemma_in_subtree_step(c, s);
        f1.lemma_attach_wf(p, f1.position(s), c);
        f1.lemma_attach_links(p, f1.position(s), c, s);
        assert(self.insert_before(s, value).parents =~= self.parents.push(Some(p)));
    }

    /// Inserting a new sibling after a node puts it just behind that node's
    /// place among the children of its parent.
    pub proof fn theorem_insert_after(self, s: int, value: T)
        requires
            self.wf(),
            self.has(s),
            self.parents[s] is Some,
        ensures
            self.insert_after(s, value).wf(),
            self.insert_after(s, value).len() == self.len() + 1,
            self.insert_after(s, value).kids[self.parents[s].unwrap()]
                == self.kids[self.parents[s].unwrap()].insert(self.position(s) + 1, self.len()),
            self.insert_after(s, value).next_sibling(s) == Some(self.len()),
            self.insert_after(s, value).values == self.values.push(value),
            self.insert_after(s, value).parents == self.parents.push(self.parents[s]),
    {
        let f1 = self.orphan(value);
        let c = self.len();
        let p = self.parents[s].unwrap();
        self.lemma_child_at_position(s);
        self.lemma_fresh_orphan(value, s);
        self.lemma_fresh_orphan(value, p);
        assert(f1.detach(c) == f1);
        f1.lemma_in_subtree_step(c, s);
        f1.lemma_attach_wf(p, f1.position(s) + 1, c);
        f1.lemma_attach_links(p, f1.position(s) + 1, c, s);
        assert(self.insert_after(s, value).parents =~= self.parents.push(Some(p)));
    }

    /// Children that are appended one after the other stand after the
    /// children that were there, in the order in which they were appended.
    pub proof fn theorem_append_order(self, p: int, values: Seq<T>)
        requires
            self.wf(),
            self.has(p),
        ensures
            self.append_all(p, values).wf(),
            self.append_all(p, values).len() == self.len() + values.len(),
            self.append_all(p, values).values == self.values + values,
            self.append_all(p, values).kids[p] == self.kids[p] + Seq::new(
                values.len(),
                |i: int| self.len() + i,
            ),
        decreases values.len(),
    {
        if values.len() == 0 {
            assert(self.values + values =~= self.values);
            assert(self.kids[p] + Seq::new(values.len(), |i: int| self.len() + i)
                =~= self.kids[p]);
        } else {
            let front = values.drop_last();
            let g = self.append_all(p, front);
            self.theorem_append_order(p, front);
            g.theorem_append(p, values.last());
            assert(self.values + front + seq![values.last()] =~= self.values + values);
            assert((self.kids[p] + Seq::new(front.len(), |i: int| self.len() + i)).push(g.len())
                =~= self.kids[p] + Seq::new(values.len(), |i: int| self.len() + i));
        }
    }

    /// Children that are prepended one after the other stand before the
    /// children that were there, the last one prepended first.
    pub proof fn theorem_prepend_order(self, p: int, values: Seq<T>)
        requires
            self.wf(),
            self.has(p),
        ensures
            self.prepend_all(p, values).wf(),
            self.prepend_all(p, values).len() == self.len() + values.len(),
            self.prepend_all(p, values).values == self.values + values,
            self.prepend_all(p, values).kids[p] == Seq::new(
                values.len(),
                |i: int| self.len() + values.len() - 1 - i,
            ) + self.kids[p],
        decreases values.len(),
    {
        if values.len() == 0 {
            assert(self.values + values =~= self.values);
            assert(Seq::new(values.len(), |i: int| self.len() + values.len() - 1 - i)
                + self.kids[p] =~= self.kids[p]);
        } else {
            let front = values.drop_last();
            let g = self.prepend_all(p, front);
            self.theorem_prepend_order(p, front);
            g.theorem_prepend(p, values.last());
            assert(self.values + front + seq![values.last()] =~= self.values + values);
            assert(seq![g.len()] + (Seq::new(front.len(), |i: int| self.len() + front.len() - 1 - i)
                + self.kids[p]) =~= Seq::new(
                values.len(),
                |i: int| self.len() + values.len() - 1 - i,
            ) + self.kids[p]);
        }
    }

    /// After the children of `src` have been appended to those of another
    /// node `dst`, the children of `dst` are those that it had, in their
    /// order, followed by those that `src` had, in theirs; `src` has none;
    /// and each of them has `dst` as its parent.
    pub proof fn theorem_reparent_append(self, dst: int, src: int)
        requires
            self.wf(),
            self.can_take_children(dst, src),
            src != dst,
        ensures
            self.reparent_append(dst, src).wf(),
            self.reparent_append(dst, src).kids[dst] == self.kids[dst] + self.kids[src],
            self.reparent_append(dst, src).kids[src].len() == 0,
            forall|j: int|
                0 <= j < self.kids[src].len() ==> self.reparent_append(
                    dst,
                    src,
                ).parents[#[trigger] self.kids[src][j]] == Some(dst),
            forall|n: int|
                self.has(n) && n != dst && n != src ==> self.reparent_append(dst, src).kids[n]
                    == self.kids[n],
    {
        self.lemma_take_children_wf(dst, src, false);
    }

    /// After the children of `src` have been prepended to those of another
    /// node `dst`, the children of `dst` are those that `src` had, in their
    /// order, followed by those that `dst` had, in theirs; `src` has none;
    /// and each of them has `dst` as its parent.
    pub proof fn theorem_reparent_prepend(self, dst: int, src: int)
        requires
            self.wf(),
            self.can_take_children(dst, src),
            src != dst,
        ensures
            self.reparent_prepend(dst, src).wf(),
            self.reparent_prepend(dst, src).kids[dst] == self.kids[src] + self.kids[dst],
            self.reparent_prepend(dst, src).kids[src].len() == 0,
            forall|j: int|
                0 <= j < self.kids[src].len() ==> self.reparent_prepend(
                    dst,
                    src,
                ).parents[#[trigger] self.kids[src][j]] == Some(dst),
            forall|n: int|
                self.has(n) && n != dst && n != src ==> self.reparent_prepend(dst, src).kids[n]
                    == self.kids[n],
    {
        self.lemma_take_children_wf(dst, src, true);
    }

    /// Taking over one's own children changes nothing.
    pub proof fn theorem_reparent_self(self, n: int, front: bool)
        ensures
            self.take_children(n, n, front) == self,
    {
    }

    /// A node found among the subtrees of the children from `k` on is found
    /// in the subtree of one of them.
    proof fn lemma_found_below(self, n: int, k: int, m: int) -> (i: int)
        requires
            self.wf(),
            self.has(n),
            0 <= k,
            self.descendants_from(n, k).contains(m),
        ensures
            k <= i < self.kids[n].len(),
            self.descendants(self.kids[n][i]).contains(m),
        decreases self.kids[n].len() - k,
    {
        self.lemma_walk_step(n, k);
        let first = self.descendants(self.kids[n][k]);
        let rest = self.descendants_from(n, k + 1);
        let at = self.descendants_from(n, k).index_of(m);
        if at < first.len() {
            assert(first[at] == m);
            k
        } else {
            assert(rest[at - first.len()] == m);
            self.lemma_found_below(n, k + 1, m)
        }
    }

    /// A node found in the subtree of a child is found among the subtrees of
    /// the children from any index up to that child's on.
    proof fn lemma_below_found(self, n: int, k: int, i: int, m: int)
        requires
            self.wf(),
            self.has(n),
            0 <= k <= i < self.kids[n].len(),
            self.descendants(self.kids[n][i]).contains(m),
        ensures
            self.descendants_from(n, k).contains(m),
        decreases i - k,
    {
        self.lemma_walk_step(n, k);
        let first = self.descendants(self.kids[n][k]);
        let rest = self.descendants_from(n, k + 1);
        let all = self.descendants_from(n, k);
        if i == k {
            let at = first.index_of(m);
            assert(all[at] == m);
        } else {
            self.lemma_below_found(n, k + 1, i, m);
            let at = rest.index_of(m);
            assert(all[first.len() + at] == m);
        }
    }

    /// What is found in the preorder of `n` lies below `n`.
    proof fn lemma_descendants_below(self, n: int, m: int)
        requires
            self.wf(),
            self.has(n),
            self.descendants(n).contains(m),
        ensures
            self.has(m),
            self.in_subtree(n, m),
        decreases self.some_ranks().1[n],
    {
        self.lemma_ranks();
        self.lemma_walk_step(n, 0);
        let at = self.descendants(n).index_of(m);
        if at > 0 {
            assert(self.descendants_from(n, 0)[at - 1] == m);
            let i = self.lemma_found_below(n, 0, m);
            let c = self.kids[n][i];
            assert(self.parents[c] == Some(n));
            self.lemma_descendants_below(c, m);
            self.lemma_in_subtree_of_parent(c, m);
        }
    }

    /// The children of what is found in the preorder of `n` are found in
    /// it.
    proof fn lemma_descendants_closed(self, n: int, p: int, m: int)
        requires
            self.wf(),
            self.has(n),
            self.has(m),
            self.descendants(n).contains(p),
            self.parents[m] == Some(p),
        ensures
            self.descendants(n).contains(m),
        decreases self.some_ranks().1[n],
    {
        self.lemma_ranks();
        self.lemma_walk_step(n, 0);
        let inner = self.descendants_from(n, 0);
        if p == n {
            self.lemma_child_at_position(m);
            let i = self.position(m);
            self.lemma_walk_step(m, 0);
            assert(self.descendants(m)[0] == m);
            self.lemma_below_found(n, 0, i, m);
        } else {
            let at = self.descendants(n).index_of(p);
            assert(inner[at - 1] == p);
            let i = self.lemma_found_below(n, 0, p);
            let c = self.kids[n][i];
            assert(self.parents[c] == Some(n));
            self.lemma_descendants_closed(c, p, m);
            self.lemma_below_found(n, 0, i, m);
        }
        let at = inner.index_of(m);
        assert(self.descendants(n)[at + 1] == m);
    }

    /// What lies below `n` is found in the preorder of `n`.
    proof fn lemma_below_descendants(self, n: int, m: int)
        requires
            self.wf(),
            self.has(n),
            self.has(m),
            self.in_subtree(n, m),
        ensures
            self.descendants(n).contains(m),
        decreases self.some_ranks().0[m],
    {
        self.lemma_ranks();
        self.lemma_walk_step(n, 0);
        self.lemma_in_subtree_step(n, m);
        if m == n {
            assert(self.descendants(n)[0] == n);
        } else {
            let p = self.parents[m].unwrap();
            self.lemma_below_descendants(n, p);
            self.lemma_descendants_closed(n, p, m);
        }
    }

    /// The preorder of a node holds exactly the nodes that lie below it, the
    /// node itself among them and first.
    pub proof fn theorem_descendants(self, n: int, m: int)
        requires
            self.wf(),
            self.has(n),
        ensures
            self.descendants(n).len() > 0,
            self.descendants(n)[0] == n,
            self.descendants(n).contains(m) <==> self.has(m) && self.in_subtree(n, m),
    {
        self.lemma_walk_step(n, 0);
        if self.descendants(n).contains(m) {
            self.lemma_descendants_below(n, m);
        }
        if self.has(m) && self.in_subtree(n, m) {
            self.lemma_below_descendants(n, m);
        }
    }
}

} // verus!
