//! The walks over a forest as mathematical sequences: siblings, ancestors,
//! descendants in preorder, and the depth-first walk by opening and closing
//! steps.

use crate::forest::Forest;
use vstd::prelude::*;

verus! {

/// One step of a depth-first walk: entering a node or leaving it.
pub enum Step {
    /// The walk enters the node, before any of its children.
    Open(int),
    /// The walk leaves the node, after all of its children.
    Close(int),
}

/// The nodes that a sequence of steps enters, in order.
pub open spec fn opened(steps: Seq<Step>) -> Seq<int>
    decreases steps.len(),
{
    if steps.len() == 0 {
        Seq::empty()
    } else {
        match steps.last() {
            Step::Open(n) => opened(steps.drop_last()).push(n),
            Step::Close(_) => opened(steps.drop_last()),
        }
    }
}

/// The nodes entered by two walks in a row are those entered by the first
/// followed by those entered by the second.
pub proof fn lemma_opened_add(a: Seq<Step>, b: Seq<Step>)
    ensures
        opened(a + b) == opened(a) + opened(b),
    decreases b.len(),
{
    if b.len() == 0 {
        assert(a + b =~= a);
        assert(opened(a) + opened(b) =~= opened(a));
    } else {
        lemma_opened_add(a, b.drop_last());
        assert((a + b).drop_last() =~= a + b.drop_last());
        assert((a + b).last() == b.last());
        match b.last() {
            Step::Open(n) => {
                assert((opened(a) + opened(b.drop_last())).push(n) =~= opened(a) + opened(
                    b.drop_last(),
                ).push(n));
            },
            Step::Close(_) => {},
        }
    }
}

impl<T> Forest<T> {
    /// The siblings that follow `n`, nearest first.
    pub open spec fn next_siblings(self, n: int) -> Seq<int> {
        match self.parents[n] {
            Some(p) => self.kids[p].subrange(self.position(n) + 1, self.kids[p].len() as int),
            None => Seq::empty(),
        }
    }

    /// The siblings that precede `n`, nearest first.
    pub open spec fn prev_siblings(self, n: int) -> Seq<int> {
        match self.parents[n] {
            Some(p) => self.kids[p].subrange(0, self.position(n)).reverse(),
            None => Seq::empty(),
        }
    }

    /// The ancestors of `n`, from its parent up to the node that has none.
    pub open spec fn ancestors(self, n: int) -> Seq<int>
        decreases self.some_ranks().0[n],
    {
        match self.parents[n] {
            Some(p) => if self.has(n) && self.has(p) && self.some_ranks().0[p]
                < self.some_ranks().0[n] {
                seq![p] + self.ancestors(p)
            } else {
                Seq::empty()
            },
            None => Seq::empty(),
        }
    }

    /// The depth-first walk of the subtree of `n`: `n` is opened, each of its
    /// children is walked in turn, and `n` is closed.
    pub open spec fn traverse(self, n: int) -> Seq<Step>
        decreases self.some_ranks().1[n], self.kids[n].len() + 1,
    {
        if self.has(n) {
            seq![Step::Open(n)] + self.traverse_from(n, 0) + seq![Step::Close(n)]
        } else {
            Seq::empty()
        }
    }

    /// The walks of the children of `n` from index `k` on, one after the
    /// other.
    pub open spec fn traverse_from(self, n: int, k: int) -> Seq<Step>
        decreases self.some_ranks().1[n], self.kids[n].len() - k,
    {
        if self.has(n) && 0 <= k < self.kids[n].len() {
            let c = self.kids[n][k];
            (if self.has(c) && self.some_ranks().1[c] < self.some_ranks().1[n] {
                self.traverse(c)
            } else {
                Seq::empty()
            }) + self.traverse_from(n, k + 1)
        } else {
            Seq::empty()
        }
    }

    /// The nodes of the subtree of `n` in preorder: `n`, then the subtree of
    /// each of its children in turn.
    pub open spec fn descendants(self, n: int) -> Seq<int>
        decreases self.some_ranks().1[n], self.kids[n].len() + 1,
    {
        if self.has(n) {
            seq![n] + self.descendants_from(n, 0)
        } else {
            Seq::empty()
        }
    }

    /// The subtrees of the children of `n` from index `k` on, in preorder,
    /// one after the other.
    pub open spec fn descendants_from(self, n: int, k: int) -> Seq<int>
        decreases self.some_ranks().1[n], self.kids[n].len() - k,
    {
        if self.has(n) && 0 <= k < self.kids[n].len() {
            let c = self.kids[n][k];
            (if self.has(c) && self.some_ranks().1[c] < self.some_ranks().1[n] {
                self.descendants(c)
            } else {
                Seq::empty()
            }) + self.descendants_from(n, k + 1)
        } else {
            Seq::empty()
        }
    }

    /// What the walk of the subtree of `top` still has to do once it has
    /// closed `n`: the siblings that follow `n` are walked, the parent of `n`
    /// is closed, and so on up to `top`.
    pub open spec fn after(self, top: int, n: int) -> Seq<Step>
        decreases self.some_ranks().0[n],
    {
        if n == top || !self.has(n) {
            Seq::empty()
        } else {
            match self.parents[n] {
                Some(p) => if self.has(p) && self.some_ranks().0[p] < self.some_ranks().0[n] {
                    self.traverse_from(p, self.position(n) + 1) + seq![Step::Close(p)]
                        + self.after(top, p)
                } else {
                    Seq::empty()
                },
                None => Seq::empty(),
            }
        }
    }

    /// One step of the definition of `ancestors`, without the ranks.
    pub proof fn lemma_ancestors_step(self, n: int)
        requires
            self.wf(),
            self.has(n),
        ensures
            self.ancestors(n) == (match self.parents[n] {
                Some(p) => seq![p] + self.ancestors(p),
                None => Seq::empty(),
            }),
    {
        self.lemma_ranks();
    }

    /// One step of the definitions of `traverse` and `descendants`, without
    /// the ranks.
    pub proof fn lemma_walk_step(self, n: int, k: int)
        requires
            self.wf(),
            self.has(n),
            0 <= k,
        ensures
            self.traverse(n) == seq![Step::Open(n)] + self.traverse_from(n, 0) + seq![
                Step::Close(n),
            ],
            self.descendants(n) == seq![n] + self.descendants_from(n, 0),
            k < self.kids[n].len() ==> self.traverse_from(n, k) == self.traverse(self.kids[n][k])
                + self.traverse_from(n, k + 1),
            k < self.kids[n].len() ==> self.descendants_from(n, k) == self.descendants(
                self.kids[n][k],
            ) + self.descendants_from(n, k + 1),
            k >= self.kids[n].len() ==> self.traverse_from(n, k) == Seq::<Step>::empty(),
            k >= self.kids[n].len() ==> self.descendants_from(n, k) == Seq::<int>::empty(),
    {
        self.lemma_ranks();
        if k < self.kids[n].len() {
            assert(self.parents[self.kids[n][k]] == Some(n));
        }
    }

    /// One step of the definition of `after`, without the ranks.
    pub proof fn lemma_after_step(self, top: int, n: int)
        requires
            self.wf(),
            self.has(n),
            n != top,
            self.parents[n] is Some,
        ensures
            self.after(top, n) == self.traverse_from(
                self.parents[n].unwrap(),
                self.position(n) + 1,
            ) + seq![Step::Close(self.parents[n].unwrap())] + self.after(
                top,
                self.parents[n].unwrap(),
            ),
    {
        self.lemma_ranks();
    }

    /// The nodes that the depth-first walk opens are the descendants in
    /// preorder.
    pub proof fn lemma_opened_traverse(self, n: int)
        requires
            self.wf(),
            self.has(n),
        ensures
            opened(self.traverse(n)) == self.descendants(n),
        decreases self.some_ranks().1[n], self.kids[n].len() + 1,
    {
        self.lemma_walk_step(n, 0);
        self.lemma_opened_traverse_from(n, 0);
        let inner = self.traverse_from(n, 0);
        lemma_opened_add(seq![Step::Open(n)], inner);
        lemma_opened_add(seq![Step::Open(n)] + inner, seq![Step::Close(n)]);
        assert(opened(seq![Step::Open(n)]) =~= seq![n]) by {
            assert(seq![Step::Open(n)].drop_last() =~= Seq::<Step>::empty());
            reveal_with_fuel(opened, 2);
        }
        assert(opened(seq![Step::Close(n)]) =~= Seq::<int>::empty()) by {
            assert(seq![Step::Close(n)].drop_last() =~= Seq::<Step>::empty());
            reveal_with_fuel(opened, 2);
        }
        assert(seq![n] + opened(inner) + Seq::<int>::empty() =~= seq![n] + opened(inner));
    }

    /// The nodes that the walks of the children from `k` on open are those
    /// children's descendants in preorder.
    pub proof fn lemma_opened_traverse_from(self, n: int, k: int)
        requires
            self.wf(),
            self.has(n),
            0 <= k,
        ensures
            opened(self.traverse_from(n, k)) == self.descendants_from(n, k),
        decreases self.some_ranks().1[n], self.kids[n].len() - k,
    {
        self.lemma_walk_step(n, k);
        self.lemma_ranks();
        if k < self.kids[n].len() {
            let c = self.kids[n][k];
            assert(self.parents[c] == Some(n));
            self.lemma_opened_traverse(c);
            self.lemma_opened_traverse_from(n, k + 1);
            lemma_opened_add(self.traverse(c), self.traverse_from(n, k + 1));
        }
    }

    /// The node that a step enters or leaves.
    pub open spec fn step_node(step: Step) -> int {
        match step {
            Step::Open(n) => n,
            Step::Close(n) => n,
        }
    }

    /// What the walk of the subtree of `top` has to do from `step` on, `step`
    /// included.
    pub open spec fn pending(self, top: int, step: Step) -> Seq<Step> {
        match step {
            Step::Open(n) => self.traverse(n) + self.after(top, n),
            Step::Close(n) => seq![Step::Close(n)] + self.after(top, n),
        }
    }

    /// The step that follows `step` in the walk of the subtree of `top`, read
    /// off the links of the step's node: an opened node is followed by its
    /// first child, or closed at once where it has none; a closed node is
    /// followed by its next sibling, or by the closing of its parent where it
    /// has none; the closing of `top` ends the walk.
    pub open spec fn step_after(self, top: int, step: Step) -> Option<Step> {
        match step {
            Step::Open(n) => Some(
                match self.first_child(n) {
                    Some(c) => Step::Open(c),
                    None => Step::Close(n),
                },
            ),
            Step::Close(n) => if n == top {
                None
            } else {
                Some(
                    match self.next_sibling(n) {
                        Some(s) => Step::Open(s),
                        None => Step::Close(self.parents[n].unwrap()),
                    },
                )
            },
        }
    }

    /// Following the links step by step yields the depth-first walk: what is
    /// pending at a step is the step itself and then what is pending at the
    /// step that follows it, which again is a step of the subtree of `top`.
    pub proof fn lemma_pending_step(self, top: int, step: Step)
        requires
            self.wf(),
            self.has(Self::step_node(step)),
            self.in_subtree(top, Self::step_node(step)),
        ensures
            self.pending(top, step) == seq![step] + (match self.step_after(top, step) {
                Some(next) => self.pending(top, next),
                None => Seq::empty(),
            }),
            self.step_after(top, step) is Some ==> self.has(
                Self::step_node(self.step_after(top, step).unwrap()),
            ) && self.in_subtree(top, Self::step_node(self.step_after(top, step).unwrap())),
    {
        let n = Self::step_node(step);
        self.lemma_walk_step(n, 0);
        match step {
            Step::Open(_) => {
                if self.kids[n].len() > 0 {
                    let c = self.kids[n][0];
                    self.lemma_siblings_at(n, 0);
                    self.lemma_in_subtree_step(top, c);
                    if c == top {
                        self.lemma_parent_outside(c);
                    }
                    self.lemma_after_step(top, c);
                    self.lemma_walk_step(n, 1);
                    assert(self.pending(top, step) =~= seq![step] + self.pending(
                        top,
                        Step::Open(c),
                    ));
                } else {
                    assert(self.pending(top, step) =~= seq![step] + self.pending(
                        top,
                        Step::Close(n),
                    ));
                }
            },
            Step::Close(_) => {
                if n == top {
                    assert(self.pending(top, step) =~= seq![step] + Seq::<Step>::empty());
                } else {
                    self.lemma_in_subtree_step(top, n);
                    let p = self.parents[n].unwrap();
                    self.lemma_child_at_position(n);
                    let j = self.position(n);
                    self.lemma_siblings_at(p, j);
                    self.lemma_after_step(top, n);
                    self.lemma_walk_step(p, j + 1);
                    if j + 1 < self.kids[p].len() {
                        let s = self.kids[p][j + 1];
                        self.lemma_siblings_at(p, j + 1);
                        self.lemma_in_subtree_step(top, s);
                        if s == top {
                            self.lemma_parent_outside(s);
                        }
                        self.lemma_after_step(top, s);
                        assert(self.pending(top, step) =~= seq![step] + self.pending(
                            top,
                            Step::Open(s),
                        ));
                    } else {
                        assert(self.pending(top, step) =~= seq![step] + self.pending(
                            top,
                            Step::Close(p),
                        ));
                    }
                }
            },
        }
    }

    /// At its start the walk of the subtree of `top` has all of it to do.
    pub proof fn lemma_pending_start(self, top: int)
        requires
            self.wf(),
            self.has(top),
        ensures
            self.pending(top, Step::Open(top)) == self.traverse(top),
            self.in_subtree(top, top),
    {
        assert(self.traverse(top) + self.after(top, top) =~= self.traverse(top));
    }
}

} // verus!
