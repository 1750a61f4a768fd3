//! The nested, brace-delimited rendering of a tree for diagnostics, as a
//! sequence of pieces: `Tree { root => { a, b => { c } } }`.
//!
//! The library decides which pieces make up the rendering and what the fixed
//! ones read; how a value is shown is left to the caller.

use crate::forest::Forest;
use crate::iter::Edge;
use crate::node_ref::NodeRef;
use crate::tree::Tree;
use crate::walks::Step;
use vstd::prelude::*;

verus! {

/// One piece of the rendering of a forest.
pub enum Mark {
    /// The opening `Tree {`.
    Head,
    /// The blank before a value.
    Space,
    /// The value of a node.
    Value(int),
    /// ` => {` after the value of a node that has children.
    Begin,
    /// `,` after the value of a node without children that has a next
    /// sibling.
    Comma,
    /// ` }` after the children of a node that has no next sibling.
    End,
    /// ` },` after the children of a node that has a next sibling.
    EndComma,
    /// The closing ` }`.
    Tail,
}

/// One piece of the rendering of a tree.
#[derive(Debug)]
pub enum Piece<'a, T: 'a> {
    /// The opening `Tree {`.
    Head,
    /// The blank before a value.
    Space,
    /// The value of a node.
    Value(NodeRef<'a, T>),
    /// ` => {` after the value of a node that has children.
    Begin,
    /// `,` after the value of a node without children that has a next
    /// sibling.
    Comma,
    /// ` }` after the children of a node that has no next sibling.
    End,
    /// ` },` after the children of a node that has a next sibling.
    EndComma,
    /// The closing ` }`.
    Tail,
}

impl Mark {
    /// What the piece reads; nothing for a value, which the caller shows.
    pub open spec fn text(self) -> Seq<char> {
        match self {
            Mark::Head => "Tree {"@,
            Mark::Space => " "@,
            Mark::Value(_) => ""@,
            Mark::Begin => " => {"@,
            Mark::Comma => ","@,
            Mark::End => " }"@,
            Mark::EndComma => " },"@,
            Mark::Tail => " }"@,
        }
    }
}

impl<'a, T: 'a> Piece<'a, T> {
    /// The piece over node numbers.
    pub open spec fn mark(self) -> Mark {
        match self {
            Piece::Head => Mark::Head,
            Piece::Space => Mark::Space,
            Piece::Value(n) => Mark::Value(n.id@),
            Piece::Begin => Mark::Begin,
            Piece::Comma => Mark::Comma,
            Piece::End => Mark::End,
            Piece::EndComma => Mark::EndComma,
            Piece::Tail => Mark::Tail,
        }
    }

    /// Whether `r` lists the pieces of `marks`, its values being valid
    /// references into `tree`.
    pub open spec fn renders(r: Seq<Self>, tree: &Tree<T>, marks: Seq<Mark>) -> bool {
        &&& r.len() == marks.len()
        &&& forall|j: int|
            0 <= j < r.len() ==> (#[trigger] r[j]).mark() == marks[j] && (match r[j] {
                Piece::Value(n) => n.wf() && *n.tree == *tree,
                _ => true,
            })
    }

    /// What the piece reads; nothing for a value, which the caller shows.
    pub fn text(&self) -> (r: &'static str)
        ensures
            r@ == self.mark().text(),
    {
        match self {
            Piece::Head => "Tree {",
            Piece::Space => " ",
            Piece::Value(_) => "",
            Piece::Begin => " => {",
            Piece::Comma => ",",
            Piece::End => " }",
            Piece::EndComma => " },",
            Piece::Tail => " }",
        }
    }
}

impl<T> Forest<T> {
    /// The pieces that one step of the walk adds to the rendering: on
    /// entering a node its value, followed by the opening of its children, or
    /// by a comma where it has none and a sibling follows; on leaving a node
    /// that has children their closing, with a comma where a sibling follows.
    pub open spec fn marks_of(self, step: Step) -> Seq<Mark> {
        match step {
            Step::Open(n) => seq![Mark::Space, Mark::Value(n)] + (if self.kids[n].len() > 0 {
                seq![Mark::Begin]
            } else if self.next_sibling(n) is Some {
                seq![Mark::Comma]
            } else {
                Seq::empty()
            }),
            Step::Close(n) => if self.kids[n].len() > 0 {
                if self.next_sibling(n) is Some {
                    seq![Mark::EndComma]
                } else {
                    seq![Mark::End]
                }
            } else {
                Seq::empty()
            },
        }
    }

    /// The pieces that the steps of a walk add to the rendering, one step
    /// after the other.
    pub open spec fn marks_along(self, steps: Seq<Step>) -> Seq<Mark>
        decreases steps.len(),
    {
        if steps.len() == 0 {
            Seq::empty()
        } else {
            self.marks_along(steps.drop_last()) + self.marks_of(steps.last())
        }
    }

    /// The rendering of the tree below the root: the head, what the
    /// depth-first walk from the root adds, and the tail.
    pub open spec fn outline(self) -> Seq<Mark> {
        seq![Mark::Head] + self.marks_along(self.traverse(0)) + seq![Mark::Tail]
    }
}

impl<T> Tree<T> {
    /// Returns the pieces of the nested rendering of this tree, in order.
    ///
    /// Written out one after the other, each fixed piece by its `text` and
    /// each value as the caller shows values, they read
    /// `Tree { root => { a, b => { c } } }`.
    pub fn outline(&self) -> (r: Vec<Piece<'_, T>>)
        requires
            self.wf(),
        ensures
            Piece::renders(r@, self, self@.outline()),
    {
        let ghost f = self@;
        let ghost steps = f.traverse(0);
        let root = self.root();
        let edges = root.traverse();
        let mut out: Vec<Piece<'_, T>> = Vec::new();
        out.push(Piece::Head);
        let mut i: usize = 0;
        proof {
            self.lemma_view_wf();
            assert(steps.take(0) =~= Seq::<Step>::empty());
            assert(seq![Mark::Head] + f.marks_along(steps.take(0)) =~= seq![Mark::Head]);
        }
        while i < edges.len()
            invariant
                self.wf(),
                f == self@,
                f.wf(),
                steps == f.traverse(0),
                i <= edges@.len(),
                Edge::walks(edges@, self, steps),
                Piece::renders(out@, self, seq![Mark::Head] + f.marks_along(steps.take(i as int))),
            decreases edges@.len() - i,
        {
            let ghost before = seq![Mark::Head] + f.marks_along(steps.take(i as int));
            proof {
                assert(steps.take(i + 1).drop_last() =~= steps.take(i as int));
                assert(steps.take(i + 1).last() == steps[i as int]);
                assert(seq![Mark::Head] + f.marks_along(steps.take(i + 1)) =~= before + f.marks_of(
                    steps[i as int],
                ));
            }
            match edges[i] {
                Edge::Open(node) => {
                    out.push(Piece::Space);
                    out.push(Piece::Value(node));
                    if node.has_children() {
                        out.push(Piece::Begin);
                    } else if node.next_sibling().is_some() {
                        out.push(Piece::Comma);
                    }
                },
                Edge::Close(node) => {
                    if node.has_children() {
                        if node.next_sibling().is_some() {
                            out.push(Piece::EndComma);
                        } else {
                            out.push(Piece::End);
                        }
                    }
                },
            }
            proof {
                assert(out@.len() == (before + f.marks_of(steps[i as int])).len());
            }
            i += 1;
        }
        out.push(Piece::Tail);
        proof {
            assert(steps.take(i as int) =~= steps);
        }
        out
    }
}

} // verus!
