//! Depth-first traversal of the tree: plain iteration, destructive
//! draining, node-bound enumeration, and the circular range query.

use vstd::prelude::*;
use crate::geom::{Rect, COORD_LIMIT, lemma_contains_implies_zero_overlap};
use crate::quadtree::{Positionable, QuadNode, QuadTree, point_in_rect};

verus! {

/// Yields the entities collected by a traversal; `next` hands them out
/// from the back of the collected sequence.
pub struct QuadTreeIter<T> {
    /// The entities not yet handed out.
    pub stack: Vec<T>,
}

impl<T> QuadTreeIter<T> {
    /// Hands out the next entity, or `None` once all have been seen.
    pub fn next(&mut self) -> (r: Option<T>)
        ensures
            old(self).stack@.len() == 0 ==> r is None && final(self).stack@ == old(self).stack@,
            old(self).stack@.len() > 0 ==> r == Some(old(self).stack@.last())
                && final(self).stack@ == old(self).stack@.drop_last(),
    {
        self.stack.pop()
    }
}

/// If either part of a concatenation contains `e`, so does the whole.
proof fn lemma_concat_contains<A>(x: Seq<A>, y: Seq<A>, e: A)
    requires
        x.contains(e) || y.contains(e),
    ensures
        (x + y).contains(e),
{
    if x.contains(e) {
        let i = choose|i: int| 0 <= i < x.len() && x[i] == e;
        assert((x + y)[i] == e);
    } else {
        let i = choose|i: int| 0 <= i < y.len() && y[i] == e;
        assert((x + y)[i + x.len()] == e);
    }
}

/// If a concatenation contains `e`, one of its parts does.
proof fn lemma_concat_contains_split<A>(x: Seq<A>, y: Seq<A>, e: A)
    requires
        (x + y).contains(e),
    ensures
        x.contains(e) || y.contains(e),
{
    let i = choose|i: int| 0 <= i < (x + y).len() && (x + y)[i] == e;
    if i < x.len() {
        assert(x[i] == e);
    } else {
        assert(y[i - x.len()] == e);
    }
}

impl<T: Positionable> QuadNode<T> {
    /// The rectangles of every node under this one, in depth-first
    /// order: the node's own bound, then the NE, NW, SW, SE subtrees.
    pub open spec fn bounds_spec(self) -> Seq<Rect>
        decreases self,
    {
        match self.children {
            Option::None => seq![self.bound],
            Option::Some(c) => seq![self.bound] + c.ne.bounds_spec() + c.nw.bounds_spec()
                + c.sw.bounds_spec() + c.se.bounds_spec(),
        }
    }

    /// The candidate set of a circular range query: the points of every
    /// node that holds at least one point and whose bound overlaps the
    /// circle, in depth-first order.  Individual points are not tested
    /// against the circle.
    pub open spec fn query_spec(self, cx: i64, cy: i64, r: i64) -> Seq<T>
        decreases self,
    {
        let mine = if self.points@.len() > 0 && self.bound.overlaps_circle_spec(
            cx as int,
            cy as int,
            r as int,
        ) {
            self.points@
        } else {
            Seq::<T>::empty()
        };
        match self.children {
            Option::None => mine,
            Option::Some(c) => mine + c.ne.query_spec(cx, cy, r) + c.nw.query_spec(cx, cy, r)
                + c.sw.query_spec(cx, cy, r) + c.se.query_spec(cx, cy, r),
        }
    }

    /// Whether `e` sits in the point list of some node under this one
    /// whose bound overlaps the given circle.
    pub open spec fn in_overlapping_node(self, cx: i64, cy: i64, r: i64, e: T) -> bool
        decreases self,
    {
        ||| (self.points@.contains(e) && self.bound.overlaps_circle_spec(
            cx as int,
            cy as int,
            r as int,
        ))
        ||| match self.children {
            Option::None => false,
            Option::Some(c) => c.ne.in_overlapping_node(cx, cy, r, e) || c.nw.in_overlapping_node(
                cx,
                cy,
                r,
                e,
            ) || c.sw.in_overlapping_node(cx, cy, r, e) || c.se.in_overlapping_node(cx, cy, r, e),
        }
    }

    /// Appends every entity under this node to `out`, depth first.
    fn collect_into(&self, out: &mut Vec<T>)
        requires
            self.wf(),
        ensures
            final(out)@ == old(out)@ + self.all_points(),
        decreases self.bound.w + self.bound.h,
    {
        let ghost g0 = out@;
        let n = self.points.len();
        for i in 0..n
            invariant
                n == self.points@.len(),
                self.wf(),
                out@ == g0 + self.points@.subrange(0, i as int),
        {
            let p = self.points[i];
            out.push(p);
            proof {
                assert(self.points@.subrange(0, i + 1) =~= self.points@.subrange(
                    0,
                    i as int,
                ).push(self.points@[i as int]));
            }
        }
        proof {
            assert(self.points@.subrange(0, n as int) =~= self.points@);
        }
        match &self.children {
            None => {
                proof {
                    assert(out@ =~= g0 + self.all_points());
                }
            },
            Some(c) => {
                c.ne.collect_into(out);
                c.nw.collect_into(out);
                c.sw.collect_into(out);
                c.se.collect_into(out);
                proof {
                    assert(out@ =~= g0 + self.all_points());
                }
            },
        }
    }

    /// Appends every entity under this node to `out` and removes it from
    /// the tree, leaving the node structure in place but empty.
    fn drain_into(&mut self, out: &mut Vec<T>)
        requires
            old(self).wf(),
        ensures
            final(self).wf(),
            final(self).contained(),
            final(self).bound == old(self).bound,
            final(self).capacity == old(self).capacity,
            final(self).all_points() == Seq::<T>::empty(),
            final(out)@ == old(out)@ + old(self).all_points(),
        decreases old(self).bound.w + old(self).bound.h,
    {
        let ghost g0 = out@;
        out.append(&mut self.points);
        let ch = self.children.take();
        match ch {
            None => {
                proof {
                    assert(self.all_points() =~= Seq::<T>::empty());
                    assert(out@ =~= g0 + old(self).all_points());
                }
            },
            Some(boxed) => {
                let mut c = *boxed;
                c.ne.drain_into(out);
                c.nw.drain_into(out);
                c.sw.drain_into(out);
                c.se.drain_into(out);
                self.children = Some(Box::new(c));
                proof {
                    assert(self.all_points() =~= Seq::<T>::empty());
                    assert(out@ =~= g0 + old(self).all_points());
                }
            },
        }
    }

    /// Appends every node bound under this one to `out`, depth first.
    fn bounds_into(&self, out: &mut Vec<Rect>)
        requires
            self.wf(),
        ensures
            final(out)@ == old(out)@ + self.bounds_spec(),
        decreases self.bound.w + self.bound.h,
    {
        let ghost g0 = out@;
        out.push(self.bound);
        match &self.children {
            None => {
                proof {
                    assert(out@ =~= g0 + self.bounds_spec());
                }
            },
            Some(c) => {
                c.ne.bounds_into(out);
                c.nw.bounds_into(out);
                c.sw.bounds_into(out);
                c.se.bounds_into(out);
                proof {
                    assert(out@ =~= g0 + self.bounds_spec());
                }
            },
        }
    }

    /// Appends this node's contribution to a range query to `out`.
    fn query_into(&self, cx: i64, cy: i64, r: i64, out: &mut Vec<T>)
        requires
            self.wf(),
            -COORD_LIMIT <= cx <= COORD_LIMIT,
            -COORD_LIMIT <= cy <= COORD_LIMIT,
            0 <= r <= COORD_LIMIT,
        ensures
            final(out)@ == old(out)@ + self.query_spec(cx, cy, r),
        decreases self.bound.w + self.bound.h,
    {
        let ghost g0 = out@;
        if self.points.len() > 0 && self.bound.overlaps_circle(cx, cy, r) {
            let n = self.points.len();
            for i in 0..n
                invariant
                    n == self.points@.len(),
                    self.wf(),
                    out@ == g0 + self.points@.subrange(0, i as int),
            {
                let p = self.points[i];
                out.push(p);
                proof {
                    assert(self.points@.subrange(0, i + 1) =~= self.points@.subrange(
                        0,
                        i as int,
                    ).push(self.points@[i as int]));
                }
            }
            proof {
                assert(self.points@.subrange(0, n as int) =~= self.points@);
            }
        }
        match &self.children {
            None => {
                proof {
                    assert(out@ =~= g0 + self.query_spec(cx, cy, r));
                }
            },
            Some(c) => {
                c.ne.query_into(cx, cy, r, out);
                c.nw.query_into(cx, cy, r, out);
                c.sw.query_into(cx, cy, r, out);
                c.se.query_into(cx, cy, r, out);
                proof {
                    assert(out@ =~= g0 + self.query_spec(cx, cy, r));
                }
            },
        }
    }
}

impl<T: Positionable> QuadTree<T> {
    /// Collects every stored entity, depth first, without changing the
    /// tree.  The iterator hands them back in reverse collection order;
    /// no ordering guarantee is offered beyond every stored entity
    /// appearing exactly once.
    pub fn iter(&self) -> (it: QuadTreeIter<T>)
        requires
            self.inv(),
        ensures
            it.stack@ == self.entities(),
    {
        let mut stack: Vec<T> = Vec::new();
        self.root.collect_into(&mut stack);
        proof {
            assert(stack@ =~= self.entities());
        }
        QuadTreeIter { stack }
    }

    /// Moves every stored entity out of the tree.  The node structure is
    /// kept but emptied, and the count is reset to zero so the tree stays
    /// consistent and reusable.
    pub fn drain(&mut self) -> (it: QuadTreeIter<T>)
        requires
            old(self).inv(),
        ensures
            it.stack@ == old(self).entities(),
            final(self).inv(),
            final(self).root.contained(),
            final(self).count == 0,
            final(self).entities() == Seq::<T>::empty(),
            final(self).root.bound == old(self).root.bound,
            final(self).root.capacity == old(self).root.capacity,
    {
        let mut stack: Vec<T> = Vec::new();
        self.root.drain_into(&mut stack);
        self.count = 0;
        proof {
            assert(stack@ =~= old(self).entities());
        }
        QuadTreeIter { stack }
    }

    /// Returns every node's rectangle, in depth-first node order,
    /// primarily for visualization.
    pub fn bounds(&self) -> (r: Vec<Rect>)
        requires
            self.inv(),
        ensures
            r@ == self.root.bounds_spec(),
    {
        let mut out: Vec<Rect> = Vec::new();
        self.root.bounds_into(&mut out);
        proof {
            assert(out@ =~= self.root.bounds_spec());
        }
        out
    }

    /// Circular range search: returns the points of every node that holds
    /// at least one point and whose bound overlaps the circle of radius
    /// `range` centred at `(cx, cy)`.  The result is a candidate set:
    /// callers apply their own exact distance test afterwards.
    pub fn query(&self, cx: i64, cy: i64, range: i64) -> (res: Vec<T>)
        requires
            self.inv(),
            -COORD_LIMIT <= cx <= COORD_LIMIT,
            -COORD_LIMIT <= cy <= COORD_LIMIT,
            0 <= range <= COORD_LIMIT,
        ensures
            res@ == self.root.query_spec(cx, cy, range),
    {
        let mut out: Vec<T> = Vec::new();
        self.root.query_into(cx, cy, range, &mut out);
        proof {
            assert(out@ =~= self.root.query_spec(cx, cy, range));
        }
        out
    }
}

/// Candidate completeness: an entity sitting in any node whose bound
/// overlaps the query circle appears in the query's result.
pub proof fn lemma_query_superset<T: Positionable>(n: QuadNode<T>, cx: i64, cy: i64, r: i64, e: T)
    requires
        n.in_overlapping_node(cx, cy, r, e),
    ensures
        n.query_spec(cx, cy, r).contains(e),
    decreases n,
{
    let mine = if n.points@.len() > 0 && n.bound.overlaps_circle_spec(
        cx as int,
        cy as int,
        r as int,
    ) {
        n.points@
    } else {
        Seq::<T>::empty()
    };
    match n.children {
        Option::None => {
            assert(n.points@.contains(e));
        },
        Option::Some(c) => {
            let qne = c.ne.query_spec(cx, cy, r);
            let qnw = c.nw.query_spec(cx, cy, r);
            let qsw = c.sw.query_spec(cx, cy, r);
            let qse = c.se.query_spec(cx, cy, r);
            if n.points@.contains(e) && n.bound.overlaps_circle_spec(
                cx as int,
                cy as int,
                r as int,
            ) {
                assert(mine.contains(e));
                lemma_concat_contains(mine, qne, e);
                lemma_concat_contains(mine + qne, qnw, e);
                lemma_concat_contains(mine + qne + qnw, qsw, e);
            } else if c.ne.in_overlapping_node(cx, cy, r, e) {
                lemma_query_superset(c.ne, cx, cy, r, e);
                lemma_concat_contains(mine, qne, e);
                lemma_concat_contains(mine + qne, qnw, e);
                lemma_concat_contains(mine + qne + qnw, qsw, e);
            } else if c.nw.in_overlapping_node(cx, cy, r, e) {
                lemma_query_superset(c.nw, cx, cy, r, e);
                lemma_concat_contains(mine + qne, qnw, e);
                lemma_concat_contains(mine + qne + qnw, qsw, e);
            } else if c.sw.in_overlapping_node(cx, cy, r, e) {
                lemma_query_superset(c.sw, cx, cy, r, e);
                lemma_concat_contains(mine + qne + qnw, qsw, e);
            } else {
                lemma_query_superset(c.se, cx, cy, r, e);
            }
            lemma_concat_contains(mine + qne + qnw + qsw, qse, e);
        },
    }
}

/// While the containment invariant holds, every stored entity sits in a
/// node whose bound overlaps the zero-radius circle at its own position.
pub proof fn lemma_contained_in_overlapping<T: Positionable>(n: QuadNode<T>, e: T)
    requires
        n.wf(),
        n.contained(),
        n.all_points().contains(e),
    ensures
        n.in_overlapping_node(e.pos_x(), e.pos_y(), 0, e),
    decreases n,
{
    match n.children {
        Option::None => {
            let i = choose|i: int| 0 <= i < n.points@.len() && n.points@[i] == e;
            assert(point_in_rect(n.bound, n.points@[i]));
            lemma_contains_implies_zero_overlap(n.bound, e.pos_x() as int, e.pos_y() as int);
        },
        Option::Some(c) => {
            let ane = c.ne.all_points();
            let anw = c.nw.all_points();
            let asw = c.sw.all_points();
            let ase = c.se.all_points();
            lemma_concat_contains_split(n.points@ + ane + anw + asw, ase, e);
            if ase.contains(e) {
                lemma_contained_in_overlapping(c.se, e);
            } else {
                lemma_concat_contains_split(n.points@ + ane + anw, asw, e);
                if asw.contains(e) {
                    lemma_contained_in_overlapping(c.sw, e);
                } else {
                    lemma_concat_contains_split(n.points@ + ane, anw, e);
                    if anw.contains(e) {
                        lemma_contained_in_overlapping(c.nw, e);
                    } else {
                        lemma_concat_contains_split(n.points@, ane, e);
                        if ane.contains(e) {
                            lemma_contained_in_overlapping(c.ne, e);
                        } else {
                            let i = choose|i: int|
                                0 <= i < n.points@.len() && n.points@[i] == e;
                            assert(point_in_rect(n.bound, n.points@[i]));
                            lemma_contains_implies_zero_overlap(
                                n.bound,
                                e.pos_x() as int,
                                e.pos_y() as int,
                            );
                        }
                    }
                }
            }
        },
    }
}

/// Query soundness: while the containment invariant holds, a zero-radius
/// query at a stored entity's own position returns that entity (along
/// with its node co-residents, which share the overlapping node).
pub proof fn lemma_query_sound<T: Positionable>(n: QuadNode<T>, e: T)
    requires
        n.wf(),
        n.contained(),
        n.all_points().contains(e),
    ensures
        n.query_spec(e.pos_x(), e.pos_y(), 0).contains(e),
{
    lemma_contained_in_overlapping(n, e);
    lemma_query_superset(n, e.pos_x(), e.pos_y(), 0, e);
}

/// Candidate-superset completeness for a pair: if two entities lie within
/// `r` of each other and each sits in a node whose bound overlaps the
/// query circle, both appear in that query's result — the index never
/// produces a false negative among entities of overlapping nodes.
pub proof fn lemma_query_pair_complete<T: Positionable>(
    n: QuadNode<T>,
    cx: i64,
    cy: i64,
    r: i64,
    e1: T,
    e2: T,
)
    requires
        (e1.pos_x() - e2.pos_x()) * (e1.pos_x() - e2.pos_x()) + (e1.pos_y() - e2.pos_y()) * (
        e1.pos_y() - e2.pos_y()) <= r * r,
        n.in_overlapping_node(cx, cy, r, e1),
        n.in_overlapping_node(cx, cy, r, e2),
    ensures
        n.query_spec(cx, cy, r).contains(e1),
        n.query_spec(cx, cy, r).contains(e2),
{
    lemma_query_superset(n, cx, cy, r, e1);
    lemma_query_superset(n, cx, cy, r, e2);
}

} // verus!
