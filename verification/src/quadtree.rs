//! The quadtree spatial index: nodes that hold up to `capacity` entities
//! directly or exactly four child quadrants, and the owning tree with its
//! running entity count.

use vstd::prelude::*;
use crate::geom::{Rect, COORD_LIMIT, lemma_quadrants_partition};
use vstd::seq_lib::lemma_multiset_commutative;
use vstd::multiset::Multiset;

verus! {

broadcast use vstd::seq_lib::group_to_multiset_ensures, vstd::seq_lib::lemma_multiset_commutative, vstd::multiset::group_multiset_axioms, vstd::multiset::group_multiset_properties;

/// The sole capability an entity needs to be stored in the index: it
/// deterministically reports a 2D integer position.
pub trait Positionable: Sized + Copy {
    /// The entity's x coordinate, as contracts see it.
    spec fn pos_x(&self) -> i64;

    /// The entity's y coordinate, as contracts see it.
    spec fn pos_y(&self) -> i64;

    /// Reports the entity's position.
    fn position(&self) -> (p: (i64, i64))
        ensures
            p.0 == self.pos_x(),
            p.1 == self.pos_y(),
    ;
}

/// Whether the point reported by `p` lies within `b`.
pub open spec fn point_in_rect<T: Positionable>(b: Rect, p: T) -> bool {
    b.contains_spec(p.pos_x() as int, p.pos_y() as int)
}

/// Whether every element of `pts` lies within `b`.
pub open spec fn points_in_rect<T: Positionable>(b: Rect, pts: Seq<T>) -> bool {
    forall|i: int| 0 <= i < pts.len() ==> point_in_rect(b, #[trigger] pts[i])
}

/// One rectangular region of the index.  A node is either a leaf holding
/// entities directly in `points`, or an internal node holding exactly four
/// children partitioning `bound`, never both.
pub struct QuadNode<T> {
    /// How many entities a leaf may hold before it subdivides; constant
    /// for the node's lifetime and inherited unchanged by children.
    pub capacity: usize,
    /// The region this node covers.
    pub bound: Rect,
    /// The entities held directly; empty once the node has subdivided.
    pub points: Vec<T>,
    /// The four child quadrants, present exactly when the node has
    /// subdivided.
    pub children: Option<Box<Children<T>>>,
}

/// The four children of a subdivided node, one per quadrant.
pub struct Children<T> {
    pub ne: QuadNode<T>,
    pub nw: QuadNode<T>,
    pub sw: QuadNode<T>,
    pub se: QuadNode<T>,
}

impl<T: Positionable> QuadNode<T> {
    /// Whether this node holds its entities directly.
    pub open spec fn is_leaf(self) -> bool {
        self.children is None
    }

    /// The four children of a subdivided node.
    pub open spec fn kids(self) -> Children<T>
        recommends !self.is_leaf(),
    {
        *self.children->Some_0
    }

    /// Every entity stored anywhere under this node, in depth-first
    /// order: the node's own points, then the NE, NW, SW, SE subtrees.
    pub open spec fn all_points(self) -> Seq<T>
        decreases self,
    {
        match self.children {
            Option::None => self.points@,
            Option::Some(c) => self.points@ + c.ne.all_points() + c.nw.all_points()
                + c.sw.all_points() + c.se.all_points(),
        }
    }

    /// Structural well-formedness: the bound is usable, the capacity is
    /// positive, a leaf holds more than `capacity` points only when its
    /// region is too small to split further, and an internal node holds
    /// no points of its own, has a bound at least two units wide and
    /// tall, and has four well-formed children that cover exactly its
    /// quadrants with the same capacity.
    pub open spec fn wf(self) -> bool
        decreases self,
    {
        &&& self.bound.wf()
        &&& self.capacity >= 1
        &&& match self.children {
            Option::None => self.points@.len() <= self.capacity || self.bound.w < 2
                || self.bound.h < 2,
            Option::Some(c) => {
                &&& self.points@.len() == 0
                &&& self.bound.w >= 2
                &&& self.bound.h >= 2
                &&& c.ne.bound == self.bound.quadrant_ne()
                &&& c.nw.bound == self.bound.quadrant_nw()
                &&& c.sw.bound == self.bound.quadrant_sw()
                &&& c.se.bound == self.bound.quadrant_se()
                &&& c.ne.capacity == self.capacity
                &&& c.nw.capacity == self.capacity
                &&& c.sw.capacity == self.capacity
                &&& c.se.capacity == self.capacity
                &&& c.ne.wf()
                &&& c.nw.wf()
                &&& c.sw.wf()
                &&& c.se.wf()
            },
        }
    }

    /// Positional invariant: every entity stored under this node lies
    /// within the bound of the node that directly holds it.  Holds after
    /// construction, insertion and re-partitioning; external position
    /// updates break it until the next re-partitioning pass.
    pub open spec fn contained(self) -> bool
        decreases self,
    {
        &&& points_in_rect(self.bound, self.points@)
        &&& match self.children {
            Option::None => true,
            Option::Some(c) => c.ne.contained() && c.nw.contained() && c.sw.contained()
                && c.se.contained(),
        }
    }

    /// The multiset of entities stored under the four children.
    pub open spec fn kids_ms(self) -> Multiset<T>
        recommends !self.is_leaf(),
    {
        self.kids().ne.all_points().to_multiset().add(
            self.kids().nw.all_points().to_multiset(),
        ).add(self.kids().sw.all_points().to_multiset()).add(
            self.kids().se.all_points().to_multiset(),
        )
    }

    /// A just-created leaf: given bound and capacity, no points, no
    /// children.
    pub open spec fn fresh_leaf(self, b: Rect, cap: usize) -> bool {
        &&& self.capacity == cap
        &&& self.bound == b
        &&& self.points@.len() == 0
        &&& self.is_leaf()
    }

    /// The children exist, cover exactly this node's quadrants with the
    /// same capacity, and are themselves well formed with their contents
    /// in place.  This is the part of the invariant that survives while a
    /// subdividing node still holds points it has yet to redistribute.
    pub open spec fn kids_partition(self) -> bool {
        &&& !self.is_leaf()
        &&& self.kids().ne.bound == self.bound.quadrant_ne()
        &&& self.kids().nw.bound == self.bound.quadrant_nw()
        &&& self.kids().sw.bound == self.bound.quadrant_sw()
        &&& self.kids().se.bound == self.bound.quadrant_se()
        &&& self.kids().ne.capacity == self.capacity
        &&& self.kids().nw.capacity == self.capacity
        &&& self.kids().sw.capacity == self.capacity
        &&& self.kids().se.capacity == self.capacity
        &&& self.kids().ne.wf()
        &&& self.kids().nw.wf()
        &&& self.kids().sw.wf()
        &&& self.kids().se.wf()
        &&& self.kids().ne.contained()
        &&& self.kids().nw.contained()
        &&& self.kids().sw.contained()
        &&& self.kids().se.contained()
    }

    /// Creates an empty leaf covering `bound`.
    fn new(bound: Rect, capacity: usize) -> (n: Self)
        requires
            bound.wf(),
            capacity >= 1,
        ensures
            n.fresh_leaf(bound, capacity),
            n.wf(),
            n.contained(),
            n.all_points() == Seq::<T>::empty(),
    {
        QuadNode { capacity, bound, points: Vec::new(), children: None }
    }

    /// True iff the entity's reported position lies within this node's
    /// bound (half-open on the far edges).
    pub fn contains(&self, pt: &T) -> (r: bool)
        requires
            self.bound.wf(),
        ensures
            r == point_in_rect(self.bound, *pt),
    {
        let (px, py) = pt.position();
        self.bound.contains_point(px, py)
    }

    /// Splits this leaf into four equal quadrant children, each inheriting
    /// the capacity.  The node's own points are left in place for the
    /// caller to redistribute.
    fn sub_divide(&mut self)
        requires
            old(self).is_leaf(),
            old(self).bound.wf(),
            old(self).capacity >= 1,
            old(self).bound.w >= 2,
            old(self).bound.h >= 2,
        ensures
            !final(self).is_leaf(),
            final(self).bound == old(self).bound,
            final(self).capacity == old(self).capacity,
            final(self).points == old(self).points,
            final(self).kids_partition(),
            final(self).kids().ne.all_points() == Seq::<T>::empty(),
            final(self).kids().nw.all_points() == Seq::<T>::empty(),
            final(self).kids().sw.all_points() == Seq::<T>::empty(),
            final(self).kids().se.all_points() == Seq::<T>::empty(),
    {
        proof {
            lemma_quadrants_partition(self.bound);
        }
        let hw = self.bound.w / 2;
        let hh = self.bound.h / 2;
        let x = self.bound.x;
        let y = self.bound.y;
        let north_east = QuadNode::new(
            Rect { x: x + hw, y, w: self.bound.w - hw, h: hh },
            self.capacity,
        );
        let north_west = QuadNode::new(Rect { x, y, w: hw, h: hh }, self.capacity);
        let south_west = QuadNode::new(
            Rect { x, y: y + hh, w: hw, h: self.bound.h - hh },
            self.capacity,
        );
        let south_east = QuadNode::new(
            Rect { x: x + hw, y: y + hh, w: self.bound.w - hw, h: self.bound.h - hh },
            self.capacity,
        );
        self.children = Some(
            Box::new(
                Children { ne: north_east, nw: north_west, sw: south_west, se: south_east },
            ),
        );
    }

    /// Hands the entity to the first child whose bound contains it, in
    /// NE, NW, SW, SE order; an entity no child contains is not stored.
    fn add_to_children(&mut self, pt: T) -> (stored: bool)
        requires
            !old(self).is_leaf(),
            old(self).bound.wf(),
            old(self).capacity >= 1,
            old(self).bound.w >= 2,
            old(self).bound.h >= 2,
            old(self).kids_partition(),
        ensures
            !final(self).is_leaf(),
            final(self).bound == old(self).bound,
            final(self).capacity == old(self).capacity,
            final(self).points == old(self).points,
            final(self).kids_partition(),
            stored == point_in_rect(old(self).bound, pt),
            stored ==> final(self).kids_ms() == old(self).kids_ms().insert(pt),
            !stored ==> *final(self) == *old(self),
        decreases old(self).bound.w + old(self).bound.h, 0int,
    {
        proof {
            lemma_quadrants_partition(self.bound);
        }
        let ch = self.children.take();
        match ch {
            None => {
                proof {
                    assert(false);
                }
                false
            },
            Some(boxed) => {
                let mut c = *boxed;
                let stored: bool;
                if c.ne.contains(&pt) {
                    stored = c.ne.push(pt);
                } else if c.nw.contains(&pt) {
                    stored = c.nw.push(pt);
                } else if c.sw.contains(&pt) {
                    stored = c.sw.push(pt);
                } else if c.se.contains(&pt) {
                    stored = c.se.push(pt);
                } else {
                    stored = false;
                }
                self.children = Some(Box::new(c));
                proof {
                    if stored {
                        assert(self.kids_ms() =~= old(self).kids_ms().insert(pt));
                    }
                }
                stored
            },
        }
    }

    /// Inserts one entity.  A leaf appends it and subdivides once the
    /// capacity is exceeded (provided the region can still be split); an
    /// internal node delegates to the child whose quadrant contains the
    /// entity.  An entity outside this node's bound is rejected and the
    /// node is left unchanged.
    pub fn push(&mut self, pt: T) -> (stored: bool)
        requires
            old(self).wf(),
            old(self).contained(),
        ensures
            final(self).wf(),
            final(self).contained(),
            final(self).bound == old(self).bound,
            final(self).capacity == old(self).capacity,
            stored == point_in_rect(old(self).bound, pt),
            stored ==> final(self).all_points().to_multiset() == old(
                self,
            ).all_points().to_multiset().insert(pt),
            !stored ==> *final(self) == *old(self),
        decreases old(self).bound.w + old(self).bound.h, 1int,
    {
        if self.children.is_some() {
            let stored = self.add_to_children(pt);
            proof {
                lemma_all_points_ms(*old(self));
                lemma_all_points_ms(*self);
                if stored {
                    assert(self.all_points().to_multiset() =~= old(
                        self,
                    ).all_points().to_multiset().insert(pt));
                }
            }
            stored
        } else {
            let (px, py) = pt.position();
            if !self.bound.contains_point(px, py) {
                return false;
            }
            self.points.push(pt);
            let ghost ms0 = self.points@.to_multiset();
            proof {
                assert(ms0 == old(self).all_points().to_multiset().insert(pt));
                assert(points_in_rect(self.bound, self.points@));
            }
            if self.points.len() > self.capacity && self.bound.w >= 2 && self.bound.h >= 2 {
                self.sub_divide();
                proof {
                    assert(self.kids_ms() =~= Multiset::<T>::empty());
                }
                while self.points.len() > 0
                    invariant
                        !self.is_leaf(),
                        self.bound == old(self).bound,
                        self.capacity == old(self).capacity,
                        self.bound.wf(),
                        self.capacity >= 1,
                        self.bound.w >= 2,
                        self.bound.h >= 2,
                        self.kids_partition(),
                        points_in_rect(self.bound, self.points@),
                        self.kids_ms().add(self.points@.to_multiset()) == ms0,
                    decreases self.points.len(),
                {
                    let ghost pts_before = self.points@;
                    let popped = self.points.pop();
                    let p = popped.unwrap();
                    proof {
                        assert(pts_before.subrange(0, pts_before.len() - 1) =~= pts_before.remove(
                            pts_before.len() - 1,
                        ));
                        assert(self.points@.to_multiset() == pts_before.to_multiset().remove(p));
                        assert(point_in_rect(self.bound, p));
                    }
                    let st = self.add_to_children(p);
                    proof {
                        assert(st);
                        assert(self.kids_ms().add(self.points@.to_multiset()) =~= ms0);
                    }
                }
                proof {
                    lemma_all_points_ms(*self);
                    assert(self.points@.to_multiset() =~= Multiset::<T>::empty());
                    assert(self.all_points().to_multiset() =~= ms0);
                }
            }
            true
        }
    }

    /// Replaces every stored entity with the result of `f`, in place,
    /// leaving the node structure untouched.
    fn map_node<F: Fn(T) -> T>(&mut self, f: &F)
        requires
            old(self).wf(),
            forall|p: T| #[trigger] f.requires((p,)),
        ensures
            final(self).wf(),
            final(self).bound == old(self).bound,
            final(self).capacity == old(self).capacity,
            mapped_by(*f, old(self).all_points(), final(self).all_points()),
        decreases old(self).bound.w + old(self).bound.h,
    {
        let ghost pts0 = self.points@;
        let n = self.points.len();
        let mut out: Vec<T> = Vec::new();
        for i in 0..n
            invariant
                *self == *old(self),
                n == pts0.len(),
                self.points@ == pts0,
                forall|p: T| #[trigger] f.requires((p,)),
                out@.len() == i,
                mapped_by(*f, pts0.subrange(0, i as int), out@),
        {
            let p = self.points[i];
            let q = f(p);
            out.push(q);
            proof {
                assert(pts0.subrange(0, i + 1) =~= pts0.subrange(0, i as int).push(
                    pts0[i as int],
                ));
            }
        }
        proof {
            assert(pts0.subrange(0, n as int) =~= pts0);
        }
        self.points = out;
        let ch = self.children.take();
        match ch {
            None => {
                proof {
                    assert(mapped_by(*f, old(self).all_points(), self.all_points()));
                }
            },
            Some(boxed) => {
                let mut c = *boxed;
                c.ne.map_node(f);
                c.nw.map_node(f);
                c.sw.map_node(f);
                c.se.map_node(f);
                self.children = Some(Box::new(c));
                proof {
                    let k = self.kids();
                    let ko = old(self).kids();
                    lemma_mapped_concat(*f, pts0, self.points@, ko.ne.all_points(), k.ne.all_points());
                    lemma_mapped_concat(
                        *f,
                        pts0 + ko.ne.all_points(),
                        self.points@ + k.ne.all_points(),
                        ko.nw.all_points(),
                        k.nw.all_points(),
                    );
                    lemma_mapped_concat(
                        *f,
                        pts0 + ko.ne.all_points() + ko.nw.all_points(),
                        self.points@ + k.ne.all_points() + k.nw.all_points(),
                        ko.sw.all_points(),
                        k.sw.all_points(),
                    );
                    lemma_mapped_concat(
                        *f,
                        pts0 + ko.ne.all_points() + ko.nw.all_points() + ko.sw.all_points(),
                        self.points@ + k.ne.all_points() + k.nw.all_points() + k.sw.all_points(),
                        ko.se.all_points(),
                        k.se.all_points(),
                    );
                }
            },
        }
    }

    /// Removes from every node the points that no longer lie within the
    /// bound of the node holding them, and returns them for re-insertion.
    /// Afterwards every remaining point satisfies its node's bound.
    fn collect_strays(&mut self) -> (out: Vec<T>)
        requires
            old(self).wf(),
        ensures
            final(self).wf(),
            final(self).contained(),
            final(self).bound == old(self).bound,
            final(self).capacity == old(self).capacity,
            final(self).all_points().to_multiset().add(out@.to_multiset()) == old(
                self,
            ).all_points().to_multiset(),
        decreases old(self).bound.w + old(self).bound.h,
    {
        let mut out: Vec<T> = Vec::new();
        let mut kept: Vec<T> = Vec::new();
        let ghost pts0 = self.points@;
        let n = self.points.len();
        for i in 0..n
            invariant
                *self == *old(self),
                n == pts0.len(),
                self.points@ == pts0,
                self.bound.wf(),
                kept@.to_multiset().add(out@.to_multiset()) == pts0.subrange(0, i as int).to_multiset(),
                points_in_rect(self.bound, kept@),
        {
            let p = self.points[i];
            if self.contains(&p) {
                kept.push(p);
            } else {
                out.push(p);
            }
            proof {
                assert(pts0.subrange(0, i + 1) =~= pts0.subrange(0, i as int).push(pts0[i as int]));
                assert(kept@.to_multiset().add(out@.to_multiset()) =~= pts0.subrange(
                    0,
                    i + 1,
                ).to_multiset());
            }
        }
        proof {
            assert(pts0.subrange(0, n as int) =~= pts0);
        }
        self.points = kept;
        let ghost own_strays = out@;
        let ch = self.children.take();
        match ch {
            None => {
                proof {
                    assert(self.points@.to_multiset().len() + out@.to_multiset().len()
                        == pts0.to_multiset().len());
                    assert(self.points@.len() <= pts0.len());
                    assert(self.wf());
                    assert(self.all_points().to_multiset().add(out@.to_multiset())
                        =~= old(self).all_points().to_multiset());
                }
                out
            },
            Some(boxed) => {
                proof {
                    assert(pts0.len() == 0);
                    assert(pts0.to_multiset().len() == 0);
                    assert(self.points@.to_multiset().add(own_strays.to_multiset())
                        == pts0.to_multiset());
                    assert(self.points@.to_multiset().len() == 0);
                    assert(self.points@.len() == 0);
                }
                let mut c = *boxed;
                let mut o_ne = c.ne.collect_strays();
                out.append(&mut o_ne);
                let mut o_nw = c.nw.collect_strays();
                out.append(&mut o_nw);
                let mut o_sw = c.sw.collect_strays();
                out.append(&mut o_sw);
                let mut o_se = c.se.collect_strays();
                out.append(&mut o_se);
                self.children = Some(Box::new(c));
                proof {
                    lemma_all_points_ms(*old(self));
                    lemma_all_points_ms(*self);
                    assert(self.all_points().to_multiset().add(out@.to_multiset())
                        =~= old(self).all_points().to_multiset());
                }
                out
            },
        }
    }
}

/// The spatial index: owns the root region and keeps a running count of
/// the entities stored anywhere in the tree.
pub struct QuadTree<T> {
    /// The root region, spanning the whole indexed plane.
    pub root: QuadNode<T>,
    /// The number of entities currently stored in the tree.
    pub count: usize,
}

impl<T: Positionable> QuadTree<T> {
    /// Every entity currently stored, in depth-first order.
    pub open spec fn entities(self) -> Seq<T> {
        self.root.all_points()
    }

    /// The tree's invariant: the node structure is well formed and the
    /// cached count equals the number of entities reachable by full
    /// traversal.
    pub open spec fn inv(self) -> bool {
        &&& self.root.wf()
        &&& self.count == self.root.all_points().len()
    }

    /// Creates an empty tree whose root bound spans `(0, 0)` to
    /// `(width, height)`, with the given per-node capacity.
    pub fn new(width: i64, height: i64, capacity: usize) -> (t: Self)
        requires
            0 <= width <= COORD_LIMIT,
            0 <= height <= COORD_LIMIT,
            capacity >= 1,
        ensures
            t.inv(),
            t.root.contained(),
            t.entities() == Seq::<T>::empty(),
            t.count == 0,
            t.root.fresh_leaf(Rect { x: 0, y: 0, w: width, h: height }, capacity),
    {
        QuadTree {
            root: QuadNode::new(Rect { x: 0, y: 0, w: width, h: height }, capacity),
            count: 0,
        }
    }

    /// Inserts one entity and counts it if it was stored.  An entity
    /// whose position lies outside the root bound is rejected and the
    /// tree is left unchanged, so the count always matches the stored
    /// contents.
    pub fn push(&mut self, pt: T) -> (stored: bool)
        requires
            old(self).inv(),
            old(self).root.contained(),
            old(self).count < usize::MAX,
        ensures
            final(self).inv(),
            final(self).root.contained(),
            final(self).root.bound == old(self).root.bound,
            final(self).root.capacity == old(self).root.capacity,
            stored == point_in_rect(old(self).root.bound, pt),
            stored ==> final(self).count == old(self).count + 1,
            stored ==> final(self).entities().to_multiset() == old(
                self,
            ).entities().to_multiset().insert(pt),
            !stored ==> *final(self) == *old(self),
    {
        let stored = self.root.push(pt);
        if stored {
            self.count = self.count + 1;
        }
        proof {
            if stored {
                assert(self.entities().len() == self.entities().to_multiset().len());
                assert(old(self).entities().len() == old(self).entities().to_multiset().len());
                assert(self.entities().to_multiset().len() == old(
                    self,
                ).entities().to_multiset().len() + 1);
            }
        }
        stored
    }

    /// Returns the cached total of stored entities, which the invariant
    /// ties to the number of entities reachable by full traversal.
    pub fn count(&self) -> (n: usize)
        requires
            self.inv(),
        ensures
            n == self.count,
            n == self.entities().len(),
    {
        self.count
    }

    /// Discards all entities, replacing the tree with a fresh single-leaf
    /// root of the same bound and capacity.
    pub fn clear(&mut self)
        requires
            old(self).inv(),
        ensures
            final(self).inv(),
            final(self).root.contained(),
            final(self).count == 0,
            final(self).entities() == Seq::<T>::empty(),
            final(self).root.fresh_leaf(old(self).root.bound, old(self).root.capacity),
    {
        let bound = self.root.bound;
        let capacity = self.root.capacity;
        self.root = QuadNode::new(bound, capacity);
        self.count = 0;
    }

    /// Applies `f` to every stored entity in place, leaving the node
    /// structure and the count unchanged.  An entity whose new position
    /// has left its node's bound stays where it is until the next
    /// `update` pass relocates it.
    pub fn map_points<F: Fn(T) -> T>(&mut self, f: &F)
        requires
            old(self).inv(),
            forall|p: T| #[trigger] f.requires((p,)),
        ensures
            final(self).inv(),
            final(self).count == old(self).count,
            final(self).root.bound == old(self).root.bound,
            final(self).root.capacity == old(self).root.capacity,
            mapped_by(*f, old(self).entities(), final(self).entities()),
    {
        self.root.map_node(f);
    }

    /// The re-partitioning pass: removes every point that has drifted
    /// outside the bound of the node holding it and re-inserts it from
    /// the root, so that afterwards every stored entity again lies within
    /// its leaf's bound.  The contents that remain are exactly the old
    /// contents restricted to the root bound: an entity that drifted
    /// outside the root bound entirely is discarded and no longer
    /// counted, and when every entity is still within the root bound the
    /// contents and the count are unchanged.
    pub fn update(&mut self)
        requires
            old(self).inv(),
        ensures
            final(self).inv(),
            final(self).root.contained(),
            final(self).root.bound == old(self).root.bound,
            final(self).root.capacity == old(self).root.capacity,
            final(self).entities().to_multiset() == restricted_to_rect(
                old(self).entities().to_multiset(),
                old(self).root.bound,
            ),
            final(self).entities().to_multiset().subset_of(old(self).entities().to_multiset()),
            points_in_rect(old(self).root.bound, old(self).entities()) ==> {
                &&& final(self).entities().to_multiset() == old(self).entities().to_multiset()
                &&& final(self).count == old(self).count
            },
    {
        let ghost ents0 = self.entities();
        let ghost ms_old = ents0.to_multiset();
        let ghost b0 = self.root.bound;
        let ghost count0 = self.count;
        let ghost hyp = points_in_rect(b0, ents0);
        let mut strays = self.root.collect_strays();
        proof {
            assert(self.root.all_points().to_multiset().len() + strays@.to_multiset().len()
                == ms_old.len());
            lemma_contained_within_bound(self.root);
            lemma_restrict_identity(b0, self.root.all_points());
            assert(restricted_to_rect(ms_old, b0) =~= restricted_to_rect(
                self.entities().to_multiset(),
                b0,
            ).add(restricted_to_rect(strays@.to_multiset(), b0)));
        }
        self.count = self.count - strays.len();
        while strays.len() > 0
            invariant
                self.inv(),
                self.root.contained(),
                self.root.bound == b0,
                self.root.capacity == old(self).root.capacity,
                ms_old == ents0.to_multiset(),
                hyp == points_in_rect(b0, ents0),
                self.count + strays@.len() <= count0,
                self.entities().to_multiset().add(strays@.to_multiset()).subset_of(ms_old),
                strays@.to_multiset().subset_of(ms_old),
                hyp ==> self.entities().to_multiset().add(strays@.to_multiset()) == ms_old,
                hyp ==> self.count + strays@.len() == count0,
                self.entities().to_multiset().add(
                    restricted_to_rect(strays@.to_multiset(), b0),
                ) == restricted_to_rect(ms_old, b0),
            decreases strays@.len(),
        {
            let ghost strays_before = strays@;
            let popped = strays.pop();
            let p = popped.unwrap();
            proof {
                assert(strays_before.subrange(0, strays_before.len() - 1) =~= strays_before.remove(
                    strays_before.len() - 1,
                ));
                assert(strays@.to_multiset() == strays_before.to_multiset().remove(p));
                if hyp {
                    assert(strays_before[strays_before.len() - 1] == p);
                    assert(strays_before.contains(p));
                    assert(strays_before.to_multiset().count(p) > 0);
                    assert(ms_old.count(p) > 0);
                    ents0.to_multiset_ensures();
                    assert(ents0.to_multiset().count(p) > 0);
                    assert(ents0.contains(p));
                    let i = choose|i: int| 0 <= i < ents0.len() && ents0[i] == p;
                    assert(point_in_rect(b0, #[trigger] ents0[i]));
                    assert(point_in_rect(b0, p));
                }
            }
            let ghost ms_mid = self.entities().to_multiset();
            let st = self.push(p);
            proof {
                strays_before.to_multiset_ensures();
                assert(strays_before[strays_before.len() - 1] == p);
                assert(strays_before.contains(p));
                assert(strays_before.to_multiset().count(p) > 0);
                if st {
                    assert(self.entities().to_multiset().add(strays@.to_multiset())
                        =~= ms_mid.add(strays_before.to_multiset()));
                    assert(restricted_to_rect(strays_before.to_multiset(), b0).count(p) > 0);
                    assert(self.entities().to_multiset().add(
                        restricted_to_rect(strays@.to_multiset(), b0),
                    ) =~= ms_mid.add(restricted_to_rect(strays_before.to_multiset(), b0)));
                } else {
                    assert(self.entities().to_multiset().add(strays@.to_multiset()).subset_of(
                        ms_mid.add(strays_before.to_multiset()),
                    ));
                    assert(self.entities().to_multiset().add(
                        restricted_to_rect(strays@.to_multiset(), b0),
                    ) =~= ms_mid.add(restricted_to_rect(strays_before.to_multiset(), b0)));
                }
            }
        }
        proof {
            assert(strays@.to_multiset() =~= Multiset::<T>::empty());
            assert(self.entities().to_multiset().add(strays@.to_multiset())
                =~= self.entities().to_multiset());
            assert(restricted_to_rect(strays@.to_multiset(), b0) =~= Multiset::<T>::empty());
            assert(self.entities().to_multiset().add(
                restricted_to_rect(strays@.to_multiset(), b0),
            ) =~= self.entities().to_multiset());
        }
    }
}

/// Index-wise correspondence of two sequences through the relational
/// contract of `f`: equal lengths, and each element of `b` is a possible
/// result of applying `f` to the matching element of `a`.
pub open spec fn mapped_by<T, F: Fn(T) -> T>(f: F, a: Seq<T>, b: Seq<T>) -> bool {
    &&& b.len() == a.len()
    &&& forall|i: int| 0 <= i < a.len() ==> #[trigger] f.ensures((a[i],), b[i])
}

/// `mapped_by` is preserved by concatenating corresponding pieces.
proof fn lemma_mapped_concat<T, F: Fn(T) -> T>(f: F, a1: Seq<T>, b1: Seq<T>, a2: Seq<T>, b2: Seq<T>)
    requires
        mapped_by(f, a1, b1),
        mapped_by(f, a2, b2),
    ensures
        mapped_by(f, a1 + a2, b1 + b2),
{
    assert forall|i: int| 0 <= i < (a1 + a2).len() implies #[trigger] f.ensures(
        ((a1 + a2)[i],),
        (b1 + b2)[i],
    ) by {
        if i < a1.len() {
            assert((a1 + a2)[i] == a1[i]);
            assert((b1 + b2)[i] == b1[i]);
        } else {
            assert((a1 + a2)[i] == a2[i - a1.len()]);
            assert((b1 + b2)[i] == b2[i - a1.len()]);
        }
    }
}

/// The entities of `m` whose position lies within `b`.
pub open spec fn restricted_to_rect<T: Positionable>(m: Multiset<T>, b: Rect) -> Multiset<T> {
    m.filter(|p: T| point_in_rect(b, p))
}

/// Concatenation preserves `points_in_rect`.
proof fn lemma_points_in_rect_concat<T: Positionable>(b: Rect, x: Seq<T>, y: Seq<T>)
    requires
        points_in_rect(b, x),
        points_in_rect(b, y),
    ensures
        points_in_rect(b, x + y),
{
    assert forall|i: int| 0 <= i < (x + y).len() implies point_in_rect(b, #[trigger] (x + y)[i]) by {
        if i < x.len() {
            assert((x + y)[i] == x[i]);
        } else {
            assert((x + y)[i] == y[i - x.len()]);
        }
    }
}

/// Weakening `points_in_rect` from a quadrant to its parent rectangle.
proof fn lemma_points_in_rect_widen<T: Positionable>(parent: Rect, child: Rect, s: Seq<T>)
    requires
        points_in_rect(child, s),
        forall|px: int, py: int| child.contains_spec(px, py) ==> parent.contains_spec(px, py),
    ensures
        points_in_rect(parent, s),
{
}

/// While the containment invariant holds, every stored entity lies
/// within this node's own bound.
proof fn lemma_contained_within_bound<T: Positionable>(n: QuadNode<T>)
    requires
        n.wf(),
        n.contained(),
    ensures
        points_in_rect(n.bound, n.all_points()),
    decreases n,
{
    match n.children {
        Option::None => {},
        Option::Some(c) => {
            lemma_quadrants_partition(n.bound);
            lemma_contained_within_bound(c.ne);
            lemma_contained_within_bound(c.nw);
            lemma_contained_within_bound(c.sw);
            lemma_contained_within_bound(c.se);
            lemma_points_in_rect_widen(n.bound, c.ne.bound, c.ne.all_points());
            lemma_points_in_rect_widen(n.bound, c.nw.bound, c.nw.all_points());
            lemma_points_in_rect_widen(n.bound, c.sw.bound, c.sw.all_points());
            lemma_points_in_rect_widen(n.bound, c.se.bound, c.se.all_points());
            lemma_points_in_rect_concat(n.bound, n.points@, c.ne.all_points());
            lemma_points_in_rect_concat(n.bound, n.points@ + c.ne.all_points(), c.nw.all_points());
            lemma_points_in_rect_concat(
                n.bound,
                n.points@ + c.ne.all_points() + c.nw.all_points(),
                c.sw.all_points(),
            );
            lemma_points_in_rect_concat(
                n.bound,
                n.points@ + c.ne.all_points() + c.nw.all_points() + c.sw.all_points(),
                c.se.all_points(),
            );
        },
    }
}

/// A sequence of entities that all lie within `b` is unchanged by
/// restricting its multiset to `b`.
proof fn lemma_restrict_identity<T: Positionable>(b: Rect, s: Seq<T>)
    requires
        points_in_rect(b, s),
    ensures
        restricted_to_rect(s.to_multiset(), b) == s.to_multiset(),
{
    s.to_multiset_ensures();
    assert forall|x: T| true implies #[trigger] restricted_to_rect(s.to_multiset(), b).count(x)
        == s.to_multiset().count(x) by {
        if s.to_multiset().count(x) > 0 {
            assert(s.contains(x));
            let i = choose|i: int| 0 <= i < s.len() && s[i] == x;
            assert(point_in_rect(b, #[trigger] s[i]));
        }
    }
    assert(restricted_to_rect(s.to_multiset(), b) =~= s.to_multiset());
}

/// For an internal node, the stored multiset is the node's own points
/// plus the children's contents.
proof fn lemma_all_points_ms<T: Positionable>(n: QuadNode<T>)
    requires
        !n.is_leaf(),
    ensures
        n.all_points().to_multiset() == n.points@.to_multiset().add(n.kids_ms()),
{
    let c = n.kids();
    let p = n.points@;
    let a = c.ne.all_points();
    let b = c.nw.all_points();
    let d = c.sw.all_points();
    let e = c.se.all_points();
    lemma_multiset_commutative(p, a);
    lemma_multiset_commutative(p + a, b);
    lemma_multiset_commutative(p + a + b, d);
    lemma_multiset_commutative(p + a + b + d, e);
    assert(n.all_points().to_multiset() =~= p.to_multiset().add(n.kids_ms()));
}

} // verus!
