//! A dynamic quadtree spatial index over a fixed rectangular plane.
//!
//! The tree adaptively subdivides rectangular regions to keep per-region
//! entity counts bounded, supports re-insertion of entities whose position
//! has moved outside their region, and answers circular range queries with
//! a candidate set (callers apply exact distance tests afterwards).
//!
//! Positions are integer coordinates; containment is half-open on a
//! region's far edges, so the four quadrants of a region partition it
//! exactly.  An entity outside the root bound is rejected at insertion
//! rather than silently lost, and a region too small to split keeps any
//! excess entities, so the tree's count always matches its contents.

pub mod geom;
pub mod quadtree;
pub mod iter;
pub mod entity;
