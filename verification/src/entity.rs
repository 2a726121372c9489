//! A minimal entity type for the index: an identifier at an integer
//! position.  Simulations with richer state keep it alongside, keyed by
//! the identifier.

use vstd::prelude::*;
use crate::quadtree::Positionable;

verus! {

/// An identified point entity.
#[derive(Clone, Copy, PartialEq, Eq, Structural, Debug)]
pub struct Entity {
    /// The caller's identifier for this entity.
    pub id: usize,
    /// The x coordinate.
    pub x: i64,
    /// The y coordinate.
    pub y: i64,
}

impl Entity {
    /// Creates an entity with the given identifier and position.
    pub fn new(id: usize, x: i64, y: i64) -> (e: Entity)
        ensures
            e == (Entity { id, x, y }),
    {
        Entity { id, x, y }
    }
}

impl Positionable for Entity {
    open spec fn pos_x(&self) -> i64 {
        self.x
    }

    open spec fn pos_y(&self) -> i64 {
        self.y
    }

    fn position(&self) -> (p: (i64, i64)) {
        (self.x, self.y)
    }
}

} // verus!
