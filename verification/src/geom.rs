//! Axis-aligned rectangles on an integer grid: containment, quadrant
//! splitting, and the circle overlap test used by range queries.

use vstd::prelude::*;

verus! {

/// Largest coordinate magnitude the index accepts.  Keeping every
/// rectangle corner and query centre within this range lets the squared
/// distances of the circle overlap test stay inside `i64`.
pub const COORD_LIMIT: i64 = 1_000_000_000;

/// An axis-aligned rectangle: origin `(x, y)`, extent `(w, h)`.
/// Containment is half-open: the left and top edges belong to the
/// rectangle, the right and bottom edges do not.
#[derive(Clone, Copy, PartialEq, Eq, Structural, Debug)]
pub struct Rect {
    pub x: i64,
    pub y: i64,
    pub w: i64,
    pub h: i64,
}

/// Clamps `v` into the closed interval `[lo, hi]`.
pub open spec fn clamp_spec(v: int, lo: int, hi: int) -> int {
    if v < lo {
        lo
    } else if v > hi {
        hi
    } else {
        v
    }
}

impl Rect {
    /// A rectangle the index can work with: non-negative extent, and all
    /// four corners within the coordinate range.
    pub open spec fn wf(self) -> bool {
        &&& 0 <= self.w
        &&& 0 <= self.h
        &&& -(COORD_LIMIT as int) <= self.x
        &&& self.x + self.w <= COORD_LIMIT as int
        &&& -(COORD_LIMIT as int) <= self.y
        &&& self.y + self.h <= COORD_LIMIT as int
    }

    /// Half-open containment: `x <= px < x + w` and `y <= py < y + h`.
    pub open spec fn contains_spec(self, px: int, py: int) -> bool {
        &&& self.x <= px < self.x + self.w
        &&& self.y <= py < self.y + self.h
    }

    /// Executable form of `contains_spec`.
    pub fn contains_point(&self, px: i64, py: i64) -> (r: bool)
        requires
            self.wf(),
        ensures
            r == self.contains_spec(px as int, py as int),
    {
        self.x <= px && px < self.x + self.w && self.y <= py && py < self.y + self.h
    }

    /// North-west quadrant: left half, upper half.
    pub open spec fn quadrant_nw(self) -> Rect {
        Rect { x: self.x, y: self.y, w: (self.w / 2) as i64, h: (self.h / 2) as i64 }
    }

    /// North-east quadrant: right half, upper half.
    pub open spec fn quadrant_ne(self) -> Rect {
        Rect {
            x: (self.x + self.w / 2) as i64,
            y: self.y,
            w: (self.w - self.w / 2) as i64,
            h: (self.h / 2) as i64,
        }
    }

    /// South-west quadrant: left half, lower half.
    pub open spec fn quadrant_sw(self) -> Rect {
        Rect {
            x: self.x,
            y: (self.y + self.h / 2) as i64,
            w: (self.w / 2) as i64,
            h: (self.h - self.h / 2) as i64,
        }
    }

    /// South-east quadrant: right half, lower half.
    pub open spec fn quadrant_se(self) -> Rect {
        Rect {
            x: (self.x + self.w / 2) as i64,
            y: (self.y + self.h / 2) as i64,
            w: (self.w - self.w / 2) as i64,
            h: (self.h - self.h / 2) as i64,
        }
    }

    /// Whether the circle of radius `r` centred at `(cx, cy)` overlaps this
    /// rectangle: clamp the centre to the rectangle and compare the squared
    /// distance against the squared radius.  The rectangle is treated as
    /// closed here, so a zero-radius circle on an edge still overlaps.
    pub open spec fn overlaps_circle_spec(self, cx: int, cy: int, r: int) -> bool {
        let qx = clamp_spec(cx, self.x as int, self.x + self.w);
        let qy = clamp_spec(cy, self.y as int, self.y + self.h);
        (cx - qx) * (cx - qx) + (cy - qy) * (cy - qy) <= r * r
    }

    /// Executable form of `overlaps_circle_spec`.
    pub fn overlaps_circle(&self, cx: i64, cy: i64, r: i64) -> (res: bool)
        requires
            self.wf(),
            -COORD_LIMIT <= cx <= COORD_LIMIT,
            -COORD_LIMIT <= cy <= COORD_LIMIT,
            0 <= r <= COORD_LIMIT,
        ensures
            res == self.overlaps_circle_spec(cx as int, cy as int, r as int),
    {
        let right = self.x + self.w;
        let bottom = self.y + self.h;
        let qx = if cx < self.x {
            self.x
        } else if cx > right {
            right
        } else {
            cx
        };
        let qy = if cy < self.y {
            self.y
        } else if cy > bottom {
            bottom
        } else {
            cy
        };
        let dx = cx - qx;
        let dy = cy - qy;
        proof {
            assert(dx * dx <= 4_000_000_000_000_000_000 && dx * dx >= 0) by (nonlinear_arith)
                requires -2_000_000_000 <= dx <= 2_000_000_000;
            assert(dy * dy <= 4_000_000_000_000_000_000 && dy * dy >= 0) by (nonlinear_arith)
                requires -2_000_000_000 <= dy <= 2_000_000_000;
            assert(r * r <= 1_000_000_000_000_000_000 && r * r >= 0) by (nonlinear_arith)
                requires 0 <= r <= 1_000_000_000;
        }
        dx * dx + dy * dy <= r * r
    }
}

/// A point inside a well-formed rectangle is overlapped by the zero-radius
/// circle centred on that point.
pub proof fn lemma_contains_implies_zero_overlap(b: Rect, px: int, py: int)
    requires
        b.contains_spec(px, py),
    ensures
        b.overlaps_circle_spec(px, py, 0),
{
    assert(clamp_spec(px, b.x as int, b.x + b.w) == px);
    assert(clamp_spec(py, b.y as int, b.y + b.h) == py);
}

/// The four quadrants of a well-formed rectangle partition it exactly:
/// every contained point lies in exactly one quadrant, the quadrants are
/// well-formed, and when both extents are even each quadrant is exactly a
/// quarter of the parent's area.
pub proof fn lemma_quadrants_partition(b: Rect)
    requires
        b.wf(),
    ensures
        forall|px: int, py: int|
            b.contains_spec(px, py) <==> {
                ||| b.quadrant_ne().contains_spec(px, py)
                ||| b.quadrant_nw().contains_spec(px, py)
                ||| b.quadrant_sw().contains_spec(px, py)
                ||| b.quadrant_se().contains_spec(px, py)
            },
        forall|px: int, py: int|
            !(b.quadrant_ne().contains_spec(px, py) && b.quadrant_nw().contains_spec(px, py)),
        forall|px: int, py: int|
            !(b.quadrant_ne().contains_spec(px, py) && b.quadrant_sw().contains_spec(px, py)),
        forall|px: int, py: int|
            !(b.quadrant_ne().contains_spec(px, py) && b.quadrant_se().contains_spec(px, py)),
        forall|px: int, py: int|
            !(b.quadrant_nw().contains_spec(px, py) && b.quadrant_sw().contains_spec(px, py)),
        forall|px: int, py: int|
            !(b.quadrant_nw().contains_spec(px, py) && b.quadrant_se().contains_spec(px, py)),
        forall|px: int, py: int|
            !(b.quadrant_sw().contains_spec(px, py) && b.quadrant_se().contains_spec(px, py)),
        b.quadrant_ne().wf() && b.quadrant_nw().wf() && b.quadrant_sw().wf()
            && b.quadrant_se().wf(),
        b.w % 2 == 0 && b.h % 2 == 0 ==> {
            &&& b.quadrant_ne().w * b.quadrant_ne().h * 4 == b.w * b.h
            &&& b.quadrant_nw().w * b.quadrant_nw().h * 4 == b.w * b.h
            &&& b.quadrant_sw().w * b.quadrant_sw().h * 4 == b.w * b.h
            &&& b.quadrant_se().w * b.quadrant_se().h * 4 == b.w * b.h
        },
{
    if b.w % 2 == 0 && b.h % 2 == 0 {
        let hw = b.w / 2;
        let hh = b.h / 2;
        assert(hw * hh * 4 == (2 * hw) * (2 * hh)) by (nonlinear_arith);
        assert(2 * hw == b.w);
        assert(2 * hh == b.h);
    }
}

} // verus!
