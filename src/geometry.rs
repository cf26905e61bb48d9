//! Points and axis-aligned boxes on integer coordinates.
//!
//! Coordinates are fixed-point: `boids::UNIT` subunits make one world unit.
use vstd::prelude::*;

verus! {

/// Largest magnitude of a coordinate that the simulation keeps in its state.
pub const COORD_LIMIT: i64 = 1_073_741_824;

pub open spec fn in_limit(v: int) -> bool {
    -COORD_LIMIT <= v <= COORD_LIMIT
}

/// A point or displacement in the plane, in fixed-point world units.
#[derive(Debug, Clone, Copy, PartialEq, Eq, Structural)]
pub struct Vec2 {
    pub x: i64,
    pub y: i64,
}

impl Vec2 {
    pub fn new(x: i64, y: i64) -> (r: Vec2)
        ensures
            r.x == x,
            r.y == y,
    {
        Vec2 { x, y }
    }

    pub fn zero() -> (r: Vec2)
        ensures
            r.x == 0,
            r.y == 0,
    {
        Vec2 { x: 0, y: 0 }
    }

    /// Both coordinates lie within `COORD_LIMIT`.
    pub open spec fn bounded(self) -> bool {
        in_limit(self.x as int) && in_limit(self.y as int)
    }
}

/// An axis-aligned box given by its center and its half extent on each axis.
#[derive(Debug, Clone, Copy, PartialEq, Eq, Structural)]
pub struct AABB {
    pub center: Vec2,
    pub half_dimension: Vec2,
}

impl AABB {
    pub fn new(center: Vec2, half_dimension: Vec2) -> (r: AABB)
        ensures
            r.center == center,
            r.half_dimension == half_dimension,
    {
        AABB { center, half_dimension }
    }

    pub open spec fn min_x(self) -> int {
        self.center.x - self.half_dimension.x
    }

    pub open spec fn max_x(self) -> int {
        self.center.x + self.half_dimension.x
    }

    pub open spec fn min_y(self) -> int {
        self.center.y - self.half_dimension.y
    }

    pub open spec fn max_y(self) -> int {
        self.center.y + self.half_dimension.y
    }

    /// Non-negative extents, and every edge within `COORD_LIMIT`.
    pub open spec fn wf(self) -> bool {
        &&& self.half_dimension.x >= 0
        &&& self.half_dimension.y >= 0
        &&& in_limit(self.min_x())
        &&& in_limit(self.max_x())
        &&& in_limit(self.min_y())
        &&& in_limit(self.max_y())
    }

    /// The point lies in the box, edges included.
    pub open spec fn spec_contains(&self, point: Vec2) -> bool {
        &&& self.min_x() <= point.x <= self.max_x()
        &&& self.min_y() <= point.y <= self.max_y()
    }

    /// The two boxes overlap on both axes, touching edges included.
    pub open spec fn spec_intersects(&self, range: &AABB) -> bool {
        &&& self.min_x() <= range.max_x()
        &&& range.min_x() <= self.max_x()
        &&& self.min_y() <= range.max_y()
        &&& range.min_y() <= self.max_y()
    }

    #[verifier::when_used_as_spec(spec_contains)]
    pub fn contains(&self, point: Vec2) -> (r: bool)
        ensures
            r == self.spec_contains(point),
    {
        let cx = self.center.x as i128;
        let cy = self.center.y as i128;
        let hx = self.half_dimension.x as i128;
        let hy = self.half_dimension.y as i128;
        let px = point.x as i128;
        let py = point.y as i128;
        px <= cx + hx && px >= cx - hx && py <= cy + hy && py >= cy - hy
    }

    #[verifier::when_used_as_spec(spec_intersects)]
    pub fn intersects(&self, range: &AABB) -> (r: bool)
        ensures
            r == self.spec_intersects(range),
    {
        let ax = self.center.x as i128;
        let ay = self.center.y as i128;
        let ahx = self.half_dimension.x as i128;
        let ahy = self.half_dimension.y as i128;
        let bx = range.center.x as i128;
        let by = range.center.y as i128;
        let bhx = range.half_dimension.x as i128;
        let bhy = range.half_dimension.y as i128;
        let collision_x = ax - ahx <= bx + bhx && bx - bhx <= ax + ahx;
        let collision_y = ay - ahy <= by + bhy && by - bhy <= ay + ahy;
        collision_x && collision_y
    }

    /// A box can be split when one of its half extents is at least two units.
    pub open spec fn splittable(self) -> bool {
        self.half_dimension.x >= 2 || self.half_dimension.y >= 2
    }

    /// Sum of the half extents; it shrinks strictly from a splittable box to each quadrant.
    pub open spec fn measure(self) -> int {
        self.half_dimension.x + self.half_dimension.y
    }

    /// Quadrant `q` of the box: 0 is (+x, +y), 1 is (-x, -y), 2 is (+x, -y), 3 is (-x, +y).
    /// A quadrant's half extent is the parent's halved and rounded up, and its center is
    /// offset by the parent's half extent halved and rounded down, so that the four
    /// quadrants stay inside the parent and cover it.
    pub open spec fn spec_quadrant(self, q: int) -> AABB {
        let ox = self.half_dimension.x / 2;
        let oy = self.half_dimension.y / 2;
        let cx: int = if q == 0 || q == 2 { self.center.x + ox } else { self.center.x - ox };
        let cy: int = if q == 0 || q == 3 { self.center.y + oy } else { self.center.y - oy };
        AABB {
            center: Vec2 { x: cx as i64, y: cy as i64 },
            half_dimension: Vec2 {
                x: ((self.half_dimension.x + 1) / 2) as i64,
                y: ((self.half_dimension.y + 1) / 2) as i64,
            },
        }
    }

    pub fn quadrant(&self, q: usize) -> (r: AABB)
        requires
            self.wf(),
            q < 4,
        ensures
            r == self.spec_quadrant(q as int),
            r.wf(),
    {
        let ox = self.half_dimension.x / 2;
        let oy = self.half_dimension.y / 2;
        let hx = (self.half_dimension.x + 1) / 2;
        let hy = (self.half_dimension.y + 1) / 2;
        let cx = if q == 0 || q == 2 { self.center.x + ox } else { self.center.x - ox };
        let cy = if q == 0 || q == 3 { self.center.y + oy } else { self.center.y - oy };
        let r = AABB { center: Vec2 { x: cx, y: cy }, half_dimension: Vec2 { x: hx, y: hy } };
        proof {
            lemma_quadrant_inside(*self, q as int);
        }
        r
    }
}

/// Each quadrant of a well-formed box is well formed, lies inside it, and is smaller
/// when the box is splittable.
pub proof fn lemma_quadrant_inside(b: AABB, q: int)
    requires
        b.wf(),
        0 <= q < 4,
    ensures
        b.spec_quadrant(q).wf(),
        b.min_x() <= b.spec_quadrant(q).min_x(),
        b.spec_quadrant(q).max_x() <= b.max_x(),
        b.min_y() <= b.spec_quadrant(q).min_y(),
        b.spec_quadrant(q).max_y() <= b.max_y(),
        b.splittable() ==> 0 <= b.spec_quadrant(q).measure() < b.measure(),
        forall|p: Vec2| #[trigger] b.spec_quadrant(q).spec_contains(p) ==> b.spec_contains(p),
{
}

/// The index of the first quadrant that holds `p`.
pub open spec fn first_quadrant(b: AABB, p: Vec2) -> int {
    if b.spec_quadrant(0).spec_contains(p) {
        0
    } else if b.spec_quadrant(1).spec_contains(p) {
        1
    } else if b.spec_quadrant(2).spec_contains(p) {
        2
    } else {
        3
    }
}

/// The four quadrants cover the box: a point of the box lies in its first quadrant.
pub proof fn lemma_quadrants_cover(b: AABB, p: Vec2)
    requires
        b.wf(),
        b.spec_contains(p),
    ensures
        0 <= first_quadrant(b, p) < 4,
        b.spec_quadrant(first_quadrant(b, p)).spec_contains(p),
{
}

/// A point inside two boxes shows that they intersect.
pub proof fn lemma_common_point_intersects(a: AABB, b: AABB, p: Vec2)
    requires
        a.spec_contains(p),
        b.spec_contains(p),
    ensures
        a.spec_intersects(&b),
{
}

} // verus!
