use vstd::prelude::*;

verus! {

/// An axis-aligned rectangle given by two corners. As a room it covers the
/// cells right of `x1` up to `x2` and below `y1` down to `y2`.
#[derive(PartialEq, Eq, Structural, Copy, Clone, Debug)]
pub struct Rect {
    pub x1: i32,
    pub y1: i32,
    pub x2: i32,
    pub y2: i32,
}

/// Half of `sum`, rounded towards zero.
pub open spec fn half_towards_zero(sum: int) -> int {
    if sum >= 0 {
        sum / 2
    } else {
        -((-sum) / 2)
    }
}

impl Rect {
    /// The two rectangles share area: their ranges overlap on both axes.
    /// Rectangles that only touch along an edge do not.
    pub open spec fn overlaps(self, other: Rect) -> bool {
        &&& self.x1 < other.x2
        &&& self.x2 > other.x1
        &&& self.y1 < other.y2
        &&& self.y2 > other.y1
    }

    /// `self` lies inside `outer`, edges included.
    pub open spec fn within(self, outer: Rect) -> bool {
        &&& outer.x1 <= self.x1
        &&& self.x2 <= outer.x2
        &&& outer.y1 <= self.y1
        &&& self.y2 <= outer.y2
    }

    /// The cell (x, y) belongs to the room that this rectangle stands for.
    pub open spec fn covers(self, x: int, y: int) -> bool {
        self.x1 < x <= self.x2 && self.y1 < y <= self.y2
    }

    pub open spec fn center_x(self) -> int {
        half_towards_zero(self.x1 + self.x2)
    }

    pub open spec fn center_y(self) -> int {
        half_towards_zero(self.y1 + self.y2)
    }

    pub fn new(x: i32, y: i32, w: i32, h: i32) -> (rect: Rect)
        requires
            i32::MIN <= x + w <= i32::MAX,
            i32::MIN <= y + h <= i32::MAX,
        ensures
            rect == (Rect { x1: x, y1: y, x2: (x + w) as i32, y2: (y + h) as i32 }),
    {
        Rect { x1: x, y1: y, x2: x + w, y2: y + h }
    }

    /// Whether this rectangle and `other` share area.
    pub fn intersect(&self, other: &Rect) -> (hit: bool)
        ensures
            hit == self.overlaps(*other),
    {
        self.x1 < other.x2 && self.x2 > other.x1 && self.y1 < other.y2 && self.y2 > other.y1
    }

    /// The midpoint of the rectangle, each coordinate rounded towards zero.
    pub fn center(&self) -> (mid: (i32, i32))
        ensures
            mid.0 == self.center_x(),
            mid.1 == self.center_y(),
    {
        (midpoint(self.x1, self.x2), midpoint(self.y1, self.y2))
    }
}

fn midpoint(a: i32, b: i32) -> (mid: i32)
    ensures
        mid == half_towards_zero(a + b),
{
    let sum: i64 = a as i64 + b as i64;
    if sum >= 0 {
        (sum / 2) as i32
    } else {
        (-((-sum) / 2)) as i32
    }
}

/// Two rectangles that lie inside two rectangles without shared area share
/// no area themselves.
pub proof fn lemma_within_disjoint(a: Rect, b: Rect, outer_a: Rect, outer_b: Rect)
    requires
        a.within(outer_a),
        b.within(outer_b),
        !outer_a.overlaps(outer_b),
    ensures
        !a.overlaps(b),
{
}

/// Rooms that do not overlap have no cell in common.
pub proof fn lemma_disjoint_rooms_share_no_cell(a: Rect, b: Rect, x: int, y: int)
    requires
        !a.overlaps(b),
        a.covers(x, y),
    ensures
        !b.covers(x, y),
{
}

/// The center of a room at least two cells wide and high is one of its cells.
pub proof fn lemma_center_covered(r: Rect)
    requires
        r.x1 + 2 <= r.x2,
        r.y1 + 2 <= r.y2,
    ensures
        r.covers(r.center_x(), r.center_y()),
{
}

} // verus!
