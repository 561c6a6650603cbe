use vstd::prelude::*;

verus! {

/// A rectangular room: its corners `(x1, y1)` and `(x2, y2)`.
/// The walls lie on the corner rows and columns; the floor is strictly inside.
#[derive(Clone, Copy, Debug)]
pub struct Rect {
    pub x1: i32,
    pub y1: i32,
    pub x2: i32,
    pub y2: i32,
}

/// Integer division by two rounded toward zero, as `/` does on `i32`.
pub open spec fn half_toward_zero(s: int) -> int {
    if s >= 0 {
        s / 2
    } else {
        -((-s) / 2)
    }
}

impl Rect {
    /// Whether the two rectangles overlap or touch (closed intervals on both axes).
    pub open spec fn overlaps(self, other: Rect) -> bool {
        &&& self.x1 <= other.x2
        &&& self.x2 >= other.x1
        &&& self.y1 <= other.y2
        &&& self.y2 >= other.y1
    }

    /// The centre of the rectangle, each coordinate the mean of its corners rounded toward zero.
    pub open spec fn centre_of(self) -> (int, int) {
        (half_toward_zero(self.x1 + self.x2), half_toward_zero(self.y1 + self.y2))
    }

    /// A rectangle with corner `(x, y)`, width `w` and height `h`.
    pub fn new(x: i32, y: i32, w: i32, h: i32) -> (r: Rect)
        requires
            i32::MIN <= x + w <= i32::MAX,
            i32::MIN <= y + h <= i32::MAX,
        ensures
            r.x1 == x,
            r.y1 == y,
            r.x2 == x + w,
            r.y2 == y + h,
    {
        Rect { x1: x, y1: y, x2: x + w, y2: y + h }
    }

    /// The centre of the rectangle.
    pub fn centre(&self) -> (c: (i32, i32))
        requires
            i32::MIN <= self.x1 + self.x2 <= i32::MAX,
            i32::MIN <= self.y1 + self.y2 <= i32::MAX,
        ensures
            (c.0 as int, c.1 as int) == self.centre_of(),
    {
        let centre_x = (self.x1 + self.x2) / 2;
        let centre_y = (self.y1 + self.y2) / 2;
        (centre_x, centre_y)
    }

    /// Whether this rectangle overlaps or touches `other`.
    pub fn intersects_with(&self, other: &Rect) -> (b: bool)
        ensures
            b == self.overlaps(*other),
    {
        (self.x1 <= other.x2) && (self.x2 >= other.x1) && (self.y1 <= other.y2) && (self.y2
            >= other.y1)
    }
}

/// Overlap is symmetric: `a` meets `b` exactly when `b` meets `a`.
pub proof fn lemma_overlaps_symmetric(a: Rect, b: Rect)
    ensures
        a.overlaps(b) == b.overlaps(a),
{
}

} // verus!
