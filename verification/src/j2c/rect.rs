//! Integer rectangles with exclusive right and bottom edges.
use vstd::prelude::*;

verus! {

/// A rectangle. `x1` and `y1` are exclusive.
#[derive(Clone, Copy, Debug, PartialEq, Eq, Structural)]
pub struct IntRect {
    pub x0: u32,
    pub y0: u32,
    pub x1: u32,
    pub y1: u32,
}

/// The smaller of two integers.
pub open spec fn min_int(a: int, b: int) -> int {
    if a <= b { a } else { b }
}

/// The larger of two integers.
pub open spec fn max_int(a: int, b: int) -> int {
    if a >= b { a } else { b }
}

impl IntRect {
    /// The edges are not swapped.
    pub open spec fn wf(&self) -> bool {
        self.x0 <= self.x1 && self.y0 <= self.y1
    }

    /// The number of columns.
    pub open spec fn spec_width(&self) -> int {
        self.x1 - self.x0
    }

    /// The number of rows.
    pub open spec fn spec_height(&self) -> int {
        self.y1 - self.y0
    }

    /// The point lies inside the rectangle.
    pub open spec fn contains(&self, x: int, y: int) -> bool {
        self.x0 <= x < self.x1 && self.y0 <= y < self.y1
    }

    /// The two rectangles are disjoint in a way that `intersect` treats as
    /// an empty result: one ends before the other starts.
    pub open spec fn apart(&self, other: &IntRect) -> bool {
        self.x1 < other.x0 || other.x1 < self.x0 || self.y1 < other.y0 || other.y1 < self.y0
    }

    /// The result of `intersect`.
    pub open spec fn spec_intersect(&self, other: &IntRect) -> IntRect {
        if self.apart(other) {
            IntRect { x0: 0, y0: 0, x1: 0, y1: 0 }
        } else {
            IntRect {
                x0: max_int(self.x0 as int, other.x0 as int) as u32,
                y0: max_int(self.y0 as int, other.y0 as int) as u32,
                x1: min_int(self.x1 as int, other.x1 as int) as u32,
                y1: min_int(self.y1 as int, other.y1 as int) as u32,
            }
        }
    }

    pub fn from_ltrb(x0: u32, y0: u32, x1: u32, y1: u32) -> (r: Self)
        ensures
            r == (IntRect { x0, y0, x1, y1 }),
    {
        Self { x0, y0, x1, y1 }
    }

    pub fn from_xywh(x: u32, y: u32, w: u32, h: u32) -> (r: Self)
        requires
            x + w <= u32::MAX,
            y + h <= u32::MAX,
        ensures
            r.x0 == x,
            r.y0 == y,
            r.x1 == x + w,
            r.y1 == y + h,
    {
        Self { x0: x, y0: y, x1: x + w, y1: y + h }
    }

    pub fn width(&self) -> (r: u32)
        requires
            self.x0 <= self.x1,
        ensures
            r == self.spec_width(),
    {
        // See B-11.
        self.x1 - self.x0
    }

    pub fn height(&self) -> (r: u32)
        requires
            self.y0 <= self.y1,
        ensures
            r == self.spec_height(),
    {
        // See B-11.
        self.y1 - self.y0
    }

    pub fn intersect(&self, other: IntRect) -> (r: IntRect)
        ensures
            r == self.spec_intersect(&other),
    {
        if self.x1 < other.x0 || other.x1 < self.x0 || self.y1 < other.y0 || other.y1 < self.y0 {
            IntRect::from_xywh(0, 0, 0, 0)
        } else {
            IntRect::from_ltrb(
                if self.x0 >= other.x0 { self.x0 } else { other.x0 },
                if self.y0 >= other.y0 { self.y0 } else { other.y0 },
                if self.x1 <= other.x1 { self.x1 } else { other.x1 },
                if self.y1 <= other.y1 { self.y1 } else { other.y1 },
            )
        }
    }
}

/// The intersection of two well-formed rectangles is well-formed, does not
/// depend on the order of its arguments, and holds exactly the points that
/// lie in both.
pub proof fn lemma_intersect(a: IntRect, b: IntRect)
    requires
        a.wf(),
        b.wf(),
    ensures
        a.spec_intersect(&b).wf(),
        a.spec_intersect(&b) == b.spec_intersect(&a),
        forall|x: int, y: int| #[trigger] a.spec_intersect(&b).contains(x, y) <==> (a.contains(x, y) && b.contains(x, y)),
{
}

} // verus!
