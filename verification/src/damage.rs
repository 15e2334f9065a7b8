//! Damage rectangles: the minimal axis-aligned region of the buffer
//! changed by one operation, used to limit redraw cost.

use vstd::prelude::*;

verus! {

/// An axis-aligned rectangle of buffer cells with positive extent,
/// identifying the region one operation changed.
#[derive(Clone, Copy, PartialEq, Eq, Structural, Debug)]
pub struct DamageRect {
    pub x: usize,
    pub y: usize,
    pub width: usize,
    pub height: usize,
}

impl DamageRect {
    pub open spec fn wf(self) -> bool {
        &&& self.width >= 1
        &&& self.height >= 1
        &&& self.x + self.width <= usize::MAX
        &&& self.y + self.height <= usize::MAX
    }

    pub open spec fn contains(self, x: int, y: int) -> bool {
        self.x <= x < self.x + self.width && self.y <= y < self.y + self.height
    }

    /// The exclusive right edge.
    pub open spec fn spec_right(self) -> int {
        self.x + self.width
    }

    /// The exclusive bottom edge.
    pub open spec fn spec_bottom(self) -> int {
        self.y + self.height
    }

    pub fn new(x: usize, y: usize, width: usize, height: usize) -> (r: DamageRect)
        requires
            width >= 1,
            height >= 1,
            x + width <= usize::MAX,
            y + height <= usize::MAX,
        ensures
            r == (DamageRect { x, y, width, height }),
            r.wf(),
    {
        DamageRect { x, y, width, height }
    }

    /// The bounding rectangle of two rectangles: each edge is the extreme
    /// of the corresponding edges.
    pub fn union(self, other: DamageRect) -> (r: DamageRect)
        requires
            self.wf(),
            other.wf(),
        ensures
            r.wf(),
            r.x == if self.x <= other.x { self.x as int } else { other.x as int },
            r.y == if self.y <= other.y { self.y as int } else { other.y as int },
            r.spec_right() == if self.spec_right() >= other.spec_right() {
                self.spec_right()
            } else {
                other.spec_right()
            },
            r.spec_bottom() == if self.spec_bottom() >= other.spec_bottom() {
                self.spec_bottom()
            } else {
                other.spec_bottom()
            },
            forall|x: int, y: int|
                self.contains(x, y) || other.contains(x, y) ==> r.contains(x, y),
    {
        let x = if self.x <= other.x {
            self.x
        } else {
            other.x
        };
        let y = if self.y <= other.y {
            self.y
        } else {
            other.y
        };
        let sr = self.x + self.width;
        let or = other.x + other.width;
        let right = if sr >= or {
            sr
        } else {
            or
        };
        let sb = self.y + self.height;
        let ob = other.y + other.height;
        let bottom = if sb >= ob {
            sb
        } else {
            ob
        };
        DamageRect { x, y, width: right - x, height: bottom - y }
    }
}

} // verus!
