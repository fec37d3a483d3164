use vstd::prelude::*;

verus! {

/// An axis-aligned rectangle from `(x1, y1)` to `(x2, y2)`.
#[derive(PartialEq, Eq, Clone, Copy, Debug, Structural)]
pub struct Rect {
    pub x1: i32,
    pub y1: i32,
    pub x2: i32,
    pub y2: i32,
}

/// Half of `sum`, rounded towards zero.
pub open spec fn half(sum: int) -> int {
    if sum >= 0 {
        sum / 2
    } else {
        -((-sum) / 2)
    }
}

impl Rect {
    /// Whether the two rectangles share a point, edges included.
    pub open spec fn spec_intersect(self, other: Rect) -> bool {
        self.x1 <= other.x2 && self.x2 >= other.x1 && self.y1 <= other.y2 && self.y2 >= other.y1
    }

    /// The middle of the rectangle: half the sum of its edges each way,
    /// rounded towards zero.
    pub open spec fn spec_center(self) -> (int, int) {
        (half(self.x1 + self.x2), half(self.y1 + self.y2))
    }

    /// The rectangle with corner `(x, y)`, `w` wide and `h` high.
    pub fn new(x: i32, y: i32, w: i32, h: i32) -> (r: Rect)
        requires
            i32::MIN <= x + w <= i32::MAX,
            i32::MIN <= y + h <= i32::MAX,
        ensures
            r == (Rect { x1: x, y1: y, x2: (x + w) as i32, y2: (y + h) as i32 }),
    {
        Rect { x1: x, y1: y, x2: x + w, y2: y + h }
    }

    /// The middle of the rectangle.
    pub fn center(&self) -> (c: (i32, i32))
        ensures
            (c.0 as int, c.1 as int) == self.spec_center(),
    {
        let sum_x: i64 = self.x1 as i64 + self.x2 as i64;
        let sum_y: i64 = self.y1 as i64 + self.y2 as i64;
        let cx: i64 = if sum_x >= 0 {
            sum_x / 2
        } else {
            -((-sum_x) / 2)
        };
        let cy: i64 = if sum_y >= 0 {
            sum_y / 2
        } else {
            -((-sum_y) / 2)
        };
        (cx as i32, cy as i32)
    }

    /// The distance between the rectangle's left and right edge.
    pub fn width(&self) -> (w: i32)
        requires
            -0x7fff_ffff <= self.x1 - self.x2 <= 0x7fff_ffff,
        ensures
            w == if self.x1 <= self.x2 {
                self.x2 - self.x1
            } else {
                self.x1 - self.x2
            },
    {
        if self.x1 <= self.x2 {
            self.x2 - self.x1
        } else {
            self.x1 - self.x2
        }
    }

    /// The distance between the rectangle's top and bottom edge.
    pub fn height(&self) -> (h: i32)
        requires
            -0x7fff_ffff <= self.y1 - self.y2 <= 0x7fff_ffff,
        ensures
            h == if self.y1 <= self.y2 {
                self.y2 - self.y1
            } else {
                self.y1 - self.y2
            },
    {
        if self.y1 <= self.y2 {
            self.y2 - self.y1
        } else {
            self.y1 - self.y2
        }
    }

    pub fn intersect(&self, other: &Rect) -> (b: bool)
        ensures
            b == self.spec_intersect(*other),
    {
        self.x1 <= other.x2 && self.x2 >= other.x1 && self.y1 <= other.y2 && self.y2 >= other.y1
    }
}

} // verus!
