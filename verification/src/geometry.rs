//! Rectangles on a page, in points, with the ordinate growing upwards.
use crate::units::Points;
use vstd::prelude::*;

verus! {

/// The largest coordinate that is computed with.
pub const LIMIT: i64 = 0x1000_0000_0000_0000;

/// Whether a coordinate can be computed with.
pub open spec fn sane(x: Points) -> bool {
    -LIMIT <= x <= LIMIT
}

/// The largest coordinate of a page.
pub const FAR: i64 = 0x10_0000_0000_0000;

/// Whether a coordinate lies on a page.
pub open spec fn near(x: Points) -> bool {
    -FAR <= x <= FAR
}

/// A place in the window, in pixels, with the ordinate growing downwards.
#[derive(Clone, Copy, Debug, PartialEq, Eq, Structural)]
pub struct Spot {
    pub x: i64,
    pub y: i64,
}

impl Spot {
    pub open spec fn is_near(self) -> bool {
        near(self.x) && near(self.y)
    }
}

/// A rectangle on a page.
#[derive(Clone, Copy, Debug, PartialEq, Eq, Structural)]
pub struct Rect {
    pub left: Points,
    pub bottom: Points,
    pub right: Points,
    pub top: Points,
}

/// Half of a length, rounded down.
pub fn half(x: Points) -> (r: Points)
    ensures
        r == x as int / 2,
{
    if x >= 0 {
        x / 2
    } else if x % 2 == 0 {
        x / 2
    } else {
        x / 2 - 1
    }
}

pub open spec fn min_of(a: int, b: int) -> int {
    if a <= b {
        a
    } else {
        b
    }
}

pub open spec fn max_of(a: int, b: int) -> int {
    if a >= b {
        a
    } else {
        b
    }
}

pub open spec fn abs_of(a: int) -> int {
    if a >= 0 {
        a
    } else {
        -a
    }
}

/// The smaller of two lengths.
pub fn least(a: Points, b: Points) -> (r: Points)
    ensures
        r == min_of(a as int, b as int),
{
    if a <= b {
        a
    } else {
        b
    }
}

/// The larger of two lengths.
pub fn greatest(a: Points, b: Points) -> (r: Points)
    ensures
        r == max_of(a as int, b as int),
{
    if a >= b {
        a
    } else {
        b
    }
}

impl Rect {
    pub open spec fn is_sane(self) -> bool {
        sane(self.left) && sane(self.bottom) && sane(self.right) && sane(self.top)
    }

    pub open spec fn is_near(self) -> bool {
        near(self.left) && near(self.bottom) && near(self.right) && near(self.top)
    }

    /// The middle between the left and the right edge.
    pub open spec fn middle_x(self) -> int {
        (self.left + self.right) / 2
    }

    /// The middle between the top and the bottom edge.
    pub open spec fn middle_y(self) -> int {
        (self.top + self.bottom) / 2
    }

    /// Whether the two rectangles have a point in common.
    pub open spec fn touches(self, other: Rect) -> bool {
        &&& self.left <= other.right
        &&& other.left <= self.right
        &&& self.bottom <= other.top
        &&& other.bottom <= self.top
    }

    /// Whether the rectangle lies within another.
    pub open spec fn inside(self, other: Rect) -> bool {
        &&& other.left <= self.left
        &&& self.right <= other.right
        &&& other.bottom <= self.bottom
        &&& self.top <= other.top
    }

    /// The rectangle moved as a whole.
    pub open spec fn is_moved(self, dx: int, dy: int, to: Rect) -> bool {
        &&& to.left == self.left + dx
        &&& to.right == self.right + dx
        &&& to.top == self.top + dy
        &&& to.bottom == self.bottom + dy
    }

    pub fn new(left: Points, bottom: Points, right: Points, top: Points) -> (r: Rect)
        ensures
            r == (Rect { left, bottom, right, top }),
    {
        Rect { left, bottom, right, top }
    }

    pub fn width(&self) -> (r: Points)
        requires
            self.is_sane(),
        ensures
            r == self.right - self.left,
    {
        self.right - self.left
    }

    pub fn height(&self) -> (r: Points)
        requires
            self.is_sane(),
        ensures
            r == self.top - self.bottom,
    {
        self.top - self.bottom
    }

    pub fn center_x(&self) -> (r: Points)
        requires
            self.is_sane(),
        ensures
            r == self.middle_x(),
    {
        half(self.left + self.right)
    }

    pub fn center_y(&self) -> (r: Points)
        requires
            self.is_sane(),
        ensures
            r == self.middle_y(),
    {
        half(self.top + self.bottom)
    }

    /// Whether the two rectangles have a point in common, an edge included.
    pub fn intersects(&self, other: &Rect) -> (r: bool)
        ensures
            r == self.touches(*other),
    {
        self.left <= other.right && other.left <= self.right && self.bottom <= other.top
            && other.bottom <= self.top
    }

    /// The smallest rectangle around both.
    pub open spec fn hull(self, other: Rect) -> Rect {
        Rect {
            left: min_of(self.left as int, other.left as int) as i64,
            bottom: min_of(self.bottom as int, other.bottom as int) as i64,
            right: max_of(self.right as int, other.right as int) as i64,
            top: max_of(self.top as int, other.top as int) as i64,
        }
    }

    /// The smallest rectangle around both.
    pub fn union(&self, other: &Rect) -> (r: Rect)
        ensures
            r == self.hull(*other),
            self.is_near() && other.is_near() ==> r.is_near(),
    {
        Rect {
            left: least(self.left, other.left),
            bottom: least(self.bottom, other.bottom),
            right: greatest(self.right, other.right),
            top: greatest(self.top, other.top),
        }
    }

    /// The rectangle moved as a whole, `dy` upwards.
    pub fn shifted(&self, dx: Points, dy: Points) -> (r: Rect)
        requires
            self.is_sane(),
            sane(dx),
            sane(dy),
        ensures
            self.is_moved(dx as int, dy as int, r),
    {
        Rect {
            left: self.left + dx,
            bottom: self.bottom + dy,
            right: self.right + dx,
            top: self.top + dy,
        }
    }
}

/// Two rectangles touch just where a point lies in both, an edge included, and one
/// lies inside another just where every point of it does.
pub proof fn rectangles_touch_in_a_point(a: Rect, b: Rect)
    requires
        a.left <= a.right && a.bottom <= a.top,
        b.left <= b.right && b.bottom <= b.top,
    ensures
        a.touches(b) <==> exists|x: Points, y: Points|
            #[trigger] holds_point(a, x, y) && holds_point(b, x, y),
        a.inside(b) <==> forall|x: Points, y: Points|
            #[trigger] holds_point(a, x, y) ==> holds_point(b, x, y),
{
    if a.touches(b) {
        let x = max_of(a.left as int, b.left as int) as i64;
        let y = max_of(a.bottom as int, b.bottom as int) as i64;
        assert(holds_point(a, x, y) && holds_point(b, x, y));
    }
    assert(holds_point(a, a.left, a.bottom) && holds_point(a, a.right, a.top));
}

/// Whether a point lies in a rectangle, an edge included.
pub open spec fn holds_point(r: Rect, x: Points, y: Points) -> bool {
    r.left <= x <= r.right && r.bottom <= y <= r.top
}

/// The rectangle around two holds both, and any other that does holds it.
pub proof fn the_rectangle_around_two_is_the_smallest(a: Rect, b: Rect, other: Rect)
    ensures
        ({
            let r = a.hull(b);
            &&& r.left <= a.left && a.right <= r.right && r.bottom <= a.bottom && a.top <= r.top
            &&& r.left <= b.left && b.right <= r.right && r.bottom <= b.bottom && b.top <= r.top
            &&& other.left <= a.left && other.left <= b.left ==> other.left <= r.left
            &&& a.right <= other.right && b.right <= other.right ==> r.right <= other.right
            &&& other.bottom <= a.bottom && other.bottom <= b.bottom ==> other.bottom <= r.bottom
            &&& a.top <= other.top && b.top <= other.top ==> r.top <= other.top
        }),
{
}

/// The middles of a rectangle are as far from one edge as from the other, but for
/// half of the smallest length.
pub proof fn middles_lie_between_the_edges(r: Rect)
    ensures
        2 * r.middle_x() <= r.left + r.right <= 2 * r.middle_x() + 1,
        2 * r.middle_y() <= r.top + r.bottom <= 2 * r.middle_y() + 1,
{
}

/// A moved rectangle keeps its size.
pub proof fn moving_keeps_the_size(r: Rect, dx: int, dy: int, to: Rect)
    requires
        r.is_moved(dx, dy, to),
    ensures
        to.right - to.left == r.right - r.left,
        to.top - to.bottom == r.top - r.bottom,
{
}

} // verus!
