//! Rectangles in the logical coordinate space, and the insets applied to them.
//!
//! Coordinates are signed and are not clamped to the terminal: a rectangle may lie partly or
//! wholly outside of what is drawn. Wherever an edge is computed from a position and a size, the
//! sum saturates at the bounds of `i32`.

use vstd::prelude::*;

verus! {

/// The value of `v` once it is held in an `i32`: `v` itself where it fits, else the nearest bound.
pub open spec fn clamp_i32(v: int) -> int {
    if v < i32::MIN as int {
        i32::MIN as int
    } else if v > i32::MAX as int {
        i32::MAX as int
    } else {
        v
    }
}

pub open spec fn int_max(a: int, b: int) -> int {
    if a >= b {
        a
    } else {
        b
    }
}

pub open spec fn int_min(a: int, b: int) -> int {
    if a <= b {
        a
    } else {
        b
    }
}

/// Narrows a wide intermediate result to `i32`, saturating at the bounds.
pub fn saturate(v: i64) -> (r: i32)
    ensures
        r as int == clamp_i32(v as int),
{
    if v < -2147483648i64 {
        -2147483648i32
    } else if v > 2147483647i64 {
        2147483647i32
    } else {
        v as i32
    }
}

/// A rectangular area in the logical space.
#[derive(Clone, Copy, Debug, PartialEq, Eq, Structural)]
pub struct LogicalRect {
    pub x: i32,
    pub y: i32,
    pub width: i32,
    pub height: i32,
}

impl LogicalRect {
    /// The x-value of the right edge, before it is narrowed to `i32`.
    pub open spec fn right_edge(self) -> int {
        self.x + self.width
    }

    /// The y-value of the bottom edge, before it is narrowed to `i32`.
    pub open spec fn bottom_edge(self) -> int {
        self.y + self.height
    }

    /// Whether the cell at `(px, py)` lies inside this rectangle.
    pub open spec fn contains_point(self, px: int, py: int) -> bool {
        &&& self.x <= px < self.right_edge()
        &&& self.y <= py < self.bottom_edge()
    }

    /// Whether each rectangle begins before the other ends, on both axes. Of two rectangles
    /// that have a width and a height this says that they share a cell.
    pub open spec fn overlaps(self, other: Self) -> bool {
        &&& self.y < other.bottom_edge()
        &&& self.bottom_edge() > other.y
        &&& self.x < other.right_edge()
        &&& self.right_edge() > other.x
    }

    /// The overlap of the two rectangles.
    ///
    /// Rectangles that do not overlap give the zeroed rectangle. Where an edge of either
    /// rectangle lies beyond the range of `i32`, that edge is taken at the bound, and an overlap
    /// that this leaves empty is reported with its corner and no extent.
    pub open spec fn overlap(self, other: Self) -> Self {
        let x1 = int_max(self.x as int, other.x as int);
        let y1 = int_max(self.y as int, other.y as int);
        let x2 = int_min(clamp_i32(self.right_edge()), clamp_i32(other.right_edge()));
        let y2 = int_min(clamp_i32(self.bottom_edge()), clamp_i32(other.bottom_edge()));
        if !self.overlaps(other) {
            LogicalRect { x: 0, y: 0, width: 0, height: 0 }
        } else if x2 <= x1 || y2 <= y1 {
            LogicalRect { x: x1 as i32, y: y1 as i32, width: 0, height: 0 }
        } else {
            LogicalRect {
                x: x1 as i32,
                y: y1 as i32,
                width: (x2 - x1) as i32,
                height: (y2 - y1) as i32,
            }
        }
    }

    /// This rectangle after `inset` is applied to its four edges.
    pub open spec fn shrunk_by(self, inset: Inset) -> Self {
        let w0 = int_max(self.width as int, 0);
        let h0 = int_max(self.height as int, 0);
        let dx = if inset.left_of() >= 0 {
            int_min(inset.left_of(), w0)
        } else {
            inset.left_of()
        };
        let dy = if inset.top_of() >= 0 {
            int_min(inset.top_of(), h0)
        } else {
            inset.top_of()
        };
        LogicalRect {
            x: clamp_i32(self.x + dx) as i32,
            y: clamp_i32(self.y + dy) as i32,
            width: int_max(
                clamp_i32(clamp_i32(self.width - inset.left_of()) - inset.right_of()),
                0,
            ) as i32,
            height: int_max(
                clamp_i32(clamp_i32(self.height - inset.top_of()) - inset.bottom_of()),
                0,
            ) as i32,
        }
    }

    /// Creates a new rectangle with the given space.
    pub fn new(x: i32, y: i32, width: i32, height: i32) -> (r: Self)
        ensures
            r == (LogicalRect { x, y, width, height }),
    {
        Self { x, y, width, height }
    }

    /// Returns a rectangle with zeroed-out values.
    pub fn zeroed() -> (r: Self)
        ensures
            r == (LogicalRect { x: 0, y: 0, width: 0, height: 0 }),
    {
        LogicalRect { x: 0, y: 0, width: 0, height: 0 }
    }

    /// Returns a rectangle positioned at `(0, 0)`.
    pub fn origin(width: i32, height: i32) -> (r: Self)
        ensures
            r == (LogicalRect { x: 0, y: 0, width, height }),
    {
        Self { x: 0, y: 0, width, height }
    }

    /// Returns the intersection rectangle of this rectangle and another.
    pub fn intersection(self, other: Self) -> (r: Self)
        ensures
            r == self.overlap(other),
    {
        if !self.intersects(other) {
            return Self { x: 0, y: 0, width: 0, height: 0 };
        }
        let x1 = if self.x >= other.x {
            self.x
        } else {
            other.x
        };
        let y1 = if self.y >= other.y {
            self.y
        } else {
            other.y
        };
        let (r1, r2) = (self.right(), other.right());
        let (b1, b2) = (self.bottom(), other.bottom());
        let x2 = if r1 <= r2 {
            r1
        } else {
            r2
        };
        let y2 = if b1 <= b2 {
            b1
        } else {
            b2
        };
        if x2 <= x1 || y2 <= y1 {
            LogicalRect { x: x1, y: y1, width: 0, height: 0 }
        } else {
            LogicalRect { x: x1, y: y1, width: x2 - x1, height: y2 - y1 }
        }
    }

    /// Determines if this rectangle intersects another.
    ///
    /// The edges are compared as exact sums, so the answer is right also for rectangles that
    /// reach beyond the range of `i32`.
    pub fn intersects(self, other: Self) -> (b: bool)
        ensures
            b == self.overlaps(other),
    {
        (self.y as i64) < other.y as i64 + other.height as i64
            && self.y as i64 + self.height as i64 > other.y as i64
            && (self.x as i64) < other.x as i64 + other.width as i64
            && self.x as i64 + self.width as i64 > other.x as i64
    }

    /// Returns the same [`LogicalRect`] with an offset.
    ///
    /// The offset is taken away from the position, which has to stay within `i32`.
    pub fn with_offset(self, offset_x: i32, offset_y: i32) -> (r: Self)
        requires
            i32::MIN <= self.x - offset_x <= i32::MAX,
            i32::MIN <= self.y - offset_y <= i32::MAX,
        ensures
            r.x == self.x - offset_x,
            r.y == self.y - offset_y,
            r.width == self.width,
            r.height == self.height,
    {
        LogicalRect {
            x: self.x - offset_x,
            y: self.y - offset_y,
            width: self.width,
            height: self.height,
        }
    }

    /// The area of the rectangle.
    pub fn area(self) -> (a: i64)
        ensures
            a == self.width * self.height,
    {
        assert(-0x4000_0000_0000_0000 <= self.width * self.height <= 0x4000_0000_0000_0000)
            by (nonlinear_arith)
            requires
                -0x8000_0000 <= self.width <= 0x7fff_ffff,
                -0x8000_0000 <= self.height <= 0x7fff_ffff,
        ;
        (self.width as i64) * (self.height as i64)
    }

    /// The x-value of the rectangle's left edge.
    pub fn left(self) -> (v: i32)
        ensures
            v == self.x,
    {
        self.x
    }

    /// The x-value of the rectangle's right edge.
    pub fn right(self) -> (v: i32)
        ensures
            v as int == clamp_i32(self.right_edge()),
    {
        saturate(self.x as i64 + self.width as i64)
    }

    /// The y-value of the rectangle's top edge.
    pub fn top(self) -> (v: i32)
        ensures
            v == self.y,
    {
        self.y
    }

    /// The y-value of the rectangle's bottom edge.
    pub fn bottom(self) -> (v: i32)
        ensures
            v as int == clamp_i32(self.bottom_edge()),
    {
        saturate(self.y as i64 + self.height as i64)
    }

    /// Returns a new rectangle with the given inset applied.
    ///
    /// Negative insets expand the rectangle. Positive insets shrink it, with
    /// x/y clamped to not exceed the original bounds when the rect collapses.
    pub fn inset(self, inset: Inset) -> (r: Self)
        ensures
            r == self.shrunk_by(inset),
    {
        let left = inset.left();
        let top = inset.top();
        let right = inset.right();
        let bottom = inset.bottom();

        let w0 = if self.width >= 0 {
            self.width
        } else {
            0
        };
        let h0 = if self.height >= 0 {
            self.height
        } else {
            0
        };

        let dx = if left >= 0 && left > w0 {
            w0
        } else {
            left
        };
        let dy = if top >= 0 && top > h0 {
            h0
        } else {
            top
        };

        let x = saturate(self.x as i64 + dx as i64);
        let y = saturate(self.y as i64 + dy as i64);
        let w1 = saturate(saturate(self.width as i64 - left as i64) as i64 - right as i64);
        let h1 = saturate(saturate(self.height as i64 - top as i64) as i64 - bottom as i64);
        let width = if w1 >= 0 {
            w1
        } else {
            0
        };
        let height = if h1 >= 0 {
            h1
        } else {
            0
        };

        Self { x, y, width, height }
    }
}

/// The intersection of two rectangles of non-negative extent, whose edges lie within `i32`, holds
/// exactly the cells that lie in both.
pub proof fn lemma_intersection_cells(a: LogicalRect, b: LogicalRect, px: int, py: int)
    requires
        a.width >= 0,
        a.height >= 0,
        b.width >= 0,
        b.height >= 0,
        a.right_edge() <= i32::MAX,
        a.bottom_edge() <= i32::MAX,
        b.right_edge() <= i32::MAX,
        b.bottom_edge() <= i32::MAX,
    ensures
        a.overlap(b).contains_point(px, py) <==> a.contains_point(px, py) && b.contains_point(
            px,
            py,
        ),
{
}

/// Spacing applied to a rectangle's edges for margin or padding.
///
/// Fields are ordered as `(top, right, bottom, left)`.
#[derive(Debug, Clone, Copy, PartialEq, Eq, Structural)]
pub struct Inset(i32, i32, i32, i32);

impl Inset {
    pub closed spec fn top_of(self) -> int {
        self.0 as int
    }

    pub closed spec fn right_of(self) -> int {
        self.1 as int
    }

    pub closed spec fn bottom_of(self) -> int {
        self.2 as int
    }

    pub closed spec fn left_of(self) -> int {
        self.3 as int
    }

    /// The inset of `size` on each of the four edges.
    pub closed spec fn all_spec(size: i32) -> Self {
        Inset(size, size, size, size)
    }

    /// An inset of `size` on each of the four edges.
    pub fn all(size: i32) -> (r: Self)
        ensures
            r == Self::all_spec(size),
            r.top_of() == size,
            r.right_of() == size,
            r.bottom_of() == size,
            r.left_of() == size,
    {
        Self(size, size, size, size)
    }

    pub fn top(self) -> (v: i32)
        ensures
            v == self.top_of(),
    {
        self.0
    }

    pub fn right(self) -> (v: i32)
        ensures
            v == self.right_of(),
    {
        self.1
    }

    pub fn bottom(self) -> (v: i32)
        ensures
            v == self.bottom_of(),
    {
        self.2
    }

    pub fn left(self) -> (v: i32)
        ensures
            v == self.left_of(),
    {
        self.3
    }
}

impl Default for Inset {
    fn default() -> (r: Self)
        ensures
            r == Self::all_spec(0),
            r.top_of() == 0,
            r.right_of() == 0,
            r.bottom_of() == 0,
            r.left_of() == 0,
    {
        Self(0, 0, 0, 0)
    }
}

} // verus!
