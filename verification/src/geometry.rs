//! Lengths, points, sizes and rectangles in app units.
//!
//! The rectangle arithmetic itself is euclid's: `translate` and `union` below hand their arguments
//! to it.
use vstd::prelude::*;

verus! {

/// A length in app units.
#[derive(Clone, Copy, PartialEq, Eq, Debug)]
pub struct Au(pub i32);

/// A position: `x` grows to the right and `y` grows downwards.
#[derive(Clone, Copy, PartialEq, Eq, Debug)]
pub struct Point2D<T> {
    pub x: T,
    pub y: T,
}

/// An extent.
#[derive(Clone, Copy, PartialEq, Eq, Debug)]
pub struct Size2D<T> {
    pub width: T,
    pub height: T,
}

/// A rectangle, given by its upper left corner and its extent.
#[derive(Clone, Copy, PartialEq, Eq, Debug)]
pub struct Rect<T> {
    pub origin: Point2D<T>,
    pub size: Size2D<T>,
}

impl Au {
    /// Makes a length of `value` app units.
    pub fn new(value: i32) -> (length: Au)
        ensures
            length == Au(value),
    {
        Au(value)
    }

    /// The rectangle of no extent at the origin.
    pub open spec fn spec_zero_rect() -> Rect<Au> {
        Rect {
            origin: Point2D { x: Au(0), y: Au(0) },
            size: Size2D { width: Au(0), height: Au(0) },
        }
    }

    /// Returns the rectangle of no extent at the origin.
    pub fn zero_rect() -> (rect: Rect<Au>)
        ensures
            rect == Au::spec_zero_rect(),
    {
        let zero: Au = Au::new(0);
        Rect { origin: Point2D { x: zero, y: zero }, size: Size2D { width: zero, height: zero } }
    }
}

/// `value` is one that an `Au` can hold.
pub open spec fn in_range(value: int) -> bool {
    i32::MIN <= value <= i32::MAX
}

/// The smaller of two numbers.
pub open spec fn least(a: int, b: int) -> int {
    if a <= b {
        a
    } else {
        b
    }
}

/// The larger of two numbers.
pub open spec fn greatest(a: int, b: int) -> int {
    if a >= b {
        a
    } else {
        b
    }
}

impl Rect<Au> {
    /// The left edge.
    pub open spec fn left(self) -> int {
        self.origin.x.0 as int
    }

    /// The top edge.
    pub open spec fn top(self) -> int {
        self.origin.y.0 as int
    }

    /// The right edge.
    pub open spec fn right(self) -> int {
        self.origin.x.0 + self.size.width.0
    }

    /// The bottom edge.
    pub open spec fn bottom(self) -> int {
        self.origin.y.0 + self.size.height.0
    }

    /// The rectangle is zero wide and zero high.
    pub open spec fn no_extent(self) -> bool {
        self.size.width.0 == 0 && self.size.height.0 == 0
    }

    /// The point at (`x`, `y`) is in the rectangle: its left and top edges belong to it, its right
    /// and bottom edges do not.
    pub open spec fn has_point(self, x: int, y: int) -> bool {
        self.left() <= x < self.right() && self.top() <= y < self.bottom()
    }

    /// No edge of `inner` lies outside this rectangle.
    pub open spec fn surrounds(self, inner: Rect<Au>) -> bool {
        &&& self.left() <= inner.left()
        &&& self.top() <= inner.top()
        &&& inner.right() <= self.right()
        &&& inner.bottom() <= self.bottom()
    }

    /// The rectangle with the given edges.
    pub open spec fn from_edges(left: int, top: int, right: int, bottom: int) -> Rect<Au> {
        Rect {
            origin: Point2D { x: Au(left as i32), y: Au(top as i32) },
            size: Size2D { width: Au((right - left) as i32), height: Au((bottom - top) as i32) },
        }
    }

    /// Moving the rectangle by `by` keeps its origin within range.
    pub open spec fn translate_fits(self, by: Point2D<Au>) -> bool {
        in_range(self.left() + by.x.0) && in_range(self.top() + by.y.0)
    }

    /// The rectangle moved by `by`.
    pub open spec fn translated(self, by: Point2D<Au>) -> Rect<Au> {
        Rect {
            origin: Point2D {
                x: Au((self.left() + by.x.0) as i32),
                y: Au((self.top() + by.y.0) as i32),
            },
            size: self.size,
        }
    }

    /// The edges that a union of the two rectangles is computed from, and its extent, are within
    /// range.
    pub open spec fn union_fits(self, other: Rect<Au>) -> bool {
        self.no_extent() || other.no_extent() || {
            &&& in_range(self.right()) && in_range(self.bottom())
            &&& in_range(other.right()) && in_range(other.bottom())
            &&& in_range(
                greatest(self.right(), other.right()) - least(self.left(), other.left()),
            )
            &&& in_range(
                greatest(self.bottom(), other.bottom()) - least(self.top(), other.top()),
            )
        }
    }

    /// The bounding box of the two rectangles, where one of no extent counts for nothing.
    pub open spec fn united(self, other: Rect<Au>) -> Rect<Au> {
        if self.no_extent() {
            other
        } else if other.no_extent() {
            self
        } else {
            Rect::<Au>::from_edges(
                least(self.left(), other.left()),
                least(self.top(), other.top()),
                greatest(self.right(), other.right()),
                greatest(self.bottom(), other.bottom()),
            )
        }
    }

    /// Calls `euclid::TypedRect::translate`, which adds the vector to the origin, component by
    /// component, and keeps the size. The two additions are plain `i32` additions, so they have to
    /// stay within range.
    #[verifier::external_body]
    pub(crate) fn translate(&self, by: &Point2D<Au>) -> (moved: Rect<Au>)
        requires
            self.translate_fits(*by),
        ensures
            moved == self.translated(*by),
    {
        let rect: euclid::Rect<i32> = euclid::rect(
            self.origin.x.0, self.origin.y.0, self.size.width.0, self.size.height.0,
        );
        let moved = rect.translate(&euclid::Vector2D::new(by.x.0, by.y.0));
        Rect {
            origin: Point2D { x: Au(moved.origin.x), y: Au(moved.origin.y) },
            size: Size2D { width: Au(moved.size.width), height: Au(moved.size.height) },
        }
    }

    /// Calls `euclid::TypedRect::union`, which returns the other rectangle where the width and the
    /// height of one are both zero, and the bounding box of the two otherwise. The edges and the
    /// extent of that box are plain `i32` sums and differences, so they have to stay within range.
    #[verifier::external_body]
    pub(crate) fn union(&self, other: &Rect<Au>) -> (both: Rect<Au>)
        requires
            self.union_fits(*other),
        ensures
            both == self.united(*other),
    {
        let one: euclid::Rect<i32> = euclid::rect(
            self.origin.x.0, self.origin.y.0, self.size.width.0, self.size.height.0,
        );
        let two: euclid::Rect<i32> = euclid::rect(
            other.origin.x.0, other.origin.y.0, other.size.width.0, other.size.height.0,
        );
        let both = one.union(&two);
        Rect {
            origin: Point2D { x: Au(both.origin.x), y: Au(both.origin.y) },
            size: Size2D { width: Au(both.size.width), height: Au(both.size.height) },
        }
    }
}

} // verus!
