//! Points and axis-aligned rectangles ("empty maximal spaces").
use vstd::prelude::*;

verus! {

/// A point of the integer plane.
#[derive(Clone, Copy, Debug, PartialEq, Eq, Hash, Structural)]
pub struct Point {
    pub x: u32,
    pub y: u32,
}

/// An axis-aligned rectangle spanning `min` (inclusive) to `max` (exclusive).
#[derive(Clone, Copy, Debug, PartialEq, Eq, Hash, Structural)]
pub struct Ems {
    pub min: Point,
    pub max: Point,
}

/// `a` lies below `b`, or on the same row and to its left: the order in which
/// bottom-left placement prefers origins.
pub open spec fn lower_left(a: Point, b: Point) -> bool {
    a.y < b.y || (a.y == b.y && a.x < b.x)
}

impl Ems {
    /// The corners are ordered, so width and height are not negative.
    pub open spec fn is_valid(self) -> bool {
        self.min.x <= self.max.x && self.min.y <= self.max.y
    }

    pub open spec fn spec_width(self) -> int {
        self.max.x - self.min.x
    }

    pub open spec fn spec_height(self) -> int {
        self.max.y - self.min.y
    }

    pub open spec fn spec_fits(self, w: int, h: int) -> bool {
        self.spec_width() >= w && self.spec_height() >= h
    }

    /// `self` lies inside `other`.
    pub open spec fn spec_contained_in(self, other: Ems) -> bool {
        &&& other.min.x <= self.min.x
        &&& other.min.y <= self.min.y
        &&& self.max.x <= other.max.x
        &&& self.max.y <= other.max.y
    }

    /// The interiors of the two rectangles overlap.
    pub open spec fn spec_intersects(self, r: Ems) -> bool {
        self.min.x < r.max.x && r.min.x < self.max.x && self.min.y < r.max.y && r.min.y
            < self.max.y
    }

    /// `self` lies inside the rectangle `[0, width] x [0, height]`.
    pub open spec fn within(self, width: int, height: int) -> bool {
        self.is_valid() && self.max.x <= width && self.max.y <= height
    }

    pub fn new(min: Point, max: Point) -> (r: Self)
        ensures
            r == (Ems { min, max }),
    {
        Self { min, max }
    }

    pub fn width(&self) -> (w: u32)
        requires
            self.min.x <= self.max.x,
        ensures
            w == self.spec_width(),
    {
        self.max.x - self.min.x
    }

    pub fn height(&self) -> (h: u32)
        requires
            self.min.y <= self.max.y,
        ensures
            h == self.spec_height(),
    {
        self.max.y - self.min.y
    }

    /// A `w` by `h` rectangle fits inside `self`.
    pub fn fits(&self, w: u32, h: u32) -> (r: bool)
        requires
            self.is_valid(),
        ensures
            r == self.spec_fits(w as int, h as int),
    {
        self.width() >= w && self.height() >= h
    }

    pub fn contained_in(&self, other: &Ems) -> (r: bool)
        ensures
            r == self.spec_contained_in(*other),
    {
        other.min.x <= self.min.x && other.min.y <= self.min.y && self.max.x <= other.max.x
            && self.max.y <= other.max.y
    }

    pub fn intersects(&self, r: &Ems) -> (b: bool)
        ensures
            b == self.spec_intersects(*r),
    {
        self.min.x < r.max.x && r.min.x < self.max.x && self.min.y < r.max.y && r.min.y
            < self.max.y
    }
}

} // verus!
