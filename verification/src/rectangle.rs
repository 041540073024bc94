//! A rectangle with its area, scaling and comparison helpers.

use vstd::prelude::*;

verus! {

/// An axis-aligned rectangle.
#[derive(Debug, Clone, Copy, PartialEq, Eq)]
pub struct Rectangle {
    pub width: u32,
    pub height: u32,
}

impl Rectangle {
    /// The rectangle's area.
    pub fn area(&self) -> (r: u32)
        requires
            self.width * self.height <= u32::MAX,
        ensures
            r == self.width * self.height,
    {
        self.width * self.height
    }

    /// Doubles the width, leaving the height alone.
    pub fn double_the_width(&mut self)
        requires
            2 * old(self).width <= u32::MAX,
        ensures
            final(self).width == 2 * old(self).width,
            final(self).height == old(self).height,
    {
        self.width = 2 * self.width;
    }

    /// Whether the rectangle has a nonzero width.
    pub fn width(&self) -> (r: bool)
        ensures
            r == (self.width > 0),
    {
        self.width > 0
    }

    /// Whether `other` fits strictly inside `self` in both dimensions.
    pub fn can_hold(&self, other: &Rectangle) -> (r: bool)
        ensures
            r == (self.width > other.width && self.height > other.height),
    {
        self.width > other.width && self.height > other.height
    }

    /// A square of the given side length.
    pub fn square(length: u32) -> (r: Self)
        ensures
            r.width == length,
            r.height == length,
    {
        Self { width: length, height: length }
    }
}

/// The area of a rectangle, as a free function.
pub fn area(rectangle: &Rectangle) -> (r: u32)
    requires
        rectangle.width * rectangle.height <= u32::MAX,
    ensures
        r == rectangle.width * rectangle.height,
{
    rectangle.width * rectangle.height
}

} // verus!
