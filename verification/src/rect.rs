use vstd::prelude::*;

verus! {

/// A rectangle with integer side lengths.
#[derive(Debug, Clone, Copy)]
pub struct Rectangle {
    pub length: u32,
    pub width: u32,
}

impl Rectangle {
    /// The area of the rectangle.
    pub fn area(&self) -> (a: u32)
        requires
            self.length * self.width <= u32::MAX,
        ensures
            a == self.length * self.width,
    {
        self.length * self.width
    }

    /// Whether `self` is strictly larger than `other` in both dimensions,
    /// so that `other` fits inside it.
    pub fn can_hold(self, other: &Rectangle) -> (r: bool)
        ensures
            r == (self.length > other.length && self.width > other.width),
    {
        self.length > other.length && self.width > other.width
    }
}

} // verus!
