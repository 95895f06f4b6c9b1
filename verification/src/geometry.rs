//! Sizes and rectangles.

use crate::scalar::{larger, scalar_max, Scalar};
use vstd::prelude::*;

verus! {

/// A width and a height.
#[derive(Debug, Clone, Copy, PartialEq, Eq, Structural)]
pub struct Dimensions {
    pub width: Scalar,
    pub height: Scalar,
}

impl Dimensions {
    pub fn new(width: Scalar, height: Scalar) -> (r: Dimensions)
        ensures
            r == (Dimensions { width, height }),
    {
        Dimensions { width, height }
    }

    pub fn zero() -> (r: Dimensions)
        ensures
            r == (Dimensions { width: 0, height: 0 }),
    {
        Dimensions { width: 0, height: 0 }
    }

    /// The larger of the two widths and the larger of the two heights.
    pub fn larger_of(self, other: Dimensions) -> (r: Dimensions)
        ensures
            r.width == larger(self.width as int, other.width as int),
            r.height == larger(self.height as int, other.height as int),
            r.covers(self),
            r.covers(other),
    {
        Dimensions {
            width: scalar_max(self.width, other.width),
            height: scalar_max(self.height, other.height),
        }
    }

    /// Whether `self` is at least as large as `other` on both axes.
    pub open spec fn covers(self, other: Dimensions) -> bool {
        self.width >= other.width && self.height >= other.height
    }
}

/// A rectangle: the origin of its top-left corner and its size.
#[derive(Debug, Clone, Copy, PartialEq, Eq, Structural)]
pub struct Bounds {
    pub x: Scalar,
    pub y: Scalar,
    pub size: Dimensions,
}

impl Bounds {
    pub fn new(x: Scalar, y: Scalar, width: Scalar, height: Scalar) -> (r: Bounds)
        ensures
            r == (Bounds { x, y, size: Dimensions { width, height } }),
    {
        Bounds { x, y, size: Dimensions::new(width, height) }
    }

    pub fn zero() -> (r: Bounds)
        ensures
            r == (Bounds { x: 0, y: 0, size: Dimensions { width: 0, height: 0 } }),
    {
        Bounds { x: 0, y: 0, size: Dimensions::zero() }
    }
}

} // verus!
