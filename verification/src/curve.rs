//! Points of the embedded curve, which serve as secrets.

use crate::field::FieldElement;
use vstd::prelude::*;

verus! {

/// A point in affine coordinates. The cipher reads the two coordinates and
/// nothing else of it.
#[derive(Clone, Copy, Debug, PartialEq, Eq)]
pub struct CurvePoint {
    pub x: FieldElement,
    pub y: FieldElement,
}

impl CurvePoint {
    /// The point with the given coordinates. That it lies on the curve is
    /// not checked.
    pub fn from_raw_unchecked(x: FieldElement, y: FieldElement) -> (p: Self)
        ensures
            p.x == x,
            p.y == y,
    {
        CurvePoint { x, y }
    }

    /// The first coordinate.
    pub fn get_x(&self) -> (x: FieldElement)
        ensures
            x == self.x,
    {
        self.x
    }

    /// The second coordinate.
    pub fn get_y(&self) -> (y: FieldElement)
        ensures
            y == self.y,
    {
        self.y
    }
}

} // verus!
