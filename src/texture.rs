//! Surface colors.
use vstd::prelude::*;
use crate::vector3::{Color, Point3};

verus! {

/// A texture of one color everywhere.
#[derive(Clone, Copy, Debug)]
pub struct SolidColor {
    pub color_value: Color,
}

impl SolidColor {
    pub fn new(color_value: Color) -> (r: Self)
        ensures
            r.color_value == color_value,
    {
        SolidColor { color_value }
    }

    /// The color at `p`.
    pub fn value(&self, p: &Point3) -> (r: Color)
        ensures
            r == self.color_value,
    {
        self.color_value
    }
}

} // verus!
