//! Obstacles that the aliens steer around.

use vstd::prelude::*;
use crate::physics::components::{rect_signed_distance, signed_distance};
use crate::vec2::Vec2;

verus! {

/// An axis-aligned rectangle, centered on the position of its object, that
/// aliens keep away from and must not enter.
#[derive(Clone, Copy, Debug, PartialEq, Eq, Structural)]
pub struct AARectAlienAvoid {
    pub half_size: Vec2,
}

impl AARectAlienAvoid {
    /// The signed distance from `point` to the edge of the rectangle around
    /// `translation`, in whole units: negative inside, zero on the edge,
    /// positive outside, where it is rounded up.
    pub fn dist(&self, point: Vec2, translation: Vec2) -> (d: i64)
        ensures
            d == rect_signed_distance(self.half_size, point, translation),
    {
        signed_distance(self.half_size, point, translation)
    }
}

} // verus!
