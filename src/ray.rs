//! Half-lines in space.
use vstd::prelude::*;
use crate::vec3::{vadd, vscale, Vec3};

verus! {

/// A ray: an origin and a direction, which callers keep of unit length.
#[derive(Clone, Copy, Debug, PartialEq, Eq, Structural)]
pub struct Ray {
    pub origin: Vec3,
    pub dir: Vec3,
}

/// The point at distance `t` along the ray: `origin + dir * t`.
pub open spec fn point_spec(ray: Ray, t: int) -> Vec3 {
    vadd(ray.origin, vscale(ray.dir, t))
}

impl Ray {
    pub fn new(origin: Vec3, dir: Vec3) -> (r: Ray)
        ensures
            r.origin == origin && r.dir == dir,
    {
        Ray { origin, dir }
    }

    pub fn point(self, t: i64) -> (r: Vec3)
        ensures
            r == point_spec(self, t as int),
    {
        self.origin + self.dir * t
    }
}

} // verus!
