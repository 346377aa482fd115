//! Rays: an origin and a direction, walked by a fixed-point parameter.
use crate::fixed::{floor_div_i128, ONE};
use crate::vec3::{add3, bounded, scale3, shrink3, Triple, Vec3};
use vstd::prelude::*;

verus! {

/// Largest magnitude of a ray parameter `t` (in units of `ONE`).
pub const FAR: i64 = 0x4000_0000;

/// Bound on every component of a point that a ray reaches within `FAR`.
pub const REACH: i64 = 0x4000_0000_0000;

/// `origin + direction · t / ONE`, each component rounded down.
pub open spec fn point_at3(origin: Triple, direction: Triple, t: int) -> Triple {
    add3(origin, shrink3(scale3(direction, t), ONE as int))
}

/// A ray from `origin` along `direction`; the direction need not have unit length.
#[derive(Clone, Copy, Debug, PartialEq, Eq, Structural)]
pub struct Ray {
    pub origin: Vec3,
    pub direction: Vec3,
}

impl Ray {
    /// Origin and direction lie in the coordinate range that geometry accepts.
    pub open spec fn in_range(&self) -> bool {
        self.origin.in_range() && self.direction.in_range()
    }

    /// The point reached at parameter `t`.
    pub open spec fn at(&self, t: int) -> Triple {
        point_at3(self.origin@, self.direction@, t)
    }

    /// Creates a ray from `origin` along `direction`.
    pub fn new(origin: Vec3, direction: Vec3) -> (r: Ray)
        ensures
            r.origin == origin,
            r.direction == direction,
    {
        Ray { origin, direction }
    }

    /// The origin of the ray.
    pub fn origin(&self) -> (r: &Vec3)
        ensures
            *r == self.origin,
    {
        &self.origin
    }

    /// The direction of the ray.
    pub fn direction(&self) -> (r: &Vec3)
        ensures
            *r == self.direction,
    {
        &self.direction
    }

    /// The point `origin + direction · t` for a fixed-point `t`; any sign of `t` is accepted.
    pub fn point_at_parameter(&self, t: i64) -> (r: Vec3)
        requires
            self.in_range(),
            -FAR <= t <= FAR,
        ensures
            r@ == self.at(t as int),
            bounded(r@, REACH as int),
    {
        let tt = t as i128;
        let one = ONE as i128;
        proof {
            lemma_step(self.direction.x as int, t as int);
            lemma_step(self.direction.y as int, t as int);
            lemma_step(self.direction.z as int, t as int);
        }
        let dx = floor_div_i128(self.direction.x as i128 * tt, one);
        let dy = floor_div_i128(self.direction.y as i128 * tt, one);
        let dz = floor_div_i128(self.direction.z as i128 * tt, one);
        Vec3 {
            x: (self.origin.x as i128 + dx) as i64,
            y: (self.origin.y as i128 + dy) as i64,
            z: (self.origin.z as i128 + dz) as i64,
        }
    }
}

/// One component of the step `direction · t / ONE` stays well inside `REACH`.
proof fn lemma_step(d: int, t: int)
    requires
        -0x1000_0000 <= d <= 0x1000_0000,
        -0x4000_0000 <= t <= 0x4000_0000,
    ensures
        -0x400_0000_0000_0000 <= d * t <= 0x400_0000_0000_0000,
        -0x3000_0000_0000 <= (d * t) / 10000 <= 0x3000_0000_0000,
{
    assert(-0x400_0000_0000_0000 <= d * t <= 0x400_0000_0000_0000) by (nonlinear_arith)
        requires
            -0x1000_0000 <= d <= 0x1000_0000,
            -0x4000_0000 <= t <= 0x4000_0000,
    ;
}

} // verus!
