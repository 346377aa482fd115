//! What a ray strikes: the hit record and the capability of being hit.
use crate::ray::{Ray, FAR};
use crate::vec3::Vec3;
use vstd::prelude::*;

verus! {

/// Where a ray struck a surface: the parameter `t`, the point and the surface normal.
#[derive(Clone, Copy, Debug, PartialEq, Eq, Structural)]
pub struct HitRecord {
    pub t: i64,
    pub point: Vec3,
    pub normal: Vec3,
}

impl HitRecord {
    /// A record with every field zero.
    pub fn new() -> (r: HitRecord)
        ensures
            r.t == 0,
            r.point@ == (0int, 0int, 0int),
            r.normal@ == (0int, 0int, 0int),
    {
        HitRecord { t: 0, point: Vec3::zero(), normal: Vec3::zero() }
    }
}

/// Geometry that a ray can strike.
pub trait Hitable {
    /// The geometry lies in the range that `hit` accepts.
    spec fn well_formed(&self) -> bool;

    /// The nearest hit of `ray` with `t_min < t < t_max`, if there is one.
    spec fn hit_spec(&self, ray: Ray, t_min: int, t_max: int) -> Option<HitRecord>;

    /// Tests `ray` against the geometry. On a hit within `(t_min, t_max)` the
    /// record is overwritten with it and `true` comes back; otherwise the
    /// record is left as it was.
    fn hit(&self, ray: &Ray, t_min: i64, t_max: i64, record: &mut HitRecord) -> (hit: bool)
        requires
            self.well_formed(),
            ray.in_range(),
            -FAR <= t_min,
            t_max <= FAR,
        ensures
            hit == self.hit_spec(*ray, t_min as int, t_max as int).is_some(),
            hit ==> *final(record) == self.hit_spec(*ray, t_min as int, t_max as int).unwrap(),
            !hit ==> *final(record) == *old(record),
    ;
}

} // verus!
