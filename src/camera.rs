//! The camera: maps fixed-point image-plane coordinates to rays through a viewport.
use crate::fixed::{floor_div, ONE};
use crate::ray::Ray;
use crate::vec3::{add3, bounded, scale3, shrink3, sub3, to_vec3, Triple, Vec3, XYZ};
use vstd::prelude::*;

verus! {

/// Largest magnitude of a component of the camera's four vectors.
pub const VIEW_LIMIT: i64 = 0x400_0000;

/// An eye point and an axis-aligned viewport: its lower-left corner and the
/// horizontal and vertical spans.
#[derive(Clone, Copy, Debug, PartialEq, Eq, Structural)]
pub struct Camera {
    pub origin: XYZ,
    pub lower_left_corner: XYZ,
    pub horizontal: XYZ,
    pub vertical: XYZ,
}

/// The point of the viewport at `(u, v)`: `corner + u·horizontal + v·vertical`,
/// with `u` and `v` fixed-point and each product rounded down.
pub open spec fn viewport_point(c: Camera, u: int, v: int) -> Triple {
    add3(
        add3(c.lower_left_corner.data@, shrink3(scale3(c.horizontal.data@, u), ONE as int)),
        shrink3(scale3(c.vertical.data@, v), ONE as int),
    )
}

/// The ray from the eye through the viewport point at `(u, v)`.
pub open spec fn camera_ray(c: Camera, u: int, v: int) -> Ray {
    Ray {
        origin: c.origin.data,
        direction: to_vec3(sub3(viewport_point(c, u, v), c.origin.data@)),
    }
}

impl Camera {
    /// Every vector lies within `VIEW_LIMIT`, the spans lie in a plane of
    /// constant depth, and the viewport does not pass through the eye's depth.
    pub open spec fn well_formed(&self) -> bool {
        &&& bounded(self.origin.data@, VIEW_LIMIT as int)
        &&& bounded(self.lower_left_corner.data@, VIEW_LIMIT as int)
        &&& bounded(self.horizontal.data@, VIEW_LIMIT as int)
        &&& bounded(self.vertical.data@, VIEW_LIMIT as int)
        &&& self.horizontal.data.z == 0
        &&& self.vertical.data.z == 0
        &&& self.lower_left_corner.data.z != self.origin.data.z
    }

    /// The standard camera: eye at the origin looking down `-z` through a
    /// viewport 4 wide and 2 high whose lower-left corner is `(-2, -1, -1)`.
    pub fn new() -> (c: Camera)
        ensures
            c.well_formed(),
            c.origin.data@ == (0int, 0int, 0int),
            c.lower_left_corner.data@ == (-2 * ONE, -ONE as int, -ONE as int),
            c.horizontal.data@ == (4 * ONE, 0int, 0int),
            c.vertical.data@ == (0int, 2 * ONE, 0int),
    {
        Camera {
            origin: XYZ::new_x_y_z(0, 0, 0),
            lower_left_corner: XYZ::new_x_y_z(-2 * ONE, -ONE, -ONE),
            horizontal: XYZ::new_x_y_z(4 * ONE, 0, 0),
            vertical: XYZ::new_x_y_z(0, 2 * ONE, 0),
        }
    }

    /// A camera with the given eye point and viewport; `None` unless it is
    /// well formed (see `well_formed`).
    pub fn with_viewport(origin: XYZ, lower_left_corner: XYZ, horizontal: XYZ, vertical: XYZ) -> (r: Option<Camera>)
        ensures
            r is Some <==> (Camera { origin, lower_left_corner, horizontal, vertical }).well_formed(),
            r is Some ==> r->0 == (Camera { origin, lower_left_corner, horizontal, vertical }),
    {
        let c = Camera { origin, lower_left_corner, horizontal, vertical };
        if within_view(&origin.data) && within_view(&lower_left_corner.data) && within_view(
            &horizontal.data,
        ) && within_view(&vertical.data) && horizontal.data.z == 0 && vertical.data.z == 0
            && lower_left_corner.data.z != origin.data.z {
            Some(c)
        } else {
            None
        }
    }

    /// The ray from the eye through the viewport point at `(u, v)`, for
    /// fixed-point `u` and `v` in `[0, ONE]`.
    pub fn get_ray(&self, u: i64, v: i64) -> (r: Ray)
        requires
            self.well_formed(),
            0 <= u <= ONE,
            0 <= v <= ONE,
        ensures
            r == camera_ray(*self, u as int, v as int),
            r.in_range(),
            r.direction.z != 0,
    {
        proof {
            lemma_span_step(self.horizontal.data@, u as int);
            lemma_span_step(self.vertical.data@, v as int);
        }
        let across = self.horizontal.data.mul_scalar(u);
        let up = self.vertical.data.mul_scalar(v);
        let through = self.lower_left_corner.data.add(&across).add(&up);
        let direction = through.sub(&self.origin.data);
        Ray::new(self.origin.data, direction)
    }
}

fn within_view(v: &Vec3) -> (r: bool)
    ensures
        r == bounded(v@, VIEW_LIMIT as int),
{
    -VIEW_LIMIT <= v.x && v.x <= VIEW_LIMIT && -VIEW_LIMIT <= v.y && v.y <= VIEW_LIMIT && -VIEW_LIMIT
        <= v.z && v.z <= VIEW_LIMIT
}

/// A span scaled by a fraction in `[0, ONE]` stays within the span's bound.
proof fn lemma_span_step(s: Triple, f: int)
    requires
        bounded(s, VIEW_LIMIT as int),
        0 <= f <= ONE,
    ensures
        bounded(scale3(s, f), VIEW_LIMIT * ONE),
        bounded(shrink3(scale3(s, f), ONE as int), VIEW_LIMIT as int),
        s.2 == 0 ==> shrink3(scale3(s, f), ONE as int).2 == 0,
{
    lemma_scaled_fraction(s.0, f);
    lemma_scaled_fraction(s.1, f);
    lemma_scaled_fraction(s.2, f);
}

proof fn lemma_scaled_fraction(x: int, f: int)
    requires
        -0x400_0000 <= x <= 0x400_0000,
        0 <= f <= 10000,
    ensures
        -0x400_0000 * 10000 <= x * f <= 0x400_0000 * 10000,
        -0x400_0000 <= floor_div(x * f, 10000) <= 0x400_0000,
        x == 0 ==> floor_div(x * f, 10000) == 0,
{
    assert(-0x400_0000 * 10000 <= x * f <= 0x400_0000 * 10000) by (nonlinear_arith)
        requires
            -0x400_0000 <= x <= 0x400_0000,
            0 <= f <= 10000,
    ;
    assert(x == 0 ==> x * f == 0) by (nonlinear_arith);
}

} // verus!
