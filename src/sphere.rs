//! Spheres and the closed-form ray/sphere intersection.
use crate::fixed::{floor_div, floor_div_i128, isqrt, isqrt_u128, lemma_isqrt_is_root, ONE};
use crate::hitable::{HitRecord, Hitable};
use crate::ray::{Ray, FAR};
use crate::vec3::{
    add3, bounded, dot3, lemma_dot_bound, lemma_dot_self_nonnegative, lemma_dot_self_zero, scale3,
    shrink3, sub3, to_vec3, unit3, unit_vector, lemma_unit_length, Triple, Vec3, LIMIT, UNIT_LIMIT, XYZ,
};
use vstd::arithmetic::div_mod::{
    lemma_div_is_ordered, lemma_div_pos_is_pos, lemma_fundamental_div_mod,
};
use vstd::prelude::*;

verus! {

/// A sphere with a center and a radius.
#[derive(Clone, Copy, Debug, PartialEq, Eq, Structural)]
pub struct Sphere {
    pub center: XYZ,
    pub radius: i64,
}

/// The terms of the quadratic `a·t² + 2b·t + c = 0` whose roots are where `ray`
/// meets the sphere: `a = D·D`, `b = D·oc`, `c = oc·oc − r²` with `oc = O − C`.
pub open spec fn quad_a(ray: Ray) -> int {
    dot3(ray.direction@, ray.direction@)
}

pub open spec fn offset_from(s: Sphere, ray: Ray) -> Triple {
    sub3(ray.origin@, s.center.data@)
}

pub open spec fn quad_b(s: Sphere, ray: Ray) -> int {
    dot3(ray.direction@, offset_from(s, ray))
}

pub open spec fn quad_c(s: Sphere, ray: Ray) -> int {
    dot3(offset_from(s, ray), offset_from(s, ray)) - s.radius * s.radius
}

/// `b² − a·c`: positive when the ray's line crosses the sphere.
pub open spec fn discriminant(s: Sphere, ray: Ray) -> int {
    quad_b(s, ray) * quad_b(s, ray) - quad_a(ray) * quad_c(s, ray)
}

/// The nearer root `(−b − √disc) / a`, as a fixed-point parameter rounded down.
pub open spec fn near_root(s: Sphere, ray: Ray) -> int {
    floor_div((-quad_b(s, ray) - isqrt(discriminant(s, ray))) * ONE, quad_a(ray))
}

/// The farther root `(−b + √disc) / a`, as a fixed-point parameter rounded down.
pub open spec fn far_root(s: Sphere, ray: Ray) -> int {
    floor_div((-quad_b(s, ray) + isqrt(discriminant(s, ray))) * ONE, quad_a(ray))
}

/// The parameter at which `ray` strikes the sphere within `(t_min, t_max)`:
/// the nearer root if it lies there, else the farther one if it does.
pub open spec fn root_within(s: Sphere, ray: Ray, t_min: int, t_max: int) -> Option<int> {
    if discriminant(s, ray) <= 0 {
        None
    } else if t_min < near_root(s, ray) < t_max {
        Some(near_root(s, ray))
    } else if t_min < far_root(s, ray) < t_max {
        Some(far_root(s, ray))
    } else {
        None
    }
}

/// Which root `root_within` picked: −1 for the nearer, +1 for the farther.
pub open spec fn root_sign(s: Sphere, ray: Ray, t_min: int, t_max: int) -> int {
    if t_min < near_root(s, ray) < t_max {
        -1
    } else {
        1
    }
}

/// `a·oc + D·(−b + sign·√disc)`: `a` times the vector from the center to the
/// point where the root with that sign (−1 nearer, +1 farther) meets the
/// sphere, exact but for the integer square root.
pub open spec fn surface_direction(s: Sphere, ray: Ray, sign: int) -> Triple {
    add3(
        scale3(offset_from(s, ray), quad_a(ray)),
        scale3(ray.direction@, -quad_b(s, ray) + sign * isqrt(discriminant(s, ray))),
    )
}

pub open spec fn abs(x: int) -> int {
    if x < 0 {
        -x
    } else {
        x
    }
}

/// The largest magnitude among the components.
pub open spec fn max_abs3(w: Triple) -> int {
    let m = if abs(w.0) < abs(w.1) {
        abs(w.1)
    } else {
        abs(w.0)
    };
    if m < abs(w.2) {
        abs(w.2)
    } else {
        m
    }
}

/// Bound below which a surface direction is scaled before it is normalised.
pub const NORMAL_SCALE: i64 = 0x1000_0000_0000;

/// `w` divided (rounding down) by the least whole factor that brings every
/// component below `NORMAL_SCALE`; the direction is kept up to rounding.
pub open spec fn reduce3(w: Triple) -> Triple {
    shrink3(w, max_abs3(w) / NORMAL_SCALE as int + 1)
}

/// The outward unit normal (length `ONE`) at the hit of the root with `sign`.
pub open spec fn normal_of(s: Sphere, ray: Ray, sign: int) -> Triple {
    unit3(reduce3(surface_direction(s, ray, sign)))
}

/// The record of a hit of `ray` on the sphere at parameter `t`, from the root with `sign`.
pub open spec fn record_at(s: Sphere, ray: Ray, t: int, sign: int) -> HitRecord {
    HitRecord { t: t as i64, point: to_vec3(ray.at(t)), normal: to_vec3(normal_of(s, ray, sign)) }
}

impl Sphere {
    /// Creates a sphere. Gives `None` unless the radius is positive and the
    /// center and radius lie within the coordinate range (`LIMIT`).
    pub fn new(center: XYZ, radius: i64) -> (r: Option<Sphere>)
        ensures
            r is Some <==> (0 < radius <= LIMIT && center.data.in_range()),
            r is Some ==> r->0.center == center && r->0.radius == radius,
    {
        let v = center.data;
        if 0 < radius && radius <= LIMIT && -LIMIT <= v.x && v.x <= LIMIT && -LIMIT <= v.y && v.y
            <= LIMIT && -LIMIT <= v.z && v.z <= LIMIT {
            Some(Sphere { center, radius })
        } else {
            None
        }
    }

    pub fn radius(&self) -> (r: i64)
        ensures
            r == self.radius,
    {
        self.radius
    }

    /// The record of a hit at parameter `t`, from the root `(−b + sign·root) / a`.
    fn record(&self, ray: &Ray, t: i64, oc: &Vec3, a: i128, b: i128, root: i128, sign: i128) -> (r: HitRecord)
        requires
            self.well_formed(),
            ray.in_range(),
            -FAR <= t <= FAR,
            oc@ == offset_from(*self, *ray),
            bounded(oc@, 2 * LIMIT),
            a == quad_a(*ray),
            b == quad_b(*self, *ray),
            discriminant(*self, *ray) > 0,
            root == isqrt(discriminant(*self, *ray)),
            0 <= root < 0x2000_0000_0000_0000,
            0 <= a <= 3 * (LIMIT * LIMIT),
            -(3 * (LIMIT * (2 * LIMIT))) <= b <= 3 * (LIMIT * (2 * LIMIT)),
            sign == 1 || sign == -1,
        ensures
            r == record_at(*self, *ray, t as int, sign as int),
    {
        let point = ray.point_at_parameter(t);
        let q: i128 = if sign > 0 {
            -b + root
        } else {
            -b - root
        };
        assert(q == -b + sign * root) by (nonlinear_arith)
            requires
                sign == 1 || sign == -1,
                q == (if sign > 0 {
                    -b + root
                } else {
                    -b - root
                }),
        ;
        let d = ray.direction;
        proof {
            lemma_direction_term(a as int, oc.x as int, d.x as int, q as int);
            lemma_direction_term(a as int, oc.y as int, d.y as int, q as int);
            lemma_direction_term(a as int, oc.z as int, d.z as int, q as int);
        }
        let wx: i128 = a * oc.x as i128 + d.x as i128 * q;
        let wy: i128 = a * oc.y as i128 + d.y as i128 * q;
        let wz: i128 = a * oc.z as i128 + d.z as i128 * q;
        let ghost w: Triple = (wx as int, wy as int, wz as int);
        assert(w == surface_direction(*self, *ray, sign as int));
        let ax: i128 = if wx < 0 { -wx } else { wx };
        let ay: i128 = if wy < 0 { -wy } else { wy };
        let az: i128 = if wz < 0 { -wz } else { wz };
        let m0: i128 = if ax < ay { ay } else { ax };
        let m: i128 = if m0 < az { az } else { m0 };
        assert(m == max_abs3(w));
        let g: i128 = m / NORMAL_SCALE as i128 + 1;
        proof {
            lemma_surface_direction_nonzero(*self, *ray, sign as int);
            lemma_reduce(w);
        }
        let reduced = Vec3 {
            x: floor_div_i128(wx, g) as i64,
            y: floor_div_i128(wy, g) as i64,
            z: floor_div_i128(wz, g) as i64,
        };
        let normal = unit_vector(&reduced);
        HitRecord { t, point, normal }
    }
}

/// One term `a·o + d·q` of a surface direction stays well inside `i128`.
proof fn lemma_direction_term(a: int, o: int, d: int, q: int)
    requires
        0 <= a <= 3 * (0x1000_0000 * 0x1000_0000),
        -0x2000_0000 <= o <= 0x2000_0000,
        -0x1000_0000 <= d <= 0x1000_0000,
        -0x4000_0000_0000_0000 <= q <= 0x4000_0000_0000_0000,
    ensures
        -0x1_0000_0000_0000_0000_0000_0000 <= a * o <= 0x1_0000_0000_0000_0000_0000_0000,
        -0x4_0000_0000_0000_0000_0000_0000 <= d * q <= 0x4_0000_0000_0000_0000_0000_0000,
{
    assert(-0x1_0000_0000_0000_0000_0000_0000 <= a * o <= 0x1_0000_0000_0000_0000_0000_0000) by (nonlinear_arith)
        requires
            0 <= a <= 3 * (0x1000_0000 * 0x1000_0000),
            -0x2000_0000 <= o <= 0x2000_0000,
    ;
    assert(-0x4_0000_0000_0000_0000_0000_0000 <= d * q <= 0x4_0000_0000_0000_0000_0000_0000) by (nonlinear_arith)
        requires
            -0x1000_0000 <= d <= 0x1000_0000,
            -0x4000_0000_0000_0000 <= q <= 0x4000_0000_0000_0000,
    ;
}

/// Reducing a non-zero vector keeps it non-zero and brings it within `UNIT_LIMIT`.
pub proof fn lemma_reduce(w: Triple)
    requires
        w != (0int, 0int, 0int),
    ensures
        bounded(reduce3(w), UNIT_LIMIT as int),
        reduce3(w) != (0int, 0int, 0int),
{
    let m = max_abs3(w);
    let n = NORMAL_SCALE as int;
    let q = m / n;
    let g = q + 1;
    lemma_fundamental_div_mod(m, n);
    assert(m >= 1);
    assert(g <= m && m < g * n) by (nonlinear_arith)
        requires
            m == n * q + m % n,
            0 <= m % n < n,
            n == 0x1000_0000_0000,
            m >= 1,
            q >= 0,
            g == q + 1,
    ;
    lemma_reduced_component(w.0, m, g, n);
    lemma_reduced_component(w.1, m, g, n);
    lemma_reduced_component(w.2, m, g, n);
}

proof fn lemma_reduced_component(x: int, m: int, g: int, n: int)
    requires
        abs(x) <= m,
        1 <= g <= m,
        m < g * n,
        n == 0x1000_0000_0000,
    ensures
        -n <= floor_div(x, g) < n,
        abs(x) == m ==> floor_div(x, g) != 0,
{
    let f = x / g;
    lemma_fundamental_div_mod(x, g);
    assert(-n <= f < n) by (nonlinear_arith)
        requires
            x == g * f + x % g,
            0 <= x % g < g,
            -m <= x <= m,
            m < g * n,
            g >= 1,
    ;
    assert(abs(x) == m ==> f != 0) by (nonlinear_arith)
        requires
            x == g * f + x % g,
            0 <= x % g < g,
            g <= m,
            abs(x) == m ==> (x == m || x == -m),
    ;
}

/// The surface direction of either root is never zero: were it zero, the
/// discriminant would equal `a·r²`, whose square root is at least 1.
pub proof fn lemma_surface_direction_nonzero(s: Sphere, ray: Ray, sign: int)
    requires
        s.well_formed(),
        discriminant(s, ray) > 0,
        sign == 1 || sign == -1,
    ensures
        surface_direction(s, ray, sign) != (0int, 0int, 0int),
{
    let a = quad_a(ray);
    let b = quad_b(s, ray);
    let disc = discriminant(s, ray);
    let root = isqrt(disc);
    let q = -b + sign * root;
    let o = offset_from(s, ray);
    let d = ray.direction@;
    let m = dot3(o, o);
    let r = s.radius as int;
    lemma_isqrt_is_root(disc);
    lemma_dot_self_nonnegative(d);
    if a == 0 {
        lemma_dot_self_zero(d);
        assert(d.0 * o.0 + d.1 * o.1 + d.2 * o.2 == 0) by (nonlinear_arith)
            requires
                d.0 == 0 && d.1 == 0 && d.2 == 0,
        ;
        assert(a * quad_c(s, ray) == 0) by (nonlinear_arith)
            requires
                a == 0,
        ;
    }
    let w = surface_direction(s, ray, sign);
    if w == (0int, 0int, 0int) {
        assert(d.0 * w.0 == a * (d.0 * o.0) + q * (d.0 * d.0) && o.0 * w.0 == a * (o.0 * o.0) + q * (d.0 * o.0))
            by (nonlinear_arith)
            requires
                w.0 == a * o.0 + d.0 * q,
        ;
        assert(d.1 * w.1 == a * (d.1 * o.1) + q * (d.1 * d.1) && o.1 * w.1 == a * (o.1 * o.1) + q * (d.1 * o.1))
            by (nonlinear_arith)
            requires
                w.1 == a * o.1 + d.1 * q,
        ;
        assert(d.2 * w.2 == a * (d.2 * o.2) + q * (d.2 * d.2) && o.2 * w.2 == a * (o.2 * o.2) + q * (d.2 * o.2))
            by (nonlinear_arith)
            requires
                w.2 == a * o.2 + d.2 * q,
        ;
        assert(d.0 * w.0 == 0 && d.1 * w.1 == 0 && d.2 * w.2 == 0 && o.0 * w.0 == 0 && o.1 * w.1 == 0 && o.2 * w.2 == 0)
            by (nonlinear_arith)
            requires
                w.0 == 0 && w.1 == 0 && w.2 == 0,
        ;
        assert(a * b == a * (d.0 * o.0) + a * (d.1 * o.1) + a * (d.2 * o.2) && q * a == q * (d.0 * d.0) + q * (
        d.1 * d.1) + q * (d.2 * d.2)) by (nonlinear_arith)
            requires
                a == d.0 * d.0 + d.1 * d.1 + d.2 * d.2,
                b == d.0 * o.0 + d.1 * o.1 + d.2 * o.2,
        ;
        assert(a * m == a * (o.0 * o.0) + a * (o.1 * o.1) + a * (o.2 * o.2) && q * b == q * (d.0 * o.0) + q * (
        d.1 * o.1) + q * (d.2 * o.2)) by (nonlinear_arith)
            requires
                m == o.0 * o.0 + o.1 * o.1 + o.2 * o.2,
                b == d.0 * o.0 + d.1 * o.1 + d.2 * o.2,
        ;
        assert(a * b + q * a == 0 && a * m + q * b == 0);
        assert(a * (b + q) == 0) by (nonlinear_arith)
            requires
                a * b + q * a == 0,
        ;
        assert(b + q == 0) by (nonlinear_arith)
            requires
                a * (b + q) == 0,
                a > 0,
        ;
        assert(root == 0) by (nonlinear_arith)
            requires
                q == -b + sign * root,
                b + q == 0,
                sign == 1 || sign == -1,
        ;
        assert(disc == a * (r * r)) by (nonlinear_arith)
            requires
                a * m + q * b == 0,
                q == -b,
                disc == b * b - a * (m - r * r),
        ;
        assert(disc >= 1) by (nonlinear_arith)
            requires
                disc == a * (r * r),
                a >= 1,
                r >= 1,
        ;
        assert(false) by (nonlinear_arith)
            requires
                root == 0,
                disc >= 1,
                disc < (root + 1) * (root + 1),
        ;
    }
}

impl Hitable for Sphere {
    open spec fn well_formed(&self) -> bool {
        0 < self.radius <= LIMIT && self.center.data.in_range()
    }

    open spec fn hit_spec(&self, ray: Ray, t_min: int, t_max: int) -> Option<HitRecord> {
        match root_within(*self, ray, t_min, t_max) {
            Some(t) => Some(record_at(*self, ray, t, root_sign(*self, ray, t_min, t_max))),
            None => None,
        }
    }

    fn hit(&self, ray: &Ray, t_min: i64, t_max: i64, record: &mut HitRecord) -> (hit: bool) {
        let s = *self;
        let oc = ray.origin.sub(&self.center.data);
        proof {
            lemma_dot_bound(ray.direction@, ray.direction@, LIMIT as int, LIMIT as int);
            lemma_dot_self_nonnegative(ray.direction@);
            lemma_dot_bound(ray.direction@, oc@, LIMIT as int, 2 * LIMIT);
            lemma_dot_bound(oc@, oc@, 2 * LIMIT, 2 * LIMIT);
            assert(self.radius * self.radius <= LIMIT * LIMIT) by (nonlinear_arith)
                requires
                    0 < self.radius <= LIMIT,
            ;
        }
        let a: i128 = ray.direction.dot(&ray.direction);
        let b: i128 = ray.direction.dot(&oc);
        let r: i128 = self.radius as i128;
        let c: i128 = oc.dot(&oc) - r * r;
        proof {
            lemma_quadratic_bounds(a as int, b as int, c as int);
        }
        let disc: i128 = b * b - a * c;
        if disc > 0 {
            proof {
                if a == 0 {
                    lemma_dot_self_zero(ray.direction@);
                    let (d, o) = (ray.direction@, oc@);
                    assert(d.0 * o.0 + d.1 * o.1 + d.2 * o.2 == 0) by (nonlinear_arith)
                        requires
                            d.0 == 0 && d.1 == 0 && d.2 == 0,
                    ;
                    assert(b == 0);
                    assert(a * c == 0) by (nonlinear_arith)
                        requires
                            a == 0,
                    ;
                }
            }
            let root = isqrt_u128(disc as u128) as i128;
            let one = ONE as i128;
            let near = floor_div_i128((-b - root) * one, a);
            if (t_min as i128) < near && near < (t_max as i128) {
                *record = self.record(ray, near as i64, &oc, a, b, root, -1);
                return true;
            }
            let far = floor_div_i128((-b + root) * one, a);
            if (t_min as i128) < far && far < (t_max as i128) {
                *record = self.record(ray, far as i64, &oc, a, b, root, 1);
                return true;
            }
        }
        false
    }
}

/// Magnitudes of the quadratic's terms for rays and spheres within `LIMIT`.
proof fn lemma_quadratic_bounds(a: int, b: int, c: int)
    requires
        0 <= a <= 3 * (0x1000_0000 * 0x1000_0000),
        -(3 * (0x1000_0000 * 0x2000_0000)) <= b <= 3 * (0x1000_0000 * 0x2000_0000),
        -(0x1000_0000 * 0x1000_0000) - (3 * (0x2000_0000 * 0x2000_0000)) <= c <= 3 * (0x2000_0000 * 0x2000_0000),
    ensures
        -0x80_0000_0000_0000_0000_0000_0000_0000 <= b * b - a * c <= 0x80_0000_0000_0000_0000_0000_0000_0000,
        0 <= b * b <= 0x40_0000_0000_0000_0000_0000_0000_0000,
        -0x40_0000_0000_0000_0000_0000_0000_0000 <= a * c <= 0x40_0000_0000_0000_0000_0000_0000_0000,
{
    assert(0 <= b * b <= 0x40_0000_0000_0000_0000_0000_0000_0000) by (nonlinear_arith)
        requires
            -(3 * (0x1000_0000 * 0x2000_0000)) <= b <= 3 * (0x1000_0000 * 0x2000_0000),
    ;
    assert(-0x40_0000_0000_0000_0000_0000_0000_0000 <= a * c <= 0x40_0000_0000_0000_0000_0000_0000_0000) by (nonlinear_arith)
        requires
            0 <= a <= 3 * (0x1000_0000 * 0x1000_0000),
            -(0x1000_0000 * 0x1000_0000) - (3 * (0x2000_0000 * 0x2000_0000)) <= c <= 3 * (0x2000_0000 * 0x2000_0000),
    ;
}

/// The nearer root never lies beyond the farther one.
pub proof fn lemma_near_before_far(s: Sphere, ray: Ray)
    requires
        discriminant(s, ray) > 0,
    ensures
        near_root(s, ray) <= far_root(s, ray),
{
    let a = quad_a(ray);
    lemma_dot_self_nonnegative(ray.direction@);
    if a == 0 {
        lemma_dot_self_zero(ray.direction@);
        let (d, o) = (ray.direction@, offset_from(s, ray));
        assert(d.0 * o.0 + d.1 * o.1 + d.2 * o.2 == 0) by (nonlinear_arith)
            requires
                d.0 == 0 && d.1 == 0 && d.2 == 0,
        ;
        assert(quad_a(ray) * quad_c(s, ray) == 0) by (nonlinear_arith)
            requires
                quad_a(ray) == 0,
        ;
    }
    let r = isqrt(discriminant(s, ray));
    lemma_isqrt_is_root(discriminant(s, ray));
    let b = quad_b(s, ray);
    assert((-b - r) * ONE <= (-b + r) * ONE);
    lemma_div_is_ordered((-b - r) * ONE, (-b + r) * ONE, a);
}

/// Lowering the upper end of the interval from `t_max` to `bound` keeps the
/// hit that lay below `bound` and loses the one that did not.
pub proof fn lemma_root_within_lower_bound(s: Sphere, ray: Ray, t_min: int, t_max: int, bound: int)
    requires
        bound <= t_max,
    ensures
        root_within(s, ray, t_min, bound) == (match root_within(s, ray, t_min, t_max) {
            Some(t) => if t < bound {
                Some(t)
            } else {
                None
            },
            None => None,
        }),
        root_within(s, ray, t_min, bound) is Some ==> root_sign(s, ray, t_min, bound) == root_sign(
            s,
            ray,
            t_min,
            t_max,
        ),
{
    if discriminant(s, ray) > 0 {
        lemma_near_before_far(s, ray);
    }
}

/// A hit reported within `(t_min, t_max)` carries its parameter `t`, unrounded.
pub proof fn lemma_hit_parameter(s: Sphere, ray: Ray, t_min: int, t_max: int)
    requires
        -FAR <= t_min,
        t_max <= FAR,
        root_within(s, ray, t_min, t_max) is Some,
    ensures
        s.hit_spec(ray, t_min, t_max) is Some,
        s.hit_spec(ray, t_min, t_max)->0.t as int == root_within(s, ray, t_min, t_max)->0,
        t_min < root_within(s, ray, t_min, t_max)->0 < t_max,
{
}

/// The normal of every reported hit has length `ONE` up to rounding: each
/// component lies in `[-ONE, ONE]` and the squared length within
/// `[ONE² − 6·ONE, ONE² + 10·ONE]`.
pub proof fn lemma_hit_normal_is_unit(s: Sphere, ray: Ray, t_min: int, t_max: int)
    requires
        s.well_formed(),
        s.hit_spec(ray, t_min, t_max) is Some,
    ensures
        bounded(s.hit_spec(ray, t_min, t_max)->0.normal@, ONE as int),
        ONE * ONE - 6 * ONE <= dot3(s.hit_spec(ray, t_min, t_max)->0.normal@, s.hit_spec(ray, t_min, t_max)->0.normal@)
            <= ONE * ONE + 10 * ONE,
{
    let sign = root_sign(s, ray, t_min, t_max);
    let w = surface_direction(s, ray, sign);
    lemma_surface_direction_nonzero(s, ray, sign);
    lemma_reduce(w);
    lemma_unit_length(reduce3(w));
    assert(s.hit_spec(ray, t_min, t_max)->0.normal@ == unit3(reduce3(w)));
}

/// A ray aimed straight at the center from outside the sphere has two distinct
/// roots (a positive discriminant), the nearer one is not behind the ray's
/// origin, and the nearer one is the hit whenever it lies within `(t_min, t_max)`.
pub proof fn lemma_aimed_at_center(s: Sphere, ray: Ray, k: int, t_min: int, t_max: int)
    requires
        s.well_formed(),
        k >= 1,
        ray.direction@ == scale3(sub3(s.center.data@, ray.origin@), k),
        dot3(offset_from(s, ray), offset_from(s, ray)) > s.radius * s.radius,
    ensures
        discriminant(s, ray) > 0,
        near_root(s, ray) >= 0,
        t_min < near_root(s, ray) < t_max ==> s.hit_spec(ray, t_min, t_max) == Some(
            record_at(s, ray, near_root(s, ray), -1),
        ),
{
    let o = offset_from(s, ray);
    let d = ray.direction@;
    let r = s.radius as int;
    let m = dot3(o, o);
    assert(d.0 == -(k * o.0) && d.1 == -(k * o.1) && d.2 == -(k * o.2)) by (nonlinear_arith)
        requires
            d == scale3(sub3(s.center.data@, ray.origin@), k),
            o == sub3(ray.origin@, s.center.data@),
    ;
    let a = quad_a(ray);
    let b = quad_b(s, ray);
    let c = quad_c(s, ray);
    assert(d.0 * d.0 == k * k * (o.0 * o.0) && d.0 * o.0 == -(k * (o.0 * o.0))) by (nonlinear_arith)
        requires
            d.0 == -(k * o.0),
    ;
    assert(d.1 * d.1 == k * k * (o.1 * o.1) && d.1 * o.1 == -(k * (o.1 * o.1))) by (nonlinear_arith)
        requires
            d.1 == -(k * o.1),
    ;
    assert(d.2 * d.2 == k * k * (o.2 * o.2) && d.2 * o.2 == -(k * (o.2 * o.2))) by (nonlinear_arith)
        requires
            d.2 == -(k * o.2),
    ;
    assert(a == k * k * m && b == -(k * m)) by (nonlinear_arith)
        requires
            a == d.0 * d.0 + d.1 * d.1 + d.2 * d.2,
            b == d.0 * o.0 + d.1 * o.1 + d.2 * o.2,
            m == o.0 * o.0 + o.1 * o.1 + o.2 * o.2,
            d.0 * d.0 == k * k * (o.0 * o.0),
            d.1 * d.1 == k * k * (o.1 * o.1),
            d.2 * d.2 == k * k * (o.2 * o.2),
            d.0 * o.0 == -(k * (o.0 * o.0)),
            d.1 * o.1 == -(k * (o.1 * o.1)),
            d.2 * o.2 == -(k * (o.2 * o.2)),
    ;
    assert(r * r >= 1 && k * m > 0) by (nonlinear_arith)
        requires
            r >= 1,
            k >= 1,
            m > r * r,
    ;
    assert(c == m - r * r);
    let disc = discriminant(s, ray);
    assert(disc == k * k * m * (r * r)) by (nonlinear_arith)
        requires
            disc == b * b - a * c,
            a == k * k * m,
            b == -(k * m),
            c == m - r * r,
    ;
    assert(disc > 0 && disc < b * b) by (nonlinear_arith)
        requires
            disc == k * k * m * (r * r),
            b == -(k * m),
            k >= 1,
            r >= 1,
            m > r * r,
    ;
    lemma_isqrt_is_root(disc);
    let q = isqrt(disc);
    assert(q < -b) by (nonlinear_arith)
        requires
            q >= 0,
            q * q <= disc,
            disc < b * b,
            b < 0,
    ;
    assert(a > 0) by (nonlinear_arith)
        requires
            a == k * k * m,
            k >= 1,
            m > 0,
    ;
    assert((-b - q) * ONE >= 0) by (nonlinear_arith)
        requires
            -b - q > 0,
    ;
    lemma_div_pos_is_pos((-b - q) * ONE, a);
}

/// A ray whose line passes the center farther than the radius (the squared
/// distance `|oc|² − (D·oc)²/|D|²` exceeds `r²`, here multiplied through by
/// `|D|²`) has a negative discriminant and strikes nothing.
pub proof fn lemma_passing_ray_misses(s: Sphere, ray: Ray, t_min: int, t_max: int)
    requires
        quad_a(ray) * dot3(offset_from(s, ray), offset_from(s, ray)) - quad_b(s, ray) * quad_b(s, ray)
            > quad_a(ray) * (s.radius * s.radius),
    ensures
        discriminant(s, ray) < 0,
        s.hit_spec(ray, t_min, t_max) is None,
{
    let a = quad_a(ray);
    let m = dot3(offset_from(s, ray), offset_from(s, ray));
    let rr = s.radius * s.radius;
    assert(a * (m - rr) == a * m - a * rr) by (nonlinear_arith);
}

/// A tangent ray (discriminant exactly zero) counts as a miss.
pub proof fn lemma_tangent_ray_misses(s: Sphere, ray: Ray, t_min: int, t_max: int)
    requires
        discriminant(s, ray) == 0,
    ensures
        s.hit_spec(ray, t_min, t_max) is None,
{
}

} // verus!
