//! Three-component integer vectors, read as fixed-point numbers where a
//! direction or a colour needs a fraction, with their algebra.
use crate::fixed::{
    fits_i64, floor_div, floor_div_i128, floor_div_wide, isqrt, isqrt_u128, lemma_isqrt_is_root, ONE,
};
use vstd::arithmetic::div_mod::lemma_fundamental_div_mod;
use vstd::prelude::*;

verus! {

/// The mathematical value of a vector: its three components as integers.
pub type Triple = (int, int, int);

/// Largest magnitude of a coordinate that a scene, a ray or a camera may use.
pub const LIMIT: i64 = 0x1000_0000;

/// Largest magnitude of a component that `unit_vector` accepts.
pub const UNIT_LIMIT: i64 = 0x2000_0000_0000;

/// Largest magnitude of a component for which products of two vectors are exact.
pub const WIDE: i64 = 0x4000_0000_0000_0000;

pub open spec fn add3(a: Triple, b: Triple) -> Triple {
    (a.0 + b.0, a.1 + b.1, a.2 + b.2)
}

pub open spec fn sub3(a: Triple, b: Triple) -> Triple {
    (a.0 - b.0, a.1 - b.1, a.2 - b.2)
}

pub open spec fn neg3(a: Triple) -> Triple {
    (-a.0, -a.1, -a.2)
}

/// Component-wise product of the raw integers (scale `ONE²`).
pub open spec fn mul3(a: Triple, b: Triple) -> Triple {
    (a.0 * b.0, a.1 * b.1, a.2 * b.2)
}

/// Component-wise fixed-point product: `a·b / ONE`, rounded down.
pub open spec fn times3(a: Triple, b: Triple) -> Triple {
    shrink3(mul3(a, b), ONE as int)
}

/// Component-wise fixed-point quotient: `a·ONE / b`, rounded down.
pub open spec fn div3(a: Triple, b: Triple) -> Triple {
    (floor_div(a.0 * ONE, b.0), floor_div(a.1 * ONE, b.1), floor_div(a.2 * ONE, b.2))
}

/// Every component plus the scalar `s`.
pub open spec fn offset3(a: Triple, s: int) -> Triple {
    (a.0 + s, a.1 + s, a.2 + s)
}

/// Every component times the scalar `s`.
pub open spec fn scale3(a: Triple, s: int) -> Triple {
    (a.0 * s, a.1 * s, a.2 * s)
}

/// Every component divided by the scalar `d`, rounded down.
pub open spec fn shrink3(a: Triple, d: int) -> Triple {
    (floor_div(a.0, d), floor_div(a.1, d), floor_div(a.2, d))
}

/// Every component times the fixed-point scalar `s`: `a·s / ONE`, rounded down.
pub open spec fn times_scalar3(a: Triple, s: int) -> Triple {
    shrink3(scale3(a, s), ONE as int)
}

/// Every component divided by the fixed-point scalar `d`: `a·ONE / d`, rounded down.
pub open spec fn over_scalar3(a: Triple, d: int) -> Triple {
    shrink3(scale3(a, ONE as int), d)
}

pub open spec fn dot3(a: Triple, b: Triple) -> int {
    a.0 * b.0 + a.1 * b.1 + a.2 * b.2
}

pub open spec fn cross3(a: Triple, b: Triple) -> Triple {
    (a.1 * b.2 - a.2 * b.1, -(a.0 * b.2 - a.2 * b.0), a.0 * b.1 - a.1 * b.0)
}

/// The component at position `i` (0, 1 or 2).
pub open spec fn component(a: Triple, i: int) -> int {
    if i == 0 {
        a.0
    } else if i == 1 {
        a.1
    } else {
        a.2
    }
}

/// Every component has magnitude at most `b`.
pub open spec fn bounded(a: Triple, b: int) -> bool {
    -b <= a.0 <= b && -b <= a.1 <= b && -b <= a.2 <= b
}

/// Every component fits in an `i64`.
pub open spec fn fits3(a: Triple) -> bool {
    fits_i64(a.0) && fits_i64(a.1) && fits_i64(a.2)
}

/// The vector scaled to length `ONE`, each component rounded down:
/// `a * ONE / |a|`, with `|a| * ONE` taken as an integer square root.
pub open spec fn unit3(a: Triple) -> Triple {
    let n = isqrt(dot3(a, a) * ONE * ONE);
    shrink3(scale3(a, ONE * ONE), n)
}

/// A 3D vector of integers.
#[derive(Clone, Copy, Debug, PartialEq, Eq, Structural)]
pub struct Vec3 {
    pub x: i64,
    pub y: i64,
    pub z: i64,
}

impl View for Vec3 {
    type V = Triple;

    open spec fn view(&self) -> Triple {
        (self.x as int, self.y as int, self.z as int)
    }
}

impl Vec3 {
    /// Within the coordinate range that geometry accepts.
    pub open spec fn in_range(&self) -> bool {
        bounded(self@, LIMIT as int)
    }

    /// Creates a vector with 0 in every component.
    pub fn zero() -> (r: Vec3)
        ensures
            r@ == (0int, 0int, 0int),
    {
        Vec3 { x: 0, y: 0, z: 0 }
    }

    /// Creates a vector with components `v0`, `v1` and `v2`.
    pub fn new(v0: i64, v1: i64, v2: i64) -> (r: Vec3)
        ensures
            r@ == (v0 as int, v1 as int, v2 as int),
    {
        Vec3 { x: v0, y: v1, z: v2 }
    }

    /// The component at position `idx`.
    pub fn index(&self, idx: usize) -> (r: i64)
        requires
            idx < 3,
        ensures
            r == component(self@, idx as int),
    {
        if idx == 0 {
            self.x
        } else if idx == 1 {
            self.y
        } else {
            self.z
        }
    }

    /// Replaces the component at position `idx`.
    pub fn set(&mut self, idx: usize, value: i64)
        requires
            idx < 3,
        ensures
            component(final(self)@, idx as int) == value,
            forall|i: int| 0 <= i < 3 && i != idx ==> component(final(self)@, i) == component(old(self)@, i),
    {
        if idx == 0 {
            self.x = value;
        } else if idx == 1 {
            self.y = value;
        } else {
            self.z = value;
        }
    }

    /// Scales the vector in place to length `ONE` (see `unit3`).
    pub fn make_unit_vector(&mut self)
        requires
            bounded(old(self)@, UNIT_LIMIT as int),
            old(self)@ != (0int, 0int, 0int),
        ensures
            final(self)@ == unit3(old(self)@),
            bounded(final(self)@, ONE as int),
    {
        *self = unit_vector(self);
    }

    /// The dot product `Σ aᵢ·bᵢ` of the raw components, exact (for fixed-point
    /// vectors it carries the scale `ONE²`).
    pub fn dot(&self, other: &Vec3) -> (r: i128)
        requires
            bounded(self@, WIDE as int),
            bounded(other@, WIDE as int),
        ensures
            r == dot3(self@, other@),
    {
        proof {
            lemma_products_fit(self@, other@);
        }
        self.x as i128 * other.x as i128 + self.y as i128 * other.y as i128 + self.z as i128
            * other.z as i128
    }

    /// The cross product of the raw components, exact (for fixed-point vectors
    /// it carries the scale `ONE²`).
    pub fn cross(&self, other: &Vec3) -> (r: Vec3)
        requires
            bounded(self@, WIDE as int),
            bounded(other@, WIDE as int),
            fits3(cross3(self@, other@)),
        ensures
            r@ == cross3(self@, other@),
    {
        proof {
            lemma_products_fit(self@, other@);
        }
        let (ax, ay, az) = (self.x as i128, self.y as i128, self.z as i128);
        let (bx, by, bz) = (other.x as i128, other.y as i128, other.z as i128);
        Vec3 {
            x: (ay * bz - az * by) as i64,
            y: (-(ax * bz - az * bx)) as i64,
            z: (ax * by - ay * bx) as i64,
        }
    }

    /// `-self`.
    pub fn neg(&self) -> (r: Vec3)
        requires
            fits3(neg3(self@)),
        ensures
            r@ == neg3(self@),
    {
        Vec3 { x: -self.x, y: -self.y, z: -self.z }
    }

    /// `self + other`.
    pub fn add(&self, other: &Vec3) -> (r: Vec3)
        requires
            fits3(add3(self@, other@)),
        ensures
            r@ == add3(self@, other@),
    {
        Vec3 { x: self.x + other.x, y: self.y + other.y, z: self.z + other.z }
    }

    /// `self` plus `s` in every component.
    pub fn add_scalar(&self, s: i64) -> (r: Vec3)
        requires
            fits3(offset3(self@, s as int)),
        ensures
            r@ == offset3(self@, s as int),
    {
        Vec3 { x: self.x + s, y: self.y + s, z: self.z + s }
    }

    /// `self - other`.
    pub fn sub(&self, other: &Vec3) -> (r: Vec3)
        requires
            fits3(sub3(self@, other@)),
        ensures
            r@ == sub3(self@, other@),
    {
        Vec3 { x: self.x - other.x, y: self.y - other.y, z: self.z - other.z }
    }

    /// `self` minus `s` in every component.
    pub fn sub_scalar(&self, s: i64) -> (r: Vec3)
        requires
            fits3(offset3(self@, -s)),
        ensures
            r@ == offset3(self@, -s),
    {
        Vec3 { x: self.x - s, y: self.y - s, z: self.z - s }
    }

    /// Component-wise fixed-point product, `a·b / ONE` rounded down.
    pub fn mul(&self, other: &Vec3) -> (r: Vec3)
        requires
            fits3(times3(self@, other@)),
        ensures
            r@ == times3(self@, other@),
    {
        Vec3 {
            x: fixed_mul(self.x, other.x),
            y: fixed_mul(self.y, other.y),
            z: fixed_mul(self.z, other.z),
        }
    }

    /// Every component times the fixed-point scalar `s`: `a·s / ONE` rounded down.
    pub fn mul_scalar(&self, s: i64) -> (r: Vec3)
        requires
            fits3(times_scalar3(self@, s as int)),
        ensures
            r@ == times_scalar3(self@, s as int),
    {
        Vec3 { x: fixed_mul(self.x, s), y: fixed_mul(self.y, s), z: fixed_mul(self.z, s) }
    }

    /// Component-wise fixed-point quotient, `a·ONE / b` rounded down.
    pub fn div(&self, other: &Vec3) -> (r: Vec3)
        requires
            other.x != 0 && other.y != 0 && other.z != 0,
            fits3(div3(self@, other@)),
        ensures
            r@ == div3(self@, other@),
    {
        Vec3 {
            x: fixed_div(self.x, other.x),
            y: fixed_div(self.y, other.y),
            z: fixed_div(self.z, other.z),
        }
    }

    /// Every component divided by the fixed-point scalar `d`: `a·ONE / d` rounded down.
    pub fn div_scalar(&self, d: i64) -> (r: Vec3)
        requires
            d != 0,
            fits3(over_scalar3(self@, d as int)),
        ensures
            r@ == over_scalar3(self@, d as int),
    {
        Vec3 { x: fixed_div(self.x, d), y: fixed_div(self.y, d), z: fixed_div(self.z, d) }
    }

    /// `self += other`.
    pub fn add_assign(&mut self, other: Vec3)
        requires
            fits3(add3(old(self)@, other@)),
        ensures
            final(self)@ == add3(old(self)@, other@),
    {
        *self = self.add(&other);
    }

    /// `self += s` in every component.
    pub fn add_assign_scalar(&mut self, s: i64)
        requires
            fits3(offset3(old(self)@, s as int)),
        ensures
            final(self)@ == offset3(old(self)@, s as int),
    {
        *self = self.add_scalar(s);
    }

    /// `self -= other`.
    pub fn sub_assign(&mut self, other: Vec3)
        requires
            fits3(sub3(old(self)@, other@)),
        ensures
            final(self)@ == sub3(old(self)@, other@),
    {
        *self = self.sub(&other);
    }

    /// `self -= s` in every component.
    pub fn sub_assign_scalar(&mut self, s: i64)
        requires
            fits3(offset3(old(self)@, -s)),
        ensures
            final(self)@ == offset3(old(self)@, -s),
    {
        *self = self.sub_scalar(s);
    }

    /// `self *= other`, component-wise in fixed point.
    pub fn mul_assign(&mut self, other: Vec3)
        requires
            fits3(times3(old(self)@, other@)),
        ensures
            final(self)@ == times3(old(self)@, other@),
    {
        *self = self.mul(&other);
    }

    /// `self *= s` in every component, `s` fixed-point.
    pub fn mul_assign_scalar(&mut self, s: i64)
        requires
            fits3(times_scalar3(old(self)@, s as int)),
        ensures
            final(self)@ == times_scalar3(old(self)@, s as int),
    {
        *self = self.mul_scalar(s);
    }

    /// `self /= other`, component-wise in fixed point and rounded down.
    pub fn div_assign(&mut self, other: Vec3)
        requires
            other.x != 0 && other.y != 0 && other.z != 0,
            fits3(div3(old(self)@, other@)),
        ensures
            final(self)@ == div3(old(self)@, other@),
    {
        *self = self.div(&other);
    }

    /// `self /= d` in every component, `d` fixed-point, rounded down.
    pub fn div_assign_scalar(&mut self, d: i64)
        requires
            d != 0,
            fits3(over_scalar3(old(self)@, d as int)),
        ensures
            final(self)@ == over_scalar3(old(self)@, d as int),
    {
        *self = self.div_scalar(d);
    }
}

/// Fixed-point product of two scalars: `a·b / ONE`, rounded down.
fn fixed_mul(a: i64, b: i64) -> (r: i64)
    requires
        fits_i64(floor_div(a * b, ONE as int)),
    ensures
        r == floor_div(a * b, ONE as int),
{
    proof {
        lemma_pair_fits_wide(a as int, b as int);
    }
    floor_div_i128(a as i128 * b as i128, ONE as i128) as i64
}

/// Fixed-point quotient of two scalars: `a·ONE / b`, rounded down.
fn fixed_div(a: i64, b: i64) -> (r: i64)
    requires
        b != 0,
        fits_i64(floor_div(a * ONE, b as int)),
    ensures
        r == floor_div(a * ONE, b as int),
{
    floor_div_wide(a as i128 * ONE as i128, b as i128) as i64
}

proof fn lemma_pair_fits_wide(a: int, b: int)
    requires
        fits_i64(a),
        fits_i64(b),
    ensures
        i128::MIN < a * b <= i128::MAX,
{
    assert(-0x4000_0000_0000_0000_0000_0000_0000_0000 <= a * b <= 0x4000_0000_0000_0000_0000_0000_0000_0000)
        by (nonlinear_arith)
        requires
            -0x8000_0000_0000_0000 <= a <= 0x7fff_ffff_ffff_ffff,
            -0x8000_0000_0000_0000 <= b <= 0x7fff_ffff_ffff_ffff,
    ;
}

proof fn lemma_wide_product(a: int, b: int)
    requires
        -WIDE <= a <= WIDE,
        -WIDE <= b <= WIDE,
    ensures
        -0x1000_0000_0000_0000_0000_0000_0000_0000 <= a * b <= 0x1000_0000_0000_0000_0000_0000_0000_0000,
{
    assert(-0x1000_0000_0000_0000_0000_0000_0000_0000 <= a * b <= 0x1000_0000_0000_0000_0000_0000_0000_0000)
        by (nonlinear_arith)
        requires
            -0x4000_0000_0000_0000 <= a <= 0x4000_0000_0000_0000,
            -0x4000_0000_0000_0000 <= b <= 0x4000_0000_0000_0000,
    ;
}

proof fn lemma_products_fit(a: Triple, b: Triple)
    requires
        bounded(a, WIDE as int),
        bounded(b, WIDE as int),
    ensures
        -0x1000_0000_0000_0000_0000_0000_0000_0000 <= a.0 * b.0 <= 0x1000_0000_0000_0000_0000_0000_0000_0000,
        -0x1000_0000_0000_0000_0000_0000_0000_0000 <= a.0 * b.1 <= 0x1000_0000_0000_0000_0000_0000_0000_0000,
        -0x1000_0000_0000_0000_0000_0000_0000_0000 <= a.0 * b.2 <= 0x1000_0000_0000_0000_0000_0000_0000_0000,
        -0x1000_0000_0000_0000_0000_0000_0000_0000 <= a.1 * b.0 <= 0x1000_0000_0000_0000_0000_0000_0000_0000,
        -0x1000_0000_0000_0000_0000_0000_0000_0000 <= a.1 * b.1 <= 0x1000_0000_0000_0000_0000_0000_0000_0000,
        -0x1000_0000_0000_0000_0000_0000_0000_0000 <= a.1 * b.2 <= 0x1000_0000_0000_0000_0000_0000_0000_0000,
        -0x1000_0000_0000_0000_0000_0000_0000_0000 <= a.2 * b.0 <= 0x1000_0000_0000_0000_0000_0000_0000_0000,
        -0x1000_0000_0000_0000_0000_0000_0000_0000 <= a.2 * b.1 <= 0x1000_0000_0000_0000_0000_0000_0000_0000,
        -0x1000_0000_0000_0000_0000_0000_0000_0000 <= a.2 * b.2 <= 0x1000_0000_0000_0000_0000_0000_0000_0000,
{
    lemma_wide_product(a.0, b.0);
    lemma_wide_product(a.0, b.1);
    lemma_wide_product(a.0, b.2);
    lemma_wide_product(a.1, b.0);
    lemma_wide_product(a.1, b.1);
    lemma_wide_product(a.1, b.2);
    lemma_wide_product(a.2, b.0);
    lemma_wide_product(a.2, b.1);
    lemma_wide_product(a.2, b.2);
}

/// `v` scaled to length `ONE` (see `unit3`); `v` must not be zero.
pub fn unit_vector(v: &Vec3) -> (r: Vec3)
    requires
        bounded(v@, UNIT_LIMIT as int),
        v@ != (0int, 0int, 0int),
    ensures
        r@ == unit3(v@),
        bounded(r@, ONE as int),
{
    let one: i128 = ONE as i128;
    let (x, y, z) = (v.x as i128, v.y as i128, v.z as i128);
    proof {
        lemma_products_fit(v@, v@);
    }
    let sq: i128 = x * x + y * y + z * z;
    assert(0 < sq <= 3 * (0x2000_0000_0000 * 0x2000_0000_0000)) by (nonlinear_arith)
        requires
            sq == x * x + y * y + z * z,
            -0x2000_0000_0000 <= x <= 0x2000_0000_0000,
            -0x2000_0000_0000 <= y <= 0x2000_0000_0000,
            -0x2000_0000_0000 <= z <= 0x2000_0000_0000,
            x != 0 || y != 0 || z != 0,
    ;
    assert(x * x <= sq && y * y <= sq && z * z <= sq) by (nonlinear_arith)
        requires
            sq == x * x + y * y + z * z,
    ;
    let scaled: i128 = sq * one * one;
    let n: i128 = isqrt_u128(scaled as u128) as i128;
    proof {
        lemma_component_below_root(v.x as int, sq as int, n as int);
        lemma_component_below_root(v.y as int, sq as int, n as int);
        lemma_component_below_root(v.z as int, sq as int, n as int);
    }
    let r = Vec3 {
        x: floor_div_i128(x * one * one, n) as i64,
        y: floor_div_i128(y * one * one, n) as i64,
        z: floor_div_i128(z * one * one, n) as i64,
    };
    r
}

/// Where `n = isqrt(sq * ONE²)` and `c² <= sq`, `c * ONE² / n` lies in `[-ONE, ONE]`.
proof fn lemma_component_below_root(c: int, sq: int, n: int)
    requires
        0 < sq,
        c * c <= sq,
        crate::fixed::is_isqrt(sq * ONE * ONE, n),
    ensures
        n >= ONE,
        -(ONE as int) <= floor_div(c * ONE * ONE, n) <= ONE,
{
    let k = ONE as int;
    assert(k * k <= sq * k * k) by (nonlinear_arith)
        requires
            sq >= 1,
            k == 10000,
    ;
    assert(n >= k) by (nonlinear_arith)
        requires
            k * k <= sq * k * k,
            sq * k * k < (n + 1) * (n + 1),
            n >= 0,
            k == 10000,
    ;
    let a = if c >= 0 { c } else { -c };
    assert(a * a == c * c) by (nonlinear_arith)
        requires
            a == c || a == -c,
    ;
    assert(a * k <= n) by (nonlinear_arith)
        requires
            a >= 0,
            a * a <= sq,
            sq * k * k < (n + 1) * (n + 1),
            n >= 0,
            k == 10000,
    ;
    assert(-k <= (c * k * k) / n <= k) by (nonlinear_arith)
        requires
            n > 0,
            -(n as int) <= c * k <= n,
            k == 10000,
    ;
}

/// The dot product of vectors bounded by `b1` and `b2` is at most `3·b1·b2` in magnitude.
pub proof fn lemma_dot_bound(u: Triple, v: Triple, b1: int, b2: int)
    requires
        bounded(u, b1),
        bounded(v, b2),
    ensures
        -(3 * (b1 * b2)) <= dot3(u, v) <= 3 * (b1 * b2),
{
    assert(-(b1 * b2) <= u.0 * v.0 <= b1 * b2) by (nonlinear_arith)
        requires
            -b1 <= u.0 <= b1,
            -b2 <= v.0 <= b2,
    ;
    assert(-(b1 * b2) <= u.1 * v.1 <= b1 * b2) by (nonlinear_arith)
        requires
            -b1 <= u.1 <= b1,
            -b2 <= v.1 <= b2,
    ;
    assert(-(b1 * b2) <= u.2 * v.2 <= b1 * b2) by (nonlinear_arith)
        requires
            -b1 <= u.2 <= b1,
            -b2 <= v.2 <= b2,
    ;
}

/// A vector's dot product with itself is never negative.
pub proof fn lemma_dot_self_nonnegative(u: Triple)
    ensures
        dot3(u, u) >= 0,
{
    assert(u.0 * u.0 + u.1 * u.1 + u.2 * u.2 >= 0) by (nonlinear_arith);
}

/// Only the zero vector has a zero dot product with itself.
pub proof fn lemma_dot_self_zero(u: Triple)
    requires
        dot3(u, u) == 0,
    ensures
        u == (0int, 0int, 0int),
{
    assert(u.0 * u.0 >= 0 && u.1 * u.1 >= 0 && u.2 * u.2 >= 0) by (nonlinear_arith);
    assert(u.0 == 0) by (nonlinear_arith)
        requires
            u.0 * u.0 == 0,
    ;
    assert(u.1 == 0) by (nonlinear_arith)
        requires
            u.1 * u.1 == 0,
    ;
    assert(u.2 == 0) by (nonlinear_arith)
        requires
            u.2 * u.2 == 0,
    ;
}

/// The vector whose components are those of `t`, each taken as an `i64`.
pub open spec fn to_vec3(t: Triple) -> Vec3 {
    Vec3 { x: t.0 as i64, y: t.1 as i64, z: t.2 as i64 }
}

/// Adding `b` and then subtracting it again gives back `a`.
pub proof fn lemma_add_then_sub(a: Vec3, b: Vec3)
    ensures
        sub3(add3(a@, b@), b@) == a@,
{
}

/// The dot product does not depend on the order of its factors.
pub proof fn lemma_dot_symmetric(a: Vec3, b: Vec3)
    ensures
        dot3(a@, b@) == dot3(b@, a@),
{
    assert(dot3(a@, b@) == dot3(b@, a@)) by (nonlinear_arith);
}

/// The cross product is orthogonal to both of its factors.
pub proof fn lemma_cross_orthogonal(a: Vec3, b: Vec3)
    ensures
        dot3(cross3(a@, b@), a@) == 0,
        dot3(cross3(a@, b@), b@) == 0,
{
    let (a0, a1, a2) = (a.x as int, a.y as int, a.z as int);
    let (b0, b1, b2) = (b.x as int, b.y as int, b.z as int);
    assert((a1 * b2 - a2 * b1) * a0 + (-(a0 * b2 - a2 * b0)) * a1 + (a0 * b1 - a1 * b0) * a2 == 0)
        by (nonlinear_arith);
    assert((a1 * b2 - a2 * b1) * b0 + (-(a0 * b2 - a2 * b0)) * b1 + (a0 * b1 - a1 * b0) * b2 == 0)
        by (nonlinear_arith);
}

/// Rounding a quotient down moves its square by at most `2n²k + n²` (scaled by `n²`).
proof fn lemma_rounded_square(q: int, n: int, k: int)
    requires
        n > 0,
        k > 0,
        -(n * k) <= q <= n * k,
    ensures
        q * q - 2 * n * n * k <= n * n * ((q / n) * (q / n)),
        n * n * ((q / n) * (q / n)) <= q * q + 2 * n * n * k + n * n,
{
    let u = q / n;
    lemma_fundamental_div_mod(q, n);
    let w = n * u;
    assert(w <= q && q < w + n);
    assert(n * n * (u * u) == w * w) by (nonlinear_arith)
        requires
            w == n * u,
    ;
    assert(w * w <= q * q + 2 * n * n * k + n * n) by (nonlinear_arith)
        requires
            w <= q,
            q < w + n,
            n > 0,
            k > 0,
            -(n * k) <= q <= n * k,
    ;
    assert(w * w >= q * q - 2 * n * n * k) by (nonlinear_arith)
        requires
            w <= q,
            q < w + n,
            n > 0,
            k > 0,
            -(n * k) <= q <= n * k,
    ;
}

/// A non-zero vector scaled by `unit_vector` has length `ONE` up to rounding:
/// its squared length lies within `[ONE² - 6·ONE, ONE² + 10·ONE]`.
pub proof fn lemma_unit_vector_length(a: Vec3)
    requires
        bounded(a@, UNIT_LIMIT as int),
        a@ != (0int, 0int, 0int),
    ensures
        ONE * ONE - 6 * ONE <= dot3(unit3(a@), unit3(a@)) <= ONE * ONE + 10 * ONE,
{
    lemma_unit_length(a@);
}

/// `unit3` of a non-zero vector within `UNIT_LIMIT` has components within
/// `[-ONE, ONE]` and squared length within `[ONE² - 6·ONE, ONE² + 10·ONE]`.
pub proof fn lemma_unit_length(a: Triple)
    requires
        bounded(a, UNIT_LIMIT as int),
        a != (0int, 0int, 0int),
    ensures
        bounded(unit3(a), ONE as int),
        ONE * ONE - 6 * ONE <= dot3(unit3(a), unit3(a)) <= ONE * ONE + 10 * ONE,
{
    let k = ONE as int;
    let (a0, a1, a2) = (a.0, a.1, a.2);
    let sq = dot3(a, a);
    assert(0 < sq) by (nonlinear_arith)
        requires
            sq == a0 * a0 + a1 * a1 + a2 * a2,
            a0 != 0 || a1 != 0 || a2 != 0,
    ;
    assert(a0 * a0 <= sq && a1 * a1 <= sq && a2 * a2 <= sq) by (nonlinear_arith)
        requires
            sq == a0 * a0 + a1 * a1 + a2 * a2,
    ;
    let n = isqrt(sq * k * k);
    assert(sq * k * k >= 0) by (nonlinear_arith)
        requires
            sq > 0,
            k > 0,
    ;
    lemma_isqrt_is_root(sq * k * k);
    lemma_component_below_root(a0, sq, n);
    lemma_component_below_root(a1, sq, n);
    lemma_component_below_root(a2, sq, n);
    let (q0, q1, q2) = (a0 * k * k, a1 * k * k, a2 * k * k);
    lemma_scaled_component(a0, n, k, sq);
    lemma_scaled_component(a1, n, k, sq);
    lemma_scaled_component(a2, n, k, sq);
    lemma_rounded_square(q0, n, k);
    lemma_rounded_square(q1, n, k);
    lemma_rounded_square(q2, n, k);
    let (u0, u1, u2) = (q0 / n, q1 / n, q2 / n);
    assert(unit3(a) == (u0, u1, u2));
    let usq = u0 * u0 + u1 * u1 + u2 * u2;
    let qsq = q0 * q0 + q1 * q1 + q2 * q2;
    let k4 = k * k * k * k;
    assert(q0 * q0 == a0 * a0 * k4 && q1 * q1 == a1 * a1 * k4 && q2 * q2 == a2 * a2 * k4)
        by (nonlinear_arith)
        requires
            q0 == a0 * k * k,
            q1 == a1 * k * k,
            q2 == a2 * k * k,
            k4 == k * k * k * k,
    ;
    assert(qsq == sq * k4) by (nonlinear_arith)
        requires
            qsq == a0 * a0 * k4 + a1 * a1 * k4 + a2 * a2 * k4,
            sq == a0 * a0 + a1 * a1 + a2 * a2,
    ;
    assert(sq * k4 == sq * k * k * k * k) by (nonlinear_arith)
        requires
            k4 == k * k * k * k,
    ;
    assert(n * n * usq == n * n * (u0 * u0) + n * n * (u1 * u1) + n * n * (u2 * u2)) by (nonlinear_arith)
        requires
            usq == u0 * u0 + u1 * u1 + u2 * u2,
    ;
    // sq·k² lies in [n², (n+1)²), so qsq lies in [k²n², k²(n+1)²).
    assert(k * k * (n * n) <= qsq && qsq < k * k * ((n + 1) * (n + 1))) by (nonlinear_arith)
        requires
            qsq == sq * k * k * k * k,
            n * n <= sq * k * k,
            sq * k * k < (n + 1) * (n + 1),
            k > 0,
    ;
    assert(n * n * usq <= qsq + 6 * n * n * k + 3 * n * n && n * n * usq >= qsq - 6 * n * n * k)
        by (nonlinear_arith)
        requires
            q0 * q0 - 2 * n * n * k <= n * n * (u0 * u0),
            n * n * (u0 * u0) <= q0 * q0 + 2 * n * n * k + n * n,
            q1 * q1 - 2 * n * n * k <= n * n * (u1 * u1),
            n * n * (u1 * u1) <= q1 * q1 + 2 * n * n * k + n * n,
            q2 * q2 - 2 * n * n * k <= n * n * (u2 * u2),
            n * n * (u2 * u2) <= q2 * q2 + 2 * n * n * k + n * n,
            n * n * usq == n * n * (u0 * u0) + n * n * (u1 * u1) + n * n * (u2 * u2),
            qsq == q0 * q0 + q1 * q1 + q2 * q2,
    ;
    assert(n * n * (k * k - 6 * k) <= n * n * usq) by (nonlinear_arith)
        requires
            n * n * usq >= qsq - 6 * n * n * k,
            k * k * (n * n) <= qsq,
    ;
    assert(n * n * usq <= n * n * (k * k + 10 * k)) by (nonlinear_arith)
        requires
            n * n * usq <= qsq + 6 * n * n * k + 3 * n * n,
            qsq < k * k * ((n + 1) * (n + 1)),
            n >= k,
            k == 10000,
    ;
    assert(k * k - 6 * k <= usq <= k * k + 10 * k) by (nonlinear_arith)
        requires
            n * n * (k * k - 6 * k) <= n * n * usq,
            n * n * usq <= n * n * (k * k + 10 * k),
            n > 0,
    ;
}

/// `|c|·k² <= n·k`, given `|c|·k <= n`.
proof fn lemma_scaled_component(c: int, n: int, k: int, sq: int)
    requires
        k > 0,
        n >= k,
        c * c <= sq,
        sq * k * k < (n + 1) * (n + 1),
        n >= 0,
        k == 10000,
    ensures
        -(n * k) <= c * k * k <= n * k,
{
    let a = if c >= 0 { c } else { -c };
    assert(a * a == c * c) by (nonlinear_arith)
        requires
            a == c || a == -c,
    ;
    assert(a * k <= n) by (nonlinear_arith)
        requires
            a >= 0,
            a * a <= sq,
            sq * k * k < (n + 1) * (n + 1),
            n >= 0,
            k > 0,
    ;
    assert(a * k * k <= n * k) by (nonlinear_arith)
        requires
            a * k <= n,
            k > 0,
    ;
    assert(c * k * k == a * k * k || c * k * k == -(a * k * k)) by (nonlinear_arith)
        requires
            a == c || a == -c,
    ;
}

/// An RGB colour; each channel is a fixed-point number where `ONE` is full intensity.
#[derive(Clone, Copy, Debug, PartialEq, Eq, Structural)]
pub struct RGB {
    pub data: Vec3,
}

impl RGB {
    pub fn zero() -> (r: RGB)
        ensures
            r.data@ == (0int, 0int, 0int),
    {
        RGB { data: Vec3::zero() }
    }

    pub fn new(vec: Vec3) -> (r: RGB)
        ensures
            r.data == vec,
    {
        RGB { data: vec }
    }

    pub fn new_r_g_b(r: i64, g: i64, b: i64) -> (c: RGB)
        ensures
            c.data@ == (r as int, g as int, b as int),
    {
        RGB { data: Vec3::new(r, g, b) }
    }

    pub fn r(&self) -> (r: i64)
        ensures
            r == self.data.x,
    {
        self.data.x
    }

    pub fn g(&self) -> (g: i64)
        ensures
            g == self.data.y,
    {
        self.data.y
    }

    pub fn b(&self) -> (b: i64)
        ensures
            b == self.data.z,
    {
        self.data.z
    }

    pub fn vec3(&self) -> (v: &Vec3)
        ensures
            *v == self.data,
    {
        &self.data
    }
}

/// A point or a direction in space.
#[derive(Clone, Copy, Debug, PartialEq, Eq, Structural)]
pub struct XYZ {
    pub data: Vec3,
}

impl XYZ {
    pub fn zero() -> (p: XYZ)
        ensures
            p.data@ == (0int, 0int, 0int),
    {
        XYZ { data: Vec3::zero() }
    }

    pub fn new(vec: Vec3) -> (p: XYZ)
        ensures
            p.data == vec,
    {
        XYZ { data: vec }
    }

    pub fn new_x_y_z(x: i64, y: i64, z: i64) -> (p: XYZ)
        ensures
            p.data@ == (x as int, y as int, z as int),
    {
        XYZ { data: Vec3::new(x, y, z) }
    }

    pub fn vec3(&self) -> (v: &Vec3)
        ensures
            *v == self.data,
    {
        &self.data
    }

    pub fn x(&self) -> (x: i64)
        ensures
            x == self.data.x,
    {
        self.data.x
    }

    pub fn y(&self) -> (y: i64)
        ensures
            y == self.data.y,
    {
        self.data.y
    }

    pub fn z(&self) -> (z: i64)
        ensures
            z == self.data.z,
    {
        self.data.z
    }
}

} // verus!
