use raytracer_rs::fixed::ONE;
use raytracer_rs::vec3::{unit_vector, Vec3, RGB, XYZ};

#[test]
fn create_vec_works() {
    let v = Vec3::new(ONE, 2 * ONE, 3 * ONE);
    assert_eq!(v.index(0), ONE);
    assert_eq!(v.index(1), 2 * ONE);
    assert_eq!(v.index(2), 3 * ONE);

    let v = Vec3::zero();
    assert_eq!(v.index(0), 0);
    assert_eq!(v.index(1), 0);
    assert_eq!(v.index(2), 0);
}

#[test]
fn add_assign_works() {
    let mut v1 = Vec3::new(ONE, 2 * ONE, 3 * ONE);
    let v2 = Vec3::new(2 * ONE, 3 * ONE, 4 * ONE);

    v1.add_assign(v2);

    assert_eq!(v1.index(0), 3 * ONE);
    assert_eq!(v1.index(1), 5 * ONE);
    assert_eq!(v1.index(2), 7 * ONE);

    v1.add_assign_scalar(ONE);
    assert_eq!(v1.index(0), 4 * ONE);
    assert_eq!(v1.index(1), 6 * ONE);
    assert_eq!(v1.index(2), 8 * ONE);
}

#[test]
fn mult_assign_works() {
    let mut v1 = Vec3::new(ONE, 2 * ONE, 3 * ONE);
    let v2 = Vec3::new(2 * ONE, 3 * ONE, 4 * ONE);

    v1.mul_assign(v2);

    assert_eq!(v1.index(0), 2 * ONE);
    assert_eq!(v1.index(1), 6 * ONE);
    assert_eq!(v1.index(2), 12 * ONE);

    v1.mul_assign_scalar(2 * ONE);
    assert_eq!(v1.index(0), 4 * ONE);
    assert_eq!(v1.index(1), 12 * ONE);
    assert_eq!(v1.index(2), 24 * ONE);
}

#[test]
fn div_assign_works() {
    let mut v1 = Vec3::new(ONE, 2 * ONE, 3 * ONE);
    let v2 = Vec3::new(2 * ONE, 3 * ONE, 4 * ONE);

    v1.div_assign(v2);

    assert_eq!(v1.index(0), ONE / 2);
    assert_eq!(v1.index(1), 2 * ONE / 3);
    assert_eq!(v1.index(2), 3 * ONE / 4);

    v1.div_assign_scalar(ONE / 2);

    assert_eq!(v1.index(0), 2 * ONE / 2);
    // 4/3 in fixed point: twice the rounded-down 2/3.
    assert_eq!(v1.index(1), 2 * (2 * ONE / 3));
    assert_eq!(v1.index(2), 6 * ONE / 4);
}

#[test]
fn division_rounds_down() {
    let q = Vec3::new(1, -1, 2).div(&Vec3::new(3 * ONE, 3 * ONE, 3 * ONE));
    assert_eq!(q, Vec3::new(0, -1, 0));
    let q = Vec3::new(ONE, -ONE, 3).div_scalar(-2 * ONE);
    assert_eq!(q, Vec3::new(-ONE / 2, ONE / 2, -2));
    let p = Vec3::new(3, -3, 1).mul(&Vec3::new(ONE / 2, ONE / 2, ONE / 2));
    assert_eq!(p, Vec3::new(1, -2, 0));
}

#[test]
fn sub_assign_and_neg() {
    let mut v = Vec3::new(5, 5, 5);
    v.sub_assign(Vec3::new(1, 2, 3));
    assert_eq!(v, Vec3::new(4, 3, 2));
    v.sub_assign_scalar(2);
    assert_eq!(v, Vec3::new(2, 1, 0));
    assert_eq!(v.neg(), Vec3::new(-2, -1, 0));
}

#[test]
fn set_replaces_one_component() {
    let mut v = Vec3::new(1, 2, 3);
    v.set(1, 9);
    assert_eq!(v, Vec3::new(1, 9, 3));
}

#[test]
fn add_then_sub_gives_back_vector() {
    let a = Vec3::new(-3, 17, 250_000);
    let b = Vec3::new(12, -40, 7);
    assert_eq!(a.add(&b).sub(&b), a);
}

#[test]
fn dot_is_symmetric() {
    let a = Vec3::new(3, -4, 5);
    let b = Vec3::new(-7, 2, 11);
    assert_eq!(a.dot(&b), 3 * -7 + -4 * 2 + 5 * 11);
    assert_eq!(a.dot(&b), b.dot(&a));
}

#[test]
fn cross_is_orthogonal() {
    let x = Vec3::new(1, 0, 0);
    let y = Vec3::new(0, 1, 0);
    assert_eq!(x.cross(&y), Vec3::new(0, 0, 1));

    let a = Vec3::new(3, -4, 5);
    let b = Vec3::new(-7, 2, 11);
    let c = a.cross(&b);
    assert_eq!(c, Vec3::new(-54, -68, -22));
    assert_eq!(c.dot(&a), 0);
    assert_eq!(c.dot(&b), 0);
}

#[test]
fn unit_vector_has_length_one() {
    let u = unit_vector(&Vec3::new(3, 4, 0));
    assert_eq!(u, Vec3::new(3 * ONE / 5, 4 * ONE / 5, 0));

    let u = unit_vector(&Vec3::new(0, -7, 0));
    assert_eq!(u, Vec3::new(0, -ONE, 0));

    let one = ONE as i128;
    for v in [Vec3::new(1, 1, 0), Vec3::new(-3, 5, 11), Vec3::new(123_456, -7, 99_999), Vec3::new(1, 1, 1)] {
        let u = unit_vector(&v);
        let len2 = u.dot(&u);
        assert!(one * one - 6 * one <= len2 && len2 <= one * one + 10 * one, "{:?} -> {:?}", v, u);
    }
}

#[test]
fn make_unit_vector_in_place() {
    let mut v = Vec3::new(0, 0, -2 * ONE);
    v.make_unit_vector();
    assert_eq!(v, Vec3::new(0, 0, -ONE));
}

#[test]
fn scalar_operations() {
    let v = Vec3::new(2 * ONE, -3 * ONE, 4 * ONE);
    assert_eq!(v.add_scalar(ONE), Vec3::new(3 * ONE, -2 * ONE, 5 * ONE));
    assert_eq!(v.sub_scalar(ONE), Vec3::new(ONE, -4 * ONE, 3 * ONE));
    assert_eq!(v.mul_scalar(-2 * ONE), Vec3::new(-4 * ONE, 6 * ONE, -8 * ONE));
    assert_eq!(v.div_scalar(2 * ONE), Vec3::new(ONE, -3 * ONE / 2, 2 * ONE));
    let two = Vec3::new(2 * ONE, 2 * ONE, 2 * ONE);
    assert_eq!(v.mul(&two), Vec3::new(4 * ONE, -6 * ONE, 8 * ONE));
    assert_eq!(v.div(&Vec3::new(2 * ONE, 2 * ONE, 3 * ONE)), Vec3::new(ONE, -3 * ONE / 2, 4 * ONE / 3));
}

#[test]
fn colour_and_point_wrappers() {
    let c = RGB::new_r_g_b(1, 2, 3);
    assert_eq!((c.r(), c.g(), c.b()), (1, 2, 3));
    assert_eq!(*c.vec3(), Vec3::new(1, 2, 3));
    assert_eq!(RGB::zero(), RGB::new(Vec3::zero()));

    let p = XYZ::new_x_y_z(4, 5, 6);
    assert_eq!((p.x(), p.y(), p.z()), (4, 5, 6));
    assert_eq!(*p.vec3(), Vec3::new(4, 5, 6));
    assert_eq!(XYZ::zero(), XYZ::new(Vec3::zero()));
}
