use raytracer_rs::camera::Camera;
use raytracer_rs::fixed::ONE;
use raytracer_rs::hitable::{HitRecord, Hitable};
use raytracer_rs::hitable_list::HitableList;
use raytracer_rs::ray::{Ray, FAR};
use raytracer_rs::sphere::Sphere;
use raytracer_rs::vec3::{Vec3, XYZ};

fn sphere(x: i64, y: i64, z: i64, r: i64) -> Sphere {
    Sphere::new(XYZ::new_x_y_z(x, y, z), r).unwrap()
}

#[test]
fn point_at_parameter_walks_the_ray() {
    let ray = Ray::new(Vec3::new(ONE, 2 * ONE, 3 * ONE), Vec3::new(ONE, 0, -ONE / 2));
    assert_eq!(ray.point_at_parameter(2 * ONE), Vec3::new(3 * ONE, 2 * ONE, 2 * ONE));
    assert_eq!(ray.point_at_parameter(-ONE), Vec3::new(0, 2 * ONE, 3 * ONE + ONE / 2));
    assert_eq!(*ray.origin(), Vec3::new(ONE, 2 * ONE, 3 * ONE));
    assert_eq!(*ray.direction(), Vec3::new(ONE, 0, -ONE / 2));
}

#[test]
fn sphere_new_validates() {
    assert!(Sphere::new(XYZ::new_x_y_z(0, 0, -ONE), ONE / 2).is_some());
    assert!(Sphere::new(XYZ::new_x_y_z(0, 0, -ONE), 0).is_none());
    assert!(Sphere::new(XYZ::new_x_y_z(0, 0, -ONE), -1).is_none());
    assert!(Sphere::new(XYZ::new_x_y_z(0, 0, i64::MAX), 1).is_none());
    assert_eq!(sphere(0, 0, -ONE, ONE / 2).radius(), ONE / 2);
}

#[test]
fn ray_at_center_hits_nearer_root() {
    let s = sphere(0, 0, -ONE, ONE / 2);
    let ray = Ray::new(Vec3::zero(), Vec3::new(0, 0, -ONE));
    let mut rec = HitRecord::new();
    assert!(s.hit(&ray, 0, FAR, &mut rec));
    assert_eq!(rec.t, ONE / 2);
    assert_eq!(rec.point, Vec3::new(0, 0, -ONE / 2));
    assert_eq!(rec.normal, Vec3::new(0, 0, ONE));
}

#[test]
fn farther_root_when_nearer_is_excluded() {
    let s = sphere(0, 0, -ONE, ONE / 2);
    let ray = Ray::new(Vec3::zero(), Vec3::new(0, 0, -ONE));
    let mut rec = HitRecord::new();
    assert!(s.hit(&ray, ONE, FAR, &mut rec));
    assert_eq!(rec.t, 3 * ONE / 2);
    assert_eq!(rec.normal, Vec3::new(0, 0, -ONE));
    let mut rec = HitRecord::new();
    assert!(!s.hit(&ray, 0, ONE / 2, &mut rec));
    assert!(!s.hit(&ray, 2 * ONE, FAR, &mut rec));
}

#[test]
fn missing_ray_leaves_record() {
    let s = sphere(0, 0, -ONE, ONE / 2);
    let ray = Ray::new(Vec3::new(ONE, 0, 0), Vec3::new(0, 0, -ONE));
    let mut rec = HitRecord { t: 7, point: Vec3::new(1, 2, 3), normal: Vec3::new(4, 5, 6) };
    assert!(!s.hit(&ray, 0, FAR, &mut rec));
    assert_eq!(rec, HitRecord { t: 7, point: Vec3::new(1, 2, 3), normal: Vec3::new(4, 5, 6) });
}

#[test]
fn tangent_ray_is_a_miss() {
    let s = sphere(0, 0, -ONE, ONE / 2);
    let ray = Ray::new(Vec3::new(-2 * ONE, ONE / 2, -ONE), Vec3::new(ONE, 0, 0));
    let mut rec = HitRecord::new();
    assert!(!s.hit(&ray, -FAR, FAR, &mut rec));
}

#[test]
fn zero_direction_is_a_miss() {
    let s = sphere(0, 0, 0, ONE);
    let ray = Ray::new(Vec3::zero(), Vec3::zero());
    let mut rec = HitRecord::new();
    assert!(!s.hit(&ray, -FAR, FAR, &mut rec));
}

#[test]
fn list_reports_nearest_regardless_of_order() {
    let near = sphere(0, 0, -ONE, ONE / 2);
    let far = sphere(0, 0, -3 * ONE, ONE);
    let ray = Ray::new(Vec3::zero(), Vec3::new(0, 0, -ONE));

    let mut a = HitableList::new();
    a.add(near);
    a.add(far);
    let mut b = HitableList::new();
    b.add(far);
    b.add(near);

    let mut ra = HitRecord::new();
    let mut rb = HitRecord::new();
    assert!(a.hit(&ray, 0, FAR, &mut ra));
    assert!(b.hit(&ray, 0, FAR, &mut rb));
    assert_eq!(ra.t, ONE / 2);
    assert_eq!(ra, rb);
}

#[test]
fn list_without_hit() {
    let mut world = HitableList::new();
    let ray = Ray::new(Vec3::zero(), Vec3::new(0, 0, -ONE));
    let mut rec = HitRecord::new();
    assert!(!world.hit(&ray, 0, FAR, &mut rec));
    world.add(sphere(0, 5 * ONE, -ONE, ONE / 2));
    assert!(!world.hit(&ray, 0, FAR, &mut rec));
    assert_eq!(rec, HitRecord::new());
}

#[test]
fn camera_rays_span_the_viewport() {
    let cam = Camera::new();
    let r = cam.get_ray(0, 0);
    assert_eq!(r.origin, Vec3::zero());
    assert_eq!(r.direction, Vec3::new(-2 * ONE, -ONE, -ONE));
    let r = cam.get_ray(ONE, ONE);
    assert_eq!(r.direction, Vec3::new(2 * ONE, ONE, -ONE));
    let r = cam.get_ray(ONE / 2, ONE / 2);
    assert_eq!(r.direction, Vec3::new(0, 0, -ONE));
}

#[test]
fn camera_with_viewport_validates() {
    let origin = XYZ::new_x_y_z(ONE, 0, 0);
    let corner = XYZ::new_x_y_z(-ONE, -ONE, -2 * ONE);
    let across = XYZ::new_x_y_z(4 * ONE, 0, 0);
    let up = XYZ::new_x_y_z(0, 2 * ONE, 0);
    let cam = Camera::with_viewport(origin, corner, across, up).unwrap();
    assert_eq!(cam.get_ray(0, 0).direction, Vec3::new(-2 * ONE, -ONE, -2 * ONE));
    assert!(Camera::with_viewport(origin, corner, XYZ::new_x_y_z(4 * ONE, 0, 1), up).is_none());
    assert!(Camera::with_viewport(origin, XYZ::new_x_y_z(-ONE, -ONE, 0), across, up).is_none());
}

#[test]
fn small_sphere_normal_has_unit_length() {
    let s = sphere(0, 0, -ONE, 2);
    let ray = Ray::new(Vec3::zero(), Vec3::new(0, 0, -3 * ONE));
    let mut rec = HitRecord::new();
    assert!(s.hit(&ray, 0, FAR, &mut rec));
    assert_eq!(rec.t, ONE / 3 - 1);
    assert_eq!(rec.normal, Vec3::new(0, 0, ONE));
}

#[test]
fn oblique_hit_normal_has_unit_length() {
    let s = sphere(ONE / 3, -ONE / 7, -2 * ONE, ONE / 2);
    let ray = Ray::new(Vec3::new(0, 0, 0), Vec3::new(ONE / 5, 0, -ONE));
    let mut rec = HitRecord::new();
    assert!(s.hit(&ray, 0, FAR, &mut rec));
    let n = rec.normal;
    let len2 = n.dot(&n);
    let one = ONE as i128;
    assert!(one * one - 6 * one <= len2 && len2 <= one * one + 10 * one, "{:?}", n);
    assert!(n.z > 0);
}
