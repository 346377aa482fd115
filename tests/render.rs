use rand::rngs::StdRng;
use rand::SeedableRng;
use raytracer_rs::camera::Camera;
use raytracer_rs::fixed::ONE;
use raytracer_rs::hitable_list::HitableList;
use raytracer_rs::ray::Ray;
use raytracer_rs::render::{color, draw_offsets, gradient_image, quantize, render, sample_pixel, Pixel};
use raytracer_rs::sphere::Sphere;
use raytracer_rs::vec3::{Vec3, XYZ};

fn two_sphere_world() -> HitableList {
    let mut world = HitableList::new();
    world.add(Sphere::new(XYZ::new_x_y_z(0, 0, -ONE), ONE / 2).unwrap());
    world.add(Sphere::new(XYZ::new_x_y_z(0, -100 * ONE - ONE / 2, -ONE), 100 * ONE).unwrap());
    world
}

#[test]
fn quantize_clamps_and_scales() {
    assert_eq!(quantize(-5), 0);
    assert_eq!(quantize(0), 0);
    assert_eq!(quantize(ONE / 2), 127);
    assert_eq!(quantize(ONE), 255);
    assert_eq!(quantize(3 * ONE), 255);
    assert_eq!(quantize(ONE / 5), 51);
}

#[test]
fn background_gradient() {
    let world = HitableList::new();
    let up = color(&Ray::new(Vec3::zero(), Vec3::new(0, ONE, 0)), &world);
    assert_eq!(*up.vec3(), Vec3::new(ONE / 2, 7 * ONE / 10, ONE));
    let down = color(&Ray::new(Vec3::zero(), Vec3::new(0, -ONE, 0)), &world);
    assert_eq!(*down.vec3(), Vec3::new(ONE, ONE, ONE));
    let level = color(&Ray::new(Vec3::zero(), Vec3::new(0, 0, -ONE)), &world);
    assert_eq!(*level.vec3(), Vec3::new(3 * ONE / 4, 17 * ONE / 20, ONE));
}

#[test]
fn surface_shading_from_normal() {
    let world = two_sphere_world();
    let c = color(&Ray::new(Vec3::zero(), Vec3::new(0, 0, -ONE)), &world);
    assert_eq!(*c.vec3(), Vec3::new(ONE / 2, ONE / 2, ONE));
}

#[test]
fn equal_offsets_average_to_one_sample() {
    let cam = Camera::new();
    let world = two_sphere_world();
    let one = vec![(ONE / 3, ONE / 7)];
    let many = vec![(ONE / 3, ONE / 7); 16];
    for (i, j) in [(0, 0), (100, 50), (199, 99), (17, 80)] {
        assert_eq!(
            sample_pixel(&cam, &world, 200, 100, i, j, &one),
            sample_pixel(&cam, &world, 200, 100, i, j, &many)
        );
    }
}

#[test]
fn averaged_pixel_lies_between_its_samples() {
    let cam = Camera::new();
    let world = two_sphere_world();
    let low = sample_pixel(&cam, &world, 200, 100, 10, 99, &vec![(0, 0)]);
    let high = sample_pixel(&cam, &world, 200, 100, 10, 99, &vec![(ONE - 1, ONE - 1)]);
    let mixed = sample_pixel(&cam, &world, 200, 100, 10, 99, &vec![(0, 0), (ONE - 1, ONE - 1)]);
    for (a, m, b) in [(low.r, mixed.r, high.r), (low.g, mixed.g, high.g), (low.b, mixed.b, high.b)] {
        assert!(a.min(b) <= m && m <= a.max(b));
    }
}

#[test]
fn background_pixel_converges_with_more_samples() {
    let cam = Camera::new();
    let world = HitableList::new();
    let mut rng = StdRng::seed_from_u64(11);
    let centre = sample_pixel(&cam, &world, 200, 100, 100, 99, &vec![(ONE / 2, ONE / 2)]);
    for n in [1u32, 10, 100] {
        let offsets = draw_offsets(&mut rng, n);
        assert_eq!(offsets.len(), n as usize);
        let p = sample_pixel(&cam, &world, 200, 100, 100, 99, &offsets);
        assert!((p.r as i32 - centre.r as i32).abs() <= 1, "{:?} {:?}", p, centre);
        assert!((p.g as i32 - centre.g as i32).abs() <= 1, "{:?} {:?}", p, centre);
        assert_eq!(p.b, 255);
    }
}

#[test]
fn two_sphere_scene() {
    let cam = Camera::new();
    let world = two_sphere_world();
    let mut rng = StdRng::seed_from_u64(42);
    let image = render(&cam, &world, 200, 100, 1, &mut rng);
    assert_eq!(image.len(), 200 * 100);

    // The top row sees only sky: blue channel full, red below green.
    for p in &image[0..200] {
        assert_eq!(p.b, 255);
        assert!(p.r < p.g && p.g < p.b, "{:?}", p);
    }
    let top_centre = image[100];
    assert!((top_centre.r as i32 - 146).abs() <= 2, "{:?}", top_centre);
    assert!((top_centre.g as i32 - 190).abs() <= 2, "{:?}", top_centre);

    // The centre of the image is the small sphere, facing the camera.
    let centre = image[(99 - 50) * 200 + 100];
    assert!(centre.r >= 120 && centre.r <= 135, "{:?}", centre);
    assert!(centre.g >= 120 && centre.g <= 135, "{:?}", centre);
    assert_eq!(centre.b, 255);
    assert_ne!(centre, top_centre);

    // The bottom row is the ground sphere, whose normal points up.
    let ground = image[99 * 200 + 100];
    assert!(ground.g > 240 && ground.r < 140 && ground.b < 140, "{:?}", ground);
}

#[test]
fn corner_pixels_render_for_any_size() {
    let cam = Camera::new();
    let world = two_sphere_world();
    let mut rng = StdRng::seed_from_u64(3);
    for (w, h) in [(1u32, 1u32), (1, 5), (7, 1), (3, 2)] {
        let image = render(&cam, &world, w, h, 2, &mut rng);
        assert_eq!(image.len(), (w * h) as usize);
    }
    let offsets = vec![(ONE - 1, ONE - 1)];
    let _ = sample_pixel(&cam, &world, 200, 100, 0, 0, &offsets);
    let _ = sample_pixel(&cam, &world, 200, 100, 199, 99, &offsets);
    assert!(render(&cam, &world, 0, 4, 1, &mut rng).is_empty());
}

#[test]
fn seeded_render_is_reproducible() {
    let cam = Camera::new();
    let world = two_sphere_world();
    let first = render(&cam, &world, 40, 20, 3, &mut StdRng::seed_from_u64(9));
    let second = render(&cam, &world, 40, 20, 3, &mut StdRng::seed_from_u64(9));
    assert_eq!(first, second);
}

#[test]
fn gradient_corners() {
    let image = gradient_image(200, 100);
    assert_eq!(image.len(), 20_000);
    assert_eq!(image[0], Pixel { r: 0, g: 253, b: 51 });
    assert_eq!(image[19_999], Pixel { r: 254, g: 0, b: 51 });
    assert_eq!(image[199], Pixel { r: 254, g: 253, b: 51 });
}

#[test]
fn drawn_offsets_lie_in_a_pixel() {
    let mut rng = StdRng::seed_from_u64(5);
    let offsets = draw_offsets(&mut rng, 64);
    assert_eq!(offsets.len(), 64);
    for &(du, dv) in &offsets {
        assert!((0..ONE).contains(&du) && (0..ONE).contains(&dv));
    }
    assert!(offsets.iter().any(|&o| o != offsets[0]));
}

#[test]
fn small_sphere_colour_stays_in_range() {
    let mut world = HitableList::new();
    world.add(Sphere::new(XYZ::new_x_y_z(0, 0, -ONE), 2).unwrap());
    let c = color(&Ray::new(Vec3::zero(), Vec3::new(0, 0, -3 * ONE)), &world);
    assert_eq!(*c.vec3(), Vec3::new(ONE / 2, ONE / 2, ONE));
}
