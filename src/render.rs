//! Shading and the render loop: the colour of a ray, the jittered sampling of
//! each pixel, averaging and quantisation to 8-bit channels.
use crate::camera::{camera_ray, Camera};
use crate::fixed::{floor_div, floor_div_i128, ONE};
use crate::hitable::{HitRecord, Hitable};
use crate::hitable_list::{lemma_nearest_normal_is_unit, HitableList};
use crate::ray::{Ray, FAR};
use crate::vec3::{add3, offset3, shrink3, unit3, unit_vector, Triple, Vec3, RGB};
use rand::rngs::StdRng;
use rand::Rng;
use vstd::arithmetic::div_mod::{
    lemma_div_is_ordered, lemma_div_multiples_vanish, lemma_fundamental_div_mod_converse,
};
use vstd::prelude::*;

verus! {

/// rand's standard generator (`rand::rngs::StdRng`), which the render loop
/// draws its jitter offsets from; opaque here.
#[verifier::external_type_specification]
#[verifier::external_body]
pub struct ExStdRng(StdRng);

/// Relies on rand's `Rng::gen_range(low, high)`, which draws a value in
/// `[low, high)` and panics only when `low >= high`.
#[verifier::external_body]
fn random_in(rng: &mut StdRng, low: i64, high: i64) -> (r: i64)
    requires
        low < high,
    ensures
        low <= r < high,
{
    rng.gen_range(low, high)
}

/// The sky's colour at the top of the background gradient: `(0.5, 0.7, 1.0)`.
pub const SKY_R: i64 = 5_000;

pub const SKY_G: i64 = 7_000;

pub const SKY_B: i64 = 10_000;

/// `(1 − t)·1 + t·sky` in fixed point, rounded down.
pub open spec fn blend(t: int, sky: int) -> int {
    floor_div((ONE - t) * ONE + t * sky, ONE as int)
}

/// The background seen along `direction`: white blended towards sky blue by
/// `t = (unit(direction).y + 1) / 2`, a vertical gradient.
pub open spec fn background(direction: Triple) -> Triple {
    let t = floor_div(unit3(direction).1 + ONE, 2);
    (blend(t, SKY_R as int), blend(t, SKY_G as int), blend(t, SKY_B as int))
}

/// Surface shading from the normal: `(normal + (1, 1, 1)) / 2`.
pub open spec fn shade(normal: Triple) -> Triple {
    shrink3(offset3(normal, ONE as int), 2)
}

/// The colour seen along `ray`: the shading of the nearest surface struck
/// with `0 < t < FAR`, or else the background.
pub open spec fn color_of(world: HitableList, ray: Ray) -> Triple {
    match world.hit_spec(ray, 0, FAR as int) {
        Some(h) => shade(h.normal@),
        None => background(ray.direction@),
    }
}

/// `(1 − t)·1 + t·sky` for `t` and `sky` in `[0, ONE]`.
fn blend_channel(t: i64, sky: i64) -> (c: i64)
    requires
        0 <= t <= ONE,
        0 <= sky <= ONE,
    ensures
        c == blend(t as int, sky as int),
        0 <= c <= ONE,
{
    proof {
        lemma_blend_in_unit(t as int, sky as int);
    }
    floor_div_i128(((ONE - t) * ONE + t * sky) as i128, ONE as i128) as i64
}

/// A blend of white and a colour within `[0, ONE]` stays within `[0, ONE]`.
proof fn lemma_blend_in_unit(t: int, sky: int)
    requires
        0 <= t <= ONE,
        0 <= sky <= ONE,
    ensures
        0 <= (ONE - t) * ONE + t * sky <= ONE * ONE,
        0 <= blend(t, sky) <= ONE,
{
    assert(0 <= (ONE - t) * ONE + t * sky <= ONE * ONE) by (nonlinear_arith)
        requires
            0 <= t <= ONE,
            0 <= sky <= ONE,
    ;
    lemma_div_is_ordered(0, (ONE - t) * ONE + t * sky, ONE as int);
    lemma_div_is_ordered((ONE - t) * ONE + t * sky, ONE * ONE, ONE as int);
    lemma_div_multiples_vanish(ONE as int, ONE as int);
}

/// The colour seen along `ray` in `world`.
pub fn color(ray: &Ray, world: &HitableList) -> (c: RGB)
    requires
        world.well_formed(),
        ray.in_range(),
        ray.direction@ != (0int, 0int, 0int),
    ensures
        c.data@ == color_of(*world, *ray),
        0 <= c.data.x <= ONE,
        0 <= c.data.y <= ONE,
        0 <= c.data.z <= ONE,
{
    let mut hit_record = HitRecord::new();
    if world.hit(ray, 0, FAR, &mut hit_record) {
        proof {
            lemma_nearest_normal_is_unit(world.hitables@, *ray, 0, FAR as int);
        }
        let n = hit_record.normal;
        let one = ONE as i128;
        let r = floor_div_i128(n.x as i128 + one, 2) as i64;
        let g = floor_div_i128(n.y as i128 + one, 2) as i64;
        let b = floor_div_i128(n.z as i128 + one, 2) as i64;
        return RGB::new(Vec3::new(r, g, b));
    }
    let unit_direction = unit_vector(&ray.direction);
    let t = floor_div_i128(unit_direction.y as i128 + ONE as i128, 2) as i64;
    let r = blend_channel(t, SKY_R);
    let g = blend_channel(t, SKY_G);
    let b = blend_channel(t, SKY_B);
    RGB::new(Vec3::new(r, g, b))
}

/// A quantised pixel: three channels in `[0, 255]`.
#[derive(Clone, Copy, Debug, PartialEq, Eq, Structural)]
pub struct Pixel {
    pub r: u8,
    pub g: u8,
    pub b: u8,
}

/// `c` clamped to `[0, ONE]`.
pub open spec fn clamp_unit(c: int) -> int {
    if c < 0 {
        0
    } else if c > ONE {
        ONE as int
    } else {
        c
    }
}

/// `floor(255.99 · clamp(c))` for a fixed-point channel `c`.
pub open spec fn quantize_spec(c: int) -> int {
    (25599 * clamp_unit(c)) / (100 * ONE)
}

/// The pixel of a fixed-point colour.
pub open spec fn pixel_of(c: Triple) -> Pixel {
    Pixel { r: quantize_spec(c.0) as u8, g: quantize_spec(c.1) as u8, b: quantize_spec(c.2) as u8 }
}

/// One channel scaled to `[0, 255]`; values outside `[0, ONE]` are clamped first.
pub fn quantize(c: i64) -> (q: u8)
    ensures
        q == quantize_spec(c as int),
        0 <= quantize_spec(c as int) <= 255,
{
    let clamped: i64 = if c < 0 {
        0
    } else if c > ONE {
        ONE
    } else {
        c
    };
    ((25599 * clamped) / (100 * ONE)) as u8
}

/// The fixed-point image-plane coordinate of pixel index `i` of `size`,
/// jittered by `offset`: `(i + offset / ONE) / size`.
pub open spec fn plane_coord(i: int, offset: int, size: int) -> int {
    (i * ONE + offset) / size
}

/// The ray of one sample of pixel `(i, j)` with jitter `offset`.
pub open spec fn sample_ray(cam: Camera, width: int, height: int, i: int, j: int, offset: (i64, i64)) -> Ray {
    camera_ray(cam, plane_coord(i, offset.0 as int, width), plane_coord(j, offset.1 as int, height))
}

/// The colours of the samples of pixel `(i, j)`, one per jitter offset.
pub open spec fn sample_colors(
    cam: Camera,
    world: HitableList,
    width: int,
    height: int,
    i: int,
    j: int,
    offsets: Seq<(i64, i64)>,
) -> Seq<Triple> {
    offsets.map_values(|o: (i64, i64)| color_of(world, sample_ray(cam, width, height, i, j, o)))
}

/// The component-wise sum of a sequence of colours.
pub open spec fn sum3(colors: Seq<Triple>) -> Triple
    decreases colors.len(),
{
    if colors.len() == 0 {
        (0int, 0int, 0int)
    } else {
        add3(sum3(colors.drop_last()), colors.last())
    }
}

/// The component-wise mean of a non-empty sequence of colours, rounded down.
pub open spec fn average3(colors: Seq<Triple>) -> Triple {
    shrink3(sum3(colors), colors.len() as int)
}

/// Every jitter offset lies in `[0, ONE)` on both axes.
pub open spec fn offsets_valid(offsets: Seq<(i64, i64)>) -> bool {
    forall|k: int| 0 <= k < offsets.len() ==> 0 <= (#[trigger] offsets[k]).0 < ONE && 0 <= offsets[k].1 < ONE
}

/// Pixel `(i, j)` sampled once per offset: the quantised mean of the samples' colours.
pub open spec fn pixel_color(
    cam: Camera,
    world: HitableList,
    width: int,
    height: int,
    i: int,
    j: int,
    offsets: Seq<(i64, i64)>,
) -> Pixel {
    pixel_of(average3(sample_colors(cam, world, width, height, i, j, offsets)))
}

/// Pixel `(i, j)` of a `width × height` image, sampled once per jitter offset.
pub fn sample_pixel(
    camera: &Camera,
    world: &HitableList,
    width: u32,
    height: u32,
    i: u32,
    j: u32,
    offsets: &Vec<(i64, i64)>,
) -> (p: Pixel)
    requires
        camera.well_formed(),
        world.well_formed(),
        i < width,
        j < height,
        1 <= offsets@.len() <= u32::MAX,
        offsets_valid(offsets@),
    ensures
        p == pixel_color(*camera, *world, width as int, height as int, i as int, j as int, offsets@),
{
    let ghost colors = sample_colors(*camera, *world, width as int, height as int, i as int, j as int, offsets@);
    let n = offsets.len();
    let mut sr: i128 = 0;
    let mut sg: i128 = 0;
    let mut sb: i128 = 0;
    let mut k: usize = 0;
    while k < n
        invariant
            n == offsets@.len(),
            n <= u32::MAX,
            k <= n,
            camera.well_formed(),
            world.well_formed(),
            i < width,
            j < height,
            offsets_valid(offsets@),
            colors == sample_colors(*camera, *world, width as int, height as int, i as int, j as int, offsets@),
            (sr as int, sg as int, sb as int) == sum3(colors.take(k as int)),
            i64::MIN * k <= sr <= i64::MAX * k,
            i64::MIN * k <= sg <= i64::MAX * k,
            i64::MIN * k <= sb <= i64::MAX * k,
        decreases n - k,
    {
        let (du, dv) = offsets[k];
        proof {
            lemma_plane_coord_in_range(i as int, du as int, width as int);
            lemma_plane_coord_in_range(j as int, dv as int, height as int);
        }
        let u = (i as i64 * ONE + du) / width as i64;
        let v = (j as i64 * ONE + dv) / height as i64;
        let ray = camera.get_ray(u, v);
        let c = color(&ray, world);
        proof {
            assert(colors.take(k + 1).drop_last() == colors.take(k as int));
            assert(colors[k as int] == c.data@);
        }
        sr = sr + c.data.x as i128;
        sg = sg + c.data.y as i128;
        sb = sb + c.data.z as i128;
        k = k + 1;
    }
    proof {
        assert(colors.take(n as int) == colors);
    }
    let r = mean_channel(sr, n as i128);
    let g = mean_channel(sg, n as i128);
    let b = mean_channel(sb, n as i128);
    Pixel { r: quantize(r), g: quantize(g), b: quantize(b) }
}

/// `sum / n`, rounded down, for a sum of `n` values of `i64`.
fn mean_channel(sum: i128, n: i128) -> (m: i64)
    requires
        1 <= n <= u32::MAX,
        i64::MIN * n <= sum <= i64::MAX * n,
    ensures
        m == floor_div(sum as int, n as int),
{
    proof {
        lemma_div_is_ordered(i64::MIN * n, sum as int, n as int);
        lemma_div_is_ordered(sum as int, i64::MAX * n, n as int);
        lemma_div_multiples_vanish(i64::MIN as int, n as int);
        lemma_div_multiples_vanish(i64::MAX as int, n as int);
        assert(i64::MIN * n == n * i64::MIN) by (nonlinear_arith);
        assert(i64::MAX * n == n * i64::MAX) by (nonlinear_arith);
    }
    floor_div_i128(sum, n) as i64
}

/// A jittered pixel coordinate lies in `[0, ONE)`: every pixel of the image,
/// the first and the last included, maps inside the viewport.
pub proof fn lemma_plane_coord_in_range(i: int, offset: int, size: int)
    requires
        0 <= i < size,
        0 <= offset < ONE,
    ensures
        0 <= plane_coord(i, offset, size) < ONE,
{
    assert(0 <= i * ONE + offset < size * ONE) by (nonlinear_arith)
        requires
            0 <= i < size,
            0 <= offset < ONE,
            ONE == 10000,
    ;
    lemma_div_is_ordered(0, i * ONE + offset, size);
    lemma_div_is_ordered(i * ONE + offset, size * ONE - 1, size);
    assert((size * ONE - 1) / size < ONE) by (nonlinear_arith)
        requires
            size > 0,
            ONE == 10000,
    ;
}

/// Pixel `k` of an image stored row by row, top row first, is pixel `(i, j)`
/// with `i = k mod width` and `j = height − 1 − k / width` (`j` grows upwards).
pub open spec fn pixel_column(k: int, width: int) -> int {
    k % width
}

pub open spec fn pixel_row(k: int, width: int, height: int) -> int {
    height - 1 - k / width
}

/// `p` is pixel `k` of the image rendered with `samples` jitter offsets per
/// pixel, for some choice of offsets in `[0, ONE)`.
pub open spec fn rendered_pixel(
    cam: Camera,
    world: HitableList,
    width: int,
    height: int,
    samples: int,
    k: int,
    p: Pixel,
) -> bool {
    exists|offsets: Seq<(i64, i64)>|
        offsets.len() == samples && offsets_valid(offsets) && #[trigger] pixel_color(
            cam,
            world,
            width,
            height,
            pixel_column(k, width),
            pixel_row(k, width, height),
            offsets,
        ) == p
}

/// Draws `samples` jitter offsets from `rng`.
pub fn draw_offsets(rng: &mut StdRng, samples: u32) -> (offsets: Vec<(i64, i64)>)
    ensures
        offsets@.len() == samples,
        offsets_valid(offsets@),
{
    let mut offsets: Vec<(i64, i64)> = Vec::new();
    let mut k: u32 = 0;
    while k < samples
        invariant
            k <= samples,
            offsets@.len() == k,
            offsets_valid(offsets@),
        decreases samples - k,
    {
        let du = random_in(rng, 0, ONE);
        let dv = random_in(rng, 0, ONE);
        offsets.push((du, dv));
        k = k + 1;
    }
    offsets
}

/// Renders a `width × height` image of `world` through `camera`, top row
/// first, averaging `samples` jittered rays per pixel with offsets drawn from
/// `rng`. Whatever the draws, pixel `k` is the pixel that `sample_pixel` gives
/// for some valid offsets.
pub fn render(
    camera: &Camera,
    world: &HitableList,
    width: u32,
    height: u32,
    samples: u32,
    rng: &mut StdRng,
) -> (image: Vec<Pixel>)
    requires
        camera.well_formed(),
        world.well_formed(),
        samples >= 1,
        width as int * height as int <= usize::MAX,
    ensures
        image@.len() == width as int * height as int,
        forall|k: int|
            0 <= k < image@.len() ==> rendered_pixel(
                *camera,
                *world,
                width as int,
                height as int,
                samples as int,
                k,
                #[trigger] image@[k],
            ),
{
    let mut image: Vec<Pixel> = Vec::new();
    let mut row: u32 = 0;
    while row < height
        invariant
            camera.well_formed(),
            world.well_formed(),
            samples >= 1,
            width as int * height as int <= usize::MAX,
            row <= height,
            image@.len() == row as int * width as int,
            forall|k: int|
                0 <= k < image@.len() ==> rendered_pixel(
                    *camera,
                    *world,
                    width as int,
                    height as int,
                    samples as int,
                    k,
                    #[trigger] image@[k],
                ),
        decreases height - row,
    {
        let j = height - 1 - row;
        let mut i: u32 = 0;
        while i < width
            invariant
                camera.well_formed(),
                world.well_formed(),
                samples >= 1,
                width as int * height as int <= usize::MAX,
                row < height,
                j == height - 1 - row,
                i <= width,
                image@.len() == row as int * width as int + i,
                forall|k: int|
                    0 <= k < image@.len() ==> rendered_pixel(
                        *camera,
                        *world,
                        width as int,
                        height as int,
                        samples as int,
                        k,
                        #[trigger] image@[k],
                    ),
            decreases width - i,
        {
            let offsets = draw_offsets(rng, samples);
            let p = sample_pixel(camera, world, width, height, i, j, &offsets);
            proof {
                let k = row as int * width as int + i as int;
                lemma_pixel_position(row as int, i as int, width as int, height as int);
                assert(pixel_color(
                    *camera,
                    *world,
                    width as int,
                    height as int,
                    pixel_column(k, width as int),
                    pixel_row(k, width as int, height as int),
                    offsets@,
                ) == p);
            }
            image.push(p);
            i = i + 1;
        }
        proof {
            assert((row + 1) as int * width as int == row as int * width as int + width as int) by (nonlinear_arith);
        }
        row = row + 1;
    }
    assert(height as int * width as int == width as int * height as int) by (nonlinear_arith);
    image
}

/// The pixel stored at position `row · width + i` is pixel `(i, height − 1 − row)`.
proof fn lemma_pixel_position(row: int, i: int, width: int, height: int)
    requires
        0 <= row < height,
        0 <= i < width,
    ensures
        pixel_column(row * width + i, width) == i,
        pixel_row(row * width + i, width, height) == height - 1 - row,
        row * width + i < width * height,
{
    lemma_fundamental_div_mod_converse(row * width + i, width, row, i);
    assert(row * width + i < width * height) by (nonlinear_arith)
        requires
            0 <= row < height,
            0 <= i < width,
    ;
}

/// Pixel `(i, j)` of the test gradient: red grows left to right, green
/// bottom to top, blue is fixed at 0.2.
pub open spec fn gradient_pixel(i: int, j: int, width: int, height: int) -> Pixel {
    pixel_of((i * ONE / width, j * ONE / height, ONE / 5))
}

/// A `width × height` colour gradient, top row first, that needs no scene.
pub fn gradient_image(width: u32, height: u32) -> (image: Vec<Pixel>)
    requires
        width as int * height as int <= usize::MAX,
    ensures
        image@.len() == width as int * height as int,
        forall|k: int|
            0 <= k < image@.len() ==> #[trigger] image@[k] == gradient_pixel(
                pixel_column(k, width as int),
                pixel_row(k, width as int, height as int),
                width as int,
                height as int,
            ),
{
    let mut image: Vec<Pixel> = Vec::new();
    let mut row: u32 = 0;
    while row < height
        invariant
            width as int * height as int <= usize::MAX,
            row <= height,
            image@.len() == row as int * width as int,
            forall|k: int|
                0 <= k < image@.len() ==> #[trigger] image@[k] == gradient_pixel(
                    pixel_column(k, width as int),
                    pixel_row(k, width as int, height as int),
                    width as int,
                    height as int,
                ),
        decreases height - row,
    {
        let j = height - 1 - row;
        let mut i: u32 = 0;
        while i < width
            invariant
                width as int * height as int <= usize::MAX,
                row < height,
                j == height - 1 - row,
                i <= width,
                image@.len() == row as int * width as int + i,
                forall|k: int|
                    0 <= k < image@.len() ==> #[trigger] image@[k] == gradient_pixel(
                        pixel_column(k, width as int),
                        pixel_row(k, width as int, height as int),
                        width as int,
                        height as int,
                    ),
            decreases width - i,
        {
            proof {
                lemma_pixel_position(row as int, i as int, width as int, height as int);
                lemma_plane_coord_in_range(i as int, 0, width as int);
                lemma_plane_coord_in_range(j as int, 0, height as int);
            }
            let r = (i as i64 * ONE) / width as i64;
            let g = (j as i64 * ONE) / height as i64;
            let p = Pixel { r: quantize(r), g: quantize(g), b: quantize(ONE / 5) };
            image.push(p);
            i = i + 1;
        }
        proof {
            assert((row + 1) as int * width as int == row as int * width as int + width as int) by (nonlinear_arith);
        }
        row = row + 1;
    }
    assert(height as int * width as int == width as int * height as int) by (nonlinear_arith);
    image
}

/// Samples of equal colour average to that colour exactly, whatever their number.
pub proof fn lemma_average_of_equal_colors(colors: Seq<Triple>, c: Triple)
    requires
        colors.len() >= 1,
        forall|k: int| 0 <= k < colors.len() ==> #[trigger] colors[k] == c,
    ensures
        average3(colors) == c,
{
    lemma_sum_of_equal(colors, c);
    let n = colors.len() as int;
    lemma_div_multiples_vanish(c.0, n);
    lemma_div_multiples_vanish(c.1, n);
    lemma_div_multiples_vanish(c.2, n);
}

proof fn lemma_sum_of_equal(colors: Seq<Triple>, c: Triple)
    requires
        forall|k: int| 0 <= k < colors.len() ==> #[trigger] colors[k] == c,
    ensures
        sum3(colors) == (colors.len() * c.0, colors.len() * c.1, colors.len() * c.2),
    decreases colors.len(),
{
    if colors.len() > 0 {
        let prefix = colors.drop_last();
        assert forall|k: int| 0 <= k < prefix.len() implies #[trigger] prefix[k] == c by {
            assert(prefix[k] == colors[k]);
        }
        lemma_sum_of_equal(prefix, c);
        let m = prefix.len() as int;
        assert((m + 1) * c.0 == m * c.0 + c.0 && (m + 1) * c.1 == m * c.1 + c.1 && (m + 1) * c.2 == m * c.2 + c.2)
            by (nonlinear_arith);
    }
}

/// The mean of the samples lies between the least and the greatest sample,
/// channel by channel.
pub proof fn lemma_average_between(colors: Seq<Triple>, lo: Triple, hi: Triple)
    requires
        colors.len() >= 1,
        forall|k: int|
            0 <= k < colors.len() ==> lo.0 <= (#[trigger] colors[k]).0 <= hi.0 && lo.1 <= colors[k].1 <= hi.1
                && lo.2 <= colors[k].2 <= hi.2,
    ensures
        lo.0 <= average3(colors).0 <= hi.0,
        lo.1 <= average3(colors).1 <= hi.1,
        lo.2 <= average3(colors).2 <= hi.2,
{
    lemma_sum_between(colors, lo, hi);
    let n = colors.len() as int;
    let s = sum3(colors);
    lemma_div_is_ordered(n * lo.0, s.0, n);
    lemma_div_is_ordered(s.0, n * hi.0, n);
    lemma_div_is_ordered(n * lo.1, s.1, n);
    lemma_div_is_ordered(s.1, n * hi.1, n);
    lemma_div_is_ordered(n * lo.2, s.2, n);
    lemma_div_is_ordered(s.2, n * hi.2, n);
    lemma_div_multiples_vanish(lo.0, n);
    lemma_div_multiples_vanish(hi.0, n);
    lemma_div_multiples_vanish(lo.1, n);
    lemma_div_multiples_vanish(hi.1, n);
    lemma_div_multiples_vanish(lo.2, n);
    lemma_div_multiples_vanish(hi.2, n);
}

proof fn lemma_sum_between(colors: Seq<Triple>, lo: Triple, hi: Triple)
    requires
        forall|k: int|
            0 <= k < colors.len() ==> lo.0 <= (#[trigger] colors[k]).0 <= hi.0 && lo.1 <= colors[k].1 <= hi.1
                && lo.2 <= colors[k].2 <= hi.2,
    ensures
        colors.len() * lo.0 <= sum3(colors).0 <= colors.len() * hi.0,
        colors.len() * lo.1 <= sum3(colors).1 <= colors.len() * hi.1,
        colors.len() * lo.2 <= sum3(colors).2 <= colors.len() * hi.2,
    decreases colors.len(),
{
    if colors.len() > 0 {
        let prefix = colors.drop_last();
        assert forall|k: int|
            0 <= k < prefix.len() implies lo.0 <= (#[trigger] prefix[k]).0 <= hi.0 && lo.1 <= prefix[k].1 <= hi.1
                && lo.2 <= prefix[k].2 <= hi.2 by {
            assert(prefix[k] == colors[k]);
        }
        lemma_sum_between(prefix, lo, hi);
        let m = prefix.len() as int;
        assert((m + 1) * lo.0 == m * lo.0 + lo.0 && (m + 1) * hi.0 == m * hi.0 + hi.0) by (nonlinear_arith);
        assert((m + 1) * lo.1 == m * lo.1 + lo.1 && (m + 1) * hi.1 == m * hi.1 + hi.1) by (nonlinear_arith);
        assert((m + 1) * lo.2 == m * lo.2 + lo.2 && (m + 1) * hi.2 == m * hi.2 + hi.2) by (nonlinear_arith);
    }
}

/// Rendering a pixel is reproducible: the same scene, pixel and jitter
/// offsets give the same quantised pixel on every run.
pub proof fn lemma_pixel_reproducible(
    cam: Camera,
    world: HitableList,
    width: int,
    height: int,
    i: int,
    j: int,
    first: Seq<(i64, i64)>,
    second: Seq<(i64, i64)>,
)
    requires
        first == second,
    ensures
        pixel_color(cam, world, width, height, i, j, first) == pixel_color(cam, world, width, height, i, j, second),
{
}

} // verus!
