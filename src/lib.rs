//! A ray tracer for scenes of spheres, over fixed-point integer geometry.
//!
//! Coordinates, ray parameters and colour channels are integers read as
//! multiples of `1 / ONE` (see `fixed`). Fixed-point products and quotients
//! (`Vec3::mul`, `Vec3::div` and their scalar forms) are rescaled by `ONE`;
//! `Vec3::dot` and `Vec3::cross` stay exact, at scale `ONE²`, so that their
//! algebraic laws hold without rounding. Every computation is exact integer
//! arithmetic with explicit rounding, and each function states its result
//! over the integer model: vector algebra, the ray/sphere quadratic, the
//! nearest hit in a scene, the camera's rays, shading, the averaging of
//! jittered samples and the quantisation of a colour to 8-bit channels.
pub mod fixed;
pub mod vec3;
pub mod ray;
pub mod hitable;
pub mod sphere;
pub mod hitable_list;
pub mod camera;
pub mod render;
