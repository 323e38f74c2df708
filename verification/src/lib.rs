//! An offline path-tracing core: exact integer/rational geometry for
//! ray-primitive intersection, a bounding-volume hierarchy, material
//! scattering decisions, and the supporting image-pixel routines.
mod aabb;
mod angle;
mod bvh;
mod canny;
mod color;
mod frac;
mod isqrt;
mod hittable;
mod integrator;
mod hittable_list;
mod material;
mod medium;
mod pdf;
mod ray;
mod rng;
mod rotate;
mod texture;
mod vec3;

pub use aabb::{surrounding_box, Aabb};
pub use angle::atan2_turns;
pub use bvh::BvhNode;
pub use canny::{double_threshold, gradient_magnitude, non_max_suppression, write_edge, GrayImage};
pub use color::{read_color, write_color, ImageRgb, Position};
pub use hittable::{Cube, FlipFace, HitRecord, Hittable, Sphere, Translate, XYRect, XZRect, YZRect};
pub use hittable_list::HittableList;
pub use integrator::{add_clamped, attenuate, hit_point, ray_color, PathSampler};
pub use medium::ConstantMedium;
pub use pdf::{CosinePdf, HittablePdf, MixturePdf};
pub use material::{Dielectric, DiffuseLight, Empty, Isotropic, Lambertian, Material, Metal, ScatterRand, ScatterRecord, ScatterResult};
pub use texture::{ImageTable, ImageTexture, SolidColor, Texture};
pub use frac::Frac;
pub use ray::Ray;
pub use rotate::RotateY;
pub use vec3::{Color, Point3, Vec3};
