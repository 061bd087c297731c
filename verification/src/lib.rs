//! A stochastic path tracer over decimal fixed-point arithmetic.
//!
//! Scalars are `i64` values counted in thousandths: the raw value `1500`
//! stands for `1.5`. All geometry, intersection and shading math is exact
//! integer arithmetic, so every function's result is pinned down by its
//! contract.

pub mod aabb;
pub mod bvh;
pub mod camera;
pub mod fixed;
pub mod hit_record;
pub mod interval;
pub mod material;
pub mod ray;
pub mod sampler;
pub mod vec3d;

pub use fixed::ONE;
