//! A small sphere ray tracer over fixed-point geometry.
//!
//! Every scalar is a signed fixed-point number: an integer count of
//! `1 / SCALE` world units. Vector algebra, sphere intersection, the
//! closest-hit search and shading are all stated as spec functions over
//! mathematical integers and proved against them.

pub mod fixed;
pub mod point;
pub mod ray;
pub mod hit_record;
pub mod sphere;
pub mod scene;
pub mod color;
pub mod shade;
pub mod render;
