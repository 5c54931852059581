//! The decisions of a small ray tracer, proved.
//!
//! Every number that the tracer works with is an IEEE 754 binary32 value,
//! held here by its bit pattern and understood by the value that the pattern
//! stands for. The arithmetic on those numbers is the caller's. What is
//! decided from them is decided in this crate:
//!
//! - `scalar`: how two numbers compare;
//! - `vec3`, `aabb`: the box that encloses a group of boxes;
//! - `bounds`: whether a ray's crossings of the three slabs of a box leave a
//!   common interval;
//! - `sphere`: whether a ray has a near root on a sphere;
//! - `intersection`: which of several hits is the nearest;
//! - `tracer`: which terms a light adds, and how deep a reflected ray goes;
//! - `region`: how the raster is cut into bands, and the pixels of a band;
//! - `color`, `raster`: how a level becomes a channel, a colour a word of the
//!   frame buffer, and how traced bands are merged into the frame.
pub mod aabb;
pub mod bounds;
pub mod color;
pub mod intersection;
pub mod raster;
pub mod region;
pub mod scalar;
pub mod sphere;
pub mod tracer;
pub mod vec3;

pub use aabb::AABB;
pub use intersection::Intersection;
pub use scalar::Scalar;
pub use vec3::Vec3;
