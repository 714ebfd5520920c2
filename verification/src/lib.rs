//! SIMD-style batched axis-aligned bounding boxes.
//!
//! A `WAABB` packs `LANES` independent axis-aligned boxes, one per lane, in a
//! structure-of-arrays layout (one row of `LANES` coordinates per axis), and
//! answers ray-intersection, containment and mutual-overlap questions for all
//! lanes at once, returning one boolean per lane.  Coordinates are exact
//! integers; the extreme values `i64::MAX` / `i64::MIN` play the role of plus
//! and minus infinity in the sentinel "invalid" (empty) box.

pub mod packed;
pub mod scalar;
pub mod slab;
pub mod wire;

pub use packed::{WAABB, WRay};
pub use scalar::{Aabb, Point, Ray, DIM, LANES, NEG_INF, POS_INF};
pub use wire::{WireError, WirePoint};
