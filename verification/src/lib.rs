//! Verified core of an offline path-tracing renderer.
//!
//! The modules here hold the parts of the renderer whose behaviour is a
//! function of plain integer data: table indices, image storage and tiling,
//! mesh index buffers with their deduplication and token grammar, the
//! coherent-noise hash, and the construction of the bounding-volume
//! hierarchy over order-preserving integer coordinates. The floating-point numerics that surround them
//! (ray/primitive intersection, shading, camera optics) live in the
//! application crate, which feeds this library plain values.

pub mod bvh;
pub mod image;
pub mod mesh;
pub mod noise;
pub mod utility;
