//! Structural core of a ray-tracing renderer.
//!
//! A renderer walks a scene graph of shapes, gathers ray/shape hit records,
//! filters them through constructive-solid-geometry rules, tracks which
//! transparent media a ray is inside of, and finally writes pixels into a
//! buffer that is encoded as a plain-text image. The numeric surface
//! algebra lives with the caller; this crate holds the discrete logic that
//! drives those decisions — set operations on hit lists, membership in the
//! shape forest, the refractive-media stack, the pixel grid, and the image
//! text encoding — with each step specified and proved.

pub mod canvas;
pub mod color;
pub mod csg;
pub mod matrix;
pub mod media;
pub mod ppm;
pub mod shape_id;
