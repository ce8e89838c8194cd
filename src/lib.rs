//! Verified core of a small wireframe viewer: Wavefront OBJ framing and
//! face parsing, the mesh store with its index invariant, edge
//! enumeration, the order of per-axis rotations and the status line.
//!
//! Everything that computes on floating-point coordinates (rotation,
//! projection, screen mapping, bounding rectangles) lives with the
//! application, which hands plain values to this crate.

pub mod axis;

pub mod obj;
pub mod mesh;
pub mod status;
