//! Ray-tracing kernel: a bounding-volume hierarchy with its build and
//! nearest-hit query, axis-aligned boxes, a framebuffer, texel lookup and the
//! shading integrator's depth rule. Real coordinates and distances are carried
//! as order keys of their single-precision bit patterns; the floating-point
//! tests themselves are supplied by the caller.

pub mod bounds;
pub mod bvh;
pub mod center_sort;
pub mod framebuffer;
pub mod order_key;
pub mod shading;
pub mod texture;
pub mod voxels;
