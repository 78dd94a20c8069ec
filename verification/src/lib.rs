//! A verified mesh-diffing library.
//!
//! The heart of the crate is [`mesh_diff::MeshDiffer`]: a keyed multiset of
//! ordered primitives that accepts partial overwrites per key (`stage`) and,
//! on `commit`, produces the minimal set of dense-array edits (a
//! [`mesh_diff::MeshPatch`]) needed to bring an external index-addressed
//! buffer into agreement with the current staged state.  The
//! [`dense_buffer::DenseBuffer`] adapter turns such a patch into a resize
//! policy plus a small list of contiguous copy operations for a growable
//! external resource.
//!
//! Around that core: a bounded object [`pool`], a frame-rate tracker, the
//! [`floatilla`] wrappers for classified floating-point values, and
//! pre-rendered diagnostic values for error reporting.

pub mod dense_buffer;
pub mod diag;
pub mod floatilla;
pub mod fps_tracker;
pub mod mesh_diff;
pub mod pool;
pub mod uniform;
