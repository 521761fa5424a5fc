//! Procedural terrain ray intersection and a bucketed octree of surface marks.
//!
//! Positions are fixed-point integers: a voxel spans `terrain::VOXEL_SIZE`
//! units. The terrain is the surface where a scalar field crosses a
//! threshold, extracted voxel by voxel with a marching-cubes table and cached;
//! rays walk the voxel grid and test the triangles they meet. Points found by
//! rays go into an octree that answers frustum-bounded visibility queries.
use vstd::prelude::*;

pub mod geometry;
pub mod octree;
pub mod svec;
pub mod terrain;

verus! {

} // verus!
