//! Level-of-detail construction for large point clouds.
//!
//! Positions are fixed-point integers (see [`point::COORD_SCALE`]); the octree
//! division, the Poisson-disk sub-sampling and the raster encoding are all
//! carried out on those integers, so every distance comparison is exact.
//!
//! The pipeline: [`pipeline::process_root`] makes the root cell of the
//! octree, [`pipeline::process_level`] each further level, sub-sampling
//! over-full cells with [`poisson_disk_sampling::PoissonDiskSampling`] and
//! registering each emitted cell's box in [`meta::Coordinates`];
//! [`encoder::Encoder`] packs a cell's points into raster tiles.

pub mod bounding_box;
pub mod color;
pub mod encoder;
pub mod grid;
pub mod lattice;
pub mod lod;
pub mod meta;
pub mod misc;
pub mod parallel_poisson_disk_sampling;
pub mod parse;
pub mod pipeline;
pub mod point;
pub mod point_cloud;
pub mod point_cloud_map;
pub mod poisson_disk_sampling;
pub mod raster;
pub mod tool;
