//! Ray queries against textured triangle meshes through an octree.
//!
//! Geometry is exact: coordinates are fixed-point integers, the ray/triangle
//! solve and the bounding-sphere pre-filter are computed without rounding,
//! and every routine is verified against its contract.
//!
//! - `geometry`: vectors, faces, the barycentric solve and the sphere test.
//! - `octree`: construction by octant split, the candidate-hit query.
//! - `mesh`: the mesh index, nearest-hit selection and texture lookup.
//! - `transform`: rigid motions without rebuild, scaling with rebuild.
//! - `render`: column-tiled rendering and the merge of tiles.
//! - `canvas`, `raster`, `drawing`, `projection`, `raster_sorting`: pixel
//!   buffers, line and circle rasterisation and depth-ordered compositing.
//! - `vector_tree`: a binary search tree filled from a slice.
pub mod canvas;
pub mod drawing;
pub mod geometry;
pub mod mesh;
pub mod octree;
pub mod projection;
pub mod raster;
pub mod raster_sorting;
pub mod render;
pub mod transform;
pub mod utils;
pub mod vector_tree;
