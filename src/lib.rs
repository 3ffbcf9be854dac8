//! Point-start detection for fixed-camera footage of a team field sport:
//! work partitioning, crop remapping, tiled detection with non-maximum
//! suppression, occupancy scoring, cliff detection and side attribution,
//! and the elastic worker-pool bookkeeping around them.
pub mod geometry;
pub mod score;
pub mod cliff;
pub mod attribution;
pub mod slicing;
pub mod nms;
pub mod partition;
pub mod pipeline;
pub mod text;
pub mod frames;
pub mod reorder;
pub mod feature;
pub mod crop;
pub mod detection;
pub mod supervisor;
pub mod region;
