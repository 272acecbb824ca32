//! Per-instance animation and voxel-shape transition engine.
//!
//! All real quantities (time, positions, blend factors, colors) are
//! fixed-point integers in which [`vector::ONE`] stands for `1.0`.

pub mod animation;
pub mod chunk;
pub mod easing;
pub mod vector;
pub mod transition;
pub mod voxel;
