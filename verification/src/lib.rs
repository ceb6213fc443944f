//! Verified spatial registration and region-aggregation engine for
//! volumetric imaging data.
//!
//! The library models voxel samples and affine-matrix entries as exact
//! rational numbers, so every coordinate transform, resampling step and
//! per-region aggregate is computed exactly and carries a proved contract.
//! Reading and writing image files, and converting their floating-point
//! samples to and from rationals, is left to the surrounding tool.

pub mod affine;
pub mod error;
pub mod grid;
pub mod masking;
pub mod parcellation;
pub mod ratio;
pub mod resample;
pub mod statistics;
