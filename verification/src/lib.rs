//! Procedural rasters: a coordinate gradient and an escape-time rendering of a
//! Julia set, each filled pixel by pixel into an RGB image buffer.
//!
//! Every executable function carries a contract over a mathematical model:
//! the gradient over integer arithmetic, the escape-time iteration over an
//! exact model of binary32 rounding.

pub mod binary32;
pub mod gradient;
pub mod julia;
pub mod raster;
pub mod transform;
