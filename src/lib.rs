//! Truncated Fourier series of periodic curves in fixed point, and the animation
//! of the chain of rotating vectors that redraws a curve from its series.

pub mod complex;
pub mod functions;
pub mod series;
pub mod geometry;
pub mod fourier;
pub mod visualize;
