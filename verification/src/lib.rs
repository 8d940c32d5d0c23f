//! Verified core of a digital signal processing library: the index
//! arithmetic, permutations and frame geometry on which its transforms,
//! resamplers and monitors rest.

pub mod convolution;
pub mod resampling;
pub mod timefreq;
pub mod telemetry;
