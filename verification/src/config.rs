//! Settings of a node that carry no real numbers.
use vstd::prelude::*;

verus! {

/// Camera settings.
pub struct VisionConfig {
    pub video_src: String,
    /// Width and height of the frames, in pixels.
    pub resolution: [u32; 2],
    pub frame_rate: u32,
}

/// Simulation settings.
pub struct SimConfig {
    pub use_sim_time: bool,
    pub timeout_connect: u64,
}

} // verus!
