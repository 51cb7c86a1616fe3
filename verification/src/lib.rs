//! Speech segmentation of audio clips: a sliding context window over fixed-size
//! chunks, a hysteresis policy that turns per-chunk speech decisions into
//! segments, and a worker pool that fans a batch of clips out and reassembles
//! the results in input order.

pub mod engine;
pub mod parallel;
pub mod runs;
pub mod session;
pub mod silero;
pub mod utils;
