//! Host side of a particle collision pipeline that runs on a parallel compute
//! device.
//!
//! The device does all floating-point work. The host keeps the particle
//! store, lays records out as 32-bit words exactly as the kernels expect them,
//! decides which kernels run in which order, and folds the device's results
//! back into the particle store. Every single-precision number therefore
//! appears here as its IEEE-754 bit pattern in a `u32`.
//!
//! - [`words`] and [`utils`]: words and their bytes in device memory.
//! - [`records`]: the records that host and kernels share, and their layout.
//! - [`buffers`]: the five device buffers and their sizes.
//! - [`pipeline`]: kernels, commands, and the schedule of the sorting network.
//! - [`compute`]: the orchestrator, with the two halves of a frame.
//! - [`sort`] and [`grid`]: what the sort and grid stages compute.
//! - [`network`]: why the scheduled sort stages sort.

pub mod buffers;
pub mod compute;
pub mod grid;
pub mod network;
pub mod pipeline;
pub mod records;
pub mod sort;
pub mod utils;
pub mod words;
