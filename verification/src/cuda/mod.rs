//! The device lanes of `rnsfold` and `roweq`, up to the device.
//!
//! A lane may change what a verdict costs, never the verdict. Each lane is cut at the device:
//! `prepare` validates a batch and builds what is uploaded, or says that there is nothing to
//! launch; `finish` turns what the kernel reports into an outcome. Where the kernel reports
//! what it is meant to report, the outcome is the one of the scalar lane
//! (`law_lane_is_exact` of each lane). The upload, the launch and the download between the two
//! belong to the caller, as do the device and the compiler; [`host`] says what they are asked
//! for.

pub mod error;
pub mod host;
pub mod rnsfold;
pub mod roweq;
pub mod tables;

pub use error::GpuError;
pub use host::{CompileSpec, HostError, LaunchConfig};
