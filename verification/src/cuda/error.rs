//! The refusals of the device lanes.

use super::host::HostError;
use crate::rnsfold::batch::BatchError;
use crate::roweq::batch::RowEqError;
use vstd::prelude::*;

verus! {

/// A refusal of a device lane.
#[derive(Debug, Clone, PartialEq, Eq)]
pub enum GpuError {
    /// The descriptor of a fold is defective.
    Batch(BatchError),
    /// The descriptor of a row membership is defective.
    RowEq(RowEqError),
    /// The geometry exceeds what a launch can express.
    Geometry(&'static str),
}

impl From<HostError> for GpuError {
    fn from(e: HostError) -> (r: GpuError) {
        match e {
            HostError::Geometry(what) => GpuError::Geometry(what),
        }
    }
}

impl vstd::std_specs::convert::FromSpecImpl<HostError> for GpuError {
    open spec fn obeys_from_spec() -> bool {
        true
    }

    open spec fn from_spec(e: HostError) -> GpuError {
        match e {
            HostError::Geometry(what) => GpuError::Geometry(what),
        }
    }
}

} // verus!
