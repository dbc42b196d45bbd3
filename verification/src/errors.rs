//! Error taxonomy of the sampling engine.

use vstd::prelude::*;

verus! {

/// Why a single counter read failed.
#[derive(Clone, Copy, Debug, PartialEq, Eq, Structural)]
pub enum SampleError {
    /// The counter source of the entity could not be found: it has exited.
    SourceUnavailable,
    /// The counter source exists but the expected fields are absent or not
    /// numeric.
    MalformedSource,
}

/// A failure surfaced by the sampling coordinator.
#[derive(Clone, Copy, Debug, PartialEq, Eq, Structural)]
pub enum SamplerError {
    /// The configured target list is empty.
    NoTargets,
    /// Sampling or creating the tracker of process `pid` failed.
    Process { pid: usize, error: SampleError },
}

} // verus!
