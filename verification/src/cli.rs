//! Plain data form of the command line configuration.
//!
//! The embedding program parses the actual command line and converts into
//! this bare struct; the defaults below are the ones the surface documents.

use vstd::prelude::*;

verus! {

/// Measurement configuration: which processes to watch and how.
#[derive(Clone, Debug)]
pub struct Cli {
    /// Process ids of the processes to measure.
    pub pids: Vec<usize>,
    /// Sample duration in seconds.
    pub sample_secs: u64,
    /// Number of sample points each buffer retains.
    pub num_samples: usize,
    /// Whether to refresh the table in place after every cycle.
    pub interactive: bool,
    /// Whether to discover and track the threads of each process.
    pub with_threads: bool,
}

impl Default for Cli {
    /// No targets, 10 second samples, 2 sample points, one-shot, no threads.
    fn default() -> (r: Self)
        ensures
            r.pids@.len() == 0,
            r.sample_secs == 10,
            r.num_samples == 2,
            !r.interactive,
            !r.with_threads,
    {
        Cli {
            pids: Vec::new(),
            sample_secs: 10,
            num_samples: 2,
            interactive: false,
            with_threads: false,
        }
    }
}

} // verus!
