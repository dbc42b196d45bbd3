//! Periodic CPU-accounting sampler for live processes.
//!
//! The crate samples per-process (and optionally per-thread) CPU counters,
//! turns consecutive readings into per-interval deltas, and keeps a bounded
//! rolling history per tracked entity.  All I/O (reading the counter source,
//! sleeping, printing) is left to the embedding program, which hands the raw
//! record bytes and clock readings in as plain values; everything that
//! decides, parses or mutates state lives here and is verified.

use vstd::prelude::*;

pub mod cli;
pub mod coordinator;
pub mod errors;
pub mod sample;
pub mod stat;
pub mod tracker;

verus! {

/// Number of counter ticks per second of CPU time (`USER_HZ`).
///
/// The user and system time values of a counter record do not count real
/// cycles but virtual ones; this constant says how many of them make up one
/// second.  The value depends on the running platform, so nothing more is
/// claimed of it.
///
/// Relies on `nix::unistd::sysconf(SysconfVar::CLK_TCK)`: returns the
/// platform's current value of the `CLK_TCK` system variable, `Ok(None)` when
/// the platform sets no value and `Err` on failure; both collapse to `None`.
#[verifier::external_body]
pub fn get_user_hz() -> Option<i64> {
    match nix::unistd::sysconf(nix::unistd::SysconfVar::CLK_TCK) {
        Ok(Some(v)) => Some(v),
        _ => None,
    }
}

} // verus!
