//! Verified core of a terminal resource monitor: the samplers that turn
//! kernel counter text (CPU jiffies, memory/swap kilobytes) into utilization
//! figures, and the aggregator that refreshes them once per tick.
//!
//! All file I/O and rendering live outside this library; every function here
//! takes the raw counter text as bytes and is verified.

use vstd::prelude::*;

pub mod cpu;
pub mod memory;
pub mod monitor;
pub mod text;

verus! {

/// Why a sampler could not deliver a fresh value.
///
/// `SourceUnavailable`: the counter source was missing or unreadable when the
/// sampler was built; the sampler stays permanently absent.
/// `TransientRead`: a re-read failed on a refresh; the previous values are
/// kept and the caller may log and go on.
/// `Parse`: counter text did not have the expected shape.
#[derive(Clone, Copy, Debug, PartialEq, Eq, Structural)]
pub enum SampleError {
    SourceUnavailable,
    TransientRead,
    Parse,
}

} // verus!
