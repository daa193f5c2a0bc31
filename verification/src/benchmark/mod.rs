//! Benchmark results and limits.

use vstd::prelude::*;

pub mod timing_result;

verus! {

/// The shortest run that can be timed reliably, 5e-3 seconds, as the bit
/// pattern of its double.
pub const MIN_EXECUTION_TIME_BITS: u64 = 0x3F74_7AE1_47AE_147B;

} // verus!
