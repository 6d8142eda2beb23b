//! Tuning constants.
//!
//! Those whose names end in `_BITS` are binary64 words.

use vstd::prelude::*;

verus! {

/// Operations between two looks at the snapshot pressure.
pub const WINDOW_SIZE: u64 = 256;

/// Most nodes that one pass of the continuous policy frees.
pub const MAX_BATCH: u64 = 64;

/// Fewest nodes that one pass of the continuous policy may free.
pub const MIN_BATCH: u64 = 1;

/// Nodes freed per write while freeing is amortised: the rate at which writes
/// retire them.
pub const AF_BATCH_K: usize = 1;

/// Nodes freed per write while freeing is aggressive: more than a write
/// retires, so that a backlog shrinks.
pub const AGGRESSIVE_DRAIN_PER_OP: usize = 4;

/// Nodes that the continuous policy frees per write.
pub const CONTINUOUS_DRAIN_PER_OP: usize = 1;

/// Writes between two attempts to advance the epoch, without pressure.
pub const BASE_STRIDE: u64 = 16;

/// How much the stride grows with the pressure: 4.0.
pub const ALPHA_BITS: u64 = 0x4010_0000_0000_0000;

/// Rise of the pressure from which on batches are cut early: 0.05.
pub const TREND_THRESHOLD_BITS: u64 = 0x3FA9_9999_9999_999A;

/// How much of the rise is taken off a batch: 0.5.
pub const TREND_WEIGHT_BITS: u64 = 0x3FE0_0000_0000_0000;

/// Wait before the first retry, in milliseconds.
pub const BASE_RETRY_MS: u64 = 1;

/// Longest wait before a retry, in milliseconds.
pub const MAX_RETRY_MS: u64 = 32;

/// Pressure up to which freeing is aggressive: 0.30.
pub const SPI_WRITE_HEAVY_BITS: u64 = 0x3FD3_3333_3333_3333;

/// Pressure up to which freeing is amortised: 0.60.
pub const SPI_SNAP_HEAVY_BITS: u64 = 0x3FE3_3333_3333_3333;

/// Half the width of the dead band around the two limits above: 0.05.
pub const HYSTERESIS_BITS: u64 = 0x3FA9_9999_9999_999A;

/// Weight of the newest window in the pressure estimate: 0.15.
pub const SPI_EMA_ALPHA_BITS: u64 = 0x3FC3_3333_3333_3333;

/// Writes that freeing may be held back before a drain is forced. It counts
/// writes, not windows of them.
pub const HOLD_LIMIT: u64 = 8;

/// Narrowest snapshot window, in nanoseconds.
pub const SCC_MIN_WINDOW_NS: u64 = 100_000;

/// Widest snapshot window, in nanoseconds.
pub const SCC_MAX_WINDOW_NS: u64 = 5_000_000;

/// Latency at which there is no headroom left, in nanoseconds.
pub const SCC_TARGET_P99_NS: u64 = 2_000_000;

/// Threads that may register.
pub const MAX_THREADS: usize = 256;

/// Simulated cost of freeing a node alone, in nanoseconds: 20.0.
pub const SIM_BASE_FREE_NS_BITS: u64 = 0x4034_0000_0000_0000;

/// Simulated extra cost per thread that frees at the same time: 150.0.
pub const SIM_CONTENDED_FREE_NS_BITS: u64 = 0x4062_C000_0000_0000;

} // verus!
