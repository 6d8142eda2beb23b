//! Pressure-adaptive concurrent epoch reclamation.
//!
//! Threads that update shared data retire the nodes that they replace and free
//! them later, when no snapshot can reach them any more. How eagerly they free
//! follows the snapshot pressure: the smoothed share of snapshots among the
//! operations of a thread.
//!
//! - [`params`]: the constants.
//! - [`system`]: pressure, batches, strides, modes at work, the write path.
//! - [`mode`]: the three modes and the dead band between them.
//! - [`scc`]: snapshots of the same short window share one timestamp.
//! - [`announce`]: which timestamps are in use.
//! - [`limbo`], [`freed`], [`local`]: retired nodes, what became of them, and the
//!   state of one thread.
//! - [`bench`], [`abtree`], [`workload`], [`runs`]: the benchmarks.
//! - [`access`], [`memory`]: atomics that leave a trace, and what the traces of
//!   several threads mean together.
//! - [`binary64`], [`rounding`], [`accuracy`]: double-precision arithmetic on bit
//!   patterns, and how near it is to that of real numbers.
//! - [`waiting`]: the parts of `std` that tell the time and wait.
//! - [`formula_laws`], [`draw_laws`], [`pressure_laws`]: what the estimates, the
//!   sizes and the draws come to.
//! - [`write_laws`], [`snapshot_laws`]: what one operation does to memory and to
//!   the nodes of its thread.
//! - [`scc_laws`], [`weak_memory`], [`sharing_laws`], [`tally_laws`],
//!   [`reclaim_laws`], [`run_laws`], [`duration_laws`]: what holds of several calls
//!   together.

pub mod abtree;
pub mod access;
pub mod accuracy;
pub mod announce;
pub mod bench;
pub mod binary64;
pub mod draw_laws;
pub mod duration_laws;
pub mod formula_laws;
pub mod freed;
pub mod limbo;
pub mod local;
pub mod memory;
pub mod mode;
pub mod params;
pub mod pressure_laws;
pub mod reclaim_laws;
pub mod rounding;
pub mod run_laws;
pub mod runs;
pub mod scc;
pub mod scc_laws;
pub mod sharing_laws;
pub mod snapshot_laws;
pub mod system;
pub mod tally_laws;
pub mod waiting;
pub mod weak_memory;
pub mod workload;
pub mod write_laws;

pub use abtree::AbtreeFFI;
pub use access::Trace;
pub use announce::{AnnouncementSlot, AnnouncementTable};
pub use bench::{AllocatorPressure, BenchResult, Strategy};
pub use binary64::Binary64;
pub use limbo::{LimboBag, VersionNode};
pub use local::ThreadLocalState;
pub use mode::{select_gc_mode, select_gc_mode_with_hysteresis, GcMode};
pub use scc::Scc;
pub use system::PacerSystem;
pub use workload::Workload;
