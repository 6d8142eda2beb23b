//! What a thread keeps to itself.

use crate::access::{Access, Common, Trace};
use crate::binary64::Binary64;
use crate::limbo::{LimboBag, Retired};
use crate::mode::GcMode;
use vstd::prelude::*;

verus! {

/// The state of one thread.
pub struct ThreadLocalState<V, F = (), W = Common> {
    /// Writes since the pressure was last sampled.
    pub win_writes: u64,
    /// Snapshots since the pressure was last sampled.
    pub win_snaps: u64,
    /// Writes in all.
    pub op_counter: u64,
    /// Attempts to advance the epoch that failed in a row.
    pub fail_streak: u32,
    /// Smoothed snapshot pressure.
    pub spi_ema: Binary64,
    /// Writes since the last drain, while freeing is held back.
    pub hold_ticks: u64,
    /// The mode selected last.
    pub gc_mode: GcMode,
    /// Nodes that the thread has retired and not freed.
    pub limbo_bag: LimboBag<V, F, W>,
    /// Slot of the thread in the announcement table.
    pub tid: usize,
    /// Accesses of the thread to shared memory.
    pub trace: Trace<W>,
}

/// The state of one thread, with the bag, what was freed out of it and the trace
/// as sequences.
#[verifier::ext_equal]
pub struct Local<V, F, W> {
    pub win_writes: u64,
    pub win_snaps: u64,
    pub op_counter: u64,
    pub fail_streak: u32,
    pub spi_ema: Binary64,
    pub hold_ticks: u64,
    pub gc_mode: GcMode,
    pub bag: Seq<(u64, Retired<V, F, W>)>,
    pub freed: Seq<(u64, Retired<V, F, W>)>,
    pub tid: usize,
    pub trace: Seq<Access>,
}

impl<V, F, W> View for ThreadLocalState<V, F, W> {
    type V = Local<V, F, W>;

    open spec fn view(&self) -> Local<V, F, W> {
        Local {
            win_writes: self.win_writes,
            win_snaps: self.win_snaps,
            op_counter: self.op_counter,
            fail_streak: self.fail_streak,
            spi_ema: self.spi_ema,
            hold_ticks: self.hold_ticks,
            gc_mode: self.gc_mode,
            bag: self.limbo_bag@,
            freed: self.limbo_bag.freed(),
            tid: self.tid,
            trace: self.trace@,
        }
    }
}

/// The state of a thread that has done nothing yet.
pub open spec fn fresh<V, F, W>(tid: usize) -> Local<V, F, W> {
    Local {
        win_writes: 0,
        win_snaps: 0,
        op_counter: 0,
        fail_streak: 0,
        spi_ema: Binary64 { bits: 0 },
        hold_ticks: 0,
        gc_mode: GcMode::AggressiveEbr,
        bag: Seq::empty(),
        freed: Seq::empty(),
        tid,
        trace: Seq::empty(),
    }
}

impl<V, F> ThreadLocalState<V, F> {
    pub fn new(tid: usize) -> (r: Self)
        ensures
            r@ == fresh::<V, F, Common>(tid),
    {
        ThreadLocalState {
            win_writes: 0,
            win_snaps: 0,
            op_counter: 0,
            fail_streak: 0,
            spi_ema: Binary64::from_bits(0),
            hold_ticks: 0,
            gc_mode: GcMode::AggressiveEbr,
            limbo_bag: LimboBag::new(),
            tid,
            trace: Trace::new(),
        }
    }
}

} // verus!
