//! The state that all threads share, and the operations of a thread on it.

use crate::access;
use crate::access::{Access, Common, MemOrder, Origin, Place, SharedCell, Trace};
use crate::announce;
use crate::announce::AnnouncementTable;
use crate::binary64;
use crate::binary64::Binary64;
use crate::limbo;
use crate::limbo::{Retired, VersionNode};
use crate::local::{Local, ThreadLocalState};
use crate::mode;
use crate::mode::{select_gc_mode_with_hysteresis, GcMode};
use crate::params::{
    AF_BATCH_K, AGGRESSIVE_DRAIN_PER_OP, ALPHA_BITS, BASE_RETRY_MS, BASE_STRIDE,
    CONTINUOUS_DRAIN_PER_OP, HOLD_LIMIT, MAX_BATCH, MAX_RETRY_MS, MAX_THREADS, MIN_BATCH,
    SCC_MIN_WINDOW_NS, SPI_EMA_ALPHA_BITS, TREND_THRESHOLD_BITS, TREND_WEIGHT_BITS, WINDOW_SIZE,
};
use crate::scc;
use crate::scc::{Point, Scc};
use std::time::Instant;
use vstd::arithmetic::power2::*;
use vstd::prelude::*;

verus! {

/// The share of snapshots among the operations of a window.
pub open spec fn window_pressure(writes: u64, snaps: u64) -> Binary64 {
    binary64::quotient(
        binary64::from_whole(snaps as nat),
        binary64::from_whole((writes + snaps + 1) as nat),
    )
}

/// The smoothed pressure after a window.
#[verifier::opaque]
pub open spec fn smoothed_pressure(previous: Binary64, writes: u64, snaps: u64) -> Binary64 {
    let weight = binary64::word(SPI_EMA_ALPHA_BITS);
    binary64::sum(
        binary64::product(
            previous,
            binary64::difference(binary64::word(binary64::ONE), weight),
        ),
        binary64::product(window_pressure(writes, snaps), weight),
    )
}

/// How many nodes a pass of the continuous policy frees at most: fewer the
/// higher the pressure, and fewer still where it rises fast.
#[verifier::opaque]
pub open spec fn batch_size(spi: Binary64, delta_spi: Binary64) -> u64 {
    let one = binary64::word(binary64::ONE);
    let steady = binary64::product(
        binary64::from_whole(MAX_BATCH as nat),
        binary64::difference(one, spi),
    );
    let trend = if binary64::less(binary64::word(TREND_THRESHOLD_BITS), delta_spi) {
        binary64::product(
            steady,
            binary64::difference(
                one,
                binary64::product(delta_spi, binary64::word(TREND_WEIGHT_BITS)),
            ),
        )
    } else {
        steady
    };
    let batch = binary64::truncated(trend);
    if batch >= MIN_BATCH {
        batch
    } else {
        MIN_BATCH
    }
}

/// Writes between two attempts to advance the epoch: more the higher the pressure.
#[verifier::opaque]
pub open spec fn epoch_stride(spi: Binary64) -> u64 {
    binary64::nearest_whole(
        binary64::product(
            binary64::from_whole(BASE_STRIDE as nat),
            binary64::sum(
                binary64::word(binary64::ONE),
                binary64::product(binary64::word(ALPHA_BITS), spi),
            ),
        ),
    )
}

/// The wait before a retry doubles with every failure, up to a limit.
pub open spec fn retry_wait(fail_streak: u32) -> nat {
    let wait = BASE_RETRY_MS as nat * pow2(fail_streak as nat);
    if wait <= MAX_RETRY_MS {
        wait
    } else {
        MAX_RETRY_MS as nat
    }
}

/// The state that all threads share.
pub struct PacerSystem<W = Common> {
    pub global_epoch: SharedCell<W>,
    /// Snapshot pressure as a binary64 word. Threads overwrite each other's
    /// estimates; an approximate one is good enough.
    pub approx_spi: SharedCell<W>,
    /// Change of the snapshot pressure as a binary64 word.
    pub delta_spi: SharedCell<W>,
    pub scc: Scc<W>,
    pub announce: AnnouncementTable<W>,
}

/// The words of the system.
pub open spec fn places() -> Set<Place> {
    scc::places().union(announce::places()).insert(Place::GlobalEpoch).insert(
        Place::ApproxSpi,
    ).insert(Place::DeltaSpi)
}

/// The epoch after `epoch`.
pub open spec fn next_epoch(epoch: u64) -> u64 {
    ((epoch + 1) % 0x1_0000_0000_0000_0000) as u64
}

/// The accesses of an attempt to advance the epoch.
pub open spec fn advance_accesses(epoch: u64, outcome: Result<u64, u64>) -> Seq<Access> {
    seq![
        Access::Load { at: Place::GlobalEpoch, order: MemOrder::SeqCst, value: epoch },
        Access::Exchange {
            at: Place::GlobalEpoch,
            success: MemOrder::SeqCst,
            failure: MemOrder::Relaxed,
            expected: epoch,
            replacement: next_epoch(epoch),
            outcome,
        },
    ]
}

/// Whether `t` is an attempt to advance the epoch.
pub open spec fn is_advance(t: Seq<Access>) -> bool {
    t == advance_accesses(t[0]->Load_value, t[1]->outcome)
}

/// Whether an attempt to advance the epoch succeeded.
pub open spec fn advanced(t: Seq<Access>) -> bool {
    t[1]->outcome is Ok
}

/// How many nodes one write may free, and the held-back writes after it.
pub open spec fn tick_limit(gc_mode: GcMode, hold_ticks: u64) -> (nat, u64) {
    match gc_mode {
        GcMode::AggressiveEbr => (AGGRESSIVE_DRAIN_PER_OP as nat, 0),
        GcMode::AmortisedFree => (AF_BATCH_K as nat, 0),
        GcMode::ConservativeHold => if hold_ticks + 1 >= HOLD_LIMIT {
            (HOLD_LIMIT as nat, 0)
        } else {
            (0, (hold_ticks + 1) as u64)
        },
    }
}

/// The timestamp below which a scan lets nodes be freed.
pub open spec fn safe_after(scan: Seq<Access>) -> u64 {
    announce::oldest(announce::scanned(scan))
}

/// Whether a thread went from `before` to `after` by scanning the announcements
/// and draining at most `k` nodes, of which it freed `freed`.
pub open spec fn drains<V, F, W>(
    before: Local<V, F, W>,
    after: Local<V, F, W>,
    k: nat,
    freed: nat,
) -> bool {
    let scan = access::since(before.trace, after.trace);
    &&& announce::is_scan(scan)
    &&& freed == limbo::drained(before.bag, safe_after(scan), k)
    &&& after == Local {
        bag: before.bag.skip(freed as int),
        freed: before.freed + before.bag.take(freed as int),
        trace: before.trace + scan,
        ..before
    }
}

/// Whether a thread went from `before` to `after` by the freeing of one write
/// in the discrete policy.
pub open spec fn ticks<V, F, W>(before: Local<V, F, W>, after: Local<V, F, W>, freed: nat) -> bool {
    let (k, hold_ticks) = tick_limit(before.gc_mode, before.hold_ticks);
    drains(Local { hold_ticks, ..before }, after, k, freed)
}

/// A thread after it has sampled the pressure. An empty window changes nothing.
pub open spec fn resampled<V, F, W>(t: Local<V, F, W>) -> Local<V, F, W> {
    if t.win_writes == 0 && t.win_snaps == 0 {
        t
    } else {
        let spi_ema = smoothed_pressure(t.spi_ema, t.win_writes, t.win_snaps);
        let delta = binary64::difference(spi_ema, t.spi_ema);
        Local {
            win_writes: 0,
            win_snaps: 0,
            spi_ema,
            trace: t.trace + seq![
                Access::Store {
                    at: Place::ApproxSpi,
                    order: MemOrder::Relaxed,
                    value: spi_ema.bits,
                },
                Access::Store {
                    at: Place::DeltaSpi,
                    order: MemOrder::Relaxed,
                    value: delta.bits,
                },
            ],
            ..t
        }
    }
}

/// Whether a thread went from `before` to `after` by an attempt to advance the
/// epoch.
pub open spec fn steps_epoch<V, F, W>(before: Local<V, F, W>, after: Local<V, F, W>) -> bool {
    let t = access::since(before.trace, after.trace);
    &&& is_advance(t)
    &&& after == Local {
        fail_streak: if advanced(t) {
            0
        } else if before.fail_streak < u32::MAX {
            (before.fail_streak + 1) as u32
        } else {
            u32::MAX
        },
        trace: before.trace + t,
        ..before
    }
}

/// The load of the published change of the pressure.
pub open spec fn delta_load(delta: Binary64) -> Access {
    Access::Load { at: Place::DeltaSpi, order: MemOrder::Relaxed, value: delta.bits }
}

/// The change of the pressure that was the first thing read since `before`.
pub open spec fn delta_read(before: Seq<Access>, after: Seq<Access>) -> Binary64 {
    Binary64 { bits: access::since(before, after)[0]->Load_value }
}

/// Whether a thread went from `before` to `after` by a pass of the continuous
/// policy: it reads the trend, drains a batch of a size to match, and attempts
/// to advance the epoch in step with its stride.
pub open spec fn reclaims_batch<V, F, W>(
    before: Local<V, F, W>,
    after: Local<V, F, W>,
    freed: nat,
) -> bool {
    let delta = delta_read(before.trace, after.trace);
    let k = batch_size(before.spi_ema, delta) as usize as nat;
    let read = Local { trace: before.trace.push(delta_load(delta)), ..before };
    exists|drained: Local<V, F, W>|
        {
            &&& #[trigger] drains(read, drained, k, freed)
            &&& if stride_due(before.op_counter, before.spi_ema) {
                steps_epoch(drained, after)
            } else {
                after == drained
            }
        }
}

/// Whether a thread attempts to advance the epoch at its present write.
pub open spec fn stride_due(op_counter: u64, spi: Binary64) -> bool {
    op_counter % epoch_stride(spi) == 0
}

/// Whether a thread went from `before` to `after` by selecting a mode and, in
/// step with its stride, attempting to advance the epoch.
pub open spec fn reclaims<V, F, W>(before: Local<V, F, W>, after: Local<V, F, W>) -> bool {
    let gc_mode = mode::mode_after(before.spi_ema, before.gc_mode);
    let selected = Local { gc_mode, ..before };
    if gc_mode != GcMode::ConservativeHold && stride_due(before.op_counter, before.spi_ema) {
        steps_epoch(selected, after)
    } else {
        after == selected
    }
}

/// Whether the stride is defined where selecting a mode needs it.
pub open spec fn may_reclaim<V, F, W>(t: Local<V, F, W>) -> bool {
    mode::mode_after(t.spi_ema, t.gc_mode) != GcMode::ConservativeHold ==> epoch_stride(t.spi_ema)
        != 0
}

/// Whether a write closes a window.
pub open spec fn window_due(op_counter: u64) -> bool {
    op_counter % WINDOW_SIZE == 0
}

/// Whether a thread may count one more held-back write.
pub open spec fn may_tick<V, F, W>(t: Local<V, F, W>) -> bool {
    t.gc_mode == GcMode::ConservativeHold ==> t.hold_ticks < u64::MAX
}

/// Whether the operations of the window can be counted together.
pub open spec fn may_resample<V, F, W>(t: Local<V, F, W>) -> bool {
    t.win_writes + t.win_snaps < u64::MAX
}

/// Whether a thread went from `before` to `after` by counting a write and
/// stamping it with `ts`, the epoch, which moves on by one.
pub open spec fn prepares_write<V, F, W>(
    before: Local<V, F, W>,
    after: Local<V, F, W>,
    ts: u64,
) -> bool {
    after == Local {
        win_writes: (before.win_writes + 1) as u64,
        op_counter: (before.op_counter + 1) as u64,
        trace: before.trace.push(
            Access::FetchAdd {
                at: Place::GlobalEpoch,
                order: MemOrder::SeqCst,
                delta: 1,
                previous: ts,
            },
        ),
        ..before
    }
}

/// A thread that has retired a node of the library's own.
pub open spec fn retired<V, F, W>(
    t: Local<V, F, W>,
    node: Box<VersionNode<V, W>>,
    ts: u64,
) -> Local<V, F, W> {
    Local { bag: t.bag.push((ts, Retired::Owned(node))), ..t }
}

/// Whether a thread went from `before` to `after` by what follows a write in
/// the discrete policy: the freeing of one write and, where the write closes a
/// window, a sample of the pressure and the selection of a mode.
pub open spec fn finishes_write<V, F, W>(
    before: Local<V, F, W>,
    after: Local<V, F, W>,
    freed: nat,
) -> bool {
    exists|ticked: Local<V, F, W>|
        {
            &&& #[trigger] ticks(before, ticked, freed)
            &&& if window_due(before.op_counter) {
                reclaims(resampled(ticked), after)
            } else {
                after == ticked
            }
        }
}

/// The accesses that follow a snapshot of `ts`: its latency is recorded, the
/// smoothed one having been `previous`, and it is announced.
pub open spec fn snapshot_taken_accesses(
    tid: usize,
    ts: u64,
    previous: u64,
    latency_ns: u64,
) -> Seq<Access> {
    seq![
        Access::Load { at: Place::Latency, order: MemOrder::Relaxed, value: previous },
        Access::Store {
            at: Place::Latency,
            order: MemOrder::Relaxed,
            value: scc::smoothed_latency(previous, latency_ns),
        },
        Access::Store { at: Place::Slot(tid as nat), order: MemOrder::SeqCst, value: ts },
    ]
}

/// Whether a thread went from `before` to `after` by what follows a snapshot.
pub open spec fn announces_snapshot<V, F, W>(
    before: Local<V, F, W>,
    after: Local<V, F, W>,
    ts: u64,
    latency_ns: u64,
) -> bool {
    let previous = after.trace[before.trace.len() as int]->Load_value;
    after == Local {
        trace: before.trace + snapshot_taken_accesses(before.tid, ts, previous, latency_ns),
        ..before
    }
}

/// Whether a thread went from `before` to `after` by asking the coordinator for
/// a snapshot.
pub open spec fn asks_for_snapshot<V, F, W>(
    before: Local<V, F, W>,
    after: Local<V, F, W>,
    now_ns: u64,
    ts: Option<u64>,
) -> bool {
    let t = access::since(before.trace, after.trace);
    &&& after == Local {
        win_snaps: (before.win_snaps + 1) as u64,
        trace: before.trace + t,
        ..before
    }
    &&& scc::path(now_ns, Point::Start, t) == (match ts {
        Some(ts) => Some(Point::Done { ts }),
        None => Some(Point::Poll),
    })
    &&& ts is None ==> scc::polls(t) == u64::MAX
}

/// A thread that has looked at the clock.
pub open spec fn clocked<V, F, W>(t: Local<V, F, W>, start: Instant) -> Local<V, F, W> {
    Local { trace: t.trace.push(Access::Started { instant: start }), ..t }
}

/// A thread that has read how long it is since it looked at the clock.
pub open spec fn timed<V, F, W>(
    t: Local<V, F, W>,
    since: Instant,
    elapsed_ns: u128,
) -> Local<V, F, W> {
    Local { trace: t.trace.push(Access::Reading { since, elapsed_ns }), ..t }
}

/// Whether a thread went from `before` to `after` by taking a snapshot. The
/// latency that it records is what the clock reads after the snapshot, since the
/// look at it before.
pub open spec fn takes_snapshot<V, F, W>(
    before: Local<V, F, W>,
    after: Local<V, F, W>,
    now_ns: u64,
    ts: Option<u64>,
) -> bool {
    let start = after.trace[before.trace.len() as int]->instant;
    match ts {
        Some(ts) => exists|asked: Local<V, F, W>, elapsed_ns: u128|
            {
                &&& #[trigger] asks_for_snapshot(clocked(before, start), asked, now_ns, Some(ts))
                &&& announces_snapshot(
                    #[trigger] timed(asked, start, elapsed_ns),
                    after,
                    ts,
                    elapsed_ns as u64,
                )
            },
        None => asks_for_snapshot(clocked(before, start), after, now_ns, None),
    }
}

impl PacerSystem {
    pub fn new() -> (r: Self)
        ensures
            r.wf(),
            r.as_made(),
    {
        PacerSystem::made_from(&mut Origin::new())
    }
}

impl<W> PacerSystem<W> {
    /// Whether every word of the system is labelled as what it is.
    pub open spec fn wf(&self) -> bool {
        &&& self.global_epoch.place() == Place::GlobalEpoch
        &&& self.approx_spi.place() == Place::ApproxSpi
        &&& self.delta_spi.place() == Place::DeltaSpi
        &&& self.scc.wf()
        &&& self.announce.wf()
    }

    /// Whether every word was made with what it has at the start: no window, no
    /// snapshot, no pressure, no thread, and the first epoch.
    pub open spec fn as_made(&self) -> bool {
        &&& self.global_epoch.initial() == 1
        &&& self.approx_spi.initial() == 0
        &&& self.delta_spi.initial() == 0
        &&& self.scc.initially(Place::WindowGen) == 0
        &&& self.scc.initially(Place::CurrentTs) == 0
        &&& self.scc.initially(Place::WindowOpenAt) == 0
        &&& self.scc.initially(Place::HitCount) == 0
        &&& self.scc.initially(Place::TotalCount) == 0
        &&& self.scc.initially(Place::AdaptiveWidth) == SCC_MIN_WINDOW_NS
        &&& self.scc.initially(Place::Latency) == 0
        &&& self.announce.initially(Place::ActiveCount) == 0
        &&& forall|i: nat|
            i < MAX_THREADS ==> #[trigger] self.announce.initially(Place::Slot(i)) == 0
    }

    pub(crate) fn made_from(origin: &mut Origin<W>) -> (r: Self)
        requires
            old(origin)@.disjoint(places()),
        ensures
            r.wf(),
            r.as_made(),
            final(origin)@ == old(origin)@.union(places()),
    {
        assert forall|at: Place| places().contains(at) implies !origin@.contains(at) by {}
        let global_epoch: SharedCell<W> = SharedCell::new(1, Ghost(Place::GlobalEpoch), origin);
        let approx_spi: SharedCell<W> = SharedCell::new(0, Ghost(Place::ApproxSpi), origin);
        let delta_spi: SharedCell<W> = SharedCell::new(0, Ghost(Place::DeltaSpi), origin);
        let scc: Scc<W> = Scc::made_from(origin);
        let announce: AnnouncementTable<W> = AnnouncementTable::made_from(origin);
        assert(origin@ =~= old(origin)@.union(places()));
        PacerSystem { global_epoch, approx_spi, delta_spi, scc, announce }
    }

    /// The snapshot pressure that was published last.
    pub fn load_spi(&self, trace: &mut Trace<W>) -> (spi: Binary64)
        requires
            self.wf(),
        ensures
            final(trace)@ == old(trace)@.push(
                Access::Load { at: Place::ApproxSpi, order: MemOrder::Relaxed, value: spi.bits },
            ),
    {
        Binary64::from_bits(self.approx_spi.load(MemOrder::Relaxed, trace))
    }

    /// The change of the snapshot pressure that was published last.
    pub fn load_delta_spi(&self, trace: &mut Trace<W>) -> (delta: Binary64)
        requires
            self.wf(),
        ensures
            final(trace)@ == old(trace)@.push(
                Access::Load { at: Place::DeltaSpi, order: MemOrder::Relaxed, value: delta.bits },
            ),
    {
        Binary64::from_bits(self.delta_spi.load(MemOrder::Relaxed, trace))
    }

    /// How many nodes a pass of the continuous policy frees at most.
    pub fn compute_batch_k(&self, spi: Binary64, delta_spi: Binary64) -> (k: usize)
        ensures
            k == batch_size(spi, delta_spi) as usize,
    {
        proof {
            reveal(batch_size);
        }
        let one: Binary64 = Binary64::from_bits(binary64::ONE);
        let mut bk: Binary64 = Binary64::from_u64(MAX_BATCH).times(one.minus(spi));
        if Binary64::from_bits(TREND_THRESHOLD_BITS).is_less(delta_spi) {
            bk =
            bk.times(one.minus(delta_spi.times(Binary64::from_bits(TREND_WEIGHT_BITS))));
        }
        let batch: u64 = bk.to_u64();
        if batch >= MIN_BATCH {
            batch as usize
        } else {
            MIN_BATCH as usize
        }
    }

    /// Writes between two attempts to advance the epoch.
    pub fn compute_epoch_stride(&self, spi: Binary64) -> (stride: u64)
        ensures
            stride == epoch_stride(spi),
    {
        proof {
            reveal(epoch_stride);
        }
        Binary64::from_u64(BASE_STRIDE).times(
            Binary64::from_bits(binary64::ONE).plus(
                Binary64::from_bits(ALPHA_BITS).times(spi),
            ),
        ).to_nearest_u64()
    }

    /// Milliseconds to wait after so many failures in a row.
    pub fn compute_retry_wait(&self, fail_streak: u32) -> (ms: u64)
        ensures
            ms == retry_wait(fail_streak),
    {
        let mut wait: u64 = BASE_RETRY_MS;
        let mut i: u32 = 0;
        proof {
            lemma2_to64();
        }
        while i < fail_streak && wait < MAX_RETRY_MS
            invariant
                i <= fail_streak,
                wait == pow2(i as nat),
                wait <= MAX_RETRY_MS,
            decreases fail_streak - i,
        {
            proof {
                lemma_pow2_unfold((i + 1) as nat);
                lemma2_to64();
                if i >= 5 {
                    crate::rounding::lemma_pow2_split(5, i as nat);
                }
            }
            wait = wait * 2;
            i = i + 1;
        }
        proof {
            crate::rounding::lemma_pow2_split(i as nat, fail_streak as nat);
        }
        wait
    }

    /// Tries to advance the epoch by one. Fails where another thread was faster.
    pub fn try_advance_epoch(&self, trace: &mut Trace<W>) -> (ok: bool)
        requires
            self.wf(),
        ensures
            ({
                let t = access::since(old(trace)@, final(trace)@);
                &&& final(trace)@ == old(trace)@ + t
                &&& is_advance(t)
                &&& ok == advanced(t)
            }),
    {
        let epoch: u64 = self.global_epoch.load(MemOrder::SeqCst, trace);
        let outcome: Result<u64, u64> = self.global_epoch.compare_exchange(
            epoch,
            epoch.wrapping_add(1),
            MemOrder::SeqCst,
            MemOrder::Relaxed,
            trace,
        );
        proof {
            assert(access::since(old(trace)@, trace@) == advance_accesses(epoch, outcome));
        }
        outcome.is_ok()
    }

    /// Every node older than this is out of reach of all announced snapshots.
    pub fn safe_reclaim_ts(&self, trace: &mut Trace<W>) -> (safe_ts: u64)
        requires
            self.wf(),
        ensures
            ({
                let scan = access::since(old(trace)@, final(trace)@);
                &&& final(trace)@ == old(trace)@ + scan
                &&& announce::is_scan(scan)
                &&& safe_ts == announce::oldest(announce::scanned(scan))
            }),
    {
        self.announce.min_active_ts(trace)
    }

    /// Takes a slot for a thread. `None` where all are taken.
    pub fn register_thread(&self, trace: &mut Trace<W>) -> (tid: Option<usize>)
        requires
            self.wf(),
        ensures
            ({
                let taken = final(trace)@.last()->FetchAdd_previous as u32;
                &&& final(trace)@ == old(trace)@.push(
                    access::addition_to_count(Place::ActiveCount, MemOrder::SeqCst, 1, taken),
                )
                &&& tid == announce::id_of(taken)
            }),
    {
        self.announce.register(trace)
    }

    /// Announces that thread `tid` reads from the snapshot of `ts`.
    pub fn announce_snapshot(&self, tid: usize, ts: u64, trace: &mut Trace<W>)
        requires
            self.wf(),
            tid < MAX_THREADS,
        ensures
            final(trace)@ == old(trace)@.push(
                Access::Store { at: Place::Slot(tid as nat), order: MemOrder::SeqCst, value: ts },
            ),
    {
        self.announce.announce(tid, ts, trace);
    }

    /// Takes back the announcement of thread `tid`.
    pub fn release_snapshot(&self, tid: usize, trace: &mut Trace<W>)
        requires
            self.wf(),
            tid < MAX_THREADS,
        ensures
            final(trace)@ == old(trace)@.push(
                Access::Store { at: Place::Slot(tid as nat), order: MemOrder::Release, value: 0 },
            ),
    {
        self.announce.release(tid, trace);
    }

    /// Samples the pressure of the window, smooths it, publishes it, and starts
    /// a new window.
    pub fn resample_spi<V, F>(&self, t: &mut ThreadLocalState<V, F, W>)
        requires
            self.wf(),
            may_resample(old(t)@),
        ensures
            final(t)@ == resampled(old(t)@),
    {
        let w: u64 = t.win_writes;
        let s: u64 = t.win_snaps;
        let total: u64 = w + s;
        if total == 0 {
            return;
        }
        proof {
            reveal(smoothed_pressure);
        }
        let weight: Binary64 = Binary64::from_bits(SPI_EMA_ALPHA_BITS);
        let win_spi: Binary64 = Binary64::from_u64(s).over(Binary64::from_u64(total + 1));
        let previous: Binary64 = t.spi_ema;
        let spi_ema: Binary64 = previous.times(
            Binary64::from_bits(binary64::ONE).minus(weight),
        ).plus(win_spi.times(weight));
        let delta: Binary64 = spi_ema.minus(previous);
        t.spi_ema = spi_ema;
        self.approx_spi.store(spi_ema.bits, MemOrder::Relaxed, &mut t.trace);
        self.delta_spi.store(delta.bits, MemOrder::Relaxed, &mut t.trace);
        t.win_writes = 0;
        t.win_snaps = 0;
        assert(t@ == resampled(old(t)@));
    }

    /// Scans the announcements and frees at most `k` nodes that are older than
    /// all of them.
    fn drain_safe<V, F>(&self, t: &mut ThreadLocalState<V, F, W>, k: usize) -> (freed: usize)
        requires
            self.wf(),
        ensures
            drains(old(t)@, final(t)@, k as nat, freed as nat),
    {
        let safe_ts: u64 = self.safe_reclaim_ts(&mut t.trace);
        let freed: usize = t.limbo_bag.drain(safe_ts, k);
        assert(t@ == Local {
            bag: old(t)@.bag.skip(freed as int),
            freed: old(t)@.freed + old(t)@.bag.take(freed as int),
            trace: old(t)@.trace + access::since(old(t)@.trace, t@.trace),
            ..old(t)@
        });
        freed
    }

    /// Frees what one write may free in the mode selected last. While freeing is
    /// held back, every so many writes a batch of about as many nodes is drained
    /// after all, so that the backlog stays bounded.
    pub fn drain_discrete_tick<V, F>(&self, t: &mut ThreadLocalState<V, F, W>) -> (freed: usize)
        requires
            self.wf(),
            may_tick(old(t)@),
        ensures
            ticks(old(t)@, final(t)@, freed as nat),
    {
        match t.gc_mode {
            GcMode::AggressiveEbr => {
                t.hold_ticks = 0;
                self.drain_safe(t, AGGRESSIVE_DRAIN_PER_OP)
            },
            GcMode::AmortisedFree => {
                t.hold_ticks = 0;
                self.drain_safe(t, AF_BATCH_K)
            },
            GcMode::ConservativeHold => {
                t.hold_ticks = t.hold_ticks + 1;
                if t.hold_ticks >= HOLD_LIMIT {
                    t.hold_ticks = 0;
                    self.drain_safe(t, HOLD_LIMIT as usize)
                } else {
                    self.drain_safe(t, 0)
                }
            },
        }
    }

    /// Selects the mode for the smoothed pressure and, unless freeing is held
    /// back, attempts to advance the epoch in step with the stride. Frees
    /// nothing itself.
    pub fn reclaim_discrete<V, F>(&self, t: &mut ThreadLocalState<V, F, W>) -> (freed: usize)
        requires
            self.wf(),
            may_reclaim(old(t)@),
        ensures
            reclaims(old(t)@, final(t)@),
            freed == 0,
    {
        let spi: Binary64 = t.spi_ema;
        let selected: GcMode = select_gc_mode_with_hysteresis(spi, t.gc_mode);
        t.gc_mode = selected;
        let stride: u64 = self.compute_epoch_stride(spi);
        match selected {
            GcMode::ConservativeHold => {},
            _ => {
                if t.op_counter % stride == 0 {
                    self.step_epoch(t);
                }
            },
        }
        0
    }

    /// Frees one node, as many as a write retires.
    pub fn drain_continuous_tick<V, F>(&self, t: &mut ThreadLocalState<V, F, W>) -> (freed: usize)
        requires
            self.wf(),
        ensures
            drains(old(t)@, final(t)@, CONTINUOUS_DRAIN_PER_OP as nat, freed as nat),
    {
        self.drain_safe(t, CONTINUOUS_DRAIN_PER_OP)
    }

    /// Frees a batch whose size follows the pressure and its trend, and attempts
    /// to advance the epoch in step with the stride.
    pub fn reclaim_continuous<V, F>(&self, t: &mut ThreadLocalState<V, F, W>) -> (freed: usize)
        requires
            self.wf(),
            epoch_stride(old(t).spi_ema) != 0,
        ensures
            reclaims_batch(old(t)@, final(t)@, freed as nat),
    {
        let spi: Binary64 = t.spi_ema;
        let delta: Binary64 = self.load_delta_spi(&mut t.trace);
        let ghost read = t@;
        let k: usize = self.compute_batch_k(spi, delta);
        let stride: u64 = self.compute_epoch_stride(spi);
        let freed: usize = self.drain_safe(t, k);
        let ghost drained = t@;
        if t.op_counter % stride == 0 {
            self.step_epoch(t);
        }
        proof {
            assert(read == Local {
                trace: old(t)@.trace.push(delta_load(delta)),
                ..old(t)@
            });
            assert(drains(read, drained, batch_size(spi, delta) as usize as nat, freed as nat));
            assert(delta_read(old(t)@.trace, t@.trace) == delta);
        }
        freed
    }

    fn step_epoch<V, F>(&self, t: &mut ThreadLocalState<V, F, W>)
        requires
            self.wf(),
        ensures
            steps_epoch(old(t)@, final(t)@),
    {
        if self.try_advance_epoch(&mut t.trace) {
            t.fail_streak = 0;
        } else if t.fail_streak < u32::MAX {
            t.fail_streak = t.fail_streak + 1;
        }
        assert(t@.trace == old(t)@.trace + access::since(old(t)@.trace, t@.trace));
    }

    /// Records the latency of a snapshot and announces it.
    pub fn snapshot_taken<V, F>(
        &self,
        t: &mut ThreadLocalState<V, F, W>,
        ts: u64,
        latency_ns: u64,
    )
        requires
            self.wf(),
            old(t).tid < MAX_THREADS,
        ensures
            announces_snapshot(old(t)@, final(t)@, ts, latency_ns),
    {
        self.scc.record_latency_ns(latency_ns, &mut t.trace);
        self.announce_snapshot(t.tid, ts, &mut t.trace);
        proof {
            let previous = t@.trace[old(t)@.trace.len() as int]->Load_value;
            assert(t@.trace == old(t)@.trace + snapshot_taken_accesses(
                old(t).tid,
                ts,
                previous,
                latency_ns,
            ));
        }
    }

    /// Takes a snapshot as of `now_ns` and announces it. `None` only where the
    /// coordinator gave up, as `Scc::take_snapshot` says; nothing is announced
    /// then.
    pub fn take_snapshot<V, F>(
        &self,
        t: &mut ThreadLocalState<V, F, W>,
        now_ns: u64,
    ) -> (ts: Option<u64>)
        requires
            self.wf(),
            old(t).win_snaps < u64::MAX,
            old(t).tid < MAX_THREADS,
        ensures
            takes_snapshot(old(t)@, final(t)@, now_ns, ts),
    {
        let start: Instant = t.trace.start_clock();
        let ghost began = t@;
        assert(began == clocked(old(t)@, start));
        t.win_snaps = t.win_snaps + 1;
        let ts: Option<u64> = self.scc.take_snapshot(now_ns, &self.global_epoch, &mut t.trace);
        let ghost asked = t@;
        proof {
            assert(asks_for_snapshot(began, asked, now_ns, ts));
            assert(asked.trace[old(t)@.trace.len() as int] == Access::Started { instant: start });
        }
        match ts {
            Some(taken) => {
                let elapsed_ns: u128 = t.trace.read_clock(&start);
                assert(t@ == timed(asked, start, elapsed_ns));
                self.snapshot_taken(t, taken, elapsed_ns as u64);
                proof {
                    assert(announces_snapshot(
                        timed(asked, start, elapsed_ns),
                        t@,
                        taken,
                        elapsed_ns as u64,
                    ));
                }
                Some(taken)
            },
            None => None,
        }
    }

    /// Takes back the announcement of the thread.
    pub fn release_snapshot_for<V, F>(&self, t: &mut ThreadLocalState<V, F, W>)
        requires
            self.wf(),
            old(t).tid < MAX_THREADS,
        ensures
            final(t)@ == (Local {
                trace: old(t)@.trace.push(
                    Access::Store {
                        at: Place::Slot(old(t).tid as nat),
                        order: MemOrder::Release,
                        value: 0,
                    },
                ),
                ..old(t)@
            }),
    {
        self.release_snapshot(t.tid, &mut t.trace);
    }

    /// Counts a write and makes its node, stamped with the epoch, which moves on
    /// by one.
    pub fn write_op_prepare<V, F>(&self, t: &mut ThreadLocalState<V, F, W>, value: V) -> (r: (
        Box<VersionNode<V, W>>,
        u64,
    ))
        requires
            self.wf(),
            old(t).win_writes < u64::MAX,
            old(t).op_counter < u64::MAX,
        ensures
            r.0.value == value,
            r.0.birth_ts == r.1,
            r.0.next.place() == Place::NextVersion,
            r.0.next.initial() == 0,
            prepares_write(old(t)@, final(t)@, r.1),
    {
        t.win_writes = t.win_writes + 1;
        t.op_counter = t.op_counter + 1;
        let ts: u64 = self.global_epoch.fetch_add(1, MemOrder::SeqCst, &mut t.trace);
        assert(prepares_write(old(t)@, t@, ts));
        (VersionNode::new(value, ts), ts)
    }

    /// Retires the node that a write replaced, frees what one write may free
    /// and, where the write closes a window, samples the pressure and selects a
    /// mode. Returns how many nodes were freed.
    pub fn post_write<V, F>(
        &self,
        t: &mut ThreadLocalState<V, F, W>,
        replaced: Box<VersionNode<V, W>>,
        old_ts: u64,
    ) -> (freed: usize)
        requires
            self.wf(),
            may_tick(old(t)@),
            window_due(old(t).op_counter) ==> may_resample(old(t)@) && may_reclaim(
                resampled(old(t)@),
            ),
        ensures
            finishes_write(retired(old(t)@, replaced, old_ts), final(t)@, freed as nat),
    {
        t.limbo_bag.push(old_ts, replaced);
        let ghost start = t@;
        assert(start == retired(old(t)@, replaced, old_ts));
        let mut freed: usize = self.drain_discrete_tick(t);
        let ghost ticked = t@;
        if t.op_counter % WINDOW_SIZE == 0 {
            self.resample_spi(t);
            let more: usize = self.reclaim_discrete(t);
            freed = freed + more;
        }
        assert(ticks(start, ticked, freed as nat));
        freed
    }
}

} // verus!
