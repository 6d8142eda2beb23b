//! The synthetic benchmark: what one of its threads does, and its results.

use crate::access;
use crate::access::{Access, Common, MemOrder, Origin, Place, SharedCell, Trace};
use crate::binary64;
use crate::binary64::Binary64;
use crate::limbo::VersionNode;
use crate::local;
use crate::local::{Local, ThreadLocalState};
use crate::params::{
    AF_BATCH_K, CONTINUOUS_DRAIN_PER_OP, MAX_THREADS, SIM_BASE_FREE_NS_BITS,
    SIM_CONTENDED_FREE_NS_BITS, WINDOW_SIZE,
};
use crate::pressure_laws;
use crate::system;
use crate::system::PacerSystem;
use crate::workload;
use crate::workload::{next_is_snapshot, Workload};
use std::time::Instant;
use vstd::prelude::*;

verus! {

/// How retired nodes are freed.
#[derive(Clone, Copy, Debug, PartialEq, Eq, Structural)]
pub enum Strategy {
    /// The mode follows the pressure.
    PacerDiscrete,
    /// The size of batches follows the pressure.
    PacerContinuous,
    /// One node per write.
    TokenAf,
    /// Everything once per window.
    BatchEbr,
}

/// 100.0.
pub const PERCENT_BITS: u64 = 0x4059_0000_0000_0000;

/// One thousand million, the nanoseconds of a second.
pub const NANOS_PER_SEC_BITS: u64 = 0x41CD_CD65_0000_0000;

/// One million.
pub const MILLION_BITS: u64 = 0x412E_8480_0000_0000;

/// What a run of the benchmark measured.
#[derive(Clone, Copy, Debug)]
pub struct BenchResult {
    pub strategy: Strategy,
    pub threads: usize,
    pub duration_secs: Binary64,
    pub total_ops: u64,
    pub throughput_mops: Binary64,
    pub peak_limbo_len: usize,
    /// Share of the time of all threads that went into simulated frees, in
    /// percent.
    pub pct_time_in_free: Binary64,
    /// Smoothed snapshot latency: a cheap stand-in for the tail, not a true
    /// percentile. Zero where no snapshot was taken.
    pub p99_snapshot_ns: u64,
}

/// A duration in seconds.
pub open spec fn seconds(secs: u64, nanos: u32) -> Binary64 {
    binary64::sum(
        binary64::from_whole(secs as nat),
        binary64::quotient(
            binary64::from_whole(nanos as nat),
            binary64::word(NANOS_PER_SEC_BITS),
        ),
    )
}

/// Operations per second, in millions.
pub open spec fn throughput(ops: u64, secs: Binary64) -> Binary64 {
    binary64::quotient(
        binary64::quotient(binary64::from_whole(ops as nat), secs),
        binary64::word(MILLION_BITS),
    )
}

/// Operations per second, in millions.
pub fn mops(ops: u64, secs: Binary64) -> (r: Binary64)
    ensures
        r == throughput(ops, secs),
{
    Binary64::from_u64(ops).over(secs).over(Binary64::from_bits(MILLION_BITS))
}

/// Share of the time of all threads that went into frees, in percent.
pub open spec fn percent_in_free(free_ns: u64, secs: Binary64, threads: usize) -> Binary64 {
    if binary64::less(binary64::word(0), secs) {
        let counted = if threads == 0 {
            1
        } else {
            threads as nat
        };
        binary64::quotient(
            binary64::product(
                binary64::word(PERCENT_BITS),
                binary64::quotient(
                    binary64::from_whole(free_ns as nat),
                    binary64::word(NANOS_PER_SEC_BITS),
                ),
            ),
            binary64::product(secs, binary64::from_whole(counted)),
        )
    } else {
        binary64::word(0)
    }
}

impl BenchResult {
    /// The result of a run of `secs` whole seconds and `nanos` nanoseconds.
    pub fn new(
        strategy: Strategy,
        threads: usize,
        secs: u64,
        nanos: u32,
        ops: u64,
        peak: usize,
        free_ns: u64,
        p99_snapshot_ns: u64,
    ) -> (r: Self)
        ensures
            r.strategy == strategy,
            r.threads == threads,
            r.duration_secs == seconds(secs, nanos),
            r.total_ops == ops,
            r.throughput_mops == throughput(ops, seconds(secs, nanos)),
            r.peak_limbo_len == peak,
            r.pct_time_in_free == percent_in_free(free_ns, seconds(secs, nanos), threads),
            r.p99_snapshot_ns == p99_snapshot_ns,
    {
        let billion: Binary64 = Binary64::from_bits(NANOS_PER_SEC_BITS);
        let zero: Binary64 = Binary64::from_bits(0);
        let duration: Binary64 = Binary64::from_u64(secs).plus(
            Binary64::from_u64(nanos as u64).over(billion),
        );
        let pct_time_in_free: Binary64 = if zero.is_less(duration) {
            let counted: u64 = if threads == 0 {
                1
            } else {
                threads as u64
            };
            Binary64::from_bits(PERCENT_BITS).times(Binary64::from_u64(free_ns).over(billion)).over(
                duration.times(Binary64::from_u64(counted)),
            )
        } else {
            zero
        };
        BenchResult {
            strategy,
            threads,
            duration_secs: duration,
            total_ops: ops,
            throughput_mops: mops(ops, duration),
            peak_limbo_len: peak,
            pct_time_in_free,
            p99_snapshot_ns,
        }
    }
}

/// Simulated contention in an allocator: freeing a node takes longer the more
/// threads are freeing at the same time. The costs are for illustration, not
/// measured.
pub struct AllocatorPressure<W = Common> {
    concurrent_freers: SharedCell<W>,
    total_free_ns: SharedCell<W>,
}

/// The simulated time that freeing `n` nodes takes beside `others` threads that
/// are freeing too.
pub open spec fn burst_ns(others: u64, n: nat) -> u64 {
    binary64::truncated(
        binary64::product(
            binary64::sum(
                binary64::word(SIM_BASE_FREE_NS_BITS),
                binary64::product(
                    binary64::word(SIM_CONTENDED_FREE_NS_BITS),
                    binary64::from_whole(others as nat),
                ),
            ),
            binary64::from_whole(n),
        ),
    )
}

/// How many other threads are in a burst, where the count was `previous`.
pub open spec fn rivals(previous: u64) -> u64 {
    if previous == u64::MAX {
        0
    } else {
        previous
    }
}

/// Whether these are the readings of the clock of a wait for `ns` nanoseconds:
/// it ends with the first one that is not below that, or where there are as many
/// as a word can count.
pub open spec fn waits(readings: Seq<u128>, ns: u64) -> bool {
    &&& readings.len() > 0
    &&& forall|i: int| 0 <= i < readings.len() - 1 ==> #[trigger] readings[i] < ns
    &&& readings.last() >= ns || readings.len() == u64::MAX
}

/// The accesses of a burst of `n` frees, given what they found.
pub open spec fn burst_accesses(
    n: nat,
    freers: u64,
    start: Instant,
    readings: Seq<u128>,
    spent: u64,
    leaving: u64,
) -> Seq<Access> {
    let ns = burst_ns(rivals(freers), n);
    let enter = Access::FetchAdd {
        at: Place::ConcurrentFreers,
        order: MemOrder::AcqRel,
        delta: 1,
        previous: freers,
    };
    let charge = Access::FetchAdd {
        at: Place::TotalFreeNs,
        order: MemOrder::Relaxed,
        delta: ns,
        previous: spent,
    };
    let leave = Access::FetchSub {
        at: Place::ConcurrentFreers,
        order: MemOrder::AcqRel,
        delta: 1,
        previous: leaving,
    };
    if ns > 0 {
        seq![enter, Access::Started { instant: start }] + access::readings_of(start, readings)
            + seq![charge, leave]
    } else {
        seq![enter, leave]
    }
}

/// Whether `t` is a burst of `n` frees, one or more, that waits by these
/// readings of the clock for as long as it charges.
pub open spec fn is_waiting_burst(t: Seq<Access>, n: nat, readings: Seq<u128>) -> bool {
    let freers = t[0]->FetchAdd_previous;
    let ns = burst_ns(rivals(freers), n);
    &&& ns > 0 ==> waits(readings, ns)
    &&& t == burst_accesses(
        n,
        freers,
        t[1]->instant,
        readings,
        t[t.len() - 2]->FetchAdd_previous,
        t.last()->FetchSub_previous,
    )
}

/// Whether `t` is a burst of `n` frees; none makes no access.
pub open spec fn is_burst(t: Seq<Access>, n: nat) -> bool {
    if n == 0 {
        t.len() == 0
    } else {
        exists|readings: Seq<u128>| #[trigger] is_waiting_burst(t, n, readings)
    }
}

impl AllocatorPressure {
    pub fn new() -> (r: Self)
        ensures
            r.wf(),
            r.initially(Place::ConcurrentFreers) == 0,
            r.initially(Place::TotalFreeNs) == 0,
    {
        AllocatorPressure::made_from(&mut Origin::new())
    }

    /// The cost of freeing `n` nodes beside `others` threads.
    pub fn burst_cost(others: u64, n: usize) -> (ns: u64)
        ensures
            ns == burst_ns(others, n as nat),
    {
        Binary64::from_bits(SIM_BASE_FREE_NS_BITS).plus(
            Binary64::from_bits(SIM_CONTENDED_FREE_NS_BITS).times(Binary64::from_u64(others)),
        ).times(Binary64::from_u64(n as u64)).to_u64()
    }
}

impl<W> AllocatorPressure<W> {
    /// Whether every word is labelled as what it is.
    pub closed spec fn wf(&self) -> bool {
        &&& self.concurrent_freers.place() == Place::ConcurrentFreers
        &&& self.total_free_ns.place() == Place::TotalFreeNs
    }

    /// What the words were made with.
    pub closed spec fn initially(&self, at: Place) -> u64 {
        match at {
            Place::ConcurrentFreers => self.concurrent_freers.initial(),
            _ => self.total_free_ns.initial(),
        }
    }

    fn made_from(origin: &mut Origin<W>) -> (r: Self)
        requires
            !old(origin)@.contains(Place::ConcurrentFreers),
            !old(origin)@.contains(Place::TotalFreeNs),
        ensures
            r.wf(),
            r.initially(Place::ConcurrentFreers) == 0,
            r.initially(Place::TotalFreeNs) == 0,
            final(origin)@ == old(origin)@.insert(Place::ConcurrentFreers).insert(
                Place::TotalFreeNs,
            ),
    {
        let concurrent_freers: SharedCell<W> = SharedCell::new(
            0,
            Ghost(Place::ConcurrentFreers),
            origin,
        );
        let total_free_ns: SharedCell<W> = SharedCell::new(0, Ghost(Place::TotalFreeNs), origin);
        AllocatorPressure { concurrent_freers, total_free_ns }
    }

    /// Waits until `ns` nanoseconds have passed.
    fn wait(ns: u64, trace: &mut Trace<W>)
        ensures
            ({
                let start = final(trace)@[old(trace)@.len() as int]->instant;
                exists|readings: Seq<u128>|
                    #[trigger] waits(readings, ns) && final(trace)@ == old(trace)@.push(
                        Access::Started { instant: start },
                    ) + access::readings_of(start, readings)
            }),
    {
        let start: Instant = trace.start_clock();
        let ghost began = trace@;
        let ghost mut readings: Seq<u128> = Seq::empty();
        let mut left: u64 = u64::MAX;
        let mut waiting: bool = true;
        assert(trace@ == began + access::readings_of(start, readings));
        while waiting
            invariant
                trace@ == began + access::readings_of(start, readings),
                readings.len() == u64::MAX - left,
                waiting ==> left > 0 && forall|i: int|
                    0 <= i < readings.len() ==> #[trigger] readings[i] < ns,
                !waiting ==> waits(readings, ns),
            decreases left,
        {
            let elapsed_ns: u128 = trace.read_clock(&start);
            left = left - 1;
            proof {
                let more = readings.push(elapsed_ns);
                assert(access::readings_of(start, more) == access::readings_of(start, readings).push(
                    Access::Reading { since: start, elapsed_ns },
                ));
                readings = more;
            }
            if elapsed_ns >= ns as u128 || left == 0 {
                waiting = false;
            } else {
                std::hint::spin_loop();
            }
        }
        assert(waits(readings, ns));
        assert(trace@[old(trace)@.len() as int] == Access::Started { instant: start });
    }

    /// Spends as long as freeing `n` nodes would take, and adds that to the
    /// total.
    pub fn simulate_free_burst(&self, n: usize, trace: &mut Trace<W>)
        requires
            self.wf(),
        ensures
            ({
                let t = access::since(old(trace)@, final(trace)@);
                &&& final(trace)@ == old(trace)@ + t
                &&& is_burst(t, n as nat)
            }),
    {
        if n == 0 {
            assert(access::since(old(trace)@, trace@) == Seq::<Access>::empty());
            return;
        }
        let freers: u64 = self.concurrent_freers.fetch_add(1, MemOrder::AcqRel, trace);
        let others: u64 = if freers == u64::MAX {
            0
        } else {
            freers
        };
        let ns: u64 = AllocatorPressure::burst_cost(others, n);
        let ghost mut start: Instant = arbitrary();
        let ghost mut readings: Seq<u128> = Seq::empty();
        let ghost mut spent: u64 = 0;
        if ns > 0 {
            let ghost entered = trace@;
            Self::wait(ns, trace);
            proof {
                start = trace@[entered.len() as int]->instant;
                readings = choose|readings: Seq<u128>|
                    #[trigger] waits(readings, ns) && trace@ == entered.push(
                        Access::Started { instant: start },
                    ) + access::readings_of(start, readings);
            }
            let _spent: u64 = self.total_free_ns.fetch_add(ns, MemOrder::Relaxed, trace);
            proof {
                spent = _spent;
            }
        }
        let _leaving: u64 = self.concurrent_freers.fetch_sub(1, MemOrder::AcqRel, trace);
        proof {
            let t = burst_accesses(n as nat, freers, start, readings, spent, _leaving);
            assert(access::since(old(trace)@, trace@) == t);
            assert(trace@ == old(trace)@ + t);
            assert(is_waiting_burst(t, n as nat, readings));
        }
    }

    /// The simulated time spent freeing so far.
    pub fn total_free_ns(&self, trace: &mut Trace<W>) -> (ns: u64)
        requires
            self.wf(),
        ensures
            final(trace)@ == old(trace)@.push(
                Access::Load { at: Place::TotalFreeNs, order: MemOrder::Relaxed, value: ns },
            ),
    {
        self.total_free_ns.load(MemOrder::Relaxed, trace)
    }
}

/// What the threads of a run share.
pub struct BenchShared<W = Common> {
    pub system: PacerSystem<W>,
    pub pressure: AllocatorPressure<W>,
    pub peak_limbo: SharedCell<W>,
    pub total_ops: SharedCell<W>,
}

impl BenchShared {
    pub fn new() -> (r: Self)
        ensures
            r.wf(),
            r.as_made(),
    {
        BenchShared::made_from(&mut Origin::new())
    }
}

impl<W> BenchShared<W> {
    /// Whether every word is labelled as what it is.
    pub open spec fn wf(&self) -> bool {
        &&& self.system.wf()
        &&& self.pressure.wf()
        &&& self.peak_limbo.place() == Place::PeakLimbo
        &&& self.total_ops.place() == Place::TotalOps
    }

    /// Whether every word was made with what it has before a run.
    pub open spec fn as_made(&self) -> bool {
        &&& self.system.as_made()
        &&& self.pressure.initially(Place::ConcurrentFreers) == 0
        &&& self.pressure.initially(Place::TotalFreeNs) == 0
        &&& self.peak_limbo.initial() == 0
        &&& self.total_ops.initial() == 0
    }

    /// What the words were made with.
    pub open spec fn initially(&self, at: Place) -> u64 {
        match at {
            Place::PeakLimbo => self.peak_limbo.initial(),
            Place::TotalOps => self.total_ops.initial(),
            Place::ConcurrentFreers => self.pressure.initially(at),
            Place::TotalFreeNs => self.pressure.initially(at),
            Place::GlobalEpoch => self.system.global_epoch.initial(),
            Place::ApproxSpi => self.system.approx_spi.initial(),
            Place::DeltaSpi => self.system.delta_spi.initial(),
            Place::ActiveCount => self.system.announce.initially(at),
            Place::Slot(_) => self.system.announce.initially(at),
            _ => self.system.scc.initially(at),
        }
    }

    fn made_from(origin: &mut Origin<W>) -> (r: Self)
        requires
            old(origin)@ == Set::<Place>::empty(),
        ensures
            r.wf(),
            r.as_made(),
    {
        let system: PacerSystem<W> = PacerSystem::made_from(origin);
        let pressure: AllocatorPressure<W> = AllocatorPressure::made_from(origin);
        let peak_limbo: SharedCell<W> = SharedCell::new(0, Ghost(Place::PeakLimbo), origin);
        let total_ops: SharedCell<W> = SharedCell::new(0, Ghost(Place::TotalOps), origin);
        BenchShared { system, pressure, peak_limbo, total_ops }
    }
}

/// Whether a thread went from `before`, with the node of its write retired, to
/// `after` by freeing `freed` nodes as the strategy has it.
pub open spec fn follows_write<V, F, W>(
    strategy: Strategy,
    before: Local<V, F, W>,
    after: Local<V, F, W>,
    freed: nat,
) -> bool {
    match strategy {
        Strategy::PacerDiscrete => system::finishes_write(before, after, freed),
        Strategy::PacerContinuous => exists|ticked: Local<V, F, W>, at_once: nat|
            {
                &&& #[trigger] system::drains(
                    before,
                    ticked,
                    CONTINUOUS_DRAIN_PER_OP as nat,
                    at_once,
                )
                &&& at_once <= freed
                &&& if system::window_due(before.op_counter) {
                    system::reclaims_batch(
                        system::resampled(ticked),
                        after,
                        (freed - at_once) as nat,
                    )
                } else {
                    after == ticked && freed == at_once
                }
            },
        Strategy::TokenAf => system::drains(before, after, AF_BATCH_K as nat, freed),
        Strategy::BatchEbr => if system::window_due(before.op_counter) {
            system::drains(before, after, usize::MAX as nat, freed)
        } else {
            after == before && freed == 0
        },
    }
}

/// Whether nothing stops a thread from freeing as the strategy has it.
pub open spec fn may_follow_write<V, F, W>(strategy: Strategy, t: Local<V, F, W>) -> bool {
    match strategy {
        Strategy::PacerDiscrete => system::may_tick(t) && (system::window_due(t.op_counter)
            ==> system::may_resample(t) && system::may_reclaim(system::resampled(t))),
        Strategy::PacerContinuous => system::window_due(t.op_counter) ==> system::may_resample(t)
            && system::epoch_stride(system::resampled(t).spi_ema) != 0,
        _ => true,
    }
}

/// Retires the node that a write replaced and frees as the strategy has it.
/// Returns how many nodes were freed.
pub fn free_after_write<V, F, W>(
    system: &PacerSystem<W>,
    strategy: Strategy,
    t: &mut ThreadLocalState<V, F, W>,
    replaced: Box<VersionNode<V, W>>,
    ts: u64,
) -> (freed: usize)
    requires
        system.wf(),
        may_follow_write(strategy, old(t)@),
    ensures
        follows_write(
            strategy,
            system::retired(old(t)@, replaced, ts),
            final(t)@,
            freed as nat,
        ),
{
    match strategy {
        Strategy::PacerDiscrete => system.post_write(t, replaced, ts),
        Strategy::PacerContinuous => {
            t.limbo_bag.push(ts, replaced);
            let ghost start = t@;
            assert(start == system::retired(old(t)@, replaced, ts));
            // Bounds what both passes can free together.
            let held: usize = t.limbo_bag.len();
            let at_once: usize = system.drain_continuous_tick(t);
            let ghost ticked = t@;
            proof {
                crate::limbo::lemma_drained(
                    start.bag,
                    system::safe_after(access::since(start.trace, ticked.trace)),
                    CONTINUOUS_DRAIN_PER_OP as nat,
                );
            }
            let mut batch: usize = 0;
            if t.op_counter % WINDOW_SIZE == 0 {
                system.resample_spi(t);
                let ghost sampled = t@;
                batch = system.reclaim_continuous(t);
                proof {
                    lemma_batch_bound(sampled, t@, batch as nat);
                    assert(at_once + batch <= held);
                }
            }
            assert(system::drains(
                start,
                ticked,
                CONTINUOUS_DRAIN_PER_OP as nat,
                at_once as nat,
            ));
            at_once + batch
        },
        Strategy::TokenAf => {
            t.limbo_bag.push(ts, replaced);
            let ghost start = t@;
            assert(start == system::retired(old(t)@, replaced, ts));
            let safe_ts: u64 = system.safe_reclaim_ts(&mut t.trace);
            let freed: usize = t.limbo_bag.drain(safe_ts, AF_BATCH_K);
            assert(t@ == Local {
                bag: start.bag.skip(freed as int),
                freed: start.freed + start.bag.take(freed as int),
                trace: start.trace + access::since(start.trace, t@.trace),
                ..start
            });
            freed
        },
        Strategy::BatchEbr => {
            t.limbo_bag.push(ts, replaced);
            let ghost start = t@;
            assert(start == system::retired(old(t)@, replaced, ts));
            if t.op_counter % WINDOW_SIZE == 0 {
                let safe_ts: u64 = system.safe_reclaim_ts(&mut t.trace);
                let freed: usize = t.limbo_bag.drain(safe_ts, usize::MAX);
                assert(t@ == Local {
                    bag: start.bag.skip(freed as int),
                    freed: start.freed + start.bag.take(freed as int),
                    trace: start.trace + access::since(start.trace, t@.trace),
                    ..start
                });
                freed
            } else {
                0
            }
        },
    }
}

/// A batch frees no more than the bag holds.
proof fn lemma_batch_bound<V, F, W>(before: Local<V, F, W>, after: Local<V, F, W>, freed: nat)
    requires
        system::reclaims_batch(before, after, freed),
    ensures
        freed <= before.bag.len(),
{
    let delta = system::delta_read(before.trace, after.trace);
    let k = system::batch_size(before.spi_ema, delta) as usize as nat;
    let read = Local { trace: before.trace.push(system::delta_load(delta)), ..before };
    let drained = choose|drained: Local<V, F, W>|
        {
            &&& #[trigger] system::drains(read, drained, k, freed)
            &&& if system::stride_due(before.op_counter, before.spi_ema) {
                system::steps_epoch(drained, after)
            } else {
                after == drained
            }
        };
    crate::limbo::lemma_drained(
        read.bag,
        system::safe_after(access::since(read.trace, drained.trace)),
        k,
    );
}

/// One thread of a run.
pub struct BenchWorker<W = Common> {
    pub strategy: Strategy,
    pub workload: Workload,
    /// Share of snapshots among the operations.
    pub snap_fraction: Binary64,
    pub rng: u64,
    /// Operations so far.
    pub local: u64,
    pub state: ThreadLocalState<u64, (), W>,
}

/// Whether a thread went from `before` to `after` by a burst of `n` frees.
pub open spec fn bursts<V, F, W>(before: Local<V, F, W>, after: Local<V, F, W>, n: nat) -> bool {
    let t = access::since(before.trace, after.trace);
    &&& is_burst(t, n)
    &&& after == Local { trace: before.trace + t, ..before }
}

/// Whether a thread went from `before` to `after` by a write of `key`, the
/// freeing that follows, and the time that takes.
pub open spec fn bench_write<W>(
    strategy: Strategy,
    before: Local<u64, (), W>,
    after: Local<u64, (), W>,
    key: u64,
) -> bool {
    exists|
        prepared: Local<u64, (), W>,
        freed_up: Local<u64, (), W>,
        node: Box<VersionNode<u64, W>>,
        ts: u64,
        freed: nat,
    |
        {
            &&& node.value == key
            &&& node.birth_ts == ts
            &&& #[trigger] system::prepares_write(before, prepared, ts)
            &&& #[trigger] follows_write(
                strategy,
                system::retired(prepared, node, ts),
                freed_up,
                freed,
            )
            &&& bursts(freed_up, after, freed)
        }
}

/// A thread that has taken back its announcement.
pub open spec fn released<V, F, W>(t: Local<V, F, W>) -> Local<V, F, W> {
    Local {
        trace: t.trace.push(
            Access::Store {
                at: Place::Slot(t.tid as nat),
                order: MemOrder::Release,
                value: 0,
            },
        ),
        ..t
    }
}

/// Whether a thread went from `before` to `after` by taking a snapshot and
/// releasing it.
pub open spec fn bench_snapshot<W>(
    before: Local<u64, (), W>,
    after: Local<u64, (), W>,
    now_ns: u64,
) -> bool {
    exists|taken: Local<u64, (), W>, ts: Option<u64>|
        {
            &&& #[trigger] system::takes_snapshot(before, taken, now_ns, ts)
            &&& after == released(taken)
        }
}

/// The accesses that note a backlog of `len` nodes, the peak having been `peak`.
pub open spec fn peak_accesses(len: u64, peak: u64, found: u64) -> Seq<Access> {
    let look = Access::Load { at: Place::PeakLimbo, order: MemOrder::Relaxed, value: peak };
    if len > peak {
        seq![
            look,
            Access::FetchMax {
                at: Place::PeakLimbo,
                order: MemOrder::Relaxed,
                value: len,
                previous: found,
            },
        ]
    } else {
        seq![look]
    }
}

/// Whether a thread went from `before` to `after` by noting its backlog.
pub open spec fn notes_peak<V, F, W>(before: Local<V, F, W>, after: Local<V, F, W>) -> bool {
    let t = access::since(before.trace, after.trace);
    &&& t == peak_accesses(
        before.bag.len() as u64,
        t[0]->Load_value,
        t[1]->FetchMax_previous,
    )
    &&& after == Local { trace: before.trace + t, ..before }
}

/// Whether a thread went from `before` to `after` by one operation of a run,
/// `key` and `snapshot` being what it drew.
#[verifier::opaque]
pub open spec fn bench_op<W>(
    strategy: Strategy,
    before: Local<u64, (), W>,
    after: Local<u64, (), W>,
    now_ns: u64,
    key: u64,
    snapshot: bool,
) -> bool {
    exists|acted: Local<u64, (), W>|
        {
            &&& if snapshot {
                bench_snapshot(before, acted, now_ns)
            } else {
                bench_write(strategy, before, acted, key)
            }
            &&& #[trigger] notes_peak(acted, after)
        }
}

/// The access that adds the `n` operations of a worker to those of its run.
pub open spec fn tally(n: u64, previous: u64) -> Access {
    Access::FetchAdd { at: Place::TotalOps, order: MemOrder::Relaxed, delta: n, previous }
}

/// Takes a snapshot and releases it.
fn take_and_release<W>(shared: &BenchShared<W>, t: &mut ThreadLocalState<u64, (), W>, now_ns: u64)
    requires
        shared.wf(),
        old(t).win_snaps < u64::MAX,
        old(t).tid < MAX_THREADS,
    ensures
        bench_snapshot(old(t)@, final(t)@, now_ns),
{
    let ts: Option<u64> = shared.system.take_snapshot(t, now_ns);
    let ghost taken = t@;
    assert(taken.tid == old(t).tid);
    shared.system.release_snapshot_for(t);
    assert(system::takes_snapshot(old(t)@, taken, now_ns, ts));
}

/// Writes a key, frees as the strategy has it, and spends the time of that.
fn write_key<W>(
    shared: &BenchShared<W>,
    strategy: Strategy,
    t: &mut ThreadLocalState<u64, (), W>,
    key: u64,
)
    requires
        shared.wf(),
        old(t).win_writes + old(t).win_snaps < u64::MAX - 1,
        old(t).op_counter < u64::MAX,
        old(t).hold_ticks < u64::MAX,
        pressure_laws::in_unit_range(old(t).spi_ema),
    ensures
        bench_write(strategy, old(t)@, final(t)@, key),
{
    let (node, ts) = shared.system.write_op_prepare(t, key);
    let ghost prepared = t@;
    let ghost replaced = node;
    proof {
        pressure_laws::windows_can_be_closed(prepared);
    }
    let freed: usize = free_after_write(&shared.system, strategy, t, node, ts);
    let ghost freed_up = t@;
    shared.pressure.simulate_free_burst(freed, &mut t.trace);
    proof {
        assert(bursts(freed_up, t@, freed as nat));
        assert(system::prepares_write(old(t)@, prepared, ts));
        assert(follows_write(
            strategy,
            system::retired(prepared, replaced, ts),
            freed_up,
            freed as nat,
        ));
    }
}

/// Notes the backlog of a thread where it is a new peak.
pub(crate) fn note_backlog<V, F, W>(peak_limbo: &SharedCell<W>, t: &mut ThreadLocalState<V, F, W>)
    requires
        peak_limbo.place() == Place::PeakLimbo,
    ensures
        notes_peak(old(t)@, final(t)@),
{
    let len: u64 = t.limbo_bag.len() as u64;
    let peak: u64 = peak_limbo.load(MemOrder::Relaxed, &mut t.trace);
    let ghost mut found: u64 = 0;
    if len > peak {
        let _found: u64 = peak_limbo.fetch_max(len, MemOrder::Relaxed, &mut t.trace);
        proof {
            found = _found;
        }
    }
    proof {
        let noted = peak_accesses(len, peak, found);
        assert(access::since(old(t)@.trace, t@.trace) == noted);
        assert(noted == peak_accesses(len, noted[0]->Load_value, noted[1]->FetchMax_previous));
        assert(t@.trace == old(t)@.trace + noted);
    }
}

proof fn lemma_one_reading(t: Seq<Access>, since: Instant, elapsed_ns: u128)
    ensures
        t.push(Access::Reading { since, elapsed_ns }) == t + access::readings_of(
            since,
            one_reading(elapsed_ns),
        ),
{
}

proof fn lemma_two_readings(t: Seq<Access>, since: Instant, first: u128, second: u128)
    ensures
        t.push(Access::Reading { since, elapsed_ns: first }).push(
            Access::Reading { since, elapsed_ns: second },
        ) == t + access::readings_of(since, two_readings((first, second))),
{
}

proof fn lemma_one_more_round<W>(
    start: Instant,
    states: Seq<BenchWorker<W>>,
    looked: Seq<BenchWorker<W>>,
    readings: Seq<(u128, u128)>,
    look: BenchWorker<W>,
    after: BenchWorker<W>,
    reading: (u128, u128),
)
    requires
        goes_on(start, states, looked, readings),
        states.last().fit(),
        look.has_read(states.last(), start, two_readings(reading)),
        after.follows(look, reading.1 as u64),
    ensures
        goes_on(start, states.push(after), looked.push(look), readings.push(reading)),
{
    let more = states.push(after);
    let looks = looked.push(look);
    let all = readings.push(reading);
    assert forall|k: int| 0 <= k < all.len() implies {
        &&& (#[trigger] more[k]).fit()
        &&& looks[k].has_read(more[k], start, two_readings(all[k]))
        &&& more[k + 1].follows(looks[k], all[k].1 as u64)
    } by {
        if k < readings.len() {
            assert(states[k].fit());
        }
    }
}

/// Whether `states` are what a worker was before and after each of its rounds.
/// At the start of each it reads the clock twice: whether to go on, and when its
/// operation begins. It has then become `looked`.
pub open spec fn goes_on<W>(
    start: Instant,
    states: Seq<BenchWorker<W>>,
    looked: Seq<BenchWorker<W>>,
    readings: Seq<(u128, u128)>,
) -> bool {
    &&& states.len() == readings.len() + 1
    &&& looked.len() == readings.len()
    &&& forall|k: int|
        0 <= k < readings.len() ==> {
            &&& (#[trigger] states[k]).fit()
            &&& looked[k].has_read(states[k], start, two_readings(readings[k]))
            &&& states[k + 1].follows(looked[k], readings[k].1 as u64)
        }
}

/// Two readings of the clock.
pub open spec fn two_readings(elapsed_ns: (u128, u128)) -> Seq<u128> {
    seq![elapsed_ns.0, elapsed_ns.1]
}

/// Whether a worker that was `before` became `after` by a round with these
/// readings of the clock.
pub open spec fn performs_round<W>(
    before: BenchWorker<W>,
    after: BenchWorker<W>,
    start: Instant,
    reading: (u128, u128),
) -> bool {
    exists|look: BenchWorker<W>|
        {
            &&& look.has_read(before, start, two_readings(reading))
            &&& #[trigger] after.follows(look, reading.1 as u64)
        }
}

/// A single reading of the clock.
pub open spec fn one_reading(elapsed_ns: u128) -> Seq<u128> {
    seq![elapsed_ns]
}

/// Whether a worker that was `last` after its last round stopped there, as
/// `end`: where it can perform one more operation, by a reading of the clock
/// that is past the end.
pub open spec fn stops<W>(
    last: BenchWorker<W>,
    end: BenchWorker<W>,
    start: Instant,
    duration_ns: u64,
) -> bool {
    if last.fit() {
        exists|elapsed_ns: u128|
            elapsed_ns >= duration_ns && #[trigger] end.has_read(
                last,
                start,
                one_reading(elapsed_ns),
            )
    } else {
        end == last
    }
}

/// Whether a worker that was `before` became `after` by a run of `duration_ns`
/// nanoseconds: it performs an operation in every round whose first reading of
/// the clock is before the end, and stops at the first one that is not.
pub open spec fn runs_for<W>(
    before: BenchWorker<W>,
    after: BenchWorker<W>,
    start: Instant,
    duration_ns: u64,
    states: Seq<BenchWorker<W>>,
    looked: Seq<BenchWorker<W>>,
    readings: Seq<(u128, u128)>,
) -> bool {
    &&& goes_on(start, states, looked, readings)
    &&& states[0] == before
    &&& forall|k: int| 0 <= k < readings.len() ==> (#[trigger] readings[k]).0 < duration_ns
    &&& stops(states.last(), after, start, duration_ns)
}

impl BenchWorker {
    /// Worker `index` of a run, in slot `tid`.
    pub fn new(strategy: Strategy, index: usize, tid: usize, snap_fraction: Binary64) -> (r: Self)
        ensures
            r.starts_as(strategy, index, tid, snap_fraction),
            tid < MAX_THREADS ==> r.fit(),
    {
        proof {
            pressure_laws::lemma_one();
        }
        BenchWorker {
            strategy,
            workload: Workload::standard(),
            snap_fraction,
            rng: (index as u64) ^ 0xdead_beef_cafe_babe,
            local: 0,
            state: ThreadLocalState::new(tid),
        }
    }
}

impl<W> BenchWorker<W> {
    /// Whether the counters of the worker have room for one more operation, its
    /// slot exists, and its pressure is a share.
    pub open spec fn fit(&self) -> bool {
        &&& self.workload.key_range != 0
        &&& self.local < u64::MAX
        &&& self.state.tid < MAX_THREADS
        &&& self.state.win_writes + self.state.win_snaps < u64::MAX - 1
        &&& self.state.op_counter < u64::MAX
        &&& self.state.hold_ticks < u64::MAX
        &&& pressure_laws::in_unit_range(self.state.spi_ema)
    }

    /// Whether this is worker `index` of a run, in slot `tid`, before its first
    /// operation.
    pub open spec fn starts_as(
        &self,
        strategy: Strategy,
        index: usize,
        tid: usize,
        snap_fraction: Binary64,
    ) -> bool {
        &&& self.strategy == strategy
        &&& self.workload.key_range == 20_000_000
        &&& self.workload.insert_fraction.bits == workload::HALF_BITS
        &&& self.snap_fraction == snap_fraction
        &&& self.rng == (index as u64) ^ 0xdead_beef_cafe_babe
        &&& self.local == 0
        &&& self.state@ == local::fresh::<u64, (), W>(tid)
    }

    /// Whether this is the worker `before` after one operation at `now_ns`.
    pub open spec fn follows(&self, before: BenchWorker<W>, now_ns: u64) -> bool {
        let draw = workload::next_draw(before.rng);
        let extra = workload::next_extra_draw(draw);
        &&& self.rng == extra
        &&& bench_op(
            before.strategy,
            before.state@,
            self.state@,
            now_ns,
            workload::key_of(draw, before.workload.key_range),
            workload::draws_snapshot(extra, before.snap_fraction),
        )
        &&& self.strategy == before.strategy
        &&& self.workload == before.workload
        &&& self.snap_fraction == before.snap_fraction
        &&& self.local == before.local + 1
    }

    /// Whether this is the worker `before` after it has read how long it is since
    /// `start`.
    pub open spec fn has_read(
        &self,
        before: BenchWorker<W>,
        start: Instant,
        readings: Seq<u128>,
    ) -> bool {
        &&& self.strategy == before.strategy
        &&& self.workload == before.workload
        &&& self.snap_fraction == before.snap_fraction
        &&& self.rng == before.rng
        &&& self.local == before.local
        &&& self.state@ == (Local {
            trace: before.state@.trace + access::readings_of(start, readings),
            ..before.state@
        })
    }

    /// Tells whether the worker can perform one more operation.
    pub fn can_step(&self) -> (r: bool)
        ensures
            r == self.fit(),
    {
        let zero: Binary64 = Binary64::from_bits(0);
        let one: Binary64 = Binary64::from_bits(binary64::ONE);
        proof {
            pressure_laws::lemma_one();
        }
        self.workload.key_range != 0 && self.local < u64::MAX && self.state.tid < MAX_THREADS
            && self.state.win_writes < u64::MAX - 1 && self.state.win_snaps < u64::MAX - 1
            - self.state.win_writes && self.state.op_counter < u64::MAX && self.state.hold_ticks
            < u64::MAX && zero.is_at_most(self.state.spi_ema) && self.state.spi_ema.is_at_most(one)
    }

    /// Performs one operation: draws a key and whether to take a snapshot, takes
    /// and releases one or writes the key, and notes its backlog.
    pub fn step(&mut self, shared: &BenchShared<W>, now_ns: u64)
        requires
            shared.wf(),
            old(self).fit(),
        ensures
            final(self).follows(*old(self), now_ns),
    {
        let (key, _insert) = self.workload.next_op(&mut self.rng);
        let snapshot: bool = next_is_snapshot(&mut self.rng, self.snap_fraction);
        if snapshot {
            take_and_release(shared, &mut self.state, now_ns);
        } else {
            write_key(shared, self.strategy, &mut self.state, key);
        }
        let ghost acted = self.state@;
        self.local = self.local + 1;
        note_backlog(&shared.peak_limbo, &mut self.state);
        proof {
            reveal(bench_op);
            assert(notes_peak(acted, self.state@));
        }
    }

    /// One round of a run: an operation, where one can be performed and the time
    /// is not up. Returns the readings of the clock then.
    pub fn round(
        &mut self,
        shared: &BenchShared<W>,
        start: &Instant,
        duration_ns: u64,
    ) -> (r: Option<(u128, u128)>)
        requires
            shared.wf(),
        ensures
            match r {
                Some(reading) => {
                    &&& old(self).fit()
                    &&& reading.0 < duration_ns
                    &&& performs_round(*old(self), *final(self), *start, reading)
                },
                None => stops(*old(self), *final(self), *start, duration_ns),
            },
    {
        if !self.can_step() {
            return None;
        }
        let elapsed_ns: u128 = self.state.trace.read_clock(start);
        proof {
            lemma_one_reading(old(self).state@.trace, *start, elapsed_ns);
        }
        if elapsed_ns >= duration_ns as u128 {
            assert(self.has_read(*old(self), *start, one_reading(elapsed_ns)));
            return None;
        }
        let now_ns: u128 = self.state.trace.read_clock(start);
        proof {
            lemma_two_readings(old(self).state@.trace, *start, elapsed_ns, now_ns);
            assert(self.has_read(*old(self), *start, two_readings((elapsed_ns, now_ns))));
        }
        let ghost look = *self;
        self.step(shared, now_ns as u64);
        let reading: (u128, u128) = (elapsed_ns, now_ns);
        assert(self.follows(look, reading.1 as u64));
        Some(reading)
    }

    /// Performs operations until `duration_ns` nanoseconds have passed since
    /// `start`. Stops before that only where the worker cannot perform one more.
    pub fn run(&mut self, shared: &BenchShared<W>, start: &Instant, duration_ns: u64)
        requires
            shared.wf(),
            old(self).fit(),
        ensures
            exists|
                states: Seq<BenchWorker<W>>,
                looked: Seq<BenchWorker<W>>,
                readings: Seq<(u128, u128)>,
            |
                #[trigger] runs_for(
                    *old(self),
                    *final(self),
                    *start,
                    duration_ns,
                    states,
                    looked,
                    readings,
                ),
            duration_ns == 0 ==> stops(*old(self), *final(self), *start, 0),
    {
        let ghost mut states: Seq<BenchWorker<W>> = seq![*self];
        let ghost mut looked: Seq<BenchWorker<W>> = Seq::empty();
        let ghost mut readings: Seq<(u128, u128)> = Seq::empty();
        let mut running: bool = true;
        while running
            invariant
                shared.wf(),
                old(self).fit(),
                goes_on(*start, states, looked, readings),
                states[0] == *old(self),
                forall|k: int|
                    0 <= k < readings.len() ==> (#[trigger] readings[k]).0 < duration_ns,
                running ==> states.last() == *self,
                !running ==> stops(states.last(), *self, *start, duration_ns),
                duration_ns == 0 ==> readings.len() == 0,
            decreases
                (if running {
                    1int
                } else {
                    0
                }) + u64::MAX - self.local,
        {
            let ghost before = *self;
            let round: Option<(u128, u128)> = self.round(shared, start, duration_ns);
            match round {
                Some(reading) => {
                    proof {
                        let look = choose|look: BenchWorker<W>|
                            {
                                &&& look.has_read(before, *start, two_readings(reading))
                                &&& #[trigger] self.follows(look, reading.1 as u64)
                            };
                        lemma_one_more_round(*start, states, looked, readings, look, *self, reading);
                        states = states.push(*self);
                        looked = looked.push(look);
                        readings = readings.push(reading);
                    }
                },
                None => {
                    running = false;
                },
            }
        }
        assert(runs_for(*old(self), *self, *start, duration_ns, states, looked, readings));
    }

    /// Adds the operations of the worker to those of the run.
    pub fn finish(&mut self, shared: &BenchShared<W>)
        requires
            shared.wf(),
        ensures
            ({
                let previous = final(self).state@.trace.last()->FetchAdd_previous;
                final(self).state@ == (Local {
                    trace: old(self).state@.trace.push(tally(old(self).local, previous)),
                    ..old(self).state@
                })
            }),
            final(self).local == old(self).local,
            final(self).rng == old(self).rng,
            final(self).strategy == old(self).strategy,
            final(self).workload == old(self).workload,
            final(self).snap_fraction == old(self).snap_fraction,
    {
        let _previous: u64 = shared.total_ops.fetch_add(
            self.local,
            MemOrder::Relaxed,
            &mut self.state.trace,
        );
    }
}

} // verus!
