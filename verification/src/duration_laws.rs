//! How long a run lasts.

use crate::access;
use crate::bench;
use crate::bench::{BenchWorker, Strategy};
use crate::binary64::Binary64;
use crate::limbo::VersionNode;
use crate::local::Local;
use crate::params::CONTINUOUS_DRAIN_PER_OP;
use crate::pressure_laws;
use crate::system;
use crate::workload;
use std::time::Instant;
use vstd::prelude::*;

verus! {

/// Whether no counter of a thread has passed `n`, and its pressure is a share.
spec fn within_count<V, F, W>(t: Local<V, F, W>, n: int) -> bool {
    &&& t.win_writes + t.win_snaps <= n
    &&& t.op_counter <= n
    &&& t.hold_ticks <= n
    &&& t.tid < 256
    &&& pressure_laws::in_unit_range(t.spi_ema)
}

proof fn lemma_resampled_within<V, F, W>(t: Local<V, F, W>, n: int)
    requires
        within_count(t, n),
        n < u64::MAX,
    ensures
        within_count(system::resampled(t), n),
{
    pressure_laws::pressure_stays_in_range(t);
}

proof fn lemma_reclaims_within<V, F, W>(before: Local<V, F, W>, after: Local<V, F, W>, n: int)
    requires
        within_count(before, n),
        system::reclaims(before, after),
    ensures
        within_count(after, n),
{
}

proof fn lemma_batch_within<V, F, W>(
    before: Local<V, F, W>,
    after: Local<V, F, W>,
    freed: nat,
    n: int,
)
    requires
        within_count(before, n),
        system::reclaims_batch(before, after, freed),
    ensures
        within_count(after, n),
{
    let delta = system::delta_read(before.trace, after.trace);
    let k = system::batch_size(before.spi_ema, delta) as usize as nat;
    let read = Local { trace: before.trace.push(system::delta_load(delta)), ..before };
    let drained = choose|drained: Local<V, F, W>|
        {
            &&& #[trigger] system::drains(read, drained, k, freed)
            &&& if system::stride_due(before.op_counter, before.spi_ema) {
                system::steps_epoch(drained, after)
            } else {
                after == drained
            }
        };
}

/// What follows a write counts at most one more held-back write.
proof fn lemma_follows_within<V, F, W>(
    strategy: Strategy,
    before: Local<V, F, W>,
    after: Local<V, F, W>,
    freed: nat,
    n: int,
)
    requires
        within_count(before, n),
        before.hold_ticks < n < u64::MAX,
        bench::follows_write(strategy, before, after, freed),
    ensures
        within_count(after, n),
{
    match strategy {
        Strategy::PacerDiscrete => {
            let ticked = choose|ticked: Local<V, F, W>|
                {
                    &&& #[trigger] system::ticks(before, ticked, freed)
                    &&& if system::window_due(before.op_counter) {
                        system::reclaims(system::resampled(ticked), after)
                    } else {
                        after == ticked
                    }
                };
            assert(within_count(ticked, n));
            if system::window_due(before.op_counter) {
                lemma_resampled_within(ticked, n);
                lemma_reclaims_within(system::resampled(ticked), after, n);
            }
        },
        Strategy::PacerContinuous => {
            let (ticked, at_once) = choose|ticked: Local<V, F, W>, at_once: nat|
                {
                    &&& #[trigger] system::drains(
                        before,
                        ticked,
                        CONTINUOUS_DRAIN_PER_OP as nat,
                        at_once,
                    )
                    &&& at_once <= freed
                    &&& if system::window_due(before.op_counter) {
                        system::reclaims_batch(
                            system::resampled(ticked),
                            after,
                            (freed - at_once) as nat,
                        )
                    } else {
                        after == ticked && freed == at_once
                    }
                };
            assert(within_count(ticked, n));
            if system::window_due(before.op_counter) {
                lemma_resampled_within(ticked, n);
                lemma_batch_within(
                    system::resampled(ticked),
                    after,
                    (freed - at_once) as nat,
                    n,
                );
            }
        },
        Strategy::TokenAf => {},
        Strategy::BatchEbr => {},
    }
}

/// One operation of a worker counts at most one more of anything.
proof fn lemma_operation_within<W>(
    strategy: Strategy,
    before: Local<u64, (), W>,
    after: Local<u64, (), W>,
    now_ns: u64,
    key: u64,
    snapshot: bool,
    n: int,
)
    requires
        within_count(before, n),
        0 <= n < u64::MAX - 1,
        bench::bench_op(strategy, before, after, now_ns, key, snapshot),
    ensures
        within_count(after, n + 1),
{
    reveal(bench::bench_op);
    let acted = choose|acted: Local<u64, (), W>|
        {
            &&& if snapshot {
                bench::bench_snapshot(before, acted, now_ns)
            } else {
                bench::bench_write(strategy, before, acted, key)
            }
            &&& #[trigger] bench::notes_peak(acted, after)
        };
    if snapshot {
        let (taken, ts) = choose|taken: Local<u64, (), W>, ts: Option<u64>|
            {
                &&& #[trigger] system::takes_snapshot(before, taken, now_ns, ts)
                &&& acted == bench::released(taken)
            };
    } else {
        let (prepared, freed_up, node, ts, freed) = choose|
            prepared: Local<u64, (), W>,
            freed_up: Local<u64, (), W>,
            node: Box<VersionNode<u64, W>>,
            ts: u64,
            freed: nat,
        |
            {
                &&& node.value == key
                &&& node.birth_ts == ts
                &&& #[trigger] system::prepares_write(before, prepared, ts)
                &&& #[trigger] bench::follows_write(
                    strategy,
                    system::retired(prepared, node, ts),
                    freed_up,
                    freed,
                )
                &&& bench::bursts(freed_up, acted, freed)
            };
        let retired = system::retired(prepared, node, ts);
        assert(within_count(retired, n + 1));
        lemma_follows_within(strategy, retired, freed_up, freed, n + 1);
    }
}

/// Whether a worker has performed `n` operations and has room for more.
spec fn has_room<W>(worker: BenchWorker<W>, n: int) -> bool {
    &&& worker.local == n
    &&& worker.workload.key_range == 20_000_000
    &&& within_count(worker.state@, n)
}

proof fn lemma_rounds_leave_room<W>(
    start: Instant,
    states: Seq<BenchWorker<W>>,
    looked: Seq<BenchWorker<W>>,
    readings: Seq<(u128, u128)>,
    k: int,
)
    requires
        bench::goes_on(start, states, looked, readings),
        has_room(states[0], 0),
        0 <= k < states.len(),
        k < u64::MAX - 1,
    ensures
        has_room(states[k], k),
    decreases k,
{
    if k > 0 {
        lemma_rounds_leave_room(start, states, looked, readings, k - 1);
        let before = looked[k - 1];
        assert(states[k - 1].fit());
        assert(before.has_read(states[k - 1], start, bench::two_readings(readings[k - 1])));
        assert(states[k - 1 + 1].follows(before, readings[k - 1].1 as u64));
        let draw = workload::next_draw(before.rng);
        let extra = workload::next_extra_draw(draw);
        assert(within_count(before.state@, k - 1));
        lemma_operation_within(
            before.strategy,
            before.state@,
            states[k].state@,
            readings[k - 1].1 as u64,
            workload::key_of(draw, before.workload.key_range),
            workload::draws_snapshot(extra, before.snap_fraction),
            k - 1,
        );
    }
}

/// A run of a worker lasts as long as it is told to: every operation begins after
/// a reading of the clock, since the start of the run, that is short of the
/// duration, and the run ends with one that is not. That holds of every fresh
/// worker, of any strategy and any share of snapshots, for as many operations as
/// a word can count, less one.
pub proof fn runs_last_for_their_duration<W>(
    before: BenchWorker<W>,
    after: BenchWorker<W>,
    start: Instant,
    duration_ns: u64,
    states: Seq<BenchWorker<W>>,
    looked: Seq<BenchWorker<W>>,
    readings: Seq<(u128, u128)>,
    strategy: Strategy,
    index: usize,
    tid: usize,
    snap_fraction: Binary64,
)
    requires
        before.starts_as(strategy, index, tid, snap_fraction),
        tid < 256,
        bench::runs_for(before, after, start, duration_ns, states, looked, readings),
        readings.len() < u64::MAX - 1,
    ensures
        forall|k: int| 0 <= k < readings.len() ==> (#[trigger] readings[k]).0 < duration_ns,
        after.local == readings.len(),
        ({
            let last = after.state@.trace.last();
            &&& last is Reading
            &&& last->since == start
            &&& last->elapsed_ns >= duration_ns
        }),
{
    let n = readings.len() as int;
    pressure_laws::lemma_one();
    assert(has_room(states[0], 0));
    lemma_rounds_leave_room(start, states, looked, readings, n);
    let last = states.last();
    assert(last == states[n]);
    assert(last.fit());
    let elapsed_ns = choose|elapsed_ns: u128|
        elapsed_ns >= duration_ns && #[trigger] after.has_read(
            last,
            start,
            bench::one_reading(elapsed_ns),
        );
    let read = access::readings_of(start, bench::one_reading(elapsed_ns));
    assert(after.state@.trace.last() == read[0]);
}

} // verus!
