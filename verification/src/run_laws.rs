//! What holds of a run of a benchmark: how large a backlog gets while no other
//! thread announces a snapshot, what a run without snapshots reports of their
//! latency, and what a run reports as its total.

use crate::abtree::TreeWorker;
use crate::access;
use crate::access::{Access, Place};
use crate::announce;
use crate::bench;
use crate::bench::{BenchShared, BenchWorker, Strategy};
use crate::binary64;
use crate::binary64::Binary64;
use crate::limbo;
use crate::limbo::VersionNode;
use crate::local;
use crate::local::Local;
use crate::memory;
use crate::memory::Memory;
use crate::params::{
    AF_BATCH_K, CONTINUOUS_DRAIN_PER_OP, HOLD_LIMIT, MAX_THREADS, WINDOW_SIZE,
};
use crate::reclaim_laws;
use crate::rounding;
use crate::scc;
use crate::scc::Point;
use crate::sharing_laws;
use crate::system;
use crate::tally_laws;
use crate::workload;
use std::time::Instant;
use vstd::prelude::*;

verus! {

/// Whether a trace goes on from another.
pub open spec fn extends(before: Seq<Access>, after: Seq<Access>) -> bool {
    before.len() <= after.len() && after.take(before.len() as int) == before
}

/// Whether an access is one of those that a write and the freeing after it make:
/// announcements it only reads, and nothing of the coordinator of snapshots is
/// touched.
pub open spec fn of_write(access: Access) -> bool {
    match memory::place_of(access) {
        Place::GlobalEpoch => true,
        Place::ApproxSpi => true,
        Place::DeltaSpi => true,
        Place::ActiveCount => true,
        Place::ConcurrentFreers => true,
        Place::TotalFreeNs => true,
        Place::Clock => true,
        Place::Slot(i) => access is Load && i < MAX_THREADS,
        _ => false,
    }
}

/// Whether a trace goes on from another by accesses of a write.
spec fn writes_on(before: Seq<Access>, after: Seq<Access>) -> bool {
    extends(before, after) && forall|i: int|
        before.len() <= i < after.len() ==> of_write(#[trigger] after[i])
}

proof fn lemma_writes_on(a: Seq<Access>, b: Seq<Access>, c: Seq<Access>)
    requires
        writes_on(a, b),
        writes_on(b, c),
    ensures
        writes_on(a, c),
{
    assert(c.take(a.len() as int) == b.take(a.len() as int));
    assert forall|i: int| a.len() <= i < c.len() implies of_write(#[trigger] c[i]) by {
        if i < b.len() {
            assert(c[i] == c.take(b.len() as int)[i]);
            assert(of_write(b[i]));
        }
    }
}

proof fn lemma_writes_on_by(a: Seq<Access>, t: Seq<Access>)
    requires
        forall|i: int| 0 <= i < t.len() ==> of_write(#[trigger] t[i]),
    ensures
        writes_on(a, a + t),
{
    assert((a + t).take(a.len() as int) == a);
    assert forall|i: int| a.len() <= i < (a + t).len() implies of_write(#[trigger] (a + t)[i]) by {
        assert((a + t)[i] == t[i - a.len()]);
    }
}

proof fn lemma_drains_write_on<V, F, W>(
    before: Local<V, F, W>,
    after: Local<V, F, W>,
    k: nat,
    freed: nat,
)
    requires
        system::drains(before, after, k, freed),
    ensures
        writes_on(before.trace, after.trace),
        after.bag.len() <= before.bag.len(),
{
    let scan = access::since(before.trace, after.trace);
    let expected = announce::scan_accesses(scan[0]->Load_value, announce::scanned(scan));
    assert forall|i: int| 0 <= i < scan.len() implies of_write(#[trigger] scan[i]) by {
        assert(scan[i] == expected[i]);
    }
    lemma_writes_on_by(before.trace, scan);
    limbo::lemma_drained(before.bag, system::safe_after(scan), k);
}

proof fn lemma_steps_write_on<V, F, W>(before: Local<V, F, W>, after: Local<V, F, W>)
    requires
        system::steps_epoch(before, after),
    ensures
        writes_on(before.trace, after.trace),
{
    lemma_writes_on_by(before.trace, access::since(before.trace, after.trace));
}

proof fn lemma_resampled_writes_on<V, F, W>(t: Local<V, F, W>)
    ensures
        writes_on(t.trace, system::resampled(t).trace),
{
    let after = system::resampled(t);
    let added = access::since(t.trace, after.trace);
    if t.win_writes == 0 && t.win_snaps == 0 {
        assert(t.trace.take(t.trace.len() as int) == t.trace);
    } else {
        assert(after.trace == t.trace + added);
        lemma_writes_on_by(t.trace, added);
    }
}

proof fn lemma_same_writes_on(a: Seq<Access>)
    ensures
        writes_on(a, a),
{
    assert(a.take(a.len() as int) == a);
}

proof fn lemma_reclaims_write_on<V, F, W>(before: Local<V, F, W>, after: Local<V, F, W>)
    requires
        system::reclaims(before, after),
    ensures
        writes_on(before.trace, after.trace),
        after.bag == before.bag,
{
    let gc_mode = crate::mode::mode_after(before.spi_ema, before.gc_mode);
    let selected = Local { gc_mode, ..before };
    if after == selected {
        lemma_same_writes_on(before.trace);
    } else {
        lemma_steps_write_on(selected, after);
    }
}

proof fn lemma_reclaims_batch_write_on<V, F, W>(
    before: Local<V, F, W>,
    after: Local<V, F, W>,
    freed: nat,
)
    requires
        system::reclaims_batch(before, after, freed),
    ensures
        writes_on(before.trace, after.trace),
        after.bag.len() <= before.bag.len(),
        after.op_counter == before.op_counter,
{
    let delta = system::delta_read(before.trace, after.trace);
    let k = system::batch_size(before.spi_ema, delta) as usize as nat;
    let load = system::delta_load(delta);
    let read = Local { trace: before.trace.push(load), ..before };
    assert(before.trace.push(load) == before.trace + seq![load]);
    lemma_writes_on_by(before.trace, seq![load]);
    let drained = choose|drained: Local<V, F, W>|
        {
            &&& #[trigger] system::drains(read, drained, k, freed)
            &&& if system::stride_due(before.op_counter, before.spi_ema) {
                system::steps_epoch(drained, after)
            } else {
                after == drained
            }
        };
    lemma_drains_write_on(read, drained, k, freed);
    lemma_writes_on(before.trace, read.trace, drained.trace);
    if system::stride_due(before.op_counter, before.spi_ema) {
        lemma_steps_write_on(drained, after);
        lemma_writes_on(before.trace, drained.trace, after.trace);
    }
}

proof fn lemma_bursts_write_on<V, F, W>(before: Local<V, F, W>, after: Local<V, F, W>, n: nat)
    requires
        bench::bursts(before, after, n),
    ensures
        writes_on(before.trace, after.trace),
{
    let t = access::since(before.trace, after.trace);
    if n > 0 {
        let readings = choose|readings: Seq<u128>|
            #[trigger] bench::is_waiting_burst(t, n, readings);
        let expected = bench::burst_accesses(
            n,
            t[0]->FetchAdd_previous,
            t[1]->instant,
            readings,
            t[t.len() - 2]->FetchAdd_previous,
            t.last()->FetchSub_previous,
        );
        assert forall|i: int| 0 <= i < t.len() implies of_write(#[trigger] t[i]) by {
            assert(t[i] == expected[i]);
        }
    }
    lemma_writes_on_by(before.trace, t);
}

/// Whether every announcement that was read since `before` was none.
spec fn unannounced(before: Seq<Access>, after: Seq<Access>) -> bool {
    forall|i: int|
        before.len() <= i < after.len() && (#[trigger] after[i]) is Load && memory::place_of(
            after[i],
        ) is Slot ==> after[i]->Load_value == 0
}

proof fn lemma_oldest_of_none(announced: Seq<u64>)
    requires
        forall|i: int| 0 <= i < announced.len() ==> #[trigger] announced[i] == 0,
    ensures
        announce::oldest(announced) == u64::MAX,
    decreases announced.len(),
{
    if announced.len() > 0 {
        lemma_oldest_of_none(announced.drop_last());
    }
}

/// A drain that finds no announcement may free everything.
proof fn lemma_unpinned<V, F, W>(
    start: Seq<Access>,
    before: Local<V, F, W>,
    after: Local<V, F, W>,
    end: Seq<Access>,
    k: nat,
    freed: nat,
)
    requires
        extends(start, before.trace),
        system::drains(before, after, k, freed),
        extends(after.trace, end),
        unannounced(start, end),
    ensures
        system::safe_after(access::since(before.trace, after.trace)) == u64::MAX,
{
    let scan = access::since(before.trace, after.trace);
    let seen = announce::scanned(scan);
    let expected = announce::scan_accesses(scan[0]->Load_value, seen);
    assert forall|i: int| 0 <= i < seen.len() implies #[trigger] seen[i] == 0 by {
        let at = before.trace.len() + i + 1;
        assert(scan[i + 1] == expected[i + 1]);
        assert(after.trace[at] == scan[i + 1]);
        assert(end[at] == end.take(after.trace.len() as int)[at]);
    }
    lemma_oldest_of_none(seen);
}

/// What keeps the backlog of a worker small, while no announcement is found.
pub open spec fn within<V, F, W>(strategy: Strategy, t: Local<V, F, W>) -> bool {
    &&& reclaim_laws::all_stamped(t.bag)
    &&& match strategy {
        Strategy::PacerDiscrete => reclaim_laws::in_step(t) && t.bag.len() <= t.hold_ticks,
        Strategy::BatchEbr => t.bag.len() == t.op_counter % WINDOW_SIZE,
        _ => t.bag.len() == 0,
    }
}

/// Whether no write since `before` was stamped with the last epoch that there is.
spec fn stamps_left(before: Seq<Access>, after: Seq<Access>) -> bool {
    forall|i: int|
        before.len() <= i < after.len() && (#[trigger] after[i]) is FetchAdd && memory::place_of(
            after[i],
        ) == Place::GlobalEpoch ==> after[i]->FetchAdd_previous < u64::MAX
}

/// The freeing after a write, in the discrete policy.
proof fn lemma_discrete<V, F, W>(
    before: Local<V, F, W>,
    prepared: Local<V, F, W>,
    after: Local<V, F, W>,
    node: Box<VersionNode<V, W>>,
    ts: u64,
    freed: nat,
    end: Seq<Access>,
)
    requires
        before.op_counter < u64::MAX,
        system::prepares_write(before, prepared, ts),
        bench::follows_write(
            Strategy::PacerDiscrete,
            system::retired(prepared, node, ts),
            after,
            freed,
        ),
        writes_on(before.trace, prepared.trace),
    ensures
        writes_on(prepared.trace, after.trace),
        ts < u64::MAX && extends(after.trace, end) && unannounced(before.trace, end) && within(
            Strategy::PacerDiscrete,
            before,
        ) ==> within(Strategy::PacerDiscrete, after),
{
    let start = system::retired(prepared, node, ts);
    let ticked = choose|ticked: Local<V, F, W>|
        {
            &&& #[trigger] system::ticks(start, ticked, freed)
            &&& if system::window_due(start.op_counter) {
                system::reclaims(system::resampled(ticked), after)
            } else {
                after == ticked
            }
        };
    let (k, hold_ticks) = system::tick_limit(start.gc_mode, start.hold_ticks);
    let counted = Local { hold_ticks, ..start };
    lemma_drains_write_on(counted, ticked, k, freed);
    lemma_same_writes_on(ticked.trace);
    if system::window_due(start.op_counter) {
        lemma_resampled_writes_on(ticked);
        lemma_reclaims_write_on(system::resampled(ticked), after);
        lemma_writes_on(ticked.trace, system::resampled(ticked).trace, after.trace);
    }
    lemma_writes_on(prepared.trace, ticked.trace, after.trace);
    if ts < u64::MAX && extends(after.trace, end) && unannounced(before.trace, end) && within(
        Strategy::PacerDiscrete,
        before,
    ) {
        lemma_extends(ticked.trace, after.trace, end);
        lemma_unpinned(before.trace, counted, ticked, end, k, freed);
        assert(reclaim_laws::unpinned_write(before, after, prepared, ticked, node, ts, freed));
        assert(reclaim_laws::paced_step(before, after));
        reclaim_laws::lemma_backlog_step(before, after, 0);
    }
}

proof fn lemma_extends(a: Seq<Access>, b: Seq<Access>, c: Seq<Access>)
    requires
        extends(a, b),
        extends(b, c),
    ensures
        extends(a, c),
{
    assert(c.take(a.len() as int) == b.take(a.len() as int));
}

/// The freeing after a write, in the other strategies.
proof fn lemma_not_discrete<V, F, W>(
    strategy: Strategy,
    before: Local<V, F, W>,
    prepared: Local<V, F, W>,
    after: Local<V, F, W>,
    node: Box<VersionNode<V, W>>,
    ts: u64,
    freed: nat,
    end: Seq<Access>,
)
    requires
        strategy != Strategy::PacerDiscrete,
        before.op_counter < u64::MAX,
        system::prepares_write(before, prepared, ts),
        bench::follows_write(strategy, system::retired(prepared, node, ts), after, freed),
        writes_on(before.trace, prepared.trace),
    ensures
        writes_on(prepared.trace, after.trace),
        ts < u64::MAX && extends(after.trace, end) && unannounced(before.trace, end) && within(
            strategy,
            before,
        ) ==> within(strategy, after),
{
    let start = system::retired(prepared, node, ts);
    let hypothesis = ts < u64::MAX && extends(after.trace, end) && unannounced(before.trace, end)
        && within(strategy, before);
    if hypothesis {
        assert(reclaim_laws::all_stamped(start.bag));
    }
    lemma_same_writes_on(prepared.trace);
    match strategy {
        Strategy::TokenAf => {
            lemma_drains_write_on(start, after, AF_BATCH_K as nat, freed);
            if hypothesis {
                lemma_unpinned(before.trace, start, after, end, AF_BATCH_K as nat, freed);
                reclaim_laws::unpinned_drains_are_full(start, after, AF_BATCH_K as nat, freed);
            }
        },
        Strategy::BatchEbr => {
            lemma_next_in_window(before.op_counter as int);
            if system::window_due(start.op_counter) {
                lemma_drains_write_on(start, after, usize::MAX as nat, freed);
                if hypothesis {
                    lemma_unpinned(before.trace, start, after, end, usize::MAX as nat, freed);
                    reclaim_laws::unpinned_drains_are_full(
                        start,
                        after,
                        usize::MAX as nat,
                        freed,
                    );
                }
            }
        },
        _ => {
            let (ticked, at_once) = choose|ticked: Local<V, F, W>, at_once: nat|
                {
                    &&& #[trigger] system::drains(
                        start,
                        ticked,
                        CONTINUOUS_DRAIN_PER_OP as nat,
                        at_once,
                    )
                    &&& at_once <= freed
                    &&& if system::window_due(start.op_counter) {
                        system::reclaims_batch(
                            system::resampled(ticked),
                            after,
                            (freed - at_once) as nat,
                        )
                    } else {
                        after == ticked && freed == at_once
                    }
                };
            lemma_drains_write_on(start, ticked, CONTINUOUS_DRAIN_PER_OP as nat, at_once);
            lemma_same_writes_on(ticked.trace);
            if system::window_due(start.op_counter) {
                lemma_resampled_writes_on(ticked);
                lemma_reclaims_batch_write_on(
                    system::resampled(ticked),
                    after,
                    (freed - at_once) as nat,
                );
                lemma_writes_on(ticked.trace, system::resampled(ticked).trace, after.trace);
            }
            lemma_writes_on(prepared.trace, ticked.trace, after.trace);
            if hypothesis {
                lemma_extends(ticked.trace, after.trace, end);
                lemma_unpinned(
                    before.trace,
                    start,
                    ticked,
                    end,
                    CONTINUOUS_DRAIN_PER_OP as nat,
                    at_once,
                );
                reclaim_laws::unpinned_drains_are_full(
                    start,
                    ticked,
                    CONTINUOUS_DRAIN_PER_OP as nat,
                    at_once,
                );
                assert(ticked.bag.len() == 0);
                assert(after.bag.len() == 0);
            }
        },
    }
}

proof fn lemma_next_in_window(n: int)
    requires
        0 <= n < u64::MAX,
    ensures
        (n + 1) as u64 % WINDOW_SIZE == (if n as u64 % WINDOW_SIZE == WINDOW_SIZE - 1 {
            0int
        } else {
            n as u64 % WINDOW_SIZE + 1
        }),
{
}

/// A write of a worker makes accesses of a write, and keeps its backlog small
/// where it finds no announcement.
proof fn lemma_write<W>(
    strategy: Strategy,
    before: Local<u64, (), W>,
    after: Local<u64, (), W>,
    key: u64,
)
    requires
        bench::bench_write(strategy, before, after, key),
        before.op_counter < u64::MAX,
    ensures
        writes_on(before.trace, after.trace),
        stamps_left(before.trace, after.trace) && unannounced(before.trace, after.trace) && within(
            strategy,
            before,
        ) ==> within(strategy, after),
{
    let (prepared, freed_up, node, ts, freed) = choose|
        prepared: Local<u64, (), W>,
        freed_up: Local<u64, (), W>,
        node: Box<VersionNode<u64, W>>,
        ts: u64,
        freed: nat,
    |
        {
            &&& node.value == key
            &&& node.birth_ts == ts
            &&& #[trigger] system::prepares_write(before, prepared, ts)
            &&& #[trigger] bench::follows_write(
                strategy,
                system::retired(prepared, node, ts),
                freed_up,
                freed,
            )
            &&& bench::bursts(freed_up, after, freed)
        };
    let stamp = prepared.trace.last();
    assert(prepared.trace == before.trace + seq![stamp]);
    lemma_writes_on_by(before.trace, seq![stamp]);
    lemma_bursts_write_on(freed_up, after, freed);
    if strategy == Strategy::PacerDiscrete {
        lemma_discrete(before, prepared, freed_up, node, ts, freed, after.trace);
    } else {
        lemma_not_discrete(strategy, before, prepared, freed_up, node, ts, freed, after.trace);
    }
    lemma_writes_on(prepared.trace, freed_up.trace, after.trace);
    lemma_writes_on(before.trace, prepared.trace, after.trace);
    let at = before.trace.len() as int;
    assert(after.trace[at] == after.trace.take(prepared.trace.len() as int)[at]);
    assert(after.trace[at] == stamp);
}

/// Whether an access is one of those that taking a snapshot makes, but for its
/// announcement.
pub open spec fn of_coordinator(access: Access) -> bool {
    match memory::place_of(access) {
        Place::WindowGen => true,
        Place::CurrentTs => true,
        Place::WindowOpenAt => true,
        Place::HitCount => true,
        Place::TotalCount => true,
        Place::AdaptiveWidth => true,
        Place::Latency => true,
        Place::Clock => true,
        Place::GlobalEpoch => access is Load,
        _ => false,
    }
}

pub proof fn lemma_path_accesses(now: u64, from: Point, t: Seq<Access>)
    requires
        scc::path(now, from, t) is Some,
    ensures
        forall|i: int| 0 <= i < t.len() ==> of_coordinator(#[trigger] t[i]),
    decreases t.len(),
{
    if t.len() > 0 {
        let point = scc::next(now, from, t[0]).unwrap();
        lemma_path_accesses(now, point, t.skip(1));
        assert forall|i: int| 0 <= i < t.len() implies of_coordinator(#[trigger] t[i]) by {
            if i > 0 {
                assert(t.skip(1)[i - 1] == t[i]);
            }
        }
    }
}

/// Whether an access is one of those that a worker makes to take and release a
/// snapshot.
pub open spec fn of_snapshot(access: Access, tid: nat) -> bool {
    of_coordinator(access) || access is Store && memory::place_of(access) == Place::Slot(tid)
}

/// Taking and releasing a snapshot leaves the backlog alone and no announcement
/// behind.
proof fn lemma_snapshot<W>(before: Local<u64, (), W>, after: Local<u64, (), W>, now_ns: u64)
    requires
        bench::bench_snapshot(before, after, now_ns),
    ensures
        extends(before.trace, after.trace),
        before.trace.len() < after.trace.len(),
        forall|i: int|
            before.trace.len() <= i < after.trace.len() ==> of_snapshot(
                #[trigger] after.trace[i],
                before.tid as nat,
            ),
        after.trace.last() is Store,
        after.trace.last()->Store_value == 0,
        memory::place_of(after.trace.last()) == Place::Slot(before.tid as nat),
        after.bag == before.bag,
        after.gc_mode == before.gc_mode,
        after.hold_ticks == before.hold_ticks,
        after.op_counter == before.op_counter,
        after.tid == before.tid,
{
    let (taken, ts) = choose|taken: Local<u64, (), W>, ts: Option<u64>|
        {
            &&& #[trigger] system::takes_snapshot(before, taken, now_ns, ts)
            &&& after == bench::released(taken)
        };
    let start = taken.trace[before.trace.len() as int]->instant;
    let began = system::clocked(before, start);
    let asked = match ts {
        Some(ts) => {
            let (asked, elapsed_ns) = choose|asked: Local<u64, (), W>, elapsed_ns: u128|
                {
                    &&& #[trigger] system::asks_for_snapshot(began, asked, now_ns, Some(ts))
                    &&& system::announces_snapshot(
                        #[trigger] system::timed(asked, start, elapsed_ns),
                        taken,
                        ts,
                        elapsed_ns as u64,
                    )
                };
            asked
        },
        None => taken,
    };
    let t = access::since(began.trace, asked.trace);
    assert(asked.trace == began.trace + t);
    lemma_path_accesses(now_ns, Point::Start, t);
    assert(after.trace.take(before.trace.len() as int) == before.trace);
    assert forall|i: int| before.trace.len() <= i < after.trace.len() implies of_snapshot(
        #[trigger] after.trace[i],
        before.tid as nat,
    ) by {
        if i < asked.trace.len() {
            assert(after.trace[i] == asked.trace[i]);
            if i > before.trace.len() {
                assert(asked.trace[i] == t[i - began.trace.len()]);
            } else {
                assert(asked.trace[i] == began.trace[i]);
            }
        }
    }
}

/// Whether an access is one that a worker makes in an operation, a snapshot or
/// not, after which its backlog is `len`.
pub open spec fn of_operation(access: Access, snapshot: bool, tid: nat, len: nat) -> bool {
    if memory::place_of(access) == Place::PeakLimbo {
        access is Load || access is FetchMax && access->FetchMax_value == len as u64
    } else if access is Reading {
        true
    } else if snapshot {
        of_snapshot(access, tid)
    } else {
        of_write(access)
    }
}

/// Whether a thread went from `before` to `after` by such accesses.
spec fn operates<W>(before: Local<u64, (), W>, after: Local<u64, (), W>, snapshot: bool) -> bool {
    &&& extends(before.trace, after.trace)
    &&& after.tid == before.tid
    &&& forall|i: int|
        before.trace.len() <= i < after.trace.len() ==> of_operation(
            #[trigger] after.trace[i],
            snapshot,
            before.tid as nat,
            after.bag.len(),
        )
}

/// A note of the backlog touches nothing but the peak.
proof fn lemma_note<W>(before: Local<u64, (), W>, after: Local<u64, (), W>)
    requires
        bench::notes_peak(before, after),
    ensures
        extends(before.trace, after.trace),
        after == (Local { trace: after.trace, ..before }),
        forall|i: int|
            before.trace.len() <= i < after.trace.len() ==> memory::place_of(
                #[trigger] after.trace[i],
            ) == Place::PeakLimbo && (after.trace[i] is Load || after.trace[i] is FetchMax
                && after.trace[i]->FetchMax_value == before.bag.len() as u64),
        forall|i: int|
            0 <= i < before.trace.len() ==> #[trigger] after.trace[i] == before.trace[i],
{
    let noted = access::since(before.trace, after.trace);
    assert(after.trace.take(before.trace.len() as int) == before.trace);
    assert forall|i: int| before.trace.len() <= i < after.trace.len() implies memory::place_of(
        #[trigger] after.trace[i],
    ) == Place::PeakLimbo && (after.trace[i] is Load || after.trace[i] is FetchMax
        && after.trace[i]->FetchMax_value == before.bag.len() as u64) by {
        assert(after.trace[i] == noted[i - before.trace.len()]);
    }
}

/// An operation that is a snapshot.
proof fn lemma_snapshot_operation<W>(
    before: Local<u64, (), W>,
    acted: Local<u64, (), W>,
    after: Local<u64, (), W>,
    now_ns: u64,
)
    requires
        bench::bench_snapshot(before, acted, now_ns),
        bench::notes_peak(acted, after),
    ensures
        operates(before, after, true),
        after.bag == before.bag,
        after.gc_mode == before.gc_mode,
        after.hold_ticks == before.hold_ticks,
        after.op_counter == before.op_counter,
        (forall|s: nat| #[trigger] slot_in(before.trace, s) == 0) ==> forall|s: nat|
            #[trigger] slot_in(after.trace, s) == 0,
{
    lemma_snapshot(before, acted, now_ns);
    lemma_note(acted, after);
    lemma_extends(before.trace, acted.trace, after.trace);
    if forall|s: nat| #[trigger] slot_in(before.trace, s) == 0 {
        assert forall|s: nat| #[trigger] slot_in(after.trace, s) == 0 by {
            assert(slot_in(before.trace, s) == 0);
            lemma_slot_in(acted.trace, after.trace, s);
            if s != before.tid {
                lemma_slot_in(before.trace, acted.trace, s);
            }
        }
    }
}

/// An operation that is a write.
proof fn lemma_write_operation<W>(
    strategy: Strategy,
    before: Local<u64, (), W>,
    acted: Local<u64, (), W>,
    after: Local<u64, (), W>,
    key: u64,
)
    requires
        bench::bench_write(strategy, before, acted, key),
        bench::notes_peak(acted, after),
        before.op_counter < u64::MAX,
    ensures
        operates(before, after, false),
        (forall|s: nat| #[trigger] slot_in(before.trace, s) == 0) ==> forall|s: nat|
            #[trigger] slot_in(after.trace, s) == 0,
        stamps_left(before.trace, after.trace) && unannounced(before.trace, after.trace) && within(
            strategy,
            before,
        ) ==> within(strategy, after),
{
    lemma_write(strategy, before, acted, key);
    lemma_tid_is_kept(strategy, before, acted, key);
    lemma_note(acted, after);
    lemma_extends(before.trace, acted.trace, after.trace);
    if stamps_left(before.trace, after.trace) && unannounced(before.trace, after.trace) {
        assert forall|i: int|
            before.trace.len() <= i < acted.trace.len() && (
            #[trigger] acted.trace[i]) is FetchAdd && memory::place_of(acted.trace[i])
                == Place::GlobalEpoch implies acted.trace[i]->FetchAdd_previous < u64::MAX by {
            assert(after.trace[i] == acted.trace[i]);
        }
        assert forall|i: int|
            before.trace.len() <= i < acted.trace.len() && (
            #[trigger] acted.trace[i]) is Load && memory::place_of(
                acted.trace[i],
            ) is Slot implies acted.trace[i]->Load_value == 0 by {
            assert(after.trace[i] == acted.trace[i]);
        }
    }
    if forall|s: nat| #[trigger] slot_in(before.trace, s) == 0 {
        assert forall|s: nat| #[trigger] slot_in(after.trace, s) == 0 by {
            assert(slot_in(before.trace, s) == 0);
            lemma_slot_in(acted.trace, after.trace, s);
            lemma_slot_in(before.trace, acted.trace, s);
        }
    }
}

/// A write does not move a worker to another slot.
proof fn lemma_tid_is_kept<W>(
    strategy: Strategy,
    before: Local<u64, (), W>,
    after: Local<u64, (), W>,
    key: u64,
)
    requires
        bench::bench_write(strategy, before, after, key),
    ensures
        after.tid == before.tid,
{
}

/// The announcement that a trace leaves in a slot; none where it left none.
pub open spec fn slot_in(t: Seq<Access>, slot: nat) -> u64
    decreases t.len(),
{
    if t.len() == 0 {
        0
    } else if t.last() is Store && memory::place_of(t.last()) == Place::Slot(slot) {
        t.last()->Store_value
    } else {
        slot_in(t.drop_last(), slot)
    }
}

/// Accesses that do not announce leave a slot alone.
proof fn lemma_slot_in(before: Seq<Access>, after: Seq<Access>, slot: nat)
    requires
        extends(before, after),
        forall|i: int|
            before.len() <= i < after.len() ==> !((#[trigger] after[i]) is Store
                && memory::place_of(after[i]) == Place::Slot(slot)),
    ensures
        slot_in(after, slot) == slot_in(before, slot),
    decreases after.len(),
{
    if before.len() < after.len() {
        let rest = after.drop_last();
        assert(rest.take(before.len() as int) == before);
        lemma_slot_in(before, rest, slot);
    } else {
        assert(after == before);
    }
}

/// How many nodes the backlog of a worker stays below, while no other thread
/// announces a snapshot.
pub open spec fn backlog_limit(strategy: Strategy) -> nat {
    match strategy {
        Strategy::PacerDiscrete => HOLD_LIMIT as nat,
        Strategy::BatchEbr => WINDOW_SIZE as nat,
        _ => 1,
    }
}

proof fn lemma_within<V, F, W>(strategy: Strategy, t: Local<V, F, W>)
    requires
        within(strategy, t),
    ensures
        t.bag.len() < backlog_limit(strategy),
{
}

/// Whether a worker has done nothing but look at the clock.
pub open spec fn looks_at_clock<W>(before: BenchWorker<W>, after: BenchWorker<W>) -> bool {
    exists|start: Instant, readings: Seq<u128>| #[trigger] after.has_read(before, start, readings)
}

/// One worker of a run: what it was after each of its operations, what it was
/// when the next one began, and when that was.
pub struct WorkerRun<W> {
    pub states: Seq<BenchWorker<W>>,
    pub looked: Seq<BenchWorker<W>>,
    pub nows: Seq<u64>,
    pub index: usize,
    pub tid: usize,
}

impl<W> WorkerRun<W> {
    /// Whether the worker started afresh and went on by whole operations, doing
    /// nothing but look at the clock between them.
    #[verifier::opaque]
    pub open spec fn valid(self, strategy: Strategy, snap_fraction: Binary64) -> bool {
        &&& self.states[0].starts_as(strategy, self.index, self.tid, snap_fraction)
        &&& self.states.len() == self.nows.len() + 1
        &&& self.looked.len() == self.nows.len()
        &&& forall|k: int|
            0 <= k < self.nows.len() ==> {
                &&& (#[trigger] self.states[k]).fit()
                &&& looks_at_clock(self.states[k], self.looked[k])
                &&& self.states[k + 1].follows(self.looked[k], self.nows[k])
            }
    }

    /// The state of the worker after `k` operations.
    pub open spec fn at(self, k: int) -> Local<u64, (), W> {
        self.states[k].state@
    }

    /// The accesses of the worker.
    pub open spec fn trace(self) -> Seq<Access> {
        self.states.last().state@.trace
    }

    /// Whether operation number `k` is a snapshot.
    pub open spec fn is_snapshot(self, k: int, snap_fraction: Binary64) -> bool {
        workload::draws_snapshot(self.states[k].rng, snap_fraction)
    }
}

/// What stays as it was at the start.
proof fn lemma_same_worker<W>(
    run: WorkerRun<W>,
    strategy: Strategy,
    snap_fraction: Binary64,
    k: int,
)
    requires
        run.valid(strategy, snap_fraction),
        0 <= k < run.states.len(),
    ensures
        run.states[k].strategy == strategy,
        run.states[k].snap_fraction == snap_fraction,
        run.states[k].local == k,
    decreases k,
{
    reveal(WorkerRun::valid);
    if k > 0 {
        lemma_same_worker(run, strategy, snap_fraction, k - 1);
        assert(run.states[k - 1].fit() && run.states[k - 1 + 1].follows(
            run.looked[k - 1],
            run.nows[k - 1],
        ));
    }
}

/// What `BenchWorker::run` makes of a fresh worker is such a run, up to the last
/// look at the clock.
pub proof fn running_is_whole_operations<W>(
    before: BenchWorker<W>,
    after: BenchWorker<W>,
    start: Instant,
    duration_ns: u64,
    states: Seq<BenchWorker<W>>,
    looked: Seq<BenchWorker<W>>,
    readings: Seq<(u128, u128)>,
    strategy: Strategy,
    index: usize,
    tid: usize,
    snap_fraction: Binary64,
)
    requires
        before.starts_as(strategy, index, tid, snap_fraction),
        bench::runs_for(before, after, start, duration_ns, states, looked, readings),
    ensures
        (WorkerRun {
            states,
            looked,
            nows: readings.map_values(|reading: (u128, u128)| reading.1 as u64),
            index,
            tid,
        }).valid(strategy, snap_fraction),
        after.local == readings.len(),
{
    let nows = readings.map_values(|reading: (u128, u128)| reading.1 as u64);
    let run = WorkerRun { states, looked, nows, index, tid };
    lemma_rounds(start, states, looked, readings);
    assert(run.valid(strategy, snap_fraction)) by {
        reveal(WorkerRun::valid);
    }
    lemma_same_worker(run, strategy, snap_fraction, states.len() - 1);
}

/// Each round is a look at the clock and an operation.
proof fn lemma_rounds<W>(
    start: Instant,
    states: Seq<BenchWorker<W>>,
    looked: Seq<BenchWorker<W>>,
    readings: Seq<(u128, u128)>,
)
    requires
        bench::goes_on(start, states, looked, readings),
    ensures
        forall|k: int|
            0 <= k < readings.len() ==> {
                &&& (#[trigger] states[k]).fit()
                &&& looks_at_clock(states[k], looked[k])
                &&& states[k + 1].follows(looked[k], readings[k].1 as u64)
            },
{
    assert forall|k: int| 0 <= k < readings.len() implies {
        &&& (#[trigger] states[k]).fit()
        &&& looks_at_clock(states[k], looked[k])
        &&& states[k + 1].follows(looked[k], readings[k].1 as u64)
    } by {
        assert(looked[k].has_read(states[k], start, bench::two_readings(readings[k])));
    }
}

proof fn lemma_starts_afresh<W>(run: WorkerRun<W>, strategy: Strategy, snap_fraction: Binary64)
    requires
        run.valid(strategy, snap_fraction),
    ensures
        run.states.len() > 0,
        run.at(0) == local::fresh::<u64, (), W>(run.tid),
{
    reveal(WorkerRun::valid);
}

/// A worker counts each of its operations.
pub proof fn operations_are_counted<W>(
    run: WorkerRun<W>,
    strategy: Strategy,
    snap_fraction: Binary64,
    k: int,
)
    requires
        run.valid(strategy, snap_fraction),
        0 <= k < run.states.len(),
    ensures
        run.states[k].local == k,
{
    lemma_same_worker(run, strategy, snap_fraction, k);
}

/// One operation of a worker.
proof fn lemma_one_operation<W>(
    run: WorkerRun<W>,
    strategy: Strategy,
    snap_fraction: Binary64,
    k: int,
)
    requires
        run.valid(strategy, snap_fraction),
        0 < k < run.states.len(),
    ensures
        ({
            let before = run.at(k - 1);
            let after = run.at(k);
            let snapshot = run.is_snapshot(k, snap_fraction);
            &&& operates(before, after, snapshot)
            &&& (forall|s: nat| #[trigger] slot_in(before.trace, s) == 0) ==> forall|s: nat|
                #[trigger] slot_in(after.trace, s) == 0
            &&& stamps_left(before.trace, after.trace) && (snapshot || unannounced(
                before.trace,
                after.trace,
            )) && within(strategy, before) ==> within(strategy, after)
        }),
{
    lemma_same_worker(run, strategy, snap_fraction, k - 1);
    reveal(WorkerRun::valid);
    let earlier = run.looked[k - 1];
    assert(run.states[k - 1].fit() && run.states[k - 1 + 1].follows(earlier, run.nows[k - 1]));
    let before = run.at(k - 1);
    let looked = earlier.state@;
    let after = run.at(k);
    let (start, readings) = choose|start: Instant, readings: Seq<u128>|
        #[trigger] earlier.has_read(run.states[k - 1], start, readings);
    let now_ns = run.nows[k - 1];
    let snapshot = run.is_snapshot(k, snap_fraction);
    let key = workload::key_of(
        workload::next_draw(earlier.rng),
        earlier.workload.key_range,
    );
    assert(bench::bench_op(strategy, looked, after, now_ns, key, snapshot));
    reveal(bench::bench_op);
    let acted = choose|acted: Local<u64, (), W>|
        {
            &&& if snapshot {
                bench::bench_snapshot(looked, acted, now_ns)
            } else {
                bench::bench_write(strategy, looked, acted, key)
            }
            &&& #[trigger] bench::notes_peak(acted, after)
        };
    if snapshot {
        lemma_snapshot_operation(looked, acted, after, now_ns);
    } else {
        lemma_write_operation(strategy, looked, acted, after, key);
    }
    lemma_after_look(before, looked, after, snapshot, start, readings);
    if forall|s: nat| #[trigger] slot_in(before.trace, s) == 0 {
        assert forall|s: nat| #[trigger] slot_in(looked.trace, s) == 0 by {
            assert(slot_in(before.trace, s) == 0);
            lemma_slot_in(before.trace, looked.trace, s);
        }
    }
}

/// A look at the clock before an operation.
proof fn lemma_after_look<W>(
    before: Local<u64, (), W>,
    looked: Local<u64, (), W>,
    after: Local<u64, (), W>,
    snapshot: bool,
    start: Instant,
    readings: Seq<u128>,
)
    requires
        looked == (Local { trace: before.trace + access::readings_of(start, readings), ..before }),
        operates(looked, after, snapshot),
    ensures
        extends(before.trace, looked.trace),
        forall|i: int|
            before.trace.len() <= i < looked.trace.len() ==> #[trigger] looked.trace[i] is Reading,
        operates(before, after, snapshot),
{
    assert(looked.trace.take(before.trace.len() as int) == before.trace);
    assert forall|i: int|
        before.trace.len() <= i < looked.trace.len() implies #[trigger] looked.trace[i] is Reading by {
        assert(looked.trace[i] == access::readings_of(start, readings)[i - before.trace.len()]);
    }
    lemma_extends(before.trace, looked.trace, after.trace);
    assert forall|i: int| before.trace.len() <= i < after.trace.len() implies of_operation(
        #[trigger] after.trace[i],
        snapshot,
        before.tid as nat,
        after.bag.len(),
    ) by {
        if i < looked.trace.len() {
            assert(after.trace.take(looked.trace.len() as int)[i] == after.trace[i]);
            assert(looked.trace[i] is Reading);
        }
    }
}

/// Whether every announcement that a thread read was its own: what it had left
/// in the slot, or none. So no other thread announces a snapshot.
pub open spec fn reads_own_announcements(t: Seq<Access>) -> bool {
    forall|i: int|
        0 <= i < t.len() && (#[trigger] t[i]) is Load ==> match memory::place_of(t[i]) {
            Place::Slot(slot) => slot < MAX_THREADS ==> t[i]->Load_value == slot_in(
                t.take(i),
                slot,
            ),
            _ => true,
        }
}

/// Whether no write was stamped with the last epoch that a word can hold.
pub open spec fn epochs_left(t: Seq<Access>) -> bool {
    forall|i: int|
        0 <= i < t.len() && (#[trigger] t[i]) is FetchAdd && memory::place_of(t[i])
            == Place::GlobalEpoch ==> t[i]->FetchAdd_previous < u64::MAX
}

/// What holds of a trace holds of what it goes on from.
proof fn lemma_prefix(before: Seq<Access>, after: Seq<Access>)
    requires
        extends(before, after),
    ensures
        reads_own_announcements(after) ==> reads_own_announcements(before),
        epochs_left(after) ==> epochs_left(before) && stamps_left(before, after),
{
    assert forall|i: int| 0 <= i < before.len() implies #[trigger] before[i] == after[i]
        && before.take(i) == after.take(i) by {
        assert(after.take(before.len() as int)[i] == after[i]);
        assert(after.take(before.len() as int).take(i) == after.take(i));
    }
    if reads_own_announcements(after) {
        assert forall|i: int| 0 <= i < before.len() && (
        #[trigger] before[i]) is Load implies match memory::place_of(before[i]) {
            Place::Slot(slot) => slot < MAX_THREADS ==> before[i]->Load_value == slot_in(
                before.take(i),
                slot,
            ),
            _ => true,
        } by {
            assert(after[i] is Load);
        }
    }
    if epochs_left(after) {
        assert forall|i: int|
            0 <= i < before.len() && (#[trigger] before[i]) is FetchAdd && memory::place_of(
                before[i],
            ) == Place::GlobalEpoch implies before[i]->FetchAdd_previous < u64::MAX by {
            assert(after[i] is FetchAdd);
        }
    }
}

/// A write finds no announcement where nobody else announces and the thread has
/// released its own.
proof fn lemma_finds_none<W>(before: Local<u64, (), W>, after: Local<u64, (), W>)
    requires
        operates(before, after, false),
        reads_own_announcements(after.trace),
        forall|s: nat| #[trigger] slot_in(before.trace, s) == 0,
    ensures
        unannounced(before.trace, after.trace),
{
    assert forall|i: int|
        before.trace.len() <= i < after.trace.len() && (
        #[trigger] after.trace[i]) is Load && memory::place_of(
            after.trace[i],
        ) is Slot implies after.trace[i]->Load_value == 0 by {
        let slot = memory::place_of(after.trace[i])->Slot_0;
        assert(of_operation(after.trace[i], false, before.tid as nat, after.bag.len()));
        let until = after.trace.take(i);
        assert(until.take(before.trace.len() as int) == after.trace.take(
            before.trace.len() as int,
        ));
        assert forall|j: int| before.trace.len() <= j < until.len() implies !((
        #[trigger] until[j]) is Store && memory::place_of(until[j]) == Place::Slot(slot)) by {
            assert(of_operation(after.trace[j], false, before.tid as nat, after.bag.len()));
        }
        lemma_slot_in(before.trace, until, slot);
        assert(slot_in(before.trace, slot) == 0);
    }
}

/// While no other thread announces a snapshot, the backlog of a worker stays
/// small, however many operations it performs and whatever share of them are
/// snapshots of its own: below the writes that may be held back in the discrete
/// policy, empty in the continuous one and where frees are amortised, and below
/// a window where frees come in batches.
pub proof fn backlogs_stay_small<W>(
    run: WorkerRun<W>,
    strategy: Strategy,
    snap_fraction: Binary64,
    k: int,
)
    requires
        run.valid(strategy, snap_fraction),
        0 <= k < run.states.len(),
        reads_own_announcements(run.at(k).trace),
        epochs_left(run.at(k).trace),
    ensures
        run.at(k).bag.len() < backlog_limit(strategy),
        within(strategy, run.at(k)),
        forall|s: nat| #[trigger] slot_in(run.at(k).trace, s) == 0,
    decreases k,
{
    if k > 0 {
        let before = run.at(k - 1);
        let after = run.at(k);
        lemma_one_operation(run, strategy, snap_fraction, k);
        lemma_prefix(before.trace, after.trace);
        backlogs_stay_small(run, strategy, snap_fraction, k - 1);
        if !run.is_snapshot(k, snap_fraction) {
            lemma_finds_none(before, after);
        }
    } else {
        lemma_starts_afresh(run, strategy, snap_fraction);
    }
    lemma_within(strategy, run.at(k));
}

/// Whether an access is one of operation number `j`.
spec fn is_from<W>(run: WorkerRun<W>, snap_fraction: Binary64, access: Access, j: int) -> bool {
    of_operation(
        access,
        run.is_snapshot(j, snap_fraction),
        run.at(j - 1).tid as nat,
        run.at(j).bag.len(),
    )
}

/// Every access of a worker is one of some operation.
proof fn lemma_accesses<W>(
    run: WorkerRun<W>,
    strategy: Strategy,
    snap_fraction: Binary64,
    k: int,
    i: int,
)
    requires
        run.valid(strategy, snap_fraction),
        0 <= k < run.states.len(),
        0 <= i < run.at(k).trace.len(),
    ensures
        exists|j: int|
            0 < j <= k && #[trigger] is_from(run, snap_fraction, run.at(k).trace[i], j) && extends(run.at(j).trace, run.at(k).trace),
    decreases k,
{
    if k == 0 {
        lemma_starts_afresh(run, strategy, snap_fraction);
    } else {
        let before = run.at(k - 1);
        let after = run.at(k);
        lemma_one_operation(run, strategy, snap_fraction, k);
        if i < before.trace.len() {
            lemma_accesses(run, strategy, snap_fraction, k - 1, i);
            let j = choose|j: int|
                0 < j <= k - 1 && #[trigger] is_from(run, snap_fraction, before.trace[i], j) && extends(run.at(j).trace, before.trace);
            assert(after.trace.take(before.trace.len() as int)[i] == after.trace[i]);
            lemma_extends(run.at(j).trace, before.trace, after.trace);
            assert(is_from(run, snap_fraction, after.trace[i], j));
        } else {
            lemma_same_writes_on(after.trace);
            assert(is_from(run, snap_fraction, after.trace[i], k));
        }
    }
}

/// What a worker raises the peak to is a backlog that it had.
proof fn lemma_noted<W>(run: WorkerRun<W>, strategy: Strategy, snap_fraction: Binary64, i: int)
    requires
        run.valid(strategy, snap_fraction),
        0 <= i < run.trace().len(),
        reads_own_announcements(run.trace()),
        epochs_left(run.trace()),
    ensures
        tally_laws::raises(run.trace()[i], Place::PeakLimbo),
        run.trace()[i] is FetchMax && memory::place_of(run.trace()[i]) == Place::PeakLimbo
            ==> run.trace()[i]->FetchMax_value < backlog_limit(strategy),
{
    lemma_starts_afresh(run, strategy, snap_fraction);
    let k = run.states.len() - 1;
    lemma_accesses(run, strategy, snap_fraction, k, i);
    let j = choose|j: int|
        0 < j <= k && #[trigger] is_from(run, snap_fraction, run.at(k).trace[i], j) && extends(run.at(j).trace, run.at(k).trace);
    lemma_prefix(run.at(j).trace, run.at(k).trace);
    backlogs_stay_small(run, strategy, snap_fraction, j);
}

/// What a thread reads in slots that nobody else writes to.
proof fn lemma_reads_own(m: Memory, t: Seq<Access>)
    requires
        memory::executes(m, t),
        forall|i: nat| i < MAX_THREADS ==> #[trigger] m[Place::Slot(i)] == 0,
        forall|i: int| 0 <= i < t.len() ==> sharing_laws::announces_whole(#[trigger] t[i]),
    ensures
        reads_own_announcements(t),
{
    assert forall|i: int| 0 <= i < t.len() && (#[trigger] t[i]) is Load implies match memory::place_of(
        t[i],
    ) {
        Place::Slot(slot) => slot < MAX_THREADS ==> t[i]->Load_value == slot_in(t.take(i), slot),
        _ => true,
    } by {
        if let Place::Slot(slot) = memory::place_of(t[i]) {
            if slot < MAX_THREADS {
                sharing_laws::lemma_fits_at(m, t, i);
                lemma_slot_value(m, t, i, slot);
            }
        }
    }
}

/// What a slot holds that only one thread writes to.
proof fn lemma_slot_value(m: Memory, t: Seq<Access>, end: int, slot: nat)
    requires
        memory::executes(m, t),
        0 <= end <= t.len(),
        m[Place::Slot(slot)] == 0,
        forall|i: int| 0 <= i < t.len() ==> sharing_laws::announces_whole(#[trigger] t[i]),
    ensures
        memory::memory_after(m, t.take(end))[Place::Slot(slot)] == slot_in(t.take(end), slot),
    decreases end,
{
    if end > 0 {
        lemma_slot_value(m, t, end - 1, slot);
        sharing_laws::lemma_fits_at(m, t, end - 1);
        assert(t.take(end).drop_last() == t.take(end - 1));
        assert(sharing_laws::announces_whole(t[end - 1]));
    } else {
        assert(t.take(0) == Seq::<Access>::empty());
    }
}

/// Whether the memory is that of a run before its first operation. Threads may
/// have registered.
pub open spec fn before_run<W>(shared: BenchShared<W>, m: Memory) -> bool {
    &&& shared.as_made()
    &&& forall|at: Place| at != Place::ActiveCount ==> #[trigger] m[at] == shared.initially(at)
}

/// The peak that a run of one worker reports is small, whatever share of its
/// operations are snapshots.
pub proof fn one_worker_keeps_the_peak_small<W>(
    shared: BenchShared<W>,
    m: Memory,
    run: WorkerRun<W>,
    strategy: Strategy,
    snap_fraction: Binary64,
)
    requires
        before_run(shared, m),
        run.valid(strategy, snap_fraction),
        memory::executes(m, run.trace()),
        epochs_left(run.trace()),
    ensures
        memory::memory_after(m, run.trace())[Place::PeakLimbo] < backlog_limit(strategy),
{
    lemma_starts_afresh(run, strategy, snap_fraction);
    let t = run.trace();
    let k = run.states.len() - 1;
    assert forall|i: int| 0 <= i < t.len() implies sharing_laws::announces_whole(
        #[trigger] t[i],
    ) by {
        lemma_accesses(run, strategy, snap_fraction, k, i);
    }
    assert forall|i: nat| i < MAX_THREADS implies #[trigger] m[Place::Slot(i)] == 0 by {
        assert(m[Place::Slot(i)] == shared.initially(Place::Slot(i)));
        assert(shared.system.announce.initially(Place::Slot(i)) == 0);
    }
    lemma_reads_own(m, t);
    assert forall|i: int| 0 <= i < t.len() implies tally_laws::raises(
        #[trigger] t[i],
        Place::PeakLimbo,
    ) by {
        lemma_noted(run, strategy, snap_fraction, i);
    }
    let end = t.len() as int;
    tally_laws::lemma_raised(m, t, Place::PeakLimbo, 0, end);
    assert(t.take(end) == t);
    assert(t.take(0) == Seq::<Access>::empty());
    assert(m[Place::PeakLimbo] == shared.initially(Place::PeakLimbo));
    let peak = memory::memory_after(m, t)[Place::PeakLimbo];
    if peak != 0 {
        let i = choose|i: int|
            0 <= i < end && tally_laws::raised_to(#[trigger] t[i], Place::PeakLimbo, peak);
        lemma_noted(run, strategy, snap_fraction, i);
    }
}

/// Whether an access is neither to an announcement, nor to the coordinator of
/// snapshots, nor to the peak: a registration, a worker that adds up its
/// operations, or a look at the clock.
pub open spec fn aside(access: Access) -> bool {
    ||| memory::place_of(access) == Place::ActiveCount
    ||| memory::place_of(access) == Place::TotalOps
    ||| memory::place_of(access) == Place::Clock
}

/// Whether the accesses of `h` are those of the workers of a run, in any order,
/// and others aside.
pub open spec fn is_run<W>(
    h: Seq<Access>,
    runs: Seq<WorkerRun<W>>,
    strategy: Strategy,
    snap_fraction: Binary64,
) -> bool {
    &&& forall|w: int| 0 <= w < runs.len() ==> (#[trigger] runs[w]).valid(strategy, snap_fraction)
    &&& forall|w: int, i: int|
        0 <= w < runs.len() && 0 <= i < runs[w].trace().len() ==> h.contains(
            #[trigger] runs[w].trace()[i],
        )
    &&& forall|j: int|
        0 <= j < h.len() ==> aside(#[trigger] h[j]) || exists|w: int|
            0 <= w < runs.len() && (#[trigger] runs[w]).trace().contains(h[j])
}

/// A share of zero draws no snapshot.
proof fn lemma_draws_none(draw: u64, fraction: Binary64)
    requires
        !fraction.is_nan(),
        fraction.value() == 0,
    ensures
        !workload::draws_snapshot(draw, fraction),
{
    crate::pressure_laws::lemma_one();
    if fraction.magnitude() > 0 {
        binary64::lemma_units_increase(0, fraction.magnitude());
    }
    let range = binary64::word(workload::SHORT_RANGE_BITS);
    let one = binary64::one_in_units();
    vstd::arithmetic::mul::lemma_mul_basics(rounding::units(range.magnitude()) as int);
    binary64::lemma_rounded_zero(one);
    vstd::arithmetic::div_mod::lemma_div_of0(one as int);
    assert(binary64::product(fraction, range).magnitude() == 0);
}

/// Every access of a run without snapshots is one of a write, or to the peak, or
/// aside.
proof fn lemma_run_accesses<W>(
    h: Seq<Access>,
    runs: Seq<WorkerRun<W>>,
    strategy: Strategy,
    snap_fraction: Binary64,
    j: int,
)
    requires
        is_run(h, runs, strategy, snap_fraction),
        !snap_fraction.is_nan(),
        snap_fraction.value() == 0,
        0 <= j < h.len(),
    ensures
        aside(h[j]) || of_write(h[j]) || memory::place_of(h[j]) == Place::PeakLimbo,
{
    if !aside(h[j]) {
        let w = choose|w: int|
            0 <= w < runs.len() && (#[trigger] runs[w]).trace().contains(h[j]);
        let run = runs[w];
        let i = choose|i: int| 0 <= i < run.trace().len() && run.trace()[i] == h[j];
        lemma_starts_afresh(run, strategy, snap_fraction);
        let k = run.states.len() - 1;
        lemma_accesses(run, strategy, snap_fraction, k, i);
        let o = choose|o: int|
            0 < o <= k && #[trigger] is_from(run, snap_fraction, run.at(k).trace[i], o) && extends(run.at(o).trace, run.at(k).trace);
        lemma_draws_none(run.states[o].rng, snap_fraction);
    }
}

/// A run without snapshots reports no latency of any, however many workers it
/// has and in whichever order their accesses come.
pub proof fn no_snapshots_no_latency<W>(
    shared: BenchShared<W>,
    m: Memory,
    h: Seq<Access>,
    runs: Seq<WorkerRun<W>>,
    strategy: Strategy,
    snap_fraction: Binary64,
)
    requires
        before_run(shared, m),
        memory::executes(m, h),
        is_run(h, runs, strategy, snap_fraction),
        !snap_fraction.is_nan(),
        snap_fraction.value() == 0,
    ensures
        memory::memory_after(m, h)[Place::Latency] == 0,
{
    let end = h.len() as int;
    assert forall|j: int|
        0 <= j < end && memory::place_of(#[trigger] h[j]) == Place::Latency implies h[j] is Load by {
        lemma_run_accesses(h, runs, strategy, snap_fraction, j);
    }
    sharing_laws::lemma_stays(m, h, 0, end, Place::Latency);
    assert(h.take(end) == h);
    assert(h.take(0) == Seq::<Access>::empty());
    assert(m[Place::Latency] == shared.initially(Place::Latency));
}

/// The announcements that a worker reads in a run without snapshots are none.
proof fn lemma_run_reads_none<W>(
    shared: BenchShared<W>,
    m: Memory,
    h: Seq<Access>,
    runs: Seq<WorkerRun<W>>,
    strategy: Strategy,
    snap_fraction: Binary64,
    w: int,
)
    requires
        before_run(shared, m),
        memory::executes(m, h),
        is_run(h, runs, strategy, snap_fraction),
        !snap_fraction.is_nan(),
        snap_fraction.value() == 0,
        0 <= w < runs.len(),
    ensures
        reads_own_announcements(runs[w].trace()),
{
    let t = runs[w].trace();
    assert(forall|i: int| 0 <= i < t.len() ==> h.contains(#[trigger] runs[w].trace()[i]));
    assert forall|i: int| 0 <= i < t.len() implies !((#[trigger] t[i]) is Store
        && memory::place_of(t[i]) is Slot) by {
        let j = choose|j: int| 0 <= j < h.len() && h[j] == runs[w].trace()[i];
        lemma_run_accesses(h, runs, strategy, snap_fraction, j);
    }
    assert forall|i: int| 0 <= i < t.len() && (#[trigger] t[i]) is Load implies match memory::place_of(
        t[i],
    ) {
        Place::Slot(slot) => slot < MAX_THREADS ==> t[i]->Load_value == slot_in(t.take(i), slot),
        _ => true,
    } by {
        if let Place::Slot(slot) = memory::place_of(t[i]) {
            if slot < MAX_THREADS {
                let at = Place::Slot(slot);
                let none = Seq::<Access>::empty();
                assert(t.take(i).take(0) == none);
                lemma_slot_in(none, t.take(i), slot);
                let j = choose|j: int| 0 <= j < h.len() && h[j] == runs[w].trace()[i];
                assert forall|o: int|
                    0 <= o < j && memory::place_of(#[trigger] h[o]) == at implies h[o] is Load by {
                    lemma_run_accesses(h, runs, strategy, snap_fraction, o);
                }
                sharing_laws::lemma_stays(m, h, 0, j, at);
                sharing_laws::lemma_fits_at(m, h, j);
                assert(h.take(0) == none);
                assert(m[at] == shared.initially(at));
                assert(shared.system.announce.initially(Place::Slot(slot)) == 0);
            }
        }
    }
}

/// The peak that a run without snapshots reports is small, however many workers
/// it has and in whichever order their accesses come.
pub proof fn no_snapshots_keep_the_peak_small<W>(
    shared: BenchShared<W>,
    m: Memory,
    h: Seq<Access>,
    runs: Seq<WorkerRun<W>>,
    strategy: Strategy,
    snap_fraction: Binary64,
)
    requires
        before_run(shared, m),
        memory::executes(m, h),
        epochs_left(h),
        is_run(h, runs, strategy, snap_fraction),
        !snap_fraction.is_nan(),
        snap_fraction.value() == 0,
    ensures
        memory::memory_after(m, h)[Place::PeakLimbo] < backlog_limit(strategy),
{
    let end = h.len() as int;
    assert forall|j: int| 0 <= j < end implies tally_laws::raises(
        #[trigger] h[j],
        Place::PeakLimbo,
    ) && (h[j] is FetchMax && memory::place_of(h[j]) == Place::PeakLimbo ==> h[j]->FetchMax_value
        < backlog_limit(strategy)) by {
        if memory::place_of(h[j]) == Place::PeakLimbo {
            let w = choose|w: int|
                0 <= w < runs.len() && (#[trigger] runs[w]).trace().contains(h[j]);
            let t = runs[w].trace();
            let i = choose|i: int| 0 <= i < t.len() && t[i] == h[j];
            lemma_run_reads_none(shared, m, h, runs, strategy, snap_fraction, w);
            assert forall|o: int|
                0 <= o < t.len() && (#[trigger] t[o]) is FetchAdd && memory::place_of(t[o])
                    == Place::GlobalEpoch implies t[o]->FetchAdd_previous < u64::MAX by {
                assert(h.contains(runs[w].trace()[o]));
            }
            lemma_noted(runs[w], strategy, snap_fraction, i);
        }
    }
    tally_laws::lemma_raised(m, h, Place::PeakLimbo, 0, end);
    assert(h.take(end) == h);
    assert(h.take(0) == Seq::<Access>::empty());
    assert(m[Place::PeakLimbo] == shared.initially(Place::PeakLimbo));
    let peak = memory::memory_after(m, h)[Place::PeakLimbo];
    if peak != 0 {
        let i = choose|i: int|
            0 <= i < end && tally_laws::raised_to(#[trigger] h[i], Place::PeakLimbo, peak);
        assert(h[i]->FetchMax_value < backlog_limit(strategy));
    }
}

/// What the workers of a run have each performed.
pub open spec fn operations_of<W>(runs: Seq<WorkerRun<W>>) -> Seq<nat> {
    Seq::new(runs.len(), |w: int| runs[w].nows.len())
}

/// The total that a run reports is the sum of the operations that its workers
/// performed, where each of them has finished, adding what it had counted by
/// access number `places[w]`.
pub proof fn the_total_is_that_of_the_workers<W>(
    shared: BenchShared<W>,
    m: Memory,
    h: Seq<Access>,
    runs: Seq<WorkerRun<W>>,
    strategy: Strategy,
    snap_fraction: Binary64,
    places: Seq<int>,
)
    requires
        before_run(shared, m),
        memory::executes(m, h),
        forall|w: int|
            0 <= w < runs.len() ==> (#[trigger] runs[w]).valid(strategy, snap_fraction),
        tally_laws::tallies_once(
            h,
            Seq::new(runs.len(), |w: int| runs[w].states.last().local as nat),
            places,
        ),
    ensures
        memory::memory_after(m, h)[Place::TotalOps] == memory::wrapped(
            Place::TotalOps,
            tally_laws::sum_of_counts(operations_of(runs)) as int,
        ),
{
    let counted = Seq::new(runs.len(), |w: int| runs[w].states.last().local as nat);
    assert forall|w: int| 0 <= w < runs.len() implies counted[w] == operations_of(runs)[w] by {
        let run = runs[w];
        assert(run.valid(strategy, snap_fraction));
        reveal(WorkerRun::valid);
        lemma_same_worker(run, strategy, snap_fraction, run.states.len() - 1);
    }
    assert(counted == operations_of(runs));
    assert(m[Place::TotalOps] == shared.initially(Place::TotalOps));
    tally_laws::a_run_is_the_sum_of_its_workers(m, h, counted, places);
}

/// One worker of a run on the tree: what it was after each of its updates, and
/// which of them count for the result.
pub struct TreeRun<F, W> {
    pub states: Seq<TreeWorker<F, W>>,
    pub counting: Seq<bool>,
}

impl<F, W> TreeRun<F, W> {
    /// Whether the worker had counted nothing at first and went on by whole
    /// updates.
    pub open spec fn valid(self) -> bool {
        &&& self.states.len() == self.counting.len() + 1
        &&& self.states[0].local == 0
        &&& forall|k: int|
            0 <= k < self.counting.len() ==> self.states[k + 1].follows(
                #[trigger] self.states[k],
                self.counting[k],
            )
    }

    /// How many of the first `k` updates count.
    pub open spec fn counted(self, k: int) -> nat
        decreases k,
    {
        if k <= 0 {
            0
        } else {
            self.counted(k - 1) + (if self.counting[k - 1] {
                1nat
            } else {
                0nat
            })
        }
    }
}

/// A worker on the tree counts the updates that count, and no others.
pub proof fn tree_updates_are_counted<F, W>(run: TreeRun<F, W>, k: int)
    requires
        run.valid(),
        0 <= k < run.states.len(),
    ensures
        run.states[k].local == run.counted(k),
    decreases k,
{
    if k > 0 {
        tree_updates_are_counted(run, k - 1);
        assert(run.states[k - 1 + 1].follows(run.states[k - 1], run.counting[k - 1]));
    }
}

/// The total that a run on the tree reports is the sum of the updates of its
/// workers that count, where each of them has finished, adding what it had
/// counted by access number `places[w]`.
pub proof fn the_tree_total_is_that_of_the_workers<F, W>(
    m: Memory,
    h: Seq<Access>,
    runs: Seq<TreeRun<F, W>>,
    places: Seq<int>,
)
    requires
        memory::executes(m, h),
        m[Place::TotalOps] == 0,
        forall|w: int| 0 <= w < runs.len() ==> (#[trigger] runs[w]).valid(),
        tally_laws::tallies_once(
            h,
            Seq::new(runs.len(), |w: int| runs[w].states.last().local as nat),
            places,
        ),
    ensures
        memory::memory_after(m, h)[Place::TotalOps] == memory::wrapped(
            Place::TotalOps,
            tally_laws::sum_of_counts(
                Seq::new(runs.len(), |w: int| runs[w].counted(runs[w].counting.len() as int)),
            ) as int,
        ),
{
    let counted = Seq::new(runs.len(), |w: int| runs[w].states.last().local as nat);
    let expected = Seq::new(
        runs.len(),
        |w: int| runs[w].counted(runs[w].counting.len() as int),
    );
    assert forall|w: int| 0 <= w < runs.len() implies counted[w] == expected[w] by {
        tree_updates_are_counted(runs[w], runs[w].counting.len() as int);
    }
    assert(counted == expected);
    tally_laws::a_run_is_the_sum_of_its_workers(m, h, counted, places);
}

} // verus!
