//! What taking a snapshot does to memory and to its thread.

use crate::access;
use crate::access::{Access, MemOrder, Place};
use crate::accuracy::half_step;
use crate::bench;
use crate::formula_laws;
use crate::local::Local;
use crate::memory;
use crate::memory::Memory;
use crate::run_laws;
use crate::scc::Point;
use crate::sharing_laws;
use crate::system;
use crate::write_laws::memory_between;
use std::time::Instant;
use vstd::prelude::*;

verus! {

/// The two parts of taking a snapshot: what the thread had become when it had its
/// timestamp, and what the clock read then.
proof fn lemma_parts<V, F, W>(
    before: Local<V, F, W>,
    after: Local<V, F, W>,
    now_ns: u64,
    ts: u64,
) -> (r: (Instant, Local<V, F, W>, u128))
    requires
        system::takes_snapshot(before, after, now_ns, Some(ts)),
    ensures
        ({
            let (start, asked, elapsed_ns) = r;
            let began = system::clocked(before, start);
            &&& system::asks_for_snapshot(began, asked, now_ns, Some(ts))
            &&& system::announces_snapshot(
                system::timed(asked, start, elapsed_ns),
                after,
                ts,
                elapsed_ns as u64,
            )
        }),
{
    let start = after.trace[before.trace.len() as int]->instant;
    let (asked, elapsed_ns) = choose|asked: Local<V, F, W>, elapsed_ns: u128|
        {
            &&& #[trigger] system::asks_for_snapshot(
                system::clocked(before, start),
                asked,
                now_ns,
                Some(ts),
            )
            &&& system::announces_snapshot(
                #[trigger] system::timed(asked, start, elapsed_ns),
                after,
                ts,
                elapsed_ns as u64,
            )
        };
    (start, asked, elapsed_ns)
}

/// A snapshot is counted once and announced last of all, in the slot of its
/// thread; until then it makes no access to any announcement. It leaves the bag,
/// the writes and the mode of its thread alone.
pub proof fn a_snapshot_is_announced_last<V, F, W>(
    before: Local<V, F, W>,
    after: Local<V, F, W>,
    now_ns: u64,
    ts: u64,
    i: int,
)
    requires
        system::takes_snapshot(before, after, now_ns, Some(ts)),
        before.trace.len() <= i < after.trace.len() - 1,
    ensures
        after.trace.take(before.trace.len() as int) == before.trace,
        after.trace.last() == (Access::Store {
            at: Place::Slot(before.tid as nat),
            order: MemOrder::SeqCst,
            value: ts,
        }),
        run_laws::of_coordinator(after.trace[i]),
        after == (Local {
            win_snaps: (before.win_snaps + 1) as u64,
            trace: after.trace,
            ..before
        }),
{
    let (start, asked, elapsed_ns) = lemma_parts(before, after, now_ns, ts);
    let began = system::clocked(before, start);
    let t = access::since(began.trace, asked.trace);
    run_laws::lemma_path_accesses(now_ns, Point::Start, t);
    assert(after.trace.take(before.trace.len() as int) == before.trace);
    let n = asked.trace.len() as int;
    if i < n {
        assert(after.trace[i] == asked.trace[i]);
        if i > before.trace.len() {
            assert(asked.trace[i] == t[i - began.trace.len()]);
        } else {
            assert(asked.trace[i] == began.trace[i]);
        }
    }
}

/// The latency that a snapshot records is the time from right before it to right
/// after it: one tenth of that, and nine tenths of what the latency was, but for
/// rounding.
pub proof fn a_snapshot_records_its_latency<V, F, W>(
    before: Local<V, F, W>,
    after: Local<V, F, W>,
    now_ns: u64,
    ts: u64,
)
    requires
        system::takes_snapshot(before, after, now_ns, Some(ts)),
    ensures
        ({
            let end = after.trace.len() as int;
            let first = after.trace[before.trace.len() as int];
            let reading = after.trace[end - 4];
            let previous = after.trace[end - 3]->Load_value;
            let recorded = after.trace[end - 2]->Store_value as real;
            let ns = reading->elapsed_ns as u64;
            let exact = previous as real * (9real / 10real) + ns as real * (1real / 10real);
            let off = half_step(10real * (previous as real + ns as real) + 1real);
            &&& before.trace.len() < end - 4
            &&& first is Started
            &&& reading is Reading
            &&& reading->since == first->instant
            &&& after.trace[end - 3] == (Access::Load {
                at: Place::Latency,
                order: MemOrder::Relaxed,
                value: previous,
            })
            &&& after.trace[end - 2] is Store
            &&& memory::place_of(after.trace[end - 2]) == Place::Latency
            &&& recorded <= exact + off
            &&& exact < recorded + 1real + off
        }),
{
    let (start, asked, elapsed_ns) = lemma_parts(before, after, now_ns, ts);
    let began = system::clocked(before, start);
    let timed = system::timed(asked, start, elapsed_ns);
    let end = after.trace.len() as int;
    assert(after.trace[before.trace.len() as int] == asked.trace[before.trace.len() as int]);
    assert(asked.trace[before.trace.len() as int] == began.trace[before.trace.len() as int]);
    assert(after.trace[end - 4] == timed.trace.last());
    let previous = after.trace[end - 3]->Load_value;
    formula_laws::latency_is_smoothed_by_a_tenth(previous, elapsed_ns as u64);
}

/// Where a thread gives up on a snapshot, it announces nothing.
pub proof fn no_snapshot_is_not_announced<V, F, W>(
    before: Local<V, F, W>,
    after: Local<V, F, W>,
    now_ns: u64,
    i: int,
)
    requires
        system::takes_snapshot(before, after, now_ns, None),
        before.trace.len() <= i < after.trace.len(),
    ensures
        after.trace.take(before.trace.len() as int) == before.trace,
        run_laws::of_coordinator(after.trace[i]),
        after == (Local {
            win_snaps: (before.win_snaps + 1) as u64,
            trace: after.trace,
            ..before
        }),
{
    let start = after.trace[before.trace.len() as int]->instant;
    let began = system::clocked(before, start);
    let t = access::since(began.trace, after.trace);
    run_laws::lemma_path_accesses(now_ns, Point::Start, t);
    assert(after.trace.take(before.trace.len() as int) == before.trace);
    if i > before.trace.len() {
        assert(after.trace[i] == t[i - began.trace.len()]);
    } else {
        assert(after.trace[i] == began.trace[i]);
    }
}

/// In memory, a snapshot that nothing interferes with leaves its timestamp in the
/// slot of its thread and changes no other announcement; releasing it empties
/// that slot, and changes nothing else.
pub proof fn announcements_last_until_released<V, F, W>(
    m: Memory,
    before: Local<V, F, W>,
    after: Local<V, F, W>,
    now_ns: u64,
    ts: u64,
    other: nat,
)
    requires
        system::takes_snapshot(before, after, now_ns, Some(ts)),
        memory::executes(m, access::since(before.trace, after.trace)),
        other != before.tid,
    ensures
        ({
            let own = Place::Slot(before.tid as nat);
            let taken = memory_between(m, before, after);
            let released = memory_between(m, before, bench::released(after));
            &&& taken[own] == ts
            &&& taken[Place::Slot(other)] == m[Place::Slot(other)]
            &&& taken[Place::ActiveCount] == m[Place::ActiveCount]
            &&& taken[Place::GlobalEpoch] == m[Place::GlobalEpoch]
            &&& released == taken.insert(own, 0)
        }),
{
    a_snapshot_records_its_latency(before, after, now_ns, ts);
    let h = access::since(before.trace, after.trace);
    let end = h.len() as int;
    let at = Place::Slot(other);
    a_snapshot_is_announced_last(before, after, now_ns, ts, before.trace.len() as int);
    assert forall|i: int| 0 <= i < end implies {
        &&& memory::place_of(#[trigger] h[i]) != at
        &&& memory::place_of(h[i]) != Place::ActiveCount
        &&& memory::place_of(h[i]) == Place::GlobalEpoch ==> h[i] is Load
    } by {
        assert(h[i] == after.trace[i + before.trace.len()]);
        if i < end - 1 {
            a_snapshot_is_announced_last(before, after, now_ns, ts, i + before.trace.len());
        }
    }
    sharing_laws::lemma_stays(m, h, 0, end, at);
    sharing_laws::lemma_stays(m, h, 0, end, Place::ActiveCount);
    sharing_laws::lemma_stays(m, h, 0, end, Place::GlobalEpoch);
    assert(h.take(end) == h);
    assert(h.take(0) == Seq::<Access>::empty());
    sharing_laws::lemma_memory_push(m, h);
    assert(h.last() == after.trace.last());
    let released = bench::released(after);
    let g = access::since(before.trace, released.trace);
    assert(g.drop_last() == h);
    memory::lemma_execution_split(m, g, end);
    assert(g.take(end) == h);
    let rest = g.skip(end);
    assert(rest[0] == released.trace.last());
    assert(rest.skip(1) == Seq::<Access>::empty());
    reveal_with_fuel(memory::memory_after, 2);
}

} // verus!
