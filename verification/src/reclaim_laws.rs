//! What holds of freeing: that it is safe, and that it keeps up.

use crate::access;
use crate::announce;
use crate::limbo;
use crate::limbo::VersionNode;
use crate::local::Local;
use crate::mode::GcMode;
use crate::params::{AGGRESSIVE_DRAIN_PER_OP, HOLD_LIMIT};
use crate::system;
use vstd::prelude::*;

verus! {

/// A node that is freed is older than every snapshot that the scan before it
/// found announced, and the nodes that stay keep their order.
pub proof fn freed_nodes_are_out_of_reach<V, F, W>(
    before: Local<V, F, W>,
    after: Local<V, F, W>,
    k: nat,
    freed: nat,
    node: int,
    thread: int,
)
    requires
        system::drains(before, after, k, freed),
        0 <= node < freed,
        0 <= thread < announce::scanned(access::since(before.trace, after.trace)).len(),
    ensures
        ({
            let announced = announce::scanned(access::since(before.trace, after.trace))[thread];
            &&& announced != 0 ==> before.bag[node].0 < announced
            &&& freed <= k
            &&& before.bag == before.bag.take(freed as int) + after.bag
        }),
{
    let scan = access::since(before.trace, after.trace);
    let announced = announce::scanned(scan);
    limbo::lemma_drained(before.bag, system::safe_after(scan), k);
    announce::lemma_oldest(announced);
    assert(before.bag[node].0 < system::safe_after(scan));
    assert(announced[thread] != 0 ==> system::safe_after(scan) <= announced[thread]);
    assert(before.bag == before.bag.take(freed as int) + after.bag);
}

/// Whether a thread went from `before` to `after` by a whole write in the
/// discrete policy that retired `node`, while no snapshot was announced.
pub open spec fn unpinned_write<V, F, W>(
    before: Local<V, F, W>,
    after: Local<V, F, W>,
    prepared: Local<V, F, W>,
    ticked: Local<V, F, W>,
    node: Box<VersionNode<V, W>>,
    ts: u64,
    freed: nat,
) -> bool {
    &&& before.op_counter < u64::MAX
    &&& system::prepares_write(before, prepared, ts)
    &&& ts < u64::MAX
    &&& system::ticks(system::retired(prepared, node, ts), ticked, freed)
    &&& system::safe_after(access::since(prepared.trace, ticked.trace)) == u64::MAX
    &&& if system::window_due(prepared.op_counter) {
        system::reclaims(system::resampled(ticked), after)
    } else {
        after == ticked
    }
}

/// Whether all nodes of a bag are older than the largest timestamp.
pub open spec fn all_stamped<N>(bag: Seq<(u64, N)>) -> bool {
    forall|i: int| 0 <= i < bag.len() ==> (#[trigger] bag[i]).0 < u64::MAX
}

/// Without announced snapshots a drain frees as many nodes as its limit and the
/// bag allow. So one node per write, as the continuous policy and the amortised
/// strategy have it, keeps a backlog from growing, and a drain without a limit,
/// as the batch strategy has it, leaves none.
pub proof fn unpinned_drains_are_full<V, F, W>(
    before: Local<V, F, W>,
    after: Local<V, F, W>,
    k: nat,
    freed: nat,
)
    requires
        system::drains(before, after, k, freed),
        system::safe_after(access::since(before.trace, after.trace)) == u64::MAX,
        all_stamped(before.bag),
    ensures
        freed == (if before.bag.len() <= k {
            before.bag.len()
        } else {
            k
        }),
        after.bag.len() == before.bag.len() - freed,
        all_stamped(after.bag),
{
    limbo::lemma_drained_unpinned(before.bag, k);
}

/// A backlog after one write without announced snapshots: one node more, less
/// what the mode lets a write free.
pub proof fn backlog_after_a_write<V, F, W>(
    before: Local<V, F, W>,
    after: Local<V, F, W>,
    prepared: Local<V, F, W>,
    ticked: Local<V, F, W>,
    node: Box<VersionNode<V, W>>,
    ts: u64,
    freed: nat,
)
    requires
        unpinned_write(before, after, prepared, ticked, node, ts, freed),
        all_stamped(before.bag),
    ensures
        all_stamped(after.bag),
        ({
            let (k, hold_ticks) = system::tick_limit(before.gc_mode, before.hold_ticks);
            &&& freed == (if before.bag.len() + 1 <= k {
                before.bag.len() + 1
            } else {
                k
            })
            &&& after.bag.len() == before.bag.len() + 1 - freed
            &&& after.hold_ticks == hold_ticks
            &&& after.op_counter == before.op_counter + 1
        }),
        !system::window_due(after.op_counter) ==> after.gc_mode == before.gc_mode,
{
    let start = system::retired(prepared, node, ts);
    let (k, hold_ticks) = system::tick_limit(before.gc_mode, before.hold_ticks);
    assert(all_stamped(start.bag));
    limbo::lemma_drained_unpinned(start.bag, k);
    assert(ticked.bag == start.bag.skip(freed as int));
    assert(all_stamped(ticked.bag));
}

/// While freeing is aggressive, a backlog shrinks with every write until none
/// is left; while it is amortised, it does not grow. Both without announced
/// snapshots.
pub proof fn freeing_keeps_up<V, F, W>(
    before: Local<V, F, W>,
    after: Local<V, F, W>,
    prepared: Local<V, F, W>,
    ticked: Local<V, F, W>,
    node: Box<VersionNode<V, W>>,
    ts: u64,
    freed: nat,
)
    requires
        unpinned_write(before, after, prepared, ticked, node, ts, freed),
        all_stamped(before.bag),
    ensures
        before.gc_mode == GcMode::AggressiveEbr ==> after.bag.len() == (if before.bag.len() + 1
            <= AGGRESSIVE_DRAIN_PER_OP {
            0
        } else {
            before.bag.len() + 1 - AGGRESSIVE_DRAIN_PER_OP
        }),
        before.gc_mode == GcMode::AmortisedFree ==> after.bag.len() == before.bag.len(),
{
    backlog_after_a_write(before, after, prepared, ticked, node, ts, freed);
}

/// Whether a thread went from `before` to `after` by a whole write without
/// announced snapshots, or by something that touches neither its bag nor what
/// paces its freeing, such as taking or releasing a snapshot.
pub open spec fn paced_step<V, F, W>(before: Local<V, F, W>, after: Local<V, F, W>) -> bool {
    ||| exists|
        prepared: Local<V, F, W>,
        ticked: Local<V, F, W>,
        node: Box<VersionNode<V, W>>,
        ts: u64,
        freed: nat,
    |
        #[trigger] unpinned_write(before, after, prepared, ticked, node, ts, freed)
    ||| {
        &&& after.bag == before.bag
        &&& after.gc_mode == before.gc_mode
        &&& after.hold_ticks == before.hold_ticks
        &&& after.op_counter == before.op_counter
    }
}

/// Whether the held-back writes of a thread are in step with its windows, which
/// a whole number of forced drains fills.
pub open spec fn in_step<V, F, W>(t: Local<V, F, W>) -> bool {
    t.hold_ticks == (if t.gc_mode == GcMode::ConservativeHold {
        t.op_counter % HOLD_LIMIT
    } else {
        0
    })
}

/// Counting on, modulo the limit of held-back writes.
proof fn lemma_count_on(n: int)
    requires
        0 <= n,
    ensures
        (n + 1) % 8 == (if n % 8 == 7 {
            0
        } else {
            n % 8 + 1
        }),
        (n + 1) % 256 == 0 ==> (n + 1) % 8 == 0,
{
}

/// The held-back writes stay in step from one write to the next, and so bound
/// the backlog.
proof fn lemma_pace(was: GcMode, is: GcMode, hold_ticks: u64, op_counter: u64, kept: nat, held: nat)
    requires
        op_counter < u64::MAX,
        hold_ticks == (if was == GcMode::ConservativeHold {
            op_counter % HOLD_LIMIT
        } else {
            0
        }),
        !system::window_due((op_counter + 1) as u64) ==> is == was,
        held <= kept + hold_ticks,
    ensures
        ({
            let (k, ticks) = system::tick_limit(was, hold_ticks);
            &&& ticks == (if is == GcMode::ConservativeHold {
                (op_counter + 1) as u64 % HOLD_LIMIT
            } else {
                0
            })
            &&& held + 1 - k <= kept + ticks
        }),
{
    lemma_count_on(op_counter as int);
    let next = (op_counter + 1) as u64;
    assert(next % HOLD_LIMIT == (op_counter + 1) % 8);
    assert(op_counter % HOLD_LIMIT == (op_counter as int) % 8);
    assert(system::window_due(next) <==> (op_counter + 1) % 256 == 0);
}

/// What bounds a backlog, kept by one write.
proof fn lemma_backlog_write<V, F, W>(
    before: Local<V, F, W>,
    after: Local<V, F, W>,
    prepared: Local<V, F, W>,
    ticked: Local<V, F, W>,
    node: Box<VersionNode<V, W>>,
    ts: u64,
    freed: nat,
    kept: nat,
)
    requires
        unpinned_write(before, after, prepared, ticked, node, ts, freed),
        in_step(before),
        all_stamped(before.bag),
        before.bag.len() <= kept + before.hold_ticks,
    ensures
        in_step(after),
        all_stamped(after.bag),
        after.bag.len() <= kept + after.hold_ticks,
{
    backlog_after_a_write(before, after, prepared, ticked, node, ts, freed);
    lemma_pace(
        before.gc_mode,
        after.gc_mode,
        before.hold_ticks,
        before.op_counter,
        kept,
        before.bag.len(),
    );
}

/// What bounds a backlog, kept by one step.
pub proof fn lemma_backlog_step<V, F, W>(before: Local<V, F, W>, after: Local<V, F, W>, kept: nat)
    requires
        paced_step(before, after),
        in_step(before),
        all_stamped(before.bag),
        before.bag.len() <= kept + before.hold_ticks,
    ensures
        in_step(after),
        all_stamped(after.bag),
        after.bag.len() <= kept + after.hold_ticks,
{
    if exists|
        prepared: Local<V, F, W>,
        ticked: Local<V, F, W>,
        node: Box<VersionNode<V, W>>,
        ts: u64,
        freed: nat,
    |
        #[trigger] unpinned_write(before, after, prepared, ticked, node, ts, freed) {
        let (prepared, ticked, node, ts, freed) = choose|
            prepared: Local<V, F, W>,
            ticked: Local<V, F, W>,
            node: Box<VersionNode<V, W>>,
            ts: u64,
            freed: nat,
        |
            #[trigger] unpinned_write(before, after, prepared, ticked, node, ts, freed);
        lemma_backlog_write(before, after, prepared, ticked, node, ts, freed, kept);
    }
}

/// The backlog of the discrete policy is bounded, however many writes there are
/// and whichever modes they pass through: without announced snapshots it never
/// exceeds what it was at the start by as much as the writes that may be held
/// back.
pub proof fn backlog_is_bounded<V, F, W>(states: Seq<Local<V, F, W>>, k: int)
    requires
        0 <= k < states.len(),
        in_step(states[0]),
        all_stamped(states[0].bag),
        forall|i: int|
            0 <= i < states.len() - 1 ==> paced_step(#[trigger] states[i], states[i + 1]),
    ensures
        states[k].bag.len() <= states[0].bag.len() + states[k].hold_ticks,
        states[k].hold_ticks < HOLD_LIMIT,
        in_step(states[k]),
        all_stamped(states[k].bag),
    decreases k,
{
    if k > 0 {
        backlog_is_bounded(states, k - 1);
        assert(paced_step(states[k - 1], states[k - 1 + 1]));
        lemma_backlog_step(states[k - 1], states[k], states[0].bag.len());
    }
}

/// How many nodes a write may free: four where freeing is aggressive, one where it
/// is amortised, and while it is held back eight at every eighth write and none at
/// the others. It frees the first ones of the bag, up to that limit, up to the end
/// of the bag, or up to the first node that an announced snapshot may reach,
/// whichever comes first.
pub proof fn writes_free_by_their_mode<V, F, W>(
    before: Local<V, F, W>,
    after: Local<V, F, W>,
    freed: nat,
)
    requires
        system::ticks(before, after, freed),
    ensures
        ({
            let safe_ts = system::safe_after(access::since(before.trace, after.trace));
            let held = before.gc_mode == GcMode::ConservativeHold;
            let limit: nat = if before.gc_mode == GcMode::AggressiveEbr {
                4
            } else if before.gc_mode == GcMode::AmortisedFree {
                1
            } else if before.hold_ticks >= 7 {
                8
            } else {
                0
            };
            &&& freed <= limit
            &&& freed <= before.bag.len()
            &&& forall|i: int| 0 <= i < freed ==> (#[trigger] before.bag[i]).0 < safe_ts
            &&& freed < limit && freed < before.bag.len() ==> before.bag[freed as int].0 >= safe_ts
            &&& after.freed == before.freed + before.bag.take(freed as int)
            &&& after.bag == before.bag.skip(freed as int)
            &&& after.hold_ticks == (if held && before.hold_ticks < 7 {
                before.hold_ticks + 1
            } else {
                0
            })
            &&& after.gc_mode == before.gc_mode
            &&& after.spi_ema == before.spi_ema
        }),
{
    let scan = access::since(before.trace, after.trace);
    let (k, hold_ticks) = system::tick_limit(before.gc_mode, before.hold_ticks);
    limbo::lemma_drained(before.bag, system::safe_after(scan), k);
}

/// Of any 256 writes in a row, one closes a window, and only one.
pub proof fn windows_have_256_writes(op_counter: u64)
    requires
        op_counter <= u64::MAX - 256,
    ensures
        exists|i: int| 0 <= i < 256 && #[trigger] system::window_due((op_counter + i) as u64),
        forall|i: int, j: int|
            0 <= i < 256 && 0 <= j < 256 && #[trigger] system::window_due((op_counter + i) as u64)
                && #[trigger] system::window_due((op_counter + j) as u64) ==> i == j,
{
    let past = (op_counter % 256) as int;
    let i = if past == 0 {
        0
    } else {
        256 - past
    };
    assert(system::window_due((op_counter + i) as u64));
}

/// Selecting a mode frees nothing. While freeing is held back the epoch is left
/// alone; otherwise a thread attempts to advance it where its writes are a
/// multiple of the stride.
pub proof fn the_epoch_advances_by_strides<V, F, W>(before: Local<V, F, W>, after: Local<V, F, W>)
    requires
        system::reclaims(before, after),
        system::epoch_stride(before.spi_ema) != 0,
    ensures
        after.bag == before.bag,
        after.freed == before.freed,
        after.gc_mode == GcMode::ConservativeHold || before.op_counter % system::epoch_stride(
            before.spi_ema,
        ) != 0 ==> after.trace == before.trace && after.fail_streak == before.fail_streak,
        after.gc_mode != GcMode::ConservativeHold && before.op_counter % system::epoch_stride(
            before.spi_ema,
        ) == 0 ==> {
            let t = access::since(before.trace, after.trace);
            &&& system::is_advance(t)
            &&& after.trace == before.trace + t
            &&& system::advanced(t) <==> t.last()->outcome is Ok
            &&& system::advanced(t) ==> after.fail_streak == 0
            &&& !system::advanced(t) && before.fail_streak < u32::MAX ==> after.fail_streak
                == before.fail_streak + 1
        },
{
}

} // verus!
