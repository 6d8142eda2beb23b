//! What a write does to memory and to the nodes of its thread.

use crate::access;
use crate::access::{Access, Place};
use crate::accuracy::{apart, half_step, number};
use crate::announce;
use crate::bench;
use crate::bench::Strategy;
use crate::binary64::Binary64;
use crate::formula_laws;
use crate::limbo;
use crate::limbo::{Retired, VersionNode};
use crate::local::Local;
use crate::memory;
use crate::memory::Memory;
use crate::mode;
use crate::params::{AF_BATCH_K, CONTINUOUS_DRAIN_PER_OP};
use crate::pressure_laws;
use crate::sharing_laws;
use crate::system;
use vstd::prelude::*;

verus! {

/// Whether an access reads, or writes to the epoch or to the published pressure.
pub open spec fn spares_others(access: Access) -> bool {
    ||| access is Load
    ||| memory::place_of(access) == Place::GlobalEpoch
    ||| memory::place_of(access) == Place::ApproxSpi
    ||| memory::place_of(access) == Place::DeltaSpi
}

/// Whether a thread went from `before` to `after` by accesses that only read, or
/// write to the epoch or to the published pressure.
pub open spec fn spares<V, F, W>(before: Local<V, F, W>, after: Local<V, F, W>) -> bool {
    &&& before.trace.len() <= after.trace.len()
    &&& after.trace.take(before.trace.len() as int) == before.trace
    &&& forall|i: int|
        before.trace.len() <= i < after.trace.len() ==> spares_others(#[trigger] after.trace[i])
}

/// Whether a thread that went from `before` to `after` freed `freed` nodes: the
/// first ones of its bag, in their order, and no others. What was in the bag and
/// was not freed is still there.
pub open spec fn frees<V, F, W>(before: Local<V, F, W>, after: Local<V, F, W>, freed: nat) -> bool {
    &&& after.freed + after.bag == before.freed + before.bag
    &&& after.freed.len() == before.freed.len() + freed
}

proof fn lemma_scan_spares(scan: Seq<Access>, i: int)
    requires
        announce::is_scan(scan),
        0 <= i < scan.len(),
    ensures
        scan[i] is Load,
{
    let expected = announce::scan_accesses(scan[0]->Load_value, announce::scanned(scan));
    assert(scan[i] == expected[i]);
}

proof fn lemma_drain<V, F, W>(before: Local<V, F, W>, after: Local<V, F, W>, k: nat, freed: nat)
    requires
        system::drains(before, after, k, freed),
    ensures
        spares(before, after),
        frees(before, after, freed),
{
    let scan = access::since(before.trace, after.trace);
    limbo::lemma_drained(before.bag, system::safe_after(scan), k);
    assert forall|i: int| before.trace.len() <= i < after.trace.len() implies spares_others(
        #[trigger] after.trace[i],
    ) by {
        lemma_scan_spares(scan, i - before.trace.len());
        assert(after.trace[i] == scan[i - before.trace.len()]);
    }
    assert(after.trace.take(before.trace.len() as int) == before.trace);
    assert(after.freed + after.bag == before.freed + before.bag);
}

proof fn lemma_joined<V, F, W>(a: Local<V, F, W>, b: Local<V, F, W>, c: Local<V, F, W>)
    requires
        spares(a, b),
        spares(b, c),
    ensures
        spares(a, c),
{
    assert(c.trace.take(a.trace.len() as int) == a.trace) by {
        assert(c.trace.take(b.trace.len() as int).take(a.trace.len() as int) == c.trace.take(
            a.trace.len() as int,
        ));
    }
    assert forall|i: int| a.trace.len() <= i < c.trace.len() implies spares_others(
        #[trigger] c.trace[i],
    ) by {
        if i < b.trace.len() {
            assert(c.trace[i] == c.trace.take(b.trace.len() as int)[i]);
            assert(spares_others(b.trace[i]));
        }
    }
}

proof fn lemma_resampled<V, F, W>(t: Local<V, F, W>)
    ensures
        spares(t, system::resampled(t)),
        frees(t, system::resampled(t), 0),
{
    let r = system::resampled(t);
    assert(r.trace.take(t.trace.len() as int) == t.trace);
}

proof fn lemma_epoch_step<V, F, W>(before: Local<V, F, W>, after: Local<V, F, W>)
    requires
        system::steps_epoch(before, after),
    ensures
        spares(before, after),
        frees(before, after, 0),
{
    let t = access::since(before.trace, after.trace);
    assert(after.trace.take(before.trace.len() as int) == before.trace);
    assert forall|i: int| before.trace.len() <= i < after.trace.len() implies spares_others(
        #[trigger] after.trace[i],
    ) by {
        let expected = system::advance_accesses(t[0]->Load_value, t[1]->outcome);
        assert(after.trace[i] == t[i - before.trace.len()]);
        assert(t[i - before.trace.len()] == expected[i - before.trace.len()]);
    }
}

proof fn lemma_reclaims<V, F, W>(before: Local<V, F, W>, after: Local<V, F, W>)
    requires
        system::reclaims(before, after),
    ensures
        spares(before, after),
        frees(before, after, 0),
{
    let gc_mode = crate::mode::mode_after(before.spi_ema, before.gc_mode);
    let selected = Local { gc_mode, ..before };
    assert(before.trace.take(before.trace.len() as int) == before.trace);
    if after != selected {
        lemma_epoch_step(selected, after);
    }
}

/// The parts of a batch of the continuous policy.
proof fn lemma_batch<V, F, W>(before: Local<V, F, W>, after: Local<V, F, W>, freed: nat) -> (r: (
    Local<V, F, W>,
    Local<V, F, W>,
    nat,
))
    requires
        system::reclaims_batch(before, after, freed),
    ensures
        spares(before, r.0),
        frees(before, r.0, 0),
        r.0.freed == before.freed,
        system::drains(r.0, r.1, r.2, freed),
        spares(r.1, after),
        frees(r.1, after, 0),
        after.freed == r.1.freed,
{
    let delta = system::delta_read(before.trace, after.trace);
    let k = system::batch_size(before.spi_ema, delta) as usize as nat;
    let read = Local { trace: before.trace.push(system::delta_load(delta)), ..before };
    let drained = choose|drained: Local<V, F, W>|
        {
            &&& #[trigger] system::drains(read, drained, k, freed)
            &&& if system::stride_due(before.op_counter, before.spi_ema) {
                system::steps_epoch(drained, after)
            } else {
                after == drained
            }
        };
    assert(read.trace.take(before.trace.len() as int) == before.trace);
    assert(drained.trace.take(drained.trace.len() as int) == drained.trace);
    if system::stride_due(before.op_counter, before.spi_ema) {
        lemma_epoch_step(drained, after);
    }
    (read, drained, k)
}

/// What follows a write, in any strategy, stores to nothing but the epoch and the
/// published pressure: no announcement, no word of the snapshot window and no
/// count of threads changes. It frees the first nodes of the bag, in their order,
/// each of them once, as many as it says; every other node stays.
pub proof fn freeing_touches_nothing_else<V, F, W>(
    strategy: Strategy,
    before: Local<V, F, W>,
    after: Local<V, F, W>,
    freed: nat,
)
    requires
        bench::follows_write(strategy, before, after, freed),
    ensures
        spares(before, after),
        frees(before, after, freed),
{
    match strategy {
        Strategy::PacerDiscrete => {
            let ticked = choose|ticked: Local<V, F, W>|
                {
                    &&& #[trigger] system::ticks(before, ticked, freed)
                    &&& if system::window_due(before.op_counter) {
                        system::reclaims(system::resampled(ticked), after)
                    } else {
                        after == ticked
                    }
                };
            let (k, hold_ticks) = system::tick_limit(before.gc_mode, before.hold_ticks);
            lemma_drain(Local { hold_ticks, ..before }, ticked, k, freed);
            assert(spares(before, ticked));
            if system::window_due(before.op_counter) {
                lemma_resampled(ticked);
                lemma_reclaims(system::resampled(ticked), after);
                lemma_joined(before, ticked, system::resampled(ticked));
                lemma_joined(before, system::resampled(ticked), after);
            }
        },
        Strategy::PacerContinuous => {
            let (ticked, at_once) = choose|ticked: Local<V, F, W>, at_once: nat|
                {
                    &&& #[trigger] system::drains(
                        before,
                        ticked,
                        CONTINUOUS_DRAIN_PER_OP as nat,
                        at_once,
                    )
                    &&& at_once <= freed
                    &&& if system::window_due(before.op_counter) {
                        system::reclaims_batch(
                            system::resampled(ticked),
                            after,
                            (freed - at_once) as nat,
                        )
                    } else {
                        after == ticked && freed == at_once
                    }
                };
            lemma_drain(before, ticked, CONTINUOUS_DRAIN_PER_OP as nat, at_once);
            if system::window_due(before.op_counter) {
                let sampled = system::resampled(ticked);
                lemma_resampled(ticked);
                let (read, drained, k) = lemma_batch(sampled, after, (freed - at_once) as nat);
                lemma_drain(read, drained, k, (freed - at_once) as nat);
                lemma_joined(before, ticked, sampled);
                lemma_joined(before, sampled, read);
                lemma_joined(before, read, drained);
                lemma_joined(before, drained, after);
            }
        },
        Strategy::TokenAf => lemma_drain(before, after, AF_BATCH_K as nat, freed),
        Strategy::BatchEbr => {
            assert(before.trace.take(before.trace.len() as int) == before.trace);
            if system::window_due(before.op_counter) {
                lemma_drain(before, after, usize::MAX as nat, freed);
            }
        },
    }
}

/// Whether a thread went from `before` to `after` by a whole write that retired
/// `node`, stamped `ts`, and freed `freed` nodes.
pub open spec fn writes<V, F, W>(
    strategy: Strategy,
    before: Local<V, F, W>,
    prepared: Local<V, F, W>,
    after: Local<V, F, W>,
    node: Box<VersionNode<V, W>>,
    ts: u64,
    freed: nat,
) -> bool {
    &&& system::prepares_write(before, prepared, ts)
    &&& bench::follows_write(strategy, system::retired(prepared, node, ts), after, freed)
}

/// A whole write stores to nothing but the epoch and the published pressure. It
/// loses no node: what was freed and what is in the bag after it are, in their
/// order, what they were before it and the node that it retired.
pub proof fn a_write_loses_no_node<V, F, W>(
    strategy: Strategy,
    before: Local<V, F, W>,
    prepared: Local<V, F, W>,
    after: Local<V, F, W>,
    node: Box<VersionNode<V, W>>,
    ts: u64,
    freed: nat,
)
    requires
        writes(strategy, before, prepared, after, node, ts, freed),
    ensures
        spares(before, after),
        after.freed + after.bag == (before.freed + before.bag).push((ts, Retired::Owned(node))),
        after.freed.len() == before.freed.len() + freed,
{
    let retired = system::retired(prepared, node, ts);
    freeing_touches_nothing_else(strategy, retired, after, freed);
    assert(prepared.trace.take(before.trace.len() as int) == before.trace);
    assert(retired.trace.take(prepared.trace.len() as int) == prepared.trace);
    lemma_joined(before, prepared, retired);
    lemma_joined(before, retired, after);
    assert(retired.freed + retired.bag == (before.freed + before.bag).push(
        (ts, Retired::Owned(node)),
    ));
}

/// Whether everything that a thread freed between `before` and `after` is older
/// than `ts`.
pub open spec fn frees_below<V, F, W>(
    before: Local<V, F, W>,
    after: Local<V, F, W>,
    ts: u64,
) -> bool {
    &&& before.freed.len() <= after.freed.len()
    &&& after.freed.take(before.freed.len() as int) == before.freed
    &&& forall|i: int|
        before.freed.len() <= i < after.freed.len() ==> (#[trigger] after.freed[i]).0 < ts
}

proof fn lemma_below_joined<V, F, W>(
    a: Local<V, F, W>,
    b: Local<V, F, W>,
    c: Local<V, F, W>,
    ts: u64,
)
    requires
        frees_below(a, b, ts),
        frees_below(b, c, ts),
    ensures
        frees_below(a, c, ts),
{
    assert(c.freed.take(a.freed.len() as int) == a.freed) by {
        assert(c.freed.take(b.freed.len() as int).take(a.freed.len() as int) == c.freed.take(
            a.freed.len() as int,
        ));
    }
    assert forall|i: int| a.freed.len() <= i < c.freed.len() implies (#[trigger] c.freed[i]).0
        < ts by {
        if i < b.freed.len() {
            assert(c.freed[i] == c.freed.take(b.freed.len() as int)[i]);
            assert(b.freed[i].0 < ts);
        }
    }
}

/// Whether `ts` is announced in memory, in the slot of a registered thread.
pub open spec fn announced(m: Memory, thread: nat, ts: u64) -> bool {
    &&& thread < m[Place::ActiveCount]
    &&& thread < 256
    &&& m[Place::Slot(thread)] == ts
    &&& ts != 0
}

/// The memory that a thread leaves behind between two of its states.
pub open spec fn memory_between<V, F, W>(
    m: Memory,
    from: Local<V, F, W>,
    to: Local<V, F, W>,
) -> Memory {
    memory::memory_after(m, access::since(from.trace, to.trace))
}

/// Accesses that spare the announcements leave them in memory.
proof fn lemma_announcement_stays<V, F, W>(
    m: Memory,
    start: Local<V, F, W>,
    t: Local<V, F, W>,
    thread: nat,
    ts: u64,
)
    requires
        spares(start, t),
        memory::executes(m, access::since(start.trace, t.trace)),
        announced(m, thread, ts),
    ensures
        announced(memory_between(m, start, t), thread, ts),
{
    let h = access::since(start.trace, t.trace);
    let end = h.len() as int;
    assert forall|i: int|
        0 <= i < end && memory::place_of(#[trigger] h[i]) == Place::Slot(
            thread,
        ) implies h[i] is Load by {
        assert(spares_others(t.trace[i + start.trace.len()]));
    }
    assert forall|i: int|
        0 <= i < end && memory::place_of(#[trigger] h[i])
            == Place::ActiveCount implies h[i] is Load by {
        assert(spares_others(t.trace[i + start.trace.len()]));
    }
    sharing_laws::lemma_stays(m, h, 0, end, Place::Slot(thread));
    sharing_laws::lemma_stays(m, h, 0, end, Place::ActiveCount);
    assert(h.take(end) == h);
    assert(h.take(0) == Seq::<Access>::empty());
}

/// The accesses up to a state run before those that follow.
proof fn lemma_part_executes<V, F, W>(
    m: Memory,
    start: Local<V, F, W>,
    before: Local<V, F, W>,
    after: Local<V, F, W>,
)
    requires
        spares(start, before),
        spares(before, after),
        memory::executes(m, access::since(start.trace, after.trace)),
    ensures
        memory::executes(m, access::since(start.trace, before.trace)),
        memory::executes(
            memory_between(m, start, before),
            access::since(before.trace, after.trace),
        ),
{
    let h = access::since(start.trace, after.trace);
    let cut = before.trace.len() - start.trace.len();
    memory::lemma_execution_split(m, h, cut);
    assert(h.take(cut) == access::since(start.trace, before.trace)) by {
        assert(after.trace.take(before.trace.len() as int) == before.trace);
    }
    assert(h.skip(cut) == access::since(before.trace, after.trace));
}

/// A drain frees nothing that an announcement in memory protects.
proof fn lemma_drain_below<V, F, W>(
    m: Memory,
    start: Local<V, F, W>,
    before: Local<V, F, W>,
    after: Local<V, F, W>,
    k: nat,
    freed: nat,
    thread: nat,
    ts: u64,
)
    requires
        spares(start, before),
        system::drains(before, after, k, freed),
        memory::executes(m, access::since(start.trace, after.trace)),
        announced(m, thread, ts),
    ensures
        frees_below(before, after, ts),
{
    lemma_drain(before, after, k, freed);
    lemma_part_executes(m, start, before, after);
    lemma_announcement_stays(m, start, before, thread, ts);
    let scan = access::since(before.trace, after.trace);
    let now = memory_between(m, start, before);
    sharing_laws::a_lone_scan(now, scan);
    let active = sharing_laws::active_announcements(now);
    announce::lemma_oldest(active);
    assert(active[thread as int] == ts);
    assert(system::safe_after(scan) <= ts);
    limbo::lemma_drained(before.bag, system::safe_after(scan), k);
    assert(after.freed.take(before.freed.len() as int) == before.freed);
    assert forall|i: int| before.freed.len() <= i < after.freed.len() implies (
    #[trigger] after.freed[i]).0 < ts by {
        assert(after.freed[i] == before.bag[i - before.freed.len()]);
    }
}

/// Where a thread frees nothing, it frees nothing that is protected.
proof fn lemma_none_below<V, F, W>(before: Local<V, F, W>, after: Local<V, F, W>, ts: u64)
    requires
        after.freed == before.freed,
    ensures
        frees_below(before, after, ts),
{
    assert(after.freed.take(before.freed.len() as int) == before.freed);
}

/// A drain amid accesses that spare the announcements.
proof fn lemma_drain_amid<V, F, W>(
    m: Memory,
    start: Local<V, F, W>,
    before: Local<V, F, W>,
    drained: Local<V, F, W>,
    after: Local<V, F, W>,
    k: nat,
    freed: nat,
    thread: nat,
    ts: u64,
)
    requires
        spares(start, before),
        system::drains(before, drained, k, freed),
        spares(drained, after),
        memory::executes(m, access::since(start.trace, after.trace)),
        announced(m, thread, ts),
    ensures
        frees_below(before, drained, ts),
        spares(start, drained),
{
    lemma_drain(before, drained, k, freed);
    lemma_joined(start, before, drained);
    lemma_part_executes(m, start, drained, after);
    lemma_drain_below(m, start, before, drained, k, freed, thread, ts);
}

/// What follows a write in the discrete policy frees nothing that is protected.
proof fn lemma_discrete_below<V, F, W>(
    m: Memory,
    start: Local<V, F, W>,
    before: Local<V, F, W>,
    after: Local<V, F, W>,
    freed: nat,
    thread: nat,
    ts: u64,
)
    requires
        spares(start, before),
        system::finishes_write(before, after, freed),
        memory::executes(m, access::since(start.trace, after.trace)),
        announced(m, thread, ts),
    ensures
        frees_below(before, after, ts),
{
    let ticked = choose|ticked: Local<V, F, W>|
        {
            &&& #[trigger] system::ticks(before, ticked, freed)
            &&& if system::window_due(before.op_counter) {
                system::reclaims(system::resampled(ticked), after)
            } else {
                after == ticked
            }
        };
    let (k, hold_ticks) = system::tick_limit(before.gc_mode, before.hold_ticks);
    let held = Local { hold_ticks, ..before };
    if system::window_due(before.op_counter) {
        lemma_resampled(ticked);
        lemma_reclaims(system::resampled(ticked), after);
        lemma_joined(ticked, system::resampled(ticked), after);
    } else {
        assert(ticked.trace.take(ticked.trace.len() as int) == ticked.trace);
    }
    lemma_drain_amid(m, start, held, ticked, after, k, freed, thread, ts);
    assert(after.freed == ticked.freed);
}

/// What follows a write in the continuous policy frees nothing that is protected.
proof fn lemma_continuous_below<V, F, W>(
    m: Memory,
    start: Local<V, F, W>,
    before: Local<V, F, W>,
    ticked: Local<V, F, W>,
    after: Local<V, F, W>,
    at_once: nat,
    more: nat,
    thread: nat,
    ts: u64,
)
    requires
        spares(start, before),
        system::drains(before, ticked, CONTINUOUS_DRAIN_PER_OP as nat, at_once),
        system::reclaims_batch(system::resampled(ticked), after, more),
        memory::executes(m, access::since(start.trace, after.trace)),
        announced(m, thread, ts),
    ensures
        frees_below(before, after, ts),
{
    let sampled = system::resampled(ticked);
    lemma_resampled(ticked);
    let (read, drained, k) = lemma_batch(sampled, after, more);
    lemma_drain(read, drained, k, more);
    lemma_joined(ticked, sampled, read);
    lemma_joined(ticked, read, drained);
    lemma_joined(ticked, drained, after);
    lemma_drain_amid(
        m,
        start,
        before,
        ticked,
        after,
        CONTINUOUS_DRAIN_PER_OP as nat,
        at_once,
        thread,
        ts,
    );
    lemma_joined(start, ticked, read);
    lemma_drain_amid(m, start, read, drained, after, k, more, thread, ts);
    assert(read.freed == ticked.freed);
    lemma_below_joined(before, ticked, drained, ts);
    assert(after.freed == drained.freed);
}

/// What follows a write frees nothing that is protected.
proof fn lemma_follows_below<V, F, W>(
    m: Memory,
    start: Local<V, F, W>,
    strategy: Strategy,
    before: Local<V, F, W>,
    after: Local<V, F, W>,
    freed: nat,
    thread: nat,
    ts: u64,
)
    requires
        spares(start, before),
        bench::follows_write(strategy, before, after, freed),
        memory::executes(m, access::since(start.trace, after.trace)),
        announced(m, thread, ts),
    ensures
        frees_below(before, after, ts),
{
    match strategy {
        Strategy::PacerDiscrete => lemma_discrete_below(
            m,
            start,
            before,
            after,
            freed,
            thread,
            ts,
        ),
        Strategy::PacerContinuous => {
            let (ticked, at_once) = choose|ticked: Local<V, F, W>, at_once: nat|
                {
                    &&& #[trigger] system::drains(
                        before,
                        ticked,
                        CONTINUOUS_DRAIN_PER_OP as nat,
                        at_once,
                    )
                    &&& at_once <= freed
                    &&& if system::window_due(before.op_counter) {
                        system::reclaims_batch(
                            system::resampled(ticked),
                            after,
                            (freed - at_once) as nat,
                        )
                    } else {
                        after == ticked && freed == at_once
                    }
                };
            if system::window_due(before.op_counter) {
                lemma_continuous_below(
                    m,
                    start,
                    before,
                    ticked,
                    after,
                    at_once,
                    (freed - at_once) as nat,
                    thread,
                    ts,
                );
            } else {
                lemma_drain_below(
                    m,
                    start,
                    before,
                    after,
                    CONTINUOUS_DRAIN_PER_OP as nat,
                    freed,
                    thread,
                    ts,
                );
            }
        },
        Strategy::TokenAf => lemma_drain_below(
            m,
            start,
            before,
            after,
            AF_BATCH_K as nat,
            freed,
            thread,
            ts,
        ),
        Strategy::BatchEbr => if system::window_due(before.op_counter) {
            lemma_drain_below(
                m,
                start,
                before,
                after,
                usize::MAX as nat,
                freed,
                thread,
                ts,
            );
        } else {
            lemma_none_below(before, after, ts);
        },
    }
}

/// Whether a thread went from `before` to `after` by a whole write.
pub open spec fn performs_write<V, F, W>(
    strategy: Strategy,
    before: Local<V, F, W>,
    after: Local<V, F, W>,
) -> bool {
    exists|prepared: Local<V, F, W>, node: Box<VersionNode<V, W>>, ts: u64, freed: nat|
        #[trigger] writes(strategy, before, prepared, after, node, ts, freed)
}

/// An announcement outlasts any number of writes of another thread: it stays in
/// memory as it was, and of all nodes that the writes free, none has its
/// timestamp or a later one. In every strategy.
pub proof fn announcements_outlast_writes<V, F, W>(
    m: Memory,
    strategy: Strategy,
    states: Seq<Local<V, F, W>>,
    k: int,
    thread: nat,
    ts: u64,
)
    requires
        0 <= k < states.len(),
        forall|i: int|
            0 <= i < states.len() - 1 ==> performs_write(
                strategy,
                #[trigger] states[i],
                states[i + 1],
            ),
        memory::executes(m, access::since(states[0].trace, states[k].trace)),
        announced(m, thread, ts),
    ensures
        announced(memory_between(m, states[0], states[k]), thread, ts),
        frees_below(states[0], states[k], ts),
        spares(states[0], states[k]),
    decreases k,
{
    let start = states[0];
    if k == 0 {
        assert(start.trace.take(start.trace.len() as int) == start.trace);
        lemma_none_below(start, start, ts);
    } else {
        let before = states[k - 1];
        let after = states[k];
        assert(performs_write(strategy, states[k - 1], states[k - 1 + 1]));
        let (prepared, node, stamp, freed) = choose|
            prepared: Local<V, F, W>,
            node: Box<VersionNode<V, W>>,
            stamp: u64,
            freed: nat,
        |
            #[trigger] writes(strategy, before, prepared, after, node, stamp, freed);
        a_write_loses_no_node(strategy, before, prepared, after, node, stamp, freed);
        lemma_writes_spare(strategy, states, k - 1);
        lemma_part_executes(m, start, before, after);
        announcements_outlast_writes(m, strategy, states, k - 1, thread, ts);
        let retired = system::retired(prepared, node, stamp);
        assert(retired.trace.take(before.trace.len() as int) == before.trace);
        assert(spares(before, retired));
        lemma_joined(start, before, retired);
        lemma_follows_below(m, start, strategy, retired, after, freed, thread, ts);
        assert(retired.freed == before.freed);
        lemma_below_joined(start, before, after, ts);
        lemma_joined(start, before, after);
    }
    lemma_announcement_stays(m, start, states[k], thread, ts);
}

/// Any number of writes stores to nothing but the epoch and the published
/// pressure.
proof fn lemma_writes_spare<V, F, W>(strategy: Strategy, states: Seq<Local<V, F, W>>, k: int)
    requires
        0 <= k < states.len(),
        forall|i: int|
            0 <= i < states.len() - 1 ==> performs_write(
                strategy,
                #[trigger] states[i],
                states[i + 1],
            ),
    ensures
        spares(states[0], states[k]),
    decreases k,
{
    if k == 0 {
        assert(states[0].trace.take(states[0].trace.len() as int) == states[0].trace);
    } else {
        let before = states[k - 1];
        let after = states[k];
        lemma_writes_spare(strategy, states, k - 1);
        assert(performs_write(strategy, states[k - 1], states[k - 1 + 1]));
        let (prepared, node, stamp, freed) = choose|
            prepared: Local<V, F, W>,
            node: Box<VersionNode<V, W>>,
            stamp: u64,
            freed: nat,
        |
            #[trigger] writes(strategy, before, prepared, after, node, stamp, freed);
        a_write_loses_no_node(strategy, before, prepared, after, node, stamp, freed);
        lemma_joined(states[0], before, after);
    }
}

/// In whichever order the accesses of any number of threads come, as long as all of
/// them are those of writes: an announcement stays in memory, and a drain among
/// them, `places` being where the accesses of its scan stand, frees no node with
/// the announced timestamp or a later one.
pub proof fn announcements_outlast_interleaved_writes<V, F, W>(
    m: Memory,
    h: Seq<Access>,
    thread: nat,
    ts: u64,
    before: Local<V, F, W>,
    after: Local<V, F, W>,
    k: nat,
    freed: nat,
    places: Seq<int>,
    node: int,
)
    requires
        memory::executes(m, h),
        forall|i: int| 0 <= i < h.len() ==> spares_others(#[trigger] h[i]),
        announced(m, thread, ts),
        system::drains(before, after, k, freed),
        places.len() == access::since(before.trace, after.trace).len(),
        forall|i: int|
            0 <= i < places.len() ==> 0 <= #[trigger] places[i] < h.len() && h[places[i]]
                == access::since(before.trace, after.trace)[i],
        0 <= node < freed,
    ensures
        announced(memory::memory_after(m, h), thread, ts),
        before.bag[node].0 < ts,
{
    let scan = access::since(before.trace, after.trace);
    let seen = announce::scanned(scan);
    let count = scan[0]->Load_value;
    let expected = announce::scan_accesses(count, seen);
    let end = h.len() as int;
    assert(h.take(end) == h);
    assert(h.take(0) == Seq::<Access>::empty());
    assert forall|i: int|
        0 <= i < end && memory::place_of(#[trigger] h[i]) == Place::Slot(
            thread,
        ) implies h[i] is Load by {
        assert(spares_others(h[i]));
    }
    assert forall|i: int|
        0 <= i < end && memory::place_of(#[trigger] h[i])
            == Place::ActiveCount implies h[i] is Load by {
        assert(spares_others(h[i]));
    }
    sharing_laws::lemma_stays(m, h, 0, end, Place::Slot(thread));
    sharing_laws::lemma_stays(m, h, 0, end, Place::ActiveCount);
    assert(scan[0] == expected[0]);
    let first = places[0];
    sharing_laws::lemma_stays(m, h, 0, first, Place::ActiveCount);
    sharing_laws::lemma_fits_at(m, h, first);
    assert(count == m[Place::ActiveCount]);
    assert(thread < seen.len());
    let own = thread + 1;
    assert(scan[own as int] == expected[own as int]);
    let at = places[own as int];
    sharing_laws::lemma_stays(m, h, 0, at, Place::Slot(thread));
    sharing_laws::lemma_fits_at(m, h, at);
    assert(seen[thread as int] == ts);
    announce::lemma_oldest(seen);
    limbo::lemma_drained(before.bag, system::safe_after(scan), k);
}

/// How often each strategy frees, and how much. The discrete policy frees as its
/// mode has it. The continuous one frees at most one node, and a batch at every
/// 256th write. The amortised one frees at most one node, and one wherever the
/// first node of the bag may be freed. The batch strategy frees nothing but at
/// every 256th write, and then every node up to the first that may not be freed.
pub proof fn strategies_free_at_their_pace<V, F, W>(
    strategy: Strategy,
    before: Local<V, F, W>,
    after: Local<V, F, W>,
    freed: nat,
)
    requires
        bench::follows_write(strategy, before, after, freed),
    ensures
        ({
            let safe_ts = system::safe_after(access::since(before.trace, after.trace));
            let all = before.bag.len();
            &&& strategy == Strategy::PacerContinuous && before.op_counter % 256 != 0 ==> freed <= 1
            &&& strategy == Strategy::TokenAf ==> {
                &&& freed <= 1
                &&& freed == 1 <==> all > 0 && before.bag[0].0 < safe_ts
            }
            &&& strategy == Strategy::BatchEbr && before.op_counter % 256 != 0 ==> {
                &&& freed == 0
                &&& after == before
            }
            &&& strategy == Strategy::BatchEbr && before.op_counter % 256 == 0 && all
                < usize::MAX ==> {
                &&& forall|i: int| 0 <= i < freed ==> (#[trigger] before.bag[i]).0 < safe_ts
                &&& freed < all ==> before.bag[freed as int].0 >= safe_ts
            }
        }),
{
    let scan = access::since(before.trace, after.trace);
    let safe_ts = system::safe_after(scan);
    match strategy {
        Strategy::PacerDiscrete => {},
        Strategy::PacerContinuous => {
            let (ticked, at_once) = choose|ticked: Local<V, F, W>, at_once: nat|
                {
                    &&& #[trigger] system::drains(
                        before,
                        ticked,
                        CONTINUOUS_DRAIN_PER_OP as nat,
                        at_once,
                    )
                    &&& at_once <= freed
                    &&& if system::window_due(before.op_counter) {
                        system::reclaims_batch(
                            system::resampled(ticked),
                            after,
                            (freed - at_once) as nat,
                        )
                    } else {
                        after == ticked && freed == at_once
                    }
                };
        },
        Strategy::TokenAf => limbo::lemma_drained(before.bag, safe_ts, 1),
        Strategy::BatchEbr => limbo::lemma_drained(before.bag, safe_ts, usize::MAX as nat),
    }
}

/// A batch of the continuous policy frees no more than its size, which follows the
/// pressure of the thread and the change of it that the batch reads first. It
/// frees fewer only where no more may be freed.
pub proof fn batches_follow_the_published_trend<V, F, W>(
    before: Local<V, F, W>,
    after: Local<V, F, W>,
    freed: nat,
)
    requires
        system::reclaims_batch(before, after, freed),
    ensures
        ({
            let first = after.trace[before.trace.len() as int];
            let delta = Binary64 { bits: first->Load_value };
            &&& first is Load
            &&& memory::place_of(first) == Place::DeltaSpi
            &&& freed <= system::batch_size(before.spi_ema, delta)
            &&& frees(before, after, freed)
            &&& spares(before, after)
        }),
{
    let (read, drained, k) = lemma_batch(before, after, freed);
    lemma_drain(read, drained, k, freed);
    lemma_joined(before, read, drained);
    lemma_joined(before, drained, after);
    let delta = system::delta_read(before.trace, after.trace);
    let at = before.trace.len() as int;
    assert(after.trace[at] == access::since(before.trace, after.trace)[0]);
    assert(after.trace.take(read.trace.len() as int) == read.trace) by {
        assert(after.trace.take(drained.trace.len() as int) == drained.trace);
        assert(drained.trace.take(read.trace.len() as int) == read.trace);
        assert(after.trace.take(drained.trace.len() as int).take(read.trace.len() as int)
            == after.trace.take(read.trace.len() as int));
    }
    assert(after.trace[at] == read.trace[at]);
    let scan = access::since(read.trace, drained.trace);
    limbo::lemma_drained(read.bag, system::safe_after(scan), k);
}

/// Where a write of the discrete policy does not close a window, it changes
/// neither the pressure nor the mode. Where it does, the window starts anew, the
/// pressure has moved by 0.15 of the way to the share of snapshots in it, and the
/// mode is the one that the new pressure selects.
pub proof fn every_window_is_closed<V, F, W>(
    before: Local<V, F, W>,
    after: Local<V, F, W>,
    freed: nat,
)
    requires
        system::finishes_write(before, after, freed),
        pressure_laws::in_unit_range(before.spi_ema),
        system::may_resample(before),
    ensures
        after.op_counter == before.op_counter,
        before.op_counter % 256 != 0 ==> {
            &&& after.spi_ema == before.spi_ema
            &&& after.gc_mode == before.gc_mode
            &&& after.win_writes == before.win_writes
            &&& after.win_snaps == before.win_snaps
            &&& after.fail_streak == before.fail_streak
        },
        before.op_counter % 256 == 0 ==> {
            &&& after.win_writes == 0
            &&& after.win_snaps == 0
            &&& after.gc_mode == mode::mode_after(after.spi_ema, before.gc_mode)
        },
        before.op_counter % 256 == 0 && before.win_writes + before.win_snaps > 0 ==> ({
            let sampled = formula_laws::share(
                before.win_snaps,
                before.win_writes + before.win_snaps + 1,
            );
            let exact = number(before.spi_ema) * (85real / 100real) + sampled * (15real / 100real);
            apart(number(after.spi_ema), exact) <= half_step(10real)
        }),
        before.op_counter % 256 == 0 && before.win_writes + before.win_snaps == 0
            ==> after.spi_ema == before.spi_ema,
{
    let ticked = choose|ticked: Local<V, F, W>|
        {
            &&& #[trigger] system::ticks(before, ticked, freed)
            &&& if system::window_due(before.op_counter) {
                system::reclaims(system::resampled(ticked), after)
            } else {
                after == ticked
            }
        };
    if system::window_due(before.op_counter) && before.win_writes + before.win_snaps > 0 {
        formula_laws::sampling_smooths_the_pressure(ticked);
    }
}

/// An empty window is not sampled.
pub proof fn empty_windows_are_not_sampled<V, F, W>(t: Local<V, F, W>)
    requires
        t.win_writes == 0,
        t.win_snaps == 0,
    ensures
        system::resampled(t) == t,
{
}

/// A write is counted once, and stamped with the epoch, which moves on by one. It
/// leaves everything else as it was.
pub proof fn a_write_is_counted_and_stamped<V, F, W>(
    m: Memory,
    before: Local<V, F, W>,
    prepared: Local<V, F, W>,
    ts: u64,
    other: Place,
)
    requires
        system::prepares_write(before, prepared, ts),
        before.op_counter < u64::MAX,
        before.win_writes < u64::MAX,
        memory::executes(m, access::since(before.trace, prepared.trace)),
        other != Place::GlobalEpoch,
    ensures
        ts == m[Place::GlobalEpoch],
        memory_between(m, before, prepared)[Place::GlobalEpoch] == memory::wrapped(
            Place::GlobalEpoch,
            ts + 1,
        ),
        memory_between(m, before, prepared)[other] == m[other],
        prepared.op_counter == before.op_counter + 1,
        prepared.win_writes == before.win_writes + 1,
        prepared.bag == before.bag,
        prepared.freed == before.freed,
        prepared.win_snaps == before.win_snaps,
        prepared.spi_ema == before.spi_ema,
        prepared.gc_mode == before.gc_mode,
        prepared.hold_ticks == before.hold_ticks,
{
    let t = access::since(before.trace, prepared.trace);
    assert(t.len() == 1 && t[0] == prepared.trace.last());
    assert(t.skip(1) == Seq::<Access>::empty());
    reveal_with_fuel(memory::executes, 2);
    reveal_with_fuel(memory::memory_after, 2);
}

} // verus!
