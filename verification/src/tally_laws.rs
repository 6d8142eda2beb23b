//! What holds of the words in which the threads of a run add up their results.

use crate::access;
use crate::access::{Access, MemOrder, Place};
use crate::bench;
use crate::formula_laws;
use crate::local::Local;
use crate::memory;
use crate::memory::Memory;
use crate::sharing_laws;
use vstd::prelude::*;

verus! {

/// Whether an access leaves the word at `at` alone, reads it or raises it.
pub open spec fn raises(access: Access, at: Place) -> bool {
    memory::place_of(access) == at ==> access is Load || access is FetchMax
}

/// Whether an access leaves the word at `at` alone, reads it or adds to it.
pub open spec fn adds(access: Access, at: Place) -> bool {
    memory::place_of(access) == at ==> access is Load || access is FetchAdd
}

/// What the accesses add to the word at `at`, all together.
pub open spec fn sum_of(h: Seq<Access>, at: Place) -> nat
    decreases h.len(),
{
    if h.len() == 0 {
        0
    } else {
        sum_of(h.drop_last(), at) + (if h.last() is FetchAdd && memory::place_of(h.last()) == at {
            h.last()->FetchAdd_delta as nat
        } else {
            0nat
        })
    }
}

/// Nothing that is added is lost: where every access to a word reads it or adds
/// to it, the word ends up above where it began by the sum of what was added, in
/// whichever order the accesses come.
pub proof fn the_total_is_the_sum(m: Memory, h: Seq<Access>, at: Place)
    requires
        memory::executes(m, h),
        forall|i: int| 0 <= i < h.len() ==> adds(#[trigger] h[i], at),
        m[at] == memory::wrapped(at, m[at] as int),
    ensures
        memory::memory_after(m, h)[at] == memory::wrapped(at, m[at] + sum_of(h, at)),
    decreases h.len(),
{
    if h.len() > 0 {
        sharing_laws::lemma_memory_push(m, h);
        let rest = h.drop_last();
        assert forall|i: int| 0 <= i < rest.len() implies adds(#[trigger] rest[i], at) by {
            assert(rest[i] == h[i]);
        }
        the_total_is_the_sum(m, rest, at);
        assert(adds(h[h.len() - 1], at));
        let before = m[at] + sum_of(rest, at);
        if h.last() is FetchAdd && memory::place_of(h.last()) == at {
            let delta = h.last()->FetchAdd_delta as int;
            vstd::arithmetic::div_mod::lemma_add_mod_noop(before, delta, 0x1_0000_0000);
            vstd::arithmetic::div_mod::lemma_add_mod_noop(before, delta, 0x1_0000_0000_0000_0000);
            vstd::arithmetic::div_mod::lemma_add_mod_noop(
                before % 0x1_0000_0000,
                delta,
                0x1_0000_0000,
            );
            vstd::arithmetic::div_mod::lemma_add_mod_noop(
                before % 0x1_0000_0000_0000_0000,
                delta,
                0x1_0000_0000_0000_0000,
            );
        }
    }
}

/// The sum of what workers have counted.
pub open spec fn sum_of_counts(counts: Seq<nat>) -> nat
    decreases counts.len(),
{
    if counts.len() == 0 {
        0
    } else {
        sum_of_counts(counts.drop_last()) + counts.last()
    }
}

/// Whether access number `i` adds `n` operations to those of a run.
pub open spec fn tallies(h: Seq<Access>, i: int, n: nat) -> bool {
    &&& 0 <= i < h.len()
    &&& h[i] is FetchAdd
    &&& h[i] == bench::tally(h[i]->FetchAdd_delta, h[i]->FetchAdd_previous)
    &&& h[i]->FetchAdd_delta == n
}

/// Whether the accesses of `h` add each of the counts to the operations of a run
/// once, by access number `places[w]` that of worker `w`, and nothing else, and
/// otherwise only read those operations.
pub open spec fn tallies_once(h: Seq<Access>, counts: Seq<nat>, places: Seq<int>) -> bool {
    &&& places.len() == counts.len()
    &&& forall|w: int| 0 <= w < counts.len() ==> tallies(h, #[trigger] places[w], counts[w])
    &&& forall|v: int, w: int|
        0 <= v < w < places.len() ==> #[trigger] places[v] != #[trigger] places[w]
    &&& forall|i: int|
        0 <= i < h.len() && memory::place_of(#[trigger] h[i]) == Place::TotalOps ==> h[i] is Load
            || places.contains(i)
}

/// One addition less.
proof fn lemma_sum_without(h: Seq<Access>, i: int, quiet: Access, at: Place)
    requires
        0 <= i < h.len(),
        h[i] is FetchAdd,
        memory::place_of(h[i]) == at,
        quiet is Load,
    ensures
        sum_of(h, at) == sum_of(h.update(i, quiet), at) + h[i]->FetchAdd_delta,
    decreases h.len(),
{
    let without = h.update(i, quiet);
    if i == h.len() - 1 {
        assert(without.drop_last() == h.drop_last());
    } else {
        lemma_sum_without(h.drop_last(), i, quiet, at);
        assert(without.drop_last() == h.drop_last().update(i, quiet));
    }
}

proof fn lemma_sum_of_none(h: Seq<Access>, at: Place)
    requires
        forall|i: int|
            0 <= i < h.len() && memory::place_of(#[trigger] h[i]) == at ==> h[i] is Load,
    ensures
        sum_of(h, at) == 0,
    decreases h.len(),
{
    if h.len() > 0 {
        let rest = h.drop_last();
        assert forall|i: int|
            0 <= i < rest.len() && memory::place_of(
                #[trigger] rest[i],
            ) == at implies rest[i] is Load by {
            assert(rest[i] == h[i]);
        }
        lemma_sum_of_none(rest, at);
        assert(memory::place_of(h[h.len() - 1]) == at ==> h[h.len() - 1] is Load);
    }
}

/// What is added is the sum of the counts.
proof fn lemma_sum_of_tallies(h: Seq<Access>, counts: Seq<nat>, places: Seq<int>)
    requires
        tallies_once(h, counts, places),
    ensures
        sum_of(h, Place::TotalOps) == sum_of_counts(counts),
    decreases counts.len(),
{
    let at = Place::TotalOps;
    if counts.len() == 0 {
        lemma_sum_of_none(h, at);
    } else {
        let last = counts.len() - 1;
        let i = places[last];
        assert(tallies(h, places[last], counts[last]));
        let quiet = Access::Load { at, order: MemOrder::Relaxed, value: 0 };
        let without = h.update(i, quiet);
        let fewer = places.drop_last();
        let rest = counts.drop_last();
        assert forall|w: int| 0 <= w < rest.len() implies tallies(
            without,
            #[trigger] fewer[w],
            rest[w],
        ) by {
            assert(tallies(h, places[w], counts[w]));
            assert(places[w] != places[last]);
        }
        assert forall|v: int, w: int|
            0 <= v < w < fewer.len() implies #[trigger] fewer[v] != #[trigger] fewer[w] by {
            assert(places[v] != places[w]);
        }
        assert forall|o: int|
            0 <= o < without.len() && memory::place_of(
                #[trigger] without[o],
            ) == at implies without[o] is Load || fewer.contains(o) by {
            if o != i {
                assert(h[o] == without[o]);
                if !(h[o] is Load) {
                    let w = choose|w: int| 0 <= w < places.len() && places[w] == o;
                    assert(fewer[w] == o);
                }
            }
        }
        lemma_sum_of_tallies(without, rest, fewer);
        lemma_sum_without(h, i, quiet, at);
    }
}

/// The operations of a run are the sum of those of its workers, where each adds
/// its own once, in whichever order they come.
pub proof fn a_run_is_the_sum_of_its_workers(
    m: Memory,
    h: Seq<Access>,
    counts: Seq<nat>,
    places: Seq<int>,
)
    requires
        memory::executes(m, h),
        m[Place::TotalOps] == 0,
        tallies_once(h, counts, places),
    ensures
        memory::memory_after(m, h)[Place::TotalOps] == memory::wrapped(
            Place::TotalOps,
            sum_of_counts(counts) as int,
        ),
{
    assert forall|i: int| 0 <= i < h.len() implies adds(#[trigger] h[i], Place::TotalOps) by {
        if memory::place_of(h[i]) == Place::TotalOps && !(h[i] is Load) {
            let w = choose|w: int| 0 <= w < places.len() && places[w] == i;
            assert(tallies(h, places[w], counts[w]));
        }
    }
    the_total_is_the_sum(m, h, Place::TotalOps);
    lemma_sum_of_tallies(h, counts, places);
}

/// A word that is only raised never falls, and holds what it began with or what
/// some access raised it to.
pub proof fn lemma_raised(m: Memory, h: Seq<Access>, at: Place, from: int, to: int)
    requires
        memory::executes(m, h),
        forall|i: int| 0 <= i < h.len() ==> raises(#[trigger] h[i], at),
        0 <= from <= to <= h.len(),
    ensures
        ({
            let start = memory::memory_after(m, h.take(from))[at];
            let end = memory::memory_after(m, h.take(to))[at];
            &&& start <= end
            &&& end == start || exists|i: int|
                from <= i < to && raised_to(#[trigger] h[i], at, end)
        }),
    decreases to - from,
{
    if from < to {
        lemma_raised(m, h, at, from, to - 1);
        sharing_laws::lemma_fits_at(m, h, to - 1);
        let start = memory::memory_after(m, h.take(from))[at];
        let before = memory::memory_after(m, h.take(to - 1))[at];
        let end = memory::memory_after(m, h.take(to))[at];
        assert(raises(h[to - 1], at));
        if end == before {
            if before != start {
                let i = choose|i: int|
                    from <= i < to - 1 && raised_to(#[trigger] h[i], at, before);
                assert(raised_to(h[i], at, end));
            }
        } else {
            assert(raised_to(h[to - 1], at, end));
        }
    }
}

/// Whether an access raises the word at `at` to `value`, where that is more.
pub open spec fn raised_to(access: Access, at: Place, value: u64) -> bool {
    access is FetchMax && memory::place_of(access) == at && access->FetchMax_value == value
}

/// A backlog of `len` nodes that a worker noted by access number `look`, and
/// access number `raise` where it was a new peak.
pub struct Note {
    pub len: u64,
    pub look: int,
    pub raise: int,
}

/// Whether the accesses of `h` hold those of a note.
pub open spec fn holds_note(h: Seq<Access>, note: Note) -> bool {
    let peak = h[note.look]->Load_value;
    let t = bench::peak_accesses(note.len, peak, h[note.raise]->FetchMax_previous);
    &&& 0 <= note.look < h.len()
    &&& t[0] == h[note.look]
    &&& t.len() == 2 ==> note.look < note.raise < h.len() && t[1] == h[note.raise]
}

/// The peak of a run is the largest of the backlogs that were noted, in whichever
/// order the accesses of the workers come: no smaller than any of them, and one
/// of them unless it is what it was before.
pub proof fn the_peak_is_the_largest_backlog(m: Memory, h: Seq<Access>, notes: Seq<Note>)
    requires
        memory::executes(m, h),
        forall|i: int| 0 <= i < h.len() ==> raises(#[trigger] h[i], Place::PeakLimbo),
        forall|n: int| 0 <= n < notes.len() ==> holds_note(h, #[trigger] notes[n]),
        forall|i: int|
            0 <= i < h.len() && #[trigger] h[i] is FetchMax && memory::place_of(h[i])
                == Place::PeakLimbo ==> exists|n: int|
                0 <= n < notes.len() && (#[trigger] notes[n]).len == h[i]->FetchMax_value,
    ensures
        ({
            let peak = memory::memory_after(m, h)[Place::PeakLimbo];
            &&& m[Place::PeakLimbo] <= peak
            &&& forall|n: int| 0 <= n < notes.len() ==> (#[trigger] notes[n]).len <= peak
            &&& peak == m[Place::PeakLimbo] || exists|n: int|
                0 <= n < notes.len() && (#[trigger] notes[n]).len == peak
        }),
{
    let at = Place::PeakLimbo;
    let end = h.len() as int;
    let peak = memory::memory_after(m, h)[at];
    assert(h.take(end) == h);
    assert(h.take(0) == Seq::<Access>::empty());
    lemma_raised(m, h, at, 0, end);
    if peak != m[at] {
        let i = choose|i: int| 0 <= i < end && raised_to(#[trigger] h[i], at, peak);
        assert(h[i] is FetchMax);
    }
    assert forall|n: int| 0 <= n < notes.len() implies (#[trigger] notes[n]).len <= peak by {
        let note = notes[n];
        assert(holds_note(h, note));
        sharing_laws::lemma_fits_at(m, h, note.look);
        if note.len > h[note.look]->Load_value {
            sharing_laws::lemma_fits_at(m, h, note.raise);
            lemma_raised(m, h, at, note.raise + 1, end);
        } else {
            lemma_raised(m, h, at, note.look, end);
        }
    }
}

/// A burst of frees that nothing interferes with takes 20 nanoseconds for each
/// node and 150 more for each other thread that is freeing. It adds that to the
/// time spent, waits until the clock has moved on by as much, unless it has read
/// the clock as often as a word can count, and leaves the count of freeing threads
/// as it was, and every other word too.
pub proof fn bursts_are_charged_and_waited_for(m: Memory, t: Seq<Access>, n: nat, other: Place)
    requires
        memory::executes(m, t),
        bench::is_burst(t, n),
        n > 0,
        m[Place::ConcurrentFreers] < u64::MAX,
        (20 + 150 * m[Place::ConcurrentFreers]) * n < 0x20_0000_0000_0000,
        other != Place::TotalFreeNs,
    ensures
        ({
            let cost = (20 + 150 * m[Place::ConcurrentFreers]) * n;
            let after = memory::memory_after(m, t);
            let last = t[t.len() - 3];
            &&& after[Place::TotalFreeNs] == memory::wrapped(
                Place::TotalFreeNs,
                m[Place::TotalFreeNs] + cost,
            )
            &&& after[other] == m[other]
            &&& last is Reading
            &&& t[1] is Started
            &&& last->since == t[1]->instant
            &&& last->elapsed_ns >= cost || t.len() == u64::MAX + 4
        }),
{
    let readings = choose|readings: Seq<u128>| #[trigger] bench::is_waiting_burst(t, n, readings);
    let freers = t[0]->FetchAdd_previous;
    let start = t[1]->instant;
    let spent = t[t.len() - 2]->FetchAdd_previous;
    let leaving = t.last()->FetchSub_previous;
    let expected = bench::burst_accesses(n, freers, start, readings, spent, leaving);
    sharing_laws::lemma_fits_at(m, t, 0);
    assert(t.take(0) == Seq::<Access>::empty());
    assert(t[0] == expected[0]);
    let rivals = m[Place::ConcurrentFreers];
    assert(freers == rivals);
    assert((20 + 150 * rivals) * n >= 20) by (nonlinear_arith)
        requires
            n > 0,
            rivals >= 0,
    ;
    formula_laws::bursts_cost_by_nodes_and_rivals(rivals, n);
    let cost = bench::burst_ns(rivals, n);
    let end = t.len() as int;
    assert(end == readings.len() + 4);
    assert(t[1] == expected[1]);
    assert(t[end - 2] == expected[end - 2]);
    assert(t[end - 1] == expected[end - 1]);
    assert(t[end - 3] == expected[end - 3]);
    assert(expected[end - 3] == access::readings_of(start, readings)[end - 5]);
    assert forall|i: int| 1 <= i < end - 2 implies memory::place_of(#[trigger] t[i])
        == Place::Clock && (t[i] is Started || t[i] is Reading) by {
        assert(t[i] == expected[i]);
        if i > 1 {
            assert(expected[i] == access::readings_of(start, readings)[i - 2]);
        }
    }
    sharing_laws::lemma_fits_at(m, t, end - 2);
    sharing_laws::lemma_fits_at(m, t, end - 1);
    assert(t.take(end) == t);
    lemma_clock_stays(m, t, 1, end - 2, Place::ConcurrentFreers);
    lemma_clock_stays(m, t, 1, end - 2, Place::TotalFreeNs);
    lemma_clock_stays(m, t, 1, end - 2, other);
}

/// Looking at the clock changes no word.
proof fn lemma_clock_stays(m: Memory, h: Seq<Access>, from: int, to: int, at: Place)
    requires
        memory::executes(m, h),
        0 <= from <= to <= h.len(),
        forall|i: int| from <= i < to ==> memory::place_of(#[trigger] h[i]) == Place::Clock,
        forall|i: int| from <= i < to ==> (#[trigger] h[i]) is Started || h[i] is Reading,
    ensures
        memory::memory_after(m, h.take(to))[at] == memory::memory_after(m, h.take(from))[at],
    decreases to - from,
{
    if from < to {
        lemma_clock_stays(m, h, from, to - 1, at);
        sharing_laws::lemma_fits_at(m, h, to - 1);
        assert(h[to - 1] is Started || h[to - 1] is Reading);
    }
}

/// Freeing nothing takes no time and changes nothing.
pub proof fn freeing_nothing_costs_nothing(m: Memory, t: Seq<Access>)
    requires
        bench::is_burst(t, 0),
    ensures
        t.len() == 0,
        memory::memory_after(m, t) == m,
{
}

/// A thread that notes its backlog, alone, leaves the larger one of that and of the
/// peak so far as the peak, changes no other word, and keeps its nodes.
pub proof fn the_peak_is_raised_to_the_backlog<V, F, W>(
    m: Memory,
    before: Local<V, F, W>,
    after: Local<V, F, W>,
    other: Place,
)
    requires
        bench::notes_peak(before, after),
        memory::executes(m, access::since(before.trace, after.trace)),
        before.bag.len() <= u64::MAX,
        other != Place::PeakLimbo,
    ensures
        ({
            let now = memory::memory_after(m, access::since(before.trace, after.trace));
            &&& now[Place::PeakLimbo] == (if before.bag.len() > m[Place::PeakLimbo] {
                before.bag.len() as int
            } else {
                m[Place::PeakLimbo] as int
            })
            &&& now[other] == m[other]
            &&& after.bag == before.bag
            &&& after.freed == before.freed
        }),
{
    let t = access::since(before.trace, after.trace);
    let len = before.bag.len() as u64;
    let expected = bench::peak_accesses(len, t[0]->Load_value, t[1]->FetchMax_previous);
    assert(t == expected);
    sharing_laws::lemma_fits_at(m, t, 0);
    assert(t.take(0) == Seq::<Access>::empty());
    assert(t[0] == expected[0]);
    if t.len() == 2 {
        sharing_laws::lemma_fits_at(m, t, 1);
        assert(t[1] == expected[1]);
        assert(t.take(2) == t);
    } else {
        assert(t.take(1) == t);
    }
}

} // verus!
