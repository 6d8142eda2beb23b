//! What holds of the announcement table and of the epoch, whichever way the
//! accesses of threads interleave.

use crate::access;
use crate::access::{Access, Place};
use crate::announce;
use crate::limbo;
use crate::local::Local;
use crate::memory;
use crate::memory::Memory;
use crate::params::MAX_THREADS;
use crate::system;
use vstd::prelude::*;

verus! {

/// Whether an access leaves the word at `at` alone or adds one to it.
pub open spec fn counts_up(access: Access, at: Place) -> bool {
    memory::place_of(access) == at ==> match access {
        Access::Load { .. } => true,
        Access::FetchAdd { delta, .. } => delta == 1,
        Access::Exchange { expected, replacement, .. } => replacement == memory::wrapped(
            at,
            expected + 1,
        ),
        _ => false,
    }
}

/// Whether an access adds one to the word at `at`.
pub open spec fn counts(access: Access, at: Place) -> bool {
    memory::place_of(access) == at && match access {
        Access::FetchAdd { .. } => true,
        Access::Exchange { outcome, .. } => outcome is Ok,
        _ => false,
    }
}

/// How many of the accesses add one to the word at `at`.
pub open spec fn count_of(h: Seq<Access>, at: Place) -> nat
    decreases h.len(),
{
    if h.len() == 0 {
        0
    } else {
        count_of(h.drop_last(), at) + (if counts(h.last(), at) {
            1nat
        } else {
            0nat
        })
    }
}

pub proof fn lemma_memory_push(m: Memory, h: Seq<Access>)
    requires
        h.len() > 0,
        memory::executes(m, h),
    ensures
        memory::executes(m, h.drop_last()),
        memory::fits(memory::memory_after(m, h.drop_last()), h.last()),
        memory::memory_after(m, h) == memory::after(
            memory::memory_after(m, h.drop_last()),
            h.last(),
        ),
{
    let last = h.len() - 1;
    memory::lemma_execution_split(m, h, last);
    assert(h.take(last) == h.drop_last());
    let rest = h.skip(last);
    assert(rest.len() == 1 && rest[0] == h.last());
    assert(rest.skip(1) == Seq::<Access>::empty());
    reveal_with_fuel(memory::executes, 2);
    reveal_with_fuel(memory::memory_after, 2);
}

/// No update is lost: where every access to a word reads it or adds one to it,
/// whichever threads they come from, the word ends up as many above where it
/// began as there were additions, an exchange counting only where it succeeded.
pub proof fn no_update_is_lost(m: Memory, h: Seq<Access>, at: Place)
    requires
        memory::executes(m, h),
        forall|i: int| 0 <= i < h.len() ==> counts_up(#[trigger] h[i], at),
        m[at] == memory::wrapped(at, m[at] as int),
    ensures
        memory::memory_after(m, h)[at] == memory::wrapped(at, m[at] + count_of(h, at)),
    decreases h.len(),
{
    if h.len() > 0 {
        lemma_memory_push(m, h);
        let rest = h.drop_last();
        assert forall|i: int| 0 <= i < rest.len() implies counts_up(#[trigger] rest[i], at) by {
            assert(rest[i] == h[i]);
        }
        no_update_is_lost(m, rest, at);
        assert(counts_up(h[h.len() - 1], at));
        let before = m[at] + count_of(rest, at);
        assert(memory::wrapped(at, memory::wrapped(at, before) + 1) == memory::wrapped(
            at,
            before + 1,
        )) by {
            vstd::arithmetic::div_mod::lemma_add_mod_noop(before, 1, 0x1_0000_0000);
            vstd::arithmetic::div_mod::lemma_add_mod_noop(before, 1, 0x1_0000_0000_0000_0000);
        }
    }
}

/// What the library does to the epoch only ever adds one to it: a write does,
/// and an attempt to advance it does where it succeeds.
pub proof fn the_epoch_only_counts_up<V, F, W>(
    before: Local<V, F, W>,
    prepared: Local<V, F, W>,
    ts: u64,
    t: Seq<Access>,
    i: int,
)
    requires
        system::prepares_write(before, prepared, ts),
        system::is_advance(t),
        0 <= i < t.len(),
    ensures
        counts_up(prepared.trace.last(), Place::GlobalEpoch),
        counts(prepared.trace.last(), Place::GlobalEpoch),
        counts_up(t[i], Place::GlobalEpoch),
        counts(t[i], Place::GlobalEpoch) <==> i == 1 && system::advanced(t),
{
}

/// Threads get the slots in order: of all registrations in one execution, each
/// gets the slot whose number is how many there were before, while the table has
/// one, and none once it has not. A registration changes no announcement.
pub proof fn slots_are_handed_out_in_order(m: Memory, h: Seq<Access>, i: int, slot: nat)
    requires
        memory::executes(m, h),
        forall|j: int| 0 <= j < h.len() ==> counts_up(#[trigger] h[j], Place::ActiveCount),
        m[Place::ActiveCount] == 0,
        h.len() < 0x1_0000_0000,
        0 <= i < h.len(),
        h[i] is FetchAdd,
        memory::place_of(h[i]) == Place::ActiveCount,
    ensures
        ({
            let earlier = count_of(h.take(i), Place::ActiveCount);
            &&& h[i]->FetchAdd_previous == earlier
            &&& announce::id_of(h[i]->FetchAdd_previous as u32) == (if earlier < MAX_THREADS {
                Some(earlier as usize)
            } else {
                None
            })
        }),
        memory::memory_after(m, h.take(i + 1))[Place::Slot(slot)] == memory::memory_after(
            m,
            h.take(i),
        )[Place::Slot(slot)],
{
    lemma_found(m, h, i);
    lemma_count_bound(h.take(i), Place::ActiveCount);
    lemma_fits_at(m, h, i);
}

/// Two threads never get the same slot: of two registrations in one execution,
/// the later one finds a larger count, as long as the count does not wrap.
pub proof fn slots_are_not_shared(m: Memory, h: Seq<Access>, first: int, second: int)
    requires
        memory::executes(m, h),
        forall|i: int| 0 <= i < h.len() ==> counts_up(#[trigger] h[i], Place::ActiveCount),
        m[Place::ActiveCount] + h.len() < 0x1_0000_0000,
        0 <= first < second < h.len(),
        h[first] is FetchAdd,
        memory::place_of(h[first]) == Place::ActiveCount,
        h[second] is FetchAdd,
        memory::place_of(h[second]) == Place::ActiveCount,
    ensures
        h[first]->FetchAdd_previous < h[second]->FetchAdd_previous,
{
    lemma_found(m, h, first);
    lemma_found(m, h, second);
    lemma_count_grows(h, first, second);
}

/// What an addition to the count of threads finds there.
proof fn lemma_found(m: Memory, h: Seq<Access>, i: int)
    requires
        memory::executes(m, h),
        forall|j: int| 0 <= j < h.len() ==> counts_up(#[trigger] h[j], Place::ActiveCount),
        m[Place::ActiveCount] + h.len() < 0x1_0000_0000,
        0 <= i < h.len(),
        h[i] is FetchAdd,
        memory::place_of(h[i]) == Place::ActiveCount,
    ensures
        h[i]->FetchAdd_previous == m[Place::ActiveCount] + count_of(
            h.take(i),
            Place::ActiveCount,
        ),
{
    let at = Place::ActiveCount;
    let upto = h.take(i + 1);
    memory::lemma_execution_split(m, h, i + 1);
    lemma_memory_push(m, upto);
    let before = h.take(i);
    assert(upto.drop_last() == before);
    assert forall|j: int| 0 <= j < before.len() implies counts_up(#[trigger] before[j], at) by {
        assert(before[j] == h[j]);
    }
    no_update_is_lost(m, before, at);
    lemma_count_bound(before, at);
}

proof fn lemma_count_bound(h: Seq<Access>, at: Place)
    ensures
        count_of(h, at) <= h.len(),
    decreases h.len(),
{
    if h.len() > 0 {
        lemma_count_bound(h.drop_last(), at);
    }
}

proof fn lemma_count_grows(h: Seq<Access>, first: int, second: int)
    requires
        0 <= first < second < h.len(),
        h[first] is FetchAdd,
        memory::place_of(h[first]) == Place::ActiveCount,
    ensures
        count_of(h.take(first), Place::ActiveCount) < count_of(
            h.take(second),
            Place::ActiveCount,
        ),
    decreases second - first,
{
    let t = h.take(second);
    assert(t.drop_last() == h.take(second - 1));
    if second - 1 > first {
        lemma_count_grows(h, first, second - 1);
    }
}

/// The announcements that count: those of the threads that have registered.
pub open spec fn active_announcements(m: Memory) -> Seq<u64> {
    Seq::new(
        announce::active_slots(m[Place::ActiveCount]),
        |i: int| m[Place::Slot(i as nat)],
    )
}

/// The oldest announced timestamp, or the largest word.
pub open spec fn oldest_active(m: Memory) -> u64 {
    announce::oldest(active_announcements(m))
}

/// Accesses that are all loads leave the memory alone, and each reads from it.
proof fn lemma_only_loads(m: Memory, t: Seq<Access>)
    requires
        memory::executes(m, t),
        forall|i: int| 0 <= i < t.len() ==> #[trigger] t[i] is Load,
    ensures
        memory::memory_after(m, t) == m,
        forall|i: int| 0 <= i < t.len() ==> memory::fits(m, #[trigger] t[i]),
    decreases t.len(),
{
    if t.len() > 0 {
        let rest = t.skip(1);
        assert(t[0] is Load);
        assert forall|i: int| 0 <= i < rest.len() implies #[trigger] rest[i] is Load by {
            assert(rest[i] == t[i + 1]);
        }
        lemma_only_loads(m, rest);
        assert forall|i: int| 0 <= i < t.len() implies memory::fits(m, #[trigger] t[i]) by {
            if i > 0 {
                assert(rest[i - 1] == t[i]);
            }
        }
    }
}

/// A scan that nothing interferes with finds the oldest announcement, and
/// changes nothing.
pub proof fn a_lone_scan(m: Memory, t: Seq<Access>)
    requires
        memory::executes(m, t),
        announce::is_scan(t),
    ensures
        announce::oldest(announce::scanned(t)) == oldest_active(m),
        memory::memory_after(m, t) == m,
{
    let seen = announce::scanned(t);
    let count = t[0]->Load_value;
    let expected = announce::scan_accesses(count, seen);
    assert forall|i: int| 0 <= i < t.len() implies #[trigger] t[i] is Load by {
        assert(t[i] == expected[i]);
    }
    lemma_only_loads(m, t);
    assert(t[0] == expected[0]);
    assert(memory::fits(m, t[0]));
    assert forall|i: int| 0 <= i < seen.len() implies seen[i] == m[Place::Slot(i as nat)] by {
        assert(t[i + 1] == expected[i + 1]);
        assert(memory::fits(m, t[i + 1]));
    }
    assert(seen == active_announcements(m));
}

/// The oldest of two announcements in place of one.
proof fn lemma_oldest_update(announced: Seq<u64>, i: int, ts: u64)
    requires
        0 <= i < announced.len(),
    ensures
        ({
            let without = announce::oldest(announced.update(i, 0));
            announce::oldest(announced.update(i, ts)) == (if ts != 0 && ts < without {
                ts
            } else {
                without
            })
        }),
    decreases announced.len(),
{
    let last = announced.len() - 1;
    let with = announced.update(i, ts);
    let without = announced.update(i, 0);
    if i == last {
        assert(with.drop_last() == without.drop_last());
    } else {
        lemma_oldest_update(announced.drop_last(), i, ts);
        assert(with.drop_last() == announced.drop_last().update(i, ts));
        assert(without.drop_last() == announced.drop_last().update(i, 0));
    }
}

/// Announcing a snapshot holds the safe timestamp at or below it; the safe
/// timestamp is then the older one of it and all others. Announcing nothing, as
/// a release does, leaves that of the others.
pub proof fn an_announcement_holds_freeing_back(m: Memory, tid: nat, ts: u64)
    requires
        tid < announce::active_slots(m[Place::ActiveCount]),
    ensures
        ({
            let others = oldest_active(m.insert(Place::Slot(tid), 0));
            let now = oldest_active(m.insert(Place::Slot(tid), ts));
            &&& ts != 0 ==> now <= ts
            &&& now == (if ts != 0 && ts < others {
                ts
            } else {
                others
            })
        }),
{
    let announced = active_announcements(m);
    lemma_oldest_update(announced, tid as int, ts);
    assert(active_announcements(m.insert(Place::Slot(tid), ts)) == announced.update(
        tid as int,
        ts,
    ));
    assert(active_announcements(m.insert(Place::Slot(tid), 0)) == announced.update(tid as int, 0));
}

/// Whether some access before `end` announced `ts` in the slot of a thread.
pub open spec fn was_announced(h: Seq<Access>, end: int, thread: nat, ts: u64) -> bool {
    exists|j: int|
        0 <= j < end && match #[trigger] h[j] {
            Access::Store { at, value, .. } => at == Place::Slot(thread) && value == ts,
            _ => false,
        }
}

/// Whether an access to an announcement is one that the library makes.
pub open spec fn announces_whole(access: Access) -> bool {
    memory::place_of(access) is Slot ==> access is Load || access is Store
}

/// What a slot holds was announced, where it did not hold it from the start.
proof fn lemma_slot_value(m: Memory, h: Seq<Access>, end: int, thread: nat)
    requires
        memory::executes(m, h),
        0 <= end <= h.len(),
        forall|i: int| 0 <= i < h.len() ==> announces_whole(#[trigger] h[i]),
    ensures
        ({
            let v = memory::memory_after(m, h.take(end))[Place::Slot(thread)];
            v == m[Place::Slot(thread)] || was_announced(h, end, thread, v)
        }),
    decreases end,
{
    if end > 0 {
        lemma_slot_value(m, h, end - 1, thread);
        memory::lemma_execution_split(m, h, end);
        let t = h.take(end);
        lemma_memory_push(m, t);
        assert(t.drop_last() == h.take(end - 1));
        assert(t.last() == h[end - 1]);
        assert(announces_whole(h[end - 1]));
        let v = memory::memory_after(m, h.take(end - 1))[Place::Slot(thread)];
        if was_announced(h, end - 1, thread, v) {
            assert(was_announced(h, end, thread, v));
        }
    } else {
        assert(h.take(0) == Seq::<Access>::empty());
    }
}

/// The safe timestamp is never torn. However a scan interleaves with the
/// announcements and releases of other threads, `places` being where its
/// accesses stand among theirs, it gives the largest word or a timestamp that
/// some thread did announce.
pub proof fn announcements_are_never_torn(
    m: Memory,
    h: Seq<Access>,
    scan: Seq<Access>,
    places: Seq<int>,
)
    requires
        memory::executes(m, h),
        forall|i: int| 0 <= i < h.len() ==> announces_whole(#[trigger] h[i]),
        forall|i: nat| i < MAX_THREADS ==> #[trigger] m[Place::Slot(i)] == 0,
        announce::is_scan(scan),
        places.len() == scan.len(),
        forall|i: int|
            0 <= i < places.len() ==> 0 <= #[trigger] places[i] < h.len() && h[places[i]]
                == scan[i],
    ensures
        ({
            let min = announce::oldest(announce::scanned(scan));
            ||| min == u64::MAX
            ||| exists|thread: nat|
                thread < MAX_THREADS && #[trigger] was_announced(h, h.len() as int, thread, min)
        }),
{
    let seen = announce::scanned(scan);
    let min = announce::oldest(seen);
    announce::lemma_oldest(seen);
    if min != u64::MAX {
        let i = choose|i: int| 0 <= i < seen.len() && seen[i] == min;
        let thread = i as nat;
        let at = places[i + 1];
        let expected = announce::scan_accesses(scan[0]->Load_value, seen);
        assert(scan[i + 1] == expected[i + 1]);
        assert(h[at] == scan[i + 1]);
        memory::lemma_execution_split(m, h, at);
        assert(h.skip(at)[0] == h[at]);
        assert(memory::fits(memory::memory_after(m, h.take(at)), h[at]));
        lemma_slot_value(m, h, at, thread);
        assert(m[Place::Slot(thread)] == 0);
        assert(was_announced(h, at, thread, min));
        let j = choose|j: int|
            0 <= j < at && match #[trigger] h[j] {
                Access::Store { at, value, .. } => at == Place::Slot(thread) && value == min,
                _ => false,
            };
        assert(was_announced(h, h.len() as int, thread, min));
    }
}

/// What the word at `at` holds stays there while nothing but loads goes to it.
pub proof fn lemma_stays(m: Memory, h: Seq<Access>, from: int, to: int, at: Place)
    requires
        memory::executes(m, h),
        0 <= from <= to <= h.len(),
        forall|i: int|
            from <= i < to && memory::place_of(#[trigger] h[i]) == at ==> h[i] is Load,
    ensures
        memory::memory_after(m, h.take(to))[at] == memory::memory_after(m, h.take(from))[at],
    decreases to - from,
{
    if from < to {
        lemma_stays(m, h, from, to - 1, at);
        memory::lemma_execution_split(m, h, to);
        let t = h.take(to);
        lemma_memory_push(m, t);
        assert(t.drop_last() == h.take(to - 1));
        assert(t.last() == h[to - 1]);
    }
}

/// What an access of an execution found in memory.
pub proof fn lemma_fits_at(m: Memory, h: Seq<Access>, i: int)
    requires
        memory::executes(m, h),
        0 <= i < h.len(),
    ensures
        memory::fits(memory::memory_after(m, h.take(i)), h[i]),
        memory::memory_after(m, h.take(i + 1)) == memory::after(
            memory::memory_after(m, h.take(i)),
            h[i],
        ),
{
    memory::lemma_execution_split(m, h, i + 1);
    let t = h.take(i + 1);
    lemma_memory_push(m, t);
    assert(t.drop_last() == h.take(i));
}

/// No node that an announced snapshot can reach is freed. In an execution in
/// which a thread registers, getting slot `thread`, and announces `ts` there,
/// and in which that slot is only read from then on, every drain whose scan
/// comes later, in whichever thread and however it interleaves with others,
/// frees only nodes older than `ts`.
pub proof fn announced_snapshots_are_protected<V, F, W>(
    m: Memory,
    h: Seq<Access>,
    registered: int,
    announced: int,
    thread: u64,
    ts: u64,
    before: Local<V, F, W>,
    after: Local<V, F, W>,
    k: nat,
    freed: nat,
    places: Seq<int>,
    node: int,
)
    requires
        memory::executes(m, h),
        forall|i: int| 0 <= i < h.len() ==> counts_up(#[trigger] h[i], Place::ActiveCount),
        m[Place::ActiveCount] + h.len() < 0x1_0000_0000,
        0 <= registered < announced < h.len(),
        h[registered] is FetchAdd,
        memory::place_of(h[registered]) == Place::ActiveCount,
        h[registered]->FetchAdd_previous == thread,
        thread < MAX_THREADS,
        h[announced] is Store,
        memory::place_of(h[announced]) == Place::Slot(thread as nat),
        h[announced]->Store_value == ts,
        ts != 0,
        forall|i: int|
            announced < i < h.len() && memory::place_of(#[trigger] h[i]) == Place::Slot(
                thread as nat,
            ) ==> h[i] is Load,
        system::drains(before, after, k, freed),
        places.len() == access::since(before.trace, after.trace).len(),
        forall|i: int|
            0 <= i < places.len() ==> announced < #[trigger] places[i] < h.len()
                && h[places[i]] == access::since(before.trace, after.trace)[i],
        0 <= node < freed,
    ensures
        before.bag[node].0 < ts,
{
    let scan = access::since(before.trace, after.trace);
    let seen = announce::scanned(scan);
    let expected = announce::scan_accesses(scan[0]->Load_value, seen);
    let slot = Place::Slot(thread as nat);
    // The scan finds the thread registered.
    let first = places[0];
    assert(h[first] == scan[0] && scan[0] == expected[0]);
    lemma_fits_at(m, h, first);
    lemma_found(m, h, registered);
    lemma_count_grows(h, registered, first);
    let until = h.take(first);
    memory::lemma_execution_split(m, h, first);
    assert forall|i: int| 0 <= i < until.len() implies counts_up(
        #[trigger] until[i],
        Place::ActiveCount,
    ) by {
        assert(until[i] == h[i]);
    }
    no_update_is_lost(m, until, Place::ActiveCount);
    lemma_count_bound(until, Place::ActiveCount);
    assert(thread < seen.len());
    // And finds its announcement.
    let looked = places[thread + 1];
    assert(h[looked] == scan[thread + 1] && scan[thread + 1] == expected[thread + 1]);
    lemma_fits_at(m, h, looked);
    lemma_fits_at(m, h, announced);
    lemma_stays(m, h, announced + 1, looked, slot);
    assert(seen[thread as int] == ts);
    announce::lemma_oldest(seen);
    limbo::lemma_drained(before.bag, system::safe_after(scan), k);
}

} // verus!
