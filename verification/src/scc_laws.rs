//! What holds of snapshots that threads take side by side, and of one that a
//! thread takes alone.

use crate::access::{Access, Place};
use crate::accuracy::half_step;
use crate::formula_laws;
use crate::memory;
use crate::memory::Memory;
use crate::scc;
use crate::scc::Point;
use vstd::prelude::*;

verus! {

/// What a thread is doing.
pub enum Activity {
    /// Not taking a snapshot.
    Elsewhere,
    /// Taking a snapshot as of `now`, and arrived at `point`.
    Snapshot { now: u64, point: Point },
}

/// The memory, what each thread is doing, and the timestamp and opening time of
/// the window that was published last.
pub struct World {
    pub memory: Memory,
    pub threads: Map<nat, Activity>,
    pub published: Option<(u64, u64)>,
}

/// Whether a thread may turn to something else: it takes no snapshot, has one,
/// or gave up waiting for one.
pub open spec fn may_leave(activity: Activity) -> bool {
    match activity {
        Activity::Elsewhere => true,
        Activity::Snapshot { point: Point::Done { .. }, .. } => true,
        Activity::Snapshot { point: Point::Poll, .. } => true,
        _ => false,
    }
}

/// Whether an access leaves the window as it is.
pub open spec fn spares_window(access: Access) -> bool {
    ||| access is Load
    ||| match memory::place_of(access) {
        Place::WindowGen => false,
        Place::CurrentTs => false,
        Place::WindowOpenAt => false,
        Place::AdaptiveWidth => false,
        _ => true,
    }
}

/// Whether an access may take a thread from one activity to another: the next
/// one of a snapshot, the first one of a new snapshot, or one of anything else
/// that the library does, none of which writes to the window.
pub open spec fn moves(before: Activity, access: Access, after: Activity) -> bool {
    ||| match (before, after) {
        (Activity::Snapshot { now, point }, Activity::Snapshot { now: then, point: reached }) => now
            == then && scc::next(now, point, access) == Some(reached),
        _ => false,
    }
    ||| may_leave(before) && match after {
        Activity::Snapshot { now, point } => scc::next(now, Point::Start, access) == Some(point),
        Activity::Elsewhere => spares_window(access),
    }
}

/// The window that is the published one after an access of a thread.
pub open spec fn published_after(w: World, thread: nat, access: Access) -> Option<(u64, u64)> {
    match w.threads[thread] {
        Activity::Snapshot { now, point: Point::Publish { epoch, .. } } => Some((epoch, now)),
        _ => w.published,
    }
}

/// Whether one access of one thread leads from `w` to `v`.
pub open spec fn steps(w: World, thread: nat, access: Access, v: World) -> bool {
    &&& memory::fits(w.memory, access)
    &&& v.memory == memory::after(w.memory, access)
    &&& moves(w.threads[thread], access, v.threads[thread])
    &&& v.threads == w.threads.insert(thread, v.threads[thread])
    &&& v.published == published_after(w, thread, access)
}

/// Whether no window was opened yet and no thread takes a snapshot.
pub open spec fn at_start(w: World) -> bool {
    &&& w.memory[Place::WindowGen] == 0
    &&& forall|i: nat| #[trigger] w.threads[i] == Activity::Elsewhere
    &&& w.published is None
}

/// Whether `worlds` is what threads may bring about that take turns in any
/// order, `history` being their accesses.
pub open spec fn is_execution(worlds: Seq<World>, history: Seq<(nat, Access)>) -> bool {
    &&& worlds.len() == history.len() + 1
    &&& at_start(worlds[0])
    &&& forall|k: int|
        0 <= k < history.len() ==> steps(
            #[trigger] worlds[k],
            history[k].0,
            history[k].1,
            worlds[k + 1],
        )
}

/// Whether the epoch was `v` at some time up to `k`.
pub open spec fn epoch_was(worlds: Seq<World>, k: int, v: u64) -> bool {
    exists|j: int| 0 <= j <= k && (#[trigger] worlds[j]).memory[Place::GlobalEpoch] == v
}

/// The generation that a thread has claimed, where it is about to open a window.
pub open spec fn claimed(activity: Activity) -> Option<u64> {
    match activity {
        Activity::Snapshot { point, .. } => match point {
            Point::ReadTotal { gen, .. } => Some(gen),
            Point::ReadHits { gen, .. } => Some(gen),
            Point::ReadLatency { gen, .. } => Some(gen),
            Point::SetWidth { gen, .. } => Some(gen),
            Point::SetTs { gen, .. } => Some(gen),
            Point::SetOpened { gen, .. } => Some(gen),
            Point::Publish { gen, .. } => Some(gen),
            _ => None,
        },
        _ => None,
    }
}

/// What holds of a thread at a point, `past` being the values that the epoch
/// has had.
spec fn sound(m: Memory, past: Set<u64>, now: u64, point: Point) -> bool {
    match point {
        Point::Start => true,
        Point::Poll => true,
        Point::ReadTs { gen } => gen % 2 == 0 && (gen != 0 ==> past.contains(
            m[Place::CurrentTs],
        )),
        Point::ReadOpened { gen, ts } => gen % 2 == 0 && (gen != 0 ==> past.contains(ts)),
        Point::ReadWidth { gen, ts, .. } => gen % 2 == 0 && (gen != 0 ==> past.contains(ts)),
        Point::CountHit { ts } => past.contains(ts),
        Point::ReadEpoch { gen } => gen % 2 == 0,
        Point::Claim { gen, epoch } => gen % 2 == 0 && past.contains(epoch),
        Point::ReadTotal { epoch, .. } => past.contains(epoch),
        Point::ReadHits { epoch, .. } => past.contains(epoch),
        Point::ReadLatency { epoch, .. } => past.contains(epoch),
        Point::SetWidth { epoch, .. } => past.contains(epoch),
        Point::SetTs { epoch, .. } => past.contains(epoch),
        Point::SetOpened { epoch, .. } => past.contains(epoch) && m[Place::CurrentTs] == epoch,
        Point::Publish { epoch, .. } => past.contains(epoch) && m[Place::CurrentTs] == epoch
            && m[Place::WindowOpenAt] == now,
        Point::Done { ts } => past.contains(ts),
    }
}

/// What every step keeps.
spec fn kept(w: World, past: Set<u64>) -> bool {
    let m = w.memory;
    let gen = m[Place::WindowGen];
    &&& past.contains(m[Place::GlobalEpoch])
    &&& gen >= 2 ==> past.contains(m[Place::CurrentTs])
    &&& gen % 2 == 0 && gen != 0 ==> w.published == Some(
        (m[Place::CurrentTs], m[Place::WindowOpenAt]),
    )
    &&& forall|i: nat|
        claimed(#[trigger] w.threads[i]) matches Some(g) ==> g % 2 == 0 && gen == scc::later(g, 1)
    &&& forall|i: nat, j: nat|
        claimed(#[trigger] w.threads[i]) is Some && claimed(#[trigger] w.threads[j]) is Some ==> i
            == j
    &&& forall|i: nat|
        match #[trigger] w.threads[i] {
            Activity::Snapshot { now, point } => sound(m, past, now, point),
            Activity::Elsewhere => true,
        }
}

#[verifier::rlimit(30)]
proof fn lemma_step_keeps(w: World, past: Set<u64>, thread: nat, access: Access, v: World)
    requires
        kept(w, past),
        steps(w, thread, access, v),
    ensures
        kept(v, past.insert(v.memory[Place::GlobalEpoch])),
{
    let m = w.memory;
    let n = v.memory;
    let new = past.insert(n[Place::GlobalEpoch]);
    let before = w.threads[thread];
    let after = v.threads[thread];
    // A thread elsewhere writes nothing that matters; one with a claim is alone.
    assert(forall|i: nat| i != thread ==> #[trigger] v.threads[i] == w.threads[i]);
    assert(match before {
        Activity::Snapshot { now, point } => sound(m, past, now, point),
        Activity::Elsewhere => true,
    });
    if claimed(before) is None {
        assert(n[Place::CurrentTs] == m[Place::CurrentTs]);
        assert(n[Place::WindowOpenAt] == m[Place::WindowOpenAt]);
    }
    assert forall|i: nat|
        match #[trigger] v.threads[i] {
            Activity::Snapshot { now, point } => sound(n, new, now, point),
            Activity::Elsewhere => true,
        } by {
        assert(match w.threads[i] {
            Activity::Snapshot { now, point } => sound(m, past, now, point),
            Activity::Elsewhere => true,
        });
        if i != thread && claimed(before) is Some {
            assert(claimed(w.threads[i]) is None);
        }
    }
}

/// The values that the epoch has had up to `k`.
spec fn epochs_up_to(worlds: Seq<World>, k: int) -> Set<u64> {
    Set::new(|v: u64| epoch_was(worlds, k, v))
}

proof fn lemma_execution_keeps(worlds: Seq<World>, history: Seq<(nat, Access)>, k: int)
    requires
        is_execution(worlds, history),
        0 <= k < worlds.len(),
    ensures
        kept(worlds[k], epochs_up_to(worlds, k)),
    decreases k,
{
    let past = epochs_up_to(worlds, k);
    assert(epoch_was(worlds, k, worlds[k].memory[Place::GlobalEpoch]));
    if k > 0 {
        let earlier = epochs_up_to(worlds, k - 1);
        lemma_execution_keeps(worlds, history, k - 1);
        assert(steps(worlds[k - 1], history[k - 1].0, history[k - 1].1, worlds[k - 1 + 1]));
        lemma_step_keeps(worlds[k - 1], earlier, history[k - 1].0, history[k - 1].1, worlds[k]);
        let now = worlds[k].memory[Place::GlobalEpoch];
        assert forall|v: u64| past.contains(v) implies earlier.insert(now).contains(v) by {
            let j = choose|j: int|
                0 <= j <= k && (#[trigger] worlds[j]).memory[Place::GlobalEpoch] == v;
            if j < k {
                assert(epoch_was(worlds, k - 1, v));
            }
        }
        assert forall|v: u64| earlier.insert(now).contains(v) implies past.contains(v) by {
            if v != now {
                let j = choose|j: int|
                    0 <= j <= k - 1 && (#[trigger] worlds[j]).memory[Place::GlobalEpoch] == v;
                assert(worlds[j].memory[Place::GlobalEpoch] == v);
            }
        }
        assert(past == earlier.insert(now));
    }
}

/// In whichever order threads take turns, the timestamp of every snapshot is a
/// value that the epoch had at some time before: never one that was not written
/// yet, nor a mixture.
pub proof fn snapshots_are_never_torn(
    worlds: Seq<World>,
    history: Seq<(nat, Access)>,
    k: int,
    thread: nat,
    now: u64,
    ts: u64,
)
    requires
        is_execution(worlds, history),
        0 <= k < worlds.len(),
        worlds[k].threads[thread] == (Activity::Snapshot { now, point: Point::Done { ts } }),
    ensures
        epoch_was(worlds, k, ts),
{
    lemma_execution_keeps(worlds, history, k);
    assert(sound(worlds[k].memory, epochs_up_to(worlds, k), now, Point::Done { ts }));
}

/// No two threads open a window at the same time, and while one does, the
/// generation is odd.
pub proof fn one_thread_opens_a_window(
    worlds: Seq<World>,
    history: Seq<(nat, Access)>,
    k: int,
    thread: nat,
    other: nat,
)
    requires
        is_execution(worlds, history),
        0 <= k < worlds.len(),
        claimed(worlds[k].threads[thread]) is Some,
    ensures
        worlds[k].memory[Place::WindowGen] % 2 == 1,
        claimed(worlds[k].threads[other]) is Some ==> thread == other,
{
    lemma_execution_keeps(worlds, history, k);
}

/// Whoever sees a published generation sees what was published with it: while
/// the generation is even and not zero, the timestamp and the opening time are
/// those of the window that was published last, and that timestamp is a value
/// that the epoch had.
pub proof fn a_published_window_is_complete(
    worlds: Seq<World>,
    history: Seq<(nat, Access)>,
    k: int,
)
    requires
        is_execution(worlds, history),
        0 <= k < worlds.len(),
        worlds[k].memory[Place::WindowGen] % 2 == 0,
        worlds[k].memory[Place::WindowGen] != 0,
    ensures
        worlds[k].published == Some(
            (worlds[k].memory[Place::CurrentTs], worlds[k].memory[Place::WindowOpenAt]),
        ),
        epoch_was(worlds, k, worlds[k].memory[Place::CurrentTs]),
{
    lemma_execution_keeps(worlds, history, k);
}

/// Whether a lone snapshot finds an open window.
pub open spec fn finds_window(m: Memory, now: u64) -> bool {
    scc::open_at(
        now,
        m[Place::WindowGen],
        m[Place::WindowOpenAt],
        m[Place::AdaptiveWidth],
    )
}

/// The timestamp of a snapshot that no other thread interferes with.
pub open spec fn lone_snapshot(m: Memory, now: u64) -> u64 {
    if finds_window(m, now) {
        m[Place::CurrentTs]
    } else {
        m[Place::GlobalEpoch]
    }
}

/// The memory after a snapshot that no other thread interferes with.
pub open spec fn memory_after_snapshot(m: Memory, now: u64) -> Memory {
    let total = memory::wrapped(Place::TotalCount, m[Place::TotalCount] + 1);
    let counted = m.insert(Place::TotalCount, total);
    if finds_window(m, now) {
        counted.insert(
            Place::HitCount,
            memory::wrapped(Place::HitCount, m[Place::HitCount] + 1),
        )
    } else {
        let hit_rate = if total == 0 {
            scc::rate(0, 0)
        } else {
            scc::rate(m[Place::HitCount], total)
        };
        counted.insert(
            Place::AdaptiveWidth,
            scc::window_width(hit_rate, m[Place::Latency]),
        ).insert(Place::CurrentTs, m[Place::GlobalEpoch]).insert(Place::WindowOpenAt, now).insert(
            Place::WindowGen,
            scc::later(m[Place::WindowGen], 2),
        )
    }
}

/// What follows of the accesses of a snapshot that starts at a point short of
/// the end.
proof fn lemma_first_access(m: Memory, now: u64, point: Point, t: Seq<Access>, end: Point)
    requires
        memory::executes(m, t),
        scc::path(now, point, t) == Some(end),
        point != end,
    ensures
        t.len() > 0,
        memory::fits(m, t[0]),
        scc::next(now, point, t[0]) is Some,
        memory::executes(memory::after(m, t[0]), t.skip(1)),
        scc::path(now, scc::next(now, point, t[0]).unwrap(), t.skip(1)) == Some(end),
        memory::memory_after(m, t) == memory::memory_after(memory::after(m, t[0]), t.skip(1)),
{
}

/// The accesses of opening a window, alone.
proof fn lemma_lone_opening(
    m: Memory,
    now: u64,
    gen: u64,
    epoch: u64,
    t: Seq<Access>,
    ts: u64,
)
    requires
        memory::executes(m, t),
        scc::path(now, Point::ReadTotal { gen, epoch }, t) == Some(Point::Done { ts }),
    ensures
        ts == epoch,
        memory::memory_after(m, t) == ({
            let total = m[Place::TotalCount];
            let hit_rate = if total == 0 {
                scc::rate(0, 0)
            } else {
                scc::rate(m[Place::HitCount], total)
            };
            m.insert(
                Place::AdaptiveWidth,
                scc::window_width(hit_rate, m[Place::Latency]),
            ).insert(Place::CurrentTs, epoch).insert(Place::WindowOpenAt, now).insert(
                Place::WindowGen,
                scc::later(gen, 2),
            )
        }),
{
    let end = Point::Done { ts };
    let p0 = Point::ReadTotal { gen, epoch };
    lemma_first_access(m, now, p0, t, end);
    let total = m[Place::TotalCount];
    let hit_rate = if total == 0 {
        scc::rate(0, 0)
    } else {
        scc::rate(m[Place::HitCount], total)
    };
    let t1 = if total == 0 {
        t.skip(1)
    } else {
        lemma_first_access(m, now, Point::ReadHits { gen, epoch, total }, t.skip(1), end);
        t.skip(1).skip(1)
    };
    lemma_first_access(m, now, Point::ReadLatency { gen, epoch, hit_rate }, t1, end);
    let width = scc::window_width(hit_rate, m[Place::Latency]);
    let t2 = t1.skip(1);
    lemma_first_access(m, now, Point::SetWidth { gen, epoch, width }, t2, end);
    let m3 = memory::after(m, t2[0]);
    let t3 = t2.skip(1);
    lemma_first_access(m3, now, Point::SetTs { gen, epoch }, t3, end);
    let m4 = memory::after(m3, t3[0]);
    let t4 = t3.skip(1);
    lemma_first_access(m4, now, Point::SetOpened { gen, epoch }, t4, end);
    let m5 = memory::after(m4, t4[0]);
    let t5 = t4.skip(1);
    lemma_first_access(m5, now, Point::Publish { gen, epoch }, t5, end);
    let t6 = t5.skip(1);
    if t6.len() > 0 {
        assert(scc::next(now, Point::Done { ts: epoch }, t6[0]) is None);
    }
}

/// A snapshot that no other thread interferes with, while no window is being
/// opened, gets the timestamp of the open window or else the epoch, and leaves
/// the window open that it got it from.
pub proof fn a_lone_snapshot(m: Memory, now: u64, t: Seq<Access>, ts: u64)
    requires
        memory::executes(m, t),
        m[Place::WindowGen] % 2 == 0,
        scc::path(now, Point::Start, t) == Some(Point::Done { ts }),
    ensures
        ts == lone_snapshot(m, now),
        memory::memory_after(m, t) == memory_after_snapshot(m, now),
{
    let end = Point::Done { ts };
    lemma_first_access(m, now, Point::Start, t, end);
    let m1 = memory::after(m, t[0]);
    let t1 = t.skip(1);
    lemma_first_access(m1, now, Point::Poll, t1, end);
    let gen = m[Place::WindowGen];
    let t2 = t1.skip(1);
    lemma_first_access(m1, now, Point::ReadTs { gen }, t2, end);
    let seen = m[Place::CurrentTs];
    let t3 = t2.skip(1);
    lemma_first_access(m1, now, Point::ReadOpened { gen, ts: seen }, t3, end);
    let opened = m[Place::WindowOpenAt];
    let t4 = t3.skip(1);
    lemma_first_access(m1, now, Point::ReadWidth { gen, ts: seen, opened }, t4, end);
    let t5 = t4.skip(1);
    if finds_window(m, now) {
        lemma_first_access(m1, now, Point::CountHit { ts: seen }, t5, end);
        let t6 = t5.skip(1);
        if t6.len() > 0 {
            assert(scc::next(now, Point::Done { ts: seen }, t6[0]) is None);
        }
    } else {
        lemma_first_access(m1, now, Point::ReadEpoch { gen }, t5, end);
        let epoch = m[Place::GlobalEpoch];
        let t6 = t5.skip(1);
        lemma_first_access(m1, now, Point::Claim { gen, epoch }, t6, end);
        let m7 = memory::after(m1, t6[0]);
        let t7 = t6.skip(1);
        lemma_lone_opening(m7, now, gen, epoch, t7, ts);
        assert(memory::memory_after(m, t) == memory_after_snapshot(m, now));
    }
}

/// A snapshot that no other thread interferes with does not give up: it polls
/// once and never comes back to polling.
pub proof fn a_lone_snapshot_succeeds(m: Memory, now: u64, t: Seq<Access>)
    requires
        memory::executes(m, t),
        m[Place::WindowGen] % 2 == 0,
        scc::path(now, Point::Start, t) == Some(Point::Poll),
    ensures
        scc::polls(t) == 0,
{
    let end = Point::Poll;
    lemma_first_access(m, now, Point::Start, t, end);
    let m1 = memory::after(m, t[0]);
    let t1 = t.skip(1);
    if t1.len() > 0 {
        let gen = m[Place::WindowGen];
        let t2 = t1.skip(1);
        assert(scc::next(now, Point::Poll, t1[0]) == Some(Point::ReadTs { gen }));
        lemma_first_access(m1, now, Point::ReadTs { gen }, t2, end);
        let seen = m[Place::CurrentTs];
        let t3 = t2.skip(1);
        lemma_first_access(m1, now, Point::ReadOpened { gen, ts: seen }, t3, end);
        let opened = m[Place::WindowOpenAt];
        let t4 = t3.skip(1);
        lemma_first_access(m1, now, Point::ReadWidth { gen, ts: seen, opened }, t4, end);
        let t5 = t4.skip(1);
        if finds_window(m, now) {
            lemma_first_access(m1, now, Point::CountHit { ts: seen }, t5, end);
            lemma_no_way_back(now, Point::Done { ts: seen }, t5.skip(1));
        } else {
            lemma_first_access(m1, now, Point::ReadEpoch { gen }, t5, end);
            let epoch = m[Place::GlobalEpoch];
            let t6 = t5.skip(1);
            lemma_first_access(m1, now, Point::Claim { gen, epoch }, t6, end);
            lemma_no_way_back(now, Point::ReadTotal { gen, epoch }, t6.skip(1));
        }
    } else {
        reveal_with_fuel(scc::polls, 3);
    }
}

/// From a claim, or from the end, no access leads back to polling.
proof fn lemma_no_way_back(now: u64, point: Point, t: Seq<Access>)
    requires
        point is Done || claimed(Activity::Snapshot { now, point }) is Some,
    ensures
        scc::path(now, point, t) != Some(Point::Poll),
    decreases t.len(),
{
    if t.len() > 0 {
        match scc::next(now, point, t[0]) {
            Some(reached) => lemma_no_way_back(now, reached, t.skip(1)),
            None => {},
        }
    }
}

/// Snapshots coalesce: of two lone ones in a row, the second gets the same
/// timestamp while the window that served the first is open, whatever became of
/// the epoch meanwhile, and the epoch once it is not.
pub proof fn snapshots_coalesce(m: Memory, first: u64, second: u64, epoch: u64)
    requires
        m[Place::WindowGen] % 2 == 0,
    ensures
        ({
            let between = memory_after_snapshot(m, first).insert(Place::GlobalEpoch, epoch);
            &&& between[Place::WindowGen] % 2 == 0
            &&& finds_window(between, second) ==> lone_snapshot(between, second) == lone_snapshot(
                m,
                first,
            )
            &&& !finds_window(between, second) ==> lone_snapshot(between, second) == epoch
        }),
{
}

/// Whether two memories hold the same window.
pub open spec fn same_window(m: Memory, n: Memory) -> bool {
    &&& m[Place::WindowGen] == n[Place::WindowGen]
    &&& m[Place::CurrentTs] == n[Place::CurrentTs]
    &&& m[Place::WindowOpenAt] == n[Place::WindowOpenAt]
    &&& m[Place::AdaptiveWidth] == n[Place::AdaptiveWidth]
}

/// Whether snapshots were taken one after the other: number `i` at `nows[i]`,
/// where the memory was `memories[i]`, by the accesses `traces[i]`, with the
/// timestamp `stamps[i]`. Between two of them anything may change but the window.
pub open spec fn snapshots_in_turn(
    memories: Seq<Memory>,
    nows: Seq<u64>,
    traces: Seq<Seq<Access>>,
    stamps: Seq<u64>,
) -> bool {
    &&& memories.len() == nows.len() == traces.len() == stamps.len()
    &&& forall|i: int|
        0 <= i < nows.len() ==> {
            &&& memory::executes(#[trigger] memories[i], traces[i])
            &&& scc::path(nows[i], Point::Start, traces[i]) == Some(Point::Done { ts: stamps[i] })
        }
    &&& forall|i: int|
        0 <= i < nows.len() - 1 ==> same_window(
            memory::memory_after(#[trigger] memories[i], traces[i]),
            memories[i + 1],
        )
}

/// A window serves until its width has passed since it was opened, however many
/// snapshots it has served by then: until that time every snapshot gets its
/// timestamp and leaves the window as it is, and the first one from that time on
/// gets the epoch of its own time, which becomes the timestamp of a new window,
/// opened at the time of that snapshot.
pub proof fn a_window_lasts_for_its_width(
    memories: Seq<Memory>,
    nows: Seq<u64>,
    traces: Seq<Seq<Access>>,
    stamps: Seq<u64>,
    k: int,
)
    requires
        snapshots_in_turn(memories, nows, traces, stamps),
        0 <= k < nows.len(),
        memories[0][Place::WindowGen] % 2 == 0,
        memories[0][Place::WindowGen] != 0,
        ({
            let end = memories[0][Place::WindowOpenAt] + memories[0][Place::AdaptiveWidth];
            forall|i: int| 0 <= i < k ==> #[trigger] nows[i] < end
        }),
        memories[0][Place::AdaptiveWidth] > 0,
    ensures
        same_window(memories[0], memories[k]),
        ({
            let end = memories[0][Place::WindowOpenAt] + memories[0][Place::AdaptiveWidth];
            let after = memory::memory_after(memories[k], traces[k]);
            if nows[k] < end {
                &&& stamps[k] == memories[0][Place::CurrentTs]
                &&& same_window(memories[0], after)
            } else {
                &&& stamps[k] == memories[k][Place::GlobalEpoch]
                &&& after[Place::CurrentTs] == memories[k][Place::GlobalEpoch]
                &&& after[Place::WindowOpenAt] == nows[k]
                &&& after[Place::WindowGen] == memory::wrapped(
                    Place::WindowGen,
                    memories[0][Place::WindowGen] + 2,
                )
            }
        }),
    decreases k,
{
    if k > 0 {
        assert(nows[k - 1] < memories[0][Place::WindowOpenAt] + memories[0][Place::AdaptiveWidth]);
        a_window_lasts_for_its_width(memories, nows, traces, stamps, k - 1);
        assert(same_window(
            memory::memory_after(memories[k - 1], traces[k - 1]),
            memories[k - 1 + 1],
        ));
    }
    assert(memory::executes(memories[k], traces[k]));
    a_lone_snapshot(memories[k], nows[k], traces[k], stamps[k]);
}

/// The first snapshot of all gets the epoch, and opens a window with it.
pub proof fn the_first_snapshot_opens_a_window(m: Memory, now: u64, t: Seq<Access>, ts: u64)
    requires
        memory::executes(m, t),
        m[Place::WindowGen] == 0,
        scc::path(now, Point::Start, t) == Some(Point::Done { ts }),
    ensures
        ts == m[Place::GlobalEpoch],
        ({
            let after = memory::memory_after(m, t);
            &&& after[Place::CurrentTs] == ts
            &&& after[Place::WindowOpenAt] == now
            &&& after[Place::WindowGen] == 2
        }),
{
    a_lone_snapshot(m, now, t, ts);
}

/// Whether a thread at this point has not claimed the window.
spec fn unclaimed(point: Point) -> bool {
    match point {
        Point::ReadTotal { .. } => false,
        Point::ReadHits { .. } => false,
        Point::ReadLatency { .. } => false,
        Point::SetWidth { .. } => false,
        Point::SetTs { .. } => false,
        Point::SetOpened { .. } => false,
        Point::Publish { .. } => false,
        _ => true,
    }
}

/// A snapshot that claims no window leaves it alone, whatever other threads do
/// meanwhile: none of its accesses writes to the timestamp, the opening time, the
/// width or the generation.
pub proof fn hits_leave_the_window_alone(now: u64, t: Seq<Access>, ts: u64, i: int)
    requires
        scc::path(now, Point::Start, t) == Some(Point::Done { ts }),
        forall|j: int| 0 <= j < t.len() && (#[trigger] t[j]) is Exchange ==> t[j]->outcome is Err,
        0 <= i < t.len(),
    ensures
        spares_window(t[i]) || t[i] is Exchange && t[i]->outcome is Err,
{
    lemma_unclaimed(now, Point::Start, t, Point::Done { ts }, i);
}

proof fn lemma_unclaimed(now: u64, point: Point, t: Seq<Access>, end: Point, i: int)
    requires
        unclaimed(point),
        scc::path(now, point, t) == Some(end),
        forall|j: int| 0 <= j < t.len() && (#[trigger] t[j]) is Exchange ==> t[j]->outcome is Err,
        0 <= i < t.len(),
    ensures
        spares_window(t[i]) || t[i] is Exchange && t[i]->outcome is Err,
    decreases t.len(),
{
    assert(t[0] is Exchange ==> t[0]->outcome is Err);
    let reached = scc::next(now, point, t[0]).unwrap();
    if i > 0 {
        let rest = t.skip(1);
        assert forall|j: int| 0 <= j < rest.len() && (
        #[trigger] rest[j]) is Exchange implies rest[j]->outcome is Err by {
            assert(t[j + 1] == rest[j]);
        }
        lemma_unclaimed(now, reached, rest, end, i - 1);
        assert(rest[i - 1] == t[i]);
    }
}

/// Every snapshot is counted, and those that a window serves are counted as hits.
/// A snapshot that nothing interferes with changes neither the epoch, nor the
/// latency, nor any announcement.
pub proof fn snapshots_and_hits_are_counted(
    m: Memory,
    now: u64,
    t: Seq<Access>,
    ts: u64,
    other: Place,
)
    requires
        memory::executes(m, t),
        m[Place::WindowGen] % 2 == 0,
        m[Place::AdaptiveWidth] > 0,
        scc::path(now, Point::Start, t) == Some(Point::Done { ts }),
    ensures
        ({
            let served = m[Place::WindowGen] != 0 && now < m[Place::WindowOpenAt]
                + m[Place::AdaptiveWidth];
            let after = memory::memory_after(m, t);
            &&& after[Place::TotalCount] == memory::wrapped(
                Place::TotalCount,
                m[Place::TotalCount] + 1,
            )
            &&& after[Place::HitCount] == memory::wrapped(
                Place::HitCount,
                m[Place::HitCount] + (if served {
                    1int
                } else {
                    0
                }),
            )
            &&& match other {
                Place::WindowGen => true,
                Place::CurrentTs => true,
                Place::WindowOpenAt => true,
                Place::AdaptiveWidth => true,
                Place::TotalCount => true,
                Place::HitCount => true,
                _ => after[other] == m[other],
            }
        }),
{
    a_lone_snapshot(m, now, t, ts);
}

/// A new window is as wide as the hits so far, out of all snapshots with this one,
/// and the latency call for.
pub proof fn new_windows_are_as_wide_as_called_for(m: Memory, now: u64, t: Seq<Access>, ts: u64)
    requires
        memory::executes(m, t),
        m[Place::WindowGen] % 2 == 0,
        m[Place::WindowGen] == 0 || now >= m[Place::WindowOpenAt] + m[Place::AdaptiveWidth],
        m[Place::HitCount] <= m[Place::TotalCount] < u64::MAX,
        scc::path(now, Point::Start, t) == Some(Point::Done { ts }),
    ensures
        ({
            let width = memory::memory_after(m, t)[Place::AdaptiveWidth] as real;
            let hits = m[Place::HitCount] as real / (m[Place::TotalCount] + 1) as real;
            let room = formula_laws::latency_room(m[Place::Latency]);
            let exact = 100000real + 4900000real * (hits * (6real / 10real) + room * (4real
                / 10real));
            let off = half_step(300000000real);
            width <= exact + off && exact < width + 1real + off
        }),
{
    a_lone_snapshot(m, now, t, ts);
    formula_laws::width_is_linear_in_hits_and_latency(
        m[Place::HitCount],
        (m[Place::TotalCount] + 1) as u64,
        m[Place::Latency],
    );
}

} // verus!
