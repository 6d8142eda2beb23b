//! Snapshots in a memory that orders accesses no more than it is asked to.
//!
//! Here a word keeps every value that was ever written to it, each with a stamp
//! that tells which of two came later. A thread has a view: for each word, the
//! stamp below which it cannot read any more. A load may return any value from
//! its view on, however old. Views spread only where a load that acquires reads
//! a value that was released: it then gets the view of the thread that wrote the
//! value. Orders that ask for more than that are taken to ask for just that, so
//! what holds here holds of them too.

use crate::access::{Access, MemOrder, Place};
use crate::memory;
use crate::scc::Point;
use crate::scc_laws;
use crate::scc_laws::Activity;
use vstd::prelude::*;

verus! {

/// For each word, the oldest stamp that can still be read.
pub type Horizon = Map<Place, nat>;

/// The horizon of a thread that knows of no write.
pub open spec fn no_horizon() -> Horizon {
    Map::new(|at: Place| true, |at: Place| 0nat)
}

/// The horizon of one who knows what either of two know.
pub open spec fn joined(a: Horizon, b: Horizon) -> Horizon {
    Map::new(
        |at: Place| true,
        |at: Place|
            if a[at] >= b[at] {
                a[at]
            } else {
                b[at]
            },
    )
}

/// A horizon that has moved to `stamp` at one word.
pub open spec fn raised(a: Horizon, at: Place, stamp: nat) -> Horizon {
    joined(a, no_horizon().insert(at, stamp))
}

/// A value in a word, and what whoever acquires it gets to know.
pub struct Message {
    pub value: u64,
    pub known: Horizon,
}

/// The values of all words, the horizon of each thread, and what it is doing.
pub struct WeakWorld {
    pub messages: Map<Place, Map<nat, Message>>,
    pub horizons: Map<nat, Horizon>,
    pub threads: Map<nat, Activity>,
}

pub open spec fn acquires(order: MemOrder) -> bool {
    order is Acquire || order is AcqRel || order is SeqCst
}

pub open spec fn releases(order: MemOrder) -> bool {
    order is Release || order is AcqRel || order is SeqCst
}

/// The horizon of a thread after it has read the message at `stamp`.
pub open spec fn horizon_after_read(
    horizon: Horizon,
    at: Place,
    stamp: nat,
    message: Message,
    order: MemOrder,
) -> Horizon {
    let here = raised(horizon, at, stamp);
    if acquires(order) {
        joined(here, message.known)
    } else {
        here
    }
}

/// What whoever acquires a message gets to know that a thread with this horizon
/// writes.
pub open spec fn known_of_write(
    horizon: Horizon,
    at: Place,
    stamp: nat,
    order: MemOrder,
) -> Horizon {
    if releases(order) {
        horizon
    } else {
        no_horizon().insert(at, stamp)
    }
}

/// Whether a thread may read the message at `stamp`.
pub open spec fn can_read(w: WeakWorld, thread: nat, at: Place, stamp: nat) -> bool {
    w.messages[at].contains_key(stamp) && w.horizons[thread][at] <= stamp
}

/// Whether `v` is `w` after a thread has read `value` at `stamp`.
pub open spec fn reads(
    w: WeakWorld,
    thread: nat,
    at: Place,
    order: MemOrder,
    value: u64,
    stamp: nat,
    v: WeakWorld,
) -> bool {
    let message = w.messages[at][stamp];
    &&& can_read(w, thread, at, stamp)
    &&& message.value == value
    &&& v.messages == w.messages
    &&& v.horizons == w.horizons.insert(
        thread,
        horizon_after_read(w.horizons[thread], at, stamp, message, order),
    )
}

/// Whether `v` is `w` after a thread has written `value` at `stamp`.
pub open spec fn writes(
    w: WeakWorld,
    thread: nat,
    at: Place,
    order: MemOrder,
    value: u64,
    stamp: nat,
    v: WeakWorld,
) -> bool {
    let horizon = raised(w.horizons[thread], at, stamp);
    &&& w.horizons[thread][at] < stamp
    &&& !w.messages[at].contains_key(stamp)
    &&& v.messages == w.messages.insert(
        at,
        w.messages[at].insert(
            stamp,
            Message { value, known: known_of_write(horizon, at, stamp, order) },
        ),
    )
    &&& v.horizons == w.horizons.insert(thread, horizon)
}

/// Whether `v` is `w` after a thread has, in one step, read `found` at `stamp`
/// and written `value` right after it. Whoever acquires the new message also
/// gets to know what the old one let know.
pub open spec fn replaces(
    w: WeakWorld,
    thread: nat,
    at: Place,
    order: MemOrder,
    found: u64,
    value: u64,
    stamp: nat,
    v: WeakWorld,
) -> bool {
    let message = w.messages[at][stamp];
    let horizon = raised(
        horizon_after_read(w.horizons[thread], at, stamp, message, order),
        at,
        stamp + 1,
    );
    &&& can_read(w, thread, at, stamp)
    &&& message.value == found
    &&& !w.messages[at].contains_key(stamp + 1)
    &&& v.messages == w.messages.insert(
        at,
        w.messages[at].insert(
            stamp + 1,
            Message {
                value,
                known: joined(known_of_write(horizon, at, stamp + 1, order), message.known),
            },
        ),
    )
    &&& v.horizons == w.horizons.insert(thread, horizon)
}

/// Whether an access of a thread, at a stamp, may lead from the messages and
/// horizons of `w` to those of `v`.
pub open spec fn acts(w: WeakWorld, thread: nat, access: Access, stamp: nat, v: WeakWorld) -> bool {
    match access {
        Access::Load { at, order, value } => reads(w, thread, at, order, value, stamp, v),
        Access::Store { at, order, value } => writes(w, thread, at, order, value, stamp, v),
        Access::FetchAdd { at, order, delta, previous } => replaces(
            w,
            thread,
            at,
            order,
            previous,
            memory::wrapped(at, previous + delta),
            stamp,
            v,
        ),
        Access::FetchSub { at, order, delta, previous } => replaces(
            w,
            thread,
            at,
            order,
            previous,
            memory::wrapped(at, previous - delta),
            stamp,
            v,
        ),
        Access::FetchMax { at, order, value, previous } => replaces(
            w,
            thread,
            at,
            order,
            previous,
            if value > previous {
                value
            } else {
                previous
            },
            stamp,
            v,
        ),
        Access::Exchange { at, success, failure, expected, replacement, outcome } => match outcome {
            Ok(found) => found == expected && replaces(
                w,
                thread,
                at,
                success,
                found,
                replacement,
                stamp,
                v,
            ),
            Err(found) => found != expected && reads(w, thread, at, failure, found, stamp, v),
        },
        Access::Started { .. } => v.messages == w.messages && v.horizons == w.horizons,
        Access::Reading { .. } => v.messages == w.messages && v.horizons == w.horizons,
    }
}

/// Whether one access of one thread leads from `w` to `v`.
pub open spec fn weakly_steps(
    w: WeakWorld,
    thread: nat,
    access: Access,
    stamp: nat,
    v: WeakWorld,
) -> bool {
    &&& acts(w, thread, access, stamp, v)
    &&& scc_laws::moves(w.threads[thread], access, v.threads[thread])
    &&& v.threads == w.threads.insert(thread, v.threads[thread])
}

/// Whether every word holds one value, no window was opened yet, and no thread
/// takes a snapshot.
pub open spec fn weakly_at_start(w: WeakWorld) -> bool {
    &&& forall|at: Place, stamp: nat|
        #[trigger] w.messages[at].contains_key(stamp) <==> stamp == 0
    &&& w.messages[Place::WindowGen][0].value == 0
    &&& forall|i: nat| #[trigger] w.threads[i] == Activity::Elsewhere
}

/// Whether `worlds` is what threads may bring about in such a memory, `history`
/// being their accesses and the stamps of those.
pub open spec fn is_weak_execution(
    worlds: Seq<WeakWorld>,
    history: Seq<(nat, Access, nat)>,
) -> bool {
    &&& worlds.len() == history.len() + 1
    &&& weakly_at_start(worlds[0])
    &&& forall|k: int|
        0 <= k < history.len() ==> weakly_steps(
            #[trigger] worlds[k],
            history[k].0,
            history[k].1,
            history[k].2,
            worlds[k + 1],
        )
}

/// Whether the epoch has had the value `v`.
pub open spec fn epoch_held(w: WeakWorld, v: u64) -> bool {
    exists|stamp: nat|
        #[trigger] w.messages[Place::GlobalEpoch].contains_key(stamp)
            && w.messages[Place::GlobalEpoch][stamp].value == v
}

/// Whether a horizon is past what the words of the window held at the start.
pub open spec fn shows_window(horizon: Horizon) -> bool {
    horizon[Place::CurrentTs] > 0 && horizon[Place::WindowOpenAt] > 0
}

/// What holds of a thread at a point.
spec fn weakly_sound(w: WeakWorld, horizon: Horizon, point: Point) -> bool {
    match point {
        Point::Start => true,
        Point::Poll => true,
        Point::ReadTs { gen } => gen % 2 == 0 && (gen != 0 ==> shows_window(horizon)),
        Point::ReadOpened { gen, ts } => gen % 2 == 0 && (gen != 0 ==> epoch_held(w, ts)),
        Point::ReadWidth { gen, ts, .. } => gen % 2 == 0 && (gen != 0 ==> epoch_held(w, ts)),
        Point::CountHit { ts } => epoch_held(w, ts),
        Point::ReadEpoch { gen } => gen % 2 == 0,
        Point::Claim { gen, epoch } => gen % 2 == 0 && epoch_held(w, epoch),
        Point::ReadTotal { epoch, .. } => epoch_held(w, epoch),
        Point::ReadHits { epoch, .. } => epoch_held(w, epoch),
        Point::ReadLatency { epoch, .. } => epoch_held(w, epoch),
        Point::SetWidth { epoch, .. } => epoch_held(w, epoch),
        Point::SetTs { epoch, .. } => epoch_held(w, epoch),
        Point::SetOpened { epoch, .. } => epoch_held(w, epoch) && horizon[Place::CurrentTs] > 0,
        Point::Publish { epoch, .. } => epoch_held(w, epoch) && shows_window(horizon),
        Point::Done { ts } => epoch_held(w, ts),
    }
}

/// What holds of a generation: a published one lets know of its window.
spec fn tells_window(message: Message) -> bool {
    message.value % 2 == 0 && message.value != 0 ==> shows_window(message.known)
}

/// What every step keeps.
spec fn weakly_kept(w: WeakWorld) -> bool {
    &&& forall|stamp: nat|
        #[trigger] w.messages[Place::CurrentTs].contains_key(stamp) && stamp > 0 ==> epoch_held(
            w,
            w.messages[Place::CurrentTs][stamp].value,
        )
    &&& forall|stamp: nat|
        #[trigger] w.messages[Place::WindowGen].contains_key(stamp) ==> tells_window(
            w.messages[Place::WindowGen][stamp],
        )
    &&& forall|i: nat|
        match #[trigger] w.threads[i] {
            Activity::Snapshot { now, point } => weakly_sound(w, w.horizons[i], point),
            Activity::Elsewhere => true,
        }
}

proof fn lemma_weak_step_keeps(
    w: WeakWorld,
    thread: nat,
    access: Access,
    stamp: nat,
    v: WeakWorld,
)
    requires
        weakly_kept(w),
        weakly_steps(w, thread, access, stamp, v),
    ensures
        weakly_kept(v),
{
    assert forall|x: u64| epoch_held(w, x) implies epoch_held(v, x) by {
        let s = choose|s: nat|
            #[trigger] w.messages[Place::GlobalEpoch].contains_key(s)
                && w.messages[Place::GlobalEpoch][s].value == x;
        assert(v.messages[Place::GlobalEpoch].contains_key(s));
    }
    assert(match w.threads[thread] {
        Activity::Snapshot { now, point } => weakly_sound(w, w.horizons[thread], point),
        Activity::Elsewhere => true,
    });
    assert forall|s: nat|
        #[trigger] v.messages[Place::CurrentTs].contains_key(s) && s > 0 implies epoch_held(
        v,
        v.messages[Place::CurrentTs][s].value,
    ) by {
        if w.messages[Place::CurrentTs].contains_key(s) {
            assert(v.messages[Place::CurrentTs][s] == w.messages[Place::CurrentTs][s]);
        }
    }
    assert forall|s: nat| #[trigger]
        v.messages[Place::WindowGen].contains_key(s) implies tells_window(
        v.messages[Place::WindowGen][s],
    ) by {
        if w.messages[Place::WindowGen].contains_key(s) {
            assert(v.messages[Place::WindowGen][s] == w.messages[Place::WindowGen][s]);
        }
    }
    assert forall|i: nat|
        match #[trigger] v.threads[i] {
            Activity::Snapshot { now, point } => weakly_sound(v, v.horizons[i], point),
            Activity::Elsewhere => true,
        } by {
        assert(match w.threads[i] {
            Activity::Snapshot { now, point } => weakly_sound(w, w.horizons[i], point),
            Activity::Elsewhere => true,
        });
    }
}

proof fn lemma_weak_execution_keeps(
    worlds: Seq<WeakWorld>,
    history: Seq<(nat, Access, nat)>,
    k: int,
)
    requires
        is_weak_execution(worlds, history),
        0 <= k < worlds.len(),
    ensures
        weakly_kept(worlds[k]),
    decreases k,
{
    if k > 0 {
        lemma_weak_execution_keeps(worlds, history, k - 1);
        let (thread, access, stamp) = history[k - 1];
        assert(weakly_steps(worlds[k - 1], thread, access, stamp, worlds[k - 1 + 1]));
        lemma_weak_step_keeps(worlds[k - 1], thread, access, stamp, worlds[k]);
    }
}

/// The timestamp of every snapshot is a value that the epoch has had, even where
/// memory orders no more than the accesses ask for.
pub proof fn snapshots_are_never_torn_weakly(
    worlds: Seq<WeakWorld>,
    history: Seq<(nat, Access, nat)>,
    k: int,
    thread: nat,
    now: u64,
    ts: u64,
)
    requires
        is_weak_execution(worlds, history),
        0 <= k < worlds.len(),
        worlds[k].threads[thread] == (Activity::Snapshot { now, point: Point::Done { ts } }),
    ensures
        epoch_held(worlds[k], ts),
{
    lemma_weak_execution_keeps(worlds, history, k);
    assert(weakly_sound(worlds[k], worlds[k].horizons[thread], Point::Done { ts }));
}

/// Whether access number `i` is a store of a thread to a word.
pub open spec fn stores(history: Seq<(nat, Access, nat)>, i: int, thread: nat, at: Place) -> bool {
    history[i].0 == thread && history[i].1 is Store && memory::place_of(history[i].1) == at
}

/// Whether a thread wrote the timestamp of a window by access number `set_ts`,
/// and has made no access from there to `end`.
pub open spec fn has_set_ts(
    history: Seq<(nat, Access, nat)>,
    opener: nat,
    set_ts: int,
    end: int,
) -> bool {
    &&& 0 <= set_ts < end
    &&& stores(history, set_ts, opener, Place::CurrentTs)
    &&& forall|i: int| set_ts < i < end ==> (#[trigger] history[i]).0 != opener
}

/// Whether a thread wrote the timestamp and the opening time of a window by
/// accesses number `set_ts` and `set_opened`, one right after the other, and has
/// made no access from there to `end`.
pub open spec fn has_written(
    history: Seq<(nat, Access, nat)>,
    opener: nat,
    set_ts: int,
    set_opened: int,
    end: int,
) -> bool {
    &&& 0 <= set_ts < set_opened < end
    &&& stores(history, set_ts, opener, Place::CurrentTs)
    &&& stores(history, set_opened, opener, Place::WindowOpenAt)
    &&& forall|i: int|
        set_ts < i < end && i != set_opened ==> (#[trigger] history[i]).0 != opener
}

/// Whether a thread wrote a window so and by its next access, number `publish`,
/// published it as generation `gen`, at `stamp`.
pub open spec fn publishes(
    history: Seq<(nat, Access, nat)>,
    opener: nat,
    set_ts: int,
    set_opened: int,
    publish: int,
    gen: u64,
    stamp: nat,
) -> bool {
    &&& has_written(history, opener, set_ts, set_opened, publish)
    &&& publish < history.len()
    &&& stores(history, publish, opener, Place::WindowGen)
    &&& history[publish].1->Store_value == gen
    &&& history[publish].2 == stamp
}

/// Whether a horizon leaves nothing to be read that is older than what was
/// written to the window by accesses number `set_ts` and `set_opened`.
pub open spec fn shows_writes(
    history: Seq<(nat, Access, nat)>,
    horizon: Horizon,
    set_ts: int,
    set_opened: int,
) -> bool {
    &&& history[set_ts].2 <= horizon[Place::CurrentTs]
    &&& history[set_opened].2 <= horizon[Place::WindowOpenAt]
}

/// Whether a published generation was published with a window that it lets know
/// of, before access number `end`.
spec fn has_window(
    history: Seq<(nat, Access, nat)>,
    message: Message,
    stamp: nat,
    end: int,
) -> bool {
    message.value % 2 == 0 && message.value != 0 ==> exists|
        opener: nat,
        set_ts: int,
        set_opened: int,
        publish: int,
    |
        {
            &&& #[trigger] publishes(
                history,
                opener,
                set_ts,
                set_opened,
                publish,
                message.value,
                stamp,
            )
            &&& publish < end
            &&& shows_writes(history, message.known, set_ts, set_opened)
        }
}

/// Whether a thread that is writing a window has written what its point says.
spec fn has_begun(
    history: Seq<(nat, Access, nat)>,
    thread: nat,
    horizon: Horizon,
    point: Point,
    end: int,
) -> bool {
    match point {
        Point::SetOpened { .. } => exists|set_ts: int|
            #[trigger] has_set_ts(history, thread, set_ts, end) && history[set_ts].2
                <= horizon[Place::CurrentTs],
        Point::Publish { .. } => exists|set_ts: int, set_opened: int|
            #[trigger] has_written(history, thread, set_ts, set_opened, end) && shows_writes(
                history,
                horizon,
                set_ts,
                set_opened,
            ),
        _ => true,
    }
}

/// What every step keeps of the windows.
spec fn windows_kept(w: WeakWorld, history: Seq<(nat, Access, nat)>, end: int) -> bool {
    &&& forall|stamp: nat|
        #[trigger] w.messages[Place::WindowGen].contains_key(stamp) ==> has_window(
            history,
            w.messages[Place::WindowGen][stamp],
            stamp,
            end,
        )
    &&& forall|i: nat|
        match #[trigger] w.threads[i] {
            Activity::Snapshot { now, point } => has_begun(
                history,
                i,
                w.horizons[i],
                point,
                end,
            ),
            Activity::Elsewhere => true,
        }
}

/// A window whose writing goes on, or has gone on, by one access.
proof fn lemma_begun_keeps(
    w: WeakWorld,
    history: Seq<(nat, Access, nat)>,
    end: int,
    v: WeakWorld,
    i: nat,
)
    requires
        0 <= end < history.len(),
        windows_kept(w, history, end),
        weakly_steps(w, history[end].0, history[end].1, history[end].2, v),
    ensures
        match v.threads[i] {
            Activity::Snapshot { now, point } => has_begun(
                history,
                i,
                v.horizons[i],
                point,
                end + 1,
            ),
            Activity::Elsewhere => true,
        },
{
    let thread = history[end].0;
    assert(match w.threads[i] {
        Activity::Snapshot { now, point } => has_begun(history, i, w.horizons[i], point, end),
        Activity::Elsewhere => true,
    });
    if let Activity::Snapshot { now, point } = v.threads[i] {
        if i != thread {
            assert(v.threads[i] == w.threads[i] && v.horizons[i] == w.horizons[i]);
            if point is SetOpened {
                let set_ts = choose|set_ts: int|
                    #[trigger] has_set_ts(history, i, set_ts, end) && history[set_ts].2
                        <= w.horizons[i][Place::CurrentTs];
                assert(has_set_ts(history, i, set_ts, end + 1));
            } else if point is Publish {
                let (set_ts, set_opened) = choose|set_ts: int, set_opened: int|
                    #[trigger] has_written(history, i, set_ts, set_opened, end) && shows_writes(
                        history,
                        w.horizons[i],
                        set_ts,
                        set_opened,
                    );
                assert(has_written(history, i, set_ts, set_opened, end + 1));
            }
        } else if point is SetOpened {
            assert(has_set_ts(history, i, end, end + 1));
        } else if point is Publish {
            let set_ts = choose|set_ts: int|
                #[trigger] has_set_ts(history, i, set_ts, end) && history[set_ts].2
                    <= w.horizons[i][Place::CurrentTs];
            assert(has_written(history, i, set_ts, end, end + 1));
        }
    }
}

proof fn lemma_windows_step(
    w: WeakWorld,
    history: Seq<(nat, Access, nat)>,
    end: int,
    v: WeakWorld,
)
    requires
        0 <= end < history.len(),
        weakly_kept(w),
        windows_kept(w, history, end),
        weakly_steps(w, history[end].0, history[end].1, history[end].2, v),
    ensures
        windows_kept(v, history, end + 1),
{
    let (thread, access, at_stamp) = history[end];
    assert forall|i: nat|
        match #[trigger] v.threads[i] {
            Activity::Snapshot { now, point } => has_begun(
                history,
                i,
                v.horizons[i],
                point,
                end + 1,
            ),
            Activity::Elsewhere => true,
        } by {
        lemma_begun_keeps(w, history, end, v, i);
    }
    assert(match w.threads[thread] {
        Activity::Snapshot { now, point } => weakly_sound(w, w.horizons[thread], point)
            && has_begun(history, thread, w.horizons[thread], point, end),
        Activity::Elsewhere => true,
    });
    assert forall|stamp: nat| #[trigger]
        v.messages[Place::WindowGen].contains_key(stamp) implies has_window(
        history,
        v.messages[Place::WindowGen][stamp],
        stamp,
        end + 1,
    ) by {
        let message = v.messages[Place::WindowGen][stamp];
        if w.messages[Place::WindowGen].contains_key(stamp) {
            assert(message == w.messages[Place::WindowGen][stamp]);
            assert(has_window(history, message, stamp, end));
        } else if message.value % 2 == 0 && message.value != 0 {
            let point = w.threads[thread]->point;
            assert(w.threads[thread] is Snapshot && point is Publish);
            let (set_ts, set_opened) = choose|set_ts: int, set_opened: int|
                #[trigger] has_written(history, thread, set_ts, set_opened, end) && shows_writes(
                    history,
                    w.horizons[thread],
                    set_ts,
                    set_opened,
                );
            assert(publishes(
                history,
                thread,
                set_ts,
                set_opened,
                end,
                message.value,
                stamp,
            ));
        }
    }
}

proof fn lemma_windows_kept(
    worlds: Seq<WeakWorld>,
    history: Seq<(nat, Access, nat)>,
    k: int,
)
    requires
        is_weak_execution(worlds, history),
        0 <= k < worlds.len(),
    ensures
        windows_kept(worlds[k], history, k),
    decreases k,
{
    if k > 0 {
        lemma_windows_kept(worlds, history, k - 1);
        lemma_weak_execution_keeps(worlds, history, k - 1);
        let (thread, access, stamp) = history[k - 1];
        assert(weakly_steps(worlds[k - 1], thread, access, stamp, worlds[k - 1 + 1]));
        lemma_windows_step(worlds[k - 1], history, k - 1, worlds[k]);
    }
}

/// One access moves no horizon back.
proof fn lemma_step_moves_on(
    w: WeakWorld,
    mover: nat,
    access: Access,
    stamp: nat,
    v: WeakWorld,
    thread: nat,
    at: Place,
)
    requires
        acts(w, mover, access, stamp, v),
    ensures
        w.horizons[thread][at] <= v.horizons[thread][at],
{
}

/// Horizons only move on.
proof fn lemma_horizon_moves_on(
    worlds: Seq<WeakWorld>,
    history: Seq<(nat, Access, nat)>,
    from: int,
    to: int,
    thread: nat,
    at: Place,
)
    requires
        is_weak_execution(worlds, history),
        0 <= from <= to < worlds.len(),
    ensures
        worlds[from].horizons[thread][at] <= worlds[to].horizons[thread][at],
    decreases to - from,
{
    if from < to {
        lemma_horizon_moves_on(worlds, history, from, to - 1, thread, at);
        let (mover, access, stamp) = history[to - 1];
        assert(weakly_steps(worlds[to - 1], mover, access, stamp, worlds[to - 1 + 1]));
        lemma_step_moves_on(worlds[to - 1], mover, access, stamp, worlds[to], thread, at);
    }
}

/// Publication implies visibility: a thread that acquires a published generation
/// can from then on read nothing of the window that is older than what was
/// published with that generation. For every generation that can be seen so was
/// published by some thread, which wrote the timestamp, the opening time and the
/// generation one right after the other.
pub proof fn what_is_published_is_visible(
    worlds: Seq<WeakWorld>,
    history: Seq<(nat, Access, nat)>,
    seeing: int,
    k: int,
)
    requires
        is_weak_execution(worlds, history),
        0 <= seeing < k < worlds.len(),
        history[seeing].1 is Load,
        memory::place_of(history[seeing].1) == Place::WindowGen,
        acquires(history[seeing].1->Load_order),
        history[seeing].1->Load_value % 2 == 0,
        history[seeing].1->Load_value != 0,
    ensures
        exists|opener: nat, set_ts: int, set_opened: int, publish: int|
            {
                &&& #[trigger] publishes(
                    history,
                    opener,
                    set_ts,
                    set_opened,
                    publish,
                    history[seeing].1->Load_value,
                    history[seeing].2,
                )
                &&& publish < seeing
                &&& forall|stamp: nat|
                    #[trigger] can_read(worlds[k], history[seeing].0, Place::CurrentTs, stamp)
                        ==> history[set_ts].2 <= stamp
                &&& forall|stamp: nat|
                    #[trigger] can_read(worlds[k], history[seeing].0, Place::WindowOpenAt, stamp)
                        ==> history[set_opened].2 <= stamp
            },
{
    let (reader, access, seen) = history[seeing];
    let gen = access->Load_value;
    let w = worlds[seeing];
    lemma_windows_kept(worlds, history, seeing);
    assert(weakly_steps(w, reader, access, seen, worlds[seeing + 1]));
    let message = w.messages[Place::WindowGen][seen];
    assert(has_window(history, message, seen, seeing));
    let (opener, set_ts, set_opened, publish) = choose|
        opener: nat,
        set_ts: int,
        set_opened: int,
        publish: int,
    |
        {
            &&& #[trigger] publishes(
                history,
                opener,
                set_ts,
                set_opened,
                publish,
                message.value,
                seen,
            )
            &&& publish < seeing
            &&& shows_writes(history, message.known, set_ts, set_opened)
        };
    assert(publishes(history, opener, set_ts, set_opened, publish, gen, seen));
    lemma_horizon_moves_on(worlds, history, seeing + 1, k, reader, Place::CurrentTs);
    lemma_horizon_moves_on(worlds, history, seeing + 1, k, reader, Place::WindowOpenAt);
    assert(history[set_ts].2 <= worlds[k].horizons[reader][Place::CurrentTs]);
    assert(history[set_opened].2 <= worlds[k].horizons[reader][Place::WindowOpenAt]);
}

} // verus!
