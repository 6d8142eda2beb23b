//! The table in which threads announce the snapshots that they read from.

use crate::access;
use crate::access::{Access, Common, MemOrder, Origin, Place, SharedCell, SharedCount, Trace};
use crate::params::MAX_THREADS;
use vstd::prelude::*;

verus! {

/// The announcement of one thread: the timestamp of its snapshot, or zero.
pub struct AnnouncementSlot<W = Common> {
    pub active_ts: SharedCell<W>,
}

impl<W> AnnouncementSlot<W> {
    fn new(index: Ghost<nat>, origin: &mut Origin<W>) -> (r: Self)
        requires
            !old(origin)@.contains(Place::Slot(index@)),
        ensures
            r.active_ts.place() == Place::Slot(index@),
            r.active_ts.initial() == 0,
            final(origin)@ == old(origin)@.insert(Place::Slot(index@)),
    {
        AnnouncementSlot { active_ts: SharedCell::new(0, Ghost(Place::Slot(index@)), origin) }
    }
}

/// One slot for each thread that may register.
pub struct AnnouncementTable<W = Common> {
    slots: Vec<AnnouncementSlot<W>>,
    active_count: SharedCount<W>,
}

/// The slots of the first `n` threads.
pub open spec fn slots_below(n: nat) -> Set<Place> {
    Set::new(|at: Place| at is Slot && at->Slot_0 < n)
}

/// The words of the table.
pub open spec fn places() -> Set<Place> {
    slots_below(MAX_THREADS as nat).insert(Place::ActiveCount)
}

/// How many slots a count of registered threads makes active.
pub open spec fn active_slots(count: u64) -> nat {
    if count <= MAX_THREADS {
        count as nat
    } else {
        MAX_THREADS as nat
    }
}

/// The smallest of the timestamps that are not zero; the largest word where
/// there is none.
pub open spec fn oldest(announced: Seq<u64>) -> u64
    decreases announced.len(),
{
    if announced.len() == 0 {
        u64::MAX
    } else {
        let before = oldest(announced.drop_last());
        let last = announced.last();
        if last != 0 && last < before {
            last
        } else {
            before
        }
    }
}

/// The load of the slot of thread `i`.
pub open spec fn slot_load(i: nat, value: u64) -> Access {
    Access::Load { at: Place::Slot(i), order: MemOrder::SeqCst, value }
}

/// The accesses of a scan that finds `count` threads registered and `announced`
/// in their slots.
pub open spec fn scan_accesses(count: u64, announced: Seq<u64>) -> Seq<Access> {
    seq![
        Access::Load { at: Place::ActiveCount, order: MemOrder::Acquire, value: count },
    ] + Seq::new(announced.len(), |i: int| slot_load(i as nat, announced[i]))
}

/// What a scan read from the slots.
pub open spec fn scanned(t: Seq<Access>) -> Seq<u64> {
    Seq::new((t.len() - 1) as nat, |i: int| t[i + 1]->Load_value)
}

/// Whether `t` is a scan of all active slots.
pub open spec fn is_scan(t: Seq<Access>) -> bool {
    &&& t.len() > 0
    &&& t == scan_accesses(t[0]->Load_value, scanned(t))
    &&& scanned(t).len() == active_slots(t[0]->Load_value)
}

/// No announcement is older than the oldest, and the oldest is one of them
/// unless there is none.
pub proof fn lemma_oldest(announced: Seq<u64>)
    ensures
        forall|i: int|
            0 <= i < announced.len() && #[trigger] announced[i] != 0 ==> oldest(announced)
                <= announced[i],
        oldest(announced) != 0,
        oldest(announced) == u64::MAX || announced.contains(oldest(announced)),
    decreases announced.len(),
{
    if announced.len() > 0 {
        let rest = announced.drop_last();
        lemma_oldest(rest);
        assert forall|i: int| 0 <= i < announced.len() && #[trigger] announced[i] != 0 implies oldest(
            announced,
        ) <= announced[i] by {
            if i < rest.len() {
                assert(rest[i] == announced[i]);
            }
        }
        if oldest(announced) == oldest(rest) && oldest(rest) != u64::MAX {
            let i = choose|i: int| 0 <= i < rest.len() && rest[i] == oldest(rest);
            assert(announced[i] == oldest(announced));
        } else if oldest(announced) != u64::MAX {
            assert(announced[announced.len() - 1] == oldest(announced));
        }
    }
}

/// The slot that a thread gets that finds `taken` threads registered.
pub open spec fn id_of(taken: u32) -> Option<usize> {
    if taken < MAX_THREADS {
        Some(taken as usize)
    } else {
        None
    }
}

impl AnnouncementTable {
    pub fn new() -> (r: Self)
        ensures
            r.wf(),
            r.initially(Place::ActiveCount) == 0,
            forall|i: nat| i < MAX_THREADS ==> #[trigger] r.initially(Place::Slot(i)) == 0,
    {
        AnnouncementTable::made_from(&mut Origin::new())
    }
}

impl<W> AnnouncementTable<W> {
    /// Whether every word of the table is labelled as what it is.
    pub closed spec fn wf(&self) -> bool {
        &&& self.slots@.len() == MAX_THREADS
        &&& forall|i: int|
            0 <= i < self.slots@.len() ==> (#[trigger] self.slots@[i]).active_ts.place()
                == Place::Slot(i as nat)
        &&& self.active_count.place() == Place::ActiveCount
    }

    /// What the words of the table were made with.
    pub closed spec fn initially(&self, at: Place) -> u64 {
        match at {
            Place::Slot(i) => self.slots@[i as int].active_ts.initial(),
            _ => self.active_count.initial() as u64,
        }
    }

    pub(crate) fn made_from(origin: &mut Origin<W>) -> (r: Self)
        requires
            old(origin)@.disjoint(places()),
        ensures
            r.wf(),
            r.initially(Place::ActiveCount) == 0,
            forall|i: nat| i < MAX_THREADS ==> #[trigger] r.initially(Place::Slot(i)) == 0,
            final(origin)@ == old(origin)@.union(places()),
    {
        let mut slots: Vec<AnnouncementSlot<W>> = Vec::new();
        let mut i: usize = 0;
        assert(origin@ =~= old(origin)@.union(slots_below(0)));
        while i < MAX_THREADS
            invariant
                i <= MAX_THREADS,
                slots@.len() == i,
                old(origin)@.disjoint(places()),
                origin@ == old(origin)@.union(slots_below(i as nat)),
                forall|j: int|
                    0 <= j < i ==> (#[trigger] slots@[j]).active_ts.place() == Place::Slot(
                        j as nat,
                    ) && slots@[j].active_ts.initial() == 0,
            decreases MAX_THREADS - i,
        {
            assert(places().contains(Place::Slot(i as nat)));
            slots.push(AnnouncementSlot::new(Ghost(i as nat), origin));
            i = i + 1;
            assert(origin@ =~= old(origin)@.union(slots_below(i as nat)));
        }
        assert(places().contains(Place::ActiveCount));
        let active_count: SharedCount<W> = SharedCount::new(
            0,
            Ghost(Place::ActiveCount),
            origin,
        );
        assert(origin@ =~= old(origin)@.union(places()));
        AnnouncementTable { slots, active_count }
    }

    /// Takes the next free slot. `None` where all are taken.
    pub fn register(&self, trace: &mut Trace<W>) -> (tid: Option<usize>)
        requires
            self.wf(),
        ensures
            ({
                let taken = final(trace)@.last()->FetchAdd_previous as u32;
                &&& final(trace)@ == old(trace)@.push(
                    access::addition_to_count(Place::ActiveCount, MemOrder::SeqCst, 1, taken),
                )
                &&& tid == id_of(taken)
            }),
    {
        let taken: u32 = self.active_count.fetch_add(1, MemOrder::SeqCst, trace);
        if (taken as usize) < MAX_THREADS {
            Some(taken as usize)
        } else {
            None
        }
    }

    /// Announces that thread `tid` reads from the snapshot of `ts`.
    pub fn announce(&self, tid: usize, ts: u64, trace: &mut Trace<W>)
        requires
            self.wf(),
            tid < MAX_THREADS,
        ensures
            final(trace)@ == old(trace)@.push(
                Access::Store { at: Place::Slot(tid as nat), order: MemOrder::SeqCst, value: ts },
            ),
    {
        self.slots[tid].active_ts.store(ts, MemOrder::SeqCst, trace);
    }

    /// Takes back the announcement of thread `tid`.
    pub fn release(&self, tid: usize, trace: &mut Trace<W>)
        requires
            self.wf(),
            tid < MAX_THREADS,
        ensures
            final(trace)@ == old(trace)@.push(
                Access::Store { at: Place::Slot(tid as nat), order: MemOrder::Release, value: 0 },
            ),
    {
        self.slots[tid].active_ts.store(0, MemOrder::Release, trace);
    }

    /// The oldest announced timestamp; the largest word where there is none.
    pub fn min_active_ts(&self, trace: &mut Trace<W>) -> (min: u64)
        requires
            self.wf(),
        ensures
            ({
                let scan = access::since(old(trace)@, final(trace)@);
                &&& final(trace)@ == old(trace)@ + scan
                &&& is_scan(scan)
                &&& min == oldest(scanned(scan))
            }),
    {
        let count: u32 = self.active_count.load(MemOrder::Acquire, trace);
        // The count runs past the table only after a registration was refused.
        let n: usize = if (count as usize) < MAX_THREADS {
            count as usize
        } else {
            MAX_THREADS
        };
        let mut min: u64 = u64::MAX;
        let ghost mut announced: Seq<u64> = Seq::empty();
        let mut i: usize = 0;
        assert(trace@ == old(trace)@ + scan_accesses(count as u64, announced));
        while i < n
            invariant
                self.wf(),
                i <= n <= MAX_THREADS,
                announced.len() == i,
                trace@ == old(trace)@ + scan_accesses(count as u64, announced),
                min == oldest(announced),
            decreases n - i,
        {
            let ts: u64 = self.slots[i].active_ts.load(MemOrder::SeqCst, trace);
            if ts != 0 && ts < min {
                min = ts;
            }
            proof {
                let more = announced.push(ts);
                assert(more.drop_last() == announced);
                assert(scan_accesses(count as u64, more) == scan_accesses(
                    count as u64,
                    announced,
                ).push(slot_load(i as nat, ts)));
                announced = more;
            }
            i = i + 1;
        }
        proof {
            let scan = scan_accesses(count as u64, announced);
            assert(access::since(old(trace)@, trace@) == scan);
            assert(scanned(scan) == announced);
        }
        min
    }
}

} // verus!
