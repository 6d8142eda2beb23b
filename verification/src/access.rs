//! Shared memory cells and the record of what a thread does to them.
//!
//! Every atomic word that threads share is a `SharedCell`. Each access to one
//! is appended to the `Trace` of the thread that makes it: the operation, the
//! memory order it asks for, and the value that was read or written. So is each
//! look at the clock that decides something. A trace is ghost state, so it costs
//! nothing at run time. The contracts of the library say which accesses an
//! operation makes and how its result follows from the values those accesses
//! returned; what other threads do meanwhile is left open.
//!
//! A cell and a trace belong to a world, a type that both of them carry, and an
//! access takes a trace of the cell's own world. A trace can be made only in the
//! world `Common`. The operations of the library are written for every world, so
//! none of them can make a trace that the cells it works on would take: every
//! access that it makes is on the trace that it is given, and what a contract
//! says of that trace it says of all that was done to memory.
//!
//! A cell is labelled with the word that it is. It is made from the origin of its
//! world, which gives each label once, so no other cell of that origin has the
//! same one: an access to a word is an access to the one cell that is that word.
//! An origin too can be made only in the world `Common`. The links between
//! versions, of which there are as many as versions, share a label of their own.
//!
//! A trace is appended to in this module and nowhere else, by the lines right
//! after each access. What a word holds at the time is not said here: `memory`
//! says what values the accesses of all threads can return together.

use std::marker::PhantomData;
use std::sync::atomic::{AtomicU32, AtomicU64, Ordering};
use std::time::Instant;
use vstd::prelude::*;

verus! {

/// Memory order of an access, one for one with the orders of `std`.
#[derive(Clone, Copy, Debug, PartialEq, Eq, Structural)]
pub enum MemOrder {
    Relaxed,
    Acquire,
    Release,
    AcqRel,
    SeqCst,
}

/// The order that `std` knows under the same name.
fn std_order(order: MemOrder) -> (r: Ordering)
    ensures
        match order {
            MemOrder::Relaxed => r == Ordering::Relaxed,
            MemOrder::Acquire => r == Ordering::Acquire,
            MemOrder::Release => r == Ordering::Release,
            MemOrder::AcqRel => r == Ordering::AcqRel,
            MemOrder::SeqCst => r == Ordering::SeqCst,
        },
{
    match order {
        MemOrder::Relaxed => Ordering::Relaxed,
        MemOrder::Acquire => Ordering::Acquire,
        MemOrder::Release => Ordering::Release,
        MemOrder::AcqRel => Ordering::AcqRel,
        MemOrder::SeqCst => Ordering::SeqCst,
    }
}

/// Which shared word an access is about.
pub enum Place {
    /// How many threads have registered.
    ActiveCount,
    /// The announcement of one thread.
    Slot(nat),
    /// Generation of the snapshot window.
    WindowGen,
    /// Timestamp that the snapshots of the window share.
    CurrentTs,
    /// When the window was opened.
    WindowOpenAt,
    /// Snapshots that an open window served.
    HitCount,
    /// Snapshots asked for.
    TotalCount,
    /// Width of the window.
    AdaptiveWidth,
    /// Smoothed snapshot latency.
    Latency,
    /// The epoch of the system.
    GlobalEpoch,
    /// Published snapshot pressure.
    ApproxSpi,
    /// Published change of the snapshot pressure.
    DeltaSpi,
    /// Threads inside a burst of frees.
    ConcurrentFreers,
    /// Simulated time spent freeing.
    TotalFreeNs,
    /// Largest backlog that a worker has seen.
    PeakLimbo,
    /// Operations that the workers have completed.
    TotalOps,
    /// The epoch that stamps tree updates.
    TreeEpoch,
    /// The epoch of the strategies that the library is compared with.
    BaselineEpoch,
    /// The link from a version to the next older one.
    NextVersion,
    /// The clock, which nobody writes to.
    Clock,
}

/// One access to a shared word.
pub enum Access {
    Load { at: Place, order: MemOrder, value: u64 },
    Store { at: Place, order: MemOrder, value: u64 },
    FetchAdd { at: Place, order: MemOrder, delta: u64, previous: u64 },
    FetchSub { at: Place, order: MemOrder, delta: u64, previous: u64 },
    FetchMax { at: Place, order: MemOrder, value: u64, previous: u64 },
    /// The outcome is the value found, `Ok` where it was the one expected.
    Exchange {
        at: Place,
        success: MemOrder,
        failure: MemOrder,
        expected: u64,
        replacement: u64,
        outcome: Result<u64, u64>,
    },
    /// A look at the clock to start with.
    Started { instant: Instant },
    /// A reading of the clock: how long it is since an instant.
    Reading { since: Instant, elapsed_ns: u128 },
}

/// Readings of the clock since an instant, one after the other.
pub open spec fn readings_of(since: Instant, elapsed: Seq<u128>) -> Seq<Access> {
    Seq::new(elapsed.len(), |i: int| Access::Reading { since, elapsed_ns: elapsed[i] })
}

/// The world of the cells and traces that programs use.
pub struct Common;

/// The accesses that one thread has made so far to the cells of a world, oldest
/// first.
pub struct Trace<W = Common> {
    accesses: Ghost<Seq<Access>>,
    world: PhantomData<W>,
}

impl<W> View for Trace<W> {
    type V = Seq<Access>;

    closed spec fn view(&self) -> Seq<Access> {
        self.accesses@
    }
}

/// What a trace gained between two points in time.
pub open spec fn since(before: Seq<Access>, after: Seq<Access>) -> Seq<Access> {
    after.skip(before.len() as int)
}

impl Trace {
    pub fn new() -> (r: Self)
        ensures
            r@ == Seq::<Access>::empty(),
    {
        Trace { accesses: Ghost(Seq::empty()), world: PhantomData }
    }
}

impl<W> Trace<W> {
    /// Looks at the clock, for later readings.
    pub fn start_clock(&mut self) -> (start: Instant)
        ensures
            final(self)@ == old(self)@.push(Access::Started { instant: start }),
    {
        let start: Instant = Instant::now();
        proof {
            self.accesses@ = self.accesses@.push(Access::Started { instant: start });
        }
        start
    }

    /// Reads how many nanoseconds have passed since `start`.
    pub fn read_clock(&mut self, start: &Instant) -> (elapsed_ns: u128)
        ensures
            final(self)@ == old(self)@.push(Access::Reading { since: *start, elapsed_ns }),
    {
        let elapsed_ns: u128 = start.elapsed().as_nanos();
        proof {
            self.accesses@ = self.accesses@.push(Access::Reading { since: *start, elapsed_ns });
        }
        elapsed_ns
    }
}

/// Where the cells of a world come from: the labels that it has given to cells.
pub struct Origin<W = Common> {
    given: Ghost<Set<Place>>,
    world: PhantomData<W>,
}

impl<W> View for Origin<W> {
    type V = Set<Place>;

    closed spec fn view(&self) -> Set<Place> {
        self.given@
    }
}

impl Origin {
    pub(crate) fn new() -> (r: Self)
        ensures
            r@ == Set::<Place>::empty(),
    {
        Origin { given: Ghost(Set::empty()), world: PhantomData }
    }
}

/// A 64-bit word that the threads of a world share.
pub struct SharedCell<W = Common> {
    word: AtomicU64,
    at: Ghost<Place>,
    initial: Ghost<u64>,
    world: PhantomData<W>,
}

/// `std::sync::atomic::AtomicU64::compare_exchange`. Of its result this claims
/// that `Ok` holds the value that was expected and `Err` another one. It panics
/// on an order of failure that is meant for stores.
#[verifier::external_body]
fn exchange_word(
    word: &AtomicU64,
    expected: u64,
    replacement: u64,
    success: MemOrder,
    failure: MemOrder,
) -> (outcome: Result<u64, u64>)
    requires
        failure is Relaxed || failure is Acquire || failure is SeqCst,
    ensures
        outcome is Ok ==> outcome->Ok_0 == expected,
        outcome is Err ==> outcome->Err_0 != expected,
{
    word.compare_exchange(expected, replacement, std_order(success), std_order(failure))
}

impl<W> SharedCell<W> {
    /// Which word this is.
    pub closed spec fn place(&self) -> Place {
        self.at@
    }

    /// The value that it was made with.
    pub closed spec fn initial(&self) -> u64 {
        self.initial@
    }

    /// The word with a label that no other cell of the origin has.
    pub(crate) fn new(value: u64, at: Ghost<Place>, origin: &mut Origin<W>) -> (r: Self)
        requires
            !old(origin)@.contains(at@),
        ensures
            r.place() == at@,
            r.initial() == value,
            final(origin)@ == old(origin)@.insert(at@),
    {
        proof {
            origin.given@ = origin.given@.insert(at@);
        }
        SharedCell { word: AtomicU64::new(value), at, initial: Ghost(value), world: PhantomData }
    }

    /// A link that leads nowhere yet.
    pub(crate) fn unlinked() -> (r: Self)
        ensures
            r.place() == Place::NextVersion,
            r.initial() == 0,
    {
        SharedCell {
            word: AtomicU64::new(0),
            at: Ghost(Place::NextVersion),
            initial: Ghost(0),
            world: PhantomData,
        }
    }

    pub fn load(&self, order: MemOrder, trace: &mut Trace<W>) -> (value: u64)
        requires
            order is Relaxed || order is Acquire || order is SeqCst,
        ensures
            final(trace)@ == old(trace)@.push(Access::Load { at: self.place(), order, value }),
    {
        let value: u64 = self.word.load(std_order(order));
        proof {
            trace.accesses@ = trace.accesses@.push(Access::Load { at: self.place(), order, value });
        }
        value
    }

    pub fn store(&self, value: u64, order: MemOrder, trace: &mut Trace<W>)
        requires
            order is Relaxed || order is Release || order is SeqCst,
        ensures
            final(trace)@ == old(trace)@.push(Access::Store { at: self.place(), order, value }),
    {
        self.word.store(value, std_order(order));
        proof {
            trace.accesses@ = trace.accesses@.push(
                Access::Store { at: self.place(), order, value },
            );
        }
    }

    pub fn fetch_add(&self, delta: u64, order: MemOrder, trace: &mut Trace<W>) -> (previous: u64)
        ensures
            final(trace)@ == old(trace)@.push(
                Access::FetchAdd { at: self.place(), order, delta, previous },
            ),
    {
        let previous: u64 = self.word.fetch_add(delta, std_order(order));
        proof {
            trace.accesses@ = trace.accesses@.push(
                Access::FetchAdd { at: self.place(), order, delta, previous },
            );
        }
        previous
    }

    pub fn fetch_sub(&self, delta: u64, order: MemOrder, trace: &mut Trace<W>) -> (previous: u64)
        ensures
            final(trace)@ == old(trace)@.push(
                Access::FetchSub { at: self.place(), order, delta, previous },
            ),
    {
        let previous: u64 = self.word.fetch_sub(delta, std_order(order));
        proof {
            trace.accesses@ = trace.accesses@.push(
                Access::FetchSub { at: self.place(), order, delta, previous },
            );
        }
        previous
    }

    pub fn fetch_max(&self, value: u64, order: MemOrder, trace: &mut Trace<W>) -> (previous: u64)
        ensures
            final(trace)@ == old(trace)@.push(
                Access::FetchMax { at: self.place(), order, value, previous },
            ),
    {
        let previous: u64 = self.word.fetch_max(value, std_order(order));
        proof {
            trace.accesses@ = trace.accesses@.push(
                Access::FetchMax { at: self.place(), order, value, previous },
            );
        }
        previous
    }

    pub fn compare_exchange(
        &self,
        expected: u64,
        replacement: u64,
        success: MemOrder,
        failure: MemOrder,
        trace: &mut Trace<W>,
    ) -> (outcome: Result<u64, u64>)
        requires
            failure is Relaxed || failure is Acquire || failure is SeqCst,
        ensures
            final(trace)@ == old(trace)@.push(
                Access::Exchange {
                    at: self.place(),
                    success,
                    failure,
                    expected,
                    replacement,
                    outcome,
                },
            ),
            outcome is Ok ==> outcome->Ok_0 == expected,
            outcome is Err ==> outcome->Err_0 != expected,
    {
        let outcome: Result<u64, u64> = exchange_word(
            &self.word,
            expected,
            replacement,
            success,
            failure,
        );
        proof {
            trace.accesses@ = trace.accesses@.push(
                Access::Exchange {
                    at: self.place(),
                    success,
                    failure,
                    expected,
                    replacement,
                    outcome,
                },
            );
        }
        outcome
    }
}

/// A load of a 32-bit word.
pub open spec fn load_of_count(at: Place, order: MemOrder, value: u32) -> Access {
    Access::Load { at, order, value: value as u64 }
}

/// An addition to a 32-bit word.
pub open spec fn addition_to_count(at: Place, order: MemOrder, delta: u32, previous: u32) -> Access {
    Access::FetchAdd { at, order, delta: delta as u64, previous: previous as u64 }
}

/// A 32-bit word that the threads of a world share.
pub struct SharedCount<W = Common> {
    word: AtomicU32,
    at: Ghost<Place>,
    initial: Ghost<u32>,
    world: PhantomData<W>,
}

impl<W> SharedCount<W> {
    /// Which word this is.
    pub closed spec fn place(&self) -> Place {
        self.at@
    }

    /// The value that it was made with.
    pub closed spec fn initial(&self) -> u32 {
        self.initial@
    }

    /// The word with a label that no other cell of the origin has.
    pub(crate) fn new(value: u32, at: Ghost<Place>, origin: &mut Origin<W>) -> (r: Self)
        requires
            !old(origin)@.contains(at@),
        ensures
            r.place() == at@,
            r.initial() == value,
            final(origin)@ == old(origin)@.insert(at@),
    {
        proof {
            origin.given@ = origin.given@.insert(at@);
        }
        SharedCount { word: AtomicU32::new(value), at, initial: Ghost(value), world: PhantomData }
    }

    pub fn load(&self, order: MemOrder, trace: &mut Trace<W>) -> (value: u32)
        requires
            order is Relaxed || order is Acquire || order is SeqCst,
        ensures
            final(trace)@ == old(trace)@.push(load_of_count(self.place(), order, value)),
    {
        let value: u32 = self.word.load(std_order(order));
        proof {
            trace.accesses@ = trace.accesses@.push(load_of_count(self.place(), order, value));
        }
        value
    }

    pub fn fetch_add(&self, delta: u32, order: MemOrder, trace: &mut Trace<W>) -> (previous: u32)
        ensures
            final(trace)@ == old(trace)@.push(
                addition_to_count(self.place(), order, delta, previous),
            ),
    {
        let previous: u32 = self.word.fetch_add(delta, std_order(order));
        proof {
            trace.accesses@ = trace.accesses@.push(
                addition_to_count(self.place(), order, delta, previous),
            );
        }
        previous
    }
}

} // verus!
