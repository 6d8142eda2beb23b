//! Retired nodes that wait to be freed.

use crate::access::{Common, Place, SharedCell};
use crate::freed::Freed;
use std::collections::VecDeque;
use std::mem::ManuallyDrop;
use vstd::prelude::*;

verus! {

/// One version of a value.
pub struct VersionNode<V, W = Common> {
    pub value: V,
    /// Epoch in which the version was written.
    pub birth_ts: u64,
    /// The next older version; zero where there is none.
    pub next: SharedCell<W>,
}

impl<V, W> VersionNode<V, W> {
    pub fn new(value: V, birth_ts: u64) -> (r: Box<Self>)
        ensures
            r.value == value,
            r.birth_ts == birth_ts,
            r.next.place() == Place::NextVersion,
            r.next.initial() == 0,
    {
        Box::new(VersionNode { value, birth_ts, next: SharedCell::unlinked() })
    }
}

/// A retired node: one of the library's own, or one that another allocator
/// owns. `LimboBag::drain` frees either by dropping it, so a node cannot reach
/// the wrong allocator.
pub enum Retired<V, F, W = Common> {
    Owned(Box<VersionNode<V, W>>),
    Foreign(F),
}

/// Retired nodes with the timestamp of each, in the order of retirement.
///
/// Nodes are freed by `drain` and by nothing else. A bag that is dropped leaks
/// those that it still holds: a snapshot may yet reach them.
pub struct LimboBag<V, F = (), W = Common> {
    q: VecDeque<(u64, ManuallyDrop<Retired<V, F, W>>)>,
    freed: Freed<(u64, Retired<V, F, W>)>,
}

impl<V, F, W> View for LimboBag<V, F, W> {
    type V = Seq<(u64, Retired<V, F, W>)>;

    closed spec fn view(&self) -> Seq<(u64, Retired<V, F, W>)> {
        self.q@.map_values(|entry: (u64, ManuallyDrop<Retired<V, F, W>>)| (entry.0, entry.1@))
    }
}

/// How many nodes stand before the first one that is not older than `safe_ts`.
pub open spec fn eligible<N>(bag: Seq<(u64, N)>, safe_ts: u64) -> nat
    decreases bag.len(),
{
    if bag.len() == 0 || bag[0].0 >= safe_ts {
        0
    } else {
        1 + eligible(bag.skip(1), safe_ts)
    }
}

/// How many nodes a drain of at most `k` frees.
pub open spec fn drained<N>(bag: Seq<(u64, N)>, safe_ts: u64, k: nat) -> nat {
    let n = eligible(bag, safe_ts);
    if n <= k {
        n
    } else {
        k
    }
}

/// The nodes that a drain frees are older than `safe_ts`, and it stops only at
/// its limit, at the end, or at a node that is not.
pub proof fn lemma_drained<N>(bag: Seq<(u64, N)>, safe_ts: u64, k: nat)
    ensures
        ({
            let n = drained(bag, safe_ts, k);
            &&& n <= k
            &&& n <= bag.len()
            &&& forall|i: int| 0 <= i < n ==> (#[trigger] bag[i]).0 < safe_ts
            &&& n < k && n < bag.len() ==> bag[n as int].0 >= safe_ts
        }),
    decreases bag.len(),
{
    if bag.len() > 0 && bag[0].0 < safe_ts {
        let rest = bag.skip(1);
        if k > 0 {
            lemma_drained(rest, safe_ts, (k - 1) as nat);
        }
        let n = drained(bag, safe_ts, k);
        assert forall|i: int| 0 <= i < n implies (#[trigger] bag[i]).0 < safe_ts by {
            if i > 0 {
                assert(rest[i - 1] == bag[i]);
            }
        }
        if 0 < n < bag.len() {
            assert(rest[n - 1] == bag[n as int]);
        }
    }
}

/// Draining in two steps frees what one drain of both limits frees.
pub proof fn drain_in_steps<N>(bag: Seq<(u64, N)>, safe_ts: u64, j: nat, k: nat)
    ensures
        ({
            let first = drained(bag, safe_ts, j);
            drained(bag, safe_ts, j + k) == first + drained(bag.skip(first as int), safe_ts, k)
        }),
    decreases j,
{
    if j > 0 && bag.len() > 0 && bag[0].0 < safe_ts {
        let first = drained(bag, safe_ts, j);
        drain_in_steps(bag.skip(1), safe_ts, (j - 1) as nat, k);
        lemma_drained(bag, safe_ts, j);
        assert(bag.skip(1).skip(first - 1) == bag.skip(first as int));
    } else {
        assert(bag.skip(0) == bag);
    }
}

/// With no announced snapshot, every node older than the largest timestamp is
/// eligible: a drain frees as many nodes as its limit and the bag allow.
pub proof fn lemma_drained_unpinned<N>(bag: Seq<(u64, N)>, k: nat)
    requires
        forall|i: int| 0 <= i < bag.len() ==> (#[trigger] bag[i]).0 < u64::MAX,
    ensures
        drained(bag, u64::MAX, k) == (if bag.len() <= k {
            bag.len()
        } else {
            k
        }),
{
    lemma_drained(bag, u64::MAX, k);
}

/// Whether a bag went from `before` to `after` by a drain that freed `freed` nodes:
/// these left it, the oldest first, and were freed in that order.
pub open spec fn drains_bag<V, F, W>(
    before: LimboBag<V, F, W>,
    after: LimboBag<V, F, W>,
    safe_ts: u64,
    k: nat,
    freed: nat,
) -> bool {
    &&& freed == drained(before@, safe_ts, k)
    &&& after@ == before@.skip(freed as int)
    &&& after.freed() == before.freed() + before@.take(freed as int)
}

/// A drain frees every node that leaves the bag, once and in order, and no other:
/// what was freed so far and what is still in the bag are together what they were
/// before. It frees as many nodes as it says. All of them are older than the safe
/// timestamp, and it stops only at its limit, at the end of the bag, or at a node
/// that is not.
pub proof fn drained_nodes_are_freed_once<V, F, W>(
    before: LimboBag<V, F, W>,
    after: LimboBag<V, F, W>,
    safe_ts: u64,
    k: nat,
    freed: nat,
)
    requires
        drains_bag(before, after, safe_ts, k, freed),
    ensures
        after.freed() + after@ == before.freed() + before@,
        after.freed().len() == before.freed().len() + freed,
        forall|i: int|
            before.freed().len() <= i < after.freed().len() ==> (#[trigger] after.freed()[i]).0
                < safe_ts,
        freed <= k,
        freed < k && after@.len() > 0 ==> after@[0].0 >= safe_ts,
{
    lemma_drained(before@, safe_ts, k);
    assert(after.freed() + after@ == before.freed() + before@);
    assert forall|i: int| before.freed().len() <= i < after.freed().len() implies (
    #[trigger] after.freed()[i]).0 < safe_ts by {
        assert(after.freed()[i] == before@[i - before.freed().len()]);
    }
}

impl<V, F, W> LimboBag<V, F, W> {
    /// The nodes that were freed out of the bag, with the timestamp of each.
    pub closed spec fn freed(&self) -> Seq<(u64, Retired<V, F, W>)> {
        self.freed@
    }

    pub fn new() -> (r: Self)
        ensures
            r@ == Seq::<(u64, Retired<V, F, W>)>::empty(),
            r.freed() == Seq::<(u64, Retired<V, F, W>)>::empty(),
    {
        LimboBag { q: VecDeque::new(), freed: Freed::new() }
    }

    /// Takes in a node of the library's own.
    pub fn push(&mut self, birth_ts: u64, node: Box<VersionNode<V, W>>)
        ensures
            final(self)@ == old(self)@.push((birth_ts, Retired::Owned(node))),
            final(self).freed() == old(self).freed(),
    {
        self.q.push_back((birth_ts, ManuallyDrop::new(Retired::Owned(node))));
    }

    /// Takes in a node that another allocator owns. Dropping `node` must give
    /// it back to that allocator.
    pub fn push_raw(&mut self, birth_ts: u64, node: F)
        ensures
            final(self)@ == old(self)@.push((birth_ts, Retired::Foreign(node))),
            final(self).freed() == old(self).freed(),
    {
        self.q.push_back((birth_ts, ManuallyDrop::new(Retired::Foreign(node))));
    }

    /// Frees at most `k` nodes, oldest retirement first, and stops at the first
    /// one that is not older than `safe_ts`. Returns how many were freed. Nodes
    /// behind those are not looked at.
    pub fn drain(&mut self, safe_ts: u64, k: usize) -> (freed: usize)
        ensures
            drains_bag(*old(self), *final(self), safe_ts, k as nat, freed as nat),
            freed == drained(old(self)@, safe_ts, k as nat),
            final(self)@ == old(self)@.skip(freed as int),
            final(self).freed() == old(self).freed() + old(self)@.take(freed as int),
            freed <= k,
            freed <= old(self)@.len(),
            forall|i: int| 0 <= i < freed ==> (#[trigger] old(self)@[i]).0 < safe_ts,
            freed < k && freed < old(self)@.len() ==> old(self)@[freed as int].0 >= safe_ts,
    {
        proof {
            lemma_drained(old(self)@, safe_ts, k as nat);
        }
        let mut freed: usize = 0;
        assert(self.freed() == old(self).freed() + old(self)@.take(0));
        while freed < k && self.q.len() > 0 && self.q[0].0 < safe_ts
            invariant
                freed <= k,
                freed <= old(self)@.len(),
                self@ == old(self)@.skip(freed as int),
                self.freed() == old(self).freed() + old(self)@.take(freed as int),
                eligible(old(self)@, safe_ts) == freed + eligible(self@, safe_ts),
            decreases k - freed,
        {
            let ghost before = self@;
            assert(before[0].0 == self.q@[0].0);
            if let Some((ts, node)) = self.q.pop_front() {
                self.freed.free((ts, ManuallyDrop::into_inner(node)));
            }
            freed = freed + 1;
            assert(old(self)@.take(freed as int) == old(self)@.take(freed - 1).push(before[0]));
            assert(self@ == before.skip(1));
            assert(self@ == old(self)@.skip(freed as int));
        }
        freed
    }

    pub fn len(&self) -> (r: usize)
        ensures
            r == self@.len(),
    {
        self.q.len()
    }
}

} // verus!
