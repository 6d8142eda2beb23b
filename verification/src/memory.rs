//! What the accesses of a trace do to memory.
//!
//! An execution is a sequence of accesses, of one thread or of several that
//! take turns, each of which acts on the memory that the ones before it left
//! behind.

use crate::access::{Access, Place};
use vstd::prelude::*;

verus! {

/// The contents of all shared words.
pub type Memory = Map<Place, u64>;

/// What a word holds after `n` was put into it: counts of threads have 32 bits,
/// everything else 64.
pub open spec fn wrapped(at: Place, n: int) -> u64 {
    if at == Place::ActiveCount {
        (n % 0x1_0000_0000) as u64
    } else {
        (n % 0x1_0000_0000_0000_0000) as u64
    }
}

/// Which word an access is about.
pub open spec fn place_of(access: Access) -> Place {
    match access {
        Access::Load { at, .. } => at,
        Access::Store { at, .. } => at,
        Access::FetchAdd { at, .. } => at,
        Access::FetchSub { at, .. } => at,
        Access::FetchMax { at, .. } => at,
        Access::Exchange { at, .. } => at,
        Access::Started { .. } => Place::Clock,
        Access::Reading { .. } => Place::Clock,
    }
}

/// Whether an access may return what it did where the memory is `m`.
pub open spec fn fits(m: Memory, access: Access) -> bool {
    match access {
        Access::Load { at, value, .. } => m[at] == value,
        Access::Store { .. } => true,
        Access::FetchAdd { at, previous, .. } => m[at] == previous,
        Access::FetchSub { at, previous, .. } => m[at] == previous,
        Access::FetchMax { at, previous, .. } => m[at] == previous,
        Access::Exchange { at, expected, outcome, .. } => match outcome {
            Ok(found) => m[at] == found && found == expected,
            Err(found) => m[at] == found && found != expected,
        },
        Access::Started { .. } => true,
        Access::Reading { .. } => true,
    }
}

/// The memory after an access.
pub open spec fn after(m: Memory, access: Access) -> Memory {
    match access {
        Access::Load { .. } => m,
        Access::Store { at, value, .. } => m.insert(at, value),
        Access::FetchAdd { at, delta, previous, .. } => m.insert(
            at,
            wrapped(at, previous + delta),
        ),
        Access::FetchSub { at, delta, previous, .. } => m.insert(
            at,
            wrapped(at, previous - delta),
        ),
        Access::FetchMax { at, value, previous, .. } => m.insert(
            at,
            if value > previous {
                value
            } else {
                previous
            },
        ),
        Access::Exchange { at, replacement, outcome, .. } => match outcome {
            Ok(_) => m.insert(at, replacement),
            Err(_) => m,
        },
        Access::Started { .. } => m,
        Access::Reading { .. } => m,
    }
}

/// Whether the accesses of `t`, one after the other, fit a memory that starts
/// as `m` and that nothing else changes.
pub open spec fn executes(m: Memory, t: Seq<Access>) -> bool
    decreases t.len(),
{
    t.len() == 0 || (fits(m, t[0]) && executes(after(m, t[0]), t.skip(1)))
}

/// The memory that the accesses of `t` leave behind.
pub open spec fn memory_after(m: Memory, t: Seq<Access>) -> Memory
    decreases t.len(),
{
    if t.len() == 0 {
        m
    } else {
        memory_after(after(m, t[0]), t.skip(1))
    }
}

/// An execution may be cut at any point.
pub proof fn lemma_execution_split(m: Memory, t: Seq<Access>, i: int)
    requires
        0 <= i <= t.len(),
    ensures
        executes(m, t) <==> executes(m, t.take(i)) && executes(
            memory_after(m, t.take(i)),
            t.skip(i),
        ),
        memory_after(m, t) == memory_after(memory_after(m, t.take(i)), t.skip(i)),
    decreases i,
{
    if i == 0 {
        assert(t.take(0) == Seq::<Access>::empty());
        assert(t.skip(0) == t);
    } else {
        lemma_execution_split(after(m, t[0]), t.skip(1), i - 1);
        assert(t.take(i).skip(1) == t.skip(1).take(i - 1));
        assert(t.skip(1).skip(i - 1) == t.skip(i));
        assert(t.take(i)[0] == t[0]);
    }
}

} // verus!
