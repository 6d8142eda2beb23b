//! What a series of runs covers, and what its tables list.

use crate::binary64::Binary64;
use crate::mode;
use crate::mode::{select_gc_mode, GcMode};
use crate::params::{AF_BATCH_K, MAX_BATCH};
use crate::rounding;
use vstd::arithmetic::power2::*;
use vstd::prelude::*;

verus! {

/// The numbers of threads to run with on `cores` cores: the powers of two up to
/// that, and that.
pub open spec fn counts_for(cores: nat) -> Seq<nat> {
    let powers = Seq::new(rounding::bit_length(cores), |i: int| pow2(i as nat));
    if powers.len() == 0 || powers.last() == cores {
        powers
    } else {
        powers.push(cores)
    }
}

/// The numbers of threads to run with on `cores` cores.
pub fn thread_counts(cores: usize) -> (r: Vec<usize>)
    ensures
        r@.map_values(|n: usize| n as nat) == counts_for(cores as nat),
{
    let mut r: Vec<usize> = Vec::new();
    proof {
        rounding::lemma_bit_length(cores as nat);
        vstd::arithmetic::power2::lemma2_to64();
    }
    if cores == 0 {
        assert(r@.map_values(|n: usize| n as nat) == counts_for(0));
        return r;
    }
    let mut power: usize = 1;
    r.push(1);
    while power <= cores / 2
        invariant
            0 < power <= cores,
            r.len() > 0,
            power == pow2((r.len() - 1) as nat),
            forall|i: int| 0 <= i < r.len() ==> #[trigger] r[i] == pow2(i as nat),
        decreases cores - power,
    {
        proof {
            lemma_pow2_unfold(r.len() as nat);
        }
        power = power * 2;
        r.push(power);
    }
    let ghost powers = r@;
    proof {
        lemma_pow2_unfold(r.len() as nat);
        rounding::lemma_bit_length_unique(cores as nat, r.len() as nat);
    }
    if power != cores {
        r.push(cores);
    }
    assert(powers.map_values(|n: usize| n as nat) == Seq::new(
        rounding::bit_length(cores as nat),
        |i: int| pow2(i as nat),
    ));
    assert(r@.map_values(|n: usize| n as nat) == counts_for(cores as nat));
    r
}

/// The numbers of threads grow, and the last one uses every core.
pub proof fn counts_grow_to_all_cores(cores: nat)
    ensures
        cores > 0 ==> counts_for(cores).len() > 0 && counts_for(cores).last() == cores,
        forall|i: int, j: int|
            0 <= i < j < counts_for(cores).len() ==> #[trigger] counts_for(cores)[i]
                < #[trigger] counts_for(cores)[j],
{
    rounding::lemma_bit_length(cores);
    let counts = counts_for(cores);
    let length = rounding::bit_length(cores);
    assert forall|i: int, j: int| 0 <= i < j < counts.len() implies #[trigger] counts[i]
        < #[trigger] counts[j] by {
        lemma_pow2_strictly_increases(i as nat, length);
        if j < length {
            lemma_pow2_strictly_increases(i as nat, j as nat);
        } else if i < length - 1 {
            lemma_pow2_strictly_increases(i as nat, (length - 1) as nat);
        }
    }
}

/// The numbers of threads start at one and double, but for the last one, which is
/// no more than twice the one before it.
pub proof fn counts_double(cores: nat)
    requires
        cores > 0,
    ensures
        ({
            let counts = counts_for(cores);
            &&& counts[0] == 1
            &&& forall|i: int|
                0 <= i < counts.len() - 2 ==> counts[i + 1] == 2 * #[trigger] counts[i]
            &&& forall|i: int|
                0 <= i < counts.len() - 1 ==> counts[i + 1] <= 2 * #[trigger] counts[i]
        }),
{
    rounding::lemma_bit_length(cores);
    lemma2_to64();
    let counts = counts_for(cores);
    let length = rounding::bit_length(cores);
    assert forall|i: int| 0 <= i < counts.len() - 1 implies counts[i + 1] <= 2
        * #[trigger] counts[i] && (i < counts.len() - 2 ==> counts[i + 1] == 2 * counts[i]) by {
        lemma_pow2_unfold((i + 1) as nat);
    }
}

/// Where a run on the tree stands.
#[derive(Clone, Copy, Debug, PartialEq, Eq, Structural)]
pub enum Phase {
    /// Updates do not count yet.
    WarmUp,
    /// Updates count.
    Timed,
    /// No more updates are begun.
    Over,
}

/// The phase after `elapsed_ns` nanoseconds.
pub open spec fn phase_at(elapsed_ns: u128, warmup_ns: u64, timed_ns: u64) -> Phase {
    if elapsed_ns < warmup_ns {
        Phase::WarmUp
    } else if elapsed_ns < warmup_ns + timed_ns {
        Phase::Timed
    } else {
        Phase::Over
    }
}

/// The phase of a run that warms up for `warmup_ns` nanoseconds and is timed for
/// `timed_ns`, after `elapsed_ns`.
pub fn phase(elapsed_ns: u128, warmup_ns: u64, timed_ns: u64) -> (r: Phase)
    ensures
        r == phase_at(elapsed_ns, warmup_ns, timed_ns),
{
    if elapsed_ns < warmup_ns as u128 {
        Phase::WarmUp
    } else if elapsed_ns < warmup_ns as u128 + timed_ns as u128 {
        Phase::Timed
    } else {
        Phase::Over
    }
}

impl Phase {
    /// Whether updates are begun.
    pub fn goes_on(self) -> (r: bool)
        ensures
            r == (self != Phase::Over),
    {
        self != Phase::Over
    }

    /// Whether an update counts that is begun now. The last one may be begun
    /// when the time is just up.
    pub fn counts(self) -> (r: bool)
        ensures
            r == (self != Phase::WarmUp),
    {
        self != Phase::WarmUp
    }
}

/// A run warms up for as long as it is told to, is timed for as long as it is told
/// to after that, and is over from then on; it never goes back.
pub proof fn phases_last_as_long_as_told(
    elapsed_ns: u128,
    later_ns: u128,
    warmup_ns: u64,
    timed_ns: u64,
)
    requires
        elapsed_ns <= later_ns,
    ensures
        phase_at(elapsed_ns, warmup_ns, timed_ns) == Phase::WarmUp <==> elapsed_ns < warmup_ns,
        phase_at(elapsed_ns, warmup_ns, timed_ns) == Phase::Over <==> elapsed_ns >= warmup_ns
            + timed_ns,
        phase_at(elapsed_ns, warmup_ns, timed_ns) == Phase::Over ==> phase_at(
            later_ns,
            warmup_ns,
            timed_ns,
        ) == Phase::Over,
        phase_at(later_ns, warmup_ns, timed_ns) == Phase::WarmUp ==> phase_at(
            elapsed_ns,
            warmup_ns,
            timed_ns,
        ) == Phase::WarmUp,
{
}

/// The size of a batch in each mode.
pub open spec fn batch_in(gc_mode: GcMode) -> nat {
    match gc_mode {
        GcMode::AggressiveEbr => MAX_BATCH as nat,
        GcMode::AmortisedFree => AF_BATCH_K as nat,
        GcMode::ConservativeHold => 0,
    }
}

/// The size of a batch that a table lists for a pressure.
pub fn listed_batch(spi: Binary64) -> (k: usize)
    ensures
        k == batch_in(mode::mode_at(spi)),
{
    match select_gc_mode(spi) {
        GcMode::AggressiveEbr => MAX_BATCH as usize,
        GcMode::AmortisedFree => AF_BATCH_K,
        GcMode::ConservativeHold => 0,
    }
}

} // verus!
