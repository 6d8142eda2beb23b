//! Reclamation around a tree that lives outside the library.
//!
//! The tree itself is called elsewhere, between the two halves of an operation:
//! the first half counts and stamps it, the second half takes the reply of the
//! tree and does the maintenance that is due. Nodes that the tree retires in
//! between are pushed into the bag of the thread.

use crate::access;
use crate::access::{Access, Common, MemOrder, Origin, Place, SharedCell};
use crate::bench;
use crate::bench::note_backlog;
use crate::binary64;
use crate::binary64::Binary64;
use crate::limbo;
use crate::local;
use crate::local::{Local, ThreadLocalState};
use crate::params::WINDOW_SIZE;
use crate::pressure_laws;
use crate::system;
use crate::system::PacerSystem;
use crate::workload;
use crate::workload::lcg;
use vstd::prelude::*;

verus! {

/// Keys of a run on the tree are drawn from zero up to this.
pub const KEY_RANGE: u64 = 20_000_000;

/// Of the 256 values of a byte, those below this draw an insertion: one half.
pub const INSERT_BYTES: u64 = 128;

/// The reclamation side of a tree.
pub struct AbtreeFFI<W = Common> {
    /// The epoch that stamps updates of the tree.
    pub epoch: SharedCell<W>,
}

/// Whether a thread went from `before` to `after` by counting an update of the
/// tree and stamping it with `ts`.
pub open spec fn begins_update<V, F, W>(
    before: Local<V, F, W>,
    after: Local<V, F, W>,
    ts: u64,
) -> bool {
    after == Local {
        win_writes: (before.win_writes + 1) as u64,
        op_counter: (before.op_counter + 1) as u64,
        trace: before.trace.push(
            Access::FetchAdd {
                at: Place::TreeEpoch,
                order: MemOrder::SeqCst,
                delta: 1,
                previous: ts,
            },
        ),
        ..before
    }
}

/// Whether a thread went from `before` to `after` by the maintenance that
/// follows an update: where it closes a window, a sample of the pressure and the
/// selection of a mode.
pub open spec fn ends_update<V, F, W>(before: Local<V, F, W>, after: Local<V, F, W>) -> bool {
    if system::window_due(before.op_counter) {
        system::reclaims(system::resampled(before), after)
    } else {
        after == before
    }
}

/// Whether nothing stops a thread from that maintenance.
pub open spec fn may_end_update<V, F, W>(t: Local<V, F, W>) -> bool {
    system::window_due(t.op_counter) ==> system::may_resample(t) && system::may_reclaim(
        system::resampled(t),
    )
}

/// Closes a window where an update is the last of one.
fn end_update<V, F, W>(sys: &PacerSystem<W>, t: &mut ThreadLocalState<V, F, W>)
    requires
        sys.wf(),
        may_end_update(old(t)@),
    ensures
        ends_update(old(t)@, final(t)@),
{
    if t.op_counter % WINDOW_SIZE == 0 {
        sys.resample_spi(t);
        let _none: usize = sys.reclaim_discrete(t);
    }
}

impl AbtreeFFI {
    pub fn new() -> (r: Self)
        ensures
            r.wf(),
            r.epoch.initial() == 1,
    {
        AbtreeFFI::made_from(&mut Origin::new())
    }
}

impl<W> AbtreeFFI<W> {
    pub open spec fn wf(&self) -> bool {
        self.epoch.place() == Place::TreeEpoch
    }

    fn made_from(origin: &mut Origin<W>) -> (r: Self)
        requires
            !old(origin)@.contains(Place::TreeEpoch),
        ensures
            r.wf(),
            r.epoch.initial() == 1,
            final(origin)@ == old(origin)@.insert(Place::TreeEpoch),
    {
        AbtreeFFI { epoch: SharedCell::new(1, Ghost(Place::TreeEpoch), origin) }
    }

    /// The epoch that a thread registers with the tree.
    pub fn register_thread<V, F>(&self, t: &mut ThreadLocalState<V, F, W>) -> (epoch: u64)
        requires
            self.wf(),
        ensures
            final(t)@ == (Local {
                trace: old(t)@.trace.push(
                    Access::Load { at: Place::TreeEpoch, order: MemOrder::SeqCst, value: epoch },
                ),
                ..old(t)@
            }),
    {
        self.epoch.load(MemOrder::SeqCst, &mut t.trace)
    }

    /// The first half of an insertion or a removal: counts it, and returns the
    /// timestamp that the tree is to stamp its nodes with.
    pub fn begin_update<V, F>(&self, t: &mut ThreadLocalState<V, F, W>) -> (ts: u64)
        requires
            self.wf(),
            old(t).win_writes < u64::MAX,
            old(t).op_counter < u64::MAX,
        ensures
            begins_update(old(t)@, final(t)@, ts),
    {
        let ts: u64 = self.epoch.fetch_add(1, MemOrder::SeqCst, &mut t.trace);
        t.win_writes = t.win_writes + 1;
        t.op_counter = t.op_counter + 1;
        ts
    }

    /// The second half of an insertion: the maintenance that is due. Returns
    /// whether the tree, which replied `reply`, did insert.
    pub fn insert<V, F>(
        &self,
        reply: i32,
        sys: &PacerSystem<W>,
        t: &mut ThreadLocalState<V, F, W>,
    ) -> (r: bool)
        requires
            sys.wf(),
            may_end_update(old(t)@),
        ensures
            r == (reply != 0),
            ends_update(old(t)@, final(t)@),
    {
        end_update(sys, t);
        reply != 0
    }

    /// The second half of a removal: the maintenance that is due. Returns
    /// whether the tree, which replied `reply`, did remove.
    pub fn remove<V, F>(
        &self,
        reply: i32,
        sys: &PacerSystem<W>,
        t: &mut ThreadLocalState<V, F, W>,
    ) -> (r: bool)
        requires
            sys.wf(),
            may_end_update(old(t)@),
        ensures
            r == (reply != 0),
            ends_update(old(t)@, final(t)@),
    {
        end_update(sys, t);
        reply != 0
    }

    /// The first half of an update whose maintenance is the business of the
    /// caller: counts it.
    pub fn begin_no_gc<V, F>(&self, t: &mut ThreadLocalState<V, F, W>)
        requires
            old(t).op_counter < u64::MAX,
        ensures
            final(t)@ == (Local { op_counter: (old(t).op_counter + 1) as u64, ..old(t)@ }),
    {
        t.op_counter = t.op_counter + 1;
    }

    /// Whether the tree, which replied `reply`, did insert.
    pub fn insert_no_gc(&self, reply: i32) -> (r: bool)
        ensures
            r == (reply != 0),
    {
        reply != 0
    }

    /// Whether the tree, which replied `reply`, did remove.
    pub fn remove_no_gc(&self, reply: i32) -> (r: bool)
        ensures
            r == (reply != 0),
    {
        reply != 0
    }

    /// Whether the tree, which replied `reply`, holds the key.
    pub fn contains(&self, reply: i32) -> (r: bool)
        ensures
            r == (reply != 0),
    {
        reply != 0
    }

    /// Does nothing: the nodes that are live are freed with the tree.
    pub fn drain(&self) {
    }
}

/// How the nodes that the tree retires are freed.
#[derive(Clone, Copy, Debug, PartialEq, Eq, Structural)]
pub enum Strat {
    /// Everything once per window.
    BatchEbr,
    /// One node per operation.
    TokenAf,
    /// The mode follows the pressure.
    PacerDiscrete,
}

/// The timestamp below which the strategies without announcements free nodes:
/// two epochs back.
pub open spec fn two_back(epoch: u64) -> u64 {
    if epoch >= 2 {
        (epoch - 2) as u64
    } else {
        0
    }
}

/// The load of the epoch of those strategies.
pub open spec fn baseline_load(epoch: u64) -> Access {
    Access::Load { at: Place::BaselineEpoch, order: MemOrder::SeqCst, value: epoch }
}

/// Whether a thread went from `before` to `after` by draining at most `k` nodes
/// from two epochs back and earlier.
pub open spec fn drains_behind<V, F, W>(
    before: Local<V, F, W>,
    after: Local<V, F, W>,
    k: nat,
) -> bool {
    let epoch = after.trace.last()->Load_value;
    after == Local {
        bag: before.bag.skip(limbo::drained(before.bag, two_back(epoch), k) as int),
        freed: before.freed + before.bag.take(
            limbo::drained(before.bag, two_back(epoch), k) as int,
        ),
        trace: before.trace.push(baseline_load(epoch)),
        ..before
    }
}

/// A drain behind the epoch frees from the front, in order, and frees no node that
/// was retired within the last two epochs. It stops only at its limit, at the end
/// of the bag, or at such a node.
pub proof fn two_epochs_are_kept<V, F, W>(before: Local<V, F, W>, after: Local<V, F, W>, k: nat)
    requires
        drains_behind(before, after, k),
    ensures
        ({
            let freed = before.bag.len() - after.bag.len();
            let epoch = after.trace.last()->Load_value;
            &&& 0 <= freed <= k
            &&& after.bag == before.bag.skip(freed)
            &&& after.freed == before.freed + before.bag.take(freed)
            &&& forall|i: int|
                0 <= i < freed ==> (#[trigger] before.bag[i]).0 + 2 < epoch
            &&& freed < k && freed < before.bag.len() ==> before.bag[freed].0 + 2 >= epoch
        }),
{
    let epoch = after.trace.last()->Load_value;
    limbo::lemma_drained(before.bag, two_back(epoch), k);
}

/// Whether a thread went from `before` to `after` without losing a node or freeing
/// one out of turn: it freed the first ones of its bag, in their order.
pub open spec fn keeps_nodes<V, F, W>(before: Local<V, F, W>, after: Local<V, F, W>) -> bool {
    &&& before.freed.len() <= after.freed.len()
    &&& after.freed + after.bag == before.freed + before.bag
}

/// What follows an update of the tree loses no node, in any strategy. In the
/// discrete one it frees none; of the other two, one frees at most one node after
/// every update, and the other frees only after every 256th.
pub proof fn an_update_loses_no_node<V, F, W>(
    strat: Strat,
    before: Local<V, F, W>,
    after: Local<V, F, W>,
    updates: u64,
)
    requires
        ends(strat, before, after, updates),
    ensures
        keeps_nodes(before, after),
        strat == Strat::PacerDiscrete ==> after.freed == before.freed,
        strat == Strat::TokenAf ==> after.freed.len() <= before.freed.len() + 1,
        strat == Strat::BatchEbr && updates % 256 != 0 ==> after.freed == before.freed,
{
    let maintained = choose|maintained: Local<V, F, W>|
        {
            &&& maintains(strat, before, maintained, updates)
            &&& #[trigger] bench::notes_peak(maintained, after)
        };
    match strat {
        Strat::PacerDiscrete => {},
        Strat::BatchEbr => if system::window_due(updates) {
            let drained = choose|drained: Local<V, F, W>|
                {
                    &&& #[trigger] drains_behind(before, drained, usize::MAX as nat)
                    &&& advances_baseline(drained, maintained)
                };
            two_epochs_are_kept(before, drained, usize::MAX as nat);
            assert(drained.freed + drained.bag == before.freed + before.bag);
        },
        Strat::TokenAf => {
            let drained = choose|drained: Local<V, F, W>|
                {
                    &&& #[trigger] drains_behind(before, drained, 1)
                    &&& if system::window_due(updates) {
                        advances_baseline(drained, maintained)
                    } else {
                        maintained == drained
                    }
                };
            two_epochs_are_kept(before, drained, 1);
            assert(drained.freed + drained.bag == before.freed + before.bag);
        },
    }
}

/// The accesses of an attempt to advance the epoch of those strategies.
pub open spec fn baseline_advance(epoch: u64, outcome: Result<u64, u64>) -> Seq<Access> {
    seq![
        baseline_load(epoch),
        Access::Exchange {
            at: Place::BaselineEpoch,
            success: MemOrder::SeqCst,
            failure: MemOrder::Relaxed,
            expected: epoch,
            replacement: system::next_epoch(epoch),
            outcome,
        },
    ]
}

/// Whether a thread went from `before` to `after` by an attempt to advance that
/// epoch.
pub open spec fn advances_baseline<V, F, W>(before: Local<V, F, W>, after: Local<V, F, W>) -> bool {
    let t = access::since(before.trace, after.trace);
    &&& t == baseline_advance(t[0]->Load_value, t[1]->outcome)
    &&& after == Local { trace: before.trace + t, ..before }
}

/// What the threads of a run on the tree share.
pub struct TreeShared<W = Common> {
    pub tree: AbtreeFFI<W>,
    pub system: PacerSystem<W>,
    pub baseline_epoch: SharedCell<W>,
    pub total_ops: SharedCell<W>,
    pub peak_limbo: SharedCell<W>,
}

impl TreeShared {
    pub fn new() -> (r: Self)
        ensures
            r.wf(),
            r.tree.epoch.initial() == 1,
            r.system.as_made(),
            r.baseline_epoch.initial() == 1,
            r.total_ops.initial() == 0,
            r.peak_limbo.initial() == 0,
    {
        TreeShared::made_from(&mut Origin::new())
    }
}

impl<W> TreeShared<W> {
    /// Whether every word is labelled as what it is.
    pub open spec fn wf(&self) -> bool {
        &&& self.tree.wf()
        &&& self.system.wf()
        &&& self.baseline_epoch.place() == Place::BaselineEpoch
        &&& self.total_ops.place() == Place::TotalOps
        &&& self.peak_limbo.place() == Place::PeakLimbo
    }

    fn made_from(origin: &mut Origin<W>) -> (r: Self)
        requires
            old(origin)@ == Set::<Place>::empty(),
        ensures
            r.wf(),
            r.tree.epoch.initial() == 1,
            r.system.as_made(),
            r.baseline_epoch.initial() == 1,
            r.total_ops.initial() == 0,
            r.peak_limbo.initial() == 0,
    {
        let tree: AbtreeFFI<W> = AbtreeFFI::made_from(origin);
        let system: PacerSystem<W> = PacerSystem::made_from(origin);
        let baseline_epoch: SharedCell<W> = SharedCell::new(1, Ghost(Place::BaselineEpoch), origin);
        let total_ops: SharedCell<W> = SharedCell::new(0, Ghost(Place::TotalOps), origin);
        let peak_limbo: SharedCell<W> = SharedCell::new(0, Ghost(Place::PeakLimbo), origin);
        TreeShared { tree, system, baseline_epoch, total_ops, peak_limbo }
    }

    /// Frees at most `k` nodes from two epochs back and earlier.
    fn drain_behind<V, F>(&self, t: &mut ThreadLocalState<V, F, W>, k: usize)
        requires
            self.wf(),
        ensures
            drains_behind(old(t)@, final(t)@, k as nat),
    {
        let epoch: u64 = self.baseline_epoch.load(MemOrder::SeqCst, &mut t.trace);
        let safe_ts: u64 = if epoch >= 2 {
            epoch - 2
        } else {
            0
        };
        let _freed: usize = t.limbo_bag.drain(safe_ts, k);
    }

    /// Tries to advance the epoch of the strategies without announcements.
    fn advance_baseline<V, F>(&self, t: &mut ThreadLocalState<V, F, W>)
        requires
            self.wf(),
        ensures
            advances_baseline(old(t)@, final(t)@),
    {
        let epoch: u64 = self.baseline_epoch.load(MemOrder::SeqCst, &mut t.trace);
        let _outcome: Result<u64, u64> = self.baseline_epoch.compare_exchange(
            epoch,
            epoch.wrapping_add(1),
            MemOrder::SeqCst,
            MemOrder::Relaxed,
            &mut t.trace,
        );
        proof {
            let advance = baseline_advance(epoch, _outcome);
            assert(access::since(old(t)@.trace, t@.trace) == advance);
            assert(t@.trace == old(t)@.trace + advance);
        }
    }
}

/// Whether a thread went from `before` to `after` by the first half of an
/// update, `ts` being the timestamp that the tree is given.
pub open spec fn begins<V, F, W>(
    strat: Strat,
    before: Local<V, F, W>,
    after: Local<V, F, W>,
    ts: u64,
) -> bool {
    if strat == Strat::PacerDiscrete {
        begins_update(before, after, ts)
    } else {
        after == Local {
            op_counter: (before.op_counter + 1) as u64,
            trace: before.trace.push(
                Access::FetchAdd {
                    at: Place::BaselineEpoch,
                    order: MemOrder::SeqCst,
                    delta: 1,
                    previous: ts,
                },
            ),
            ..before
        }
    }
}

/// Whether a thread went from `before` to `after` by the maintenance that
/// follows its update number `updates`, as the strategy has it.
pub open spec fn maintains<V, F, W>(
    strat: Strat,
    before: Local<V, F, W>,
    after: Local<V, F, W>,
    updates: u64,
) -> bool {
    match strat {
        Strat::PacerDiscrete => ends_update(before, after),
        Strat::BatchEbr => if system::window_due(updates) {
            exists|drained: Local<V, F, W>|
                {
                    &&& #[trigger] drains_behind(before, drained, usize::MAX as nat)
                    &&& advances_baseline(drained, after)
                }
        } else {
            after == before
        },
        Strat::TokenAf => exists|drained: Local<V, F, W>|
            {
                &&& #[trigger] drains_behind(before, drained, 1)
                &&& if system::window_due(updates) {
                    advances_baseline(drained, after)
                } else {
                    after == drained
                }
            },
    }
}

/// Whether a thread went from `before` to `after` by the second half of its
/// update number `updates`: the maintenance, and a note of the backlog.
pub open spec fn ends<V, F, W>(
    strat: Strat,
    before: Local<V, F, W>,
    after: Local<V, F, W>,
    updates: u64,
) -> bool {
    exists|maintained: Local<V, F, W>|
        {
            &&& maintains(strat, before, maintained, updates)
            &&& #[trigger] bench::notes_peak(maintained, after)
        }
}

/// One thread of a run on the tree.
pub struct TreeWorker<F, W = Common> {
    pub strat: Strat,
    pub rng: u64,
    /// Updates that count for the result.
    pub local: u64,
    /// Updates in all.
    pub updates: u64,
    pub state: ThreadLocalState<u64, F, W>,
}

impl<F> TreeWorker<F> {
    /// Worker `index` of a run, in slot `tid`.
    pub fn new(strat: Strat, index: usize, tid: usize) -> (r: Self)
        ensures
            r.strat == strat,
            r.rng == ((index * 2654435761) % 0x1_0000_0000_0000_0000) as u64
                ^ 0xdead_beef_0000_0000,
            r.local == 0,
            r.updates == 0,
            r.state@ == local::fresh::<u64, F, Common>(tid),
            r.fit(),
    {
        proof {
            pressure_laws::lemma_one();
        }
        let spread: u64 = (index as u64).wrapping_mul(2654435761);
        TreeWorker {
            strat,
            rng: spread ^ 0xdead_beef_0000_0000,
            local: 0,
            updates: 0,
            state: ThreadLocalState::new(tid),
        }
    }
}

impl<F, W> TreeWorker<F, W> {
    /// Whether the counters of the worker have room for one more update, and its
    /// pressure is a share.
    pub open spec fn fit(&self) -> bool {
        &&& self.local < u64::MAX
        &&& self.updates < u64::MAX
        &&& self.state.win_writes + self.state.win_snaps < u64::MAX - 1
        &&& self.state.op_counter < u64::MAX
        &&& pressure_laws::in_unit_range(self.state.spi_ema)
    }

    /// Whether this is the worker `before` after one more update: its draw, its
    /// first half, the call of the tree, which may retire nodes, and its second
    /// half.
    pub open spec fn follows(&self, before: TreeWorker<F, W>, counting: bool) -> bool {
        &&& exists|began: Local<u64, F, W>, called: Local<u64, F, W>, ts: u64|
            {
                &&& #[trigger] begins(before.strat, before.state@, began, ts)
                &&& called == Local { bag: called.bag, ..began }
                &&& began.bag.is_prefix_of(called.bag)
                &&& #[trigger] ends(before.strat, called, self.state@, self.updates)
            }
        &&& self.strat == before.strat
        &&& self.rng == workload::next_draw(workload::next_draw(before.rng))
        &&& self.updates == before.updates + 1
        &&& self.local == before.local + (if counting {
            1int
        } else {
            0
        })
    }

    /// Tells whether the worker can perform one more update.
    pub fn can_step(&self) -> (r: bool)
        ensures
            r == self.fit(),
    {
        let zero: Binary64 = Binary64::from_bits(0);
        let one: Binary64 = Binary64::from_bits(binary64::ONE);
        proof {
            pressure_laws::lemma_one();
        }
        self.local < u64::MAX && self.updates < u64::MAX && self.state.win_writes < u64::MAX - 1
            && self.state.win_snaps < u64::MAX - 1 - self.state.win_writes && self.state.op_counter
            < u64::MAX && zero.is_at_most(self.state.spi_ema) && self.state.spi_ema.is_at_most(one)
    }

    /// Draws the next update: its key, and whether it is an insertion.
    pub fn draw(&mut self) -> (op: (u64, bool))
        ensures
            ({
                let first = workload::next_draw(old(self).rng);
                let second = workload::next_draw(first);
                &&& op.0 == first % KEY_RANGE
                &&& op.1 == (second % 0x100 < INSERT_BYTES)
                &&& *final(self) == (TreeWorker { rng: second, ..*old(self) })
            }),
    {
        let key: u64 = lcg(&mut self.rng) % KEY_RANGE;
        let insertion: bool = lcg(&mut self.rng) % 0x100 < INSERT_BYTES;
        (key, insertion)
    }

    /// The first half of an update. Returns the timestamp that the tree is to
    /// stamp its nodes with.
    pub fn begin(&mut self, shared: &TreeShared<W>) -> (ts: u64)
        requires
            shared.wf(),
            old(self).fit(),
        ensures
            begins(old(self).strat, old(self).state@, final(self).state@, ts),
            final(self).strat == old(self).strat,
            final(self).rng == old(self).rng,
            final(self).local == old(self).local,
            final(self).updates == old(self).updates,
    {
        if let Strat::PacerDiscrete = self.strat {
            shared.tree.begin_update(&mut self.state)
        } else {
            let ts: u64 = shared.baseline_epoch.fetch_add(
                1,
                MemOrder::SeqCst,
                &mut self.state.trace,
            );
            shared.tree.begin_no_gc(&mut self.state);
            ts
        }
    }

    /// The second half of an update to which the tree replied `reply`: the
    /// maintenance, a count where `counting`, and a note of the backlog. Returns
    /// whether the update took effect.
    pub fn end(
        &mut self,
        shared: &TreeShared<W>,
        insertion: bool,
        reply: i32,
        counting: bool,
    ) -> (r: bool)
        requires
            shared.wf(),
            old(self).local < u64::MAX,
            old(self).updates < u64::MAX,
            old(self).state.win_writes + old(self).state.win_snaps < u64::MAX,
            pressure_laws::in_unit_range(old(self).state.spi_ema),
        ensures
            r == (reply != 0),
            final(self).updates == old(self).updates + 1,
            final(self).local == old(self).local + (if counting {
                1int
            } else {
                0
            }),
            ends(old(self).strat, old(self).state@, final(self).state@, final(self).updates),
            final(self).strat == old(self).strat,
            final(self).rng == old(self).rng,
    {
        proof {
            pressure_laws::windows_can_be_closed(old(self).state@);
        }
        self.updates = self.updates + 1;
        let done: bool = match self.strat {
            Strat::PacerDiscrete => if insertion {
                shared.tree.insert(reply, &shared.system, &mut self.state)
            } else {
                shared.tree.remove(reply, &shared.system, &mut self.state)
            },
            _ => if insertion {
                shared.tree.insert_no_gc(reply)
            } else {
                shared.tree.remove_no_gc(reply)
            },
        };
        match self.strat {
            Strat::PacerDiscrete => {},
            Strat::BatchEbr => {
                if self.updates % WINDOW_SIZE == 0 {
                    shared.drain_behind(&mut self.state, usize::MAX);
                    let ghost drained = self.state@;
                    shared.advance_baseline(&mut self.state);
                    assert(drains_behind(old(self).state@, drained, usize::MAX as nat));
                }
            },
            Strat::TokenAf => {
                shared.drain_behind(&mut self.state, 1);
                let ghost drained = self.state@;
                if self.updates % WINDOW_SIZE == 0 {
                    shared.advance_baseline(&mut self.state);
                }
                assert(drains_behind(old(self).state@, drained, 1));
            },
        }
        let ghost maintained = self.state@;
        assert(maintains(self.strat, old(self).state@, maintained, self.updates));
        if counting {
            self.local = self.local + 1;
        }
        note_backlog(&shared.peak_limbo, &mut self.state);
        assert(bench::notes_peak(maintained, self.state@));
        done
    }

    /// Frees what the worker has left, and adds its updates to those of the run.
    pub fn finish(&mut self, shared: &TreeShared<W>)
        requires
            shared.wf(),
        ensures
            ({
                let before = old(self).state@;
                let previous = final(self).state@.trace.last()->FetchAdd_previous;
                final(self).state@ == (Local {
                    bag: before.bag.skip(
                        limbo::drained(before.bag, u64::MAX, usize::MAX as nat) as int,
                    ),
                    freed: before.freed + before.bag.take(
                        limbo::drained(before.bag, u64::MAX, usize::MAX as nat) as int,
                    ),
                    trace: before.trace.push(bench::tally(old(self).local, previous)),
                    ..before
                })
            }),
            final(self).strat == old(self).strat,
            final(self).rng == old(self).rng,
            final(self).local == old(self).local,
            final(self).updates == old(self).updates,
    {
        let _freed: usize = self.state.limbo_bag.drain(u64::MAX, usize::MAX);
        let _previous: u64 = shared.total_ops.fetch_add(
            self.local,
            MemOrder::Relaxed,
            &mut self.state.trace,
        );
    }
}

/// An update of the tree is counted once, and stamped with the epoch that its
/// strategy goes by, which moves on by one: that of the tree in the discrete
/// strategy, whose updates count as writes of the window too, and a separate one
/// in the others.
pub proof fn an_update_is_counted_and_stamped<V, F, W>(
    strat: Strat,
    before: Local<V, F, W>,
    began: Local<V, F, W>,
    ts: u64,
)
    requires
        begins(strat, before, began, ts),
        before.op_counter < u64::MAX,
        before.win_writes < u64::MAX,
    ensures
        began.op_counter == before.op_counter + 1,
        began.win_writes == before.win_writes + (if strat == Strat::PacerDiscrete {
            1int
        } else {
            0
        }),
        began.trace == before.trace.push(
            Access::FetchAdd {
                at: if strat == Strat::PacerDiscrete {
                    Place::TreeEpoch
                } else {
                    Place::BaselineEpoch
                },
                order: MemOrder::SeqCst,
                delta: 1,
                previous: ts,
            },
        ),
        began.bag == before.bag,
        began.freed == before.freed,
        began.win_snaps == before.win_snaps,
        began.spi_ema == before.spi_ema,
        began.gc_mode == before.gc_mode,
{
}

} // verus!
