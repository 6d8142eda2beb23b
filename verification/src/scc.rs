//! The coordinator that lets snapshots taken at about the same time share one
//! timestamp.
//!
//! A window is open for a while after it was opened, and every snapshot taken
//! meanwhile gets the timestamp of the window. The generation of the window is
//! even while what the window holds is complete, odd while a thread is about to
//! replace it, and zero where no window was ever opened. A thread that finds no
//! open window claims the right to open one by an exchange of the generation
//! from even to odd, writes what the window holds, and publishes it by a store
//! of the next even generation.

use crate::access;
use crate::access::{Access, Common, MemOrder, Origin, Place, SharedCell, Trace};
use crate::binary64;
use crate::binary64::Binary64;
use crate::params::{SCC_MAX_WINDOW_NS, SCC_MIN_WINDOW_NS, SCC_TARGET_P99_NS};
use vstd::prelude::*;

verus! {

/// Weight of the hit rate in the width of a window: 0.6.
pub const HIT_RATE_WEIGHT_BITS: u64 = 0x3FE3_3333_3333_3333;

/// Weight of the latency headroom in the width of a window: 0.4.
pub const HEADROOM_WEIGHT_BITS: u64 = 0x3FD9_9999_9999_999A;

/// Weight of what the smoothed latency was: 0.9.
pub const LATENCY_KEEP_BITS: u64 = 0x3FEC_CCCC_CCCC_CCCD;

/// Weight of a new latency: 0.1.
pub const LATENCY_NEW_BITS: u64 = 0x3FB9_9999_9999_999A;

/// The share of snapshots that an open window served; zero where there was none.
#[verifier::opaque]
pub open spec fn rate(hits: u64, total: u64) -> Binary64 {
    if total == 0 {
        binary64::word(0)
    } else {
        binary64::quotient(binary64::from_whole(hits as nat), binary64::from_whole(total as nat))
    }
}

/// How far the latency is below its target, as a share of the target.
pub open spec fn headroom(latency_ns: u64) -> Binary64 {
    let one = binary64::word(binary64::ONE);
    binary64::difference(
        one,
        binary64::lesser(
            binary64::quotient(
                binary64::from_whole(latency_ns as nat),
                binary64::from_whole(SCC_TARGET_P99_NS as nat),
            ),
            one,
        ),
    )
}

/// Where between the narrowest and the widest window the width lies.
pub open spec fn width_factor(hit_rate: Binary64, latency_ns: u64) -> Binary64 {
    binary64::clamped(
        binary64::sum(
            binary64::product(hit_rate, binary64::word(HIT_RATE_WEIGHT_BITS)),
            binary64::product(headroom(latency_ns), binary64::word(HEADROOM_WEIGHT_BITS)),
        ),
        binary64::word(0),
        binary64::word(binary64::ONE),
    )
}

/// The width of a new window: wider the more snapshots share one, and the more
/// latency headroom there is.
#[verifier::opaque]
pub open spec fn window_width(hit_rate: Binary64, latency_ns: u64) -> u64 {
    binary64::truncated(
        binary64::sum(
            binary64::from_whole(SCC_MIN_WINDOW_NS as nat),
            binary64::product(
                width_factor(hit_rate, latency_ns),
                binary64::from_whole((SCC_MAX_WINDOW_NS - SCC_MIN_WINDOW_NS) as nat),
            ),
        ),
    )
}

/// The smoothed latency after a new one.
pub open spec fn smoothed_latency(previous: u64, ns: u64) -> u64 {
    binary64::truncated(
        binary64::sum(
            binary64::product(
                binary64::from_whole(previous as nat),
                binary64::word(LATENCY_KEEP_BITS),
            ),
            binary64::product(
                binary64::from_whole(ns as nat),
                binary64::word(LATENCY_NEW_BITS),
            ),
        ),
    )
}

/// The generation `n` after `gen`.
pub open spec fn later(gen: u64, n: int) -> u64 {
    ((gen + n) % 0x1_0000_0000_0000_0000) as u64
}

/// Whether a window is open at `now`.
pub open spec fn open_at(now: u64, gen: u64, opened: u64, width: u64) -> bool {
    gen != 0 && (if now >= opened {
        now - opened
    } else {
        0
    }) < width
}

/// Where a thread stands in taking a snapshot. The points from `ReadTotal` to
/// `Publish` are those of a thread that has claimed the window.
pub enum Point {
    Start,
    Poll,
    ReadTs { gen: u64 },
    ReadOpened { gen: u64, ts: u64 },
    ReadWidth { gen: u64, ts: u64, opened: u64 },
    CountHit { ts: u64 },
    ReadEpoch { gen: u64 },
    Claim { gen: u64, epoch: u64 },
    ReadTotal { gen: u64, epoch: u64 },
    ReadHits { gen: u64, epoch: u64, total: u64 },
    ReadLatency { gen: u64, epoch: u64, hit_rate: Binary64 },
    SetWidth { gen: u64, epoch: u64, width: u64 },
    SetTs { gen: u64, epoch: u64 },
    SetOpened { gen: u64, epoch: u64 },
    Publish { gen: u64, epoch: u64 },
    Done { ts: u64 },
}

/// The point after an access; `None` where the access is not the one that
/// taking a snapshot makes there.
pub open spec fn next(now: u64, point: Point, access: Access) -> Option<Point> {
    match (point, access) {
        (
            Point::Start,
            Access::FetchAdd { at: Place::TotalCount, order: MemOrder::Relaxed, delta, .. },
        ) if delta == 1 => Some(Point::Poll),
        (
            Point::Poll,
            Access::Load { at: Place::WindowGen, order: MemOrder::Acquire, value },
        ) => if value % 2 == 1 {
            Some(Point::Poll)
        } else {
            Some(Point::ReadTs { gen: value })
        },
        (
            Point::ReadTs { gen },
            Access::Load { at: Place::CurrentTs, order: MemOrder::Acquire, value },
        ) => Some(Point::ReadOpened { gen, ts: value }),
        (
            Point::ReadOpened { gen, ts },
            Access::Load { at: Place::WindowOpenAt, order: MemOrder::Acquire, value },
        ) => Some(Point::ReadWidth { gen, ts, opened: value }),
        (
            Point::ReadWidth { gen, ts, opened },
            Access::Load { at: Place::AdaptiveWidth, order: MemOrder::Relaxed, value },
        ) => if open_at(now, gen, opened, value) {
            Some(Point::CountHit { ts })
        } else {
            Some(Point::ReadEpoch { gen })
        },
        (
            Point::CountHit { ts },
            Access::FetchAdd { at: Place::HitCount, order: MemOrder::Relaxed, delta, .. },
        ) if delta == 1 => Some(Point::Done { ts }),
        (
            Point::ReadEpoch { gen },
            Access::Load { at: Place::GlobalEpoch, order: MemOrder::SeqCst, value },
        ) => Some(Point::Claim { gen, epoch: value }),
        (
            Point::Claim { gen, epoch },
            Access::Exchange {
                at: Place::WindowGen,
                success: MemOrder::AcqRel,
                failure: MemOrder::Acquire,
                expected,
                replacement,
                outcome,
            },
        ) if expected == gen && replacement == later(gen, 1) => match outcome {
            Ok(_) => Some(Point::ReadTotal { gen, epoch }),
            Err(_) => Some(Point::Poll),
        },
        (
            Point::ReadTotal { gen, epoch },
            Access::Load { at: Place::TotalCount, order: MemOrder::Relaxed, value },
        ) => if value == 0 {
            Some(Point::ReadLatency { gen, epoch, hit_rate: rate(0, 0) })
        } else {
            Some(Point::ReadHits { gen, epoch, total: value })
        },
        (
            Point::ReadHits { gen, epoch, total },
            Access::Load { at: Place::HitCount, order: MemOrder::Relaxed, value },
        ) => Some(Point::ReadLatency { gen, epoch, hit_rate: rate(value, total) }),
        (
            Point::ReadLatency { gen, epoch, hit_rate },
            Access::Load { at: Place::Latency, order: MemOrder::Relaxed, value },
        ) => Some(Point::SetWidth { gen, epoch, width: window_width(hit_rate, value) }),
        (
            Point::SetWidth { gen, epoch, width },
            Access::Store { at: Place::AdaptiveWidth, order: MemOrder::Relaxed, value },
        ) if value == width => Some(Point::SetTs { gen, epoch }),
        (
            Point::SetTs { gen, epoch },
            Access::Store { at: Place::CurrentTs, order: MemOrder::Release, value },
        ) if value == epoch => Some(Point::SetOpened { gen, epoch }),
        (
            Point::SetOpened { gen, epoch },
            Access::Store { at: Place::WindowOpenAt, order: MemOrder::Release, value },
        ) if value == now => Some(Point::Publish { gen, epoch }),
        (
            Point::Publish { gen, epoch },
            Access::Store { at: Place::WindowGen, order: MemOrder::Release, value },
        ) if value == later(gen, 2) => Some(Point::Done { ts: epoch }),
        _ => None,
    }
}

/// The point that the accesses of `t` lead to; `None` where one of them is not
/// the one that taking a snapshot makes.
pub open spec fn path(now: u64, from: Point, t: Seq<Access>) -> Option<Point>
    decreases t.len(),
{
    if t.len() == 0 {
        Some(from)
    } else {
        match next(now, from, t[0]) {
            Some(point) => path(now, point, t.skip(1)),
            None => None,
        }
    }
}

/// How often the generation was loaded.
pub open spec fn polls(t: Seq<Access>) -> nat
    decreases t.len(),
{
    if t.len() == 0 {
        0
    } else {
        polls(t.skip(1)) + (match t[0] {
            Access::Load { at: Place::WindowGen, .. } => 1nat,
            _ => 0nat,
        })
    }
}

pub proof fn lemma_path_joined(now: u64, from: Point, s: Seq<Access>, t: Seq<Access>)
    ensures
        path(now, from, s + t) == (match path(now, from, s) {
            Some(point) => path(now, point, t),
            None => None,
        }),
        polls(s + t) == polls(s) + polls(t),
    decreases s.len(),
{
    if s.len() == 0 {
        assert(s + t == t);
    } else {
        assert((s + t).skip(1) == s.skip(1) + t);
        assert((s + t)[0] == s[0]);
        match next(now, from, s[0]) {
            Some(point) => lemma_path_joined(now, point, s.skip(1), t),
            None => lemma_path_joined(now, from, s.skip(1), t),
        }
    }
}

proof fn lemma_path_push(now: u64, from: Point, s: Seq<Access>, access: Access)
    ensures
        path(now, from, s.push(access)) == (match path(now, from, s) {
            Some(point) => next(now, point, access),
            None => None,
        }),
        polls(s.push(access)) == polls(s) + (match access {
            Access::Load { at: Place::WindowGen, .. } => 1nat,
            _ => 0nat,
        }),
{
    let single = seq![access];
    lemma_path_joined(now, from, s, single);
    assert(s + single == s.push(access));
    reveal_with_fuel(path, 2);
    reveal_with_fuel(polls, 2);
    assert(single.skip(1) == Seq::<Access>::empty());
}

/// The coordinator.
pub struct Scc<W = Common> {
    window_gen: SharedCell<W>,
    current_ts: SharedCell<W>,
    window_open_at: SharedCell<W>,
    hit_count: SharedCell<W>,
    total_count: SharedCell<W>,
    adaptive_w_ns: SharedCell<W>,
    p99_ns: SharedCell<W>,
}

/// The words of the coordinator.
pub open spec fn places() -> Set<Place> {
    set![
        Place::WindowGen,
        Place::CurrentTs,
        Place::WindowOpenAt,
        Place::HitCount,
        Place::TotalCount,
        Place::AdaptiveWidth,
        Place::Latency,
    ]
}

/// What taking the hit rate reads: the total, and the hits where that is not zero.
pub open spec fn rate_accesses(hits: u64, total: u64) -> Seq<Access> {
    let first = Access::Load { at: Place::TotalCount, order: MemOrder::Relaxed, value: total };
    if total == 0 {
        seq![first]
    } else {
        seq![first, Access::Load { at: Place::HitCount, order: MemOrder::Relaxed, value: hits }]
    }
}

/// The hit rate that the accesses of `rate_accesses` give.
pub open spec fn rate_read(t: Seq<Access>) -> Binary64 {
    if t.len() == 1 {
        rate(0, 0)
    } else {
        rate(t[1]->Load_value, t[0]->Load_value)
    }
}

/// Whether `t` is what taking the hit rate reads.
pub open spec fn is_rate_read(t: Seq<Access>) -> bool {
    t == rate_accesses(t[1]->Load_value, t[0]->Load_value)
}

/// Taking the hit rate leads a thread that has claimed the window on to the latency.
proof fn lemma_rate_read_path(now: u64, gen: u64, epoch: u64, t: Seq<Access>)
    requires
        is_rate_read(t),
    ensures
        path(now, Point::ReadTotal { gen, epoch }, t) == Some(
            Point::ReadLatency { gen, epoch, hit_rate: rate_read(t) },
        ),
        polls(t) == 0,
{
    let start = Point::ReadTotal { gen, epoch };
    let none = Seq::<Access>::empty();
    lemma_path_push(now, start, none, t[0]);
    if t.len() == 1 {
        assert(t == none.push(t[0]));
    } else {
        assert(t == none.push(t[0]).push(t[1]));
        lemma_path_push(now, start, none.push(t[0]), t[1]);
    }
}

impl Scc {
    pub fn new() -> (r: Self)
        ensures
            r.wf(),
            r.initially(Place::WindowGen) == 0,
            r.initially(Place::CurrentTs) == 0,
            r.initially(Place::WindowOpenAt) == 0,
            r.initially(Place::HitCount) == 0,
            r.initially(Place::TotalCount) == 0,
            r.initially(Place::AdaptiveWidth) == SCC_MIN_WINDOW_NS,
            r.initially(Place::Latency) == 0,
    {
        Scc::made_from(&mut Origin::new())
    }

    /// The width of a new window.
    pub fn compute_w(hit_rate: Binary64, p99_ns: u64) -> (width: u64)
        ensures
            width == window_width(hit_rate, p99_ns),
    {
        let zero: Binary64 = Binary64::from_bits(0);
        let one: Binary64 = Binary64::from_bits(binary64::ONE);
        let used: Binary64 = Binary64::from_u64(p99_ns).over(
            Binary64::from_u64(SCC_TARGET_P99_NS),
        );
        let headroom: Binary64 = one.minus(used.min(one));
        proof {
            reveal(window_width);
            binary64::lemma_units_order(0, binary64::ONE as nat);
        }
        let factor: Binary64 = hit_rate.times(Binary64::from_bits(HIT_RATE_WEIGHT_BITS)).plus(
            headroom.times(Binary64::from_bits(HEADROOM_WEIGHT_BITS)),
        ).clamp(zero, one);
        Binary64::from_u64(SCC_MIN_WINDOW_NS).plus(
            factor.times(Binary64::from_u64(SCC_MAX_WINDOW_NS - SCC_MIN_WINDOW_NS)),
        ).to_u64()
    }
}

impl<W> Scc<W> {
    /// Whether every word of the coordinator is labelled as what it is.
    pub closed spec fn wf(&self) -> bool {
        &&& self.window_gen.place() == Place::WindowGen
        &&& self.current_ts.place() == Place::CurrentTs
        &&& self.window_open_at.place() == Place::WindowOpenAt
        &&& self.hit_count.place() == Place::HitCount
        &&& self.total_count.place() == Place::TotalCount
        &&& self.adaptive_w_ns.place() == Place::AdaptiveWidth
        &&& self.p99_ns.place() == Place::Latency
    }

    /// What the words of the coordinator were made with.
    pub closed spec fn initially(&self, at: Place) -> u64 {
        match at {
            Place::WindowGen => self.window_gen.initial(),
            Place::CurrentTs => self.current_ts.initial(),
            Place::WindowOpenAt => self.window_open_at.initial(),
            Place::HitCount => self.hit_count.initial(),
            Place::TotalCount => self.total_count.initial(),
            Place::AdaptiveWidth => self.adaptive_w_ns.initial(),
            _ => self.p99_ns.initial(),
        }
    }

    pub(crate) fn made_from(origin: &mut Origin<W>) -> (r: Self)
        requires
            old(origin)@.disjoint(places()),
        ensures
            r.wf(),
            r.initially(Place::WindowGen) == 0,
            r.initially(Place::CurrentTs) == 0,
            r.initially(Place::WindowOpenAt) == 0,
            r.initially(Place::HitCount) == 0,
            r.initially(Place::TotalCount) == 0,
            r.initially(Place::AdaptiveWidth) == SCC_MIN_WINDOW_NS,
            r.initially(Place::Latency) == 0,
            final(origin)@ == old(origin)@.union(places()),
    {
        assert forall|at: Place| places().contains(at) implies !origin@.contains(at) by {}
        let window_gen: SharedCell<W> = SharedCell::new(0, Ghost(Place::WindowGen), origin);
        let current_ts: SharedCell<W> = SharedCell::new(0, Ghost(Place::CurrentTs), origin);
        let window_open_at: SharedCell<W> = SharedCell::new(0, Ghost(Place::WindowOpenAt), origin);
        let hit_count: SharedCell<W> = SharedCell::new(0, Ghost(Place::HitCount), origin);
        let total_count: SharedCell<W> = SharedCell::new(0, Ghost(Place::TotalCount), origin);
        let adaptive_w_ns: SharedCell<W> = SharedCell::new(
            SCC_MIN_WINDOW_NS,
            Ghost(Place::AdaptiveWidth),
            origin,
        );
        let p99_ns: SharedCell<W> = SharedCell::new(0, Ghost(Place::Latency), origin);
        assert(origin@ =~= old(origin)@.union(places()));
        Scc {
            window_gen,
            current_ts,
            window_open_at,
            hit_count,
            total_count,
            adaptive_w_ns,
            p99_ns,
        }
    }

    /// The share of snapshots that an open window served so far.
    pub fn hit_rate(&self, trace: &mut Trace<W>) -> (r: Binary64)
        requires
            self.wf(),
        ensures
            ({
                let t = access::since(old(trace)@, final(trace)@);
                &&& final(trace)@ == old(trace)@ + t
                &&& is_rate_read(t)
                &&& r == rate_read(t)
            }),
    {
        proof {
            reveal(rate);
        }
        let total: u64 = self.total_count.load(MemOrder::Relaxed, trace);
        if total == 0 {
            proof {
                let t = rate_accesses(0, 0);
                assert(access::since(old(trace)@, trace@) == t);
                assert(t == rate_accesses(t[1]->Load_value, t[0]->Load_value));
            }
            return Binary64::from_bits(0);
        }
        let hits: u64 = self.hit_count.load(MemOrder::Relaxed, trace);
        proof {
            assert(access::since(old(trace)@, trace@) == rate_accesses(hits, total));
        }
        Binary64::from_u64(hits).over(Binary64::from_u64(total))
    }

    /// One round of taking a snapshot. `None` where another thread is in the
    /// middle of opening a window, or was faster to claim it.
    fn attempt(
        &self,
        now_ns: u64,
        global_epoch: &SharedCell<W>,
        trace: &mut Trace<W>,
    ) -> (ts: Option<u64>)
        requires
            self.wf(),
            global_epoch.place() == Place::GlobalEpoch,
        ensures
            ({
                let t = access::since(old(trace)@, final(trace)@);
                &&& final(trace)@ == old(trace)@ + t
                &&& polls(t) == 1
                &&& path(now_ns, Point::Poll, t) == (match ts {
                    Some(ts) => Some(Point::Done { ts }),
                    None => Some(Point::Poll),
                })
            }),
    {
        let ghost before = trace@;
        let ghost mut t: Seq<Access> = Seq::empty();
        let gen: u64 = self.window_gen.load(MemOrder::Acquire, trace);
        proof {
            lemma_path_push(now_ns, Point::Poll, t, trace@.last());
            t = t.push(trace@.last());
            assert(trace@ == before + t);
            assert(access::since(before, trace@) == t);
        }
        if gen % 2 == 1 {
            return None;
        }
        let ts: u64 = self.current_ts.load(MemOrder::Acquire, trace);
        proof {
            lemma_path_push(now_ns, Point::Poll, t, trace@.last());
            t = t.push(trace@.last());
            assert(trace@ == before + t);
        }
        let opened_at: u64 = self.window_open_at.load(MemOrder::Acquire, trace);
        proof {
            lemma_path_push(now_ns, Point::Poll, t, trace@.last());
            t = t.push(trace@.last());
            assert(trace@ == before + t);
        }
        let width: u64 = self.adaptive_w_ns.load(MemOrder::Relaxed, trace);
        proof {
            lemma_path_push(now_ns, Point::Poll, t, trace@.last());
            t = t.push(trace@.last());
            assert(trace@ == before + t);
        }
        let open_for: u64 = if now_ns >= opened_at {
            now_ns - opened_at
        } else {
            0
        };
        if gen != 0 && open_for < width {
            let _hits: u64 = self.hit_count.fetch_add(1, MemOrder::Relaxed, trace);
            proof {
                lemma_path_push(now_ns, Point::Poll, t, trace@.last());
                t = t.push(trace@.last());
                assert(trace@ == before + t);
                assert(access::since(before, trace@) == t);
            }
            return Some(ts);
        }
        let epoch: u64 = global_epoch.load(MemOrder::SeqCst, trace);
        proof {
            lemma_path_push(now_ns, Point::Poll, t, trace@.last());
            t = t.push(trace@.last());
            assert(trace@ == before + t);
        }
        let claim: Result<u64, u64> = self.window_gen.compare_exchange(
            gen,
            gen.wrapping_add(1),
            MemOrder::AcqRel,
            MemOrder::Acquire,
            trace,
        );
        proof {
            lemma_path_push(now_ns, Point::Poll, t, trace@.last());
            t = t.push(trace@.last());
            assert(trace@ == before + t);
            assert(access::since(before, trace@) == t);
        }
        match claim {
            Ok(_) => {
                self.open_window(gen, epoch, now_ns, trace);
                proof {
                    let opening = access::since(before + t, trace@);
                    lemma_path_joined(now_ns, Point::Poll, t, opening);
                    assert(access::since(before, trace@) == t + opening);
                }
                Some(epoch)
            },
            Err(_) => None,
        }
    }

    /// Writes and publishes a new window. For the thread that has claimed it.
    fn open_window(&self, gen: u64, epoch: u64, now_ns: u64, trace: &mut Trace<W>)
        requires
            self.wf(),
        ensures
            ({
                let t = access::since(old(trace)@, final(trace)@);
                &&& final(trace)@ == old(trace)@ + t
                &&& polls(t) == 0
                &&& path(now_ns, Point::ReadTotal { gen, epoch }, t) == Some(
                    Point::Done { ts: epoch },
                )
            }),
    {
        let ghost before = trace@;
        let ghost start = Point::ReadTotal { gen, epoch };
        let hit_rate: Binary64 = self.hit_rate(trace);
        let ghost mut t: Seq<Access> = access::since(before, trace@);
        proof {
            lemma_rate_read_path(now_ns, gen, epoch, t);
        }
        let latency: u64 = self.p99_ns.load(MemOrder::Relaxed, trace);
        proof {
            lemma_path_push(now_ns, start, t, trace@.last());
            t = t.push(trace@.last());
            assert(trace@ == before + t);
        }
        let width: u64 = Scc::compute_w(hit_rate, latency);
        self.adaptive_w_ns.store(width, MemOrder::Relaxed, trace);
        proof {
            lemma_path_push(now_ns, start, t, trace@.last());
            t = t.push(trace@.last());
            assert(trace@ == before + t);
        }
        self.current_ts.store(epoch, MemOrder::Release, trace);
        proof {
            lemma_path_push(now_ns, start, t, trace@.last());
            t = t.push(trace@.last());
            assert(trace@ == before + t);
        }
        self.window_open_at.store(now_ns, MemOrder::Release, trace);
        proof {
            lemma_path_push(now_ns, start, t, trace@.last());
            t = t.push(trace@.last());
            assert(trace@ == before + t);
        }
        self.window_gen.store(gen.wrapping_add(2), MemOrder::Release, trace);
        proof {
            lemma_path_push(now_ns, start, t, trace@.last());
            t = t.push(trace@.last());
            assert(trace@ == before + t);
            assert(access::since(before, trace@) == t);
        }
    }

    /// Takes a snapshot at `now_ns`: the timestamp of the open window, or the
    /// epoch, which then becomes that of a new window. `None` only after other
    /// threads have been in the way for as many rounds as a word can count.
    pub fn take_snapshot(
        &self,
        now_ns: u64,
        global_epoch: &SharedCell<W>,
        trace: &mut Trace<W>,
    ) -> (ts: Option<u64>)
        requires
            self.wf(),
            global_epoch.place() == Place::GlobalEpoch,
        ensures
            ({
                let t = access::since(old(trace)@, final(trace)@);
                &&& final(trace)@ == old(trace)@ + t
                &&& path(now_ns, Point::Start, t) == (match ts {
                    Some(ts) => Some(Point::Done { ts }),
                    None => Some(Point::Poll),
                })
                &&& ts is None ==> polls(t) == u64::MAX
            }),
    {
        let ghost before = trace@;
        let ghost mut t: Seq<Access> = Seq::empty();
        let _total: u64 = self.total_count.fetch_add(1, MemOrder::Relaxed, trace);
        proof {
            lemma_path_push(now_ns, Point::Start, t, trace@.last());
            t = t.push(trace@.last());
            assert(trace@ == before + t);
        }
        let mut left: u64 = u64::MAX;
        while left > 0
            invariant
                self.wf(),
                global_epoch.place() == Place::GlobalEpoch,
                trace@ == before + t,
                path(now_ns, Point::Start, t) == Some(Point::Poll),
                polls(t) == u64::MAX - left,
                before == old(trace)@,
            decreases left,
        {
            let round: Option<u64> = self.attempt(now_ns, global_epoch, trace);
            proof {
                let more = access::since(before + t, trace@);
                lemma_path_joined(now_ns, Point::Start, t, more);
                t = t + more;
                assert(trace@ == before + t);
                assert(access::since(before, trace@) == t);
            }
            if round.is_some() {
                return round;
            }
            std::hint::spin_loop();
            left = left - 1;
        }
        proof {
            assert(access::since(before, trace@) == t);
        }
        None
    }

    /// Takes a new latency into the smoothed one.
    pub fn record_latency_ns(&self, ns: u64, trace: &mut Trace<W>)
        requires
            self.wf(),
        ensures
            ({
                let previous = final(trace)@[old(trace)@.len() as int]->Load_value;
                final(trace)@ == old(trace)@ + seq![
                    Access::Load { at: Place::Latency, order: MemOrder::Relaxed, value: previous },
                    Access::Store {
                        at: Place::Latency,
                        order: MemOrder::Relaxed,
                        value: smoothed_latency(previous, ns),
                    },
                ]
            }),
    {
        let previous: u64 = self.p99_ns.load(MemOrder::Relaxed, trace);
        let smoothed: u64 = Binary64::from_u64(previous).times(
            Binary64::from_bits(LATENCY_KEEP_BITS),
        ).plus(Binary64::from_u64(ns).times(Binary64::from_bits(LATENCY_NEW_BITS))).to_u64();
        self.p99_ns.store(smoothed, MemOrder::Relaxed, trace);
    }

    /// The smoothed latency.
    pub fn latency_ns(&self, trace: &mut Trace<W>) -> (ns: u64)
        requires
            self.wf(),
        ensures
            final(trace)@ == old(trace)@.push(
                Access::Load { at: Place::Latency, order: MemOrder::Relaxed, value: ns },
            ),
    {
        self.p99_ns.load(MemOrder::Relaxed, trace)
    }
}

} // verus!
