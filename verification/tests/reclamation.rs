//! Pressure, modes, snapshots, announcements and the write path.

use pacer::access::MemOrder;
use pacer::binary64::Binary64;
use pacer::params::{
    AF_BATCH_K, AGGRESSIVE_DRAIN_PER_OP, BASE_RETRY_MS, BASE_STRIDE, CONTINUOUS_DRAIN_PER_OP,
    HOLD_LIMIT, MAX_BATCH, MAX_RETRY_MS, MAX_THREADS, MIN_BATCH, SCC_MAX_WINDOW_NS,
    SCC_MIN_WINDOW_NS, SCC_TARGET_P99_NS, WINDOW_SIZE,
};
use pacer::{
    select_gc_mode, select_gc_mode_with_hysteresis, AnnouncementTable, GcMode, LimboBag,
    PacerSystem, Scc, ThreadLocalState, Trace, VersionNode,
};
use std::cell::Cell;
use std::rc::Rc;

fn number(x: f64) -> Binary64 {
    Binary64::from_bits(x.to_bits())
}

fn float(x: Binary64) -> f64 {
    f64::from_bits(x.bits)
}

fn sys() -> PacerSystem {
    PacerSystem::new()
}

fn thr(s: &PacerSystem) -> ThreadLocalState<u64> {
    let tid = s.register_thread(&mut Trace::new()).unwrap();
    ThreadLocalState::new(tid)
}

fn write(s: &PacerSystem, t: &mut ThreadLocalState<u64>, value: u64) -> usize {
    let (n, ts) = s.write_op_prepare(t, value);
    s.post_write(t, n, ts)
}

#[test]
fn spi_zero_no_snaps() {
    let s = sys();
    let mut t = thr(&s);
    t.win_writes = 100;
    s.resample_spi(&mut t);
    assert!(float(t.spi_ema) < 0.02);
}

#[test]
fn spi_high_all_snaps() {
    let s = sys();
    let mut t = thr(&s);
    for _ in 0..10 {
        t.win_snaps = 100;
        t.win_writes = 0;
        s.resample_spi(&mut t);
    }
    assert!(float(t.spi_ema) > 0.70, "spi_ema={}", float(t.spi_ema));
}

#[test]
fn spi_resets_window() {
    let s = sys();
    let mut t = thr(&s);
    t.win_writes = 50;
    t.win_snaps = 50;
    s.resample_spi(&mut t);
    assert_eq!(t.win_writes, 0);
    assert_eq!(t.win_snaps, 0);
}

#[test]
fn spi_follows_the_formula_and_is_published() {
    let s = sys();
    let mut t = thr(&s);
    let mut trace = Trace::new();
    let mut ema = 0.0_f64;
    for (writes, snaps) in [(50_u64, 50_u64), (256, 0), (1, 255), (0, 7), (200, 56)] {
        t.win_writes = writes;
        t.win_snaps = snaps;
        s.resample_spi(&mut t);
        let share = snaps as f64 / (writes + snaps + 1) as f64;
        let next = ema * (1.0 - 0.15) + share * 0.15;
        assert_eq!(float(t.spi_ema), next);
        assert_eq!(float(s.load_spi(&mut trace)), next);
        assert_eq!(float(s.load_delta_spi(&mut trace)), next - ema);
        ema = next;
    }
}

#[test]
fn an_empty_window_changes_nothing() {
    let s = sys();
    let mut t = thr(&s);
    t.spi_ema = number(0.5);
    s.resample_spi(&mut t);
    assert_eq!(float(t.spi_ema), 0.5);
    assert_eq!(float(s.load_spi(&mut Trace::new())), 0.0);
    assert_eq!(float(s.load_delta_spi(&mut Trace::new())), 0.0);
}

#[test]
fn pressure_is_a_share_after_any_window() {
    let s = sys();
    let mut t = thr(&s);
    t.spi_ema = number(1.0);
    for (writes, snaps) in [(0_u64, u64::MAX - 1), (0, 1), (u64::MAX - 1, 0), (3, 0), (1 << 60, 1 << 60)] {
        t.win_writes = writes;
        t.win_snaps = snaps;
        s.resample_spi(&mut t);
        let spi = float(t.spi_ema);
        assert!((0.0..=1.0).contains(&spi));
    }
}

#[test]
fn gc_modes() {
    assert_eq!(select_gc_mode(number(0.00)), GcMode::AggressiveEbr);
    assert_eq!(select_gc_mode(number(0.30)), GcMode::AggressiveEbr);
    assert_eq!(select_gc_mode(number(0.31)), GcMode::AmortisedFree);
    assert_eq!(select_gc_mode(number(0.60)), GcMode::AmortisedFree);
    assert_eq!(select_gc_mode(number(0.61)), GcMode::ConservativeHold);
    assert_eq!(select_gc_mode(number(1.00)), GcMode::ConservativeHold);
}

#[test]
fn gc_mode_hysteresis_suppresses_flapping() {
    let samples = [0.32, 0.28, 0.33, 0.27, 0.31, 0.29, 0.34, 0.26];
    assert!(
        samples.iter().any(|&s| select_gc_mode(number(s)) != select_gc_mode(number(samples[0]))),
        "test fixture should actually straddle the boundary"
    );

    let mut mode = GcMode::AggressiveEbr;
    let mut flips = 0;
    for &spi in &samples {
        let next = select_gc_mode_with_hysteresis(number(spi), mode);
        if next != mode {
            flips += 1;
        }
        mode = next;
    }
    assert_eq!(flips, 0, "oscillation within the dead-band should never change mode");

    let mut mode = GcMode::AggressiveEbr;
    for _ in 0..3 {
        mode = select_gc_mode_with_hysteresis(number(0.90), mode);
    }
    assert_eq!(mode, GcMode::ConservativeHold);
}

#[test]
fn the_dead_band_has_the_right_edges() {
    let up_low = 0.30 + 0.05;
    let up_high = 0.60 + 0.05;
    let down_low = 0.30 - 0.05;
    let down_high = 0.60 - 0.05;
    let above = |x: f64| f64::from_bits(x.to_bits() + 1);
    let below = |x: f64| f64::from_bits(x.to_bits() - 1);
    let next = |spi: f64, prev: GcMode| select_gc_mode_with_hysteresis(number(spi), prev);
    assert_eq!(next(up_low, GcMode::AggressiveEbr), GcMode::AggressiveEbr);
    assert_eq!(next(above(up_low), GcMode::AggressiveEbr), GcMode::AmortisedFree);
    assert_eq!(next(up_high, GcMode::AggressiveEbr), GcMode::AmortisedFree);
    assert_eq!(next(above(up_high), GcMode::AggressiveEbr), GcMode::ConservativeHold);
    assert_eq!(next(below(down_low), GcMode::AmortisedFree), GcMode::AggressiveEbr);
    assert_eq!(next(down_low, GcMode::AmortisedFree), GcMode::AmortisedFree);
    assert_eq!(next(0.25, GcMode::AmortisedFree), GcMode::AmortisedFree);
    assert_eq!(next(up_high, GcMode::AmortisedFree), GcMode::AmortisedFree);
    assert_eq!(next(above(up_high), GcMode::AmortisedFree), GcMode::ConservativeHold);
    assert_eq!(next(below(down_low), GcMode::ConservativeHold), GcMode::AggressiveEbr);
    assert_eq!(next(down_low, GcMode::ConservativeHold), GcMode::AmortisedFree);
    assert_eq!(next(0.25, GcMode::ConservativeHold), GcMode::AmortisedFree);
    assert_eq!(next(below(down_high), GcMode::ConservativeHold), GcMode::AmortisedFree);
    assert_eq!(next(down_high, GcMode::ConservativeHold), GcMode::ConservativeHold);
    assert_eq!(next(0.55, GcMode::ConservativeHold), GcMode::ConservativeHold);
}

#[test]
fn steady_pressure_keeps_its_mode() {
    for percent in 0..=100_u32 {
        let spi = number(f64::from(percent) / 100.0);
        for start in [GcMode::AggressiveEbr, GcMode::AmortisedFree, GcMode::ConservativeHold] {
            let once = select_gc_mode_with_hysteresis(spi, start);
            assert_eq!(select_gc_mode_with_hysteresis(spi, once), once);
        }
    }
}

#[test]
fn batch_k_continuous() {
    let s = sys();
    assert_eq!(s.compute_batch_k(number(0.0), number(0.0)), MAX_BATCH as usize);
    assert_eq!(s.compute_batch_k(number(1.0), number(0.0)), MIN_BATCH as usize);
    assert!(s.compute_batch_k(number(0.5), number(0.2)) < s.compute_batch_k(number(0.5), number(0.0)));
}

#[test]
fn batch_sizes_are_exact() {
    let s = sys();
    assert_eq!(s.compute_batch_k(number(0.25), number(0.0)), 48);
    assert_eq!(s.compute_batch_k(number(0.5), number(0.05)), 32);
    assert_eq!(s.compute_batch_k(number(0.5), number(0.2)), 28);
    assert_eq!(s.compute_batch_k(number(0.99), number(0.0)), 1);
    assert_eq!(s.compute_batch_k(number(0.5), number(-0.2)), 32);
    for percent in 0..=100_u32 {
        for rise in -100..=100_i32 {
            let (spi, delta) = (f64::from(percent) / 100.0, f64::from(rise) / 100.0);
            let mut bk = 64.0 * (1.0 - spi);
            if delta > 0.05 {
                bk *= 1.0 - delta * 0.5;
            }
            let expected = (bk as u64).max(1) as usize;
            let k = s.compute_batch_k(number(spi), number(delta));
            assert_eq!(k, expected);
            assert!((1..=64).contains(&k));
        }
    }
}

#[test]
fn stride_grows() {
    let s = sys();
    assert_eq!(s.compute_epoch_stride(number(0.0)), BASE_STRIDE);
    assert!(s.compute_epoch_stride(number(1.0)) > BASE_STRIDE);
}

#[test]
fn strides_are_exact() {
    let s = sys();
    assert_eq!(s.compute_epoch_stride(number(0.30)), 35);
    assert_eq!(s.compute_epoch_stride(number(0.5)), 48);
    assert_eq!(s.compute_epoch_stride(number(1.0)), 80);
    let mut last = 0;
    for thousandth in 0..=1000_u32 {
        let spi = f64::from(thousandth) / 1000.0;
        let stride = s.compute_epoch_stride(number(spi));
        assert_eq!(stride, (16.0 * (1.0 + 4.0 * spi)).round() as u64);
        assert!(stride >= last);
        last = stride;
    }
}

#[test]
fn retry_waits_double_up_to_a_limit() {
    let s = sys();
    assert_eq!(s.compute_retry_wait(0), BASE_RETRY_MS);
    assert_eq!(s.compute_retry_wait(1), 2);
    assert_eq!(s.compute_retry_wait(3), 8);
    assert_eq!(s.compute_retry_wait(5), 32);
    assert_eq!(s.compute_retry_wait(6), MAX_RETRY_MS);
    assert_eq!(s.compute_retry_wait(u32::MAX), MAX_RETRY_MS);
}

#[test]
fn scc_coalesces() {
    let s = sys();
    let mut trace = Trace::new();
    let t1 = s.scc.take_snapshot(0, &s.global_epoch, &mut trace);
    let t2 = s.scc.take_snapshot(50_000, &s.global_epoch, &mut trace);
    assert_eq!(t1, t2);
    assert_eq!(t1, Some(1));
}

#[test]
fn scc_new_window() {
    let s = sys();
    let mut trace = Trace::new();
    let t1 = s.scc.take_snapshot(0, &s.global_epoch, &mut trace);
    s.global_epoch.fetch_add(10, MemOrder::SeqCst, &mut trace);
    let t2 = s.scc.take_snapshot(SCC_MAX_WINDOW_NS * 2, &s.global_epoch, &mut trace);
    assert_ne!(t1, t2);
    assert_eq!(t2, Some(11));
}

#[test]
fn a_window_serves_its_timestamp_until_it_ends() {
    let s = sys();
    let mut trace = Trace::new();
    assert_eq!(s.scc.take_snapshot(10, &s.global_epoch, &mut trace), Some(1));
    s.global_epoch.store(77, MemOrder::SeqCst, &mut trace);
    // Opened without any hit and without latency: 0.4 of the range above the minimum.
    let width = 2_060_000;
    assert_eq!(s.scc.take_snapshot(10 + width - 1, &s.global_epoch, &mut trace), Some(1));
    assert_eq!(s.scc.take_snapshot(0, &s.global_epoch, &mut trace), Some(1));
    assert_eq!(s.scc.take_snapshot(10 + width, &s.global_epoch, &mut trace), Some(77));
    s.global_epoch.store(78, MemOrder::SeqCst, &mut trace);
    assert_eq!(s.scc.take_snapshot(10 + width, &s.global_epoch, &mut trace), Some(77));
}

#[test]
fn windows_can_be_opened_again_and_again() {
    let s = sys();
    let mut trace = Trace::new();
    for i in 0..1000_u64 {
        let ts = s.scc.take_snapshot(i * SCC_MAX_WINDOW_NS, &s.global_epoch, &mut trace);
        assert_eq!(ts, Some(i + 1));
        s.global_epoch.fetch_add(1, MemOrder::SeqCst, &mut trace);
    }
    assert_eq!(float(s.scc.hit_rate(&mut trace)), 0.0);
}

#[test]
fn hit_rate_counts_shared_windows() {
    let s = sys();
    let mut trace = Trace::new();
    assert_eq!(float(s.scc.hit_rate(&mut trace)), 0.0);
    for i in 0..4_u64 {
        s.scc.take_snapshot(i, &s.global_epoch, &mut trace);
    }
    assert_eq!(float(s.scc.hit_rate(&mut trace)), 0.75);
}

#[test]
fn window_widths_are_exact() {
    assert_eq!(Scc::compute_w(number(0.0), 0), 2_060_000);
    assert_eq!(Scc::compute_w(number(1.0), 0), SCC_MAX_WINDOW_NS);
    assert_eq!(Scc::compute_w(number(0.0), SCC_TARGET_P99_NS), SCC_MIN_WINDOW_NS);
    assert_eq!(Scc::compute_w(number(0.0), u64::MAX), SCC_MIN_WINDOW_NS);
    for rate in 0..=100_u32 {
        for used in 0..=30_u64 {
            let p99 = used * 100_000;
            let hit_rate = f64::from(rate) / 100.0;
            let headroom = 1.0_f64 - (p99 as f64 / 2_000_000.0).min(1.0);
            let factor = (hit_rate * 0.6 + headroom * 0.4).clamp(0.0, 1.0);
            let expected = (100_000.0 + factor * 4_900_000.0) as u64;
            let width = Scc::compute_w(number(hit_rate), p99);
            assert_eq!(width, expected);
            assert!((SCC_MIN_WINDOW_NS..=SCC_MAX_WINDOW_NS).contains(&width));
        }
    }
}

#[test]
fn windows_widen_with_hits_and_narrow_with_latency() {
    for rate in 0..100_u32 {
        for used in 0..30_u64 {
            let (lower, higher) = (f64::from(rate) / 100.0, f64::from(rate + 1) / 100.0);
            let (less, more) = (used * 100_000, (used + 1) * 100_000);
            let width = Scc::compute_w(number(lower), more);
            assert!(width <= Scc::compute_w(number(higher), more));
            assert!(width <= Scc::compute_w(number(lower), less));
        }
    }
}

#[test]
fn latency_is_smoothed() {
    let scc = Scc::new();
    let mut trace = Trace::new();
    assert_eq!(scc.latency_ns(&mut trace), 0);
    scc.record_latency_ns(1000, &mut trace);
    assert_eq!(scc.latency_ns(&mut trace), 100);
    scc.record_latency_ns(1000, &mut trace);
    assert_eq!(scc.latency_ns(&mut trace), 190);
    scc.record_latency_ns(0, &mut trace);
    assert_eq!(scc.latency_ns(&mut trace), 171);
}

#[test]
fn announce_min_ts() {
    let tbl = AnnouncementTable::new();
    let mut trace = Trace::new();
    let a = tbl.register(&mut trace).unwrap();
    let b = tbl.register(&mut trace).unwrap();
    tbl.announce(a, 10, &mut trace);
    tbl.announce(b, 5, &mut trace);
    assert_eq!(tbl.min_active_ts(&mut trace), 5);
    tbl.release(b, &mut trace);
    assert_eq!(tbl.min_active_ts(&mut trace), 10);
    tbl.release(a, &mut trace);
    assert_eq!(tbl.min_active_ts(&mut trace), u64::MAX);
}

#[test]
fn registration_ends_at_the_limit() {
    let tbl = AnnouncementTable::new();
    let mut trace = Trace::new();
    for i in 0..MAX_THREADS {
        assert_eq!(tbl.register(&mut trace), Some(i));
    }
    assert_eq!(tbl.register(&mut trace), None);
    assert_eq!(tbl.register(&mut trace), None);
    tbl.announce(MAX_THREADS - 1, 9, &mut trace);
    assert_eq!(tbl.min_active_ts(&mut trace), 9);
}

#[test]
fn slots_that_are_not_registered_do_not_count() {
    let tbl = AnnouncementTable::new();
    let mut trace = Trace::new();
    tbl.announce(0, 3, &mut trace);
    assert_eq!(tbl.min_active_ts(&mut trace), u64::MAX);
    assert_eq!(tbl.register(&mut trace), Some(0));
    assert_eq!(tbl.min_active_ts(&mut trace), 3);
}

#[test]
fn safe_reclaim_via_announce() {
    let s = sys();
    let mut t = thr(&s);
    let mut trace = Trace::new();
    assert_eq!(s.safe_reclaim_ts(&mut trace), u64::MAX);
    s.announce_snapshot(t.tid, 42, &mut trace);
    assert_eq!(s.safe_reclaim_ts(&mut trace), 42);
    s.release_snapshot_for(&mut t);
    assert_eq!(s.safe_reclaim_ts(&mut trace), u64::MAX);
}

#[test]
fn a_snapshot_is_announced_until_it_is_released() {
    let s = sys();
    let mut t = thr(&s);
    let mut trace = Trace::new();
    s.global_epoch.store(30, MemOrder::SeqCst, &mut trace);
    assert_eq!(s.take_snapshot(&mut t, 0), Some(30));
    assert_eq!(t.win_snaps, 1);
    assert_eq!(s.safe_reclaim_ts(&mut trace), 30);
    s.release_snapshot(t.tid, &mut trace);
    assert_eq!(s.safe_reclaim_ts(&mut trace), u64::MAX);
}

#[test]
fn a_recorded_latency_is_smoothed_and_the_snapshot_announced() {
    let s = sys();
    let mut t = thr(&s);
    s.snapshot_taken(&mut t, 12, 5000);
    assert_eq!(s.scc.latency_ns(&mut t.trace), 500);
    assert_eq!(s.safe_reclaim_ts(&mut t.trace), 12);
}

#[test]
fn limbo_deque_drain() {
    let mut b: LimboBag<u64> = LimboBag::new();
    let n1 = VersionNode::new(1u64, 1);
    let n2 = VersionNode::new(2u64, 2);
    b.push(1, n1);
    b.push(2, n2);
    assert_eq!(b.drain(2, 10), 1);
    assert_eq!(b.drain(10, 10), 1);
    assert_eq!(b.len(), 0);
}

#[test]
fn limbo_batch_limit() {
    let mut b: LimboBag<u64> = LimboBag::new();
    for i in 0..10u64 {
        b.push(i, VersionNode::new(i, i));
    }
    assert_eq!(b.drain(u64::MAX, 3), 3);
    b.drain(u64::MAX, usize::MAX);
}

#[test]
fn a_young_node_holds_back_those_behind_it() {
    let mut b: LimboBag<u64> = LimboBag::new();
    for ts in [1_u64, 9, 2] {
        b.push(ts, VersionNode::new(ts, ts));
    }
    assert_eq!(b.drain(5, 10), 1);
    assert_eq!(b.len(), 2);
    assert_eq!(b.drain(9, 10), 0);
    assert_eq!(b.drain(10, 10), 2);
    assert_eq!(b.drain(10, 10), 0);
}

#[test]
fn draining_in_steps_frees_the_same() {
    for (j, k) in [(0_usize, 4_usize), (2, 2), (3, 9), (9, 3)] {
        let mut whole: LimboBag<u64> = LimboBag::new();
        let mut parts: LimboBag<u64> = LimboBag::new();
        for ts in 0..8_u64 {
            whole.push(ts, VersionNode::new(ts, ts));
            parts.push(ts, VersionNode::new(ts, ts));
        }
        let first = parts.drain(6, j);
        let second = parts.drain(6, k);
        assert_eq!(whole.drain(6, j + k), first + second);
        assert_eq!(whole.len(), parts.len());
    }
}

struct Counted(Rc<Cell<u32>>);

impl Drop for Counted {
    fn drop(&mut self) {
        self.0.set(self.0.get() + 1);
    }
}

#[test]
fn freeing_runs_destructors_once() {
    let freed = Rc::new(Cell::new(0));
    let foreign = Rc::new(Cell::new(0));
    let mut b: LimboBag<Counted, Counted> = LimboBag::new();
    b.push(1, VersionNode::new(Counted(Rc::clone(&freed)), 1));
    b.push_raw(2, Counted(Rc::clone(&foreign)));
    b.push(3, VersionNode::new(Counted(Rc::clone(&freed)), 3));
    assert_eq!((freed.get(), foreign.get()), (0, 0));
    assert_eq!(b.drain(3, 10), 2);
    assert_eq!((freed.get(), foreign.get()), (1, 1));
    assert_eq!(b.drain(4, 10), 1);
    assert_eq!((freed.get(), foreign.get()), (2, 1));
}

#[test]
fn a_dropped_bag_frees_nothing() {
    let freed = Rc::new(Cell::new(0));
    let mut b: LimboBag<Counted, Counted> = LimboBag::new();
    b.push(1, VersionNode::new(Counted(Rc::clone(&freed)), 1));
    b.push_raw(2, Counted(Rc::clone(&freed)));
    drop(b);
    assert_eq!(freed.get(), 0);
}

#[test]
fn write_reclaim_no_panic() {
    let s = sys();
    let mut t = thr(&s);
    for i in 0..WINDOW_SIZE {
        let (n, ts) = s.write_op_prepare(&mut t, i);
        s.post_write(&mut t, n, ts);
    }
}

#[test]
fn a_write_is_stamped_with_the_epoch() {
    let s = sys();
    let mut t = thr(&s);
    let (first, ts) = s.write_op_prepare(&mut t, 70);
    assert_eq!((first.value, first.birth_ts, ts), (70, 1, 1));
    let (second, ts) = s.write_op_prepare(&mut t, 71);
    assert_eq!((second.value, second.birth_ts, ts), (71, 2, 2));
    assert_eq!((t.win_writes, t.op_counter), (2, 2));
    assert_eq!(s.global_epoch.load(MemOrder::SeqCst, &mut t.trace), 3);
}

#[test]
fn a_window_ends_with_a_sample_and_an_epoch_step() {
    let s = sys();
    let mut t = thr(&s);
    for i in 0..WINDOW_SIZE - 1 {
        assert_eq!(write(&s, &mut t, i), 1);
    }
    assert_eq!(t.win_writes, WINDOW_SIZE - 1);
    assert_eq!(s.global_epoch.load(MemOrder::SeqCst, &mut t.trace), WINDOW_SIZE);
    assert_eq!(write(&s, &mut t, 0), 1);
    assert_eq!(t.win_writes, 0);
    assert_eq!(t.limbo_bag.len(), 0);
    assert_eq!(t.fail_streak, 0);
    // One more than the writes made of it: 256 is a multiple of the stride.
    assert_eq!(s.global_epoch.load(MemOrder::SeqCst, &mut t.trace), WINDOW_SIZE + 2);
}

#[test]
fn each_mode_drains_at_its_rate() {
    let s = sys();
    let mut t = thr(&s);
    for i in 0..20_u64 {
        t.limbo_bag.push(i, VersionNode::new(i, i));
    }
    t.hold_ticks = 5;
    assert_eq!(s.drain_discrete_tick(&mut t), AGGRESSIVE_DRAIN_PER_OP);
    assert_eq!(t.hold_ticks, 0);
    t.gc_mode = GcMode::AmortisedFree;
    assert_eq!(s.drain_discrete_tick(&mut t), AF_BATCH_K);
    t.gc_mode = GcMode::ConservativeHold;
    for tick in 1..HOLD_LIMIT {
        assert_eq!(s.drain_discrete_tick(&mut t), 0);
        assert_eq!(t.hold_ticks, tick);
    }
    assert_eq!(s.drain_discrete_tick(&mut t), 8);
    assert_eq!(t.hold_ticks, 0);
    assert_eq!(s.drain_continuous_tick(&mut t), CONTINUOUS_DRAIN_PER_OP);
    assert_eq!(t.limbo_bag.len(), 6);
}

#[test]
fn a_batch_follows_the_pressure() {
    let s = sys();
    let mut t = thr(&s);
    for i in 0..100_u64 {
        t.limbo_bag.push(i, VersionNode::new(i, i));
    }
    t.spi_ema = number(0.5);
    t.op_counter = 48;
    assert_eq!(s.reclaim_continuous(&mut t), 32);
    assert_eq!(s.global_epoch.load(MemOrder::SeqCst, &mut t.trace), 2);
    t.op_counter = 49;
    assert_eq!(s.reclaim_continuous(&mut t), 32);
    assert_eq!(s.global_epoch.load(MemOrder::SeqCst, &mut t.trace), 2);
    assert_eq!(t.limbo_bag.len(), 36);
}

#[test]
fn holding_back_pauses_the_epoch() {
    let s = sys();
    let mut t = thr(&s);
    t.spi_ema = number(0.9);
    assert_eq!(s.reclaim_discrete(&mut t), 0);
    assert_eq!(t.gc_mode, GcMode::ConservativeHold);
    assert_eq!(s.global_epoch.load(MemOrder::SeqCst, &mut t.trace), 1);
    t.spi_ema = number(0.1);
    assert_eq!(s.reclaim_discrete(&mut t), 0);
    assert_eq!(t.gc_mode, GcMode::AggressiveEbr);
    assert_eq!(s.global_epoch.load(MemOrder::SeqCst, &mut t.trace), 2);
}

#[test]
fn a_snapshot_keeps_what_it_can_reach() {
    let s = sys();
    let mut reader = thr(&s);
    let mut t = thr(&s);
    for i in 0..5_u64 {
        write(&s, &mut t, i);
    }
    let ts = s.take_snapshot(&mut reader, 0).unwrap();
    assert_eq!(ts, 6);
    for i in 0..50_u64 {
        assert_eq!(write(&s, &mut t, i), 0);
    }
    assert_eq!(t.limbo_bag.len(), 50);
    s.release_snapshot_for(&mut reader);
    assert_eq!(write(&s, &mut t, 0), 4);
    assert_eq!(t.limbo_bag.len(), 47);
}

#[test]
fn hold_mode_limbo_growth_is_bounded() {
    let s = sys();
    let mut t = thr(&s);
    t.spi_ema = number(0.90);
    t.gc_mode = GcMode::ConservativeHold;
    const N: u64 = 50_000;
    for i in 0..N {
        let (n, ts) = s.write_op_prepare(&mut t, i);
        s.post_write(&mut t, n, ts);
    }
    assert!(
        t.limbo_bag.len() < 10 * HOLD_LIMIT as usize,
        "limbo bag grew to {} nodes over {} writes in ConservativeHold (HOLD_LIMIT={})",
        t.limbo_bag.len(),
        N,
        HOLD_LIMIT
    );
    t.limbo_bag.drain(u64::MAX, usize::MAX);
}

#[test]
fn advancing_moves_the_epoch_by_one() {
    let s = sys();
    let mut trace = Trace::new();
    assert!(s.try_advance_epoch(&mut trace));
    assert_eq!(s.global_epoch.load(MemOrder::SeqCst, &mut trace), 2);
}

#[test]
fn shared_words_do_what_their_names_say() {
    let s = sys();
    let mut trace = Trace::new();
    let word = &s.global_epoch;
    assert_eq!(word.load(MemOrder::Acquire, &mut trace), 1);
    word.store(40, MemOrder::Release, &mut trace);
    assert_eq!(word.fetch_add(5, MemOrder::AcqRel, &mut trace), 40);
    assert_eq!(word.fetch_sub(3, MemOrder::Relaxed, &mut trace), 45);
    assert_eq!(word.fetch_max(41, MemOrder::SeqCst, &mut trace), 42);
    assert_eq!(word.fetch_max(50, MemOrder::SeqCst, &mut trace), 42);
    let failed = word.compare_exchange(42, 7, MemOrder::AcqRel, MemOrder::Acquire, &mut trace);
    assert_eq!(failed, Err(50));
    let done = word.compare_exchange(50, 7, MemOrder::SeqCst, MemOrder::Relaxed, &mut trace);
    assert_eq!(done, Ok(50));
    assert_eq!(word.load(MemOrder::Relaxed, &mut trace), 7);
    word.store(0, MemOrder::SeqCst, &mut trace);
    assert_eq!(word.fetch_sub(1, MemOrder::SeqCst, &mut trace), 0);
    assert_eq!(word.fetch_add(1, MemOrder::SeqCst, &mut trace), u64::MAX);
    assert_eq!(word.load(MemOrder::SeqCst, &mut trace), 0);
}

#[test]
fn the_clock_goes_on() {
    let start = std::time::Instant::now();
    let mut trace = Trace::new();
    let first = trace.read_clock(&start);
    std::hint::black_box((0..100_000_u64).sum::<u64>());
    let mut second = trace.read_clock(&start);
    while second == first {
        second = trace.read_clock(&start);
    }
    assert!(first < second);
    assert!(second <= start.elapsed().as_nanos());
}
