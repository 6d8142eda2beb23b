//! Workloads, workers and results of the two benchmarks.

use pacer::abtree::{AbtreeFFI, Strat, TreeShared, TreeWorker, KEY_RANGE};
use pacer::access::MemOrder;
use pacer::bench::{free_after_write, mops, BenchShared, BenchWorker};
use pacer::params::{HOLD_LIMIT, WINDOW_SIZE};
use pacer::runs::{listed_batch, phase, thread_counts, Phase};
use pacer::workload::{lcg, lcg_extra, next_is_snapshot};
use pacer::{
    AllocatorPressure, BenchResult, Binary64, GcMode, PacerSystem, Strategy, ThreadLocalState,
    Trace, VersionNode, Workload,
};
use std::time::{Duration, Instant};

fn number(x: f64) -> Binary64 {
    Binary64::from_bits(x.to_bits())
}

fn float(x: Binary64) -> f64 {
    f64::from_bits(x.bits)
}

/// Runs one worker for a while.
fn run_bench_synthetic(strategy: Strategy, duration: Duration, snap_fraction: f64) -> BenchResult {
    let shared = BenchShared::new();
    let start = Instant::now();
    let mut trace = Trace::new();
    let tid = shared.system.register_thread(&mut trace).unwrap();
    let mut worker = BenchWorker::new(strategy, 0, tid, number(snap_fraction));
    assert!(worker.can_step());
    worker.run(&shared, &start, duration.as_nanos() as u64);
    assert!(worker.can_step());
    worker.finish(&shared);
    let took = start.elapsed();
    BenchResult::new(
        strategy,
        1,
        took.as_secs(),
        took.subsec_nanos(),
        shared.total_ops.load(MemOrder::Relaxed, &mut trace),
        shared.peak_limbo.load(MemOrder::Relaxed, &mut trace) as usize,
        shared.pressure.total_free_ns(&mut trace),
        shared.system.scc.latency_ns(&mut trace),
    )
}

#[test]
fn bench_smoke() {
    let r = run_bench_synthetic(Strategy::PacerDiscrete, Duration::from_millis(100), 0.1);
    assert!(r.total_ops > 0);
    let r2 = run_bench_synthetic(Strategy::TokenAf, Duration::from_millis(100), 0.1);
    assert!(r2.total_ops > 0);
}

#[test]
fn every_strategy_frees_what_it_retires() {
    for (strategy, most) in [
        (Strategy::PacerDiscrete, 0_u64),
        (Strategy::PacerContinuous, 0),
        (Strategy::TokenAf, 0),
        (Strategy::BatchEbr, WINDOW_SIZE - 1),
    ] {
        let r = run_bench_synthetic(strategy, Duration::from_millis(50), 0.0);
        assert!(r.total_ops > WINDOW_SIZE);
        assert_eq!(r.peak_limbo_len as u64, most);
        assert_eq!(r.p99_snapshot_ns, 0);
        assert!(float(r.pct_time_in_free) > 0.0);
        assert_eq!(r.strategy, strategy);
    }
}

/// Runs one worker for a number of operations. Returns the peak and the latency
/// that it reports.
fn run_operations(strategy: Strategy, snap_fraction: f64, n: u64) -> (u64, u64) {
    let shared = BenchShared::new();
    let mut trace = Trace::new();
    let tid = shared.system.register_thread(&mut trace).unwrap();
    let mut worker = BenchWorker::new(strategy, 3, tid, number(snap_fraction));
    for i in 0..n {
        assert_eq!(worker.local, i);
        assert!(worker.can_step());
        worker.step(&shared, i * 1000);
    }
    worker.finish(&shared);
    assert_eq!(shared.total_ops.load(MemOrder::Relaxed, &mut trace), n);
    (
        shared.peak_limbo.load(MemOrder::Relaxed, &mut trace),
        shared.system.scc.latency_ns(&mut trace),
    )
}

#[test]
fn one_worker_keeps_a_small_backlog() {
    for snap_fraction in [0.0, 0.1, 0.3, 0.6, 0.9] {
        let n = 20_000;
        assert!(run_operations(Strategy::PacerDiscrete, snap_fraction, n).0 < HOLD_LIMIT);
        assert_eq!(run_operations(Strategy::PacerContinuous, snap_fraction, n).0, 0);
        assert_eq!(run_operations(Strategy::TokenAf, snap_fraction, n).0, 0);
        assert_eq!(run_operations(Strategy::BatchEbr, snap_fraction, n).0, WINDOW_SIZE - 1);
    }
    // With many snapshots the discrete policy does hold writes back.
    assert_eq!(run_operations(Strategy::PacerDiscrete, 0.9, 100_000).0, HOLD_LIMIT - 1);
}

#[test]
fn without_snapshots_there_is_no_latency() {
    assert_eq!(run_operations(Strategy::PacerDiscrete, 0.0, 1000).1, 0);
    assert_eq!(run_operations(Strategy::BatchEbr, 0.0, 0).1, 0);
}

#[test]
fn a_run_of_no_duration_does_nothing() {
    let shared = BenchShared::new();
    let mut worker = BenchWorker::new(Strategy::TokenAf, 0, 0, number(0.5));
    worker.run(&shared, &Instant::now(), 0);
    assert_eq!((worker.local, worker.rng), (0, 0xdead_beef_cafe_babe));
    assert_eq!((worker.state.op_counter, worker.state.win_snaps), (0, 0));
    let start = Instant::now();
    worker.run(&shared, &start, 2_000_000);
    assert!(worker.local > 0);
    assert!(start.elapsed() >= Duration::from_millis(2));
}

#[test]
fn a_round_performs_one_operation_before_the_end() {
    let shared = BenchShared::new();
    let start = Instant::now();
    let mut worker = BenchWorker::new(Strategy::TokenAf, 0, 0, number(0.0));
    assert_eq!(worker.round(&shared, &start, 0), None);
    assert_eq!(worker.local, 0);
    let (first, second) = worker.round(&shared, &start, u64::MAX).unwrap();
    assert!(first <= second && second <= start.elapsed().as_nanos());
    assert_eq!((worker.local, worker.state.op_counter), (1, 1));
    worker.local = u64::MAX;
    assert_eq!(worker.round(&shared, &start, u64::MAX), None);
}

#[test]
fn a_run_stops_where_a_counter_is_exhausted() {
    let shared = BenchShared::new();
    let mut worker = BenchWorker::new(Strategy::TokenAf, 0, 0, number(0.0));
    worker.local = u64::MAX - 3;
    worker.run(&shared, &Instant::now(), u64::MAX);
    assert_eq!((worker.local, worker.state.op_counter), (u64::MAX, 3));
}

#[test]
fn throughput_is_exact() {
    assert_eq!(float(mops(30_000_000, number(5.0))), 6.0);
    assert_eq!(float(mops(1, number(3.0))), 1.0 / 3.0 / 1_000_000.0);
}

#[test]
fn tree_workers_add_up() {
    let shared = TreeShared::new();
    let mut first = TreeWorker::new(Strat::TokenAf, 0, 0);
    let mut second = TreeWorker::new(Strat::TokenAf, 1, 1);
    update(&shared, &mut first, 5);
    update(&shared, &mut second, 2);
    second.begin(&shared);
    second.end(&shared, false, 0, false);
    first.finish(&shared);
    second.finish(&shared);
    assert_eq!(shared.total_ops.load(MemOrder::Relaxed, &mut Trace::new()), 7);
}

#[test]
fn two_workers_add_up() {
    let shared = BenchShared::new();
    let mut trace = Trace::new();
    let mut first = BenchWorker::new(Strategy::BatchEbr, 0, 0, number(0.0));
    let mut second = BenchWorker::new(Strategy::BatchEbr, 1, 1, number(0.0));
    for _ in 0..10 {
        first.step(&shared, 0);
    }
    for _ in 0..3 {
        second.step(&shared, 0);
    }
    assert_eq!(shared.peak_limbo.load(MemOrder::Relaxed, &mut trace), 10);
    first.finish(&shared);
    second.finish(&shared);
    assert_eq!(shared.total_ops.load(MemOrder::Relaxed, &mut trace), 13);
}

#[test]
fn workers_and_what_they_share_start_afresh() {
    let mut trace = Trace::new();
    let worker = BenchWorker::new(Strategy::PacerDiscrete, 0, 7, number(0.5));
    let tree_worker: TreeWorker<Leaf> = TreeWorker::new(Strat::BatchEbr, 0, 7);
    let w = &worker.state;
    assert_eq!((w.win_writes, w.win_snaps, w.op_counter, w.hold_ticks), (0, 0, 0, 0));
    assert_eq!((w.fail_streak, w.spi_ema.bits, w.tid), (0, 0, 7));
    assert_eq!((w.gc_mode, w.limbo_bag.len()), (GcMode::AggressiveEbr, 0));
    let t = &tree_worker.state;
    assert_eq!((t.win_writes, t.win_snaps, t.op_counter, t.hold_ticks), (0, 0, 0, 0));
    assert_eq!((t.fail_streak, t.spi_ema.bits, t.tid), (0, 0, 7));
    assert_eq!((t.gc_mode, t.limbo_bag.len()), (GcMode::AggressiveEbr, 0));
    for system in [BenchShared::new().system, TreeShared::new().system] {
        assert_eq!(system.load_spi(&mut trace).bits, 0);
        assert_eq!(system.load_delta_spi(&mut trace).bits, 0);
        assert_eq!(system.scc.latency_ns(&mut trace), 0);
        assert_eq!(system.scc.hit_rate(&mut trace).bits, 0);
        assert_eq!(system.safe_reclaim_ts(&mut trace), u64::MAX);
        assert_eq!(system.register_thread(&mut trace), Some(0));
        assert_eq!(system.take_snapshot(&mut ThreadLocalState::<u64>::new(0), 0), Some(1));
    }
}

#[test]
fn results_are_exact() {
    let r = BenchResult::new(Strategy::TokenAf, 2, 1, 500_000_000, 3_000_000, 7, 300_000_000, 5);
    assert_eq!(r.strategy, Strategy::TokenAf);
    assert_eq!((r.threads, r.total_ops, r.peak_limbo_len, r.p99_snapshot_ns), (2, 3_000_000, 7, 5));
    assert_eq!(float(r.duration_secs), 1.5);
    assert_eq!(float(r.throughput_mops), 2.0);
    assert_eq!(float(r.pct_time_in_free), 100.0 * (300_000_000.0 / 1e9) / (1.5 * 2.0));
}

#[test]
fn durations_convert_as_those_of_std() {
    for (secs, nanos) in [(0_u64, 1_u32), (0, 250_000_001), (5, 999_999_999), (1 << 40, 3), (7, 0)] {
        let r = BenchResult::new(Strategy::BatchEbr, 3, secs, nanos, 1234, 0, 4321, 0);
        let duration = Duration::new(secs, nanos).as_secs_f64();
        assert_eq!(float(r.duration_secs), duration);
        assert_eq!(float(r.throughput_mops), 1234.0 / duration / 1_000_000.0);
        assert_eq!(float(r.pct_time_in_free), 100.0 * (4321.0 / 1e9) / (duration * 3.0));
    }
}

#[test]
fn a_run_without_duration_or_threads() {
    let r = BenchResult::new(Strategy::BatchEbr, 0, 0, 0, 4, 0, 100, 0);
    assert_eq!(float(r.pct_time_in_free), 0.0);
    assert_eq!(float(r.throughput_mops), f64::INFINITY);
    let r = BenchResult::new(Strategy::BatchEbr, 0, 2, 0, 4, 0, 1_000_000_000, 0);
    assert_eq!(float(r.pct_time_in_free), 50.0);
}

#[test]
fn bursts_cost_more_together() {
    assert_eq!(AllocatorPressure::burst_cost(0, 0), 0);
    assert_eq!(AllocatorPressure::burst_cost(0, 1), 20);
    assert_eq!(AllocatorPressure::burst_cost(1, 1), 170);
    assert_eq!(AllocatorPressure::burst_cost(2, 3), 960);
    for others in [0, 1, 7, 1 << 40, u64::MAX - 1] {
        let cost = AllocatorPressure::burst_cost(others, 5);
        assert!(cost <= AllocatorPressure::burst_cost(others + 1, 5));
        assert!(cost <= AllocatorPressure::burst_cost(others, 6));
    }
    let pressure = AllocatorPressure::new();
    let mut trace = Trace::new();
    pressure.simulate_free_burst(0, &mut trace);
    assert_eq!(pressure.total_free_ns(&mut trace), 0);
    let start = Instant::now();
    pressure.simulate_free_burst(100, &mut trace);
    assert!(start.elapsed() >= Duration::from_nanos(2000));
    assert_eq!(pressure.total_free_ns(&mut trace), 2000);
    pressure.simulate_free_burst(1, &mut trace);
    assert_eq!(pressure.total_free_ns(&mut trace), 2020);
}

#[test]
fn draws_are_exact() {
    let mut rng = 12345_u64;
    assert_eq!(lcg(&mut rng), 2021368500568277588);
    assert_eq!(rng, 2021368500568277588);
    let mut rng = 12345_u64;
    assert_eq!(lcg_extra(&mut rng), 17399844927936646018);
    let workload = Workload::standard();
    let mut rng = 0xdead_beef_cafe_babe_u64;
    assert_eq!(workload.next_op(&mut rng), (224313, false));
    assert_eq!(rng, 11168841808386496181);
    let mut rng = 12345_u64;
    assert_eq!(workload.next_op(&mut rng), (15318264, true));
    // The sixteen low bits drawn are 21518, of 65536.
    for (fraction, expected) in [(0.0, false), (0.328, false), (0.329, true), (1.0, true)] {
        let mut rng = 11168841808386496181_u64;
        assert_eq!(next_is_snapshot(&mut rng, number(fraction)), expected);
        assert_eq!(rng, 4416848141625480206);
    }
}

#[test]
fn keys_lie_in_the_range() {
    let workload = Workload { key_range: 7, insert_fraction: number(0.25) };
    let mut rng = 99_u64;
    let mut inserted = 0;
    for _ in 0..10_000 {
        let (key, insertion) = workload.next_op(&mut rng);
        assert!(key < 7);
        inserted += usize::from(insertion);
    }
    assert!((2_200..2_800).contains(&inserted));
}

#[test]
fn strategies_free_at_their_own_pace() {
    let system = PacerSystem::new();
    let retire = |strategy: Strategy, op_counter: u64, spi: f64| {
        let mut t: ThreadLocalState<u64> = ThreadLocalState::new(0);
        for i in 0..100_u64 {
            t.limbo_bag.push(i, VersionNode::new(i, i));
        }
        t.op_counter = op_counter;
        t.spi_ema = number(spi);
        free_after_write(&system, strategy, &mut t, VersionNode::new(0, 5), 5)
    };
    assert_eq!(retire(Strategy::PacerDiscrete, 1, 0.0), 4);
    assert_eq!(retire(Strategy::PacerContinuous, 1, 0.0), 1);
    assert_eq!(retire(Strategy::PacerContinuous, 256, 0.0), 65);
    assert_eq!(retire(Strategy::PacerContinuous, 256, 0.5), 33);
    assert_eq!(retire(Strategy::TokenAf, 256, 0.0), 1);
    assert_eq!(retire(Strategy::BatchEbr, 255, 0.0), 0);
    assert_eq!(retire(Strategy::BatchEbr, 256, 0.0), 101);
}

#[test]
fn a_worker_counts_and_draws() {
    let shared = BenchShared::new();
    let mut worker = BenchWorker::new(Strategy::TokenAf, 0, 0, number(1.0));
    assert_eq!(worker.rng, 0xdead_beef_cafe_babe);
    worker.step(&shared, 0);
    assert_eq!(worker.rng, 4416848141625480206);
    assert_eq!((worker.local, worker.state.win_snaps, worker.state.op_counter), (1, 1, 0));
    worker.snap_fraction = number(0.0);
    worker.step(&shared, 0);
    assert_eq!((worker.local, worker.state.win_snaps, worker.state.op_counter), (2, 1, 1));
    worker.finish(&shared);
    assert_eq!(shared.total_ops.load(MemOrder::Relaxed, &mut Trace::new()), 2);
    worker.state.op_counter = u64::MAX;
    assert!(!worker.can_step());
}

/// A node of a tree elsewhere.
struct Leaf;

#[test]
fn a_tree_update_is_stamped_and_answered() {
    let tree = AbtreeFFI::new();
    let sys = PacerSystem::new();
    let mut t: ThreadLocalState<u64, Leaf> = ThreadLocalState::new(0);
    assert_eq!(tree.register_thread(&mut t), 1);
    assert_eq!(tree.begin_update(&mut t), 1);
    assert!(tree.insert(1, &sys, &mut t));
    assert_eq!(tree.begin_update(&mut t), 2);
    assert!(!tree.remove(0, &sys, &mut t));
    assert_eq!((t.win_writes, t.op_counter), (2, 2));
    assert_eq!(tree.register_thread(&mut t), 3);
    tree.begin_no_gc(&mut t);
    assert_eq!((t.win_writes, t.op_counter), (2, 3));
    assert!(tree.insert_no_gc(1) && !tree.insert_no_gc(0));
    assert!(tree.remove_no_gc(-1) && !tree.remove_no_gc(0));
    assert!(tree.contains(1) && !tree.contains(0));
    tree.drain();
    assert_eq!(tree.register_thread(&mut t), 3);
}

#[test]
fn a_tree_window_selects_a_mode() {
    let tree = AbtreeFFI::new();
    let sys = PacerSystem::new();
    let mut t: ThreadLocalState<u64, Leaf> = ThreadLocalState::new(0);
    t.spi_ema = number(0.9);
    for _ in 0..WINDOW_SIZE {
        assert_eq!(t.gc_mode, GcMode::AggressiveEbr);
        tree.begin_update(&mut t);
        tree.insert(1, &sys, &mut t);
    }
    assert_eq!(t.gc_mode, GcMode::ConservativeHold);
    assert_eq!(t.win_writes, 0);
    assert_eq!(float(t.spi_ema), 0.9 * (1.0 - 0.15) + 0.0 * 0.15);
}

#[test]
fn tree_draws_are_exact() {
    let mut worker: TreeWorker<Leaf> = TreeWorker::new(Strat::TokenAf, 0, 0);
    assert_eq!(worker.rng, 0xdead_beef_0000_0000);
    assert_eq!(worker.draw(), (6672719, true));
    assert_eq!(worker.rng, 14318131343030644018);
    let mut worker: TreeWorker<Leaf> = TreeWorker::new(Strat::TokenAf, 3, 0);
    assert_eq!(worker.rng, 16045690980470779155);
    assert_eq!(worker.draw(), (16029094, true));
    let mut insertions = 0;
    for _ in 0..10_000 {
        let (key, insertion) = worker.draw();
        assert!(key < KEY_RANGE);
        insertions += usize::from(insertion);
    }
    assert!((4_700..5_300).contains(&insertions));
}

/// Makes `n` updates, each of which retires a node.
fn update(shared: &TreeShared, worker: &mut TreeWorker<Leaf>, n: u64) {
    for _ in 0..n {
        assert!(worker.can_step());
        let ts = worker.begin(shared);
        worker.state.limbo_bag.push_raw(ts, Leaf);
        assert!(worker.end(shared, true, 1, true));
    }
}

#[test]
fn batches_keep_two_epochs() {
    let shared = TreeShared::new();
    let mut worker = TreeWorker::new(Strat::BatchEbr, 0, 0);
    update(&shared, &mut worker, WINDOW_SIZE - 1);
    assert_eq!(worker.state.limbo_bag.len(), 255);
    update(&shared, &mut worker, 1);
    // The epoch stood at 257: nodes below 255 go, two stay.
    assert_eq!(worker.state.limbo_bag.len(), 2);
    let mut trace = Trace::new();
    assert_eq!(shared.baseline_epoch.load(MemOrder::SeqCst, &mut trace), 258);
    assert_eq!(shared.peak_limbo.load(MemOrder::Relaxed, &mut trace), 255);
    assert_eq!(worker.state.win_writes, 0);
}

#[test]
fn amortised_frees_keep_two_epochs() {
    let shared = TreeShared::new();
    let mut worker = TreeWorker::new(Strat::TokenAf, 0, 0);
    update(&shared, &mut worker, WINDOW_SIZE);
    assert_eq!(worker.state.limbo_bag.len(), 2);
    let mut trace = Trace::new();
    assert_eq!(shared.baseline_epoch.load(MemOrder::SeqCst, &mut trace), 258);
    assert_eq!(shared.peak_limbo.load(MemOrder::Relaxed, &mut trace), 2);
}

#[test]
fn adaptive_tree_workers_stamp_with_the_tree_epoch() {
    let shared = TreeShared::new();
    let mut worker = TreeWorker::new(Strat::PacerDiscrete, 0, 0);
    update(&shared, &mut worker, 10);
    let mut trace = Trace::new();
    assert_eq!(shared.tree.epoch.load(MemOrder::SeqCst, &mut trace), 11);
    assert_eq!(shared.baseline_epoch.load(MemOrder::SeqCst, &mut trace), 1);
    assert_eq!(worker.state.limbo_bag.len(), 10);
    assert_eq!((worker.local, worker.updates, worker.state.win_writes), (10, 10, 10));
    assert!(!worker.end(&shared, false, 0, false));
    assert_eq!((worker.local, worker.updates), (10, 11));
    worker.finish(&shared);
    assert_eq!(worker.state.limbo_bag.len(), 0);
    assert_eq!(shared.total_ops.load(MemOrder::Relaxed, &mut trace), 10);
}

#[test]
fn thread_counts_are_powers_and_the_cores() {
    assert_eq!(thread_counts(0), Vec::<usize>::new());
    assert_eq!(thread_counts(1), vec![1]);
    assert_eq!(thread_counts(6), vec![1, 2, 4, 6]);
    assert_eq!(thread_counts(8), vec![1, 2, 4, 8]);
    assert_eq!(thread_counts(usize::MAX).len(), usize::BITS as usize + 1);
}

#[test]
fn phases_change_at_their_ends() {
    assert_eq!(phase(0, 10, 50), Phase::WarmUp);
    assert_eq!(phase(9, 10, 50), Phase::WarmUp);
    assert_eq!(phase(10, 10, 50), Phase::Timed);
    assert_eq!(phase(59, 10, 50), Phase::Timed);
    assert_eq!(phase(60, 10, 50), Phase::Over);
    assert_eq!(phase(0, 0, 0), Phase::Over);
    assert_eq!(phase(u128::from(u64::MAX), u64::MAX, u64::MAX), Phase::Timed);
    assert!(Phase::WarmUp.goes_on() && Phase::Timed.goes_on() && !Phase::Over.goes_on());
    assert!(!Phase::WarmUp.counts() && Phase::Timed.counts() && Phase::Over.counts());
}

#[test]
fn listed_batches_follow_the_mode() {
    assert_eq!(listed_batch(number(0.30)), 64);
    assert_eq!(listed_batch(number(0.31)), 1);
    assert_eq!(listed_batch(number(0.60)), 1);
    assert_eq!(listed_batch(number(0.61)), 0);
}
