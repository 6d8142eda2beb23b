//! What threads that share the library observe of each other.

use loom::sync::atomic::{AtomicU64, Ordering};
use loom::thread;
use pacer::access::MemOrder;
use pacer::{AnnouncementTable, PacerSystem, Trace};
use std::sync::Arc;

/// The claim, write and publication of a snapshot window, on their own.
struct MiniWindow {
    gen: AtomicU64,
    data: AtomicU64,
}

impl MiniWindow {
    fn new() -> Self {
        Self { gen: AtomicU64::new(0), data: AtomicU64::new(0) }
    }

    fn open_or_read(&self, new_data: u64) -> u64 {
        loop {
            let gen = self.gen.load(Ordering::Acquire);
            if gen % 2 == 1 {
                std::hint::spin_loop();
                continue;
            }
            if gen != 0 {
                return self.data.load(Ordering::Acquire);
            }
            match self.gen.compare_exchange(gen, gen + 1, Ordering::AcqRel, Ordering::Acquire) {
                Ok(_) => {
                    self.data.store(new_data, Ordering::Release);
                    self.gen.store(gen + 2, Ordering::Release);
                    return new_data;
                }
                Err(_) => {
                    std::hint::spin_loop();
                }
            }
        }
    }
}

#[test]
fn scc_window_open_race_never_returns_torn_data() {
    loom::model(|| {
        let w = loom::sync::Arc::new(MiniWindow::new());
        let w2 = loom::sync::Arc::clone(&w);
        let h = thread::spawn(move || w2.open_or_read(7));

        let gen = w.gen.load(Ordering::Acquire);
        if gen != 0 && gen % 2 == 0 {
            assert_eq!(
                w.data.load(Ordering::Acquire),
                7,
                "observed published gen={gen} but the data write wasn't visible yet"
            );
        }
        h.join().unwrap();
    });
}

#[test]
fn announce_min_ts_never_torn() {
    loom::model(|| {
        let tbl = Arc::new(AnnouncementTable::new());
        let mut trace = Trace::new();
        let a = tbl.register(&mut trace).unwrap();
        let b = tbl.register(&mut trace).unwrap();
        let tbl2 = Arc::clone(&tbl);

        let h = thread::spawn(move || {
            let mut trace = Trace::new();
            tbl2.announce(a, 10, &mut trace);
            thread::yield_now();
            tbl2.release(a, &mut trace);
        });
        tbl.announce(b, 20, &mut trace);
        thread::yield_now();
        let observed = tbl.min_active_ts(&mut trace);
        assert!(observed == 10 || observed == 20 || observed == u64::MAX);
        tbl.release(b, &mut trace);
        h.join().unwrap();
    });
}

#[test]
fn epoch_advance_no_lost_updates() {
    loom::model(|| {
        let sys = Arc::new(PacerSystem::new());
        let mut trace = Trace::new();
        let start = sys.global_epoch.load(MemOrder::SeqCst, &mut trace);

        let sys2 = Arc::clone(&sys);
        let h = thread::spawn(move || sys2.try_advance_epoch(&mut Trace::new()));
        thread::yield_now();
        let ok_here = sys.try_advance_epoch(&mut trace);
        let ok_there = h.join().unwrap();

        let expected = start + u64::from(ok_here) + u64::from(ok_there);
        assert_eq!(sys.global_epoch.load(MemOrder::SeqCst, &mut trace), expected);
    });
}

#[test]
fn snapshots_of_two_threads_share_a_window() {
    loom::model(|| {
        let sys = Arc::new(PacerSystem::new());
        let sys2 = Arc::clone(&sys);
        let h = thread::spawn(move || {
            sys2.scc.take_snapshot(5, &sys2.global_epoch, &mut Trace::new())
        });
        thread::yield_now();
        let here = sys.scc.take_snapshot(6, &sys.global_epoch, &mut Trace::new());
        let there = h.join().unwrap();
        assert_eq!(here, Some(1));
        assert_eq!(there, Some(1));
    });
}

#[test]
fn an_announcement_of_another_thread_holds_freeing_back() {
    loom::model(|| {
        let sys = Arc::new(PacerSystem::new());
        let mut trace = Trace::new();
        let tid = sys.register_thread(&mut trace).unwrap();
        let sys2 = Arc::clone(&sys);
        let h = thread::spawn(move || sys2.announce_snapshot(tid, 3, &mut Trace::new()));
        h.join().unwrap();
        assert_eq!(sys.safe_reclaim_ts(&mut trace), 3);
    });
}
