use chaos_kernel::sync::{
    wait_ev, EvBus, EvFlag, EvWatch, FlgGuard, FutexBucket, FutexTable, KernLock, ParkStep, Sema,
    Spin, SyncQueue,
};

#[test]
fn a_lock_counts_its_holder_and_keeps_others_out() {
    let mut lock = KernLock::new();
    assert!(!lock.held());
    lock.enter(3);
    assert!(lock.try_enter(3));
    assert_eq!((lock.owner(), lock.level()), (3, 2));
    assert!(!lock.try_enter(4));
    assert!(!lock.try_enter(0));
    lock.leave();
    assert_eq!((lock.held(), lock.owner(), lock.level()), (true, 3, 1));
    lock.leave();
    assert_eq!((lock.held(), lock.owner(), lock.level()), (false, 0, 0));
    assert!(lock.try_enter(4));
}

#[test]
fn holder_zero_cannot_enter_twice() {
    let mut lock = KernLock::new();
    lock.enter(0);
    assert!(!lock.try_enter(0));
    assert_eq!(lock.level(), 1);
}

#[test]
fn a_spin_lock_is_taken_once() {
    let mut s = Spin::new();
    s.acquire();
    assert!(s.is_held());
    assert!(!s.try_acquire());
    s.release();
    assert!(s.try_acquire());
    assert_eq!(FlgGuard::enter().0, 0);
}

#[test]
fn event_bits_have_their_places() {
    assert_eq!(EvFlag::READABLE, 1);
    assert_eq!(EvFlag::WRITABLE, 2);
    assert_eq!(EvFlag::ERROR, 4);
    assert_eq!(EvFlag::CLOSED, 8);
    assert_eq!(EvFlag::PROC_QUIT, 1 << 10);
    assert_eq!(EvFlag::CHILD_QUIT, 1 << 11);
    assert_eq!(EvFlag::RECV_SIG, 1 << 12);
    assert_eq!(EvFlag::SEM_RM, 1 << 20);
    assert_eq!(EvFlag::SEM_ACQ, 1 << 21);
}

#[test]
fn a_watcher_leaves_when_its_event_comes() {
    let mut bus = EvBus::make();
    bus.sub(Box::new(EvWatch { mask: EvFlag::CLOSED }));
    bus.sub(Box::new(EvWatch { mask: EvFlag::READABLE }));
    assert_eq!(bus.cb_len(), 2);
    bus.set(EvFlag::READABLE);
    assert_eq!(bus.cb_len(), 1);
    bus.set(EvFlag::READABLE);
    assert_eq!(bus.cb_len(), 1);
    assert_eq!(wait_ev(&bus, EvFlag::CLOSED), None);
    bus.change(EvFlag::READABLE, EvFlag::CLOSED | EvFlag::ERROR);
    assert_eq!(bus.ev, EvFlag::CLOSED | EvFlag::ERROR);
    assert_eq!(bus.cb_len(), 0);
    assert_eq!(wait_ev(&bus, EvFlag::CLOSED), Some(EvFlag::CLOSED | EvFlag::ERROR));
    bus.clear(EvFlag::ERROR);
    assert_eq!(bus.ev, EvFlag::CLOSED);
}

#[test]
fn nobody_is_called_when_no_bit_changes() {
    let mut bus = EvBus::default();
    bus.set(EvFlag::WRITABLE);
    bus.sub(Box::new(EvWatch { mask: EvFlag::WRITABLE }));
    bus.set(EvFlag::WRITABLE);
    bus.clear(EvFlag::CLOSED);
    assert_eq!(bus.cb_len(), 1);
}

#[test]
fn a_semaphore_gives_out_what_it_has() {
    let mut s = Sema::new(1);
    assert_eq!(s.try_acquire(), Ok(true));
    assert_eq!(s.try_acquire(), Ok(false));
    assert_eq!(s.get_val(), 0);
    s.release();
    assert_eq!(s.get_val(), 1);
    assert_eq!(s.bus.ev, EvFlag::SEM_ACQ);
    assert_eq!(s.acquire_spin(), Ok(()));
    assert_eq!(s.bus.ev, 0);
    s.set_val(-2);
    assert_eq!(s.try_acquire(), Ok(false));
    s.release();
    assert_eq!((s.get_val(), s.bus.ev), (-1, 0));
    s.set_val(3);
    assert_eq!(s.bus.ev, EvFlag::SEM_ACQ);
    s.set_pid(9);
    assert_eq!((s.get_pid(), s.get_ncnt()), (9, 0));
}

#[test]
fn leaving_a_guarded_section_gives_the_unit_back() {
    let mut s = Sema::new(2);
    match s.access() {
        Ok(g) => {
            assert_eq!(g.s.get_val(), 1);
            g.leave();
        },
        Err(e) => panic!("{}", e),
    }
    assert_eq!(s.get_val(), 2);
}

#[test]
fn a_removed_semaphore_refuses() {
    let mut s = Sema::new(5);
    s.remove();
    assert_eq!(s.try_acquire(), Err("removed"));
    assert_eq!(s.acquire_spin(), Err("removed"));
    assert!(s.access().is_err());
    assert_eq!(s.bus.ev & EvFlag::SEM_RM, EvFlag::SEM_RM);
    assert_eq!(s.get_val(), 5);
}

#[test]
fn a_futex_wakes_in_order_and_only_at_its_address() {
    let mut b = FutexBucket::new();
    assert_eq!(b.wait(8, 1, 2, 70), Err("changed"));
    for (addr, who) in [(8, 1), (16, 2), (8, 3), (8, 4)] {
        assert_eq!(b.wait(addr, 7, 7, who), Ok(()));
    }
    assert_eq!(b.pending_at(8), 3);
    assert_eq!(b.wake(8, 2), vec![1, 3]);
    assert_eq!((b.pending_at(8), b.pending_at(16)), (1, 1));
    assert_eq!(b.wake(8, 0), Vec::<usize>::new());
    assert_eq!(b.wake(8, 9), vec![4]);
    assert_eq!(FutexBucket::wait_result(true), Ok(()));
    assert_eq!(FutexBucket::wait_result(false), Err("timeout"));
}

#[test]
fn a_requeue_wakes_some_and_moves_some() {
    let mut b = FutexBucket::new();
    for who in 1..6 {
        assert_eq!(b.wait(8, 0, 0, who), Ok(()));
    }
    assert_eq!(b.requeue(8, 24, 1, 2), vec![1]);
    assert_eq!((b.pending_at(8), b.pending_at(24)), (2, 2));
    assert_eq!(b.wake(24, 5), vec![2, 3]);
    assert_eq!(b.wake(8, 5), vec![4, 5]);
}

#[test]
fn a_futex_table_wakes_as_many_as_it_may() {
    let mut t = FutexTable::new();
    assert!(!t.ftx_wait(8, 1, 0, 10));
    for who in 1..5 {
        assert!(t.ftx_wait(8, 1, 1, who));
    }
    assert!(t.ftx_wait(32, 1, 1, 50));
    assert_eq!(t.ftx_wake(8, 2), vec![1, 2]);
    assert_eq!(t.ftx_requeue(8, 32, 1, 5), vec![3]);
    assert_eq!(t.ftx_wake(32, 9), vec![4, 50]);
    assert_eq!(t.ftx_wake(32, 9), Vec::<usize>::new());
}

#[test]
fn a_signal_without_sleepers_is_kept_for_the_next() {
    let mut q = SyncQueue::new();
    assert_eq!(q.park_on(true, 1), ParkStep::Ready);
    assert_eq!(q.signal(), None);
    assert_eq!(q.park_on(false, 1), ParkStep::Recheck);
    assert_eq!(q.park_on(false, 1), ParkStep::Sleep);
    assert_eq!(q.park_on(false, 2), ParkStep::Sleep);
    assert_eq!(q.pending(), 2);
    assert_eq!(q.signal(), Some(1));
    assert_eq!(q.signal(), Some(2));
    assert_eq!(q.pending_signals, 0);
}

#[test]
fn sleepers_wake_in_their_order() {
    let mut q = SyncQueue::new();
    q.wait_guard(4);
    assert!(q.wait_timeout(5));
    assert_eq!(q.wait_ev(None, 6), None);
    assert_eq!(q.wait_ev(Some(false), 7), Some(false));
    assert_eq!(q.signal_n(2), vec![4, 5]);
    q.wait_guard(8);
    assert_eq!(q.broadcast(), vec![6, 8]);
    assert_eq!(q.signal_n(3), Vec::<usize>::new());
}

#[test]
fn a_thread_can_sleep_in_many_queues() {
    let mut qs = vec![SyncQueue::new(), SyncQueue::new()];
    assert_eq!(SyncQueue::wait_events(&mut qs, None, 3), None);
    assert_eq!(qs[0].signal(), Some(3));
    assert_eq!(qs[1].pending(), 1);
    assert_eq!(SyncQueue::wait_events(&mut qs, Some(true), 3), Some(true));
    assert_eq!(qs[0].pending(), 0);
}

#[test]
fn registrations_are_taken_away_one_by_one() {
    let mut q = SyncQueue::new();
    q.reg_epoll(1, 2, 3);
    q.reg_epoll(1, 2, 3);
    assert!(!q.unreg_epoll(1, 2, 4));
    assert!(q.unreg_epoll(1, 2, 3));
    assert!(q.unreg_epoll(1, 2, 3));
    assert!(!q.unreg_epoll(1, 2, 3));
}
