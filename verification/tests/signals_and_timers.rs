use chaos_kernel::consts::{SIGCHLD, SIGKILL, SIGSTOP, SIGUSR1, SIG_DFL, SIG_IGN};
use chaos_kernel::signal::{SigAction, SigSet};
use chaos_kernel::timer::{TimerEntry, TimerWheel};

#[test]
fn the_lowest_unblocked_signal_is_delivered() {
    let mut s = SigSet::new();
    assert_eq!(s.deliverable(), None);
    s.sig_raise(SIGCHLD);
    s.sig_raise(SIGUSR1);
    s.sig_raise(64);
    assert!(s.sig_pending(SIGUSR1) && !s.sig_pending(11));
    assert_eq!(s.deliverable(), Some(10));
    s.sig_block(1 << SIGUSR1);
    assert_eq!(s.deliverable(), Some(17));
    assert_eq!(s.coalesce_pending(), 1 << 17);
    s.sig_unblock(1 << SIGUSR1);
    s.sig_clear(SIGCHLD);
    assert_eq!(s.coalesce_pending(), 1 << 10);
}

#[test]
fn signal_zero_is_never_delivered() {
    let mut s = SigSet::new();
    s.sig_raise(0);
    assert_eq!(s.deliverable(), None);
    assert_eq!(s.coalesce_pending(), 0);
    assert_eq!(s.pending, 1);
}

#[test]
fn kill_and_stop_cannot_be_blocked() {
    let mut s = SigSet::new();
    s.sig_block(u64::MAX);
    assert_eq!(s.blocked, !((1 << 9) | (1 << 19)));
    s.sig_setmask(u64::MAX);
    assert_eq!(s.blocked, !((1 << 9) | (1 << 19)));
    s.sig_raise(SIGKILL);
    assert_eq!(s.deliverable(), Some(9));
}

#[test]
fn actions_are_kept_but_for_kill_and_stop() {
    let mut s = SigSet::new();
    for signo in [SIGKILL, SIGSTOP, SIGUSR1, 64, 65] {
        s.set_action(signo, SigAction { handler: 0x4000, flags: 1, mask: 2 });
    }
    assert_eq!(s.get_action(SIGKILL).handler, SIG_DFL);
    assert_eq!(s.get_action(SIGSTOP).handler, SIG_DFL);
    assert_eq!(s.get_action(64).handler, SIG_DFL);
    assert_eq!(s.get_action(1000).handler, SIG_DFL);
    assert_eq!(s.get_action(SIGUSR1).mask, 2);
    s.set_action(SIGCHLD, SigAction { handler: SIG_IGN, flags: 0, mask: 0 });
    assert!(s.is_ignored(SIGCHLD) && !s.is_ignored(SIGUSR1) && !s.is_ignored(1000));
    s.clear_non_caught();
    assert!(s.is_ignored(SIGCHLD));
    let a = s.get_action(SIGUSR1);
    assert_eq!((a.handler, a.flags, a.mask), (SIG_DFL, 1, 2));
    s.clear_non_caught();
    assert!(s.is_ignored(SIGCHLD));
}

#[test]
fn a_timer_is_due_after_its_deadline() {
    let mut t = TimerEntry::new(10, 0, 1);
    assert!(!t.expired(10) && t.expired(11));
    assert_eq!((t.remaining(4), t.remaining(10), t.remaining(11)), (6, 0, 0));
    t.reset(20);
    assert!(!t.active);
    let mut p = TimerEntry::new(10, 5, 1);
    assert!(p.repeat);
    p.reset(20);
    assert_eq!((p.deadline, p.active), (25, true));
    p.cancel();
    assert!(!p.active);
}

#[test]
fn the_wheel_fires_what_is_due_and_keeps_the_rest() {
    let mut w = TimerWheel::new();
    assert_eq!(w.slots.len(), 256);
    w.add_timer(TimerEntry::new(1, 0, 7));
    w.add_timer(TimerEntry::new(257, 0, 8));
    w.add_timer(TimerEntry::new(1, 4, 9));
    w.add_timer(TimerEntry::new(1, 0, 10));
    assert!(w.cancel(10));
    assert!(!w.cancel(10));
    assert_eq!(w.active_count(), 3);
    let fired = w.advance(2);
    let ids: Vec<usize> = fired.iter().map(|e| e.callback_id).collect();
    assert_eq!(ids, vec![7, 9]);
    assert_eq!(fired[1].deadline, 6);
    assert_eq!(w.slots[1].len(), 1);
    assert_eq!((w.slots[6].len(), w.slots[6][0].deadline), (1, 6));
    assert_eq!(w.active_count(), 2);
}

#[test]
fn the_wheel_goes_round() {
    let mut w = TimerWheel::new();
    w.add_timer(TimerEntry::new(0, 0, 3));
    for now in 1..256 {
        assert_eq!(w.advance(now).len(), 0);
    }
    assert_eq!(w.advance(256).len(), 1);
    assert_eq!(w.current_slot, 0);
}
