use chaos_kernel::consts::{
    SYS_CLOSE, SYS_EXIT, SYS_OPEN, SYS_READ, SYS_WAIT4, SYS_WRITE,
};
use chaos_kernel::kernel::Kernel;

fn started() -> Kernel {
    let mut k = Kernel::new(64);
    k.proc_init(0x10_0000);
    k
}

fn locks_are_free(k: &Kernel) -> bool {
    !k.gkl.held() && k.gkl.level() == 0 && k.cache.chains.iter().all(|c| !c.lk.is_held())
}

#[test]
fn ticks_between_cached_calls_keep_no_lock() {
    let mut k = started();
    for i in 0..50usize {
        k.tick(1);
        let _ = k.dispatch_syscall(SYS_WRITE, 1, 0, 10, 0, 0, 0);
        let _ = k.dispatch_syscall(SYS_READ, 0, 0, 10, 0, 0, 0);
        assert!(k.cache.fetch(i % 64, i).is_some());
        assert!(locks_are_free(&k));
    }
    assert_eq!(k.cache_stats(), (50, 0));
}

#[test]
fn ticks_between_forks_keep_no_lock() {
    let mut k = started();
    for i in 0..20usize {
        k.tick(1);
        assert_eq!(k.balance_load(), 0);
        assert_eq!(k.do_fork(1), Ok(i + 2));
        assert!(locks_are_free(&k));
    }
    assert_eq!(k.tasks.count(), 21);
}

#[test]
fn chains_of_forks_reach_the_root() {
    let mut k = started();
    let mut last = 1;
    for _ in 0..10 {
        last = k.do_fork(last).unwrap();
    }
    let mut t = k.tasks.find(last).unwrap();
    let mut depth = 0;
    while let Some(p) = k.tasks.tasks[t].parent {
        t = p;
        depth += 1;
    }
    assert_eq!((depth, Some(t)), (10, k.tasks.root));
}

#[test]
fn pages_blocks_and_calls_do_not_disturb_each_other() {
    let mut k = started();
    for i in 0..30usize {
        let pages = k.alloc_pages(4);
        assert_eq!(pages.len(), 4);
        assert!(k.cache.fetch(i % 64, 0).is_some());
        k.cache.invalidate(i % 64);
        assert_eq!(k.dispatch_syscall(SYS_WRITE, 1, 0, 10, 0, 0, 0), Err("efault"));
        assert_eq!(k.dispatch_syscall(SYS_OPEN, 0, 2, 0o755, 0, 0, 0), Err("efault"));
        assert_eq!(k.dispatch_syscall(SYS_CLOSE, 3, 0, 0, 0, 0, 0), Ok(0));
        k.free_pages(&pages);
        assert!(locks_are_free(&k));
    }
    assert_eq!((k.memory_pressure(), k.cache_stats()), (0, (0, 0)));
}

#[test]
fn exits_forks_and_waits_take_turns() {
    let mut k = started();
    for _ in 0..15 {
        let child = k.do_fork(1).unwrap();
        assert_eq!(k.dispatch_syscall(SYS_EXIT, child, 0, 0, 0, 0, 0), Ok(0));
        assert!(k.do_fork(1).is_ok());
        assert_eq!(k.dispatch_syscall(SYS_WAIT4, 1, usize::MAX, 1, 0, 0, 0), Err("efault"));
        assert_eq!(k.balance_load(), 0);
        k.schedule_tick(0);
        assert!(locks_are_free(&k));
    }
    assert_eq!((k.tasks.count(), k.reclaim_zombies()), (31, 0));
}
