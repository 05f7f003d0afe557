use chaos_kernel::consts::{
    FIOCLEX, FIONBIO, FIONCLEX, F_DUPFD, F_DUPFD_CLOEXEC, F_GETFD, F_GETFL, F_GETLK, F_SETFD,
    F_SETFL, F_SETLK, F_SETLKW, MEM_OFF, N_FRAMES, O_APPEND, O_CLOEXEC, O_NONBLOCK, PAGE_SZ,
    SIGKILL, SIGSTOP, SYS_BRK, SYS_CLOCK_GETTIME, SYS_CLOSE, SYS_DUP, SYS_DUP2, SYS_EPOLL_CREATE,
    SYS_EPOLL_CTL, SYS_EPOLL_WAIT, SYS_EXEC, SYS_EXIT, SYS_FCNTL, SYS_FORK, SYS_FSTAT, SYS_FUTEX,
    SYS_GETPGID, SYS_GETPID, SYS_GETPPID, SYS_IOCTL, SYS_KILL, SYS_MMAP, SYS_MUNMAP, SYS_OPEN,
    SYS_PIPE, SYS_READ, SYS_SETPGID, SYS_SETSID, SYS_SIGACTION, SYS_SIGPROCMASK, SYS_STAT,
    SYS_WAIT4, SYS_WRITE, TCGETS, TCSETS, TIOCGPGRP, TIOCGWINSZ, TIOCSPGRP,
};
use chaos_kernel::fs::files::{FHandle, FdOpt};
use chaos_kernel::fs::flike::FLike;
use chaos_kernel::kernel::Kernel;
use chaos_kernel::sync::EvFlag;

const TOP: usize = 0xFFFF_FFFF_8000_0000;

fn call(k: &mut Kernel, nr: usize, a: &[usize]) -> Result<u64, &'static str> {
    let mut v = [0usize; 6];
    v[..a.len()].copy_from_slice(a);
    k.dispatch_syscall(nr, v[0], v[1], v[2], v[3], v[4], v[5])
}

fn started() -> (Kernel, usize) {
    let mut k = Kernel::new(64);
    k.proc_init(0x10_0000);
    let root = k.tasks.root.unwrap();
    k.set_cur(0, Some(root));
    (k, root)
}

fn minus(n: isize) -> usize {
    (-n) as usize
}

#[test]
fn the_first_process_is_set_up() {
    let (k, root) = started();
    let t = &k.tasks.tasks[root];
    assert_eq!((t.id(), t.tag(), t.threads.clone()), (1, "init".to_string(), vec![1]));
    assert_eq!(t.kstk.as_ref().map(|s| s.top()), Some(0x10_4000));
    assert_eq!(k.mnt.list_mounts(), vec![("/config".to_string(), "configfs".to_string())]);
    assert!(k.configfs.lookup("demo").is_ok());
    assert_eq!((k.cpus.len(), k.cache.width, k.pool.cap), (8, 64, 64));
}

#[test]
fn processors_run_what_they_are_given() {
    let (mut k, root) = started();
    assert_eq!((k.cur_task(0), k.cur_task(1), k.cur_task(8)), (Some(root), None, None));
    assert!(k.handle_pgfault(0x1234) && k.handle_pgfault_ext(0x1234, 2));
    k.set_cur(8, Some(root));
    k.set_cur(0, None);
    assert!(!k.handle_pgfault(0x1234) && !k.handle_pgfault_ext(0x1234, 1));
    assert_eq!(k.cur_task(0), None);
}

#[test]
fn a_tick_cleans_the_cache_and_leaves_the_lock() {
    let (mut k, _) = started();
    let _ = k.cache.fetch(1, 0);
    assert_eq!(call(&mut k, SYS_WRITE, &[1, 0x1000, 5]), Ok(5));
    assert_eq!((k.cache_stats(), k.cache.ops), ((1, 1), 1));
    k.tick(3);
    assert_eq!((k.cache_stats(), k.gkl.held()), ((1, 0), false));
    k.schedule_tick(0);
    k.schedule_tick(2);
    assert_eq!((k.clock.clk, k.clock.clk_all), (1, 2));
}

#[test]
fn the_terminal_keeps_what_fits() {
    let (mut k, _) = started();
    k.tty_push(b'\r');
    k.tty_push(b'a');
    assert_eq!((k.tty_pop(), k.tty_pop(), k.tty_pop()), (Some(b'\n'), Some(b'a'), None));
    for _ in 0..5000 {
        k.tty_push(b'z');
    }
    assert_eq!(k.tty_buf.len(), 4096);
}

#[test]
fn semaphores_and_segments_are_kept_by_key() {
    let (mut k, _) = started();
    let a = k.get_sem(4, 2, 0).unwrap();
    assert_eq!(k.get_sem(4, 2, 0), Ok(a));
    assert_eq!(k.get_sem(4, 2, 0x600), Err("eexist"));
    let g = k.get_shm(4, 2);
    assert_eq!(k.get_shm(4, 9), g);
}

#[test]
fn low_descriptors_read_from_the_cache() {
    let (mut k, _) = started();
    assert_eq!(call(&mut k, SYS_READ, &[0, 0, 1]), Err("efault"));
    assert_eq!(call(&mut k, SYS_READ, &[0, 0, 0]), Ok(0));
    assert_eq!(call(&mut k, SYS_READ, &[0, TOP - 3, 4]), Err("efault"));
    assert_eq!(call(&mut k, SYS_READ, &[0, TOP - 4, 4]), Ok(4));
    assert_eq!(call(&mut k, SYS_READ, &[0, 0x1000, 100]), Ok(100));
    assert_eq!(call(&mut k, SYS_READ, &[0, 0x1000, 17 * PAGE_SZ]), Ok(16 * 4096));
    let _ = k.cache.fetch(2, 0);
    assert_eq!(call(&mut k, SYS_READ, &[2, 0x1000, 100]), Ok(100));
    assert_eq!(call(&mut k, SYS_READ, &[2, 0x1000, 3 * PAGE_SZ]), Ok(2 * 4096));
}

#[test]
fn low_descriptors_write_what_is_asked() {
    let (mut k, _) = started();
    assert_eq!(call(&mut k, SYS_WRITE, &[1, 0, 1]), Err("efault"));
    assert_eq!(call(&mut k, SYS_WRITE, &[1, 0, 0]), Ok(0));
    assert_eq!(call(&mut k, SYS_WRITE, &[1, 0x1FF0, 16]), Ok(16));
    assert_eq!(call(&mut k, SYS_WRITE, &[1, 0x1FF0, 17]), Ok(17));
    assert_eq!(call(&mut k, SYS_WRITE, &[1, 0x1800, 4096]), Ok(4096));
    assert_eq!(call(&mut k, SYS_WRITE, &[1, TOP - 1, 1]), Ok(1));
    assert_eq!(call(&mut k, SYS_WRITE, &[1, TOP, 1]), Err("efault"));
}

#[test]
fn high_descriptors_use_the_files_of_the_task() {
    let (mut k, root) = started();
    let rw = FdOpt { rd: true, wr: true, ap: false, nb: false };
    for _ in 0..4 {
        let f = FHandle::new(&mut k.shared.files, "/f", rw, false, false);
        k.tasks.tasks[root].add_file(FLike::File(f));
    }
    assert_eq!(call(&mut k, SYS_WRITE, &[3, 0x1000, 10]), Ok(10));
    assert_eq!(k.write_fd(3, b"ab"), Ok(2));
    assert_eq!(k.read_fd(3, 4), Ok(vec![]));
    assert_eq!((k.read_fd(9, 4), k.write_fd(9, b"x")), (Err("ebadf"), Err("ebadf")));
    assert_eq!(call(&mut k, SYS_READ, &[9, 0x1000, 4]), Err("ebadf"));
    k.set_cur(0, None);
    assert_eq!((k.read_fd(3, 4), k.write_fd(3, b"x")), (Err("esrch"), Err("esrch")));
    assert_eq!(call(&mut k, SYS_WRITE, &[3, 0x1000, 10]), Err("esrch"));
}

#[test]
fn files_are_opened_below_no_mount() {
    let mut k = Kernel::new(4);
    assert_eq!(call(&mut k, SYS_OPEN, &[0, 0]), Err("efault"));
    assert_eq!(call(&mut k, SYS_OPEN, &[TOP, 0]), Err("efault"));
    assert_eq!(call(&mut k, SYS_OPEN, &[70, 0]), Ok(3 + 6));
    let t = k.tasks.spawn("t");
    k.set_cur(0, Some(t));
    assert_eq!(call(&mut k, SYS_OPEN, &[70, 2 | O_APPEND | O_NONBLOCK | O_CLOEXEC | 0o1000]), Ok(0));
    let FLike::File(f) = &k.tasks.tasks[t].files[&0] else {
        panic!("expected a file");
    };
    let o = f.get_opt(&k.shared.files);
    assert_eq!((o.rd, o.wr, o.ap, o.nb, f.cloexec), (true, true, true, true, true));
    assert_eq!(f.path, "anon");
    let _ = k.cache.fetch(70, 0);
    assert_eq!(call(&mut k, SYS_OPEN, &[70, 0o300]), Err("eexist"));
    assert_eq!(call(&mut k, SYS_OPEN, &[71, 0o301]), Ok(1));
}

#[test]
fn a_path_below_the_mount_has_to_exist() {
    let (mut k, _) = started();
    assert_eq!(k.lookup_path("/config/demo/c"), Ok("configfs:/demo/c".to_string()));
    assert_eq!(k.lookup_path(""), Err("enoent"));
    assert_eq!(call(&mut k, SYS_OPEN, &[70, 0]), Err("enoent"));
}

#[test]
fn paths_are_normalized_before_they_are_resolved() {
    let (k, _) = started();
    let bare = Kernel::new(64);
    assert_eq!(bare.lookup_path("/a/./b/../c"), Ok("/a/c".to_string()));
    assert_eq!(bare.lookup_path("//a///b/"), Ok("/a/b".to_string()));
    assert_eq!(bare.lookup_path("/../.."), Ok("/".to_string()));
    assert_eq!(k.lookup_path("/x/../config/./demo//c"), Ok("configfs:/demo/c".to_string()));
    assert_eq!(k.lookup_path("/config/../config/demo"), Ok("configfs:/demo".to_string()));
}

#[test]
fn closing_forgets_the_cached_block() {
    let (mut k, _) = started();
    let _ = k.cache.fetch(5, 0);
    assert_eq!(call(&mut k, SYS_CLOSE, &[5]), Ok(0));
    assert_eq!((k.cache_stats(), k.cache.ops), ((0, 0), 1));
    assert_eq!(call(&mut k, SYS_CLOSE, &[1]), Ok(0));
    assert_eq!(call(&mut k, SYS_CLOSE, &[1024]), Ok(0));
    assert_eq!(call(&mut k, SYS_CLOSE, &[1025]), Err("ebadf"));
    assert_eq!(k.cache.ops, 1);
}

#[test]
fn closing_drops_the_descriptor() {
    let (mut k, root) = started();
    for _ in 0..2 {
        let _ = k.do_pipe(1).unwrap();
    }
    assert_eq!(k.write_fd(3, b"ab"), Ok(2));
    assert_eq!(call(&mut k, SYS_CLOSE, &[3]), Ok(0));
    assert_eq!((k.tasks.tasks[root].fd_count(), k.shared.files.pipes[1].ends), (3, 1));
    assert_eq!(k.write_fd(3, b"c"), Err("ebadf"));
    assert_eq!(call(&mut k, SYS_CLOSE, &[3]), Ok(0));
    assert_eq!(call(&mut k, SYS_CLOSE, &[0]), Ok(0));
    assert_eq!((k.tasks.tasks[root].fd_count(), k.shared.files.pipes[0].ends), (3, 2));
    assert_eq!(k.read_fd(2, 9), Ok(b"ab".to_vec()));
    assert_eq!(k.read_fd(2, 9), Ok(vec![]));
    k.set_cur(0, None);
    assert_eq!(call(&mut k, SYS_CLOSE, &[2]), Ok(0));
    assert_eq!(k.tasks.tasks[root].fd_count(), 3);
}

#[test]
fn status_needs_room() {
    let (mut k, _) = started();
    assert_eq!(call(&mut k, SYS_STAT, &[0x1000, 0x2000]), Ok(0));
    assert_eq!(call(&mut k, SYS_STAT, &[TOP, 0x2000]), Err("efault"));
    assert_eq!(call(&mut k, SYS_FSTAT, &[TOP, 0x2000]), Ok(0));
    assert_eq!(call(&mut k, SYS_FSTAT, &[1, 0]), Err("efault"));
    assert_eq!(call(&mut k, SYS_FSTAT, &[1, TOP - 143]), Err("efault"));
    assert_eq!(call(&mut k, SYS_FSTAT, &[1, TOP - 144]), Ok(0));
}

#[test]
fn mappings_are_placed_by_time_and_descriptor() {
    let (mut k, _) = started();
    assert_eq!(call(&mut k, SYS_MMAP, &[0, 0]), Err("einval"));
    assert_eq!(call(&mut k, SYS_MMAP, &[0, 1, 3, 0x20, 5]), Ok(0x7000_5000));
    k.schedule_tick(0);
    assert_eq!(call(&mut k, SYS_MMAP, &[0x4000, 1, 3, 0x20, 5]), Ok(0x7000_6000));
    assert_eq!(call(&mut k, SYS_MMAP, &[0x4321, 1, 3, 0x30, 5]), Ok(0x4321));
    assert_eq!(call(&mut k, SYS_MMAP, &[0, 65 * PAGE_SZ, 3, 0x20]), Err("enomem"));
    assert_eq!(call(&mut k, SYS_MMAP, &[0, 1, 3, 0, 0, 2 * PAGE_SZ]), Err("einval"));
    assert_eq!(call(&mut k, SYS_MMAP, &[0, 1, 3, 0, 0, PAGE_SZ]), Ok(0x7000_1000));
    assert_eq!(call(&mut k, SYS_MUNMAP, &[0x7000_1000, 9]), Ok(0));
    assert_eq!(call(&mut k, SYS_MUNMAP, &[0x7000_1001, 9]), Err("einval"));
}

#[test]
fn the_break_takes_frames() {
    let (mut k, root) = started();
    assert_eq!(call(&mut k, SYS_BRK, &[0]), Ok(0x0040_0000));
    assert_eq!(call(&mut k, SYS_BRK, &[TOP]), Err("enomem"));
    assert_eq!(call(&mut k, SYS_BRK, &[2 * PAGE_SZ + 1]), Ok(3 * 4096));
    assert_eq!((k.pool.free_count(), k.tasks.tasks[root].vm_token), (61, 3 * PAGE_SZ));
    assert_eq!(call(&mut k, SYS_BRK, &[0]), Ok(3 * 4096));
    assert_eq!(call(&mut k, SYS_BRK, &[PAGE_SZ]), Ok(4096));
    assert_eq!((k.pool.free_count(), k.tasks.tasks[root].vm_token), (63, PAGE_SZ));
    assert_eq!(k.tasks.tasks[root].heap, vec![MEM_OFF]);
    assert_eq!(call(&mut k, SYS_BRK, &[0]), Ok(4096));
    assert_eq!(call(&mut k, SYS_BRK, &[65 * PAGE_SZ]), Err("enomem"));
    assert_eq!((k.pool.free_count(), k.tasks.tasks[root].vm_token), (63, PAGE_SZ));
    assert_eq!(call(&mut k, SYS_BRK, &[64 * PAGE_SZ]), Ok(64 * 4096));
    assert_eq!(k.pool.free_count(), 0);
    k.set_cur(0, None);
    assert_eq!(call(&mut k, SYS_BRK, &[99 * PAGE_SZ]), Ok(99 * 4096));
    assert_eq!(call(&mut k, SYS_BRK, &[0]), Ok(0x0040_0000));
}

#[test]
fn a_child_gives_back_only_what_it_took() {
    let (mut k, root) = started();
    assert_eq!(call(&mut k, SYS_BRK, &[4 * PAGE_SZ]), Ok(4 * 4096));
    let c = call(&mut k, SYS_FORK, &[]).unwrap() as usize;
    let ct = k.tasks.find(c).unwrap();
    k.set_cur(0, Some(ct));
    assert_eq!(call(&mut k, SYS_BRK, &[0]), Ok(4 * 4096));
    assert_eq!(call(&mut k, SYS_BRK, &[6 * PAGE_SZ]), Ok(6 * 4096));
    assert_eq!(k.pool.free_count(), 58);
    assert_eq!(call(&mut k, SYS_BRK, &[PAGE_SZ]), Ok(4096));
    assert_eq!((k.pool.free_count(), k.tasks.tasks[root].heap.len()), (60, 4));
}

#[test]
fn terminal_controls_check_their_argument() {
    let (mut k, _) = started();
    for (cmd, size) in [(TCGETS, 60), (TCSETS, 60), (TIOCGPGRP, 4), (TIOCSPGRP, 4), (TIOCGWINSZ, 8), (FIONBIO, 4)] {
        assert_eq!(call(&mut k, SYS_IOCTL, &[0, cmd, TOP - size]), Ok(0));
        assert_eq!(call(&mut k, SYS_IOCTL, &[0, cmd, TOP - size + 1]), Err("efault"));
    }
    assert_eq!(call(&mut k, SYS_IOCTL, &[0, FIONCLEX, TOP]), Ok(0));
    assert_eq!(call(&mut k, SYS_IOCTL, &[0, FIOCLEX, TOP]), Ok(0));
    assert_eq!(call(&mut k, SYS_IOCTL, &[0, 7, 0]), Err("enotty"));
}

#[test]
fn a_pipe_needs_two_descriptors() {
    let (mut k, root) = started();
    assert_eq!(call(&mut k, SYS_PIPE, &[0]), Err("efault"));
    assert_eq!(call(&mut k, SYS_PIPE, &[TOP - 7]), Err("efault"));
    assert_eq!(call(&mut k, SYS_PIPE, &[0x1000]), Ok(1 << 32));
    assert_eq!(call(&mut k, SYS_PIPE, &[0x1000]), Ok(2 | (3 << 32)));
    assert_eq!(k.write_fd(3, b"hi"), Ok(2));
    assert_eq!(k.read_fd(2, 9), Ok(b"hi".to_vec()));
    assert_eq!(k.read_fd(2, 9), Err("again"));
    for _ in 4..255 {
        let f = FHandle::new(&mut k.shared.files, "/f", FdOpt::default(), false, false);
        k.tasks.tasks[root].add_file(FLike::File(f));
    }
    assert_eq!(call(&mut k, SYS_PIPE, &[0x1000]), Err("emfile"));
    k.set_cur(0, None);
    assert_eq!(call(&mut k, SYS_PIPE, &[0x1000]), Err("esrch"));
}

#[test]
fn descriptors_are_copied_by_call() {
    let (mut k, root) = started();
    for _ in 0..2 {
        let f = FHandle::new(&mut k.shared.files, "/f", FdOpt::default(), false, false);
        k.tasks.tasks[root].add_file(FLike::File(f));
    }
    assert_eq!(call(&mut k, SYS_DUP, &[0]), Ok(2));
    assert_eq!(k.tasks.tasks[root].fd_count(), 3);
    let FLike::File(f) = &k.tasks.tasks[root].files[&2] else {
        panic!("expected a file");
    };
    assert_eq!((f.path.as_str(), f.data, f.cloexec), ("/f", 0, false));
    assert_eq!(call(&mut k, SYS_DUP, &[9]), Ok(9));
    assert_eq!(call(&mut k, SYS_DUP, &[1024]), Err("ebadf"));
    assert_eq!(call(&mut k, SYS_DUP2, &[0, 7]), Ok(7));
    assert_eq!(call(&mut k, SYS_DUP2, &[7, 7]), Ok(7));
    assert_eq!(k.tasks.tasks[root].fd_count(), 4);
    assert_eq!(call(&mut k, SYS_DUP2, &[9, 7]), Err("ebadf"));
    assert_eq!(k.tasks.tasks[root].fd_count(), 3);
    assert_eq!(call(&mut k, SYS_DUP2, &[1024, 7]), Err("ebadf"));
    assert_eq!(call(&mut k, SYS_DUP2, &[0, 1024]), Err("ebadf"));
    k.set_cur(0, None);
    assert_eq!(call(&mut k, SYS_DUP, &[4]), Ok(5));
    assert_eq!(call(&mut k, SYS_DUP2, &[4, 6]), Ok(6));
}

#[test]
fn forking_by_call_needs_memory() {
    let (mut k, root) = started();
    assert_eq!(call(&mut k, SYS_FORK, &[]), Ok(2));
    let c = k.tasks.find(2).unwrap();
    assert_eq!((k.tasks.tasks[c].parent, k.tasks.tasks[root].subtasks.clone()), (Some(root), vec![c]));
    assert_eq!(k.alloc_pages(58).len(), 58);
    assert_eq!((k.memory_pressure(), call(&mut k, SYS_FORK, &[])), (90, Ok(3)));
    assert_eq!(k.alloc_pages(1).len(), 1);
    assert_eq!((k.memory_pressure(), call(&mut k, SYS_FORK, &[])), (92, Err("enomem")));
    assert_eq!((k.tasks.seq, k.tasks.count(), k.tasks.tasks[root].n_children()), (5, 3, 2));
    let mut big = Kernel::new(N_FRAMES);
    assert_eq!(call(&mut big, SYS_FORK, &[]), Ok(1));
    assert_eq!(call(&mut big, SYS_FORK, &[]), Ok(2));
    assert_eq!((big.tasks.seq, big.tasks.count()), (3, 0));
}

#[test]
fn programs_are_started_from_readable_paths() {
    let (mut k, _) = started();
    assert_eq!(call(&mut k, SYS_EXEC, &[0x1000, 0, 0]), Ok(0));
    assert_eq!(call(&mut k, SYS_EXEC, &[0x1000, 0x2000, 0x3000]), Ok(0));
    assert_eq!(call(&mut k, SYS_EXEC, &[0]), Err("efault"));
    assert_eq!(call(&mut k, SYS_EXEC, &[TOP - 255]), Err("efault"));
    assert_eq!(call(&mut k, SYS_EXEC, &[0x1000, TOP - 511]), Err("efault"));
    assert_eq!(call(&mut k, SYS_EXEC, &[0x1000, 0, TOP - 511]), Err("efault"));
    assert_eq!(call(&mut k, SYS_EXEC, &[TOP - 256, TOP - 512, TOP - 512]), Ok(0));
}

#[test]
fn exiting_tells_the_parent_and_hands_children_on() {
    let (mut k, root) = started();
    let p = k.do_fork(1).unwrap();
    let c = k.do_fork(p).unwrap();
    let pt = k.tasks.find(p).unwrap();
    let ct = k.tasks.find(c).unwrap();
    k.set_cur(0, Some(pt));
    assert_eq!(call(&mut k, SYS_EXIT, &[7]), Ok(0));
    assert!(k.tasks.tasks[pt].done());
    assert_eq!(k.tasks.tasks[root].sig_queue[0], (17, p as isize));
    assert_eq!(k.tasks.tasks[root].ev.ev, EvFlag::CHILD_QUIT | EvFlag::RECV_SIG);
    assert_eq!((k.tasks.tasks[ct].parent, k.tasks.tasks[root].n_children()), (Some(root), 2));
    assert_eq!(k.tasks.tasks[pt].n_children(), 0);
    k.set_cur(0, Some(root));
    assert_eq!(call(&mut k, SYS_EXIT, &[0]), Ok(0));
    assert_eq!(k.tasks.tasks[root].subtasks, vec![pt, ct]);
    k.set_cur(0, None);
    assert_eq!(call(&mut k, SYS_EXIT, &[7]), Ok(0));
}

#[test]
fn waiting_finds_what_has_ended() {
    let (mut k, root) = started();
    let c = k.do_fork(1).unwrap();
    let ct = k.tasks.find(c).unwrap();
    k.tasks.tasks[ct].pgid = 9;
    for pid in [minus(1), 0, c, minus(9)] {
        assert_eq!(call(&mut k, SYS_WAIT4, &[pid]), Err("echild"));
        assert_eq!(call(&mut k, SYS_WAIT4, &[pid, 0, 1]), Ok(0));
    }
    assert_eq!(call(&mut k, SYS_WAIT4, &[minus(8), 0, 1]), Err("echild"));
    assert_eq!(call(&mut k, SYS_WAIT4, &[77, 0, 1]), Err("echild"));
    k.set_cur(0, Some(ct));
    assert_eq!(call(&mut k, SYS_EXIT, &[3]), Ok(0));
    for pid in [minus(1), 0, c, minus(9)] {
        assert_eq!(call(&mut k, SYS_WAIT4, &[pid]), Ok(c as u64));
    }
    k.set_cur(0, Some(root));
    assert_eq!(call(&mut k, SYS_WAIT4, &[0]), Err("echild"));
    assert_eq!(call(&mut k, SYS_WAIT4, &[c, TOP]), Err("efault"));
    assert_eq!(call(&mut k, SYS_WAIT4, &[c, 0, 0, TOP]), Err("efault"));
    k.set_cur(0, None);
    assert_eq!(call(&mut k, SYS_WAIT4, &[0, 0, 1]), Err("echild"));
}

#[test]
fn signals_go_to_one_to_a_group_or_to_all() {
    let (mut k, root) = started();
    assert_eq!(call(&mut k, SYS_KILL, &[minus(1), 10]), Err("esrch"));
    let c = k.do_fork(1).unwrap();
    let ct = k.tasks.find(c).unwrap();
    assert_eq!(call(&mut k, SYS_KILL, &[c, 65]), Err("einval"));
    assert_eq!(call(&mut k, SYS_KILL, &[c, 64]), Ok(0));
    assert_eq!(call(&mut k, SYS_KILL, &[0, 10]), Ok(2));
    assert_eq!(call(&mut k, SYS_KILL, &[minus(1), 10]), Ok(1));
    assert_eq!(call(&mut k, SYS_KILL, &[99, 10]), Err("esrch"));
    assert_eq!(call(&mut k, SYS_KILL, &[minus(99), 10]), Err("esrch"));
    k.tasks.tasks[ct].pgid = 5;
    assert_eq!(call(&mut k, SYS_KILL, &[minus(5), 10]), Ok(1));
    assert_eq!((k.tasks.tasks[root].sig_queue.len(), k.tasks.tasks[ct].sig_queue.len()), (1, 4));
    k.set_cur(0, Some(ct));
    assert_eq!(call(&mut k, SYS_EXIT, &[0]), Ok(0));
    assert_eq!(call(&mut k, SYS_KILL, &[c, 10]), Err("esrch"));
    assert_eq!(call(&mut k, SYS_KILL, &[c, 0]), Ok(0));
    k.set_cur(0, None);
    assert_eq!(call(&mut k, SYS_KILL, &[0, 10]), Ok(0));
}

#[test]
fn the_first_process_cannot_be_killed() {
    let (mut k, root) = started();
    for sig in [SIGKILL as usize, SIGSTOP as usize] {
        for pid in [0, 1, minus(1)] {
            assert_eq!(call(&mut k, SYS_KILL, &[pid, sig]), Err("eperm"));
        }
    }
    assert_eq!(k.tasks.tasks[root].sig_queue.len(), 0);
}

#[test]
fn file_control_answers_each_command() {
    let (mut k, root) = started();
    k.schedule_tick(0);
    assert_eq!(call(&mut k, SYS_FCNTL, &[1024, F_GETFL]), Err("ebadf"));
    assert_eq!(call(&mut k, SYS_FCNTL, &[5, F_DUPFD, 7]), Ok(7));
    assert_eq!(call(&mut k, SYS_FCNTL, &[5, F_DUPFD_CLOEXEC, 7]), Ok(7));
    assert_eq!(call(&mut k, SYS_FCNTL, &[5, F_DUPFD, 1]), Ok(1));
    assert_eq!(call(&mut k, SYS_FCNTL, &[4, F_GETFD]), Ok(0));
    assert_eq!(call(&mut k, SYS_FCNTL, &[4, F_SETFD, 1]), Ok(0));
    assert_eq!(call(&mut k, SYS_FCNTL, &[4, F_GETFD]), Ok(0));
    assert_eq!(k.tasks.tasks[root].fd_count(), 0);
    assert_eq!(call(&mut k, SYS_FCNTL, &[2, F_GETFL]), Ok(0xC00));
    assert_eq!(call(&mut k, SYS_FCNTL, &[3, F_GETFL]), Ok(0x800));
    assert_eq!(call(&mut k, SYS_FCNTL, &[3, F_SETFL, 0xC00]), Ok(0));
    assert_eq!(call(&mut k, SYS_FCNTL, &[3, F_SETFL, 0xC01]), Err("einval"));
    for cmd in [F_GETLK, F_SETLK, F_SETLKW] {
        assert_eq!(call(&mut k, SYS_FCNTL, &[3, cmd, TOP - 32]), Ok(0));
        assert_eq!(call(&mut k, SYS_FCNTL, &[3, cmd, TOP - 31]), Err("efault"));
    }
    assert_eq!(call(&mut k, SYS_FCNTL, &[3, 99]), Err("einval"));
    k.set_cur(0, None);
    assert_eq!(call(&mut k, SYS_FCNTL, &[5, F_DUPFD, 7]), Ok(7));
}

#[test]
fn file_control_copies_to_the_least_free_descriptor() {
    let (mut k, root) = started();
    let rw = FdOpt { rd: true, wr: true, ap: false, nb: false };
    for _ in 0..5 {
        let f = FHandle::new(&mut k.shared.files, "/f", rw, false, false);
        k.tasks.tasks[root].add_file(FLike::File(f));
    }
    assert_eq!(call(&mut k, SYS_FCNTL, &[4, F_DUPFD, 0]), Ok(5));
    assert_eq!(call(&mut k, SYS_FCNTL, &[4, F_DUPFD_CLOEXEC, 7]), Ok(7));
    assert_eq!(call(&mut k, SYS_FCNTL, &[4, F_DUPFD, 6]), Ok(6));
    assert_eq!(call(&mut k, SYS_FCNTL, &[4, F_DUPFD, 6]), Ok(8));
    assert_eq!(k.tasks.tasks[root].fd_count(), 9);
    assert_eq!(call(&mut k, SYS_FCNTL, &[5, F_GETFD]), Ok(0));
    assert_eq!(call(&mut k, SYS_FCNTL, &[7, F_GETFD]), Ok(1));
    assert_eq!(k.write_fd(4, b"ab"), Ok(2));
    let FLike::File(f) = &k.tasks.tasks[root].files[&8] else {
        panic!("expected a file");
    };
    assert_eq!((f.data, k.shared.files.descs[f.desc].off), (4, 2));
}

#[test]
fn flags_of_a_descriptor_are_set_and_read() {
    let (mut k, root) = started();
    let rw = FdOpt { rd: true, wr: true, ap: false, nb: false };
    for _ in 0..4 {
        let f = FHandle::new(&mut k.shared.files, "/f", rw, false, false);
        k.tasks.tasks[root].add_file(FLike::File(f));
    }
    assert_eq!(call(&mut k, SYS_FCNTL, &[3, F_GETFL]), Ok(0));
    for flags in [O_APPEND, O_NONBLOCK, O_APPEND | O_NONBLOCK, 0] {
        assert_eq!(call(&mut k, SYS_FCNTL, &[3, F_SETFL, flags]), Ok(0));
        assert_eq!(call(&mut k, SYS_FCNTL, &[3, F_GETFL]), Ok(flags as u64));
    }
    assert_eq!(call(&mut k, SYS_FCNTL, &[3, F_SETFL, 2]), Err("einval"));
    let o = k.shared.files.descs[3].opt;
    assert!(o.rd && o.wr);
    for (nr, a, want) in [
        (SYS_FCNTL, [3, F_SETFD, 1], 1),
        (SYS_FCNTL, [3, F_SETFD, 2], 0),
        (SYS_IOCTL, [3, FIOCLEX, 0], 1),
        (SYS_IOCTL, [3, FIONCLEX, 0], 0),
        (SYS_FCNTL, [3, F_SETFD, 3], 1),
    ] {
        assert_eq!(call(&mut k, nr, &a), Ok(0));
        assert_eq!(call(&mut k, SYS_FCNTL, &[3, F_GETFD]), Ok(want));
    }
    assert_eq!(k.do_exec(1, "/x", vec![], vec![]), Ok(()));
    assert_eq!(k.tasks.tasks[root].fd_count(), 3);
}

#[test]
fn processes_know_themselves_their_parent_and_their_group() {
    let (mut k, _) = started();
    let c = k.do_fork(1).unwrap();
    let ct = k.tasks.find(c).unwrap();
    assert_eq!(call(&mut k, SYS_GETPPID, &[]), Ok(0));
    assert_eq!(call(&mut k, SYS_SETPGID, &[c, 0]), Ok(0));
    assert_eq!(call(&mut k, SYS_GETPGID, &[c]), Ok(c as u64));
    assert_eq!(call(&mut k, SYS_SETPGID, &[77, 0]), Err("esrch"));
    k.set_cur(0, Some(ct));
    assert_eq!(call(&mut k, SYS_GETPID, &[]), Ok(c as u64));
    assert_eq!(call(&mut k, SYS_GETPPID, &[]), Ok(1));
    assert_eq!(call(&mut k, SYS_SETPGID, &[1, 5]), Err("esrch"));
    assert_eq!(call(&mut k, SYS_SETSID, &[]), Err("eperm"));
    assert_eq!(call(&mut k, SYS_SETPGID, &[0, 5]), Ok(0));
    assert_eq!(call(&mut k, SYS_GETPGID, &[0]), Ok(5));
    assert_eq!(call(&mut k, SYS_SETSID, &[]), Ok(c as u64));
    assert_eq!(call(&mut k, SYS_GETPGID, &[88]), Err("esrch"));
    k.set_cur(0, None);
    assert_eq!(call(&mut k, SYS_GETPID, &[]), Ok(1));
    assert_eq!(call(&mut k, SYS_GETPPID, &[]), Ok(0));
    assert_eq!(call(&mut k, SYS_GETPGID, &[0]), Err("esrch"));
    assert_eq!(call(&mut k, SYS_SETSID, &[]), Err("esrch"));
}

#[test]
fn watching_by_call_checks_its_arguments() {
    let (mut k, _) = started();
    assert_eq!(call(&mut k, SYS_EPOLL_CREATE, &[0]), Err("einval"));
    assert_eq!(call(&mut k, SYS_EPOLL_CREATE, &[62]), Ok(4));
    assert_eq!(call(&mut k, SYS_EPOLL_CREATE, &[usize::MAX]), Err("enomem"));
    assert_eq!(call(&mut k, SYS_EPOLL_CTL, &[3, 1, 4, 0x1000]), Ok(0));
    assert_eq!(call(&mut k, SYS_EPOLL_CTL, &[3, 3, 4, 0]), Err("efault"));
    assert_eq!(call(&mut k, SYS_EPOLL_CTL, &[3, 2, 4, 0]), Ok(0));
    assert_eq!(call(&mut k, SYS_EPOLL_CTL, &[3, 2, 4, TOP]), Err("efault"));
    assert_eq!(call(&mut k, SYS_EPOLL_CTL, &[3, 5, 4, 0]), Err("einval"));
    assert_eq!(call(&mut k, SYS_EPOLL_CTL, &[3, (1 << 32) | 2, 4, 0]), Ok(0));
    assert_eq!(call(&mut k, SYS_EPOLL_WAIT, &[3, 0x1000, 4, 10]), Ok(0));
    assert_eq!(call(&mut k, SYS_EPOLL_WAIT, &[3, 0, 4]), Err("einval"));
    assert_eq!(call(&mut k, SYS_EPOLL_WAIT, &[3, 0x1000, 0]), Err("einval"));
    assert_eq!(call(&mut k, SYS_EPOLL_WAIT, &[3, 0x1000, usize::MAX / 2]), Err("einval"));
    assert_eq!(call(&mut k, SYS_EPOLL_WAIT, &[3, TOP - 15, 1]), Err("efault"));
}

#[test]
fn three_clocks_can_be_read() {
    let (mut k, _) = started();
    for id in [0, 1, 4] {
        assert_eq!(call(&mut k, SYS_CLOCK_GETTIME, &[id, 0x1000]), Ok(0));
    }
    assert_eq!(call(&mut k, SYS_CLOCK_GETTIME, &[2, 0x1000]), Err("einval"));
    assert_eq!(call(&mut k, SYS_CLOCK_GETTIME, &[0, 0]), Err("efault"));
    assert_eq!(call(&mut k, SYS_CLOCK_GETTIME, &[2, TOP - 15]), Err("efault"));
}

#[test]
fn kill_and_stop_cannot_be_caught() {
    let (mut k, _) = started();
    for signo in [0, 64, SIGKILL as usize, SIGSTOP as usize] {
        assert_eq!(call(&mut k, SYS_SIGACTION, &[signo, 0x1000, 0x1000]), Err("einval"));
    }
    assert_eq!(call(&mut k, SYS_SIGACTION, &[10, 0x1000, 0]), Ok(0));
    assert_eq!(call(&mut k, SYS_SIGACTION, &[10, TOP, 0]), Err("efault"));
    assert_eq!(call(&mut k, SYS_SIGACTION, &[10, 0, TOP]), Err("efault"));
}

#[test]
fn the_signal_mask_never_holds_kill_or_stop() {
    let (mut k, root) = started();
    let both = (1usize << 9) | (1 << 19);
    assert_eq!(call(&mut k, SYS_SIGPROCMASK, &[2, both | 6, 0]), Ok(0));
    assert_eq!(k.tasks.tasks[root].sig_mask, 6);
    assert_eq!(call(&mut k, SYS_SIGPROCMASK, &[0, both | 8, 0x1000]), Ok(0));
    assert_eq!(k.tasks.tasks[root].sig_mask, 14);
    assert_eq!(call(&mut k, SYS_SIGPROCMASK, &[1, 2, 0]), Ok(0));
    assert_eq!(k.tasks.tasks[root].sig_mask, 12);
    assert_eq!(call(&mut k, SYS_SIGPROCMASK, &[3, 2, 0]), Err("einval"));
    assert_eq!(call(&mut k, SYS_SIGPROCMASK, &[3, 0, 0]), Ok(0));
    assert_eq!(call(&mut k, SYS_SIGPROCMASK, &[0, TOP, 0]), Err("efault"));
    assert_eq!(call(&mut k, SYS_SIGPROCMASK, &[0, 0, TOP]), Err("efault"));
    assert_eq!(k.tasks.tasks[root].sig_mask, 12);
    k.set_cur(0, None);
    assert_eq!(call(&mut k, SYS_SIGPROCMASK, &[3, 2, 0]), Ok(0));
}

#[test]
fn futex_calls_count_who_may_wake() {
    let (mut k, _) = started();
    let _ = k.do_fork(1);
    assert_eq!(call(&mut k, SYS_FUTEX, &[TOP, 0]), Err("efault"));
    assert_eq!(call(&mut k, SYS_FUTEX, &[8, 0x80, 1, 0]), Ok(0));
    assert_eq!(call(&mut k, SYS_FUTEX, &[8, 0, 1, TOP]), Err("efault"));
    assert_eq!(call(&mut k, SYS_FUTEX, &[8, 1, 0]), Ok(1));
    assert_eq!(call(&mut k, SYS_FUTEX, &[8, 1, 9]), Ok(2));
    assert_eq!(call(&mut k, SYS_FUTEX, &[8, 3, 5, 0, 16, 6]), Ok(11));
    assert_eq!(call(&mut k, SYS_FUTEX, &[8, 3, 100, 0, 16, 60]), Ok(128));
    assert_eq!(call(&mut k, SYS_FUTEX, &[8, 3, 5, 0, TOP, 6]), Err("efault"));
    assert_eq!(call(&mut k, SYS_FUTEX, &[8, 5, 5, 0]), Err("efault"));
    assert_eq!(call(&mut k, SYS_FUTEX, &[8, 5, 5, TOP]), Err("efault"));
    assert_eq!(call(&mut k, SYS_FUTEX, &[8, 5, 5, 16]), Ok(0));
    assert_eq!(call(&mut k, SYS_FUTEX, &[8, 9, 50, 0, 16, 3]), Ok(35));
    assert_eq!(call(&mut k, SYS_FUTEX, &[8, 9, 50, 0, TOP, 3]), Err("efault"));
    assert_eq!(call(&mut k, SYS_FUTEX, &[8, 2]), Err("enosys"));
    assert_eq!(call(&mut k, 9999, &[]), Err("enosys"));
}

#[test]
fn a_program_change_closes_what_asks_for_it() {
    let (mut k, root) = started();
    for cloexec in [false, true] {
        let f = FHandle::new(&mut k.shared.files, "/f", FdOpt::default(), false, cloexec);
        k.tasks.tasks[root].add_file(FLike::File(f));
    }
    assert_eq!(k.do_exec(9, "/x", vec![], vec![]), Err("esrch"));
    assert_eq!(k.do_exec(1, "/bin/ls", vec!["ls".to_string()], vec![]), Ok(()));
    let t = &mut k.tasks.tasks[root];
    assert_eq!((t.exec_path.as_str(), t.fd_count()), ("/bin/ls", 1));
    let cx = t.begin_run();
    assert_eq!((cx.uctx.ip, cx.uctx.r[15]), (0x40_0000, (0x8000_0000 - 6 - 48) & !15));
}

#[test]
fn a_waited_child_is_gone() {
    let (mut k, _) = started();
    assert_eq!(k.do_fork(9), Err("esrch"));
    assert_eq!(k.do_wait(9, -1, 0), Err("esrch"));
    assert_eq!(k.do_wait(1, -1, 0), Err("echild"));
    let c = k.do_fork(1).unwrap();
    let ct = k.tasks.find(c).unwrap();
    assert_eq!(k.do_wait(1, -1, 0), Err("echild"));
    assert_eq!(k.do_wait(1, -1, 1), Ok((0, 0)));
    k.set_cur(0, Some(ct));
    assert_eq!(call(&mut k, SYS_EXIT, &[300]), Ok(0));
    assert_eq!(k.do_wait(1, 77, 0), Err("echild"));
    assert_eq!(k.do_wait(1, -4, 1), Ok((0, 0)));
    assert_eq!(k.do_wait(1, 0, 0), Ok((c, 300)));
    assert_eq!(k.tasks.find(c), None);
    assert_eq!(k.do_wait(1, -1, 0), Ok((c, 300)));
}

#[test]
fn a_child_keeps_the_break_of_its_parent() {
    let (mut k, _) = started();
    assert_eq!(call(&mut k, SYS_BRK, &[3 * PAGE_SZ]), Ok(3 * 4096));
    let c = k.do_fork(1).unwrap();
    let ct = k.tasks.find(c).unwrap();
    assert_eq!(k.tasks.tasks[ct].vm_token, 3 * PAGE_SZ);
}

#[test]
fn a_pipe_joins_two_descriptors() {
    let (mut k, _) = started();
    assert_eq!(k.do_pipe(5), Err("esrch"));
    assert_eq!(k.do_pipe(1), Ok((0, 1)));
    assert_eq!(k.do_pipe(1), Ok((2, 3)));
    assert_eq!(k.write_fd(3, b"abc"), Ok(3));
    assert_eq!(k.read_fd(2, 2), Ok(b"ab".to_vec()));
    assert_eq!(k.read_fd(2, 2), Ok(b"c".to_vec()));
}

#[test]
fn ended_tasks_are_swept() {
    let (mut k, _) = started();
    let c = k.do_fork(1).unwrap();
    let _ = k.do_fork(1).unwrap();
    let ct = k.tasks.find(c).unwrap();
    k.set_cur(0, Some(ct));
    assert_eq!(call(&mut k, SYS_EXIT, &[0]), Ok(0));
    assert_eq!((k.reclaim_zombies(), k.reclaim_zombies(), k.tasks.count()), (1, 0, 2));
}

#[test]
fn a_collected_child_gives_its_semaphores_back() {
    let (mut k, root) = started();
    let a = k.get_sem(4, 2, 0).unwrap();
    k.shared.sems.items[a].sems[1].set_val(1);
    let id = k.tasks.tasks[root].sem_ctx.add(a);
    let (c, d) = (k.do_fork(1).unwrap(), k.do_fork(1).unwrap());
    assert_eq!(k.shared.sems.refs[a], 3);
    for pid in [c, d] {
        let t = k.tasks.find(pid).unwrap();
        assert_eq!(k.shared.sems.items[a].sems[1].try_acquire(), Ok(true));
        k.tasks.tasks[t].sem_ctx.add_undo(id, 1, -1);
        k.set_cur(0, Some(t));
        assert_eq!(call(&mut k, SYS_EXIT, &[0]), Ok(0));
        assert_eq!(k.shared.sems.items[a].sems[1].get_val(), 0);
        if pid == c {
            assert_eq!(k.do_wait(1, -1, 0), Ok((c, 0)));
        } else {
            assert_eq!(k.reclaim_zombies(), 1);
        }
        assert_eq!(k.shared.sems.items[a].sems[1].get_val(), 1);
    }
    assert_eq!(k.shared.sems.refs[a], 1);
}

#[test]
fn pages_are_given_out_from_the_start_and_taken_back() {
    let mut k = Kernel::new(4);
    assert_eq!(k.alloc_pages(3), vec![MEM_OFF, MEM_OFF + PAGE_SZ, MEM_OFF + 2 * PAGE_SZ]);
    assert_eq!(k.memory_pressure(), 75);
    k.free_pages(&[MEM_OFF + PAGE_SZ + 5, MEM_OFF + 99 * PAGE_SZ]);
    assert_eq!(k.memory_pressure(), 50);
    assert_eq!(k.alloc_pages(9), vec![MEM_OFF + PAGE_SZ, MEM_OFF + 3 * PAGE_SZ]);
    assert_eq!((k.alloc_pages(1), k.memory_pressure()), (vec![], 100));
    assert_eq!(Kernel::new(0).memory_pressure(), 100);
}

#[test]
fn load_goes_to_an_idle_processor() {
    let (mut k, root) = started();
    assert_eq!(k.balance_load(), 1);
    k.set_cur(1, Some(root));
    assert_eq!(k.balance_load(), 2);
    k.tasks.tasks[root].pgid = 100;
    assert_eq!(k.balance_load(), 0);
}
