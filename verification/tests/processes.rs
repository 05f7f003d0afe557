use std::collections::BTreeMap;

use chaos_kernel::consts::{CAP_CHOWN, CAP_KILL, CAP_SYS_ADMIN};
use chaos_kernel::fs::configfs::ConfigFS;
use chaos_kernel::fs::epoll::EpInst;
use chaos_kernel::fs::files::{FHandle, FdOpt, FileStore};
use chaos_kernel::fs::flike::FLike;
use chaos_kernel::fs::pipes::PipeNode;
use chaos_kernel::ipc::{shm_get_or_create, SemArr};
use chaos_kernel::process::caps::CapSet;
use chaos_kernel::process::init::ProcInit;
use chaos_kernel::process::table::{Shared, TaskTable};
use chaos_kernel::process::task::{Task, ThdCtx};
use chaos_kernel::process::Pid;
use chaos_kernel::sync::{EvFlag, EvWatch};

fn file(st: &mut FileStore, cloexec: bool) -> FLike {
    let o = FdOpt { rd: true, wr: true, ap: false, nb: false };
    FLike::File(FHandle::new(st, "/f", o, false, cloexec))
}

#[test]
fn the_first_process_has_number_one() {
    assert_eq!(Pid::INIT, 1);
    assert!(Pid(1).is_init() && !Pid::new().is_init());
    assert_eq!((Pid(70).get(), Pid(70).to_string(), Pid::new().to_string()), (70, "70".to_string(), "0".to_string()));
}

#[test]
fn capabilities_are_granted_and_dropped() {
    let mut c = CapSet::new();
    c.grant(CAP_KILL);
    c.grant(64);
    assert!(c.check(CAP_KILL) && !c.check(CAP_CHOWN) && !c.check(64));
    assert!(c.has_any(0xFF) && !c.has_any(0x0F));
    assert!(c.raise_ambient(CAP_KILL) && !c.raise_ambient(CAP_SYS_ADMIN) && !c.raise_ambient(64));
    c.drop_cap(CAP_KILL);
    c.drop_cap(99);
    assert_eq!((c.bits, c.effective, c.ambient), (0, 0, 32));
    c.clear_ambient();
    assert_eq!(c.ambient, 0);
}

#[test]
fn a_child_gets_what_can_be_inherited() {
    let mut p = CapSet::full();
    assert!(p.check(63));
    assert!(p.raise_ambient(3));
    let c = CapSet::inherit(&p);
    assert_eq!((c.bits, c.effective, c.ambient), (0xFF_FFFF_FFFF, 0xFF_FFFF_FFFF, 8));
    assert!(c.check(39) && !c.check(40));
}

#[test]
fn the_first_stack_is_laid_out_and_aligned() {
    let s = |v: &[&str]| -> Vec<String> { v.iter().map(|x| x.to_string()).collect() };
    let p = ProcInit { args: s(&["sh", "-c"]), envs: s(&["A=1"]), auxv: BTreeMap::new() };
    assert_eq!(p.total_size(), 3 + 3 + 4 + (2 + 3 + 2 + 1) * 8);
    let sp = 0x1000 - 3 - 4 - 3 - 3 - (2 + 2 + 3 + 1) * 8;
    assert_eq!(p.push_at(0x1000), sp & !15);
    let mut auxv = BTreeMap::new();
    auxv.insert(6u8, 4096usize);
    let e = ProcInit { args: vec![], envs: vec![], auxv };
    assert_eq!(e.push_at(0x1000), (0x1000 - 1 - (4 + 1 + 1 + 1) * 8) & !15);
    assert_eq!(e.total_size(), 7 * 8);
}

#[test]
fn a_new_task_is_empty() {
    let t = Task::make(4, "sh");
    assert_eq!((t.id(), t.tag(), t.cwd.as_str(), t.exec_path.as_str()), (4, "sh".to_string(), "/", ""));
    assert!(!t.done() && t.exited() && t.n_children() == 0 && t.fd_count() == 0 && !t.has_sig());
    assert_eq!((t.pid.get(), t.pgid, t.vm_token, t.thd_ctx.is_some()), (0, 0, 0, true));
}

#[test]
fn descriptors_fill_the_first_gap() {
    let mut st = FileStore::new();
    let mut t = Task::make(1, "t");
    for want in 0..3 {
        let f = file(&mut st, false);
        assert_eq!(t.add_file(f), want);
    }
    assert_eq!((t.get_free_fd(), t.get_free_fd_from(1), t.get_free_fd_from(9)), (3, 3, 9));
    assert_eq!(t.close_fd(1, &mut st), Ok(()));
    assert_eq!(t.close_fd(1, &mut st), Err("ebadf"));
    assert_eq!((t.get_free_fd(), t.fd_count()), (1, 2));
    assert!(t.get_file(2).is_some() && t.get_file(1).is_none());
    assert_eq!((t.set_cloexec(2, true), t.set_cloexec(1, true)), (Ok(()), Err("ebadf")));
}

#[test]
fn descriptors_are_copied() {
    let mut st = FileStore::new();
    let mut t = Task::make(1, "t");
    let f = file(&mut st, false);
    let g = file(&mut st, false);
    t.add_file(f);
    t.add_file(g);
    assert_eq!(t.dup_fd(0, true, &mut st), Ok(2));
    assert_eq!(t.dup_fd(9, true, &mut st), Err("ebadf"));
    assert!(matches!(&t.files[&2], FLike::File(h) if h.cloexec && h.data == 0));
    assert_eq!(t.dup2_fd(0, 1, &mut st), Ok(1));
    assert!(matches!(&t.files[&1], FLike::File(h) if !h.cloexec && h.data == 0));
    assert_eq!((t.dup2_fd(7, 7, &mut st), t.dup2_fd(7, 1, &mut st)), (Ok(7), Err("ebadf")));
    assert_eq!(t.fd_count(), 3);
}

#[test]
fn the_end_of_a_task_closes_its_files_and_is_told() {
    let mut st = FileStore::new();
    let (rd, wr) = PipeNode::pair(&mut st);
    let mut t = Task::make(3, "t");
    t.link_parent(0);
    t.threads.push(3);
    t.add_file(FLike::Pipe(wr));
    t.ev.sub(Box::new(EvWatch { mask: EvFlag::PROC_QUIT }));
    assert!(!t.exited());
    assert_eq!(t.exit_proc(0x1234, &mut st), Some(0));
    assert!(t.done() && t.exited() && t.fd_count() == 0);
    assert_eq!((t.info.status, t.exit_code, t.ev.ev), (Some(0x34), 0x1234, EvFlag::PROC_QUIT));
    assert_eq!((t.ev.cb_len(), rd.can_read(&st)), (0, true));
}

#[test]
fn signals_wait_in_line_unless_blocked() {
    let mut t = Task::make(5, "t");
    t.send_sig(10, -1);
    t.send_sig(10, -1);
    assert_eq!((t.sig_queue.len(), t.ev.ev), (2, EvFlag::RECV_SIG));
    assert!(t.has_sig());
    t.sig_mask = 1 << 10;
    assert!(!t.has_sig());
    t.send_sig(12, 4);
    assert!(!t.has_sig());
    t.send_sig(12, 5);
    assert!(t.has_sig());
    let mut u = Task::make(6, "u");
    u.send_sig(64, -1);
    u.send_sig(-3, -1);
    assert!(!u.has_sig());
}

#[test]
fn a_context_is_taken_out_and_put_back() {
    let mut t = Task::make(5, "t");
    let mut cx = t.begin_run();
    assert!(t.thd_ctx.is_none());
    cx.uctx.set_ip(77);
    cx.clear_tid = 9;
    t.end_run(cx);
    let again = t.begin_run();
    assert_eq!((again.uctx.ip, again.clear_tid), (77, 9));
    assert_eq!((t.begin_run().uctx.ip, ThdCtx::default().smask), (0, 0));
}

#[test]
fn watches_and_futexes_belong_to_a_task() {
    let mut st = FileStore::new();
    let mut t = Task::make(5, "t");
    assert!(matches!(t.get_ep_mut(3), Err("eperm")) && matches!(t.get_ep_ref(3), Err("eperm")));
    let e = EpInst::new(&mut st);
    t.set_ep(3, e);
    assert!(t.get_ep_mut(3).is_ok() && t.get_ep_ref(3).is_ok());
    assert_eq!(t.get_futex(0x40).wait(0x40, 1, 1, 8), Ok(()));
    assert_eq!(t.get_futex(0x48).pending_at(0x40), 0);
    assert_eq!(t.get_futex(0x40).pending_at(0x40), 1);
}

#[test]
fn tasks_are_numbered_and_found() {
    let mut tt = TaskTable::new();
    let r = tt.spawn_root();
    let a = tt.spawn("sh");
    let b = tt.spawn("sh");
    assert_eq!((tt.tasks[r].id(), tt.tasks[a].id(), tt.tasks[b].id()), (1, 2, 3));
    assert_eq!((tt.find(2), tt.find(9), tt.count(), tt.root), (Some(a), None, 3, Some(r)));
    assert_eq!(tt.find_by_tag("sh"), vec![a, b]);
    tt.tasks[b].threads.push(40);
    assert_eq!((tt.process_of_tid(40), tt.process_of_tid(41)), (Some(b), None));
    tt.tasks[a].pgid = 7;
    assert_eq!((tt.pgid_group(7), tt.send_signal_group(7, 10)), (vec![a], 1));
    assert_eq!(tt.tasks[a].sig_queue[0], (10, -1));
    tt.register(b, Pid(30));
    assert_eq!((tt.find(30), tt.tasks[b].pid.get()), (Some(b), 30));
}

#[test]
fn orphans_go_to_the_root() {
    let mut sh = Shared::new();
    let mut tt = TaskTable::new();
    let r = tt.spawn_root();
    let p = tt.spawn("p");
    let c = tt.fork_task(p, &mut sh);
    tt.reap(2, &mut sh);
    assert_eq!((tt.find(2), tt.tasks[c].parent, tt.tasks[r].n_children()), (None, Some(r), 1));
    assert_eq!((tt.tasks[p].info.status, tt.tasks[p].n_children()), (Some(0), 0));
}

#[test]
fn tasks_end_and_are_collected() {
    let mut sh = Shared::new();
    let mut tt = TaskTable::new();
    let r = tt.spawn_root();
    let c = tt.fork_task(r, &mut sh);
    assert_eq!((tt.active_tasks(), tt.zombie_tasks()), (vec![1, 2], vec![]));
    tt.exit_task(c, 5, &mut sh.files);
    assert_eq!((tt.active_tasks(), tt.zombie_tasks()), (vec![1], vec![2]));
    assert_eq!(tt.tasks[r].ev.ev, EvFlag::CHILD_QUIT);
    assert!(tt.terminate_and_collect(2, 6, &mut sh));
    assert!(!tt.terminate_and_collect(2, 6, &mut sh));
    assert_eq!((tt.tasks[c].exit_code, tt.count()), (6, 1));
}

#[test]
fn a_collected_task_gives_up_all_that_it_had() {
    let mut sh = Shared::new();
    let mut tt = TaskTable::new();
    let t = tt.spawn("t");
    let a = SemArr::get_or_create(1, 3, 0, &mut sh.sems).unwrap();
    let g = shm_get_or_create(1, 1, &mut sh.shms);
    sh.sems.items[a].sems[0].set_val(2);
    sh.sems.items[a].sems[1].set_val(isize::MAX);
    let id = tt.tasks[t].sem_ctx.add(a);
    tt.tasks[t].shm_ctx.add(g);
    let (rd, wr) = PipeNode::pair(&mut sh.files);
    tt.tasks[t].add_file(FLike::Pipe(rd));
    assert_eq!(sh.sems.items[a].sems[0].try_acquire(), Ok(true));
    for num in [0, 1, 9] {
        tt.tasks[t].sem_ctx.add_undo(id, num, -1);
    }
    tt.tasks[t].sem_ctx.add_undo(id, 2, -5);
    assert!(tt.terminate_and_collect(1, 0, &mut sh));
    let sems = &sh.sems.items[a].sems;
    assert_eq!((sems[0].get_val(), sems[1].get_val(), sems[2].get_val()), (2, isize::MAX, 0));
    assert_eq!((sh.sems.refs[a], sh.shms.refs[g], sh.files.pipes[wr.data].ends), (0, 0, 1));
    let end = &tt.tasks[t];
    assert_eq!((end.fd_count(), end.sem_ctx.arrays.len(), end.sem_ctx.undos.len()), (0, 0, 0));
    assert_eq!((end.shm_ctx.ids.len(), sh.sems.lookup(1), sh.shms.lookup(1)), (0, None, None));
}

#[test]
fn a_task_that_is_taken_out_unended_drops_its_descriptors() {
    let mut sh = Shared::new();
    let mut tt = TaskTable::new();
    let t = tt.spawn("t");
    let (rd, wr) = PipeNode::pair(&mut sh.files);
    tt.tasks[t].add_file(FLike::Pipe(wr));
    tt.reap(9, &mut sh);
    assert_eq!((tt.count(), sh.files.pipes[rd.data].ends), (1, 2));
    tt.reap(1, &mut sh);
    assert_eq!((tt.count(), sh.files.pipes[rd.data].ends), (0, 1));
}

#[test]
fn a_forked_child_shares_what_is_open_and_attached() {
    let mut sh = Shared::new();
    let mut tt = TaskTable::new();
    let p = tt.spawn("sh");
    let f = file(&mut sh.files, true);
    tt.tasks[p].add_file(f);
    tt.tasks[p].cwd = "/caf\u{e9}".to_string();
    tt.tasks[p].pgid = 6;
    tt.tasks[p].sig_mask = 12;
    let a = SemArr::get_or_create(1, 1, 0, &mut sh.sems).unwrap();
    let g = shm_get_or_create(1, 1, &mut sh.shms);
    tt.tasks[p].sem_ctx.add(a);
    tt.tasks[p].shm_ctx.add(g);
    let c = tt.fork_task(p, &mut sh);
    let t = &tt.tasks[c];
    assert_eq!((t.id(), t.pid.get(), t.threads.clone(), t.tag()), (2, 2, vec![2], "sh".to_string()));
    assert_eq!((t.cwd.as_str(), t.pgid, t.sig_mask, t.parent), ("/caf\u{e9}", 6, 12, Some(p)));
    assert_eq!((sh.sems.refs[a], sh.shms.refs[g]), (2, 2));
    assert_eq!(tt.tasks[p].subtasks, vec![c]);
    let cf = ConfigFS::new();
    let mut cf2 = ConfigFS::new();
    assert_eq!(tt.tasks[p].files[&0].write(&mut sh.files, &mut cf2, b"xyz"), Ok(3));
    let mut buf = [0u8; 3];
    let open = tt.tasks[c].files.get_mut(&0).unwrap();
    assert_eq!(open.read(&mut sh.files, &cf, &mut buf), Ok(0));
    assert!(matches!(&tt.tasks[c].files[&0], FLike::File(h) if !h.cloexec));
}

#[test]
fn a_thread_runs_in_its_process() {
    let mut tt = TaskTable::new();
    let p = tt.spawn("sh");
    tt.tasks[p].vm_token = 0x5000;
    tt.tasks[p].sig_mask = 3;
    let t = tt.clone_thread(p, 0x9000, 0x77, 0x88);
    assert_eq!((tt.tasks[p].threads.clone(), tt.tasks[t].vm_token), (vec![2], 0x5000));
    let cx = tt.tasks[t].begin_run();
    assert_eq!((cx.uctx.r[0], cx.uctx.r[15], cx.uctx.r[14]), (0, 0x9000, 0x77));
    assert_eq!((cx.clear_tid, cx.smask), (0x88, 3));
}

#[test]
fn a_user_task_starts_with_three_files_and_a_stack() {
    let mut st = FileStore::new();
    let mut tt = TaskTable::new();
    let t = tt.new_user_task("/bin/sh", vec!["sh".to_string()], vec![], &mut st);
    let task = &tt.tasks[t];
    assert_eq!((task.exec_path.as_str(), task.fd_count(), task.pid.get()), ("/bin/sh", 3, 1));
    let (FLike::File(a), FLike::File(b), FLike::File(c)) =
        (&task.files[&0], &task.files[&1], &task.files[&2])
    else {
        panic!("expected files");
    };
    assert!(a.get_opt(&st).rd && !a.get_opt(&st).wr && b.get_opt(&st).wr && !b.get_opt(&st).rd);
    assert_eq!((b.desc, a.path.as_str()), (c.desc, "/dev/tty"));
    let sp = (0x8000_0000u64 - 3 - 3 - (2 + 1 + 2 + 1) * 8) & !15;
    assert_eq!(tt.tasks[t].begin_run().uctx.r[15], sp);
}
