use std::cmp::Ordering;

use chaos_kernel::consts::N_REGS;
use chaos_kernel::sched::{RunQueue, SchedulePolicy};
use chaos_kernel::trap::{Context, OpHandler, TrapCtl};

fn counting() -> [u64; N_REGS] {
    let mut r = [0u64; N_REGS];
    for i in 0..N_REGS {
        r[i] = i as u64 + 100;
    }
    r
}

fn policy(prio: i32, nice: i32, vruntime: u64) -> SchedulePolicy {
    SchedulePolicy { policy: 0, prio, nice, time_slice: 10, vruntime }
}

#[test]
fn captured_registers_are_applied_again() {
    let c = Context::capture(&counting());
    assert_eq!((c.apply(), c.ip, c.flags), (counting(), 0, 0));
    assert_eq!(c.syscall_args(), (100, 101, 102, 103, 104, 105));
    assert_eq!(Context::new().apply(), [0; N_REGS]);
}

#[test]
fn each_operation_changes_its_own_slot() {
    let c = Context::capture(&counting());
    let cases: [(u8, u64, usize, u64); 6] = [
        (0, 7, 0, 7),
        (1, 7, 16, 7),
        (0x12, 7, 15, 7),
        (3, 7, 14, 7),
        (4, 7, 17, 7),
        (5, (9 << 56) | 7, 9, 7),
    ];
    for (op, val, slot, now) in cases {
        let d = c.diff(&c.transform(op, val));
        assert_eq!(d.len(), 1);
        assert_eq!((d[0].0, d[0].2), (slot, now));
    }
    assert_eq!(c.diff(&c.transform(5, (16 << 56) | 7)), vec![]);
    assert_eq!(c.diff(&c.transform(6, 7)), vec![]);
    assert_eq!(c.diff(&c.clone_with_ret(1)), vec![(0, 100, 1)]);
}

#[test]
fn named_registers_have_their_slots() {
    let mut c = Context::new();
    c.set_ip(1);
    c.set_sp(2);
    c.set_ret(3);
    c.set_tls(4);
    assert_eq!((c.ip, c.r[15], c.r[0], c.r[14]), (1, 2, 3, 4));
}

#[test]
fn the_hash_is_the_usual_one() {
    let c = Context::capture(&counting()).transform(1, 5).transform(4, 6);
    let mut h: u64 = 0xcbf29ce484222325;
    for r in c.r.iter().chain([c.ip].iter()) {
        h = (h ^ r).wrapping_mul(0x100000001b3);
    }
    assert_eq!(c.hash(), h ^ 6);
    assert_ne!(c.hash(), c.clone_with_ret(9).hash());
}

#[test]
fn registers_are_classed_by_their_top_bits() {
    let mut c = Context::new();
    c.r[0] = 0x3000_0000_0000_0001;
    c.r[1] = 0x4800_0000_0000_0000;
    c.r[2] = 0x4000_0000_0000_0005;
    c.r[3] = 0x8000_0000_0000_0001;
    c.r[4] = 0xC000_0000_0000_0001;
    assert_eq!(c.reg_class(0), 1);
    assert_eq!(c.reg_class(1), 0xF800_0000_0000_0000);
    assert_eq!(c.reg_class(2), 5);
    assert_eq!(c.reg_class(3), 0x7FFF_FFFF_FFFF_FFFF);
    assert_eq!((c.reg_class(4), c.reg_class(16)), (0, 0));
}

#[test]
fn handlers_run_where_the_masks_let_them() {
    let mut t = TrapCtl::new();
    for v in 0..18 {
        t.register_handler(v, Box::new(OpHandler { op: 0, val: v as u64 + 1 }));
    }
    let c = Context::new();
    assert_eq!(t.dispatch_vector(3, c).r[0], 0);
    assert_eq!(t.dispatch_vector(14, c).r[0], 15);
    t.configure(1 << 2, 1 << 3);
    assert_eq!((t.hw(), t.sw()), (8, 4));
    assert_eq!(t.dispatch_vector(3, c).r[0], 4);
    assert_eq!(t.dispatch_vector(4, c).r[0], 0);
    assert_eq!(t.dispatch_vector(10, c).r[0], 11);
    assert_eq!(t.dispatch_vector(15, c).r[0], 0);
    assert_eq!(t.dispatch_vector(16, c).r[0], 0);
    assert_eq!(t.dispatch(17, c).r[0], 0);
    assert!(!t.in_handler() && t.nest_depth() == 0);
}

#[test]
fn the_last_frame_is_kept_and_frames_stack_up() {
    let mut t = TrapCtl::new();
    assert!(t.current().is_none() && t.pop_frame().is_none() && t.irq_on);
    t.register_handler(1, Box::new(OpHandler { op: 1, val: 0x40 }));
    let c = t.dispatch(1, Context::new());
    assert_eq!((c.ip, t.current().map(|f| f.ip)), (0x40, Some(0x40)));
    t.push_frame(&c);
    t.push_frame(&c.clone_with_ret(2));
    assert_eq!(t.pop_frame().map(|f| f.r[0]), Some(2));
    assert_eq!(t.pop_frame().map(|f| f.r[0]), Some(0));
    t.suppress();
    assert!(t.suppressed);
    t.unsuppress();
    assert!(!t.suppressed);
    assert_eq!(t.on_pgfault(0x12345), Ok((0x12000, 0x345)));
}

#[test]
fn weights_go_by_niceness() {
    let w = |n: i32| policy(0, n, 0).weight();
    assert_eq!((w(-20), w(-11), w(-10), w(-1)), (88761, 88761, 29154, 29154));
    assert_eq!((w(0), w(1), w(9), w(10), w(19)), (1024, 335, 335, 110, 110));
    assert_eq!(SchedulePolicy::new().time_slice, 10);
    let p = SchedulePolicy::with_prio(-5);
    assert_eq!((p.prio, p.nice, p.time_slice, p.vruntime), (-5, -5, 25, 0));
    assert_eq!(SchedulePolicy::with_prio(20).time_slice, 0);
}

#[test]
fn tasks_stand_in_the_order_of_their_scores() {
    let mut q = RunQueue::new();
    q.enqueue(1, policy(5, 0, 0));
    q.enqueue(2, policy(0, 0, 0));
    q.enqueue(3, policy(0, 0, 10));
    q.enqueue(4, policy(0, 0, 0));
    let ids: Vec<usize> = q.queue.iter().map(|e| e.0).collect();
    assert_eq!(ids, vec![2, 4, 3, 1]);
    assert_eq!((q.len(), q.pick_next()), (4, Some(2)));
    assert_eq!(q.dequeue().map(|e| e.0), Some(2));
    assert_eq!(q.dequeue().map(|e| e.0), Some(4));
    assert!(q.remove(1) && !q.remove(1));
    assert_eq!(q.dequeue().map(|e| e.0), Some(3));
    assert!(q.dequeue().is_none() && q.pick_next().is_none());
}

#[test]
fn picking_and_taking_may_differ() {
    let mut q = RunQueue::new();
    q.enqueue(1, policy(0, -20, 5));
    q.enqueue(2, policy(0, 0, 0));
    assert_eq!(q.pick_next(), Some(2));
    assert_eq!(q.dequeue().map(|e| e.0), Some(1));
}

#[test]
fn priorities_compare_by_their_standing() {
    let a = policy(0, 0, 1023);
    let b = policy(0, 0, 1024);
    assert_eq!(RunQueue::cmp_priority(&a, &b), Ordering::Less);
    assert_eq!(RunQueue::cmp_priority(&a, &policy(0, 0, 5)), Ordering::Equal);
    assert_eq!(RunQueue::cmp_priority(&policy(1, 0, 0), &policy(1, 1, 0)), Ordering::Greater);
}

#[test]
fn ageing_goes_by_weight_and_orders_by_time() {
    let mut q = RunQueue::new();
    q.enqueue(1, policy(0, 10, 0));
    q.enqueue(2, policy(9, 0, 30));
    q.enqueue(3, policy(9, -20, 1));
    q.rebalance(10);
    let got: Vec<(usize, u64)> = q.queue.iter().map(|e| (e.0, e.1.vruntime)).collect();
    assert_eq!(got, vec![(3, 1), (2, 40), (1, 93)]);
    q.update_vruntime(2, 2);
    q.update_vruntime(77, u64::MAX);
    assert_eq!(q.queue[1].1.vruntime, 42);
}

#[test]
fn a_boost_stops_at_the_highest_priority() {
    let mut q = RunQueue::new();
    q.enqueue(1, policy(5, 0, 0));
    q.boost_priority(1, 3);
    assert_eq!(q.queue[0].1.prio, 2);
    q.boost_priority(1, 300);
    assert_eq!(q.queue[0].1.prio, -20);
}

#[test]
fn the_running_task_can_step_aside() {
    let mut q = RunQueue::new();
    assert!(!q.yield_current());
    q.set_current(8);
    assert!(q.yield_current());
    assert_eq!((q.current, q.queue[0].0, q.queue[0].1.time_slice), (None, 8, 10));
    q.set_current(9);
    q.clear_current();
    assert_eq!(q.current, None);
}

#[test]
fn preemption_is_switched_off_and_on_in_layers() {
    let mut q = RunQueue::new();
    assert!(q.preemptible());
    q.preempt_disable();
    q.preempt_disable();
    q.preempt_enable();
    assert!(!q.preemptible());
    q.preempt_enable();
    assert!(q.preemptible());
}
