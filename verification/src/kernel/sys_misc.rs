//! System calls on events, clocks, signals and futexes.

use vstd::prelude::*;

use crate::consts::{NSIG, SIGKILL, SIGSTOP};
use crate::kernel::Kernel;
use crate::process::Task;
use crate::signal::UNBLOCKABLE;
use crate::util::check_access;

verus! {

/// The bytes of an event as a program sees it.
pub const EVENT_LEN: usize = 16;

/// What making an epoll instance comes to.
pub open spec fn epoll_create_result(size: usize) -> Result<u64, &'static str> {
    if size == 0 {
        Err("einval")
    } else if size * EVENT_LEN > usize::MAX {
        Err("enomem")
    } else {
        Ok((3 + size % 61) as u64)
    }
}

/// What a control call on an epoll instance comes to: adding (1) and changing (3) take an
/// event, deleting (2) does not.
pub open spec fn epoll_ctl_result(op: i32, ev_addr: usize) -> Result<u64, &'static str> {
    if ev_addr != 0 && !crate::util::in_user_space(ev_addr, 12) {
        Err("efault")
    } else if op == 1 || op == 3 {
        if ev_addr == 0 {
            Err("efault")
        } else {
            Ok(0)
        }
    } else if op == 2 {
        Ok(0)
    } else {
        Err("einval")
    }
}

/// What waiting for events comes to.
pub open spec fn epoll_wait_result(events: usize, max: usize) -> Result<u64, &'static str> {
    if events == 0 || max == 0 || max * EVENT_LEN > usize::MAX {
        Err("einval")
    } else if !crate::util::in_user_space(events, (max * EVENT_LEN) as usize) {
        Err("efault")
    } else {
        Ok(0)
    }
}

/// What asking for the time comes to: there are clocks 0, 1 and 4.
pub open spec fn clock_gettime_result(clk_id: usize, tp: usize) -> Result<u64, &'static str> {
    if tp == 0 || !crate::util::in_user_space(tp, 16) {
        Err("efault")
    } else if clk_id == 0 || clk_id == 1 || clk_id == 4 {
        Ok(0)
    } else {
        Err("einval")
    }
}

/// What setting the action of a signal comes to: that of a signal that cannot be caught
/// cannot be set.
pub open spec fn sigaction_result(signo: usize, act: usize, oldact: usize) -> Result<
    u64,
    &'static str,
> {
    if signo == 0 || signo >= NSIG || signo == SIGKILL || signo == SIGSTOP {
        Err("einval")
    } else if act != 0 && !crate::util::in_user_space(act, 32) {
        Err("efault")
    } else if oldact != 0 && !crate::util::in_user_space(oldact, 32) {
        Err("efault")
    } else {
        Ok(0)
    }
}

/// A signal mask after signals were blocked (0), unblocked (1) or set (2). Those that cannot
/// be blocked stay out.
pub open spec fn new_mask(how: usize, mask: u64, set: u64) -> u64 {
    if how == 0 {
        (mask | set) & !UNBLOCKABLE
    } else if how == 1 {
        mask & !set
    } else {
        set & !UNBLOCKABLE
    }
}

/// The outcome of changing the signal mask of the running task; the address itself stands
/// for the signals at it.
pub open spec fn did_sigprocmask(
    a: Kernel,
    how: usize,
    set: usize,
    oldset: usize,
    r: Result<u64, &'static str>,
    b: Kernel,
) -> bool {
    if (set != 0 && !crate::util::in_user_space(set, 8)) || (oldset != 0
        && !crate::util::in_user_space(oldset, 8)) {
        r == Err::<u64, &'static str>("efault") && b == a
    } else {
        match a.running(0) {
            Some(t) if set != 0 => {
                if how > 2 {
                    r == Err::<u64, &'static str>("einval") && b == a
                } else {
                    let x = a.tasks.tasks@[t as int];
                    &&& r == Ok::<u64, &'static str>(0)
                    &&& b.tasks.tasks@ == a.tasks.tasks@.update(
                        t as int,
                        (Task { sig_mask: new_mask(how, x.sig_mask, set as u64), ..x }),
                    )
                    &&& crate::kernel::only_task(a.tasks, t, b.tasks)
                    &&& b == (Kernel { tasks: b.tasks, ..a })
                }
            },
            _ => r == Ok::<u64, &'static str>(0) && b == a,
        }
    }
}

/// The smaller of two numbers.
pub open spec fn least(a: int, b: int) -> int {
    if a < b {
        a
    } else {
        b
    }
}

/// What an operation on a futex comes to: waiting (0), waking (1), waking and moving (3),
/// waiting with a time limit (5), waking and moving a few (9).
pub open spec fn futex_result(
    a: Kernel,
    uaddr: usize,
    op: usize,
    val: usize,
    timeout: usize,
    uaddr2: usize,
    val3: usize,
) -> Result<u64, &'static str> {
    let code = op % 16;
    if !crate::util::in_user_space(uaddr, 4) {
        Err("efault")
    } else if code == 0 {
        if timeout != 0 && !crate::util::in_user_space(timeout, 16) {
            Err("efault")
        } else {
            Ok(0)
        }
    } else if code == 1 {
        let wake = if val == 0 {
            1int
        } else {
            val as int
        };
        Ok(least(wake, a.tasks.map@.len() as int) as u64)
    } else if code == 3 {
        if !crate::util::in_user_space(uaddr2, 4) {
            Err("efault")
        } else {
            Ok(least(val + val3, 128) as u64)
        }
    } else if code == 5 {
        if timeout == 0 || !crate::util::in_user_space(timeout, 16) {
            Err("efault")
        } else {
            Ok(0)
        }
    } else if code == 9 {
        if !crate::util::in_user_space(uaddr2, 4) {
            Err("efault")
        } else {
            Ok((least(val as int, 32) + least(val3 as int, 32)) as u64)
        }
    } else {
        Err("enosys")
    }
}

impl Kernel {
    /// Makes an epoll instance.
    pub fn sys_epoll_create(&self, size: usize) -> (r: Result<u64, &'static str>)
        ensures
            r == epoll_create_result(size),
    {
        if size == 0 {
            return Err("einval");
        }
        match size.checked_mul(EVENT_LEN) {
            Some(_) => Ok(3 + (size % 61) as u64),
            None => Err("enomem"),
        }
    }

    /// A control call on an epoll instance.
    pub fn sys_epoll_ctl(&self, op: i32, ev_addr: usize) -> (r: Result<u64, &'static str>)
        ensures
            r == epoll_ctl_result(op, ev_addr),
    {
        if ev_addr != 0 && !check_access(ev_addr, 12) {
            return Err("efault");
        }
        if op == 1 || op == 3 {
            if ev_addr == 0 {
                return Err("efault");
            }
            Ok(0)
        } else if op == 2 {
            Ok(0)
        } else {
            Err("einval")
        }
    }

    /// Waits for events; none come.
    pub fn sys_epoll_wait(&self, events: usize, max: usize) -> (r: Result<u64, &'static str>)
        ensures
            r == epoll_wait_result(events, max),
    {
        if events == 0 || max == 0 {
            return Err("einval");
        }
        match max.checked_mul(EVENT_LEN) {
            Some(total) => if check_access(events, total) {
                Ok(0)
            } else {
                Err("efault")
            },
            None => Err("einval"),
        }
    }

    /// Asks for the time.
    pub fn sys_clock_gettime(&self, clk_id: usize, tp: usize) -> (r: Result<u64, &'static str>)
        ensures
            r == clock_gettime_result(clk_id, tp),
    {
        if tp == 0 {
            return Err("efault");
        }
        if !check_access(tp, 16) {
            return Err("efault");
        }
        if clk_id == 0 || clk_id == 1 || clk_id == 4 {
            Ok(0)
        } else {
            Err("einval")
        }
    }

    /// Sets the action of a signal.
    pub fn sys_sigaction(&self, signo: usize, act: usize, oldact: usize) -> (r: Result<
        u64,
        &'static str,
    >)
        ensures
            r == sigaction_result(signo, act, oldact),
    {
        if signo == 0 || signo >= NSIG as usize {
            return Err("einval");
        }
        if signo == SIGKILL as usize || signo == SIGSTOP as usize {
            return Err("einval");
        }
        if act != 0 && !check_access(act, 32) {
            return Err("efault");
        }
        if oldact != 0 && !check_access(oldact, 32) {
            return Err("efault");
        }
        Ok(0)
    }

    /// Changes the signal mask of the running task.
    pub fn sys_sigprocmask(&mut self, how: usize, set: usize, oldset: usize) -> (r: Result<
        u64,
        &'static str,
    >)
        requires
            old(self).wf(),
        ensures
            final(self).wf(),
            did_sigprocmask(*old(self), how, set, oldset, r, *final(self)),
    {
        if set != 0 && !check_access(set, 8) {
            return Err("efault");
        }
        if oldset != 0 && !check_access(oldset, 8) {
            return Err("efault");
        }
        match self.cur_task(0) {
            Some(t) => {
                if set != 0 {
                    if how > 2 {
                        return Err("einval");
                    }
                    assert(self.cpus@[0] is Some);
                    let mask: u64 = self.tasks.tasks[t].sig_mask;
                    let new: u64 = if how == 0 {
                        (mask | set as u64) & !UNBLOCKABLE
                    } else if how == 1 {
                        mask & !(set as u64)
                    } else {
                        (set as u64) & !UNBLOCKABLE
                    };
                    self.tasks.tasks[t].sig_mask = new;
                    proof {
                        crate::kernel::lemma_ties_kept(*old(self), *self);
                    }
                }
            },
            None => {},
        }
        Ok(0)
    }

    /// An operation on a futex.
    pub fn sys_futex(
        &self,
        uaddr: usize,
        op: usize,
        val: usize,
        timeout: usize,
        uaddr2: usize,
        val3: usize,
    ) -> (r: Result<u64, &'static str>)
        ensures
            r == futex_result(*self, uaddr, op, val, timeout, uaddr2, val3),
    {
        if !check_access(uaddr, 4) {
            return Err("efault");
        }
        let code: usize = op % 16;
        if code == 0 {
            if timeout != 0 && !check_access(timeout, 16) {
                return Err("efault");
            }
            Ok(0)
        } else if code == 1 {
            let wake: usize = if val == 0 {
                1
            } else {
                val
            };
            let n: usize = self.tasks.count();
            if wake < n {
                Ok(wake as u64)
            } else {
                Ok(n as u64)
            }
        } else if code == 3 {
            if !check_access(uaddr2, 4) {
                return Err("efault");
            }
            let sum: u128 = val as u128 + val3 as u128;
            if sum < 128 {
                Ok(sum as u64)
            } else {
                Ok(128)
            }
        } else if code == 5 {
            if timeout == 0 || !check_access(timeout, 16) {
                return Err("efault");
            }
            Ok(0)
        } else if code == 9 {
            if !check_access(uaddr2, 4) {
                return Err("efault");
            }
            let wake: u64 = if val < 32 {
                val as u64
            } else {
                32
            };
            let moved: u64 = if val3 < 32 {
                val3 as u64
            } else {
                32
            };
            Ok(wake + moved)
        } else {
            Err("enosys")
        }
    }
}

/// However the mask is blocked or set, the signals that cannot be blocked are not.
pub proof fn law_unblockable_stays_unblocked(how: usize, mask: u64, set: u64)
    requires
        how == 0 || how == 2 || mask & UNBLOCKABLE == 0,
    ensures
        new_mask(how, mask, set) & UNBLOCKABLE == 0,
{
    let u = UNBLOCKABLE;
    assert((((mask | set) & !u) & u == 0) && ((set & !u) & u == 0)) by (bit_vector);
    assert(mask & u == 0 ==> (mask & !set) & u == 0) by (bit_vector);
}

/// Blocking adds the signals named, unblocking takes them away, and setting replaces all, but
/// the two that end or stop a process are never blocked by it.
pub proof fn law_mask_is_what_was_asked(mask: u64, set: u64, signo: u32)
    requires
        signo < NSIG,
    ensures
        ({
            let (m, s) = (crate::signal::has_sig(mask, signo), crate::signal::has_sig(set, signo));
            let free = signo != 9 && signo != 19;
            &&& crate::signal::has_sig(new_mask(0, mask, set), signo) <==> (m || s) && free
            &&& crate::signal::has_sig(new_mask(1, mask, set), signo) <==> m && !s
            &&& crate::signal::has_sig(new_mask(2, mask, set), signo) <==> s && free
        }),
{
    crate::signal::law_block_adds_and_unblock_takes(mask, set, signo);
}

/// Changing the mask changes the mask of the running task and nothing else; what is not a way
/// of changing it is refused.
pub proof fn law_only_the_mask_changes(
    a: Kernel,
    how: usize,
    set: usize,
    oldset: usize,
    r: Result<u64, &'static str>,
    b: Kernel,
    t: usize,
    x: int,
)
    requires
        a.wf(),
        did_sigprocmask(a, how, set, oldset, r, b),
        a.running(0) == Some(t),
        0 <= x < a.tasks.tasks@.len(),
    ensures
        b.tasks.tasks@[x] == (Task { sig_mask: b.tasks.tasks@[x].sig_mask, ..a.tasks.tasks@[x] }),
        x != t ==> b.tasks.tasks@[x] == a.tasks.tasks@[x],
        b.tasks.map == a.tasks.map && b.shared == a.shared && b.pool == a.pool,
        r is Err ==> b == a,
        r is Ok && 0 < set ==> how <= 2 && b.tasks.tasks@[t as int].sig_mask == new_mask(
            how,
            a.tasks.tasks@[t as int].sig_mask,
            set as u64,
        ),
        0 < set && set + 8 <= crate::consts::KERN_BASE && set + 8 <= usize::MAX && oldset == 0
            && how <= 2 ==> r is Ok,
        0 < set && set + 8 <= crate::consts::KERN_BASE && set + 8 <= usize::MAX && oldset == 0
            && how > 2 ==> r == Err::<u64, &'static str>("einval"),
{
    assert(a.cpus@[0] is Some);
}

/// An action can be set for every signal but the two that end or stop a process and numbers
/// that are none.
pub proof fn law_kill_and_stop_cannot_be_handled(signo: usize)
    ensures
        sigaction_result(signo, 0, 0) is Ok <==> 1 <= signo < 64 && signo != 9 && signo != 19,
        sigaction_result(signo, 0, 0) is Err ==> sigaction_result(signo, 0, 0) == Err::<
            u64,
            &'static str,
        >("einval"),
{
}

/// The time can be asked for by three clocks, into user space.
pub proof fn law_three_clocks(clk_id: usize, tp: usize)
    requires
        0 < tp,
        tp + 16 <= usize::MAX,
    ensures
        clock_gettime_result(clk_id, tp) is Ok <==> (clk_id == 0 || clk_id == 1 || clk_id == 4)
            && tp + 16 <= crate::consts::KERN_BASE,
        tp + 16 > crate::consts::KERN_BASE ==> clock_gettime_result(clk_id, tp) == Err::<
            u64,
            &'static str,
        >("efault"),
        clock_gettime_result(clk_id, 0) == Err::<u64, &'static str>("efault"),
{
}

/// Waking wakes at least one and no more than asked for, unless there are fewer tasks;
/// requeuing never reports more than asked for.
pub proof fn law_futex_wakes_no_more_than_asked(
    a: Kernel,
    uaddr: usize,
    val: usize,
    uaddr2: usize,
    val3: usize,
)
    requires
        uaddr + 4 <= crate::consts::KERN_BASE,
        uaddr + 4 <= usize::MAX,
        uaddr2 + 4 <= crate::consts::KERN_BASE,
        uaddr2 + 4 <= usize::MAX,
        a.tasks.map@.len() <= usize::MAX,
    ensures
        ({
            let n = a.tasks.map@.len();
            let woken = futex_result(a, uaddr, 1, val, 0, 0, 0);
            let moved = futex_result(a, uaddr, 3, val, 0, uaddr2, val3);
            &&& woken is Ok && woken->Ok_0 <= n
            &&& 0 < val <= n ==> woken->Ok_0 == val
            &&& val > n ==> woken->Ok_0 == n
            &&& val == 0 && n > 0 ==> woken->Ok_0 == 1
            &&& moved is Ok && moved->Ok_0 <= 128
            &&& val + val3 <= 128 ==> moved->Ok_0 == val + val3
            &&& val + val3 >= 128 ==> moved->Ok_0 == 128
            &&& futex_result(a, uaddr, 0, val, 0, 0, 0) == Ok::<u64, &'static str>(0)
        }),
{
}

/// A futex in the kernel is a fault, whatever is asked of it.
pub proof fn law_futex_lies_in_user_space(
    a: Kernel,
    uaddr: usize,
    op: usize,
    val: usize,
    timeout: usize,
    uaddr2: usize,
    val3: usize,
)
    requires
        uaddr + 4 > crate::consts::KERN_BASE,
    ensures
        futex_result(a, uaddr, op, val, timeout, uaddr2, val3) == Err::<u64, &'static str>(
            "efault",
        ),
{
}

/// Adding to and changing a watch takes an event, removing one takes none, and nothing else
/// can be done with it.
pub proof fn law_watches_take_events(op: i32, ev: usize)
    requires
        0 < ev,
        ev + 12 <= usize::MAX,
        ev + 12 <= crate::consts::KERN_BASE,
    ensures
        epoll_ctl_result(op, ev) is Ok <==> 1 <= op <= 3,
        epoll_ctl_result(op, 0) is Ok <==> op == 2,
        !(1 <= op <= 3) ==> epoll_ctl_result(op, ev) == Err::<u64, &'static str>("einval"),
        op == 1 || op == 3 ==> epoll_ctl_result(op, 0) == Err::<u64, &'static str>("efault"),
{
}

/// Waiting for events takes a list in user space with room for at least one.
pub proof fn law_events_need_room(events: usize, max: usize)
    requires
        events + max * 16 <= usize::MAX,
    ensures
        epoll_wait_result(events, max) is Ok <==> events > 0 && max > 0 && events + max * 16
            <= crate::consts::KERN_BASE,
        epoll_create_result(max) is Ok <==> max > 0,
{
}

/// An action is taken from user space and the one before it put there; what is neither is a
/// fault.
pub proof fn law_actions_lie_in_user_space(signo: usize, act: usize, oldact: usize)
    requires
        1 <= signo < 64,
        signo != 9,
        signo != 19,
    ensures
        sigaction_result(signo, act, oldact) == Ok::<u64, &'static str>(0) <==> (act == 0 || crate::util::in_user_space(act, 32)) && (oldact
            == 0 || crate::util::in_user_space(oldact, 32)),
        sigaction_result(signo, act, oldact) is Err ==> sigaction_result(signo, act, oldact)
            == Err::<u64, &'static str>("efault"),
{
}

/// A mask is read from user space and the one before it put there. Where no mask is given, or
/// nobody runs, nothing changes.
pub proof fn law_no_mask_changes_nothing(
    a: Kernel,
    how: usize,
    set: usize,
    oldset: usize,
    r: Result<u64, &'static str>,
    b: Kernel,
)
    requires
        did_sigprocmask(a, how, set, oldset, r, b),
    ensures
        set != 0 && !crate::util::in_user_space(set, 8) ==> r == Err::<u64, &'static str>("efault") && b == a,
        oldset != 0 && !crate::util::in_user_space(oldset, 8) ==> r == Err::<u64, &'static str>("efault") && b == a,
        set == 0 && (oldset == 0 || crate::util::in_user_space(oldset, 8)) ==> r == Ok::<u64, &'static str>(0) && b == a,
        crate::util::in_user_space(set, 8) && (oldset == 0 || crate::util::in_user_space(oldset, 8)) && a.running(0) is None ==> r == Ok::<u64, &'static str>(0) && b
            == a,
        crate::util::in_user_space(set, 8) && (oldset == 0 || crate::util::in_user_space(oldset, 8)) && a.running(0) is Some && how <= 2 ==> r
            == Ok::<u64, &'static str>(0),
{
}

/// A wait takes its limit from user space, and one that needs a limit is not done without.
/// Moving takes a second place in user space, and moving a few counts 32 of each at most. The
/// low four bits say what is to be done, and what they do not name is not known.
pub proof fn law_futex_calls_are_told_apart(
    a: Kernel,
    uaddr: usize,
    op: usize,
    val: usize,
    timeout: usize,
    uaddr2: usize,
    val3: usize,
)
    requires
        crate::util::in_user_space(uaddr, 4),
    ensures
        ({
            let r = futex_result(a, uaddr, op, val, timeout, uaddr2, val3);
            &&& op % 16 == 0 ==> r == if timeout == 0 || crate::util::in_user_space(timeout, 16) {
                Ok::<u64, &'static str>(0)
            } else {
                Err::<u64, &'static str>("efault")
            }
            &&& op % 16 == 5 ==> r == if timeout != 0 && crate::util::in_user_space(timeout, 16) {
                Ok::<u64, &'static str>(0)
            } else {
                Err::<u64, &'static str>("efault")
            }
            &&& (op % 16 == 3 || op % 16 == 9) && !crate::util::in_user_space(uaddr2, 4) ==> r == Err::<u64, &'static str>("efault")
            &&& op % 16 == 3 && crate::util::in_user_space(uaddr2, 4) ==> r is Ok
            &&& op % 16 == 9 && crate::util::in_user_space(uaddr2, 4) ==> {
                &&& r is Ok
                &&& val <= 32 && val3 <= 32 ==> r->Ok_0 == val + val3
                &&& val >= 32 && val3 <= 32 ==> r->Ok_0 == 32 + val3
                &&& val <= 32 && val3 >= 32 ==> r->Ok_0 == val + 32
                &&& val >= 32 && val3 >= 32 ==> r->Ok_0 == 64
            }
            &&& op % 16 == 2 || op % 16 == 4 || 6 <= op % 16 <= 8 || op % 16 >= 10 ==> r
                == Err::<u64, &'static str>("enosys")
            &&& r == futex_result(a, uaddr, op % 16, val, timeout, uaddr2, val3)
        }),
{
}

/// An epoll instance is asked for with a size, which gives its number; its events lie in user
/// space.
pub proof fn law_instances_have_a_size(size: usize, op: i32, ev: usize, events: usize, max: usize)
    ensures
        epoll_create_result(0) == Err::<u64, &'static str>("einval"),
        size > 0 && size * 16 <= usize::MAX ==> epoll_create_result(size) == Ok::<u64, &'static str>((3 + size % 61) as u64),
        size * 16 > usize::MAX ==> epoll_create_result(size) == Err::<u64, &'static str>("enomem"),
        ev != 0 && !crate::util::in_user_space(ev, 12) ==> epoll_ctl_result(op, ev) == Err::<u64, &'static str>("efault"),
        op == 2 ==> epoll_ctl_result(op, 0) == Ok::<u64, &'static str>(0),
        events == 0 || max == 0 ==> epoll_wait_result(events, max) == Err::<u64, &'static str>("einval"),
        max * 16 > usize::MAX ==> epoll_wait_result(events, max) == Err::<u64, &'static str>("einval"),
        events > 0 && max > 0 && max * 16 <= usize::MAX ==> epoll_wait_result(events, max) == if crate::util::in_user_space(
            events,
            (max * 16) as usize,
        ) {
            Ok::<u64, &'static str>(0)
        } else {
            Err::<u64, &'static str>("efault")
        },
{
}

} // verus!
