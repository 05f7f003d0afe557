//! System calls by their numbers.

use vstd::prelude::*;

use crate::consts::{
    SYS_BRK, SYS_CLOCK_GETTIME, SYS_CLOSE, SYS_DUP, SYS_DUP2, SYS_EPOLL_CREATE,
    SYS_EPOLL_CTL, SYS_EPOLL_WAIT, SYS_EXEC, SYS_EXIT, SYS_FCNTL, SYS_FORK, SYS_FSTAT, SYS_FUTEX,
    SYS_GETPGID, SYS_GETPID, SYS_GETPPID, SYS_IOCTL, SYS_KILL, SYS_MMAP, SYS_MUNMAP, SYS_OPEN,
    SYS_PIPE, SYS_READ, SYS_SETPGID, SYS_SETSID, SYS_SIGACTION, SYS_SIGPROCMASK, SYS_STAT,
    SYS_WAIT4, SYS_WRITE,
};
use crate::kernel::Kernel;

verus! {

/// What a call computes with can be counted.
pub open spec fn call_counts(
    a: Kernel,
    nr: usize,
    a0: usize,
    a1: usize,
    a2: usize,
    a3: usize,
    a4: usize,
) -> bool {
    &&& nr == SYS_WRITE ==> crate::kernel::sys_file::write_counts(a, a0, a1, a2)
    &&& nr == SYS_MMAP ==> crate::kernel::sys_mem::map_counts(a.clock.clk, a0, a1, a3, a4)
    &&& nr == SYS_BRK ==> crate::kernel::sys_mem::brk_counts(a0)
    &&& nr == SYS_DUP ==> crate::kernel::sys_file::dup_counts(a, a0)
    &&& nr == SYS_FORK ==> crate::kernel::sys_proc::fork_call_counts(a)
    &&& nr == SYS_FCNTL ==> crate::kernel::sys_file::fcntl_counts(a, a0, a1, a2)
}

/// The outcome of the system call with a number.
pub open spec fn did_call(
    a: Kernel,
    nr: usize,
    a0: usize,
    a1: usize,
    a2: usize,
    a3: usize,
    a4: usize,
    a5: usize,
    r: Result<u64, &'static str>,
    b: Kernel,
) -> bool {
    if nr == SYS_READ {
        crate::kernel::sys_file::did_read(a, a0, a1, a2, r, b)
    } else if nr == SYS_WRITE {
        crate::kernel::sys_file::did_write(a, a0, a1, a2, r, b)
    } else if nr == SYS_OPEN {
        crate::kernel::sys_file::did_open(a, a0, a1, r, b)
    } else if nr == SYS_CLOSE {
        crate::kernel::sys_file::did_close(a, a0, r, b)
    } else if nr == SYS_PIPE {
        crate::kernel::sys_file::did_pipe(a, a0, r, b)
    } else if nr == SYS_DUP {
        crate::kernel::sys_file::did_dup(a, a0, r, b)
    } else if nr == SYS_DUP2 {
        crate::kernel::sys_file::did_dup2(a, a0, a1, r, b)
    } else if nr == SYS_IOCTL {
        crate::kernel::sys_file::did_ioctl(a, a0, a1, a2, r, b)
    } else if nr == SYS_FCNTL {
        crate::kernel::sys_file::did_fcntl(a, a0, a1, a2, r, b)
    } else if nr == SYS_BRK {
        crate::kernel::sys_mem::did_brk(a, a0, r, b)
    } else if nr == SYS_FORK {
        crate::kernel::sys_proc::did_fork(a, r, b)
    } else if nr == SYS_EXIT {
        crate::kernel::sys_proc::did_exit(a, a0, r, b)
    } else if nr == SYS_KILL {
        crate::kernel::sys_proc::did_kill(a, a0 as isize, a1, r, b)
    } else if nr == SYS_SETPGID {
        crate::kernel::sys_proc::did_setpgid(a, a0, a1, r, b)
    } else if nr == SYS_SETSID {
        crate::kernel::sys_proc::did_setsid(a, r, b)
    } else if nr == SYS_SIGPROCMASK {
        crate::kernel::sys_misc::did_sigprocmask(a, a0, a1, a2, r, b)
    } else {
        answers(a, nr, a0, a1, a2, a3, a4, a5, r) && b == a
    }
}

/// The answer to a system call that changes nothing.
pub open spec fn answers(
    a: Kernel,
    nr: usize,
    a0: usize,
    a1: usize,
    a2: usize,
    a3: usize,
    a4: usize,
    a5: usize,
    r: Result<u64, &'static str>,
) -> bool {
    if nr == SYS_STAT || nr == SYS_FSTAT {
        r == crate::kernel::sys_file::stat_result(nr, a0, a1)
    } else if nr == SYS_MMAP {
        r == crate::kernel::sys_mem::mmap_result(a, a0, a1, a3, a4, a5)
    } else if nr == SYS_MUNMAP {
        r == crate::kernel::sys_mem::munmap_result(a0)
    } else if nr == SYS_EXEC {
        r == crate::kernel::sys_proc::exec_result(a0, a1, a2)
    } else if nr == SYS_WAIT4 {
        r == crate::kernel::sys_proc::wait4_result(a, a0 as isize, a1, a2, a3)
    } else if nr == SYS_GETPID {
        r == Ok::<u64, &'static str>(crate::kernel::sys_proc::own_id(a, 1) as u64)
    } else if nr == SYS_GETPPID {
        r == Ok::<u64, &'static str>(crate::kernel::sys_proc::parent_id(a))
    } else if nr == SYS_GETPGID {
        r == crate::kernel::sys_proc::getpgid_result(a, a0)
    } else if nr == SYS_EPOLL_CREATE {
        r == crate::kernel::sys_misc::epoll_create_result(a0)
    } else if nr == SYS_EPOLL_CTL {
        r == crate::kernel::sys_misc::epoll_ctl_result(a1 as i32, a3)
    } else if nr == SYS_EPOLL_WAIT {
        r == crate::kernel::sys_misc::epoll_wait_result(a1, a2)
    } else if nr == SYS_CLOCK_GETTIME {
        r == crate::kernel::sys_misc::clock_gettime_result(a0, a1)
    } else if nr == SYS_SIGACTION {
        r == crate::kernel::sys_misc::sigaction_result(a0, a1, a2)
    } else if nr == SYS_FUTEX {
        r == crate::kernel::sys_misc::futex_result(a, a0, a1, a2, a3, a4, a5)
    } else {
        r == Err::<u64, &'static str>("enosys")
    }
}

impl Kernel {
    /// The system call with a number and its six arguments.
    pub fn dispatch_syscall(
        &mut self,
        nr: usize,
        a0: usize,
        a1: usize,
        a2: usize,
        a3: usize,
        a4: usize,
        a5: usize,
    ) -> (r: Result<u64, &'static str>)
        requires
            old(self).wf(),
            call_counts(*old(self), nr, a0, a1, a2, a3, a4),
        ensures
            final(self).wf(),
            did_call(*old(self), nr, a0, a1, a2, a3, a4, a5, r, *final(self)),
    {
        if nr == SYS_READ {
            self.sys_read(a0, a1, a2)
        } else if nr == SYS_WRITE {
            self.sys_write(a0, a1, a2)
        } else if nr == SYS_OPEN {
            self.sys_open(a0, a1, a2)
        } else if nr == SYS_CLOSE {
            self.sys_close(a0)
        } else if nr == SYS_PIPE {
            self.sys_pipe(a0)
        } else if nr == SYS_DUP {
            self.sys_dup(a0)
        } else if nr == SYS_DUP2 {
            self.sys_dup2(a0, a1)
        } else if nr == SYS_IOCTL {
            self.sys_ioctl(a0, a1, a2)
        } else if nr == SYS_FCNTL {
            self.sys_fcntl(a0, a1, a2)
        } else if nr == SYS_BRK {
            self.sys_brk(a0)
        } else if nr == SYS_FORK {
            self.sys_fork()
        } else if nr == SYS_EXIT {
            self.sys_exit(a0)
        } else if nr == SYS_KILL {
            self.sys_kill(a0 as isize, a1)
        } else if nr == SYS_SETPGID {
            self.sys_setpgid(a0, a1)
        } else if nr == SYS_SETSID {
            self.sys_setsid()
        } else if nr == SYS_SIGPROCMASK {
            self.sys_sigprocmask(a0, a1, a2)
        } else {
            self.answer(nr, a0, a1, a2, a3, a4, a5)
        }
    }

    /// Answers a system call that changes nothing.
    fn answer(
        &self,
        nr: usize,
        a0: usize,
        a1: usize,
        a2: usize,
        a3: usize,
        a4: usize,
        a5: usize,
    ) -> (r: Result<u64, &'static str>)
        requires
            self.wf(),
            call_counts(*self, nr, a0, a1, a2, a3, a4),
        ensures
            answers(*self, nr, a0, a1, a2, a3, a4, a5, r),
    {
        if nr == SYS_STAT || nr == SYS_FSTAT {
            self.sys_stat(nr, a0, a1)
        } else if nr == SYS_MMAP {
            self.sys_mmap(a0, a1, a3, a4, a5)
        } else if nr == SYS_MUNMAP {
            self.sys_munmap(a0, a1)
        } else if nr == SYS_EXEC {
            self.sys_exec(a0, a1, a2)
        } else if nr == SYS_WAIT4 {
            self.sys_wait4(a0 as isize, a1, a2, a3)
        } else if nr == SYS_GETPID {
            self.sys_getpid()
        } else if nr == SYS_GETPPID {
            self.sys_getppid()
        } else if nr == SYS_GETPGID {
            self.sys_getpgid(a0)
        } else if nr == SYS_EPOLL_CREATE {
            self.sys_epoll_create(a0)
        } else if nr == SYS_EPOLL_CTL {
            self.sys_epoll_ctl(a1 as i32, a3)
        } else if nr == SYS_EPOLL_WAIT {
            self.sys_epoll_wait(a1, a2)
        } else if nr == SYS_CLOCK_GETTIME {
            self.sys_clock_gettime(a0, a1)
        } else if nr == SYS_SIGACTION {
            self.sys_sigaction(a0, a1, a2)
        } else if nr == SYS_FUTEX {
            self.sys_futex(a0, a1, a2, a3, a4, a5)
        } else {
            Err("enosys")
        }
    }
}

} // verus!
