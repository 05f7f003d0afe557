//! Constants shared by the subsystems of the kernel.

use vstd::prelude::*;

verus! {

// ---- Memory and machine ----

/// Size of one memory page in bytes.
pub const PAGE_SZ: usize = 4096;

/// Largest number of processes.
pub const N_PROC: usize = 256;

/// Number of physical page frames the machine is sized for.
pub const N_FRAMES: usize = 65536;

/// First virtual address of the kernel; user addresses lie below it.
pub const KERN_BASE: u64 = 0xFFFF_FFFF_8000_0000;

/// Virtual address at which physical memory is mapped linearly.
pub const PHYS_OFF: u64 = 0xFFFF_FFFF_0000_0000;

/// Physical address of the first frame.
pub const MEM_OFF: usize = 0x8000_0000;

/// Size of the kernel heap in bytes.
pub const KHEAP_SZ: usize = 0x800000;

/// Number of chains of the block cache.
pub const N_CHAINS: usize = 64;

/// Default capacity of a ring buffer.
pub const RBUF_CAP: usize = 256;

/// Number of general registers saved in a context.
pub const N_REGS: usize = 16;

/// Nesting depth allowed for mounts.
pub const MNT_DEPTH: usize = 8;

/// Number of CPU slots.
pub const MAX_CPU: usize = 8;

/// Size of one kernel stack in bytes.
pub const KSTK_SZ: usize = 0x4000;

/// Lowest address of the user stack.
pub const USR_STK_OFF: usize = 0x7FFF_0000;

/// Size of the user stack in bytes.
pub const USR_STK_SZ: usize = 0x10000;

/// Microseconds per clock tick.
pub const USEC_TICK: usize = 1000;

/// Number of symbolic links followed before giving up.
pub const FOLLOW_LIM: usize = 3;

// ---- fcntl commands and open flags ----

/// Duplicate a descriptor to a number not below the argument.
pub const F_DUPFD: usize = 0;

/// Read the descriptor flags.
pub const F_GETFD: usize = 1;

/// Set the descriptor flags.
pub const F_SETFD: usize = 2;

/// Read the file status flags.
pub const F_GETFL: usize = 3;

/// Set the file status flags.
pub const F_SETFL: usize = 4;

/// Query a file lock.
pub const F_GETLK: usize = 5;

/// Set a file lock without waiting.
pub const F_SETLK: usize = 6;

/// Set a file lock, waiting for it.
pub const F_SETLKW: usize = 7;

/// The close-on-exec bit.
pub const FD_CLOEXEC: usize = 1;

/// Duplicate a descriptor with close-on-exec set.
pub const F_DUPFD_CLOEXEC: usize = 1030;

/// Do not block on I/O.
pub const O_NONBLOCK: usize = 0x800;

/// Write at the end of the file.
pub const O_APPEND: usize = 0x400;

/// Open with close-on-exec set.
pub const O_CLOEXEC: usize = 0x80000;

/// Do not follow symbolic links.
pub const AT_NOFOLLOW: usize = 0x100;

// ---- Terminal and ioctl commands ----

/// Read the terminal attributes.
pub const TCGETS: usize = 0x5401;

/// Set the terminal attributes.
pub const TCSETS: usize = 0x5402;

/// Read the foreground process group.
pub const TIOCGPGRP: usize = 0x540F;

/// Set the foreground process group.
pub const TIOCSPGRP: usize = 0x5410;

/// Read the window size.
pub const TIOCGWINSZ: usize = 0x5413;

/// Clear close-on-exec.
pub const FIONCLEX: usize = 0x5450;

/// Set close-on-exec.
pub const FIOCLEX: usize = 0x5451;

/// Set or clear non-blocking mode.
pub const FIONBIO: usize = 0x5421;

// ---- ELF auxiliary vector ----

/// Address of the program headers.
pub const AT_PHDR: u8 = 3;

/// Size of a program header.
pub const AT_PHENT: u8 = 4;

/// Number of program headers.
pub const AT_PHNUM: u8 = 5;

/// Page size.
pub const AT_PAGESZ: u8 = 6;

/// Load address of the interpreter.
pub const AT_BASE: u8 = 7;

/// Entry point of the program.
pub const AT_ENTRY: u8 = 9;

// ---- Terminal line modes ----

/// Generate signals from control characters.
pub const LM_ISIG: u32 = 0x1;

/// Line-buffered input.
pub const LM_ICANON: u32 = 0x2;

/// Echo input.
pub const LM_ECHO: u32 = 0x8;

/// Echo erase as backspace, space, backspace.
pub const LM_ECHOE: u32 = 0x10;

/// Echo a newline after kill.
pub const LM_ECHOK: u32 = 0x20;

/// Echo newlines even without echo.
pub const LM_ECHONL: u32 = 0x40;

/// Keep the queues when a signal is generated.
pub const LM_NOFLSH: u32 = 0x80;

/// Stop background writers.
pub const LM_TOSTOP: u32 = 0x100;

/// Extended input processing.
pub const LM_IEXTEN: u32 = 0x8000;

/// Canonical case presentation.
pub const LM_XCASE: u32 = 0x4;

/// Echo control characters as ^X.
pub const LM_ECHOCTL: u32 = 0x200;

/// Print erased characters.
pub const LM_ECHOPRT: u32 = 0x400;

/// Erase the line visually on kill.
pub const LM_ECHOKE: u32 = 0x800;

/// Output is being flushed.
pub const LM_FLUSHO: u32 = 0x1000;

/// Pending input is to be reread.
pub const LM_PENDIN: u32 = 0x4000;

/// External processing.
pub const LM_EXTPROC: u32 = 0x10000;

// ---- Virtual memory flags ----

/// Readable.
pub const VM_READ: u32 = 0x01;

/// Writable.
pub const VM_WRITE: u32 = 0x02;

/// Executable.
pub const VM_EXEC: u32 = 0x04;

/// Shared between mappings.
pub const VM_SHARED: u32 = 0x08;

/// Grows towards lower addresses.
pub const VM_GROWSDOWN: u32 = 0x10;

/// Not copied on fork.
pub const VM_DONTCOPY: u32 = 0x20;

/// Mapped with huge pages.
pub const VM_HUGETLB: u32 = 0x40;

/// Maps frame numbers directly.
pub const VM_PFNMAP: u32 = 0x80;

// ---- Capabilities ----

/// May change file owners.
pub const CAP_CHOWN: u32 = 0;

/// May signal any process.
pub const CAP_KILL: u32 = 5;

/// May change group ids.
pub const CAP_SETGID: u32 = 6;

/// May change user ids.
pub const CAP_SETUID: u32 = 7;

/// May bind privileged ports.
pub const CAP_NET_BIND: u32 = 10;

/// May use raw sockets.
pub const CAP_NET_RAW: u32 = 13;

/// May trace any process.
pub const CAP_SYS_PTRACE: u32 = 19;

/// May administer the system.
pub const CAP_SYS_ADMIN: u32 = 21;

/// Capability bits that a child may inherit.
pub const INHERITABLE_MASK: u64 = 0x0000_00FF_FFFF_FFFF;

// ---- Memory zones ----

/// Zone reachable by DMA.
pub const ZONE_DMA: usize = 0;

/// Directly mapped zone.
pub const ZONE_NORMAL: usize = 1;

/// High memory zone.
pub const ZONE_HIGH: usize = 2;

/// Number of zones.
pub const N_ZONES: usize = 3;

// ---- Scheduler ----

/// Highest priority.
pub const PRIO_MIN: i32 = -20;

/// Lowest priority.
pub const PRIO_MAX: i32 = 19;

/// Default priority.
pub const PRIO_DEFAULT: i32 = 0;

/// Time sharing.
pub const SCHED_NORMAL: u8 = 0;

/// Real time, first in first out.
pub const SCHED_FIFO: u8 = 1;

/// Real time, round robin.
pub const SCHED_RR: u8 = 2;

/// Batch work.
pub const SCHED_BATCH: u8 = 3;

// ---- Slab allocator ----

/// Smallest slab object.
pub const SLAB_OBJ_MIN: usize = 8;

/// Largest slab object.
pub const SLAB_OBJ_MAX: usize = 2048;

/// Alignment of slab objects.
pub const SLAB_ALIGN: usize = 8;

// ---- Signals ----

/// Number of signals.
pub const NSIG: u32 = 64;

/// Default action.
pub const SIG_DFL: usize = 0;

/// Ignore the signal.
pub const SIG_IGN: usize = 1;

/// Kill; can be neither caught nor ignored.
pub const SIGKILL: u32 = 9;

/// Stop; can be neither caught nor ignored.
pub const SIGSTOP: u32 = 19;

/// A child changed state.
pub const SIGCHLD: u32 = 17;

/// First user signal.
pub const SIGUSR1: u32 = 10;

/// Second user signal.
pub const SIGUSR2: u32 = 12;

/// Alarm clock.
pub const SIGALRM: u32 = 14;

// ---- Timers ----

/// Number of slots of the timer wheel.
pub const TIMER_WHEEL_SIZE: usize = 256;

/// Timer interrupts per second.
pub const TIMER_TICK_HZ: usize = 100;

/// Tick at which the machine booted.
pub const BOOT_EPOCH: usize = 0;

// ---- Sockets ----

/// Stream socket.
pub const SOCK_STREAM: u32 = 1;

/// Datagram socket.
pub const SOCK_DGRAM: u32 = 2;

/// Raw socket.
pub const SOCK_RAW: u32 = 3;

/// IPv4.
pub const AF_INET: u32 = 2;

/// IPv6.
pub const AF_INET6: u32 = 10;

/// Local sockets.
pub const AF_UNIX: u32 = 1;

// ---- System call numbers ----

/// `read` call number.
pub const SYS_READ: usize = 0;

/// `write` call number.
pub const SYS_WRITE: usize = 1;

/// `open` call number.
pub const SYS_OPEN: usize = 2;

/// `close` call number.
pub const SYS_CLOSE: usize = 3;

/// `stat` call number.
pub const SYS_STAT: usize = 4;

/// `fstat` call number.
pub const SYS_FSTAT: usize = 5;

/// `mmap` call number.
pub const SYS_MMAP: usize = 9;

/// `munmap` call number.
pub const SYS_MUNMAP: usize = 11;

/// `brk` call number.
pub const SYS_BRK: usize = 12;

/// `sigaction` call number.
pub const SYS_SIGACTION: usize = 13;

/// `sigprocmask` call number.
pub const SYS_SIGPROCMASK: usize = 14;

/// `ioctl` call number.
pub const SYS_IOCTL: usize = 16;

/// `pipe` call number.
pub const SYS_PIPE: usize = 22;

/// `dup` call number.
pub const SYS_DUP: usize = 32;

/// `dup2` call number.
pub const SYS_DUP2: usize = 33;

/// `getpid` call number.
pub const SYS_GETPID: usize = 39;

/// `fork` call number.
pub const SYS_FORK: usize = 57;

/// `exec` call number.
pub const SYS_EXEC: usize = 59;

/// `exit` call number.
pub const SYS_EXIT: usize = 60;

/// `wait4` call number.
pub const SYS_WAIT4: usize = 61;

/// `kill` call number.
pub const SYS_KILL: usize = 62;

/// `fcntl` call number.
pub const SYS_FCNTL: usize = 72;

/// `setpgid` call number.
pub const SYS_SETPGID: usize = 109;

/// `getppid` call number.
pub const SYS_GETPPID: usize = 110;

/// `setsid` call number.
pub const SYS_SETSID: usize = 112;

/// `getpgid` call number.
pub const SYS_GETPGID: usize = 121;

/// `futex` call number.
pub const SYS_FUTEX: usize = 202;

/// `epoll_create` call number.
pub const SYS_EPOLL_CREATE: usize = 213;

/// `clock_gettime` call number.
pub const SYS_CLOCK_GETTIME: usize = 228;

/// `epoll_wait` call number.
pub const SYS_EPOLL_WAIT: usize = 232;

/// `epoll_ctl` call number.
pub const SYS_EPOLL_CTL: usize = 233;

// ---- I/O queue ----

/// Queue depth above which a batch is merged.
pub const IOQUEUE_DEPTH: usize = 128;

} // verus!
