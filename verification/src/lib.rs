//! A small kernel as a library of verified state machines: memory, files, tasks,
//! interprocess communication, scheduling and the system calls over them.
//!
//! Every operation works on plain values and states in its contract what it returns
//! and how it changes its receiver. Threads, parking and shared ownership belong to
//! the program around the library.
pub mod bytes;
pub mod channel;
pub mod consts;
pub mod fs;
pub mod ipc;
pub mod kernel;
pub mod memory;
pub mod process;
pub mod sched;
pub mod signal;
pub mod strmap;
pub mod sync;
pub mod tables;
pub mod text;
pub mod timer;
pub mod trap;
pub mod util;
