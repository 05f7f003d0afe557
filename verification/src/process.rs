//! Processes: what each one is, the table of all, and what they may do.
pub mod caps;
pub mod fork;
pub mod init;
pub mod table;
pub mod task;

use vstd::prelude::*;

pub use crate::process::caps::CapSet;
pub use crate::process::init::ProcInit;
pub use crate::process::table::{Shared, TaskTable};
pub use crate::process::task::{Task, TaskInfo, ThdCtx};

verus! {

/// The number of a thread.
pub type Tid = usize;

/// The number of a process group.
pub type Pgid = i32;

/// The number of a process.
#[derive(Clone, Copy, Debug, PartialEq, Eq, PartialOrd, Ord)]
pub struct Pid(pub usize);

impl Pid {
    /// The number of the first process.
    pub const INIT: usize = 1;

    /// No process yet.
    pub fn new() -> (r: Self)
        ensures
            r == Pid(0),
    {
        Pid(0)
    }

    /// The number.
    pub fn get(&self) -> (r: usize)
        ensures
            r == self.0,
    {
        self.0
    }

    /// Whether it is the first process.
    pub fn is_init(&self) -> (r: bool)
        ensures
            r == (self.0 == Pid::INIT),
    {
        self.0 == Self::INIT
    }
}

} // verus!
