//! System calls on processes.

use vstd::prelude::*;

use crate::consts::{NSIG, PAGE_SZ, SIGCHLD, SIGKILL, SIGSTOP};
use crate::kernel::life::negated;
use crate::kernel::Kernel;
use crate::process::{Shared, Task, TaskTable};
use crate::util::check_access;

verus! {

broadcast use vstd::std_specs::btree::group_btree_axioms;

// ---- Fork, exec, exit ----

/// What making a process comes to: its number, unless more than nine tenths of the frames
/// are taken or too few are left for what it costs.
pub open spec fn fork_result(a: Kernel) -> Result<u64, &'static str> {
    let free = crate::memory::frames::free_in(a.pool.slots@) as int;
    let cost = crate::kernel::sys_misc::least(free, 256) + a.tasks.map@.len() * 2;
    if a.pressure() > 90 {
        Err("enomem")
    } else if free < cost / PAGE_SZ as int {
        Err("enomem")
    } else {
        Ok(a.tasks.seq as u64)
    }
}

/// The kernel once a number for a new process was taken.
pub open spec fn numbered(a: Kernel) -> Kernel {
    Kernel { tasks: TaskTable { seq: a.tasks.seq.wrapping_add(1), ..a.tasks }, ..a }
}

/// The references that a child of the running task takes can be counted, if it comes to that.
pub open spec fn fork_call_counts(a: Kernel) -> bool {
    fork_result(a) is Ok && a.running(0) is Some ==> crate::kernel::life::fork_counts(
        a,
        a.running(0)->0,
    )
}

/// The outcome of making a process: a child of the running task. Where that is refused, or no
/// task runs, only the number is used up.
pub open spec fn did_fork(a: Kernel, r: Result<u64, &'static str>, b: Kernel) -> bool {
    &&& r == fork_result(a)
    &&& if r is Ok && a.running(0) is Some {
        crate::kernel::life::forked(a, a.running(0)->0, b)
    } else {
        b == numbered(a)
    }
}

/// What starting a program comes to.
pub open spec fn exec_result(path: usize, argv: usize, envp: usize) -> Result<u64, &'static str> {
    if path == 0 || !crate::util::in_user_space(path, 256) {
        Err("efault")
    } else if argv != 0 && !crate::util::in_user_space(argv, 512) {
        Err("efault")
    } else if envp != 0 && !crate::util::in_user_space(envp, 512) {
        Err("efault")
    } else {
        Ok(0)
    }
}

/// The tasks once the parent of task `t`, if it has one, was sent the signal of a child's
/// end.
pub open spec fn parent_signalled(a: Seq<Task>, t: usize, b: Seq<Task>) -> bool {
    match a[t as int].parent {
        None => b == a,
        Some(p) => {
            &&& b.len() == a.len()
            &&& a[p as int].signalled(
                1,
                SIGCHLD as i32,
                a[t as int].info.id as isize,
                b[p as int],
            )
            &&& forall|x: int| 0 <= x < a.len() && x != p ==> #[trigger] b[x] == a[x]
        },
    }
}

/// The tasks once the first process, if it can be found, has the children of task `t`.
pub open spec fn children_handed_over(
    a: Seq<Task>,
    t: usize,
    map: Map<usize, usize>,
    b: Seq<Task>,
) -> bool {
    if map.contains_key(1) {
        crate::process::table::handed_over_in(a, t, map[1], b)
    } else {
        b == a
    }
}

/// The outcome of ending the running task: its parent gets a signal, and the first process
/// its children.
pub open spec fn did_exit(a: Kernel, status: usize, r: Result<u64, &'static str>, b: Kernel) -> bool {
    &&& r == Ok::<u64, &'static str>(0)
    &&& match a.running(0) {
        None => b == a,
        Some(t) => {
            &&& exists|m: Seq<Task>, n: Seq<Task>|
                #![trigger parent_signalled(m, t, n)]
                {
                    &&& crate::process::table::ended_in(a.tasks.tasks@, t, status, m)
                    &&& parent_signalled(m, t, n)
                    &&& children_handed_over(n, t, a.tasks.map@, b.tasks.tasks@)
                }
            &&& b.shared.files@ == crate::process::task::all_dropped(
                a.tasks.tasks@[t as int].files@,
                a.shared.files@,
            )
            &&& b.tasks == (TaskTable { tasks: b.tasks.tasks, ..a.tasks })
            &&& b == (Kernel {
                tasks: b.tasks,
                shared: Shared { files: b.shared.files, ..a.shared },
                ..a
            })
        },
    }
}

impl Kernel {
    /// Makes a child of the running task.
    pub fn sys_fork(&mut self) -> (r: Result<u64, &'static str>)
        requires
            old(self).wf(),
            fork_call_counts(*old(self)),
        ensures
            final(self).wf(),
            did_fork(*old(self), r, *final(self)),
    {
        let free: usize = self.pool.free_count();
        let active: usize = self.tasks.count();
        let pid: usize = self.tasks.seq;
        let cost: u128 = (if free < 256 {
            free as u128
        } else {
            256
        }) + active as u128 * 2;
        if self.memory_pressure() > 90 || (free as u128) < cost / PAGE_SZ as u128 {
            self.tasks.seq = pid.wrapping_add(1);
            return Err("enomem");
        }
        match self.cur_task(0) {
            Some(t) => {
                assert(self.cpus@[0] is Some);
                Ok(self.fork_at(t) as u64)
            },
            None => {
                self.tasks.seq = pid.wrapping_add(1);
                Ok(pid as u64)
            },
        }
    }

    /// Starts a program.
    pub fn sys_exec(&self, path: usize, argv: usize, envp: usize) -> (r: Result<u64, &'static str>)
        ensures
            r == exec_result(path, argv, envp),
    {
        if path == 0 {
            return Err("efault");
        }
        if !check_access(path, 256) {
            return Err("efault");
        }
        if argv != 0 && !check_access(argv, 512) {
            return Err("efault");
        }
        if envp != 0 && !check_access(envp, 512) {
            return Err("efault");
        }
        Ok(0)
    }

    /// Ends the running task.
    pub fn sys_exit(&mut self, status: usize) -> (r: Result<u64, &'static str>)
        requires
            old(self).wf(),
        ensures
            final(self).wf(),
            did_exit(*old(self), status, r, *final(self)),
    {
        let t: usize = match self.cur_task(0) {
            Some(t) => t,
            None => {
                return Ok(0);
            },
        };
        let ghost a = self.tasks.tasks@;
        let ghost st = self.shared.files@;
        proof {
            assert(self.cpus@[0] is Some);
            assert(crate::process::table::backed(
                a[t as int],
                st,
                self.configfs@,
                self.shared.sems@,
                self.shared.shms@,
            ));
            assert(crate::process::task::pipes_ok(a[t as int].files@, st));
        }
        self.tasks.exit_task(t, status, &mut self.shared.files);
        let ghost m = self.tasks.tasks@;
        let id: usize = self.tasks.tasks[t].id();
        let parent: Option<usize> = self.tasks.tasks[t].parent;
        if let Some(p) = parent {
            assert(crate::process::table::links_ok(m[t as int], m.len()));
            self.tasks.tasks[p].send_sig(SIGCHLD as i32, id as isize);
        }
        let ghost n = self.tasks.tasks@;
        proof {
            assert(parent_signalled(m, t, n));
            assert forall|x: int| 0 <= x < n.len() implies crate::process::table::links_ok(
                #[trigger] n[x],
                n.len(),
            ) by {
                assert(crate::process::table::links_ok(m[x], m.len()));
            }
            assert(crate::process::table::links_ok(n[t as int], n.len()));
            assert(self.tasks.wf());
        }
        if let Some(init) = self.tasks.find(1) {
            self.tasks.hand_over(t, init);
        }
        proof {
            let b = self.tasks.tasks@;
            assert(children_handed_over(n, t, old(self).tasks.map@, b));
            assert(old(self).tasks.tasks.len() == a.len());
            self.lemma_exit_sound(*old(self), t, status, m, n);
        }
        Ok(0)
    }

    proof fn lemma_exit_sound(
        self,
        before: Kernel,
        t: usize,
        status: usize,
        m: Seq<Task>,
        n: Seq<Task>,
    )
        requires
            before.wf(),
            t < before.tasks.tasks@.len(),
            before.tasks.tasks@.len() <= usize::MAX,
            crate::process::table::ended_in(before.tasks.tasks@, t, status, m),
            parent_signalled(m, t, n),
            forall|x: int|
                0 <= x < n.len() ==> crate::process::table::links_ok(#[trigger] n[x], n.len()),
            children_handed_over(n, t, before.tasks.map@, self.tasks.tasks@),
            self.tasks == (TaskTable { tasks: self.tasks.tasks, ..before.tasks }),
            self.configfs == before.configfs,
            self.shared == (Shared { files: self.shared.files, ..before.shared }),
            self.shared.files@ == crate::process::task::all_dropped(
                before.tasks.tasks@[t as int].files@,
                before.shared.files@,
            ),
        ensures
            self.tasks.wf(),
            self.tasks.all_backed(self.shared, self.configfs@),
    {
        let (a, b) = (before.tasks.tasks@, self.tasks.tasks@);
        let files = a[t as int].files@;
        let fds = crate::tables::in_order(files.dom());
        crate::tables::lemma_in_order_lists(files.dom());
        assert(crate::process::table::backed(
            a[t as int],
            before.shared.files@,
            before.configfs@,
            before.shared.sems@,
            before.shared.shms@,
        ));
        assert forall|i: int|
            0 <= i < fds.len() && files[#[trigger] fds[i]] is Pipe implies files[fds[i]]->Pipe_0.wf(
            before.shared.files@,
        ) by {
            assert(fds.contains(fds[i]));
            assert(files.contains_key(fds[i]));
        }
        crate::process::task::lemma_turn_keeps_sizes(files, fds, before.shared.files@);
        assert forall|x: int| 0 <= x < b.len() implies crate::process::table::links_ok(
            #[trigger] b[x],
            b.len(),
        ) by {
            assert(crate::process::table::links_ok(n[x], n.len()));
            assert(crate::process::table::links_ok(n[t as int], n.len()));
            if before.tasks.map@.contains_key(1) {
                let y = x as usize;
                assert(crate::process::table::handed_over(
                    n[y as int],
                    y,
                    t,
                    before.tasks.map@[1],
                    n[t as int].subtasks@,
                    b[y as int],
                ));
            }
        }
        assert forall|x: int| 0 <= x < b.len() implies crate::process::table::backed(
            #[trigger] b[x],
            self.shared.files@,
            self.configfs@,
            self.shared.sems@,
            self.shared.shms@,
        ) by {
            if before.tasks.map@.contains_key(1) {
                let y = x as usize;
                assert(crate::process::table::handed_over(
                    n[y as int],
                    y,
                    t,
                    before.tasks.map@[1],
                    n[t as int].subtasks@,
                    b[y as int],
                ));
            }
            crate::kernel::lemma_still_backed(
                a[x],
                before.shared.files@,
                before.configfs@,
                before.shared.sems@,
                before.shared.shms@,
                self.shared.files@,
                self.configfs@,
                self.shared.sems@,
                self.shared.shms@,
            );
            assert(b[x].sem_ctx == a[x].sem_ctx && b[x].shm_ctx == a[x].shm_ctx);
            assert(x != t ==> b[x].files == a[x].files);
        }
    }
}

// ---- Waiting ----

/// The test for tasks that have ended.
pub open spec fn finished(ts: Seq<Task>) -> spec_fn(usize) -> bool {
    |t: usize| ts[t as int].is_done()
}

/// What waiting for a child comes to. Where nothing has ended, an odd `options` asks for zero
/// instead of an error.
pub open spec fn wait4_result(
    a: Kernel,
    pid: isize,
    status: usize,
    options: usize,
    rusage: usize,
) -> Result<u64, &'static str> {
    let tt = a.tasks;
    let none: Result<u64, &'static str> = if options % 2 == 1 {
        Ok(0)
    } else {
        Err("echild")
    };
    if status != 0 && !crate::util::in_user_space(status, 4) {
        Err("efault")
    } else if rusage != 0 && !crate::util::in_user_space(rusage, 144) {
        Err("efault")
    } else if pid == -1 {
        let ids = crate::tables::in_order(tt.map@.dom()).filter(
            crate::process::table::over(tt.tasks@, tt.map@),
        );
        if ids.len() == 0 {
            none
        } else {
            Ok(ids[0] as u64)
        }
    } else if pid == 0 {
        match a.running(0) {
            None => Err("echild"),
            Some(t) => {
                let g = tt.group(tt.tasks@[t as int].pgid).filter(finished(tt.tasks@));
                if g.len() == 0 {
                    none
                } else {
                    Ok(tt.tasks@[g.last() as int].pid.0 as u64)
                }
            },
        }
    } else if pid > 0 {
        if !tt.map@.contains_key(pid as usize) {
            Err("echild")
        } else if tt.tasks@[tt.map@[pid as usize] as int].is_done() {
            Ok(pid as u64)
        } else {
            none
        }
    } else {
        let all = tt.group(crate::kernel::life::group_of(pid));
        let g = all.filter(finished(tt.tasks@));
        if all.len() == 0 {
            Err("echild")
        } else if g.len() == 0 {
            none
        } else {
            Ok(tt.tasks@[g[0] as int].pid.0 as u64)
        }
    }
}

impl Kernel {
    /// The tasks of a process group that have ended.
    fn finished_in(&self, pgid: i32) -> (r: Vec<usize>)
        requires
            self.wf(),
        ensures
            r@ == self.tasks.group(pgid).filter(finished(self.tasks.tasks@)),
            forall|i: int| 0 <= i < r@.len() ==> #[trigger] r@[i] < self.tasks.tasks@.len(),
    {
        let all = self.tasks.pgid_group(pgid);
        let ghost p = finished(self.tasks.tasks@);
        let mut out: Vec<usize> = Vec::new();
        let mut n: usize = 0;
        proof {
            reveal(Seq::filter);
            assert(all@.take(0).filter(p) =~= Seq::empty());
        }
        while n < all.len()
            invariant
                p == finished(self.tasks.tasks@),
                n <= all@.len(),
                forall|i: int| 0 <= i < all@.len() ==> #[trigger] all@[i] < self.tasks.tasks@.len(),
                forall|i: int| 0 <= i < out@.len() ==> #[trigger] out@[i] < self.tasks.tasks@.len(),
                out@ == all@.take(n as int).filter(p),
            decreases all@.len() - n,
        {
            proof {
                crate::tables::lemma_filter_take(all@, n as int, p);
            }
            if self.tasks.tasks[all[n]].done() {
                out.push(all[n]);
            }
            n += 1;
        }
        assert(all@.take(n as int) =~= all@);
        out
    }

    /// Waits for a child: any for -1, one of the running task's group for 0, that of a number,
    /// or one of the group of a negative number.
    pub fn sys_wait4(&self, pid: isize, status: usize, options: usize, rusage: usize) -> (r: Result<
        u64,
        &'static str,
    >)
        requires
            self.wf(),
        ensures
            r == wait4_result(*self, pid, status, options, rusage),
    {
        if status != 0 && !check_access(status, 4) {
            return Err("efault");
        }
        if rusage != 0 && !check_access(rusage, 144) {
            return Err("efault");
        }
        let none: Result<u64, &'static str> = if options % 2 == 1 {
            Ok(0)
        } else {
            Err("echild")
        };
        if pid == -1 {
            let ids = self.tasks.zombie_tasks();
            if ids.len() == 0 {
                return none;
            }
            Ok(ids[0] as u64)
        } else if pid == 0 {
            match self.cur_task(0) {
                Some(t) => {
                    assert(self.cpus@[0] is Some);
                    let g = self.finished_in(self.tasks.tasks[t].pgid);
                    if g.len() == 0 {
                        none
                    } else {
                        Ok(self.tasks.tasks[g[g.len() - 1]].pid.get() as u64)
                    }
                },
                None => Err("echild"),
            }
        } else if pid > 0 {
            match self.tasks.find(pid as usize) {
                Some(t) => if self.tasks.tasks[t].done() {
                    Ok(pid as u64)
                } else {
                    none
                },
                None => Err("echild"),
            }
        } else {
            let pgid: i32 = negated(pid);
            let all = self.tasks.pgid_group(pgid);
            if all.len() == 0 {
                return Err("echild");
            }
            let g = self.finished_in(pgid);
            if g.len() == 0 {
                none
            } else {
                Ok(self.tasks.tasks[g[0]].pid.get() as u64)
            }
        }
    }
}

// ---- Signals to processes ----

/// `b` is the table once a signal was sent to each of `who`, as often as it is named.
pub open spec fn all_signalled(a: TaskTable, who: Seq<usize>, sig: i32, b: TaskTable) -> bool {
    &&& b.tasks@.len() == a.tasks@.len()
    &&& forall|x: usize|
        x < a.tasks@.len() ==> a.tasks@[x as int].signalled(
            crate::tables::times(who, x),
            sig,
            -1isize,
            #[trigger] b.tasks@[x as int],
        )
    &&& b.map@ == a.map@
    &&& b.seq == a.seq
    &&& b.root == a.root
}

/// The test for numbers behind that of the first process.
pub open spec fn behind_init() -> spec_fn(usize) -> bool {
    |id: usize| id > 1
}

/// The tasks that a signal to all goes to: those that have not ended, without the first
/// process.
pub open spec fn everyone(a: TaskTable) -> Seq<usize> {
    crate::tables::in_order(a.map@.dom()).filter(
        crate::process::table::alive(a.tasks@, a.map@),
    ).filter(behind_init()).map_values(|id: usize| a.map@[id])
}

/// The signal cannot be held back.
pub open spec fn is_forcible(sig: usize) -> bool {
    sig == SIGKILL || sig == SIGSTOP
}

/// The outcome of sending a signal: to the running task's group for 0, to all for -1, to
/// that of a number, or to the group of a negative number. The first process cannot be
/// killed or stopped.
pub open spec fn did_kill(
    a: Kernel,
    pid: isize,
    sig: usize,
    r: Result<u64, &'static str>,
    b: Kernel,
) -> bool {
    let tt = a.tasks;
    let only_tasks = b == (Kernel { tasks: b.tasks, ..a });
    if sig > NSIG {
        r == Err::<u64, &'static str>("einval") && b == a
    } else if is_forcible(sig) && -1 <= pid <= 1 {
        r == Err::<u64, &'static str>("eperm") && b == a
    } else if pid == 0 {
        match a.running(0) {
            None => r == Ok::<u64, &'static str>(0) && b == a,
            Some(t) => {
                let g = tt.group(tt.tasks@[t as int].pgid);
                r == Ok::<u64, &'static str>(g.len() as u64) && all_signalled(
                    tt,
                    g,
                    sig as i32,
                    b.tasks,
                ) && only_tasks
            },
        }
    } else if pid == -1 {
        let g = everyone(tt);
        &&& r == if g.len() == 0 {
            Err::<u64, &'static str>("esrch")
        } else {
            Ok(g.len() as u64)
        }
        &&& all_signalled(tt, g, sig as i32, b.tasks)
        &&& only_tasks
    } else if pid > 0 {
        let t = tt.map@[pid as usize];
        if !tt.map@.contains_key(pid as usize) || (tt.tasks@[t as int].is_done() && sig != 0) {
            r == Err::<u64, &'static str>("esrch") && b == a
        } else {
            r == Ok::<u64, &'static str>(0) && all_signalled(tt, seq![t], sig as i32, b.tasks)
                && only_tasks
        }
    } else {
        let g = tt.group(crate::kernel::life::group_of(pid));
        &&& r == if g.len() == 0 {
            Err::<u64, &'static str>("esrch")
        } else {
            Ok(g.len() as u64)
        }
        &&& all_signalled(tt, g, sig as i32, b.tasks)
        &&& only_tasks
    }
}

impl Kernel {
    /// Sends a signal to each of some tasks.
    fn signal_all(&mut self, who: &Vec<usize>, sig: i32)
        requires
            old(self).wf(),
            forall|i: int|
                0 <= i < who@.len() ==> #[trigger] who@[i] < old(self).tasks.tasks@.len(),
        ensures
            final(self).wf(),
            all_signalled(old(self).tasks, who@, sig, final(self).tasks),
            *final(self) == (Kernel { tasks: final(self).tasks, ..*old(self) }),
    {
        self.tasks.signal_each(who, sig);
        proof {
            let (a, b) = (old(self).tasks.tasks@, self.tasks.tasks@);
            assert(self.tasks.tasks.len() == b.len());
            assert forall|x: int| 0 <= x < b.len() implies crate::process::table::backed(
                #[trigger] b[x],
                self.shared.files@,
                self.configfs@,
                self.shared.sems@,
                self.shared.shms@,
            ) by {
                let y = x as usize;
                assert(a[y as int].signalled(
                    crate::tables::times(who@, y),
                    sig,
                    -1isize,
                    b[y as int],
                ));
                assert(crate::process::table::backed(
                    a[x],
                    self.shared.files@,
                    self.configfs@,
                    self.shared.sems@,
                    self.shared.shms@,
                ));
            }
        }
    }

    fn all_but_init(&self) -> (r: Vec<usize>)
        requires
            self.wf(),
        ensures
            r@ == everyone(self.tasks),
            forall|i: int| 0 <= i < r@.len() ==> #[trigger] r@[i] < self.tasks.tasks@.len(),
    {
        let ids = self.tasks.active_tasks();
        let ghost tt = self.tasks;
        let ghost all = crate::tables::in_order(tt.map@.dom());
        let ghost p = crate::process::table::alive(tt.tasks@, tt.map@);
        let ghost place = |id: usize| tt.map@[id];
        let mut out: Vec<usize> = Vec::new();
        let mut n: usize = 0;
        proof {
            crate::tables::lemma_in_order_lists(tt.map@.dom());
            reveal(Seq::filter);
            assert(ids@.take(0).filter(behind_init()).map_values(place) =~= Seq::empty());
        }
        while n < ids.len()
            invariant
                self.wf(),
                tt == self.tasks,
                all == crate::tables::in_order(tt.map@.dom()),
                crate::tables::is_listing(all, tt.map@.dom()),
                p == crate::process::table::alive(tt.tasks@, tt.map@),
                ids@ == all.filter(p),
                place == (|id: usize| tt.map@[id]),
                n <= ids@.len(),
                forall|i: int| 0 <= i < out@.len() ==> #[trigger] out@[i] < tt.tasks@.len(),
                out@ == ids@.take(n as int).filter(behind_init()).map_values(place),
            decreases ids@.len() - n,
        {
            let id: usize = ids[n];
            proof {
                assert(ids@.contains(id));
                crate::tables::lemma_filter_holds(all, p, id);
                assert(tt.map@.contains_key(id));
                crate::tables::lemma_filter_take(ids@, n as int, behind_init());
            }
            if id > 1 {
                let t: usize = *self.tasks.map.get(&id).unwrap();
                out.push(t);
                proof {
                    let f = ids@.take(n as int).filter(behind_init());
                    assert(f.push(id).map_values(place) =~= f.map_values(place).push(t));
                }
            }
            n += 1;
        }
        proof {
            assert(ids@.take(n as int) =~= ids@);
            assert(out@ =~= everyone(tt));
        }
        out
    }

    /// Sends a signal.
    pub fn sys_kill(&mut self, pid: isize, sig: usize) -> (r: Result<u64, &'static str>)
        requires
            old(self).wf(),
        ensures
            final(self).wf(),
            did_kill(*old(self), pid, sig, r, *final(self)),
    {
        if sig > NSIG as usize {
            return Err("einval");
        }
        if sig == SIGKILL as usize || sig == SIGSTOP as usize {
            if -1 <= pid && pid <= 1 {
                return Err("eperm");
            }
        }
        if pid == 0 {
            match self.cur_task(0) {
                Some(t) => {
                    assert(self.cpus@[0] is Some);
                    let g = self.tasks.pgid_group(self.tasks.tasks[t].pgid);
                    self.signal_all(&g, sig as i32);
                    Ok(g.len() as u64)
                },
                None => Ok(0),
            }
        } else if pid == -1 {
            let g = self.all_but_init();
            self.signal_all(&g, sig as i32);
            if g.len() == 0 {
                Err("esrch")
            } else {
                Ok(g.len() as u64)
            }
        } else if pid > 0 {
            match self.tasks.find(pid as usize) {
                Some(t) => {
                    if self.tasks.tasks[t].done() && sig != 0 {
                        return Err("esrch");
                    }
                    let mut one: Vec<usize> = Vec::new();
                    one.push(t);
                    assert(one@ =~= seq![t]);
                    self.signal_all(&one, sig as i32);
                    Ok(0)
                },
                None => Err("esrch"),
            }
        } else {
            let g = self.tasks.pgid_group(negated(pid));
            self.signal_all(&g, sig as i32);
            if g.len() == 0 {
                Err("esrch")
            } else {
                Ok(g.len() as u64)
            }
        }
    }
}

// ---- Numbers and groups ----

/// The number of the running task, or another where none runs.
pub open spec fn own_id(a: Kernel, other: usize) -> usize {
    match a.running(0) {
        Some(t) => a.tasks.tasks@[t as int].info.id,
        None => other,
    }
}

/// The number of the running task's parent; 0 where there is none.
pub open spec fn parent_id(a: Kernel) -> u64 {
    match a.running(0) {
        Some(t) => match a.tasks.tasks@[t as int].parent {
            Some(p) => a.tasks.tasks@[p as int].info.id as u64,
            None => 0,
        },
        None => 0,
    }
}

/// The task can be found under a number and its parent has the number `of`.
pub open spec fn is_child(tt: TaskTable, id: usize, of: usize) -> bool {
    &&& tt.map@.contains_key(id)
    &&& match tt.tasks@[tt.map@[id] as int].parent {
        Some(p) => tt.tasks@[p as int].info.id == of,
        None => false,
    }
}

/// `b` is the kernel once a task is in a process group.
pub open spec fn regrouped(a: Kernel, t: usize, pgid: i32, b: Kernel) -> bool {
    &&& b.tasks.tasks@ == a.tasks.tasks@.update(
        t as int,
        (Task { pgid, ..a.tasks.tasks@[t as int] }),
    )
    &&& crate::kernel::only_task(a.tasks, t, b.tasks)
    &&& b == (Kernel { tasks: b.tasks, ..a })
}

/// The outcome of putting a process into a group: the running task or one of its children;
/// group 0 is that of the process's own number.
pub open spec fn did_setpgid(
    a: Kernel,
    pid: usize,
    pgid: usize,
    r: Result<u64, &'static str>,
    b: Kernel,
) -> bool {
    let caller = own_id(a, 1);
    let target = if pid == 0 {
        caller
    } else {
        pid
    };
    let group = if pgid == 0 {
        target
    } else {
        pgid
    };
    if target != caller && !is_child(a.tasks, target, caller) {
        r == Err::<u64, &'static str>("esrch") && b == a
    } else {
        &&& r == Ok::<u64, &'static str>(0)
        &&& if a.tasks.map@.contains_key(target) {
            regrouped(a, a.tasks.map@[target], group as i32, b)
        } else {
            b == a
        }
    }
}

/// What asking for a process group comes to.
pub open spec fn getpgid_result(a: Kernel, pid: usize) -> Result<u64, &'static str> {
    let target = if pid == 0 {
        own_id(a, 0)
    } else {
        pid
    };
    if target != 0 && a.tasks.map@.contains_key(target) {
        Ok((a.tasks.tasks@[a.tasks.map@[target] as int].pgid as i64) as u64)
    } else {
        Err("esrch")
    }
}

/// The outcome of making the running task the leader of a session: it must not lead a group
/// already.
pub open spec fn did_setsid(a: Kernel, r: Result<u64, &'static str>, b: Kernel) -> bool {
    match a.running(0) {
        None => r == Err::<u64, &'static str>("esrch") && b == a,
        Some(t) => {
            let x = a.tasks.tasks@[t as int];
            if x.pgid as usize == x.info.id {
                r == Err::<u64, &'static str>("eperm") && b == a
            } else {
                r == Ok::<u64, &'static str>(x.info.id as u64) && regrouped(
                    a,
                    t,
                    x.info.id as i32,
                    b,
                )
            }
        },
    }
}

impl Kernel {
    fn caller(&self, other: usize) -> (r: usize)
        requires
            self.wf(),
        ensures
            r == own_id(*self, other),
    {
        match self.cur_task(0) {
            Some(t) => {
                assert(self.cpus@[0] is Some);
                self.tasks.tasks[t].id()
            },
            None => other,
        }
    }

    /// The number of the running task; 1 where none runs.
    pub fn sys_getpid(&self) -> (r: Result<u64, &'static str>)
        requires
            self.wf(),
        ensures
            r == Ok::<u64, &'static str>(own_id(*self, 1) as u64),
    {
        Ok(self.caller(1) as u64)
    }

    /// The number of the running task's parent; 0 where there is none.
    pub fn sys_getppid(&self) -> (r: Result<u64, &'static str>)
        requires
            self.wf(),
        ensures
            r == Ok::<u64, &'static str>(parent_id(*self)),
    {
        match self.cur_task(0) {
            Some(t) => {
                assert(self.cpus@[0] is Some);
                assert(crate::process::table::links_ok(
                    self.tasks.tasks@[t as int],
                    self.tasks.tasks@.len(),
                ));
                match self.tasks.tasks[t].parent {
                    Some(p) => Ok(self.tasks.tasks[p].id() as u64),
                    None => Ok(0),
                }
            },
            None => Ok(0),
        }
    }

    fn regroup(&mut self, t: usize, pgid: i32)
        requires
            old(self).wf(),
            t < old(self).tasks.tasks@.len(),
        ensures
            final(self).wf(),
            regrouped(*old(self), t, pgid, *final(self)),
    {
        self.tasks.tasks[t].pgid = pgid;
        proof {
            crate::kernel::lemma_ties_kept(*old(self), *self);
        }
    }

    /// Puts a process into a group.
    pub fn sys_setpgid(&mut self, pid: usize, pgid: usize) -> (r: Result<u64, &'static str>)
        requires
            old(self).wf(),
        ensures
            final(self).wf(),
            did_setpgid(*old(self), pid, pgid, r, *final(self)),
    {
        let caller: usize = self.caller(1);
        let target: usize = if pid == 0 {
            caller
        } else {
            pid
        };
        let group: usize = if pgid == 0 {
            target
        } else {
            pgid
        };
        let found: Option<usize> = self.tasks.find(target);
        if target != caller {
            let child = match found {
                Some(t) => {
                    assert(crate::process::table::links_ok(
                        self.tasks.tasks@[t as int],
                        self.tasks.tasks@.len(),
                    ));
                    match self.tasks.tasks[t].parent {
                        Some(p) => self.tasks.tasks[p].id() == caller,
                        None => false,
                    }
                },
                None => false,
            };
            if !child {
                return Err("esrch");
            }
        }
        if let Some(t) = found {
            self.regroup(t, group as i32);
        }
        Ok(0)
    }

    /// The group of a process.
    pub fn sys_getpgid(&self, pid: usize) -> (r: Result<u64, &'static str>)
        requires
            self.wf(),
        ensures
            r == getpgid_result(*self, pid),
    {
        let target: usize = if pid == 0 {
            self.caller(0)
        } else {
            pid
        };
        if target == 0 {
            return Err("esrch");
        }
        match self.tasks.find(target) {
            Some(t) => Ok((self.tasks.tasks[t].pgid as i64) as u64),
            None => Err("esrch"),
        }
    }

    /// Makes the running task the leader of a session.
    pub fn sys_setsid(&mut self) -> (r: Result<u64, &'static str>)
        requires
            old(self).wf(),
        ensures
            final(self).wf(),
            did_setsid(*old(self), r, *final(self)),
    {
        match self.cur_task(0) {
            Some(t) => {
                assert(self.cpus@[0] is Some);
                let id: usize = self.tasks.tasks[t].id();
                if self.tasks.tasks[t].pgid as usize == id {
                    return Err("eperm");
                }
                self.regroup(t, id as i32);
                Ok(id as u64)
            },
            None => Err("esrch"),
        }
    }
}

/// The signal that is sent is the signal that arrives: sent to a process that has not ended,
/// it stands behind all others in the queue of that process, and no other task changes.
pub proof fn law_signal_arrives(
    a: Kernel,
    pid: isize,
    sig: usize,
    r: Result<u64, &'static str>,
    b: Kernel,
    x: usize,
)
    requires
        a.wf(),
        did_kill(a, pid, sig, r, b),
        r is Ok,
        pid > 0,
        x < a.tasks.tasks@.len(),
    ensures
        ({
            let t = a.tasks.map@[pid as usize];
            let (f, g) = (a.tasks.tasks@[t as int], b.tasks.tasks@[t as int]);
            &&& r == Ok::<u64, &'static str>(0)
            &&& a.tasks.map@.contains_key(pid as usize)
            &&& b.tasks.map@ == a.tasks.map@
            &&& g.sig_queue@ == f.sig_queue@.push((sig as i32, -1isize))
            &&& g.sig_queue@.last().0 == sig
            &&& g == (Task { sig_queue: g.sig_queue, ev: g.ev, ..f })
            &&& x != t ==> b.tasks.tasks@[x as int] == a.tasks.tasks@[x as int]
        }),
        b.shared == a.shared && b.pool == a.pool && b.cpus == a.cpus && b.configfs == a.configfs,
{
    let t = a.tasks.map@[pid as usize];
    assert(a.tasks.tasks.len() == a.tasks.tasks@.len());
    lemma_one_of(t, t);
    lemma_one_of(t, x);
    let (f, g) = (a.tasks.tasks@[t as int], b.tasks.tasks@[t as int]);
    assert(f.signalled(1, sig as i32, -1isize, g));
    crate::process::task::law_signals_queue_up(f, g, sig as i32, -1isize);
    assert(a.tasks.tasks@[x as int].signalled(
        crate::tables::times(seq![t], x),
        sig as i32,
        -1isize,
        b.tasks.tasks@[x as int],
    ));
}

proof fn lemma_one_of(t: usize, x: usize)
    ensures
        crate::tables::times(seq![t], x) == if x == t {
            1nat
        } else {
            0nat
        },
{
    crate::tables::lemma_times_counts(seq![t], x);
    if x == t {
        assert(seq![t][0] == x);
    }
}

/// A process is sent a signal unless it cannot be found or has ended, and only those are
/// refused: a number beyond the last signal, killing or stopping the first process, and a
/// process that is not there.
pub proof fn law_signal_is_refused_for_a_reason(
    a: Kernel,
    pid: isize,
    sig: usize,
    r: Result<u64, &'static str>,
    b: Kernel,
)
    requires
        did_kill(a, pid, sig, r, b),
        pid > 0,
    ensures
        sig > 64 ==> r == Err::<u64, &'static str>("einval"),
        sig <= 64 && pid > 1 && a.tasks.map@.contains_key(pid as usize)
            && a.tasks.tasks@[a.tasks.map@[pid as usize] as int].info.status is None ==> r is Ok,
        sig <= 64 && sig != SIGKILL && sig != SIGSTOP && a.tasks.map@.contains_key(pid as usize)
            && a.tasks.tasks@[a.tasks.map@[pid as usize] as int].info.status is None ==> r is Ok,
        sig <= 64 && pid > 1 && !a.tasks.map@.contains_key(pid as usize) ==> r == Err::<
            u64,
            &'static str,
        >("esrch"),
        0 < sig <= 64 && pid > 1 && a.tasks.map@.contains_key(pid as usize)
            && a.tasks.tasks@[a.tasks.map@[pid as usize] as int].info.status is Some ==> r == Err::<
            u64,
            &'static str,
        >("esrch"),
        sig == 0 && a.tasks.map@.contains_key(pid as usize) ==> r is Ok,
        r is Err ==> b == a,
{
}

/// A signal to a group reaches each of its members and nobody else: every task that can be
/// found and is in the group has it at the end of its queue, any other task is as it was, and
/// the answer is how many were reached.
pub proof fn law_signal_reaches_the_group(
    a: Kernel,
    pid: isize,
    sig: usize,
    r: Result<u64, &'static str>,
    b: Kernel,
    x: usize,
)
    requires
        a.wf(),
        did_kill(a, pid, sig, r, b),
        r is Ok,
        i32::MIN < pid < -1 || (pid == 0 && a.running(0) is Some),
        x < a.tasks.tasks@.len(),
    ensures
        ({
            let g = if pid == 0 {
                a.tasks.tasks@[a.running(0)->0 as int].pgid as int
            } else {
                -pid
            };
            let (f, h) = (a.tasks.tasks@[x as int], b.tasks.tasks@[x as int]);
            let found = exists|id: usize| #[trigger]
                a.tasks.map@.contains_key(id) && a.tasks.map@[id] == x;
            &&& found && f.pgid == g ==> h.sig_queue@.len() > f.sig_queue@.len()
                && h.sig_queue@.last() == (sig as i32, -1isize) && h.sig_queue@.take(
                f.sig_queue@.len() as int,
            ) == f.sig_queue@
            &&& !(found && f.pgid == g) ==> h == f
            &&& h == (Task { sig_queue: h.sig_queue, ev: h.ev, ..f })
        }),
        b.tasks.map@ == a.tasks.map@,
        b.shared == a.shared && b.pool == a.pool && b.cpus == a.cpus && b.configfs == a.configfs,
{
    let tt = a.tasks;
    assert(tt.tasks.len() == tt.tasks@.len());
    let gid = if pid == 0 {
        tt.tasks@[a.running(0)->0 as int].pgid
    } else {
        crate::kernel::life::group_of(pid)
    };
    let who = tt.group(gid);
    crate::process::table::law_group_has_its_members(tt, gid, x);
    lemma_reached(tt, who, sig as i32, b.tasks, x);
}

/// A signal to all reaches every task that has a number behind 1 and has not ended, and nobody
/// else.
pub proof fn law_signal_to_all_spares_the_first(
    a: Kernel,
    sig: usize,
    r: Result<u64, &'static str>,
    b: Kernel,
    x: usize,
)
    requires
        a.wf(),
        did_kill(a, -1isize, sig, r, b),
        r is Ok,
        x < a.tasks.tasks@.len(),
    ensures
        ({
            let (f, h) = (a.tasks.tasks@[x as int], b.tasks.tasks@[x as int]);
            let meant = f.info.status is None && exists|id: usize| #[trigger]
                a.tasks.map@.contains_key(id) && id > 1 && a.tasks.map@[id] == x;
            &&& meant ==> h.sig_queue@.len() > f.sig_queue@.len() && h.sig_queue@.last() == (
                sig as i32,
                -1isize,
            )
            &&& !meant ==> h == f
        }),
{
    let tt = a.tasks;
    assert(tt.tasks.len() == tt.tasks@.len());
    let who = everyone(tt);
    lemma_everyone(tt, x);
    lemma_reached(tt, who, sig as i32, b.tasks, x);
}

proof fn lemma_everyone(tt: TaskTable, x: usize)
    ensures
        everyone(tt).contains(x) <==> tt.tasks@[x as int].info.status is None && exists|id: usize|
            #[trigger] tt.map@.contains_key(id) && id > 1 && tt.map@[id] == x,
{
    let all = crate::tables::in_order(tt.map@.dom());
    let p = crate::process::table::alive(tt.tasks@, tt.map@);
    let up = all.filter(p).filter(behind_init());
    crate::tables::lemma_in_order_lists(tt.map@.dom());
    assert forall|id: usize| #[trigger] up.contains(id) <==> tt.map@.contains_key(id) && p(id) && id
        > 1 by {
        crate::tables::lemma_filter_holds(all, p, id);
        crate::tables::lemma_filter_holds(all.filter(p), behind_init(), id);
        assert(all.contains(id) <==> tt.map@.dom().contains(id));
    }
    if everyone(tt).contains(x) {
        let i = choose|i: int| 0 <= i < everyone(tt).len() && everyone(tt)[i] == x;
        assert(up.contains(up[i]));
        assert(tt.map@.contains_key(up[i]) && up[i] > 1 && tt.map@[up[i]] == x);
    }
    if tt.tasks@[x as int].info.status is None && exists|id: usize| #[trigger]
        tt.map@.contains_key(id) && id > 1 && tt.map@[id] == x {
        let id = choose|id: usize| #[trigger]
            tt.map@.contains_key(id) && id > 1 && tt.map@[id] == x;
        assert(p(id));
        assert(up.contains(id));
        let i = choose|i: int| 0 <= i < up.len() && up[i] == id;
        assert(everyone(tt)[i] == x);
    }
}

proof fn lemma_reached(a: TaskTable, who: Seq<usize>, sig: i32, b: TaskTable, x: usize)
    requires
        all_signalled(a, who, sig, b),
        x < a.tasks@.len(),
    ensures
        ({
            let (f, h) = (a.tasks@[x as int], b.tasks@[x as int]);
            &&& who.contains(x) ==> h.sig_queue@.len() > f.sig_queue@.len() && h.sig_queue@.last()
                == (sig, -1isize) && h.sig_queue@.take(f.sig_queue@.len() as int) == f.sig_queue@
            &&& !who.contains(x) ==> h == f
            &&& h == (Task { sig_queue: h.sig_queue, ev: h.ev, ..f })
        }),
{
    let (f, h) = (a.tasks@[x as int], b.tasks@[x as int]);
    let k = crate::tables::times(who, x);
    crate::tables::lemma_times_counts(who, x);
    assert(f.signalled(k, sig, -1isize, h));
    if who.contains(x) {
        assert(h.sig_queue@.take(f.sig_queue@.len() as int) =~= f.sig_queue@);
    }
}

/// The end of a task is told: its parent, unless it is its own, has the signal of a child's
/// end and its number at the end of the queue; the task itself keeps its code.
pub proof fn law_exit_tells_the_parent(
    a: Kernel,
    status: usize,
    r: Result<u64, &'static str>,
    b: Kernel,
    t: usize,
    p: usize,
)
    requires
        a.wf(),
        did_exit(a, status, r, b),
        a.running(0) == Some(t),
        a.tasks.tasks@[t as int].parent == Some(p),
        p != t,
    ensures
        r == Ok::<u64, &'static str>(0),
        b.tasks.tasks@[p as int].sig_queue@ == a.tasks.tasks@[p as int].sig_queue@.push(
            (17i32, a.tasks.tasks@[t as int].info.id as isize),
        ),
        b.tasks.tasks@[t as int].exit_code == status,
        b.tasks.tasks@[t as int].info.status is Some,
        b.tasks.tasks@[t as int].files@.len() == 0,
        b.tasks.tasks@[t as int].sig_queue == a.tasks.tasks@[t as int].sig_queue,
        b.tasks.map@ == a.tasks.map@,
{
    let (x, z) = (a.tasks.tasks@, b.tasks.tasks@);
    assert(a.tasks.tasks.len() == x.len());
    assert(a.cpus@[0] is Some);
    assert(crate::process::table::links_ok(x[t as int], x.len()));
    let (m, n) = choose|m: Seq<Task>, n: Seq<Task>|
        #![trigger parent_signalled(m, t, n)]
        {
            &&& crate::process::table::ended_in(x, t, status, m)
            &&& parent_signalled(m, t, n)
            &&& children_handed_over(n, t, a.tasks.map@, z)
        };
    crate::process::table::law_end_leaves_a_code(x, t, status, m, p);
    assert(m[p as int].signalled(
        1,
        SIGCHLD as i32,
        x[t as int].info.id as isize,
        n[p as int],
    ));
    crate::process::task::law_signals_queue_up(
        m[p as int],
        n[p as int],
        SIGCHLD as i32,
        x[t as int].info.id as isize,
    );
    if a.tasks.map@.contains_key(1) {
        let init = a.tasks.map@[1];
        let ch = n[t as int].subtasks@;
        assert(crate::process::table::handed_over(n[p as int], p, t, init, ch, z[p as int]));
        assert(crate::process::table::handed_over(n[t as int], t, t, init, ch, z[t as int]));
    }
}

/// The children of a task that ends go to the first process, which is their parent then.
pub proof fn law_exit_hands_the_children_over(
    a: Kernel,
    status: usize,
    r: Result<u64, &'static str>,
    b: Kernel,
    t: usize,
    c: usize,
)
    requires
        a.wf(),
        did_exit(a, status, r, b),
        a.running(0) == Some(t),
        a.tasks.map@.contains_key(1),
        a.tasks.map@[1] != t,
        a.tasks.tasks@[t as int].subtasks@.contains(c),
    ensures
        b.tasks.tasks@[c as int].parent == Some(a.tasks.map@[1]),
        b.tasks.tasks@[a.tasks.map@[1] as int].subtasks@.contains(c),
        b.tasks.tasks@[t as int].subtasks@.len() == 0,
{
    let (x, z) = (a.tasks.tasks@, b.tasks.tasks@);
    let init = a.tasks.map@[1];
    assert(a.tasks.tasks.len() == x.len());
    assert(a.cpus@[0] is Some);
    assert(crate::process::table::links_ok(x[t as int], x.len()));
    let (m, n) = choose|m: Seq<Task>, n: Seq<Task>|
        #![trigger parent_signalled(m, t, n)]
        {
            &&& crate::process::table::ended_in(x, t, status, m)
            &&& parent_signalled(m, t, n)
            &&& children_handed_over(n, t, a.tasks.map@, z)
        };
    let ch = n[t as int].subtasks@;
    assert(ch == x[t as int].subtasks@);
    let i = choose|i: int| 0 <= i < ch.len() && ch[i] == c;
    assert(c < x.len());
    crate::process::table::law_children_are_handed_over(n, t, init, z, c);
    let base = n[init as int].subtasks@;
    assert((base + ch)[base.len() + i] == c);
}

/// A process is made unless memory is short: with more than nine tenths of the frames taken it
/// is refused, and with less, while there are not too many tasks, the number of the child is
/// given. The number is used up either way.
pub proof fn law_fork_is_refused_for_memory(a: Kernel, r: Result<u64, &'static str>, b: Kernel)
    requires
        did_fork(a, r, b),
    ensures
        r is Ok ==> r == Ok::<u64, &'static str>(a.tasks.seq as u64),
        r is Err ==> r == Err::<u64, &'static str>("enomem"),
        a.pressure() > 90 ==> r is Err,
        a.pressure() <= 90 && a.tasks.map@.len() < 1920 ==> r is Ok,
        a.tasks.seq < usize::MAX ==> b.tasks.seq == a.tasks.seq + 1,
        r is Err ==> b.tasks.tasks == a.tasks.tasks && b.tasks.map == a.tasks.map,
        r is Ok && a.running(0) is Some ==> b.tasks.tasks@.len() == a.tasks.tasks@.len() + 1
            && b.tasks.map@.contains_key(a.tasks.seq),
{
}

/// A program can be started from a path in user space, with a list of arguments and of the
/// environment in user space or none; anything else is a fault.
pub proof fn law_exec_takes_user_addresses(path: usize, argv: usize, envp: usize)
    requires
        path + 256 <= usize::MAX,
        argv + 512 <= usize::MAX,
        envp + 512 <= usize::MAX,
    ensures
        exec_result(path, argv, envp) == Ok::<u64, &'static str>(0) <==> 0 < path && path + 256
            <= crate::consts::KERN_BASE && (argv == 0 || argv + 512 <= crate::consts::KERN_BASE)
            && (envp == 0 || envp + 512 <= crate::consts::KERN_BASE),
        exec_result(path, argv, envp) is Err ==> exec_result(path, argv, envp) == Err::<
            u64,
            &'static str,
        >("efault"),
{
}

/// Waiting for a process of a number gives that number once the process has ended, and never
/// another; while it has not, an odd `options` gets zero and an even one an error.
pub proof fn law_wait_call_gives_the_number(
    a: Kernel,
    pid: isize,
    options: usize,
)
    requires
        pid > 0,
    ensures
        ({
            let r = wait4_result(a, pid, 0, options, 0);
            let known = a.tasks.map@.contains_key(pid as usize);
            let st = a.tasks.tasks@[a.tasks.map@[pid as usize] as int].info.status;
            &&& !known ==> r == Err::<u64, &'static str>("echild")
            &&& known && st is Some ==> r == Ok::<u64, &'static str>(pid as u64)
            &&& known && st is None && options % 2 == 1 ==> r == Ok::<u64, &'static str>(0)
            &&& known && st is None && options % 2 == 0 ==> r == Err::<u64, &'static str>("echild")
        }),
{
}

/// Waiting for any process gives the least number of a task that has ended; where none has,
/// zero or an error.
pub proof fn law_wait_call_gives_the_least(a: Kernel, options: usize, id: usize)
    requires
        a.wf(),
        a.tasks.map@.contains_key(id),
        a.tasks.tasks@[a.tasks.map@[id] as int].info.status is Some,
    ensures
        ({
            let r = wait4_result(a, -1isize, 0, options, 0);
            r is Ok && r->Ok_0 <= id && a.tasks.map@.contains_key(r->Ok_0 as usize)
                && a.tasks.tasks@[a.tasks.map@[r->Ok_0 as usize] as int].info.status is Some
        }),
{
    let tt = a.tasks;
    let down = crate::tables::in_order(tt.map@.dom()).filter(
        crate::process::table::over(tt.tasks@, tt.map@),
    );
    crate::process::table::law_status_tells_the_ended(tt, id);
    let i = choose|i: int| 0 <= i < down.len() && down[i] == id;
    assert(down.contains(down[0]));
    crate::process::table::law_status_tells_the_ended(tt, down[0]);
    if i > 0 {
        assert(down[0] < down[i]);
    }
}

/// Waiting for a process of a group gives the number of one that has ended and is in the
/// group.
pub proof fn law_wait_call_goes_by_the_group(a: Kernel, pid: isize, options: usize)
    requires
        a.wf(),
        options % 2 == 0,
        i32::MIN < pid < -1 || (pid == 0 && a.running(0) is Some),
    ensures
        ({
            let r = wait4_result(a, pid, 0, options, 0);
            let g = if pid == 0 {
                a.tasks.tasks@[a.running(0)->0 as int].pgid as int
            } else {
                -pid
            };
            r is Ok ==> exists|t: usize|
                {
                    &&& r->Ok_0 == (#[trigger] a.tasks.tasks@[t as int]).pid.0
                    &&& a.tasks.tasks@[t as int].pgid == g
                    &&& a.tasks.tasks@[t as int].info.status is Some
                }
        }),
{
    let tt = a.tasks;
    let gid = if pid == 0 {
        tt.tasks@[a.running(0)->0 as int].pgid
    } else {
        crate::kernel::life::group_of(pid)
    };
    let all = tt.group(gid);
    let g = all.filter(finished(tt.tasks@));
    if g.len() > 0 {
        let t = if pid == 0 {
            g.last()
        } else {
            g[0]
        };
        assert(g.contains(t));
        crate::tables::lemma_filter_holds(all, finished(tt.tasks@), t);
        crate::process::table::law_group_has_its_members(tt, gid, t);
        assert(tt.tasks@[t as int].pgid == gid);
    }
}

/// A process that was put into a group is in it: asking for its group gives it. Nothing else
/// about any task changes.
pub proof fn law_group_that_was_set_is_given(
    a: Kernel,
    pid: usize,
    pgid: usize,
    r: Result<u64, &'static str>,
    b: Kernel,
    x: int,
)
    requires
        a.wf(),
        did_setpgid(a, pid, pgid, r, b),
        r is Ok,
        pid != 0,
        pgid <= i32::MAX,
        a.tasks.map@.contains_key(pid),
        0 <= x < a.tasks.tasks@.len(),
    ensures
        pgid > 0 ==> getpgid_result(b, pid) == Ok::<u64, &'static str>(pgid as u64),
        pgid == 0 && pid <= i32::MAX ==> getpgid_result(b, pid) == Ok::<u64, &'static str>(
            pid as u64,
        ),
        x != a.tasks.map@[pid] ==> b.tasks.tasks@[x] == a.tasks.tasks@[x],
        b.tasks.tasks@[x] == (Task { pgid: b.tasks.tasks@[x].pgid, ..a.tasks.tasks@[x] }),
{
    let t = a.tasks.map@[pid];
    assert(t < a.tasks.tasks@.len());
}

/// A process may put itself and its children into a group, and nobody else.
pub proof fn law_strangers_are_not_regrouped(
    a: Kernel,
    pid: usize,
    pgid: usize,
    r: Result<u64, &'static str>,
    b: Kernel,
    t: usize,
)
    requires
        did_setpgid(a, pid, pgid, r, b),
        a.running(0) == Some(t),
        pid != 0,
        a.tasks.map@.contains_key(pid),
    ensures
        ({
            let (me, it) = (a.tasks.tasks@[t as int], a.tasks.tasks@[a.tasks.map@[pid] as int]);
            &&& pid == me.info.id ==> r is Ok
            &&& it.parent is Some && a.tasks.tasks@[it.parent->0 as int].info.id == me.info.id
                ==> r is Ok
            &&& pid != me.info.id && !(it.parent is Some
                && a.tasks.tasks@[it.parent->0 as int].info.id == me.info.id) ==> r == Err::<
                u64,
                &'static str,
            >("esrch") && b == a
        }),
{
}

/// The running task becomes the leader of a group of its own number once, and not again.
pub proof fn law_session_is_made_once(
    a: Kernel,
    r: Result<u64, &'static str>,
    b: Kernel,
    r2: Result<u64, &'static str>,
    c: Kernel,
    t: usize,
)
    requires
        a.wf(),
        a.running(0) == Some(t),
        a.tasks.tasks@[t as int].info.id <= i32::MAX,
        did_setsid(a, r, b),
        did_setsid(b, r2, c),
    ensures
        a.tasks.tasks@[t as int].pgid == a.tasks.tasks@[t as int].info.id ==> r == Err::<
            u64,
            &'static str,
        >("eperm"),
        a.tasks.tasks@[t as int].pgid != a.tasks.tasks@[t as int].info.id
            && a.tasks.tasks@[t as int].pgid >= 0 ==> r == Ok::<u64, &'static str>(
            a.tasks.tasks@[t as int].info.id as u64,
        ) && b.tasks.tasks@[t as int].pgid == a.tasks.tasks@[t as int].info.id,
        r is Ok ==> r2 == Err::<u64, &'static str>("eperm") && c == b,
{
    assert(a.cpus@[0] is Some);
}

/// A task is asked for its own number and that of its parent.
pub proof fn law_numbers_are_the_tasks_own(a: Kernel, t: usize, other: usize)
    requires
        a.running(0) == Some(t),
    ensures
        own_id(a, other) == a.tasks.tasks@[t as int].info.id,
        a.tasks.tasks@[t as int].parent is Some ==> parent_id(a)
            == a.tasks.tasks@[a.tasks.tasks@[t as int].parent->0 as int].info.id,
        a.tasks.tasks@[t as int].parent is None ==> parent_id(a) == 0,
{
}

/// The first process can be neither killed nor stopped: nothing changes, and the caller is
/// told.
pub proof fn law_first_process_is_safe(
    a: Kernel,
    pid: isize,
    sig: usize,
    r: Result<u64, &'static str>,
    b: Kernel,
)
    requires
        did_kill(a, pid, sig, r, b),
        is_forcible(sig),
        -1 <= pid <= 1,
    ensures
        r == Err::<u64, &'static str>("eperm"),
        b == a,
{
}

/// A process is made if the frames that are free are no fewer than its table would take: one
/// byte for each of the first 256 free frames and two for each process.
pub proof fn law_fork_takes_frames_for_its_table(a: Kernel, free: int, n: int)
    requires
        free == crate::memory::frames::free_in(a.pool.slots@),
        n == a.tasks.map@.len(),
        a.pressure() <= 90,
    ensures
        free >= 256 ==> (fork_result(a) is Ok <==> 256 + 2 * n < (free + 1) * 4096),
        free < 256 ==> (fork_result(a) is Ok <==> free + 2 * n < (free + 1) * 4096),
{
}

/// A wait writes into user space only.
pub proof fn law_wait_call_writes_to_user_space(
    a: Kernel,
    pid: isize,
    status: usize,
    options: usize,
    rusage: usize,
)
    ensures
        status != 0 && !crate::util::in_user_space(status, 4) ==> wait4_result(a, pid, status, options, rusage)
            == Err::<u64, &'static str>("efault"),
        rusage != 0 && !crate::util::in_user_space(rusage, 144) ==> wait4_result(a, pid, status, options, rusage)
            == Err::<u64, &'static str>("efault"),
        (status == 0 || crate::util::in_user_space(status, 4)) && (rusage == 0 || crate::util::in_user_space(rusage, 144)) ==> wait4_result(
            a,
            pid,
            status,
            options,
            rusage,
        ) == wait4_result(a, pid, 0, options, 0),
{
}

/// A wait for a group gives a member that has ended: the last one of the caller's own group
/// for 0, and the first one of the group of a negative number. A group without members has
/// nobody to wait for, and where nobody has ended the call gives zero if it was asked not to
/// wait.
pub proof fn law_wait_call_finds_the_ended_member(
    a: Kernel,
    pid: isize,
    options: usize,
    gid: i32,
    i: int,
)
    requires
        a.wf(),
        (i32::MIN < pid < -1 && gid == -pid) || (pid == 0 && a.running(0) is Some && gid
            == a.tasks.tasks@[a.running(0)->0 as int].pgid),
    ensures
        ({
            let r = wait4_result(a, pid, 0, options, 0);
            let g = a.tasks.group(gid);
            let ts = a.tasks.tasks@;
            &&& pid < 0 && g.len() == 0 ==> r == Err::<u64, &'static str>("echild")
            &&& (forall|j: int|
                0 <= j < g.len() ==> ts[#[trigger] g[j] as int].info.status is None) && (pid == 0
                || g.len() > 0) ==> r == if options % 2 == 1 {
                Ok::<u64, &'static str>(0)
            } else {
                Err::<u64, &'static str>("echild")
            }
            &&& 0 <= i < g.len() && ts[g[i] as int].info.status is Some && pid < 0 && (forall|j: int|
                0 <= j < i ==> ts[#[trigger] g[j] as int].info.status is None) ==> r == Ok::<u64, &'static str>(
                ts[g[i] as int].pid.0 as u64,
            )
            &&& 0 <= i < g.len() && ts[g[i] as int].info.status is Some && pid == 0 && (forall|j: int|
                i < j < g.len() ==> ts[#[trigger] g[j] as int].info.status is None) ==> r == Ok::<u64, &'static str>(
                ts[g[i] as int].pid.0 as u64,
            )
        }),
{
    let ts = a.tasks.tasks@;
    let g = a.tasks.group(gid);
    assert(pid < 0 ==> crate::kernel::life::group_of(pid) == gid);
    let p = finished(ts);
    if forall|j: int| 0 <= j < g.len() ==> ts[#[trigger] g[j] as int].info.status is None {
        assert(g.filter(p).len() == 0) by {
            if g.filter(p).len() > 0 {
                let e = g.filter(p)[0];
                assert(g.filter(p).contains(e));
                crate::tables::lemma_filter_holds(g, p, e);
                let j = choose|j: int| 0 <= j < g.len() && g[j] == e;
                assert(ts[g[j] as int].info.status is None);
            }
        }
    }
    if 0 <= i < g.len() && ts[g[i] as int].info.status is Some {
        if forall|j: int| 0 <= j < i ==> ts[#[trigger] g[j] as int].info.status is None {
            assert forall|j: int| 0 <= j < i implies !p(#[trigger] g[j]) by {}
            lemma_first_let_through(g, p, i);
        }
        if forall|j: int| i < j < g.len() ==> ts[#[trigger] g[j] as int].info.status is None {
            assert forall|j: int| i < j < g.len() implies !p(#[trigger] g[j]) by {}
            lemma_last_let_through(g, p, i);
        }
    }
}

/// The first element that passes comes first behind a filter.
proof fn lemma_first_let_through(s: Seq<usize>, p: spec_fn(usize) -> bool, i: int)
    requires
        0 <= i < s.len(),
        p(s[i]),
        forall|j: int| 0 <= j < i ==> !p(#[trigger] s[j]),
    ensures
        s.filter(p).len() > 0,
        s.filter(p)[0] == s[i],
    decreases s.len(),
{
    reveal(Seq::filter);
    let t = s.drop_last();
    if i < t.len() {
        lemma_first_let_through(t, p, i);
    } else {
        assert(t.filter(p).len() == 0) by {
            if t.filter(p).len() > 0 {
                let e = t.filter(p)[0];
                assert(t.filter(p).contains(e));
                crate::tables::lemma_filter_holds(t, p, e);
                let j = choose|j: int| 0 <= j < t.len() && t[j] == e;
                assert(s[j] == e);
            }
        }
    }
}

/// The last element that passes comes last behind a filter.
proof fn lemma_last_let_through(s: Seq<usize>, p: spec_fn(usize) -> bool, i: int)
    requires
        0 <= i < s.len(),
        p(s[i]),
        forall|j: int| i < j < s.len() ==> !p(#[trigger] s[j]),
    ensures
        s.filter(p).len() > 0,
        s.filter(p).last() == s[i],
    decreases s.len(),
{
    reveal(Seq::filter);
    let t = s.drop_last();
    if i < t.len() {
        assert(!p(s[s.len() - 1]));
        lemma_last_let_through(t, p, i);
    }
}

/// Nobody to wait for, or to signal, among the running task's group where none runs; whoever
/// waits for anybody is told that nobody has ended.
pub proof fn law_nobody_runs_nobody_is_meant(
    a: Kernel,
    options: usize,
    sig: usize,
    r: Result<u64, &'static str>,
    b: Kernel,
)
    requires
        a.running(0) is None,
    ensures
        wait4_result(a, 0, 0, options, 0) == Err::<u64, &'static str>("echild"),
        did_kill(a, 0, sig, r, b) && sig <= 64 && sig != 9 && sig != 19 ==> r == Ok::<u64, &'static str>(0) && b == a,
        did_exit(a, sig, r, b) ==> r == Ok::<u64, &'static str>(0) && b == a,
        did_setsid(a, r, b) ==> r == Err::<u64, &'static str>("esrch") && b == a,
        getpgid_result(a, 0) == Err::<u64, &'static str>("esrch"),
        parent_id(a) == 0,
        own_id(a, sig) == sig,
{
}

/// A wait for anybody where nobody has ended gives an error, or zero if it was asked not to
/// wait.
pub proof fn law_wait_call_for_nobody(a: Kernel, options: usize)
    requires
        a.wf(),
        forall|id: usize| #[trigger]
            a.tasks.map@.contains_key(id)
                ==> a.tasks.tasks@[a.tasks.map@[id] as int].info.status is None,
    ensures
        wait4_result(a, -1isize, 0, options, 0) == if options % 2 == 1 {
            Ok::<u64, &'static str>(0)
        } else {
            Err::<u64, &'static str>("echild")
        },
{
    let p = crate::process::table::over(a.tasks.tasks@, a.tasks.map@);
    let ids = crate::tables::in_order(a.tasks.map@.dom());
    crate::tables::lemma_in_order_lists(a.tasks.map@.dom());
    assert(ids.filter(p).len() == 0) by {
        if ids.filter(p).len() > 0 {
            let e = ids.filter(p)[0];
            assert(ids.filter(p).contains(e));
            crate::tables::lemma_filter_holds(ids, p, e);
            assert(a.tasks.map@.contains_key(e));
        }
    }
}

/// A signal to a group is sent to as many as it has, and one to a group that has none is
/// refused, as is one to all where there is nobody.
pub proof fn law_signal_counts_its_targets(a: Kernel, pid: isize, sig: usize, r: Result<u64, &'static str>, b: Kernel)
    requires
        did_kill(a, pid, sig, r, b),
        sig <= 64,
        sig != 9,
        sig != 19,
        i32::MIN < pid < -1 || pid == 0,
        a.running(0) is Some,
    ensures
        pid < -1 && a.tasks.group((-pid) as i32).len() == 0 ==> r == Err::<u64, &'static str>("esrch"),
        pid < -1 && a.tasks.group((-pid) as i32).len() > 0 ==> r == Ok::<u64, &'static str>(
            a.tasks.group((-pid) as i32).len() as u64,
        ),
        pid == 0 ==> r == Ok::<u64, &'static str>(
            a.tasks.group(a.tasks.tasks@[a.running(0)->0 as int].pgid).len() as u64,
        ),
{
}

/// Only the running task and its children can be put into a group: another process, known or
/// not, cannot. Zero stands for the running task, and group zero for the group of its number.
pub proof fn law_zero_means_the_caller(
    a: Kernel,
    pid: usize,
    pgid: usize,
    r: Result<u64, &'static str>,
    b: Kernel,
    t: usize,
)
    requires
        a.wf(),
        a.running(0) == Some(t),
        did_setpgid(a, pid, pgid, r, b),
        pgid <= i32::MAX,
        a.tasks.tasks@[t as int].info.id <= i32::MAX,
    ensures
        pid != 0 && pid != a.tasks.tasks@[t as int].info.id && !a.tasks.map@.contains_key(pid) ==> r
            == Err::<u64, &'static str>("esrch") && b == a,
        pid == 0 ==> r == Ok::<u64, &'static str>(0),
        pid == 0 && a.tasks.map@.contains_key(a.tasks.tasks@[t as int].info.id) && pgid > 0
            ==> b.tasks.tasks@[a.tasks.map@[a.tasks.tasks@[t as int].info.id] as int].pgid == pgid,
        pid == 0 && a.tasks.map@.contains_key(a.tasks.tasks@[t as int].info.id) && pgid == 0
            ==> b.tasks.tasks@[a.tasks.map@[a.tasks.tasks@[t as int].info.id] as int].pgid
            == a.tasks.tasks@[t as int].info.id,
        pid == 0 && !a.tasks.map@.contains_key(a.tasks.tasks@[t as int].info.id) ==> b == a,
{
}

/// The group of a process is that of its task; zero asks for the caller's own, and a number
/// that nobody has is refused.
pub proof fn law_group_is_the_tasks(a: Kernel, pid: usize, t: usize)
    requires
        a.running(0) == Some(t),
    ensures
        pid != 0 && !a.tasks.map@.contains_key(pid) ==> getpgid_result(a, pid) == Err::<u64, &'static str>("esrch"),
        pid != 0 && a.tasks.map@.contains_key(pid)
            && a.tasks.tasks@[a.tasks.map@[pid] as int].pgid >= 0 ==> getpgid_result(a, pid) == Ok::<u64, &'static str>(
            a.tasks.tasks@[a.tasks.map@[pid] as int].pgid as u64,
        ),
        a.tasks.tasks@[t as int].info.id != 0 ==> getpgid_result(a, 0) == getpgid_result(
            a,
            a.tasks.tasks@[t as int].info.id,
        ),
        a.tasks.tasks@[t as int].info.id == 0 ==> getpgid_result(a, 0) == Err::<u64, &'static str>("esrch"),
{
}

/// The end of a task touches nobody but the task, its parent, its children and the first
/// process, and of what is shared only its files.
pub proof fn law_exit_leaves_the_others(
    a: Kernel,
    status: usize,
    r: Result<u64, &'static str>,
    b: Kernel,
    t: usize,
    x: usize,
)
    requires
        a.wf(),
        did_exit(a, status, r, b),
        a.running(0) == Some(t),
        x < a.tasks.tasks@.len(),
        x != t,
        a.tasks.tasks@[t as int].parent != Some(x),
        !a.tasks.tasks@[t as int].subtasks@.contains(x),
        !a.tasks.map@.contains_key(1) || a.tasks.map@[1] != x,
    ensures
        b.tasks.tasks@[x as int] == (Task {
            subtasks: b.tasks.tasks@[x as int].subtasks,
            ..a.tasks.tasks@[x as int]
        }),
        b.tasks.tasks@[x as int].subtasks@ == a.tasks.tasks@[x as int].subtasks@,
        b.tasks.tasks@.len() == a.tasks.tasks@.len(),
        b.tasks.map == a.tasks.map && b.tasks.seq == a.tasks.seq,
        b.shared.sems == a.shared.sems && b.shared.shms == a.shared.shms,
        b.pool == a.pool && b.cpus == a.cpus && b.configfs == a.configfs && b.cache == a.cache,
{
    let (m, n) = choose|m: Seq<Task>, n: Seq<Task>|
        #![trigger parent_signalled(m, t, n)]
        {
            &&& crate::process::table::ended_in(a.tasks.tasks@, t, status, m)
            &&& parent_signalled(m, t, n)
            &&& children_handed_over(n, t, a.tasks.map@, b.tasks.tasks@)
        };
    assert(m[x as int] == a.tasks.tasks@[x as int]);
    assert(n[x as int] == m[x as int]);
    assert(n[t as int].subtasks == a.tasks.tasks@[t as int].subtasks);
    if a.tasks.map@.contains_key(1) {
        assert(crate::process::table::handed_over(
            n[x as int],
            x,
            t,
            a.tasks.map@[1],
            n[t as int].subtasks@,
            b.tasks.tasks@[x as int],
        ));
    }
}

} // verus!
