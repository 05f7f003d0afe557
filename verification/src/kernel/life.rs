//! Tasks as the kernel manages them: the first one, forks, programs, pipes and waiting.

use std::collections::BTreeMap;

use vstd::prelude::*;

use crate::fs::configfs::{Group, Tree};
use crate::fs::demo::demo_config_subsystem;
use crate::fs::files::{Files, Pipe};
use crate::fs::flike::FLike;
use crate::fs::pipes::{PipeDir, PipeNode};
use crate::kernel::Kernel;
use crate::memory::slab::KStk;
use crate::process::fork::USR_STK_TOP;
use crate::process::{ProcInit, Shared, Task, TaskTable, ThdCtx};
use crate::tables::ordered_keys;

verus! {

broadcast use vstd::std_specs::btree::group_btree_axioms;

/// Where programs begin.
pub const ENTRY_POINT: u64 = 0x0040_0000;

/// `t` is the first task, with itself for a thread and a kernel stack.
pub open spec fn is_first_task(t: Task, id: usize, stack: usize) -> bool {
    exists|blank: Task| #[trigger]
        blank.is_new(id, "init"@) && t == (Task {
            threads: t.threads,
            kstk: Some(KStk(stack)),
            ..blank
        }) && t.threads@ == seq![id]
}

/// `b` is the configuration once the subsystem of counters is registered.
pub open spec fn with_counters(a: Tree, b: Tree) -> bool {
    &&& b.types.len() == a.types.len() + 1
    &&& crate::fs::demo::is_counter_type(b.types.last())
    &&& b == (Tree {
        types: a.types.push(b.types.last()),
        groups: a.groups.push(Group::fresh("demo"@, a.types.len() as usize)),
        subsystems: a.subsystems.insert("demo"@, a.groups.len() as usize),
        ..a
    })
}

/// The tasks and what they share after task `t` was taken out of the table.
pub open spec fn one_reaped(
    a: Seq<Task>,
    sa: Shared,
    t: usize,
    root: Option<usize>,
    b: Seq<Task>,
    sb: Shared,
) -> bool {
    &&& crate::process::table::reaped_in(a, t, root, b)
    &&& crate::process::table::given_up(a[t as int], sa, sb)
}

/// The tasks and what they share after those under some numbers were taken out of the table
/// one after the other.
pub open spec fn reaped_in_turn(
    a: Seq<Task>,
    sa: Shared,
    map: Map<usize, usize>,
    ids: Seq<usize>,
    root: Option<usize>,
    b: Seq<Task>,
    sb: Shared,
) -> bool
    decreases ids.len(),
{
    if ids.len() == 0 {
        b == a && sb == sa
    } else {
        exists|m: Seq<Task>, s: Shared|
            reaped_in_turn(a, sa, map, ids.drop_last(), root, m, s) && #[trigger] one_reaped(
                m,
                s,
                map[ids.last()],
                root,
                b,
                sb,
            )
    }
}

/// The descriptor is closed when another program is started.
pub open spec fn closes_on_exec(fl: FLike) -> bool {
    fl is File && fl->File_0.cloexec
}

/// The descriptors that stay open when another program is started.
pub open spec fn kept_on_exec(files: Map<usize, FLike>) -> Map<usize, FLike> {
    files.restrict(
        Set::new(|fd: usize| files.contains_key(fd) && !closes_on_exec(files[fd])),
    )
}

/// The context of a program that is started in a task: stack pointer and entry point.
pub open spec fn program_ctx(c: ThdCtx, sp: u64) -> bool {
    let zero = crate::trap::Regs {
        r: Seq::new(crate::consts::N_REGS as nat, |i: int| 0u64),
        ip: 0,
        flags: 0,
    };
    &&& c.uctx@ == crate::trap::Regs {
        ip: ENTRY_POINT,
        ..zero.with_reg(crate::consts::N_REGS - 1, sp)
    }
    &&& c.clear_tid == 0
    &&& c.smask == 0
}

/// `b` is the task once it is to run a program from a path.
pub open spec fn restarted(
    a: Task,
    path: Seq<char>,
    args: Seq<String>,
    envs: Seq<String>,
    b: Task,
) -> bool {
    &&& b == (Task { exec_path: b.exec_path, files: b.files, thd_ctx: b.thd_ctx, ..a })
    &&& b.exec_path@ == path
    &&& b.files@ == kept_on_exec(a.files@)
    &&& b.thd_ctx is Some
    &&& program_ctx(
        b.thd_ctx->0,
        crate::process::init::stack_for(args, envs, 0, USR_STK_TOP) as u64,
    )
}

/// `b` is the task with both ends of the pipe numbered `n` open at `rd` and `wr`, the least
/// free descriptors.
pub open spec fn piped(a: Task, n: usize, rd: usize, wr: usize, b: Task) -> bool {
    let one = a.files@.insert(rd, FLike::Pipe(PipeNode { data: n, dir: PipeDir::Rd }));
    &&& crate::tables::is_least_free(a.files@.dom(), rd)
    &&& crate::tables::is_least_free(one.dom(), wr)
    &&& b == (Task { files: b.files, ..a })
    &&& b.files@ == one.insert(wr, FLike::Pipe(PipeNode { data: n, dir: PipeDir::Wr }))
}

/// What is shared with one more pipe.
pub open spec fn with_new_pipe(st: Files) -> Files {
    Files { pipes: st.pipes.push(Pipe::fresh()), ..st }
}

/// The process group that a negative number stands for.
pub open spec fn group_of(target: isize) -> i32 {
    (-(target as int)) as i32
}

/// A child that a wait for `target` looks for.
pub open spec fn waited_for(parent: Task, child: Task, target: isize) -> bool {
    if target == -1 {
        true
    } else if target == 0 {
        child.pgid == parent.pgid
    } else if target > 0 {
        child.info.id == target as usize
    } else {
        child.pgid == group_of(target)
    }
}

/// The test for children that a wait for `target` ends with.
pub open spec fn ends_wait(ts: Seq<Task>, parent: usize, target: isize) -> spec_fn(usize) -> bool {
    |c: usize|
        waited_for(ts[parent as int], ts[c as int], target) && ts[c as int].is_done()
}

/// The first place whose element passes the test; the length where none does.
pub open spec fn first_where(s: Seq<usize>, p: spec_fn(usize) -> bool) -> int
    decreases s.len(),
{
    if s.len() == 0 || p(s[0]) {
        0
    } else {
        1 + first_where(s.skip(1), p)
    }
}

/// `first_where` names the first place whose element passes.
pub proof fn lemma_first_where(s: Seq<usize>, p: spec_fn(usize) -> bool, i: int)
    requires
        0 <= i <= s.len(),
        forall|k: int| 0 <= k < i ==> !p(#[trigger] s[k]),
        i < s.len() ==> p(s[i]),
    ensures
        first_where(s, p) == i,
    decreases s.len(),
{
    if s.len() > 0 && !p(s[0]) {
        assert(i > 0);
        assert forall|k: int| 0 <= k < i - 1 implies !p(#[trigger] s.skip(1)[k]) by {
            assert(!p(s[k + 1]));
        }
        lemma_first_where(s.skip(1), p, i - 1);
    } else if s.len() > 0 && i > 0 {
        assert(!p(s[0]));
    }
}

/// The outcome of waiting for a child, and the table and what is shared after it: the first
/// child that is looked for and has ended is taken out.
pub open spec fn waited(
    a: TaskTable,
    sa: Shared,
    parent_id: usize,
    target: isize,
    options: usize,
    r: Result<(usize, usize), &'static str>,
    b: TaskTable,
    sb: Shared,
) -> bool {
    let p = a.map@[parent_id];
    let ch = a.tasks@[p as int].subtasks@;
    let i = first_where(ch, ends_wait(a.tasks@, p, target));
    if !a.map@.contains_key(parent_id) {
        r == Err::<(usize, usize), &'static str>("esrch") && b == a && sb == sa
    } else if ch.len() == 0 {
        r == Err::<(usize, usize), &'static str>("echild") && b == a && sb == sa
    } else if i < ch.len() {
        let c = a.tasks@[ch[i] as int];
        &&& r == Ok::<(usize, usize), &'static str>((c.info.id, c.exit_code))
        &&& was_reaped(a, sa, c.info.id, b, sb)
    } else if options % 2 == 1 {
        r == Ok::<(usize, usize), &'static str>((0, 0)) && b == a && sb == sa
    } else {
        r == Err::<(usize, usize), &'static str>("echild") && b == a && sb == sa
    }
}

/// `b` is the table, and `sb` what is shared, once the task under a number, if there is one,
/// was taken out.
pub open spec fn was_reaped(a: TaskTable, sa: Shared, id: usize, b: TaskTable, sb: Shared) -> bool {
    if a.map@.contains_key(id) {
        &&& one_reaped(a.tasks@, sa, a.map@[id], a.root, b.tasks@, sb)
        &&& b.map@ == a.map@.remove(id)
        &&& b.seq == a.seq
        &&& b.root == a.root
    } else {
        b == a && sb == sa
    }
}

/// What a task has open or attached, it can give up.
pub proof fn lemma_can_give_up(tt: TaskTable, t: usize, sh: Shared, cf: Tree)
    requires
        tt.all_backed(sh, cf),
        t < tt.tasks@.len(),
    ensures
        crate::process::table::can_give_up(tt.tasks@[t as int], sh),
{
    assert(crate::process::table::backed(
        tt.tasks@[t as int],
        sh.files@,
        cf,
        sh.sems@,
        sh.shms@,
    ));
}

/// Taking a task out of the table leaves what the others have open or attached.
pub proof fn lemma_reaped_backed(
    a: TaskTable,
    sa: Shared,
    t: usize,
    b: TaskTable,
    sb: Shared,
    cf: Tree,
)
    requires
        a.all_backed(sa, cf),
        t < a.tasks@.len(),
        a.tasks@.len() <= usize::MAX,
        one_reaped(a.tasks@, sa, t, a.root, b.tasks@, sb),
    ensures
        b.all_backed(sb, cf),
{
    let ch = a.tasks@[t as int].subtasks@;
    let files = a.tasks@[t as int].files@;
    let fds = crate::tables::in_order(files.dom());
    crate::tables::lemma_in_order_lists(files.dom());
    lemma_can_give_up(a, t, sa, cf);
    assert forall|i: int|
        0 <= i < fds.len() && files[#[trigger] fds[i]] is Pipe implies files[fds[i]]->Pipe_0.wf(
        sa.files@,
    ) by {
        assert(fds.contains(fds[i]));
        assert(files.contains_key(fds[i]));
    }
    crate::process::task::lemma_turn_keeps_sizes(files, fds, sa.files@);
    assert forall|x: int| 0 <= x < b.tasks@.len() implies crate::process::table::backed(
        #[trigger] b.tasks@[x],
        sb.files@,
        cf,
        sb.sems@,
        sb.shms@,
    ) by {
        let y = x as usize;
        assert(crate::process::table::reaped(
            a.tasks@[y as int],
            y,
            t,
            a.root,
            ch,
            b.tasks@[y as int],
        ));
        if x == t {
            assert(crate::ipc::segments(b.tasks@[x].shm_ctx.ids@) =~= Map::empty());
        } else {
            crate::kernel::lemma_still_backed(
                a.tasks@[x],
                sa.files@,
                cf,
                sa.sems@,
                sa.shms@,
                sb.files@,
                cf,
                sb.sems@,
                sb.shms@,
            );
        }
    }
}

impl Kernel {
    /// Starts the system: the first task with a kernel stack at `stack`, the configuration
    /// mounted at "/config", and the subsystem of counters in it.
    pub fn proc_init(&mut self, stack: usize)
        requires
            old(self).wf(),
        ensures
            final(self).wf(),
            ({
                let at = old(self).tasks.tasks@.len() as usize;
                &&& final(self).tasks.tasks@.len() == at + 1
                &&& final(self).tasks.tasks@.take(at as int) == old(self).tasks.tasks@
                &&& is_first_task(
                    final(self).tasks.tasks@[at as int],
                    old(self).tasks.seq,
                    stack,
                )
                &&& final(self).tasks.map@ == old(self).tasks.map@.insert(old(self).tasks.seq, at)
                &&& final(self).tasks.root == Some(at)
            }),
            final(self).tasks.seq == old(self).tasks.seq.wrapping_add(1),
            crate::fs::mounts::bound(
                old(self).mnt.entries@,
                "/config"@,
                "configfs"@,
                final(self).mnt.entries@,
            ),
            with_counters(old(self).configfs@, final(self).configfs@),
            *final(self) == (Kernel {
                tasks: final(self).tasks,
                mnt: final(self).mnt,
                configfs: final(self).configfs,
                ..*old(self)
            }),
    {
        let root: usize = self.tasks.spawn_root();
        let ghost spawned = self.tasks;
        let id: usize = self.tasks.tasks[root].id();
        self.tasks.tasks[root].threads.push(id);
        self.tasks.tasks[root].kstk = Some(KStk::new(stack));
        self.mnt.bind("/config", "configfs");
        let demo = demo_config_subsystem(&mut self.configfs);
        let ghost named = self.configfs@;
        self.configfs.register_subsystem(demo);
        proof {
            let t = self.tasks.tasks@[root as int];
            assert(spawned.tasks@[root as int].is_new(old(self).tasks.seq, "init"@));
            assert(t.threads@ =~= seq![id]);
            assert(self.tasks.tasks@.take(root as int) =~= spawned.tasks@.take(root as int));
            assert(self.configfs@.types.last() == named.types.last());
            assert(with_counters(old(self).configfs@, self.configfs@));
            assert forall|x: int| 0 <= x < self.tasks.tasks@.len() implies crate::process::table::links_ok(
                #[trigger] self.tasks.tasks@[x],
                self.tasks.tasks@.len(),
            ) by {
                assert(crate::process::table::links_ok(spawned.tasks@[x], spawned.tasks@.len()));
            }
            assert forall|x: int| 0 <= x < self.tasks.tasks@.len() implies crate::process::table::backed(
                #[trigger] self.tasks.tasks@[x],
                self.shared.files@,
                self.configfs@,
                self.shared.sems@,
                self.shared.shms@,
            ) by {
                if x < root {
                    assert(self.tasks.tasks@.take(root as int)[x] == old(self).tasks.tasks@[x]);
                    assert(crate::process::table::backed(
                        old(self).tasks.tasks@[x],
                        self.shared.files@,
                        old(self).configfs@,
                        self.shared.sems@,
                        self.shared.shms@,
                    ));
                } else {
                    assert(crate::ipc::segments(t.shm_ctx.ids@) =~= Map::empty());
                }
            }
        }
    }

    /// Takes every task that has ended out of the table, and says how many there were.
    pub fn reclaim_zombies(&mut self) -> (r: usize)
        requires
            old(self).wf(),
        ensures
            final(self).wf(),
            ({
                let tt = old(self).tasks;
                let ids = crate::tables::in_order(tt.map@.dom()).filter(
                    crate::process::table::over(tt.tasks@, tt.map@),
                );
                &&& r == ids.len()
                &&& reaped_in_turn(
                    tt.tasks@,
                    old(self).shared,
                    tt.map@,
                    ids,
                    tt.root,
                    final(self).tasks.tasks@,
                    final(self).shared,
                )
                &&& final(self).tasks.map@ == tt.map@.remove_keys(ids.to_set())
            }),
            final(self).tasks.seq == old(self).tasks.seq,
            final(self).tasks.root == old(self).tasks.root,
            *final(self) == (Kernel {
                tasks: final(self).tasks,
                shared: final(self).shared,
                ..*old(self)
            }),
    {
        let ids = self.tasks.zombie_tasks();
        let ghost tt = self.tasks;
        let ghost all = crate::tables::in_order(tt.map@.dom());
        let ghost p = crate::process::table::over(tt.tasks@, tt.map@);
        let mut n: usize = 0;
        proof {
            crate::tables::lemma_in_order_lists(tt.map@.dom());
            assert forall|i: int| 0 <= i < ids@.len() implies tt.map@.contains_key(
                #[trigger] ids@[i],
            ) by {
                assert(ids@.contains(ids@[i]));
                crate::tables::lemma_filter_holds(all, p, ids@[i]);
            }
            crate::tables::lemma_ascending_filter(all, p);
            assert(self.tasks.map@ =~= tt.map@.remove_keys(ids@.take(0).to_set()));
            assert(self.tasks.tasks@ =~= tt.tasks@);
        }
        while n < ids.len()
            invariant
                self.wf(),
                n <= ids@.len(),
                tt == old(self).tasks,
                crate::tables::ascending(ids@),
                forall|i: int| 0 <= i < ids@.len() ==> tt.map@.contains_key(#[trigger] ids@[i]),
                reaped_in_turn(
                    tt.tasks@,
                    old(self).shared,
                    tt.map@,
                    ids@.take(n as int),
                    tt.root,
                    self.tasks.tasks@,
                    self.shared,
                ),
                self.tasks.map@ == tt.map@.remove_keys(ids@.take(n as int).to_set()),
                self.tasks.seq == tt.seq,
                self.tasks.root == tt.root,
                *self == (Kernel { tasks: self.tasks, shared: self.shared, ..*old(self) }),
            decreases ids@.len() - n,
        {
            let id: usize = ids[n];
            let ghost before = self.tasks;
            let ghost sb = self.shared;
            proof {
                let part = ids@.take(n as int);
                assert(!part.to_set().contains(id)) by {
                    if part.contains(id) {
                        let i = choose|i: int| 0 <= i < part.len() && part[i] == id;
                        assert(ids@[i] < ids@[n as int]);
                    }
                }
                assert(before.map@.contains_key(id));
                assert(before.map@[id] == tt.map@[id]);
                lemma_can_give_up(before, before.map@[id], sb, self.configfs@);
            }
            self.tasks.reap(id, &mut self.shared);
            proof {
                let (part, next) = (ids@.take(n as int), ids@.take(n + 1));
                assert(next.drop_last() =~= part);
                assert(next.last() == id);
                assert(one_reaped(
                    before.tasks@,
                    sb,
                    tt.map@[next.last()],
                    tt.root,
                    self.tasks.tasks@,
                    self.shared,
                ));
                assert(reaped_in_turn(
                    tt.tasks@,
                    old(self).shared,
                    tt.map@,
                    next,
                    tt.root,
                    self.tasks.tasks@,
                    self.shared,
                ));
                assert(next =~= part.push(id));
                assert forall|k: usize| next.to_set().contains(k) <==> part.to_set().contains(k)
                    || k == id by {
                    crate::tables::lemma_push_contains(part, id, k);
                }
                assert(self.tasks.map@ =~= tt.map@.remove_keys(next.to_set()));
                assert(before.tasks.len() == before.tasks@.len());
                lemma_reaped_backed(
                    before,
                    sb,
                    before.map@[id],
                    self.tasks,
                    self.shared,
                    self.configfs@,
                );
            }
            n += 1;
        }
        assert(ids@.take(n as int) =~= ids@);
        ids.len()
    }

    /// Forks the task under a number: the child has the same memory. Gives the number of the
    /// child.
    pub fn do_fork(&mut self, parent_id: usize) -> (r: Result<usize, &'static str>)
        requires
            old(self).wf(),
            old(self).tasks.map@.contains_key(parent_id) ==> fork_counts(
                *old(self),
                old(self).tasks.map@[parent_id],
            ),
        ensures
            final(self).wf(),
            !old(self).tasks.map@.contains_key(parent_id) ==> r == Err::<usize, &'static str>(
                "esrch",
            ) && *final(self) == *old(self),
            old(self).tasks.map@.contains_key(parent_id) ==> r == Ok::<usize, &'static str>(
                old(self).tasks.seq,
            ) && forked(*old(self), old(self).tasks.map@[parent_id], *final(self)),
    {
        match self.tasks.find(parent_id) {
            Some(p) => Ok(self.fork_at(p)),
            None => Err("esrch"),
        }
    }

    /// Forks a task: the child has the same memory. Gives the number of the child.
    pub(crate) fn fork_at(&mut self, p: usize) -> (r: usize)
        requires
            old(self).wf(),
            p < old(self).tasks.tasks@.len(),
            fork_counts(*old(self), p),
        ensures
            final(self).wf(),
            r == old(self).tasks.seq,
            forked(*old(self), p, *final(self)),
    {
        let ghost src = self.tasks.tasks@[p as int];
        proof {
            assert(crate::process::table::backed(
                src,
                self.shared.files@,
                self.configfs@,
                self.shared.sems@,
                self.shared.shms@,
            ));
        }
        let at: usize = self.tasks.fork_task(p, &mut self.shared);
        let ghost forked = self.tasks.tasks@;
        let memory: usize = self.tasks.tasks[p].vm_token;
        self.tasks.tasks[at].vm_token = memory;
        proof {
            let child = forked[at as int];
            assert(crate::process::fork::is_fork(src, p, old(self).tasks.seq, child));
            assert(is_fork_with_memory(
                src,
                p,
                old(self).tasks.seq,
                self.tasks.tasks@[at as int],
            ));
            assert forall|x: int| 0 <= x < self.tasks.tasks@.len() implies crate::process::table::links_ok(
                #[trigger] self.tasks.tasks@[x],
                self.tasks.tasks@.len(),
            ) by {
                assert(crate::process::table::links_ok(forked[x], forked.len()));
            }
            crate::process::fork::law_child_is_backed(
                src,
                p,
                old(self).tasks.seq,
                child,
                old(self).shared,
                self.configfs@,
            );
            assert forall|x: int| 0 <= x < self.tasks.tasks@.len() implies crate::process::table::backed(
                #[trigger] self.tasks.tasks@[x],
                self.shared.files@,
                self.configfs@,
                self.shared.sems@,
                self.shared.shms@,
            ) by {
                let old_one = if x == at {
                    child
                } else {
                    old(self).tasks.tasks@[x]
                };
                assert(crate::process::table::backed(
                    old_one,
                    old(self).shared.files@,
                    self.configfs@,
                    old(self).shared.sems@,
                    old(self).shared.shms@,
                ));
                crate::kernel::lemma_still_backed(
                    old_one,
                    old(self).shared.files@,
                    self.configfs@,
                    old(self).shared.sems@,
                    old(self).shared.shms@,
                    self.shared.files@,
                    self.configfs@,
                    self.shared.sems@,
                    self.shared.shms@,
                );
            }
        }
        self.tasks.tasks[at].id()
    }

    /// Starts a program in the task under a number: its path is noted, the descriptors that
    /// do not outlive a program are closed, and its stack holds the arguments and the
    /// environment.
    pub fn do_exec(
        &mut self,
        task_id: usize,
        path: &str,
        args: Vec<String>,
        envs: Vec<String>,
    ) -> (r: Result<(), &'static str>)
        requires
            old(self).wf(),
            old(self).tasks.map@.contains_key(task_id) ==> crate::process::init::stack_fits(
                args@,
                envs@,
                0,
                USR_STK_TOP,
            ),
        ensures
            final(self).wf(),
            !old(self).tasks.map@.contains_key(task_id) ==> r == Err::<(), &'static str>("esrch")
                && *final(self) == *old(self),
            old(self).tasks.map@.contains_key(task_id) ==> {
                let (a, b) = (old(self).tasks, final(self).tasks);
                let t = a.map@[task_id];
                &&& r is Ok
                &&& b.tasks@.len() == a.tasks@.len()
                &&& restarted(a.tasks@[t as int], path@, args@, envs@, b.tasks@[t as int])
                &&& forall|x: int|
                    0 <= x < a.tasks@.len() && x != t ==> #[trigger] b.tasks@[x] == a.tasks@[x]
                &&& b == (TaskTable { tasks: b.tasks, ..a })
            },
            *final(self) == (Kernel { tasks: final(self).tasks, ..*old(self) }),
    {
        let t: usize = match self.tasks.find(task_id) {
            Some(t) => t,
            None => {
                return Err("esrch");
            },
        };
        self.tasks.tasks[t].exec_path = path.to_owned();
        Self::close_on_exec(&mut self.tasks.tasks[t].files);
        let init = ProcInit { args, envs, auxv: BTreeMap::new() };
        let sp: usize = init.push_at(USR_STK_TOP);
        let mut ctx = ThdCtx::default();
        ctx.uctx.set_sp(sp as u64);
        ctx.uctx.set_ip(ENTRY_POINT);
        self.tasks.tasks[t].thd_ctx = Some(ctx);
        proof {
            let (a, b) = (old(self).tasks.tasks@, self.tasks.tasks@);
            assert forall|x: int| 0 <= x < b.len() implies crate::process::table::links_ok(
                #[trigger] b[x],
                b.len(),
            ) by {
                assert(crate::process::table::links_ok(a[x], a.len()));
            }
            assert forall|x: int| 0 <= x < b.len() implies crate::process::table::backed(
                #[trigger] b[x],
                self.shared.files@,
                self.configfs@,
                self.shared.sems@,
                self.shared.shms@,
            ) by {
                assert(crate::process::table::backed(
                    a[x],
                    self.shared.files@,
                    self.configfs@,
                    self.shared.sems@,
                    self.shared.shms@,
                ));
                assert forall|fd: usize| #[trigger] b[x].files@.contains_key(fd) implies b[x].files@[fd].wf(
                    self.shared.files@,
                    self.configfs@,
                ) by {
                    assert(a[x].files@.contains_key(fd));
                }
            }
        }
        Ok(())
    }

    fn close_on_exec(files: &mut BTreeMap<usize, FLike>)
        ensures
            final(files)@ == kept_on_exec(old(files)@),
    {
        let ghost was = files@;
        let fds = ordered_keys(files);
        let mut n: usize = 0;
        while n < fds.len()
            invariant
                was == old(files)@,
                crate::tables::is_listing(fds@, was.dom()),
                n <= fds@.len(),
                forall|k: usize| #[trigger]
                    files@.contains_key(k) <==> was.contains_key(k) && !(fds@.take(
                        n as int,
                    ).contains(k) && closes_on_exec(was[k])),
                forall|k: usize| #[trigger] files@.contains_key(k) ==> files@[k] == was[k],
            decreases fds@.len() - n,
        {
            let fd: usize = fds[n];
            proof {
                assert(fds@.contains(fd));
                let (part, next) = (fds@.take(n as int), fds@.take(n + 1));
                assert(next =~= part.push(fd));
                assert forall|k: usize| #[trigger] next.contains(k) <==> part.contains(k) || k
                    == fd by {
                    crate::tables::lemma_push_contains(part, fd, k);
                }
                assert(!part.contains(fd)) by {
                    if part.contains(fd) {
                        let i = choose|i: int| 0 <= i < part.len() && part[i] == fd;
                        assert(fds@[i] < fds@[n as int]);
                    }
                }
                assert(files@.contains_key(fd));
            }
            let closes = match files.get(&fd) {
                Some(FLike::File(f)) => f.cloexec,
                _ => false,
            };
            if closes {
                files.remove(&fd);
            }
            n += 1;
        }
        proof {
            assert(fds@.take(n as int) =~= fds@);
            assert forall|k: usize| files@.contains_key(k) <==> kept_on_exec(was).contains_key(
                k,
            ) by {
                assert(fds@.contains(k) <==> was.dom().contains(k));
            }
            assert(files@ =~= kept_on_exec(was));
        }
    }

    /// Opens a pipe in the task under a number. Gives the descriptor to read from and the one
    /// to write to.
    pub fn do_pipe(&mut self, task_id: usize) -> (r: Result<(usize, usize), &'static str>)
        requires
            old(self).wf(),
        ensures
            final(self).wf(),
            !old(self).tasks.map@.contains_key(task_id) ==> r == Err::<
                (usize, usize),
                &'static str,
            >("esrch") && *final(self) == *old(self),
            old(self).tasks.map@.contains_key(task_id) ==> {
                let (a, b) = (old(self).tasks, final(self).tasks);
                let t = a.map@[task_id];
                &&& r is Ok
                &&& piped_in(
                    a,
                    t,
                    old(self).shared.files@.pipes.len() as usize,
                    r->Ok_0.0,
                    r->Ok_0.1,
                    b,
                )
                &&& final(self).shared.files@ == with_new_pipe(old(self).shared.files@)
            },
            *final(self) == (Kernel {
                tasks: final(self).tasks,
                shared: Shared { files: final(self).shared.files, ..old(self).shared },
                ..*old(self)
            }),
    {
        match self.tasks.find(task_id) {
            Some(t) => Ok(self.open_pipe(t)),
            None => Err("esrch"),
        }
    }

    /// Opens a pipe in a task.
    pub(crate) fn open_pipe(&mut self, t: usize) -> (r: (usize, usize))
        requires
            old(self).wf(),
            t < old(self).tasks.tasks@.len(),
        ensures
            final(self).wf(),
            piped_in(
                old(self).tasks,
                t,
                old(self).shared.files@.pipes.len() as usize,
                r.0,
                r.1,
                final(self).tasks,
            ),
            final(self).shared.files@ == with_new_pipe(old(self).shared.files@),
            *final(self) == (Kernel {
                tasks: final(self).tasks,
                shared: Shared { files: final(self).shared.files, ..old(self).shared },
                ..*old(self)
            }),
    {
        let (rd, wr) = PipeNode::pair(&mut self.shared.files);
        let rd_fd: usize = self.tasks.tasks[t].add_file(FLike::Pipe(rd));
        let wr_fd: usize = self.tasks.tasks[t].add_file(FLike::Pipe(wr));
        proof {
            let (a, b) = (old(self).tasks.tasks@, self.tasks.tasks@);
            assert forall|x: int| 0 <= x < b.len() implies crate::process::table::links_ok(
                #[trigger] b[x],
                b.len(),
            ) by {
                assert(crate::process::table::links_ok(a[x], a.len()));
            }
            assert forall|x: int| 0 <= x < b.len() implies crate::process::table::backed(
                #[trigger] b[x],
                self.shared.files@,
                self.configfs@,
                self.shared.sems@,
                self.shared.shms@,
            ) by {
                crate::kernel::lemma_still_backed(
                    a[x],
                    old(self).shared.files@,
                    self.configfs@,
                    self.shared.sems@,
                    self.shared.shms@,
                    self.shared.files@,
                    self.configfs@,
                    self.shared.sems@,
                    self.shared.shms@,
                );
                assert forall|fd: usize| #[trigger] b[x].files@.contains_key(fd) implies b[x].files@[fd].wf(
                    self.shared.files@,
                    self.configfs@,
                ) by {
                    if !(x == t && (fd == rd_fd || fd == wr_fd)) {
                        assert(a[x].files@.contains_key(fd));
                    }
                }
            }
        }
        (rd_fd, wr_fd)
    }

    /// Waits for a child of the task under a number: any for -1, one of the same group for 0,
    /// that of a number, or one of the group of a negative number. The first that has ended
    /// is taken out of the table; its number and its code are given. Where none has, an odd
    /// `options` asks for zeros instead of an error.
    pub fn do_wait(&mut self, parent_id: usize, target_pid: isize, options: usize) -> (r: Result<
        (usize, usize),
        &'static str,
    >)
        requires
            old(self).wf(),
        ensures
            final(self).wf(),
            waited(
                old(self).tasks,
                old(self).shared,
                parent_id,
                target_pid,
                options,
                r,
                final(self).tasks,
                final(self).shared,
            ),
            *final(self) == (Kernel {
                tasks: final(self).tasks,
                shared: final(self).shared,
                ..*old(self)
            }),
    {
        let p: usize = match self.tasks.find(parent_id) {
            Some(p) => p,
            None => {
                return Err("esrch");
            },
        };
        let ghost tt = self.tasks;
        let ghost ch = tt.tasks@[p as int].subtasks@;
        let ghost test = ends_wait(tt.tasks@, p, target_pid);
        let total: usize = self.tasks.tasks[p].subtasks.len();
        if total == 0 {
            return Err("echild");
        }
        assert(crate::process::table::links_ok(tt.tasks@[p as int], tt.tasks@.len()));
        let mut n: usize = 0;
        while n < total
            invariant
                self.wf(),
                *self == *old(self),
                tt == self.tasks,
                p < tt.tasks@.len(),
                ch == tt.tasks@[p as int].subtasks@,
                total == ch.len(),
                forall|i: int| 0 <= i < ch.len() ==> #[trigger] ch[i] < tt.tasks@.len(),
                test == ends_wait(tt.tasks@, p, target_pid),
                n <= total,
                forall|i: int| 0 <= i < n ==> !test(#[trigger] ch[i]),
                tt == old(self).tasks,
                tt.map@.contains_key(parent_id),
                p == tt.map@[parent_id],
            decreases total - n,
        {
            let c: usize = self.tasks.tasks[p].subtasks[n];
            if self.waits_for(p, c, target_pid) && self.tasks.tasks[c].done() {
                let id: usize = self.tasks.tasks[c].id();
                let code: usize = self.tasks.tasks[c].exit_code;
                proof {
                    assert(ch[n as int] == c);
                    assert(test(c));
                    lemma_first_where(ch, test, n as int);
                    if tt.map@.contains_key(id) {
                        lemma_can_give_up(tt, tt.map@[id], self.shared, self.configfs@);
                    }
                }
                self.tasks.reap(id, &mut self.shared);
                proof {
                    if tt.map@.contains_key(id) {
                        assert(tt.tasks.len() == tt.tasks@.len());
                        lemma_reaped_backed(
                            tt,
                            old(self).shared,
                            tt.map@[id],
                            self.tasks,
                            self.shared,
                            self.configfs@,
                        );
                    }
                }
                return Ok((id, code));
            }
            n += 1;
        }
        proof {
            lemma_first_where(ch, test, n as int);
        }
        if options % 2 == 1 {
            Ok((0, 0))
        } else {
            Err("echild")
        }
    }

    fn waits_for(&self, p: usize, c: usize, target: isize) -> (r: bool)
        requires
            p < self.tasks.tasks@.len(),
            c < self.tasks.tasks@.len(),
        ensures
            r == waited_for(
                self.tasks.tasks@[p as int],
                self.tasks.tasks@[c as int],
                target,
            ),
    {
        if target == -1 {
            true
        } else if target == 0 {
            self.tasks.tasks[c].pgid == self.tasks.tasks[p].pgid
        } else if target > 0 {
            self.tasks.tasks[c].info.id == target as usize
        } else {
            self.tasks.tasks[c].pgid == negated(target)
        }
    }
}

/// The process group that a negative number stands for.
pub(crate) fn negated(target: isize) -> (r: i32)
    ensures
        r == group_of(target),
{
    (-(target as i128)) as i32
}

/// The references that a child of task `p` takes can be counted.
pub open spec fn fork_counts(a: Kernel, p: usize) -> bool {
    let src = a.tasks.tasks@[p as int];
    &&& a.shared.sems@.room_for(src.sem_ctx.arrays@)
    &&& a.shared.shms@.room_for(crate::ipc::segments(src.shm_ctx.ids@))
}

/// `b` is the kernel once task `p` has one child more, under the next number.
pub open spec fn forked(a: Kernel, p: usize, b: Kernel) -> bool {
    let (tt, uu) = (a.tasks, b.tasks);
    let at = tt.tasks@.len() as usize;
    let src = tt.tasks@[p as int];
    &&& uu.tasks@.len() == tt.tasks@.len() + 1
    &&& is_fork_with_memory(src, p, tt.seq, uu.tasks@[at as int])
    &&& crate::process::fork::bore(src, at, uu.tasks@[p as int])
    &&& forall|x: int|
        0 <= x < tt.tasks@.len() && x != p ==> #[trigger] uu.tasks@[x] == tt.tasks@[x]
    &&& uu.map@ == tt.map@.insert(tt.seq, at)
    &&& uu.seq == tt.seq.wrapping_add(1)
    &&& uu.root == tt.root
    &&& b.shared.files == a.shared.files
    &&& b.shared.sems@ == a.shared.sems@.kept_all(src.sem_ctx.arrays@)
    &&& b.shared.shms@ == a.shared.shms@.kept_all(crate::ipc::segments(src.shm_ctx.ids@))
    &&& b == (Kernel { tasks: uu, shared: b.shared, ..a })
}

/// `c` is what a fork of `src` gives, with the memory of `src`.
pub open spec fn is_fork_with_memory(src: Task, at: usize, id: usize, c: Task) -> bool {
    exists|f: Task| #[trigger]
        crate::process::fork::is_fork(src, at, id, f) && c == (Task {
            vm_token: src.vm_token,
            ..f
        })
}

/// `b` is the table once task `t` has both ends of pipe `n` open.
pub open spec fn piped_in(
    a: TaskTable,
    t: usize,
    n: usize,
    rd: usize,
    wr: usize,
    b: TaskTable,
) -> bool {
    &&& b.tasks@.len() == a.tasks@.len()
    &&& piped(a.tasks@[t as int], n, rd, wr, b.tasks@[t as int])
    &&& forall|x: int|
        0 <= x < a.tasks@.len() && x != t ==> #[trigger] b.tasks@[x] == a.tasks@[x]
    &&& b == (TaskTable { tasks: b.tasks, ..a })
}

/// A child that was waited for cannot be found any more.
pub proof fn law_waited_child_is_gone(
    a: TaskTable,
    sa: Shared,
    parent_id: usize,
    target: isize,
    options: usize,
    id: usize,
    code: usize,
    b: TaskTable,
    sb: Shared,
)
    requires
        waited(a, sa, parent_id, target, options, Ok((id, code)), b, sb),
        id != 0,
    ensures
        !b.map@.contains_key(id),
{
}

/// Task `p` lists a task at place `k` that has the number `id` and ended with the code.
pub open spec fn ended_child(ts: Seq<Task>, p: usize, k: int, id: usize, code: usize) -> bool {
    let ch = ts[p as int].subtasks@;
    &&& 0 <= k < ch.len()
    &&& ts[ch[k] as int].info.id == id
    &&& ts[ch[k] as int].info.status is Some
    &&& ts[ch[k] as int].exit_code == code
}

/// Task `p` lists a task at place `k` that has ended and has the number `target`, or is in the
/// group of the caller for 0, in the group of a negative number, or is any for -1.
pub open spec fn answers(ts: Seq<Task>, p: usize, target: isize, k: int) -> bool {
    let ch = ts[p as int].subtasks@;
    let c = ts[ch[k] as int];
    &&& 0 <= k < ch.len()
    &&& c.info.status is Some
    &&& target > 0 ==> c.info.id == target
    &&& target == 0 ==> c.pgid == ts[p as int].pgid
    &&& target < -1 ==> c.pgid == -target
}

/// A wait gives what was asked for or nothing: for a positive number the process of that
/// number, for 0 one of the caller's group, for a negative number one of that group, and for
/// -1 any. It is a child of the caller, has ended, and the code is the one it ended with.
/// Every other number still leads to its task.
pub proof fn law_wait_gives_what_was_asked_for(
    a: TaskTable,
    sa: Shared,
    parent_id: usize,
    target: isize,
    options: usize,
    id: usize,
    code: usize,
    b: TaskTable,
    sb: Shared,
)
    requires
        waited(a, sa, parent_id, target, options, Ok((id, code)), b, sb),
        id != 0,
        i32::MIN < target,
    ensures
        a.map@.contains_key(parent_id),
        target > 0 ==> id == target,
        exists|k: int| #[trigger]
            ended_child(a.tasks@, a.map@[parent_id], k, id, code) && answers(
                a.tasks@,
                a.map@[parent_id],
                target,
                k,
            ) && forall|j: int|
                0 <= j < k ==> !#[trigger] answers(a.tasks@, a.map@[parent_id], target, j),
        forall|n: usize| n != id ==> b.map@.contains_key(n) == #[trigger] a.map@.contains_key(n),
        forall|n: usize| n != id && #[trigger] a.map@.contains_key(n) ==> b.map@[n] == a.map@[n],
        b.tasks@.len() == a.tasks@.len(),
{
    let p = a.map@[parent_id];
    let ch = a.tasks@[p as int].subtasks@;
    let test = ends_wait(a.tasks@, p, target);
    let i = first_where(ch, test);
    lemma_first_passes(ch, test);
    assert(test(ch[i]));
    assert(ended_child(a.tasks@, p, i, id, code));
    assert forall|j: int| 0 <= j < i implies !#[trigger] answers(a.tasks@, p, target, j) by {
        assert(!test(ch[j]));
    }
}

/// A wait overlooks nobody: where a child that is asked for has ended, one such is given, and
/// where none has, nothing changes and the caller gets zeros for an odd `options` and an error
/// else.
pub proof fn law_wait_overlooks_nobody(
    a: TaskTable,
    sa: Shared,
    parent_id: usize,
    target: isize,
    options: usize,
    r: Result<(usize, usize), &'static str>,
    b: TaskTable,
    sb: Shared,
)
    requires
        waited(a, sa, parent_id, target, options, r, b, sb),
        i32::MIN < target,
    ensures
        !a.map@.contains_key(parent_id) ==> r == Err::<(usize, usize), &'static str>("esrch"),
        a.map@.contains_key(parent_id) && (exists|k: int|
            answers(a.tasks@, a.map@[parent_id], target, k)) ==> r is Ok && exists|k: int|
            #[trigger]
            ended_child(a.tasks@, a.map@[parent_id], k, r->Ok_0.0, r->Ok_0.1) && answers(
                a.tasks@,
                a.map@[parent_id],
                target,
                k,
            ),
        a.map@.contains_key(parent_id) && (forall|k: int|
            !#[trigger] answers(a.tasks@, a.map@[parent_id], target, k)) ==> {
            &&& b == a && sb == sa
            &&& options % 2 == 0 ==> r == Err::<(usize, usize), &'static str>("echild")
            &&& options % 2 == 1 && a.tasks@[a.map@[parent_id] as int].subtasks@.len() > 0 ==> r
                == Ok::<(usize, usize), &'static str>((0, 0))
        },
{
    let p = a.map@[parent_id];
    let ch = a.tasks@[p as int].subtasks@;
    let test = ends_wait(a.tasks@, p, target);
    let i = first_where(ch, test);
    lemma_first_passes(ch, test);
    if a.map@.contains_key(parent_id) {
        if exists|k: int| answers(a.tasks@, p, target, k) {
            let k = choose|k: int| answers(a.tasks@, p, target, k);
            assert(test(ch[k]));
            assert(i < ch.len() && test(ch[i]));
            assert(ended_child(a.tasks@, p, i, r->Ok_0.0, r->Ok_0.1));
            assert(answers(a.tasks@, p, target, i));
        } else if i < ch.len() {
            assert(answers(a.tasks@, p, target, i));
        }
    }
}

proof fn lemma_first_passes(s: Seq<usize>, p: spec_fn(usize) -> bool)
    ensures
        0 <= first_where(s, p) <= s.len(),
        first_where(s, p) < s.len() ==> p(s[first_where(s, p)]),
        forall|k: int| 0 <= k < first_where(s, p) ==> !p(#[trigger] s[k]),
    decreases s.len(),
{
    if s.len() > 0 && !p(s[0]) {
        let t = s.skip(1);
        lemma_first_passes(t, p);
        let n = first_where(t, p);
        if n < t.len() {
            assert(t[n] == s[n + 1]);
        }
        assert forall|k: int| 0 <= k < n + 1 implies !p(#[trigger] s[k]) by {
            if k > 0 {
                assert(t[k - 1] == s[k]);
            }
        }
    }
}

/// Starting a program closes the files that are marked for it and nothing else: what stays
/// open is what it was.
pub proof fn law_exec_closes_what_is_marked(files: Map<usize, FLike>, fd: usize)
    ensures
        kept_on_exec(files).contains_key(fd) ==> files.contains_key(fd) && kept_on_exec(files)[fd]
            == files[fd],
        files.contains_key(fd) && files[fd] is File ==> kept_on_exec(files).contains_key(fd)
            == !files[fd]->File_0.cloexec,
        files.contains_key(fd) && !(files[fd] is File) ==> kept_on_exec(files).contains_key(fd),
{
}

/// A task that starts a program stays the same process: its numbers, its family, its signals
/// and what it has attached stay. It goes on at the entry point with its stack below the top.
pub proof fn law_exec_keeps_the_process(
    a: Task,
    path: Seq<char>,
    args: Seq<String>,
    envs: Seq<String>,
    b: Task,
)
    requires
        restarted(a, path, args, envs, b),
    ensures
        b.info == a.info && b.pid == a.pid && b.pgid == a.pgid,
        b.parent == a.parent && b.subtasks == a.subtasks && b.threads == a.threads,
        b.cwd == a.cwd && b.exec_path@ == path,
        b.sem_ctx == a.sem_ctx && b.shm_ctx == a.shm_ctx,
        b.sig_queue == a.sig_queue && b.sig_mask == a.sig_mask && b.ev == a.ev,
        b.vm_token == a.vm_token && b.exit_code == a.exit_code,
        b.thd_ctx is Some,
        b.thd_ctx->0.uctx@.ip == 0x0040_0000,
        b.thd_ctx->0.uctx@.r[crate::consts::N_REGS - 1] == crate::process::init::stack_for(
            args,
            envs,
            0,
            USR_STK_TOP,
        ),
        forall|i: int|
            0 <= i < crate::consts::N_REGS - 1 ==> #[trigger] b.thd_ctx->0.uctx@.r[i] == 0,
{
}

/// A new pipe is open at two descriptors that were free, the one to read from first; the
/// others stay as they were.
pub proof fn law_pipe_opens_two_ends(a: Task, n: usize, rd: usize, wr: usize, b: Task, fd: usize)
    requires
        piped(a, n, rd, wr, b),
    ensures
        rd < wr,
        !a.files@.contains_key(rd) && !a.files@.contains_key(wr),
        b.files@.contains_key(rd) && b.files@[rd] is Pipe,
        b.files@.contains_key(wr) && b.files@[wr] is Pipe,
        b.files@[rd]->Pipe_0.dir is Rd && b.files@[wr]->Pipe_0.dir is Wr,
        b.files@[rd]->Pipe_0.data == n && b.files@[wr]->Pipe_0.data == n,
        fd < wr && fd != rd ==> a.files@.contains_key(fd),
        fd != rd && fd != wr ==> b.files@.contains_key(fd) == a.files@.contains_key(fd)
            && b.files@[fd] == a.files@[fd],
        b.info == a.info && b.sig_queue == a.sig_queue && b.parent == a.parent,
{
    let one = a.files@.insert(rd, FLike::Pipe(PipeNode { data: n, dir: PipeDir::Rd }));
    if wr < rd {
        assert(a.files@.dom().contains(wr));
        assert(one.dom().contains(wr));
    }
    if fd < wr && fd != rd {
        assert(one.dom().contains(fd));
    }
}

/// A fork adds one task under the next number: a child of the forking task, alive, with the
/// same directory, group, blocked signals, memory and open descriptors, and with no signals
/// and no children. Every other number leads where it led.
pub proof fn law_fork_adds_one_child(a: Kernel, p: usize, b: Kernel, fd: usize, n: usize)
    requires
        p < a.tasks.tasks@.len() < usize::MAX,
        forked(a, p, b),
    ensures
        ({
            let at = a.tasks.tasks@.len() as usize;
            let (src, c) = (a.tasks.tasks@[p as int], b.tasks.tasks@[at as int]);
            &&& b.tasks.map@.contains_key(a.tasks.seq) && b.tasks.map@[a.tasks.seq] == at
            &&& c.info.id == a.tasks.seq && c.pid.0 == a.tasks.seq
            &&& c.info.status is None
            &&& c.parent == Some(p)
            &&& b.tasks.tasks@[p as int].subtasks@.len() == src.subtasks@.len() + 1
            &&& b.tasks.tasks@[p as int].subtasks@.last() == at
            &&& c.cwd@ == src.cwd@ && c.exec_path@ == src.exec_path@ && c.info.tag@ == src.info.tag@
            &&& c.pgid == src.pgid && c.sig_mask == src.sig_mask && c.vm_token == src.vm_token
            &&& c.sig_queue@.len() == 0 && c.subtasks@.len() == 0 && c.heap@.len() == 0
            &&& c.files@.contains_key(fd) == src.files@.contains_key(fd)
            &&& c.sem_ctx.arrays@ == src.sem_ctx.arrays@
            &&& c.sem_ctx.undos@.len() == 0
            &&& c.shm_ctx.ids@ == src.shm_ctx.ids@
            &&& c.exit_code == 0
            &&& n != a.tasks.seq ==> b.tasks.map@.contains_key(n) == a.tasks.map@.contains_key(n)
                && b.tasks.map@[n] == a.tasks.map@[n]
            &&& a.tasks.seq < usize::MAX ==> b.tasks.seq == a.tasks.seq + 1
        }),
        b.shared.files == a.shared.files,
        b.pool == a.pool && b.cpus == a.cpus && b.clock == a.clock && b.cache == a.cache,
{
    let at = a.tasks.tasks@.len() as usize;
    let (src, c) = (a.tasks.tasks@[p as int], b.tasks.tasks@[at as int]);
    let f = choose|f: Task| #[trigger]
        crate::process::fork::is_fork(src, p, a.tasks.seq, f) && c == (Task {
            vm_token: src.vm_token,
            ..f
        });
    assert(crate::process::fork::copied_files(src.files@, f.files@));
    assert(c.files@.dom().contains(fd) == src.files@.dom().contains(fd));
}

/// Reclaiming takes the numbers of the tasks that have ended and no others.
pub proof fn law_reclaim_takes_the_ended(tt: TaskTable, id: usize)
    requires
        tt.wf(),
    ensures
        ({
            let ids = crate::tables::in_order(tt.map@.dom()).filter(
                crate::process::table::over(tt.tasks@, tt.map@),
            );
            let left = tt.map@.remove_keys(ids.to_set());
            &&& left.contains_key(id) <==> tt.map@.contains_key(id)
                && tt.tasks@[tt.map@[id] as int].info.status is None
            &&& left.contains_key(id) ==> left[id] == tt.map@[id]
        }),
{
    let all = crate::tables::in_order(tt.map@.dom());
    let p = crate::process::table::over(tt.tasks@, tt.map@);
    crate::tables::lemma_in_order_lists(tt.map@.dom());
    crate::tables::lemma_filter_holds(all, p, id);
    assert(all.contains(id) <==> tt.map@.dom().contains(id));
    assert(all.filter(p).to_set().contains(id) <==> all.filter(p).contains(id));
}

/// What is written to the writing end of a pipe is what the reading end gives.
pub proof fn law_pipe_carries_bytes(st: Files, n: usize, bytes: Seq<u8>)
    requires
        n == st.pipes.len(),
        bytes.len() > 0,
        bytes.len() <= usize::MAX,
    ensures
        ({
            let (rd, wr) = (
                PipeNode { data: n, dir: PipeDir::Rd },
                PipeNode { data: n, dir: PipeDir::Wr },
            );
            let (w, mid) = wr.write_out(with_new_pipe(st), bytes);
            let (r, out, _post) = rd.read_out(mid, bytes.len());
            w == Ok::<usize, &'static str>(bytes.len() as usize) && r == Ok::<
                usize,
                &'static str,
            >(bytes.len() as usize) && out == bytes
        }),
{
    let st1 = with_new_pipe(st);
    let wr = PipeNode { data: n, dir: PipeDir::Wr };
    let mid = wr.write_out(st1, bytes).1;
    assert(st1.pipes[n as int] == Pipe::fresh());
    assert(Seq::<u8>::empty() + bytes =~= bytes);
    assert(mid.pipes[n as int].buf =~= bytes);
    assert(bytes.take(bytes.len() as int) =~= bytes);
}

/// The first task is a new one under the name of the first program: it has its number as its
/// only thread and a stack in the kernel.
pub proof fn law_first_task_is_new(t: Task, id: usize, stack: usize)
    requires
        is_first_task(t, id, stack),
    ensures
        t.info.id == id,
        t.info.tag@ == "init"@,
        t.info.status is None,
        t.threads@ == seq![id],
        t.kstk == Some(KStk(stack)),
        t.parent is None,
        t.subtasks@.len() == 0,
        t.files@ == Map::<usize, FLike>::empty(),
        t.cwd@ == "/"@,
        t.pgid == 0,
        t.sig_queue@.len() == 0,
        t.sig_mask == 0,
        t.vm_token == 0,
{
}

/// The counters are one subsystem more, with an empty root of their own type, which makes
/// items and no groups; what was registered before stays, unless it had the name.
pub proof fn law_counters_are_one_subsystem(a: Tree, b: Tree, name: Seq<char>, g: int)
    requires
        with_counters(a, b),
        a.groups.len() < usize::MAX,
        a.types.len() < usize::MAX,
    ensures
        b.subsystems.contains_key("demo"@),
        b.subsystems["demo"@] == a.groups.len(),
        b.groups.len() == a.groups.len() + 1,
        b.groups.last().children.len() == 0,
        b.groups.last().item.name == "demo"@,
        b.groups.last().item.item_type == a.types.len(),
        b.types.len() == a.types.len() + 1,
        b.types.last().name@ == "counter"@,
        b.types.last().can_make_item && !b.types.last().can_make_group && !b.types.last().can_link,
        b.types.last().attrs@.len() == 1,
        b.types.last().attrs@[0].name@ == "value"@,
        b.types.last().attrs@[0].mode == 0o644,
        name != "demo"@ ==> (b.subsystems.contains_key(name) <==> a.subsystems.contains_key(name)),
        name != "demo"@ && a.subsystems.contains_key(name) ==> b.subsystems[name]
            == a.subsystems[name],
        0 <= g < a.groups.len() ==> b.groups[g] == a.groups[g],
        b.items == a.items,
{
}

/// A number that leads to no task is reaped without a trace; one that does is found no more,
/// and every other still leads where it did.
pub proof fn law_reaping_by_number(
    a: TaskTable,
    sa: Shared,
    id: usize,
    b: TaskTable,
    sb: Shared,
    other: usize,
)
    requires
        was_reaped(a, sa, id, b, sb),
    ensures
        !a.map@.contains_key(id) ==> b == a && sb == sa,
        !b.map@.contains_key(id),
        other != id ==> (b.map@.contains_key(other) <==> a.map@.contains_key(other)),
        other != id && a.map@.contains_key(other) ==> b.map@[other] == a.map@[other],
        b.seq == a.seq && b.root == a.root,
        b.tasks@.len() == a.tasks@.len(),
{
}

/// A program that is started in a task begins at its entry with nothing left of what ran
/// before: no address to clear, no signal held back by the thread, no flags.
pub proof fn law_exec_starts_afresh(
    a: Task,
    path: Seq<char>,
    args: Seq<String>,
    envs: Seq<String>,
    b: Task,
)
    requires
        restarted(a, path, args, envs, b),
    ensures
        b.thd_ctx is Some,
        b.thd_ctx->0.clear_tid == 0,
        b.thd_ctx->0.smask == 0,
        b.thd_ctx->0.uctx@.flags == 0,
        b.thd_ctx->0.uctx@.ip == 0x0040_0000,
        b.heap == a.heap && b.futexes == a.futexes && b.ep_inst == a.ep_inst,
{
}

/// A fork takes a reference to every array and segment that the forked task has, and leaves
/// the others of the tables as they are.
pub proof fn law_fork_keeps_what_is_shared(a: Kernel, p: usize, b: Kernel, x: int)
    requires
        p < a.tasks.tasks@.len() < usize::MAX,
        forked(a, p, b),
        0 <= x < a.tasks.tasks@.len(),
    ensures
        x != p ==> b.tasks.tasks@[x] == a.tasks.tasks@[x],
        b.tasks.tasks@[p as int].info == a.tasks.tasks@[p as int].info,
        b.tasks.tasks@[p as int].files == a.tasks.tasks@[p as int].files,
        b.tasks.tasks@.len() == a.tasks.tasks@.len() + 1,
        b.tasks.root == a.tasks.root,
        b.shared.sems@.items == a.shared.sems@.items,
        b.shared.shms@.items == a.shared.shms@.items,
        b.shared.sems@.keys == a.shared.sems@.keys,
        b.shared.shms@.keys == a.shared.shms@.keys,
        b.configfs == a.configfs && b.mnt == a.mnt && b.tty_buf == a.tty_buf,
{
}

/// Tasks are taken out one after the other: none where no number is given, and one where one
/// is.
pub proof fn law_reaping_goes_by_the_list(
    a: Seq<Task>,
    sa: Shared,
    map: Map<usize, usize>,
    id: usize,
    root: Option<usize>,
    b: Seq<Task>,
    sb: Shared,
)
    ensures
        reaped_in_turn(a, sa, map, Seq::empty(), root, b, sb) ==> b == a && sb == sa,
        reaped_in_turn(a, sa, map, seq![id], root, b, sb) ==> crate::process::table::reaped_in(
            a,
            map[id],
            root,
            b,
        ) && crate::process::table::given_up(a[map[id] as int], sa, sb),
{
    if reaped_in_turn(a, sa, map, seq![id], root, b, sb) {
        let (m, s) = choose|m: Seq<Task>, s: Shared|
            reaped_in_turn(a, sa, map, seq![id].drop_last(), root, m, s) && #[trigger] one_reaped(
                m,
                s,
                map[seq![id].last()],
                root,
                b,
                sb,
            );
        assert(seq![id].drop_last() =~= Seq::<usize>::empty());
        assert(m == a && s == sa);
    }
}

} // verus!
