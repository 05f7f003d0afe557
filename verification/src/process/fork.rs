//! How tasks come from other tasks and from programs.

use std::collections::BTreeMap;

use vstd::prelude::*;

use crate::consts::{USR_STK_OFF, USR_STK_SZ};
use crate::fs::configfs::Tree;
use crate::fs::files::{FHandle, FdOpt, FdState, FileStore, Files};
use crate::fs::flike::FLike;
use crate::process::init::ProcInit;
use crate::process::table::{Shared, TaskTable};
use crate::process::task::{Task, ThdCtx};
use crate::process::Pid;
use crate::tables::ordered_keys;

verus! {

broadcast use vstd::std_specs::btree::group_btree_axioms;

/// Each descriptor of one table stands for the same thing in the other.
pub open spec fn copied_files(a: Map<usize, FLike>, b: Map<usize, FLike>) -> bool {
    &&& b.dom() == a.dom()
    &&& forall|fd: usize| #[trigger] a.contains_key(fd) ==> a[fd].duplicated(false, b[fd])
}

/// `child` is what a fork of `src`, which stands at `at`, gives under the number `id`: its
/// tag, directory, program, descriptors, group, semaphores, shared memory and blocked
/// signals, with nothing to undo and nothing pending.
pub open spec fn is_fork(src: Task, at: usize, id: usize, child: Task) -> bool {
    &&& child.info.id == id
    &&& child.info.tag@ == src.info.tag@
    &&& child.info.status is None
    &&& child.info.fds@.len() == 0
    &&& child.parent == Some(at)
    &&& child.subtasks@.len() == 0
    &&& copied_files(src.files@, child.files@)
    &&& child.cwd@ == src.cwd@
    &&& child.exec_path@ == src.exec_path@
    &&& child.futexes@ == Map::<usize, usize>::empty()
    &&& child.buckets@.len() == 0
    &&& child.sem_ctx.arrays@ == src.sem_ctx.arrays@
    &&& child.sem_ctx.undos@ == Map::<usize, BTreeMap<usize, i16>>::empty()
    &&& child.shm_ctx.ids@ == src.shm_ctx.ids@
    &&& child.pid == Pid(id)
    &&& child.pgid == src.pgid
    &&& child.threads@ == seq![id]
    &&& child.ev@ == crate::sync::Bus::empty()
    &&& child.exit_code == 0
    &&& child.sig_queue@.len() == 0
    &&& child.sig_mask == src.sig_mask
    &&& child.ep_inst@ == Map::<usize, crate::fs::epoll::EpInst>::empty()
    &&& child.kstk is None
    &&& child.thd_ctx is Some && child.thd_ctx->0.is_blank()
    &&& child.vm_token == 0
    &&& child.heap@.len() == 0
}

/// `post` is a task with one child more.
pub open spec fn bore(t: Task, child: usize, post: Task) -> bool {
    &&& post == (Task { subtasks: post.subtasks, ..t })
    &&& post.subtasks@ == t.subtasks@.push(child)
}

/// The context of a new thread: result zero, its own stack and thread-local base, and the
/// signals blocked that its process blocks.
pub open spec fn thread_ctx(
    c: ThdCtx,
    stack_top: u64,
    tls: u64,
    clear_tid: usize,
    smask: u64,
) -> bool {
    let zero = crate::trap::Regs {
        r: Seq::new(crate::consts::N_REGS as nat, |i: int| 0u64),
        ip: 0,
        flags: 0,
    };
    &&& c.uctx@ == zero.with_reg(0, 0).with_reg(crate::consts::N_REGS - 1, stack_top).with_reg(
        crate::consts::N_REGS - 2,
        tls,
    )
    &&& c.clear_tid == clear_tid
    &&& c.smask == smask
}

/// The context of a program that is about to start: only the stack pointer is set.
pub open spec fn start_ctx(c: ThdCtx, sp: u64) -> bool {
    let zero = crate::trap::Regs {
        r: Seq::new(crate::consts::N_REGS as nat, |i: int| 0u64),
        ip: 0,
        flags: 0,
    };
    &&& c.uctx@ == zero.with_reg(crate::consts::N_REGS - 1, sp)
    &&& c.clear_tid == 0
    &&& c.smask == 0
}

/// How a descriptor may be used: read only.
pub open spec fn read_only() -> FdOpt {
    FdOpt { rd: true, wr: false, ap: false, nb: false }
}

/// How a descriptor may be used: write only.
pub open spec fn write_only() -> FdOpt {
    FdOpt { rd: false, wr: true, ap: false, nb: false }
}

/// The three descriptors that a program starts with: input from one file of the terminal,
/// output and errors to another.
pub open spec fn standard_files(files: Map<usize, FLike>, st: Files) -> bool {
    &&& files.dom() =~= set![0usize, 1usize, 2usize]
    &&& files[0] is File && files[1] is File
    &&& files[0]->File_0.path@ == "/dev/tty"@
    &&& files[1]->File_0.path@ == "/dev/tty"@
    &&& files[0]->File_0.data == st.data.len()
    &&& files[0]->File_0.desc == st.descs.len()
    &&& files[1]->File_0.data == st.data.len() + 1
    &&& files[1]->File_0.desc == st.descs.len() + 1
    &&& !files[0]->File_0.pipe && !files[0]->File_0.cloexec
    &&& !files[1]->File_0.pipe && !files[1]->File_0.cloexec
    &&& files[2] == files[1]
}

/// What is shared after the files of the terminal were opened.
pub open spec fn with_terminal(st: Files) -> Files {
    Files {
        data: st.data.push(Seq::empty()).push(Seq::empty()),
        descs: st.descs.push(FdState::fresh(read_only())).push(FdState::fresh(write_only())),
        ..st
    }
}

/// The top of a program's stack.
pub const USR_STK_TOP: usize = 0x8000_0000;

/// `t` is a task that is about to run a program from a path.
pub open spec fn is_program(
    t: Task,
    id: usize,
    path: Seq<char>,
    args: Seq<String>,
    envs: Seq<String>,
    st: Files,
) -> bool {
    &&& t.info.id == id
    &&& t.info.tag@ == path
    &&& t.info.status is None
    &&& t.info.fds@.len() == 0
    &&& t.parent is None
    &&& t.subtasks@.len() == 0
    &&& standard_files(t.files@, st)
    &&& t.cwd@ == "/"@
    &&& t.exec_path@ == path
    &&& t.futexes@ == Map::<usize, usize>::empty()
    &&& t.buckets@.len() == 0
    &&& t.sem_ctx.arrays@ == Map::<usize, usize>::empty()
    &&& t.sem_ctx.undos@ == Map::<usize, BTreeMap<usize, i16>>::empty()
    &&& t.shm_ctx.ids@ == Map::<usize, crate::ipc::ShmTag>::empty()
    &&& t.pid == Pid(id)
    &&& t.pgid == 0
    &&& t.threads@ == seq![id]
    &&& t.ev@ == crate::sync::Bus::empty()
    &&& t.exit_code == 0
    &&& t.sig_queue@.len() == 0
    &&& t.sig_mask == 0
    &&& t.ep_inst@ == Map::<usize, crate::fs::epoll::EpInst>::empty()
    &&& t.kstk is None
    &&& t.thd_ctx is Some && start_ctx(
        t.thd_ctx->0,
        crate::process::init::stack_for(args, envs, 0, USR_STK_TOP) as u64,
    )
    &&& t.vm_token == 0
    &&& t.heap@.len() == 0
}

/// Copies a descriptor table; each entry is another handle of the same thing.
fn copy_files(files: &BTreeMap<usize, FLike>) -> (r: BTreeMap<usize, FLike>)
    ensures
        copied_files(files@, r@),
{
    let fds = ordered_keys(files);
    let mut out: BTreeMap<usize, FLike> = BTreeMap::new();
    let mut n: usize = 0;
    while n < fds.len()
        invariant
            crate::tables::is_listing(fds@, files@.dom()),
            n <= fds@.len(),
            forall|k: usize| #[trigger]
                out@.contains_key(k) <==> fds@.take(n as int).contains(k),
            forall|k: usize| #[trigger]
                out@.contains_key(k) ==> files@[k].duplicated(false, out@[k]),
        decreases fds@.len() - n,
    {
        let fd: usize = fds[n];
        proof {
            assert(fds@.contains(fd));
            assert(fds@.take(n + 1) =~= fds@.take(n as int).push(fd));
            assert forall|k: usize| #[trigger] fds@.take(n + 1).contains(k) <==> fds@.take(
                n as int,
            ).contains(k) || k == fd by {
                crate::tables::lemma_push_contains(fds@.take(n as int), fd, k);
            }
        }
        let d = files.get(&fd).unwrap().dup(false);
        out.insert(fd, d);
        n += 1;
    }
    proof {
        assert(fds@.take(n as int) =~= fds@);
        assert forall|k: usize| out@.contains_key(k) <==> files@.contains_key(k) by {
            assert(fds@.contains(k) <==> files@.dom().contains(k));
        }
        assert(out@.dom() =~= files@.dom());
    }
    out
}

/// What a fork of a task gives, with its place in the table and its number still open.
fn fork_of(src: &Task, at: usize, id: usize, sh: &mut Shared) -> (r: Task)
    requires
        old(sh).wf(),
        old(sh).sems@.reached_by(src.sem_ctx.arrays@),
        old(sh).sems@.room_for(src.sem_ctx.arrays@),
        old(sh).shms@.reached_by(crate::ipc::segments(src.shm_ctx.ids@)),
        old(sh).shms@.room_for(crate::ipc::segments(src.shm_ctx.ids@)),
    ensures
        final(sh).wf(),
        is_fork(*src, at, id, r),
        final(sh).files == old(sh).files,
        final(sh).sems@ == old(sh).sems@.kept_all(src.sem_ctx.arrays@),
        final(sh).shms@ == old(sh).shms@.kept_all(crate::ipc::segments(src.shm_ctx.ids@)),
{
    let mut t = Task::make(id, src.info.tag.as_str());
    t.cwd = src.cwd.clone();
    t.exec_path = src.exec_path.clone();
    t.files = copy_files(&src.files);
    t.pgid = src.pgid;
    t.sem_ctx = src.sem_ctx.inherit(&mut sh.sems);
    t.shm_ctx = src.shm_ctx.inherit(&mut sh.shms);
    t.sig_mask = src.sig_mask;
    t.parent = Some(at);
    t.pid = Pid(id);
    t.threads.push(id);
    assert(t.threads@ =~= seq![id]);
    t
}

impl TaskTable {
    /// Makes a child of a task under the next number.
    pub fn fork_task(&mut self, src: usize, sh: &mut Shared) -> (r: usize)
        requires
            old(self).wf(),
            old(sh).wf(),
            src < old(self).tasks@.len(),
            old(sh).sems@.reached_by(old(self).tasks@[src as int].sem_ctx.arrays@),
            old(sh).sems@.room_for(old(self).tasks@[src as int].sem_ctx.arrays@),
            old(sh).shms@.reached_by(
                crate::ipc::segments(old(self).tasks@[src as int].shm_ctx.ids@),
            ),
            old(sh).shms@.room_for(
                crate::ipc::segments(old(self).tasks@[src as int].shm_ctx.ids@),
            ),
        ensures
            final(self).wf(),
            final(sh).wf(),
            r == old(self).tasks@.len(),
            final(self).tasks@.len() == old(self).tasks@.len() + 1,
            is_fork(
                old(self).tasks@[src as int],
                src,
                old(self).seq,
                final(self).tasks@[r as int],
            ),
            bore(old(self).tasks@[src as int], r, final(self).tasks@[src as int]),
            forall|x: int|
                0 <= x < old(self).tasks@.len() && x != src ==> #[trigger] final(self).tasks@[x]
                    == old(self).tasks@[x],
            final(self).map@ == old(self).map@.insert(old(self).seq, r),
            final(self).seq == old(self).seq.wrapping_add(1),
            final(self).root == old(self).root,
            final(sh).files == old(sh).files,
            final(sh).sems@ == old(sh).sems@.kept_all(
                old(self).tasks@[src as int].sem_ctx.arrays@,
            ),
            final(sh).shms@ == old(sh).shms@.kept_all(
                crate::ipc::segments(old(self).tasks@[src as int].shm_ctx.ids@),
            ),
    {
        let id: usize = self.seq;
        let child = fork_of(&self.tasks[src], src, id, sh);
        let at: usize = self.enter(id, child);
        let ghost entered = self.tasks@;
        self.tasks[src].link_child(at);
        proof {
            assert forall|x: int| 0 <= x < self.tasks@.len() implies crate::process::table::links_ok(
                #[trigger] self.tasks@[x],
                self.tasks@.len(),
            ) by {
                assert(crate::process::table::links_ok(entered[x], entered.len()));
            }
        }
        at
    }

    /// Makes a thread of a task under the next number, with its own stack and thread-local
    /// base in the same memory.
    pub fn clone_thread(&mut self, src: usize, stack_top: u64, tls: u64, clear_tid: usize) -> (r:
        usize)
        requires
            old(self).wf(),
            src < old(self).tasks@.len(),
        ensures
            final(self).wf(),
            r == old(self).tasks@.len(),
            final(self).tasks@.len() == old(self).tasks@.len() + 1,
            ({
                let (s, t) = (old(self).tasks@[src as int], final(self).tasks@[r as int]);
                exists|blank: Task| #[trigger]
                    blank.is_new(old(self).seq, s.info.tag@) && t == (Task {
                        thd_ctx: t.thd_ctx,
                        vm_token: s.vm_token,
                        ..blank
                    }) && t.thd_ctx is Some && thread_ctx(
                        t.thd_ctx->0,
                        stack_top,
                        tls,
                        clear_tid,
                        s.sig_mask,
                    )
            }),
            final(self).tasks@[src as int].threads@ == old(self).tasks@[src as int].threads@.push(
                old(self).seq,
            ),
            final(self).tasks@[src as int] == (Task {
                threads: final(self).tasks@[src as int].threads,
                ..old(self).tasks@[src as int]
            }),
            forall|x: int|
                0 <= x < old(self).tasks@.len() && x != src ==> #[trigger] final(self).tasks@[x]
                    == old(self).tasks@[x],
            final(self).map@ == old(self).map@.insert(old(self).seq, r),
            final(self).seq == old(self).seq.wrapping_add(1),
            final(self).root == old(self).root,
    {
        let id: usize = self.seq;
        let mut t = Task::make(id, self.tasks[src].info.tag.as_str());
        let ghost blank = t;
        let mut ctx = ThdCtx::default();
        ctx.uctx.set_ret(0);
        ctx.uctx.set_sp(stack_top);
        ctx.uctx.set_tls(tls);
        ctx.clear_tid = clear_tid;
        ctx.smask = self.tasks[src].sig_mask;
        t.thd_ctx = Some(ctx);
        t.vm_token = self.tasks[src].vm_token;
        let at: usize = self.enter(id, t);
        let ghost entered = self.tasks@;
        self.tasks[src].threads.push(id);
        proof {
            assert(blank.is_new(old(self).seq, old(self).tasks@[src as int].info.tag@));
            assert forall|x: int| 0 <= x < self.tasks@.len() implies crate::process::table::links_ok(
                #[trigger] self.tasks@[x],
                self.tasks@.len(),
            ) by {
                assert(crate::process::table::links_ok(entered[x], entered.len()));
            }
        }
        at
    }

    /// Makes a task under the next number that is about to run a program: its stack holds the
    /// arguments and the environment, and the terminal is open for input, output and errors.
    pub fn new_user_task(
        &mut self,
        path: &str,
        args: Vec<String>,
        envs: Vec<String>,
        st: &mut FileStore,
    ) -> (r: usize)
        requires
            old(self).wf(),
            crate::process::init::stack_fits(args@, envs@, 0, USR_STK_TOP),
        ensures
            final(self).wf(),
            r == old(self).tasks@.len(),
            final(self).tasks@.len() == old(self).tasks@.len() + 1,
            final(self).tasks@.take(r as int) == old(self).tasks@,
            is_program(
                final(self).tasks@[r as int],
                old(self).seq,
                path@,
                args@,
                envs@,
                old(st)@,
            ),
            final(self).map@ == old(self).map@.insert(old(self).seq, r),
            final(self).seq == old(self).seq.wrapping_add(1),
            final(self).root == old(self).root,
            final(st)@ == with_terminal(old(st)@),
    {
        let id: usize = self.seq;
        let mut t = Task::make(id, path);
        t.exec_path = path.to_owned();
        let init = ProcInit { args, envs, auxv: BTreeMap::new() };
        let sp: usize = init.push_at(USR_STK_OFF + USR_STK_SZ);
        let mut ctx = ThdCtx::default();
        ctx.uctx.set_sp(sp as u64);
        t.thd_ctx = Some(ctx);
        let fd0 = FHandle::new(
            st,
            "/dev/tty",
            FdOpt { rd: true, wr: false, ap: false, nb: false },
            false,
            false,
        );
        let fd1 = FHandle::new(
            st,
            "/dev/tty",
            FdOpt { rd: false, wr: true, ap: false, nb: false },
            false,
            false,
        );
        let fd2 = fd1.dup(false);
        t.files.insert(0, FLike::File(fd0));
        t.files.insert(1, FLike::File(fd1));
        t.files.insert(2, FLike::File(fd2));
        t.pid = Pid(id);
        t.threads.push(id);
        proof {
            assert(t.threads@ =~= seq![id]);
            assert(t.files@.dom() =~= set![0usize, 1usize, 2usize]);
            assert(st@ =~= with_terminal(old(st)@));
        }
        let at: usize = self.enter(id, t);
        assert(self.tasks@.take(at as int) =~= old(self).tasks@);
        at
    }
}

/// A child can use everything that its parent can: what the parent has open and attached is
/// there for the child too.
pub proof fn law_child_is_backed(
    src: Task,
    at: usize,
    id: usize,
    child: Task,
    sh: Shared,
    cf: Tree,
)
    requires
        is_fork(src, at, id, child),
        crate::process::table::backed(src, sh.files@, cf, sh.sems@, sh.shms@),
    ensures
        crate::process::table::backed(child, sh.files@, cf, sh.sems@, sh.shms@),
{
    assert forall|fd: usize| #[trigger] child.files@.contains_key(fd) implies child.files@[fd].wf(
        sh.files@,
        cf,
    ) by {
        assert(src.files@.contains_key(fd));
        assert(src.files@[fd].duplicated(false, child.files@[fd]));
    }
}

/// A file that parent and child have open has one position: a read or write through one
/// moves it for the other.
pub proof fn law_child_shares_open_files(src: Task, at: usize, id: usize, child: Task, fd: usize)
    requires
        is_fork(src, at, id, child),
        src.files@.contains_key(fd),
        src.files@[fd] is File,
    ensures
        child.files@.contains_key(fd),
        child.files@[fd] is File,
        child.files@[fd]->File_0.data == src.files@[fd]->File_0.data,
        child.files@[fd]->File_0.desc == src.files@[fd]->File_0.desc,
{
    assert(child.files@.dom().contains(fd));
}

/// A new thread starts with a stack and a thread area of its own, its first register at
/// zero, and the mask of signals of the thread it was made from.
pub proof fn law_thread_starts_on_its_stack(
    c: ThdCtx,
    stack_top: u64,
    tls: u64,
    clear_tid: usize,
    smask: u64,
)
    requires
        thread_ctx(c, stack_top, tls, clear_tid, smask),
    ensures
        c.uctx@.r.len() == crate::consts::N_REGS,
        c.uctx@.r[crate::consts::N_REGS - 1] == stack_top,
        c.uctx@.r[crate::consts::N_REGS - 2] == tls,
        forall|i: int| 0 <= i < crate::consts::N_REGS - 2 ==> #[trigger] c.uctx@.r[i] == 0,
        c.uctx@.ip == 0,
        c.uctx@.flags == 0,
        c.clear_tid == clear_tid,
        c.smask == smask,
{
}

/// A program starts with its stack pointer set and every other register at zero.
pub proof fn law_program_starts_on_its_stack(c: ThdCtx, sp: u64)
    requires
        start_ctx(c, sp),
    ensures
        c.uctx@.r.len() == crate::consts::N_REGS,
        c.uctx@.r[crate::consts::N_REGS - 1] == sp,
        forall|i: int| 0 <= i < crate::consts::N_REGS - 1 ==> #[trigger] c.uctx@.r[i] == 0,
        c.uctx@.ip == 0,
        c.uctx@.flags == 0,
        c.clear_tid == 0,
        c.smask == 0,
{
}

/// A program starts with the terminal open: descriptor 0 to be read, 1 and 2 to be written,
/// the two of them one and the same, and no descriptor else.
pub proof fn law_program_has_the_terminal_open(
    files: Map<usize, FLike>,
    st: Files,
    fd: usize,
)
    requires
        standard_files(files, st),
    ensures
        files.contains_key(fd) <==> fd <= 2,
        files[0] is File,
        files[1] is File,
        files[2] == files[1],
        fd <= 2 ==> files[fd]->File_0.path@ == "/dev/tty"@ && !files[fd]->File_0.pipe
            && !files[fd]->File_0.cloexec,
        files[0]->File_0.data != files[1]->File_0.data,
        files[0]->File_0.desc != files[1]->File_0.desc,
        ({
            let post = with_terminal(st);
            let input = post.descs[files[0]->File_0.desc as int];
            let output = post.descs[files[1]->File_0.desc as int];
            &&& post.data.len() == st.data.len() + 2
            &&& post.descs.len() == st.descs.len() + 2
            &&& post.data[files[0]->File_0.data as int].len() == 0
            &&& post.data[files[1]->File_0.data as int].len() == 0
            &&& input.opt.rd && !input.opt.wr && input.off == 0
            &&& output.opt.wr && !output.opt.rd && output.off == 0
            &&& !input.opt.ap && !input.opt.nb && !output.opt.ap && !output.opt.nb
            &&& forall|d: int| 0 <= d < st.data.len() ==> #[trigger] post.data[d] == st.data[d]
            &&& forall|d: int| 0 <= d < st.descs.len() ==> #[trigger] post.descs[d] == st.descs[d]
        }),
{
    assert(files.dom().contains(fd) <==> fd == 0 || fd == 1 || fd == 2);
}

/// A forked task is a new one: it has its own number as its process and its only thread,
/// its parent is the task it was forked from, and nothing waits for it or is pending; the
/// directory, the group and the mask of signals are its parent's.
pub proof fn law_fork_starts_anew(src: Task, at: usize, id: usize, child: Task, fd: usize)
    requires
        is_fork(src, at, id, child),
    ensures
        child.info.id == id,
        child.pid == Pid(id),
        child.threads@ == seq![id],
        child.parent == Some(at),
        child.subtasks@.len() == 0,
        child.info.status is None,
        child.exit_code == 0,
        child.sig_queue@.len() == 0,
        child.pgid == src.pgid,
        child.sig_mask == src.sig_mask,
        child.cwd@ == src.cwd@,
        child.exec_path@ == src.exec_path@,
        child.info.tag@ == src.info.tag@,
        child.files@.contains_key(fd) <==> src.files@.contains_key(fd),
{
    assert(child.files@.dom().contains(fd) <==> src.files@.dom().contains(fd));
}

/// A task that bore a child has that child as its last and is otherwise as it was.
pub proof fn law_child_comes_last(t: Task, child: usize, post: Task)
    requires
        bore(t, child, post),
    ensures
        post.subtasks@.len() == t.subtasks@.len() + 1,
        post.subtasks@.last() == child,
        forall|i: int| 0 <= i < t.subtasks@.len() ==> #[trigger] post.subtasks@[i] == t.subtasks@[i],
        post.info == t.info,
        post.files == t.files,
        post.pid == t.pid,
        post.parent == t.parent,
        post.threads == t.threads,
{
}

/// A program is nobody's child, is named after its path, and starts in the root directory,
/// on a stack that holds its arguments, with no signal held back.
pub proof fn law_program_is_named_after_its_path(
    t: Task,
    id: usize,
    path: Seq<char>,
    args: Seq<String>,
    envs: Seq<String>,
    st: Files,
)
    requires
        is_program(t, id, path, args, envs, st),
    ensures
        t.info.id == id,
        t.pid == Pid(id),
        t.threads@ == seq![id],
        t.parent is None,
        t.info.tag@ == path,
        t.exec_path@ == path,
        t.cwd@ == "/"@,
        t.pgid == 0,
        t.sig_mask == 0,
        t.sig_queue@.len() == 0,
        t.exit_code == 0,
        t.info.status is None,
        t.thd_ctx is Some,
        t.thd_ctx->0.uctx@.r[crate::consts::N_REGS - 1] == crate::process::init::stack_for(
            args,
            envs,
            0,
            0x8000_0000,
        ) as u64,
{
}

/// A program starts with nothing attached and nothing pending.
pub proof fn law_program_has_nothing_pending(
    t: Task,
    id: usize,
    path: Seq<char>,
    args: Seq<String>,
    envs: Seq<String>,
    st: Files,
)
    requires
        is_program(t, id, path, args, envs, st),
    ensures
        t.info.fds@.len() == 0 && t.subtasks@.len() == 0,
        t.futexes@.len() == 0 && t.buckets@.len() == 0 && t.ep_inst@.len() == 0,
        t.sem_ctx.arrays@.len() == 0 && t.sem_ctx.undos@.len() == 0 && t.shm_ctx.ids@.len() == 0,
        t.ev@ == crate::sync::Bus::empty(),
        t.kstk is None && t.vm_token == 0 && t.heap@.len() == 0,
{
}

/// A forked task shares nothing that is to be undone or waited for, has no memory and no
/// stack of its own yet, and starts with a blank context.
pub proof fn law_fork_has_nothing_pending(src: Task, at: usize, id: usize, child: Task)
    requires
        is_fork(src, at, id, child),
    ensures
        child.info.fds@.len() == 0,
        child.futexes@.len() == 0 && child.buckets@.len() == 0 && child.ep_inst@.len() == 0,
        child.sem_ctx.arrays@ == src.sem_ctx.arrays@,
        child.sem_ctx.undos@.len() == 0,
        child.shm_ctx.ids@ == src.shm_ctx.ids@,
        child.ev@ == crate::sync::Bus::empty(),
        child.kstk is None && child.vm_token == 0 && child.heap@.len() == 0,
        child.thd_ctx is Some && child.thd_ctx->0.clear_tid == 0 && child.thd_ctx->0.smask == 0,
{
}

} // verus!
