//! A process, or a thread of one.

use std::collections::{BTreeMap, VecDeque};

use vstd::prelude::*;

use crate::fs::epoll::EpInst;
use crate::fs::files::{FileStore, Files};
use crate::fs::flike::FLike;
use crate::ipc::{SemCtx, SemStore, ShmCtx, ShmStore, ShmTag};
use crate::memory::slab::KStk;
use crate::process::{Pgid, Pid, Tid};
use crate::sync::{EvBus, EvFlag, FutexBucket};
use crate::tables::{first_free, ordered_keys};
use crate::text::to_decimal;
use crate::trap::Context;

verus! {

broadcast use vstd::std_specs::btree::group_btree_axioms;

/// The name of a task: its number and its tag; its status once it has ended.
#[derive(Clone, Debug)]
pub struct TaskInfo {
    pub id: usize,
    pub tag: String,
    pub status: Option<i32>,
    pub fds: Vec<String>,
}

/// Where a thread goes on: its registers, the address to clear when it ends, and the
/// signals it blocks.
#[derive(Clone, Copy)]
pub struct ThdCtx {
    pub uctx: Context,
    pub clear_tid: usize,
    pub smask: u64,
}

impl ThdCtx {
    /// The context has registers of zero, nothing to clear and blocks no signal.
    pub open spec fn is_blank(self) -> bool {
        &&& self.uctx@ == crate::trap::Regs {
            r: Seq::new(crate::consts::N_REGS as nat, |i: int| 0u64),
            ip: 0,
            flags: 0,
        }
        &&& self.clear_tid == 0
        &&& self.smask == 0
    }
}

impl Default for ThdCtx {
    fn default() -> (r: Self)
        ensures
            r.is_blank(),
    {
        ThdCtx { uctx: Context::new(), clear_tid: 0, smask: 0 }
    }
}

/// A task. Other tasks are named by their place in the table.
pub struct Task {
    pub info: TaskInfo,
    pub parent: Option<usize>,
    pub subtasks: Vec<usize>,
    pub files: BTreeMap<usize, FLike>,
    pub cwd: String,
    pub exec_path: String,
    pub futexes: BTreeMap<usize, usize>,
    pub buckets: Vec<FutexBucket>,
    pub sem_ctx: SemCtx,
    pub shm_ctx: ShmCtx,
    pub pid: Pid,
    pub pgid: Pgid,
    pub threads: Vec<Tid>,
    pub ev: EvBus,
    pub exit_code: usize,
    pub sig_queue: VecDeque<(i32, isize)>,
    pub sig_mask: u64,
    pub ep_inst: BTreeMap<usize, EpInst>,
    pub kstk: Option<KStk>,
    pub thd_ctx: Option<ThdCtx>,
    pub vm_token: usize,
    /// The addresses of the frames that the task took for its break, the highest page last.
    pub heap: Vec<usize>,
}

/// Every pipe among the descriptors is there.
pub open spec fn pipes_ok(files: Map<usize, FLike>, st: Files) -> bool {
    forall|fd: usize| #[trigger]
        files.contains_key(fd) && files[fd] is Pipe ==> files[fd]->Pipe_0.wf(st)
}

/// What is shared once the descriptors `fds` are dropped one after the other.
pub open spec fn dropped_in_turn(files: Map<usize, FLike>, fds: Seq<usize>, st: Files) -> Files
    decreases fds.len(),
{
    if fds.len() == 0 {
        st
    } else {
        files[fds.last()].dropped_from(dropped_in_turn(files, fds.drop_last(), st))
    }
}

/// What is shared once all descriptors are dropped.
pub open spec fn all_dropped(files: Map<usize, FLike>, st: Files) -> Files {
    dropped_in_turn(files, crate::tables::in_order(files.dom()), st)
}

/// Dropping a descriptor takes nothing away that others name.
pub proof fn lemma_dropped_keeps_sizes(fl: FLike, st: Files)
    requires
        fl is Pipe ==> fl->Pipe_0.wf(st),
    ensures
        fl.dropped_from(st).data.len() == st.data.len(),
        fl.dropped_from(st).descs == st.descs,
        fl.dropped_from(st).pipes.len() == st.pipes.len(),
        fl.dropped_from(st).sets == st.sets,
{
}

/// Dropping descriptors takes nothing away that others name.
pub proof fn lemma_turn_keeps_sizes(files: Map<usize, FLike>, fds: Seq<usize>, st: Files)
    requires
        forall|i: int|
            0 <= i < fds.len() && files[#[trigger] fds[i]] is Pipe
                ==> files[fds[i]]->Pipe_0.wf(st),
    ensures
        dropped_in_turn(files, fds, st).data.len() == st.data.len(),
        dropped_in_turn(files, fds, st).descs == st.descs,
        dropped_in_turn(files, fds, st).pipes.len() == st.pipes.len(),
        dropped_in_turn(files, fds, st).sets == st.sets,
    decreases fds.len(),
{
    if fds.len() > 0 {
        lemma_turn_keeps_sizes(files, fds.drop_last(), st);
    }
}

impl Task {
    /// The task has nothing open and nothing attached.
    pub open spec fn has_nothing(self) -> bool {
        &&& self.files@ == Map::<usize, FLike>::empty()
        &&& self.sem_ctx.arrays@ == Map::<usize, usize>::empty()
        &&& self.sem_ctx.undos@ == Map::<usize, BTreeMap<usize, i16>>::empty()
        &&& self.shm_ctx.ids@ == Map::<usize, ShmTag>::empty()
    }

    /// The task as it is made: nothing open, nothing pending, the directory at the root.
    pub open spec fn is_new(self, id: usize, tag: Seq<char>) -> bool {
        &&& self.info.id == id
        &&& self.info.tag@ == tag
        &&& self.info.status is None
        &&& self.info.fds@.len() == 0
        &&& self.parent is None
        &&& self.subtasks@.len() == 0
        &&& self.files@ == Map::<usize, FLike>::empty()
        &&& self.cwd@ == "/"@
        &&& self.exec_path@.len() == 0
        &&& self.futexes@ == Map::<usize, usize>::empty()
        &&& self.buckets@.len() == 0
        &&& self.sem_ctx.arrays@ == Map::<usize, usize>::empty()
        &&& self.sem_ctx.undos@ == Map::<usize, BTreeMap<usize, i16>>::empty()
        &&& self.shm_ctx.ids@ == Map::<usize, ShmTag>::empty()
        &&& self.pid == Pid(0)
        &&& self.pgid == 0
        &&& self.threads@.len() == 0
        &&& self.ev@ == crate::sync::Bus::empty()
        &&& self.exit_code == 0
        &&& self.sig_queue@.len() == 0
        &&& self.sig_mask == 0
        &&& self.ep_inst@ == Map::<usize, EpInst>::empty()
        &&& self.kstk is None
        &&& self.thd_ctx is Some && self.thd_ctx->0.is_blank()
        &&& self.vm_token == 0
        &&& self.heap@.len() == 0
    }

    /// Every futex that has a bucket has it among the buckets.
    pub open spec fn futexes_ok(self) -> bool {
        forall|a: usize| #[trigger]
            self.futexes@.contains_key(a) ==> self.futexes@[a] < self.buckets@.len()
    }

    /// The task has ended.
    pub open spec fn is_done(self) -> bool {
        self.info.status is Some
    }

    /// A queued signal that the task may take now: it is meant for any thread or for this
    /// one, and it is not blocked.
    pub open spec fn may_take(self, e: (i32, isize)) -> bool {
        &&& e.1 == -1 || e.1 as usize == self.info.id
        &&& 0 <= e.0 < 64
        &&& self.sig_mask & (1u64 << (e.0 as u64)) == 0
    }

    /// `post` is the task after a signal was sent to it `k` times.
    pub open spec fn signalled(self, k: nat, signo: i32, sender: isize, post: Task) -> bool {
        if k == 0 {
            post == self
        } else {
            &&& post == (Task { sig_queue: post.sig_queue, ev: post.ev, ..self })
            &&& post.sig_queue@ == self.sig_queue@ + Seq::new(k, |i: int| (signo, sender))
            &&& self.ev.changed(0, EvFlag::RECV_SIG, post.ev)
        }
    }

    /// `post` is the task after it ended with a code.
    pub open spec fn ended(self, code: usize, post: Task) -> bool {
        &&& post == (Task {
            files: post.files,
            ev: post.ev,
            exit_code: code,
            threads: post.threads,
            info: TaskInfo { status: Some((code % 256) as i32), ..self.info },
            ..self
        })
        &&& post.files@ == Map::<usize, FLike>::empty()
        &&& post.threads@.len() == 0
        &&& self.ev.changed(0, EvFlag::PROC_QUIT, post.ev)
    }

    /// A new task.
    pub fn make(id: usize, tag: &str) -> (r: Self)
        ensures
            r.is_new(id, tag@),
            r.futexes_ok(),
    {
        Task {
            info: TaskInfo { id, tag: tag.to_owned(), status: None, fds: Vec::new() },
            parent: None,
            subtasks: Vec::new(),
            files: BTreeMap::new(),
            cwd: "/".to_owned(),
            exec_path: String::new(),
            futexes: BTreeMap::new(),
            buckets: Vec::new(),
            sem_ctx: SemCtx::default(),
            shm_ctx: ShmCtx::default(),
            pid: Pid::new(),
            pgid: 0,
            threads: Vec::new(),
            ev: EvBus::make(),
            exit_code: 0,
            sig_queue: VecDeque::new(),
            sig_mask: 0,
            ep_inst: BTreeMap::new(),
            kstk: None,
            thd_ctx: Some(ThdCtx::default()),
            vm_token: 0,
            heap: Vec::new(),
        }
    }

    /// The number of the task.
    pub fn id(&self) -> (r: usize)
        ensures
            r == self.info.id,
    {
        self.info.id
    }

    /// The tag of the task.
    pub fn tag(&self) -> (r: String)
        ensures
            r == self.info.tag,
    {
        self.info.tag.clone()
    }

    /// Names the parent.
    pub fn link_parent(&mut self, p: usize)
        ensures
            *final(self) == (Task { parent: Some(p), ..*old(self) }),
    {
        self.parent = Some(p);
    }

    /// Adds a child.
    pub fn link_child(&mut self, c: usize)
        ensures
            final(self).subtasks@ == old(self).subtasks@.push(c),
            *final(self) == (Task { subtasks: final(self).subtasks, ..*old(self) }),
    {
        self.subtasks.push(c);
    }

    /// Whether the task has ended.
    pub fn done(&self) -> (r: bool)
        ensures
            r == self.is_done(),
    {
        self.info.status.is_some()
    }

    /// How many children are listed.
    pub fn n_children(&self) -> (r: usize)
        ensures
            r == self.subtasks@.len(),
    {
        self.subtasks.len()
    }

    // ---- Descriptors ----

    /// The least free descriptor.
    pub fn get_free_fd(&self) -> (r: usize)
        ensures
            crate::tables::is_least_free(self.files@.dom(), r),
    {
        first_free(&self.files)
    }

    /// The least free descriptor from `arg` on.
    pub fn get_free_fd_from(&self, arg: usize) -> (r: usize)
        requires
            exists|k: usize| k >= arg && !self.files@.contains_key(k),
        ensures
            arg <= r,
            !self.files@.contains_key(r),
            forall|k: usize| arg <= k < r ==> self.files@.contains_key(k),
    {
        let mut c: usize = arg;
        while self.files.contains_key(&c)
            invariant
                arg <= c,
                forall|k: usize| arg <= k < c ==> self.files@.contains_key(k),
                exists|k: usize| k >= arg && !self.files@.contains_key(k),
            decreases usize::MAX - c,
        {
            proof {
                let w = choose|k: usize| k >= arg && !self.files@.contains_key(k);
                assert(w > c);
            }
            c += 1;
        }
        c
    }

    /// Puts something under the least free descriptor.
    pub fn add_file(&mut self, fl: FLike) -> (r: usize)
        ensures
            crate::tables::is_least_free(old(self).files@.dom(), r),
            final(self).files@ == old(self).files@.insert(r, fl),
            *final(self) == (Task { files: final(self).files, ..*old(self) }),
    {
        let fd: usize = self.get_free_fd();
        self.files.insert(fd, fl);
        fd
    }

    /// Another handle of what a descriptor stands for.
    pub fn get_file(&self, fd: usize) -> (r: Option<FLike>)
        ensures
            r is Some <==> self.files@.contains_key(fd),
            r is Some ==> self.files@[fd].same(r->0),
    {
        match self.files.get(&fd) {
            Some(fl) => Some(fl.again()),
            None => None,
        }
    }

    /// The waiters on a user address; there are none where it was not asked for before.
    pub fn get_futex(&mut self, uaddr: usize) -> (r: &mut FutexBucket)
        requires
            old(self).futexes_ok(),
        ensures
            old(self).futexes@.contains_key(uaddr) ==> {
                let i = old(self).futexes@[uaddr] as int;
                &&& *r == old(self).buckets@[i]
                &&& final(self).futexes@ == old(self).futexes@
                &&& final(self).buckets@ == old(self).buckets@.update(i, *final(r))
            },
            !old(self).futexes@.contains_key(uaddr) ==> {
                &&& r.waiters@.len() == 0
                &&& final(self).futexes@ == old(self).futexes@.insert(
                    uaddr,
                    old(self).buckets@.len() as usize,
                )
                &&& final(self).buckets@ == old(self).buckets@.push(*final(r))
            },
            *final(self) == (Task {
                futexes: final(self).futexes,
                buckets: final(self).buckets,
                ..*old(self)
            }),
    {
        let known: Option<usize> = match self.futexes.get(&uaddr) {
            Some(i) => Some(*i),
            None => None,
        };
        let at: usize = match known {
            Some(i) => i,
            None => {
                let n: usize = self.buckets.len();
                self.buckets.push(FutexBucket::new());
                self.futexes.insert(uaddr, n);
                n
            },
        };
        assert(old(self).futexes@.contains_key(uaddr) ==> at < self.buckets@.len());
        &mut self.buckets[at]
    }

    /// Ends the task: drops all its descriptors, tells those who wait for its end, and keeps
    /// the code. Gives the parent, who is to be told too.
    pub fn exit_proc(&mut self, code: usize, st: &mut FileStore) -> (r: Option<usize>)
        requires
            pipes_ok(old(self).files@, old(st)@),
        ensures
            old(self).ended(code, *final(self)),
            final(st)@ == all_dropped(old(self).files@, old(st)@),
            r == old(self).parent,
    {
        self.close_all(st);
        self.ev.set(EvFlag::PROC_QUIT);
        self.exit_code = code;
        self.threads.clear();
        self.info.status = Some((code % 256) as i32);
        self.parent
    }

    fn close_all(&mut self, st: &mut FileStore)
        requires
            pipes_ok(old(self).files@, old(st)@),
        ensures
            final(self).files@ == Map::<usize, FLike>::empty(),
            *final(self) == (Task { files: final(self).files, ..*old(self) }),
            final(st)@ == all_dropped(old(self).files@, old(st)@),
    {
        let ghost was = self.files@;
        let ghost shared = st@;
        let fds = ordered_keys(&self.files);
        let mut n: usize = 0;
        while n < fds.len()
            invariant
                was == old(self).files@,
                shared == old(st)@,
                pipes_ok(was, shared),
                fds@ == crate::tables::in_order(was.dom()),
                crate::tables::is_listing(fds@, was.dom()),
                n <= fds@.len(),
                *self == (Task { files: self.files, ..*old(self) }),
                forall|k: usize|
                    #![trigger self.files@.contains_key(k)]
                    self.files@.contains_key(k) <==> was.contains_key(k) && !fds@.take(
                        n as int,
                    ).contains(k),
                forall|k: usize| #[trigger] self.files@.contains_key(k) ==> self.files@[k] == was[k],
                st@ == dropped_in_turn(was, fds@.take(n as int), shared),
            decreases fds@.len() - n,
        {
            let fd: usize = fds[n];
            let ghost part = fds@.take(n as int);
            let ghost next = fds@.take(n + 1);
            proof {
                assert(fds@.contains(fd));
                assert(was.contains_key(fd));
                assert(!part.contains(fd)) by {
                    if part.contains(fd) {
                        let i = choose|i: int| 0 <= i < part.len() && part[i] == fd;
                        assert(fds@[i] < fds@[n as int]);
                    }
                }
                assert(self.files@.contains_key(fd));
                assert(next.drop_last() =~= part);
                assert forall|i: int|
                    0 <= i < part.len() && was[#[trigger] part[i]] is Pipe implies was[part[i]]->Pipe_0.wf(
                    shared,
                ) by {
                    assert(fds@.contains(fds@[i]));
                    assert(was.contains_key(part[i]));
                }
                lemma_turn_keeps_sizes(was, part, shared);
                assert forall|k: usize| #[trigger] next.contains(k) <==> part.contains(k) || k
                    == fd by {
                    assert(next =~= part.push(fd));
                    crate::tables::lemma_push_contains(part, fd, k);
                }
            }
            match self.files.remove(&fd) {
                Some(fl) => {
                    fl.release(st);
                },
                None => {},
            }
            n += 1;
        }
        proof {
            assert(fds@.take(n as int) =~= fds@);
            assert forall|k: usize| !self.files@.contains_key(k) by {
                if was.contains_key(k) {
                    assert(fds@.contains(k));
                }
            }
            assert(self.files@ =~= Map::empty());
        }
    }

    /// Gives up all that the task has open or attached: its descriptors are dropped, what it
    /// took from semaphores goes back, and so do its references.
    pub fn let_go(&mut self, st: &mut FileStore, sems: &mut SemStore, shms: &mut ShmStore)
        requires
            pipes_ok(old(self).files@, old(st)@),
            old(sems)@.wf(),
            old(sems)@.reached_by(old(self).sem_ctx.arrays@),
            old(shms)@.wf(),
            old(shms)@.reached_by(crate::ipc::segments(old(self).shm_ctx.ids@)),
        ensures
            final(self).has_nothing(),
            *final(self) == (Task {
                files: final(self).files,
                sem_ctx: final(self).sem_ctx,
                shm_ctx: final(self).shm_ctx,
                ..*old(self)
            }),
            final(st)@ == all_dropped(old(self).files@, old(st)@),
            final(sems)@.wf(),
            old(self).sem_ctx.finished(old(sems)@, final(sems)@),
            final(shms)@.wf(),
            final(shms)@ == old(shms)@.let_go_all(crate::ipc::segments(old(self).shm_ctx.ids@)),
    {
        self.close_all(st);
        let mut sem_ctx = SemCtx::default();
        std::mem::swap(&mut sem_ctx, &mut self.sem_ctx);
        sem_ctx.finish(sems);
        let mut shm_ctx = ShmCtx::default();
        std::mem::swap(&mut shm_ctx, &mut self.shm_ctx);
        shm_ctx.finish(shms);
    }

    /// Whether the task has ended or has no thread left.
    pub fn exited(&self) -> (r: bool)
        ensures
            r == (self.threads@.len() == 0 || self.is_done()),
    {
        self.threads.len() == 0 || self.info.status.is_some()
    }

    // ---- Epoll ----

    /// Another handle of an epoll instance.
    pub fn get_ep_mut(&self, fd: usize) -> (r: Result<EpInst, &'static str>)
        ensures
            self.ep_inst@.contains_key(fd) ==> r is Ok && r->Ok_0.same(self.ep_inst@[fd]),
            !self.ep_inst@.contains_key(fd) ==> r is Err && r->Err_0 == "eperm",
    {
        match self.ep_inst.get(&fd) {
            Some(e) => Ok(e.again()),
            None => Err("eperm"),
        }
    }

    /// Another handle of an epoll instance.
    pub fn get_ep_ref(&self, fd: usize) -> (r: Result<EpInst, &'static str>)
        ensures
            self.ep_inst@.contains_key(fd) ==> r is Ok && r->Ok_0.same(self.ep_inst@[fd]),
            !self.ep_inst@.contains_key(fd) ==> r is Err && r->Err_0 == "eperm",
    {
        self.get_ep_mut(fd)
    }

    /// Puts an epoll instance under a descriptor.
    pub fn set_ep(&mut self, fd: usize, inst: EpInst)
        ensures
            final(self).ep_inst@ == old(self).ep_inst@.insert(fd, inst),
            *final(self) == (Task { ep_inst: final(self).ep_inst, ..*old(self) }),
    {
        self.ep_inst.insert(fd, inst);
    }

    // ---- Running ----

    /// Takes the context out to run; a blank one where it is out already.
    pub fn begin_run(&mut self) -> (r: ThdCtx)
        ensures
            old(self).thd_ctx is Some ==> r == old(self).thd_ctx->0,
            old(self).thd_ctx is None ==> r.is_blank(),
            *final(self) == (Task { thd_ctx: None, ..*old(self) }),
    {
        match self.thd_ctx {
            Some(c) => {
                self.thd_ctx = None;
                c
            },
            None => ThdCtx::default(),
        }
    }

    /// Puts the context back.
    pub fn end_run(&mut self, cx: ThdCtx)
        ensures
            *final(self) == (Task { thd_ctx: Some(cx), ..*old(self) }),
    {
        self.thd_ctx = Some(cx);
    }

    // ---- Signals ----

    /// Whether a queued signal may be taken now.
    pub fn has_sig(&self) -> (r: bool)
        ensures
            r == exists|i: int|
                0 <= i < self.sig_queue@.len() && self.may_take(#[trigger] self.sig_queue@[i]),
    {
        let mut n: usize = 0;
        while n < self.sig_queue.len()
            invariant
                n <= self.sig_queue@.len(),
                forall|i: int| 0 <= i < n ==> !self.may_take(#[trigger] self.sig_queue@[i]),
            decreases self.sig_queue@.len() - n,
        {
            let (s, sender): (i32, isize) = self.sig_queue[n];
            if (sender == -1 || sender as usize == self.info.id) && 0 <= s && s < 64 {
                if self.sig_mask & (1u64 << (s as u64)) == 0 {
                    assert(self.may_take(self.sig_queue@[n as int]));
                    return true;
                }
            }
            n += 1;
        }
        false
    }

    /// Queues a signal and tells those who wait for one.
    pub fn send_sig(&mut self, signo: i32, sender_tid: isize)
        ensures
            old(self).signalled(1, signo, sender_tid, *final(self)),
    {
        self.sig_queue.push_back((signo, sender_tid));
        self.ev.set(EvFlag::RECV_SIG);
        assert(self.sig_queue@ =~= old(self).sig_queue@ + Seq::new(
            1,
            |i: int| (signo, sender_tid),
        ));
    }

    // ---- More on descriptors ----

    /// Closes a descriptor.
    pub fn close_fd(&mut self, fd: usize, st: &mut FileStore) -> (r: Result<(), &'static str>)
        requires
            pipes_ok(old(self).files@, old(st)@),
        ensures
            old(self).files@.contains_key(fd) ==> {
                &&& r is Ok
                &&& final(self).files@ == old(self).files@.remove(fd)
                &&& final(st)@ == old(self).files@[fd].dropped_from(old(st)@)
            },
            !old(self).files@.contains_key(fd) ==> {
                &&& r == Err::<(), &'static str>("ebadf")
                &&& final(self).files@ == old(self).files@
                &&& final(st)@ == old(st)@
            },
            *final(self) == (Task { files: final(self).files, ..*old(self) }),
    {
        match self.files.remove(&fd) {
            Some(fl) => {
                fl.release(st);
                Ok(())
            },
            None => Err("ebadf"),
        }
    }

    /// Puts another handle of what a descriptor stands for under the least free one. The
    /// handle through which that is done is dropped again.
    pub fn dup_fd(&mut self, old_fd: usize, cloexec: bool, st: &mut FileStore) -> (r: Result<
        usize,
        &'static str,
    >)
        requires
            pipes_ok(old(self).files@, old(st)@),
        ensures
            old(self).files@.contains_key(old_fd) ==> {
                &&& r is Ok
                &&& crate::tables::is_least_free(old(self).files@.dom(), r->Ok_0)
                &&& final(self).files@.contains_key(r->Ok_0)
                &&& old(self).files@[old_fd].duplicated(cloexec, final(self).files@[r->Ok_0])
                &&& final(self).files@ == old(self).files@.insert(
                    r->Ok_0,
                    final(self).files@[r->Ok_0],
                )
                &&& final(st)@ == old(self).files@[old_fd].dropped_from(old(st)@)
            },
            !old(self).files@.contains_key(old_fd) ==> {
                &&& r == Err::<usize, &'static str>("ebadf")
                &&& final(self).files@ == old(self).files@
                &&& final(st)@ == old(st)@
            },
            *final(self) == (Task { files: final(self).files, ..*old(self) }),
    {
        let nfl = match self.files.get(&old_fd) {
            Some(fl) => {
                let d = fl.dup(cloexec);
                fl.release(st);
                d
            },
            None => {
                return Err("ebadf");
            },
        };
        let nfd: usize = first_free(&self.files);
        self.files.insert(nfd, nfl);
        Ok(nfd)
    }

    /// Puts another handle of what a descriptor stands for under a given one, which is closed
    /// first. The handle through which that is done is dropped again.
    pub fn dup2_fd(&mut self, old_fd: usize, new_fd: usize, st: &mut FileStore) -> (r: Result<
        usize,
        &'static str,
    >)
        requires
            pipes_ok(old(self).files@, old(st)@),
        ensures
            old_fd == new_fd ==> r == Ok::<usize, &'static str>(new_fd) && final(self).files@
                == old(self).files@ && final(st)@ == old(st)@,
            old_fd != new_fd && !old(self).files@.contains_key(old_fd) ==> r == Err::<
                usize,
                &'static str,
            >("ebadf") && final(self).files@ == old(self).files@ && final(st)@ == old(st)@,
            old_fd != new_fd && old(self).files@.contains_key(old_fd) ==> {
                &&& r == Ok::<usize, &'static str>(new_fd)
                &&& final(self).files@.contains_key(new_fd)
                &&& old(self).files@[old_fd].duplicated(false, final(self).files@[new_fd])
                &&& final(self).files@ == old(self).files@.insert(
                    new_fd,
                    final(self).files@[new_fd],
                )
                &&& final(st)@ == old(self).files@[old_fd].dropped_from(
                    if old(self).files@.contains_key(new_fd) {
                        old(self).files@[new_fd].dropped_from(old(st)@)
                    } else {
                        old(st)@
                    },
                )
            },
            *final(self) == (Task { files: final(self).files, ..*old(self) }),
    {
        if old_fd == new_fd {
            return Ok(new_fd);
        }
        let nfl = match self.files.get(&old_fd) {
            Some(fl) => fl.dup(false),
            None => {
                return Err("ebadf");
            },
        };
        match self.files.remove(&new_fd) {
            Some(prev) => {
                prev.release(st);
            },
            None => {},
        }
        let ghost left = self.files@;
        proof {
            assert(old(self).files@.contains_key(old_fd));
            assert(left.contains_key(old_fd));
        }
        match self.files.get(&old_fd) {
            Some(fl) => {
                fl.release(st);
            },
            None => {},
        }
        self.files.insert(new_fd, nfl);
        assert(self.files@ =~= old(self).files@.insert(new_fd, self.files@[new_fd]));
        Ok(new_fd)
    }

    /// How many descriptors are open.
    pub fn fd_count(&self) -> (r: usize)
        ensures
            r == self.files@.len(),
    {
        self.files.len()
    }

    /// Checks that a descriptor is open.
    pub fn set_cloexec(&self, fd: usize, _val: bool) -> (r: Result<(), &'static str>)
        ensures
            r == if self.files@.contains_key(fd) {
                Ok::<(), &'static str>(())
            } else {
                Err("ebadf")
            },
    {
        if self.files.contains_key(&fd) {
            Ok(())
        } else {
            Err("ebadf")
        }
    }
}

/// A signal that is sent stays queued behind those before it, and an ended task stays
/// ended when one is sent to it.
pub proof fn law_signals_queue_up(a: Task, b: Task, signo: i32, sender: isize)
    requires
        a.signalled(1, signo, sender, b),
    ensures
        b.sig_queue@ == a.sig_queue@.push((signo, sender)),
        b.is_done() == a.is_done(),
{
    assert(b.sig_queue@ =~= a.sig_queue@.push((signo, sender)));
}

impl Pid {
    /// The number in decimal.
    pub fn to_string(&self) -> (r: String)
        ensures
            r@ == crate::text::decimal(self.0 as nat),
    {
        to_decimal(self.0 as u64)
    }
}

/// A task takes a queued signal that is meant for any thread or for itself and that it does
/// not block; it takes none that is meant for another or blocked.
pub proof fn law_blocked_signal_is_not_taken(t: Task, signo: i32, to: isize)
    requires
        0 <= signo < 64,
        t.info.id <= isize::MAX,
    ensures
        t.sig_mask & (1u64 << (signo as u64)) != 0 ==> !t.may_take((signo, to)),
        t.sig_mask & (1u64 << (signo as u64)) == 0 ==> t.may_take((signo, -1isize)) && t.may_take(
            (signo, t.info.id as isize),
        ),
        0 <= to && to != t.info.id ==> !t.may_take((signo, to)),
{
}

/// Sending a signal wakes those who wait for one, and changes nothing but the queue and the
/// events.
pub proof fn law_signal_is_announced(a: Task, k: nat, signo: i32, sender: isize, b: Task)
    requires
        a.signalled(k, signo, sender, b),
        k > 0,
    ensures
        b.ev@.ev & EvFlag::RECV_SIG == EvFlag::RECV_SIG,
        b.sig_queue@.len() == a.sig_queue@.len() + k,
        forall|i: int|
            a.sig_queue@.len() <= i < b.sig_queue@.len() ==> #[trigger] b.sig_queue@[i] == (
                signo,
                sender,
            ),
        forall|i: int| 0 <= i < a.sig_queue@.len() ==> #[trigger] b.sig_queue@[i] == a.sig_queue@[i],
        b.info == a.info && b.sig_mask == a.sig_mask && b.files == a.files && b.parent == a.parent,
{
    let (e, f) = (a.ev@.ev, EvFlag::RECV_SIG);
    assert(((e & !0u32) | f) & f == f) by (bit_vector);
}

/// A new task is alive, alone and has nothing.
pub proof fn law_new_task_has_nothing(t: Task, id: usize, tag: Seq<char>, fd: usize)
    requires
        t.is_new(id, tag),
    ensures
        t.info.id == id && t.info.tag@ == tag && !t.is_done() && t.info.status is None,
        t.parent is None && t.subtasks@.len() == 0 && t.threads@.len() == 0,
        !t.files@.contains_key(fd) && t.has_nothing(),
        t.sig_queue@.len() == 0 && t.sig_mask == 0 && t.exit_code == 0 && t.vm_token == 0,
{
}

/// A task has ended once it has a status.
pub proof fn law_ended_task_is_done(a: Task, code: usize, b: Task)
    requires
        a.ended(code, b),
    ensures
        b.is_done(),
        b.exit_code == code,
        b.info.status == Some((code % 256) as i32),
        b.info.id == a.info.id && b.sig_queue == a.sig_queue && b.subtasks == a.subtasks,
        b.files@.len() == 0,
{
}

/// A task that has ended has no thread and no open file any more and says so; who it is, its
/// group, its family and its semaphores stay.
pub proof fn law_end_takes_threads_and_files(a: Task, code: usize, b: Task)
    requires
        a.ended(code, b),
    ensures
        b.threads@.len() == 0,
        b.files@.len() == 0,
        b.parent == a.parent && b.pid == a.pid && b.pgid == a.pgid,
        b.info.tag == a.info.tag && b.sig_mask == a.sig_mask && b.cwd == a.cwd,
        b.sem_ctx == a.sem_ctx && b.shm_ctx == a.shm_ctx && b.vm_token == a.vm_token,
        b.heap == a.heap && b.thd_ctx == a.thd_ctx && b.kstk == a.kstk,
        b.ev@.ev & EvFlag::PROC_QUIT == EvFlag::PROC_QUIT,
{
    let (x, f) = (a.ev@.ev, EvFlag::PROC_QUIT);
    assert(((x & !0u32) | f) & f == f) by (bit_vector);
}

/// A new task stands at the root, belongs to no group, has a blank context, and nothing waits
/// for it or is attached to it.
pub proof fn law_new_task_is_blank(t: Task, id: usize, tag: Seq<char>)
    requires
        t.is_new(id, tag),
    ensures
        t.cwd@ == "/"@ && t.exec_path@.len() == 0,
        t.pid == Pid(0) && t.pgid == 0,
        t.info.fds@.len() == 0 && t.heap@.len() == 0 && t.kstk is None,
        t.futexes@.len() == 0 && t.buckets@.len() == 0 && t.ep_inst@.len() == 0,
        t.thd_ctx is Some,
        t.thd_ctx->0.clear_tid == 0 && t.thd_ctx->0.smask == 0,
        t.thd_ctx->0.uctx@.ip == 0 && t.thd_ctx->0.uctx@.flags == 0,
        forall|i: int| 0 <= i < crate::consts::N_REGS ==> #[trigger] t.thd_ctx->0.uctx@.r[i] == 0,
{
}

/// A task that has nothing has no file open and nothing attached or to undo.
pub proof fn law_nothing_means_nothing(t: Task, k: usize)
    requires
        t.has_nothing(),
    ensures
        !t.files@.contains_key(k),
        !t.sem_ctx.arrays@.contains_key(k),
        !t.sem_ctx.undos@.contains_key(k),
        !t.shm_ctx.ids@.contains_key(k),
{
}

/// Descriptors are dropped one after the other, each once, the lowest first; where there are
/// none nothing changes.
pub proof fn law_descriptors_are_dropped_in_order(
    files: Map<usize, FLike>,
    fds: Seq<usize>,
    fd: usize,
    st: Files,
)
    ensures
        dropped_in_turn(files, Seq::empty(), st) == st,
        dropped_in_turn(files, fds.push(fd), st) == files[fd].dropped_from(
            dropped_in_turn(files, fds, st),
        ),
        files == Map::<usize, FLike>::empty() ==> all_dropped(files, st) == st,
        crate::tables::ascending(fds) && fds.to_set() == files.dom() ==> all_dropped(files, st)
            == dropped_in_turn(files, fds, st),
{
    assert(fds.push(fd).drop_last() =~= fds);
    if crate::tables::ascending(fds) && fds.to_set() == files.dom() {
        assert forall|k: usize| fds.contains(k) <==> files.dom().contains(k) by {
            assert(fds.to_set().contains(k) == fds.contains(k));
        }
        crate::tables::lemma_in_order(fds, files.dom());
    }
    if files == Map::<usize, FLike>::empty() {
        let none = Seq::<usize>::empty();
        crate::tables::lemma_in_order(none, files.dom());
    }
}

} // verus!
