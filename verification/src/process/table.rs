//! The table of all tasks.

use std::collections::BTreeMap;

use vstd::prelude::*;

use crate::fs::configfs::Tree;
use crate::fs::files::{FileStore, Files};
use crate::fs::flike::FLike;
use crate::ipc::{SemArr, SemStore, ShmStore, Stock};
use crate::process::task::{Task, TaskInfo};
use crate::process::{Pgid, Pid};
use crate::sync::{EvFlag, Sema};
use crate::tables::ordered_keys;
use crate::text::same_text;

verus! {

broadcast use vstd::std_specs::btree::group_btree_axioms;

/// What tasks share: open files, semaphore arrays and shared memory.
pub struct Shared {
    pub files: FileStore,
    pub sems: SemStore,
    pub shms: ShmStore,
}

impl Shared {
    /// The stores are as they should be.
    pub open spec fn wf(self) -> bool {
        self.sems@.wf() && self.shms@.wf()
    }

    /// Nothing shared yet.
    pub fn new() -> (r: Self)
        ensures
            r.wf(),
            r.files@ == Files::empty(),
            r.sems@.items.len() == 0,
            r.sems@.keys == Map::<usize, usize>::empty(),
            r.shms@.items.len() == 0,
            r.shms@.keys == Map::<usize, usize>::empty(),
    {
        Shared { files: FileStore::new(), sems: SemStore::new(), shms: ShmStore::new() }
    }
}

/// All tasks that were ever made, and those that can be found by a number. The root takes
/// orphans in.
pub struct TaskTable {
    pub tasks: Vec<Task>,
    pub map: BTreeMap<usize, usize>,
    pub seq: usize,
    pub root: Option<usize>,
}

/// The task names only tasks below `n`.
pub open spec fn links_ok(t: Task, n: nat) -> bool {
    &&& t.parent is Some ==> t.parent->0 < n
    &&& forall|i: int| 0 <= i < t.subtasks@.len() ==> #[trigger] t.subtasks@[i] < n
    &&& t.futexes_ok()
}

/// Everything that the task has open or attached is there.
pub open spec fn backed(
    t: Task,
    st: Files,
    cf: Tree,
    sems: Stock<SemArr>,
    shms: Stock<Vec<usize>>,
) -> bool {
    &&& forall|fd: usize| #[trigger] t.files@.contains_key(fd) ==> t.files@[fd].wf(st, cf)
    &&& sems.reached_by(t.sem_ctx.arrays@)
    &&& shms.reached_by(crate::ipc::segments(t.shm_ctx.ids@))
}

/// The test for tasks with a tag.
pub open spec fn tagged(ts: Seq<Task>, tag: Seq<char>) -> spec_fn(usize) -> bool {
    |t: usize| ts[t as int].info.tag@ == tag
}

/// The test for tasks of a process group.
pub open spec fn grouped(ts: Seq<Task>, pgid: Pgid) -> spec_fn(usize) -> bool {
    |t: usize| ts[t as int].pgid == pgid
}

/// The test for numbers of tasks that have ended.
pub open spec fn over(ts: Seq<Task>, map: Map<usize, usize>) -> spec_fn(usize) -> bool {
    |id: usize| ts[map[id] as int].is_done()
}

/// The test for numbers of tasks that have not ended.
pub open spec fn alive(ts: Seq<Task>, map: Map<usize, usize>) -> spec_fn(usize) -> bool {
    |id: usize| !ts[map[id] as int].is_done()
}

/// `post` is the task with `r` for a parent if it is among `ch`, and with all of `ch` for
/// children if it is `r` itself.
pub open spec fn adopted(t: Task, x: usize, r: usize, ch: Seq<usize>, post: Task) -> bool {
    &&& post == (Task {
        parent: if ch.contains(x) {
            Some(r)
        } else {
            t.parent
        },
        subtasks: post.subtasks,
        ..t
    })
    &&& post.subtasks@ == if x == r {
        t.subtasks@ + ch
    } else {
        t.subtasks@
    }
}

/// The tasks after task `r` became the parent of the children of task `t`, which lists them
/// no more.
pub open spec fn handed_over_in(a: Seq<Task>, t: usize, r: usize, b: Seq<Task>) -> bool {
    &&& b.len() == a.len()
    &&& forall|x: usize|
        x < a.len() ==> handed_over(
            a[x as int],
            x,
            t,
            r,
            a[t as int].subtasks@,
            #[trigger] b[x as int],
        )
}

/// What a task is after task `r` took over `ch`, the children of task `t`.
pub open spec fn handed_over(
    a: Task,
    x: usize,
    t: usize,
    r: usize,
    ch: Seq<usize>,
    b: Task,
) -> bool {
    &&& b == (Task {
        parent: if ch.contains(x) {
            Some(r)
        } else {
            a.parent
        },
        subtasks: b.subtasks,
        ..a
    })
    &&& b.subtasks@ == (if x == t {
        Seq::<usize>::empty()
    } else {
        a.subtasks@
    }) + (if x == r {
        ch
    } else {
        Seq::<usize>::empty()
    })
}

/// `post` is the task after it ended with a code; being its own parent, it is told of that
/// itself.
pub open spec fn quit(t: Task, code: usize, own_parent: bool, post: Task) -> bool {
    &&& post == (Task {
        files: post.files,
        ev: post.ev,
        exit_code: code,
        threads: post.threads,
        info: TaskInfo { status: Some((code % 256) as i32), ..t.info },
        ..t
    })
    &&& post.files@ == Map::<usize, FLike>::empty()
    &&& post.threads@.len() == 0
    &&& post.ev@ == if own_parent {
        t.ev@.change(0, EvFlag::PROC_QUIT).change(0, EvFlag::CHILD_QUIT)
    } else {
        t.ev@.change(0, EvFlag::PROC_QUIT)
    }
}

/// `post` is the task after it was told that a child ended.
pub open spec fn told(t: Task, post: Task) -> bool {
    &&& post == (Task { ev: post.ev, ..t })
    &&& t.ev.changed(0, EvFlag::CHILD_QUIT, post.ev)
}

/// The tasks after task `t` ended with a code.
pub open spec fn ended_in(a: Seq<Task>, t: usize, code: usize, b: Seq<Task>) -> bool {
    let p = a[t as int].parent;
    &&& b.len() == a.len()
    &&& quit(a[t as int], code, p == Some(t), b[t as int])
    &&& p is Some && p->0 != t ==> told(a[p->0 as int], b[p->0 as int])
    &&& forall|x: int|
        0 <= x < a.len() && x != t && p != Some(x as usize) ==> #[trigger] b[x] == a[x]
}

/// The tasks after task `t` was taken out of the table: it has nothing open and no children
/// any more, and the root, if there is one, has them.
pub open spec fn reaped_in(a: Seq<Task>, t: usize, root: Option<usize>, b: Seq<Task>) -> bool {
    let ch = a[t as int].subtasks@;
    &&& b.len() == a.len()
    &&& forall|x: usize|
        x < a.len() ==> reaped(a[x as int], x, t, root, ch, #[trigger] b[x as int])
}

/// What a task is after task `t`, whose children are `ch`, was taken out of the table.
pub open spec fn reaped(
    a: Task,
    x: usize,
    t: usize,
    root: Option<usize>,
    ch: Seq<usize>,
    b: Task,
) -> bool {
    &&& b == (Task {
        info: if x == t {
            TaskInfo { status: Some(0), ..a.info }
        } else {
            a.info
        },
        parent: if root is Some && ch.contains(x) {
            root
        } else {
            a.parent
        },
        subtasks: b.subtasks,
        files: b.files,
        sem_ctx: b.sem_ctx,
        shm_ctx: b.shm_ctx,
        ..a
    })
    &&& if x == t {
        b.has_nothing()
    } else {
        b.files == a.files && b.sem_ctx == a.sem_ctx && b.shm_ctx == a.shm_ctx
    }
    &&& b.subtasks@ == (if x == t {
        Seq::<usize>::empty()
    } else {
        a.subtasks@
    }) + (if root == Some(x) {
        ch
    } else {
        Seq::<usize>::empty()
    })
}

/// `b` is what is shared once a task gave up all that it had open or attached.
pub open spec fn given_up(t: Task, a: Shared, b: Shared) -> bool {
    &&& b.files@ == crate::process::task::all_dropped(t.files@, a.files@)
    &&& t.sem_ctx.finished(a.sems@, b.sems@)
    &&& b.shms@ == a.shms@.let_go_all(crate::ipc::segments(t.shm_ctx.ids@))
}

/// All that the task could give up is there.
pub open spec fn can_give_up(t: Task, sh: Shared) -> bool {
    &&& crate::process::task::pipes_ok(t.files@, sh.files@)
    &&& sh.sems@.reached_by(t.sem_ctx.arrays@)
    &&& sh.shms@.reached_by(crate::ipc::segments(t.shm_ctx.ids@))
}

impl TaskTable {
    /// Every task that is named is there.
    pub open spec fn wf(self) -> bool {
        &&& forall|id: usize| #[trigger]
            self.map@.contains_key(id) ==> self.map@[id] < self.tasks@.len()
        &&& self.root is Some ==> self.root->0 < self.tasks@.len()
        &&& forall|x: int|
            0 <= x < self.tasks@.len() ==> links_ok(#[trigger] self.tasks@[x], self.tasks@.len())
    }

    /// Everything that tasks have open or attached is there.
    pub open spec fn all_backed(self, sh: Shared, cf: Tree) -> bool {
        forall|x: int|
            0 <= x < self.tasks@.len() ==> backed(
                #[trigger] self.tasks@[x],
                sh.files@,
                cf,
                sh.sems@,
                sh.shms@,
            )
    }

    /// The tasks that can be found, by increasing number.
    pub open spec fn members(self) -> Seq<usize> {
        crate::tables::in_order(self.map@.dom()).map_values(|id: usize| self.map@[id])
    }

    /// The tasks of a process group, by increasing number.
    pub open spec fn group(self, pgid: Pgid) -> Seq<usize> {
        self.members().filter(grouped(self.tasks@, pgid))
    }

    /// An empty table; the first number is 1.
    pub fn new() -> (r: Self)
        ensures
            r.wf(),
            r.tasks@.len() == 0,
            r.map@ == Map::<usize, usize>::empty(),
            r.seq == 1,
            r.root is None,
    {
        TaskTable { tasks: Vec::new(), map: BTreeMap::new(), seq: 1, root: None }
    }

    /// Puts a task into the table under a number and takes the next number.
    pub(crate) fn enter(&mut self, id: usize, t: Task) -> (r: usize)
        requires
            old(self).wf(),
            links_ok(t, old(self).tasks@.len() + 1),
        ensures
            final(self).wf(),
            r == old(self).tasks@.len(),
            final(self).tasks@ == old(self).tasks@.push(t),
            final(self).map@ == old(self).map@.insert(id, r),
            final(self).seq == old(self).seq.wrapping_add(1),
            final(self).root == old(self).root,
    {
        let at: usize = self.tasks.len();
        self.tasks.push(t);
        self.map.insert(id, at);
        self.seq = self.seq.wrapping_add(1);
        proof {
            let n = old(self).tasks@.len();
            assert forall|x: int| 0 <= x < self.tasks@.len() implies links_ok(
                #[trigger] self.tasks@[x],
                self.tasks@.len(),
            ) by {
                if x < n {
                    assert(self.tasks@[x] == old(self).tasks@[x]);
                }
            }
        }
        at
    }

    /// Makes a task under the next number.
    pub fn spawn(&mut self, tag: &str) -> (r: usize)
        requires
            old(self).wf(),
        ensures
            final(self).wf(),
            r == old(self).tasks@.len(),
            final(self).tasks@.len() == old(self).tasks@.len() + 1,
            final(self).tasks@.take(r as int) == old(self).tasks@,
            final(self).tasks@[r as int].is_new(old(self).seq, tag@),
            final(self).map@ == old(self).map@.insert(old(self).seq, r),
            final(self).seq == old(self).seq.wrapping_add(1),
            final(self).root == old(self).root,
    {
        let id: usize = self.seq;
        let t = Task::make(id, tag);
        let at: usize = self.enter(id, t);
        assert(self.tasks@.take(at as int) =~= old(self).tasks@);
        at
    }

    /// Makes the first task and lets it take orphans in.
    pub fn spawn_root(&mut self) -> (r: usize)
        requires
            old(self).wf(),
        ensures
            final(self).wf(),
            r == old(self).tasks@.len(),
            final(self).tasks@.len() == old(self).tasks@.len() + 1,
            final(self).tasks@.take(r as int) == old(self).tasks@,
            final(self).tasks@[r as int].is_new(old(self).seq, "init"@),
            final(self).map@ == old(self).map@.insert(old(self).seq, r),
            final(self).seq == old(self).seq.wrapping_add(1),
            final(self).root == Some(r),
    {
        let t: usize = self.spawn("init");
        self.root = Some(t);
        t
    }

    /// The task under a number.
    pub fn find(&self, id: usize) -> (r: Option<usize>)
        requires
            self.wf(),
        ensures
            r == if self.map@.contains_key(id) {
                Some(self.map@[id])
            } else {
                None
            },
            r is Some ==> r->0 < self.tasks@.len(),
    {
        match self.map.get(&id) {
            Some(t) => Some(*t),
            None => None,
        }
    }

    /// The tasks that can be found, by increasing number.
    pub(crate) fn listed(&self) -> (r: Vec<usize>)
        requires
            self.wf(),
        ensures
            r@ == self.members(),
            forall|i: int| 0 <= i < r@.len() ==> #[trigger] r@[i] < self.tasks@.len(),
    {
        let ids = ordered_keys(&self.map);
        let mut out: Vec<usize> = Vec::new();
        let mut n: usize = 0;
        while n < ids.len()
            invariant
                self.wf(),
                ids@ == crate::tables::in_order(self.map@.dom()),
                crate::tables::is_listing(ids@, self.map@.dom()),
                n <= ids@.len(),
                out@ == self.members().take(n as int),
                forall|i: int| 0 <= i < out@.len() ==> #[trigger] out@[i] < self.tasks@.len(),
            decreases ids@.len() - n,
        {
            let id: usize = ids[n];
            assert(ids@.contains(id));
            let t: usize = *self.map.get(&id).unwrap();
            out.push(t);
            assert(self.members().take(n + 1) =~= self.members().take(n as int).push(t));
            n += 1;
        }
        assert(self.members().take(n as int) =~= self.members());
        out
    }

    /// The tasks with a tag, by increasing number.
    pub fn find_by_tag(&self, tag: &str) -> (r: Vec<usize>)
        requires
            self.wf(),
        ensures
            r@ == self.members().filter(tagged(self.tasks@, tag@)),
    {
        let all = self.listed();
        let mut out: Vec<usize> = Vec::new();
        let mut n: usize = 0;
        proof {
            reveal(Seq::filter);
            assert(all@.take(0).filter(tagged(self.tasks@, tag@)) =~= Seq::empty());
        }
        while n < all.len()
            invariant
                n <= all@.len(),
                forall|i: int| 0 <= i < all@.len() ==> #[trigger] all@[i] < self.tasks@.len(),
                out@ == all@.take(n as int).filter(tagged(self.tasks@, tag@)),
            decreases all@.len() - n,
        {
            proof {
                crate::tables::lemma_filter_take(all@, n as int, tagged(self.tasks@, tag@));
            }
            if same_text(self.tasks[all[n]].info.tag.as_str(), tag) {
                out.push(all[n]);
            }
            n += 1;
        }
        assert(all@.take(n as int) =~= all@);
        out
    }

    /// The first task, by increasing number, that lists a thread.
    pub fn process_of_tid(&self, tid: usize) -> (r: Option<usize>)
        requires
            self.wf(),
        ensures
            match r {
                Some(t) => exists|i: int|
                    {
                        &&& 0 <= i < self.members().len()
                        &&& #[trigger] self.members()[i] == t
                        &&& self.tasks@[t as int].threads@.contains(tid)
                        &&& forall|j: int|
                            0 <= j < i ==> !self.tasks@[#[trigger] self.members()[j] as int].threads@.contains(
                            tid)
                    },
                None => forall|j: int|
                    0 <= j < self.members().len() ==> !self.tasks@[#[trigger] self.members()[j] as int].threads@.contains(
                    tid),
            },
    {
        let all = self.listed();
        let mut n: usize = 0;
        while n < all.len()
            invariant
                all@ == self.members(),
                n <= all@.len(),
                forall|i: int| 0 <= i < all@.len() ==> #[trigger] all@[i] < self.tasks@.len(),
                forall|j: int|
                    0 <= j < n ==> !self.tasks@[#[trigger] all@[j] as int].threads@.contains(tid),
            decreases all@.len() - n,
        {
            let t: usize = all[n];
            if Self::lists_thread(&self.tasks[t].threads, tid) {
                assert(self.members()[n as int] == t);
                return Some(t);
            }
            n += 1;
        }
        None
    }

    fn lists_thread(threads: &Vec<usize>, tid: usize) -> (r: bool)
        ensures
            r == threads@.contains(tid),
    {
        let mut n: usize = 0;
        while n < threads.len()
            invariant
                n <= threads@.len(),
                forall|i: int| 0 <= i < n ==> #[trigger] threads@[i] != tid,
            decreases threads@.len() - n,
        {
            if threads[n] == tid {
                return true;
            }
            n += 1;
        }
        false
    }

    /// The tasks of a process group, by increasing number.
    pub fn pgid_group(&self, pgid: Pgid) -> (r: Vec<usize>)
        requires
            self.wf(),
        ensures
            r@ == self.group(pgid),
            forall|i: int| 0 <= i < r@.len() ==> #[trigger] r@[i] < self.tasks@.len(),
    {
        let all = self.listed();
        let mut out: Vec<usize> = Vec::new();
        let mut n: usize = 0;
        proof {
            reveal(Seq::filter);
            assert(all@.take(0).filter(grouped(self.tasks@, pgid)) =~= Seq::empty());
        }
        while n < all.len()
            invariant
                n <= all@.len(),
                forall|i: int| 0 <= i < all@.len() ==> #[trigger] all@[i] < self.tasks@.len(),
                forall|i: int| 0 <= i < out@.len() ==> #[trigger] out@[i] < self.tasks@.len(),
                out@ == all@.take(n as int).filter(grouped(self.tasks@, pgid)),
            decreases all@.len() - n,
        {
            proof {
                crate::tables::lemma_filter_take(all@, n as int, grouped(self.tasks@, pgid));
            }
            if self.tasks[all[n]].pgid == pgid {
                out.push(all[n]);
            }
            n += 1;
        }
        assert(all@.take(n as int) =~= all@);
        out
    }

    /// Gives a task a process number and puts it into the table under it.
    pub fn register(&mut self, task: usize, pid: Pid)
        requires
            old(self).wf(),
            task < old(self).tasks@.len(),
        ensures
            final(self).wf(),
            final(self).tasks@ == old(self).tasks@.update(
                task as int,
                (Task { pid, ..old(self).tasks@[task as int] }),
            ),
            final(self).map@ == old(self).map@.insert(pid.0, task),
            final(self).seq == old(self).seq,
            final(self).root == old(self).root,
    {
        self.tasks[task].pid = pid;
        self.map.insert(pid.get(), task);
        proof {
            assert forall|x: int| 0 <= x < self.tasks@.len() implies links_ok(
                #[trigger] self.tasks@[x],
                self.tasks@.len(),
            ) by {
                assert(links_ok(old(self).tasks@[x], old(self).tasks@.len()));
            }
        }
    }

    /// Makes task `r` the parent of some tasks, which it lists behind its children.
    pub(crate) fn adopt(&mut self, children: &Vec<usize>, r: usize)
        requires
            r < old(self).tasks@.len(),
            forall|i: int|
                0 <= i < children@.len() ==> #[trigger] children@[i] < old(self).tasks@.len(),
        ensures
            final(self).tasks@.len() == old(self).tasks@.len(),
            forall|x: usize|
                x < old(self).tasks@.len() ==> adopted(
                    old(self).tasks@[x as int],
                    x,
                    r,
                    children@,
                    #[trigger] final(self).tasks@[x as int],
                ),
            *final(self) == (TaskTable { tasks: final(self).tasks, ..*old(self) }),
    {
        let ghost start = self.tasks@;
        let ghost ch = children@;
        let mut n: usize = 0;
        proof {
            assert forall|x: usize| x < start.len() implies adopted(
                start[x as int],
                x,
                r,
                ch.take(0),
                #[trigger] self.tasks@[x as int],
            ) by {
                assert(start[x as int].subtasks@ + ch.take(0) =~= start[x as int].subtasks@);
            }
        }
        while n < children.len()
            invariant
                children@ == ch,
                n <= ch.len(),
                r < start.len(),
                *self == (TaskTable { tasks: self.tasks, ..*old(self) }),
                self.tasks@.len() == start.len(),
                forall|i: int| 0 <= i < ch.len() ==> #[trigger] ch[i] < start.len(),
                forall|x: usize|
                    x < start.len() ==> adopted(
                        start[x as int],
                        x,
                        r,
                        ch.take(n as int),
                        #[trigger] self.tasks@[x as int],
                    ),
            decreases ch.len() - n,
        {
            let c: usize = children[n];
            let ghost entry = self.tasks@;
            self.tasks[c].link_parent(r);
            self.tasks[r].link_child(c);
            proof {
                let (part, next) = (ch.take(n as int), ch.take(n + 1));
                assert(next =~= part.push(c));
                assert forall|x: usize| x < start.len() implies adopted(
                    start[x as int],
                    x,
                    r,
                    next,
                    #[trigger] self.tasks@[x as int],
                ) by {
                    assert(adopted(start[x as int], x, r, part, entry[x as int]));
                    crate::tables::lemma_push_contains(part, c, x);
                    if x == r {
                        assert(self.tasks@[x as int].subtasks@ =~= start[x as int].subtasks@
                            + next);
                    }
                }
            }
            n += 1;
        }
        assert(ch.take(n as int) =~= ch);
    }

    /// Makes task `r` the parent of the children of task `t`, which lists them no more.
    pub(crate) fn hand_over(&mut self, t: usize, r: usize)
        requires
            old(self).wf(),
            t < old(self).tasks@.len(),
            r < old(self).tasks@.len(),
        ensures
            final(self).wf(),
            handed_over_in(old(self).tasks@, t, r, final(self).tasks@),
            *final(self) == (TaskTable { tasks: final(self).tasks, ..*old(self) }),
    {
        let ghost start = self.tasks@;
        let ghost ch = start[t as int].subtasks@;
        assert(links_ok(start[t as int], start.len()));
        let mut children: Vec<usize> = Vec::new();
        std::mem::swap(&mut children, &mut self.tasks[t].subtasks);
        let ghost cleared = self.tasks@;
        self.adopt(&children, r);
        proof {
            assert(start.len() == self.tasks.len());
            assert forall|x: usize| x < start.len() implies handed_over(
                start[x as int],
                x,
                t,
                r,
                ch,
                #[trigger] self.tasks@[x as int],
            ) by {
                let b = self.tasks@[x as int];
                assert(adopted(cleared[x as int], x, r, ch, b));
                assert(b.subtasks@ =~= (if x == t {
                    Seq::<usize>::empty()
                } else {
                    start[x as int].subtasks@
                }) + (if x == r {
                    ch
                } else {
                    Seq::<usize>::empty()
                }));
            }
            assert forall|x: int| 0 <= x < self.tasks@.len() implies links_ok(
                #[trigger] self.tasks@[x],
                self.tasks@.len(),
            ) by {
                let y = x as usize;
                assert(links_ok(start[x], start.len()));
                assert(handed_over(start[y as int], y, t, r, ch, self.tasks@[y as int]));
            }
        }
    }

    /// Takes a task out of the table: it counts as ended and gives up all that it had open or
    /// attached, its semaphore operations are undone, and the root takes its children in. A
    /// number that is not there is passed over.
    pub fn reap(&mut self, id: usize, sh: &mut Shared)
        requires
            old(self).wf(),
            old(sh).wf(),
            old(self).map@.contains_key(id) ==> can_give_up(
                old(self).tasks@[old(self).map@[id] as int],
                *old(sh),
            ),
        ensures
            final(self).wf(),
            final(sh).wf(),
            !old(self).map@.contains_key(id) ==> *final(self) == *old(self) && *final(sh) == *old(
                sh,
            ),
            old(self).map@.contains_key(id) ==> reaped_in(
                old(self).tasks@,
                old(self).map@[id],
                old(self).root,
                final(self).tasks@,
            ) && given_up(
                old(self).tasks@[old(self).map@[id] as int],
                *old(sh),
                *final(sh),
            ) && final(self).map@ == old(self).map@.remove(id),
            final(self).seq == old(self).seq,
            final(self).root == old(self).root,
    {
        let t: usize = match self.map.get(&id) {
            Some(t) => *t,
            None => {
                return ;
            },
        };
        assert(old(self).map@.contains_key(id));
        let ghost start = self.tasks@;
        let ghost ch = start[t as int].subtasks@;
        assert(links_ok(start[t as int], start.len()));
        self.tasks[t].let_go(&mut sh.files, &mut sh.sems, &mut sh.shms);
        self.tasks[t].info.status = Some(0);
        let mut children: Vec<usize> = Vec::new();
        std::mem::swap(&mut children, &mut self.tasks[t].subtasks);
        let ghost cleared = self.tasks@;
        let root = self.root;
        if let Some(r) = root {
            self.adopt(&children, r);
        }
        self.map.remove(&id);
        proof {
            assert forall|x: usize| x < start.len() implies reaped(
                start[x as int],
                x,
                t,
                old(self).root,
                ch,
                #[trigger] self.tasks@[x as int],
            ) by {
                let b = self.tasks@[x as int];
                if root is Some {
                    assert(adopted(cleared[x as int], x, root->0, ch, b));
                }
                assert(b.subtasks@ =~= (if x == t {
                    Seq::<usize>::empty()
                } else {
                    start[x as int].subtasks@
                }) + (if root == Some(x) {
                    ch
                } else {
                    Seq::<usize>::empty()
                }));
            }
            self.lemma_reaped_wf(*old(self), id);
        }
    }

    proof fn lemma_reaped_wf(self, before: TaskTable, id: usize)
        requires
            before.wf(),
            before.map@.contains_key(id),
            reaped_in(before.tasks@, before.map@[id], before.root, self.tasks@),
            self.map@ == before.map@.remove(id),
            self.root == before.root,
        ensures
            self.wf(),
    {
        let t = before.map@[id];
        let ch = before.tasks@[t as int].subtasks@;
        assert(links_ok(before.tasks@[t as int], before.tasks@.len()));
        assert forall|x: int| 0 <= x < self.tasks@.len() implies links_ok(
            #[trigger] self.tasks@[x],
            self.tasks@.len(),
        ) by {
            let (a, b) = (before.tasks@[x], self.tasks@[x]);
            assert(self.tasks.len() == self.tasks@.len());
            assert(reaped(a, x as usize, t, before.root, ch, self.tasks@[(x as usize) as int]));
            assert(links_ok(a, before.tasks@.len()));
        }
    }

    /// How many tasks can be found.
    pub fn count(&self) -> (r: usize)
        ensures
            r == self.map@.len(),
    {
        self.map.len()
    }

    /// Ends a task and tells its parent.
    pub fn exit_task(&mut self, t: usize, code: usize, st: &mut FileStore)
        requires
            old(self).wf(),
            t < old(self).tasks@.len(),
            crate::process::task::pipes_ok(old(self).tasks@[t as int].files@, old(st)@),
        ensures
            final(self).wf(),
            ended_in(old(self).tasks@, t, code, final(self).tasks@),
            *final(self) == (TaskTable { tasks: final(self).tasks, ..*old(self) }),
            final(st)@ == crate::process::task::all_dropped(
                old(self).tasks@[t as int].files@,
                old(st)@,
            ),
    {
        assert(links_ok(old(self).tasks@[t as int], old(self).tasks@.len()));
        let parent: Option<usize> = self.tasks[t].exit_proc(code, st);
        if let Some(p) = parent {
            self.tasks[p].ev.set(EvFlag::CHILD_QUIT);
        }
        proof {
            assert forall|x: int| 0 <= x < self.tasks@.len() implies links_ok(
                #[trigger] self.tasks@[x],
                self.tasks@.len(),
            ) by {
                assert(links_ok(old(self).tasks@[x], old(self).tasks@.len()));
            }
        }
    }

    /// Ends a task and takes it out of the table. Says whether its number was there.
    pub fn terminate_and_collect(&mut self, id: usize, code: usize, sh: &mut Shared) -> (r: bool)
        requires
            old(self).wf(),
            old(sh).wf(),
            old(self).map@.contains_key(id) ==> can_give_up(
                old(self).tasks@[old(self).map@[id] as int],
                *old(sh),
            ),
        ensures
            final(self).wf(),
            final(sh).wf(),
            r == old(self).map@.contains_key(id),
            !r ==> *final(self) == *old(self) && *final(sh) == *old(sh),
            r ==> {
                let t = old(self).map@[id];
                &&& exists|mid: Seq<Task>| #[trigger]
                    ended_in(old(self).tasks@, t, code, mid) && reaped_in(
                        mid,
                        t,
                        old(self).root,
                        final(self).tasks@,
                    )
                &&& final(self).map@ == old(self).map@.remove(id)
                &&& given_up(old(self).tasks@[t as int], *old(sh), *final(sh))
            },
            final(self).seq == old(self).seq,
            final(self).root == old(self).root,
    {
        match self.find(id) {
            Some(t) => {
                self.exit_task(t, code, &mut sh.files);
                let ghost mid = self.tasks@;
                self.reap(id, sh);
                proof {
                    assert(ended_in(old(self).tasks@, t, code, mid));
                    let none = mid[t as int].files@.dom();
                    crate::tables::lemma_in_order_lists(none);
                    let fds = crate::tables::in_order(none);
                    if fds.len() > 0 {
                        assert(fds.contains(fds[0]));
                    }
                }
                true
            },
            None => false,
        }
    }

    /// The numbers of the tasks that have not ended, in increasing order.
    pub fn active_tasks(&self) -> (r: Vec<usize>)
        requires
            self.wf(),
        ensures
            r@ == crate::tables::in_order(self.map@.dom()).filter(alive(self.tasks@, self.map@)),
    {
        let ids = ordered_keys(&self.map);
        let ghost p = alive(self.tasks@, self.map@);
        let mut out: Vec<usize> = Vec::new();
        let mut n: usize = 0;
        proof {
            reveal(Seq::filter);
            assert(ids@.take(0).filter(p) =~= Seq::empty());
        }
        while n < ids.len()
            invariant
                self.wf(),
                p == alive(self.tasks@, self.map@),
                crate::tables::is_listing(ids@, self.map@.dom()),
                n <= ids@.len(),
                out@ == ids@.take(n as int).filter(p),
            decreases ids@.len() - n,
        {
            let id: usize = ids[n];
            proof {
                assert(ids@.contains(id));
                crate::tables::lemma_filter_take(ids@, n as int, p);
            }
            let t: usize = *self.map.get(&id).unwrap();
            if !self.tasks[t].done() {
                out.push(id);
            }
            n += 1;
        }
        assert(ids@.take(n as int) =~= ids@);
        out
    }

    /// The numbers of the tasks that have ended, in increasing order.
    pub fn zombie_tasks(&self) -> (r: Vec<usize>)
        requires
            self.wf(),
        ensures
            r@ == crate::tables::in_order(self.map@.dom()).filter(over(self.tasks@, self.map@)),
    {
        let ids = ordered_keys(&self.map);
        let ghost p = over(self.tasks@, self.map@);
        let mut out: Vec<usize> = Vec::new();
        let mut n: usize = 0;
        proof {
            reveal(Seq::filter);
            assert(ids@.take(0).filter(p) =~= Seq::empty());
        }
        while n < ids.len()
            invariant
                self.wf(),
                p == over(self.tasks@, self.map@),
                crate::tables::is_listing(ids@, self.map@.dom()),
                n <= ids@.len(),
                out@ == ids@.take(n as int).filter(p),
            decreases ids@.len() - n,
        {
            let id: usize = ids[n];
            proof {
                assert(ids@.contains(id));
                crate::tables::lemma_filter_take(ids@, n as int, p);
            }
            let t: usize = *self.map.get(&id).unwrap();
            if self.tasks[t].done() {
                out.push(id);
            }
            n += 1;
        }
        assert(ids@.take(n as int) =~= ids@);
        out
    }

    /// Sends a signal to each of some tasks, as often as it is named.
    pub(crate) fn signal_each(&mut self, who: &Vec<usize>, signo: i32)
        requires
            old(self).wf(),
            forall|i: int| 0 <= i < who@.len() ==> #[trigger] who@[i] < old(self).tasks@.len(),
        ensures
            final(self).wf(),
            final(self).tasks@.len() == old(self).tasks@.len(),
            forall|x: usize|
                x < old(self).tasks@.len() ==> old(self).tasks@[x as int].signalled(
                    crate::tables::times(who@, x),
                    signo,
                    -1isize,
                    #[trigger] final(self).tasks@[x as int],
                ),
            final(self).map@ == old(self).map@,
            final(self).seq == old(self).seq,
            final(self).root == old(self).root,
    {
        let ghost start = self.tasks@;
        let mut n: usize = 0;
        proof {
            assert forall|x: usize| x < start.len() implies start[x as int].signalled(
                crate::tables::times(who@.take(0), x),
                signo,
                -1isize,
                #[trigger] self.tasks@[x as int],
            ) by {
                assert(start[x as int].sig_queue@ =~= start[x as int].sig_queue@ + Seq::new(
                    0,
                    |i: int| (signo, -1isize),
                ));
            }
        }
        while n < who.len()
            invariant
                n <= who@.len(),
                self.tasks@.len() == start.len(),
                forall|i: int| 0 <= i < who@.len() ==> #[trigger] who@[i] < start.len(),
                forall|x: usize|
                    x < start.len() ==> start[x as int].signalled(
                        crate::tables::times(who@.take(n as int), x),
                        signo,
                        -1isize,
                        #[trigger] self.tasks@[x as int],
                    ),
                self.map@ == old(self).map@,
                self.seq == old(self).seq,
                self.root == old(self).root,
            decreases who@.len() - n,
        {
            let t: usize = who[n];
            let ghost entry = self.tasks@;
            self.tasks[t].send_sig(signo, -1);
            proof {
                assert forall|x: usize| x < start.len() implies start[x as int].signalled(
                    crate::tables::times(who@.take(n + 1), x),
                    signo,
                    -1isize,
                    #[trigger] self.tasks@[x as int],
                ) by {
                    let k = crate::tables::times(who@.take(n as int), x);
                    crate::tables::lemma_times_take(who@, n as int, x);
                    assert(start[x as int].signalled(k, signo, -1isize, entry[x as int]));
                    if x == t {
                        lemma_signalled_again(
                            start[x as int],
                            k,
                            signo,
                            -1isize,
                            entry[x as int],
                            self.tasks@[x as int],
                        );
                    }
                }
            }
            n += 1;
        }
        proof {
            assert(who@.take(n as int) =~= who@);
            assert forall|x: int| 0 <= x < self.tasks@.len() implies links_ok(
                #[trigger] self.tasks@[x],
                self.tasks@.len(),
            ) by {
                assert(self.tasks.len() == self.tasks@.len());
                assert(links_ok(start[x], start.len()));
                assert(start[(x as usize) as int].signalled(
                    crate::tables::times(who@, x as usize),
                    signo,
                    -1isize,
                    self.tasks@[(x as usize) as int],
                ));
            }
        }
    }

    /// Sends a signal to every task of a process group and says how many there are.
    pub fn send_signal_group(&mut self, pgid: Pgid, signo: i32) -> (r: usize)
        requires
            old(self).wf(),
        ensures
            final(self).wf(),
            r == old(self).group(pgid).len(),
            final(self).tasks@.len() == old(self).tasks@.len(),
            forall|x: usize|
                x < old(self).tasks@.len() ==> old(self).tasks@[x as int].signalled(
                    crate::tables::times(old(self).group(pgid), x),
                    signo,
                    -1isize,
                    #[trigger] final(self).tasks@[x as int],
                ),
            final(self).map@ == old(self).map@,
            final(self).seq == old(self).seq,
            final(self).root == old(self).root,
    {
        let group = self.pgid_group(pgid);
        self.signal_each(&group, signo);
        group.len()
    }
}

proof fn lemma_signalled_again(a: Task, k: nat, signo: i32, sender: isize, b: Task, c: Task)
    requires
        a.signalled(k, signo, sender, b),
        b.signalled(1, signo, sender, c),
    ensures
        a.signalled(k + 1, signo, sender, c),
{
    crate::sync::law_set_twice_is_set_once(a.ev@, EvFlag::RECV_SIG);
    assert(c.sig_queue@ =~= a.sig_queue@ + Seq::new((k + 1) as nat, |i: int| (signo, sender)));
}

/// A task that can be found has ended or has not, and no number stands in both lists.
pub proof fn law_every_task_is_active_or_over(tt: TaskTable, id: usize)
    requires
        tt.wf(),
    ensures
        ({
            let ids = crate::tables::in_order(tt.map@.dom());
            let up = ids.filter(alive(tt.tasks@, tt.map@)).contains(id);
            let down = ids.filter(over(tt.tasks@, tt.map@)).contains(id);
            tt.map@.contains_key(id) == (up != down) && !(up && down)
        }),
{
    let ids = crate::tables::in_order(tt.map@.dom());
    crate::tables::lemma_in_order_lists(tt.map@.dom());
    crate::tables::lemma_filter_holds(ids, alive(tt.tasks@, tt.map@), id);
    crate::tables::lemma_filter_holds(ids, over(tt.tasks@, tt.map@), id);
    assert(ids.contains(id) <==> tt.map@.dom().contains(id));
}

/// The tasks of a group are those that can be found and are in it.
pub proof fn law_group_has_its_members(tt: TaskTable, pgid: Pgid, t: usize)
    ensures
        tt.group(pgid).contains(t) <==> tt.tasks@[t as int].pgid == pgid && exists|id: usize|
            #[trigger] tt.map@.contains_key(id) && tt.map@[id] == t,
{
    crate::tables::lemma_filter_holds(tt.members(), grouped(tt.tasks@, pgid), t);
    lemma_members(tt, t);
}

/// The tasks with a tag are those that can be found and have it.
pub proof fn law_tag_finds_its_tasks(tt: TaskTable, tag: Seq<char>, t: usize)
    ensures
        tt.members().filter(tagged(tt.tasks@, tag)).contains(t) <==> tt.tasks@[t as int].info.tag@
            == tag && exists|id: usize| #[trigger] tt.map@.contains_key(id) && tt.map@[id] == t,
{
    crate::tables::lemma_filter_holds(tt.members(), tagged(tt.tasks@, tag), t);
    lemma_members(tt, t);
}

proof fn lemma_members(tt: TaskTable, t: usize)
    ensures
        tt.members().contains(t) <==> exists|id: usize| #[trigger]
            tt.map@.contains_key(id) && tt.map@[id] == t,
{
    let ids = crate::tables::in_order(tt.map@.dom());
    crate::tables::lemma_in_order_lists(tt.map@.dom());
    if tt.members().contains(t) {
        let i = choose|i: int| 0 <= i < tt.members().len() && tt.members()[i] == t;
        assert(ids.contains(ids[i]));
        assert(tt.map@.dom().contains(ids[i]));
        assert(tt.map@.contains_key(ids[i]) && tt.map@[ids[i]] == t);
    }
    if exists|id: usize| #[trigger] tt.map@.contains_key(id) && tt.map@[id] == t {
        let id = choose|id: usize| #[trigger] tt.map@.contains_key(id) && tt.map@[id] == t;
        assert(tt.map@.dom().contains(id));
        assert(ids.contains(id));
        let i = choose|i: int| 0 <= i < ids.len() && ids[i] == id;
        assert(tt.members()[i] == t);
    }
}

/// A number is listed as active if its task has no status yet, and as over if it has one; both
/// lists are in increasing order.
pub proof fn law_status_tells_the_ended(tt: TaskTable, id: usize)
    ensures
        ({
            let ids = crate::tables::in_order(tt.map@.dom());
            let up = ids.filter(alive(tt.tasks@, tt.map@));
            let down = ids.filter(over(tt.tasks@, tt.map@));
            &&& up.contains(id) <==> tt.map@.contains_key(id)
                && tt.tasks@[tt.map@[id] as int].info.status is None
            &&& down.contains(id) <==> tt.map@.contains_key(id)
                && tt.tasks@[tt.map@[id] as int].info.status is Some
            &&& forall|i: int, j: int| 0 <= i < j < up.len() ==> up[i] < up[j]
            &&& forall|i: int, j: int| 0 <= i < j < down.len() ==> down[i] < down[j]
        }),
{
    let ids = crate::tables::in_order(tt.map@.dom());
    crate::tables::lemma_in_order_lists(tt.map@.dom());
    crate::tables::lemma_filter_holds(ids, alive(tt.tasks@, tt.map@), id);
    crate::tables::lemma_filter_holds(ids, over(tt.tasks@, tt.map@), id);
    crate::tables::lemma_ascending_filter(ids, alive(tt.tasks@, tt.map@));
    crate::tables::lemma_ascending_filter(ids, over(tt.tasks@, tt.map@));
    assert(ids.contains(id) <==> tt.map@.dom().contains(id));
}

/// A task that ends keeps its number, its family and its signals; it keeps the code, and the
/// low byte of it as its status; it has no descriptor and no thread left. Its parent is told,
/// and nobody else.
pub proof fn law_end_leaves_a_code(a: Seq<Task>, t: usize, code: usize, b: Seq<Task>, x: usize)
    requires
        t < a.len() <= usize::MAX,
        x < a.len(),
        ended_in(a, t, code, b),
    ensures
        b.len() == a.len(),
        b[t as int].exit_code == code,
        b[t as int].info.status is Some,
        0 <= b[t as int].info.status->0 < 256,
        b[t as int].info.status->0 % 256 == code % 256,
        b[t as int].info.id == a[t as int].info.id,
        b[t as int].parent == a[t as int].parent && b[t as int].subtasks == a[t as int].subtasks,
        b[t as int].pgid == a[t as int].pgid && b[t as int].sig_queue == a[t as int].sig_queue,
        b[t as int].files@.len() == 0 && b[t as int].threads@.len() == 0,
        x != t && a[t as int].parent != Some(x) ==> b[x as int] == a[x as int],
        x != t ==> b[x as int].info == a[x as int].info && b[x as int].files == a[x as int].files
            && b[x as int].exit_code == a[x as int].exit_code && b[x as int].threads
            == a[x as int].threads && b[x as int].sig_queue == a[x as int].sig_queue,
        x != t && a[t as int].parent == Some(x) ==> b[x as int].ev@.ev & EvFlag::CHILD_QUIT
            == EvFlag::CHILD_QUIT,
        b[t as int].ev@.ev & EvFlag::PROC_QUIT == EvFlag::PROC_QUIT,
{
    let (e, f) = (a[t as int].ev@.ev, a[x as int].ev@.ev);
    let (p, c) = (EvFlag::PROC_QUIT, EvFlag::CHILD_QUIT);
    assert(((e & !0u32) | p) & p == p && (((((e & !0u32) | p) & !0u32) | c) & p == p) && ((f & !0u32)
        | c) & c == c) by (bit_vector);
}

/// Taking a task out of the table leaves the other tasks as they are, but for the parent of
/// its children and the list of the root; it keeps its number and its code, and has nothing
/// open and nothing attached any more.
pub proof fn law_reaping_touches_one(a: Seq<Task>, t: usize, root: Option<usize>, b: Seq<Task>, x: usize)
    requires
        t < a.len() <= usize::MAX,
        x < a.len(),
        reaped_in(a, t, root, b),
    ensures
        b.len() == a.len(),
        b[t as int].info.id == a[t as int].info.id && b[t as int].info.status is Some,
        b[t as int].exit_code == a[t as int].exit_code,
        b[t as int].files@.len() == 0,
        b[t as int].sem_ctx.arrays@.len() == 0 && b[t as int].sem_ctx.undos@.len() == 0,
        b[t as int].shm_ctx.ids@.len() == 0,
        root != Some(t) ==> b[t as int].subtasks@.len() == 0,
        x != t ==> {
            let (c, d) = (a[x as int], b[x as int]);
            &&& d == (Task { parent: d.parent, subtasks: d.subtasks, ..c })
            &&& root != Some(x) ==> d.subtasks@ == c.subtasks@
            &&& !a[t as int].subtasks@.contains(x) ==> d.parent == c.parent
            &&& root is None ==> d.parent == c.parent
        },
{
    assert(reaped(a[x as int], x, t, root, a[t as int].subtasks@, b[x as int]));
    assert(reaped(a[t as int], t, t, root, a[t as int].subtasks@, b[t as int]));
}

/// No child is lost when another task takes the children over: it has them behind its own,
/// and is their parent; the task that had them lists none any more, and all else stays.
pub proof fn law_children_are_handed_over(a: Seq<Task>, t: usize, r: usize, b: Seq<Task>, c: usize)
    requires
        t < a.len() <= usize::MAX,
        r < a.len(),
        c < a.len(),
        r != t,
        handed_over_in(a, t, r, b),
    ensures
        b.len() == a.len(),
        b[t as int].subtasks@.len() == 0,
        b[r as int].subtasks@ == a[r as int].subtasks@ + a[t as int].subtasks@,
        a[t as int].subtasks@.contains(c) ==> b[c as int].parent == Some(r),
        !a[t as int].subtasks@.contains(c) ==> b[c as int].parent == a[c as int].parent,
        c != t && c != r ==> b[c as int].subtasks@ == a[c as int].subtasks@,
        b[c as int] == (Task {
            parent: b[c as int].parent,
            subtasks: b[c as int].subtasks,
            ..a[c as int]
        }),
{
    let ch = a[t as int].subtasks@;
    assert(handed_over(a[c as int], c, t, r, ch, b[c as int]));
    assert(handed_over(a[r as int], r, t, r, ch, b[r as int]));
    assert(handed_over(a[t as int], t, t, r, ch, b[t as int]));
    assert(Seq::<usize>::empty() + Seq::<usize>::empty() =~= Seq::<usize>::empty());
    assert(a[c as int].subtasks@ + Seq::<usize>::empty() =~= a[c as int].subtasks@);
}

/// A semaphore from which a task took one unit has its count again when the task is taken out
/// of the table.
pub proof fn law_collected_task_gives_back(
    t: Task,
    i: usize,
    num: usize,
    before: Sema,
    a: Shared,
    b: Shared,
)
    requires
        i < a.sems@.items.len(),
        num < a.sems@.items[i as int].sems@.len(),
        before.taken(a.sems@.items[i as int].sems@[num as int]),
        t.sem_ctx.comes_back(i, num) == 1,
        given_up(t, a, b),
    ensures
        b.sems@.items[i as int].sems@[num as int].cnt == before.cnt,
{
    crate::ipc::law_undo_restores_the_count(
        before,
        a.sems@.items[i as int].sems@[num as int],
        b.sems@.items[i as int].sems@[num as int],
    );
}

/// No child is lost when its parent is taken out of the table: the root lists it and is its
/// parent.
pub proof fn law_orphans_go_to_the_root(a: Seq<Task>, t: usize, root: usize, b: Seq<Task>, c: usize)
    requires
        t < a.len(),
        root < a.len(),
        c < a.len(),
        a.len() <= usize::MAX,
        reaped_in(a, t, Some(root), b),
        a[t as int].subtasks@.contains(c),
    ensures
        b[c as int].parent == Some(root),
        b[root as int].subtasks@.contains(c),
{
    let ch = a[t as int].subtasks@;
    assert(reaped(a[c as int], c, t, Some(root), ch, b[c as int]));
    assert(reaped(a[root as int], root, t, Some(root), ch, b[root as int]));
    let i = choose|i: int| 0 <= i < ch.len() && ch[i] == c;
    let base = if root == t {
        Seq::<usize>::empty()
    } else {
        a[root as int].subtasks@
    };
    assert(b[root as int].subtasks@ =~= base + ch);
    assert((base + ch)[base.len() + i] == c);
}

/// Adopted children have their new parent, which lists them behind its own; nobody else is
/// touched, and nothing else about anybody.
pub proof fn law_adopted_children_come_last(t: Task, x: usize, r: usize, ch: Seq<usize>, post: Task)
    requires
        adopted(t, x, r, ch, post),
    ensures
        ch.contains(x) ==> post.parent == Some(r),
        !ch.contains(x) ==> post.parent == t.parent,
        x == r ==> post.subtasks@.len() == t.subtasks@.len() + ch.len() && post.subtasks@.take(
            t.subtasks@.len() as int,
        ) == t.subtasks@ && post.subtasks@.skip(t.subtasks@.len() as int) == ch,
        x != r ==> post.subtasks@ == t.subtasks@,
        post.info == t.info && post.files == t.files && post.pid == t.pid,
{
    if x == r {
        assert(post.subtasks@.take(t.subtasks@.len() as int) =~= t.subtasks@);
        assert(post.subtasks@.skip(t.subtasks@.len() as int) =~= ch);
    }
}

/// A task that gives up what it has drops its files and lets go of its arrays and segments;
/// the objects themselves and their keys stay.
pub proof fn law_given_up_things_stay_in_place(t: Task, a: Shared, b: Shared, i: int)
    requires
        given_up(t, a, b),
        0 <= i < a.sems@.items.len(),
    ensures
        t.files@ == Map::<usize, FLike>::empty() ==> b.files@ == a.files@,
        b.sems@.keys == a.sems@.keys,
        b.sems@.items.len() == a.sems@.items.len(),
        b.sems@.items[i].sems@.len() == a.sems@.items[i].sems@.len(),
        b.sems@.items[i].ds == a.sems@.items[i].ds,
        b.shms@.keys == a.shms@.keys,
        b.shms@.items == a.shms@.items,
{
    crate::process::task::law_descriptors_are_dropped_in_order(t.files@, Seq::empty(), 0, a.files@);
}

} // verus!
