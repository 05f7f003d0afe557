//! The kernel as a whole: all its parts, and what a machine asks of them.
pub mod dispatch;
pub mod laws;
pub mod life;
pub mod load;
pub mod sys_file;
pub mod sys_mem;
pub mod sys_misc;
pub mod sys_proc;

use std::collections::VecDeque;

use vstd::prelude::*;

use crate::consts::{MAX_CPU, N_CHAINS};
use crate::fs::block_cache::{BlockCache, CacheSlot};
use crate::fs::configfs::{ConfigFS, Tree};
use crate::fs::files::Files;
use crate::fs::mounts::MountTable;
use crate::ipc::{shm_get_or_create, SemArr, Stock};
use crate::memory::frames::FramePool;
use crate::memory::slab::KStk;
use crate::process::{Shared, Task, TaskTable};
use crate::sync::KernLock;
use crate::util::{ser, Clock};

pub use crate::fs::demo::demo_config_subsystem;

verus! {

broadcast use vstd::std_specs::btree::group_btree_axioms;

/// The kernel: tasks and what they share, the caches and frames, the processors with the
/// task that each runs, the mounts, the configuration, the terminal, the clock and the lock.
pub struct Kernel {
    pub tasks: TaskTable,
    pub cache: BlockCache,
    pub pool: FramePool,
    pub cpus: Vec<Option<usize>>,
    pub mnt: MountTable,
    pub configfs: ConfigFS,
    pub shared: Shared,
    pub tty_buf: VecDeque<u8>,
    pub clock: Clock,
    pub gkl: KernLock,
}

/// How many bytes the terminal keeps.
pub const TTY_CAP: usize = 4096;

/// What a task has open and attached is still there after everything has grown.
pub proof fn lemma_still_backed(
    t: Task,
    st: Files,
    cf: Tree,
    sems: Stock<SemArr>,
    shms: Stock<Vec<usize>>,
    st2: Files,
    cf2: Tree,
    sems2: Stock<SemArr>,
    shms2: Stock<Vec<usize>>,
)
    requires
        crate::process::table::backed(t, st, cf, sems, shms),
        st.grown_to(st2),
        cf.items.len() <= cf2.items.len(),
        sems.items.len() <= sems2.items.len(),
        shms.items.len() <= shms2.items.len(),
    ensures
        crate::process::table::backed(t, st2, cf2, sems2, shms2),
{
    assert forall|fd: usize| #[trigger] t.files@.contains_key(fd) implies t.files@[fd].wf(
        st2,
        cf2,
    ) by {
        assert(t.files@[fd].wf(st, cf));
    }
}

/// `b` is a cache with the same blocks as `a`, none of them modified.
pub open spec fn written_back(a: BlockCache, b: BlockCache) -> bool {
    &&& b.width == a.width
    &&& b.ops == a.ops
    &&& b.chains@.len() == a.chains@.len()
    &&& forall|c: int|
        0 <= c < a.chains@.len() ==> all_clean(
            a.chains@[c].items@,
            (#[trigger] b.chains@[c]).items@,
        )
}

/// `b` holds the blocks of `a`, none of them modified.
pub open spec fn all_clean(a: Seq<CacheSlot>, b: Seq<CacheSlot>) -> bool {
    &&& a.len() == b.len()
    &&& forall|i: int|
        0 <= i < a.len() ==> #[trigger] b[i] == (CacheSlot { modified: false, ..a[i] })
}

impl Kernel {
    /// All parts are sound and everything that one part names in another is there.
    pub open spec fn wf(self) -> bool {
        &&& self.tasks.wf()
        &&& self.shared.wf()
        &&& self.tasks.all_backed(self.shared, self.configfs@)
        &&& self.cache.wf()
        &&& self.cache.width > 0
        &&& self.cpus@.len() == MAX_CPU
        &&& forall|c: int|
            0 <= c < self.cpus@.len() ==> (#[trigger] self.cpus@[c] is Some ==> self.cpus@[c]->0
                < self.tasks.tasks@.len())
        &&& crate::fs::mounts::by_weight(self.mnt.entries@)
        &&& self.configfs.wf()
        &&& self.pool.slots@.len() == self.pool.cap
    }

    /// The task that a processor runs.
    pub open spec fn running(self, cpu: usize) -> Option<usize> {
        if cpu < self.cpus@.len() {
            self.cpus@[cpu as int]
        } else {
            None
        }
    }

    /// A kernel with `nf` free frames and nothing else.
    pub fn new(nf: usize) -> (r: Self)
        ensures
            r.wf(),
            r.tasks.tasks@.len() == 0,
            r.tasks.map@ == Map::<usize, usize>::empty(),
            r.tasks.seq == 1,
            r.tasks.root is None,
            r.cache.width == N_CHAINS,
            r.cache.ops == 0,
            forall|i: int| 0 <= i < N_CHAINS ==> (#[trigger] r.cache.chains@[i]).items@.len() == 0,
            r.pool.slots@ == Seq::new(nf as nat, |i: int| true),
            crate::memory::frames::free_in(r.pool.slots@) == nf,
            forall|c: int| 0 <= c < MAX_CPU ==> #[trigger] r.cpus@[c] is None,
            r.mnt.entries@.len() == 0,
            r.configfs@ == (Tree {
                types: Seq::empty(),
                items: Seq::empty(),
                groups: Seq::empty(),
                subsystems: Map::empty(),
            }),
            r.shared.files@ == Files::empty(),
            r.shared.sems@.items.len() == 0,
            r.shared.sems@.keys == Map::<usize, usize>::empty(),
            r.shared.shms@.items.len() == 0,
            r.shared.shms@.keys == Map::<usize, usize>::empty(),
            r.tty_buf@.len() == 0,
            r.clock == (Clock { clk: 0, clk_all: 0 }),
            r.gkl == (KernLock { flag: false, holder: 0, depth: 0 }),
    {
        let mut cpus: Vec<Option<usize>> = Vec::new();
        let mut c: usize = 0;
        while c < MAX_CPU
            invariant
                c <= MAX_CPU,
                cpus@.len() == c,
                forall|i: int| 0 <= i < c ==> #[trigger] cpus@[i] is None,
            decreases MAX_CPU - c,
        {
            cpus.push(None);
            c += 1;
        }
        Kernel {
            tasks: TaskTable::new(),
            cache: BlockCache::new(N_CHAINS),
            pool: FramePool::new(nf),
            cpus,
            mnt: MountTable::new(),
            configfs: ConfigFS::new(),
            shared: Shared::new(),
            tty_buf: VecDeque::new(),
            clock: Clock::new(),
            gkl: KernLock::new(),
        }
    }

    /// A timer interrupt: every modified block is written back under the kernel lock, which
    /// `id` enters and leaves.
    pub fn tick(&mut self, id: usize)
        requires
            old(self).wf(),
            old(self).gkl.can_enter(id),
        ensures
            final(self).wf(),
            written_back(old(self).cache, final(self).cache),
            final(self).gkl == old(self).gkl.entered(id).left(),
            *final(self) == (Kernel {
                cache: final(self).cache,
                gkl: final(self).gkl,
                ..*old(self)
            }),
    {
        self.cache.sync_all(&mut self.gkl, id);
    }

    /// The task that a processor runs.
    pub fn cur_task(&self, cpu: usize) -> (r: Option<usize>)
        ensures
            r == self.running(cpu),
    {
        if cpu >= self.cpus.len() {
            return None;
        }
        self.cpus[cpu]
    }

    /// Puts a task on a processor; a processor that there is not is passed over.
    pub fn set_cur(&mut self, cpu: usize, t: Option<usize>)
        requires
            old(self).wf(),
            t is Some ==> t->0 < old(self).tasks.tasks@.len(),
        ensures
            final(self).wf(),
            final(self).cpus@ == if cpu < MAX_CPU {
                old(self).cpus@.update(cpu as int, t)
            } else {
                old(self).cpus@
            },
            *final(self) == (Kernel { cpus: final(self).cpus, ..*old(self) }),
    {
        if cpu < self.cpus.len() {
            self.cpus[cpu] = t;
        }
    }

    /// Whether a page fault can be handled: some task is running.
    pub fn handle_pgfault(&self, _addr: usize) -> (r: bool)
        ensures
            r == (self.running(0) is Some),
    {
        self.cur_task(0).is_some()
    }

    /// Whether a page fault can be handled, whatever kind of access it was.
    pub fn handle_pgfault_ext(&self, addr: usize, _access: u8) -> (r: bool)
        ensures
            r == (self.running(0) is Some),
    {
        self.handle_pgfault(addr)
    }

    /// Takes a byte from the terminal in; a carriage return counts as a line feed. Nothing
    /// is taken in while the buffer is full.
    pub fn tty_push(&mut self, c: u8)
        ensures
            final(self).tty_buf@ == if old(self).tty_buf@.len() < TTY_CAP {
                old(self).tty_buf@.push(
                    if c == 13 {
                        10u8
                    } else {
                        c
                    },
                )
            } else {
                old(self).tty_buf@
            },
            *final(self) == (Kernel { tty_buf: final(self).tty_buf, ..*old(self) }),
    {
        let byte: u8 = ser(c);
        if self.tty_buf.len() < TTY_CAP {
            self.tty_buf.push_back(byte);
        }
    }

    /// The oldest byte from the terminal.
    pub fn tty_pop(&mut self) -> (r: Option<u8>)
        ensures
            old(self).tty_buf@.len() == 0 ==> r is None && final(self).tty_buf@ == old(
                self,
            ).tty_buf@,
            old(self).tty_buf@.len() > 0 ==> r == Some(old(self).tty_buf@[0])
                && final(self).tty_buf@ == old(self).tty_buf@.skip(1),
            *final(self) == (Kernel { tty_buf: final(self).tty_buf, ..*old(self) }),
    {
        let r = self.tty_buf.pop_front();
        proof {
            if old(self).tty_buf@.len() > 0 {
                assert(self.tty_buf@ =~= old(self).tty_buf@.skip(1));
            }
        }
        r
    }

    /// The semaphore array of a key, with one reference more to it.
    pub fn get_sem(&mut self, key: u32, nsems: usize, flags: usize) -> (r: Result<
        usize,
        &'static str,
    >)
        requires
            old(self).wf(),
            key == 0 ==> exists|k: usize|
                1 <= k <= u32::MAX && !old(self).shared.sems@.keys.contains_key(k),
            key != 0 && old(self).shared.sems@.live(key as usize) ==> old(
                self,
            ).shared.sems@.refs[old(self).shared.sems@.keys[key as usize] as int] < usize::MAX,
        ensures
            final(self).wf(),
            got_sem(
                old(self).shared.sems@,
                key,
                nsems,
                flags,
                r,
                final(self).shared.sems@,
            ),
            *final(self) == (Kernel {
                shared: Shared { sems: final(self).shared.sems, ..old(self).shared },
                ..*old(self)
            }),
    {
        let r = SemArr::get_or_create(key, nsems, flags, &mut self.shared.sems);
        proof {
            self.lemma_shared_grew(*old(self));
        }
        r
    }

    /// The shared memory segment of a key, with one reference more to it.
    pub fn get_shm(&mut self, key: usize, npages: usize) -> (r: usize)
        requires
            old(self).wf(),
            old(self).shared.shms@.live(key) ==> old(self).shared.shms@.refs[old(
                self,
            ).shared.shms@.keys[key] as int] < usize::MAX,
        ensures
            final(self).wf(),
            got_shm(old(self).shared.shms@, key, npages, r, final(self).shared.shms@),
            *final(self) == (Kernel {
                shared: Shared { shms: final(self).shared.shms, ..old(self).shared },
                ..*old(self)
            }),
    {
        let r: usize = shm_get_or_create(key, npages, &mut self.shared.shms);
        proof {
            self.lemma_shared_grew(*old(self));
        }
        r
    }

    /// With the same tasks, everything stays backed when what they share has grown.
    pub proof fn lemma_shared_grew(self, before: Kernel)
        requires
            before.tasks.all_backed(before.shared, before.configfs@),
            self.tasks.tasks == before.tasks.tasks,
            before.shared.files@.grown_to(self.shared.files@),
            before.configfs@.items.len() <= self.configfs@.items.len(),
            before.shared.sems@.items.len() <= self.shared.sems@.items.len(),
            before.shared.shms@.items.len() <= self.shared.shms@.items.len(),
        ensures
            self.tasks.all_backed(self.shared, self.configfs@),
    {
        assert forall|x: int| 0 <= x < self.tasks.tasks@.len() implies crate::process::table::backed(
            #[trigger] self.tasks.tasks@[x],
            self.shared.files@,
            self.configfs@,
            self.shared.sems@,
            self.shared.shms@,
        ) by {
            lemma_still_backed(
                before.tasks.tasks@[x],
                before.shared.files@,
                before.configfs@,
                before.shared.sems@,
                before.shared.shms@,
                self.shared.files@,
                self.configfs@,
                self.shared.sems@,
                self.shared.shms@,
            );
        }
    }
}

/// `b` is a table that differs from `a` in one task at most.
pub open spec fn only_task(a: TaskTable, t: usize, b: TaskTable) -> bool {
    &&& b.tasks@.len() == a.tasks@.len()
    &&& forall|x: int|
        0 <= x < a.tasks@.len() && x != t ==> #[trigger] b.tasks@[x] == a.tasks@[x]
    &&& b == (TaskTable { tasks: b.tasks, ..a })
}

/// A kernel in which one task has changed, and what tasks share has grown, is still sound
/// as far as tasks go.
pub proof fn lemma_task_changed(a: Kernel, t: usize, b: Kernel)
    requires
        a.wf(),
        t < a.tasks.tasks@.len(),
        only_task(a.tasks, t, b.tasks),
        crate::process::table::links_ok(b.tasks.tasks@[t as int], b.tasks.tasks@.len()),
        crate::process::table::backed(
            b.tasks.tasks@[t as int],
            b.shared.files@,
            b.configfs@,
            b.shared.sems@,
            b.shared.shms@,
        ),
        a.shared.files@.grown_to(b.shared.files@),
        a.configfs@.items.len() <= b.configfs@.items.len(),
        a.shared.sems@.items.len() <= b.shared.sems@.items.len(),
        a.shared.shms@.items.len() <= b.shared.shms@.items.len(),
    ensures
        b.tasks.wf(),
        b.tasks.all_backed(b.shared, b.configfs@),
{
    let (x0, y0) = (a.tasks.tasks@, b.tasks.tasks@);
    assert forall|x: int| 0 <= x < y0.len() implies crate::process::table::links_ok(
        #[trigger] y0[x],
        y0.len(),
    ) by {
        assert(crate::process::table::links_ok(x0[x], x0.len()));
    }
    assert forall|x: int| 0 <= x < y0.len() implies crate::process::table::backed(
        #[trigger] y0[x],
        b.shared.files@,
        b.configfs@,
        b.shared.sems@,
        b.shared.shms@,
    ) by {
        if x != t {
            lemma_still_backed(
                x0[x],
                a.shared.files@,
                a.configfs@,
                a.shared.sems@,
                a.shared.shms@,
                b.shared.files@,
                b.configfs@,
                b.shared.sems@,
                b.shared.shms@,
            );
        }
    }
}

/// The task has the same relatives and the same things open and attached.
pub open spec fn same_ties(t: Task, u: Task) -> bool {
    &&& u.parent == t.parent
    &&& u.subtasks == t.subtasks
    &&& u.files == t.files
    &&& u.futexes == t.futexes
    &&& u.buckets == t.buckets
    &&& u.sem_ctx == t.sem_ctx
    &&& u.shm_ctx == t.shm_ctx
}

/// A kernel whose tasks keep their relatives and what they have open and attached is still
/// sound as far as tasks go.
pub proof fn lemma_ties_kept(a: Kernel, b: Kernel)
    requires
        a.wf(),
        b.shared == a.shared,
        b.configfs == a.configfs,
        b.tasks.map == a.tasks.map,
        b.tasks.root == a.tasks.root,
        b.tasks.tasks@.len() == a.tasks.tasks@.len(),
        forall|x: int|
            0 <= x < a.tasks.tasks@.len() ==> same_ties(
                a.tasks.tasks@[x],
                #[trigger] b.tasks.tasks@[x],
            ),
    ensures
        b.tasks.wf(),
        b.tasks.all_backed(b.shared, b.configfs@),
{
    let (x0, y0) = (a.tasks.tasks@, b.tasks.tasks@);
    assert forall|x: int| 0 <= x < y0.len() implies crate::process::table::links_ok(
        #[trigger] y0[x],
        y0.len(),
    ) by {
        assert(crate::process::table::links_ok(x0[x], x0.len()));
    }
    assert forall|x: int| 0 <= x < y0.len() implies crate::process::table::backed(
        #[trigger] y0[x],
        b.shared.files@,
        b.configfs@,
        b.shared.sems@,
        b.shared.shms@,
    ) by {
        assert(crate::process::table::backed(
            x0[x],
            b.shared.files@,
            b.configfs@,
            b.shared.sems@,
            b.shared.shms@,
        ));
    }
}

/// The outcome of asking for the semaphore array of a key.
pub open spec fn got_sem(
    a: Stock<SemArr>,
    key: u32,
    nsems: usize,
    flags: usize,
    r: Result<usize, &'static str>,
    b: Stock<SemArr>,
) -> bool {
    if key != 0 && a.live(key as usize) {
        if crate::ipc::exclusive(flags) {
            r == Err::<usize, &'static str>("eexist") && b == a
        } else {
            r == Ok::<usize, &'static str>(a.keys[key as usize]) && b == a.kept(
                a.keys[key as usize],
            )
        }
    } else {
        let arr = b.items[a.items.len() as int];
        &&& r == Ok::<usize, &'static str>(a.items.len() as usize)
        &&& b == a.added(arr.ds.perm.key as usize, arr)
        &&& crate::ipc::is_fresh_array(arr, arr.ds.perm.key, nsems, flags)
        &&& if key == 0 {
            crate::ipc::is_private_key(a.keys.dom(), arr.ds.perm.key as usize)
        } else {
            arr.ds.perm.key == key
        }
    }
}

/// The outcome of asking for the shared memory segment of a key.
pub open spec fn got_shm(
    a: Stock<Vec<usize>>,
    key: usize,
    npages: usize,
    r: usize,
    b: Stock<Vec<usize>>,
) -> bool {
    if a.live(key) {
        r == a.keys[key] && b == a.kept(r)
    } else {
        let seg = b.items[r as int];
        &&& r == a.items.len()
        &&& b == a.added(key, seg)
        &&& seg@ == Seq::new(npages as nat, |i: int| 0usize)
    }
}

/// The same key leads to the same array as long as something refers to it.
pub proof fn law_same_key_same_array(
    a: Stock<SemArr>,
    key: u32,
    nsems: usize,
    flags: usize,
    first: Result<usize, &'static str>,
    b: Stock<SemArr>,
    again: usize,
    flags_again: usize,
    second: Result<usize, &'static str>,
    c: Stock<SemArr>,
)
    requires
        a.wf(),
        a.items.len() < usize::MAX,
        key != 0,
        !crate::ipc::exclusive(flags),
        !crate::ipc::exclusive(flags_again),
        got_sem(a, key, nsems, flags, first, b),
        got_sem(b, key, again, flags_again, second, c),
        a.live(key as usize) ==> a.refs[a.keys[key as usize] as int] < usize::MAX,
    ensures
        first is Ok,
        second == first,
{
}

/// Bytes come from the terminal in the order in which they went in.
pub proof fn law_terminal_is_first_in_first_out(s: Seq<u8>, c: u8)
    ensures
        s.push(c).len() > 0,
        s.len() > 0 ==> s.push(c)[0] == s[0] && s.push(c).skip(1) == s.skip(1).push(c),
        s.len() == 0 ==> s.push(c)[0] == c,
{
    if s.len() > 0 {
        assert(s.push(c).skip(1) =~= s.skip(1).push(c));
    }
}

/// What was written back keeps its number and its bytes and is modified no more.
pub proof fn law_written_back_blocks_are_clean(a: BlockCache, b: BlockCache, c: int, i: int)
    requires
        written_back(a, b),
        0 <= c < a.chains@.len(),
        0 <= i < a.chains@[c].items@.len(),
    ensures
        b.chains@[c].items@.len() == a.chains@[c].items@.len(),
        !b.chains@[c].items@[i].modified,
        b.chains@[c].items@[i].id == a.chains@[c].items@[i].id,
        b.chains@[c].items@[i].payload == a.chains@[c].items@[i].payload,
        b.width == a.width,
        b.ops == a.ops,
{
    assert(all_clean(a.chains@[c].items@, b.chains@[c].items@));
    assert(b.chains@[c].items@[i] == (CacheSlot { modified: false, ..a.chains@[c].items@[i] }));
}

/// What runs on a processor is what stands in its place, and nothing runs on one that there
/// is not.
pub proof fn law_running_task_is_the_processors(k: Kernel, cpu: usize)
    requires
        k.wf(),
    ensures
        cpu >= MAX_CPU ==> k.running(cpu) is None,
        cpu < MAX_CPU ==> k.running(cpu) == k.cpus@[cpu as int],
        k.running(cpu) is Some ==> k.running(cpu)->0 < k.tasks.tasks@.len(),
{
}

/// A key that is in use gives its array, unless the caller wants it for itself; a key that
/// is not gives a new array with the number of semaphores that was asked for, all at zero
/// and under that key.
pub proof fn law_key_gives_its_array(
    a: Stock<SemArr>,
    key: u32,
    nsems: usize,
    flags: usize,
    r: Result<usize, &'static str>,
    b: Stock<SemArr>,
)
    requires
        a.wf(),
        a.items.len() < usize::MAX,
        key != 0,
        got_sem(a, key, nsems, flags, r, b),
        a.live(key as usize) ==> a.refs[a.keys[key as usize] as int] < usize::MAX,
    ensures
        a.live(key as usize) && crate::ipc::exclusive(flags) ==> r == Err::<usize, &'static str>(
            "eexist",
        ) && b == a,
        a.live(key as usize) && !crate::ipc::exclusive(flags) ==> {
            &&& r == Ok::<usize, &'static str>(a.keys[key as usize])
            &&& b.items == a.items
            &&& b.keys == a.keys
            &&& b.refs[r->Ok_0 as int] == a.refs[r->Ok_0 as int] + 1
        },
        !a.live(key as usize) ==> {
            &&& r == Ok::<usize, &'static str>(a.items.len() as usize)
            &&& b.keys[key as usize] == r->Ok_0
            &&& b.items.len() == a.items.len() + 1
            &&& b.items[r->Ok_0 as int].sems@.len() == nsems
            &&& b.items[r->Ok_0 as int].ds.perm.key == key
        },
{
}

/// A key that is in use gives its segment; a key that is not gives a new one of as many
/// pages as were asked for.
pub proof fn law_key_gives_its_segment(
    a: Stock<Vec<usize>>,
    key: usize,
    npages: usize,
    r: usize,
    b: Stock<Vec<usize>>,
)
    requires
        a.wf(),
        a.items.len() < usize::MAX,
        got_shm(a, key, npages, r, b),
        a.live(key) ==> a.refs[a.keys[key] as int] < usize::MAX,
    ensures
        a.live(key) ==> {
            &&& r == a.keys[key]
            &&& b.items == a.items
            &&& b.keys == a.keys
            &&& b.refs[r as int] == a.refs[r as int] + 1
        },
        !a.live(key) ==> {
            &&& r == a.items.len()
            &&& b.keys[key] == r
            &&& b.items.len() == a.items.len() + 1
            &&& b.items[r as int]@.len() == npages
            &&& forall|i: int| 0 <= i < npages ==> #[trigger] b.items[r as int]@[i] == 0
        },
{
}

} // verus!
