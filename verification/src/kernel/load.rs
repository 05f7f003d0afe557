//! Processors, frames and paths.

use vstd::prelude::*;

use crate::consts::{MAX_CPU, MEM_OFF, PAGE_SZ};
use crate::kernel::Kernel;
use crate::text::normalize;
use crate::util::{compute_load_balance, dtk};

verus! {

/// `post` are the frames once those at some addresses are free.
pub open spec fn freed(s: Seq<bool>, pages: Seq<usize>, post: Seq<bool>) -> bool {
    &&& post.len() == s.len()
    &&& forall|i: int|
        0 <= i < s.len() ==> #[trigger] post[i] == (s[i] || names_frame(pages, i))
}

/// One of the addresses lies in frame `i`.
pub open spec fn names_frame(pages: Seq<usize>, i: int) -> bool {
    exists|k: int| 0 <= k < pages.len() && (#[trigger] pages[k] - MEM_OFF) / PAGE_SZ as int == i
}

impl Kernel {
    /// A tick of a processor.
    pub fn schedule_tick(&mut self, cpu: usize)
        ensures
            *final(self) == (Kernel { clock: old(self).clock.ticked(cpu), ..*old(self) }),
    {
        dtk(&mut self.clock, cpu);
    }

    /// What each processor says of itself: its load, the group of its task, and whether that
    /// has ended.
    fn survey(&self) -> (r: (Vec<usize>, Vec<i32>, Vec<bool>))
        requires
            self.wf(),
        ensures
            r.0@ == self.counts(),
            r.1@ == self.groups(),
            r.2@ == self.stalled(),
    {
        let mut counts: Vec<usize> = Vec::new();
        let mut groups: Vec<i32> = Vec::new();
        let mut stalled: Vec<bool> = Vec::new();
        let mut c: usize = 0;
        while c < MAX_CPU
            invariant
                self.wf(),
                c <= MAX_CPU,
                counts@ == self.counts().take(c as int),
                groups@ == self.groups().take(c as int),
                stalled@ == self.stalled().take(c as int),
            decreases MAX_CPU - c,
        {
            let ghost (ca, ga, sa) = (self.counts(), self.groups(), self.stalled());
            match self.cpus[c] {
                Some(t) => {
                    counts.push(self.tasks.tasks[t].n_children().wrapping_add(1));
                    groups.push(self.tasks.tasks[t].pgid);
                    stalled.push(self.tasks.tasks[t].done());
                },
                None => {
                    counts.push(0);
                    groups.push(0);
                    stalled.push(false);
                },
            }
            proof {
                assert(ca.take(c + 1) =~= ca.take(c as int).push(ca[c as int]));
                assert(ga.take(c + 1) =~= ga.take(c as int).push(ga[c as int]));
                assert(sa.take(c + 1) =~= sa.take(c as int).push(sa[c as int]));
            }
            c += 1;
        }
        proof {
            assert(self.counts().take(c as int) =~= self.counts());
            assert(self.groups().take(c as int) =~= self.groups());
            assert(self.stalled().take(c as int) =~= self.stalled());
        }
        (counts, groups, stalled)
    }

    /// The load of each processor: its task and the children of that.
    pub open spec fn counts(self) -> Seq<usize> {
        Seq::new(
            MAX_CPU as nat,
            |c: int|
                match self.cpus@[c] {
                    Some(t) => (self.tasks.tasks@[t as int].subtasks@.len() as usize).wrapping_add(
                        1,
                    ),
                    None => 0usize,
                },
        )
    }

    /// The process group of the task of each processor.
    pub open spec fn groups(self) -> Seq<i32> {
        Seq::new(
            MAX_CPU as nat,
            |c: int|
                match self.cpus@[c] {
                    Some(t) => self.tasks.tasks@[t as int].pgid,
                    None => 0i32,
                },
        )
    }

    /// Whether the task of each processor has ended.
    pub open spec fn stalled(self) -> Seq<bool> {
        Seq::new(
            MAX_CPU as nat,
            |c: int|
                match self.cpus@[c] {
                    Some(t) => self.tasks.tasks@[t as int].is_done(),
                    None => false,
                },
        )
    }

    /// How well a processor is suited for a new task.
    pub open spec fn fitness(self, cpu: int) -> int {
        crate::util::suitability(self.counts(), self.groups(), self.stalled(), cpu)
    }

    /// The first of the processors that are suited best for a new task.
    pub fn balance_load(&self) -> (r: usize)
        requires
            self.wf(),
        ensures
            r < MAX_CPU,
            forall|k: int| 0 <= k < MAX_CPU ==> #[trigger] self.fitness(k) <= self.fitness(r as int),
            forall|k: int| 0 <= k < r ==> #[trigger] self.fitness(k) < self.fitness(r as int),
    {
        let (counts, groups, stalled) = self.survey();
        let r: usize = compute_load_balance(
            counts.as_slice(),
            groups.as_slice(),
            stalled.as_slice(),
        );
        proof {
            assert forall|k: int| 0 <= k < MAX_CPU implies #[trigger] self.fitness(k)
                <= self.fitness(r as int) by {
                assert(crate::util::suitability(counts@, groups@, stalled@, k)
                    <= crate::util::suitability(counts@, groups@, stalled@, r as int));
            }
            assert forall|k: int| 0 <= k < r implies #[trigger] self.fitness(k) < self.fitness(
                r as int,
            ) by {
                assert(crate::util::suitability(counts@, groups@, stalled@, k)
                    < crate::util::suitability(counts@, groups@, stalled@, r as int));
            }
        }
        r
    }

    /// Where a path, once it is normal, leads by the mounts. An empty path leads nowhere.
    pub fn lookup_path(&self, path: &str) -> (r: Result<String, &'static str>)
        ensures
            path@.len() == 0 ==> r is Err && r->Err_0 == "enoent",
            path@.len() > 0 ==> r is Ok && r->Ok_0@ == crate::fs::mounts::resolved(
                self.mnt.entries@,
                crate::text::normalized(path@),
            ),
    {
        if path.is_empty() {
            return Err("enoent");
        }
        let normal = normalize(path);
        self.mnt.resolve(normal.as_str())
    }

    /// The addresses of the first `count` free frames, or of as many as there are; they are
    /// taken.
    pub fn alloc_pages(&mut self, count: usize) -> (r: Vec<usize>)
        requires
            crate::memory::frames::frame_addr(old(self).pool.slots@.len() as int) <= usize::MAX,
        ensures
            ({
                let ids = crate::memory::frames::free_ids(old(self).pool.slots@);
                let n = if count < ids.len() {
                    count as int
                } else {
                    ids.len() as int
                };
                &&& r@.len() == n
                &&& forall|i: int|
                    0 <= i < n ==> #[trigger] r@[i] == crate::memory::frames::frame_addr(
                        ids[i] as int,
                    )
                &&& final(self).pool.slots@.len() == old(self).pool.slots@.len()
                &&& forall|i: int|
                    0 <= i < old(self).pool.slots@.len() ==> #[trigger] final(self).pool.slots@[i]
                        == (old(self).pool.slots@[i] && !ids.take(n).contains(i as usize))
            }),
            final(self).pool.cap == old(self).pool.cap,
            *final(self) == (Kernel { pool: final(self).pool, ..*old(self) }),
            old(self).wf() ==> final(self).wf(),
    {
        let ghost s = self.pool.slots@;
        let ghost ids = crate::memory::frames::free_ids(s);
        let frames = self.pool.batch_alloc(count);
        let mut pages: Vec<usize> = Vec::new();
        let mut n: usize = 0;
        proof {
            assert(frames@ =~= ids.take(frames@.len() as int));
            crate::memory::frames::lemma_free_ids(s);
        }
        while n < frames.len()
            invariant
                n <= frames@.len(),
                frames@.len() <= ids.len(),
                frames@ == ids.take(frames@.len() as int),
                forall|i: int| 0 <= i < ids.len() ==> #[trigger] ids[i] < s.len(),
                crate::memory::frames::frame_addr(s.len() as int) <= usize::MAX,
                pages@.len() == n,
                forall|i: int|
                    0 <= i < n ==> #[trigger] pages@[i] == crate::memory::frames::frame_addr(
                        ids[i] as int,
                    ),
            decreases frames@.len() - n,
        {
            assert(frames@[n as int] == ids[n as int]);
            pages.push(frames[n] * PAGE_SZ + MEM_OFF);
            n += 1;
        }
        pages
    }

    /// Frees the frames in which some addresses lie; an address beyond the frames is passed
    /// over.
    pub fn free_pages(&mut self, pages: &[usize])
        requires
            forall|k: int| 0 <= k < pages@.len() ==> #[trigger] pages@[k] >= MEM_OFF,
        ensures
            freed(old(self).pool.slots@, pages@, final(self).pool.slots@),
            final(self).pool.cap == old(self).pool.cap,
            *final(self) == (Kernel { pool: final(self).pool, ..*old(self) }),
            old(self).wf() ==> final(self).wf(),
    {
        let ghost s = self.pool.slots@;
        let mut n: usize = 0;
        assert(freed(s, pages@.take(0), self.pool.slots@));
        while n < pages.len()
            invariant
                n <= pages@.len(),
                forall|k: int| 0 <= k < pages@.len() ==> #[trigger] pages@[k] >= MEM_OFF,
                freed(s, pages@.take(n as int), self.pool.slots@),
                self.pool.cap == old(self).pool.cap,
                *self == (Kernel { pool: self.pool, ..*old(self) }),
            decreases pages@.len() - n,
        {
            let idx: usize = (pages[n] - MEM_OFF) / PAGE_SZ;
            let ghost entry = self.pool.slots@;
            self.pool.put(idx);
            proof {
                let (part, next) = (pages@.take(n as int), pages@.take(n + 1));
                assert forall|i: int| 0 <= i < s.len() implies #[trigger] self.pool.slots@[i] == (
                s[i] || names_frame(next, i)) by {
                    assert(entry[i] == (s[i] || names_frame(part, i)));
                    if names_frame(part, i) {
                        let k = choose|k: int|
                            0 <= k < part.len() && (#[trigger] part[k] - MEM_OFF) / PAGE_SZ as int
                                == i;
                        assert(next[k] == part[k]);
                    }
                    if names_frame(next, i) {
                        let k = choose|k: int|
                            0 <= k < next.len() && (#[trigger] next[k] - MEM_OFF) / PAGE_SZ as int
                                == i;
                        if k < n {
                            assert(part[k] == next[k]);
                        }
                    }
                    if i == idx {
                        assert(next[n as int] == pages@[n as int]);
                    }
                }
            }
            n += 1;
        }
        assert(pages@.take(n as int) =~= pages@);
    }

    /// The share of the frames that is in use, in percent; 100 where there are none.
    pub open spec fn pressure(self) -> int {
        if self.pool.cap == 0 {
            100
        } else {
            (self.pool.cap - crate::memory::frames::free_in(self.pool.slots@)) * 100
                / self.pool.cap as int
        }
    }

    /// The share of the frames that is in use, in percent; 100 where there are none.
    pub fn memory_pressure(&self) -> (r: usize)
        requires
            self.wf(),
        ensures
            r == self.pressure(),
            r <= 100,
    {
        let total: usize = self.pool.cap;
        if total == 0 {
            return 100;
        }
        let free: usize = self.pool.free_count();
        proof {
            crate::memory::frames::lemma_free_ids(self.pool.slots@);
            let (u, t) = (total as int - free as int, total as int);
            assert(0 <= u * 100 / t <= 100) by (nonlinear_arith)
                requires
                    0 <= u <= t,
                    t > 0,
            ;
        }
        let used: u128 = (total - free) as u128;
        (used * 100 / total as u128) as usize
    }

    /// How many blocks are cached, and how many of them are modified.
    pub fn cache_stats(&self) -> (r: (usize, usize))
        requires
            self.cache.wf(),
            crate::fs::block_cache::sum_over(
                self.cache.chains@,
                crate::fs::block_cache::slot_count(),
            ) <= usize::MAX,
            crate::fs::block_cache::sum_over(
                self.cache.chains@,
                crate::fs::block_cache::modified_count(),
            ) <= usize::MAX,
        ensures
            r.0 == crate::fs::block_cache::sum_over(
                self.cache.chains@,
                crate::fs::block_cache::slot_count(),
            ),
            r.1 == crate::fs::block_cache::sum_over(
                self.cache.chains@,
                crate::fs::block_cache::modified_count(),
            ),
    {
        (self.cache.total_entries(), self.cache.dirty_count())
    }
}

/// Memory is under no pressure while every frame is free and under full pressure once none
/// is; the fewer frames are free, the higher it is.
pub proof fn law_pressure_rises(a: Kernel, b: Kernel)
    requires
        a.pool.cap == b.pool.cap,
        a.pool.cap > 0,
        crate::memory::frames::free_in(b.pool.slots@) <= crate::memory::frames::free_in(
            a.pool.slots@,
        ) <= a.pool.cap,
    ensures
        0 <= a.pressure() <= b.pressure() <= 100,
        crate::memory::frames::free_in(a.pool.slots@) == a.pool.cap ==> a.pressure() == 0,
        crate::memory::frames::free_in(b.pool.slots@) == 0 ==> b.pressure() == 100,
        a.pressure() * a.pool.cap <= 100 * (a.pool.cap - crate::memory::frames::free_in(
            a.pool.slots@,
        )) < (a.pressure() + 1) * a.pool.cap,
{
    let c = a.pool.cap as int;
    let x = (c - crate::memory::frames::free_in(a.pool.slots@)) * 100;
    let y = (c - crate::memory::frames::free_in(b.pool.slots@)) * 100;
    vstd::arithmetic::div_mod::lemma_div_is_ordered(x, y, c);
    vstd::arithmetic::div_mod::lemma_div_is_ordered(y, 100 * c, c);
    vstd::arithmetic::div_mod::lemma_div_multiples_vanish(100, c);
    vstd::arithmetic::div_mod::lemma_div_pos_is_pos(x, c);
    vstd::arithmetic::div_mod::lemma_fundamental_div_mod(x, c);
    assert(c * (x / c) == (x / c) * c && (x / c + 1) * c == (x / c) * c + c && c * 100 == 100 * c)
        by (nonlinear_arith);
    if crate::memory::frames::free_in(a.pool.slots@) == c {
        vstd::arithmetic::div_mod::lemma_div_basics(c);
    }
}

/// Giving pages back frees their frames and no others, and takes none.
pub proof fn law_freed_pages_are_free(s: Seq<bool>, pages: Seq<usize>, post: Seq<bool>, k: int, i: int)
    requires
        freed(s, pages, post),
        0 <= i < s.len(),
    ensures
        post.len() == s.len(),
        s[i] ==> post[i],
        0 <= k < pages.len() && crate::memory::frames::frame_addr(i) == pages[k] ==> post[i],
        post[i] && !s[i] ==> exists|j: int|
            0 <= j < pages.len() && crate::memory::frames::frame_addr(i) <= #[trigger] pages[j]
                < crate::memory::frames::frame_addr(i) + 4096,
{
    if 0 <= k < pages.len() && crate::memory::frames::frame_addr(i) == pages[k] {
        assert((pages[k] - MEM_OFF) / PAGE_SZ as int == i);
    }
}

/// A processor that runs a task counts it and its children; an idle one counts none.
pub proof fn law_load_counts_families(a: Kernel, c: int, t: usize)
    requires
        0 <= c < MAX_CPU,
        a.tasks.tasks@[t as int].subtasks@.len() < usize::MAX,
    ensures
        a.cpus@[c] == Some(t) ==> a.counts()[c] == a.tasks.tasks@[t as int].subtasks@.len() + 1
            && a.groups()[c] == a.tasks.tasks@[t as int].pgid && a.stalled()[c]
            == (a.tasks.tasks@[t as int].info.status is Some),
        a.cpus@[c] is None ==> a.counts()[c] == 0 && a.groups()[c] == 0 && !a.stalled()[c],
{
}

} // verus!
